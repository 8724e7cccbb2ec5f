//! Chains of names, each of which leads to at most one next.
use vstd::prelude::*;

verus! {

/// Where each name leads.
pub type Next = spec_fn(Seq<char>) -> Option<Seq<char>>;

/// Whether the chain from `name` ends after at most `n` steps.
pub open spec fn ends_within(next: Next, name: Seq<char>, n: nat) -> bool
    decreases n,
{
    match next(name) {
        None => true,
        Some(following) => n > 0 && ends_within(next, following, (n - 1) as nat),
    }
}

/// Whether the chain from `name` ends.
pub open spec fn ends(next: Next, name: Seq<char>) -> bool {
    exists|n: nat| ends_within(next, name, n)
}

/// A number of steps within which the chain from `name` ends.
pub open spec fn steps(next: Next, name: Seq<char>) -> nat {
    choose|n: nat| ends_within(next, name, n)
}

/// The name at which the chain from `name` ends, after at most `n` steps.
pub open spec fn last_within(next: Next, name: Seq<char>, n: nat) -> Seq<char>
    decreases n,
{
    match next(name) {
        None => name,
        Some(following) => if n == 0 {
            name
        } else {
            last_within(next, following, (n - 1) as nat)
        },
    }
}

/// The name at which the chain from `name` ends.
pub open spec fn last(next: Next, name: Seq<char>) -> Seq<char> {
    last_within(next, name, steps(next, name))
}

/// Whether each name of `path` leads to the one after it.
pub open spec fn is_path(next: Next, path: Seq<Seq<char>>) -> bool {
    forall|i: int| 0 <= i < path.len() - 1 ==> next(#[trigger] path[i]) == Some(path[i + 1])
}

/// A chain ends just where the chain from the name that it leads to ends.
pub proof fn lemma_ends_step(next: Next, name: Seq<char>)
    ensures
        next(name) is None ==> ends(next, name),
        next(name) matches Some(following) ==> ends(next, name) == ends(next, following),
{
    match next(name) {
        None => {
            assert(ends_within(next, name, 0));
        },
        Some(following) => {
            if ends(next, name) {
                let n = steps(next, name);
                assert(ends_within(next, following, (n - 1) as nat));
            }
            if ends(next, following) {
                let n = steps(next, following);
                assert(ends_within(next, name, n + 1));
            }
        },
    }
}

/// Where a chain ends does not depend on how many steps are allowed.
pub proof fn lemma_last_within(next: Next, name: Seq<char>, m: nat, n: nat)
    requires
        ends_within(next, name, m),
        ends_within(next, name, n),
    ensures
        last_within(next, name, m) == last_within(next, name, n),
    decreases m,
{
    if let Some(following) = next(name) {
        lemma_last_within(next, following, (m - 1) as nat, (n - 1) as nat);
    }
}

/// The chain from a name ends where the chain from the name that it leads to ends.
pub proof fn lemma_last_step(next: Next, name: Seq<char>)
    requires
        ends(next, name),
    ensures
        last(next, name) == (match next(name) {
            None => name,
            Some(following) => last(next, following),
        }),
        next(last(next, name)) is None,
{
    let n = steps(next, name);
    lemma_last_has_no_next(next, name, n);
    if let Some(following) = next(name) {
        lemma_ends_step(next, name);
        lemma_last_within(next, following, (n - 1) as nat, steps(next, following));
    }
}

proof fn lemma_last_has_no_next(next: Next, name: Seq<char>, n: nat)
    requires
        ends_within(next, name, n),
    ensures
        next(last_within(next, name, n)) is None,
    decreases n,
{
    if let Some(following) = next(name) {
        lemma_last_has_no_next(next, following, (n - 1) as nat);
    }
}

/// Along a path the number of steps left goes down.
proof fn lemma_walk(next: Next, path: Seq<Seq<char>>, from: int, to: int, n: nat)
    requires
        is_path(next, path),
        0 <= from <= to < path.len(),
        ends_within(next, path[from], n),
    ensures
        n >= to - from,
        ends_within(next, path[to], (n - (to - from)) as nat),
    decreases to - from,
{
    if from < to {
        assert(next(path[from]) == Some(path[from + 1]));
        lemma_walk(next, path, from + 1, to, (n - 1) as nat);
    }
}

proof fn lemma_circle_within(next: Next, path: Seq<Seq<char>>, at: int, n: nat)
    requires
        is_path(next, path),
        0 <= at < path.len() - 1,
        path[at] == path.last(),
    ensures
        !ends_within(next, path.last(), n),
    decreases n,
{
    if ends_within(next, path.last(), n) {
        let round = path.len() - 1 - at;
        lemma_walk(next, path, at, path.len() - 1, n);
        lemma_circle_within(next, path, at, (n - round) as nat);
    }
}

/// A chain that comes back to a name does not end.
pub proof fn lemma_circle(next: Next, path: Seq<Seq<char>>, at: int)
    requires
        is_path(next, path),
        0 <= at < path.len() - 1,
        path[at] == path.last(),
    ensures
        !ends(next, path.last()),
{
    if ends(next, path.last()) {
        lemma_circle_within(next, path, at, steps(next, path.last()));
    }
}

/// Distinct names out of a list are no more than the list holds.
pub proof fn lemma_no_more_than(some: Seq<Seq<char>>, all: Seq<Seq<char>>)
    requires
        some.no_duplicates(),
        forall|i: int| 0 <= i < some.len() ==> all.contains(#[trigger] some[i]),
    ensures
        some.len() <= all.len(),
{
    some.unique_seq_to_set();
    all.lemma_cardinality_of_set();
    assert(some.to_set().subset_of(all.to_set()));
    vstd::set_lib::lemma_len_subset(some.to_set(), all.to_set());
}

}
