//! Text, as a sequence of characters.
use vstd::prelude::*;
use vstd::string::{StrSliceExecFns, StringExecFns};

verus! {

/// `String::push`: appends one character to the end of the string.
pub assume_specification[ String::push ](s: &mut String, c: char)
    ensures
        final(s)@ == old(s)@.push(c),
;

/// The texts of the strings.
pub open spec fn texts(strings: Seq<String>) -> Seq<Seq<char>> {
    Seq::new(strings.len(), |i: int| strings[i]@)
}

/// `text` without any occurrence of `pattern`, found from the front; what
/// moves together when an occurrence goes is not looked at again.
pub open spec fn without(text: Seq<char>, pattern: Seq<char>) -> Seq<char>
    decreases text.len(),
{
    if pattern.len() == 0 || text.len() < pattern.len() {
        text
    } else if pattern.is_prefix_of(text) {
        without(text.skip(pattern.len() as int), pattern)
    } else {
        seq![text[0]] + without(text.skip(1), pattern)
    }
}

/// Whether the two texts are the same.
pub fn same_text(a: &str, b: &str) -> (r: bool)
    ensures
        r == (a@ == b@),
{
    a.to_owned() == b.to_owned()
}

/// The characters of a text.
pub fn characters(text: &str) -> (r: Vec<char>)
    ensures
        r@ == text@,
{
    let mut chars: Vec<char> = Vec::new();
    for c in it: text.chars()
        invariant
            it.seq() == text@,
            chars@ == text@.take(it.index()),
    {
        proof {
            assert(text@.take(it.index() + 1) == text@.take(it.index()).push(c));
        }
        chars.push(c);
    }
    assert(text@.take(text@.len() as int) == text@);
    chars
}

/// Whether `pattern` stands in `text` at `at`.
fn stands_at(text: &Vec<char>, at: usize, pattern: &Vec<char>) -> (r: bool)
    requires
        at <= text.len(),
    ensures
        r == pattern@.is_prefix_of(text@.skip(at as int)),
{
    if text.len() - at < pattern.len() {
        return false;
    }
    let mut i: usize = 0;
    while i < pattern.len()
        invariant
            at + pattern.len() <= text.len(),
            i <= pattern.len(),
            forall|j: int| 0 <= j < i ==> pattern@[j] == text@[at + j],
        decreases pattern.len() - i,
    {
        if pattern[i] != text[at + i] {
            assert(pattern@[i as int] != text@.skip(at as int)[i as int]);
            return false;
        }
        i += 1;
    }
    assert(text@.skip(at as int).take(pattern@.len() as int) == pattern@);
    true
}

/// Whether `text` starts with `pattern`.
pub fn starts_with(text: &str, pattern: &str) -> (r: bool)
    ensures
        r == pattern@.is_prefix_of(text@),
{
    let t = characters(text);
    let p = characters(pattern);
    assert(t@.skip(0) == t@);
    stands_at(&t, 0, &p)
}

/// `text` without any occurrence of `pattern`.
pub fn remove_all(text: &str, pattern: &str) -> (r: String)
    ensures
        r@ == without(text@, pattern@),
{
    let t = characters(text);
    let p = characters(pattern);
    let mut out = String::new();
    let mut i: usize = 0;
    assert(t@.skip(0) == t@);
    while i < t.len()
        invariant
            i <= t.len(),
            without(t@, p@) == out@ + without(t@.skip(i as int), p@),
        decreases t.len() - i,
    {
        let ghost rest = t@.skip(i as int);
        if p.len() > 0 && stands_at(&t, i, &p) {
            assert(rest.skip(p@.len() as int) == t@.skip(i + p@.len()));
            i += p.len();
        } else {
            assert(rest.skip(1) == t@.skip(i + 1));
            proof {
                lemma_without_step(rest, p@);
            }
            out.push(t[i]);
            assert(seq![rest[0]] + without(rest.skip(1), p@) == without(rest, p@));
            i += 1;
        }
    }
    assert(out@ + without(t@.skip(i as int), p@) == out@);
    out
}

/// Where no occurrence starts, the first character stays.
pub proof fn lemma_without_step(text: Seq<char>, pattern: Seq<char>)
    requires
        text.len() > 0,
        pattern.len() == 0 || !pattern.is_prefix_of(text),
    ensures
        without(text, pattern) == seq![text[0]] + without(text.skip(1), pattern),
{
    if pattern.len() == 0 || text.len() < pattern.len() {
        assert(without(text.skip(1), pattern) == text.skip(1));
        assert(seq![text[0]] + text.skip(1) == text);
    }
}

/// The texts one after the other.
pub fn join(a: &str, b: &str) -> (r: String)
    ensures
        r@ == a@ + b@,
{
    let mut out = a.to_owned();
    out.append(b);
    out
}

/// The text after its first character.
pub fn after_first(text: &str) -> (r: String)
    requires
        text@.len() > 0,
    ensures
        r@ == text@.skip(1),
{
    let n: usize = text.unicode_len();
    let tail = text.substring_char(1, n);
    tail.to_owned()
}

/// An occurrence at the front goes without a trace.
pub proof fn lemma_without_front(pattern: Seq<char>, text: Seq<char>)
    requires
        pattern.len() > 0,
    ensures
        without(pattern + text, pattern) == without(text, pattern),
{
    assert((pattern + text).take(pattern.len() as int) == pattern);
    assert((pattern + text).skip(pattern.len() as int) == text);
}

/// A front that holds no first character of the pattern stays.
pub proof fn lemma_without_keeps_front(front: Seq<char>, text: Seq<char>, pattern: Seq<char>)
    requires
        pattern.len() > 0,
        forall|i: int| 0 <= i < front.len() ==> #[trigger] front[i] != pattern[0],
    ensures
        without(front + text, pattern) == front + without(text, pattern),
    decreases front.len(),
{
    if front.len() == 0 {
        assert(front + text == text);
        assert(front + without(text, pattern) == without(text, pattern));
    } else {
        let whole = front + text;
        assert(whole[0] == front[0]);
        assert(!pattern.is_prefix_of(whole));
        lemma_without_step(whole, pattern);
        assert(whole.skip(1) == front.skip(1) + text);
        lemma_without_keeps_front(front.skip(1), text, pattern);
        assert(seq![front[0]] + (front.skip(1) + without(text, pattern)) == front + without(
            text,
            pattern,
        ));
    }
}

}
