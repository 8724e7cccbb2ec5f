//! How the arguments of a call act on the options, one after the other.
use crate::options::{as_folder, number, options_from, OptionsView};
use vstd::prelude::*;

verus! {

/// Arguments before the one to be read next do not count.
proof fn lemma_rest(args: Seq<Seq<char>>, more: Seq<Seq<char>>, i: int, j: int, options: OptionsView)
    requires
        0 <= i <= args.len(),
        0 <= j <= more.len(),
        args.len() - i == more.len() - j,
        forall|k: int| 0 <= k < args.len() - i ==> args[i + k] == #[trigger] more[j + k],
    ensures
        options_from(args, i, options) == options_from(more, j, options),
    decreases args.len() - i,
{
    if i < args.len() {
        assert(more[j + 0] == args[i + 0]);
        assert forall|k: int| 0 <= k < args.len() - (i + 1) implies args[i + 1 + k]
            == #[trigger] more[j + 1 + k] by {
            assert(args[i + (k + 1)] == more[j + (k + 1)]);
        }
        let value = if i + 1 < args.len() {
            args[i + 1]
        } else {
            args[i]
        };
        if i + 1 < args.len() {
            assert(more[j + 1] == args[i + 1]);
            assert forall|k: int| 0 <= k < args.len() - (i + 2) implies args[i + 2 + k]
                == #[trigger] more[j + 2 + k] by {
                assert(args[i + (k + 2)] == more[j + (k + 2)]);
            }
            lemma_rest(args, more, i + 2, j + 2, OptionsView { minecraft: Some(value), ..options });
            lemma_rest(
                args,
                more,
                i + 2,
                j + 2,
                OptionsView { output: as_folder(value), ..options },
            );
            let resolution = match number(value) {
                Some(n) => n,
                None => options.resolution,
            };
            lemma_rest(args, more, i + 2, j + 2, OptionsView { resolution, ..options });
        }
        lemma_rest(args, more, i + 1, j + 1, OptionsView { interpolate: true, ..options });
        lemma_rest(args, more, i + 1, j + 1, OptionsView { antialias: false, ..options });
        lemma_rest(args, more, i + 1, j + 1, options);
    }
}

/// Whether an argument is one of the options that take a value.
pub open spec fn takes_a_value(word: Seq<char>) -> bool {
    word == "--minecraft"@ || word == "--output"@ || word == "--render-resolution"@
}

/// An option without value acts on its own option alone, and the rest is read as it would be
/// without it.
pub proof fn law_options_without_value(rest: Seq<Seq<char>>, options: OptionsView)
    ensures
        options_from(seq!["--no-aa"@] + rest, 0, options) == options_from(
            rest,
            0,
            OptionsView { antialias: false, ..options },
        ),
        options_from(seq!["--interpolate"@] + rest, 0, options) == options_from(
            rest,
            0,
            OptionsView { interpolate: true, ..options },
        ),
        options_from(seq!["-i"@] + rest, 0, options) == options_from(
            rest,
            0,
            OptionsView { interpolate: true, ..options },
        ),
{
    lemma_words_differ();
    lemma_rest(
        seq!["--no-aa"@] + rest,
        rest,
        1,
        0,
        OptionsView { antialias: false, ..options },
    );
    lemma_rest(
        seq!["--interpolate"@] + rest,
        rest,
        1,
        0,
        OptionsView { interpolate: true, ..options },
    );
    lemma_rest(seq!["-i"@] + rest, rest, 1, 0, OptionsView { interpolate: true, ..options });
}

/// An option with a value acts on its own option alone, whatever the value looks like, and the
/// rest is read as it would be without the two.
pub proof fn law_options_with_value(
    value: Seq<char>,
    rest: Seq<Seq<char>>,
    options: OptionsView,
    n: usize,
)
    ensures
        options_from(seq!["--minecraft"@, value] + rest, 0, options) == options_from(
            rest,
            0,
            OptionsView { minecraft: Some(value), ..options },
        ),
        options_from(seq!["--output"@, value] + rest, 0, options) == options_from(
            rest,
            0,
            OptionsView { output: as_folder(value), ..options },
        ),
        number(value) == Some(n) ==> options_from(
            seq!["--render-resolution"@, value] + rest,
            0,
            options,
        ) == options_from(rest, 0, OptionsView { resolution: n, ..options }),
        number(value) is None ==> options_from(
            seq!["--render-resolution"@, value] + rest,
            0,
            options,
        ) == options_from(rest, 0, options),
{
    lemma_words_differ();
    let a = seq!["--minecraft"@, value] + rest;
    assert(a[0] == "--minecraft"@ && a[1] == value);
    lemma_rest(a, rest, 2, 0, OptionsView { minecraft: Some(value), ..options });
    let b = seq!["--output"@, value] + rest;
    assert(b[0] == "--output"@ && b[1] == value);
    lemma_rest(b, rest, 2, 0, OptionsView { output: as_folder(value), ..options });
    let c = seq!["--render-resolution"@, value] + rest;
    assert(c[0] == "--render-resolution"@ && c[1] == value);
    let resolution = match number(value) {
        Some(m) => m,
        None => options.resolution,
    };
    lemma_rest(c, rest, 2, 0, OptionsView { resolution, ..options });
}

/// Anything else is passed over, and so is an option at the end whose value is missing.
pub proof fn law_other_arguments(word: Seq<char>, rest: Seq<Seq<char>>, options: OptionsView)
    requires
        word != "--interpolate"@ && word != "-i"@ && word != "--no-aa"@,
        takes_a_value(word) ==> rest.len() == 0,
    ensures
        options_from(seq![word] + rest, 0, options) == options_from(rest, 0, options),
        options_from(Seq::<Seq<char>>::empty(), 0, options) == options,
{
    lemma_rest(seq![word] + rest, rest, 1, 0, options);
}

/// The words of the options are different.
proof fn lemma_words_differ()
    ensures
        "--minecraft"@ != "--output"@,
        "--minecraft"@ != "--render-resolution"@,
        "--output"@ != "--render-resolution"@,
        !takes_a_value("--interpolate"@),
        !takes_a_value("-i"@),
        !takes_a_value("--no-aa"@),
        "--interpolate"@ != "--no-aa"@,
        "-i"@ != "--no-aa"@,
{
    reveal_strlit("--minecraft");
    reveal_strlit("--output");
    reveal_strlit("--render-resolution");
    reveal_strlit("--interpolate");
    reveal_strlit("-i");
    reveal_strlit("--no-aa");
    assert("--minecraft"@.len() == 11 && "--output"@.len() == 8 && "--render-resolution"@.len() == 19
        && "--interpolate"@.len() == 13 && "-i"@.len() == 2 && "--no-aa"@.len() == 7);
}

/// A folder ends with a separator, and is the path itself but for that.
pub proof fn law_folders_end_with_a_separator(path: Seq<char>)
    ensures
        as_folder(path.push('/')) == path.push('/'),
        as_folder(path.push('\\')) == path.push('\\'),
        as_folder(path) == path || as_folder(path) == path.push('/'),
        as_folder(path).last() == '/' || as_folder(path).last() == '\\',
{
}

/// What a digit stands for.
pub open spec fn digit_value(c: char) -> nat {
    if c == '1' {
        1
    } else if c == '2' {
        2
    } else if c == '3' {
        3
    } else if c == '4' {
        4
    } else if c == '5' {
        5
    } else if c == '6' {
        6
    } else if c == '7' {
        7
    } else if c == '8' {
        8
    } else if c == '9' {
        9
    } else {
        0
    }
}

/// Numbers are written in decimal: a digit alone stands for itself, and one more digit makes ten
/// times as much and that digit, as far as there are such numbers; anything but a digit behind
/// makes it no number.
pub proof fn law_numbers_are_decimal(text: Seq<char>, c: char, n: usize)
    ensures
        '0' <= c && c <= '9' ==> number(seq![c]) == Some(digit_value(c) as usize),
        number(text) == Some(n) && '0' <= c && c <= '9' && 10 * n + digit_value(c) <= usize::MAX
            ==> number(text.push(c)) == Some((10 * n + digit_value(c)) as usize),
        number(text) == Some(n) && '0' <= c && c <= '9' && 10 * n + digit_value(c) > usize::MAX
            ==> number(text.push(c)) is None,
        text.len() > 0 && !('0' <= c && c <= '9') ==> number(text.push(c)) is None,
        number(Seq::<char>::empty()) is None,
{
    lemma_one_more_digit(text, c);
}

/// A plus sign in front of digits changes nothing; alone, or before another, it is no number.
pub proof fn law_plus_signs(text: Seq<char>)
    ensures
        text.len() == 0 || text[0] != '+' ==> number(seq!['+'] + text) == number(text),
        text.len() > 0 && text[0] == '+' ==> number(seq!['+'] + text) is None,
{
    let more = seq!['+'] + text;
    assert(more.skip(1) == text);
    if text.len() > 0 && text[0] == '+' {
        assert(crate::options::digits_of(more) == text);
        assert(!crate::options::is_digit(text[0]));
    }
}

proof fn lemma_one_more_digit(text: Seq<char>, c: char)
    ensures
        crate::options::is_digit(c) ==> number(seq![c]) == Some(digit_value(c) as usize),
        crate::options::is_digit(c) && number(text) is Some ==> ({
            let v = 10 * number(text)->0 + digit_value(c);
            number(text.push(c)) == (if v <= usize::MAX {
                Some(v as usize)
            } else {
                None
            })
        }),
        text.len() > 0 && !crate::options::is_digit(c) ==> number(text.push(c)) is None,
{
    let one = seq![c];
    assert(one.drop_last() == Seq::<char>::empty());
    assert(crate::options::digits_value(Seq::<char>::empty()) == 0);
    let more = text.push(c);
    let digits = crate::options::digits_of(text);
    if text.len() > 0 {
        assert(crate::options::digits_of(more) == digits.push(c));
        assert(digits.push(c).drop_last() == digits);
        let all = digits.push(c);
        assert(all[digits.len() as int] == c);
        if number(text) is Some {
            assert forall|i: int| 0 <= i < all.len() && crate::options::is_digit(c) implies
                crate::options::is_digit(#[trigger] all[i]) by {
                if i < digits.len() {
                    assert(all[i] == digits[i]);
                }
            }
        }
    }
    if crate::options::is_digit(c) {
        assert(crate::options::digits_of(one) == one);
        assert(forall|i: int| 0 <= i < one.len() ==> one[i] == c);
        assert(digit_value(c) == (c as nat - '0' as nat) as nat);
    }
}

}
