//! The options of a run, as they are given on the command line.
use crate::text::{characters, join, same_text, texts};
use vstd::prelude::*;

verus! {

/// The options of a run.
#[derive(Debug)]
pub struct RenderOptions {
    /// The folder of assets that was asked for.
    pub minecraft: Option<String>,
    /// The folder for the images, with a separator at its end.
    pub output: String,
    /// The width and height of the images.
    pub resolution: usize,
    /// Whether animations may fade from frame to frame.
    pub interpolate: bool,
    /// Whether edges are smoothed.
    pub antialias: bool,
}

/// What the options stand for.
pub struct OptionsView {
    pub minecraft: Option<Seq<char>>,
    pub output: Seq<char>,
    pub resolution: usize,
    pub interpolate: bool,
    pub antialias: bool,
}

impl View for RenderOptions {
    type V = OptionsView;

    open spec fn view(&self) -> OptionsView {
        OptionsView {
            minecraft: match self.minecraft {
                Some(path) => Some(path@),
                None => None,
            },
            output: self.output@,
            resolution: self.resolution,
            interpolate: self.interpolate,
            antialias: self.antialias,
        }
    }
}

/// The options where none is given.
pub open spec fn default_options() -> OptionsView {
    OptionsView {
        minecraft: None,
        output: "./output/"@,
        resolution: 128,
        interpolate: false,
        antialias: true,
    }
}

/// Whether a path ends with a separator.
pub open spec fn ends_with_separator(path: Seq<char>) -> bool {
    path.len() > 0 && (path.last() == '/' || path.last() == '\\')
}

/// The path with a separator at its end.
pub open spec fn as_folder(path: Seq<char>) -> Seq<char> {
    if ends_with_separator(path) {
        path
    } else {
        path.push('/')
    }
}

/// Whether a character is a decimal digit.
pub open spec fn is_digit(c: char) -> bool {
    '0' <= c && c <= '9'
}

/// The number written with the given digits.
pub open spec fn digits_value(digits: Seq<char>) -> nat
    decreases digits.len(),
{
    if digits.len() == 0 {
        0
    } else {
        10 * digits_value(digits.drop_last()) + (digits.last() as nat - '0' as nat) as nat
    }
}

/// The digits of a number: what is written after a plus sign, if there is one.
pub open spec fn digits_of(text: Seq<char>) -> Seq<char> {
    if text.len() > 0 && text[0] == '+' {
        text.skip(1)
    } else {
        text
    }
}

/// The number that a text stands for: digits only, at least one, after a plus sign if there is
/// one, and not too great a number.
pub open spec fn number(text: Seq<char>) -> Option<usize> {
    let digits = digits_of(text);
    if digits.len() > 0 && (forall|i: int| 0 <= i < digits.len() ==> is_digit(#[trigger] digits[i]))
        && digits_value(digits) <= usize::MAX {
        Some(digits_value(digits) as usize)
    } else {
        None
    }
}

/// The options once the arguments from `i` on are read. The last of several counts; what is not
/// known is passed over, and so is an option whose value is missing.
pub open spec fn options_from(args: Seq<Seq<char>>, i: int, options: OptionsView) -> OptionsView
    decreases args.len() - i,
{
    if i < 0 || i >= args.len() {
        options
    } else if args[i] == "--minecraft"@ && i + 1 < args.len() {
        options_from(args, i + 2, OptionsView { minecraft: Some(args[i + 1]), ..options })
    } else if args[i] == "--output"@ && i + 1 < args.len() {
        options_from(args, i + 2, OptionsView { output: as_folder(args[i + 1]), ..options })
    } else if args[i] == "--render-resolution"@ && i + 1 < args.len() {
        let resolution = match number(args[i + 1]) {
            Some(n) => n,
            None => options.resolution,
        };
        options_from(args, i + 2, OptionsView { resolution, ..options })
    } else if args[i] == "--interpolate"@ || args[i] == "-i"@ {
        options_from(args, i + 1, OptionsView { interpolate: true, ..options })
    } else if args[i] == "--no-aa"@ {
        options_from(args, i + 1, OptionsView { antialias: false, ..options })
    } else {
        options_from(args, i + 1, options)
    }
}

/// The path with a separator at its end.
fn to_folder(path: &str) -> (r: String)
    ensures
        r@ == as_folder(path@),
{
    let chars = characters(path);
    let mut out = path.to_owned();
    let n = chars.len();
    if n > 0 && (chars[n - 1] == '/' || chars[n - 1] == '\\') {
        return out;
    }
    out.push('/');
    out
}

/// The number that a text stands for.
pub fn parse_number(text: &str) -> (r: Option<usize>)
    ensures
        r == number(text@),
{
    let chars = characters(text);
    let ghost digits = digits_of(text@);
    let skipped: usize = if chars.len() > 0 && chars[0] == '+' { 1 } else { 0 };
    if chars.len() == skipped {
        return None;
    }
    assert(digits == text@.skip(skipped as int));
    let mut value: usize = 0;
    let mut too_great = false;
    let mut i: usize = skipped;
    while i < chars.len()
        invariant
            chars@ == text@,
            digits == digits_of(text@),
            digits == text@.skip(skipped as int),
            skipped <= i <= chars@.len(),
            digits.len() > 0,
            forall|k: int| 0 <= k < i - skipped ==> is_digit(#[trigger] digits[k]),
            !too_great ==> value == digits_value(digits.take(i - skipped)),
            too_great ==> digits_value(digits.take(i - skipped)) > usize::MAX,
        decreases chars.len() - i,
    {
        let c = chars[i];
        assert(digits[i - skipped] == c);
        assert(digits.take(i - skipped + 1).drop_last() == digits.take(i - skipped));
        assert(digits.take(i - skipped + 1).last() == c);
        if !('0' <= c && c <= '9') {
            assert(!is_digit(digits[i - skipped]));
            return None;
        }
        let digit: usize = c as usize - '0' as usize;
        if !too_great {
            if value > (usize::MAX - digit) / 10 {
                assert(10 * value + digit > usize::MAX);
                too_great = true;
            } else {
                value = 10 * value + digit;
            }
        }
        i += 1;
    }
    assert(digits.take(i - skipped) == digits);
    if too_great {
        None
    } else {
        Some(value)
    }
}

/// The options that the arguments of a run ask for; the first argument is the name of the
/// program.
pub fn parse_args(args: &Vec<String>) -> (r: RenderOptions)
    ensures
        r@ == options_from(texts(args@), 1, default_options()),
{
    let ghost all = texts(args@);
    let mut options = RenderOptions {
        minecraft: None,
        output: "./output/".to_owned(),
        resolution: 128,
        interpolate: false,
        antialias: true,
    };
    let mut i: usize = 1;
    while i < args.len()
        invariant
            all == texts(args@),
            1 <= i,
            options_from(all, i as int, options@) == options_from(all, 1, default_options()),
        decreases args.len() - i,
    {
        let arg = args[i].as_str();
        assert(all[i as int] == arg@);
        let ghost before = options@;
        let more = i + 1 < args.len();
        if same_text(arg, "--minecraft") && more {
            assert(all[i + 1] == args@[i + 1]@);
            options.minecraft = Some(args[i + 1].clone());
            i += 1;
        } else if same_text(arg, "--output") && more {
            assert(all[i + 1] == args@[i + 1]@);
            options.output = to_folder(args[i + 1].as_str());
            i += 1;
        } else if same_text(arg, "--render-resolution") && more {
            assert(all[i + 1] == args@[i + 1]@);
            if let Some(n) = parse_number(args[i + 1].as_str()) {
                options.resolution = n;
            }
            i += 1;
        } else if same_text(arg, "--interpolate") || same_text(arg, "-i") {
            options.interpolate = true;
        } else if same_text(arg, "--no-aa") {
            options.antialias = false;
        }
        i += 1;
    }
    options
}

/// The path of the image of a block.
pub fn output_path(save_path: &str, block: &str) -> (r: String)
    ensures
        r@ == save_path@ + block@ + ".webp"@,
{
    let start = join(save_path, block);
    join(start.as_str(), ".webp")
}

proof fn lemma_output_stays_a_folder(args: Seq<Seq<char>>, i: int, options: OptionsView)
    requires
        ends_with_separator(options.output),
    ensures
        ends_with_separator(options_from(args, i, options).output),
    decreases args.len() - i,
{
    if 0 <= i < args.len() {
        lemma_output_stays_a_folder(args, i + 1, options);
        lemma_output_stays_a_folder(
            args,
            i + 1,
            OptionsView { interpolate: true, ..options },
        );
        lemma_output_stays_a_folder(args, i + 1, OptionsView { antialias: false, ..options });
        if i + 1 < args.len() {
            lemma_output_stays_a_folder(
                args,
                i + 2,
                OptionsView { minecraft: Some(args[i + 1]), ..options },
            );
            lemma_output_stays_a_folder(
                args,
                i + 2,
                OptionsView { output: as_folder(args[i + 1]), ..options },
            );
            let resolution = match number(args[i + 1]) {
                Some(n) => n,
                None => options.resolution,
            };
            lemma_output_stays_a_folder(args, i + 2, OptionsView { resolution, ..options });
        }
    }
}

/// Whatever the arguments are, the folder for the images ends with a separator.
pub proof fn law_output_is_a_folder(args: Seq<Seq<char>>)
    ensures
        ends_with_separator(options_from(args, 1, default_options()).output),
{
    reveal_strlit("./output/");
    lemma_output_stays_a_folder(args, 1, default_options());
}

}
