//! Names for algorithms and for output files.
use crate::args::Opt;
use crate::error::ScError;
use vstd::prelude::*;
use vstd::string::{StrSliceExecFns, StringExecFns};

verus! {

/// A segmentation algorithm.
#[derive(Debug, Clone, Copy, PartialEq, Eq, Structural)]
pub enum Algorithm {
    /// Simple non-iterative clustering.
    Snic,
    /// Simple linear iterative clustering.
    Slic,
}

/// The lower-case form of an ASCII capital; any other character as it
/// is.
pub open spec fn ascii_lower(c: char) -> char {
    if 'A' <= c <= 'Z' {
        ((c as u32) + 32) as char
    } else {
        c
    }
}

/// Whether `text` and `name` are the same but for the case of ASCII
/// letters.
pub open spec fn eq_ignore_case(text: Seq<char>, name: Seq<char>) -> bool {
    &&& text.len() == name.len()
    &&& forall|i: int| 0 <= i < text.len() ==> ascii_lower(#[trigger] text[i]) == ascii_lower(name[i])
}

/// The lower-case form of an ASCII capital; any other character as it
/// is.
fn to_ascii_lower(c: char) -> (r: char)
    ensures
        r == ascii_lower(c),
{
    if 'A' <= c && c <= 'Z' {
        ((c as u8) + 32) as char
    } else {
        c
    }
}

/// Whether `text` and `name` are the same but for the case of ASCII
/// letters.
pub fn same_ignoring_case(text: &str, name: &str) -> (r: bool)
    ensures
        r == eq_ignore_case(text@, name@),
{
    let n: usize = text.unicode_len();
    if n != name.unicode_len() {
        return false;
    }
    let mut i: usize = 0;
    while i < n
        invariant
            i <= n,
            n == text@.len(),
            n == name@.len(),
            forall|j: int| 0 <= j < i ==> ascii_lower(#[trigger] text@[j]) == ascii_lower(name@[j]),
        decreases n - i,
    {
        if to_ascii_lower(text.get_char(i)) != to_ascii_lower(name.get_char(i)) {
            return false;
        }
        i += 1;
    }
    true
}

impl Algorithm {
    /// The name of the algorithm, in lower case.
    pub open spec fn name_spec(self) -> Seq<char> {
        match self {
            Algorithm::Snic => "snic"@,
            Algorithm::Slic => "slic"@,
        }
    }

    /// The name of the algorithm, in lower case.
    pub fn name(&self) -> (text: &'static str)
        ensures
            text@ == self.name_spec(),
    {
        match self {
            Algorithm::Snic => "snic",
            Algorithm::Slic => "slic",
        }
    }

    /// The algorithm that `text` names, whatever the case of its
    /// letters.
    pub open spec fn named(text: Seq<char>) -> Option<Algorithm> {
        if eq_ignore_case(text, "snic"@) {
            Some(Algorithm::Snic)
        } else if eq_ignore_case(text, "slic"@) {
            Some(Algorithm::Slic)
        } else {
            None
        }
    }

    /// The algorithm that `text` names, whatever the case of its
    /// letters.
    pub fn parse(text: &str) -> (r: Result<Algorithm, ScError>)
        ensures
            match r {
                Ok(algorithm) => Algorithm::named(text@) == Some(algorithm),
                Err(e) => {
                    &&& Algorithm::named(text@) is None
                    &&& e matches ScError::General(message)
                    &&& message@ == "Invalid algorithm"@
                },
            },
    {
        if same_ignoring_case(text, "snic") {
            Ok(Algorithm::Snic)
        } else if same_ignoring_case(text, "slic") {
            Ok(Algorithm::Slic)
        } else {
            Err(ScError::General("Invalid algorithm"))
        }
    }
}

impl std::str::FromStr for Algorithm {
    type Err = ScError;

    /// The algorithm that `s` names, whatever the case of its letters;
    /// any other text is an error.
    fn from_str(s: &str) -> (r: Result<Self, ScError>)
        ensures
            match r {
                Ok(algorithm) => Algorithm::named(s@) == Some(algorithm),
                Err(e) => {
                    &&& Algorithm::named(s@) is None
                    &&& e matches ScError::General(message)
                    &&& message@ == "Invalid algorithm"@
                },
            },
    {
        Algorithm::parse(s)
    }
}

/// The character for the digit `d`.
pub open spec fn digit_char(d: int) -> char
    recommends
        0 <= d < 10,
{
    (d + 48) as char
}

/// The decimal digits of `n`.
pub open spec fn decimal(n: nat) -> Seq<char>
    decreases n,
{
    if n < 10 {
        seq![digit_char(n as int)]
    } else {
        decimal(n / 10).push(digit_char((n % 10) as int))
    }
}

/// The text of one decimal digit.
fn digit_text(d: u32) -> (text: &'static str)
    requires
        d < 10,
    ensures
        text@ == seq![digit_char(d as int)],
{
    proof {
        reveal_strlit("0");
        reveal_strlit("1");
        reveal_strlit("2");
        reveal_strlit("3");
        reveal_strlit("4");
        reveal_strlit("5");
        reveal_strlit("6");
        reveal_strlit("7");
        reveal_strlit("8");
        reveal_strlit("9");
    }
    let text: &'static str = match d {
        0 => "0",
        1 => "1",
        2 => "2",
        3 => "3",
        4 => "4",
        5 => "5",
        6 => "6",
        7 => "7",
        8 => "8",
        _ => "9",
    };
    assert(text@ =~= seq![digit_char(d as int)]);
    text
}

/// Append the decimal digits of `n` to `text`.
pub fn append_decimal(text: &mut String, n: u32)
    ensures
        final(text)@ == old(text)@ + decimal(n as nat),
    decreases n,
{
    if n >= 10 {
        append_decimal(text, n / 10);
    }
    text.append(digit_text(n % 10));
    assert(final(text)@ =~= old(text)@ + decimal(n as nat));
}

/// The extension of the output file: `jpg` for a format that names
/// JPEG in any case of letters, otherwise the format as it is.
pub open spec fn extension_spec(format: Seq<char>) -> Seq<char> {
    if eq_ignore_case(format, "jpg"@) || eq_ignore_case(format, "jpeg"@) {
        "jpg"@
    } else {
        format
    }
}

/// The compactness in at least two digits.
pub open spec fn two_digits(m: u8) -> Seq<char> {
    if m < 10 {
        seq!['0'] + decimal(m as nat)
    } else {
        decimal(m as nat)
    }
}

/// Append the compactness `m` in at least two digits to `text`.
pub fn append_two_digits(text: &mut String, m: u8)
    ensures
        final(text)@ == old(text)@ + two_digits(m),
{
    if m < 10 {
        proof {
            reveal_strlit("0");
        }
        text.append("0");
        append_decimal(text, m as u32);
        assert(final(text)@ =~= old(text)@ + two_digits(m)) by {
            assert("0"@ =~= seq!['0']);
        }
    } else {
        append_decimal(text, m as u32);
    }
}

/// The name of the output file up to the mark of what the image shows:
/// the stem of the input file, the algorithm, `k` and `m`.
pub open spec fn filename_head(stem: Seq<char>, opt: Opt) -> Seq<char> {
    stem + "-"@ + opt.algorithm.name_spec() + "-"@ + decimal(opt.k as nat) + "-"@ + two_digits(
        opt.m,
    )
}

/// The name of the output file without its extension: after the head,
/// whether the image shows mean colours or the input image, and whether
/// it shows segments.
pub open spec fn filename_body(stem: Seq<char>, opt: Opt) -> Seq<char> {
    let marked = filename_head(stem, opt) + if opt.no_mean {
        "-orig"@
    } else {
        "-mean"@
    };
    if opt.segments {
        marked + "-segments"@
    } else {
        marked
    }
}

/// The name of the output file for an input file with the stem `stem`.
pub open spec fn filename_spec(stem: Seq<char>, opt: Opt) -> Seq<char> {
    filename_body(stem, opt) + "."@ + extension_spec(opt.format@)
}

/// Create a file name from `stem` displaying the algorithm, `k`, and
/// `m` values used.
pub fn filename_for(stem: &str, opt: &Opt) -> (name: String)
    ensures
        name@ == filename_spec(stem@, *opt),
{
    let mut filename: String = String::from_str(stem);
    filename.append("-");
    filename.append(opt.algorithm.name());
    filename.append("-");
    append_decimal(&mut filename, opt.k);
    filename.append("-");
    append_two_digits(&mut filename, opt.m);
    assert(filename@ == filename_head(stem@, *opt));
    if opt.no_mean {
        filename.append("-orig");
    } else {
        filename.append("-mean");
    }
    if opt.segments {
        filename.append("-segments");
    }
    assert(filename@ == filename_body(stem@, *opt));
    filename.append(".");
    if same_ignoring_case(opt.format.as_str(), "jpg") || same_ignoring_case(
        opt.format.as_str(),
        "jpeg",
    ) {
        filename.append("jpg");
    } else {
        filename.append(opt.format.as_str());
    }
    filename
}

/// Whether `part` is a run of characters of `text`.
pub open spec fn is_part_of(part: Seq<char>, text: Seq<char>) -> bool {
    exists|i: int|
        0 <= i && i + part.len() <= text.len() && #[trigger] text.subrange(i, i + part.len())
            == part
}

/// `Path::file_stem` of std on `path`, as text.  The stem is a part of
/// the last component of the path and not empty; which part it is
/// depends on the platform, so no more than that is claimed.
#[verifier::external_body]
fn file_stem(path: &str) -> (stem: Option<String>)
    ensures
        stem matches Some(text) ==> text@.len() > 0 && is_part_of(text@, path@),
{
    std::path::Path::new(path).file_stem().and_then(|stem| stem.to_str()).map(|stem| stem.to_string())
}

/// Create a file name displaying the algorithm, `k`, and `m` values
/// used: `filename_spec` for the stem of the input file, which is a
/// part of the input's path and not empty.  An input without a stem is
/// an error.
pub fn generate_filename(opt: &Opt) -> (r: Result<String, ScError>)
    ensures
        match r {
            Ok(name) => exists|stem: Seq<char>|
                stem.len() > 0 && is_part_of(stem, opt.input@) && name@ == #[trigger] filename_spec(
                    stem,
                    *opt,
                ),
            Err(e) => {
                &&& e matches ScError::General(message)
                &&& message@ == "No file stem"@
            },
        },
{
    match file_stem(opt.input.as_str()) {
        Some(stem) => {
            let name: String = filename_for(stem.as_str(), opt);
            assert(name@ == filename_spec(stem@, *opt));
            Ok(name)
        },
        None => Err(ScError::General("No file stem")),
    }
}

} // verus!
