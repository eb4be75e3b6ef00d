use vstd::prelude::*;
use vstd::utf8::{decode_utf8, valid_utf8};
use crate::text::{chars_of, trim_chars, trim_seq};

verus! {

/// Which stream of a script run is reported.
#[derive(Debug, Clone, Copy, PartialEq, Eq)]
pub enum OutputType {
    Stdout,
    Stderr,
}

/// The interpreter that runs a script: `python` on Windows, `python3`
/// elsewhere.
pub fn python_command(windows: bool) -> (c: &'static str)
    ensures
        windows ==> c@ == "python"@,
        !windows ==> c@ == "python3"@,
{
    if windows {
        "python"
    } else {
        "python3"
    }
}

/// What decoding `bytes` as UTF-8 while replacing invalid sequences gives
/// (std's `String::from_utf8_lossy`).
pub uninterp spec fn utf8_lossy(bytes: Seq<u8>) -> Seq<char>;

/// Decodes bytes as UTF-8, replacing invalid sequences (std's
/// `String::from_utf8_lossy`). The contract names the result; of valid UTF-8
/// it states the plain decoding, as std documents.
#[verifier::external_body]
fn decode_lossy(bytes: &[u8]) -> (s: String)
    ensures
        s@ == utf8_lossy(bytes@),
        valid_utf8(bytes@) ==> s@ == decode_utf8(bytes@),
{
    String::from_utf8_lossy(bytes).into_owned()
}

/// The report of a finished script run: its standard output when it
/// succeeded, else its standard error, decoded.
pub fn script_output(success: bool, stdout: &[u8], stderr: &[u8]) -> (r: (OutputType, String))
    ensures
        success ==> r.0 == OutputType::Stdout && r.1@ == utf8_lossy(stdout@),
        !success ==> r.0 == OutputType::Stderr && r.1@ == utf8_lossy(stderr@),
        success && valid_utf8(stdout@) ==> r.1@ == decode_utf8(stdout@),
        !success && valid_utf8(stderr@) ==> r.1@ == decode_utf8(stderr@),
{
    if success {
        (OutputType::Stdout, decode_lossy(stdout))
    } else {
        (OutputType::Stderr, decode_lossy(stderr))
    }
}

/// The answer to the confirmation question accepts: `y` or `Y` once
/// surrounding white space is removed (the only answers whose lower-case
/// form is `y`).
pub open spec fn is_confirmation_spec(input: Seq<char>) -> bool {
    trim_seq(input) == seq!['y'] || trim_seq(input) == seq!['Y']
}

/// Whether `input` confirms clearing the history.
pub fn is_confirmation(input: &str) -> (b: bool)
    ensures
        b == is_confirmation_spec(input@),
{
    let v = chars_of(input);
    let t = trim_chars(&v);
    let b = t.len() == 1 && (t[0] == 'y' || t[0] == 'Y');
    proof {
        if t@.len() == 1 {
            assert(t@ == seq![t@[0]]);
        }
    }
    b
}

/// `placeholder.json`, the file that clearing the history keeps.
pub open spec fn placeholder_name() -> Seq<char> {
    seq!['p', 'l', 'a', 'c', 'e', 'h', 'o', 'l', 'd', 'e', 'r', '.', 'j', 's', 'o', 'n']
}

/// Whether clearing the history removes the file `file_name`: every file but
/// `placeholder.json`.
pub fn removes_on_clear(file_name: &str) -> (b: bool)
    ensures
        b == (file_name@ != placeholder_name()),
{
    let v = chars_of(file_name);
    let p = vec!['p', 'l', 'a', 'c', 'e', 'h', 'o', 'l', 'd', 'e', 'r', '.', 'j', 's', 'o', 'n'];
    assert(p@ =~= placeholder_name());
    !crate::text::same_chars(&v, &p)
}

} // verus!
