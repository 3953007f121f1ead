//! Keeping generated files in step with their generator: the preamble of a
//! generated file, what to make of a formatter's answers, and the decision
//! whether a file on disk still holds what would be generated now.

use crate::error::Error;
use crate::text::{chars_of, contains, contains_text, string_of};
use vstd::prelude::*;

verus! {

/// `s` with each carriage return that a line feed follows taken out.
pub open spec fn normalized(s: Seq<char>) -> Seq<char>
    decreases s.len(),
{
    if s.len() == 0 {
        s
    } else if s.len() >= 2 && s[0] == '\r' && s[1] == '\n' {
        seq!['\n'] + normalized(s.skip(2))
    } else {
        seq![s[0]] + normalized(s.skip(1))
    }
}

/// `s` with each `\r\n` replaced by `\n`.
pub fn normalize_newlines(s: &str) -> (r: String)
    ensures
        r@ == normalized(s@),
{
    let v = chars_of(s);
    let mut out: Vec<char> = Vec::new();
    let mut i: usize = 0;
    assert(v@.skip(0) == v@);
    assert(out@ + normalized(v@) == normalized(v@));
    while i < v.len()
        invariant
            i <= v.len(),
            out@ + normalized(v@.skip(i as int)) == normalized(v@),
        decreases v.len() - i,
    {
        let ghost rest = v@.skip(i as int);
        let ghost before = out@;
        if v[i] == '\r' && i + 1 < v.len() && v[i + 1] == '\n' {
            out.push('\n');
            proof {
                assert(rest[0] == '\r' && rest[1] == '\n');
                assert(rest.skip(2) == v@.skip(i + 2));
                assert(out@ + normalized(v@.skip(i + 2)) == before + normalized(rest));
            }
            i = i + 2;
        } else {
            out.push(v[i]);
            proof {
                assert(rest[0] == v@[i as int]);
                assert(rest.len() >= 2 ==> rest[1] == v@[i + 1]);
                assert(rest.skip(1) == v@.skip(i + 1));
                assert(out@ + normalized(v@.skip(i + 1)) == before + normalized(rest));
            }
            i = i + 1;
        }
    }
    assert(out@ + normalized(v@.skip(i as int)) == out@);
    string_of(&out)
}

/// The first line of a generated file, and the empty line after it.
pub open spec fn preamble_of(generator: Seq<char>) -> Seq<char> {
    "//! Generated by `"@ + generator + "`, do not edit by hand.\n\n"@
}

/// `text` behind the preamble that names `generator`.
pub fn add_preamble(generator: &'static str, text: String) -> (r: String)
    ensures
        r@ == preamble_of(generator@) + text@,
{
    let mut out = String::from_str("//! Generated by `");
    out.append(generator);
    out.append("`, do not edit by hand.\n\n");
    out.append(text.as_str());
    out
}

/// Whether a file that holds `on_disk` (`None`: it cannot be read) is up to
/// date with `contents`: it can be read, and the two are the same but for the
/// form of their line endings.
pub open spec fn up_to_date(on_disk: Option<Seq<char>>, contents: Seq<char>) -> bool {
    match on_disk {
        Some(old_contents) => normalized(old_contents) == normalized(contents),
        None => false,
    }
}

/// What a generated file needs.
#[derive(Debug, PartialEq, Eq)]
pub enum SyncOutcome {
    /// The file holds what would be generated: nothing is to be done.
    UpToDate,
    /// The file is missing or holds something else: `write` is to be written
    /// to it, and the run is to fail.
    Drift { write: String },
}

/// What is read of a file, as a sequence of characters.
pub open spec fn read_view(on_disk: Option<&str>) -> Option<Seq<char>> {
    match on_disk {
        Some(s) => Some(s@),
        None => None,
    }
}

/// Decides whether a file that holds `on_disk` (`None`: it cannot be read)
/// is up to date with `contents`. If it is not, `contents` itself is what is
/// to be written.
pub fn ensure_file_contents(on_disk: Option<&str>, contents: &str) -> (r: SyncOutcome)
    ensures
        up_to_date(read_view(on_disk), contents@) ==> r is UpToDate,
        !up_to_date(read_view(on_disk), contents@) ==> r is Drift && r->write@ == contents@,
{
    match on_disk {
        Some(old_contents) => {
            let a = normalize_newlines(old_contents);
            let b = normalize_newlines(contents);
            if a == b {
                return SyncOutcome::UpToDate;
            }
        },
        None => {},
    }
    SyncOutcome::Drift { write: String::from_str(contents) }
}

/// A file that was written after a drift is up to date when it is looked at
/// again with the same contents: whatever the first outcome was, the second
/// is `UpToDate`.
pub proof fn law_written_file_is_up_to_date(contents: Seq<char>)
    ensures
        up_to_date(Some(contents), contents),
{
}

/// Normalizing leaves a text without carriage returns as it is.
pub proof fn law_plain_text_is_normalized(s: Seq<char>)
    requires
        forall|i: int| 0 <= i < s.len() ==> #[trigger] s[i] != '\r',
    ensures
        normalized(s) == s,
    decreases s.len(),
{
    if s.len() > 0 {
        let rest = s.skip(1);
        assert forall|i: int| 0 <= i < rest.len() implies #[trigger] rest[i] != '\r' by {
            assert(rest[i] == s[i + 1]);
        }
        law_plain_text_is_normalized(rest);
        assert(s[0] != '\r');
        assert(seq![s[0]] + rest == s);
    }
}

/// The word by which a formatter's version names the stable toolchain.
pub open spec fn stable_word() -> Seq<char> {
    seq!['s', 't', 'a', 'b', 'l', 'e']
}

/// Accepts the answer of a formatter to a query for its version if it names
/// the stable toolchain.
pub fn require_stable_toolchain(version: &str) -> (r: Result<(), Error>)
    ensures
        contains_text(version@, stable_word()) ==> r is Ok,
        !contains_text(version@, stable_word()) ==> r == Err::<(), Error>(
            Error::ToolchainUnavailable,
        ),
{
    let word: Vec<char> = vec!['s', 't', 'a', 'b', 'l', 'e'];
    assert(word@ == stable_word());
    if contains(&chars_of(version), &word) {
        Ok(())
    } else {
        Err(Error::ToolchainUnavailable)
    }
}

/// `s`, with a line feed added unless it ends with one.
pub open spec fn with_final_newline_of(s: Seq<char>) -> Seq<char> {
    if s.len() > 0 && s.last() == '\n' {
        s
    } else {
        s.push('\n')
    }
}

/// The text that a formatter gave, ending with a line feed: one is added
/// unless the text ends with one.
pub fn with_final_newline(formatted: String) -> (r: String)
    ensures
        r@ == with_final_newline_of(formatted@),
{
    let v = chars_of(formatted.as_str());
    let mut out = formatted;
    if v.len() == 0 || v[v.len() - 1] != '\n' {
        out.push('\n');
    }
    out
}

} // verus!
