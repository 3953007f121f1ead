//! References to a line of a file of the project, as links for readers of
//! generated documentation.

use crate::error::Error;
use crate::text::{chars_of, decimal, decimal_of, string_of};
use std::path::PathBuf;
use vstd::prelude::*;

verus! {

/// A line of a file.
#[derive(Debug)]
pub struct Location {
    /// The file, which lies below the root of the project.
    pub file: PathBuf,
    /// The number of the line.
    pub line: usize,
}

/// What every link begins with.
pub open spec fn link_base() -> Seq<char> {
    "https://github.com/rust-analyzer/rust-analyzer/blob/master/"@
}

/// `s` with a slash in place of each backslash.
pub open spec fn forward_slashes(s: Seq<char>) -> Seq<char> {
    Seq::new(
        s.len(),
        |i: int|
            if s[i] == '\\' {
                '/'
            } else {
                s[i]
            },
    )
}

/// The link to line `line` of the file whose path below the root of the
/// project is `relative` and whose name is `name`: the base, the path with
/// forward slashes, `#L` and the line in decimal, and the name in square
/// brackets.
pub open spec fn link_text(relative: Seq<char>, line: nat, name: Seq<char>) -> Seq<char> {
    link_base() + forward_slashes(relative) + seq!['#', 'L'] + decimal_of(line) + seq!['[']
        + name + seq![']']
}

/// What is left of `file` once the leading `root` is taken off, as text:
/// what `Path::strip_prefix` gives, and `None` where `file` does not begin
/// with `root`.
pub uninterp spec fn path_below(file: PathBuf, root: PathBuf) -> Option<Seq<char>>;

/// The last component of `file`, as text: what `Path::file_name` gives, and
/// `None` where `file` has no such component or it is no text.
pub uninterp spec fn name_text(file: PathBuf) -> Option<Seq<char>>;

/// `Path::strip_prefix`, and the text of what is left: `file` without the
/// leading `root`, or `None` where `file` does not begin with `root`. The
/// result is a function of the two paths and is given the name `path_below`;
/// nothing else is claimed of it.
#[verifier::external_body]
fn relative_to(file: &PathBuf, root: &PathBuf) -> (r: Option<String>)
    ensures
        match r {
            Some(s) => path_below(*file, *root) == Some(s@),
            None => path_below(*file, *root) is None,
        },
{
    file.strip_prefix(root).ok().map(|p| p.display().to_string())
}

/// `Path::file_name`, as text: the last component of `file`, or `None` where
/// it has none or that is no text. The result is a function of the path and
/// is given the name `name_text`; nothing else is claimed of it.
#[verifier::external_body]
fn file_name_of(file: &PathBuf) -> (r: Option<String>)
    ensures
        match r {
            Some(s) => name_text(*file) == Some(s@),
            None => name_text(*file) is None,
        },
{
    file.file_name().and_then(|n| n.to_str()).map(|n| n.to_string())
}

/// The link to line `line` of the file whose path below the root of the
/// project is `relative` and whose name is `name`.
pub fn render_link(relative: &str, line: usize, name: &str) -> (r: String)
    ensures
        r@ == link_text(relative@, line as nat, name@),
{
    let mut out = chars_of("https://github.com/rust-analyzer/rust-analyzer/blob/master/");
    let path = chars_of(relative);
    let mut i: usize = 0;
    while i < path.len()
        invariant
            i <= path.len(),
            path@ == relative@,
            out@ == link_base() + forward_slashes(relative@).take(i as int),
        decreases path.len() - i,
    {
        let c = path[i];
        out.push(if c == '\\' { '/' } else { c });
        i = i + 1;
        assert(forward_slashes(relative@).take(i as int) == forward_slashes(relative@).take(
            i - 1,
        ).push(forward_slashes(relative@)[i - 1]));
        assert(out@ == link_base() + forward_slashes(relative@).take(i as int));
    }
    assert(forward_slashes(relative@).take(path.len() as int) == forward_slashes(relative@));
    out.push('#');
    out.push('L');
    assert(out@ == link_base() + forward_slashes(relative@) + seq!['#', 'L']);
    let mut digits = decimal(line);
    out.append(&mut digits);
    out.push('[');
    let mut name_chars = chars_of(name);
    out.append(&mut name_chars);
    out.push(']');
    assert(out@ == link_text(relative@, line as nat, name@));
    string_of(&out)
}

impl Location {
    /// The link to this line, for a project whose root is `root`: it holds
    /// the file's path below `root` and the file's name. Refused where the
    /// file does not lie below `root` or has no name that is text.
    pub fn link(&self, root: &PathBuf) -> (r: Result<String, Error>)
        ensures
            match (path_below(self.file, *root), name_text(self.file)) {
                (Some(p), Some(n)) => r is Ok && r->Ok_0@ == link_text(p, self.line as nat, n),
                _ => r == Err::<String, Error>(Error::PreconditionViolation),
            },
    {
        let relative = match relative_to(&self.file, root) {
            Some(p) => p,
            None => {
                return Err(Error::PreconditionViolation);
            },
        };
        let name = match file_name_of(&self.file) {
            Some(n) => n,
            None => {
                return Err(Error::PreconditionViolation);
            },
        };
        Ok(render_link(relative.as_str(), self.line, name.as_str()))
    }
}

} // verus!
