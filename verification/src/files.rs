//! The walk over a source tree. The walk itself reads no directory: it is
//! told what each directory holds, and decides which entries are files to
//! list, which are directories to read later, and which are passed over.

use crate::text::{chars_of, ends_with, has_suffix};
use std::path::PathBuf;
use vstd::prelude::*;

verus! {

/// A path of the file system. Nothing is known of what it holds: it is
/// carried from the entries that are read to the lists that are returned.
#[verifier::external_type_specification]
#[verifier::external_body]
pub struct ExPathBuf(PathBuf);

/// What kind of thing a directory entry is.
#[derive(Clone, Copy, Debug, PartialEq, Eq, Structural)]
pub enum EntryKind {
    /// A directory.
    Dir,
    /// A regular file.
    File,
    /// Anything else, such as a symbolic link.
    Other,
}

/// An entry of a directory.
#[derive(Debug, PartialEq, Eq)]
pub struct Entry {
    /// Where the entry is.
    pub path: PathBuf,
    /// The last component of its path; empty where that is no text.
    pub name: String,
    /// What the entry is.
    pub kind: EntryKind,
}

/// A hidden entry is one whose name begins with a dot.
pub open spec fn is_hidden(name: Seq<char>) -> bool {
    name.len() > 0 && name[0] == '.'
}

/// Whether the entry is a file to list.
pub open spec fn is_listed_file(e: Entry) -> bool {
    !is_hidden(e.name@) && e.kind == EntryKind::File
}

/// Whether the entry is a directory to read.
pub open spec fn is_listed_dir(e: Entry) -> bool {
    !is_hidden(e.name@) && e.kind == EntryKind::Dir
}

/// The files to list among `entries`, in order.
pub open spec fn listed_files(entries: Seq<Entry>) -> Seq<Entry>
    decreases entries.len(),
{
    if entries.len() == 0 {
        Seq::empty()
    } else if is_listed_file(entries.last()) {
        listed_files(entries.drop_last()).push(entries.last())
    } else {
        listed_files(entries.drop_last())
    }
}

/// The paths of the directories to read among `entries`, in order.
pub open spec fn listed_dirs(entries: Seq<Entry>) -> Seq<PathBuf>
    decreases entries.len(),
{
    if entries.len() == 0 {
        Seq::empty()
    } else if is_listed_dir(entries.last()) {
        listed_dirs(entries.drop_last()).push(entries.last().path)
    } else {
        listed_dirs(entries.drop_last())
    }
}

/// A walk over a tree: the directories that are still to be read, the last
/// one first, and the files found so far.
pub struct Walk {
    /// The directories that are still to be read; the last is read next.
    pub work: Vec<PathBuf>,
    /// The files found so far, in the order in which they were found.
    pub found: Vec<Entry>,
}

impl Walk {
    /// A walk that has `dir` to read and has found nothing.
    pub fn new(dir: PathBuf) -> (r: Walk)
        ensures
            r.work@ == seq![dir],
            r.found@ == Seq::<Entry>::empty(),
    {
        let mut work: Vec<PathBuf> = Vec::new();
        work.push(dir);
        Walk { work, found: Vec::new() }
    }

    /// The directory to read next: the one that was added last. `None` when
    /// the walk is over.
    pub fn next_dir(&mut self) -> (r: Option<PathBuf>)
        ensures
            final(self).found@ == old(self).found@,
            old(self).work@.len() == 0 ==> r is None && final(self).work@ == old(self).work@,
            old(self).work@.len() > 0 ==> r == Some(old(self).work@.last()) && final(self).work@
                == old(self).work@.drop_last(),
    {
        self.work.pop()
    }

    /// Takes in what a directory holds: its files are added to those found,
    /// its directories to those to read, both in the order of `entries`.
    /// Hidden entries, and those that are neither file nor directory, are
    /// passed over.
    pub fn visit(&mut self, entries: Vec<Entry>)
        ensures
            final(self).found@ == old(self).found@ + listed_files(entries@),
            final(self).work@ == old(self).work@ + listed_dirs(entries@),
    {
        let ghost all = entries@;
        assert(all.take(0) == Seq::<Entry>::empty());
        assert(self.found@ + listed_files(all.take(0)) == self.found@);
        assert(self.work@ + listed_dirs(all.take(0)) == self.work@);
        for e in it: entries
            invariant
                it.seq() == all,
                self.found@ == old(self).found@ + listed_files(all.take(it.index() as int)),
                self.work@ == old(self).work@ + listed_dirs(all.take(it.index() as int)),
        {
            let ghost k = it.index() as int;
            proof {
                assert(all.take(k + 1).drop_last() == all.take(k));
                assert(all.take(k + 1).last() == e);
            }
            let hidden = name_is_hidden(e.name.as_str());
            if !hidden {
                match e.kind {
                    EntryKind::Dir => {
                        self.work.push(e.path);
                    },
                    EntryKind::File => {
                        self.found.push(e);
                    },
                    EntryKind::Other => {},
                }
            }
            assert(self.found@ == old(self).found@ + listed_files(all.take(k + 1)));
            assert(self.work@ == old(self).work@ + listed_dirs(all.take(k + 1)));
        }
        assert(all.take(all.len() as int) == all);
    }
}

/// Whether an entry of this name is hidden.
pub fn name_is_hidden(name: &str) -> (r: bool)
    ensures
        r == is_hidden(name@),
{
    let v = chars_of(name);
    v.len() > 0 && v[0] == '.'
}

/// The ending of the name of a Rust source file.
pub open spec fn rust_ending() -> Seq<char> {
    seq!['.', 'r', 's']
}

/// The entries among `files` whose names end in `.rs`, in order.
pub open spec fn rust_files(files: Seq<Entry>) -> Seq<Entry>
    decreases files.len(),
{
    if files.len() == 0 {
        Seq::empty()
    } else if has_suffix(files.last().name@, rust_ending()) {
        rust_files(files.drop_last()).push(files.last())
    } else {
        rust_files(files.drop_last())
    }
}

/// The Rust source files among `files`: those whose names end in `.rs`, in
/// the order in which they were found.
pub fn list_rust_files(files: Vec<Entry>) -> (r: Vec<Entry>)
    ensures
        r@ == rust_files(files@),
{
    let ending: Vec<char> = vec!['.', 'r', 's'];
    assert(ending@ == rust_ending());
    let ghost all = files@;
    let mut res: Vec<Entry> = Vec::new();
    assert(all.take(0) == Seq::<Entry>::empty());
    for e in it: files
        invariant
            it.seq() == all,
            ending@ == rust_ending(),
            res@ == rust_files(all.take(it.index() as int)),
    {
        let ghost k = it.index() as int;
        proof {
            assert(all.take(k + 1).drop_last() == all.take(k));
            assert(all.take(k + 1).last() == e);
        }
        if ends_with(&chars_of(e.name.as_str()), &ending) {
            res.push(e);
        }
    }
    assert(all.take(all.len() as int) == all);
    res
}

/// No hidden entry is listed or read, whatever kind it is.
pub proof fn law_hidden_entries_are_skipped(entries: Seq<Entry>)
    requires
        forall|i: int| 0 <= i < entries.len() ==> is_hidden((#[trigger] entries[i]).name@),
    ensures
        listed_files(entries) == Seq::<Entry>::empty(),
        listed_dirs(entries) == Seq::<PathBuf>::empty(),
    decreases entries.len(),
{
    if entries.len() > 0 {
        assert(is_hidden(entries[entries.len() - 1].name@));
        law_hidden_entries_are_skipped(entries.drop_last());
    }
}

/// Every entry that is listed stood among the entries given, is a regular
/// file, and is not hidden.
pub proof fn law_listed_files_are_visible(entries: Seq<Entry>, i: int)
    requires
        0 <= i < listed_files(entries).len(),
    ensures
        is_listed_file(listed_files(entries)[i]),
        entries.contains(listed_files(entries)[i]),
    decreases entries.len(),
{
    let before = entries.drop_last();
    if is_listed_file(entries.last()) && i == listed_files(before).len() {
        assert(entries[entries.len() - 1] == entries.last());
    } else {
        law_listed_files_are_visible(before, i);
        let e = listed_files(before)[i];
        let j = choose|j: int| 0 <= j < before.len() && before[j] == e;
        assert(entries[j] == e);
    }
}

} // verus!
