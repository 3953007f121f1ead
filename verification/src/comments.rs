//! Blocks of line comments: runs of consecutive `// ` lines of a text, found
//! by a scan over its physical lines, and the blocks among them that begin
//! with a given tag.

use crate::error::Error;
use crate::text::{
    chars_of, copy_range, has_prefix, is_uppercase, leading_whitespace, line_views, lines_of,
    split_lines, starts_with, string_of, trim, trim_of, trim_start, trim_start_of,
    unicode_uppercase,
};
use vstd::prelude::*;

verus! {

/// A block of comment lines.
#[derive(Debug, PartialEq, Eq)]
pub struct CommentBlock {
    /// What follows the tag on the block's first line, trimmed; empty for an
    /// untagged block.
    pub id: String,
    /// The number of the line at which the block begins, counted from 1:
    /// the line after the one that ended the block before, or the first
    /// line of the text.
    pub line: usize,
    /// The block's lines without their comment prefix; for a tagged block,
    /// without the tag line.
    pub contents: Vec<String>,
}

/// What a `CommentBlock` holds.
pub ghost struct BlockView {
    pub id: Seq<char>,
    pub line: nat,
    pub contents: Seq<Seq<char>>,
}

/// The contents of each string of `v`.
pub open spec fn string_views(v: Seq<String>) -> Seq<Seq<char>> {
    Seq::new(v.len(), |i: int| v[i]@)
}

impl View for CommentBlock {
    type V = BlockView;

    open spec fn view(&self) -> BlockView {
        BlockView { id: self.id@, line: self.line as nat, contents: string_views(self.contents@) }
    }
}

/// What each block of `v` holds.
pub open spec fn block_views(v: Seq<CommentBlock>) -> Seq<BlockView> {
    Seq::new(v.len(), |i: int| v[i]@)
}

/// A run of comment lines as the scan finds it: the number of the line at
/// which it begins and the payload of each of its lines.
pub ghost struct RawBlock {
    pub line: nat,
    pub contents: Seq<Seq<char>>,
}

/// What a line is to the scan.
pub ghost enum LineKind {
    /// A bare comment marker, in a scan that lets a block go on over it.
    Blank,
    /// A comment line, with what follows its prefix.
    Content(Seq<char>),
    /// Any other line: it ends the block before it.
    Other,
}

/// The bare comment marker, `//`.
pub open spec fn marker() -> Seq<char> {
    seq!['/', '/']
}

/// The prefix of a comment line: the marker and one space.
pub open spec fn comment_prefix() -> Seq<char> {
    seq!['/', '/', ' ']
}

/// What `line` is to the scan, once the whitespace before it is dropped.
pub open spec fn classify(line: Seq<char>, tolerant: bool) -> LineKind {
    let t = trim_start_of(line);
    if tolerant && t == marker() {
        LineKind::Blank
    } else if has_prefix(t, comment_prefix()) {
        LineKind::Content(t.skip(3))
    } else {
        LineKind::Other
    }
}

/// The scan between two lines: the blocks that have ended, the line number
/// that the next block to end will carry, and the lines of the block that is
/// open.
pub ghost struct ScanState {
    pub done: Seq<RawBlock>,
    pub start: nat,
    pub current: Seq<Seq<char>>,
}

/// `done` with the open block added, if it has a line.
pub open spec fn closed(st: ScanState) -> Seq<RawBlock> {
    if st.current.len() > 0 {
        st.done.push(RawBlock { line: st.start, contents: st.current })
    } else {
        st.done
    }
}

/// The scan after the line at `index`, from its state before that line.
pub open spec fn scan_step(st: ScanState, index: nat, line: Seq<char>, tolerant: bool)
    -> ScanState {
    match classify(line, tolerant) {
        LineKind::Blank => ScanState { current: st.current.push(Seq::empty()), ..st },
        LineKind::Content(payload) => ScanState { current: st.current.push(payload), ..st },
        LineKind::Other => ScanState {
            done: closed(st),
            start: index + 2,
            current: Seq::empty(),
        },
    }
}

/// The scan after the first `k` lines of `lines`.
pub open spec fn scan_prefix(lines: Seq<Seq<char>>, k: nat, tolerant: bool) -> ScanState
    decreases k,
{
    if k == 0 {
        ScanState { done: Seq::empty(), start: 1, current: Seq::empty() }
    } else {
        scan_step(
            scan_prefix(lines, (k - 1) as nat, tolerant),
            (k - 1) as nat,
            lines[k - 1],
            tolerant,
        )
    }
}

/// The blocks of `lines`, in the order in which they end.
pub open spec fn blocks_of_lines(lines: Seq<Seq<char>>, tolerant: bool) -> Seq<RawBlock> {
    closed(scan_prefix(lines, lines.len(), tolerant))
}

/// The blocks of `text`.
pub open spec fn raw_blocks(text: Seq<char>, tolerant: bool) -> Seq<RawBlock> {
    blocks_of_lines(lines_of(text), tolerant)
}

/// The line number that a block carries when its first line has index `j`:
/// lines are counted from 1.
pub open spec fn line_label(j: nat) -> nat {
    j + 1
}

/// While no block is open, the next block's line number is the label of the
/// next line; while one is open, the line before was no other line.
pub proof fn lemma_scan_start(lines: Seq<Seq<char>>, k: nat, tolerant: bool)
    requires
        k <= lines.len(),
    ensures
        scan_prefix(lines, k, tolerant).current.len() == 0 ==> scan_prefix(
            lines,
            k,
            tolerant,
        ).start == line_label(k),
        scan_prefix(lines, k, tolerant).current.len() == 0 <==> (k == 0 || classify(
            lines[k - 1],
            tolerant,
        ) is Other),
{
}

/// What a scanned block holds.
pub open spec fn raw_view(b: (usize, Vec<String>)) -> RawBlock {
    RawBlock { line: b.0 as nat, contents: string_views(b.1@) }
}

/// What each scanned block of `v` holds.
pub open spec fn raw_views(v: Seq<(usize, Vec<String>)>) -> Seq<RawBlock> {
    Seq::new(v.len(), |i: int| raw_view(v[i]))
}

/// Whether `a` and `b` hold the same characters.
fn same_chars(a: &Vec<char>, b: &Vec<char>) -> (r: bool)
    ensures
        r == (a@ == b@),
{
    let r = a.len() == b.len() && starts_with(a, b);
    proof {
        if a.len() == b.len() {
            assert(a@.take(b.len() as int) == a@);
        }
    }
    r
}

/// The blocks of comment lines of `text`, each with the number of the line at
/// which it begins. With `allow_blocks_with_empty_lines` a bare `//` belongs
/// to the block around it; without, it ends the block.
pub fn do_extract_comment_blocks(text: &str, allow_blocks_with_empty_lines: bool) -> (r: Vec<
    (usize, Vec<String>),
>)
    ensures
        raw_views(r@) == raw_blocks(text@, allow_blocks_with_empty_lines),
        forall|i: int| 0 <= i < r.len() ==> (#[trigger] r[i]).1.len() > 0,
{
    let tolerant = allow_blocks_with_empty_lines;
    let chars = chars_of(text);
    let lines = split_lines(&chars);
    let bare: Vec<char> = vec!['/', '/'];
    let prefix: Vec<char> = vec!['/', '/', ' '];
    assert(bare@ == marker());
    assert(prefix@ == comment_prefix());
    let mut res: Vec<(usize, Vec<String>)> = Vec::new();
    let mut start: usize = 0;
    let mut cur: Vec<String> = Vec::new();
    let mut k: usize = 0;
    assert(raw_views(res@) == Seq::<RawBlock>::empty());
    assert(string_views(cur@) == Seq::<Seq<char>>::empty());
    while k < lines.len()
        invariant
            k <= lines.len(),
            bare@ == marker(),
            prefix@ == comment_prefix(),
            line_views(lines@) == lines_of(text@),
            raw_views(res@) == scan_prefix(lines_of(text@), k as nat, tolerant).done,
            string_views(cur@) == scan_prefix(lines_of(text@), k as nat, tolerant).current,
            cur.len() > 0 ==> start == scan_prefix(lines_of(text@), k as nat, tolerant).start,
            forall|i: int| 0 <= i < res.len() ==> (#[trigger] res[i]).1.len() > 0,
        decreases lines.len() - k,
    {
        let ghost all = lines_of(text@);
        let ghost st = scan_prefix(all, k as nat, tolerant);
        let ghost before = string_views(cur@);
        proof {
            lemma_scan_start(all, k as nat, tolerant);
            assert(all[k as int] == lines[k as int]@);
            assert(before.len() == cur.len());
        }
        let t = trim_start(&lines[k]);
        if tolerant && same_chars(&t, &bare) {
            if cur.len() == 0 {
                start = k + 1;
            }
            cur.push(String::new());
            assert(string_views(cur@) == before.push(Seq::<char>::empty()));
        } else if starts_with(&t, &prefix) {
            if cur.len() == 0 {
                start = k + 1;
            }
            let payload = copy_range(&t, 3, t.len());
            cur.push(string_of(&payload));
            assert(t@.skip(3) == t@.subrange(3, t.len() as int));
            assert(string_views(cur@) == before.push(t@.skip(3)));
        } else {
            if cur.len() > 0 {
                let ghost done = raw_views(res@);
                res.push((start, cur));
                cur = Vec::new();
                assert(raw_views(res@) == done.push(RawBlock { line: st.start, contents: before }));
            }
            assert(string_views(cur@) == Seq::<Seq<char>>::empty());
        }
        k = k + 1;
    }
    if cur.len() > 0 {
        let ghost done = raw_views(res@);
        let ghost st = scan_prefix(lines_of(text@), k as nat, tolerant);
        let ghost current = string_views(cur@);
        res.push((start, cur));
        assert(raw_views(res@) == done.push(RawBlock { line: st.start, contents: current }));
    } else {
        assert(string_views(cur@).len() == 0);
    }
    assert(lines@.len() == lines_of(text@).len());
    res
}

/// Whether `tag` can name a kind of block: it begins with an uppercase
/// character.
pub open spec fn valid_tag(tag: Seq<char>) -> bool {
    tag.len() > 0 && unicode_uppercase(tag[0])
}

/// Whether the block begins with `tag` and a colon.
pub open spec fn is_tagged(b: RawBlock, tag: Seq<char>) -> bool {
    b.contents.len() > 0 && has_prefix(b.contents[0], tag.push(':'))
}

/// The tagged block that `b` is: its id is what follows the tag and the colon
/// on the first line, trimmed, and its contents are the lines after the first.
pub open spec fn tagged_view(b: RawBlock, tag: Seq<char>) -> BlockView {
    BlockView {
        id: trim_of(b.contents[0].skip(tag.len() as int + 1)),
        line: b.line,
        contents: b.contents.skip(1),
    }
}

/// The blocks among `blocks` that begin with `tag` and a colon, in order.
pub open spec fn select_tagged(blocks: Seq<RawBlock>, tag: Seq<char>) -> Seq<BlockView>
    decreases blocks.len(),
{
    if blocks.len() == 0 {
        Seq::empty()
    } else {
        let before = select_tagged(blocks.drop_last(), tag);
        if is_tagged(blocks.last(), tag) {
            before.push(tagged_view(blocks.last(), tag))
        } else {
            before
        }
    }
}

/// What tagged extraction gives for any tag and text: the tagged blocks of
/// the text, or a refusal where the tag is not valid.
pub open spec fn extraction(tag: Seq<char>, text: Seq<char>) -> Result<Seq<BlockView>, Error> {
    if valid_tag(tag) {
        Ok(select_tagged(raw_blocks(text, true), tag))
    } else {
        Err(Error::PreconditionViolation)
    }
}

/// A tag that is empty or does not begin with an uppercase character is
/// refused whatever the text is, and the same way for any two texts: the
/// refusal depends on the tag alone.
pub proof fn law_invalid_tag_is_refused(tag: Seq<char>, text: Seq<char>, other: Seq<char>)
    requires
        !valid_tag(tag),
    ensures
        extraction(tag, text) == Err::<Seq<BlockView>, Error>(Error::PreconditionViolation),
        extraction(tag, text) == extraction(tag, other),
{
}

/// The untagged block that `b` is: all its lines, and an empty id.
pub open spec fn untagged_view(b: RawBlock) -> BlockView {
    BlockView { id: Seq::empty(), line: b.line, contents: b.contents }
}

/// Each of `blocks` as an untagged block.
pub open spec fn untagged_views(blocks: Seq<RawBlock>) -> Seq<BlockView> {
    Seq::new(blocks.len(), |i: int| untagged_view(blocks[i]))
}

/// Copies of the strings of `v` from index `from` on.
fn clone_strings(v: &Vec<String>, from: usize) -> (r: Vec<String>)
    requires
        from <= v.len(),
    ensures
        string_views(r@) == string_views(v@).skip(from as int),
{
    let mut out: Vec<String> = Vec::new();
    let mut i: usize = from;
    while i < v.len()
        invariant
            from <= i <= v.len(),
            out.len() == i - from,
            forall|j: int| 0 <= j < out.len() ==> (#[trigger] out[j])@ == v[from + j]@,
        decreases v.len() - i,
    {
        out.push(v[i].clone());
        i = i + 1;
    }
    assert(string_views(out@) =~= string_views(v@).skip(from as int));
    out
}

/// The blocks among `blocks` that begin with `tag` and a colon, each with
/// what follows the colon as its id and without its first line.
pub fn select_blocks(tag: &str, blocks: &Vec<(usize, Vec<String>)>) -> (r: Vec<CommentBlock>)
    ensures
        block_views(r@) == select_tagged(raw_views(blocks@), tag@),
{
    let mut with_colon = chars_of(tag);
    with_colon.push(':');
    let mut res: Vec<CommentBlock> = Vec::new();
    let mut i: usize = 0;
    assert(raw_views(blocks@).take(0) == Seq::<RawBlock>::empty());
    assert(block_views(res@) == Seq::<BlockView>::empty());
    while i < blocks.len()
        invariant
            i <= blocks.len(),
            with_colon@ == tag@.push(':'),
            block_views(res@) == select_tagged(raw_views(blocks@).take(i as int), tag@),
        decreases blocks.len() - i,
    {
        let ghost raw = raw_views(blocks@);
        let ghost found = block_views(res@);
        proof {
            assert(raw.take(i + 1).drop_last() == raw.take(i as int));
            assert(raw.take(i + 1).last() == raw_view(blocks[i as int]));
        }
        let block = &blocks[i];
        if block.1.len() > 0 {
            let first = chars_of(block.1[0].as_str());
            assert(first@ == raw[i as int].contents[0]);
            if starts_with(&first, &with_colon) {
                let rest = copy_range(&first, with_colon.len(), first.len());
                assert(rest@ == first@.skip(tag@.len() as int + 1));
                let id = string_of(&trim(&rest));
                let contents = clone_strings(&block.1, 1);
                res.push(CommentBlock { id, line: block.0, contents });
                assert(block_views(res@) == found.push(tagged_view(raw[i as int], tag@)));
            }
        }
        i = i + 1;
    }
    assert(raw_views(blocks@).take(blocks.len() as int) == raw_views(blocks@));
    res
}

impl CommentBlock {
    /// The blocks of `text` that begin with `tag` and a colon. A bare `//`
    /// does not end a block.
    pub fn extract(tag: &str, text: &str) -> (r: Vec<CommentBlock>)
        requires
            valid_tag(tag@),
        ensures
            block_views(r@) == select_tagged(raw_blocks(text@, true), tag@),
    {
        let blocks = do_extract_comment_blocks(text, true);
        select_blocks(tag, &blocks)
    }

    /// As `extract`, for any `tag`: one that does not begin with an uppercase
    /// character is refused before the text is looked at.
    pub fn try_extract(tag: &str, text: &str) -> (r: Result<Vec<CommentBlock>, Error>)
        ensures
            match r {
                Ok(blocks) => extraction(tag@, text@) == Ok::<Seq<BlockView>, Error>(
                    block_views(blocks@),
                ),
                Err(e) => extraction(tag@, text@) == Err::<Seq<BlockView>, Error>(e),
            },
    {
        let tag_chars = chars_of(tag);
        if tag_chars.len() > 0 && is_uppercase(tag_chars[0]) {
            Ok(CommentBlock::extract(tag, text))
        } else {
            Err(Error::PreconditionViolation)
        }
    }

    /// All blocks of `text`, each with an empty id. A bare `//` does not end
    /// a block.
    pub fn extract_untagged(text: &str) -> (r: Vec<CommentBlock>)
        ensures
            block_views(r@) == untagged_views(raw_blocks(text@, true)),
    {
        let blocks = do_extract_comment_blocks(text, true);
        let mut res: Vec<CommentBlock> = Vec::new();
        let mut i: usize = 0;
        while i < blocks.len()
            invariant
                i <= blocks.len(),
                res.len() == i,
                forall|j: int| 0 <= j < i ==> (#[trigger] res[j])@ == untagged_view(
                    raw_view(blocks[j]),
                ),
            decreases blocks.len() - i,
        {
            let contents = clone_strings(&blocks[i].1, 0);
            assert(string_views(blocks[i as int].1@).skip(0) == string_views(blocks[i as int].1@));
            res.push(CommentBlock { id: String::new(), line: blocks[i].0, contents });
            i = i + 1;
        }
        assert(block_views(res@) =~= untagged_views(raw_views(blocks@)));
        res
    }
}

/// Whether a run of comment lines begins at index `j`: the line there is
/// none that ends a block, and it is the first line or follows one that does.
pub open spec fn is_region_start(lines: Seq<Seq<char>>, j: int, tolerant: bool) -> bool {
    &&& 0 <= j < lines.len()
    &&& !(classify(lines[j], tolerant) is Other)
    &&& (j == 0 || classify(lines[j - 1], tolerant) is Other)
}

/// The indices among the first `k` lines at which a run of comment lines
/// begins, in rising order.
pub open spec fn region_starts(lines: Seq<Seq<char>>, k: nat, tolerant: bool) -> Seq<nat>
    decreases k,
{
    if k == 0 {
        Seq::empty()
    } else {
        let before = region_starts(lines, (k - 1) as nat, tolerant);
        if is_region_start(lines, k - 1, tolerant) {
            before.push((k - 1) as nat)
        } else {
            before
        }
    }
}

/// After `k` lines the blocks found, the open one included, are the runs that
/// begin among those lines: one block for each, in order, labelled by where
/// its run begins, and none empty.
pub proof fn lemma_blocks_follow_regions(lines: Seq<Seq<char>>, k: nat, tolerant: bool)
    requires
        k <= lines.len(),
    ensures
        closed(scan_prefix(lines, k, tolerant)).len() == region_starts(lines, k, tolerant).len(),
        forall|i: int|
            0 <= i < region_starts(lines, k, tolerant).len() ==> {
                &&& (#[trigger] closed(scan_prefix(lines, k, tolerant))[i]).line == line_label(
                    region_starts(lines, k, tolerant)[i],
                )
                &&& closed(scan_prefix(lines, k, tolerant))[i].contents.len() > 0
            },
        forall|i: int|
            0 <= i < region_starts(lines, k, tolerant).len() ==> (#[trigger] region_starts(
                lines,
                k,
                tolerant,
            )[i]) < k,
        forall|i: int, j: int|
            0 <= i < j < region_starts(lines, k, tolerant).len() ==> (#[trigger] region_starts(
                lines,
                k,
                tolerant,
            )[i]) < (#[trigger] region_starts(lines, k, tolerant)[j]),
    decreases k,
{
    if k > 0 {
        let p = (k - 1) as nat;
        lemma_blocks_follow_regions(lines, p, tolerant);
        lemma_scan_start(lines, p, tolerant);
        let st0 = scan_prefix(lines, p, tolerant);
        let st = scan_prefix(lines, k, tolerant);
        let r0 = region_starts(lines, p, tolerant);
        let r = region_starts(lines, k, tolerant);
        let c0 = closed(st0);
        let c = closed(st);
        if classify(lines[k - 1], tolerant) is Other {
            assert(c == c0);
            assert(r == r0);
        } else if st0.current.len() == 0 {
            assert(is_region_start(lines, k - 1, tolerant));
            assert(r == r0.push(p));
            assert(c.len() == c0.len() + 1);
            assert forall|i: int| 0 <= i < r.len() implies (#[trigger] c[i]).line == line_label(
                r[i],
            ) && c[i].contents.len() > 0 by {
                if i < c0.len() {
                    assert(c[i] == c0[i]);
                    assert(r[i] == r0[i]);
                }
            }
        } else {
            assert(r == r0);
            assert(c.len() == c0.len());
            assert forall|i: int| 0 <= i < r.len() implies (#[trigger] c[i]).line == line_label(
                r[i],
            ) && c[i].contents.len() > 0 by {
                if i < c0.len() - 1 {
                    assert(c[i] == c0[i]);
                } else {
                    assert(c0[i].line == st0.start);
                    assert(c[i].line == st0.start);
                }
            }
        }
    }
}

/// What a line adds to the block that it belongs to: what follows the
/// comment prefix, or nothing for a bare marker.
pub open spec fn payload_of(line: Seq<char>, tolerant: bool) -> Seq<char> {
    match classify(line, tolerant) {
        LineKind::Content(payload) => payload,
        _ => Seq::empty(),
    }
}

/// Whether `contents` is what the `contents.len()` lines from index `j` on
/// add to a block, none of them a line that ends one.
pub open spec fn holds_lines_from(
    contents: Seq<Seq<char>>,
    lines: Seq<Seq<char>>,
    j: int,
    tolerant: bool,
) -> bool {
    &&& 0 <= j
    &&& j + contents.len() <= lines.len()
    &&& forall|m: int|
        0 <= m < contents.len() ==> !(classify(#[trigger] lines[j + m], tolerant) is Other)
            && contents[m] == payload_of(lines[j + m], tolerant)
}

/// After `k` lines each block found holds the lines of its run. A block that
/// has ended is followed by the line that ended it; the open block reaches
/// up to line `k`.
pub proof fn lemma_blocks_are_runs(lines: Seq<Seq<char>>, k: nat, tolerant: bool)
    requires
        k <= lines.len(),
    ensures
        closed(scan_prefix(lines, k, tolerant)).len() == region_starts(lines, k, tolerant).len(),
        forall|i: int|
            0 <= i < region_starts(lines, k, tolerant).len() ==> holds_lines_from(
                (#[trigger] closed(scan_prefix(lines, k, tolerant))[i]).contents,
                lines,
                region_starts(lines, k, tolerant)[i] as int,
                tolerant,
            ),
        forall|i: int|
            0 <= i < scan_prefix(lines, k, tolerant).done.len() ==> {
                let end = region_starts(lines, k, tolerant)[i] + (#[trigger] scan_prefix(
                    lines,
                    k,
                    tolerant,
                ).done[i]).contents.len();
                end < k && classify(lines[end as int], tolerant) is Other
            },
        scan_prefix(lines, k, tolerant).current.len() > 0 ==> region_starts(
            lines,
            k,
            tolerant,
        ).last() + scan_prefix(lines, k, tolerant).current.len() == k,
    decreases k,
{
    lemma_blocks_follow_regions(lines, k, tolerant);
    if k > 0 {
        let p = (k - 1) as nat;
        lemma_blocks_are_runs(lines, p, tolerant);
        lemma_blocks_follow_regions(lines, p, tolerant);
        lemma_scan_start(lines, p, tolerant);
        let st0 = scan_prefix(lines, p, tolerant);
        let st = scan_prefix(lines, k, tolerant);
        let r0 = region_starts(lines, p, tolerant);
        let r = region_starts(lines, k, tolerant);
        let c0 = closed(st0);
        let c = closed(st);
        if classify(lines[k - 1], tolerant) is Other {
            assert(c == c0);
            assert(r == r0);
            assert(st.done == c0);
            assert forall|i: int| 0 <= i < st.done.len() implies {
                let end = r[i] + (#[trigger] st.done[i]).contents.len();
                end < k && classify(lines[end as int], tolerant) is Other
            } by {
                if i < st0.done.len() {
                    assert(st.done[i] == st0.done[i]);
                } else {
                    assert(st.done[i].contents == st0.current);
                }
            }
        } else if st0.current.len() == 0 {
            assert(is_region_start(lines, k - 1, tolerant));
            assert(r == r0.push(p));
            assert(c.len() == c0.len() + 1);
            assert(st.current.len() == 1);
            assert forall|i: int| 0 <= i < r.len() implies holds_lines_from(
                (#[trigger] c[i]).contents,
                lines,
                r[i] as int,
                tolerant,
            ) by {
                if i < c0.len() {
                    assert(c[i] == c0[i]);
                    assert(r[i] == r0[i]);
                } else {
                    assert(c[i].contents == st.current);
                    assert(r[i] == p);
                }
            }
            assert forall|i: int| 0 <= i < st.done.len() implies {
                let end = r[i] + (#[trigger] st.done[i]).contents.len();
                end < k && classify(lines[end as int], tolerant) is Other
            } by {
                assert(st.done[i] == st0.done[i]);
                assert(r[i] == r0[i]);
            }
        } else {
            assert(r == r0);
            assert(c.len() == c0.len());
            let last = c.len() - 1;
            assert(c0[last].contents == st0.current);
            assert(holds_lines_from(c0[last].contents, lines, r0[last] as int, tolerant));
            assert forall|i: int| 0 <= i < r.len() implies holds_lines_from(
                (#[trigger] c[i]).contents,
                lines,
                r[i] as int,
                tolerant,
            ) by {
                if i < last {
                    assert(c[i] == c0[i]);
                } else {
                    assert(c[i].contents == st.current);
                    assert(r[i] + st0.current.len() == k - 1);
                    assert forall|m: int| 0 <= m < st.current.len() implies !(classify(
                        #[trigger] lines[r[i] + m],
                        tolerant,
                    ) is Other) && st.current[m] == payload_of(lines[r[i] + m], tolerant) by {
                        if m < st0.current.len() {
                            assert(st.current[m] == st0.current[m]);
                        }
                    }
                }
            }
            assert forall|i: int| 0 <= i < st.done.len() implies {
                let end = r[i] + (#[trigger] st.done[i]).contents.len();
                end < k && classify(lines[end as int], tolerant) is Other
            } by {
                assert(st.done[i] == st0.done[i]);
            }
        }
    }
}

/// The blocks of a text are its runs of comment lines: the block of a run
/// holds what each line of the run adds, line by line, and the run goes on
/// up to a line that ends it or to the end of the text.
pub proof fn law_blocks_are_whole_runs(text: Seq<char>, tolerant: bool, i: int)
    requires
        0 <= i < raw_blocks(text, tolerant).len(),
    ensures
        ({
            let lines = lines_of(text);
            let j = region_starts(lines, lines.len(), tolerant)[i] as int;
            let contents = raw_blocks(text, tolerant)[i].contents;
            &&& i < region_starts(lines, lines.len(), tolerant).len()
            &&& contents.len() > 0
            &&& holds_lines_from(contents, lines, j, tolerant)
            &&& (j + contents.len() == lines.len() || classify(
                lines[j + contents.len()],
                tolerant,
            ) is Other)
        }),
{
    let lines = lines_of(text);
    lemma_blocks_are_runs(lines, lines.len(), tolerant);
    lemma_blocks_follow_regions(lines, lines.len(), tolerant);
    let st = scan_prefix(lines, lines.len(), tolerant);
    if i < st.done.len() {
        assert(closed(st)[i] == st.done[i]);
    } else {
        assert(closed(st)[i].contents == st.current);
    }
}

/// A text has one block for each run of comment lines, in the order of the
/// runs: the block of a run is labelled by the line at which the run begins.
pub proof fn law_one_block_per_region(text: Seq<char>, tolerant: bool)
    ensures
        raw_blocks(text, tolerant).len() == region_starts(
            lines_of(text),
            lines_of(text).len(),
            tolerant,
        ).len(),
        forall|i: int|
            0 <= i < raw_blocks(text, tolerant).len() ==> (#[trigger] raw_blocks(
                text,
                tolerant,
            )[i]).line == line_label(
                region_starts(lines_of(text), lines_of(text).len(), tolerant)[i],
            ),
        untagged_views(raw_blocks(text, true)).len() == region_starts(
            lines_of(text),
            lines_of(text).len(),
            true,
        ).len(),
{
    lemma_blocks_follow_regions(lines_of(text), lines_of(text).len(), tolerant);
    lemma_blocks_follow_regions(lines_of(text), lines_of(text).len(), true);
}

/// Blocks come in the order of the text: of two blocks, the earlier one
/// begins at the smaller line number. No block is empty.
pub proof fn law_blocks_in_source_order(text: Seq<char>, tolerant: bool)
    ensures
        forall|i: int, j: int|
            0 <= i < j < raw_blocks(text, tolerant).len() ==> (#[trigger] raw_blocks(
                text,
                tolerant,
            )[i]).line < (#[trigger] raw_blocks(text, tolerant)[j]).line,
        forall|i: int|
            0 <= i < raw_blocks(text, tolerant).len() ==> (#[trigger] raw_blocks(
                text,
                tolerant,
            )[i]).contents.len() > 0,
{
    let lines = lines_of(text);
    lemma_blocks_follow_regions(lines, lines.len(), tolerant);
    let r = region_starts(lines, lines.len(), tolerant);
    let b = raw_blocks(text, tolerant);
    assert forall|i: int, j: int| 0 <= i < j < b.len() implies (#[trigger] b[i]).line < (
    #[trigger] b[j]).line by {
        assert(r[i] < r[j]);
    }
}

/// A block that begins with one tag and a colon is not found under another
/// tag, unless one of the two tags, with its colon, begins the other.
pub proof fn law_tags_do_not_mix(b: RawBlock, tag: Seq<char>, other: Seq<char>)
    requires
        is_tagged(b, tag),
        is_tagged(b, other),
        tag.len() <= other.len(),
    ensures
        has_prefix(other.push(':'), tag.push(':')),
{
    let first = b.contents[0];
    let t = tag.push(':');
    let o = other.push(':');
    assert(o.take(t.len() as int) =~= first.take(o.len() as int).take(t.len() as int));
    assert(first.take(o.len() as int).take(t.len() as int) =~= first.take(t.len() as int));
}

/// `lines` with an empty line in place of each bare marker.
pub open spec fn without_bare_markers(lines: Seq<Seq<char>>) -> Seq<Seq<char>> {
    Seq::new(
        lines.len(),
        |i: int|
            if trim_start_of(lines[i]) == marker() {
                Seq::empty()
            } else {
                lines[i]
            },
    )
}

/// Two sequences of lines that the scan takes alike, line by line, are
/// scanned to the same state.
pub proof fn lemma_scan_of_like_lines(
    lines: Seq<Seq<char>>,
    others: Seq<Seq<char>>,
    k: nat,
    tolerant: bool,
)
    requires
        lines.len() == others.len(),
        k <= lines.len(),
        forall|i: int|
            0 <= i < lines.len() ==> classify(#[trigger] lines[i], tolerant) == classify(
                others[i],
                tolerant,
            ),
    ensures
        scan_prefix(lines, k, tolerant) == scan_prefix(others, k, tolerant),
    decreases k,
{
    if k > 0 {
        lemma_scan_of_like_lines(lines, others, (k - 1) as nat, tolerant);
        assert(classify(lines[k - 1], tolerant) == classify(others[k - 1], tolerant));
    }
}

/// In a scan that does not let a block go on over a bare marker, a bare
/// marker is a line like an empty one: a text has the blocks of the text
/// whose lines are the same but for an empty line in place of each bare
/// marker.
pub proof fn law_strict_marker_is_an_empty_line(text: Seq<char>, other: Seq<char>)
    requires
        lines_of(other) == without_bare_markers(lines_of(text)),
    ensures
        raw_blocks(text, false) == raw_blocks(other, false),
{
    let lines = lines_of(text);
    let others = lines_of(other);
    assert forall|i: int| 0 <= i < lines.len() implies classify(#[trigger] lines[i], false)
        == classify(others[i], false) by {
        if trim_start_of(lines[i]) == marker() {
            let empty = Seq::<char>::empty();
            assert(others[i] == empty);
            assert(leading_whitespace(empty) == 0);
            assert(trim_start_of(empty) == empty);
            assert(!has_prefix(empty, comment_prefix()));
            assert(!has_prefix(marker(), comment_prefix()));
        }
    }
    lemma_scan_of_like_lines(lines, others, lines.len(), false);
}

} // verus!
