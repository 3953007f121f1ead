use sourcegen::comments::CommentBlock;
use sourcegen::{do_extract_comment_blocks, select_blocks, Error};

fn strings(items: &[&str]) -> Vec<String> {
    items.iter().map(|s| s.to_string()).collect()
}

#[test]
fn untagged_blocks_come_in_source_order() {
    let text = "fn a() {}\n// first\n// block\nfn b() {}\n\n// second\nfn c() {}\n// third\n";
    let blocks = CommentBlock::extract_untagged(text);
    assert_eq!(blocks.len(), 3);
    assert_eq!(blocks[0].contents, strings(&["first", "block"]));
    assert_eq!(blocks[1].contents, strings(&["second"]));
    assert_eq!(blocks[2].contents, strings(&["third"]));
    assert_eq!(blocks[0].line, 2);
    assert_eq!(blocks[1].line, 6);
    assert_eq!(blocks[2].line, 8);
    assert!(blocks.iter().all(|b| b.id.is_empty()));
}

#[test]
fn block_at_the_very_beginning_has_line_one() {
    let blocks = CommentBlock::extract_untagged("// top\ncode\n");
    assert_eq!(
        blocks,
        vec![CommentBlock { id: String::new(), line: 1, contents: strings(&["top"]) }]
    );
    let blocks = CommentBlock::extract_untagged("// a\n// b");
    assert_eq!(
        blocks,
        vec![CommentBlock { id: String::new(), line: 1, contents: strings(&["a", "b"]) }]
    );
}

#[test]
fn tagged_block_at_the_very_beginning_has_line_one() {
    let blocks = CommentBlock::extract("NOTE", "// NOTE: first\n// body\ncode\n// NOTE: next\n");
    assert_eq!(blocks.len(), 2);
    assert_eq!(blocks[0].line, 1);
    assert_eq!(blocks[1].line, 4);
}

#[test]
fn line_is_that_of_the_first_line_of_the_block() {
    let text = "a\n\n  // one\n// two\nb\n// three";
    let lines: Vec<&str> = text.lines().collect();
    for block in CommentBlock::extract_untagged(text) {
        assert_eq!(lines[block.line - 1].trim_start(), format!("// {}", block.contents[0]));
    }
    assert_eq!(CommentBlock::extract_untagged(text).len(), 2);
}

#[test]
fn line_is_two_more_than_the_index_of_the_line_that_ended_the_block_before() {
    let blocks = do_extract_comment_blocks("x\ny\nz\n// here", false);
    assert_eq!(blocks, vec![(4, strings(&["here"]))]);
}

#[test]
fn tag_selects_exactly_its_blocks() {
    let text = "code\n// NOTE: x\n// body\ncode\n// OTHER: y\n// more\n";
    let notes = CommentBlock::extract("NOTE", text);
    assert_eq!(notes.len(), 1);
    assert_eq!(notes[0].id, "x");
    assert_eq!(notes[0].line, 2);
    assert_eq!(notes[0].contents, strings(&["body"]));
    let others = CommentBlock::extract("OTHER", text);
    assert_eq!(others.len(), 1);
    assert_eq!(others[0].id, "y");
    assert_eq!(others[0].line, 5);
    assert_eq!(others[0].contents, strings(&["more"]));
    assert!(CommentBlock::extract("MISSING", text).is_empty());
}

#[test]
fn tag_must_be_followed_by_a_colon() {
    let text = "// NOTES: plural\n// body\n\n// NOTE without colon\n";
    assert!(CommentBlock::extract("NOTE", text).is_empty());
}

#[test]
fn id_is_trimmed_on_both_sides() {
    let blocks = CommentBlock::extract("Feature", "// Feature:   Go to definition \t\n// text\n");
    assert_eq!(blocks.len(), 1);
    assert_eq!(blocks[0].id, "Go to definition");
    assert_eq!(blocks[0].contents, strings(&["text"]));
}

#[test]
fn id_is_trimmed_of_wide_space() {
    let blocks = CommentBlock::extract("T", "// T:\u{3000}wide\u{2003}\n");
    assert_eq!(blocks.len(), 1);
    assert_eq!(blocks[0].id, "wide");
}

#[test]
fn block_of_a_tag_line_alone_has_no_contents() {
    let blocks = CommentBlock::extract("NOTE", "// NOTE: lonely\n");
    assert_eq!(
        blocks,
        vec![CommentBlock { id: "lonely".to_string(), line: 1, contents: Vec::new() }]
    );
}

#[test]
fn bare_marker_continues_a_block() {
    let blocks = CommentBlock::extract_untagged("// a\n//\n// b");
    assert_eq!(blocks.len(), 1);
    assert_eq!(blocks[0].contents, strings(&["a", "", "b"]));
}

#[test]
fn bare_marker_continues_a_tagged_block() {
    let blocks = CommentBlock::extract("Assist", "code\n// Assist: one\n//\n// after\n");
    assert_eq!(blocks.len(), 1);
    assert_eq!(blocks[0].id, "one");
    assert_eq!(blocks[0].contents, strings(&["", "after"]));
}

#[test]
fn bare_marker_may_open_a_block() {
    let blocks = do_extract_comment_blocks("//\n// a\n", true);
    assert_eq!(blocks, vec![(1, strings(&["", "a"]))]);
    assert!(CommentBlock::extract("A", "//\n// A: x\n").is_empty());
}

#[test]
fn strict_scan_splits_at_a_bare_marker() {
    let blocks = do_extract_comment_blocks("// a\n//\n// b", false);
    assert_eq!(blocks, vec![(1, strings(&["a"])), (3, strings(&["b"]))]);
}

#[test]
fn tolerant_scan_of_the_same_text_is_one_block() {
    let blocks = do_extract_comment_blocks("// a\n//\n// b", true);
    assert_eq!(blocks, vec![(1, strings(&["a", "", "b"]))]);
}

#[test]
fn whitespace_before_the_marker_is_dropped() {
    let blocks = CommentBlock::extract_untagged("mod m {\n    // inner\n\t// tab\n\u{a0}// nbsp\n}\n");
    assert_eq!(blocks.len(), 1);
    assert_eq!(blocks[0].line, 2);
    assert_eq!(blocks[0].contents, strings(&["inner", "tab", "nbsp"]));
}

#[test]
fn payload_keeps_its_own_spaces() {
    let blocks = CommentBlock::extract_untagged("//   indented  \n");
    assert_eq!(blocks[0].contents, strings(&["  indented  "]));
}

#[test]
fn doc_comments_and_code_end_a_block() {
    let blocks = CommentBlock::extract_untagged("// a\n/// doc\n// b\nx // trailing\n// c\n");
    assert_eq!(blocks.len(), 3);
    assert_eq!(blocks[0].line, 1);
    assert_eq!(blocks[1].line, 3);
    assert_eq!(blocks[2].line, 5);
}

#[test]
fn carriage_returns_before_line_feeds_are_no_part_of_a_line() {
    let blocks = CommentBlock::extract_untagged("// a\r\n// b\r\n");
    assert_eq!(blocks.len(), 1);
    assert_eq!(blocks[0].contents, strings(&["a", "b"]));
}

#[test]
fn final_line_needs_no_line_feed() {
    let with = CommentBlock::extract_untagged("x\n// a\n");
    let without = CommentBlock::extract_untagged("x\n// a");
    assert_eq!(with, without);
}

#[test]
fn empty_text_has_no_blocks() {
    assert!(CommentBlock::extract_untagged("").is_empty());
    assert!(CommentBlock::extract("NOTE", "").is_empty());
    assert!(do_extract_comment_blocks("\n\n\n", false).is_empty());
}

#[test]
fn same_lines_as_std() {
    let texts = ["", "\n", "a", "a\n", "a\r\n", "a\r", "\r\n\r\n", "a\n\nb", "a\r\nb\rc\n", "\r", "x\r\r\n"];
    for text in texts {
        let chars = sourcegen::chars_of(text);
        let lines: Vec<String> =
            sourcegen::text::split_lines(&chars).iter().map(sourcegen::string_of).collect();
        let expected: Vec<String> = text.lines().map(|l| l.to_string()).collect();
        assert_eq!(lines, expected);
    }
}

#[test]
fn lowercase_tag_is_refused() {
    assert_eq!(
        CommentBlock::try_extract("note", "// note: x\n"),
        Err(Error::PreconditionViolation)
    );
    assert_eq!(CommentBlock::try_extract("", "// : x\n"), Err(Error::PreconditionViolation));
    assert_eq!(CommentBlock::try_extract("1A", "// 1A: x\n"), Err(Error::PreconditionViolation));
}

#[test]
fn invalid_tag_is_refused_whatever_the_text() {
    for tag in ["note", "nOTE", "1A", "_X", "", " N", "\u{df}"] {
        for text in ["", "fn main() {}\n", "no comment at all", "// NOTE: x\n", "//\n"] {
            assert_eq!(CommentBlock::try_extract(tag, text), Err(Error::PreconditionViolation));
        }
    }
}

#[test]
fn strict_scan_takes_a_bare_marker_for_an_empty_line() {
    let text = "// a\n  //\n// b\n//\n\n//\n// c\nx\n\t//";
    let other = "// a\n\n// b\n\n\n\n// c\nx\n";
    assert_eq!(do_extract_comment_blocks(text, false), do_extract_comment_blocks(other, false));
    assert_eq!(
        do_extract_comment_blocks(text, false),
        vec![(1, strings(&["a"])), (3, strings(&["b"])), (7, strings(&["c"]))]
    );
    assert_ne!(do_extract_comment_blocks(text, true), do_extract_comment_blocks(other, true));
}

#[test]
fn uppercase_tag_is_accepted() {
    let blocks = CommentBlock::try_extract("NOTE", "// NOTE: x\n").unwrap();
    assert_eq!(blocks.len(), 1);
    assert_eq!(blocks[0].id, "x");
    let blocks = CommentBlock::try_extract("\u{c9}tat", "// \u{c9}tat: y\n").unwrap();
    assert_eq!(blocks.len(), 1);
    assert_eq!(blocks[0].id, "y");
}

#[test]
fn select_blocks_passes_over_blocks_without_lines() {
    let blocks = vec![(7, Vec::new()), (9, strings(&["A: id", "body"]))];
    let found = select_blocks("A", &blocks);
    assert_eq!(
        found,
        vec![CommentBlock { id: "id".to_string(), line: 9, contents: strings(&["body"]) }]
    );
}
