use sourcegen::{render_link, Error, Location};
use std::path::PathBuf;

#[test]
fn link_has_path_line_and_name() {
    assert_eq!(
        render_link("crates/ide/src/lib.rs", 42, "lib.rs"),
        "https://github.com/rust-analyzer/rust-analyzer/blob/master/crates/ide/src/lib.rs#L42[lib.rs]"
    );
}

#[test]
fn backslashes_become_slashes_in_the_path_only() {
    assert_eq!(
        render_link("crates\\ide\\a.rs", 7, "a\\b.rs"),
        "https://github.com/rust-analyzer/rust-analyzer/blob/master/crates/ide/a.rs#L7[a\\b.rs]"
    );
}

#[test]
fn line_is_written_in_decimal() {
    let base = "https://github.com/rust-analyzer/rust-analyzer/blob/master/";
    assert_eq!(render_link("f", 0, "f"), format!("{}f#L0[f]", base));
    assert_eq!(render_link("f", 9, "f"), format!("{}f#L9[f]", base));
    assert_eq!(render_link("f", 10, "f"), format!("{}f#L10[f]", base));
    assert_eq!(render_link("f", 1234567890, "f"), format!("{}f#L1234567890[f]", base));
    assert_eq!(render_link("f", usize::MAX, "f"), format!("{}f#L{}[f]", base, usize::MAX));
}

#[test]
fn location_below_the_root_has_a_link() {
    let root = PathBuf::from("/work/project");
    let location = Location { file: root.join("crates").join("syntax").join("ast.rs"), line: 3 };
    let expected = format!(
        "https://github.com/rust-analyzer/rust-analyzer/blob/master/{}#L3[ast.rs]",
        PathBuf::from("crates").join("syntax").join("ast.rs").display().to_string().replace('\\', "/")
    );
    assert_eq!(location.link(&root), Ok(expected));
}

#[test]
fn location_outside_the_root_is_refused() {
    let root = PathBuf::from("/work/project");
    let location = Location { file: PathBuf::from("/elsewhere/ast.rs"), line: 3 };
    assert_eq!(location.link(&root), Err(Error::PreconditionViolation));
}

#[test]
fn location_without_a_file_name_is_refused() {
    let root = PathBuf::from("/work/project");
    let location = Location { file: root.join(".."), line: 1 };
    assert_eq!(location.link(&root), Err(Error::PreconditionViolation));
}
