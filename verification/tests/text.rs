use sourcegen::text::{
    contains, decimal, ends_with, is_whitespace, starts_with, trim, trim_start,
};
use sourcegen::{chars_of, string_of};

fn cs(s: &str) -> Vec<char> {
    s.chars().collect()
}

#[test]
fn chars_and_back() {
    let s = "h\u{e9}llo \u{1F600}\n";
    assert_eq!(chars_of(s), cs(s));
    assert_eq!(string_of(&chars_of(s)), s);
    assert_eq!(chars_of(""), Vec::<char>::new());
    assert_eq!(string_of(&vec!['a', 'b']), "ab");
}

#[test]
fn trimming_follows_unicode_whitespace() {
    assert_eq!(trim_start(&cs(" \t\u{2003}x y ")), cs("x y "));
    assert_eq!(trim(&cs(" \t\u{2003}x y \u{a0}\n")), cs("x y"));
    assert_eq!(trim(&cs("   ")), cs(""));
    assert_eq!(trim(&cs("")), cs(""));
    assert_eq!(trim_start(&cs("\u{200b}x")), cs("\u{200b}x"));
    assert_eq!(trim(&cs("_x_")), cs("_x_"));
}

#[test]
fn prefixes_suffixes_and_parts() {
    assert!(starts_with(&cs("// a"), &cs("// ")));
    assert!(!starts_with(&cs("//"), &cs("// ")));
    assert!(starts_with(&cs("abc"), &cs("")));
    assert!(ends_with(&cs("lib.rs"), &cs(".rs")));
    assert!(!ends_with(&cs("rs"), &cs(".rs")));
    assert!(ends_with(&cs(""), &cs("")));
    assert!(contains(&cs("1.0-stable"), &cs("stable")));
    assert!(contains(&cs("stable"), &cs("stable")));
    assert!(!contains(&cs("stabl"), &cs("stable")));
    assert!(!contains(&cs("sta ble"), &cs("stable")));
    assert!(contains(&cs(""), &cs("")));
    assert!(contains(&cs("x"), &cs("")));
}

#[test]
fn decimal_digits() {
    assert_eq!(decimal(0), cs("0"));
    assert_eq!(decimal(7), cs("7"));
    assert_eq!(decimal(10), cs("10"));
    assert_eq!(decimal(4096), cs("4096"));
    assert_eq!(decimal(usize::MAX), cs(&usize::MAX.to_string()));
}

#[test]
fn whitespace_is_what_std_takes_for_it() {
    let mut count = 0;
    for code in 0..=0x10ffff_u32 {
        if let Some(c) = char::from_u32(code) {
            assert_eq!(is_whitespace(c), c.is_whitespace(), "U+{:04X}", code);
            if is_whitespace(c) {
                count += 1;
            }
        }
    }
    assert_eq!(count, 25);
}

#[test]
fn whitespace_by_example() {
    for c in [' ', '\t', '\n', '\u{b}', '\u{c}', '\r', '\u{85}', '\u{a0}', '\u{3000}'] {
        assert!(is_whitespace(c));
    }
    for c in ['a', '/', '\u{8}', '\u{e}', '\u{200b}', '\u{feff}', '\u{180e}'] {
        assert!(!is_whitespace(c));
    }
}
