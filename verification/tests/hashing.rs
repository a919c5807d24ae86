use comment_rot::extract::extract_file;
use comment_rot::hashing::{hash_str, normalize_for_hash, short_anchor};

#[test]
fn collapses_internal_whitespace_runs() {
    assert_eq!(normalize_for_hash("a   b\tc"), "a b c");
}

#[test]
fn trims_leading_and_trailing_whitespace() {
    assert_eq!(normalize_for_hash("  \n  hello  \n  "), "hello");
}

#[test]
fn reformatting_does_not_change_the_hash() {
    let a = "fn f(a: i32) -> i32 {\n    a + 1\n}";
    let b = "fn f(a: i32) -> i32 {\n        a\n        +\n        1\n}";
    assert_eq!(hash_str(a), hash_str(b));
}

#[test]
fn a_real_change_does_change_the_hash() {
    assert_ne!(hash_str("a + 1"), hash_str("a + 2"));
}

#[test]
fn short_anchor_is_a_12_char_prefix_of_the_full_hash() {
    let full = hash_str("some code");
    assert_eq!(short_anchor("some code"), full[..12]);
}

#[test]
fn extraction_smoke() {
    let items = extract_file("src/lib.rs", "/// Adds two numbers.\npub fn add(a: i32, b: i32) -> i32 {\n    a + b\n}\n").unwrap();
    println!("{:#?}", items);
    assert_eq!(items.len(), 1);
    assert_eq!(items[0].item_path, "crate::add");
    assert_eq!(items[0].id, "src/lib.rs|crate::add");
}
