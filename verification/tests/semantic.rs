use pedantix::semantic::{check_same_content, fingerprint, fingerprint_with};

#[test]
fn check_same_content_refuses_a_changed_file() {
    check_same_content(
        "{ a = 1; b = 2; }",
        "{ b = 2; a = 1; }",
        false,
        false,
        false,
    )
    .unwrap();
    let err = check_same_content("{ a = 1; }", "{ a = 2; }", false, false, false)
        .expect_err("changed value must be refused")
        .message();
    assert!(
        err.contains("would have changed the file's content"),
        "{err}"
    );
    check_same_content(
        "{ xs = [ 1 2 ]; }",
        "{ xs = [ 2 1 ]; }",
        false,
        false,
        false,
    )
    .expect_err("list reorder must be refused unless flagged");
    check_same_content("{ xs = [ 1 2 ]; }", "{ xs = [ 2 1 ]; }", true, false, false).unwrap();
}

#[test]
fn reordering_is_equal_content_is_not() {
    assert_eq!(
        fingerprint("{ a = 1; b = 2; }").unwrap(),
        fingerprint("{\n  b = 2;\n  a = 1;\n}").unwrap()
    );
    assert_ne!(
        fingerprint("{ a = 1; }").unwrap(),
        fingerprint("{ a = 2; }").unwrap()
    );
    assert_ne!(
        fingerprint("{ a = 1; # hi\n}").unwrap(),
        fingerprint("{ a = 1; }").unwrap()
    );
}

#[test]
fn empty_collections_ignore_interior_whitespace() {
    assert_eq!(
        fingerprint("{ p = x or {}; }").unwrap(),
        fingerprint("{ p = x or { }; }").unwrap()
    );
    assert_eq!(fingerprint("[]").unwrap(), fingerprint("[ ]").unwrap());
    assert_eq!(
        fingerprint("{}: rec {}").unwrap(),
        fingerprint("{ }: rec { }").unwrap()
    );
    assert_ne!(fingerprint("{ }").unwrap(), fingerprint("[ ]").unwrap());
}

#[test]
fn operators_are_distinguished() {
    assert_ne!(fingerprint("a + b").unwrap(), fingerprint("a - b").unwrap());
    assert_ne!(fingerprint("!a").unwrap(), fingerprint("-a").unwrap());
}

#[test]
fn list_order_matters_unless_flagged() {
    assert_ne!(
        fingerprint("[ 1 2 ]").unwrap(),
        fingerprint("[ 2 1 ]").unwrap()
    );
    assert_eq!(
        fingerprint_with("[ 1 2 ]", true, false, false).unwrap(),
        fingerprint_with("[ 2 1 ]", true, false, false).unwrap()
    );
}

#[test]
fn formals_and_inherits_are_order_insensitive() {
    assert_eq!(
        fingerprint("{ a, b, ... }: { inherit (x) c d; }").unwrap(),
        fingerprint("{ b, a, ... }: { inherit (x) d c; }").unwrap()
    );
}

#[test]
fn nesting_matters_unless_flagged() {
    assert_ne!(
        fingerprint("{ a.b = 1; a.c = 2; }").unwrap(),
        fingerprint("{ a = { b = 1; c = 2; }; }").unwrap()
    );
    assert_eq!(
        fingerprint_with("{ a.b = 1; a.c = 2; }", false, true, false).unwrap(),
        fingerprint_with("{ a = { b = 1; c = 2; }; }", false, true, false).unwrap()
    );
    assert_eq!(
        fingerprint_with("{ a.b.c = 1; }", false, true, false).unwrap(),
        fingerprint_with("{ a = { b = { c = 1; }; }; }", false, true, false).unwrap()
    );
}

#[test]
fn flattening_still_detects_content_changes() {
    assert_ne!(
        fingerprint_with("{ a.b = 1; }", false, true, false).unwrap(),
        fingerprint_with("{ a.b = 2; }", false, true, false).unwrap()
    );
    assert_ne!(
        fingerprint_with("{ a.b = 1; }", false, true, false).unwrap(),
        fingerprint_with("{ a.c = 1; }", false, true, false).unwrap()
    );
    assert_ne!(
        fingerprint_with("{ a = rec { b = 1; }; }", false, true, false).unwrap(),
        fingerprint_with("{ a.b = 1; }", false, true, false).unwrap()
    );
    assert_ne!(
        fingerprint_with("{ a = { }; }", false, true, false).unwrap(),
        fingerprint_with("{ }", false, true, false).unwrap()
    );
}

#[test]
fn indented_string_reindentation_is_equal_content_is_not() {
    assert_eq!(
        fingerprint("{ a = ''\n      foo\n    '';\n}").unwrap(),
        fingerprint("{ a = ''\n    foo\n  '';\n}").unwrap()
    );
    assert_ne!(
        fingerprint("''\n  foo\n    bar\n''").unwrap(),
        fingerprint("''\n  foo\n  bar\n''").unwrap()
    );
    assert_ne!(
        fingerprint("''\n  foo\n    \n''").unwrap(),
        fingerprint("''\n  foo\n  \n''").unwrap()
    );
}

#[test]
fn name_styles_match_unless_flagged() {
    let names = |src: &str| fingerprint_with(src, false, false, true).unwrap();
    assert_ne!(
        fingerprint("{ \"a\" = 1; }").unwrap(),
        fingerprint("{ a = 1; }").unwrap()
    );
    assert_eq!(names("{ \"a\" = 1; }"), names("{ a = 1; }"));
    assert_eq!(
        names("{ inherit (x) \"a\" b; }"),
        names("{ inherit (x) b a; }")
    );
    assert_ne!(names("{ \"a b\" = 1; }"), names("{ ab = 1; }"));
    assert_eq!(
        fingerprint_with("{ \"a${[ 1 2 ]}\" = 1; }", true, false, true).unwrap(),
        fingerprint_with("{ \"a${[ 2 1 ]}\" = 1; }", true, false, true).unwrap()
    );
}
