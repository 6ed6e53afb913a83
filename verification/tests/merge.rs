use pedantix::config::Config;
use pedantix::merge::merge_source;
use pedantix::parser::parse_valid;
use pedantix::error::Refusal;

fn cfg(toml_str: &str) -> Config {
    Config::from_toml_str(toml_str).unwrap()
}

fn merged(src: &str, config: &Config) -> String {
    merge_source(src, config).unwrap()
}

fn parses(src: &str) -> bool {
    parse_valid(src, Refusal::Merge).is_ok()
}

#[test]
fn merges_shared_heads() {
    let config = cfg("[attrs]\nmerge = true\n");
    let out = merged(
        "{\n  programs.emacs.enable = true;\n  programs.kitty.enable = true;\n}\n",
        &config,
    );
    assert_eq!(
        out,
        "{\n  programs = {\n    emacs.enable = true;\n    kitty.enable = true;\n  };\n}\n"
    );
}

#[test]
fn merge_off_by_default() {
    let src = "{\n  a.b = 1;\n  a.c = 2;\n}\n";
    assert_eq!(merged(src, &Config::default()), src);
}

#[test]
fn single_occurrence_is_untouched() {
    let config = cfg("[attrs]\nmerge = true\n");
    let src = "{\n  a.b = 1;\n  c.d = 2;\n}\n";
    assert_eq!(merged(src, &config), src);
}

#[test]
fn merges_recursively() {
    let config = cfg("[attrs]\nmerge = true\n");
    let out = merged("{\n  a.b.c = 1;\n  a.b.d = 2;\n}\n", &config);
    assert_eq!(
        out,
        "{\n  a = {\n    b = {\n      c = 1;\n      d = 2;\n    };\n  };\n}\n"
    );
}

#[test]
fn plain_binding_blocks_merge() {
    let config = cfg("[attrs]\nmerge = true\n");
    let src = "{\n  a = 1;\n  a.b = 2;\n  a.c = 3;\n}\n";
    assert_eq!(merged(src, &config), src);
}

#[test]
fn inherit_blocks_merge() {
    let config = cfg("[attrs]\nmerge = true\n");
    let src = "{\n  inherit a;\n  a.b = 1;\n  a.c = 2;\n}\n";
    assert_eq!(merged(src, &config), src);
}

#[test]
fn dynamic_heads_are_skipped() {
    let config = cfg("[attrs]\nmerge = true\n");
    let src = "{\n  ${x}.a = 1;\n  ${x}.b = 2;\n}\n";
    assert_eq!(merged(src, &config), src);
}

#[test]
fn interpolated_string_heads_are_not_merged() {
    let config = cfg("[attrs]\nmerge = true\n");
    let src = "{\n  \"a${x}\".b = 1;\n  \"a${x}\".c = 2;\n}\n";
    assert_eq!(merged(src, &config), src);
}

#[test]
fn comments_move_into_the_merged_set() {
    let config = cfg("[attrs]\nmerge = true\n");
    let out = merged(
        "{\n  # about b\n  a.b = 1; # trailing b\n  a.c = 2;\n}\n",
        &config,
    );
    assert_eq!(
        out,
        "{\n  a = {\n    # about b\n    b = 1; # trailing b\n    c = 2;\n  };\n}\n"
    );
}

#[test]
fn quoted_head_merges_with_identifier_head() {
    let config = cfg("[attrs]\nmerge = true\n");
    let out = merged("{\n  \"a\".b = 1;\n  a.c = 2;\n}\n", &config);
    assert_eq!(out, "{\n  \"a\" = {\n    b = 1;\n    c = 2;\n  };\n}\n");
}

#[test]
fn other_bindings_keep_their_place() {
    let config = cfg("[attrs]\nmerge = true\n");
    let out = merged(
        "{\n  z = 0;\n  a.b = 1;\n  q = 9;\n  a.c = 2;\n}\n",
        &config,
    );
    assert_eq!(
        out,
        "{\n  z = 0;\n  a = {\n    b = 1;\n    c = 2;\n  };\n  q = 9;\n}\n"
    );
}

#[test]
fn per_path_override_disables_merge() {
    let config =
        cfg("[attrs]\nmerge = true\n[[overrides]]\npath = \"**.keep\"\nattrs.merge = false\n");
    let out = merged(
        "{\n  keep = {\n    a.b = 1;\n    a.c = 2;\n  };\n  x.y = 1;\n  x.z = 2;\n}\n",
        &config,
    );
    assert_eq!(
        out,
        "{\n  keep = {\n    a.b = 1;\n    a.c = 2;\n  };\n  x = {\n    y = 1;\n    z = 2;\n  };\n}\n"
    );
}

#[test]
fn comments_in_attrpaths_merge_conservatively() {
    let config = cfg("[attrs]\nmerge = true\n");
    let out = merged("{\n  a/*x*/.b = 1;\n  a.c = 2;\n  a.d = 3;\n}\n", &config);
    assert_eq!(
        out,
        "{\n  a/*x*/.b = 1;\n  a = {\n    c = 2;\n    d = 3;\n  };\n}\n"
    );
    assert!(parses(&out));

    let src = "{\n  a/*x*/ = 1;\n  a.b = 2;\n  a.c = 3;\n}\n";
    assert_eq!(merged(src, &config), src);
}

#[test]
fn single_line_input_stays_valid() {
    let config = cfg("[attrs]\nmerge = true\n");
    let out = merged("{ a.b = 1; a.c = 2; }\n", &config);
    assert!(parses(&out));
    assert!(out.contains("a = {"));
}

#[test]
fn merge_invalid_nix_is_rejected() {
    let config = cfg("[attrs]\nmerge = true\n");
    assert!(merge_source("{ a = ; }", &config).is_err());
}
