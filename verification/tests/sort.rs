use pedantix::config::Config;
use pedantix::sort::sort_source;

fn cfg(toml_str: &str) -> Config {
    Config::from_toml_str(toml_str).unwrap()
}

fn sorted(src: &str, config: &Config) -> String {
    sort_source(src, config).unwrap()
}

#[test]
fn sorts_attrs_alphabetically() {
    let out = sorted("{\n  b = 1;\n  a = 2;\n}\n", &Config::default());
    assert_eq!(out, "{\n  a = 2;\n  b = 1;\n}\n");
}

#[test]
fn unchanged_input_is_untouched_bytewise() {
    let src = "{\n  a = 2;\n\n  # keeps blank lines and comments\n  b = 1;\n}\n";
    assert_eq!(sorted(src, &Config::default()), src);
}

#[test]
fn single_line_stays_single_line() {
    let out = sorted("{ b = 1; a = 2; }\n", &Config::default());
    assert_eq!(out, "{ a = 2; b = 1; }\n");
}

#[test]
fn first_and_last_lists() {
    let config = cfg(r#"
        [attrs]
        first = ["enable", "package"]
        last = ["extraConfig"]
    "#);
    let out = sorted(
        "{\n  extraConfig = 1;\n  alpha = 2;\n  package = 3;\n  enable = 4;\n  beta = 5;\n}\n",
        &config,
    );
    assert_eq!(
        out,
        "{\n  enable = 4;\n  package = 3;\n  alpha = 2;\n  beta = 5;\n  extraConfig = 1;\n}\n"
    );
}

#[test]
fn sorts_by_full_attrpath() {
    let out = sorted(
        "{\n  programs.git = 1;\n  programs.bash = 2;\n  lfs.enable = 3;\n}\n",
        &Config::default(),
    );
    assert_eq!(
        out,
        "{\n  lfs.enable = 3;\n  programs.bash = 2;\n  programs.git = 1;\n}\n"
    );
}

#[test]
fn nested_attrsets_are_sorted() {
    let out = sorted(
        "{\n  a = {\n    z = 1;\n    y = [\n      {\n        d = 1;\n        c = 2;\n      }\n    ];\n  };\n}\n",
        &Config::default(),
    );
    assert_eq!(
        out,
        "{\n  a = {\n    y = [\n      {\n        c = 2;\n        d = 1;\n      }\n    ];\n    z = 1;\n  };\n}\n"
    );
}

#[test]
fn comments_move_with_their_binding() {
    let out = sorted(
        "{\n  # about b\n  b = 1; # trailing b\n  a = 2;\n}\n",
        &Config::default(),
    );
    assert_eq!(out, "{\n  a = 2;\n  # about b\n  b = 1; # trailing b\n}\n");
}

#[test]
fn inherits_go_first_keeping_relative_order() {
    let out = sorted(
        "{\n  a = 1;\n  inherit (x) z;\n  inherit y;\n}\n",
        &Config::default(),
    );
    assert_eq!(out, "{\n  inherit (x) z;\n  inherit y;\n  a = 1;\n}\n");
}

#[test]
fn inherit_names_sorted_when_enabled() {
    let config = cfg("[inherits]\nsort = true\n");
    let out = sorted("{\n  inherit (x) c a b;\n}\n", &config);
    assert_eq!(out, "{\n  inherit (x) a b c;\n}\n");
}

#[test]
fn formals_sorted_with_first_last_and_ellipsis() {
    let config = cfg(r#"
        [args]
        first = ["self", "lib", "config", "pkgs"]
        last = ["..."]
    "#);
    let out = sorted("{\n  pkgs,\n  minimal,\n  lib,\n  ...\n}:\n{\n}\n", &config);
    assert_eq!(out, "{\n  lib,\n  pkgs,\n  minimal,\n  ...\n}:\n{\n}\n");
}

#[test]
fn formals_defaults_and_trailing_comments() {
    let out = sorted(
        "{\n  b ? null, # about b\n  a,\n  ...\n}:\na\n",
        &Config::default(),
    );
    assert_eq!(out, "{\n  a,\n  b ? null, # about b\n  ...\n}:\na\n");
}

#[test]
fn single_line_formals() {
    let out = sorted("{ b, a, ... }: a\n", &Config::default());
    assert_eq!(out, "{ a, b, ... }: a\n");
}

#[test]
fn lets_untouched_by_default_but_sortable() {
    let src = "let\n  b = 1;\n  a = 2;\nin\nb\n";
    assert_eq!(sorted(src, &Config::default()), src);
    let config = cfg("[lets]\nsort = true\n");
    assert_eq!(sorted(src, &config), "let\n  a = 2;\n  b = 1;\nin\nb\n");
}

#[test]
fn inherit_placement_last_keeps_relative_order() {
    let config = cfg("inherit-placement = \"last\"\n");
    let out = sorted(
        "{\n  inherit y;\n  b = 1;\n  inherit (x) z;\n  a = 2;\n}\n",
        &config,
    );
    assert_eq!(
        out,
        "{\n  a = 2;\n  b = 1;\n  inherit y;\n  inherit (x) z;\n}\n"
    );
    let config = cfg("inherit-placement = \"last\"\n[attrs]\nlast = [\"z\"]\n");
    let out = sorted("{\n  inherit y;\n  z = 1;\n  a = 2;\n}\n", &config);
    assert_eq!(out, "{\n  a = 2;\n  z = 1;\n  inherit y;\n}\n");
}

#[test]
fn inherit_placement_sorted_keys_by_name() {
    let src = "{\n  d = 1;\n  inherit (x) c a;\n  b = 2;\n}\n";
    let config = cfg("inherit-placement = \"sorted\"\n");
    assert_eq!(
        sorted(src, &config),
        "{\n  b = 2;\n  inherit (x) c a;\n  d = 1;\n}\n"
    );
    let config = cfg("inherit-placement = \"sorted\"\n[inherits]\nsort = true\n");
    assert_eq!(
        sorted(src, &config),
        "{\n  inherit (x) a c;\n  b = 2;\n  d = 1;\n}\n"
    );
}

#[test]
fn per_path_overrides_reach_all_rule_kinds() {
    let config = cfg("[[overrides]]\npath = \"f\"\nargs.sort = false\n");
    assert_eq!(
        sorted("{ f = { b, a }: a; f2 = { b, a }: a; }\n", &config),
        "{ f = { b, a }: a; f2 = { a, b }: a; }\n"
    );
    let config = cfg("[lets]\nsort = true\n[[overrides]]\npath = \"g\"\nlets.sort = false\n");
    assert_eq!(
        sorted(
            "{ g = let b = 1; a = 2; in a; g2 = let b = 1; a = 2; in a; }\n",
            &config
        ),
        "{ g = let b = 1; a = 2; in a; g2 = let a = 2; b = 1; in a; }\n"
    );
    let config =
        cfg("[inherits]\nsort = true\n[[overrides]]\npath = \"h\"\ninherits.sort = false\n");
    assert_eq!(
        sorted(
            "{ h = { inherit (x) c a; }; h2 = { inherit (x) c a; }; }\n",
            &config
        ),
        "{ h = { inherit (x) c a; }; h2 = { inherit (x) a c; }; }\n"
    );
}

#[test]
fn defaulted_token_in_first_and_last() {
    let config = cfg("[args]\nfirst = [\"lib\", \"<defaulted>\"]\n");
    assert_eq!(
        sorted("{\n  b,\n  x ? 1,\n  lib,\n  a\n}:\na\n", &config),
        "{\n  lib,\n  x ? 1,\n  a,\n  b\n}:\na\n"
    );
    // In `last`, defaulted args group together (sorted by name), an
    // explicit `first` entry beats the token, and "..." stays behind.
    let config =
        cfg("[args]\nfirst = [\"lib\", \"nixosConfig\"]\nlast = [\"<defaulted>\", \"...\"]\n");
    assert_eq!(
        sorted(
            "{\n  nixosConfig ? null,\n  minimal,\n  globals ? duck,\n  x ? 1,\n  lib,\n  a,\n  ...\n}:\nlib\n",
            &config
        ),
        "{\n  lib,\n  nixosConfig ? null,\n  a,\n  minimal,\n  globals ? duck,\n  x ? 1,\n  ...\n}:\nlib\n"
    );
}

#[test]
fn first_last_apply_to_lets_and_inherits() {
    let config = cfg("[lets]\nsort = true\nfirst = [\"z\"]\nlast = [\"a\"]\n");
    assert_eq!(
        sorted("let\n  b = 1;\n  a = 2;\n  z = 3;\nin\nb\n", &config),
        "let\n  z = 3;\n  b = 1;\n  a = 2;\nin\nb\n"
    );
    let config = cfg("[inherits]\nsort = true\nfirst = [\"z\"]\nlast = [\"a\"]\n");
    assert_eq!(
        sorted("{\n  inherit (x) a b z;\n}\n", &config),
        "{\n  inherit (x) z b a;\n}\n"
    );
}

#[test]
fn per_path_override_disables_sorting() {
    let config = cfg(r#"
        [[overrides]]
        path = "**.alias"
        attrs.sort = false
    "#);
    let src = "{\n  prog.alias = {\n    s = 1;\n    a = 2;\n  };\n  z = 1;\n  b = 2;\n}\n";
    let out = sorted(src, &config);
    assert_eq!(
        out,
        "{\n  b = 2;\n  prog.alias = {\n    s = 1;\n    a = 2;\n  };\n  z = 1;\n}\n"
    );
}

#[test]
fn per_path_override_changes_first() {
    let config = cfg(r#"
        [[overrides]]
        path = "services.*"
        attrs.first = ["description"]
    "#);
    let src = "{\n  services.foo = {\n    after = 1;\n    description = 2;\n  };\n}\n";
    let out = sorted(src, &config);
    assert_eq!(
        out,
        "{\n  services.foo = {\n    description = 2;\n    after = 1;\n  };\n}\n"
    );
}

#[test]
fn quoted_keys_sort_by_inner_text() {
    let out = sorted("{\n  \"b\" = 1;\n  a = 2;\n}\n", &Config::default());
    assert_eq!(out, "{\n  a = 2;\n  \"b\" = 1;\n}\n");
}

#[test]
fn rec_attrsets_are_sorted() {
    let out = sorted("rec {\n  b = a;\n  a = 1;\n}\n", &Config::default());
    assert_eq!(out, "rec {\n  a = 1;\n  b = a;\n}\n");
}

#[test]
fn lists_sorted_only_when_enabled() {
    let src = "{\n  xs = [\n    \"c\"\n    \"a\"\n    \"b\"\n  ];\n}\n";
    assert_eq!(sorted(src, &Config::default()), src);
    let config = cfg("[lists]\nsort = true\n");
    assert_eq!(
        sorted(src, &config),
        "{\n  xs = [\n    \"a\"\n    \"b\"\n    \"c\"\n  ];\n}\n"
    );
}

#[test]
fn single_line_list_with_first_and_last() {
    let config = cfg(r#"
        [lists]
        sort = true
        first = ["primary"]
        last = ["fallback"]
    "#);
    let out = sorted("{ xs = [ b fallback a primary ]; }\n", &config);
    assert_eq!(out, "{ xs = [ primary a b fallback ]; }\n");
}

#[test]
fn list_sorting_per_path_override() {
    let config = cfg(r#"
        [[overrides]]
        path = "**.sortedList"
        lists.sort = true
    "#);
    let src = "{\n  sortedList = [ b a ];\n  keepList = [ b a ];\n}\n";
    let out = sorted(src, &config);
    assert_eq!(
        out,
        "{\n  keepList = [ b a ];\n  sortedList = [ a b ];\n}\n"
    );
}

#[test]
fn list_comments_move_with_elements() {
    let config = cfg("[lists]\nsort = true\n");
    let out = sorted(
        "{\n  xs = [\n    # about b\n    b # trailing b\n    a\n  ];\n}\n",
        &config,
    );
    assert_eq!(
        out,
        "{\n  xs = [\n    a\n    # about b\n    b # trailing b\n  ];\n}\n"
    );
}

#[test]
fn nixpkgs_package_preset_orders_a_recipe() {
    let config = Config::from_toml_str("preset = \"nixpkgs-package\"").unwrap();
    let out = sorted(
        "{\n  stdenv,\n  fetchFromGitHub,\n  lib,\n  zlib,\n  enableFoo ? true,\n}:\nstdenv.mkDerivation {\n  meta = { license = 1; description = 2; };\n  src = fetchFromGitHub {\n    hash = \"x\";\n    repo = \"r\";\n    owner = \"o\";\n    rev = \"v\";\n  };\n  version = \"1.0\";\n  pname = \"foo\";\n  passthru = { };\n  buildInputs = [ zlib ];\n}\n",
        &config,
    );
    let pos = |needle: &str| {
        out.find(needle)
            .unwrap_or_else(|| panic!("missing {needle}"))
    };
    assert!(pos("lib,") < pos("stdenv,"));
    assert!(pos("stdenv,") < pos("fetchFromGitHub,"));
    assert!(pos("zlib,") < pos("enableFoo ? true"));
    assert!(pos("pname") < pos("version = \"1.0\""));
    assert!(pos("version = \"1.0\"") < pos("src = fetchFromGitHub"));
    assert!(pos("buildInputs") < pos("passthru"));
    assert!(pos("passthru") < pos("meta"));
    assert!(
        pos("owner") < pos("repo = ")
            && pos("repo = ") < pos("rev")
            && pos("rev") < pos("hash")
    );
    assert!(pos("description") < pos("license"));
}

#[test]
fn nixos_module_preset_orders_module_args() {
    let config = Config::from_toml_str("preset = \"nixos-module\"").unwrap();
    let out = sorted(
        "{\n  pkgs,\n  lib,\n  myArg,\n  config,\n  ...\n}:\n{\n  config = { };\n  options = { };\n  imports = [ ];\n}\n",
        &config,
    );
    assert_eq!(
        out,
        "{\n  config,\n  lib,\n  pkgs,\n  myArg,\n  ...\n}:\n{\n  imports = [ ];\n  options = { };\n  config = { };\n}\n"
    );
}

#[test]
fn sort_invalid_nix_is_rejected() {
    assert!(sort_source("{ a = ; }", &Config::default()).is_err());
}

#[test]
fn nothing_moves_where_no_rule_sorts() {
    let config = cfg("[args]\nsort = false\n[attrs]\nsort = false\n");
    let src = "{ z, a, ... }:\n{\n  b = [ 3 1 2 ];\n  a = { y = 1; x = 2; };\n  inherit (pkgs) d c;\n}\n";
    assert_eq!(sorted(src, &config), src);
}

#[test]
fn sorting_sorted_source_changes_nothing() {
    let config = Config::default();
    let once = sorted("{ z, a, ... }:\n{\n  # about b\n  b = 1;\n  a = { d = 1; c = 2; };\n}\n", &config);
    assert_eq!(
        once,
        "{ a, z, ... }:\n{\n  a = { c = 2; d = 1; };\n  # about b\n  b = 1;\n}\n"
    );
    assert_eq!(sorted(&once, &config), once);
}
