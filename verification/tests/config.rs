use pedantix::config::{Config, FormatterChoice, RuleKind, DEFAULTED_TOKEN};
use pedantix::glob::{glob_match_file, glob_match_path};
use pedantix::load::{
    apply_set, discover_config, formatter_command_allowed, ignored_keys, sets_formatter_command, DirFacts,
};
use pedantix::tomlv::{parse_toml, TomlTable, TomlValue};

fn path(s: &str) -> Vec<Vec<u8>> {
    s.split('.').map(|c| c.as_bytes().to_vec()).collect()
}

fn table(text: &str) -> TomlTable {
    parse_toml(text).unwrap()
}

fn cfg(text: &str) -> Config {
    Config::from_toml_str(text).unwrap()
}

fn strs(v: &[String]) -> Vec<&str> {
    v.iter().map(|s| s.as_str()).collect()
}

#[test]
fn glob_matching() {
    assert!(glob_match_path("a.b.c", &path("a.b.c")));
    assert!(!glob_match_path("a.b", &path("a.b.c")));
    assert!(glob_match_path("a.*.c", &path("a.b.c")));
    assert!(glob_match_path("**.c", &path("a.b.c")));
    assert!(glob_match_path("**", &path("a.b.c")));
    assert!(glob_match_path("**", &Vec::new()));
    assert!(glob_match_path("a.**.c", &path("a.c")));
    assert!(glob_match_path("a.**.c", &path("a.x.y.c")));
    assert!(!glob_match_path("**.d", &path("a.b.c")));
}

#[test]
fn file_glob_matching() {
    assert!(glob_match_file("*.pkg.nix", "hello.pkg.nix"));
    assert!(glob_match_file("*.pkg.nix", "pkgs/deep/hello.pkg.nix"));
    assert!(!glob_match_file("*.pkg.nix", "hello.nix"));
    assert!(!glob_match_file("*.pkg.nix", "pkg.nix"));
    assert!(glob_match_file("hello.nix", "a/b/hello.nix"));
    assert!(glob_match_file("pkgs/*.nix", "pkgs/hello.nix"));
    assert!(glob_match_file("pkgs/*.nix", "deep/er/pkgs/hello.nix"));
    assert!(!glob_match_file("pkgs/*.nix", "other/hello.nix"));
    assert!(!glob_match_file("pkgs/*.nix", "pkgs/deep/hello.nix"));
    assert!(glob_match_file("pkgs/**/*.nix", "pkgs/deep/er/hello.nix"));
    assert!(glob_match_file("pkgs/**/*.nix", "pkgs/hello.nix"));
    assert!(glob_match_file("by-name/**", "pkgs/by-name/he/hello.nix"));
    assert!(!glob_match_file("pkgs/*.nix", "üñï/hello.nix"));
    assert!(glob_match_file("*.nix", "üñï.nix"));
    assert!(glob_match_file("./test.nix", "test.nix"));
    assert!(!glob_match_file("./test.nix", "a/test.nix"));
    assert!(glob_match_file("./*.nix", "test.nix"));
    assert!(!glob_match_file("./*.nix", "a/test.nix"));
    assert!(glob_match_file("./nested/*.nix", "nested/deep.nix"));
    assert!(!glob_match_file("./nested/*.nix", "a/nested/deep.nix"));
}

const LAYERED: &str = r#"
    preset = "nixos-module"
    formatter = "alejandra"

    [[overrides]]
    path = "**.alias"
    attrs.sort = false

    [[files]]
    pattern = "*.pkg.nix"
    preset = "nixpkgs-package"

    [[files]]
    pattern = "*.pkg.nix"
    attrs.first = ["version"]

    [[files]]
    pattern = "unrelated.nix"
    formatter = "off"

    [[files.overrides]]
    path = "**.src"
    attrs.sort = false
"#;

#[test]
fn files_entries_layer_onto_matching_files() {
    let none: Vec<String> = Vec::new();
    let cfg = Config::from_table_for_file(table(LAYERED), Some("mod.nix"), &none).unwrap();
    assert_eq!(strs(&cfg.args.first[..3]), ["config", "lib", "pkgs"]);
    assert_eq!(cfg.formatter, FormatterChoice::Alejandra);

    let cfg = Config::from_table_for_file(table(LAYERED), Some("pkgs/hello.pkg.nix"), &none).unwrap();
    assert_eq!(cfg.args.first[0], "lib");
    assert_eq!(strs(&cfg.attrs.first), ["version"]);
    assert_eq!(cfg.formatter, FormatterChoice::Alejandra);
    assert!(!cfg.rules_at(RuleKind::Attrs, &path("x.alias")).sort);
    assert_eq!(cfg.rules_at(RuleKind::Attrs, &path("pkg.src")).first[0], "url");

    let cfg = Config::from_table_for_file(table(LAYERED), Some("unrelated.nix"), &none).unwrap();
    assert_eq!(cfg.formatter, FormatterChoice::Off);
    assert!(!cfg.rules_at(RuleKind::Attrs, &path("x.alias")).sort);
    assert!(!cfg.rules_at(RuleKind::Attrs, &path("pkg.src")).sort);

    let cfg = Config::from_table_for_file(table(LAYERED), None, &none).unwrap();
    assert_eq!(strs(&cfg.args.first[..3]), ["config", "lib", "pkgs"]);
}

#[test]
fn files_presets_replace_the_root_preset() {
    let none: Vec<String> = Vec::new();
    let t = table(
        r#"
        preset = "nixos-module"

        [[files]]
        pattern = "*.pkg.nix"
        preset = "alphabetical"
    "#,
    );
    let cfg = Config::from_table_for_file(t, Some("foo.pkg.nix"), &none).unwrap();
    assert!(cfg.attrs.sort);
    assert!(cfg.attrs.first.is_empty(), "root preset must be ignored");
}

#[test]
fn set_assignments_win_over_files_entries() {
    let text = r#"
        formatter-command = ["repo"]

        [[files]]
        pattern = "*.nix"
        attrs.sort = false
        formatter = "alejandra"
        formatter-command = ["entry"]
    "#;
    let sets = vec![
        "attrs.sort=true".to_string(),
        r#"formatter-command=["mine"]"#.to_string(),
    ];
    let cfg = Config::from_table_for_file(table(text), Some("a.nix"), &sets).unwrap();
    assert!(cfg.attrs.sort);
    assert_eq!(cfg.formatter_command, Some(vec!["mine".to_string()]));
    assert_eq!(cfg.formatter, FormatterChoice::Alejandra);
    let none: Vec<String> = Vec::new();
    let cfg = Config::from_table_for_file(table(text), Some("a.nix"), &none).unwrap();
    assert!(!cfg.attrs.sort);
    assert_eq!(cfg.formatter_command, Some(vec!["entry".to_string()]));
}

#[test]
fn files_entries_are_validated_even_without_a_match() {
    let err = |text: &str| Config::from_toml_str(text).expect_err(text).message();
    assert!(err("files = 5").contains("array of tables"));
    assert!(err("files = [5]").contains("must be tables"));
    assert!(err("[[files]]\npreset = \"nixos-module\"").contains("`pattern`"));
    assert!(err("[[files]]\npattern = 5").contains("`pattern`"));
    assert!(err("[[files]]\npattern = \"*.nix\"\npreset = \"nope\"")
        .contains("invalid `files` entry for pattern `*.nix`"));
    assert!(err("[[files]]\npattern = \"*.nix\"\nnot-a-key = true").contains("invalid `files` entry"));
    assert!(err("[[files]]\npattern = \"a.nix\"\n[[files.files]]\npattern = \"b.nix\"")
        .contains("invalid `files` entry"));
    assert!(err("[[files]]\npattern = \"../test.nix\"").contains("can never match"));
    assert!(err("[[files]]\npattern = \"a/./test.nix\"").contains("can never match"));
    assert!(err("[[files]]\npattern = \"././test.nix\"").contains("can never match"));
}

#[test]
fn formatter_command_is_detected_inside_files_entries() {
    assert!(sets_formatter_command(&table("formatter-command = [\"cat\"]")));
    assert!(sets_formatter_command(&table(
        "[[files]]\npattern = \"*.nix\"\nformatter-command = [\"cat\"]\n"
    )));
    assert!(!sets_formatter_command(&table("formatter = \"off\"")));
}

#[test]
fn ignored_keys_are_reported_inside_files_entries() {
    let found = ignored_keys(&table(
        r#"
        [[files]]
        pattern = "*.pkg.nix"
        args.blank-lines = 1

        [[files.overrides]]
        path = "**.xs"
        lists.merge = true
    "#,
    ));
    assert_eq!(found.len(), 2);
    assert!(found[0].contains("`args.blank-lines`"));
    assert!(found[0].contains("in the `files` entry for `*.pkg.nix`"));
    assert!(found[1].contains("`lists.merge`"));
    assert!(found[1].contains("in the override for `**.xs` in the `files` entry for `*.pkg.nix`"));
}

#[test]
fn ellipsis_pins_must_stay_final() {
    let err = |text: &str| Config::from_toml_str(text).expect_err(text).full_message();
    assert!(err("[args]\nfirst = [\"...\"]").contains("final formal"));
    assert!(err("[args]\nlast = [\"...\", \"x\"]").contains("final formal"));
    assert!(Config::from_toml_str("[args]\nlast = [\"x\", \"...\"]").is_ok());
    assert!(err("[[overrides]]\npath = \"**.x\"\nargs.first = [\"...\"]").contains("override for `**.x`"));
    assert!(err("[[files]]\npattern = \"*.nix\"\nargs.last = [\"...\", \"x\"]")
        .contains("invalid `files` entry for pattern `*.nix`"));
}

#[test]
fn default_config() {
    let cfg = Config::default();
    assert_eq!(cfg.formatter, FormatterChoice::Nixfmt);
    assert!(cfg.format_before_sort && cfg.format_after_sort);
}

#[test]
fn apply_set_merges_onto_table() {
    let mut t = table("[args]\nfirst = [\"lib\"]\n");
    apply_set(&mut t, "lets.sort=true").unwrap();
    apply_set(&mut t, "inherits.sort=true").unwrap();
    apply_set(&mut t, "formatter=alejandra").unwrap();
    apply_set(&mut t, r#"args.last=["<defaulted>", "..."]"#).unwrap();
    let cfg = Config::from_table(t).unwrap();
    assert!(cfg.lets.sort);
    assert!(cfg.inherits.sort);
    assert_eq!(cfg.formatter, FormatterChoice::Alejandra);
    assert_eq!(strs(&cfg.args.first), ["lib"]);
    assert_eq!(strs(&cfg.args.last), [DEFAULTED_TOKEN, "..."]);
    assert!(apply_set(&mut TomlTable::new(), "no-equals-sign").is_err());
}

#[test]
fn apply_set_accepts_inline_override_tables() {
    let mut t = TomlTable::new();
    apply_set(
        &mut t,
        r#"overrides=[{ path = "**.alias", attrs = { sort = false } }, { path = "**.src", attrs = { first = ["owner"] } }]"#,
    )
    .unwrap();
    let cfg = Config::from_table(t).unwrap();
    assert_eq!(cfg.overrides.len(), 2);
    assert_eq!(cfg.overrides[0].path, "**.alias");
    assert_eq!(cfg.overrides[0].attrs.as_ref().unwrap().sort, Some(false));
    assert_eq!(
        cfg.overrides[1].attrs.as_ref().unwrap().first,
        Some(vec!["owner".to_string()])
    );
}

#[test]
fn attrs_only_keys_are_reported_as_ignored() {
    let found = ignored_keys(&table(
        r#"
        [attrs]
        merge = true
        blank-lines = 1

        [args]
        blank-lines = 1

        [lets]
        sort = true
        merge = true
        flatten = true

        [[overrides]]
        path = "**.xs"
        attrs.blank-lines-depth = 2
        lists.blank-lines-mode = "all"
    "#,
    ));
    assert_eq!(found.len(), 4);
    assert!(found[0].contains("`args.blank-lines`"));
    assert!(found[1].contains("`lets.merge`"));
    assert!(found[2].contains("`lets.flatten`"));
    assert!(found[3].contains("`lists.blank-lines-mode`"));
    assert!(found[3].contains("override for `**.xs`"));
    assert!(ignored_keys(&table("[attrs]\nmerge = true")).is_empty());
}

#[test]
fn presets_are_valid_and_expand() {
    for name in ["nixos-module", "nixpkgs-package", "alphabetical"] {
        let cfg = Config::from_toml_str(&format!("preset = \"{name}\"")).unwrap();
        assert!(cfg.args.sort, "preset {name} should keep args sorting on");
    }
    assert!(Config::from_toml_str("preset = \"nope\"")
        .unwrap_err()
        .message()
        .contains("unknown preset"));
    assert!(Config::from_toml_str("preset = \"nixpkgs-package\"\noverrides = 5").is_err());
}

#[test]
fn explicit_config_wins_over_preset_and_overrides_concatenate() {
    let cfg = Config::from_toml_str(
        r#"
        preset = "nixpkgs-package"
        formatter = "alejandra"

        [args]
        first = ["mine"]

        [[overrides]]
        path = "**.src"
        attrs.first = ["custom"]
        "#,
    )
    .unwrap();
    assert_eq!(cfg.formatter, FormatterChoice::Alejandra);
    assert_eq!(strs(&cfg.args.first), ["mine"]);
    assert_eq!(cfg.attrs.first[0], "name");
    let src_overrides = cfg.overrides.iter().filter(|o| o.path == "**.src").count();
    assert_eq!(src_overrides, 2);
    let rules = cfg.rules_at(RuleKind::Attrs, &path("pkg.src"));
    assert_eq!(strs(&rules.first), ["custom"]);
}

#[test]
fn lists_may_sort_detection() {
    assert!(!Config::default().lists_may_sort());
    assert!(cfg("[lists]\nsort = true").lists_may_sort());
    assert!(cfg("[[overrides]]\npath = \"**.xs\"\nlists.sort = true").lists_may_sort());
    assert!(!cfg("[[overrides]]\npath = \"**.xs\"\nlists.first = [\"z\"]").lists_may_sort());
    assert!(!cfg("[[overrides]]\npath = \"**.xs\"\nlists.sort = false").lists_may_sort());
}

#[test]
fn names_may_restyle_detection() {
    assert!(!Config::default().names_may_restyle());
    for section in ["attrs", "lets", "inherits"] {
        let c = cfg(&format!("[{section}]\nname-style = \"identifier\""));
        assert!(c.names_may_restyle(), "{section}");
    }
    assert!(cfg("[[overrides]]\npath = \"**.xs\"\nattrs.name-style = \"string\"").names_may_restyle());
    assert!(!cfg("[[overrides]]\npath = \"**.xs\"\nlets.name-style = \"preserve\"").names_may_restyle());
}

#[test]
fn name_style_is_reported_as_ignored_outside_named_constructs() {
    let found = ignored_keys(&table(
        r#"
        [args]
        name-style = "identifier"

        [lets]
        name-style = "identifier"

        [[overrides]]
        path = "**.xs"
        lists.name-style = "string"
    "#,
    ));
    assert_eq!(found.len(), 2);
    assert!(found[0].contains("`args.name-style`"));
    assert!(found[1].contains("`lists.name-style`"));
    assert!(found[1].contains("override for `**.xs`"));
}

#[test]
fn overrides_apply_in_order() {
    let c = cfg(
        r#"
        [attrs]
        first = ["enable"]

        [[overrides]]
        path = "**.alias"
        attrs.sort = false

        [[overrides]]
        path = "a.**"
        attrs.first = ["z"]
        "#,
    );
    let r = c.rules_at(RuleKind::Attrs, &path("x.alias"));
    assert!(!r.sort);
    assert_eq!(strs(&r.first), ["enable"]);
    let r = c.rules_at(RuleKind::Attrs, &path("a.b"));
    assert!(r.sort);
    assert_eq!(strs(&r.first), ["z"]);
    let r = c.rules_at(RuleKind::Attrs, &path("a.alias"));
    assert!(!r.sort);
    assert_eq!(strs(&r.first), ["z"]);
}

#[test]
fn invalid_toml_is_reported_with_context() {
    let err = Config::from_toml_str("a = = 1").unwrap_err();
    assert_eq!(err.message(), "invalid TOML");
    assert!(err.full_message().starts_with("invalid TOML: "));
}

#[test]
fn unknown_keys_and_bad_types_are_refused() {
    assert!(Config::from_toml_str("not-a-key = 1").is_err());
    assert!(Config::from_toml_str("[attrs]\nsort = 1").is_err());
    assert!(Config::from_toml_str("top-level-blank-lines = -1").is_err());
    assert!(Config::from_toml_str("formatter = \"nope\"").is_err());
    assert!(Config::from_toml_str("preset = 5").unwrap_err().message().contains("must be a string"));
}

#[test]
fn set_through_a_value_that_is_no_table_is_refused() {
    let mut t = table("formatter = \"off\"");
    let err = apply_set(&mut t, "formatter.x=1").unwrap_err();
    assert!(err.message().contains("`formatter` is not a table"));
    assert_eq!(t.entries.len(), 1);
    assert!(matches!(t.get("formatter"), Some(TomlValue::String(s)) if s == "off"));
    let mut t = TomlTable::new();
    apply_set(&mut t, "a.b.c = some text ").unwrap();
    apply_set(&mut t, "lists.sort=true").unwrap();
    assert!(Config::from_table(t).is_err());
}

#[test]
fn discovery_stops_at_the_repository_root() {
    let dir = |git: bool, config: bool, dot: bool| DirFacts {
        has_git: git,
        has_config: config,
        has_dot_config: dot,
    };
    // no repository: only the starting directory is searched
    assert_eq!(discover_config(&vec![dir(false, false, false), dir(false, true, false)]), None);
    assert_eq!(discover_config(&vec![dir(false, true, false)]), Some((0, false)));
    // a repository: the search reaches its root and stops there
    let dirs = vec![dir(false, false, false), dir(true, false, true), dir(false, true, false)];
    assert_eq!(discover_config(&dirs), Some((1, true)));
    let dirs = vec![dir(false, false, false), dir(true, false, false), dir(false, true, false)];
    assert_eq!(discover_config(&dirs), None);
    // the undotted name wins
    assert_eq!(discover_config(&vec![dir(true, true, true)]), Some((0, false)));
}

#[test]
fn formatter_argv_follows_the_choice_or_the_command() {
    assert_eq!(Config::default().formatter_argv(), vec!["nixfmt", "-"]);
    assert_eq!(cfg("formatter = \"alejandra\"").formatter_argv(), vec!["alejandra", "--quiet", "-"]);
    assert_eq!(cfg("formatter = \"nixpkgs-fmt\"").formatter_argv(), vec!["nixpkgs-fmt"]);
    assert!(cfg("formatter = \"off\"").formatter_argv().is_empty());
    assert_eq!(
        cfg("formatter = \"off\"\nformatter-command = [\"cat\", \"-\"]").formatter_argv(),
        vec!["cat", "-"]
    );
}

#[test]
fn blank_lines_and_merge_detection() {
    assert!(!Config::default().blank_lines_may_apply());
    assert!(cfg("top-level-blank-lines = 1").blank_lines_may_apply());
    assert!(cfg("[[overrides]]\npath = \"x\"\nattrs.blank-lines = 0").blank_lines_may_apply());
    assert!(!Config::default().attrs_may_merge());
    assert!(cfg("[[overrides]]\npath = \"x\"\nattrs.merge = true").attrs_may_merge());
    assert!(!cfg("[[overrides]]\npath = \"x\"\nattrs.merge = false").attrs_may_merge());
    assert!(cfg("[attrs]\nflatten = true").attrs_may_flatten());
    assert!(!Config::default().attrs_may_flatten());
}

#[test]
fn formatter_command_vouched_for_by_flag_formatter_or_set() {
    let none: Vec<String> = Vec::new();
    assert!(!formatter_command_allowed(false, false, &none));
    assert!(formatter_command_allowed(true, false, &none));
    assert!(formatter_command_allowed(false, true, &none));
    let own = vec!["sort=true".to_string(), " formatter-command = nixfmt".to_string()];
    assert!(formatter_command_allowed(false, false, &own));
    let other = vec!["formatter=nixfmt".to_string(), "formatter-command".to_string()];
    assert!(!formatter_command_allowed(false, false, &other));
}

#[test]
fn named_formatter_replaces_formatter_command() {
    let mut config = Config::from_toml_str("formatter-command = [\"cat\"]\n").unwrap();
    assert!(config.formatter_command.is_some());
    config.use_formatter(FormatterChoice::Alejandra);
    assert_eq!(config.formatter, FormatterChoice::Alejandra);
    assert!(config.formatter_command.is_none());
}

#[test]
fn the_last_matching_files_entry_wins() {
    let text = r#"
        formatter = "nixfmt"

        [[files]]
        pattern = "*.nix"
        formatter = "alejandra"

        [[files]]
        pattern = "a.nix"
        formatter = "off"

        [[files]]
        pattern = "b.nix"
        formatter = "nixpkgs-fmt"
    "#;
    let none: Vec<String> = Vec::new();
    let cfg = Config::from_table_for_file(table(text), Some("a.nix"), &none).unwrap();
    assert_eq!(cfg.formatter, FormatterChoice::Off);
    let cfg = Config::from_table_for_file(table(text), Some("c.nix"), &none).unwrap();
    assert_eq!(cfg.formatter, FormatterChoice::Alejandra);
    let cfg = Config::from_table_for_file(table(text), None, &none).unwrap();
    assert_eq!(cfg.formatter, FormatterChoice::Nixfmt);
}

#[test]
fn parsed_tables_keep_key_order() {
    let t = parse_toml("b = 1\na = 2\n[c]\nz = true\ny = false\n").unwrap();
    let keys: Vec<&str> = t.entries.iter().map(|(k, _)| k.as_str()).collect();
    assert_eq!(keys, ["a", "b", "c"]);
    match t.get("c") {
        Some(TomlValue::Table(c)) => {
            let inner: Vec<&str> = c.entries.iter().map(|(k, _)| k.as_str()).collect();
            assert_eq!(inner, ["y", "z"]);
        }
        _ => panic!("`c` must be a table"),
    }
}
