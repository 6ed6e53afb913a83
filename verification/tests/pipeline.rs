use pedantix::config::{Config, FormatterChoice};
use pedantix::pipeline::{begin, resume, Step};

/// Runs a file through the pipeline, with `format` standing in for the base
/// formatter.
fn run_with(src: &str, cfg: &Config, is_flake: bool, format: &dyn Fn(&str) -> String) -> String {
    let (mut run, mut step) = begin(src, cfg, is_flake).unwrap();
    loop {
        match step {
            Step::Format(text) => {
                let out = format(&text);
                let (next_run, next_step) = resume(run, cfg, out).unwrap();
                run = next_run;
                step = next_step;
            }
            Step::Done(out) => return out,
        }
    }
}

fn identity(text: &str) -> String {
    text.to_string()
}

fn padded(text: &str) -> String {
    format!("{text}\n")
}

fn formatting_config(before: bool, after: bool) -> Config {
    Config {
        formatter_command: Some(vec!["sed".into(), "$s/$/\\n/".into()]),
        format_before_sort: before,
        format_after_sort: after,
        ..Config::default()
    }
}

#[test]
fn flake_files_space_the_outputs_body() {
    let cfg = Config::from_toml_str("formatter = \"off\"\ntop-level-blank-lines = 1").unwrap();
    assert_eq!(cfg.formatter, FormatterChoice::Off);
    let src = "{\n  description = \"d\";\n\n  inputs = {\n    a.url = \"u\";\n    b.url = \"v\";\n  };\n\n  outputs =\n    { self }:\n    {\n      p = 1;\n      q = {\n        r = 2;\n      };\n    };\n}\n";
    let as_flake = run_with(src, &cfg, true, &identity);
    assert_eq!(
        as_flake,
        "{\n  description = \"d\";\n\n  inputs = {\n    a.url = \"u\";\n    b.url = \"v\";\n  };\n\n  outputs =\n    { self }:\n    {\n      p = 1;\n\n      q = {\n        r = 2;\n      };\n    };\n}\n"
    );
    assert_eq!(run_with(src, &cfg, false, &identity), src);
}

#[test]
fn format_passes_run_where_configured() {
    // each run of this stand-in formatter adds one line break at the end
    let src = "{ b = 1; a = 2; }\n";
    assert_eq!(
        run_with(src, &formatting_config(true, true), false, &padded),
        "{ a = 2; b = 1; }\n\n\n"
    );
    assert_eq!(
        run_with("{ a = 2; b = 1; }\n", &formatting_config(true, true), false, &padded),
        "{ a = 2; b = 1; }\n\n"
    );
    assert_eq!(
        run_with(src, &formatting_config(false, true), false, &padded),
        "{ a = 2; b = 1; }\n\n"
    );
    assert_eq!(
        run_with(src, &formatting_config(true, false), false, &padded),
        "{ a = 2; b = 1; }\n\n"
    );
    assert_eq!(
        run_with(src, &formatting_config(false, false), false, &padded),
        "{ a = 2; b = 1; }\n"
    );
}

#[test]
fn the_first_step_runs_the_base_formatter_on_the_input() {
    let cfg = Config::default();
    let (_, step) = begin("{ b = 1; }\n", &cfg, false).unwrap();
    match step {
        Step::Format(text) => assert_eq!(text, "{ b = 1; }\n"),
        Step::Done(_) => panic!("the base formatter must run first"),
    }
}

fn marked(text: &str) -> String {
    format!("# marked\n{text}")
}

fn marking_config() -> Config {
    Config {
        formatter_command: Some(vec!["sed".into(), "1s/^/# marked\\n/".into()]),
        ..Config::default()
    }
}

#[test]
fn format_passes_can_be_disabled() {
    let base = marking_config();
    let src = "{ b = 1; a = 2; }\n";
    assert_eq!(
        run_with(src, &base, false, &marked),
        "# marked\n# marked\n{ a = 2; b = 1; }\n"
    );
    assert_eq!(
        run_with("{ a = 2; b = 1; }\n", &base, false, &marked),
        "# marked\n{ a = 2; b = 1; }\n"
    );
    let no_before = Config {
        format_before_sort: false,
        ..marking_config()
    };
    assert_eq!(run_with(src, &no_before, false, &marked), "# marked\n{ a = 2; b = 1; }\n");
    let no_after = Config {
        format_after_sort: false,
        ..marking_config()
    };
    assert_eq!(run_with(src, &no_after, false, &marked), "# marked\n{ a = 2; b = 1; }\n");
    let neither = Config {
        format_before_sort: false,
        format_after_sort: false,
        ..base
    };
    assert_eq!(run_with(src, &neither, false, &marked), "{ a = 2; b = 1; }\n");
}

#[test]
fn invalid_nix_is_refused_by_the_pipeline() {
    let cfg = Config {
        format_before_sort: false,
        ..marking_config()
    };
    let err = begin("{ a = ; }\n", &cfg, false).err().unwrap();
    assert!(err.message().contains("not valid Nix"), "{}", err.message());
    let (run, _) = begin("{ a = 1; }\n", &marking_config(), false).unwrap();
    let err = resume(run, &marking_config(), "{ a = ; }\n".to_string()).err().unwrap();
    assert!(err.message().contains("not valid Nix"), "{}", err.message());
}

#[test]
fn reordering_keeps_the_content() {
    let cfg = Config::from_toml_str("formatter = \"off\"\n[lists]\nsort = true").unwrap();
    let src = "{\n  z = [ c b a ];\n  y = { q = 1; p = 2; };\n  x = 3;\n}\n";
    let out = run_with(src, &cfg, false, &identity);
    assert_eq!(out, "{\n  x = 3;\n  y = { p = 2; q = 1; };\n  z = [ a b c ];\n}\n");
    assert_eq!(run_with(&out, &cfg, false, &identity), out);
}

#[test]
fn the_base_formatter_runs_at_most_twice() {
    for before in [false, true] {
        for after in [false, true] {
            let cfg = formatting_config(before, after);
            let (mut run, mut step) = begin("{ b = 1; a = 2; }\n", &cfg, false).unwrap();
            let mut runs = 0;
            while let Step::Format(text) = step {
                runs += 1;
                let (next_run, next_step) = resume(run, &cfg, padded(&text)).unwrap();
                run = next_run;
                step = next_step;
            }
            assert_eq!(runs, before as usize + after as usize);
        }
    }
}

#[test]
fn merge_through_the_pipeline_without_base_formatter() {
    let cfg = Config::from_toml_str("formatter = \"off\"\n[attrs]\nmerge = true\n").unwrap();
    let src = "{\n  programs.emacs.enable = true;\n  services.foo.port = 1;\n  programs.kitty.enable = true;\n  services.foo.address = \"::\";\n}\n";
    let out = run_with(src, &cfg, false, &identity);
    assert_eq!(
        out,
        "{\n  programs = {\n    emacs.enable = true;\n    kitty.enable = true;\n  };\n  services = {\n    foo = {\n      address = \"::\";\n      port = 1;\n    };\n  };\n}\n"
    );
    assert_eq!(run_with(&out, &cfg, false, &identity), out);
}

#[test]
fn flatten_through_the_full_pipeline() {
    let cfg = Config::from_toml_str("formatter-command = [\"cat\"]\n[attrs]\nflatten = true\n").unwrap();
    let src = "{\n  a = {\n    b = {\n      c = 1;\n    };\n  };\n  d = {\n    e = 2;\n    f = 3;\n  };\n}\n";
    let out = run_with(src, &cfg, false, &identity);
    assert_eq!(
        out,
        "{\n  a.b.c = 1;\n  d = {\n    e = 2;\n    f = 3;\n  };\n}\n"
    );
    assert_eq!(out, run_with(&out, &cfg, false, &identity), "flatten not idempotent");
}
