use pedantix::config::Config;
use pedantix::flatten::flatten_source;

fn cfg(text: &str) -> Config {
    Config::from_toml_str(text).unwrap()
}

#[test]
fn single_entry_sets_flatten_into_one_path() {
    let config = cfg("[attrs]\nflatten = true\n");
    assert_eq!(
        flatten_source("{\n  a = {\n    b = 1;\n  };\n}\n", &config).unwrap(),
        "{\n  a.b = 1;\n}\n"
    );
    assert_eq!(
        flatten_source("{ x.y = { z = \"s\"; }; }\n", &config).unwrap(),
        "{ x.y.z = \"s\"; }\n"
    );
}

#[test]
fn sets_of_several_entries_or_comments_stay() {
    let config = cfg("[attrs]\nflatten = true\n");
    let two = "{\n  a = {\n    b = 1;\n    c = 2;\n  };\n}\n";
    assert_eq!(flatten_source(two, &config).unwrap(), two);
    let commented = "{\n  a = {\n    # keep\n    b = 1;\n  };\n}\n";
    assert_eq!(flatten_source(commented, &config).unwrap(), commented);
    let inherits = "{\n  a = {\n    inherit b;\n  };\n}\n";
    assert_eq!(flatten_source(inherits, &config).unwrap(), inherits);
    let in_let = "let\n  a = {\n    b = 1;\n  };\nin\na\n";
    assert_eq!(flatten_source(in_let, &config).unwrap(), in_let);
}

#[test]
fn flattening_is_off_by_default_and_per_path() {
    let src = "{\n  a = {\n    b = 1;\n  };\n  c = {\n    d = 2;\n  };\n}\n";
    assert_eq!(flatten_source(src, &Config::default()).unwrap(), src);
    let config = cfg("[attrs]\nflatten = true\n[[overrides]]\npath = \"c\"\nattrs.flatten = false\n");
    assert_eq!(
        flatten_source(src, &config).unwrap(),
        "{\n  a.b = 1;\n  c = {\n    d = 2;\n  };\n}\n"
    );
}

#[test]
fn flatten_invalid_nix_is_refused() {
    let config = cfg("[attrs]\nflatten = true\n");
    let err = flatten_source("{ a = ; }", &config).unwrap_err();
    assert!(err.message().contains("not valid Nix"));
}
