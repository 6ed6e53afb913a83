//! Loading a configuration: presets, `files` entries, `--set` assignments,
//! and the checks a table must pass before it becomes a [`Config`].

use crate::tomlv::{
    toml_read, value_view, TomlData,
    count_entries, count_values, distinct_keys, find_key_from, lemma_count_entry_below,
    lemma_find_key_bounds, lemma_find_key_is, lemma_get_insert, lemma_get_remove,
    lemma_insert_values, lemma_remove_values, lemma_table_ok, seq_get, table_ok, value_ok,
    TomlTable, TomlValue,
};
use crate::config::{names, Config};
use crate::error::{Error, ErrorKind};
use crate::parser::str_eq;
use crate::bytes::{split, split_bytes, strs};
use crate::strings::{
    find_char, find_char_from, lemma_find_char_bounds, split_chars, split_on, trim_chars, trim_str,
    views,
};
use crate::schema::{config_error, config_view, decode_config, dec_config, override_view, ConfigView};
use vstd::prelude::*;
use vstd::string::{StrSliceExecFns, StringExecFns, StringSliceAdditionalSpecFns};

verus! {

/// The value found under a key is no larger than the entries it was found in.
pub proof fn lemma_get_count(es: Seq<(String, TomlValue)>, key: Seq<char>)
    ensures
        seq_get(es, key) matches Some(v) ==> count_values(v) <= count_entries(es, es.len() as int),
{
    lemma_find_key_bounds(es, key, 0);
    if let Some(i) = find_key_from(es, key, 0) {
        lemma_count_entry_below(es, i, es.len() as int);
    }
}

/// The value found under a key in a table whose values are all sound is sound.
pub proof fn lemma_get_ok(t: TomlTable, key: Seq<char>)
    requires
        table_ok(t),
    ensures
        t.get_spec(key) matches Some(v) ==> value_ok(v),
{
    lemma_find_key_bounds(t.entries@, key, 0);
}

/// What laying `o` over `b` leaves under `key` in `r`, at the top level: `o`'s
/// value where `o` sets the key, except that two tables meet in a table;
/// `b`'s value otherwise.
pub open spec fn overlay_key(b: TomlTable, o: TomlTable, r: TomlTable, key: Seq<char>) -> bool {
    match o.get_spec(key) {
        None => r.get_spec(key) == b.get_spec(key),
        Some(TomlValue::Table(_)) => match b.get_spec(key) {
            Some(TomlValue::Table(_)) => r.get_spec(key) matches Some(TomlValue::Table(_)),
            _ => r.get_spec(key) == o.get_spec(key),
        },
        Some(ov) => r.get_spec(key) == Some(ov),
    }
}

/// What laying `o` over `b` leaves under `key` in `r`: as [`overlay_key`]
/// says, and where two tables meet, their keys are laid over one another the
/// same way.
pub open spec fn merged_key(b: TomlTable, o: TomlTable, r: TomlTable, key: Seq<char>) -> bool {
    &&& overlay_key(b, o, r, key)
    &&& (o.get_spec(key) matches Some(TomlValue::Table(ot)) ==> (b.get_spec(key) matches Some(
        TomlValue::Table(bt),
    ) ==> (r.get_spec(key) matches Some(TomlValue::Table(rt)) ==> forall|k2: Seq<char>|
        #[trigger] overlay_key(bt, ot, rt, k2))))
}

/// Whether `key` is among the first `k` keys of `o`.
pub open spec fn key_seen(o: Seq<(String, TomlValue)>, key: Seq<char>, k: int) -> bool {
    find_key_from(o, key, 0) matches Some(j) && j < k
}

/// `r` is `o` laid over `b`, key by key.
pub open spec fn merged(b: TomlTable, o: TomlTable, r: TomlTable) -> bool {
    forall|key: Seq<char>| #[trigger] merged_key(b, o, r, key)
}

/// Lays `over` onto `base`: keys of `over` win, and tables present on both
/// sides are merged recursively.
pub fn merge_tables(base: TomlTable, over: TomlTable) -> (r: TomlTable)
    requires
        table_ok(base),
        table_ok(over),
    ensures
        table_ok(r),
        merged(base, over, r),
    decreases count_entries(over.entries@, over.entries@.len() as int),
{
    let ghost b0 = base;
    let ghost o0 = over;
    let mut out = base;
    let mut rest = over.entries;
    let ghost mut k: int = 0;
    proof {
        assert forall|key: Seq<char>| !key_seen(o0.entries@, key, 0) by {
            lemma_find_key_bounds(o0.entries@, key, 0);
        }
    }
    while rest.len() > 0
        invariant
            0 <= k <= o0.entries@.len(),
            rest@ == o0.entries@.subrange(k, o0.entries@.len() as int),
            table_ok(out),
            table_ok(o0),
            table_ok(b0),
            o0 == over,
            forall|key: Seq<char>|
                #![trigger out.get_spec(key)]
                key_seen(o0.entries@, key, k) ==> merged_key(b0, o0, out, key),
            forall|key: Seq<char>|
                #![trigger out.get_spec(key)]
                !key_seen(o0.entries@, key, k) ==> out.get_spec(key) == b0.get_spec(key),
        decreases rest.len(),
    {
        let (key, ov) = rest.remove(0);
        proof {
            assert(o0.entries@[k] == (key, ov));
            lemma_find_key_is(o0.entries@, key@, k);
            lemma_get_count(o0.entries@, key@);
            lemma_get_ok(out, key@);
        }
        let ghost before = out;
        let prev = out.remove(key.as_str());
        proof {
            lemma_get_remove(before.entries@, key@, key@);
            lemma_remove_values(before.entries@, key@, |y: TomlValue| value_ok(y));
        }
        let ghost gprev = prev;
        let ghost gov = ov;
        let ghost mut grt: Option<TomlTable> = None;
        let value = match prev {
            Some(TomlValue::Table(bt)) => match ov {
                TomlValue::Table(ot) => {
                    proof {
                        assert(seq_get(o0.entries@, key@) == Some(TomlValue::Table(ot)));
                        assert(count_entries(ot.entries@, ot.entries@.len() as int) < count_entries(
                            o0.entries@,
                            o0.entries@.len() as int,
                        ));
                    }
                    let ghost gbt = bt;
                    let ghost got = ot;
                    let rt = merge_tables(bt, ot);
                    proof {
                        lemma_table_ok(rt);
                        grt = Some(rt);
                    }
                    TomlValue::Table(rt)
                },
                other => other,
            },
            _ => ov,
        };
        let ghost removed = out;
        let ghost kk = key;
        let ghost vv = value;
        out.insert(key, value);
        proof {
            lemma_get_insert(removed.entries@, kk, vv, kk@);
            lemma_insert_values(removed.entries@, kk, vv, |y: TomlValue| value_ok(y));
            assert forall|other: Seq<char>| other != kk@ implies #[trigger] out.get_spec(other)
                == before.get_spec(other) by {
                lemma_get_remove(before.entries@, kk@, other);
                lemma_get_insert(removed.entries@, kk, vv, other);
            }
            assert(o0.get_spec(kk@) == Some(gov));
            assert(b0.get_spec(kk@) == gprev);
            assert(out.get_spec(kk@) == Some(vv));
            if let Some(TomlValue::Table(bt)) = gprev {
                if let TomlValue::Table(ot) = gov {
                    let rt = grt.unwrap();
                    assert forall|k2: Seq<char>| #[trigger] overlay_key(bt, ot, rt, k2) by {
                        assert(merged_key(bt, ot, rt, k2));
                    }
                }
            }
            assert(merged_key(b0, o0, out, kk@));
            k = k + 1;
            assert forall|key2: Seq<char>| #![trigger out.get_spec(key2)] key_seen(o0.entries@, key2, k)
                implies merged_key(b0, o0, out, key2) by {
                lemma_find_key_bounds(o0.entries@, key2, 0);
                if key2 == kk@ {
                    assert(o0.get_spec(key2) == Some(ov));
                } else {
                    assert(out.get_spec(key2) == before.get_spec(key2));
                    assert(key_seen(o0.entries@, key2, k - 1));
                    assert(merged_key(b0, o0, before, key2));
                }
            }
            assert forall|key2: Seq<char>| #![trigger out.get_spec(key2)] !key_seen(o0.entries@, key2, k)
                implies out.get_spec(key2) == b0.get_spec(key2) by {
                lemma_find_key_bounds(o0.entries@, key2, 0);
                assert(key2 != kk@);
                assert(out.get_spec(key2) == before.get_spec(key2));
            }
        }
    }
    proof {
        assert(k == o0.entries@.len());
        assert forall|key: Seq<char>| #[trigger] merged_key(b0, o0, out, key) by {
            lemma_find_key_bounds(o0.entries@, key, 0);
            if !key_seen(o0.entries@, key, k) {
                assert(out.get_spec(key) == b0.get_spec(key));
                assert(o0.get_spec(key) is None);
            }
        }
    }
    out
}

/// Whether `...` is pinned only where it stays the final formal: never in
/// `first`, and in `last` at most as the final entry.
pub open spec fn pins_ok(first: Seq<Seq<char>>, last: Seq<Seq<char>>) -> bool {
    &&& forall|i: int| 0 <= i < first.len() ==> first[i] != "..."@
    &&& forall|i: int| 0 <= i < last.len() - 1 ==> last[i] != "..."@
}

/// The names a partial rule pins, none where it sets no list.
pub open spec fn opt_pins(v: Option<Seq<Seq<char>>>) -> Seq<Seq<char>> {
    match v {
        Some(x) => x,
        None => seq![],
    }
}

/// Whether every `args` rule of a configuration, the base one and those of
/// its overrides, keeps `...` final.
pub open spec fn view_pins_ok(c: ConfigView) -> bool {
    &&& pins_ok(c.args.first, c.args.last)
    &&& forall|i: int|
        0 <= i < c.overrides.len() ==> (#[trigger] c.overrides[i].args matches Some(p) ==> pins_ok(
            opt_pins(p.first),
            opt_pins(p.last),
        ))
}

/// What is wrong with rules that move `...` away from the end: it is pinned
/// in `first`, or before other names in `last`.
pub open spec fn pins_problem(first: Seq<Seq<char>>) -> Seq<char> {
    if first.contains("..."@) {
        " pins `...` via `first`, but `...` must stay the final formal; pin it as the last entry of `last` instead"@
    } else {
        " pins `...` before other names via `last`, but `...` must stay the final formal"@
    }
}

fn is_ellipsis(s: &String) -> (r: bool)
    ensures
        r == (s@ == "..."@),
{
    str_eq(s.as_str(), "...")
}

/// Checks that `first` and `last` keep `...` final; `what` names the rules in
/// the message.
fn check_pins(first: &Vec<String>, last: &Vec<String>, what: String) -> (r: Result<(), Error>)
    ensures
        r is Ok <==> pins_ok(names(first@), names(last@)),
        r matches Err(e) ==> e.kind matches ErrorKind::Config(m) && m@ == what@ + pins_problem(names(first@)),
{
    let mut k: usize = 0;
    while k < first.len()
        invariant
            k <= first@.len(),
            forall|i: int| 0 <= i < k ==> names(first@)[i] != "..."@,
        decreases first.len() - k,
    {
        if is_ellipsis(&first[k]) {
            assert(names(first@)[k as int] == first@[k as int]@);
            assert(names(first@).contains("..."@));
            let mut m = what;
            m.append(" pins `...` via `first`, but `...` must stay the final formal; pin it as the last entry of `last` instead");
            return Err(Error::new(ErrorKind::Config(m)));
        }
        k += 1;
    }
    let mut k: usize = 0;
    while k < last.len() && k + 1 < last.len()
        invariant
            k <= last@.len(),
            forall|i: int| 0 <= i < first@.len() ==> names(first@)[i] != "..."@,
            forall|i: int| 0 <= i < k ==> names(last@)[i] != "..."@,
        decreases last.len() - k,
    {
        if is_ellipsis(&last[k]) {
            assert(names(last@)[k as int] == last@[k as int]@);
            let mut m = what;
            m.append(" pins `...` before other names via `last`, but `...` must stay the final formal");
            return Err(Error::new(ErrorKind::Config(m)));
        }
        k += 1;
    }
    Ok(())
}

/// Whether the `args` rules of override `i`, if any, keep `...` final.
pub open spec fn override_pins_ok(c: ConfigView, i: int) -> bool {
    c.overrides[i].args matches Some(p) ==> pins_ok(opt_pins(p.first), opt_pins(p.last))
}

/// The message for the `args` rules of override `i`, which move `...`: it
/// names the override by its path.
pub open spec fn override_message(c: ConfigView, i: int) -> Seq<char> {
    "`args` in the override for `"@ + c.overrides[i].path + "`"@ + pins_problem(
        opt_pins(c.overrides[i].args->Some_0.first),
    )
}

impl Config {
    /// The configuration that `table` gives, if it decodes and keeps `...`
    /// final.
    pub fn try_validated(table: &TomlTable) -> (r: Result<Config, Error>)
        ensures
            match r {
                Ok(c) => dec_config(*table) == Some(config_view(c)) && view_pins_ok(config_view(c)),
                Err(e) => e.kind is Config && (dec_config(*table) matches Some(v) ==> !view_pins_ok(v)),
            },
    {
        let cfg = decode_config(table)?;
        cfg.validate()?;
        Ok(cfg)
    }

    /// Checks that no `args` rule moves `...` away from the end.
    pub fn validate(&self) -> (r: Result<(), Error>)
        ensures
            r is Ok <==> view_pins_ok(config_view(*self)),
            r matches Err(e) ==> e.kind is Config,
            !pins_ok(self.args@.first, self.args@.last) ==> (r matches Err(e) && e.kind matches ErrorKind::Config(m)
                && m@ == "`args`"@ + pins_problem(self.args@.first)),
            forall|i: int|
                0 <= i < self.overrides@.len() && pins_ok(self.args@.first, self.args@.last) && (forall|j: int|
                    0 <= j < i ==> override_pins_ok(config_view(*self), j)) && !#[trigger] override_pins_ok(
                    config_view(*self),
                    i,
                ) ==> (r matches Err(e) && e.kind matches ErrorKind::Config(m) && m@ == override_message(
                    config_view(*self),
                    i,
                )),
    {
        check_pins(&self.args.first, &self.args.last, String::from_str("`args`"))?;
        let mut k: usize = 0;
        while k < self.overrides.len()
            invariant
                k <= self.overrides@.len(),
                pins_ok(self.args@.first, self.args@.last),
                forall|i: int|
                    0 <= i < k ==> (#[trigger] config_view(*self).overrides[i].args matches Some(p) ==> pins_ok(
                        opt_pins(p.first),
                        opt_pins(p.last),
                    )),
            decreases self.overrides.len() - k,
        {
            let o = &self.overrides[k];
            assert(config_view(*self).overrides[k as int] == override_view(*o));
            match &o.args {
                Some(p) => {
                    let empty: Vec<String> = Vec::new();
                    let first = match &p.first {
                        Some(f) => f,
                        None => &empty,
                    };
                    let last = match &p.last {
                        Some(l) => l,
                        None => &empty,
                    };
                    assert(names(empty@) =~= seq![]);
                    assert(config_view(*self).overrides[k as int].args == Some(p@));
                    assert(opt_pins(p@.first) == names(first@));
                    assert(opt_pins(p@.last) == names(last@));
                    let mut what = String::from_str("`args` in the override for `");
                    what.append(o.path.as_str());
                    what.append("`");
                    match check_pins(first, last, what) {
                        Ok(()) => {},
                        Err(e) => {
                            proof {
                                let c = config_view(*self);
                                assert(!override_pins_ok(c, k as int));
                                assert(e.kind matches ErrorKind::Config(m) && m@ == override_message(c, k as int));
                                assert forall|i: int|
                                    0 <= i < self.overrides@.len() && pins_ok(self.args@.first, self.args@.last) && (
                                    forall|j: int| 0 <= j < i ==> override_pins_ok(c, j)) && !#[trigger] override_pins_ok(
                                        c,
                                        i,
                                    ) implies i == k by {
                                    if i < k {
                                        assert(c.overrides[i].args matches Some(p) ==> pins_ok(
                                            opt_pins(p.first),
                                            opt_pins(p.last),
                                        ));
                                    } else if i > k {
                                        assert(override_pins_ok(c, k as int));
                                    }
                                }
                            }
                            return Err(e);
                        },
                    }
                },
                None => {},
            }
            k += 1;
        }
        Ok(())
    }
}

/// The preset for NixOS modules: module arguments and the module's own
/// sections in their usual order.
pub const NIXOS_MODULE_PRESET: &'static str = "[args]
first = [\"config\", \"lib\", \"pkgs\"]

[attrs]
first = [\"imports\", \"options\", \"config\"]
";

/// The preset for nixpkgs packages: the order of a package recipe.
pub const NIXPKGS_PACKAGE_PRESET: &'static str = "[args]
first = [\"lib\", \"stdenv\"]
last = [\"<defaulted>\", \"...\"]

[attrs]
first = [\"name\", \"pname\", \"version\", \"src\", \"nativeBuildInputs\", \"buildInputs\", \"propagatedBuildInputs\"]
last = [\"passthru\", \"meta\"]

[[overrides]]
path = \"**.src\"
attrs.first = [\"url\", \"owner\", \"repo\", \"rev\", \"tag\", \"hash\", \"sha256\"]

[[overrides]]
path = \"**.meta\"
attrs.first = [\"description\", \"homepage\", \"license\", \"maintainers\", \"platforms\"]
";

/// The preset that sorts everything it safely can alphabetically.
pub const ALPHABETICAL_PRESET: &'static str = "inherit-placement = \"sorted\"

[lets]
sort = true

[inherits]
sort = true
";

/// The names of the presets.
pub open spec fn is_preset_name(name: Seq<char>) -> bool {
    name == "nixos-module"@ || name == "nixpkgs-package"@ || name == "alphabetical"@
}

/// The text of the preset called `name`, one of the presets' names.
pub open spec fn preset_source(name: Seq<char>) -> &'static str {
    if name == "nixos-module"@ {
        NIXOS_MODULE_PRESET
    } else if name == "nixpkgs-package"@ {
        NIXPKGS_PACKAGE_PRESET
    } else {
        ALPHABETICAL_PRESET
    }
}

/// The text of the preset called `name`.
pub fn preset_text(name: &str) -> (r: Option<&'static str>)
    ensures
        r is Some <==> is_preset_name(name@),
        name@ == "nixos-module"@ ==> r == Some(NIXOS_MODULE_PRESET),
        name@ == "nixpkgs-package"@ ==> r == Some(NIXPKGS_PACKAGE_PRESET),
        name@ == "alphabetical"@ ==> r == Some(ALPHABETICAL_PRESET),
{
    proof {
        reveal_strlit("nixos-module");
        reveal_strlit("nixpkgs-package");
        reveal_strlit("alphabetical");
        assert("nixpkgs-package"@.len() != "nixos-module"@.len());
        assert("alphabetical"@[0] != "nixos-module"@[0]);
        assert("alphabetical"@[0] != "nixpkgs-package"@[0]);
    }
    if str_eq(name, "nixos-module") {
        Some(NIXOS_MODULE_PRESET)
    } else if str_eq(name, "nixpkgs-package") {
        Some(NIXPKGS_PACKAGE_PRESET)
    } else if str_eq(name, "alphabetical") {
        Some(ALPHABETICAL_PRESET)
    } else {
        None
    }
}

/// The overrides of a base and of what is laid over it, in that order.
pub fn combine_overrides(base: Option<TomlValue>, over: Option<TomlValue>) -> (r: Option<TomlValue>)
    requires
        base matches Some(v) ==> value_ok(v),
        over matches Some(v) ==> value_ok(v),
    ensures
        r matches Some(v) ==> value_ok(v),
        base matches Some(TomlValue::Array(a)) ==> (over matches Some(TomlValue::Array(b)) ==> (r matches Some(
            TomlValue::Array(c),
        ) && c@ == a@ + b@)),
        !(base matches Some(TomlValue::Array(_)) && over matches Some(TomlValue::Array(_))) && over is Some
            ==> r == over,
        over is None ==> r == base,
{
    match (base, over) {
        (Some(TomlValue::Array(mut a)), Some(TomlValue::Array(mut b))) => {
            let ghost a0 = a@;
            let ghost b0 = b@;
            a.append(&mut b);
            assert forall|i: int| 0 <= i < a@.len() implies value_ok(#[trigger] a@[i]) by {
                if i < a0.len() {
                    assert(a@[i] == a0[i]);
                } else {
                    assert(a@[i] == b0[i - a0.len()]);
                }
            }
            Some(TomlValue::Array(a))
        },
        (_, Some(u)) => Some(u),
        (b, None) => b,
    }
}

/// The key-value pairs of `t` other than `preset` and `overrides`, which a
/// preset never takes from the user's table.
pub open spec fn plain_key(k: Seq<char>) -> bool {
    k != "preset"@ && k != "overrides"@
}

/// What expanding the preset of `table` made `t`: `table` itself where it
/// names no preset; else the user's settings that are not tables are kept,
/// the user's `overrides` come last, and what the user leaves unset is the
/// preset's.
pub open spec fn preset_laid(table: TomlTable, t: TomlTable) -> bool {
    &&& table_ok(t)
    &&& table.get_spec("preset"@) is None ==> t.entries@ == table.entries@
    &&& forall|k: Seq<char>|
        plain_key(k) && (#[trigger] table.get_spec(k) matches Some(v) && !(v is Table)) ==> t.get_spec(k)
            == table.get_spec(k)
    &&& (table.get_spec("overrides"@) matches Some(TomlValue::Array(u)) ==> (t.get_spec("overrides"@) matches Some(
        TomlValue::Array(c),
    ) && u@.is_suffix_of(c@)))
    &&& table.get_spec("preset"@) matches Some(TomlValue::String(n)) ==> (toml_read(preset_source(n@)) matches Some(m)
        && forall|k: Seq<char>|
        plain_key(k) && #[trigger] table.get_spec(k) is None ==> t@.contains_key(k) == m.contains_key(k) && (
        m.contains_key(k) ==> t@[k] == m[k]))
    &&& table.get_spec("preset"@) matches Some(TomlValue::String(n)) ==> exists|p: TomlTable|
        #[trigger] preset_table(n@, p) && (forall|k: Seq<char>| plain_key(k) ==> #[trigger] merged_key(p, table, t, k))
            && overrides_laid(p.get_spec("overrides"@), table.get_spec("overrides"@), t.get_spec("overrides"@))
}

/// `p` is the table that reading the preset called `name` gives.
pub open spec fn preset_table(name: Seq<char>, p: TomlTable) -> bool {
    table_ok(p) && toml_read(preset_source(name)) == Some(p@)
}

/// `r` holds the overrides of a base, `b`, and of what is laid over it, `o`:
/// both arrays one after the other, else the one laid over, else the base's.
pub open spec fn overrides_laid(b: Option<TomlValue>, o: Option<TomlValue>, r: Option<TomlValue>) -> bool {
    match (b, o) {
        (Some(TomlValue::Array(a)), Some(TomlValue::Array(c))) => r matches Some(TomlValue::Array(x)) && x@ == a@ + c@,
        (_, Some(u)) => r == Some(u),
        (_, None) => r == b,
    }
}

/// Expands `preset = "name"`: the preset's table with the user's table laid
/// over it, their `overrides` concatenated, preset first.
pub fn expand_preset(table: TomlTable) -> (r: Result<TomlTable, Error>)
    requires
        table_ok(table),
    ensures
        table.get_spec("preset"@) is None ==> (r matches Ok(t) && t.entries@ == table.entries@),
        (table.get_spec("preset"@) matches Some(v) && !(v is String)) ==> (r matches Err(e) && e.kind matches ErrorKind::Config(
            m,
        ) && m@ == "`preset` must be a string"@),
        table.get_spec("preset"@) matches Some(TomlValue::String(n)) ==> (!is_preset_name(n@) ==> (r matches Err(e)
            && e.kind matches ErrorKind::Config(m) && m@ == "unknown preset `"@ + n@
            + "`; available presets: nixos-module, nixpkgs-package, alphabetical"@)),
        table.get_spec("preset"@) matches Some(TomlValue::String(n)) ==> (is_preset_name(n@) ==> match toml_read(
            preset_source(n@),
        ) {
            None => r is Err,
            Some(m) => r matches Ok(t) && forall|k: Seq<char>|
                plain_key(k) && #[trigger] table.get_spec(k) is None ==> t@.contains_key(k) == m.contains_key(k) && (
                m.contains_key(k) ==> t@[k] == m[k]),
        }),
        r matches Err(e) ==> e.kind is Config,
        r matches Ok(t) ==> preset_laid(table, t),
{
    let ghost t0 = table;
    let mut table = table;
    proof {
        lemma_get_remove(table.entries@, "preset"@, "preset"@);
        lemma_remove_values(table.entries@, "preset"@, |y: TomlValue| value_ok(y));
    }
    let preset_value = match table.remove("preset") {
        None => return Ok(table),
        Some(v) => v,
    };
    let name = match preset_value {
        TomlValue::String(s) => s,
        _ => {
            proof {
                reveal_strlit("");
                assert("`preset` must be a string"@ + ""@ + ""@ =~= "`preset` must be a string"@);
            }
            return Err(config_error("`preset` must be a string", "", ""));
        },
    };
    let text = match preset_text(name.as_str()) {
        Some(t) => t,
        None => return Err(
            config_error(
                "unknown preset `",
                name.as_str(),
                "`; available presets: nixos-module, nixpkgs-package, alphabetical",
            ),
        ),
    };
    let mut preset = match crate::tomlv::parse_toml(text) {
        Ok(p) => p,
        Err(_) => return Err(config_error("preset `", name.as_str(), "` is not valid TOML")),
    };
    let ghost t1 = table;
    let ghost p0 = preset;
    proof {
        lemma_get_ok(preset, "overrides"@);
        lemma_get_ok(table, "overrides"@);
        lemma_get_remove(preset.entries@, "overrides"@, "overrides"@);
        lemma_remove_values(preset.entries@, "overrides"@, |y: TomlValue| value_ok(y));
        lemma_get_remove(table.entries@, "overrides"@, "overrides"@);
        lemma_remove_values(table.entries@, "overrides"@, |y: TomlValue| value_ok(y));
    }
    let preset_overrides = preset.remove("overrides");
    let user_overrides = table.remove("overrides");
    let ghost t2 = table;
    let ghost p1 = preset;
    let mut out = merge_tables(preset, table);
    let ghost m0 = out;
    let combined = combine_overrides(preset_overrides, user_overrides);
    let ghost cv = combined;
    let key = String::from_str("overrides");
    let ghost kk = key;
    match combined {
        Some(v) => {
            let ghost vv = v;
            out.insert(key, v);
            proof {
                lemma_insert_values(m0.entries@, kk, vv, |y: TomlValue| value_ok(y));
                lemma_get_insert(m0.entries@, kk, vv, "overrides"@);
            }
        },
        None => {},
    }
    proof {
        assert forall|k: Seq<char>|
            plain_key(k) && (#[trigger] t0.get_spec(k) matches Some(v) && !(v is Table)) implies out.get_spec(k)
                == t0.get_spec(k) by {
            lemma_get_remove(t0.entries@, "preset"@, k);
            lemma_get_remove(t1.entries@, "overrides"@, k);
            assert(merged(p1, t2, m0));
            assert(merged_key(p1, t2, m0, k));
            if let Some(v) = cv {
                lemma_get_insert(m0.entries@, kk, v, k);
            }
        }
        assert forall|k: Seq<char>| plain_key(k) && #[trigger] t0.get_spec(k) is None implies out@.contains_key(k)
            == p0@.contains_key(k) && (p0@.contains_key(k) ==> out@[k] == p0@[k]) by {
            lemma_get_remove(t0.entries@, "preset"@, k);
            lemma_get_remove(t1.entries@, "overrides"@, k);
            lemma_get_remove(p0.entries@, "overrides"@, k);
            assert(merged(p1, t2, m0));
            assert(merged_key(p1, t2, m0, k));
            if let Some(v) = cv {
                lemma_get_insert(m0.entries@, kk, v, k);
            }
            assert(out.get_spec(k) == p0.get_spec(k));
            crate::tomlv::lemma_view_get(out, k);
            crate::tomlv::lemma_view_get(p0, k);
        }
        assert forall|k: Seq<char>| plain_key(k) implies #[trigger] merged_key(p0, t0, out, k) by {
            lemma_get_remove(t0.entries@, "preset"@, k);
            lemma_get_remove(t1.entries@, "overrides"@, k);
            lemma_get_remove(p0.entries@, "overrides"@, k);
            assert(merged(p1, t2, m0));
            assert(merged_key(p1, t2, m0, k));
            if let Some(v) = cv {
                lemma_get_insert(m0.entries@, kk, v, k);
            }
            assert(out.get_spec(k) == m0.get_spec(k));
        }
        lemma_get_remove(t0.entries@, "preset"@, "overrides"@);
        assert(overrides_laid(p0.get_spec("overrides"@), t0.get_spec("overrides"@), out.get_spec("overrides"@))) by {
            lemma_get_remove(t1.entries@, "overrides"@, "overrides"@);
            lemma_get_remove(p0.entries@, "overrides"@, "overrides"@);
            assert(merged(p1, t2, m0));
            assert(merged_key(p1, t2, m0, "overrides"@));
            reveal_strlit("preset");
            reveal_strlit("overrides");
            assert("preset"@.len() != "overrides"@.len());
            lemma_get_remove(t0.entries@, "preset"@, "overrides"@);
            assert(preset_overrides == p0.get_spec("overrides"@));
            assert(user_overrides == t0.get_spec("overrides"@));
            if cv is None {
                assert(out == m0);
            }
            assert(out.get_spec("overrides"@) == cv);
        }
        assert(preset_table(name@, p0));
        if let Some(TomlValue::Array(u)) = t0.get_spec("overrides"@) {
            assert(user_overrides == Some(TomlValue::Array(u)));
            if let Some(TomlValue::Array(c)) = cv {
                assert(u@.is_suffix_of(c@)) by {
                    if let Some(TomlValue::Array(a)) = preset_overrides {
                        assert(c@ == a@ + u@);
                        assert(c@.subrange(c@.len() - u@.len(), c@.len() as int) =~= u@);
                    } else {
                        assert(c@.subrange(c@.len() - u@.len(), c@.len() as int) =~= u@);
                    }
                }
            }
        }
    }
    Ok(out)
}

/// A file pattern without one leading `./`.
pub open spec fn pattern_body(p: Seq<u8>) -> Seq<u8> {
    if p.len() >= 2 && p[0] == 46u8 && p[1] == 47u8 {
        p.skip(2)
    } else {
        p
    }
}

/// Whether a file pattern has a `.` or `..` component, after at most one
/// leading `./`, and so can never match.
pub open spec fn pattern_dead(p: Seq<u8>) -> bool {
    let q = pattern_body(p);
    exists|i: int|
        0 <= i < split(q, 47u8).len() && (#[trigger] split(q, 47u8)[i] == seq![46u8] || split(q, 47u8)[i]
            == seq![46u8, 46u8])
}

fn pattern_is_dead(p: &str) -> (r: bool)
    ensures
        r == pattern_dead(p.spec_bytes()),
{
    let pb = p.as_bytes();
    let parts = if pb.len() >= 2 && pb[0] == 46u8 && pb[1] == 47u8 {
        let rest = &pb[2..pb.len()];
        assert(rest@ =~= pb@.skip(2));
        split_bytes(rest, 47u8)
    } else {
        split_bytes(pb, 47u8)
    };
    let ghost q = pattern_body(p.spec_bytes());
    let mut k: usize = 0;
    while k < parts.len()
        invariant
            strs(parts@) == split(q, 47u8),
            q == pattern_body(p.spec_bytes()),
            k <= parts@.len(),
            forall|i: int| 0 <= i < k ==> !(#[trigger] split(q, 47u8)[i] == seq![46u8] || split(q, 47u8)[i]
                == seq![46u8, 46u8]),
        decreases parts.len() - k,
    {
        let c = &parts[k];
        assert(strs(parts@)[k as int] == c@);
        let dot = c.len() == 1 && c[0] == 46u8;
        let dots = c.len() == 2 && c[0] == 46u8 && c[1] == 46u8;
        if dot || dots {
            assert(dot ==> c@ =~= seq![46u8]);
            assert(dots ==> c@ =~= seq![46u8, 46u8]);
            assert(0 <= k < split(q, 47u8).len());
            assert(split(q, 47u8)[k as int] == seq![46u8] || split(q, 47u8)[k as int] == seq![
                46u8,
                46u8,
            ]);
            return true;
        }
        assert(c@ != seq![46u8]);
        assert(c@ != seq![46u8, 46u8]) by {
            if c@ == seq![46u8, 46u8] {
                assert(c@.len() == 2);
            }
        }
        k += 1;
    }
    false
}

/// Whether `v` is a `files` entry of the right shape: a table whose
/// `pattern` is a string that can match.
pub open spec fn entry_shape_ok(v: TomlValue) -> bool {
    v matches TomlValue::Table(t) && (t.get_spec("pattern"@) matches Some(TomlValue::String(p))
        && !pattern_dead(vstd::utf8::encode_utf8(p@)))
}

/// Whether the `files` key, if any, holds an array of entries of the right
/// shape.
pub open spec fn files_shape_ok(v: Option<TomlValue>) -> bool {
    match v {
        None => true,
        Some(TomlValue::Array(a)) => forall|j: int| 0 <= j < a@.len() ==> entry_shape_ok(#[trigger] a@[j]),
        Some(_) => false,
    }
}

fn files_context(pattern: &str) -> (r: String)
    ensures
        r@ == "invalid `files` entry for pattern `"@ + pattern@ + "`"@,
{
    let mut m = String::from_str("invalid `files` entry for pattern `");
    m.append(pattern);
    m.append("`");
    m
}

/// Whether `files` entry `v` applies to `file`: its pattern matches it.
pub open spec fn entry_matches(v: TomlValue, file: Seq<char>) -> bool {
    v matches TomlValue::Table(t) && (t.get_spec("pattern"@) matches Some(TomlValue::String(p))
        && crate::glob::glob_match_file_spec(vstd::utf8::encode_utf8(p@), vstd::utf8::encode_utf8(file)))
}

/// Whether `files` entry `v` has the key `k`.
pub open spec fn entry_has(v: TomlValue, k: Seq<char>) -> bool {
    v matches TomlValue::Table(t) && t.get_spec(k) is Some
}

/// Whether `files` entry `v` sets `k` to a value that is not a table.
pub open spec fn entry_sets(v: TomlValue, k: Seq<char>) -> bool {
    v matches TomlValue::Table(t) && (t.get_spec(k) matches Some(x) && !(x is Table))
}

/// Whether entry `j` of the first `n` entries is the last that applies to
/// `file` and sets `k`: it sets `k` to a value that is not a table, and no
/// later entry that applies has `k` or a preset.
pub open spec fn last_setter(a: Seq<TomlValue>, file: Seq<char>, k: Seq<char>, j: int, n: int) -> bool {
    &&& 0 <= j < n
    &&& entry_matches(a[j], file)
    &&& entry_sets(a[j], k)
    &&& forall|l: int|
        j < l < n && #[trigger] entry_matches(a[l], file) ==> !entry_has(a[l], k) && !entry_has(a[l], "preset"@)
}

/// What applying the `files` entries of `table` for `file` made `t`: the
/// entries have the right shape; without entries, `t` is `table`; without a
/// file, `t` is `table` but for `files`; for a file, a setting that is not a
/// table is that of the last entry that matches the file and sets it, where
/// no later matching entry has it or a preset.
pub open spec fn files_laid(table: TomlTable, file: Option<&str>, t: TomlTable) -> bool {
    &&& files_shape_ok(table.get_spec("files"@))
    &&& table_ok(t)
    &&& table.get_spec("files"@) is None ==> t.entries@ == table.entries@
    &&& file is None ==> forall|k: Seq<char>| k != "files"@ ==> #[trigger] t.get_spec(k) == table.get_spec(k)
    &&& file matches Some(f) ==> (table.get_spec("files"@) matches Some(TomlValue::Array(a)) ==> forall|
        k: Seq<char>,
        j: int,
    |
        plain_key(k) && k != "pattern"@ && #[trigger] last_setter(a@, f@, k, j, a@.len() as int) ==> t.get_spec(k)
            == a@[j]->Table_0.get_spec(k))
    &&& file matches Some(f) ==> (table.get_spec("files"@) matches Some(TomlValue::Array(a)) ==> forall|k: Seq<char>|
        plain_key(k) && k != "files"@ && untouched(a@, f@, k, a@.len() as int) ==> #[trigger] t.get_spec(k)
            == table.get_spec(k))
}

/// Whether none of the first `n` entries that match `file` has the key `k`
/// or a preset.
pub open spec fn untouched(a: Seq<TomlValue>, file: Seq<char>, k: Seq<char>, n: int) -> bool {
    forall|j: int| 0 <= j < n && #[trigger] entry_matches(a[j], file) ==> !entry_has(a[j], k) && !entry_has(a[j], "preset"@)
}

/// What is wrong with the shape of `files` entry `v`, if anything: it is no
/// table, has no `pattern`, a `pattern` that is no string, or one that can
/// never match.
pub open spec fn entry_problem(v: TomlValue) -> Option<Seq<char>> {
    match v {
        TomlValue::Table(t) => match t.get_spec("pattern"@) {
            None => Some("`files` entries require a `pattern` key"@),
            Some(TomlValue::String(p)) => if pattern_dead(vstd::utf8::encode_utf8(p@)) {
                Some("`files` pattern `"@ + p@ + "` contains a `.` or `..` component and can never match; patterns match paths anywhere beneath the config file's directory (a single leading `./` pins a pattern to that directory instead)"@)
            } else {
                None
            },
            Some(_) => Some("`files` entries require `pattern` to be a string"@),
        },
        _ => Some("`files` entries must be tables"@),
    }
}

/// Whether the preset of `files` entry `v`, if it names one, is a known one.
pub open spec fn entry_preset_ok(v: TomlValue) -> bool {
    v matches TomlValue::Table(t) ==> (t.get_spec("preset"@) matches Some(x) ==> (x matches TomlValue::String(n)
        && is_preset_name(n@)))
}

/// Applies the `files` entries: each is checked whatever the file, and those
/// whose pattern matches `file` are laid over the table in order, a preset of
/// an entry replacing the table's own.
pub fn expand_files(table: TomlTable, file: Option<&str>) -> (r: Result<TomlTable, Error>)
    requires
        table_ok(table),
    ensures
        table.get_spec("files"@) is None ==> r is Ok,
        r matches Ok(t) ==> files_laid(table, file, t),
        r matches Err(e) ==> e.kind is Config,
        (table.get_spec("files"@) matches Some(v) && !(v is Array)) ==> (r matches Err(e) && e.kind matches ErrorKind::Config(
            m,
        ) && m@ == "`files` must be an array of tables"@),
        table.get_spec("files"@) matches Some(TomlValue::Array(a)) ==> (forall|i: int|
            0 <= i < a@.len() && (entry_problem(#[trigger] a@[i]) is Some || !entry_preset_ok(a@[i])) ==> r is Err),
        table.get_spec("files"@) matches Some(TomlValue::Array(a)) ==> (a@.len() > 0 ==> (entry_problem(a@[0]) matches Some(
            m,
        ) ==> (r matches Err(e) && e.kind matches ErrorKind::Config(x) && x@ == m))),
{
    let ghost t0 = table;
    let mut cur = table;
    proof {
        lemma_get_ok(cur, "files"@);
        lemma_get_remove(cur.entries@, "files"@, "files"@);
        lemma_remove_values(cur.entries@, "files"@, |y: TomlValue| value_ok(y));
    }
    let files_value = match cur.remove("files") {
        None => return Ok(cur),
        Some(v) => v,
    };
    let mut entries = match files_value {
        TomlValue::Array(a) => a,
        _ => {
            proof {
                reveal_strlit("");
                assert("`files` must be an array of tables"@ + ""@ + ""@ =~= "`files` must be an array of tables"@);
            }
            return Err(config_error("`files` must be an array of tables", "", ""));
        },
    };
    let ghost a0 = entries@;
    let ghost t1 = cur;
    proof {
        assert forall|k: Seq<char>| k != "files"@ implies #[trigger] t1.get_spec(k) == t0.get_spec(k) by {
            lemma_get_remove(t0.entries@, "files"@, k);
        }
    }
    let ghost mut idx: int = 0;
    while entries.len() > 0
        invariant
            0 <= idx <= a0.len(),
            entries@ == a0.subrange(idx, a0.len() as int),
            forall|j: int| 0 <= j < a0.len() ==> value_ok(#[trigger] a0[j]),
            forall|j: int| 0 <= j < idx ==> entry_shape_ok(#[trigger] a0[j]),
            forall|j: int| 0 <= j < idx ==> entry_preset_ok(#[trigger] a0[j]),
            t0.get_spec("files"@) matches Some(TomlValue::Array(av)) && av@ == a0,
            forall|k: Seq<char>| k != "files"@ ==> #[trigger] t1.get_spec(k) == t0.get_spec(k),
            t0 == table,
            table_ok(cur),
            file is None ==> forall|k: Seq<char>| #[trigger] cur.get_spec(k) == t1.get_spec(k),
            file matches Some(f) ==> forall|k: Seq<char>, j: int|
                plain_key(k) && k != "pattern"@ && #[trigger] last_setter(a0, f@, k, j, idx) ==> cur.get_spec(k)
                    == a0[j]->Table_0.get_spec(k),
            file matches Some(f) ==> forall|k: Seq<char>|
                plain_key(k) && k != "files"@ && untouched(a0, f@, k, idx) ==> #[trigger] cur.get_spec(k)
                    == t0.get_spec(k),
        decreases entries.len(),
    {
        let ghost c0 = cur;
        let entry = entries.remove(0);
        proof {
            assert(entry == a0[idx]);
        }
        proof {
            reveal_strlit("");
            reveal_strlit("pattern");
            reveal_strlit("preset");
            assert("pattern"@.len() == 7 && "preset"@.len() == 6);
        }
        let mut entry = match entry {
            TomlValue::Table(t) => t,
            _ => {
                assert("`files` entries must be tables"@ + ""@ + ""@ =~= "`files` entries must be tables"@);
                return Err(config_error("`files` entries must be tables", "", ""));
            },
        };
        let ghost e0 = entry;
        proof {
            lemma_get_remove(entry.entries@, "pattern"@, "pattern"@);
            lemma_remove_values(entry.entries@, "pattern"@, |y: TomlValue| value_ok(y));
        }
        let pattern = match entry.remove("pattern") {
            None => {
                assert("`files` entries require a `pattern` key"@ + ""@ + ""@
                    =~= "`files` entries require a `pattern` key"@);
                return Err(config_error("`files` entries require a `pattern` key", "", ""));
            },
            Some(TomlValue::String(p)) => p,
            Some(_) => {
                assert("`files` entries require `pattern` to be a string"@ + ""@ + ""@
                    =~= "`files` entries require `pattern` to be a string"@);
                return Err(config_error("`files` entries require `pattern` to be a string", "", ""));
            },
        };
        if pattern_is_dead(pattern.as_str()) {
            return Err(
                config_error(
                    "`files` pattern `",
                    pattern.as_str(),
                    "` contains a `.` or `..` component and can never match; patterns match paths anywhere beneath the config file's directory (a single leading `./` pins a pattern to that directory instead)",
                ),
            );
        }
        proof {
            assert(entry_shape_ok(a0[idx]));
        }
        let ghost e1 = entry;
        let has_preset = entry.contains_key("preset");
        let entry = match expand_preset(entry) {
            Ok(e) => e,
            Err(e) => return Err(e.with_context(files_context(pattern.as_str()))),
        };
        proof {
            lemma_get_remove(e0.entries@, "pattern"@, "preset"@);
            assert(entry_preset_ok(a0[idx]));
        }
        match Config::try_validated(&entry) {
            Ok(_) => {},
            Err(e) => return Err(e.with_context(files_context(pattern.as_str()))),
        }
        let applies = match file {
            Some(f) => crate::glob::glob_match_file(pattern.as_str(), f),
            None => false,
        };
        let ghost e2 = entry;
        proof {
            assert(a0[idx] == TomlValue::Table(e0));
            assert forall|k: Seq<char>| k != "pattern"@ implies #[trigger] e1.get_spec(k) == e0.get_spec(k) by {
                lemma_get_remove(e0.entries@, "pattern"@, k);
            }
            if let Some(f) = file {
                assert(applies == entry_matches(a0[idx], f@));
            }
            idx = idx + 1;
        }
        if applies {
            let mut entry = entry;
            if has_preset {
                proof {
                    lemma_remove_values(cur.entries@, "preset"@, |y: TomlValue| value_ok(y));
                    lemma_get_remove(cur.entries@, "preset"@, "preset"@);
                }
                cur.remove("preset");
            }
            proof {
                lemma_get_ok(cur, "overrides"@);
                lemma_get_ok(entry, "overrides"@);
                lemma_remove_values(cur.entries@, "overrides"@, |y: TomlValue| value_ok(y));
                lemma_remove_values(entry.entries@, "overrides"@, |y: TomlValue| value_ok(y));
                lemma_get_remove(cur.entries@, "overrides"@, "overrides"@);
                lemma_get_remove(entry.entries@, "overrides"@, "overrides"@);
            }
            let base_overrides = cur.remove("overrides");
            let entry_overrides = entry.remove("overrides");
            let ghost c1 = cur;
            let ghost e3 = entry;
            let mut out = merge_tables(cur, entry);
            let combined = combine_overrides(base_overrides, entry_overrides);
            let ghost m0 = out;
            let key = String::from_str("overrides");
            let ghost kk = key;
            match combined {
                Some(v) => {
                    let ghost vv = v;
                    out.insert(key, v);
                    proof {
                        lemma_insert_values(m0.entries@, kk, vv, |y: TomlValue| value_ok(y));
                        lemma_get_insert(m0.entries@, kk, vv, kk@);
                    }
                },
                None => {},
            }
            proof {
                assert forall|k: Seq<char>| plain_key(k) implies #[trigger] out.get_spec(k) == m0.get_spec(k) by {
                    if combined is Some {
                        lemma_get_insert(m0.entries@, kk, combined.unwrap(), k);
                    }
                }
                assert forall|k: Seq<char>| plain_key(k) implies #[trigger] c1.get_spec(k) == c0.get_spec(k) by {
                    lemma_get_remove(c0.entries@, "preset"@, k);
                    if has_preset {
                        lemma_get_remove(c0.remove_spec("preset"@), "overrides"@, k);
                    } else {
                        lemma_get_remove(c0.entries@, "overrides"@, k);
                    }
                }
                assert forall|k: Seq<char>| plain_key(k) implies #[trigger] e3.get_spec(k) == e2.get_spec(k) by {
                    lemma_get_remove(e2.entries@, "overrides"@, k);
                }
                assert(merged(c1, e3, m0));
                if let Some(f) = file {
                    assert forall|k: Seq<char>, j: int|
                        plain_key(k) && k != "pattern"@ && #[trigger] last_setter(a0, f@, k, j, idx) implies out.get_spec(
                            k,
                        ) == a0[j]->Table_0.get_spec(k) by {
                        assert(merged_key(c1, e3, m0, k));
                        if j == idx - 1 {
                            assert(e2.get_spec(k) == e1.get_spec(k));
                        } else {
                            assert(last_setter(a0, f@, k, j, idx - 1));
                            assert(entry_matches(a0[idx - 1], f@));
                            assert(!entry_has(a0[idx - 1], "preset"@));
                            assert(e1.get_spec("preset"@) is None);
                            assert(e2.entries@ == e1.entries@);
                            assert(e3.get_spec(k) is None);
                        }
                    }
                    assert forall|k: Seq<char>|
                        plain_key(k) && k != "files"@ && untouched(a0, f@, k, idx) implies #[trigger] out.get_spec(k)
                        == t0.get_spec(k) by {
                        assert(untouched(a0, f@, k, idx - 1));
                        assert(entry_matches(a0[idx - 1], f@));
                        assert(!entry_has(a0[idx - 1], k) && !entry_has(a0[idx - 1], "preset"@));
                        assert(e0.get_spec("pattern"@) is Some);
                        assert(k != "pattern"@);
                        assert(e1.get_spec("preset"@) is None);
                        assert(e2.entries@ == e1.entries@);
                        assert(a0[idx - 1] == TomlValue::Table(e0));
                        assert(e0.get_spec(k) is None);
                        assert(e1.get_spec(k) is None);
                        assert(e2.get_spec(k) is None);
                        assert(e3.get_spec(k) == e2.get_spec(k));
                        assert(merged_key(c1, e3, m0, k));
                        assert(c0.get_spec(k) == t0.get_spec(k));
                    }
                }
            }
            cur = out;
        } else {
            proof {
                if let Some(f) = file {
                    assert forall|k: Seq<char>, j: int|
                        plain_key(k) && k != "pattern"@ && #[trigger] last_setter(a0, f@, k, j, idx) implies cur.get_spec(
                            k,
                        ) == a0[j]->Table_0.get_spec(k) by {
                        assert(j != idx - 1);
                        assert(last_setter(a0, f@, k, j, idx - 1));
                    }
                    assert forall|k: Seq<char>|
                        plain_key(k) && k != "files"@ && untouched(a0, f@, k, idx) implies #[trigger] cur.get_spec(k)
                        == t0.get_spec(k) by {
                        assert(untouched(a0, f@, k, idx - 1));
                    }
                }
            }
        }
    }
    Ok(cur)
}

/// The value under the path `keys[i..]` of `t`.
pub open spec fn get_path(t: TomlTable, keys: Seq<Seq<char>>, i: int) -> Option<TomlValue>
    decreases keys.len() - i,
{
    if i < 0 || i >= keys.len() {
        None
    } else if i + 1 == keys.len() {
        t.get_spec(keys[i])
    } else {
        match t.get_spec(keys[i]) {
            Some(TomlValue::Table(sub)) => get_path(sub, keys, i + 1),
            _ => None,
        }
    }
}

/// Whether some key before the last of `keys[i..]` holds, in `t`, a value
/// that is not a table.
pub open spec fn path_blocked(t: TomlTable, keys: Seq<Seq<char>>, i: int) -> bool
    decreases keys.len() - i,
{
    if i < 0 || i + 1 >= keys.len() {
        false
    } else {
        match t.get_spec(keys[i]) {
            Some(TomlValue::Table(sub)) => path_blocked(sub, keys, i + 1),
            None => false,
            Some(_) => true,
        }
    }
}

/// What `t` holds under `key`; nothing where `t` is a table that is missing.
pub open spec fn held(t: Option<TomlTable>, key: Seq<char>) -> Option<TomlValue> {
    match t {
        Some(o) => o.get_spec(key),
        None => None,
    }
}

/// The table that `t` holds under `key`, where it holds one.
pub open spec fn sub_table(t: Option<TomlTable>, key: Seq<char>) -> Option<TomlTable> {
    match held(t, key) {
        Some(TomlValue::Table(s)) => Some(s),
        _ => None,
    }
}

/// `new` is `old` (an empty table where `old` is missing) with `value` set
/// under the path `keys[i..]`: at every level the other keys are kept, and
/// the tables on the way are kept or created.
pub open spec fn path_set(old: Option<TomlTable>, new: TomlTable, keys: Seq<Seq<char>>, i: int, value: TomlValue) -> bool
    decreases keys.len() - i,
{
    if i < 0 || i >= keys.len() {
        false
    } else {
        &&& forall|k: Seq<char>| k != keys[i] ==> #[trigger] new.get_spec(k) == held(old, k)
        &&& if i + 1 == keys.len() {
            new.get_spec(keys[i]) == Some(value)
        } else {
            new.get_spec(keys[i]) matches Some(TomlValue::Table(ns)) && path_set(
                sub_table(old, keys[i]),
                ns,
                keys,
                i + 1,
                value,
            )
        }
    }
}

/// Setting a path in an empty table is setting it in a missing one.
proof fn lemma_path_set_empty(n: TomlTable, new: TomlTable, keys: Seq<Seq<char>>, i: int, value: TomlValue)
    requires
        n.entries@.len() == 0,
        path_set(Some(n), new, keys, i, value),
    ensures
        path_set(None, new, keys, i, value),
{
    assert forall|k: Seq<char>| #[trigger] held(Some(n), k) == held(None, k) by {
        lemma_empty_get(n, k);
    }
    if 0 <= i < keys.len() {
        assert(sub_table(Some(n), keys[i]) == sub_table(None, keys[i]));
    }
}

proof fn lemma_empty_get(t: TomlTable, key: Seq<char>)
    requires
        t.entries@.len() == 0,
    ensures
        t.get_spec(key) is None,
{
}

/// Sets `value` under the path `keys[i..]` of `t`, creating the tables on
/// the way that are missing.
pub fn set_path(t: &mut TomlTable, keys: &Vec<String>, i: usize, value: TomlValue) -> (r: Result<(), Error>)
    requires
        table_ok(*old(t)),
        value_ok(value),
        i < keys@.len(),
    ensures
        table_ok(*final(t)),
        r is Err <==> path_blocked(*old(t), views(keys@), i as int),
        r matches Err(e) ==> e.kind is Config,
        r is Err ==> final(t)@ == old(t)@,
        r is Ok ==> get_path(*final(t), views(keys@), i as int) == Some(value),
        r is Ok ==> path_set(Some(*old(t)), *final(t), views(keys@), i as int, value),
        r is Ok ==> forall|k: Seq<char>| k != keys@[i as int]@ ==> #[trigger] final(t).get_spec(k) == old(t).get_spec(k),
    decreases keys@.len() - i,
{
    let ghost t0 = *t;
    let ghost ks = views(keys@);
    assert(ks[i as int] == keys@[i as int]@);
    let key = keys[i].clone();
    let n = keys.len();
    if i + 1 == n {
        let ghost kk = key;
        t.insert(key, value);
        proof {
            lemma_get_insert(t0.entries@, kk, value, kk@);
            lemma_insert_values(t0.entries@, kk, value, |y: TomlValue| value_ok(y));
            assert forall|k: Seq<char>| k != kk@ implies #[trigger] t.get_spec(k) == t0.get_spec(k) by {
                lemma_get_insert(t0.entries@, kk, value, k);
            }
        }
        return Ok(());
    }
    proof {
        lemma_get_ok(t0, key@);
        lemma_get_remove(t0.entries@, key@, key@);
        lemma_remove_values(t0.entries@, key@, |y: TomlValue| value_ok(y));
    }
    let removed = t.remove(key.as_str());
    let ghost t1 = *t;
    let sub = match removed {
        None => {
            let n = TomlTable::new();
            proof {
                assert forall|k: Seq<char>| #[trigger] n.get_spec(k) is None by {
                    lemma_empty_get(n, k);
                }
            }
            n
        },
        Some(TomlValue::Table(s)) => s,
        Some(other) => {
            let ghost kk = key;
            let ghost oo = other;
            t.insert(key, other);
            proof {
                lemma_get_insert(t1.entries@, kk, oo, kk@);
                lemma_insert_values(t1.entries@, kk, oo, |y: TomlValue| value_ok(y));
                assert(table_ok(*t));
                assert forall|k: Seq<char>| #[trigger] t.get_spec(k) == t0.get_spec(k) by {
                    lemma_get_insert(t1.entries@, kk, oo, k);
                    lemma_get_remove(t0.entries@, kk@, k);
                }
                crate::tomlv::lemma_same_view(*t, t0);
            }
            let mut m = String::from_str("--set: config key `");
            m.append(keys[i].as_str());
            m.append("` is not a table");
            return Err(Error::new(ErrorKind::Config(m)));
        },
    };
    proof {
        lemma_table_ok(sub);
    }
    let ghost s0 = sub;
    let mut sub = sub;
    let r = set_path(&mut sub, keys, i + 1, value);
    let ghost kk = key;
    let ghost nv = TomlValue::Table(sub);
    proof {
        lemma_table_ok(sub);
    }
    t.insert(key, TomlValue::Table(sub));
    proof {
        lemma_get_insert(t1.entries@, kk, nv, kk@);
        lemma_insert_values(t1.entries@, kk, nv, |y: TomlValue| value_ok(y));
        assert forall|k: Seq<char>| k != kk@ implies #[trigger] t.get_spec(k) == t0.get_spec(k) by {
            lemma_get_insert(t1.entries@, kk, nv, k);
            lemma_get_remove(t0.entries@, kk@, k);
        }
        if t0.get_spec(kk@) is None {
            assert(!path_blocked(s0, ks, i + 1)) by {
                if i + 2 < ks.len() {
                    assert(s0.get_spec(ks[i + 1]) is None);
                }
            }
        }
        if r is Ok {
            assert(ks[i as int] == kk@);
            if t0.get_spec(kk@) is None {
                assert(s0.entries@.len() == 0);
                lemma_path_set_empty(s0, sub, ks, i + 1, value);
                assert(sub_table(Some(t0), ks[i as int]) is None);
            } else {
                assert(sub_table(Some(t0), ks[i as int]) == Some(s0));
            }
            assert(t.get_spec(kk@) == Some(nv));
            assert(path_set(Some(t0), *t, ks, i as int, value));
        }
        if r is Err {
            assert(t0.get_spec(kk@) == Some(TomlValue::Table(s0)));
            assert(sub@ == s0@);
            assert(value_view(nv) == value_view(TomlValue::Table(s0)));
            crate::tomlv::lemma_same_view(*t, t0);
        }
    }
    r
}

/// The key path and the value text of a `--set` assignment, split at the
/// first `=`.
pub open spec fn assignment_parts(a: Seq<char>) -> Option<(Seq<Seq<char>>, Seq<char>)> {
    match find_char_from(a, '=', 0) {
        Some(i) => Some(
            (
                split_chars(trim_chars(a.subrange(0, i)), '.'),
                trim_chars(a.subrange(i + 1, a.len() as int)),
            ),
        ),
        None => None,
    }
}

/// The value an assignment with value text `text` sets: the TOML value that
/// `v = text` gives `v`, where that is TOML, and the text as a string
/// otherwise.
pub open spec fn assigned_value(text: Seq<char>) -> TomlData {
    match crate::tomlv::toml_read_chars("v = "@ + text) {
        Some(m) => if m.contains_key("v"@) {
            m["v"@]
        } else {
            TomlData::Str(text)
        },
        None => TomlData::Str(text),
    }
}

/// Applies `KEY.PATH=VALUE` to the table. The value is read as a TOML value
/// where it is one, and as a string otherwise.
pub fn apply_set(table: &mut TomlTable, assignment: &str) -> (r: Result<(), Error>)
    requires
        table_ok(*old(table)),
    ensures
        table_ok(*final(table)),
        r matches Err(e) ==> e.kind is Config,
        match assignment_parts(assignment@) {
            None => r is Err && *final(table) == *old(table),
            Some((keys, text)) => {
                &&& r is Err <==> path_blocked(*old(table), keys, 0)
                &&& r is Err ==> final(table)@ == old(table)@
                &&& r is Ok ==> (get_path(*final(table), keys, 0) matches Some(w) && w@ == assigned_value(text))
                &&& r is Ok ==> exists|w: TomlValue|
                    #[trigger] path_set(Some(*old(table)), *final(table), keys, 0, w) && w@ == assigned_value(text)
                &&& r is Ok ==> forall|k: Seq<char>|
                    k != keys[0] ==> #[trigger] final(table).get_spec(k) == old(table).get_spec(k)
            },
        },
{
    proof {
        lemma_find_char_bounds(assignment@, '=', 0);
    }
    let eq = match find_char(assignment, '=') {
        Some(i) => i,
        None => {
            let mut m = String::from_str("--set expects KEY.PATH=VALUE, got `");
            m.append(assignment);
            m.append("`");
            return Err(Error::new(ErrorKind::Config(m)));
        },
    };
    let n = assignment.unicode_len();
    let key = trim_str(assignment.substring_char(0, eq));
    let text = trim_str(assignment.substring_char(eq + 1, n));
    let mut source = String::from_str("v = ");
    source.append(text.as_str());
    proof {
        reveal_strlit("v = ");
    }
    let value = match crate::tomlv::parse_toml(source.as_str()) {
        Ok(mut t) => {
            proof {
                lemma_get_ok(t, "v"@);
                lemma_get_remove(t.entries@, "v"@, "v"@);
                crate::tomlv::lemma_view_get(t, "v"@);
            }
            match t.remove("v") {
                Some(v) => v,
                None => TomlValue::String(text),
            }
        },
        Err(_) => TomlValue::String(text),
    };
    assert(value@ == assigned_value(trim_chars(assignment@.subrange(eq + 1, assignment@.len() as int))));
    let keys = split_on(key.as_str(), '.');
    set_path(table, &keys, 0, value)
}

/// Whether a `--set` assignment targets the `files` key, which only a
/// configuration file may set.
pub open spec fn targets_files(a: Seq<char>) -> bool {
    assignment_parts(a) matches Some((keys, _)) && keys[0] == "files"@
}

fn sets_files(assignment: &str) -> (r: bool)
    ensures
        r == targets_files(assignment@),
{
    proof {
        lemma_find_char_bounds(assignment@, '=', 0);
    }
    match find_char(assignment, '=') {
        Some(eq) => {
            let key = trim_str(assignment.substring_char(0, eq));
            let keys = split_on(key.as_str(), '.');
            assert(views(keys@)[0] == keys@[0]@);
            str_eq(keys[0].as_str(), "files")
        },
        None => false,
    }
}

/// What the configuration that `t` gives on its own is: the `files` key
/// has the right shape and `...` stays last where it is `Ok`, a
/// configuration error otherwise; without `files` and a preset, the
/// configuration `t` decodes to, refused exactly where `...` moves.
pub open spec fn table_gives(t: TomlTable, r: Result<Config, Error>) -> bool {
    &&& r is Ok ==> files_shape_ok(t.get_spec("files"@))
    &&& r is Err ==> for_file_failed(t, None, seq![])
    &&& r matches Ok(c) ==> view_pins_ok(config_view(c))
    &&& r matches Err(e) ==> e.kind is Config
    &&& (t.get_spec("files"@) is None && t.get_spec("preset"@) is None) ==> match r {
        Ok(c) => dec_config(t) == Some(config_view(c)),
        Err(_) => dec_config(t) matches Some(v) ==> !view_pins_ok(v),
    }
}

/// `after` is `before` with the assignment `a` applied: the value it sets
/// under its key path, and the other top-level keys as they were.
pub open spec fn set_applied(before: TomlTable, a: Seq<char>, after: TomlTable) -> bool {
    match assignment_parts(a) {
        None => false,
        Some((keys, text)) => {
            &&& get_path(after, keys, 0) matches Some(w) && w@ == assigned_value(text)
            &&& forall|k: Seq<char>| k != keys[0] ==> #[trigger] after.get_spec(k) == before.get_spec(k)
            &&& exists|w: TomlValue| #[trigger] path_set(Some(before), after, keys, 0, w) && w@ == assigned_value(text)
        },
    }
}

/// What applying one assignment does: one to `files` is skipped.
pub open spec fn set_step(before: TomlTable, a: Seq<char>, after: TomlTable) -> bool {
    if targets_files(a) {
        after == before
    } else {
        set_applied(before, a, after)
    }
}

/// `states` are the tables from `t0` on as the first `n` assignments of
/// `sets` are applied in order.
pub open spec fn applied_through(t0: TomlTable, sets: Seq<String>, states: Seq<TomlTable>, n: int) -> bool {
    &&& states.len() == n + 1
    &&& states[0] == t0
    &&& forall|i: int| 0 <= i < n ==> set_step(#[trigger] states[i], sets[i]@, states[i + 1])
}

/// `t` is `t0` with the assignments of `sets` applied in order.
pub open spec fn sets_applied(t0: TomlTable, sets: Seq<String>, t: TomlTable) -> bool {
    exists|states: Seq<TomlTable>|
        #[trigger] applied_through(t0, sets, states, sets.len() as int) && states[sets.len() as int] == t
}

/// Whether expanding the preset of `t` fails: it names one that is no
/// string, unknown, or whose text does not read.
pub open spec fn preset_fails(t: TomlTable) -> bool {
    t.get_spec("preset"@) matches Some(v) && !(v matches TomlValue::String(n) && is_preset_name(n@) && toml_read(
        preset_source(n@),
    ) is Some)
}

/// Whether applying the assignment `a` to `before` fails: it does not target
/// `files`, and has no `=` or a key path through a value that is no table.
pub open spec fn set_fails(before: TomlTable, a: Seq<char>) -> bool {
    !targets_files(a) && match assignment_parts(a) {
        None => true,
        Some((keys, _)) => path_blocked(before, keys, 0),
    }
}

/// Why the configuration for `file` could not be had: the `files` entries
/// (where there are some), an assignment, the preset, or the final table,
/// which does not decode or moves `...`.
pub open spec fn for_file_failed(table: TomlTable, file: Option<&str>, sets: Seq<String>) -> bool {
    ||| table.get_spec("files"@) is Some
    ||| exists|t1: TomlTable, states: Seq<TomlTable>, k: int|
        #![trigger files_laid(table, file, t1), applied_through(t1, sets, states, k)]
        files_laid(table, file, t1) && 0 <= k < sets.len() && applied_through(t1, sets, states, k) && set_fails(
            states[k],
            sets[k]@,
        )
    ||| exists|t1: TomlTable, t2: TomlTable|
        #![trigger files_laid(table, file, t1), sets_applied(t1, sets, t2)]
        files_laid(table, file, t1) && sets_applied(t1, sets, t2) && preset_fails(t2)
    ||| exists|t1: TomlTable, t2: TomlTable, t3: TomlTable|
        #![trigger files_laid(table, file, t1), sets_applied(t1, sets, t2), preset_laid(t2, t3)]
        files_laid(table, file, t1) && sets_applied(t1, sets, t2) && preset_laid(t2, t3) && !(dec_config(t3) matches Some(
            v,
        ) && view_pins_ok(v))
}

impl Config {
    /// The configuration for `file`: the `files` entries that match it, the
    /// `--set` assignments, then the preset, all laid over `table`.
    pub fn from_table_for_file(table: TomlTable, file: Option<&str>, sets: &Vec<String>) -> (r: Result<Config, Error>)
        requires
            table_ok(table),
        ensures
            r is Ok ==> files_shape_ok(table.get_spec("files"@)),
            r matches Ok(c) ==> view_pins_ok(config_view(c)),
            r matches Err(e) ==> e.kind is Config,
            r is Err ==> for_file_failed(table, file, sets@),
            (table.get_spec("files"@) is None && table.get_spec("preset"@) is None && sets@.len() == 0) ==> match r {
                Ok(c) => dec_config(table) == Some(config_view(c)),
                Err(_) => dec_config(table) matches Some(v) ==> !view_pins_ok(v),
            },
            r matches Ok(c) ==> exists|t1: TomlTable, t2: TomlTable, t3: TomlTable|
                #![trigger files_laid(table, file, t1), sets_applied(t1, sets@, t2), preset_laid(t2, t3)]
                files_laid(table, file, t1) && sets_applied(t1, sets@, t2) && preset_laid(t2, t3) && dec_config(t3)
                    == Some(config_view(c)),
    {
        let ghost t0 = table;
        let mut t = match expand_files(table, file) {
            Ok(x) => x,
            Err(e) => return Err(e),
        };
        let ghost t1 = t;
        let ghost mut states: Seq<TomlTable> = seq![t];
        let mut k: usize = 0;
        while k < sets.len()
            invariant
                table_ok(t),
                k <= sets@.len(),
                applied_through(t1, sets@, states, k as int),
                states[k as int] == t,
                sets@.len() == 0 ==> t == t1,
                files_laid(t0, file, t1),
                t0 == table,
            decreases sets.len() - k,
        {
            let ghost mid = t;
            if !sets_files(sets[k].as_str()) {
                match apply_set(&mut t, sets[k].as_str()) {
                    Ok(()) => {},
                    Err(e) => {
                        proof {
                            assert(set_fails(states[k as int], sets@[k as int]@));
                            assert(files_laid(t0, file, t1) && applied_through(t1, sets@, states, k as int));
                        }
                        return Err(e);
                    },
                }
            }
            proof {
                assert(set_step(mid, sets@[k as int]@, t));
                let s0 = states;
                states = states.push(t);
                assert forall|i: int| 0 <= i < k + 1 implies set_step(#[trigger] states[i], sets@[i]@, states[i + 1]) by {
                    if i < k {
                        assert(states[i] == s0[i] && states[i + 1] == s0[i + 1]);
                    }
                }
            }
            k += 1;
        }
        let ghost t2 = t;
        assert(applied_through(t1, sets@, states, sets@.len() as int));
        assert(files_laid(t0, file, t1) && sets_applied(t1, sets@, t2));
        let t = match expand_preset(t) {
            Ok(x) => x,
            Err(e) => {
                assert(preset_fails(t2));
                return Err(e);
            },
        };
        let ghost t3 = t;
        let r = Config::try_validated(&t);
        assert(files_laid(t0, file, t1) && sets_applied(t1, sets@, t2) && preset_laid(t2, t3));
        r
    }

    /// The configuration that `table` gives on its own.
    pub fn from_table(table: TomlTable) -> (r: Result<Config, Error>)
        requires
            table_ok(table),
        ensures
            table_gives(table, r),
    {
        let sets: Vec<String> = Vec::new();
        Config::from_table_for_file(table, None, &sets)
    }

    /// The configuration that a TOML document gives: the configuration its
    /// top-level table gives; text that is not TOML is refused.
    pub fn from_toml_str(text: &str) -> (r: Result<Config, Error>)
        ensures
            match toml_read(text) {
                None => r matches Err(e) && e.kind is InvalidToml,
                Some(m) => exists|t: TomlTable| #![trigger table_gives(t, r)] t@ == m && table_gives(t, r),
            },
    {
        match crate::tomlv::parse_toml(text) {
            Ok(t) => {
                let ghost t0 = t;
                let r = Config::from_table(t);
                assert(t0@ == toml_read(text)->Some_0 && table_gives(t0, r));
                r
            },
            Err(m) => Err(Error::new(ErrorKind::InvalidToml(m)).with_context(String::from_str("invalid TOML"))),
        }
    }
}

/// Whether `t`, or one of its `files` entries, sets `formatter-command`.
pub open spec fn sets_command(t: TomlTable) -> bool {
    ||| t.get_spec("formatter-command"@) is Some
    ||| (t.get_spec("files"@) matches Some(TomlValue::Array(a)) && exists|j: int|
        0 <= j < a@.len() && (#[trigger] a@[j] matches TomlValue::Table(e) && e.get_spec(
            "formatter-command"@,
        ) is Some))
}

/// Whether a `KEY=VALUE` assignment sets `formatter-command`.
pub open spec fn assigns_command(a: Seq<char>) -> bool {
    match find_char_from(a, '=', 0) {
        Some(i) => trim_chars(a.subrange(0, i)) == "formatter-command"@,
        None => false,
    }
}

/// Whether the user has vouched for a `formatter-command` of a discovered
/// configuration: by allowing it outright, by naming a formatter, or by
/// setting the command themselves.
pub fn formatter_command_allowed(allowed: bool, formatter_given: bool, set: &Vec<String>) -> (r: bool)
    ensures
        r == (allowed || formatter_given || exists|k: int| 0 <= k < set@.len() && assigns_command(#[trigger] set@[k]@)),
{
    if allowed || formatter_given {
        return true;
    }
    let mut k: usize = 0;
    while k < set.len()
        invariant
            k <= set@.len(),
            forall|j: int| 0 <= j < k ==> !assigns_command(#[trigger] set@[j]@),
        decreases set.len() - k,
    {
        let a = set[k].as_str();
        proof {
            lemma_find_char_bounds(a@, '=', 0);
        }
        match find_char(a, '=') {
            Some(eq) => {
                let key = trim_str(a.substring_char(0, eq));
                if str_eq(key.as_str(), "formatter-command") {
                    assert(assigns_command(set@[k as int]@));
                    return true;
                }
            },
            None => {},
        }
        k += 1;
    }
    false
}

/// Whether the table, or one of its `files` entries, sets
/// `formatter-command`, which runs a program of the configuration's choice.
pub fn sets_formatter_command(table: &TomlTable) -> (r: bool)
    ensures
        r == sets_command(*table),
{
    if table.contains_key("formatter-command") {
        return true;
    }
    match table.get("files") {
        Some(TomlValue::Array(a)) => {
            let mut k: usize = 0;
            while k < a.len()
                invariant
                    k <= a@.len(),
                    table.get_spec("files"@) == Some(TomlValue::Array(*a)),
                    table.get_spec("formatter-command"@) is None,
                    forall|j: int|
                        0 <= j < k ==> !(#[trigger] a@[j] matches TomlValue::Table(e) && e.get_spec(
                            "formatter-command"@,
                        ) is Some),
                decreases a.len() - k,
            {
                if let TomlValue::Table(e) = &a[k] {
                    if e.contains_key("formatter-command") {
                        assert(a@[k as int] matches TomlValue::Table(e2) && e2.get_spec("formatter-command"@) is Some);
                        return true;
                    }
                }
                k += 1;
            }
            false
        },
        _ => false,
    }
}

/// The keys that only `attrs` takes.
pub open spec fn attrs_only_keys() -> Seq<Seq<char>> {
    seq!["merge"@, "flatten"@, "blank-lines"@, "blank-lines-mode"@, "blank-lines-depth"@]
}

fn attrs_only_key(k: usize) -> (r: &'static str)
    requires
        k < 5,
    ensures
        r@ == attrs_only_keys()[k as int],
{
    if k == 0 {
        "merge"
    } else if k == 1 {
        "flatten"
    } else if k == 2 {
        "blank-lines"
    } else if k == 3 {
        "blank-lines-mode"
    } else {
        "blank-lines-depth"
    }
}

/// The sections of rules other than `attrs`, in the order they are checked.
pub open spec fn rule_sections() -> Seq<Seq<char>> {
    seq!["args"@, "lets"@, "inherits"@, "lists"@]
}

fn rule_section(k: usize) -> (r: &'static str)
    requires
        k < 4,
    ensures
        r@ == rule_sections()[k as int],
{
    if k == 0 {
        "args"
    } else if k == 1 {
        "lets"
    } else if k == 2 {
        "inherits"
    } else {
        "lists"
    }
}

/// The warning for an `attrs`-only key set in another section.
pub open spec fn key_problem(section: Seq<char>, key: Seq<char>, context: Seq<char>) -> Seq<char> {
    "`"@ + section + "."@ + key + "`"@ + context + " has no effect; only `attrs` supports `"@ + key + "`"@
}

/// The warning for `name-style` set where no names are written.
pub open spec fn style_problem(section: Seq<char>, context: Seq<char>) -> Seq<char> {
    "`"@ + section + ".name-style`"@ + context
        + " has no effect; only `attrs`, `lets`, and `inherits` support `name-style`"@
}

/// The warnings for the first `k` `attrs`-only keys set in `rules`.
pub open spec fn key_problems_upto(section: Seq<char>, rules: TomlTable, context: Seq<char>, k: int) -> Seq<
    Seq<char>,
>
    decreases k,
{
    if k <= 0 {
        seq![]
    } else {
        key_problems_upto(section, rules, context, k - 1) + if rules.get_spec(attrs_only_keys()[k - 1]) is Some {
            seq![key_problem(section, attrs_only_keys()[k - 1], context)]
        } else {
            seq![]
        }
    }
}

/// The warnings for the rules of `section`, seen in `context`.
pub open spec fn rule_problems(section: Seq<char>, rules: TomlTable, context: Seq<char>) -> Seq<Seq<char>> {
    key_problems_upto(section, rules, context, 5) + if (section == "args"@ || section == "lists"@)
        && rules.get_spec("name-style"@) is Some {
        seq![style_problem(section, context)]
    } else {
        seq![]
    }
}

/// The warnings for the first `k` sections of rules of `t`.
pub open spec fn section_problems_upto(t: TomlTable, context: Seq<char>, k: int) -> Seq<Seq<char>>
    decreases k,
{
    if k <= 0 {
        seq![]
    } else {
        section_problems_upto(t, context, k - 1) + match t.get_spec(rule_sections()[k - 1]) {
            Some(TomlValue::Table(r)) => rule_problems(rule_sections()[k - 1], r, context),
            _ => seq![],
        }
    }
}

/// Where a warning about an override is said to come from.
pub open spec fn override_context(entry: TomlTable, location: Seq<char>) -> Seq<char> {
    match entry.get_spec("path"@) {
        Some(TomlValue::String(p)) => " in the override for `"@ + p@ + "`"@ + location,
        _ => location,
    }
}

/// The warnings for the first `k` overrides.
pub open spec fn override_problems_upto(a: Seq<TomlValue>, location: Seq<char>, k: int) -> Seq<Seq<char>>
    decreases k,
{
    if k <= 0 || k > a.len() {
        seq![]
    } else {
        override_problems_upto(a, location, k - 1) + match a[k - 1] {
            TomlValue::Table(e) => section_problems_upto(e, override_context(e, location), 4),
            _ => seq![],
        }
    }
}

/// The warnings for the keys of `t` and of its overrides that have no
/// effect, seen at `location`.
pub open spec fn table_problems(t: TomlTable, location: Seq<char>) -> Seq<Seq<char>> {
    section_problems_upto(t, location, 4) + match t.get_spec("overrides"@) {
        Some(TomlValue::Array(a)) => override_problems_upto(a@, location, a@.len() as int),
        _ => seq![],
    }
}

/// Where a warning about a `files` entry is said to come from.
pub open spec fn files_location(e: TomlTable) -> Seq<char> {
    match e.get_spec("pattern"@) {
        Some(TomlValue::String(p)) => " in the `files` entry for `"@ + p@ + "`"@,
        _ => seq![],
    }
}

/// The warnings for the first `k` `files` entries.
pub open spec fn files_problems_upto(a: Seq<TomlValue>, k: int) -> Seq<Seq<char>>
    decreases k,
{
    if k <= 0 || k > a.len() {
        seq![]
    } else {
        files_problems_upto(a, k - 1) + match a[k - 1] {
            TomlValue::Table(e) => table_problems(e, files_location(e)),
            _ => seq![],
        }
    }
}

/// The warnings for every key of `t` that has no effect.
pub open spec fn ignored(t: TomlTable) -> Seq<Seq<char>> {
    table_problems(t, seq![]) + match t.get_spec("files"@) {
        Some(TomlValue::Array(a)) => files_problems_upto(a@, a@.len() as int),
        _ => seq![],
    }
}

fn check_rules(section: &str, rules: &TomlTable, context: &str, found: &mut Vec<String>)
    ensures
        views(final(found)@) == views(old(found)@) + rule_problems(section@, *rules, context@),
{
    let ghost f0 = views(found@);
    let mut k: usize = 0;
    while k < 5
        invariant
            k <= 5,
            views(found@) == f0 + key_problems_upto(section@, *rules, context@, k as int),
        decreases 5 - k,
    {
        let key = attrs_only_key(k);
        if rules.contains_key(key) {
            let mut m = String::from_str("`");
            m.append(section);
            m.append(".");
            m.append(key);
            m.append("`");
            m.append(context);
            m.append(" has no effect; only `attrs` supports `");
            m.append(key);
            m.append("`");
            let ghost before = views(found@);
            found.push(m);
            assert(views(found@) =~= before.push(m@));
        }
        k += 1;
        assert(views(found@) =~= f0 + key_problems_upto(section@, *rules, context@, k as int));
    }
    if (str_eq(section, "args") || str_eq(section, "lists")) && rules.contains_key("name-style") {
        let mut m = String::from_str("`");
        m.append(section);
        m.append(".name-style`");
        m.append(context);
        m.append(" has no effect; only `attrs`, `lets`, and `inherits` support `name-style`");
        let ghost before = views(found@);
        found.push(m);
        assert(views(found@) =~= before.push(m@));
    }
    assert(views(found@) =~= f0 + rule_problems(section@, *rules, context@));
}

fn check_sections(t: &TomlTable, context: &str, found: &mut Vec<String>)
    ensures
        views(final(found)@) == views(old(found)@) + section_problems_upto(*t, context@, 4),
{
    let ghost f0 = views(found@);
    let mut k: usize = 0;
    while k < 4
        invariant
            k <= 4,
            views(found@) == f0 + section_problems_upto(*t, context@, k as int),
        decreases 4 - k,
    {
        let section = rule_section(k);
        if let Some(TomlValue::Table(rules)) = t.get(section) {
            check_rules(section, rules, context, found);
        }
        k += 1;
        assert(views(found@) =~= f0 + section_problems_upto(*t, context@, k as int));
    }
}

/// Collects the warnings for `table`, seen at `location`, into `found`.
pub fn collect_ignored(table: &TomlTable, location: &str, found: &mut Vec<String>)
    ensures
        views(final(found)@) == views(old(found)@) + table_problems(*table, location@),
{
    let ghost f0 = views(found@);
    check_sections(table, location, found);
    let ghost f1 = views(found@);
    if let Some(TomlValue::Array(overrides)) = table.get("overrides") {
        let mut k: usize = 0;
        while k < overrides.len()
            invariant
                k <= overrides@.len(),
                views(found@) == f1 + override_problems_upto(overrides@, location@, k as int),
            decreases overrides.len() - k,
        {
            if let TomlValue::Table(entry) = &overrides[k] {
                let context = match entry.get("path") {
                    Some(TomlValue::String(p)) => {
                        let mut c = String::from_str(" in the override for `");
                        c.append(p.as_str());
                        c.append("`");
                        c.append(location);
                        c
                    },
                    _ => location.to_owned(),
                };
                assert(context@ == override_context(*entry, location@));
                check_sections(entry, context.as_str(), found);
            }
            k += 1;
            assert(views(found@) =~= f1 + override_problems_upto(overrides@, location@, k as int));
        }
    }
    assert(views(found@) =~= f0 + table_problems(*table, location@));
}

/// The warnings for every key of the table, or of its `files` entries, that
/// has no effect, in the order the keys are found.
pub fn ignored_keys(table: &TomlTable) -> (r: Vec<String>)
    ensures
        views(r@) == ignored(*table),
{
    let mut found: Vec<String> = Vec::new();
    assert(views(found@) =~= seq![]);
    let top = String::new();
    collect_ignored(table, top.as_str(), &mut found);
    let ghost f1 = views(found@);
    if let Some(TomlValue::Array(entries)) = table.get("files") {
        let mut k: usize = 0;
        while k < entries.len()
            invariant
                k <= entries@.len(),
                views(found@) == f1 + files_problems_upto(entries@, k as int),
            decreases entries.len() - k,
        {
            if let TomlValue::Table(entry) = &entries[k] {
                let location = match entry.get("pattern") {
                    Some(TomlValue::String(p)) => {
                        let mut c = String::from_str(" in the `files` entry for `");
                        c.append(p.as_str());
                        c.append("`");
                        c
                    },
                    _ => String::new(),
                };
                assert(location@ == files_location(*entry));
                collect_ignored(entry, location.as_str(), &mut found);
            }
            k += 1;
            assert(views(found@) =~= f1 + files_problems_upto(entries@, k as int));
        }
    }
    assert(views(found@) =~= ignored(*table));
    found
}

/// What is known of one directory on the way up from where the search for
/// a configuration file starts.
#[derive(Clone, Copy, PartialEq, Eq, Structural, Debug)]
pub struct DirFacts {
    /// The directory holds `.git`: it is the root of a repository.
    pub has_git: bool,
    /// The directory holds a file `pedantix.toml`.
    pub has_config: bool,
    /// The directory holds a file `.pedantix.toml`.
    pub has_dot_config: bool,
}

/// The first directory, from `k` on, that is a repository root.
pub open spec fn first_root(dirs: Seq<DirFacts>, k: int) -> Option<int>
    decreases dirs.len() - k,
{
    if k < 0 || k >= dirs.len() {
        None
    } else if dirs[k].has_git {
        Some(k)
    } else {
        first_root(dirs, k + 1)
    }
}

/// The first directory, from `k` up to `limit`, that holds a configuration
/// file, and whether only the dotted name is there.
pub open spec fn first_config(dirs: Seq<DirFacts>, k: int, limit: int) -> Option<(int, bool)>
    decreases dirs.len() - k,
{
    if k < 0 || k >= dirs.len() || k > limit {
        None
    } else if dirs[k].has_config {
        Some((k, false))
    } else if dirs[k].has_dot_config {
        Some((k, true))
    } else {
        first_config(dirs, k + 1, limit)
    }
}

/// Where the configuration is found among the directories from the start
/// upwards: the search stops at the repository root, or after the start
/// itself where no directory is one; the undotted name wins.
pub open spec fn discovered(dirs: Seq<DirFacts>) -> Option<(int, bool)> {
    first_config(
        dirs,
        0,
        match first_root(dirs, 0) {
            Some(r) => r,
            None => 0,
        },
    )
}

/// Finds the configuration file among the directories from the start
/// upwards: the index of its directory, and whether it has the dotted name.
pub fn discover_config(dirs: &Vec<DirFacts>) -> (r: Option<(usize, bool)>)
    ensures
        match r {
            Some((i, dotted)) => discovered(dirs@) == Some((i as int, dotted)),
            None => discovered(dirs@) is None,
        },
{
    let mut root: usize = 0;
    let mut k: usize = 0;
    while k < dirs.len() && !dirs[k].has_git
        invariant
            k <= dirs@.len(),
            first_root(dirs@, 0) == first_root(dirs@, k as int),
        decreases dirs.len() - k,
    {
        k += 1;
    }
    if k < dirs.len() {
        root = k;
    }
    let ghost limit = root as int;
    assert(limit == match first_root(dirs@, 0) {
        Some(r) => r,
        None => 0,
    });
    let mut j: usize = 0;
    while j < dirs.len() && j <= root
        invariant
            j <= dirs@.len(),
            limit == root,
            limit == match first_root(dirs@, 0) {
                Some(r) => r,
                None => 0,
            },
            first_config(dirs@, 0, limit) == first_config(dirs@, j as int, limit),
        decreases dirs.len() - j,
    {
        if dirs[j].has_config {
            return Some((j, false));
        }
        if dirs[j].has_dot_config {
            return Some((j, true));
        }
        j += 1;
    }
    None
}

} // verus!
