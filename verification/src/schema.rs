//! Reading a configuration out of a TOML table: the keys each section takes,
//! their types, and the defaults of the keys left out.

use crate::config::{
    names, opt_names, BlankLinesMode, Config, FormatterChoice, InheritPlacement, NameStyle,
    Override, PartialRules, PartialView, RulesView, SortRules,
};
use crate::error::{Error, ErrorKind};
use crate::tomlv::{TomlTable, TomlValue};
use vstd::prelude::*;
use vstd::string::StringExecFns;

verus! {

pub open spec fn dec_bool(v: TomlValue) -> Option<bool> {
    match v {
        TomlValue::Boolean(b) => Some(b),
        _ => None,
    }
}

pub open spec fn dec_usize(v: TomlValue) -> Option<usize> {
    match v {
        TomlValue::Integer(i) => if 0 <= i <= usize::MAX {
            Some(i as usize)
        } else {
            None
        },
        _ => None,
    }
}

pub open spec fn dec_string(v: TomlValue) -> Option<Seq<char>> {
    match v {
        TomlValue::String(s) => Some(s@),
        _ => None,
    }
}

pub open spec fn all_strings(a: Seq<TomlValue>) -> bool {
    forall|j: int| 0 <= j < a.len() ==> (#[trigger] a[j]) is String
}

pub open spec fn string_of(v: TomlValue) -> Seq<char> {
    match v {
        TomlValue::String(s) => s@,
        _ => seq![],
    }
}

pub open spec fn dec_strings(v: TomlValue) -> Option<Seq<Seq<char>>> {
    match v {
        TomlValue::Array(a) => if all_strings(a@) {
            Some(a@.map_values(|x: TomlValue| string_of(x)))
        } else {
            None
        },
        _ => None,
    }
}

pub open spec fn dec_formatter(v: TomlValue) -> Option<FormatterChoice> {
    match dec_string(v) {
        Some(s) => if s == "nixfmt"@ {
            Some(FormatterChoice::Nixfmt)
        } else if s == "alejandra"@ {
            Some(FormatterChoice::Alejandra)
        } else if s == "nixpkgs-fmt"@ {
            Some(FormatterChoice::NixpkgsFmt)
        } else if s == "off"@ {
            Some(FormatterChoice::Off)
        } else {
            None
        },
        None => None,
    }
}

pub open spec fn dec_mode(v: TomlValue) -> Option<BlankLinesMode> {
    match dec_string(v) {
        Some(s) => if s == "multiline"@ {
            Some(BlankLinesMode::Multiline)
        } else if s == "all"@ {
            Some(BlankLinesMode::All)
        } else if s == "off"@ {
            Some(BlankLinesMode::Off)
        } else {
            None
        },
        None => None,
    }
}

pub open spec fn dec_style(v: TomlValue) -> Option<NameStyle> {
    match dec_string(v) {
        Some(s) => if s == "preserve"@ {
            Some(NameStyle::Preserve)
        } else if s == "identifier"@ {
            Some(NameStyle::Identifier)
        } else if s == "string"@ {
            Some(NameStyle::String)
        } else {
            None
        },
        None => None,
    }
}

pub open spec fn dec_placement(v: TomlValue) -> Option<InheritPlacement> {
    match dec_string(v) {
        Some(s) => if s == "front"@ {
            Some(InheritPlacement::Front)
        } else if s == "last"@ {
            Some(InheritPlacement::Last)
        } else if s == "sorted"@ {
            Some(InheritPlacement::Sorted)
        } else {
            None
        },
        None => None,
    }
}

/// A key that may be left out: its default when absent, else its decoding.
pub open spec fn field_or<X>(v: Option<TomlValue>, dec: spec_fn(TomlValue) -> Option<X>, d: X) -> Option<X> {
    match v {
        None => Some(d),
        Some(v) => dec(v),
    }
}

/// A key whose absence counts as `None`.
pub open spec fn field_opt<X>(v: Option<TomlValue>, dec: spec_fn(TomlValue) -> Option<X>) -> Option<Option<X>> {
    match v {
        None => Some(None),
        Some(v) => match dec(v) {
            Some(x) => Some(Some(x)),
            None => None,
        },
    }
}

pub open spec fn bool_or(v: Option<TomlValue>, d: bool) -> Option<bool> {
    field_or(v, |x| dec_bool(x), d)
}

pub open spec fn opt_bool(v: Option<TomlValue>) -> Option<Option<bool>> {
    field_opt(v, |x| dec_bool(x))
}

pub open spec fn usize_or(v: Option<TomlValue>, d: usize) -> Option<usize> {
    field_or(v, |x| dec_usize(x), d)
}

pub open spec fn opt_usize(v: Option<TomlValue>) -> Option<Option<usize>> {
    field_opt(v, |x| dec_usize(x))
}

pub open spec fn strings_or(v: Option<TomlValue>, d: Seq<Seq<char>>) -> Option<Seq<Seq<char>>> {
    field_or(v, |x| dec_strings(x), d)
}

pub open spec fn opt_strings(v: Option<TomlValue>) -> Option<Option<Seq<Seq<char>>>> {
    field_opt(v, |x| dec_strings(x))
}

pub open spec fn style_or(v: Option<TomlValue>, d: NameStyle) -> Option<NameStyle> {
    field_or(v, |x| dec_style(x), d)
}

pub open spec fn opt_style(v: Option<TomlValue>) -> Option<Option<NameStyle>> {
    field_opt(v, |x| dec_style(x))
}

pub open spec fn mode_or(v: Option<TomlValue>, d: BlankLinesMode) -> Option<BlankLinesMode> {
    field_or(v, |x| dec_mode(x), d)
}

pub open spec fn opt_mode(v: Option<TomlValue>) -> Option<Option<BlankLinesMode>> {
    field_opt(v, |x| dec_mode(x))
}

pub open spec fn formatter_or(v: Option<TomlValue>, d: FormatterChoice) -> Option<FormatterChoice> {
    field_or(v, |x| dec_formatter(x), d)
}

pub open spec fn placement_or(v: Option<TomlValue>, d: InheritPlacement) -> Option<InheritPlacement> {
    field_or(v, |x| dec_placement(x), d)
}

pub open spec fn is_rule_key(k: Seq<char>) -> bool {
    k == "sort"@ || k == "first"@ || k == "last"@ || k == "merge"@ || k == "flatten"@ || k
        == "name-style"@ || k == "blank-lines"@ || k == "blank-lines-mode"@ || k
        == "blank-lines-depth"@
}

pub open spec fn is_override_key(k: Seq<char>) -> bool {
    k == "path"@ || k == "attrs"@ || k == "args"@ || k == "lets"@ || k == "inherits"@ || k
        == "lists"@
}

pub open spec fn is_config_key(k: Seq<char>) -> bool {
    k == "formatter"@ || k == "formatter-command"@ || k == "format-before-sort"@ || k
        == "format-after-sort"@ || k == "top-level-blank-lines"@ || k
        == "top-level-blank-lines-mode"@ || k == "top-level-blank-lines-depth"@ || k
        == "inherit-placement"@ || k == "args"@ || k == "attrs"@ || k == "lets"@ || k
        == "inherits"@ || k == "lists"@ || k == "overrides"@
}

/// Which schema a table is read with.
#[derive(Clone, Copy, PartialEq, Eq, Structural)]
pub enum Section {
    Rules,
    Override,
    Config,
}

pub open spec fn is_key_of(s: Section, k: Seq<char>) -> bool {
    match s {
        Section::Rules => is_rule_key(k),
        Section::Override => is_override_key(k),
        Section::Config => is_config_key(k),
    }
}

/// Whether every key of `t` belongs to section `s`.
pub open spec fn keys_within(t: TomlTable, s: Section) -> bool {
    forall|j: int| 0 <= j < t.entries@.len() ==> is_key_of(s, #[trigger] t.entries@[j].0@)
}

/// The sort rules that a table gives, keys left out taken from `d`.
pub open spec fn dec_rules(v: TomlValue, d: RulesView) -> Option<RulesView> {
    match v {
        TomlValue::Table(t) => {
            let sort = bool_or(t.get_spec("sort"@), d.sort);
            let first = strings_or(t.get_spec("first"@), d.first);
            let last = strings_or(t.get_spec("last"@), d.last);
            let merge = bool_or(t.get_spec("merge"@), d.merge);
            let flatten = bool_or(t.get_spec("flatten"@), d.flatten);
            let style = style_or(t.get_spec("name-style"@), d.name_style);
            let bl = opt_usize(t.get_spec("blank-lines"@));
            let mode = opt_mode(t.get_spec("blank-lines-mode"@));
            let depth = usize_or(t.get_spec("blank-lines-depth"@), 1usize);
            if keys_within(t, Section::Rules) && sort is Some && first is Some && last is Some
                && merge is Some && flatten is Some && style is Some && bl is Some && mode is Some
                && depth is Some {
                Some(
                    RulesView {
                        sort: sort.unwrap(),
                        first: first.unwrap(),
                        last: last.unwrap(),
                        merge: merge.unwrap(),
                        flatten: flatten.unwrap(),
                        name_style: style.unwrap(),
                        blank_lines: bl.unwrap(),
                        blank_lines_mode: mode.unwrap(),
                        blank_lines_depth: depth.unwrap(),
                    },
                )
            } else {
                None
            }
        },
        _ => None,
    }
}

/// The partial rules that a table gives.
pub open spec fn dec_partial(v: TomlValue) -> Option<PartialView> {
    match v {
        TomlValue::Table(t) => {
            let sort = opt_bool(t.get_spec("sort"@));
            let first = opt_strings(t.get_spec("first"@));
            let last = opt_strings(t.get_spec("last"@));
            let merge = opt_bool(t.get_spec("merge"@));
            let flatten = opt_bool(t.get_spec("flatten"@));
            let style = opt_style(t.get_spec("name-style"@));
            let bl = opt_usize(t.get_spec("blank-lines"@));
            let mode = opt_mode(t.get_spec("blank-lines-mode"@));
            let depth = opt_usize(t.get_spec("blank-lines-depth"@));
            if keys_within(t, Section::Rules) && sort is Some && first is Some && last is Some
                && merge is Some && flatten is Some && style is Some && bl is Some && mode is Some
                && depth is Some {
                Some(
                    PartialView {
                        sort: sort.unwrap(),
                        first: first.unwrap(),
                        last: last.unwrap(),
                        merge: merge.unwrap(),
                        flatten: flatten.unwrap(),
                        name_style: style.unwrap(),
                        blank_lines: bl.unwrap(),
                        blank_lines_mode: mode.unwrap(),
                        blank_lines_depth: depth.unwrap(),
                    },
                )
            } else {
                None
            }
        },
        _ => None,
    }
}

} // verus!

verus! {

pub struct OverrideView {
    pub path: Seq<char>,
    pub attrs: Option<PartialView>,
    pub args: Option<PartialView>,
    pub lets: Option<PartialView>,
    pub inherits: Option<PartialView>,
    pub lists: Option<PartialView>,
}

pub open spec fn opt_partial(v: Option<TomlValue>) -> Option<Option<PartialView>> {
    field_opt(v, |x| dec_partial(x))
}

pub open spec fn dec_override(v: TomlValue) -> Option<OverrideView> {
    match v {
        TomlValue::Table(t) => {
            let path = t.get_spec("path"@);
            let attrs = opt_partial(t.get_spec("attrs"@));
            let args = opt_partial(t.get_spec("args"@));
            let lets = opt_partial(t.get_spec("lets"@));
            let inherits = opt_partial(t.get_spec("inherits"@));
            let lists = opt_partial(t.get_spec("lists"@));
            if keys_within(t, Section::Override) && path is Some && dec_string(path.unwrap()) is Some
                && attrs is Some && args is Some && lets is Some && inherits is Some && lists is Some {
                Some(
                    OverrideView {
                        path: dec_string(path.unwrap()).unwrap(),
                        attrs: attrs.unwrap(),
                        args: args.unwrap(),
                        lets: lets.unwrap(),
                        inherits: inherits.unwrap(),
                        lists: lists.unwrap(),
                    },
                )
            } else {
                None
            }
        },
        _ => None,
    }
}

pub open spec fn dec_overrides_upto(a: Seq<TomlValue>, k: int) -> Option<Seq<OverrideView>>
    decreases k,
{
    if k <= 0 || k > a.len() {
        Some(seq![])
    } else {
        match (dec_overrides_upto(a, k - 1), dec_override(a[k - 1])) {
            (Some(prev), Some(o)) => Some(prev.push(o)),
            _ => None,
        }
    }
}

pub open spec fn dec_overrides(v: TomlValue) -> Option<Seq<OverrideView>> {
    match v {
        TomlValue::Array(a) => dec_overrides_upto(a@, a@.len() as int),
        _ => None,
    }
}

pub open spec fn rules_or(v: Option<TomlValue>, d: RulesView) -> Option<RulesView> {
    field_or(v, |x| dec_rules(x, d), d)
}

pub open spec fn overrides_or(v: Option<TomlValue>) -> Option<Seq<OverrideView>> {
    field_or(v, |x| dec_overrides(x), seq![])
}

pub struct ConfigView {
    pub formatter: FormatterChoice,
    pub formatter_command: Option<Seq<Seq<char>>>,
    pub format_before_sort: bool,
    pub format_after_sort: bool,
    pub top_level_blank_lines: Option<usize>,
    pub top_level_blank_lines_mode: BlankLinesMode,
    pub top_level_blank_lines_depth: usize,
    pub inherit_placement: InheritPlacement,
    pub args: RulesView,
    pub attrs: RulesView,
    pub lets: RulesView,
    pub inherits: RulesView,
    pub lists: RulesView,
    pub overrides: Seq<OverrideView>,
}

pub open spec fn override_view(o: Override) -> OverrideView {
    OverrideView {
        path: o.path@,
        attrs: match o.attrs { Some(p) => Some(p@), None => None },
        args: match o.args { Some(p) => Some(p@), None => None },
        lets: match o.lets { Some(p) => Some(p@), None => None },
        inherits: match o.inherits { Some(p) => Some(p@), None => None },
        lists: match o.lists { Some(p) => Some(p@), None => None },
    }
}

pub open spec fn config_view(c: Config) -> ConfigView {
    ConfigView {
        formatter: c.formatter,
        formatter_command: opt_names(c.formatter_command),
        format_before_sort: c.format_before_sort,
        format_after_sort: c.format_after_sort,
        top_level_blank_lines: c.top_level_blank_lines,
        top_level_blank_lines_mode: c.top_level_blank_lines_mode,
        top_level_blank_lines_depth: c.top_level_blank_lines_depth,
        inherit_placement: c.inherit_placement,
        args: c.args@,
        attrs: c.attrs@,
        lets: c.lets@,
        inherits: c.inherits@,
        lists: c.lists@,
        overrides: c.overrides@.map_values(|o: Override| override_view(o)),
    }
}

pub open spec fn off_view() -> RulesView {
    RulesView { sort: false, ..crate::config::default_rules_view() }
}

/// The configuration a table gives, keys left out taking their defaults.
pub open spec fn dec_config(t: TomlTable) -> Option<ConfigView> {
    let formatter = formatter_or(t.get_spec("formatter"@), FormatterChoice::Nixfmt);
    let command = opt_strings(t.get_spec("formatter-command"@));
    let before = bool_or(t.get_spec("format-before-sort"@), true);
    let after = bool_or(t.get_spec("format-after-sort"@), true);
    let tl = opt_usize(t.get_spec("top-level-blank-lines"@));
    let tl_mode = mode_or(t.get_spec("top-level-blank-lines-mode"@), BlankLinesMode::Multiline);
    let tl_depth = usize_or(t.get_spec("top-level-blank-lines-depth"@), 1usize);
    let placement = placement_or(t.get_spec("inherit-placement"@), InheritPlacement::Front);
    let args = rules_or(t.get_spec("args"@), crate::config::default_rules_view());
    let attrs = rules_or(t.get_spec("attrs"@), crate::config::default_rules_view());
    let lets = rules_or(t.get_spec("lets"@), off_view());
    let inherits = rules_or(t.get_spec("inherits"@), off_view());
    let lists = rules_or(t.get_spec("lists"@), off_view());
    let overrides = overrides_or(t.get_spec("overrides"@));
    if keys_within(t, Section::Config) && formatter is Some && command is Some && before is Some
        && after is Some && tl is Some && tl_mode is Some && tl_depth is Some && placement is Some
        && args is Some && attrs is Some && lets is Some && inherits is Some && lists is Some
        && overrides is Some {
        Some(
            ConfigView {
                formatter: formatter.unwrap(),
                formatter_command: command.unwrap(),
                format_before_sort: before.unwrap(),
                format_after_sort: after.unwrap(),
                top_level_blank_lines: tl.unwrap(),
                top_level_blank_lines_mode: tl_mode.unwrap(),
                top_level_blank_lines_depth: tl_depth.unwrap(),
                inherit_placement: placement.unwrap(),
                args: args.unwrap(),
                attrs: attrs.unwrap(),
                lets: lets.unwrap(),
                inherits: inherits.unwrap(),
                lists: lists.unwrap(),
                overrides: overrides.unwrap(),
            },
        )
    } else {
        None
    }
}

} // verus!

verus! {

/// A configuration error with the message `a` + `b` + `c`.
pub fn config_error(a: &str, b: &str, c: &str) -> (e: Error)
    ensures
        (e.kind matches ErrorKind::Config(m) && m@ == a@ + b@ + c@),
        e.context@.len() == 0,
{
    let mut m = String::from_str(a);
    m.append(b);
    m.append(c);
    Error::new(ErrorKind::Config(m))
}

fn type_error(key: &str, what: &str) -> (e: Error)
    ensures
        e.kind matches ErrorKind::Config(m) && m@ == "invalid type for `"@ + key@ + "`: expected "@ + what@,
        e.context@.len() == 0,
{
    let mut m = String::from_str("invalid type for `");
    m.append(key);
    m.append("`: expected ");
    m.append(what);
    Error::new(ErrorKind::Config(m))
}

fn variant_error(key: &str, got: &str) -> (e: Error)
    ensures
        e.kind matches ErrorKind::Config(m) && m@ == "unknown variant `"@ + got@ + "` for `"@ + key@ + "`"@,
        e.context@.len() == 0,
{
    let mut m = String::from_str("unknown variant `");
    m.append(got);
    m.append("` for `");
    m.append(key);
    m.append("`");
    Error::new(ErrorKind::Config(m))
}

fn get_bool(t: &TomlTable, key: &str, d: bool) -> (r: Result<bool, Error>)
    ensures
        match r {
            Ok(b) => bool_or(t.get_spec(key@), d) == Some(b),
            Err(e) => bool_or(t.get_spec(key@), d) is None && e.kind is Config,
        },
{
    match t.get(key) {
        None => Ok(d),
        Some(TomlValue::Boolean(b)) => Ok(*b),
        Some(_) => Err(type_error(key, "a boolean")),
    }
}

fn get_opt_bool(t: &TomlTable, key: &str) -> (r: Result<Option<bool>, Error>)
    ensures
        match r {
            Ok(b) => opt_bool(t.get_spec(key@)) == Some(b),
            Err(e) => opt_bool(t.get_spec(key@)) is None && e.kind is Config,
        },
{
    match t.get(key) {
        None => Ok(None),
        Some(TomlValue::Boolean(b)) => Ok(Some(*b)),
        Some(_) => Err(type_error(key, "a boolean")),
    }
}

fn usize_of(key: &str, v: &TomlValue) -> (r: Result<usize, Error>)
    ensures
        match r {
            Ok(n) => dec_usize(*v) == Some(n),
            Err(e) => dec_usize(*v) is None && e.kind is Config,
        },
{
    match v {
        TomlValue::Integer(i) => {
            if *i >= 0 && (*i as u64) <= (usize::MAX as u64) {
                Ok(*i as usize)
            } else {
                Err(type_error(key, "a non-negative integer"))
            }
        },
        _ => Err(type_error(key, "a non-negative integer")),
    }
}

fn get_usize(t: &TomlTable, key: &str, d: usize) -> (r: Result<usize, Error>)
    ensures
        match r {
            Ok(n) => usize_or(t.get_spec(key@), d) == Some(n),
            Err(e) => usize_or(t.get_spec(key@), d) is None && e.kind is Config,
        },
{
    match t.get(key) {
        None => Ok(d),
        Some(v) => usize_of(key, v),
    }
}

fn get_opt_usize(t: &TomlTable, key: &str) -> (r: Result<Option<usize>, Error>)
    ensures
        match r {
            Ok(n) => opt_usize(t.get_spec(key@)) == Some(n),
            Err(e) => opt_usize(t.get_spec(key@)) is None && e.kind is Config,
        },
{
    match t.get(key) {
        None => Ok(None),
        Some(v) => {
            let n = usize_of(key, v)?;
            Ok(Some(n))
        },
    }
}

fn strings_of(key: &str, v: &TomlValue) -> (r: Result<Vec<String>, Error>)
    ensures
        match r {
            Ok(x) => dec_strings(*v) == Some(names(x@)),
            Err(e) => dec_strings(*v) is None && e.kind is Config,
        },
{
    match v {
        TomlValue::Array(a) => {
            let mut out: Vec<String> = Vec::new();
            let mut k: usize = 0;
            while k < a.len()
                invariant
                    *v == TomlValue::Array(*a),
                    k <= a@.len(),
                    all_strings(a@.take(k as int)),
                    names(out@) == a@.take(k as int).map_values(|x: TomlValue| string_of(x)),
                decreases a.len() - k,
            {
                match &a[k] {
                    TomlValue::String(s) => {
                        let ghost prev = names(out@);
                        out.push(s.clone());
                        assert(names(out@) =~= prev.push(s@));
                        assert(a@.take(k + 1) =~= a@.take(k as int).push(a@[k as int]));
                        assert(a@.take(k + 1).map_values(|x: TomlValue| string_of(x)) =~= a@.take(
                            k as int,
                        ).map_values(|x: TomlValue| string_of(x)).push(s@));
                    },
                    _ => {
                        assert(!(a@[k as int] is String));
                        assert(!all_strings(a@));
                        assert(dec_strings(*v) is None);
                        return Err(type_error(key, "a list of strings"));
                    },
                }
                k += 1;
            }
            assert(a@.take(k as int) =~= a@);
            Ok(out)
        },
        _ => Err(type_error(key, "a list of strings")),
    }
}

fn get_strings(t: &TomlTable, key: &str, d: Vec<String>) -> (r: Result<Vec<String>, Error>)
    ensures
        match r {
            Ok(x) => strings_or(t.get_spec(key@), names(d@)) == Some(names(x@)),
            Err(e) => strings_or(t.get_spec(key@), names(d@)) is None && e.kind is Config,
        },
{
    match t.get(key) {
        None => Ok(d),
        Some(v) => strings_of(key, v),
    }
}

fn get_opt_strings(t: &TomlTable, key: &str) -> (r: Result<Option<Vec<String>>, Error>)
    ensures
        match r {
            Ok(x) => opt_strings(t.get_spec(key@)) == Some(opt_names(x)),
            Err(e) => opt_strings(t.get_spec(key@)) is None && e.kind is Config,
        },
{
    match t.get(key) {
        None => Ok(None),
        Some(v) => {
            let x = strings_of(key, v)?;
            Ok(Some(x))
        },
    }
}

fn style_of(key: &str, v: &TomlValue) -> (r: Result<NameStyle, Error>)
    ensures
        match r {
            Ok(x) => dec_style(*v) == Some(x),
            Err(e) => dec_style(*v) is None && e.kind is Config,
        },
{
    match v {
        TomlValue::String(s) => {
            let s = s.as_str();
            if crate::parser::str_eq(s, "preserve") {
                Ok(NameStyle::Preserve)
            } else if crate::parser::str_eq(s, "identifier") {
                Ok(NameStyle::Identifier)
            } else if crate::parser::str_eq(s, "string") {
                Ok(NameStyle::String)
            } else {
                Err(variant_error(key, s))
            }
        },
        _ => Err(type_error(key, "a string")),
    }
}

fn mode_of(key: &str, v: &TomlValue) -> (r: Result<BlankLinesMode, Error>)
    ensures
        match r {
            Ok(x) => dec_mode(*v) == Some(x),
            Err(e) => dec_mode(*v) is None && e.kind is Config,
        },
{
    match v {
        TomlValue::String(s) => {
            let s = s.as_str();
            if crate::parser::str_eq(s, "multiline") {
                Ok(BlankLinesMode::Multiline)
            } else if crate::parser::str_eq(s, "all") {
                Ok(BlankLinesMode::All)
            } else if crate::parser::str_eq(s, "off") {
                Ok(BlankLinesMode::Off)
            } else {
                Err(variant_error(key, s))
            }
        },
        _ => Err(type_error(key, "a string")),
    }
}

fn formatter_of(key: &str, v: &TomlValue) -> (r: Result<FormatterChoice, Error>)
    ensures
        match r {
            Ok(x) => dec_formatter(*v) == Some(x),
            Err(e) => dec_formatter(*v) is None && e.kind is Config,
        },
{
    match v {
        TomlValue::String(s) => {
            let s = s.as_str();
            if crate::parser::str_eq(s, "nixfmt") {
                Ok(FormatterChoice::Nixfmt)
            } else if crate::parser::str_eq(s, "alejandra") {
                Ok(FormatterChoice::Alejandra)
            } else if crate::parser::str_eq(s, "nixpkgs-fmt") {
                Ok(FormatterChoice::NixpkgsFmt)
            } else if crate::parser::str_eq(s, "off") {
                Ok(FormatterChoice::Off)
            } else {
                Err(variant_error(key, s))
            }
        },
        _ => Err(type_error(key, "a string")),
    }
}

fn placement_of(key: &str, v: &TomlValue) -> (r: Result<InheritPlacement, Error>)
    ensures
        match r {
            Ok(x) => dec_placement(*v) == Some(x),
            Err(e) => dec_placement(*v) is None && e.kind is Config,
        },
{
    match v {
        TomlValue::String(s) => {
            let s = s.as_str();
            if crate::parser::str_eq(s, "front") {
                Ok(InheritPlacement::Front)
            } else if crate::parser::str_eq(s, "last") {
                Ok(InheritPlacement::Last)
            } else if crate::parser::str_eq(s, "sorted") {
                Ok(InheritPlacement::Sorted)
            } else {
                Err(variant_error(key, s))
            }
        },
        _ => Err(type_error(key, "a string")),
    }
}

fn key_in_section(s: Section, k: &str) -> (r: bool)
    ensures
        r == is_key_of(s, k@),
{
    let e = |x: &str| -> (b: bool)
        ensures
            b == (k@ == x@),
        { crate::parser::str_eq(k, x) };
    match s {
        Section::Rules => e("sort") || e("first") || e("last") || e("merge") || e("flatten") || e(
            "name-style",
        ) || e("blank-lines") || e("blank-lines-mode") || e("blank-lines-depth"),
        Section::Override => e("path") || e("attrs") || e("args") || e("lets") || e("inherits")
            || e("lists"),
        Section::Config => e("formatter") || e("formatter-command") || e("format-before-sort") || e(
            "format-after-sort",
        ) || e("top-level-blank-lines") || e("top-level-blank-lines-mode") || e(
            "top-level-blank-lines-depth",
        ) || e("inherit-placement") || e("args") || e("attrs") || e("lets") || e("inherits") || e(
            "lists",
        ) || e("overrides"),
    }
}

/// Refuses a table with a key its section does not take.
fn check_keys(t: &TomlTable, s: Section) -> (r: Result<(), Error>)
    ensures
        match r {
            Ok(_) => keys_within(*t, s),
            Err(e) => !keys_within(*t, s) && e.kind is Config,
        },
{
    let mut k: usize = 0;
    while k < t.entries.len()
        invariant
            k <= t.entries@.len(),
            forall|j: int| 0 <= j < k ==> is_key_of(s, #[trigger] t.entries@[j].0@),
        decreases t.entries.len() - k,
    {
        if !key_in_section(s, t.entries[k].0.as_str()) {
            return Err(config_error("unknown field `", t.entries[k].0.as_str(), "`"));
        }
        k += 1;
    }
    Ok(())
}

} // verus!

verus! {

fn get_style(t: &TomlTable, key: &str, d: NameStyle) -> (r: Result<NameStyle, Error>)
    ensures
        match r {
            Ok(x) => style_or(t.get_spec(key@), d) == Some(x),
            Err(e) => style_or(t.get_spec(key@), d) is None && e.kind is Config,
        },
{
    match t.get(key) {
        None => Ok(d),
        Some(v) => style_of(key, v),
    }
}

fn get_opt_style(t: &TomlTable, key: &str) -> (r: Result<Option<NameStyle>, Error>)
    ensures
        match r {
            Ok(x) => opt_style(t.get_spec(key@)) == Some(x),
            Err(e) => opt_style(t.get_spec(key@)) is None && e.kind is Config,
        },
{
    match t.get(key) {
        None => Ok(None),
        Some(v) => {
            let x = style_of(key, v)?;
            Ok(Some(x))
        },
    }
}

fn get_opt_mode(t: &TomlTable, key: &str) -> (r: Result<Option<BlankLinesMode>, Error>)
    ensures
        match r {
            Ok(x) => opt_mode(t.get_spec(key@)) == Some(x),
            Err(e) => opt_mode(t.get_spec(key@)) is None && e.kind is Config,
        },
{
    match t.get(key) {
        None => Ok(None),
        Some(v) => {
            let x = mode_of(key, v)?;
            Ok(Some(x))
        },
    }
}

fn get_mode(t: &TomlTable, key: &str, d: BlankLinesMode) -> (r: Result<BlankLinesMode, Error>)
    ensures
        match r {
            Ok(x) => mode_or(t.get_spec(key@), d) == Some(x),
            Err(e) => mode_or(t.get_spec(key@), d) is None && e.kind is Config,
        },
{
    match t.get(key) {
        None => Ok(d),
        Some(v) => mode_of(key, v),
    }
}

fn get_formatter(t: &TomlTable, key: &str, d: FormatterChoice) -> (r: Result<FormatterChoice, Error>)
    ensures
        match r {
            Ok(x) => formatter_or(t.get_spec(key@), d) == Some(x),
            Err(e) => formatter_or(t.get_spec(key@), d) is None && e.kind is Config,
        },
{
    match t.get(key) {
        None => Ok(d),
        Some(v) => formatter_of(key, v),
    }
}

fn get_placement(t: &TomlTable, key: &str, d: InheritPlacement) -> (r: Result<InheritPlacement, Error>)
    ensures
        match r {
            Ok(x) => placement_or(t.get_spec(key@), d) == Some(x),
            Err(e) => placement_or(t.get_spec(key@), d) is None && e.kind is Config,
        },
{
    match t.get(key) {
        None => Ok(d),
        Some(v) => placement_of(key, v),
    }
}

/// The sort rules that `v` gives, keys left out taken from `d`.
pub fn decode_rules(key: &str, v: &TomlValue, d: &SortRules) -> (r: Result<SortRules, Error>)
    ensures
        match r {
            Ok(x) => dec_rules(*v, d@) == Some(x@),
            Err(e) => dec_rules(*v, d@) is None && e.kind is Config,
        },
{
    let t = match v {
        TomlValue::Table(t) => t,
        _ => return Err(type_error(key, "a table")),
    };
    check_keys(t, Section::Rules)?;
    let sort = get_bool(t, "sort", d.sort)?;
    let first = get_strings(t, "first", crate::config::copy_names(&d.first))?;
    let last = get_strings(t, "last", crate::config::copy_names(&d.last))?;
    let merge = get_bool(t, "merge", d.merge)?;
    let flatten = get_bool(t, "flatten", d.flatten)?;
    let name_style = get_style(t, "name-style", d.name_style)?;
    let blank_lines = get_opt_usize(t, "blank-lines")?;
    let blank_lines_mode = get_opt_mode(t, "blank-lines-mode")?;
    let blank_lines_depth = get_usize(t, "blank-lines-depth", 1)?;
    Ok(
        SortRules {
            sort,
            first,
            last,
            merge,
            flatten,
            name_style,
            blank_lines,
            blank_lines_mode,
            blank_lines_depth,
        },
    )
}

/// The partial rules that `v` gives.
pub fn decode_partial(key: &str, v: &TomlValue) -> (r: Result<PartialRules, Error>)
    ensures
        match r {
            Ok(x) => dec_partial(*v) == Some(x@),
            Err(e) => dec_partial(*v) is None && e.kind is Config,
        },
{
    let t = match v {
        TomlValue::Table(t) => t,
        _ => return Err(type_error(key, "a table")),
    };
    check_keys(t, Section::Rules)?;
    let sort = get_opt_bool(t, "sort")?;
    let first = get_opt_strings(t, "first")?;
    let last = get_opt_strings(t, "last")?;
    let merge = get_opt_bool(t, "merge")?;
    let flatten = get_opt_bool(t, "flatten")?;
    let name_style = get_opt_style(t, "name-style")?;
    let blank_lines = get_opt_usize(t, "blank-lines")?;
    let blank_lines_mode = get_opt_mode(t, "blank-lines-mode")?;
    let blank_lines_depth = get_opt_usize(t, "blank-lines-depth")?;
    Ok(
        PartialRules {
            sort,
            first,
            last,
            merge,
            flatten,
            name_style,
            blank_lines,
            blank_lines_mode,
            blank_lines_depth,
        },
    )
}

fn get_opt_partial(t: &TomlTable, key: &str) -> (r: Result<Option<PartialRules>, Error>)
    ensures
        match r {
            Ok(x) => opt_partial(t.get_spec(key@)) == Some(
                match x {
                    Some(p) => Some(p@),
                    None => None,
                },
            ),
            Err(e) => opt_partial(t.get_spec(key@)) is None && e.kind is Config,
        },
{
    match t.get(key) {
        None => Ok(None),
        Some(v) => {
            let p = decode_partial(key, v)?;
            Ok(Some(p))
        },
    }
}

/// The override that `v` gives.
pub fn decode_override(v: &TomlValue) -> (r: Result<Override, Error>)
    ensures
        match r {
            Ok(x) => dec_override(*v) == Some(override_view(x)),
            Err(e) => dec_override(*v) is None && e.kind is Config,
        },
{
    let t = match v {
        TomlValue::Table(t) => t,
        _ => return Err(type_error("overrides", "a list of tables")),
    };
    check_keys(t, Section::Override)?;
    let path = match t.get("path") {
        Some(TomlValue::String(s)) => s.clone(),
        Some(_) => return Err(type_error("path", "a string")),
        None => return Err(config_error("missing field `path`", "", "")),
    };
    let attrs = get_opt_partial(t, "attrs")?;
    let args = get_opt_partial(t, "args")?;
    let lets = get_opt_partial(t, "lets")?;
    let inherits = get_opt_partial(t, "inherits")?;
    let lists = get_opt_partial(t, "lists")?;
    Ok(Override { path, attrs, args, lets, inherits, lists })
}

proof fn lemma_overrides_fail(a: Seq<TomlValue>, k: int, n: int)
    requires
        0 < k <= n <= a.len(),
        dec_overrides_upto(a, k) is None,
    ensures
        dec_overrides_upto(a, n) is None,
    decreases n - k,
{
    if k < n {
        lemma_overrides_fail(a, k, n - 1);
    }
}

fn get_overrides(t: &TomlTable) -> (r: Result<Vec<Override>, Error>)
    ensures
        match r {
            Ok(x) => overrides_or(t.get_spec("overrides"@)) == Some(
                x@.map_values(|o: Override| override_view(o)),
            ),
            Err(e) => overrides_or(t.get_spec("overrides"@)) is None && e.kind is Config,
        },
{
    let mut out: Vec<Override> = Vec::new();
    match t.get("overrides") {
        None => {
            assert(out@.map_values(|o: Override| override_view(o)) =~= Seq::<OverrideView>::empty());
            Ok(out)
        },
        Some(TomlValue::Array(a)) => {
            let mut k: usize = 0;
            while k < a.len()
                invariant
                    t.get_spec("overrides"@) == Some(TomlValue::Array(*a)),
                    k <= a@.len(),
                    dec_overrides_upto(a@, k as int) == Some(
                        out@.map_values(|o: Override| override_view(o)),
                    ),
                decreases a.len() - k,
            {
                let o = match decode_override(&a[k]) {
                    Ok(o) => o,
                    Err(e) => {
                        proof {
                            lemma_overrides_fail(a@, k + 1, a@.len() as int);
                        }
                        return Err(e);
                    },
                };
                let ghost prev = out@.map_values(|o: Override| override_view(o));
                out.push(o);
                assert(out@.map_values(|o: Override| override_view(o)) =~= prev.push(
                    override_view(o),
                ));
                k += 1;
            }
            Ok(out)
        },
        Some(_) => Err(type_error("overrides", "a list of tables")),
    }
}

fn get_rules(t: &TomlTable, key: &str, d: SortRules) -> (r: Result<SortRules, Error>)
    ensures
        match r {
            Ok(x) => rules_or(t.get_spec(key@), d@) == Some(x@),
            Err(e) => rules_or(t.get_spec(key@), d@) is None && e.kind is Config,
        },
{
    match t.get(key) {
        None => Ok(d),
        Some(v) => decode_rules(key, v, &d),
    }
}

/// The configuration that table `t` gives.
pub fn decode_config(t: &TomlTable) -> (r: Result<Config, Error>)
    ensures
        match r {
            Ok(c) => dec_config(*t) == Some(config_view(c)),
            Err(e) => dec_config(*t) is None && e.kind is Config,
        },
{
    check_keys(t, Section::Config)?;
    let formatter = get_formatter(t, "formatter", FormatterChoice::Nixfmt)?;
    let formatter_command = get_opt_strings(t, "formatter-command")?;
    let format_before_sort = get_bool(t, "format-before-sort", true)?;
    let format_after_sort = get_bool(t, "format-after-sort", true)?;
    let top_level_blank_lines = get_opt_usize(t, "top-level-blank-lines")?;
    let top_level_blank_lines_mode = get_mode(
        t,
        "top-level-blank-lines-mode",
        BlankLinesMode::Multiline,
    )?;
    let top_level_blank_lines_depth = get_usize(t, "top-level-blank-lines-depth", 1)?;
    let inherit_placement = get_placement(t, "inherit-placement", InheritPlacement::Front)?;
    let args = get_rules(t, "args", SortRules::default_rules())?;
    let attrs = get_rules(t, "attrs", SortRules::default_rules())?;
    let lets = get_rules(t, "lets", SortRules::off())?;
    let inherits = get_rules(t, "inherits", SortRules::off())?;
    let lists = get_rules(t, "lists", SortRules::off())?;
    let overrides = get_overrides(t)?;
    Ok(
        Config {
            formatter,
            formatter_command,
            format_before_sort,
            format_after_sort,
            top_level_blank_lines,
            top_level_blank_lines_mode,
            top_level_blank_lines_depth,
            inherit_placement,
            args,
            attrs,
            lets,
            inherits,
            lists,
            overrides,
        },
    )
}

} // verus!
