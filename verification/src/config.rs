//! The configuration: its types, their defaults, and the rules that apply
//! at a given attribute path.

use crate::glob::{glob_match_path, glob_match_path_spec};
use crate::bytes::strs;
use vstd::prelude::*;
use vstd::string::StringSliceAdditionalSpecFns;

verus! {

/// The sentinel that stands for every argument with a default value.
pub const DEFAULTED_TOKEN: &'static str = "<defaulted>";

/// Base formatter run before and after sorting.
#[derive(Clone, Copy, PartialEq, Eq, Structural, Debug)]
pub enum FormatterChoice {
    Nixfmt,
    Alejandra,
    NixpkgsFmt,
    /// No base formatter; only reorder.
    Off,
}

impl FormatterChoice {
    /// The command line of the formatter.
    pub open spec fn argv_spec(self) -> Seq<Seq<char>> {
        match self {
            FormatterChoice::Nixfmt => seq!["nixfmt"@, "-"@],
            FormatterChoice::Alejandra => seq!["alejandra"@, "--quiet"@, "-"@],
            FormatterChoice::NixpkgsFmt => seq!["nixpkgs-fmt"@],
            FormatterChoice::Off => seq![],
        }
    }

    pub fn argv(self) -> (r: Vec<&'static str>)
        ensures
            r@.map_values(|s: &str| s@) == self.argv_spec(),
    {
        let mut v: Vec<&'static str> = Vec::new();
        match self {
            FormatterChoice::Nixfmt => {
                v.push("nixfmt");
                v.push("-");
            },
            FormatterChoice::Alejandra => {
                v.push("alejandra");
                v.push("--quiet");
                v.push("-");
            },
            FormatterChoice::NixpkgsFmt => {
                v.push("nixpkgs-fmt");
            },
            FormatterChoice::Off => {},
        }
        assert(v@.map_values(|s: &str| s@) =~= self.argv_spec());
        v
    }
}

/// Which bindings receive blank-line spacing.
#[derive(Clone, Copy, PartialEq, Eq, Structural, Debug)]
pub enum BlankLinesMode {
    /// Space bindings that span several lines.
    Multiline,
    /// Space all bindings.
    All,
    /// No spacing.
    Off,
}

/// Quoting style for attribute and `inherit` names.
#[derive(Clone, Copy, PartialEq, Eq, Structural, Debug)]
pub enum NameStyle {
    Preserve,
    Identifier,
    String,
}

/// Where `inherit` statements land relative to ordinary bindings.
#[derive(Clone, Copy, PartialEq, Eq, Structural, Debug)]
pub enum InheritPlacement {
    Front,
    Last,
    Sorted,
}

/// Which construct a set of rules is for.
#[derive(Clone, Copy, PartialEq, Eq, Structural, Debug)]
pub enum RuleKind {
    Args,
    Attrs,
    Lets,
    Inherits,
    Lists,
}

/// Rules for one sortable construct.
#[derive(Debug)]
pub struct SortRules {
    pub sort: bool,
    pub first: Vec<String>,
    pub last: Vec<String>,
    pub merge: bool,
    pub flatten: bool,
    pub name_style: NameStyle,
    pub blank_lines: Option<usize>,
    pub blank_lines_mode: Option<BlankLinesMode>,
    pub blank_lines_depth: usize,
}

/// The contents of a list of strings.
pub open spec fn names(v: Seq<String>) -> Seq<Seq<char>> {
    v.map_values(|s: String| s@)
}

pub struct RulesView {
    pub sort: bool,
    pub first: Seq<Seq<char>>,
    pub last: Seq<Seq<char>>,
    pub merge: bool,
    pub flatten: bool,
    pub name_style: NameStyle,
    pub blank_lines: Option<usize>,
    pub blank_lines_mode: Option<BlankLinesMode>,
    pub blank_lines_depth: usize,
}

impl View for SortRules {
    type V = RulesView;

    open spec fn view(&self) -> RulesView {
        RulesView {
            sort: self.sort,
            first: names(self.first@),
            last: names(self.last@),
            merge: self.merge,
            flatten: self.flatten,
            name_style: self.name_style,
            blank_lines: self.blank_lines,
            blank_lines_mode: self.blank_lines_mode,
            blank_lines_depth: self.blank_lines_depth,
        }
    }
}

/// A copy of a list of strings.
pub fn copy_names(v: &Vec<String>) -> (r: Vec<String>)
    ensures
        names(r@) == names(v@),
{
    let mut r: Vec<String> = Vec::new();
    let mut k: usize = 0;
    while k < v.len()
        invariant
            k <= v@.len(),
            names(r@) == names(v@).take(k as int),
        decreases v.len() - k,
    {
        let ghost prev = names(r@);
        r.push(v[k].clone());
        assert(names(r@) =~= prev.push(v@[k as int]@));
        assert(names(v@).take(k + 1) =~= names(v@).take(k as int).push(v@[k as int]@));
        k += 1;
    }
    assert(names(v@).take(k as int) =~= names(v@));
    r
}

impl SortRules {
    /// The rules that apply where nothing is configured: sort, pin nothing.
    pub fn default_rules() -> (r: SortRules)
        ensures
            r@ == default_rules_view(),
    {
        let r = SortRules {
            sort: true,
            first: Vec::new(),
            last: Vec::new(),
            merge: false,
            flatten: false,
            name_style: NameStyle::Preserve,
            blank_lines: None,
            blank_lines_mode: None,
            blank_lines_depth: 1,
        };
        assert(r@.first =~= Seq::<Seq<char>>::empty());
        assert(r@.last =~= Seq::<Seq<char>>::empty());
        r
    }

    /// Like the defaults, but not sorting.
    pub fn off() -> (r: SortRules)
        ensures
            r@ == (RulesView { sort: false, ..default_rules_view() }),
    {
        let mut r = SortRules::default_rules();
        r.sort = false;
        r
    }

    pub fn copy(&self) -> (r: SortRules)
        ensures
            r@ == self@,
    {
        SortRules {
            sort: self.sort,
            first: copy_names(&self.first),
            last: copy_names(&self.last),
            merge: self.merge,
            flatten: self.flatten,
            name_style: self.name_style,
            blank_lines: self.blank_lines,
            blank_lines_mode: self.blank_lines_mode,
            blank_lines_depth: self.blank_lines_depth,
        }
    }
}

pub open spec fn default_rules_view() -> RulesView {
    RulesView {
        sort: true,
        first: seq![],
        last: seq![],
        merge: false,
        flatten: false,
        name_style: NameStyle::Preserve,
        blank_lines: None,
        blank_lines_mode: None,
        blank_lines_depth: 1,
    }
}

impl Default for SortRules {
    fn default() -> (r: SortRules)
        ensures
            r@ == default_rules_view(),
    {
        SortRules::default_rules()
    }
}

/// Rules where every key is optional, for overrides.
#[derive(Debug)]
pub struct PartialRules {
    pub sort: Option<bool>,
    pub first: Option<Vec<String>>,
    pub last: Option<Vec<String>>,
    pub merge: Option<bool>,
    pub flatten: Option<bool>,
    pub name_style: Option<NameStyle>,
    pub blank_lines: Option<usize>,
    pub blank_lines_mode: Option<BlankLinesMode>,
    pub blank_lines_depth: Option<usize>,
}

pub open spec fn opt_names(v: Option<Vec<String>>) -> Option<Seq<Seq<char>>> {
    match v {
        Some(v) => Some(names(v@)),
        None => None,
    }
}

pub struct PartialView {
    pub sort: Option<bool>,
    pub first: Option<Seq<Seq<char>>>,
    pub last: Option<Seq<Seq<char>>>,
    pub merge: Option<bool>,
    pub flatten: Option<bool>,
    pub name_style: Option<NameStyle>,
    pub blank_lines: Option<usize>,
    pub blank_lines_mode: Option<BlankLinesMode>,
    pub blank_lines_depth: Option<usize>,
}

impl View for PartialRules {
    type V = PartialView;

    open spec fn view(&self) -> PartialView {
        PartialView {
            sort: self.sort,
            first: opt_names(self.first),
            last: opt_names(self.last),
            merge: self.merge,
            flatten: self.flatten,
            name_style: self.name_style,
            blank_lines: self.blank_lines,
            blank_lines_mode: self.blank_lines_mode,
            blank_lines_depth: self.blank_lines_depth,
        }
    }
}

/// `r` with every key that `p` sets taken from `p`.
pub open spec fn apply_partial(p: PartialView, r: RulesView) -> RulesView {
    RulesView {
        sort: match p.sort { Some(x) => x, None => r.sort },
        first: match p.first { Some(x) => x, None => r.first },
        last: match p.last { Some(x) => x, None => r.last },
        merge: match p.merge { Some(x) => x, None => r.merge },
        flatten: match p.flatten { Some(x) => x, None => r.flatten },
        name_style: match p.name_style { Some(x) => x, None => r.name_style },
        blank_lines: match p.blank_lines { Some(x) => Some(x), None => r.blank_lines },
        blank_lines_mode: match p.blank_lines_mode { Some(x) => Some(x), None => r.blank_lines_mode },
        blank_lines_depth: match p.blank_lines_depth { Some(x) => x, None => r.blank_lines_depth },
    }
}

impl PartialRules {
    pub fn empty() -> (r: PartialRules)
        ensures
            r.sort is None && r.first is None && r.last is None && r.merge is None && r.flatten is None
                && r.name_style is None && r.blank_lines is None && r.blank_lines_mode is None
                && r.blank_lines_depth is None,
    {
        PartialRules {
            sort: None,
            first: None,
            last: None,
            merge: None,
            flatten: None,
            name_style: None,
            blank_lines: None,
            blank_lines_mode: None,
            blank_lines_depth: None,
        }
    }

    /// Sets in `rules` every key that these rules set.
    pub fn apply(&self, rules: &mut SortRules)
        ensures
            final(rules)@ == apply_partial(self@, old(rules)@),
    {
        if let Some(sort) = self.sort {
            rules.sort = sort;
        }
        if let Some(first) = &self.first {
            rules.first = copy_names(first);
        }
        if let Some(last) = &self.last {
            rules.last = copy_names(last);
        }
        if let Some(merge) = self.merge {
            rules.merge = merge;
        }
        if let Some(flatten) = self.flatten {
            rules.flatten = flatten;
        }
        if let Some(name_style) = self.name_style {
            rules.name_style = name_style;
        }
        if let Some(blank_lines) = self.blank_lines {
            rules.blank_lines = Some(blank_lines);
        }
        if let Some(mode) = self.blank_lines_mode {
            rules.blank_lines_mode = Some(mode);
        }
        if let Some(depth) = self.blank_lines_depth {
            rules.blank_lines_depth = depth;
        }
    }
}

/// Rules for the attribute paths that `path` matches.
#[derive(Debug)]
pub struct Override {
    /// Glob over dot-separated attribute paths.
    pub path: String,
    pub attrs: Option<PartialRules>,
    pub args: Option<PartialRules>,
    pub lets: Option<PartialRules>,
    pub inherits: Option<PartialRules>,
    pub lists: Option<PartialRules>,
}

impl Override {
    /// The partial rules this override sets for `kind`.
    pub open spec fn partial_for(self, kind: RuleKind) -> Option<PartialRules> {
        match kind {
            RuleKind::Args => self.args,
            RuleKind::Attrs => self.attrs,
            RuleKind::Lets => self.lets,
            RuleKind::Inherits => self.inherits,
            RuleKind::Lists => self.lists,
        }
    }

    pub fn partial(&self, kind: RuleKind) -> (r: &Option<PartialRules>)
        ensures
            *r == self.partial_for(kind),
    {
        match kind {
            RuleKind::Args => &self.args,
            RuleKind::Attrs => &self.attrs,
            RuleKind::Lets => &self.lets,
            RuleKind::Inherits => &self.inherits,
            RuleKind::Lists => &self.lists,
        }
    }
}

/// A complete configuration.
#[derive(Debug)]
pub struct Config {
    pub formatter: FormatterChoice,
    /// Arbitrary `stdin -> stdout` command; overrides `formatter`.
    pub formatter_command: Option<Vec<String>>,
    pub format_before_sort: bool,
    pub format_after_sort: bool,
    pub top_level_blank_lines: Option<usize>,
    pub top_level_blank_lines_mode: BlankLinesMode,
    pub top_level_blank_lines_depth: usize,
    pub inherit_placement: InheritPlacement,
    pub args: SortRules,
    pub attrs: SortRules,
    pub lets: SortRules,
    pub inherits: SortRules,
    pub lists: SortRules,
    pub overrides: Vec<Override>,
}

impl Config {
    /// Runs `formatter` as the base formatter in place of whatever the
    /// configuration names, a `formatter-command` included.
    pub fn use_formatter(&mut self, formatter: FormatterChoice)
        ensures
            *final(self) == (Config { formatter, formatter_command: None, ..*old(self) }),
    {
        self.formatter = formatter;
        self.formatter_command = None;
    }

    /// The construct rules for `kind`, before any override.
    pub open spec fn base_rules(self, kind: RuleKind) -> RulesView {
        match kind {
            RuleKind::Args => self.args@,
            RuleKind::Attrs => self.attrs@,
            RuleKind::Lets => self.lets@,
            RuleKind::Inherits => self.inherits@,
            RuleKind::Lists => self.lists@,
        }
    }

    /// The rules for `kind` at `path` after the first `k` overrides: each
    /// override whose glob matches sets the keys it names.
    pub open spec fn rules_after(self, kind: RuleKind, path: Seq<Seq<u8>>, k: int) -> RulesView
        decreases k,
    {
        if k <= 0 || k > self.overrides@.len() {
            self.base_rules(kind)
        } else {
            let prev = self.rules_after(kind, path, k - 1);
            let o = self.overrides@[k - 1];
            if glob_match_path_spec(vstd::utf8::encode_utf8(o.path@), path) {
                match o.partial_for(kind) {
                    Some(p) => apply_partial(p@, prev),
                    None => prev,
                }
            } else {
                prev
            }
        }
    }

    /// The rules for `kind` at attribute path `path`.
    pub open spec fn rules_at_spec(self, kind: RuleKind, path: Seq<Seq<u8>>) -> RulesView {
        self.rules_after(kind, path, self.overrides@.len() as int)
    }

    pub fn rules_at(&self, kind: RuleKind, path: &Vec<Vec<u8>>) -> (r: SortRules)
        ensures
            r@ == self.rules_at_spec(kind, strs(path@)),
    {
        let mut rules = match kind {
            RuleKind::Args => self.args.copy(),
            RuleKind::Attrs => self.attrs.copy(),
            RuleKind::Lets => self.lets.copy(),
            RuleKind::Inherits => self.inherits.copy(),
            RuleKind::Lists => self.lists.copy(),
        };
        let mut k: usize = 0;
        while k < self.overrides.len()
            invariant
                k <= self.overrides@.len(),
                rules@ == self.rules_after(kind, strs(path@), k as int),
            decreases self.overrides.len() - k,
        {
            let o = &self.overrides[k];
            if glob_match_path(o.path.as_str(), path) {
                match o.partial(kind) {
                    Some(p) => p.apply(&mut rules),
                    None => {},
                }
            }
            k += 1;
        }
        rules
    }

    /// Whether some list may be sorted.
    pub open spec fn lists_may_sort_spec(self) -> bool {
        self.lists.sort || exists|k: int|
            0 <= k < self.overrides@.len() && ((#[trigger] self.overrides@[k]).lists matches Some(l)
                && l.sort == Some(true))
    }

    pub fn lists_may_sort(&self) -> (r: bool)
        ensures
            r == self.lists_may_sort_spec(),
    {
        if self.lists.sort {
            return true;
        }
        let mut k: usize = 0;
        while k < self.overrides.len()
            invariant
                k <= self.overrides@.len(),
                forall|j: int|
                    0 <= j < k ==> !((#[trigger] self.overrides@[j]).lists matches Some(l) && l.sort
                        == Some(true)),
            decreases self.overrides.len() - k,
        {
            if let Some(l) = &self.overrides[k].lists {
                if l.sort == Some(true) {
                    return true;
                }
            }
            k += 1;
        }
        false
    }

    /// Whether blank-line spacing may apply anywhere.
    pub open spec fn blank_lines_may_apply_spec(self) -> bool {
        self.top_level_blank_lines is Some || self.attrs.blank_lines is Some || exists|k: int|
            0 <= k < self.overrides@.len() && ((#[trigger] self.overrides@[k]).attrs matches Some(a)
                && a.blank_lines is Some)
    }

    pub fn blank_lines_may_apply(&self) -> (r: bool)
        ensures
            r == self.blank_lines_may_apply_spec(),
    {
        if self.top_level_blank_lines.is_some() || self.attrs.blank_lines.is_some() {
            return true;
        }
        let mut k: usize = 0;
        while k < self.overrides.len()
            invariant
                k <= self.overrides@.len(),
                forall|j: int|
                    0 <= j < k ==> !((#[trigger] self.overrides@[j]).attrs matches Some(a)
                        && a.blank_lines is Some),
            decreases self.overrides.len() - k,
        {
            if let Some(a) = &self.overrides[k].attrs {
                if a.blank_lines.is_some() {
                    return true;
                }
            }
            k += 1;
        }
        false
    }

    /// Whether some attribute set may have bindings merged.
    pub open spec fn attrs_may_merge_spec(self) -> bool {
        self.attrs.merge || exists|k: int|
            0 <= k < self.overrides@.len() && ((#[trigger] self.overrides@[k]).attrs matches Some(a)
                && a.merge == Some(true))
    }

    pub fn attrs_may_merge(&self) -> (r: bool)
        ensures
            r == self.attrs_may_merge_spec(),
    {
        if self.attrs.merge {
            return true;
        }
        let mut k: usize = 0;
        while k < self.overrides.len()
            invariant
                k <= self.overrides@.len(),
                forall|j: int|
                    0 <= j < k ==> !((#[trigger] self.overrides@[j]).attrs matches Some(a)
                        && a.merge == Some(true)),
            decreases self.overrides.len() - k,
        {
            if let Some(a) = &self.overrides[k].attrs {
                if a.merge == Some(true) {
                    return true;
                }
            }
            k += 1;
        }
        false
    }

    /// Whether some attribute set may be flattened.
    pub open spec fn attrs_may_flatten_spec(self) -> bool {
        self.attrs.flatten || exists|k: int|
            0 <= k < self.overrides@.len() && ((#[trigger] self.overrides@[k]).attrs matches Some(a)
                && a.flatten == Some(true))
    }

    pub fn attrs_may_flatten(&self) -> (r: bool)
        ensures
            r == self.attrs_may_flatten_spec(),
    {
        if self.attrs.flatten {
            return true;
        }
        let mut k: usize = 0;
        while k < self.overrides.len()
            invariant
                k <= self.overrides@.len(),
                forall|j: int|
                    0 <= j < k ==> !((#[trigger] self.overrides@[j]).attrs matches Some(a)
                        && a.flatten == Some(true)),
            decreases self.overrides.len() - k,
        {
            if let Some(a) = &self.overrides[k].attrs {
                if a.flatten == Some(true) {
                    return true;
                }
            }
            k += 1;
        }
        false
    }

    /// Where no rule merges, the rules at every path leave merging off.
    pub proof fn lemma_no_merge(self, path: Seq<Seq<u8>>, k: int)
        requires
            !self.attrs_may_merge_spec(),
        ensures
            !self.rules_after(RuleKind::Attrs, path, k).merge,
        decreases k,
    {
        if 0 < k <= self.overrides@.len() {
            self.lemma_no_merge(path, k - 1);
            let o = self.overrides@[k - 1];
            assert(!(o.attrs matches Some(a) && a.merge == Some(true)));
        }
    }

    /// Where no rule flattens, the rules at every path leave flattening off.
    pub proof fn lemma_no_flatten(self, path: Seq<Seq<u8>>, k: int)
        requires
            !self.attrs_may_flatten_spec(),
        ensures
            !self.rules_after(RuleKind::Attrs, path, k).flatten,
        decreases k,
    {
        if 0 < k <= self.overrides@.len() {
            self.lemma_no_flatten(path, k - 1);
            let o = self.overrides@[k - 1];
            assert(!(o.attrs matches Some(a) && a.flatten == Some(true)));
        }
    }

    /// Whether override `k` matches `path` and sets `sort` for `kind`.
    pub open spec fn sets_sort_at(self, kind: RuleKind, path: Seq<Seq<u8>>, k: int) -> bool {
        &&& glob_match_path_spec(vstd::utf8::encode_utf8(self.overrides@[k].path@), path)
        &&& self.overrides@[k].partial_for(kind) matches Some(p)
        &&& p.sort is Some
    }

    /// Later overrides win: where override `k` matches `path` and sets `sort`,
    /// and no later one that matches sets it, `sort` at `path` is what `k`
    /// sets, whatever the construct rules and earlier overrides say.
    pub proof fn lemma_last_override_wins(self, kind: RuleKind, path: Seq<Seq<u8>>, k: int, m: int)
        requires
            0 <= k < m <= self.overrides@.len(),
            self.sets_sort_at(kind, path, k),
            forall|j: int| k < j < m ==> !#[trigger] self.sets_sort_at(kind, path, j),
        ensures
            self.rules_after(kind, path, m).sort == self.overrides@[k].partial_for(kind).unwrap().sort.unwrap(),
        decreases m,
    {
        if m - 1 > k {
            self.lemma_last_override_wins(kind, path, k, m - 1);
            assert(!self.sets_sort_at(kind, path, m - 1));
        }
    }

    /// Where no rule sets a name style, names keep their style at every path.
    pub proof fn lemma_no_restyle(self, kind: RuleKind, path: Seq<Seq<u8>>, k: int)
        requires
            !self.names_may_restyle_spec(),
            kind == RuleKind::Attrs || kind == RuleKind::Lets || kind == RuleKind::Inherits,
        ensures
            self.rules_after(kind, path, k).name_style == NameStyle::Preserve,
        decreases k,
    {
        if 0 < k <= self.overrides@.len() {
            self.lemma_no_restyle(kind, path, k - 1);
            let o = self.overrides@[k - 1];
            assert(!(Self::restyles(o.attrs) || Self::restyles(o.lets) || Self::restyles(o.inherits)));
        }
    }

    /// Whether partial rules set a name style other than `preserve`.
    pub open spec fn restyles(p: Option<PartialRules>) -> bool {
        p matches Some(p) && p.name_style matches Some(s) && s != NameStyle::Preserve
    }

    /// Whether some name may be re-quoted.
    pub open spec fn names_may_restyle_spec(self) -> bool {
        self.attrs.name_style != NameStyle::Preserve || self.lets.name_style != NameStyle::Preserve
            || self.inherits.name_style != NameStyle::Preserve || exists|k: int|
            0 <= k < self.overrides@.len() && {
                let o = #[trigger] self.overrides@[k];
                Self::restyles(o.attrs) || Self::restyles(o.lets) || Self::restyles(o.inherits)
            }
    }

    fn partial_restyles(p: &Option<PartialRules>) -> (r: bool)
        ensures
            r == Self::restyles(*p),
    {
        match p {
            Some(p) => match p.name_style {
                Some(s) => s != NameStyle::Preserve,
                None => false,
            },
            None => false,
        }
    }

    pub fn names_may_restyle(&self) -> (r: bool)
        ensures
            r == self.names_may_restyle_spec(),
    {
        if self.attrs.name_style != NameStyle::Preserve || self.lets.name_style
            != NameStyle::Preserve || self.inherits.name_style != NameStyle::Preserve {
            return true;
        }
        let mut k: usize = 0;
        while k < self.overrides.len()
            invariant
                k <= self.overrides@.len(),
                forall|j: int|
                    0 <= j < k ==> {
                        let o = #[trigger] self.overrides@[j];
                        !(Self::restyles(o.attrs) || Self::restyles(o.lets) || Self::restyles(
                            o.inherits,
                        ))
                    },
            decreases self.overrides.len() - k,
        {
            let o = &self.overrides[k];
            if Self::partial_restyles(&o.attrs) || Self::partial_restyles(&o.lets)
                || Self::partial_restyles(&o.inherits) {
                return true;
            }
            k += 1;
        }
        false
    }

    /// The command line of the base formatter: the configured command, or the
    /// chosen formatter's.
    pub open spec fn formatter_argv_spec(self) -> Seq<Seq<char>> {
        match self.formatter_command {
            Some(argv) => names(argv@),
            None => self.formatter.argv_spec(),
        }
    }

    pub fn formatter_argv(&self) -> (r: Vec<String>)
        ensures
            names(r@) == self.formatter_argv_spec(),
    {
        match &self.formatter_command {
            Some(argv) => copy_names(argv),
            None => {
                let a = self.formatter.argv();
                let mut r: Vec<String> = Vec::new();
                let mut k: usize = 0;
                while k < a.len()
                    invariant
                        k <= a@.len(),
                        a@.map_values(|s: &str| s@) == self.formatter.argv_spec(),
                        names(r@) == a@.map_values(|s: &str| s@).take(k as int),
                    decreases a.len() - k,
                {
                    let ghost prev = names(r@);
                    r.push(a[k].to_owned());
                    assert(names(r@) =~= prev.push(a@[k as int]@));
                    assert(a@.map_values(|s: &str| s@).take(k + 1) =~= a@.map_values(
                        |s: &str| s@,
                    ).take(k as int).push(a@[k as int]@));
                    k += 1;
                }
                assert(a@.map_values(|s: &str| s@).take(k as int) =~= a@.map_values(|s: &str| s@));
                r
            },
        }
    }

    /// The configuration that applies where nothing is configured.
    pub fn default_config() -> (c: Config)
        ensures
            c.formatter == FormatterChoice::Nixfmt,
            c.formatter_command is None,
            c.format_before_sort && c.format_after_sort,
            c.top_level_blank_lines is None,
            c.top_level_blank_lines_mode == BlankLinesMode::Multiline,
            c.top_level_blank_lines_depth == 1,
            c.inherit_placement == InheritPlacement::Front,
            c.args@ == default_rules_view(),
            c.attrs@ == default_rules_view(),
            c.lets@ == (RulesView { sort: false, ..default_rules_view() }),
            c.inherits@ == (RulesView { sort: false, ..default_rules_view() }),
            c.lists@ == (RulesView { sort: false, ..default_rules_view() }),
            c.overrides@.len() == 0,
    {
        Config {
            formatter: FormatterChoice::Nixfmt,
            formatter_command: None,
            format_before_sort: true,
            format_after_sort: true,
            top_level_blank_lines: None,
            top_level_blank_lines_mode: BlankLinesMode::Multiline,
            top_level_blank_lines_depth: 1,
            inherit_placement: InheritPlacement::Front,
            args: SortRules::default_rules(),
            attrs: SortRules::default_rules(),
            lets: SortRules::off(),
            inherits: SortRules::off(),
            lists: SortRules::off(),
            overrides: Vec::new(),
        }
    }
}

impl Default for Config {
    fn default() -> (c: Config)
        ensures
            c.formatter == FormatterChoice::Nixfmt,
            c.formatter_command is None,
            c.format_before_sort && c.format_after_sort,
            c.top_level_blank_lines is None,
            c.top_level_blank_lines_mode == BlankLinesMode::Multiline,
            c.top_level_blank_lines_depth == 1,
            c.inherit_placement == InheritPlacement::Front,
            c.args@ == default_rules_view(),
            c.attrs@ == default_rules_view(),
            c.lets@ == (RulesView { sort: false, ..default_rules_view() }),
            c.inherits@ == (RulesView { sort: false, ..default_rules_view() }),
            c.lists@ == (RulesView { sort: false, ..default_rules_view() }),
            c.overrides@.len() == 0,
    {
        Config::default_config()
    }
}

} // verus!
