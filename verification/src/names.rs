//! Restyling names: quoting or unquoting attribute and `inherit` names by
//! the `name-style` rules.

use crate::bytes::{copy_strs, extend_strs, push_all, strs};
use crate::config::{Config, NameStyle, RuleKind};
use crate::error::{Error, ErrorKind, Refusal};
use crate::layout::{splice_children, texts};
use crate::parser::{output_string, parse_valid, pass_result};
use crate::sort::{lemma_children_after, opt_bytes};
use crate::syntax::{
    binding_components_of, field_child_of, node_text, normalize_key_of, text_of, unquote, unquote_bytes,
    Field, Kind, SyntaxTree,
};
use vstd::prelude::*;
use vstd::string::StringSliceAdditionalSpecFns;

verus! {

/// Whether `b` is an ASCII letter.
pub open spec fn is_alpha(b: u8) -> bool {
    (65u8 <= b && b <= 90u8) || (97u8 <= b && b <= 122u8)
}

/// Whether `b` may continue an identifier: a letter, a digit, `_`, `'` or `-`.
pub open spec fn is_ident_rest(b: u8) -> bool {
    is_alpha(b) || (48u8 <= b && b <= 57u8) || b == 95u8 || b == 39u8 || b == 45u8
}

/// The keywords of Nix, which no identifier may be: `assert`, `else`, `if`,
/// `in`, `inherit`, `let`, `or`, `rec`, `then` and `with`, in ASCII.
pub open spec fn is_keyword(s: Seq<u8>) -> bool {
    s == seq![97u8, 115, 115, 101, 114, 116] || s == seq![101u8, 108, 115, 101] || s == seq![105u8, 102]
        || s == seq![105u8, 110] || s == seq![105u8, 110, 104, 101, 114, 105, 116] || s == seq![
        108u8,
        101,
        116,
    ] || s == seq![111u8, 114] || s == seq![114u8, 101, 99] || s == seq![116u8, 104, 101, 110] || s
        == seq![119u8, 105, 116, 104]
}

/// Whether the UTF-8 text `s` is a Nix identifier: a letter or `_`, then
/// letters, digits, `_`, `'` and `-`, and not a keyword. Every byte of such
/// a name is ASCII, so bytes and characters agree.
pub open spec fn identifier(s: Seq<u8>) -> bool {
    &&& s.len() > 0
    &&& (is_alpha(s[0]) || s[0] == 95u8)
    &&& forall|j: int| 1 <= j < s.len() ==> is_ident_rest(#[trigger] s[j])
    &&& !is_keyword(s)
}

/// A name is an identifier exactly when it is not empty, starts with an
/// ASCII letter, upper or lower case, or `_`, continues with ASCII letters,
/// digits, `_`, `'` or `-`, and is none of the keywords `assert`, `else`,
/// `if`, `in`, `inherit`, `let`, `or`, `rec`, `then` and `with`.
pub proof fn lemma_identifier_exactly(s: Seq<u8>)
    ensures
        identifier(s) <==> {
            &&& s.len() > 0
            &&& (65u8 <= s[0] <= 90u8 || 97u8 <= s[0] <= 122u8 || s[0] == 95u8)
            &&& forall|j: int|
                1 <= j < s.len() ==> (65u8 <= #[trigger] s[j] <= 90u8 || 97u8 <= s[j] <= 122u8 || 48u8 <= s[j] <= 57u8
                    || s[j] == 95u8 || s[j] == 39u8 || s[j] == 45u8)
            &&& s != seq![97u8, 115, 115, 101, 114, 116]
            &&& s != seq![101u8, 108, 115, 101]
            &&& s != seq![105u8, 102]
            &&& s != seq![105u8, 110]
            &&& s != seq![105u8, 110, 104, 101, 114, 105, 116]
            &&& s != seq![108u8, 101, 116]
            &&& s != seq![111u8, 114]
            &&& s != seq![114u8, 101, 99]
            &&& s != seq![116u8, 104, 101, 110]
            &&& s != seq![119u8, 105, 116, 104]
        },
{
}

fn keyword(s: &[u8]) -> (r: bool)
    ensures
        r == is_keyword(s@),
{
    eq_lit(s, &[97u8, 115, 115, 101, 114, 116]) || eq_lit(s, &[101u8, 108, 115, 101]) || eq_lit(
        s,
        &[105u8, 102],
    ) || eq_lit(s, &[105u8, 110]) || eq_lit(s, &[105u8, 110, 104, 101, 114, 105, 116]) || eq_lit(
        s,
        &[108u8, 101, 116],
    ) || eq_lit(s, &[111u8, 114]) || eq_lit(s, &[114u8, 101, 99]) || eq_lit(s, &[116u8, 104, 101, 110])
        || eq_lit(s, &[119u8, 105, 116, 104])
}

fn eq_lit(s: &[u8], lit: &[u8]) -> (r: bool)
    ensures
        r == (s@ == lit@),
{
    crate::bytes::bytes_eq(s, lit)
}

fn is_identifier_bytes(s: &[u8]) -> (r: bool)
    ensures
        r == identifier(s@),
{
    if s.len() == 0 {
        return false;
    }
    let c0 = s[0];
    if !((65u8 <= c0 && c0 <= 90u8) || (97u8 <= c0 && c0 <= 122u8) || c0 == 95u8) {
        return false;
    }
    let mut k: usize = 1;
    while k < s.len()
        invariant
            1 <= k <= s@.len(),
            forall|j: int| 1 <= j < k ==> is_ident_rest(#[trigger] s@[j]),
        decreases s.len() - k,
    {
        let c = s[k];
        if !((65u8 <= c && c <= 90u8) || (97u8 <= c && c <= 122u8) || (48u8 <= c && c <= 57u8) || c
            == 95u8 || c == 39u8 || c == 45u8) {
            return false;
        }
        k += 1;
    }
    !keyword(s)
}

/// Whether `s` is a Nix identifier, and so may name an attribute unquoted.
pub fn is_identifier(s: &str) -> (r: bool)
    ensures
        r == identifier(s.spec_bytes()),
{
    is_identifier_bytes(s.as_bytes())
}

/// Node `i` as `style` writes it, where that differs from how it is written:
/// a quoted name that is an identifier loses its quotes, an identifier gains
/// them.
pub open spec fn restyled(src: Seq<u8>, t: SyntaxTree, i: int, style: NameStyle) -> Option<Seq<u8>> {
    let raw = text_of(src, t, i);
    match style {
        NameStyle::Preserve => None,
        NameStyle::Identifier => if t.nodes@[i].kind == Kind::StringExpression && unquote(raw) is Some
            && identifier(unquote(raw).unwrap()) {
            unquote(raw)
        } else {
            None
        },
        NameStyle::String => if t.nodes@[i].kind == Kind::Identifier && identifier(raw) {
            Some(seq![34u8] + raw + seq![34u8])
        } else {
            None
        },
    }
}

/// Restyling turns a quoted name whose inner text is an identifier into
/// that identifier under `identifier`, an identifier into the same name in
/// double quotes under `string`, and leaves every name as written under
/// `preserve`.
pub proof fn lemma_restyle_names(src: Seq<u8>, t: SyntaxTree, i: int)
    requires
        0 <= i < t.len(),
    ensures
        ({
            let text = src.subrange(t.nodes@[i].start as int, t.nodes@[i].end as int);
            &&& (t.nodes@[i].kind == Kind::StringExpression && text.len() >= 2 && text[0] == 34u8 && text[text.len()
                - 1] == 34u8 && identifier(text.subrange(1, text.len() - 1))) ==> restyled(
                src,
                t,
                i,
                NameStyle::Identifier,
            ) == Some(text.subrange(1, text.len() - 1))
            &&& (t.nodes@[i].kind == Kind::Identifier && identifier(text)) ==> restyled(src, t, i, NameStyle::String)
                == Some(seq![34u8] + text + seq![34u8])
            &&& restyled(src, t, i, NameStyle::Preserve) is None
        }),
{
}

pub fn restyle(src: &[u8], t: &SyntaxTree, i: usize, style: NameStyle) -> (r: Option<Vec<u8>>)
    requires
        t.wf(src@.len()),
        i < t.nodes@.len(),
    ensures
        match r {
            Some(v) => restyled(src@, *t, i as int, style) == Some(v@),
            None => restyled(src@, *t, i as int, style) is None,
        },
{
    match style {
        NameStyle::Preserve => None,
        NameStyle::Identifier => {
            if t.nodes[i].kind != Kind::StringExpression {
                return None;
            }
            let raw = node_text(src, t, i);
            match unquote_bytes(raw.as_slice()) {
                Some(inner) => {
                    if is_identifier_bytes(inner.as_slice()) {
                        Some(inner)
                    } else {
                        None
                    }
                },
                None => None,
            }
        },
        NameStyle::String => {
            if t.nodes[i].kind != Kind::Identifier {
                return None;
            }
            let raw = node_text(src, t, i);
            if !is_identifier_bytes(raw.as_slice()) {
                return None;
            }
            let mut v: Vec<u8> = Vec::new();
            v.push(34u8);
            push_all(&mut v, raw.as_slice());
            v.push(34u8);
            assert(v@ =~= seq![34u8] + raw@ + seq![34u8]);
            Some(v)
        },
    }
}

/// Which rules name a binding's names: those of `let` inside a `let`, those
/// of attribute sets inside a set, none elsewhere.
pub open spec fn binding_kind(t: SyntaxTree, i: int) -> Option<RuleKind> {
    match t.nodes@[i].parent {
        Some(p) => match t.nodes@[p as int].parent {
            Some(g) => {
                let k = t.nodes@[g as int].kind;
                if k == Kind::LetExpression {
                    Some(RuleKind::Lets)
                } else if k == Kind::AttrsetExpression || k == Kind::RecAttrsetExpression || k
                    == Kind::LetAttrsetExpression {
                    Some(RuleKind::Attrs)
                } else {
                    None
                }
            },
            None => None,
        },
        None => None,
    }
}

pub fn binding_kind_of(src: &[u8], t: &SyntaxTree, i: usize) -> (r: Option<RuleKind>)
    requires
        t.wf(src@.len()),
        i < t.nodes@.len(),
    ensures
        r == binding_kind(*t, i as int),
{
    proof {
        assert(t.node_wf(i as int, src@.len()));
    }
    match t.nodes[i].parent {
        Some(p) => {
            proof {
                assert(t.node_wf(p as int, src@.len()));
            }
            match t.nodes[p].parent {
                Some(g) => {
                    let k = t.nodes[g].kind;
                    if k == Kind::LetExpression {
                        Some(RuleKind::Lets)
                    } else if k == Kind::AttrsetExpression || k == Kind::RecAttrsetExpression || k
                        == Kind::LetAttrsetExpression {
                        Some(RuleKind::Attrs)
                    } else {
                        None
                    }
                },
                None => None,
            }
        },
        None => None,
    }
}

/// Node `c` with its names restyled, where it lies below node `i`.
pub open spec fn restyled_below(src: Seq<u8>, t: SyntaxTree, i: int, c: int, path: Seq<Seq<u8>>, cfg: Config) -> Option<
    Seq<u8>,
>
    decreases t.len() - i, 1int, 0int,
{
    if i < c < t.len() {
        names_rewrite(src, t, c, path, cfg)
    } else {
        None
    }
}

/// Node `i` with every name below it restyled by the rules at its path, or
/// nothing where no name changes. A binding's names go by the rules of the
/// set it is in, its value by the path it extends; `inherit` names by the
/// `inherit` rules.
pub open spec fn names_rewrite(src: Seq<u8>, t: SyntaxTree, i: int, path: Seq<Seq<u8>>, cfg: Config) -> Option<
    Seq<u8>,
>
    decreases t.len() - i, 3int, 0int,
{
    if i < 0 || i >= t.len() {
        None
    } else {
        crate::sort::splice_result(src, t, i, names_children_upto(src, t, i, path, cfg, t.n_children(i)))
    }
}

/// Child `c` of an `inherit` restyled by `style`, else rewritten below it.
pub open spec fn restyled_or_below(
    src: Seq<u8>,
    t: SyntaxTree,
    i: int,
    c: int,
    style: NameStyle,
    path: Seq<Seq<u8>>,
    cfg: Config,
) -> Option<Seq<u8>>
    decreases t.len() - i, 1int, 1int,
{
    match restyled(src, t, c, style) {
        Some(v) => Some(v),
        None => restyled_below(src, t, i, c, path, cfg),
    }
}

/// The first `j` children of node `i`, each rewritten.
pub open spec fn names_children_upto(
    src: Seq<u8>,
    t: SyntaxTree,
    i: int,
    path: Seq<Seq<u8>>,
    cfg: Config,
    j: int,
) -> Seq<Option<Seq<u8>>>
    decreases t.len() - i, 2int, j,
{
    if j <= 0 {
        seq![]
    } else {
        let c = t.nodes@[i].children@[j - 1];
        let before = names_children_upto(src, t, i, path, cfg, j - 1);
        let v = match t.nodes@[i].kind {
            Kind::Binding => {
                let inner = path + crate::syntax::binding_components(src, t, i);
                let to_value = crate::syntax::field_child(t, i, Field::Expression) == Some(c);
                match binding_kind(t, i) {
                    Some(k) => if t.nodes@[c as int].kind == Kind::Attrpath {
                        if i < c < t.len() {
                            attrpath_restyled(src, t, c as int, path, cfg, k)
                        } else {
                            None
                        }
                    } else if to_value {
                        restyled_below(src, t, i, c as int, inner, cfg)
                    } else {
                        restyled_below(src, t, i, c as int, path, cfg)
                    },
                    None => if to_value {
                        restyled_below(src, t, i, c as int, inner, cfg)
                    } else {
                        restyled_below(src, t, i, c as int, path, cfg)
                    },
                }
            },
            Kind::InheritedAttrs => restyled_or_below(
                src,
                t,
                i,
                c as int,
                cfg.rules_at_spec(RuleKind::Inherits, path).name_style,
                path,
                cfg,
            ),
            _ => restyled_below(src, t, i, c as int, path, cfg),
        };
        before.push(v)
    }
}

/// The path at the `j`-th child of attribute path `i`: `path` and the names
/// before it.
pub open spec fn path_within(src: Seq<u8>, t: SyntaxTree, i: int, path: Seq<Seq<u8>>, j: int) -> Seq<Seq<u8>>
    decreases j,
{
    if j <= 0 {
        path
    } else {
        let c = t.nodes@[i].children@[j - 1] as int;
        let before = path_within(src, t, i, path, j - 1);
        if !t.nodes@[c].named || t.nodes@[c].kind == Kind::Comment {
            before
        } else {
            before.push(crate::syntax::normalize_key(src, t, c))
        }
    }
}

/// Attribute path `i` with each of its names restyled by the rules of
/// `kind` at the path that leads to it.
pub open spec fn attrpath_restyled(
    src: Seq<u8>,
    t: SyntaxTree,
    i: int,
    path: Seq<Seq<u8>>,
    cfg: Config,
    kind: RuleKind,
) -> Option<Seq<u8>>
    decreases t.len() - i, 3int, 0int,
{
    crate::sort::splice_result(src, t, i, attrpath_children_upto(src, t, i, path, cfg, kind, t.n_children(i)))
}

/// The first `j` children of attribute path `i`, each restyled.
pub open spec fn attrpath_children_upto(
    src: Seq<u8>,
    t: SyntaxTree,
    i: int,
    path: Seq<Seq<u8>>,
    cfg: Config,
    kind: RuleKind,
    j: int,
) -> Seq<Option<Seq<u8>>>
    decreases t.len() - i, 2int, j,
{
    if j <= 0 {
        seq![]
    } else {
        let c = t.nodes@[i].children@[j - 1] as int;
        let at = path_within(src, t, i, path, j - 1);
        attrpath_children_upto(src, t, i, path, cfg, kind, j - 1).push(
            if !t.nodes@[c].named || t.nodes@[c].kind == Kind::Comment {
                None
            } else {
                restyled_or_below(src, t, i, c, cfg.rules_at_spec(kind, at).name_style, at, cfg)
            },
        )
    }
}

/// Node `i` with every name below it restyled by the rules at its path,
/// where one changes.
pub fn rewrite(src: &[u8], t: &SyntaxTree, i: usize, path: &Vec<Vec<u8>>, cfg: &Config) -> (r: Option<Vec<u8>>)
    requires
        t.wf(src@.len()),
        i < t.nodes@.len(),
    ensures
        !cfg.names_may_restyle_spec() ==> r is None,
        opt_bytes(r) == names_rewrite(src@, *t, i as int, strs(path@), *cfg),
    decreases t.nodes@.len() - i, 2nat,
{
    proof {
        lemma_children_after(*t, src@.len(), i as int);
    }
    let n = t.nodes[i].children.len();
    let mut rw: Vec<Option<Vec<u8>>> = Vec::new();
    match t.nodes[i].kind {
        Kind::Binding => {
            let kind = binding_kind_of(src, t, i);
            let expr = field_child_of(t, i, Field::Expression);
            let comps = binding_components_of(src, t, i);
            let mut inner = copy_strs(path);
            extend_strs(&mut inner, &comps);
            assert(strs(comps@) =~= crate::syntax::binding_components(src@, *t, i as int));
            let mut j: usize = 0;
            while j < n
                invariant
                    t.wf(src@.len()),
                    i < t.nodes@.len(),
                    t.nodes@[i as int].kind == Kind::Binding,
                    n == t.n_children(i as int),
                    j <= n,
                    rw@.len() == j,
                    forall|q: int| 0 <= q < t.n_children(i as int) ==> i < #[trigger] t.child(i as int, q) < t.len(),
                    !cfg.names_may_restyle_spec() ==> forall|q: int| 0 <= q < j ==> (#[trigger] rw@[q]) is None,
                    kind == binding_kind(*t, i as int),
                    expr == crate::syntax::field_child(*t, i as int, Field::Expression),
                    strs(inner@) == strs(path@) + crate::syntax::binding_components(src@, *t, i as int),
                    texts(rw@) == names_children_upto(src@, *t, i as int, strs(path@), *cfg, j as int),
                decreases n - j,
            {
                let c = t.nodes[i].children[j];
                assert(c == t.child(i as int, j as int));
                let ghost before = texts(rw@);
                let r = match kind {
                    Some(k) => if t.nodes[c].kind == Kind::Attrpath {
                        restyle_attrpath(src, t, c, path, cfg, k)
                    } else if expr == Some(c) {
                        rewrite(src, t, c, &inner, cfg)
                    } else {
                        rewrite(src, t, c, path, cfg)
                    },
                    None => if expr == Some(c) {
                        rewrite(src, t, c, &inner, cfg)
                    } else {
                        rewrite(src, t, c, path, cfg)
                    },
                };
                rw.push(r);
                assert(texts(rw@) =~= before.push(opt_bytes(r)));
                assert(t.nodes@[i as int].children@[j as int] == c);
                proof {
                    let inner_v = strs(path@) + crate::syntax::binding_components(src@, *t, i as int);
                    if kind is Some && t.nodes@[c as int].kind == Kind::Attrpath {
                    } else if expr == Some(c) {
                        assert(restyled_below(src@, *t, i as int, c as int, inner_v, *cfg) == opt_bytes(r));
                    } else {
                        assert(restyled_below(src@, *t, i as int, c as int, strs(path@), *cfg) == opt_bytes(r));
                    }
                }
                j += 1;
            }
        },
        Kind::InheritedAttrs => {
            let style = cfg.rules_at(RuleKind::Inherits, path).name_style;
            proof {
                if !cfg.names_may_restyle_spec() {
                    cfg.lemma_no_restyle(RuleKind::Inherits, strs(path@), cfg.overrides@.len() as int);
                }
            }
            let mut j: usize = 0;
            while j < n
                invariant
                    t.wf(src@.len()),
                    i < t.nodes@.len(),
                    n == t.n_children(i as int),
                    j <= n,
                    rw@.len() == j,
                    forall|q: int| 0 <= q < t.n_children(i as int) ==> i < #[trigger] t.child(i as int, q) < t.len(),
                    !cfg.names_may_restyle_spec() ==> forall|q: int| 0 <= q < j ==> (#[trigger] rw@[q]) is None,
                    !cfg.names_may_restyle_spec() ==> style == NameStyle::Preserve,
                    style == cfg.rules_at_spec(RuleKind::Inherits, strs(path@)).name_style,
                    t.nodes@[i as int].kind == Kind::InheritedAttrs,
                    texts(rw@) == names_children_upto(src@, *t, i as int, strs(path@), *cfg, j as int),
                decreases n - j,
            {
                let c = t.nodes[i].children[j];
                assert(c == t.child(i as int, j as int));
                let ghost before = texts(rw@);
                let r = match restyle(src, t, c, style) {
                    Some(v) => Some(v),
                    None => rewrite(src, t, c, path, cfg),
                };
                rw.push(r);
                assert(texts(rw@) =~= before.push(opt_bytes(r)));
                assert(t.nodes@[i as int].children@[j as int] == c);
                assert(restyled_or_below(src@, *t, i as int, c as int, style, strs(path@), *cfg) == opt_bytes(r));
                j += 1;
            }
        },
        _ => {
            let mut j: usize = 0;
            while j < n
                invariant
                    t.wf(src@.len()),
                    i < t.nodes@.len(),
                    n == t.n_children(i as int),
                    j <= n,
                    rw@.len() == j,
                    forall|q: int| 0 <= q < t.n_children(i as int) ==> i < #[trigger] t.child(i as int, q) < t.len(),
                    !cfg.names_may_restyle_spec() ==> forall|q: int| 0 <= q < j ==> (#[trigger] rw@[q]) is None,
                    t.nodes@[i as int].kind != Kind::Binding && t.nodes@[i as int].kind != Kind::InheritedAttrs,
                    texts(rw@) == names_children_upto(src@, *t, i as int, strs(path@), *cfg, j as int),
                decreases n - j,
            {
                let c = t.nodes[i].children[j];
                assert(c == t.child(i as int, j as int));
                let ghost before = texts(rw@);
                let r = rewrite(src, t, c, path, cfg);
                rw.push(r);
                assert(texts(rw@) =~= before.push(opt_bytes(r)));
                assert(t.nodes@[i as int].children@[j as int] == c);
                assert(restyled_below(src@, *t, i as int, c as int, strs(path@), *cfg) == opt_bytes(r));
                j += 1;
            }
        },
    }
    proof {
        if !cfg.names_may_restyle_spec() {
            assert(!crate::layout::any_rewritten(crate::layout::texts(rw@)));
        }
    }
    splice_children(src, t, i, &rw)
}

/// An attribute path with each of its names restyled by the rules at the
/// path that leads to it.
fn restyle_attrpath(
    src: &[u8],
    t: &SyntaxTree,
    i: usize,
    path: &Vec<Vec<u8>>,
    cfg: &Config,
    kind: RuleKind,
) -> (r: Option<Vec<u8>>)
    requires
        t.wf(src@.len()),
        i < t.nodes@.len(),
        kind == RuleKind::Attrs || kind == RuleKind::Lets,
    ensures
        !cfg.names_may_restyle_spec() ==> r is None,
        opt_bytes(r) == attrpath_restyled(src@, *t, i as int, strs(path@), *cfg, kind),
    decreases t.nodes@.len() - i, 1nat,
{
    proof {
        lemma_children_after(*t, src@.len(), i as int);
    }
    let n = t.nodes[i].children.len();
    let mut at = copy_strs(path);
    let mut rw: Vec<Option<Vec<u8>>> = Vec::new();
    let mut j: usize = 0;
    while j < n
        invariant
            t.wf(src@.len()),
            i < t.nodes@.len(),
            n == t.n_children(i as int),
            j <= n,
            rw@.len() == j,
            forall|q: int| 0 <= q < t.n_children(i as int) ==> i < #[trigger] t.child(i as int, q) < t.len(),
            !cfg.names_may_restyle_spec() ==> forall|q: int| 0 <= q < j ==> (#[trigger] rw@[q]) is None,
            kind == RuleKind::Attrs || kind == RuleKind::Lets,
            strs(at@) == path_within(src@, *t, i as int, strs(path@), j as int),
            texts(rw@) == attrpath_children_upto(src@, *t, i as int, strs(path@), *cfg, kind, j as int),
        decreases n - j,
    {
        let c = t.nodes[i].children[j];
        assert(c == t.child(i as int, j as int));
        let ghost before = texts(rw@);
        let ghost at_before = strs(at@);
        assert(t.nodes@[i as int].children@[j as int] == c);
        if !t.nodes[c].named || t.nodes[c].kind == Kind::Comment {
            rw.push(None);
            assert(texts(rw@) =~= before.push(None));
        } else {
            let style = cfg.rules_at(kind, &at).name_style;
            proof {
                if !cfg.names_may_restyle_spec() {
                    cfg.lemma_no_restyle(kind, strs(at@), cfg.overrides@.len() as int);
                }
            }
            let r = match restyle(src, t, c, style) {
                Some(v) => Some(v),
                None => rewrite(src, t, c, &at, cfg),
            };
            rw.push(r);
            assert(texts(rw@) =~= before.push(opt_bytes(r)));
            assert(restyled_or_below(src@, *t, i as int, c as int, style, at_before, *cfg) == opt_bytes(r));
            let key = normalize_key_of(src, t, c);
            at.push(key);
            assert(strs(at@) =~= at_before.push(key@));
        }
        j += 1;
    }
    proof {
        if !cfg.names_may_restyle_spec() {
            assert(!crate::layout::any_rewritten(crate::layout::texts(rw@)));
        }
    }
    splice_children(src, t, i, &rw)
}

/// The text that restyling makes of the syntax tree `t` of `src`: the
/// rewritten text, or `src` where no name changes.
pub open spec fn restyled_text(src: Seq<u8>, t: SyntaxTree, cfg: Config) -> Seq<u8> {
    match names_rewrite(src, t, 0, seq![], cfg) {
        Some(v) => v,
        None => src,
    }
}

/// Restyles the names of the source by the configuration. Input that is not
/// valid Nix is refused; input with nothing to restyle comes back as it is.
pub fn restyle_source(src: &str, cfg: &Config) -> (r: Result<String, Error>)
    ensures
        r matches Ok(out) ==> (!cfg.names_may_restyle_spec() ==> out@ == src@),
        pass_result(src@, r, Refusal::RestyleNames, |t: SyntaxTree| restyled_text(src.spec_bytes(), t, *cfg)),
{
    let ghost out = |t: SyntaxTree| restyled_text(src.spec_bytes(), t, *cfg);
    let t = match parse_valid(src, Refusal::RestyleNames) {
        Ok(t) => t,
        Err(e) => return Err(e),
    };
    let path: Vec<Vec<u8>> = Vec::new();
    assert(strs(path@) =~= Seq::<Seq<u8>>::empty());
    match rewrite(src.as_bytes(), &t, 0, &path, cfg) {
        Some(v) => {
            assert(v@ == out(t));
            output_string(v)
        },
        None => {
            let out_s = src.to_owned();
            assert(vstd::utf8::encode_utf8(out_s@) == src.spec_bytes());
            assert(vstd::utf8::valid_utf8(src.spec_bytes())) by {
                vstd::utf8::encode_utf8_valid_utf8(src@);
            }
            Ok(out_s)
        },
    }
}

} // verus!
