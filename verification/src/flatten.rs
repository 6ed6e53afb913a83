//! Flattening a binding whose value is a set of a single binding into one
//! attribute path: `a = { b = 1; };` becomes `a.b = 1;`.

use crate::bytes::{copy_strs, extend_strs, push_all, strs};
use crate::config::{Config, RuleKind};
use crate::error::{Error, ErrorKind, Refusal};
use crate::layout::{splice_children, texts};
use crate::parser::{output_string, parse_valid};
use crate::sort::{lemma_children_after, opt_bytes};
use crate::syntax::{
    binding_components_of, content_children, content_children_of, field_child, field_child_of,
    lemma_content_children_bounds, lemma_field_child_bounds, node_text, text_of, Field, Kind, SyntaxTree,
};
use vstd::prelude::*;
use vstd::string::StringSliceAdditionalSpecFns;

verus! {

/// Whether one of the children of node `i` is a comment.
pub open spec fn has_comment_child(t: SyntaxTree, i: int) -> bool {
    exists|j: int| 0 <= j < t.n_children(i) && t.nodes@[#[trigger] t.child(i, j)].kind == Kind::Comment
}

fn has_comment_child_of(src: &[u8], t: &SyntaxTree, i: usize) -> (r: bool)
    requires
        t.wf(src@.len()),
        i < t.nodes@.len(),
    ensures
        r == has_comment_child(*t, i as int),
{
    proof {
        lemma_children_after(*t, src@.len(), i as int);
    }
    let n = t.nodes[i].children.len();
    let mut j: usize = 0;
    while j < n
        invariant
            i < t.nodes@.len(),
            n == t.n_children(i as int),
            j <= n,
            forall|q: int| 0 <= q < t.n_children(i as int) ==> i < #[trigger] t.child(i as int, q) < t.len(),
            forall|q: int| 0 <= q < j ==> t.nodes@[#[trigger] t.child(i as int, q)].kind != Kind::Comment,
        decreases n - j,
    {
        let c = t.nodes[i].children[j];
        assert(c == t.child(i as int, j as int));
        match t.nodes[c].kind {
            Kind::Comment => return true,
            _ => {},
        }
        j += 1;
    }
    false
}

/// Whether binding `b` stands in a plain or recursive attribute set.
pub open spec fn in_attrset(t: SyntaxTree, b: int) -> bool {
    &&& t.nodes@[b].parent matches Some(p)
    &&& t.nodes@[p as int].kind == Kind::BindingSet
    &&& t.nodes@[p as int].parent matches Some(q)
    &&& (t.nodes@[q as int].kind == Kind::AttrsetExpression || t.nodes@[q as int].kind
        == Kind::RecAttrsetExpression)
}

/// The one binding that the value of binding `b` holds, where that value is
/// a plain attribute set of a single binding and no comment stands in `b`,
/// in the set or among its bindings.
pub open spec fn single_inner(t: SyntaxTree, b: int) -> Option<usize> {
    match field_child(t, b, Field::Expression) {
        Some(v) => {
            let cs = content_children(t, v as int);
            if t.nodes@[v as int].kind == Kind::AttrsetExpression && !has_comment_child(t, b) && !has_comment_child(
                t,
                v as int,
            ) && cs.len() == 1 && t.nodes@[cs[0] as int].kind == Kind::BindingSet {
                let inner = content_children(t, cs[0] as int);
                if !has_comment_child(t, cs[0] as int) && inner.len() == 1 && t.nodes@[inner[0] as int].kind
                    == Kind::Binding {
                    Some(inner[0])
                } else {
                    None
                }
            } else {
                None
            }
        },
        None => None,
    }
}

/// Binding `b` flattened: its attribute path, a dot, and the one binding its
/// value holds; nothing where it does not have that shape.
pub open spec fn flat_binding(src: Seq<u8>, t: SyntaxTree, b: int) -> Option<Seq<u8>> {
    if in_attrset(t, b) {
        match (field_child(t, b, Field::Attrpath), single_inner(t, b)) {
            (Some(ap), Some(b2)) => Some(text_of(src, t, ap as int) + seq![46u8] + text_of(src, t, b2 as int)),
            _ => None,
        }
    } else {
        None
    }
}

fn parent_kind_is_set(src: &[u8], t: &SyntaxTree, b: usize) -> (r: bool)
    requires
        t.wf(src@.len()),
        b < t.nodes@.len(),
    ensures
        r == in_attrset(*t, b as int),
{
    proof {
        assert(t.node_wf(b as int, src@.len()));
    }
    match t.nodes[b].parent {
        None => false,
        Some(p) => {
            proof {
                assert(t.node_wf(p as int, src@.len()));
            }
            match t.nodes[p].kind {
                Kind::BindingSet => match t.nodes[p].parent {
                    None => false,
                    Some(q) => match t.nodes[q].kind {
                        Kind::AttrsetExpression | Kind::RecAttrsetExpression => true,
                        _ => false,
                    },
                },
                _ => false,
            }
        },
    }
}

fn single_inner_of(src: &[u8], t: &SyntaxTree, b: usize) -> (r: Option<usize>)
    requires
        t.wf(src@.len()),
        b < t.nodes@.len(),
    ensures
        r == single_inner(*t, b as int),
        r matches Some(b2) ==> b < b2 < t.nodes@.len(),
{
    proof {
        lemma_field_child_bounds(*t, src@.len(), b as int, Field::Expression, 0);
    }
    let v = match field_child_of(t, b, Field::Expression) {
        None => return None,
        Some(v) => v,
    };
    proof {
        lemma_content_children_bounds(*t, src@.len(), v as int, t.n_children(v as int));
    }
    let is_set = match t.nodes[v].kind {
        Kind::AttrsetExpression => true,
        _ => false,
    };
    if !is_set || has_comment_child_of(src, t, b) || has_comment_child_of(src, t, v) {
        return None;
    }
    let cs = content_children_of(t, v);
    if cs.len() != 1 {
        return None;
    }
    let bs = cs[0];
    let is_bs = match t.nodes[bs].kind {
        Kind::BindingSet => true,
        _ => false,
    };
    if !is_bs {
        return None;
    }
    proof {
        lemma_content_children_bounds(*t, src@.len(), bs as int, t.n_children(bs as int));
    }
    if has_comment_child_of(src, t, bs) {
        return None;
    }
    let inner = content_children_of(t, bs);
    if inner.len() != 1 {
        return None;
    }
    match t.nodes[inner[0]].kind {
        Kind::Binding => Some(inner[0]),
        _ => None,
    }
}

fn flat_binding_of(src: &[u8], t: &SyntaxTree, b: usize) -> (r: Option<Vec<u8>>)
    requires
        t.wf(src@.len()),
        b < t.nodes@.len(),
    ensures
        opt_bytes(r) == flat_binding(src@, *t, b as int),
{
    if !parent_kind_is_set(src, t, b) {
        return None;
    }
    proof {
        lemma_field_child_bounds(*t, src@.len(), b as int, Field::Attrpath, 0);
    }
    let ap = match field_child_of(t, b, Field::Attrpath) {
        None => return None,
        Some(ap) => ap,
    };
    let b2 = match single_inner_of(src, t, b) {
        None => return None,
        Some(b2) => b2,
    };
    let mut out = node_text(src, t, ap);
    push_all(&mut out, &[46u8]);
    let inner = node_text(src, t, b2);
    push_all(&mut out, inner.as_slice());
    Some(out)
}

/// Node `c` with the bindings below it flattened, where it lies below node
/// `i`.
pub open spec fn flatten_below(src: Seq<u8>, t: SyntaxTree, i: int, c: int, path: Seq<Seq<u8>>, cfg: Config) -> Option<
    Seq<u8>,
>
    decreases t.len() - i, 1int, 0int,
{
    if i < c < t.len() {
        flatten_rewrite(src, t, c, path, cfg)
    } else {
        None
    }
}

/// Node `i` with the bindings at and below it flattened by the rules at the
/// path of the set each one holds, or nothing where nothing flattens. A
/// binding that flattens is replaced whole; one that does not passes the path
/// it extends on to its value.
pub open spec fn flatten_rewrite(src: Seq<u8>, t: SyntaxTree, i: int, path: Seq<Seq<u8>>, cfg: Config) -> Option<
    Seq<u8>,
>
    decreases t.len() - i, 5int, 0int,
{
    if i < 0 || i >= t.len() {
        None
    } else {
        match t.nodes@[i].kind {
            Kind::Binding => {
                let inner = path + crate::syntax::binding_components(src, t, i);
                if cfg.rules_at_spec(RuleKind::Attrs, inner).flatten && flat_binding(src, t, i) is Some {
                    flat_binding(src, t, i)
                } else {
                    crate::sort::splice_result(
                        src,
                        t,
                        i,
                        flatten_binding_children(src, t, i, path, inner, cfg, t.n_children(i)),
                    )
                }
            },
            _ => flatten_spliced(src, t, i, path, cfg),
        }
    }
}

/// The first `j` children of node `i`, each flattened at `path`.
pub open spec fn flatten_children_upto(
    src: Seq<u8>,
    t: SyntaxTree,
    i: int,
    path: Seq<Seq<u8>>,
    cfg: Config,
    j: int,
) -> Seq<Option<Seq<u8>>>
    decreases t.len() - i, 2int, j,
{
    if j <= 0 {
        seq![]
    } else {
        flatten_children_upto(src, t, i, path, cfg, j - 1).push(
            flatten_below(src, t, i, t.child(i, j - 1), path, cfg),
        )
    }
}

/// Node `i` with its children flattened at `path`.
pub open spec fn flatten_spliced(src: Seq<u8>, t: SyntaxTree, i: int, path: Seq<Seq<u8>>, cfg: Config) -> Option<
    Seq<u8>,
>
    decreases t.len() - i, 3int, 0int,
{
    crate::sort::splice_result(src, t, i, flatten_children_upto(src, t, i, path, cfg, t.n_children(i)))
}

/// The first `j` children of binding `i`: its value flattened at `inner`,
/// the others at `path`.
pub open spec fn flatten_binding_children(
    src: Seq<u8>,
    t: SyntaxTree,
    i: int,
    path: Seq<Seq<u8>>,
    inner: Seq<Seq<u8>>,
    cfg: Config,
    j: int,
) -> Seq<Option<Seq<u8>>>
    decreases t.len() - i, 2int, j,
{
    if j <= 0 {
        seq![]
    } else {
        let c = t.nodes@[i].children@[j - 1];
        flatten_binding_children(src, t, i, path, inner, cfg, j - 1).push(
            if field_child(t, i, Field::Expression) == Some(c) {
                flatten_below(src, t, i, c as int, inner, cfg)
            } else {
                flatten_below(src, t, i, c as int, path, cfg)
            },
        )
    }
}

fn splice_all(src: &[u8], t: &SyntaxTree, i: usize, path: &Vec<Vec<u8>>, cfg: &Config) -> (r: Option<Vec<u8>>)
    requires
        t.wf(src@.len()),
        i < t.nodes@.len(),
    ensures
        !cfg.attrs_may_flatten_spec() ==> r is None,
        opt_bytes(r) == flatten_spliced(src@, *t, i as int, strs(path@), *cfg),
    decreases t.nodes@.len() - i, 2nat,
{
    proof {
        lemma_children_after(*t, src@.len(), i as int);
    }
    let n = t.nodes[i].children.len();
    let mut rw: Vec<Option<Vec<u8>>> = Vec::new();
    let mut j: usize = 0;
    while j < n
        invariant
            t.wf(src@.len()),
            i < t.nodes@.len(),
            n == t.n_children(i as int),
            j <= n,
            rw@.len() == j,
            forall|q: int| 0 <= q < t.n_children(i as int) ==> i < #[trigger] t.child(i as int, q) < t.len(),
            !cfg.attrs_may_flatten_spec() ==> forall|q: int| 0 <= q < j ==> (#[trigger] rw@[q]) is None,
            texts(rw@) == flatten_children_upto(src@, *t, i as int, strs(path@), *cfg, j as int),
        decreases n - j,
    {
        let c = t.nodes[i].children[j];
        assert(c == t.child(i as int, j as int));
        let ghost before = texts(rw@);
        let x = rewrite(src, t, c, path, cfg);
        rw.push(x);
        assert(texts(rw@) =~= before.push(opt_bytes(x)));
        assert(flatten_below(src@, *t, i as int, c as int, strs(path@), *cfg) == opt_bytes(x));
        j += 1;
    }
    proof {
        if !cfg.attrs_may_flatten_spec() {
            assert(!crate::layout::any_rewritten(crate::layout::texts(rw@)));
        }
    }
    splice_children(src, t, i, &rw)
}

/// Node `i` with the bindings at and below it flattened by the rules at the
/// paths of their sets, where one changes.
pub fn rewrite(src: &[u8], t: &SyntaxTree, i: usize, path: &Vec<Vec<u8>>, cfg: &Config) -> (r: Option<Vec<u8>>)
    requires
        t.wf(src@.len()),
        i < t.nodes@.len(),
    ensures
        !cfg.attrs_may_flatten_spec() ==> r is None,
        opt_bytes(r) == flatten_rewrite(src@, *t, i as int, strs(path@), *cfg),
    decreases t.nodes@.len() - i, 4nat,
{
    match t.nodes[i].kind {
        Kind::Binding => {
            proof {
                lemma_children_after(*t, src@.len(), i as int);
            }
            let expr = field_child_of(t, i, Field::Expression);
            let comps = binding_components_of(src, t, i);
            let mut inner = copy_strs(path);
            extend_strs(&mut inner, &comps);
            assert(strs(comps@) =~= crate::syntax::binding_components(src@, *t, i as int));
            let ghost iv = strs(inner@);
            let rules = cfg.rules_at(RuleKind::Attrs, &inner);
            proof {
                if !cfg.attrs_may_flatten_spec() {
                    cfg.lemma_no_flatten(iv, cfg.overrides@.len() as int);
                }
            }
            if rules.flatten {
                match flat_binding_of(src, t, i) {
                    Some(v) => return Some(v),
                    None => {},
                }
            }
            let n = t.nodes[i].children.len();
            let mut rw: Vec<Option<Vec<u8>>> = Vec::new();
            let mut j: usize = 0;
            while j < n
                invariant
                    t.wf(src@.len()),
                    i < t.nodes@.len(),
                    n == t.n_children(i as int),
                    j <= n,
                    rw@.len() == j,
                    forall|q: int| 0 <= q < t.n_children(i as int) ==> i < #[trigger] t.child(i as int, q) < t.len(),
                    !cfg.attrs_may_flatten_spec() ==> forall|q: int| 0 <= q < j ==> (#[trigger] rw@[q]) is None,
                    expr == field_child(*t, i as int, Field::Expression),
                    iv == strs(inner@),
                    iv == strs(path@) + crate::syntax::binding_components(src@, *t, i as int),
                    texts(rw@) == flatten_binding_children(src@, *t, i as int, strs(path@), iv, *cfg, j as int),
                decreases n - j,
            {
                let c = t.nodes[i].children[j];
                assert(c == t.child(i as int, j as int));
                assert(t.nodes@[i as int].children@[j as int] == c);
                let ghost before = texts(rw@);
                let x = if expr == Some(c) {
                    rewrite(src, t, c, &inner, cfg)
                } else {
                    rewrite(src, t, c, path, cfg)
                };
                rw.push(x);
                assert(texts(rw@) =~= before.push(opt_bytes(x)));
                if expr == Some(c) {
                    assert(flatten_below(src@, *t, i as int, c as int, iv, *cfg) == opt_bytes(x));
                } else {
                    assert(flatten_below(src@, *t, i as int, c as int, strs(path@), *cfg) == opt_bytes(x));
                }
                j += 1;
            }
            proof {
                if !cfg.attrs_may_flatten_spec() {
                    assert(!crate::layout::any_rewritten(crate::layout::texts(rw@)));
                }
            }
            splice_children(src, t, i, &rw)
        },
        _ => splice_all(src, t, i, path, cfg),
    }
}

/// A binding of a plain or recursive attribute set whose value is a plain
/// set of a single binding, with no comment in between, flattens where the
/// rules at the path of that inner set say so: it becomes its attribute
/// path, a dot, and the inner binding.
pub proof fn lemma_flatten_binding(src: Seq<u8>, t: SyntaxTree, b: int, path: Seq<Seq<u8>>, cfg: Config)
    requires
        0 <= b < t.len(),
        t.nodes@[b].kind == Kind::Binding,
        t.nodes@[b].parent matches Some(p) && t.nodes@[p as int].kind == Kind::BindingSet && (t.nodes@[p as int].parent matches Some(
            q,
        ) && (t.nodes@[q as int].kind == Kind::AttrsetExpression || t.nodes@[q as int].kind
            == Kind::RecAttrsetExpression)),
        field_child(t, b, Field::Attrpath) is Some,
        single_inner(t, b) is Some,
        cfg.rules_at_spec(RuleKind::Attrs, path + crate::syntax::binding_components(src, t, b)).flatten,
    ensures
        flatten_rewrite(src, t, b, path, cfg) == Some(
            text_of(src, t, field_child(t, b, Field::Attrpath)->Some_0 as int) + seq![46u8] + text_of(
                src,
                t,
                single_inner(t, b)->Some_0 as int,
            ),
        ),
{
}

/// One round of flattening takes valid Nix `a` to `b`: something in the
/// syntax tree of `a` flattens, and `b` is the text that makes.
pub open spec fn flatten_round(a: Seq<char>, b: Seq<char>, cfg: Config) -> bool {
    exists|t: SyntaxTree|
        #![trigger crate::parser::nix_tree(t, a)]
        crate::parser::nix_valid(t, a) && flatten_rewrite(vstd::utf8::encode_utf8(a), t, 0, seq![], cfg) == Some(
            vstd::utf8::encode_utf8(b),
        )
}

/// Nothing more flattens in valid Nix `a`.
pub open spec fn flatten_settled(a: Seq<char>, cfg: Config) -> bool {
    exists|t: SyntaxTree|
        #![trigger crate::parser::nix_tree(t, a)]
        crate::parser::nix_valid(t, a) && flatten_rewrite(vstd::utf8::encode_utf8(a), t, 0, seq![], cfg) is None
}

/// A round of flattening valid Nix `a` makes text that is not UTF-8.
pub open spec fn flatten_output_invalid(a: Seq<char>, cfg: Config) -> bool {
    exists|t: SyntaxTree|
        #![trigger crate::parser::nix_tree(t, a)]
        crate::parser::nix_valid(t, a) && (flatten_rewrite(vstd::utf8::encode_utf8(a), t, 0, seq![], cfg) matches Some(
            v,
        ) && !vstd::utf8::valid_utf8(v))
}

/// `b` is what `k` rounds of flattening make of `a`.
pub open spec fn flattened_in(a: Seq<char>, b: Seq<char>, cfg: Config, k: nat) -> bool
    decreases k,
{
    if k == 0 {
        a == b
    } else {
        exists|m: Seq<char>| #[trigger] flatten_round(a, m, cfg) && flattened_in(m, b, cfg, (k - 1) as nat)
    }
}

/// How many rounds of flattening `src` runs at most: one more than it has
/// bytes.
pub open spec fn flatten_rounds(src: Seq<char>) -> nat {
    (vstd::utf8::encode_utf8(src).len() as usize) as nat + 1
}

/// `b` is what at most `bound` rounds of flattening make of `a`.
pub open spec fn flattened_within(a: Seq<char>, b: Seq<char>, cfg: Config, bound: int) -> bool {
    exists|k: nat| k <= bound && #[trigger] flattened_in(a, b, cfg, k)
}

/// One more round extends a run of rounds.
proof fn lemma_flattened_in_extend(a: Seq<char>, c: Seq<char>, n: Seq<char>, cfg: Config, k: nat)
    requires
        flattened_in(a, c, cfg, k),
        flatten_round(c, n, cfg),
    ensures
        flattened_in(a, n, cfg, k + 1),
    decreases k,
{
    if k == 0 {
        assert(flattened_in(n, n, cfg, 0));
        assert(flatten_round(a, n, cfg) && flattened_in(n, n, cfg, 0));
    } else {
        let m = choose|m: Seq<char>| #[trigger] flatten_round(a, m, cfg) && flattened_in(m, c, cfg, (k - 1) as nat);
        lemma_flattened_in_extend(m, c, n, cfg, (k - 1) as nat);
        assert(flatten_round(a, m, cfg) && flattened_in(m, n, cfg, k));
    }
}

/// Flattens the bindings of the source by the configuration, round after
/// round until nothing flattens: each round replaces `a = { b = ...; };`
/// by `a.b = ...;` wherever the rules at the path of the inner set flatten.
/// Each round removes a pair of braces, so the rounds stop within as many
/// as the source has bytes. Input that is not valid Nix is refused.
pub fn flatten_source(src: &str, cfg: &Config) -> (r: Result<String, Error>)
    ensures
        r matches Ok(out) ==> (!cfg.attrs_may_flatten_spec() ==> out@ == src@),
        r matches Ok(out) ==> flattened_within(src@, out@, *cfg, flatten_rounds(src@) as int),
        r matches Ok(out) ==> flatten_settled(out@, *cfg) || flattened_in(src@, out@, *cfg, flatten_rounds(src@)),
        r matches Err(e) ==> exists|m: Seq<char>, k: nat|
            #[trigger] flattened_in(src@, m, *cfg, k) && (crate::parser::parse_refusal(m, e, Refusal::Merge) || (
            e.kind is InvalidOutput && flatten_output_invalid(m, *cfg))),
        crate::parser::nix_refused(src@) ==> (r matches Err(e) && e.kind == ErrorKind::InvalidNix(Refusal::Merge)),
{
    let mut current = src.to_owned();
    let mut rounds = src.len();
    let ghost n = rounds as nat;
    loop
        invariant
            !cfg.attrs_may_flatten_spec() ==> current@ == src@,
            rounds <= n,
            flattened_in(src@, current@, *cfg, (n - rounds) as nat),
            n == src.len(),
            rounds == n ==> current@ == src@,
            rounds < n ==> !crate::parser::nix_refused(src@),
        decreases rounds,
    {
        let t = match parse_valid(current.as_str(), Refusal::Merge) {
            Ok(t) => t,
            Err(e) => return Err(e),
        };
        let path: Vec<Vec<u8>> = Vec::new();
        assert(strs(path@) =~= Seq::<Seq<u8>>::empty());
        match rewrite(current.as_str().as_bytes(), &t, 0, &path, cfg) {
            Some(v) => {
                let next = match output_string(v) {
                    Ok(x) => x,
                    Err(e) => return Err(e),
                };
                assert(flatten_round(current@, next@, *cfg));
                proof {
                    lemma_flattened_in_extend(src@, current@, next@, *cfg, (n - rounds) as nat);
                }
                current = next;
            },
            None => {
                assert(flatten_settled(current@, *cfg));
                let ghost k: nat = (n - rounds) as nat;
                assert(flattened_in(src@, current@, *cfg, k));
                assert(flattened_within(src@, current@, *cfg, src.len() + 1));
                return Ok(current);
            },
        }
        if rounds == 0 {
            assert(flattened_in(src@, current@, *cfg, (n - rounds + 1) as nat));
            assert(flattened_within(src@, current@, *cfg, src.len() + 1));
            return Ok(current);
        }
        rounds -= 1;
    }
}

} // verus!
