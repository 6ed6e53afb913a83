//! Merging bindings that share their first attribute-path component into
//! one nested set: `a.b = 1; a.c = 2;` becomes `a = { b = 1; c = 2; };`.

use crate::bytes::{copy_bytes, copy_strs, extend_strs, push_all, push_range, strs};
use crate::config::{Config, RuleKind};
use crate::error::{Error, ErrorKind, Refusal};
use crate::layout::{
    container_region, indent_of, item_in, join_blocks, render_item, splice_children, splice_region, texts, Item,
};
use crate::parser::{output_string, parse_valid};
use crate::sort::{all_after, lemma_children_after, lemma_region_after, opt_bytes};
use crate::syntax::{
    binding_components_of, field_child, field_child_of, has_interpolation, has_interpolation_child,
    inherit_names_of, lemma_field_child_bounds, node_text, normalize_key, normalize_key_of, text_of, Field,
    Kind, SyntaxTree,
};
use vstd::prelude::*;
use vstd::string::StringSliceAdditionalSpecFns;

verus! {

/// The named children of node `i` among its first `k`, comments included.
pub open spec fn named_children_upto(t: SyntaxTree, i: int, k: int) -> Seq<usize>
    decreases k,
{
    if k <= 0 {
        seq![]
    } else {
        let c = t.nodes@[i].children@[k - 1];
        named_children_upto(t, i, k - 1) + if (c as int) < t.nodes@.len() && t.nodes@[c as int].named {
            seq![c]
        } else {
            seq![]
        }
    }
}

/// The components of a binding's attribute path, unless a comment sits
/// among them.
pub open spec fn comp_nodes(t: SyntaxTree, b: int) -> Option<Seq<usize>> {
    match field_child(t, b, Field::Attrpath) {
        Some(ap) => {
            let cs = named_children_upto(t, ap as int, t.n_children(ap as int));
            if exists|q: int| 0 <= q < cs.len() && t.nodes@[#[trigger] cs[q] as int].kind == Kind::Comment {
                None
            } else {
                Some(cs)
            }
        },
        None => None,
    }
}

proof fn lemma_named_children_bounds(t: SyntaxTree, n_src: nat, i: int, k: int)
    requires
        t.wf(n_src),
        0 <= i < t.len(),
        0 <= k <= t.n_children(i),
    ensures
        forall|q: int| 0 <= q < named_children_upto(t, i, k).len() ==> {
            let c = #[trigger] named_children_upto(t, i, k)[q];
            &&& i < c < t.len()
            &&& t.nodes@[i].start <= t.nodes@[c as int].start
            &&& t.nodes@[c as int].end <= t.nodes@[i].end
        },
    decreases k,
{
    if k > 0 {
        lemma_named_children_bounds(t, n_src, i, k - 1);
        assert(t.node_wf(i, n_src));
        assert(t.child_ok(i, k - 1));
        let prev = named_children_upto(t, i, k - 1);
        let all = named_children_upto(t, i, k);
        assert forall|q: int| 0 <= q < all.len() implies {
            let c = #[trigger] all[q];
            &&& i < c < t.len()
            &&& t.nodes@[i].start <= t.nodes@[c as int].start
            &&& t.nodes@[c as int].end <= t.nodes@[i].end
        } by {
            if q < prev.len() {
                assert(all[q] == prev[q]);
            }
        }
    }
}

fn comp_nodes_of(src: &[u8], t: &SyntaxTree, b: usize) -> (r: Option<Vec<usize>>)
    requires
        t.wf(src@.len()),
        b < t.nodes@.len(),
    ensures
        match r {
            Some(v) => comp_nodes(*t, b as int) == Some(v@) && forall|q: int|
                0 <= q < v@.len() ==> {
                    let c = #[trigger] v@[q];
                    &&& b < c < t.len()
                    &&& t.nodes@[c as int].end <= t.nodes@[b as int].end
                },
            None => comp_nodes(*t, b as int) is None,
        },
{
    proof {
        lemma_field_child_bounds(*t, src@.len(), b as int, Field::Attrpath, 0);
        lemma_field_child_nested(*t, src@.len(), b as int, Field::Attrpath, 0);
    }
    let ap = match field_child_of(t, b, Field::Attrpath) {
        Some(ap) => ap,
        None => return None,
    };
    let n = t.nodes[ap].children.len();
    let mut cs: Vec<usize> = Vec::new();
    let mut k: usize = 0;
    while k < n
        invariant
            ap < t.nodes@.len(),
            n == t.n_children(ap as int),
            k <= n,
            cs@ == named_children_upto(*t, ap as int, k as int),
        decreases n - k,
    {
        let c = t.nodes[ap].children[k];
        if c < t.nodes.len() && t.nodes[c].named {
            cs.push(c);
        }
        k += 1;
    }
    proof {
        lemma_named_children_bounds(*t, src@.len(), ap as int, n as int);
    }
    let mut q: usize = 0;
    while q < cs.len()
        invariant
            q <= cs@.len(),
            b < ap < t.nodes@.len(),
            cs@ == named_children_upto(*t, ap as int, n as int),
            n == t.n_children(ap as int),
            crate::syntax::field_child(*t, b as int, Field::Attrpath) == Some(ap),
            t.nodes@[ap as int].end <= t.nodes@[b as int].end,
            forall|x: int| 0 <= x < cs@.len() ==> {
                let c = #[trigger] cs@[x];
                &&& ap < c < t.len()
                &&& t.nodes@[c as int].end <= t.nodes@[ap as int].end
            },
            forall|x: int| 0 <= x < q ==> t.nodes@[#[trigger] cs@[x] as int].kind != Kind::Comment,
        decreases cs.len() - q,
    {
        if t.nodes[cs[q]].kind == Kind::Comment {
            assert(t.nodes@[cs@[q as int] as int].kind == Kind::Comment);
            return None;
        }
        q += 1;
    }
    Some(cs)
}

/// Whether a head names its attribute without evaluation: an identifier, or
/// a string without interpolation. Two bindings under one dynamic head are an
/// error in Nix, so merging them would change what the file means.
pub open spec fn static_head(t: SyntaxTree, c: int) -> bool {
    t.nodes@[c].kind == Kind::Identifier || (t.nodes@[c].kind == Kind::StringExpression
        && !has_interpolation(t, c))
}

/// The head under which a binding may merge: the first component of a path
/// of two or more whose head is static.
pub open spec fn merge_head(src: Seq<u8>, t: SyntaxTree, b: int) -> Option<Seq<u8>> {
    if t.nodes@[b].kind != Kind::Binding {
        None
    } else {
        match comp_nodes(t, b) {
            Some(cs) => if cs.len() >= 2 && static_head(t, cs[0] as int) {
                Some(normalize_key(src, t, cs[0] as int))
            } else {
                None
            },
            None => None,
        }
    }
}

/// The names that keep a head from merging because the set binds them as a
/// whole: a binding of a single component, and every name an `inherit`
/// brings in.
pub open spec fn blocked_names(src: Seq<u8>, t: SyntaxTree, b: int) -> Seq<Seq<u8>> {
    let k = t.nodes@[b].kind;
    if k == Kind::Binding {
        match comp_nodes(t, b) {
            Some(cs) => if cs.len() == 1 {
                seq![normalize_key(src, t, cs[0] as int)]
            } else {
                seq![]
            },
            None => seq![],
        }
    } else if k == Kind::Inherit || k == Kind::InheritFrom {
        crate::syntax::inherit_names(src, t, b)
    } else {
        seq![]
    }
}

fn merge_head_of(src: &[u8], t: &SyntaxTree, b: usize) -> (r: Option<Vec<u8>>)
    requires
        t.wf(src@.len()),
        b < t.nodes@.len(),
    ensures
        match r {
            Some(v) => merge_head(src@, *t, b as int) == Some(v@),
            None => merge_head(src@, *t, b as int) is None,
        },
{
    if t.nodes[b].kind != Kind::Binding {
        return None;
    }
    match comp_nodes_of(src, t, b) {
        Some(cs) => {
            if cs.len() >= 2 {
                let h = cs[0];
                let is_static = t.nodes[h].kind == Kind::Identifier || (t.nodes[h].kind
                    == Kind::StringExpression && !has_interpolation_child(t, h));
                if is_static {
                    return Some(normalize_key_of(src, t, h));
                }
            }
            None
        },
        None => None,
    }
}

fn blocked_names_of(src: &[u8], t: &SyntaxTree, b: usize) -> (r: Vec<Vec<u8>>)
    requires
        t.wf(src@.len()),
        b < t.nodes@.len(),
    ensures
        strs(r@) == blocked_names(src@, *t, b as int),
{
    let k = t.nodes[b].kind;
    if k == Kind::Binding {
        match comp_nodes_of(src, t, b) {
            Some(cs) => {
                if cs.len() == 1 {
                    let mut v: Vec<Vec<u8>> = Vec::new();
                    v.push(normalize_key_of(src, t, cs[0]));
                    assert(strs(v@) =~= blocked_names(src@, *t, b as int));
                    return v;
                }
                let v: Vec<Vec<u8>> = Vec::new();
                assert(strs(v@) =~= blocked_names(src@, *t, b as int));
                v
            },
            None => {
                let v: Vec<Vec<u8>> = Vec::new();
                assert(strs(v@) =~= blocked_names(src@, *t, b as int));
                v
            },
        }
    } else if k == Kind::Inherit || k == Kind::InheritFrom {
        inherit_names_of(src, t, b)
    } else {
        let v: Vec<Vec<u8>> = Vec::new();
        assert(strs(v@) =~= blocked_names(src@, *t, b as int));
        v
    }
}

/// The first position at or after `k` whose head is `h`.
pub open spec fn first_with(heads: Seq<Option<Seq<u8>>>, h: Seq<u8>, k: int) -> Option<int>
    decreases heads.len() - k,
{
    if k < 0 || k >= heads.len() {
        None
    } else if heads[k] == Some(h) {
        Some(k)
    } else {
        first_with(heads, h, k + 1)
    }
}

/// Whether another item shares the head of item `j`.
pub open spec fn shared(heads: Seq<Option<Seq<u8>>>, j: int) -> bool {
    exists|k: int| 0 <= k < heads.len() && k != j && #[trigger] heads[k] == heads[j]
}

/// Where item `j` goes: into the group that the first item with its head
/// starts, where its head is shared and not blocked; nowhere else.
pub open spec fn plan_entry(heads: Seq<Option<Seq<u8>>>, blocked: Seq<Seq<u8>>, j: int) -> Option<int> {
    match heads[j] {
        Some(h) => if !blocked.contains(h) && shared(heads, j) {
            first_with(heads, h, 0)
        } else {
            None
        },
        None => None,
    }
}

pub open spec fn heads_view(heads: Seq<Option<Vec<u8>>>) -> Seq<Option<Seq<u8>>> {
    heads.map_values(|x: Option<Vec<u8>>|
        match x {
            Some(v) => Some(v@),
            None => None,
        })
}

proof fn lemma_first_with_bounds(heads: Seq<Option<Seq<u8>>>, h: Seq<u8>, k: int)
    requires
        0 <= k,
    ensures
        first_with(heads, h, k) matches Some(f) ==> k <= f < heads.len() && heads[f] == Some(h),
    decreases heads.len() - k,
{
    if k < heads.len() {
        lemma_first_with_bounds(heads, h, k + 1);
    }
}

fn opt_eq(a: &Option<Vec<u8>>, b: &Vec<u8>) -> (r: bool)
    ensures
        r == (match a {
            Some(v) => v@ == b@,
            None => false,
        }),
{
    match a {
        Some(v) => crate::bytes::bytes_eq(v.as_slice(), b.as_slice()),
        None => false,
    }
}

/// For each item, the first item of the group it merges into, if any.
pub fn merge_plan(heads: &Vec<Option<Vec<u8>>>, blocked: &Vec<Vec<u8>>) -> (r: Vec<Option<usize>>)
    ensures
        r@.len() == heads@.len(),
        forall|j: int|
            0 <= j < heads@.len() ==> (match #[trigger] r@[j] {
                Some(f) => plan_entry(heads_view(heads@), strs(blocked@), j) == Some(f as int),
                None => plan_entry(heads_view(heads@), strs(blocked@), j) is None,
            }),
{
    let ghost hv = heads_view(heads@);
    let ghost bv = strs(blocked@);
    let n = heads.len();
    let mut plan: Vec<Option<usize>> = Vec::new();
    let mut j: usize = 0;
    while j < n
        invariant
            j <= n == heads@.len(),
            hv == heads_view(heads@),
            bv == strs(blocked@),
            plan@.len() == j,
            forall|x: int|
                0 <= x < j ==> (match #[trigger] plan@[x] {
                    Some(f) => plan_entry(hv, bv, x) == Some(f as int),
                    None => plan_entry(hv, bv, x) is None,
                }),
        decreases n - j,
    {
        assert(hv[j as int] == match heads@[j as int] {
            Some(v) => Some(v@),
            None => None,
        });
        let entry = match &heads[j] {
            None => None,
            Some(h) => {
                let mut is_blocked = false;
                let mut b: usize = 0;
                while b < blocked.len()
                    invariant
                        b <= blocked@.len(),
                        bv == strs(blocked@),
                        is_blocked == exists|x: int| 0 <= x < b && #[trigger] bv[x] == h@,
                    decreases blocked.len() - b,
                {
                    assert(bv[b as int] == blocked@[b as int]@);
                    if crate::bytes::bytes_eq(blocked[b].as_slice(), h.as_slice()) {
                        is_blocked = true;
                    }
                    b += 1;
                }
                if is_blocked {
                    assert(bv.contains(h@));
                    None
                } else {
                    let mut first: Option<usize> = None;
                    let mut other = false;
                    let mut k: usize = 0;
                    while k < n
                        invariant
                            k <= n == heads@.len(),
                            j < n,
                            hv == heads_view(heads@),
                            hv[j as int] == Some(h@),
                            match first {
                                Some(f) => first_with(hv, h@, 0) == Some(f as int),
                                None => first_with(hv, h@, 0) == first_with(hv, h@, k as int),
                            },
                            other == exists|x: int| 0 <= x < k && x != j && #[trigger] hv[x] == hv[j as int],
                        decreases n - k,
                    {
                        assert(hv[k as int] == match heads@[k as int] {
                            Some(v) => Some(v@),
                            None => None,
                        });
                        if opt_eq(&heads[k], h) {
                            if first.is_none() {
                                first = Some(k);
                            }
                            if k != j {
                                other = true;
                            }
                        }
                        k += 1;
                    }
                    if other {
                        first
                    } else {
                        None
                    }
                }
            },
        };
        plan.push(entry);
        j += 1;
    }
    plan
}

/// A binding written inside the set its head opens: the text from its
/// second component on.
pub open spec fn inner_binding(src: Seq<u8>, t: SyntaxTree, b: int) -> Option<Seq<u8>> {
    match comp_nodes(t, b) {
        Some(cs) => if cs.len() >= 2 {
            Some(src.subrange(t.nodes@[cs[1] as int].start as int, t.nodes@[b].end as int))
        } else {
            None
        },
        None => None,
    }
}

fn inner_binding_of(src: &[u8], t: &SyntaxTree, b: usize) -> (r: Option<Vec<u8>>)
    requires
        t.wf(src@.len()),
        b < t.nodes@.len(),
    ensures
        match r {
            Some(v) => inner_binding(src@, *t, b as int) == Some(v@),
            None => inner_binding(src@, *t, b as int) is None,
        },
{
    match comp_nodes_of(src, t, b) {
        Some(cs) => {
            if cs.len() >= 2 {
                let c = cs[1];
                proof {
                    assert(t.node_wf(b as int, src@.len()));
                    assert(t.node_wf(c as int, src@.len()));
                }
                let mut v: Vec<u8> = Vec::new();
                push_range(&mut v, src, t.nodes[c].start, t.nodes[b].end);
                return Some(v);
            }
            None
        },
        None => None,
    }
}

/// A field child of node `i` nests inside it.
proof fn lemma_field_child_nested(t: SyntaxTree, n_src: nat, i: int, f: Field, k: int)
    requires
        t.wf(n_src),
        0 <= i < t.len(),
        0 <= k,
    ensures
        crate::syntax::field_child_from(t, i, f, k) matches Some(c) ==> t.nodes@[c as int].end <= t.nodes@[i].end,
    decreases t.n_children(i) - k,
{
    if k < t.n_children(i) {
        assert(t.node_wf(i, n_src));
        assert(t.child_ok(i, k));
        lemma_field_child_nested(t, n_src, i, f, k + 1);
    }
}

/// The head a group merges under, as its first binding writes it.
pub open spec fn head_text(src: Seq<u8>, t: SyntaxTree, b: int) -> Seq<u8> {
    match comp_nodes(t, b) {
        Some(cs) => if cs.len() > 0 {
            text_of(src, t, cs[0] as int)
        } else {
            seq![]
        },
        None => seq![],
    }
}

fn head_text_of(src: &[u8], t: &SyntaxTree, b: usize) -> (r: Vec<u8>)
    requires
        t.wf(src@.len()),
        b < t.nodes@.len(),
    ensures
        r@ == head_text(src@, *t, b as int),
{
    match comp_nodes_of(src, t, b) {
        Some(cs) => if cs.len() > 0 {
            node_text(src, t, cs[0])
        } else {
            Vec::new()
        },
        None => Vec::new(),
    }
}

/// The inner bindings of a merged group: each member from its second
/// component on, with its comments, separated by `inner_sep`.
pub open spec fn group_inner(
    src: Seq<u8>,
    t: SyntaxTree,
    items: Seq<crate::layout::ItemView>,
    group: Seq<usize>,
    inner_sep: Seq<u8>,
) -> Seq<Seq<u8>> {
    group.map_values(|g: usize|
        crate::layout::item_text(
            src,
            t,
            items[g as int],
            inner_binding(src, t, items[g as int].node as int),
            inner_sep,
            seq![],
        ))
}

/// A group written as one binding: the head, then a set that holds each
/// member's inner binding.
pub open spec fn merged_text(
    src: Seq<u8>,
    t: SyntaxTree,
    items: Seq<crate::layout::ItemView>,
    group: Seq<usize>,
    sep: Seq<u8>,
    inner_sep: Seq<u8>,
) -> Seq<u8> {
    head_text(src, t, items[group[0] as int].node as int) + seq![32u8, 61u8, 32u8, 123u8] + inner_sep
        + crate::layout::join(group_inner(src, t, items, group, inner_sep), inner_sep) + sep + seq![125u8, 59u8]
}

fn render_merged(
    src: &[u8],
    t: &SyntaxTree,
    items: &Vec<Item>,
    group: &Vec<usize>,
    sep: &Vec<u8>,
    inner_sep: &Vec<u8>,
) -> (r: Vec<u8>)
    requires
        t.wf(src@.len()),
        group@.len() > 0,
        forall|q: int| 0 <= q < group@.len() ==> (#[trigger] group@[q] as int) < items@.len(),
        forall|x: int| 0 <= x < items@.len() ==> item_in(*t, (#[trigger] items@[x])@),
    ensures
        r@ == merged_text(src@, *t, crate::layout::item_views(items@), group@, sep@, inner_sep@),
{
    let ghost iv = crate::layout::item_views(items@);
    assert(iv[group@[0] as int] == items@[group@[0] as int]@);
    let head = head_text_of(src, t, items[group[0]].node);
    let mut inner: Vec<Vec<u8>> = Vec::new();
    let mut q: usize = 0;
    while q < group.len()
        invariant
            t.wf(src@.len()),
            q <= group@.len(),
            iv == crate::layout::item_views(items@),
            forall|x: int| 0 <= x < group@.len() ==> (#[trigger] group@[x] as int) < items@.len(),
            forall|x: int| 0 <= x < items@.len() ==> item_in(*t, (#[trigger] items@[x])@),
            inner@.map_values(|b: Vec<u8>| b@) == group_inner(src@, *t, iv, group@.take(q as int), inner_sep@),
        decreases group.len() - q,
    {
        let it = &items[group[q]];
        assert(iv[group@[q as int] as int] == it@);
        let body = inner_binding_of(src, t, it.node);
        let block = render_item(src, t, it, &body, inner_sep, &[]);
        let ghost before = inner@.map_values(|b: Vec<u8>| b@);
        inner.push(block);
        q += 1;
        assert(inner@.map_values(|b: Vec<u8>| b@) =~= before.push(block@));
        assert(group@.take(q as int) =~= group@.take(q - 1).push(group@[q - 1]));
        assert(group_inner(src@, *t, iv, group@.take(q as int), inner_sep@) =~= group_inner(
            src@,
            *t,
            iv,
            group@.take(q - 1),
            inner_sep@,
        ).push(block@));
    }
    assert(group@.take(q as int) =~= group@);
    let joined = join_blocks(&inner, inner_sep.as_slice());
    let mut out: Vec<u8> = Vec::new();
    push_all(&mut out, head.as_slice());
    push_all(&mut out, &[32u8, 61u8, 32u8, 123u8]);
    push_all(&mut out, inner_sep.as_slice());
    push_all(&mut out, joined.as_slice());
    push_all(&mut out, sep.as_slice());
    push_all(&mut out, &[125u8, 59u8]);
    out
}

/// Node `c` with the sets below it merged, where it lies below node `i`.
pub open spec fn merge_below(src: Seq<u8>, t: SyntaxTree, i: int, c: int, path: Seq<Seq<u8>>, cfg: Config) -> Option<
    Seq<u8>,
>
    decreases t.len() - i, 1int, 0int,
{
    if i < c < t.len() {
        merge_rewrite(src, t, c, path, cfg)
    } else {
        None
    }
}

/// Node `i` with every set below it merged by the rules at its path, or
/// nothing where nothing merges. A binding passes the path it extends on to
/// its value.
pub open spec fn merge_rewrite(src: Seq<u8>, t: SyntaxTree, i: int, path: Seq<Seq<u8>>, cfg: Config) -> Option<
    Seq<u8>,
>
    decreases t.len() - i, 5int, 0int,
{
    if i < 0 || i >= t.len() {
        None
    } else {
        match t.nodes@[i].kind {
            Kind::AttrsetExpression | Kind::RecAttrsetExpression | Kind::LetAttrsetExpression => merged_container(
                src,
                t,
                i,
                path,
                cfg,
            ),
            Kind::Binding => crate::sort::splice_result(
                src,
                t,
                i,
                merge_binding_children(
                    src,
                    t,
                    i,
                    path,
                    path + crate::syntax::binding_components(src, t, i),
                    cfg,
                    t.n_children(i),
                ),
            ),
            _ => merge_spliced(src, t, i, path, cfg),
        }
    }
}

/// The first `j` children of node `i`, each merged at `path`.
pub open spec fn merge_children_upto(
    src: Seq<u8>,
    t: SyntaxTree,
    i: int,
    path: Seq<Seq<u8>>,
    cfg: Config,
    j: int,
) -> Seq<Option<Seq<u8>>>
    decreases t.len() - i, 2int, j,
{
    if j <= 0 {
        seq![]
    } else {
        merge_children_upto(src, t, i, path, cfg, j - 1).push(
            merge_below(src, t, i, t.child(i, j - 1), path, cfg),
        )
    }
}

/// Node `i` with its children merged at `path`.
pub open spec fn merge_spliced(src: Seq<u8>, t: SyntaxTree, i: int, path: Seq<Seq<u8>>, cfg: Config) -> Option<
    Seq<u8>,
>
    decreases t.len() - i, 3int, 0int,
{
    crate::sort::splice_result(src, t, i, merge_children_upto(src, t, i, path, cfg, t.n_children(i)))
}

/// The first `j` children of binding `i`: its value merged at `inner`, the
/// others at `path`.
pub open spec fn merge_binding_children(
    src: Seq<u8>,
    t: SyntaxTree,
    i: int,
    path: Seq<Seq<u8>>,
    inner: Seq<Seq<u8>>,
    cfg: Config,
    j: int,
) -> Seq<Option<Seq<u8>>>
    decreases t.len() - i, 2int, j,
{
    if j <= 0 {
        seq![]
    } else {
        let c = t.nodes@[i].children@[j - 1];
        merge_binding_children(src, t, i, path, inner, cfg, j - 1).push(
            if field_child(t, i, Field::Expression) == Some(c) {
                merge_below(src, t, i, c as int, inner, cfg)
            } else {
                merge_below(src, t, i, c as int, path, cfg)
            },
        )
    }
}

/// The first `j` children of container `i` merged at `path`, but for its
/// region `s..=e`.
pub open spec fn merge_outside_upto(
    src: Seq<u8>,
    t: SyntaxTree,
    i: int,
    s: int,
    e: int,
    path: Seq<Seq<u8>>,
    cfg: Config,
    j: int,
) -> Seq<Option<Seq<u8>>>
    decreases t.len() - i, 2int, j,
{
    if j <= 0 {
        seq![]
    } else {
        merge_outside_upto(src, t, i, s, e, path, cfg, j - 1).push(
            if s <= j - 1 <= e {
                None
            } else {
                merge_below(src, t, i, t.child(i, j - 1), path, cfg)
            },
        )
    }
}

/// The merge heads of the items.
pub open spec fn item_heads(src: Seq<u8>, t: SyntaxTree, items: Seq<crate::layout::ItemView>) -> Seq<Option<Seq<u8>>> {
    Seq::new(items.len(), |k: int| merge_head(src, t, items[k].node as int))
}

/// The names the first `k` items keep from merging, in order.
pub open spec fn items_blocked(src: Seq<u8>, t: SyntaxTree, items: Seq<crate::layout::ItemView>, k: int) -> Seq<
    Seq<u8>,
>
    decreases k,
{
    if k <= 0 {
        seq![]
    } else {
        items_blocked(src, t, items, k - 1) + blocked_names(src, t, items[k - 1].node as int)
    }
}

/// The group each item goes into.
pub open spec fn item_plan(src: Seq<u8>, t: SyntaxTree, items: Seq<crate::layout::ItemView>) -> Seq<Option<int>> {
    let heads = item_heads(src, t, items);
    let blocked = items_blocked(src, t, items, items.len() as int);
    Seq::new(items.len(), |j: int| plan_entry(heads, blocked, j))
}

/// The items among the first `g` that go into the group of item `f`.
pub open spec fn group_members(plan: Seq<Option<int>>, f: int, g: int) -> Seq<usize>
    decreases g,
{
    if g <= 0 {
        seq![]
    } else if plan[g - 1] == Some(f) {
        group_members(plan, f, g - 1).push((g - 1) as usize)
    } else {
        group_members(plan, f, g - 1)
    }
}

/// The blocks of the first `k` items: each group once, where its first item
/// stands, and each item that goes into none with its node merged.
pub open spec fn merge_blocks(
    src: Seq<u8>,
    t: SyntaxTree,
    i: int,
    items: Seq<crate::layout::ItemView>,
    plan: Seq<Option<int>>,
    sep: Seq<u8>,
    inner_sep: Seq<u8>,
    path: Seq<Seq<u8>>,
    cfg: Config,
    k: int,
) -> Seq<Seq<u8>>
    decreases t.len() - i, 2int, k,
{
    if k <= 0 {
        seq![]
    } else {
        let before = merge_blocks(src, t, i, items, plan, sep, inner_sep, path, cfg, k - 1);
        match plan[k - 1] {
            Some(f) => if f == k - 1 {
                before.push(merged_text(src, t, items, group_members(plan, f, items.len() as int), sep, inner_sep))
            } else {
                before
            },
            None => before.push(
                crate::layout::item_text(
                    src,
                    t,
                    items[k - 1],
                    merge_below(src, t, i, items[k - 1].node as int, path, cfg),
                    sep,
                    seq![],
                ),
            ),
        }
    }
}

/// The items among the first `g` that go into group `f` are those `j < g`
/// with `plan[j] == Some(f)`.
proof fn lemma_group_members(plan: Seq<Option<int>>, f: int, g: int, j: int)
    requires
        0 <= j < g,
        plan[j] == Some(f),
    ensures
        group_members(plan, f, g).contains(j as usize),
    decreases g,
{
    if j < g - 1 {
        lemma_group_members(plan, f, g - 1, j);
        let prev = group_members(plan, f, g - 1);
        let w = choose|w: int| 0 <= w < prev.len() && prev[w] == j as usize;
        if plan[g - 1] == Some(f) {
            assert(group_members(plan, f, g)[w] == j as usize);
        }
    } else {
        let cur = group_members(plan, f, g);
        assert(cur[cur.len() - 1] == j as usize);
    }
}

/// Merging keeps every binding: an item that goes into a group goes into
/// one that an earlier or the same item starts, that item goes into its own
/// group, and the group holds the item; an item that goes into none is
/// written as it is.
pub proof fn lemma_merge_keeps_every_item(heads: Seq<Option<Seq<u8>>>, blocked: Seq<Seq<u8>>, j: int)
    requires
        0 <= j < heads.len(),
    ensures
        ({
            let plan = Seq::new(heads.len(), |x: int| plan_entry(heads, blocked, x));
            plan[j] matches Some(f) ==> {
                &&& 0 <= f <= j
                &&& plan[f] == Some(f)
                &&& group_members(plan, f, heads.len() as int).contains(j as usize)
            }
        }),
{
    let plan = Seq::new(heads.len(), |x: int| plan_entry(heads, blocked, x));
    if let Some(f) = plan[j] {
        let h = heads[j].unwrap();
        lemma_first_with_bounds(heads, h, 0);
        assert(heads[f] == Some(h));
        lemma_first_with_before(heads, h, 0, j);
        assert(shared(heads, f)) by {
            if f != j {
                assert(heads[j] == heads[f]);
            } else {
                let k = choose|k: int| 0 <= k < heads.len() && k != j && #[trigger] heads[k] == heads[j];
                assert(heads[k] == heads[f]);
            }
        }
        assert(plan[f] == plan_entry(heads, blocked, f));
        lemma_group_members(plan, f, heads.len() as int, j);
    }
}

/// The first position with head `h` comes no later than any position with
/// that head.
proof fn lemma_first_with_before(heads: Seq<Option<Seq<u8>>>, h: Seq<u8>, k: int, j: int)
    requires
        0 <= k <= j < heads.len(),
        heads[j] == Some(h),
    ensures
        first_with(heads, h, k) matches Some(f) && f <= j,
    decreases j - k,
{
    if heads[k] != Some(h) {
        lemma_first_with_before(heads, h, k + 1, j);
    }
}

/// Whether some item goes into a group.
pub open spec fn plan_merges(plan: Seq<Option<int>>) -> bool {
    exists|j: int| 0 <= j < plan.len() && (#[trigger] plan[j]) is Some
}

/// Container `i` with the bindings that share a static head merged into one,
/// where the rules at `path` merge and some head is shared; else with its
/// children merged.
pub open spec fn merged_container(src: Seq<u8>, t: SyntaxTree, i: int, path: Seq<Seq<u8>>, cfg: Config) -> Option<
    Seq<u8>,
>
    decreases t.len() - i, 4int, 0int,
{
    if !cfg.rules_at_spec(RuleKind::Attrs, path).merge {
        merge_spliced(src, t, i, path, cfg)
    } else {
        match crate::layout::region_of(t, i) {
            None => merge_spliced(src, t, i, path, cfg),
            Some((s, b, e)) => {
                let flat = crate::layout::region_nodes(t, i, s, b, e);
                let ci = crate::layout::collect_upto(t, flat, flat.len() as int);
                let items = ci.0;
                let plan = item_plan(src, t, items);
                if !plan_merges(plan) {
                    merge_spliced(src, t, i, path, cfg)
                } else {
                    let sep = seq![10u8] + crate::layout::indent(src, t, items[0].node as int);
                    let inner_sep = sep + seq![32u8, 32u8];
                    let blocks = merge_blocks(src, t, i, items, plan, sep, inner_sep, path, cfg, items.len() as int)
                        + crate::sort::node_texts(src, t, ci.1);
                    let region = crate::layout::join(blocks, sep);
                    Some(
                        crate::layout::splice_region_from(
                            src,
                            t,
                            i,
                            s,
                            e,
                            region,
                            merge_outside_upto(src, t, i, s, e, path, cfg, t.n_children(i)),
                            0,
                            t.nodes@[i].start as int,
                        ),
                    )
                }
            },
        }
    }
}

/// An attribute set with the bindings that share a static head merged, where
/// the rules at its path merge and some head is shared.
fn merge_container(src: &[u8], t: &SyntaxTree, i: usize, path: &Vec<Vec<u8>>, cfg: &Config) -> (r: Option<
    Vec<u8>,
>)
    requires
        t.wf(src@.len()),
        i < t.nodes@.len(),
    ensures
        !cfg.attrs_may_merge_spec() ==> r is None,
        opt_bytes(r) == merged_container(src@, *t, i as int, strs(path@), *cfg),
    decreases t.nodes@.len() - i, 3nat,
{
    let rules = cfg.rules_at(RuleKind::Attrs, path);
    proof {
        if !cfg.attrs_may_merge_spec() {
            cfg.lemma_no_merge(strs(path@), cfg.overrides@.len() as int);
        }
    }
    if !rules.merge {
        return splice_all(src, t, i, path, cfg);
    }
    proof {
        lemma_children_after(*t, src@.len(), i as int);
    }
    let (s, b, e, flat) = match container_region(t, i) {
        None => return splice_all(src, t, i, path, cfg),
        Some(x) => x,
    };
    proof {
        lemma_region_after(*t, src@.len(), i as int, s as int, b as int, e as int);
    }
    let (items, dangling) = crate::sort::items_of(t, i, &flat);
    let ghost iv = crate::layout::item_views(items@);
    let mut heads: Vec<Option<Vec<u8>>> = Vec::new();
    let mut blocked: Vec<Vec<u8>> = Vec::new();
    let mut k: usize = 0;
    while k < items.len()
        invariant
            t.wf(src@.len()),
            k <= items@.len(),
            heads@.len() == k,
            iv == crate::layout::item_views(items@),
            forall|x: int| 0 <= x < items@.len() ==> i < (#[trigger] items@[x]).node < t.len(),
            forall|x: int| 0 <= x < k ==> #[trigger] heads_view(heads@)[x] == merge_head(src@, *t, iv[x].node as int),
            strs(blocked@) == items_blocked(src@, *t, iv, k as int),
        decreases items.len() - k,
    {
        assert(iv[k as int] == items@[k as int]@);
        let ghost hb = heads_view(heads@);
        let h = merge_head_of(src, t, items[k].node);
        heads.push(h);
        assert(heads_view(heads@) =~= hb.push(opt_bytes(h)));
        let names = blocked_names_of(src, t, items[k].node);
        extend_strs(&mut blocked, &names);
        k += 1;
    }
    assert(heads_view(heads@) =~= item_heads(src@, *t, iv));
    let plan = merge_plan(&heads, &blocked);
    let ghost pv = item_plan(src@, *t, iv);
    assert forall|j: int| 0 <= j < plan@.len() implies (match #[trigger] plan@[j] {
        Some(f) => pv[j] == Some(f as int),
        None => pv[j] is None,
    }) by {}
    let mut any = false;
    let mut k: usize = 0;
    while k < plan.len()
        invariant
            plan@.len() == items@.len(),
            pv.len() == items@.len(),
            k <= plan@.len(),
            forall|j: int| 0 <= j < plan@.len() ==> (match #[trigger] plan@[j] {
                Some(f) => pv[j] == Some(f as int),
                None => pv[j] is None,
            }),
            any <==> exists|j: int| 0 <= j < k && (#[trigger] pv[j]) is Some,
        decreases plan.len() - k,
    {
        if plan[k].is_some() {
            any = true;
        }
        k += 1;
    }
    if !any {
        assert(!plan_merges(pv));
        return splice_all(src, t, i, path, cfg);
    }
    let mut sep: Vec<u8> = Vec::new();
    sep.push(10u8);
    assert(iv[0] == items@[0]@);
    let ind = indent_of(src, t, items[0].node);
    push_all(&mut sep, ind.as_slice());
    let mut inner_sep = copy_bytes(sep.as_slice());
    inner_sep.push(32u8);
    inner_sep.push(32u8);
    assert(sep@ =~= seq![10u8] + crate::layout::indent(src@, *t, iv[0].node as int));
    assert(inner_sep@ =~= sep@ + seq![32u8, 32u8]);
    let n = items.len();
    let mut blocks: Vec<Vec<u8>> = Vec::new();
    let mut idx: usize = 0;
    while idx < n
        invariant
            t.wf(src@.len()),
            n == items@.len(),
            plan@.len() == n,
            pv.len() == n,
            idx <= n,
            iv == crate::layout::item_views(items@),
            forall|j: int| 0 <= j < plan@.len() ==> (match #[trigger] plan@[j] {
                Some(f) => pv[j] == Some(f as int),
                None => pv[j] is None,
            }),
            strs(blocks@) == merge_blocks(src@, *t, i as int, iv, pv, sep@, inner_sep@, strs(path@), *cfg, idx as int),
            forall|x: int| 0 <= x < items@.len() ==> i < (#[trigger] items@[x]).node < t.len() && item_in(
                *t,
                items@[x]@,
            ),
        decreases n - idx,
    {
        let ghost before = strs(blocks@);
        match plan[idx] {
            Some(f) => {
                if f == idx {
                    let mut group: Vec<usize> = Vec::new();
                    let mut g: usize = 0;
                    while g < n
                        invariant
                            g <= n == plan@.len(),
                            pv.len() == n,
                            idx < n,
                            forall|x: int| 0 <= x < group@.len() ==> (#[trigger] group@[x] as int) < n,
                            g > idx ==> group@.len() > 0,
                            plan@[idx as int] == Some(idx),
                            forall|j: int| 0 <= j < plan@.len() ==> (match #[trigger] plan@[j] {
                                Some(f) => pv[j] == Some(f as int),
                                None => pv[j] is None,
                            }),
                            group@ == group_members(pv, idx as int, g as int),
                        decreases n - g,
                    {
                        let is_member = plan[g] == Some(idx);
                        assert(is_member == (pv[g as int] == Some(idx as int))) by {
                            match plan@[g as int] {
                                Some(f2) => {},
                                None => {},
                            }
                        }
                        if is_member {
                            group.push(g);
                        }
                        g += 1;
                    }
                    let block = render_merged(src, t, &items, &group, &sep, &inner_sep);
                    blocks.push(block);
                    assert(strs(blocks@) =~= before.push(block@));
                } else {
                    assert(pv[idx as int] == Some(f as int));
                }
            },
            None => {
                let it = &items[idx];
                assert(iv[idx as int] == it@);
                let body = rewrite(src, t, it.node, path, cfg);
                let block = render_item(src, t, it, &body, &sep, &[]);
                blocks.push(block);
                assert(strs(blocks@) =~= before.push(block@));
                assert(merge_below(src@, *t, i as int, iv[idx as int].node as int, strs(path@), *cfg) == opt_bytes(body));
            },
        }
        idx += 1;
    }
    let ghost mb = strs(blocks@);
    let mut d: usize = 0;
    while d < dangling.len()
        invariant
            t.wf(src@.len()),
            d <= dangling@.len(),
            forall|x: int| 0 <= x < dangling@.len() ==> (#[trigger] dangling@[x] as int) < t.nodes@.len(),
            strs(blocks@) == mb + crate::sort::node_texts(src@, *t, dangling@.take(d as int)),
        decreases dangling.len() - d,
    {
        let ghost before = strs(blocks@);
        let text = node_text(src, t, dangling[d]);
        blocks.push(text);
        assert(strs(blocks@) =~= before.push(text@));
        d += 1;
        assert(dangling@.take(d as int) =~= dangling@.take(d - 1).push(dangling@[d - 1]));
        assert(crate::sort::node_texts(src@, *t, dangling@.take(d as int)) =~= crate::sort::node_texts(
            src@,
            *t,
            dangling@.take(d - 1),
        ).push(text_of(src@, *t, dangling@[d - 1] as int)));
        assert(strs(blocks@) =~= mb + crate::sort::node_texts(src@, *t, dangling@.take(d as int)));
    }
    assert(dangling@.take(d as int) =~= dangling@);
    assert(blocks@.map_values(|b: Vec<u8>| b@) =~= strs(blocks@));
    let region = join_blocks(&blocks, sep.as_slice());
    let nc = t.nodes[i].children.len();
    let mut rw: Vec<Option<Vec<u8>>> = Vec::new();
    let mut j: usize = 0;
    while j < nc
        invariant
            t.wf(src@.len()),
            i < t.nodes@.len(),
            nc == t.n_children(i as int),
            j <= nc,
            rw@.len() == j,
            texts(rw@) == merge_outside_upto(src@, *t, i as int, s as int, e as int, strs(path@), *cfg, j as int),
            forall|q: int| 0 <= q < t.n_children(i as int) ==> i < #[trigger] t.child(i as int, q) < t.len(),
        decreases nc - j,
    {
        let ghost before = texts(rw@);
        if s <= j && j <= e {
            rw.push(None);
            assert(texts(rw@) =~= before.push(None));
        } else {
            let c = t.nodes[i].children[j];
            assert(c == t.child(i as int, j as int));
            let x = rewrite(src, t, c, path, cfg);
            rw.push(x);
            assert(texts(rw@) =~= before.push(opt_bytes(x)));
            assert(merge_below(src@, *t, i as int, c as int, strs(path@), *cfg) == opt_bytes(x));
        }
        j += 1;
    }
    proof {
        if !cfg.attrs_may_merge_spec() {
            assert(false);
        }
    }
    Some(splice_region(src, t, i, s, e, &region, &rw))
}

/// Each child of node `i` rewritten, and spliced back where one changes.
fn splice_all(src: &[u8], t: &SyntaxTree, i: usize, path: &Vec<Vec<u8>>, cfg: &Config) -> (r: Option<Vec<u8>>)
    requires
        t.wf(src@.len()),
        i < t.nodes@.len(),
    ensures
        !cfg.attrs_may_merge_spec() ==> r is None,
        opt_bytes(r) == merge_spliced(src@, *t, i as int, strs(path@), *cfg),
    decreases t.nodes@.len() - i, 2nat,
{
    proof {
        lemma_children_after(*t, src@.len(), i as int);
    }
    let n = t.nodes[i].children.len();
    let mut rw: Vec<Option<Vec<u8>>> = Vec::new();
    let mut j: usize = 0;
    while j < n
        invariant
            t.wf(src@.len()),
            i < t.nodes@.len(),
            n == t.n_children(i as int),
            j <= n,
            rw@.len() == j,
            forall|q: int| 0 <= q < t.n_children(i as int) ==> i < #[trigger] t.child(i as int, q) < t.len(),
            !cfg.attrs_may_merge_spec() ==> forall|q: int| 0 <= q < j ==> (#[trigger] rw@[q]) is None,
            texts(rw@) == merge_children_upto(src@, *t, i as int, strs(path@), *cfg, j as int),
        decreases n - j,
    {
        let c = t.nodes[i].children[j];
        assert(c == t.child(i as int, j as int));
        let ghost before = texts(rw@);
        let x = rewrite(src, t, c, path, cfg);
        rw.push(x);
        assert(texts(rw@) =~= before.push(opt_bytes(x)));
        assert(merge_below(src@, *t, i as int, c as int, strs(path@), *cfg) == opt_bytes(x));
        j += 1;
    }
    proof {
        if !cfg.attrs_may_merge_spec() {
            assert(!crate::layout::any_rewritten(crate::layout::texts(rw@)));
        }
    }
    splice_children(src, t, i, &rw)
}

/// Node `i` with every set below it merged by the rules at its path, where
/// one changes.
pub fn rewrite(src: &[u8], t: &SyntaxTree, i: usize, path: &Vec<Vec<u8>>, cfg: &Config) -> (r: Option<Vec<u8>>)
    requires
        t.wf(src@.len()),
        i < t.nodes@.len(),
    ensures
        !cfg.attrs_may_merge_spec() ==> r is None,
        opt_bytes(r) == merge_rewrite(src@, *t, i as int, strs(path@), *cfg),
    decreases t.nodes@.len() - i, 4nat,
{
    match t.nodes[i].kind {
        Kind::AttrsetExpression | Kind::RecAttrsetExpression | Kind::LetAttrsetExpression => {
            merge_container(src, t, i, path, cfg)
        },
        Kind::Binding => {
            proof {
                lemma_children_after(*t, src@.len(), i as int);
            }
            let expr = field_child_of(t, i, Field::Expression);
            let comps = binding_components_of(src, t, i);
            let mut inner = copy_strs(path);
            extend_strs(&mut inner, &comps);
            assert(strs(comps@) =~= crate::syntax::binding_components(src@, *t, i as int));
            let ghost iv = strs(inner@);
            let n = t.nodes[i].children.len();
            let mut rw: Vec<Option<Vec<u8>>> = Vec::new();
            let mut j: usize = 0;
            while j < n
                invariant
                    t.wf(src@.len()),
                    i < t.nodes@.len(),
                    n == t.n_children(i as int),
                    j <= n,
                    rw@.len() == j,
                    forall|q: int| 0 <= q < t.n_children(i as int) ==> i < #[trigger] t.child(i as int, q) < t.len(),
                    !cfg.attrs_may_merge_spec() ==> forall|q: int| 0 <= q < j ==> (#[trigger] rw@[q]) is None,
                    expr == field_child(*t, i as int, Field::Expression),
                    iv == strs(inner@),
                    iv == strs(path@) + crate::syntax::binding_components(src@, *t, i as int),
                    texts(rw@) == merge_binding_children(src@, *t, i as int, strs(path@), iv, *cfg, j as int),
                decreases n - j,
            {
                let c = t.nodes[i].children[j];
                assert(c == t.child(i as int, j as int));
                assert(t.nodes@[i as int].children@[j as int] == c);
                let ghost before = texts(rw@);
                let x = if expr == Some(c) {
                    rewrite(src, t, c, &inner, cfg)
                } else {
                    rewrite(src, t, c, path, cfg)
                };
                rw.push(x);
                assert(texts(rw@) =~= before.push(opt_bytes(x)));
                if expr == Some(c) {
                    assert(merge_below(src@, *t, i as int, c as int, iv, *cfg) == opt_bytes(x));
                } else {
                    assert(merge_below(src@, *t, i as int, c as int, strs(path@), *cfg) == opt_bytes(x));
                }
                j += 1;
            }
            proof {
                if !cfg.attrs_may_merge_spec() {
                    assert(!crate::layout::any_rewritten(crate::layout::texts(rw@)));
                }
            }
            splice_children(src, t, i, &rw)
        },
        _ => splice_all(src, t, i, path, cfg),
    }
}

/// Every attribute set merges its bindings alike, whether plain, recursive
/// (`rec { .. }`) or the old `let { .. }`: merging below such a node is
/// merging its own bindings by the rules at its path.
pub proof fn lemma_sets_merge_alike(src: Seq<u8>, t: SyntaxTree, i: int, path: Seq<Seq<u8>>, cfg: Config)
    requires
        0 <= i < t.len(),
        t.nodes@[i].kind == Kind::AttrsetExpression || t.nodes@[i].kind == Kind::RecAttrsetExpression
            || t.nodes@[i].kind == Kind::LetAttrsetExpression,
    ensures
        merge_rewrite(src, t, i, path, cfg) == merged_container(src, t, i, path, cfg),
        cfg.rules_at_spec(RuleKind::Attrs, path).merge ==> (crate::layout::region_of(t, i) matches Some((s, b, e))
            ==> (plan_merges(
            item_plan(
                src,
                t,
                crate::layout::collect_upto(
                    t,
                    crate::layout::region_nodes(t, i, s, b, e),
                    crate::layout::region_nodes(t, i, s, b, e).len() as int,
                ).0,
            ),
        ) ==> merge_rewrite(src, t, i, path, cfg) is Some)),
{
}

/// One round of merging takes valid Nix `a` to `b`: something in the syntax
/// tree of `a` merges, and `b` is the text that makes.
pub open spec fn merge_round(a: Seq<char>, b: Seq<char>, cfg: Config) -> bool {
    exists|t: SyntaxTree|
        #![trigger crate::parser::nix_tree(t, a)]
        crate::parser::nix_valid(t, a) && merge_rewrite(vstd::utf8::encode_utf8(a), t, 0, seq![], cfg) == Some(
            vstd::utf8::encode_utf8(b),
        )
}

/// Nothing more merges in valid Nix `a`.
pub open spec fn merge_settled(a: Seq<char>, cfg: Config) -> bool {
    exists|t: SyntaxTree|
        #![trigger crate::parser::nix_tree(t, a)]
        crate::parser::nix_valid(t, a) && merge_rewrite(vstd::utf8::encode_utf8(a), t, 0, seq![], cfg) is None
}

/// A round of merging valid Nix `a` makes text that is not UTF-8.
pub open spec fn merge_output_invalid(a: Seq<char>, cfg: Config) -> bool {
    exists|t: SyntaxTree|
        #![trigger crate::parser::nix_tree(t, a)]
        crate::parser::nix_valid(t, a) && (merge_rewrite(vstd::utf8::encode_utf8(a), t, 0, seq![], cfg) matches Some(v)
            && !vstd::utf8::valid_utf8(v))
}

/// `b` is what `k` rounds of merging make of `a`.
pub open spec fn merged_in(a: Seq<char>, b: Seq<char>, cfg: Config, k: nat) -> bool
    decreases k,
{
    if k == 0 {
        a == b
    } else {
        exists|m: Seq<char>| #[trigger] merge_round(a, m, cfg) && merged_in(m, b, cfg, (k - 1) as nat)
    }
}

/// How many rounds of merging `src` runs at most: one more than it has bytes.
pub open spec fn merge_rounds(src: Seq<char>) -> nat {
    (vstd::utf8::encode_utf8(src).len() as usize) as nat + 1
}

/// `b` is what at most `bound` rounds of merging make of `a`.
pub open spec fn merged_within(a: Seq<char>, b: Seq<char>, cfg: Config, bound: int) -> bool {
    exists|k: nat| k <= bound && #[trigger] merged_in(a, b, cfg, k)
}

/// One more round extends a run of rounds.
proof fn lemma_merged_in_extend(a: Seq<char>, c: Seq<char>, n: Seq<char>, cfg: Config, k: nat)
    requires
        merged_in(a, c, cfg, k),
        merge_round(c, n, cfg),
    ensures
        merged_in(a, n, cfg, k + 1),
    decreases k,
{
    if k == 0 {
        assert(merged_in(n, n, cfg, 0));
        assert(merge_round(a, n, cfg) && merged_in(n, n, cfg, 0));
    } else {
        let m = choose|m: Seq<char>| #[trigger] merge_round(a, m, cfg) && merged_in(m, c, cfg, (k - 1) as nat);
        lemma_merged_in_extend(m, c, n, cfg, (k - 1) as nat);
        assert(merge_round(a, m, cfg) && merged_in(m, n, cfg, k));
    }
}

/// Merges the bindings of the source by the configuration, round after
/// round until nothing merges. Each round merges at least two bindings of
/// one set into one and so removes at least one attribute-path component;
/// the source has fewer components than bytes, so the rounds stop there at
/// the latest. Input that is not valid Nix is refused.
pub fn merge_source(src: &str, cfg: &Config) -> (r: Result<String, Error>)
    ensures
        r matches Ok(out) ==> (!cfg.attrs_may_merge_spec() ==> out@ == src@),
        r matches Ok(out) ==> merged_within(src@, out@, *cfg, merge_rounds(src@) as int),
        r matches Ok(out) ==> merge_settled(out@, *cfg) || merged_in(src@, out@, *cfg, merge_rounds(src@)),
        r matches Err(e) ==> exists|m: Seq<char>, k: nat|
            k <= src.len() && #[trigger] merged_in(src@, m, *cfg, k) && (crate::parser::parse_refusal(m, e, Refusal::Merge)
                || (e.kind is InvalidOutput && merge_output_invalid(m, *cfg))),
        crate::parser::nix_refused(src@) ==> (r matches Err(e) && e.kind == ErrorKind::InvalidNix(Refusal::Merge)),
{
    let mut current = src.to_owned();
    let mut rounds = src.len();
    let ghost n = rounds as nat;
    loop
        invariant
            !cfg.attrs_may_merge_spec() ==> current@ == src@,
            rounds <= n,
            merged_in(src@, current@, *cfg, (n - rounds) as nat),
            n == src.len(),
            rounds == n ==> current@ == src@,
            rounds < n ==> !crate::parser::nix_refused(src@),
        decreases rounds,
    {
        let t = match parse_valid(current.as_str(), Refusal::Merge) {
            Ok(t) => t,
            Err(e) => return Err(e),
        };
        let path: Vec<Vec<u8>> = Vec::new();
        assert(strs(path@) =~= Seq::<Seq<u8>>::empty());
        match rewrite(current.as_str().as_bytes(), &t, 0, &path, cfg) {
            Some(v) => {
                let next = match output_string(v) {
                    Ok(x) => x,
                    Err(e) => return Err(e),
                };
                assert(merge_round(current@, next@, *cfg));
                proof {
                    lemma_merged_in_extend(src@, current@, next@, *cfg, (n - rounds) as nat);
                }
                current = next;
            },
            None => {
                assert(merge_settled(current@, *cfg));
                let ghost k: nat = (n - rounds) as nat;
                assert(merged_in(src@, current@, *cfg, k));
                assert(k <= src.len() + 1);
                assert(merged_within(src@, current@, *cfg, src.len() + 1));
                return Ok(current);
            },
        }
        if rounds == 0 {
            assert(merged_in(src@, current@, *cfg, (n - rounds + 1) as nat));
            assert(merged_within(src@, current@, *cfg, src.len() + 1));
            return Ok(current);
        }
        rounds -= 1;
    }
}

} // verus!
