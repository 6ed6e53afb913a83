//! The content fingerprint: a canonical rendering of a file in which
//! reorderings that do not change meaning leave no trace.

use crate::bytes::{
    copy_bytes, copy_strs, extend_strs, strs, bytes_eq, concat, lit, push_all, push_concat, push_range, push_str, sort_byte_strings, sort_bytes,
    strip_common_indent, strip_common_indent_bytes, trim_end, trim_end_bytes,
};
use crate::syntax::{
    binding_components, binding_components_of, content_children, content_children_of,
    field_child, field_child_of, static_name, static_name_of, text_of, node_text, Field, Kind,
    SyntaxTree,
};
use crate::error::{Error, ErrorKind};
use crate::parser::{nix_malformed, nix_parse, nix_tree, output_string, parse_source};
use vstd::prelude::*;
use vstd::string::StringSliceAdditionalSpecFns;
use vstd::utf8::encode_utf8;

verus! {

/// Which differences the fingerprint forgives besides binding order.
#[derive(Clone, Copy, PartialEq, Eq, Structural, Debug)]
pub struct Opts {
    /// List elements may come in any order.
    pub unordered_lists: bool,
    /// `a.b = 1;` and `a = { b = 1; };` count as the same.
    pub flatten_attrs: bool,
    /// `"a"` and `a` count as the same name.
    pub unstyled_names: bool,
}

pub open spec fn order_insensitive(k: Kind, o: Opts) -> bool {
    k == Kind::BindingSet || k == Kind::Formals || k == Kind::InheritedAttrs || (o.unordered_lists
        && k == Kind::ListExpression)
}

/// One fact about a set, as the flattened fingerprint records it: `tag` 0
/// marks that the path exists, 1 a value bound at the path, 2 anything else
/// found in the set (an `inherit`).
pub struct FactView {
    pub path: Seq<Seq<u8>>,
    pub tag: u8,
    pub text: Seq<u8>,
}

/// The canonical rendering of node `i`.
pub open spec fn canon(src: Seq<u8>, t: SyntaxTree, i: int, o: Opts) -> Seq<u8>
    decreases t.len() - i, 3nat, 0nat,
{
    if !(0 <= i < t.len()) {
        seq![]
    } else {
        let n = t.nodes@[i];
        if n.kind == Kind::IndentedStringExpression {
            canon_indented(src, t, i, o)
        } else if o.unstyled_names && (n.kind == Kind::Attrpath || n.kind == Kind::InheritedAttrs) {
            let cs = content_children(t, i);
            let parts = name_parts(src, t, i, o, cs, cs.len() as int);
            lit("(") + n.kind_name@ + concat(
                if n.kind == Kind::InheritedAttrs {
                    sort_bytes(parts)
                } else {
                    parts
                },
            ) + lit(")")
        } else if o.flatten_attrs && n.kind == Kind::BindingSet {
            lit("(binding_set") + write_entry(set_facts(src, t, i, o), seq![]) + lit(")")
        } else {
            let body = if n.children@.len() == 0 {
                lit(" ") + text_of(src, t, i)
            } else if order_insensitive(n.kind, o) {
                let cs = content_children(t, i);
                concat(sort_bytes(canon_parts(src, t, i, o, cs, cs.len() as int)))
            } else {
                ordered_body(src, t, i, o, n.children@.len() as int)
            };
            lit("(") + n.kind_name@ + body + lit(")")
        }
    }
}

/// The renderings of the first `k` of `cs`, children of node `i`.
pub open spec fn canon_parts(src: Seq<u8>, t: SyntaxTree, i: int, o: Opts, cs: Seq<usize>, k: int) -> Seq<
    Seq<u8>,
>
    decreases t.len() - i, 1nat, k,
{
    if k <= 0 || k > cs.len() {
        seq![]
    } else {
        let c = cs[k - 1] as int;
        canon_parts(src, t, i, o, cs, k - 1).push(
            if i < c < t.len() {
                canon(src, t, c, o)
            } else {
                seq![]
            },
        )
    }
}

/// The renderings of the first `k` of `cs` as names: a static name stands
/// for itself, anything else is rendered.
pub open spec fn name_parts(src: Seq<u8>, t: SyntaxTree, i: int, o: Opts, cs: Seq<usize>, k: int) -> Seq<
    Seq<u8>,
>
    decreases t.len() - i, 1nat, k,
{
    if k <= 0 || k > cs.len() {
        seq![]
    } else {
        let c = cs[k - 1] as int;
        name_parts(src, t, i, o, cs, k - 1).push(
            if i < c < t.len() {
                match static_name(src, t, c) {
                    Some(name) => lit("(name ") + name + lit(")"),
                    None => canon(src, t, c, o),
                }
            } else {
                seq![]
            },
        )
    }
}

/// The rendering of the first `k` children of node `i`, in order: tokens as
/// `(t ...)`, named nodes rendered, comments left out.
pub open spec fn ordered_body(src: Seq<u8>, t: SyntaxTree, i: int, o: Opts, k: int) -> Seq<u8>
    decreases t.len() - i, 1nat, k,
{
    if k <= 0 || k > t.n_children(i) {
        seq![]
    } else {
        let c = t.child(i, k - 1);
        ordered_body(src, t, i, o, k - 1) + if !(i < c < t.len()) {
            seq![]
        } else if !t.nodes@[c].named {
            lit("(t ") + text_of(src, t, c) + lit(")")
        } else if t.nodes@[c].kind != Kind::Comment {
            canon(src, t, c, o)
        } else {
            seq![]
        }
    }
}

/// The literal text of an indented string's first `k` children, with a NUL
/// byte standing for each interpolation.
pub open spec fn indented_template(src: Seq<u8>, t: SyntaxTree, i: int, k: int) -> Seq<u8>
    decreases k,
{
    if k <= 0 || k > t.n_children(i) {
        seq![]
    } else {
        let c = t.child(i, k - 1);
        indented_template(src, t, i, k - 1) + if !(0 <= c < t.len()) {
            seq![]
        } else if t.nodes@[c].kind == Kind::StringFragment || t.nodes@[c].kind
            == Kind::EscapeSequence {
            text_of(src, t, c)
        } else if t.nodes@[c].kind == Kind::Interpolation {
            seq![0u8]
        } else {
            seq![]
        }
    }
}

/// The renderings `(interp ...)` of an indented string's interpolations
/// among its first `k` children.
pub open spec fn indented_interps(src: Seq<u8>, t: SyntaxTree, i: int, o: Opts, k: int) -> Seq<u8>
    decreases t.len() - i, 1nat, k,
{
    if k <= 0 || k > t.n_children(i) {
        seq![]
    } else {
        let c = t.child(i, k - 1);
        indented_interps(src, t, i, o, k - 1) + if i < c < t.len() && t.nodes@[c].kind
            == Kind::Interpolation {
            lit("(interp ") + canon(src, t, c, o) + lit(")")
        } else {
            seq![]
        }
    }
}

/// An indented string rendered with its common indentation taken out.
pub open spec fn canon_indented(src: Seq<u8>, t: SyntaxTree, i: int, o: Opts) -> Seq<u8>
    decreases t.len() - i, 2nat, 0nat,
{
    lit("(indented_string ") + strip_common_indent(
        indented_template(src, t, i, t.n_children(i)),
    ) + indented_interps(src, t, i, o, t.n_children(i)) + lit(")")
}

} // verus!

verus! {

/// The first of `cs`, from position `k` on, that is a binding set.
pub open spec fn first_binding_set_from(t: SyntaxTree, cs: Seq<usize>, k: int) -> Option<usize>
    decreases cs.len() - k,
{
    if k < 0 || k >= cs.len() {
        None
    } else if (cs[k] as int) < t.len() && t.nodes@[cs[k] as int].kind == Kind::BindingSet {
        Some(cs[k])
    } else {
        first_binding_set_from(t, cs, k + 1)
    }
}

/// Markers for each non-empty prefix of `comps` up to length `j`.
pub open spec fn path_markers(comps: Seq<Seq<u8>>, j: int) -> Seq<FactView>
    decreases j,
{
    if j <= 0 || j > comps.len() {
        seq![]
    } else {
        path_markers(comps, j - 1).push(FactView { path: comps.take(j), tag: 0, text: seq![] })
    }
}

/// `fs` moved under `comps`.
pub open spec fn prefix_facts(comps: Seq<Seq<u8>>, fs: Seq<FactView>) -> Seq<FactView> {
    fs.map_values(|f: FactView| FactView { path: comps + f.path, tag: f.tag, text: f.text })
}

/// The facts that child `c` of binding set `bs` contributes.
pub open spec fn item_facts(src: Seq<u8>, t: SyntaxTree, bs: int, c: int, o: Opts) -> Seq<FactView>
    decreases t.len() - bs, 1nat, 0nat,
{
    if !(bs < c < t.len()) {
        seq![]
    } else if t.nodes@[c].kind == Kind::Binding {
        let comps = binding_components(src, t, c);
        match field_child(t, c, Field::Expression) {
            Some(v) => if bs < v < t.len() {
                path_markers(comps, comps.len() as int) + if t.nodes@[v as int].kind
                    == Kind::AttrsetExpression {
                    match first_binding_set_from(t, content_children(t, v as int), 0) {
                        Some(b2) => if bs < b2 < t.len() {
                            prefix_facts(comps, set_facts(src, t, b2 as int, o))
                        } else {
                            seq![]
                        },
                        None => seq![],
                    }
                } else {
                    seq![FactView { path: comps, tag: 1, text: canon(src, t, v as int, o) }]
                }
            } else {
                seq![]
            },
            None => seq![],
        }
    } else {
        seq![FactView { path: seq![], tag: 2, text: canon(src, t, c, o) }]
    }
}

/// The facts of the first `k` of `cs`, children of binding set `bs`.
pub open spec fn facts_upto(src: Seq<u8>, t: SyntaxTree, bs: int, o: Opts, cs: Seq<usize>, k: int) -> Seq<
    FactView,
>
    decreases t.len() - bs, 1nat, k,
{
    if k <= 0 || k > cs.len() {
        seq![]
    } else {
        facts_upto(src, t, bs, o, cs, k - 1) + item_facts(src, t, bs, cs[k - 1] as int, o)
    }
}

/// What binding set `bs` binds, path by path.
pub open spec fn set_facts(src: Seq<u8>, t: SyntaxTree, bs: int, o: Opts) -> Seq<FactView>
    decreases t.len() - bs, 2nat, 0nat,
{
    let cs = content_children(t, bs);
    facts_upto(src, t, bs, o, cs, cs.len() as int)
}

/// The longest path among `fs`.
pub open spec fn max_path_len(fs: Seq<FactView>) -> nat
    decreases fs.len(),
{
    if fs.len() == 0 {
        0
    } else {
        let m = max_path_len(fs.drop_last());
        if fs.last().path.len() > m {
            fs.last().path.len()
        } else {
            m
        }
    }
}

/// The texts of the facts tagged `tag` at exactly `p`, among the first `k`.
pub open spec fn texts_at(fs: Seq<FactView>, p: Seq<Seq<u8>>, tag: u8, k: int) -> Seq<Seq<u8>>
    decreases k,
{
    if k <= 0 || k > fs.len() {
        seq![]
    } else {
        let f = fs[k - 1];
        texts_at(fs, p, tag, k - 1) + if f.tag == tag && f.path == p {
            seq![f.text]
        } else {
            seq![]
        }
    }
}

/// The components right below `p` of the paths among the first `k` facts.
pub open spec fn keys_below(fs: Seq<FactView>, p: Seq<Seq<u8>>, k: int) -> Seq<Seq<u8>>
    decreases k,
{
    if k <= 0 || k > fs.len() {
        seq![]
    } else {
        let f = fs[k - 1];
        keys_below(fs, p, k - 1) + if f.path.len() > p.len() && f.path.take(p.len() as int) == p {
            seq![f.path[p.len() as int]]
        } else {
            seq![]
        }
    }
}

/// `s` without the elements equal to the one before them.
pub open spec fn dedup_adjacent(s: Seq<Seq<u8>>) -> Seq<Seq<u8>>
    decreases s.len(),
{
    if s.len() == 0 {
        s
    } else {
        let d = dedup_adjacent(s.drop_last());
        if d.len() > 0 && d.last() == s.last() {
            d
        } else {
            d.push(s.last())
        }
    }
}

/// Each of the first `k` of `xs` wrapped as `(pre x)`.
pub open spec fn wrap_each(xs: Seq<Seq<u8>>, pre: Seq<u8>, k: int) -> Seq<u8>
    decreases k,
{
    if k <= 0 || k > xs.len() {
        seq![]
    } else {
        wrap_each(xs, pre, k - 1) + pre + xs[k - 1] + lit(")")
    }
}

/// The entry at `p`: its values, its other items, and its sub-entries by
/// key, each group in sorted order.
pub open spec fn write_entry(fs: Seq<FactView>, p: Seq<Seq<u8>>) -> Seq<u8>
    decreases max_path_len(fs) - p.len(), 1nat, 0nat,
{
    let vals = sort_bytes(texts_at(fs, p, 1, fs.len() as int));
    let opaque = sort_bytes(texts_at(fs, p, 2, fs.len() as int));
    let keys = dedup_adjacent(sort_bytes(keys_below(fs, p, fs.len() as int)));
    lit("(") + wrap_each(vals, lit("(v "), vals.len() as int) + wrap_each(
        opaque,
        lit("(i "),
        opaque.len() as int,
    ) + write_children(fs, p, keys, keys.len() as int) + lit(")")
}

/// The sub-entries of the entry at `p` for the first `j` of `keys`.
pub open spec fn write_children(fs: Seq<FactView>, p: Seq<Seq<u8>>, keys: Seq<Seq<u8>>, j: int) -> Seq<
    u8,
>
    decreases max_path_len(fs) - p.len(), 0nat, j,
{
    if j <= 0 || j > keys.len() || p.len() >= max_path_len(fs) {
        seq![]
    } else {
        write_children(fs, p, keys, j - 1) + lit("(k ") + keys[j - 1] + write_entry(
            fs,
            p.push(keys[j - 1]),
        ) + lit(")")
    }
}

/// The comments below node `i`, in source order, among its first `k`
/// children.
pub open spec fn comments_upto(src: Seq<u8>, t: SyntaxTree, i: int, k: int) -> Seq<Seq<u8>>
    decreases t.len() - i, 0nat, k,
{
    if k <= 0 || k > t.n_children(i) {
        seq![]
    } else {
        let c = t.child(i, k - 1);
        comments_upto(src, t, i, k - 1) + if !(i < c < t.len()) {
            seq![]
        } else if t.nodes@[c].kind == Kind::Comment {
            seq![text_of(src, t, c)]
        } else {
            comments_below(src, t, c)
        }
    }
}

pub open spec fn comments_below(src: Seq<u8>, t: SyntaxTree, i: int) -> Seq<Seq<u8>>
    decreases t.len() - i, 1nat, 0nat,
{
    if 0 <= i < t.len() {
        comments_upto(src, t, i, t.n_children(i))
    } else {
        seq![]
    }
}

/// The first `k` comments, each on a line of its own without trailing white
/// space.
pub open spec fn comment_lines(cs: Seq<Seq<u8>>, k: int) -> Seq<u8>
    decreases k,
{
    if k <= 0 || k > cs.len() {
        seq![]
    } else {
        comment_lines(cs, k - 1) + seq![10u8] + trim_end(cs[k - 1])
    }
}

/// The fingerprint of a file with syntax tree `t`: the canonical rendering
/// of the root, then every comment, sorted.
pub open spec fn fingerprint_of(src: Seq<u8>, t: SyntaxTree, o: Opts) -> Seq<u8> {
    let cs = sort_bytes(comments_below(src, t, 0));
    canon(src, t, 0, o) + lit("\n#comments:") + comment_lines(cs, cs.len() as int)
}

} // verus!

verus! {

/// The canonical rendering of node `i`.
pub fn canon_node(src: &[u8], t: &SyntaxTree, i: usize, o: Opts) -> (r: Vec<u8>)
    requires
        t.wf(src@.len()),
        i < t.nodes@.len(),
    ensures
        r@ == canon(src@, *t, i as int, o),
    decreases t.nodes@.len() - i, 3nat, 0nat,
{
    let kind = t.nodes[i].kind;
    if kind == Kind::IndentedStringExpression {
        return canon_indented_node(src, t, i, o);
    }
    let mut out: Vec<u8> = Vec::new();
    if o.unstyled_names && (kind == Kind::Attrpath || kind == Kind::InheritedAttrs) {
        let cs = content_children_of(t, i);
        let parts = name_parts_of(src, t, i, o, &cs);
        let parts = if kind == Kind::InheritedAttrs {
            sort_byte_strings(parts)
        } else {
            parts
        };
        push_str(&mut out, "(");
        push_all(&mut out, t.nodes[i].kind_name.as_slice());
        push_concat(&mut out, &parts);
        push_str(&mut out, ")");
        return out;
    }
    if o.flatten_attrs && kind == Kind::BindingSet {
        let fs = set_facts_of(src, t, i, o);
        let root: Vec<Vec<u8>> = Vec::new();
        assert(strs(root@) =~= Seq::<Seq<u8>>::empty());
        let entry = write_entry_of(&fs, &root);
        push_str(&mut out, "(binding_set");
        push_all(&mut out, entry.as_slice());
        push_str(&mut out, ")");
        return out;
    }
    push_str(&mut out, "(");
    push_all(&mut out, t.nodes[i].kind_name.as_slice());
    if t.nodes[i].children.len() == 0 {
        push_str(&mut out, " ");
        let txt = node_text(src, t, i);
        push_all(&mut out, txt.as_slice());
    } else if kind == Kind::BindingSet || kind == Kind::Formals || kind == Kind::InheritedAttrs || (
    o.unordered_lists && kind == Kind::ListExpression) {
        let cs = content_children_of(t, i);
        let parts = canon_parts_of(src, t, i, o, &cs);
        let parts = sort_byte_strings(parts);
        push_concat(&mut out, &parts);
    } else {
        let body = ordered_body_of(src, t, i, o);
        push_all(&mut out, body.as_slice());
    }
    push_str(&mut out, ")");
    out
}

fn canon_parts_of(src: &[u8], t: &SyntaxTree, i: usize, o: Opts, cs: &Vec<usize>) -> (r: Vec<
    Vec<u8>,
>)
    requires
        t.wf(src@.len()),
        i < t.nodes@.len(),
    ensures
        strs(r@) == canon_parts(src@, *t, i as int, o, cs@, cs@.len() as int),
    decreases t.nodes@.len() - i, 1nat, 0nat,
{
    let mut r: Vec<Vec<u8>> = Vec::new();
    let mut k: usize = 0;
    while k < cs.len()
        invariant
            t.wf(src@.len()),
            i < t.nodes@.len(),
            k <= cs@.len(),
            strs(r@) == canon_parts(src@, *t, i as int, o, cs@, k as int),
        decreases cs.len() - k,
    {
        let c = cs[k];
        let ghost prev = strs(r@);
        let part = if i < c && c < t.nodes.len() {
            canon_node(src, t, c, o)
        } else {
            Vec::new()
        };
        r.push(part);
        assert(strs(r@) =~= prev.push(part@));
        k += 1;
    }
    r
}

fn name_parts_of(src: &[u8], t: &SyntaxTree, i: usize, o: Opts, cs: &Vec<usize>) -> (r: Vec<
    Vec<u8>,
>)
    requires
        t.wf(src@.len()),
        i < t.nodes@.len(),
    ensures
        strs(r@) == name_parts(src@, *t, i as int, o, cs@, cs@.len() as int),
    decreases t.nodes@.len() - i, 1nat, 0nat,
{
    let mut r: Vec<Vec<u8>> = Vec::new();
    let mut k: usize = 0;
    while k < cs.len()
        invariant
            t.wf(src@.len()),
            i < t.nodes@.len(),
            k <= cs@.len(),
            strs(r@) == name_parts(src@, *t, i as int, o, cs@, k as int),
        decreases cs.len() - k,
    {
        let c = cs[k];
        let ghost prev = strs(r@);
        let part = if i < c && c < t.nodes.len() {
            match static_name_of(src, t, c) {
                Some(name) => {
                    let mut p: Vec<u8> = Vec::new();
                    push_str(&mut p, "(name ");
                    push_all(&mut p, name.as_slice());
                    push_str(&mut p, ")");
                    p
                },
                None => canon_node(src, t, c, o),
            }
        } else {
            Vec::new()
        };
        r.push(part);
        assert(strs(r@) =~= prev.push(part@));
        k += 1;
    }
    r
}

fn ordered_body_of(src: &[u8], t: &SyntaxTree, i: usize, o: Opts) -> (r: Vec<u8>)
    requires
        t.wf(src@.len()),
        i < t.nodes@.len(),
    ensures
        r@ == ordered_body(src@, *t, i as int, o, t.n_children(i as int)),
    decreases t.nodes@.len() - i, 1nat, 0nat,
{
    let mut out: Vec<u8> = Vec::new();
    let n = t.nodes[i].children.len();
    let mut k: usize = 0;
    while k < n
        invariant
            t.wf(src@.len()),
            i < t.nodes@.len(),
            n == t.n_children(i as int),
            k <= n,
            out@ == ordered_body(src@, *t, i as int, o, k as int),
        decreases n - k,
    {
        let c = t.nodes[i].children[k];
        if i < c && c < t.nodes.len() {
            if !t.nodes[c].named {
                push_str(&mut out, "(t ");
                let txt = node_text(src, t, c);
                push_all(&mut out, txt.as_slice());
                push_str(&mut out, ")");
            } else if t.nodes[c].kind != Kind::Comment {
                let part = canon_node(src, t, c, o);
                push_all(&mut out, part.as_slice());
            }
        }
        k += 1;
    }
    out
}

fn canon_indented_node(src: &[u8], t: &SyntaxTree, i: usize, o: Opts) -> (r: Vec<u8>)
    requires
        t.wf(src@.len()),
        i < t.nodes@.len(),
    ensures
        r@ == canon_indented(src@, *t, i as int, o),
    decreases t.nodes@.len() - i, 2nat, 0nat,
{
    let mut template: Vec<u8> = Vec::new();
    let mut interps: Vec<u8> = Vec::new();
    let n = t.nodes[i].children.len();
    let mut k: usize = 0;
    while k < n
        invariant
            t.wf(src@.len()),
            i < t.nodes@.len(),
            n == t.n_children(i as int),
            k <= n,
            template@ == indented_template(src@, *t, i as int, k as int),
            interps@ == indented_interps(src@, *t, i as int, o, k as int),
        decreases n - k,
    {
        let c = t.nodes[i].children[k];
        proof {
            assert(t.node_wf(i as int, src@.len()));
            assert(t.child_ok(i as int, k as int));
        }
        let ck = t.nodes[c].kind;
        if ck == Kind::StringFragment || ck == Kind::EscapeSequence {
            let txt = node_text(src, t, c);
            push_all(&mut template, txt.as_slice());
        } else if ck == Kind::Interpolation {
            template.push(0u8);
            push_str(&mut interps, "(interp ");
            let part = canon_node(src, t, c, o);
            push_all(&mut interps, part.as_slice());
            push_str(&mut interps, ")");
        }
        k += 1;
    }
    let mut out: Vec<u8> = Vec::new();
    push_str(&mut out, "(indented_string ");
    let stripped = strip_common_indent_bytes(template.as_slice());
    push_all(&mut out, stripped.as_slice());
    push_all(&mut out, interps.as_slice());
    push_str(&mut out, ")");
    out
}

} // verus!

verus! {

/// One fact about a set (see [`FactView`]).
pub struct Fact {
    pub path: Vec<Vec<u8>>,
    pub tag: u8,
    pub text: Vec<u8>,
}

pub open spec fn fact_view(f: Fact) -> FactView {
    FactView { path: strs(f.path@), tag: f.tag, text: f.text@ }
}

pub open spec fn facts_view(fs: Seq<Fact>) -> Seq<FactView> {
    fs.map_values(|f: Fact| fact_view(f))
}

fn first_binding_set_of(t: &SyntaxTree, cs: &Vec<usize>) -> (r: Option<usize>)
    ensures
        r == first_binding_set_from(*t, cs@, 0),
{
    let mut k: usize = 0;
    while k < cs.len()
        invariant
            k <= cs@.len(),
            first_binding_set_from(*t, cs@, 0) == first_binding_set_from(*t, cs@, k as int),
        decreases cs.len() - k,
    {
        if cs[k] < t.nodes.len() && t.nodes[cs[k]].kind == Kind::BindingSet {
            return Some(cs[k]);
        }
        k += 1;
    }
    None
}

fn push_markers(fs: &mut Vec<Fact>, comps: &Vec<Vec<u8>>)
    ensures
        facts_view(final(fs)@) == facts_view(old(fs)@) + path_markers(
            strs(comps@),
            comps@.len() as int,
        ),
{
    let mut j: usize = 0;
    let mut prefix: Vec<Vec<u8>> = Vec::new();
    while j < comps.len()
        invariant
            j <= comps@.len(),
            strs(prefix@) == strs(comps@).take(j as int),
            facts_view(fs@) == facts_view(old(fs)@) + path_markers(strs(comps@), j as int),
        decreases comps.len() - j,
    {
        let ghost prev_fs = facts_view(fs@);
        let ghost prev_p = strs(prefix@);
        prefix.push(copy_bytes(comps[j].as_slice()));
        assert(strs(prefix@) =~= prev_p.push(comps@[j as int]@));
        assert(strs(comps@).take(j + 1) =~= strs(comps@).take(j as int).push(comps@[j as int]@));
        let path = copy_strs(&prefix);
        fs.push(Fact { path, tag: 0, text: Vec::new() });
        assert(facts_view(fs@) =~= prev_fs.push(
            FactView { path: strs(comps@).take(j + 1), tag: 0, text: seq![] },
        ));
        j += 1;
    }
}

fn push_prefixed(fs: &mut Vec<Fact>, comps: &Vec<Vec<u8>>, inner: &Vec<Fact>)
    ensures
        facts_view(final(fs)@) == facts_view(old(fs)@) + prefix_facts(
            strs(comps@),
            facts_view(inner@),
        ),
{
    let mut k: usize = 0;
    while k < inner.len()
        invariant
            k <= inner@.len(),
            facts_view(fs@) == facts_view(old(fs)@) + prefix_facts(
                strs(comps@),
                facts_view(inner@).take(k as int),
            ),
        decreases inner.len() - k,
    {
        let ghost prev_fs = facts_view(fs@);
        let mut path = copy_strs(comps);
        extend_strs(&mut path, &inner[k].path);
        let text = copy_bytes(inner[k].text.as_slice());
        let ghost nf = FactView {
            path: strs(comps@) + strs(inner@[k as int].path@),
            tag: inner@[k as int].tag,
            text: inner@[k as int].text@,
        };
        fs.push(Fact { path, tag: inner[k].tag, text });
        assert(facts_view(fs@) =~= prev_fs.push(nf));
        assert(facts_view(inner@).take(k + 1) =~= facts_view(inner@).take(k as int).push(
            fact_view(inner@[k as int]),
        ));
        assert(prefix_facts(strs(comps@), facts_view(inner@).take(k + 1)) =~= prefix_facts(
            strs(comps@),
            facts_view(inner@).take(k as int),
        ).push(nf));
        assert(facts_view(fs@) =~= facts_view(old(fs)@) + prefix_facts(
            strs(comps@),
            facts_view(inner@).take(k + 1),
        ));
        k += 1;
    }
    assert(facts_view(inner@).take(k as int) =~= facts_view(inner@));
}

fn item_facts_of(src: &[u8], t: &SyntaxTree, bs: usize, c: usize, o: Opts) -> (r: Vec<Fact>)
    requires
        t.wf(src@.len()),
        bs < t.nodes@.len(),
    ensures
        facts_view(r@) == item_facts(src@, *t, bs as int, c as int, o),
    decreases t.nodes@.len() - bs, 1nat, 0nat,
{
    let mut fs: Vec<Fact> = Vec::new();
    if !(bs < c && c < t.nodes.len()) {
        assert(facts_view(fs@) =~= Seq::<FactView>::empty());
        return fs;
    }
    if t.nodes[c].kind == Kind::Binding {
        let comps = binding_components_of(src, t, c);
        match field_child_of(t, c, Field::Expression) {
            Some(v) => {
                if bs < v && v < t.nodes.len() {
                    assert(facts_view(fs@) =~= Seq::<FactView>::empty());
                    push_markers(&mut fs, &comps);
                    if t.nodes[v].kind == Kind::AttrsetExpression {
                        let vcs = content_children_of(t, v);
                        match first_binding_set_of(t, &vcs) {
                            Some(b2) => {
                                if bs < b2 && b2 < t.nodes.len() {
                                    let inner = set_facts_of(src, t, b2, o);
                                    push_prefixed(&mut fs, &comps, &inner);
                                } else {
                                    assert(facts_view(fs@) =~= facts_view(fs@) + Seq::<
                                        FactView,
                                    >::empty());
                                }
                            },
                            None => {
                                assert(facts_view(fs@) =~= facts_view(fs@) + Seq::<
                                    FactView,
                                >::empty());
                            },
                        }
                    } else {
                        let text = canon_node(src, t, v, o);
                        let ghost prev = facts_view(fs@);
                        let path = copy_strs(&comps);
                        fs.push(Fact { path, tag: 1, text });
                        assert(facts_view(fs@) =~= prev + seq![
                            FactView { path: strs(comps@), tag: 1, text: text@ },
                        ]);
                    }
                } else {
                    assert(facts_view(fs@) =~= Seq::<FactView>::empty());
                }
            },
            None => {
                assert(facts_view(fs@) =~= Seq::<FactView>::empty());
            },
        }
    } else {
        let text = canon_node(src, t, c, o);
        let path: Vec<Vec<u8>> = Vec::new();
        assert(strs(path@) =~= Seq::<Seq<u8>>::empty());
        fs.push(Fact { path, tag: 2, text });
        assert(facts_view(fs@) =~= seq![
            FactView { path: seq![], tag: 2, text: canon(src@, *t, c as int, o) },
        ]);
    }
    fs
}

fn set_facts_of(src: &[u8], t: &SyntaxTree, bs: usize, o: Opts) -> (r: Vec<Fact>)
    requires
        t.wf(src@.len()),
        bs < t.nodes@.len(),
    ensures
        facts_view(r@) == set_facts(src@, *t, bs as int, o),
    decreases t.nodes@.len() - bs, 2nat, 0nat,
{
    let cs = content_children_of(t, bs);
    let mut fs: Vec<Fact> = Vec::new();
    let mut k: usize = 0;
    assert(facts_view(fs@) =~= Seq::<FactView>::empty());
    while k < cs.len()
        invariant
            t.wf(src@.len()),
            bs < t.nodes@.len(),
            cs@ == content_children(*t, bs as int),
            k <= cs@.len(),
            facts_view(fs@) == facts_upto(src@, *t, bs as int, o, cs@, k as int),
        decreases cs.len() - k,
    {
        let more = item_facts_of(src, t, bs, cs[k], o);
        let ghost prev = facts_view(fs@);
        let mut more = more;
        fs.append(&mut more);
        assert(facts_view(fs@) =~= prev + item_facts(src@, *t, bs as int, cs@[k as int] as int, o));
        k += 1;
    }
    fs
}

} // verus!

verus! {

fn strs_eq(a: &Vec<Vec<u8>>, b: &Vec<Vec<u8>>) -> (r: bool)
    ensures
        r == (strs(a@) == strs(b@)),
{
    if a.len() != b.len() {
        assert(strs(a@).len() != strs(b@).len());
        return false;
    }
    let mut k: usize = 0;
    while k < a.len()
        invariant
            a@.len() == b@.len(),
            k <= a@.len(),
            forall|j: int| 0 <= j < k ==> a@[j]@ == b@[j]@,
        decreases a.len() - k,
    {
        if !bytes_eq(a[k].as_slice(), b[k].as_slice()) {
            assert(strs(a@)[k as int] != strs(b@)[k as int]);
            return false;
        }
        k += 1;
    }
    assert(strs(a@) =~= strs(b@));
    true
}

/// Whether `p` is a proper prefix of `a`.
fn strs_proper_prefix(a: &Vec<Vec<u8>>, p: &Vec<Vec<u8>>) -> (r: bool)
    ensures
        r == (strs(a@).len() > strs(p@).len() && strs(a@).take(strs(p@).len() as int) == strs(
            p@,
        )),
{
    if a.len() <= p.len() {
        return false;
    }
    let mut k: usize = 0;
    while k < p.len()
        invariant
            a@.len() > p@.len(),
            k <= p@.len(),
            forall|j: int| 0 <= j < k ==> a@[j]@ == p@[j]@,
        decreases p.len() - k,
    {
        if !bytes_eq(a[k].as_slice(), p[k].as_slice()) {
            assert(strs(a@).take(strs(p@).len() as int)[k as int] != strs(p@)[k as int]);
            return false;
        }
        k += 1;
    }
    assert(strs(a@).take(strs(p@).len() as int) =~= strs(p@));
    true
}

fn max_path_len_of(fs: &Vec<Fact>) -> (r: usize)
    ensures
        r == max_path_len(facts_view(fs@)),
{
    let mut m: usize = 0;
    let mut k: usize = 0;
    while k < fs.len()
        invariant
            k <= fs@.len(),
            m == max_path_len(facts_view(fs@).take(k as int)),
        decreases fs.len() - k,
    {
        assert(facts_view(fs@).take(k + 1).drop_last() =~= facts_view(fs@).take(k as int));
        if fs[k].path.len() > m {
            m = fs[k].path.len();
        }
        k += 1;
    }
    assert(facts_view(fs@).take(k as int) =~= facts_view(fs@));
    m
}

fn texts_at_of(fs: &Vec<Fact>, p: &Vec<Vec<u8>>, tag: u8) -> (r: Vec<Vec<u8>>)
    ensures
        strs(r@) == texts_at(facts_view(fs@), strs(p@), tag, fs@.len() as int),
{
    let mut r: Vec<Vec<u8>> = Vec::new();
    let mut k: usize = 0;
    while k < fs.len()
        invariant
            k <= fs@.len(),
            strs(r@) == texts_at(facts_view(fs@), strs(p@), tag, k as int),
        decreases fs.len() - k,
    {
        let ghost prev = strs(r@);
        if fs[k].tag == tag && strs_eq(&fs[k].path, p) {
            r.push(copy_bytes(fs[k].text.as_slice()));
            assert(strs(r@) =~= prev.push(fs@[k as int].text@));
        } else {
            assert(strs(r@) =~= prev + Seq::<Seq<u8>>::empty());
        }
        k += 1;
    }
    r
}

fn keys_below_of(fs: &Vec<Fact>, p: &Vec<Vec<u8>>) -> (r: Vec<Vec<u8>>)
    ensures
        strs(r@) == keys_below(facts_view(fs@), strs(p@), fs@.len() as int),
{
    let mut r: Vec<Vec<u8>> = Vec::new();
    let mut k: usize = 0;
    while k < fs.len()
        invariant
            k <= fs@.len(),
            strs(r@) == keys_below(facts_view(fs@), strs(p@), k as int),
        decreases fs.len() - k,
    {
        let ghost prev = strs(r@);
        if strs_proper_prefix(&fs[k].path, p) {
            r.push(copy_bytes(fs[k].path[p.len()].as_slice()));
            assert(strs(r@) =~= prev.push(strs(fs@[k as int].path@)[p@.len() as int]));
        } else {
            assert(strs(r@) =~= prev + Seq::<Seq<u8>>::empty());
        }
        k += 1;
    }
    r
}

fn dedup_adjacent_of(v: Vec<Vec<u8>>) -> (r: Vec<Vec<u8>>)
    ensures
        strs(r@) == dedup_adjacent(strs(v@)),
{
    let mut r: Vec<Vec<u8>> = Vec::new();
    let mut k: usize = 0;
    while k < v.len()
        invariant
            k <= v@.len(),
            strs(r@) == dedup_adjacent(strs(v@).take(k as int)),
        decreases v.len() - k,
    {
        let ghost prev = strs(r@);
        assert(strs(v@).take(k + 1).drop_last() =~= strs(v@).take(k as int));
        let n = r.len();
        if n > 0 && bytes_eq(r[n - 1].as_slice(), v[k].as_slice()) {
        } else {
            r.push(copy_bytes(v[k].as_slice()));
            assert(strs(r@) =~= prev.push(v@[k as int]@));
        }
        k += 1;
    }
    assert(strs(v@).take(k as int) =~= strs(v@));
    r
}

fn wrap_each_of(xs: &Vec<Vec<u8>>, pre: &str) -> (r: Vec<u8>)
    ensures
        r@ == wrap_each(strs(xs@), lit(pre), xs@.len() as int),
{
    let mut out: Vec<u8> = Vec::new();
    let mut k: usize = 0;
    while k < xs.len()
        invariant
            k <= xs@.len(),
            out@ == wrap_each(strs(xs@), lit(pre), k as int),
        decreases xs.len() - k,
    {
        push_str(&mut out, pre);
        push_all(&mut out, xs[k].as_slice());
        push_str(&mut out, ")");
        k += 1;
    }
    out
}

fn write_entry_of(fs: &Vec<Fact>, p: &Vec<Vec<u8>>) -> (r: Vec<u8>)
    ensures
        r@ == write_entry(facts_view(fs@), strs(p@)),
    decreases max_path_len(facts_view(fs@)) - strs(p@).len(), 1nat, 0nat,
{
    let vals = sort_byte_strings(texts_at_of(fs, p, 1));
    let opaque = sort_byte_strings(texts_at_of(fs, p, 2));
    let keys = dedup_adjacent_of(sort_byte_strings(keys_below_of(fs, p)));
    let mut out: Vec<u8> = Vec::new();
    push_str(&mut out, "(");
    let v = wrap_each_of(&vals, "(v ");
    push_all(&mut out, v.as_slice());
    let i = wrap_each_of(&opaque, "(i ");
    push_all(&mut out, i.as_slice());
    let c = write_children_of(fs, p, &keys);
    push_all(&mut out, c.as_slice());
    push_str(&mut out, ")");
    out
}

fn write_children_of(fs: &Vec<Fact>, p: &Vec<Vec<u8>>, keys: &Vec<Vec<u8>>) -> (r: Vec<u8>)
    ensures
        r@ == write_children(facts_view(fs@), strs(p@), strs(keys@), keys@.len() as int),
    decreases max_path_len(facts_view(fs@)) - strs(p@).len(), 0nat, 0nat,
{
    let mut out: Vec<u8> = Vec::new();
    let max = max_path_len_of(fs);
    if p.len() >= max {
        return out;
    }
    let mut j: usize = 0;
    while j < keys.len()
        invariant
            j <= keys@.len(),
            p@.len() < max == max_path_len(facts_view(fs@)),
            out@ == write_children(facts_view(fs@), strs(p@), strs(keys@), j as int),
        decreases keys.len() - j,
    {
        let mut sub = copy_strs(p);
        let ghost prev = strs(sub@);
        sub.push(copy_bytes(keys[j].as_slice()));
        assert(strs(sub@) =~= strs(p@).push(strs(keys@)[j as int]));
        push_str(&mut out, "(k ");
        push_all(&mut out, keys[j].as_slice());
        let e = write_entry_of(fs, &sub);
        push_all(&mut out, e.as_slice());
        push_str(&mut out, ")");
        j += 1;
    }
    out
}

} // verus!

verus! {

fn comments_below_of(src: &[u8], t: &SyntaxTree, i: usize) -> (r: Vec<Vec<u8>>)
    requires
        t.wf(src@.len()),
        i < t.nodes@.len(),
    ensures
        strs(r@) == comments_below(src@, *t, i as int),
    decreases t.nodes@.len() - i,
{
    let mut r: Vec<Vec<u8>> = Vec::new();
    let n = t.nodes[i].children.len();
    let mut k: usize = 0;
    while k < n
        invariant
            t.wf(src@.len()),
            i < t.nodes@.len(),
            n == t.n_children(i as int),
            k <= n,
            strs(r@) == comments_upto(src@, *t, i as int, k as int),
        decreases n - k,
    {
        let c = t.nodes[i].children[k];
        let ghost prev = strs(r@);
        if i < c && c < t.nodes.len() {
            if t.nodes[c].kind == Kind::Comment {
                let txt = node_text(src, t, c);
                r.push(txt);
                assert(strs(r@) =~= prev + seq![text_of(src@, *t, c as int)]);
            } else {
                let inner = comments_below_of(src, t, c);
                extend_strs(&mut r, &inner);
            }
        } else {
            assert(strs(r@) =~= prev + Seq::<Seq<u8>>::empty());
        }
        k += 1;
    }
    r
}

/// The fingerprint of a file with syntax tree `t`.
pub fn fingerprint_tree(src: &[u8], t: &SyntaxTree, o: Opts) -> (r: Vec<u8>)
    requires
        t.wf(src@.len()),
    ensures
        r@ == fingerprint_of(src@, *t, o),
{
    let mut out = canon_node(src, t, 0, o);
    push_str(&mut out, "\n#comments:");
    let cs = sort_byte_strings(comments_below_of(src, t, 0));
    let mut k: usize = 0;
    while k < cs.len()
        invariant
            k <= cs@.len(),
            out@ == canon(src@, *t, 0, o) + lit("\n#comments:") + comment_lines(
                strs(cs@),
                k as int,
            ),
        decreases cs.len() - k,
    {
        out.push(10u8);
        let trimmed = trim_end_bytes(cs[k].as_slice());
        push_all(&mut out, trimmed.as_slice());
        k += 1;
    }
    out
}

/// Why `src` has no syntax tree: the grammar gave no tree, or one that does
/// not nest.
pub open spec fn parse_error(src: Seq<char>, e: Error) -> bool {
    ||| e.kind is ParserFailed && nix_parse(src) is None
    ||| e.kind is MalformedTree && nix_malformed(src)
}

/// Whether `src` has a syntax tree.
pub open spec fn parses(src: Seq<char>) -> bool {
    nix_parse(src) is Some && !nix_malformed(src)
}

/// `f` is the fingerprint of the syntax tree of `src`.
pub open spec fn fingerprint_is(src: Seq<char>, f: Seq<u8>, o: Opts) -> bool {
    exists|t: SyntaxTree| #![trigger nix_tree(t, src)] nix_tree(t, src) && fingerprint_of(encode_utf8(src), t, o) == f
}

/// The syntax trees of `a` and `b` have the same fingerprint.
pub open spec fn same_fingerprint(a: Seq<char>, b: Seq<char>, o: Opts) -> bool {
    exists|t1: SyntaxTree, t2: SyntaxTree|
        #![trigger nix_tree(t1, a), nix_tree(t2, b)]
        nix_tree(t1, a) && nix_tree(t2, b) && fingerprint_of(encode_utf8(a), t1, o) == fingerprint_of(
            encode_utf8(b),
            t2,
            o,
        )
}

/// The syntax trees of `a` and `b` have different fingerprints.
pub open spec fn different_fingerprint(a: Seq<char>, b: Seq<char>, o: Opts) -> bool {
    exists|t1: SyntaxTree, t2: SyntaxTree|
        #![trigger nix_tree(t1, a), nix_tree(t2, b)]
        nix_tree(t1, a) && nix_tree(t2, b) && fingerprint_of(encode_utf8(a), t1, o) != fingerprint_of(
            encode_utf8(b),
            t2,
            o,
        )
}

/// What fingerprinting `src` ends with: the fingerprint of its syntax tree,
/// which is had wherever `src` has a tree and the fingerprint is UTF-8.
pub open spec fn fingerprint_result(src: Seq<char>, r: Result<String, Error>, o: Opts) -> bool {
    &&& r matches Ok(s) ==> fingerprint_is(src, encode_utf8(s@), o)
    &&& r matches Err(e) ==> parse_error(src, e) || (e.kind is InvalidOutput && exists|t: SyntaxTree|
        #![trigger nix_tree(t, src)]
        nix_tree(t, src) && !vstd::utf8::valid_utf8(fingerprint_of(encode_utf8(src), t, o)))
    &&& (parses(src) && forall|t: SyntaxTree|
        #![trigger nix_tree(t, src)]
        nix_tree(t, src) ==> vstd::utf8::valid_utf8(fingerprint_of(encode_utf8(src), t, o))) ==> r is Ok
}

/// The fingerprint of `src`, forgiving binding order only.
pub fn fingerprint(src: &str) -> (r: Result<String, Error>)
    ensures
        fingerprint_result(src@, r, Opts { unordered_lists: false, flatten_attrs: false, unstyled_names: false }),
{
    fingerprint_with(src, false, false, false)
}

/// The fingerprint of `src`, forgiving binding order and, where asked, list
/// order, attribute-path nesting and name quoting.
pub fn fingerprint_with(src: &str, unordered_lists: bool, flatten_attrs: bool, unstyled_names: bool) -> (r: Result<
    String,
    Error,
>)
    ensures
        fingerprint_result(src@, r, Opts { unordered_lists, flatten_attrs, unstyled_names }),
{
    let o = Opts { unordered_lists, flatten_attrs, unstyled_names };
    let t = match parse_source(src) {
        Ok(t) => t,
        Err(e) => return Err(e),
    };
    let bytes = src.as_bytes();
    let fp = fingerprint_tree(bytes, &t, o);
    output_string(fp)
}

/// Refuses a rewrite whose output differs in content from its input: `Ok`
/// exactly where the syntax trees of both have the same fingerprint.
pub fn check_same_content(before: &str, after: &str, unordered_lists: bool, flatten_attrs: bool, unstyled_names: bool) -> (r:
    Result<(), Error>)
    ensures
        r is Ok ==> same_fingerprint(before@, after@, Opts { unordered_lists, flatten_attrs, unstyled_names }),
        r matches Err(e) ==> parse_error(before@, e) || parse_error(after@, e) || (e.kind is ContentChanged
            && different_fingerprint(before@, after@, Opts { unordered_lists, flatten_attrs, unstyled_names })),
        parses(before@) && parses(after@) ==> (r is Ok || (r matches Err(e) && e.kind is ContentChanged)),
{
    let o = Opts { unordered_lists, flatten_attrs, unstyled_names };
    let t1 = match parse_source(before) {
        Ok(t) => t,
        Err(e) => return Err(e),
    };
    let t2 = match parse_source(after) {
        Ok(t) => t,
        Err(e) => return Err(e),
    };
    let f1 = fingerprint_tree(before.as_bytes(), &t1, o);
    let f2 = fingerprint_tree(after.as_bytes(), &t2, o);
    if bytes_eq(f1.as_slice(), f2.as_slice()) {
        assert(nix_tree(t1, before@) && nix_tree(t2, after@));
        Ok(())
    } else {
        assert(nix_tree(t1, before@) && nix_tree(t2, after@));
        Err(Error::new(ErrorKind::ContentChanged))
    }
}

} // verus!
