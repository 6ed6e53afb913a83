//! How the passes read and rewrite layout: indentation, the items of a
//! container with the comments that belong to them, and splicing rewritten
//! children back into a node's text.

use crate::bytes::{push_all, push_range};
use crate::syntax::{Kind, SyntaxTree};
use vstd::prelude::*;

verus! {

/// The start of the line that holds position `pos`.
pub open spec fn line_start(src: Seq<u8>, pos: int) -> int
    decreases pos,
{
    if pos <= 0 || pos > src.len() {
        0
    } else if src[pos - 1] == 10u8 {
        pos
    } else {
        line_start(src, pos - 1)
    }
}

pub proof fn lemma_line_start_bounds(src: Seq<u8>, pos: int)
    requires
        0 <= pos <= src.len(),
    ensures
        0 <= line_start(src, pos) <= pos,
    decreases pos,
{
    if pos > 0 && src[pos - 1] != 10u8 {
        lemma_line_start_bounds(src, pos - 1);
    }
}

pub fn line_start_of(src: &[u8], pos: usize) -> (r: usize)
    requires
        pos <= src@.len(),
    ensures
        r == line_start(src@, pos as int),
        r <= pos,
{
    let mut p = pos;
    while p > 0 && src[p - 1] != 10u8
        invariant
            p <= pos <= src@.len(),
            line_start(src@, pos as int) == line_start(src@, p as int),
        decreases p,
    {
        p -= 1;
    }
    p
}

/// Whether `s` holds nothing but spaces and tabs.
pub open spec fn all_blank(s: Seq<u8>) -> bool {
    forall|j: int| 0 <= j < s.len() ==> (#[trigger] s[j] == 32u8 || s[j] == 9u8)
}

/// The indentation that node `i` starts after: the text before it on its
/// line if that is blank, else as many spaces as its column.
pub open spec fn indent(src: Seq<u8>, t: SyntaxTree, i: int) -> Seq<u8> {
    let n = t.nodes@[i];
    let prefix = src.subrange(line_start(src, n.start as int), n.start as int);
    if all_blank(prefix) {
        prefix
    } else {
        Seq::new(n.start_col as nat, |_j: int| 32u8)
    }
}

pub fn indent_of(src: &[u8], t: &SyntaxTree, i: usize) -> (r: Vec<u8>)
    requires
        t.wf(src@.len()),
        i < t.nodes@.len(),
    ensures
        r@ == indent(src@, *t, i as int),
{
    proof {
        assert(t.node_wf(i as int, src@.len()));
    }
    let start = t.nodes[i].start;
    let ls = line_start_of(src, start);
    let mut k = ls;
    while k < start && (src[k] == 32u8 || src[k] == 9u8)
        invariant
            ls <= k <= start <= src@.len(),
            forall|j: int| ls <= j < k ==> (#[trigger] src@[j] == 32u8 || src@[j] == 9u8),
        decreases start - k,
    {
        k += 1;
    }
    let ghost prefix = src@.subrange(ls as int, start as int);
    if k == start {
        assert(all_blank(prefix)) by {
            assert forall|j: int| 0 <= j < prefix.len() implies (#[trigger] prefix[j] == 32u8 || prefix[j] == 9u8) by {
                assert(prefix[j] == src@[ls + j]);
            }
        }
        let mut v: Vec<u8> = Vec::new();
        push_range(&mut v, src, ls, start);
        v
    } else {
        assert(!all_blank(prefix)) by {
            assert(prefix[k - ls] == src@[k as int]);
        }
        let col = t.nodes[i].start_col;
        let mut v: Vec<u8> = Vec::new();
        let mut c: usize = 0;
        while c < col
            invariant
                c <= col,
                v@ =~= Seq::new(c as nat, |_j: int| 32u8),
            decreases col - c,
        {
            v.push(32u8);
            c += 1;
        }
        v
    }
}

/// The end of the spaces and tabs that start at `k`.
pub open spec fn blank_end(src: Seq<u8>, k: int) -> int
    decreases src.len() - k,
{
    if k < 0 || k >= src.len() {
        src.len() as int
    } else if src[k] == 32u8 || src[k] == 9u8 {
        blank_end(src, k + 1)
    } else {
        k
    }
}

pub proof fn lemma_blank_end_bounds(src: Seq<u8>, k: int)
    requires
        0 <= k <= src.len(),
    ensures
        k <= blank_end(src, k) <= src.len(),
    decreases src.len() - k,
{
    if k < src.len() {
        lemma_blank_end_bounds(src, k + 1);
    }
}

/// The spaces and tabs that the line holding node `i` starts with.
pub open spec fn line_indent(src: Seq<u8>, t: SyntaxTree, i: int) -> Seq<u8> {
    let ls = line_start(src, t.nodes@[i].start as int);
    src.subrange(ls, blank_end(src, ls))
}

pub fn line_indent_of(src: &[u8], t: &SyntaxTree, i: usize) -> (r: Vec<u8>)
    requires
        t.wf(src@.len()),
        i < t.nodes@.len(),
    ensures
        r@ == line_indent(src@, *t, i as int),
{
    proof {
        assert(t.node_wf(i as int, src@.len()));
    }
    let ls = line_start_of(src, t.nodes[i].start);
    let mut k = ls;
    while k < src.len() && (src[k] == 32u8 || src[k] == 9u8)
        invariant
            ls <= k <= src@.len(),
            blank_end(src@, ls as int) == blank_end(src@, k as int),
        decreases src.len() - k,
    {
        k += 1;
    }
    let mut v: Vec<u8> = Vec::new();
    push_range(&mut v, src, ls, k);
    v
}

/// Whether node `i` spans more than one line.
pub open spec fn multiline(t: SyntaxTree, i: int) -> bool {
    t.nodes@[i].start_row != t.nodes@[i].end_row
}

/// An element of a container: the comments on the lines before it, the node
/// itself, and a comment that follows it on its last line.
pub struct Item {
    pub leading: Vec<usize>,
    pub node: usize,
    pub trailing: Option<usize>,
}

pub struct ItemView {
    pub leading: Seq<usize>,
    pub node: usize,
    pub trailing: Option<usize>,
}

impl View for Item {
    type V = ItemView;

    open spec fn view(&self) -> ItemView {
        ItemView { leading: self.leading@, node: self.node, trailing: self.trailing }
    }
}

pub open spec fn item_views(items: Seq<Item>) -> Seq<ItemView> {
    items.map_values(|x: Item| x@)
}

/// The items and the comments left over after them, from the first `k`
/// nodes of `cs`: a comment on the line where the previous item ends, with
/// nothing in between, trails it; other comments lead the next item.
pub open spec fn collect_upto(t: SyntaxTree, cs: Seq<usize>, k: int) -> (Seq<ItemView>, Seq<usize>)
    decreases k,
{
    if k <= 0 || k > cs.len() {
        (seq![], seq![])
    } else {
        let (items, pending) = collect_upto(t, cs, k - 1);
        let c = cs[k - 1];
        if t.nodes@[c as int].kind == Kind::Comment {
            if items.len() > 0 && items.last().trailing is None && pending.len() == 0
                && t.nodes@[c as int].start_row == t.nodes@[items.last().node as int].end_row {
                (
                    items.update(
                        items.len() - 1,
                        ItemView { trailing: Some(c), ..items.last() },
                    ),
                    pending,
                )
            } else {
                (items, pending.push(c))
            }
        } else {
            (items.push(ItemView { leading: pending, node: c, trailing: None }), seq![])
        }
    }
}

/// Whether every node of `cs` is a node of `t`.
pub open spec fn nodes_in(t: SyntaxTree, cs: Seq<usize>) -> bool {
    forall|j: int| 0 <= j < cs.len() ==> (#[trigger] cs[j] as int) < t.nodes@.len()
}

/// Whether every node that the items name is one of `cs`.
pub open spec fn items_from(items: Seq<ItemView>, dangling: Seq<usize>, cs: Seq<usize>) -> bool {
    &&& forall|q: int| 0 <= q < items.len() ==> cs.contains(#[trigger] items[q].node)
    &&& forall|q: int, j: int|
        0 <= q < items.len() && 0 <= j < items[q].leading.len() ==> cs.contains(
            #[trigger] items[q].leading[j],
        )
    &&& forall|q: int| 0 <= q < items.len() ==> (#[trigger] items[q].trailing matches Some(c) ==> cs.contains(c))
    &&& forall|j: int| 0 <= j < dangling.len() ==> cs.contains(#[trigger] dangling[j])
}

pub proof fn lemma_collect_from(t: SyntaxTree, cs: Seq<usize>, k: int)
    requires
        0 <= k <= cs.len(),
    ensures
        items_from(collect_upto(t, cs, k).0, collect_upto(t, cs, k).1, cs),
    decreases k,
{
    if k > 0 {
        lemma_collect_from(t, cs, k - 1);
        let (items, pending) = collect_upto(t, cs, k - 1);
        assert(cs.contains(cs[k - 1]));
        let (i2, p2) = collect_upto(t, cs, k);
        assert forall|q: int| 0 <= q < i2.len() implies cs.contains(#[trigger] i2[q].node) by {
            if q < items.len() {
                assert(i2[q].node == items[q].node);
            }
        }
        assert forall|q: int, j: int|
            0 <= q < i2.len() && 0 <= j < i2[q].leading.len() implies cs.contains(
            #[trigger] i2[q].leading[j],
        ) by {
            if q < items.len() {
                assert(i2[q].leading == items[q].leading);
            } else {
                assert(i2[q].leading == pending);
            }
        }
        assert forall|q: int| 0 <= q < i2.len() implies (#[trigger] i2[q].trailing matches Some(c)
            ==> cs.contains(c)) by {
            if q < items.len() - 1 {
                assert(i2[q] == items[q]);
            }
        }
        assert forall|j: int| 0 <= j < p2.len() implies cs.contains(#[trigger] p2[j]) by {
            if j < pending.len() {
                assert(p2[j] == pending[j]);
            }
        }
    }
}

/// Groups the nodes `cs` into items, each with its comments, and the
/// comments left after the last item.
pub fn collect_items(t: &SyntaxTree, cs: &Vec<usize>) -> (r: (Vec<Item>, Vec<usize>))
    requires
        nodes_in(*t, cs@),
    ensures
        (item_views(r.0@), r.1@) == collect_upto(*t, cs@, cs@.len() as int),
{
    let mut items: Vec<Item> = Vec::new();
    let mut pending: Vec<usize> = Vec::new();
    let mut k: usize = 0;
    while k < cs.len()
        invariant
            k <= cs@.len(),
            nodes_in(*t, cs@),
            (item_views(items@), pending@) == collect_upto(*t, cs@, k as int),
            forall|q: int| 0 <= q < items@.len() ==> (#[trigger] items@[q].node as int) < t.nodes@.len(),
        decreases cs.len() - k,
    {
        let c = cs[k];
        let ghost iv = item_views(items@);
        if t.nodes[c].kind == Kind::Comment {
            let n = items.len();
            let attach = n > 0 && items[n - 1].trailing.is_none() && pending.len() == 0
                && t.nodes[c].start_row == t.nodes[items[n - 1].node].end_row;
            if attach {
                assert(iv.last() == items@[n - 1]@);
                let mut last = items.pop().unwrap();
                last.trailing = Some(c);
                items.push(last);
                assert(item_views(items@) =~= iv.update(
                    iv.len() - 1,
                    ItemView { trailing: Some(c), ..iv.last() },
                ));
            } else {
                pending.push(c);
            }
        } else {
            let leading = pending;
            pending = Vec::new();
            items.push(Item { leading, node: c, trailing: None });
            assert(item_views(items@) =~= iv.push(
                ItemView { leading: collect_upto(*t, cs@, k as int).1, node: c, trailing: None },
            ));
            assert(pending@ =~= seq![]);
        }
        k += 1;
    }
    (items, pending)
}

/// Whether the items or the leftover comments hold any comment.
pub open spec fn has_comments(items: Seq<ItemView>, dangling: Seq<usize>) -> bool {
    dangling.len() > 0 || exists|q: int| 0 <= q < items.len() && #[trigger] item_has_comments(items[q])
}

/// Whether an item carries a comment.
pub open spec fn item_has_comments(it: ItemView) -> bool {
    it.leading.len() > 0 || it.trailing is Some
}

pub fn items_have_comments(items: &Vec<Item>, dangling: &Vec<usize>) -> (r: bool)
    ensures
        r == has_comments(item_views(items@), dangling@),
{
    if dangling.len() > 0 {
        return true;
    }
    let mut k: usize = 0;
    while k < items.len()
        invariant
            k <= items@.len(),
            forall|q: int| 0 <= q < k ==> !#[trigger] item_has_comments(item_views(items@)[q]),
        decreases items.len() - k,
    {
        assert(item_views(items@)[k as int] == items@[k as int]@);
        if items[k].leading.len() > 0 || items[k].trailing.is_some() {
            assert(item_views(items@)[k as int] == items@[k as int]@);
            assert(item_has_comments(item_views(items@)[k as int]));
            return true;
        }
        k += 1;
    }
    false
}

/// The text of node `i` with each child `j` for which `rw[j]` holds a text
/// replaced by it, from child `j` on, starting at `pos`.
pub open spec fn splice_from(src: Seq<u8>, t: SyntaxTree, i: int, rw: Seq<Option<Seq<u8>>>, j: int, pos: int) -> Seq<u8>
    decreases t.n_children(i) - j,
{
    if j < 0 || j >= t.n_children(i) {
        src.subrange(pos, t.nodes@[i].end as int)
    } else {
        let c = t.child(i, j);
        match rw[j] {
            Some(txt) => src.subrange(pos, t.nodes@[c].start as int) + txt + splice_from(
                src,
                t,
                i,
                rw,
                j + 1,
                t.nodes@[c].end as int,
            ),
            None => splice_from(src, t, i, rw, j + 1, pos),
        }
    }
}

/// Whether some child is rewritten.
pub open spec fn any_rewritten(rw: Seq<Option<Seq<u8>>>) -> bool {
    exists|j: int| 0 <= j < rw.len() && (#[trigger] rw[j]) is Some
}

pub open spec fn texts(rw: Seq<Option<Vec<u8>>>) -> Seq<Option<Seq<u8>>> {
    rw.map_values(|x: Option<Vec<u8>>|
        match x {
            Some(v) => Some(v@),
            None => None,
        })
}

/// The text of node `i` with its children replaced where `rw` says, or
/// nothing where no child changes.
pub fn splice_children(src: &[u8], t: &SyntaxTree, i: usize, rw: &Vec<Option<Vec<u8>>>) -> (r: Option<Vec<u8>>)
    requires
        t.wf(src@.len()),
        i < t.nodes@.len(),
        rw@.len() == t.n_children(i as int),
    ensures
        match r {
            Some(v) => any_rewritten(texts(rw@)) && v@ == splice_from(
                src@,
                *t,
                i as int,
                texts(rw@),
                0,
                t.nodes@[i as int].start as int,
            ),
            None => !any_rewritten(texts(rw@)),
        },
{
    proof {
        assert(t.node_wf(i as int, src@.len()));
        if t.n_children(i as int) > 0 {
            assert(t.child_ok(i as int, 0));
        }
    }
    let node = &t.nodes[i];
    let ghost rs = texts(rw@);
    let mut out: Vec<u8> = Vec::new();
    let mut pos = node.start;
    let mut changed = false;
    let mut j: usize = 0;
    while j < node.children.len()
        invariant
            t.wf(src@.len()),
            node == t.nodes@[i as int],
            i < t.nodes@.len(),
            rw@.len() == node.children@.len(),
            rs == texts(rw@),
            j <= node.children@.len(),
            node.start <= pos <= node.end,
            j < node.children@.len() ==> pos <= t.nodes@[t.child(i as int, j as int)].start,
            out@ + splice_from(src@, *t, i as int, rs, j as int, pos as int) == splice_from(
                src@,
                *t,
                i as int,
                rs,
                0,
                node.start as int,
            ),
            changed <==> exists|q: int| 0 <= q < j && (#[trigger] rs[q]) is Some,
        decreases node.children.len() - j,
    {
        let c = node.children[j];
        proof {
            assert(t.node_wf(i as int, src@.len()));
            assert(t.child_ok(i as int, j as int));
            if j + 1 < node.children.len() {
                assert(t.sibling_ok(i as int, j + 1));
            }
            assert(t.node_wf(c as int, src@.len()));
        }
        match &rw[j] {
            Some(new_text) => {
                assert(rs[j as int] == Some(new_text@));
                let ghost before = out@;
                let ghost p0 = pos;
                push_range(&mut out, src, pos, t.nodes[c].start);
                push_all(&mut out, new_text.as_slice());
                pos = t.nodes[c].end;
                changed = true;
                assert(splice_from(src@, *t, i as int, rs, j as int, p0 as int) == src@.subrange(
                    p0 as int,
                    t.nodes@[c as int].start as int,
                ) + new_text@ + splice_from(src@, *t, i as int, rs, j + 1, pos as int));
                assert(out@ + splice_from(src@, *t, i as int, rs, j + 1, pos as int) =~= before
                    + splice_from(src@, *t, i as int, rs, j as int, p0 as int));
            },
            None => {
                assert(rs[j as int] is None);
            },
        }
        j += 1;
    }
    if !changed {
        assert(!any_rewritten(rs));
        return None;
    }
    push_range(&mut out, src, pos, node.end);
    Some(out)
}

/// The first child of node `i`, from child `k` on, of kind `kind`.
pub open spec fn first_child_of_kind(t: SyntaxTree, i: int, kind: Kind, k: int) -> Option<int>
    decreases t.n_children(i) - k,
{
    if k < 0 || k >= t.n_children(i) {
        None
    } else if t.nodes@[t.child(i, k)].kind == kind {
        Some(k)
    } else {
        first_child_of_kind(t, i, kind, k + 1)
    }
}

pub proof fn lemma_first_child_of_kind(t: SyntaxTree, i: int, kind: Kind, k: int)
    requires
        0 <= k,
    ensures
        first_child_of_kind(t, i, kind, k) matches Some(j) ==> k <= j < t.n_children(i)
            && t.nodes@[t.child(i, j)].kind == kind,
    decreases t.n_children(i) - k,
{
    if k < t.n_children(i) {
        lemma_first_child_of_kind(t, i, kind, k + 1);
    }
}

/// Whether child `j` of node `i` is a comment.
pub open spec fn child_is_comment(t: SyntaxTree, i: int, j: int) -> bool {
    t.nodes@[t.child(i, j)].kind == Kind::Comment
}

/// The first of the comments that run back from child `j`.
pub open spec fn comments_before(t: SyntaxTree, i: int, j: int) -> int
    decreases j,
{
    if j > 0 && child_is_comment(t, i, j - 1) {
        comments_before(t, i, j - 1)
    } else {
        j
    }
}

/// The last of the comments that run on from child `j`.
pub open spec fn comments_after(t: SyntaxTree, i: int, j: int) -> int
    decreases t.n_children(i) - j,
{
    if 0 <= j && j + 1 < t.n_children(i) && child_is_comment(t, i, j + 1) {
        comments_after(t, i, j + 1)
    } else {
        j
    }
}

pub proof fn lemma_comments_bounds(t: SyntaxTree, i: int, j: int)
    requires
        0 <= j < t.n_children(i),
    ensures
        0 <= comments_before(t, i, j) <= j,
        j <= comments_after(t, i, j) < t.n_children(i),
    decreases j,
{
    lemma_comments_after_bounds(t, i, j);
    if j > 0 && child_is_comment(t, i, j - 1) {
        lemma_comments_bounds(t, i, j - 1);
    }
}

proof fn lemma_comments_after_bounds(t: SyntaxTree, i: int, j: int)
    requires
        0 <= j < t.n_children(i),
    ensures
        j <= comments_after(t, i, j) < t.n_children(i),
    decreases t.n_children(i) - j,
{
    if j + 1 < t.n_children(i) && child_is_comment(t, i, j + 1) {
        lemma_comments_after_bounds(t, i, j + 1);
    }
}

/// The binding set of a container with the comments around it: the children
/// `s..=e` of node `i` that it spans, with `b` the binding set among them.
pub open spec fn region_of(t: SyntaxTree, i: int) -> Option<(int, int, int)> {
    match first_child_of_kind(t, i, Kind::BindingSet, 0) {
        Some(b) => Some((comments_before(t, i, b), b, comments_after(t, i, b))),
        None => None,
    }
}

/// The nodes of a container's region in order: the comments before the
/// binding set, its children, and the comments after it.
pub open spec fn region_nodes(t: SyntaxTree, i: int, s: int, b: int, e: int) -> Seq<usize> {
    t.nodes@[i].children@.subrange(s, b) + t.nodes@[t.child(i, b)].children@ + t.nodes@[i].children@.subrange(
        b + 1,
        e + 1,
    )
}

/// The region of container `i`, as child indices `(s, b, e)`, and its nodes.
pub fn container_region(t: &SyntaxTree, i: usize) -> (r: Option<(usize, usize, usize, Vec<usize>)>)
    requires
        i < t.nodes@.len(),
        forall|j: int| 0 <= j < t.n_children(i as int) ==> (#[trigger] t.child(i as int, j)) < t.nodes@.len(),
    ensures
        match r {
            Some((s, b, e, flat)) => region_of(*t, i as int) == Some((s as int, b as int, e as int))
                && flat@ == region_nodes(*t, i as int, s as int, b as int, e as int)
                && s <= b <= e < t.n_children(i as int),
            None => region_of(*t, i as int) is None,
        },
{
    let node = &t.nodes[i];
    let n = node.children.len();
    let mut b: usize = 0;
    while b < n && t.nodes[node.children[b]].kind != Kind::BindingSet
        invariant
            node == t.nodes@[i as int],
            n == node.children@.len(),
            b <= n,
            forall|j: int| 0 <= j < n ==> (#[trigger] t.child(i as int, j)) < t.nodes@.len(),
            first_child_of_kind(*t, i as int, Kind::BindingSet, 0) == first_child_of_kind(
                *t,
                i as int,
                Kind::BindingSet,
                b as int,
            ),
        decreases n - b,
    {
        b += 1;
    }
    if b == n {
        return None;
    }
    let mut s = b;
    while s > 0 && t.nodes[node.children[s - 1]].kind == Kind::Comment
        invariant
            node == t.nodes@[i as int],
            n == node.children@.len(),
            s <= b < n,
            forall|j: int| 0 <= j < n ==> (#[trigger] t.child(i as int, j)) < t.nodes@.len(),
            comments_before(*t, i as int, b as int) == comments_before(*t, i as int, s as int),
        decreases s,
    {
        s -= 1;
    }
    let mut e = b;
    while e + 1 < n && t.nodes[node.children[e + 1]].kind == Kind::Comment
        invariant
            node == t.nodes@[i as int],
            n == node.children@.len(),
            b <= e < n,
            forall|j: int| 0 <= j < n ==> (#[trigger] t.child(i as int, j)) < t.nodes@.len(),
            comments_after(*t, i as int, b as int) == comments_after(*t, i as int, e as int),
        decreases n - e,
    {
        e += 1;
    }
    let mut flat: Vec<usize> = Vec::new();
    let mut k = s;
    while k < b
        invariant
            node == t.nodes@[i as int],
            s <= k <= b < n,
            n == node.children@.len(),
            flat@ == node.children@.subrange(s as int, k as int),
        decreases b - k,
    {
        flat.push(node.children[k]);
        k += 1;
        assert(flat@ =~= node.children@.subrange(s as int, k as int));
    }
    let bs = &t.nodes[node.children[b]];
    let ghost f1 = flat@;
    let mut q: usize = 0;
    while q < bs.children.len()
        invariant
            q <= bs.children@.len(),
            flat@ == f1 + bs.children@.take(q as int),
        decreases bs.children.len() - q,
    {
        flat.push(bs.children[q]);
        q += 1;
        assert(flat@ =~= f1 + bs.children@.take(q as int));
    }
    assert(bs.children@.take(q as int) =~= bs.children@);
    let ghost f2 = flat@;
    let mut k = b + 1;
    while k <= e
        invariant
            node == t.nodes@[i as int],
            b < k <= e + 1,
            e < n,
            n == node.children@.len(),
            flat@ == f2 + node.children@.subrange(b + 1, k as int),
        decreases e + 1 - k,
    {
        flat.push(node.children[k]);
        k += 1;
        assert(flat@ =~= f2 + node.children@.subrange(b + 1, k as int));
    }
    proof {
        lemma_first_child_of_kind(*t, i as int, Kind::BindingSet, 0);
        lemma_comments_bounds(*t, i as int, b as int);
    }
    Some((s, b, e, flat))
}

/// The text of node `i` with children `s..=e` replaced by `region`, and every
/// other child `j` for which `rw[j]` holds a text replaced by it, from child
/// `j` on, starting at `pos`.
pub open spec fn splice_region_from(
    src: Seq<u8>,
    t: SyntaxTree,
    i: int,
    s: int,
    e: int,
    region: Seq<u8>,
    rw: Seq<Option<Seq<u8>>>,
    j: int,
    pos: int,
) -> Seq<u8>
    decreases t.n_children(i) - j,
{
    if j < 0 || j >= t.n_children(i) {
        src.subrange(pos, t.nodes@[i].end as int)
    } else if s <= j <= e {
        if j == s {
            src.subrange(pos, t.nodes@[t.child(i, s)].start as int) + region + splice_region_from(
                src,
                t,
                i,
                s,
                e,
                region,
                rw,
                j + 1,
                t.nodes@[t.child(i, e)].end as int,
            )
        } else {
            splice_region_from(src, t, i, s, e, region, rw, j + 1, pos)
        }
    } else {
        let c = t.child(i, j);
        match rw[j] {
            Some(txt) => src.subrange(pos, t.nodes@[c].start as int) + txt + splice_region_from(
                src,
                t,
                i,
                s,
                e,
                region,
                rw,
                j + 1,
                t.nodes@[c].end as int,
            ),
            None => splice_region_from(src, t, i, s, e, region, rw, j + 1, pos),
        }
    }
}

proof fn lemma_child_order(t: SyntaxTree, n_src: nat, i: int, a: int, b: int)
    requires
        t.wf(n_src),
        0 <= i < t.len(),
        0 <= a < b < t.n_children(i),
    ensures
        t.nodes@[t.child(i, a)].end <= t.nodes@[t.child(i, b)].start,
    decreases b - a,
{
    assert(t.node_wf(i, n_src));
    assert(t.sibling_ok(i, b));
    if a < b - 1 {
        lemma_child_order(t, n_src, i, a, b - 1);
        assert(t.child_ok(i, b - 1));
        assert(t.node_wf(t.child(i, b - 1), n_src));
    }
}

/// The text of node `i` with its children `s..=e` replaced by `region`, and
/// its other children replaced where `rw` says.
pub fn splice_region(
    src: &[u8],
    t: &SyntaxTree,
    i: usize,
    s: usize,
    e: usize,
    region: &Vec<u8>,
    rw: &Vec<Option<Vec<u8>>>,
) -> (r: Vec<u8>)
    requires
        t.wf(src@.len()),
        i < t.nodes@.len(),
        s <= e < t.n_children(i as int),
        rw@.len() == t.n_children(i as int),
    ensures
        r@ == splice_region_from(
            src@,
            *t,
            i as int,
            s as int,
            e as int,
            region@,
            texts(rw@),
            0,
            t.nodes@[i as int].start as int,
        ),
{
    proof {
        assert(t.node_wf(i as int, src@.len()));
        assert(t.child_ok(i as int, 0));
    }
    let node = &t.nodes[i];
    let ghost rs = texts(rw@);
    let mut out: Vec<u8> = Vec::new();
    let mut pos = node.start;
    let mut j: usize = 0;
    while j < node.children.len()
        invariant
            t.wf(src@.len()),
            node == t.nodes@[i as int],
            i < t.nodes@.len(),
            s <= e < node.children@.len(),
            rw@.len() == node.children@.len(),
            rs == texts(rw@),
            j <= node.children@.len(),
            node.start <= pos <= node.end,
            (j < node.children@.len() && (j <= s || j > e)) ==> pos <= t.nodes@[t.child(
                i as int,
                j as int,
            )].start,
            (s < j <= e) ==> pos == t.nodes@[t.child(i as int, e as int)].end,
            out@ + splice_region_from(src@, *t, i as int, s as int, e as int, region@, rs, j as int, pos as int)
                == splice_region_from(
                src@,
                *t,
                i as int,
                s as int,
                e as int,
                region@,
                rs,
                0,
                node.start as int,
            ),
        decreases node.children.len() - j,
    {
        let c = node.children[j];
        proof {
            assert(t.node_wf(i as int, src@.len()));
            assert(t.child_ok(i as int, j as int));
            if j + 1 < node.children.len() {
                assert(t.sibling_ok(i as int, j + 1));
            }
            assert(t.node_wf(c as int, src@.len()));
            assert(t.child_ok(i as int, e as int));
            assert(t.node_wf(t.child(i as int, e as int), src@.len()));
            if (j == s || j == e) && e + 1 < node.children.len() {
                lemma_child_order(*t, src@.len(), i as int, e as int, e + 1);
            }
            if j < s {
                lemma_child_order(*t, src@.len(), i as int, j as int, s as int);
            }
        }
        let ghost before = out@;
        let ghost p0 = pos;
        if s <= j && j <= e {
            if j == s {
                let ec = node.children[e];
                push_range(&mut out, src, pos, t.nodes[c].start);
                push_all(&mut out, region.as_slice());
                pos = t.nodes[ec].end;
                assert(out@ + splice_region_from(src@, *t, i as int, s as int, e as int, region@, rs, j + 1, pos as int)
                    =~= before + splice_region_from(src@, *t, i as int, s as int, e as int, region@, rs, j as int, p0 as int));
            }
        } else {
            match &rw[j] {
                Some(new_text) => {
                    assert(rs[j as int] == Some(new_text@));
                    push_range(&mut out, src, pos, t.nodes[c].start);
                    push_all(&mut out, new_text.as_slice());
                    pos = t.nodes[c].end;
                    assert(out@ + splice_region_from(src@, *t, i as int, s as int, e as int, region@, rs, j + 1, pos as int)
                        =~= before + splice_region_from(src@, *t, i as int, s as int, e as int, region@, rs, j as int, p0 as int));
                },
                None => {
                    assert(rs[j as int] is None);
                },
            }
        }
        j += 1;
    }
    push_range(&mut out, src, pos, node.end);
    assert(out@ =~= splice_region_from(
        src@,
        *t,
        i as int,
        s as int,
        e as int,
        region@,
        rs,
        0,
        node.start as int,
    ));
    out
}

/// The leading comments of an item, each followed by `sep`.
pub open spec fn leading_text(src: Seq<u8>, t: SyntaxTree, cs: Seq<usize>, sep: Seq<u8>, k: int) -> Seq<u8>
    decreases k,
{
    if k <= 0 || k > cs.len() {
        seq![]
    } else {
        leading_text(src, t, cs, sep, k - 1) + crate::syntax::text_of(src, t, cs[k - 1] as int) + sep
    }
}

/// An item as it is written out: its leading comments, each followed by
/// `sep`, its node's text or `body` where the node was rewritten, `suffix`,
/// and its trailing comment after a space.
pub open spec fn item_text(
    src: Seq<u8>,
    t: SyntaxTree,
    it: ItemView,
    body: Option<Seq<u8>>,
    sep: Seq<u8>,
    suffix: Seq<u8>,
) -> Seq<u8> {
    leading_text(src, t, it.leading, sep, it.leading.len() as int) + match body {
        Some(b) => b,
        None => crate::syntax::text_of(src, t, it.node as int),
    } + suffix + match it.trailing {
        Some(c) => seq![32u8] + crate::syntax::text_of(src, t, c as int),
        None => seq![],
    }
}

/// Whether the item names only nodes of `t`.
pub open spec fn item_in(t: SyntaxTree, it: ItemView) -> bool {
    &&& (it.node as int) < t.nodes@.len()
    &&& nodes_in(t, it.leading)
    &&& (it.trailing matches Some(c) ==> (c as int) < t.nodes@.len())
}

pub fn render_item(
    src: &[u8],
    t: &SyntaxTree,
    item: &Item,
    body: &Option<Vec<u8>>,
    sep: &Vec<u8>,
    suffix: &[u8],
) -> (r: Vec<u8>)
    requires
        t.wf(src@.len()),
        item_in(*t, item@),
    ensures
        r@ == item_text(
            src@,
            *t,
            item@,
            match body {
                Some(b) => Some(b@),
                None => None,
            },
            sep@,
            suffix@,
        ),
{
    let mut out: Vec<u8> = Vec::new();
    let mut k: usize = 0;
    while k < item.leading.len()
        invariant
            t.wf(src@.len()),
            item_in(*t, item@),
            k <= item.leading@.len(),
            out@ == leading_text(src@, *t, item.leading@, sep@, k as int),
        decreases item.leading.len() - k,
    {
        let c = item.leading[k];
        proof {
            assert(t.node_wf(c as int, src@.len()));
        }
        push_range(&mut out, src, t.nodes[c].start, t.nodes[c].end);
        push_all(&mut out, sep.as_slice());
        k += 1;
    }
    proof {
        assert(t.node_wf(item.node as int, src@.len()));
    }
    match body {
        Some(b) => push_all(&mut out, b.as_slice()),
        None => push_range(&mut out, src, t.nodes[item.node].start, t.nodes[item.node].end),
    }
    push_all(&mut out, suffix);
    match item.trailing {
        Some(c) => {
            proof {
                assert(t.node_wf(c as int, src@.len()));
            }
            let ghost before = out@;
            out.push(32u8);
            push_range(&mut out, src, t.nodes[c].start, t.nodes[c].end);
            assert(out@ =~= before + seq![32u8] + crate::syntax::text_of(src@, *t, c as int));
        },
        None => {
            assert(out@ =~= out@ + Seq::<u8>::empty());
        },
    }
    out
}

/// The blocks joined by `sep`.
pub open spec fn join(blocks: Seq<Seq<u8>>, sep: Seq<u8>) -> Seq<u8>
    decreases blocks.len(),
{
    if blocks.len() == 0 {
        seq![]
    } else if blocks.len() == 1 {
        blocks[0]
    } else {
        join(blocks.drop_last(), sep) + sep + blocks.last()
    }
}

pub fn join_blocks(blocks: &Vec<Vec<u8>>, sep: &[u8]) -> (r: Vec<u8>)
    ensures
        r@ == join(blocks@.map_values(|b: Vec<u8>| b@), sep@),
{
    let ghost bs = blocks@.map_values(|b: Vec<u8>| b@);
    let mut out: Vec<u8> = Vec::new();
    let mut k: usize = 0;
    while k < blocks.len()
        invariant
            k <= blocks@.len(),
            bs == blocks@.map_values(|b: Vec<u8>| b@),
            out@ == join(bs.take(k as int), sep@),
        decreases blocks.len() - k,
    {
        if k > 0 {
            push_all(&mut out, sep);
        }
        push_all(&mut out, blocks[k].as_slice());
        k += 1;
        assert(bs.take(k as int).drop_last() =~= bs.take(k - 1));
    }
    assert(bs.take(k as int) =~= bs);
    out
}

} // verus!
