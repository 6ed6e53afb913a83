//! The syntax tree that every pass works on: a pre-order arena of nodes
//! carrying the byte ranges, positions and kinds that the passes read.

use crate::bytes::push_range;
use vstd::prelude::*;

verus! {

/// The node kinds of the Nix grammar that the passes tell apart.
#[derive(Clone, Copy, PartialEq, Eq, Structural, Debug)]
pub enum Kind {
    AttrsetExpression,
    RecAttrsetExpression,
    LetAttrsetExpression,
    LetExpression,
    Formals,
    Formal,
    Ellipses,
    ListExpression,
    InheritedAttrs,
    Inherit,
    InheritFrom,
    Binding,
    BindingSet,
    Attrpath,
    Identifier,
    StringExpression,
    Interpolation,
    Comment,
    IndentedStringExpression,
    StringFragment,
    EscapeSequence,
    SourceCode,
    ParenthesizedExpression,
    FunctionExpression,
    WithExpression,
    AssertExpression,
    Other,
}

/// The grammar field under which a node hangs in its parent.
#[derive(Clone, Copy, PartialEq, Eq, Structural, Debug)]
pub enum Field {
    Expression,
    Attrpath,
    Attrs,
    Body,
    Name,
    Default,
    Other,
    Unnamed,
}

/// One node of the syntax tree.
pub struct SyntaxNode {
    pub kind: Kind,
    /// The grammar's name for the node type, as UTF-8 bytes.
    pub kind_name: Vec<u8>,
    pub field: Field,
    pub named: bool,
    pub start: usize,
    pub end: usize,
    pub start_row: usize,
    pub start_col: usize,
    pub end_row: usize,
    pub parent: Option<usize>,
    /// Indices of the children, in source order.
    pub children: Vec<usize>,
}

/// A syntax tree: node 0 is the root, and every child comes after its parent.
pub struct SyntaxTree {
    pub nodes: Vec<SyntaxNode>,
    pub has_error: bool,
}

impl SyntaxTree {
    pub open spec fn len(&self) -> nat {
        self.nodes@.len()
    }

    pub open spec fn node(&self, i: int) -> SyntaxNode {
        self.nodes@[i]
    }

    pub open spec fn child(&self, i: int, j: int) -> int {
        self.nodes@[i].children@[j] as int
    }

    pub open spec fn n_children(&self, i: int) -> int {
        self.nodes@[i].children@.len() as int
    }

    /// Child `j` of node `i` comes after it, points back at it and nests
    /// inside it.
    pub open spec fn child_ok(&self, i: int, j: int) -> bool {
        let c = self.child(i, j);
        &&& i < c < self.nodes@.len()
        &&& self.nodes@[c].parent == Some(i as usize)
        &&& self.nodes@[i].start <= self.nodes@[c].start
        &&& self.nodes@[c].end <= self.nodes@[i].end
    }

    /// Child `j` of node `i` starts where child `j - 1` has ended.
    pub open spec fn sibling_ok(&self, i: int, j: int) -> bool {
        self.nodes@[self.child(i, j - 1)].end <= self.nodes@[self.child(i, j)].start
    }

    /// Node `i` lies inside a source of `n_src` bytes, and so do its children,
    /// in order.
    pub open spec fn node_wf(&self, i: int, n_src: nat) -> bool {
        let n = self.nodes@[i];
        &&& n.start <= n.end <= n_src
        &&& n.start_row <= n.end_row
        &&& (n.parent matches Some(p) ==> p < i)
        &&& forall|j: int| 0 <= j < n.children@.len() ==> #[trigger] self.child_ok(i, j)
        &&& forall|j: int| 0 < j < n.children@.len() ==> #[trigger] self.sibling_ok(i, j)
    }

    pub open spec fn wf(&self, n_src: nat) -> bool {
        &&& self.nodes@.len() > 0
        &&& self.nodes@[0].parent is None
        &&& forall|i: int| 0 <= i < self.nodes@.len() ==> #[trigger] self.node_wf(i, n_src)
    }
}

/// The source bytes that node `i` covers.
pub open spec fn text_of(src: Seq<u8>, t: SyntaxTree, i: int) -> Seq<u8> {
    src.subrange(t.nodes@[i].start as int, t.nodes@[i].end as int)
}

} // verus!

verus! {

/// Whether node `c` is named and not a comment.
pub open spec fn is_content(t: SyntaxTree, c: int) -> bool {
    0 <= c < t.nodes@.len() && t.nodes@[c].named && t.nodes@[c].kind != Kind::Comment
}

/// The named, non-comment children of node `i` among its first `k` children.
pub open spec fn content_children_upto(t: SyntaxTree, i: int, k: int) -> Seq<usize>
    decreases k,
{
    if k <= 0 {
        seq![]
    } else {
        let c = t.nodes@[i].children@[k - 1];
        content_children_upto(t, i, k - 1) + if is_content(t, c as int) {
            seq![c]
        } else {
            seq![]
        }
    }
}

/// The named, non-comment children of node `i`, in order.
pub open spec fn content_children(t: SyntaxTree, i: int) -> Seq<usize> {
    content_children_upto(t, i, t.n_children(i))
}

pub proof fn lemma_content_children_bounds(t: SyntaxTree, n_src: nat, i: int, k: int)
    requires
        t.wf(n_src),
        0 <= i < t.len(),
        0 <= k <= t.n_children(i),
    ensures
        forall|q: int|
            0 <= q < content_children_upto(t, i, k).len() ==> i < #[trigger] content_children_upto(
                t,
                i,
                k,
            )[q] < t.len(),
    decreases k,
{
    if k > 0 {
        lemma_content_children_bounds(t, n_src, i, k - 1);
        assert(t.node_wf(i, n_src));
        assert(t.child_ok(i, k - 1));
        let s = content_children_upto(t, i, k - 1);
        let all = content_children_upto(t, i, k);
        assert forall|q: int| 0 <= q < all.len() implies i < #[trigger] all[q] < t.len() by {
            if q < s.len() {
                assert(all[q] == s[q]);
            }
        }
    }
}

/// The named, non-comment children of node `i`.
pub fn content_children_of(t: &SyntaxTree, i: usize) -> (r: Vec<usize>)
    requires
        i < t.nodes@.len(),
    ensures
        r@ == content_children(*t, i as int),
{
    let node = &t.nodes[i];
    let mut r: Vec<usize> = Vec::new();
    let mut k: usize = 0;
    while k < node.children.len()
        invariant
            node == t.nodes@[i as int],
            k <= node.children@.len(),
            r@ == content_children_upto(*t, i as int, k as int),
        decreases node.children.len() - k,
    {
        let c = node.children[k];
        if c < t.nodes.len() && t.nodes[c].named && t.nodes[c].kind != Kind::Comment {
            r.push(c);
        }
        k += 1;
    }
    r
}

} // verus!

verus! {

/// The text between a leading and a trailing double quote, if both are there.
pub open spec fn unquote(s: Seq<u8>) -> Option<Seq<u8>> {
    if s.len() >= 2 && s[0] == 34u8 && s[s.len() - 1] == 34u8 {
        Some(s.subrange(1, s.len() - 1))
    } else {
        None
    }
}

/// The text of `s` without its surrounding double quotes, if it has both.
pub fn unquote_bytes(s: &[u8]) -> (r: Option<Vec<u8>>)
    ensures
        match r {
            Some(v) => unquote(s@) == Some(v@),
            None => unquote(s@) is None,
        },
{
    let n = s.len();
    if n >= 2 && s[0] == 34u8 && s[n - 1] == 34u8 {
        let mut v: Vec<u8> = Vec::new();
        push_range(&mut v, s, 1, n - 1);
        Some(v)
    } else {
        None
    }
}

/// The text of node `i`.
pub fn node_text(src: &[u8], t: &SyntaxTree, i: usize) -> (r: Vec<u8>)
    requires
        t.wf(src@.len()),
        i < t.nodes@.len(),
    ensures
        r@ == text_of(src@, *t, i as int),
{
    proof {
        assert(t.node_wf(i as int, src@.len()));
    }
    let mut v: Vec<u8> = Vec::new();
    push_range(&mut v, src, t.nodes[i].start, t.nodes[i].end);
    v
}

/// A name as the passes compare it: a quoted string name counts by its inner
/// text.
pub open spec fn normalize_key(src: Seq<u8>, t: SyntaxTree, i: int) -> Seq<u8> {
    let raw = text_of(src, t, i);
    if t.nodes@[i].kind == Kind::StringExpression && unquote(raw) is Some {
        unquote(raw).unwrap()
    } else {
        raw
    }
}

pub fn normalize_key_of(src: &[u8], t: &SyntaxTree, i: usize) -> (r: Vec<u8>)
    requires
        t.wf(src@.len()),
        i < t.nodes@.len(),
    ensures
        r@ == normalize_key(src@, *t, i as int),
{
    let raw = node_text(src, t, i);
    if t.nodes[i].kind == Kind::StringExpression {
        match unquote_bytes(raw.as_slice()) {
            Some(inner) => return inner,
            None => {},
        }
    }
    raw
}

/// Whether some child of node `i` among its first `k` is an interpolation.
pub open spec fn has_interpolation_upto(t: SyntaxTree, i: int, k: int) -> bool
    decreases k,
{
    if k <= 0 {
        false
    } else {
        has_interpolation_upto(t, i, k - 1) || {
            let c = t.nodes@[i].children@[k - 1] as int;
            0 <= c < t.nodes@.len() && t.nodes@[c].kind == Kind::Interpolation
        }
    }
}

pub open spec fn has_interpolation(t: SyntaxTree, i: int) -> bool {
    has_interpolation_upto(t, i, t.n_children(i))
}

pub fn has_interpolation_child(t: &SyntaxTree, i: usize) -> (r: bool)
    requires
        i < t.nodes@.len(),
    ensures
        r == has_interpolation(*t, i as int),
{
    let node = &t.nodes[i];
    let mut k: usize = 0;
    let mut found = false;
    while k < node.children.len()
        invariant
            node == t.nodes@[i as int],
            k <= node.children@.len(),
            found == has_interpolation_upto(*t, i as int, k as int),
        decreases node.children.len() - k,
    {
        let c = node.children[k];
        if c < t.nodes.len() && t.nodes[c].kind == Kind::Interpolation {
            found = true;
        }
        k += 1;
    }
    found
}

/// The name that node `i` spells out without any evaluation, if it does.
pub open spec fn static_name(src: Seq<u8>, t: SyntaxTree, i: int) -> Option<Seq<u8>> {
    let raw = text_of(src, t, i);
    match t.nodes@[i].kind {
        Kind::Identifier => Some(raw),
        Kind::StringExpression => if has_interpolation(t, i) {
            None
        } else {
            unquote(raw)
        },
        _ => None,
    }
}

pub fn static_name_of(src: &[u8], t: &SyntaxTree, i: usize) -> (r: Option<Vec<u8>>)
    requires
        t.wf(src@.len()),
        i < t.nodes@.len(),
    ensures
        match r {
            Some(v) => static_name(src@, *t, i as int) == Some(v@),
            None => static_name(src@, *t, i as int) is None,
        },
{
    match t.nodes[i].kind {
        Kind::Identifier => Some(node_text(src, t, i)),
        Kind::StringExpression => {
            if has_interpolation_child(t, i) {
                None
            } else {
                let raw = node_text(src, t, i);
                unquote_bytes(raw.as_slice())
            }
        },
        _ => None,
    }
}

/// The first child of node `i`, from child `k` on, that hangs under `f`.
pub open spec fn field_child_from(t: SyntaxTree, i: int, f: Field, k: int) -> Option<usize>
    decreases t.n_children(i) - k,
{
    if k < 0 || k >= t.n_children(i) {
        None
    } else {
        let c = t.nodes@[i].children@[k];
        if (c as int) < t.nodes@.len() && t.nodes@[c as int].field == f {
            Some(c)
        } else {
            field_child_from(t, i, f, k + 1)
        }
    }
}

/// The first child of node `i` that hangs under field `f`.
pub open spec fn field_child(t: SyntaxTree, i: int, f: Field) -> Option<usize> {
    field_child_from(t, i, f, 0)
}

pub proof fn lemma_field_child_bounds(t: SyntaxTree, n_src: nat, i: int, f: Field, k: int)
    requires
        t.wf(n_src),
        0 <= i < t.len(),
        0 <= k,
    ensures
        field_child_from(t, i, f, k) matches Some(c) ==> i < c < t.len(),
    decreases t.n_children(i) - k,
{
    if k < t.n_children(i) {
        assert(t.node_wf(i, n_src));
        assert(t.child_ok(i, k));
        lemma_field_child_bounds(t, n_src, i, f, k + 1);
    }
}

pub fn field_child_of(t: &SyntaxTree, i: usize, f: Field) -> (r: Option<usize>)
    requires
        i < t.nodes@.len(),
    ensures
        r == field_child(*t, i as int, f),
{
    let node = &t.nodes[i];
    let mut k: usize = 0;
    while k < node.children.len()
        invariant
            node == t.nodes@[i as int],
            k <= node.children@.len(),
            field_child(*t, i as int, f) == field_child_from(*t, i as int, f, k as int),
        decreases node.children.len() - k,
    {
        let c = node.children[k];
        if c < t.nodes.len() && t.nodes[c].field == f {
            return Some(c);
        }
        k += 1;
    }
    None
}

/// The names that the named, non-comment children of node `i` spell.
pub open spec fn content_names(src: Seq<u8>, t: SyntaxTree, i: int) -> Seq<Seq<u8>> {
    content_children(t, i).map_values(|c: usize| normalize_key(src, t, c as int))
}

pub fn content_names_of(src: &[u8], t: &SyntaxTree, i: usize) -> (r: Vec<Vec<u8>>)
    requires
        t.wf(src@.len()),
        i < t.nodes@.len(),
    ensures
        r@.map_values(|v: Vec<u8>| v@) == content_names(src@, *t, i as int),
{
    let cs = content_children_of(t, i);
    proof {
        lemma_content_children_bounds(*t, src@.len(), i as int, t.n_children(i as int));
    }
    let mut r: Vec<Vec<u8>> = Vec::new();
    let mut k: usize = 0;
    while k < cs.len()
        invariant
            t.wf(src@.len()),
            cs@ == content_children(*t, i as int),
            forall|q: int| 0 <= q < cs@.len() ==> i < #[trigger] cs@[q] < t.len(),
            k <= cs@.len(),
            r@.map_values(|v: Vec<u8>| v@) == cs@.take(k as int).map_values(
                |c: usize| normalize_key(src@, *t, c as int),
            ),
        decreases cs.len() - k,
    {
        let name = normalize_key_of(src, t, cs[k]);
        let ghost prev = r@.map_values(|v: Vec<u8>| v@);
        r.push(name);
        assert(cs@.take(k + 1) =~= cs@.take(k as int).push(cs@[k as int]));
        assert(r@.map_values(|v: Vec<u8>| v@) =~= prev.push(name@));
        k += 1;
        assert(r@.map_values(|v: Vec<u8>| v@) =~= cs@.take(k as int).map_values(
            |c: usize| normalize_key(src@, *t, c as int),
        ));
    }
    assert(cs@.take(k as int) =~= cs@);
    r
}

/// The components of a binding's attribute path.
pub open spec fn binding_components(src: Seq<u8>, t: SyntaxTree, b: int) -> Seq<Seq<u8>> {
    match field_child(t, b, Field::Attrpath) {
        Some(ap) => content_names(src, t, ap as int),
        None => seq![],
    }
}

pub fn binding_components_of(src: &[u8], t: &SyntaxTree, b: usize) -> (r: Vec<Vec<u8>>)
    requires
        t.wf(src@.len()),
        b < t.nodes@.len(),
    ensures
        r@.map_values(|v: Vec<u8>| v@) == binding_components(src@, *t, b as int),
{
    proof {
        lemma_field_child_bounds(*t, src@.len(), b as int, Field::Attrpath, 0);
    }
    match field_child_of(t, b, Field::Attrpath) {
        Some(ap) => content_names_of(src, t, ap),
        None => {
            let r: Vec<Vec<u8>> = Vec::new();
            assert(r@.map_values(|v: Vec<u8>| v@) =~= Seq::<Seq<u8>>::empty());
            r
        },
    }
}

/// The names an `inherit` brings into scope.
pub open spec fn inherit_names(src: Seq<u8>, t: SyntaxTree, i: int) -> Seq<Seq<u8>> {
    match field_child(t, i, Field::Attrs) {
        Some(a) => content_names(src, t, a as int),
        None => seq![],
    }
}

pub fn inherit_names_of(src: &[u8], t: &SyntaxTree, i: usize) -> (r: Vec<Vec<u8>>)
    requires
        t.wf(src@.len()),
        i < t.nodes@.len(),
    ensures
        r@.map_values(|v: Vec<u8>| v@) == inherit_names(src@, *t, i as int),
{
    proof {
        lemma_field_child_bounds(*t, src@.len(), i as int, Field::Attrs, 0);
    }
    match field_child_of(t, i, Field::Attrs) {
        Some(a) => content_names_of(src, t, a),
        None => {
            let r: Vec<Vec<u8>> = Vec::new();
            assert(r@.map_values(|v: Vec<u8>| v@) =~= Seq::<Seq<u8>>::empty());
            r
        },
    }
}

} // verus!
