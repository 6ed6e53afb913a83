//! Parsing with the tree-sitter Nix grammar, and the checked conversion of
//! its tree into a [`SyntaxTree`].

use crate::bytes::{push_all, string_from_utf8};
use crate::error::{Error, ErrorKind, Refusal};
use crate::syntax::{Field, Kind, SyntaxNode, SyntaxTree};
use vstd::prelude::*;
use vstd::string::StringSliceAdditionalSpecFns;

verus! {

#[verifier::external_type_specification]
#[verifier::external_body]
pub struct ExTree(tree_sitter::Tree);

#[verifier::external_type_specification]
#[verifier::external_body]
pub struct ExTreeCursor<'a>(tree_sitter::TreeCursor<'a>);

#[verifier::external_type_specification]
#[verifier::external_body]
pub struct ExNode<'a>(tree_sitter::Node<'a>);

/// What tree-sitter says of one node: its kind name, whether it is named,
/// whether it holds a syntax error, its start and end byte, its start row
/// and column, its end row and column, and how many nodes it spans, itself
/// included.
pub type NodeFacts = (Seq<char>, bool, bool, usize, usize, usize, usize, usize, usize, usize);

/// A node of a tree in pre-order: its facts, the name of the field it hangs
/// under in its parent, and its depth.
pub type NodeEntry = (NodeFacts, Option<Seq<char>>, u32);

/// The tree that tree-sitter's Nix grammar gives `src`, as its nodes in
/// pre-order; nothing where the parser gives no tree.
pub uninterp spec fn nix_parse(src: Seq<char>) -> Option<Seq<NodeEntry>>;

/// The nodes of a tree, in pre-order.
pub uninterp spec fn tree_nodes(t: tree_sitter::Tree) -> Seq<NodeEntry>;

/// The nodes of the tree a cursor walks, in pre-order.
pub uninterp spec fn cursor_nodes(c: tree_sitter::TreeCursor<'_>) -> Seq<NodeEntry>;

/// The pre-order position of the node a cursor is on.
pub uninterp spec fn cursor_index(c: tree_sitter::TreeCursor<'_>) -> int;

/// What tree-sitter says of a node.
pub uninterp spec fn node_facts(n: tree_sitter::Node<'_>) -> NodeFacts;

/// `tree_sitter::Parser::parse` with the Nix grammar set by
/// `Parser::set_language`: the tree is the parse of `src`. Its first node is
/// the root, which spans all of them.
#[verifier::external_body]
fn parse_with_nix_grammar(src: &str) -> (r: Option<tree_sitter::Tree>)
    ensures
        match r {
            Some(t) => nix_parse(src@) == Some(tree_nodes(t)),
            None => nix_parse(src@) is None,
        },
        r matches Some(t) ==> tree_nodes(t).len() > 0 && tree_nodes(t)[0].0.9 == tree_nodes(t).len(),
{
    let mut parser = tree_sitter::Parser::new();
    parser.set_language(&tree_sitter_nix::LANGUAGE.into()).ok()?;
    parser.parse(src, None)
}

/// `tree_sitter::Tree::walk`: a cursor on the root node.
#[verifier::external_body]
fn tree_walk(tree: &tree_sitter::Tree) -> (r: tree_sitter::TreeCursor<'_>)
    ensures
        cursor_nodes(r) == tree_nodes(*tree),
        cursor_index(r) == 0,
{
    tree.walk()
}

/// `tree_sitter::TreeCursor::node`: the node the cursor is on.
#[verifier::external_body]
fn cursor_node<'a>(cursor: &tree_sitter::TreeCursor<'a>) -> (r: tree_sitter::Node<'a>)
    ensures
        0 <= cursor_index(*cursor) < cursor_nodes(*cursor).len() ==> node_facts(r) == cursor_nodes(
            *cursor,
        )[cursor_index(*cursor)].0,
{
    cursor.node()
}

/// `tree_sitter::TreeCursor::goto_descendant`: moves to the node at
/// pre-order position `index` of the tree the cursor was made on.
#[verifier::external_body]
fn cursor_goto_descendant(cursor: &mut tree_sitter::TreeCursor<'_>, index: usize)
    requires
        index < cursor_nodes(*old(cursor)).len(),
    ensures
        cursor_nodes(*final(cursor)) == cursor_nodes(*old(cursor)),
        cursor_index(*final(cursor)) == index,
{
    cursor.goto_descendant(index)
}

/// `tree_sitter::TreeCursor::depth`: the depth of the node the cursor is on.
#[verifier::external_body]
fn cursor_depth(cursor: &tree_sitter::TreeCursor<'_>) -> (r: u32)
    ensures
        0 <= cursor_index(*cursor) < cursor_nodes(*cursor).len() ==> r == cursor_nodes(*cursor)[cursor_index(
            *cursor,
        )].2,
{
    cursor.depth()
}

/// `tree_sitter::TreeCursor::field_name`: the field the node the cursor is
/// on hangs under.
#[verifier::external_body]
fn cursor_field_name<'a>(cursor: &tree_sitter::TreeCursor<'a>) -> (r: Option<&'a str>)
    ensures
        0 <= cursor_index(*cursor) < cursor_nodes(*cursor).len() ==> (match r {
            Some(f) => Some(f@),
            None => None,
        }) == cursor_nodes(*cursor)[cursor_index(*cursor)].1,
{
    cursor.field_name()
}

/// `tree_sitter::Node::descendant_count`.
#[verifier::external_body]
fn node_descendant_count(node: &tree_sitter::Node<'_>) -> (r: usize)
    ensures
        r == node_facts(*node).9,
{
    node.descendant_count()
}

/// `tree_sitter::Node::kind`.
#[verifier::external_body]
fn node_kind<'a>(node: &tree_sitter::Node<'a>) -> (r: &'a str)
    ensures
        r@ == node_facts(*node).0,
{
    node.kind()
}

/// `tree_sitter::Node::is_named`.
#[verifier::external_body]
fn node_is_named(node: &tree_sitter::Node<'_>) -> (r: bool)
    ensures
        r == node_facts(*node).1,
{
    node.is_named()
}

/// `tree_sitter::Node::has_error`.
#[verifier::external_body]
fn node_has_error(node: &tree_sitter::Node<'_>) -> (r: bool)
    ensures
        r == node_facts(*node).2,
{
    node.has_error()
}

/// `tree_sitter::Node::start_byte`.
#[verifier::external_body]
fn node_start_byte(node: &tree_sitter::Node<'_>) -> (r: usize)
    ensures
        r == node_facts(*node).3,
{
    node.start_byte()
}

/// `tree_sitter::Node::end_byte`.
#[verifier::external_body]
fn node_end_byte(node: &tree_sitter::Node<'_>) -> (r: usize)
    ensures
        r == node_facts(*node).4,
{
    node.end_byte()
}

/// `tree_sitter::Node::start_position`, as (row, column).
#[verifier::external_body]
fn node_start_position(node: &tree_sitter::Node<'_>) -> (r: (usize, usize))
    ensures
        r == (node_facts(*node).5, node_facts(*node).6),
{
    let p = node.start_position();
    (p.row, p.column)
}

/// `tree_sitter::Node::end_position`, as (row, column).
#[verifier::external_body]
fn node_end_position(node: &tree_sitter::Node<'_>) -> (r: (usize, usize))
    ensures
        r == (node_facts(*node).7, node_facts(*node).8),
{
    let p = node.end_position();
    (p.row, p.column)
}

/// Whether two strings are equal, compared byte by byte: UTF-8 encodes
/// each string one way.
pub fn str_eq(a: &str, b: &str) -> (r: bool)
    ensures
        r == (a@ == b@),
{
    let r = crate::bytes::bytes_eq(a.as_bytes(), b.as_bytes());
    proof {
        vstd::utf8::encode_utf8_decode_utf8(a@);
        vstd::utf8::encode_utf8_decode_utf8(b@);
    }
    r
}

pub open spec fn kind_of(name: Seq<char>) -> Kind {
    if name == "attrset_expression"@ { Kind::AttrsetExpression }
    else if name == "rec_attrset_expression"@ { Kind::RecAttrsetExpression }
    else if name == "let_attrset_expression"@ { Kind::LetAttrsetExpression }
    else if name == "let_expression"@ { Kind::LetExpression }
    else if name == "formals"@ { Kind::Formals }
    else if name == "formal"@ { Kind::Formal }
    else if name == "ellipses"@ { Kind::Ellipses }
    else if name == "list_expression"@ { Kind::ListExpression }
    else if name == "inherited_attrs"@ { Kind::InheritedAttrs }
    else if name == "inherit"@ { Kind::Inherit }
    else if name == "inherit_from"@ { Kind::InheritFrom }
    else if name == "binding"@ { Kind::Binding }
    else if name == "binding_set"@ { Kind::BindingSet }
    else if name == "attrpath"@ { Kind::Attrpath }
    else if name == "identifier"@ { Kind::Identifier }
    else if name == "string_expression"@ { Kind::StringExpression }
    else if name == "interpolation"@ { Kind::Interpolation }
    else if name == "comment"@ { Kind::Comment }
    else if name == "indented_string_expression"@ { Kind::IndentedStringExpression }
    else if name == "string_fragment"@ { Kind::StringFragment }
    else if name == "escape_sequence"@ { Kind::EscapeSequence }
    else if name == "source_code"@ { Kind::SourceCode }
    else if name == "parenthesized_expression"@ { Kind::ParenthesizedExpression }
    else if name == "function_expression"@ { Kind::FunctionExpression }
    else if name == "with_expression"@ { Kind::WithExpression }
    else if name == "assert_expression"@ { Kind::AssertExpression }
    else { Kind::Other }
}

/// The grammar kind named `name`.
pub fn classify_kind(name: &str) -> (k: Kind)
    ensures
        k == kind_of(name@),
{
    if str_eq(name, "attrset_expression") { Kind::AttrsetExpression }
    else if str_eq(name, "rec_attrset_expression") { Kind::RecAttrsetExpression }
    else if str_eq(name, "let_attrset_expression") { Kind::LetAttrsetExpression }
    else if str_eq(name, "let_expression") { Kind::LetExpression }
    else if str_eq(name, "formals") { Kind::Formals }
    else if str_eq(name, "formal") { Kind::Formal }
    else if str_eq(name, "ellipses") { Kind::Ellipses }
    else if str_eq(name, "list_expression") { Kind::ListExpression }
    else if str_eq(name, "inherited_attrs") { Kind::InheritedAttrs }
    else if str_eq(name, "inherit") { Kind::Inherit }
    else if str_eq(name, "inherit_from") { Kind::InheritFrom }
    else if str_eq(name, "binding") { Kind::Binding }
    else if str_eq(name, "binding_set") { Kind::BindingSet }
    else if str_eq(name, "attrpath") { Kind::Attrpath }
    else if str_eq(name, "identifier") { Kind::Identifier }
    else if str_eq(name, "string_expression") { Kind::StringExpression }
    else if str_eq(name, "interpolation") { Kind::Interpolation }
    else if str_eq(name, "comment") { Kind::Comment }
    else if str_eq(name, "indented_string_expression") { Kind::IndentedStringExpression }
    else if str_eq(name, "string_fragment") { Kind::StringFragment }
    else if str_eq(name, "escape_sequence") { Kind::EscapeSequence }
    else if str_eq(name, "source_code") { Kind::SourceCode }
    else if str_eq(name, "parenthesized_expression") { Kind::ParenthesizedExpression }
    else if str_eq(name, "function_expression") { Kind::FunctionExpression }
    else if str_eq(name, "with_expression") { Kind::WithExpression }
    else if str_eq(name, "assert_expression") { Kind::AssertExpression }
    else { Kind::Other }
}

pub open spec fn field_of(name: Option<Seq<char>>) -> Field {
    match name {
        None => Field::Unnamed,
        Some(n) => if n == "expression"@ { Field::Expression }
            else if n == "attrpath"@ { Field::Attrpath }
            else if n == "attrs"@ { Field::Attrs }
            else if n == "body"@ { Field::Body }
            else if n == "name"@ { Field::Name }
            else if n == "default"@ { Field::Default }
            else { Field::Other },
    }
}

/// The grammar field named `name`.
pub fn classify_field(name: Option<&str>) -> (f: Field)
    ensures
        f == field_of(match name { Some(n) => Some(n@), None => None }),
{
    match name {
        None => Field::Unnamed,
        Some(n) => if str_eq(n, "expression") { Field::Expression }
            else if str_eq(n, "attrpath") { Field::Attrpath }
            else if str_eq(n, "attrs") { Field::Attrs }
            else if str_eq(n, "body") { Field::Body }
            else if str_eq(n, "name") { Field::Name }
            else if str_eq(n, "default") { Field::Default }
            else { Field::Other },
    }
}

/// Why no syntax tree could be had.
#[derive(Clone, Copy, PartialEq, Eq, Structural, Debug)]
pub enum ParseFailure {
    /// The parser returned no tree.
    NoTree,
    /// The tree read back does not nest as a syntax tree must.
    Malformed,
}

/// The depths of pre-order nodes.
pub open spec fn entry_depths(es: Seq<NodeEntry>) -> Seq<u32> {
    es.map_values(|e: NodeEntry| e.2)
}

/// `node` holds what tree-sitter says of node `e`: its kind, classified by
/// name, the name itself as UTF-8, its field, whether it is named, its bytes
/// and its positions.
pub open spec fn entry_node(node: SyntaxNode, e: NodeEntry) -> bool {
    &&& node.kind == kind_of(e.0.0)
    &&& node.kind_name@ == vstd::utf8::encode_utf8(e.0.0)
    &&& node.field == field_of(e.1)
    &&& node.named == e.0.1
    &&& node.start == e.0.3
    &&& node.end == e.0.4
    &&& node.start_row == e.0.5
    &&& node.start_col == e.0.6
    &&& node.end_row == e.0.7
}

/// `t` is the tree that the pre-order nodes `es` describe: each node holds
/// what is said of it, with the parent and children its depth gives it, and
/// the tree has an error where the root holds one.
pub open spec fn read_tree(t: SyntaxTree, es: Seq<NodeEntry>) -> bool {
    &&& t.nodes@.len() == es.len()
    &&& es.len() > 0
    &&& t.has_error == es[0].0.2
    &&& forall|k: int|
        0 <= k < es.len() ==> entry_node(#[trigger] t.nodes@[k], es[k]) && shaped(t.nodes@[k], entry_depths(es), k)
}

/// `t` is the syntax tree of `src`: the tree the grammar gives it, read back
/// well formed.
pub open spec fn nix_tree(t: SyntaxTree, src: Seq<char>) -> bool {
    &&& nix_parse(src) matches Some(es)
    &&& depths_ok(entry_depths(es))
    &&& read_tree(t, es)
    &&& t.wf(vstd::utf8::encode_utf8(src).len())
}

/// Two nodes that hold the same: kind, name, field, bytes, positions, parent
/// and children.
pub open spec fn same_node(a: SyntaxNode, b: SyntaxNode) -> bool {
    &&& a.kind == b.kind
    &&& a.kind_name@ == b.kind_name@
    &&& a.field == b.field
    &&& a.named == b.named
    &&& a.start == b.start
    &&& a.end == b.end
    &&& a.start_row == b.start_row
    &&& a.start_col == b.start_col
    &&& a.end_row == b.end_row
    &&& a.parent == b.parent
    &&& a.children@ == b.children@
}

/// A source has one syntax tree: two trees read from what the grammar gives
/// `src` agree in every node.
pub proof fn lemma_nix_tree_unique(t1: SyntaxTree, t2: SyntaxTree, src: Seq<char>)
    requires
        nix_tree(t1, src),
        nix_tree(t2, src),
    ensures
        t1.has_error == t2.has_error,
        t1.nodes@.len() == t2.nodes@.len(),
        forall|k: int| 0 <= k < t1.nodes@.len() ==> same_node(#[trigger] t1.nodes@[k], t2.nodes@[k]),
{
    assert forall|k: int| 0 <= k < t1.nodes@.len() implies same_node(#[trigger] t1.nodes@[k], t2.nodes@[k]) by {
        assert(t2.nodes@[k] == t2.nodes@[k]);
    }
}

/// The grammar gives `src` a tree that does not nest as a syntax tree must.
pub open spec fn nix_malformed(src: Seq<char>) -> bool {
    &&& nix_parse(src) matches Some(es)
    &&& (!depths_ok(entry_depths(es)) || forall|t: SyntaxTree|
        #[trigger] read_tree(t, es) ==> !t.wf(vstd::utf8::encode_utf8(src).len()))
}

/// `src` is not valid Nix: its tree reads back well formed, and the grammar
/// found a syntax error in it.
pub open spec fn nix_refused(src: Seq<char>) -> bool {
    &&& nix_parse(src) matches Some(es)
    &&& !nix_malformed(src)
    &&& es[0].0.2
}

/// `t` is the syntax tree of `src`, which is valid Nix.
pub open spec fn nix_valid(t: SyntaxTree, src: Seq<char>) -> bool {
    nix_tree(t, src) && !t.has_error
}

/// Parses `src` with the Nix grammar and reads the tree back in pre-order:
/// the syntax tree of `src` where the tree reads back well formed.
pub fn parse(src: &str) -> (r: Result<SyntaxTree, ParseFailure>)
    ensures
        match nix_parse(src@) {
            None => r == Err::<SyntaxTree, ParseFailure>(ParseFailure::NoTree),
            Some(_) => match r {
                Ok(t) => nix_tree(t, src@),
                Err(f) => f == ParseFailure::Malformed && nix_malformed(src@),
            },
        },
{
    let tree = match parse_with_nix_grammar(src) {
        Some(t) => t,
        None => return Err(ParseFailure::NoTree),
    };
    let ghost es = tree_nodes(tree);
    let mut cursor = tree_walk(&tree);
    let root = cursor_node(&cursor);
    let has_error = node_has_error(&root);
    let count = node_descendant_count(&root);
    let mut depths: Vec<u32> = Vec::new();
    let mut raw: Vec<SyntaxNode> = Vec::new();
    let mut i: usize = 0;
    while i < count
        invariant
            i <= count,
            count == es.len(),
            cursor_nodes(cursor) == es,
            depths@.len() == i,
            raw@.len() == i,
            forall|q: int| 0 <= q < i ==> entry_node(#[trigger] raw@[q], es[q]),
            forall|q: int| 0 <= q < i ==> #[trigger] depths@[q] == es[q].2,
        decreases count - i,
    {
        cursor_goto_descendant(&mut cursor, i);
        let node = cursor_node(&cursor);
        let name = node_kind(&node);
        let mut kind_name: Vec<u8> = Vec::new();
        push_all(&mut kind_name, name.as_bytes());
        let (start_row, start_col) = node_start_position(&node);
        let (end_row, _end_col) = node_end_position(&node);
        let ghost dbefore = depths@;
        depths.push(cursor_depth(&cursor));
        let kind = classify_kind(name);
        let field = classify_field(cursor_field_name(&cursor));
        let ghost before = raw@;
        raw.push(SyntaxNode {
            kind,
            kind_name,
            field,
            named: node_is_named(&node),
            start: node_start_byte(&node),
            end: node_end_byte(&node),
            start_row,
            start_col,
            end_row,
            parent: None,
            children: Vec::new(),
        });
        assert(entry_node(raw@[i as int], es[i as int]));
        assert forall|q: int| 0 <= q < i + 1 implies entry_node(#[trigger] raw@[q], es[q]) by {
            if q < i {
                assert(raw@[q] == before[q]);
            }
        }
        assert forall|q: int| 0 <= q < i + 1 implies #[trigger] depths@[q] == es[q].2 by {
            if q < i {
                assert(depths@[q] == dbefore[q]);
            }
        }
        i += 1;
    }
    let ghost raw0 = raw@;
    assert(depths@ =~= entry_depths(es));
    let n_src = src.as_bytes().len();
    match link(raw, &depths, has_error, n_src) {
        Some(t) => {
            assert forall|k: int| 0 <= k < es.len() implies entry_node(#[trigger] t.nodes@[k], es[k]) && shaped(
                t.nodes@[k],
                entry_depths(es),
                k,
            ) by {
                assert(linked_node(t.nodes@[k], raw0[k], depths@, k));
                assert(entry_node(raw0[k], es[k]));
            }
            Ok(t)
        },
        None => {
            assert(has_error == es[0].0.2);
            proof {
            if depths_ok(depths@) {
            assert forall|t: SyntaxTree| #[trigger] read_tree(t, es) implies !t.wf(n_src as nat) by {
                    assert forall|k: int| 0 <= k < raw0.len() implies linked_node(
                        #[trigger] t.nodes@[k],
                        raw0[k],
                        depths@,
                        k,
                    ) by {
                        assert(entry_node(t.nodes@[k], es[k]));
                        assert(entry_node(raw0[k], es[k]));
                    }
                    assert(linked(t, raw0, depths@, has_error));
            }
            }
            }
            Err(ParseFailure::Malformed)
        },
    }
}

/// Whether pre-order depths describe a tree: the first node is the root, at
/// depth 0, and every later node lies at least one level below the root and
/// at most one level below the node before it.
pub open spec fn depths_ok(d: Seq<u32>) -> bool {
    &&& d.len() > 0
    &&& d[0] == 0
    &&& forall|i: int| 1 <= i < d.len() ==> 1 <= #[trigger] d[i] <= d[i - 1] + 1
}

/// The last of the first `k` nodes that lies at depth `level`, or the root
/// where none does.
pub open spec fn last_at_depth(d: Seq<u32>, level: int, k: int) -> int
    decreases k,
{
    if k <= 0 {
        0
    } else if d[k - 1] == level {
        k - 1
    } else {
        last_at_depth(d, level, k - 1)
    }
}

/// The parent of node `i` in pre-order: the nearest earlier node one level
/// up.
pub open spec fn parent_in(d: Seq<u32>, i: int) -> int {
    last_at_depth(d, d[i] - 1, i)
}

/// The nodes after `k` and before `j` whose parent is `k`, in order.
pub open spec fn children_in(d: Seq<u32>, k: int, j: int) -> Seq<usize>
    decreases j - k,
{
    if j <= k + 1 {
        seq![]
    } else if parent_in(d, j - 1) == k {
        children_in(d, k, j - 1).push((j - 1) as usize)
    } else {
        children_in(d, k, j - 1)
    }
}

/// Node `k` of a linked tree: the record `r` with the parent and the
/// children that the depths give it.
pub open spec fn linked_node(node: SyntaxNode, r: SyntaxNode, d: Seq<u32>, k: int) -> bool {
    &&& node.kind == r.kind
    &&& node.kind_name@ == r.kind_name@
    &&& node.field == r.field
    &&& node.named == r.named
    &&& node.start == r.start
    &&& node.end == r.end
    &&& node.start_row == r.start_row
    &&& node.start_col == r.start_col
    &&& node.end_row == r.end_row
    &&& shaped(node, d, k)
}

/// Node `k` has the parent and the children that the depths give it.
pub open spec fn shaped(node: SyntaxNode, d: Seq<u32>, k: int) -> bool {
    &&& node.parent == (if k == 0 {
        None
    } else {
        Some(parent_in(d, k) as usize)
    })
    &&& node.children@ == children_in(d, k, d.len() as int)
}

/// `t` is the tree that the pre-order records `raw` at depths `d` make.
pub open spec fn linked(t: SyntaxTree, raw: Seq<SyntaxNode>, d: Seq<u32>, has_error: bool) -> bool {
    &&& t.nodes@.len() == raw.len()
    &&& t.has_error == has_error
    &&& forall|k: int| 0 <= k < raw.len() ==> linked_node(#[trigger] t.nodes@[k], raw[k], d, k)
}

/// Two trees linked from the same records are well formed alike.
proof fn lemma_linked_wf(t1: SyntaxTree, t2: SyntaxTree, raw: Seq<SyntaxNode>, d: Seq<u32>, has_error: bool, n_src: nat)
    requires
        linked(t1, raw, d, has_error),
        linked(t2, raw, d, has_error),
        t1.wf(n_src),
    ensures
        t2.wf(n_src),
{
    assert forall|i: int| 0 <= i < t2.nodes@.len() implies #[trigger] t2.node_wf(i, n_src) by {
        assert(t1.node_wf(i, n_src));
        let m = t2.nodes@[i].children@.len();
        assert(linked_node(t1.nodes@[i], raw[i], d, i));
        assert(linked_node(t2.nodes@[i], raw[i], d, i));
        assert forall|j: int| 0 <= j < m implies #[trigger] t2.child_ok(i, j) by {
            assert(t1.child_ok(i, j));
            let c = t1.child(i, j);
            assert(linked_node(t1.nodes@[c], raw[c], d, c));
            assert(linked_node(t2.nodes@[c], raw[c], d, c));
        }
        assert forall|j: int| 0 < j < m implies #[trigger] t2.sibling_ok(i, j) by {
            assert(t1.sibling_ok(i, j));
            let c = t1.child(i, j);
            let b = t1.child(i, j - 1);
            assert(t1.child_ok(i, j));
            assert(t1.child_ok(i, j - 1));
            assert(linked_node(t1.nodes@[c], raw[c], d, c));
            assert(linked_node(t2.nodes@[c], raw[c], d, c));
            assert(linked_node(t1.nodes@[b], raw[b], d, b));
            assert(linked_node(t2.nodes@[b], raw[b], d, b));
        }
    }
    assert(linked_node(t1.nodes@[0], raw[0], d, 0));
    assert(linked_node(t2.nodes@[0], raw[0], d, 0));
}

/// Gives each pre-order record its parent and children from the depths, and
/// keeps the result only where it is well formed.
fn link(raw: Vec<SyntaxNode>, depths: &Vec<u32>, has_error: bool, n_src: usize) -> (r: Option<
    SyntaxTree,
>)
    requires
        raw@.len() == depths@.len(),
    ensures
        r is Some ==> depths_ok(depths@),
        r matches Some(t) ==> linked(t, raw@, depths@, has_error) && t.wf(n_src as nat),
        r is None ==> !depths_ok(depths@) || forall|t: SyntaxTree|
            #[trigger] linked(t, raw@, depths@, has_error) ==> !t.wf(n_src as nat),
{
    let ghost dd = depths@;
    let ghost raw0 = raw@;
    let n = raw.len();
    if n == 0 || depths[0] != 0 {
        return None;
    }
    // parent of each node: the nearest earlier node one level up
    let mut parents: Vec<usize> = Vec::new();
    parents.push(0);
    let mut stack: Vec<usize> = Vec::new();
    stack.push(0);
    let mut i: usize = 1;
    while i < n
        invariant
            1 <= i <= n,
            n == raw@.len(),
            n == depths@.len(),
            dd == depths@,
            dd[0] == 0,
            parents@.len() == i,
            forall|k: int| 0 <= k < i ==> #[trigger] parents@[k] < n,
            forall|k: int| 1 <= k < i ==> #[trigger] parents@[k] < k,
            forall|k: int| 1 <= k < i ==> #[trigger] parents@[k] as int == parent_in(dd, k),
            forall|k: int| 1 <= k < i ==> 1 <= #[trigger] dd[k] <= dd[k - 1] + 1,
            stack@.len() == dd[i - 1] + 1,
            forall|lv: int|
                0 <= lv < stack@.len() ==> #[trigger] stack@[lv] < i && stack@[lv] as int == last_at_depth(
                    dd,
                    lv,
                    i as int,
                ) && dd[stack@[lv] as int] == lv,
        decreases n - i,
    {
        let d = depths[i] as usize;
        if d == 0 || d > stack.len() {
            assert(!(1 <= dd[i as int] <= dd[i - 1] + 1));
            return None;
        }
        let ghost old_stack = stack@;
        stack.truncate(d);
        assert(stack@ =~= old_stack.take(d as int));
        let p = stack[d - 1];
        assert(p == old_stack[d - 1]);
        assert(p as int == parent_in(dd, i as int));
        parents.push(p);
        stack.push(i);
        proof {
            assert forall|lv: int| 0 <= lv < stack@.len() implies #[trigger] stack@[lv] < i + 1 && stack@[lv] as int
                == last_at_depth(dd, lv, i + 1) && dd[stack@[lv] as int] == lv by {
                if lv < d {
                    assert(stack@[lv] == old_stack[lv]);
                }
            }
        }
        i += 1;
    }
    assert(depths_ok(dd));
    // children of each node, in order
    let mut nodes: Vec<SyntaxNode> = Vec::new();
    let mut raw = raw;
    let mut k: usize = 0;
    while k < n
        invariant
            k <= n,
            n == raw@.len(),
            n == parents@.len(),
            n == dd.len(),
            raw@ == raw0,
            nodes@.len() == k,
            forall|a: int| 1 <= a < n ==> #[trigger] parents@[a] < a,
            forall|a: int| 1 <= a < n ==> #[trigger] parents@[a] as int == parent_in(dd, a),
            forall|a: int| 0 <= a < k ==> linked_node(#[trigger] nodes@[a], raw0[a], dd, a),
        decreases n - k,
    {
        let mut children: Vec<usize> = Vec::new();
        let mut j = k + 1;
        while j < n
            invariant
                k < j <= n,
                n == parents@.len(),
                forall|a: int| 1 <= a < n ==> #[trigger] parents@[a] as int == parent_in(dd, a),
                forall|c: int| 0 <= c < children@.len() ==> k < #[trigger] children@[c] < n,
                children@ == children_in(dd, k as int, j as int),
            decreases n - j,
        {
            if parents[j] == k {
                children.push(j);
            }
            j += 1;
        }
        let r = &raw[k];
        let parent = if k == 0 {
            None
        } else {
            Some(parents[k])
        };
        let mut kind_name: Vec<u8> = Vec::new();
        push_all(&mut kind_name, r.kind_name.as_slice());
        let ghost before = nodes@;
        nodes.push(SyntaxNode {
            kind: r.kind,
            kind_name,
            field: r.field,
            named: r.named,
            start: r.start,
            end: r.end,
            start_row: r.start_row,
            start_col: r.start_col,
            end_row: r.end_row,
            parent,
            children,
        });
        assert(linked_node(nodes@[k as int], raw0[k as int], dd, k as int));
        assert forall|a: int| 0 <= a < k + 1 implies linked_node(#[trigger] nodes@[a], raw0[a], dd, a) by {
            if a < k {
                assert(nodes@[a] == before[a]);
            }
        }
        k += 1;
    }
    let t = SyntaxTree { nodes, has_error };
    assert(linked(t, raw0, dd, has_error));
    if check_wf(&t, n_src) {
        Some(t)
    } else {
        assert forall|t2: SyntaxTree| #[trigger] linked(t2, raw0, dd, has_error) implies !t2.wf(n_src as nat) by {
            if t2.wf(n_src as nat) {
                lemma_linked_wf(t2, t, raw0, dd, has_error, n_src as nat);
            }
        }
        None
    }
}

/// Whether `t` is well formed for a source of `n_src` bytes.
fn check_wf(t: &SyntaxTree, n_src: usize) -> (r: bool)
    ensures
        r == t.wf(n_src as nat),
{
    let n = t.nodes.len();
    if n == 0 || t.nodes[0].parent.is_some() {
        return false;
    }
    let mut i: usize = 0;
    while i < n
        invariant
            i <= n == t.nodes@.len(),
            forall|a: int| 0 <= a < i ==> #[trigger] t.node_wf(a, n_src as nat),
        decreases n - i,
    {
        if !check_node(t, i, n_src) {
            assert(!t.node_wf(i as int, n_src as nat));
            return false;
        }
        i += 1;
    }
    true
}

fn check_node(t: &SyntaxTree, i: usize, n_src: usize) -> (r: bool)
    requires
        i < t.nodes@.len(),
    ensures
        r == t.node_wf(i as int, n_src as nat),
{
    let n = t.nodes.len();
    let node = &t.nodes[i];
    if !(node.start <= node.end && node.end <= n_src && node.start_row <= node.end_row) {
        return false;
    }
    match node.parent {
        Some(p) => if p >= i { return false; },
        None => {},
    }
    let m = node.children.len();
    let mut j: usize = 0;
    while j < m
        invariant
            j <= m == node.children@.len(),
            i < n == t.nodes@.len(),
            node == t.nodes@[i as int],
            forall|b: int| 0 <= b < j ==> #[trigger] t.child_ok(i as int, b),
            forall|b: int| 0 < b < j ==> #[trigger] t.sibling_ok(i as int, b),
        decreases m - j,
    {
        let c = node.children[j];
        if !(i < c && c < n) {
            assert(!t.child_ok(i as int, j as int));
            return false;
        }
        let child = &t.nodes[c];
        if !(child.parent == Some(i) && node.start <= child.start && child.end <= node.end) {
            assert(!t.child_ok(i as int, j as int));
            return false;
        }
        if j > 0 {
            let prev = node.children[j - 1];
            assert(t.child_ok(i as int, (j - 1) as int));
            if !(t.nodes[prev].end <= child.start) {
                assert(!t.sibling_ok(i as int, j as int));
                return false;
            }
        }
        j += 1;
    }
    true
}

} // verus!

verus! {

/// Parses `src`; a tree handed back is well formed for `src`.
pub fn parse_source(src: &str) -> (r: Result<SyntaxTree, Error>)
    ensures
        match r {
            Ok(t) => nix_tree(t, src@),
            Err(e) => (e.kind is ParserFailed && nix_parse(src@) is None) || (e.kind is MalformedTree
                && nix_malformed(src@)),
        },
{
    match parse(src) {
        Ok(t) => Ok(t),
        Err(ParseFailure::NoTree) => Err(Error::new(ErrorKind::ParserFailed)),
        Err(ParseFailure::Malformed) => Err(Error::new(ErrorKind::MalformedTree)),
    }
}

/// Why valid Nix could not be had from `src`: the grammar gave no tree,
/// one that does not nest, or one with a syntax error, which is refused as
/// `refusal` says.
pub open spec fn parse_refusal(src: Seq<char>, e: Error, refusal: Refusal) -> bool {
    ||| e.kind is ParserFailed && nix_parse(src) is None
    ||| e.kind is MalformedTree && nix_malformed(src)
    ||| e.kind == ErrorKind::InvalidNix(refusal) && nix_refused(src)
}

/// What a pass over valid Nix source `src` ends with, where `out` is the
/// text it makes of the syntax tree: that text where the source is valid Nix
/// and the text is valid UTF-8; the refusal where the source is not valid
/// Nix; and an error for output that is not UTF-8.
pub open spec fn pass_result(
    src: Seq<char>,
    r: Result<String, Error>,
    refusal: Refusal,
    out: spec_fn(SyntaxTree) -> Seq<u8>,
) -> bool {
    &&& r matches Ok(s) ==> exists|t: SyntaxTree|
        #![trigger nix_tree(t, src)]
        nix_valid(t, src) && vstd::utf8::encode_utf8(s@) == out(t)
    &&& r matches Err(e) ==> parse_refusal(src, e, refusal) || (e.kind is InvalidOutput && exists|t: SyntaxTree|
        #![trigger nix_tree(t, src)]
        nix_valid(t, src) && !vstd::utf8::valid_utf8(out(t)))
    &&& (nix_parse(src) is Some && !nix_malformed(src) && !nix_refused(src) && forall|t: SyntaxTree|
        #![trigger nix_tree(t, src)]
        nix_valid(t, src) ==> vstd::utf8::valid_utf8(out(t))) ==> r is Ok
    &&& nix_refused(src) ==> (r matches Err(e) && e.kind == ErrorKind::InvalidNix(refusal))
}

/// Parses `src` and refuses input that has a syntax error.
pub fn parse_valid(src: &str, refusal: Refusal) -> (r: Result<SyntaxTree, Error>)
    ensures
        match r {
            Ok(t) => nix_valid(t, src@),
            Err(e) => parse_refusal(src@, e, refusal),
        },
{
    let t = parse_source(src)?;
    if t.has_error {
        return Err(Error::new(ErrorKind::InvalidNix(refusal)));
    }
    Ok(t)
}

/// The string whose UTF-8 encoding `out` is.
pub fn output_string(out: Vec<u8>) -> (r: Result<String, Error>)
    ensures
        match r {
            Ok(s) => vstd::utf8::encode_utf8(s@) == out@,
            Err(e) => e.kind is InvalidOutput && !vstd::utf8::valid_utf8(out@),
        },
{
    match string_from_utf8(out) {
        Some(s) => Ok(s),
        None => Err(Error::new(ErrorKind::InvalidOutput)),
    }
}

} // verus!
