//! Reordering: attribute sets, `let` bindings, function arguments, list
//! elements and the names of `inherit`, each by its rules.

use crate::bytes::{bytes_eq, bytes_lt, copy_bytes, copy_strs, extend_strs, lex_lt, push_all, push_range, strs};
use crate::config::{Config, InheritPlacement, RuleKind, RulesView, SortRules, DEFAULTED_TOKEN};
use crate::error::{Error, ErrorKind, Refusal};
use crate::layout::{
    collect_items, container_region, indent_of, item_in, item_views, items_from, items_have_comments,
    join_blocks, lemma_collect_from, line_indent_of, nodes_in, region_nodes, render_item, splice_children,
    splice_region, texts, Item, ItemView,
};
use crate::parser::{output_string, parse_valid, pass_result};
use crate::syntax::{
    binding_components_of, field_child_of, inherit_names_of, lemma_field_child_bounds, node_text,
    normalize_key_of, Field, Kind, SyntaxTree,
};
use vstd::prelude::*;
use vstd::string::StringSliceAdditionalSpecFns;
use vstd::utf8::encode_utf8;

verus! {

/// Inherits pinned to the front.
pub const CLASS_INHERIT_FRONT: u8 = 0;
/// Names pinned by `first`.
pub const CLASS_FIRST: u8 = 1;
/// Everything not pinned, ordered by name.
pub const CLASS_MIDDLE: u8 = 2;
/// Names pinned by `last`.
pub const CLASS_LAST: u8 = 3;
/// The ellipsis of a formals list, unless pinned.
pub const CLASS_ELLIPSES: u8 = 4;
/// Inherits pinned to the end.
pub const CLASS_INHERIT_LAST: u8 = 5;

/// What an item is ordered by: its class, its position in the list that pins
/// it, and its full name.
pub struct SortKey {
    pub class: u8,
    pub list_idx: usize,
    pub key: Vec<Vec<u8>>,
}

pub struct KeyView {
    pub class: u8,
    pub list_idx: usize,
    pub key: Seq<Seq<u8>>,
}

impl View for SortKey {
    type V = KeyView;

    open spec fn view(&self) -> KeyView {
        KeyView { class: self.class, list_idx: self.list_idx, key: strs(self.key@) }
    }
}

/// Lexicographic order on sequences of names, each compared bytewise, as
/// `Ord` orders `Vec<String>`.
pub open spec fn names_lt(a: Seq<Seq<u8>>, b: Seq<Seq<u8>>) -> bool
    decreases a.len(),
{
    if a.len() == 0 {
        b.len() > 0
    } else if b.len() == 0 {
        false
    } else if a[0] != b[0] {
        lex_lt(a[0], b[0])
    } else {
        names_lt(a.drop_first(), b.drop_first())
    }
}

/// The order of sort keys: by class, then by pinned position, then by name.
pub open spec fn key_lt(a: KeyView, b: KeyView) -> bool {
    a.class < b.class || (a.class == b.class && (a.list_idx < b.list_idx || (a.list_idx == b.list_idx
        && names_lt(a.key, b.key))))
}

fn names_less(a: &Vec<Vec<u8>>, b: &Vec<Vec<u8>>) -> (r: bool)
    ensures
        r == names_lt(strs(a@), strs(b@)),
{
    let ghost sa = strs(a@);
    let ghost sb = strs(b@);
    let mut i: usize = 0;
    assert(sa.skip(0) =~= sa);
    assert(sb.skip(0) =~= sb);
    while i < a.len() && i < b.len()
        invariant
            i <= a@.len(),
            i <= b@.len(),
            sa == strs(a@),
            sb == strs(b@),
            names_lt(sa, sb) == names_lt(sa.skip(i as int), sb.skip(i as int)),
        decreases a.len() - i,
    {
        assert(sa.skip(i as int)[0] == a@[i as int]@);
        assert(sb.skip(i as int)[0] == b@[i as int]@);
        if !bytes_eq(a[i].as_slice(), b[i].as_slice()) {
            return bytes_lt(a[i].as_slice(), b[i].as_slice());
        }
        assert(sa.skip(i as int).drop_first() =~= sa.skip(i + 1));
        assert(sb.skip(i as int).drop_first() =~= sb.skip(i + 1));
        i += 1;
    }
    i == a.len() && i < b.len()
}

pub fn key_less(a: &SortKey, b: &SortKey) -> (r: bool)
    ensures
        r == key_lt(a@, b@),
{
    a.class < b.class || (a.class == b.class && (a.list_idx < b.list_idx || (a.list_idx == b.list_idx
        && names_less(&a.key, &b.key))))
}

/// Where `name` stands in `list`, counted from zero.
pub open spec fn position_from(list: Seq<Seq<char>>, name: Seq<u8>, k: int) -> Option<int>
    decreases list.len() - k,
{
    if k < 0 || k >= list.len() {
        None
    } else if encode_utf8(list[k]) == name {
        Some(k)
    } else {
        position_from(list, name, k + 1)
    }
}

pub proof fn lemma_position_bounds(list: Seq<Seq<char>>, name: Seq<u8>, k: int)
    requires
        0 <= k,
    ensures
        position_from(list, name, k) matches Some(j) ==> k <= j < list.len(),
    decreases list.len() - k,
{
    if k < list.len() {
        lemma_position_bounds(list, name, k + 1);
    }
}

fn position(list: &Vec<String>, name: &[u8]) -> (r: Option<usize>)
    ensures
        match r {
            Some(j) => position_from(crate::config::names(list@), name@, 0) == Some(j as int),
            None => position_from(crate::config::names(list@), name@, 0) is None,
        },
{
    let ghost ns = crate::config::names(list@);
    let mut k: usize = 0;
    while k < list.len()
        invariant
            k <= list@.len(),
            ns == crate::config::names(list@),
            position_from(ns, name@, 0) == position_from(ns, name@, k as int),
        decreases list.len() - k,
    {
        assert(ns[k as int] == list@[k as int]@);
        if bytes_eq(list[k].as_str().as_bytes(), name) {
            return Some(k);
        }
        k += 1;
    }
    None
}

/// The key of an item called `name`, ordered by `full` among its peers:
/// pinned by `first` or `last` where they name it.
pub open spec fn ranked(name: Seq<u8>, full: Seq<Seq<u8>>, r: RulesView) -> KeyView {
    match position_from(r.first, name, 0) {
        Some(j) => KeyView { class: CLASS_FIRST, list_idx: j as usize, key: full },
        None => match position_from(r.last, name, 0) {
            Some(j) => KeyView { class: CLASS_LAST, list_idx: j as usize, key: full },
            None => KeyView { class: CLASS_MIDDLE, list_idx: 0, key: full },
        },
    }
}

pub fn ranked_key(name: &[u8], full_key: Vec<Vec<u8>>, rules: &SortRules) -> (r: SortKey)
    ensures
        r@ == ranked(name@, strs(full_key@), rules@),
{
    match position(&rules.first, name) {
        Some(j) => SortKey { class: CLASS_FIRST, list_idx: j, key: full_key },
        None => match position(&rules.last, name) {
            Some(j) => SortKey { class: CLASS_LAST, list_idx: j, key: full_key },
            None => SortKey { class: CLASS_MIDDLE, list_idx: 0, key: full_key },
        },
    }
}

pub open spec fn key_views(keys: Seq<SortKey>) -> Seq<KeyView> {
    keys.map_values(|k: SortKey| k@)
}

/// `order` with index `i` placed before the first index whose key sorts
/// strictly after `i`'s.
pub open spec fn insert_index(order: Seq<usize>, i: usize, keys: Seq<KeyView>) -> Seq<usize>
    decreases order.len(),
{
    if order.len() == 0 {
        seq![i]
    } else if key_lt(keys[i as int], keys[order[0] as int]) {
        seq![i] + order
    } else {
        seq![order[0]] + insert_index(order.drop_first(), i, keys)
    }
}

/// The stable order of the first `n` items by key: equal keys keep their
/// order.
pub open spec fn stable_order(keys: Seq<KeyView>, n: int) -> Seq<usize>
    decreases n,
{
    if n <= 0 {
        seq![]
    } else {
        insert_index(stable_order(keys, n - 1), (n - 1) as usize, keys)
    }
}

/// The order that leaves every item in place.
pub open spec fn identity(n: int) -> Seq<usize> {
    Seq::new(n as nat, |j: int| j as usize)
}

proof fn lemma_insert_index_at(order: Seq<usize>, i: usize, keys: Seq<KeyView>, p: int)
    requires
        0 <= p <= order.len(),
        forall|q: int| 0 <= q < p ==> !key_lt(keys[i as int], #[trigger] keys[order[q] as int]),
        p < order.len() ==> key_lt(keys[i as int], keys[order[p] as int]),
    ensures
        insert_index(order, i, keys) == order.take(p) + seq![i] + order.skip(p),
    decreases order.len(),
{
    if order.len() == 0 {
        assert(order.take(p) + seq![i] + order.skip(p) =~= seq![i]);
    } else if p == 0 {
        assert(order.take(p) + seq![i] + order.skip(p) =~= seq![i] + order);
    } else {
        let rest = order.drop_first();
        assert forall|q: int| 0 <= q < p - 1 implies !key_lt(keys[i as int], #[trigger] keys[rest[q] as int]) by {
            assert(rest[q] == order[q + 1]);
        }
        lemma_insert_index_at(rest, i, keys, p - 1);
        assert(order.take(p) + seq![i] + order.skip(p) =~= seq![order[0]] + (rest.take(p - 1) + seq![i]
            + rest.skip(p - 1)));
    }
}

proof fn lemma_insert_index_len(order: Seq<usize>, i: usize, keys: Seq<KeyView>)
    ensures
        insert_index(order, i, keys).len() == order.len() + 1,
    decreases order.len(),
{
    if order.len() > 0 && !key_lt(keys[i as int], keys[order[0] as int]) {
        lemma_insert_index_len(order.drop_first(), i, keys);
    }
}

/// Every index in `order` is below `n`.
pub open spec fn indices_below(order: Seq<usize>, n: int) -> bool {
    forall|q: int| 0 <= q < order.len() ==> (#[trigger] order[q] as int) < n
}

proof fn lemma_stable_order_indices(keys: Seq<KeyView>, n: int)
    requires
        0 <= n,
    ensures
        stable_order(keys, n).len() == n,
        indices_below(stable_order(keys, n), n),
    decreases n,
{
    if n > 0 {
        lemma_stable_order_indices(keys, n - 1);
        let prev = stable_order(keys, n - 1);
        lemma_insert_index_len(prev, (n - 1) as usize, keys);
        lemma_insert_index_members(prev, (n - 1) as usize, keys);
    }
}

proof fn lemma_insert_index_members(order: Seq<usize>, i: usize, keys: Seq<KeyView>)
    ensures
        forall|q: int|
            0 <= q < insert_index(order, i, keys).len() ==> (#[trigger] insert_index(order, i, keys)[q] == i
                || order.contains(insert_index(order, i, keys)[q])),
    decreases order.len(),
{
    lemma_insert_index_len(order, i, keys);
    if order.len() > 0 && !key_lt(keys[i as int], keys[order[0] as int]) {
        let rest = order.drop_first();
        lemma_insert_index_members(rest, i, keys);
        let r = insert_index(order, i, keys);
        assert forall|q: int| 0 <= q < r.len() implies (#[trigger] r[q] == i || order.contains(r[q])) by {
            if q > 0 {
                let x = r[q];
                assert(x == insert_index(rest, i, keys)[q - 1]);
                if x != i {
                    let w = choose|w: int| 0 <= w < rest.len() && rest[w] == x;
                    assert(order[w + 1] == x);
                }
            } else {
                assert(order[0] == r[0]);
            }
        }
    } else if order.len() > 0 {
        let r = insert_index(order, i, keys);
        assert forall|q: int| 0 <= q < r.len() implies (#[trigger] r[q] == i || order.contains(r[q])) by {
            if q > 0 {
                assert(r[q] == order[q - 1]);
            }
        }
    }
}

/// The stable order of the items by key, where it differs from the order
/// they are in.
pub fn changed_order(keys: &Vec<SortKey>) -> (r: Option<Vec<usize>>)
    ensures
        is_permutation(stable_order(key_views(keys@), keys@.len() as int), keys@.len() as int),
        sorted_stably(key_views(keys@), stable_order(key_views(keys@), keys@.len() as int)),
        match r {
            Some(order) => order@ == stable_order(key_views(keys@), keys@.len() as int) && order@
                != identity(keys@.len() as int),
            None => stable_order(key_views(keys@), keys@.len() as int) == identity(keys@.len() as int),
        },
{
    let ghost kv = key_views(keys@);
    let n = keys.len();
    proof {
        lemma_stable_order_sorts(kv, n as int);
    }
    let mut order: Vec<usize> = Vec::new();
    let mut i: usize = 0;
    while i < n
        invariant
            i <= n == keys@.len(),
            kv == key_views(keys@),
            is_permutation(stable_order(kv, n as int), n as int),
            sorted_stably(kv, stable_order(kv, n as int)),
            order@ == stable_order(kv, i as int),
            indices_below(order@, i as int),
            order@.len() == i,
        decreases n - i,
    {
        proof {
            lemma_stable_order_indices(kv, i as int);
        }
        let mut p: usize = 0;
        while p < order.len() && !key_less(&keys[i], &keys[order[p]])
            invariant
                p <= order@.len(),
                i < n == keys@.len(),
                kv == key_views(keys@),
                indices_below(order@, i as int),
                forall|q: int| 0 <= q < p ==> !key_lt(kv[i as int], #[trigger] kv[order@[q] as int]),
            decreases order.len() - p,
        {
            assert(kv[order@[p as int] as int] == keys@[order@[p as int] as int]@);
            p += 1;
        }
        proof {
            assert(kv[i as int] == keys@[i as int]@);
            if p < order.len() {
                assert(kv[order@[p as int] as int] == keys@[order@[p as int] as int]@);
            }
            lemma_insert_index_at(order@, i, kv, p as int);
        }
        order.insert(p, i);
        i += 1;
        proof {
            lemma_stable_order_indices(kv, i as int);
        }
    }
    let mut k: usize = 0;
    while k < n
        invariant
            k <= n == order@.len(),
            n == keys@.len(),
            kv == key_views(keys@),
            is_permutation(stable_order(kv, n as int), n as int),
            sorted_stably(kv, stable_order(kv, n as int)),
            order@ == stable_order(kv, n as int),
            forall|q: int| 0 <= q < k ==> order@[q] == q as usize,
        decreases n - k,
    {
        if order[k] != k {
            assert(order@[k as int] != identity(n as int)[k as int]);
            return Some(order);
        }
        k += 1;
    }
    assert(order@ =~= identity(n as int));
    None
}

/// The name that sorts first among `names`, the first of equal ones.
pub open spec fn min_name_upto(names: Seq<Seq<u8>>, k: int) -> Seq<u8>
    decreases k,
{
    if k <= 1 {
        names[0]
    } else {
        let m = min_name_upto(names, k - 1);
        if lex_lt(names[k - 1], m) {
            names[k - 1]
        } else {
            m
        }
    }
}

/// The name an `inherit` sorts by: its first name, or its least where its
/// names are sorted too; nothing where it names none.
pub open spec fn inherit_name(names: Seq<Seq<u8>>, least: bool) -> Seq<u8> {
    if names.len() == 0 {
        seq![]
    } else if least {
        min_name_upto(names, names.len() as int)
    } else {
        names[0]
    }
}

fn inherit_sort_name(names: &Vec<Vec<u8>>, least: bool) -> (r: Vec<u8>)
    ensures
        r@ == inherit_name(strs(names@), least),
{
    if names.len() == 0 {
        return Vec::new();
    }
    if !least {
        return copy_bytes(names[0].as_slice());
    }
    let ghost ns = strs(names@);
    let mut m: usize = 0;
    let mut k: usize = 1;
    while k < names.len()
        invariant
            1 <= k <= names@.len(),
            m < k,
            ns == strs(names@),
            ns[m as int] == min_name_upto(ns, k as int),
        decreases names.len() - k,
    {
        if bytes_lt(names[k].as_slice(), names[m].as_slice()) {
            m = k;
        }
        k += 1;
    }
    copy_bytes(names[m].as_slice())
}

/// The key of a child of a binding set.
pub open spec fn binding_set_key(
    src: Seq<u8>,
    t: SyntaxTree,
    c: int,
    rules: RulesView,
    placement: InheritPlacement,
    inherit_sort: bool,
) -> KeyView {
    let k = t.nodes@[c].kind;
    if k == Kind::Binding {
        let comps = crate::syntax::binding_components(src, t, c);
        ranked(if comps.len() > 0 { comps[0] } else { seq![] }, comps, rules)
    } else if k == Kind::Inherit || k == Kind::InheritFrom {
        match placement {
            InheritPlacement::Front => KeyView { class: CLASS_INHERIT_FRONT, list_idx: 0, key: seq![] },
            InheritPlacement::Last => KeyView { class: CLASS_INHERIT_LAST, list_idx: 0, key: seq![] },
            InheritPlacement::Sorted => {
                let name = inherit_name(crate::syntax::inherit_names(src, t, c), inherit_sort);
                ranked(name, seq![name], rules)
            },
        }
    } else {
        KeyView { class: CLASS_MIDDLE, list_idx: 0, key: seq![] }
    }
}

fn one_name(name: &Vec<u8>) -> (r: Vec<Vec<u8>>)
    ensures
        strs(r@) == seq![name@],
{
    let mut v: Vec<Vec<u8>> = Vec::new();
    v.push(copy_bytes(name.as_slice()));
    assert(strs(v@) =~= seq![name@]);
    v
}

pub fn binding_set_key_of(
    src: &[u8],
    t: &SyntaxTree,
    c: usize,
    rules: &SortRules,
    placement: InheritPlacement,
    inherit_sort: bool,
) -> (r: SortKey)
    requires
        t.wf(src@.len()),
        c < t.nodes@.len(),
    ensures
        r@ == binding_set_key(src@, *t, c as int, rules@, placement, inherit_sort),
{
    let k = t.nodes[c].kind;
    if k == Kind::Binding {
        let comps = binding_components_of(src, t, c);
        let name = if comps.len() > 0 {
            assert(strs(comps@)[0] == comps@[0]@);
            copy_bytes(comps[0].as_slice())
        } else {
            Vec::new()
        };
        assert(strs(comps@) == crate::syntax::binding_components(src@, *t, c as int));
        ranked_key(name.as_slice(), comps, rules)
    } else if k == Kind::Inherit || k == Kind::InheritFrom {
        match placement {
            InheritPlacement::Front => {
                let key: Vec<Vec<u8>> = Vec::new();
                assert(strs(key@) =~= seq![]);
                SortKey { class: CLASS_INHERIT_FRONT, list_idx: 0, key }
            },
            InheritPlacement::Last => {
                let key: Vec<Vec<u8>> = Vec::new();
                assert(strs(key@) =~= seq![]);
                SortKey { class: CLASS_INHERIT_LAST, list_idx: 0, key }
            },
            InheritPlacement::Sorted => {
                let names = inherit_names_of(src, t, c);
                assert(strs(names@) == crate::syntax::inherit_names(src@, *t, c as int));
                let name = inherit_sort_name(&names, inherit_sort);
                let full = one_name(&name);
                ranked_key(name.as_slice(), full, rules)
            },
        }
    } else {
        let key: Vec<Vec<u8>> = Vec::new();
        assert(strs(key@) =~= seq![]);
        SortKey { class: CLASS_MIDDLE, list_idx: 0, key }
    }
}

/// The three dots of an ellipsis.
pub open spec fn dots() -> Seq<u8> {
    seq![46u8, 46u8, 46u8]
}

/// The key of a child of a formals list: a formal by its name, pinned by the
/// defaulted token where it has a default and its name pins it nowhere; the
/// ellipsis by `...`, last of all unless pinned.
pub open spec fn formal_key(src: Seq<u8>, t: SyntaxTree, c: int, rules: RulesView) -> KeyView {
    if t.nodes@[c].kind == Kind::Formal {
        let name = match crate::syntax::field_child(t, c, Field::Name) {
            Some(n) => crate::syntax::text_of(src, t, n as int),
            None => seq![],
        };
        let k = ranked(name, seq![name], rules);
        let token = encode_utf8(DEFAULTED_TOKEN@);
        if k.class == CLASS_MIDDLE && crate::syntax::field_child(t, c, Field::Default) is Some {
            match position_from(rules.first, token, 0) {
                Some(j) => KeyView { class: CLASS_FIRST, list_idx: j as usize, ..k },
                None => match position_from(rules.last, token, 0) {
                    Some(j) => KeyView { class: CLASS_LAST, list_idx: j as usize, ..k },
                    None => k,
                },
            }
        } else {
            k
        }
    } else {
        let k = ranked(dots(), seq![dots()], rules);
        if k.class == CLASS_MIDDLE {
            KeyView { class: CLASS_ELLIPSES, ..k }
        } else {
            k
        }
    }
}

pub fn formal_key_of(src: &[u8], t: &SyntaxTree, c: usize, rules: &SortRules) -> (r: SortKey)
    requires
        t.wf(src@.len()),
        c < t.nodes@.len(),
    ensures
        r@ == formal_key(src@, *t, c as int, rules@),
{
    proof {
        lemma_field_child_bounds(*t, src@.len(), c as int, Field::Name, 0);
    }
    if t.nodes[c].kind == Kind::Formal {
        let name = match field_child_of(t, c, Field::Name) {
            Some(n) => node_text(src, t, n),
            None => Vec::new(),
        };
        let full = one_name(&name);
        let mut k = ranked_key(name.as_slice(), full, rules);
        if k.class == CLASS_MIDDLE && field_child_of(t, c, Field::Default).is_some() {
            let token = DEFAULTED_TOKEN.as_bytes();
            match position(&rules.first, token) {
                Some(j) => {
                    k.class = CLASS_FIRST;
                    k.list_idx = j;
                },
                None => match position(&rules.last, token) {
                    Some(j) => {
                        k.class = CLASS_LAST;
                        k.list_idx = j;
                    },
                    None => {},
                },
            }
        }
        k
    } else {
        let mut d: Vec<u8> = Vec::new();
        d.push(46u8);
        d.push(46u8);
        d.push(46u8);
        assert(d@ =~= dots());
        let full = one_name(&d);
        let mut k = ranked_key(d.as_slice(), full, rules);
        if k.class == CLASS_MIDDLE {
            k.class = CLASS_ELLIPSES;
        }
        k
    }
}

/// A list element or inherited name is keyed, and ranked among `first` and
/// `last`, by its name: a string element `"x"` exactly as the name `x`, any
/// other element by its text.
pub proof fn lemma_name_key_is_the_name(src: Seq<u8>, t: SyntaxTree, c: int, rules: RulesView)
    requires
        0 <= c < t.len(),
    ensures
        ({
            let text = src.subrange(t.nodes@[c].start as int, t.nodes@[c].end as int);
            let quoted = t.nodes@[c].kind == Kind::StringExpression && text.len() >= 2 && text[0] == 34u8
                && text[text.len() - 1] == 34u8;
            let name = if quoted {
                text.subrange(1, text.len() - 1)
            } else {
                text
            };
            name_key(src, t, c, rules) == ranked(name, seq![name], rules)
        }),
{
}

/// The key of a list element or an inherited name: its name as written.
pub open spec fn name_key(src: Seq<u8>, t: SyntaxTree, c: int, rules: RulesView) -> KeyView {
    let name = crate::syntax::normalize_key(src, t, c);
    ranked(name, seq![name], rules)
}

pub fn name_key_of(src: &[u8], t: &SyntaxTree, c: usize, rules: &SortRules) -> (r: SortKey)
    requires
        t.wf(src@.len()),
        c < t.nodes@.len(),
    ensures
        r@ == name_key(src@, *t, c as int, rules@),
{
    let name = normalize_key_of(src, t, c);
    let full = one_name(&name);
    ranked_key(name.as_slice(), full, rules)
}

/// Every child of node `i` comes after it.
pub proof fn lemma_children_after(t: SyntaxTree, n_src: nat, i: int)
    requires
        t.wf(n_src),
        0 <= i < t.len(),
    ensures
        forall|j: int| 0 <= j < t.n_children(i) ==> i < #[trigger] t.child(i, j) < t.len(),
{
    assert(t.node_wf(i, n_src));
    assert forall|j: int| 0 <= j < t.n_children(i) implies i < #[trigger] t.child(i, j) < t.len() by {
        assert(t.child_ok(i, j));
    }
}

/// Every node of a container's region comes after the container.
pub proof fn lemma_region_after(t: SyntaxTree, n_src: nat, i: int, s: int, b: int, e: int)
    requires
        t.wf(n_src),
        0 <= i < t.len(),
        0 <= s <= b <= e < t.n_children(i),
    ensures
        forall|q: int|
            0 <= q < region_nodes(t, i, s, b, e).len() ==> i < #[trigger] region_nodes(t, i, s, b, e)[q] < t.len(),
{
    lemma_children_after(t, n_src, i);
    let bs = t.child(i, b);
    lemma_children_after(t, n_src, bs);
    let cs = t.nodes@[i].children@;
    let a = cs.subrange(s, b);
    let m = t.nodes@[bs].children@;
    let z = cs.subrange(b + 1, e + 1);
    assert forall|q: int| 0 <= q < region_nodes(t, i, s, b, e).len() implies i < #[trigger] region_nodes(
        t,
        i,
        s,
        b,
        e,
    )[q] < t.len() by {
        let f = region_nodes(t, i, s, b, e);
        if q < a.len() {
            assert(f[q] == t.child(i, s + q));
        } else if q < a.len() + m.len() {
            assert(f[q] == t.child(bs, q - a.len()));
        } else {
            assert(f[q] == t.child(i, b + 1 + q - a.len() - m.len()));
        }
    }
}

/// Whether every node of `cs` comes after node `i`.
pub open spec fn all_after(t: SyntaxTree, i: int, cs: Seq<usize>) -> bool {
    forall|q: int| 0 <= q < cs.len() ==> i < (#[trigger] cs[q] as int) < t.nodes@.len()
}

/// An optional text as bytes.
pub open spec fn opt_bytes(x: Option<Vec<u8>>) -> Option<Seq<u8>> {
    match x {
        Some(v) => Some(v@),
        None => None,
    }
}

/// Node `c` rewritten, where it lies below node `i` in the tree.
pub open spec fn rewrite_below(src: Seq<u8>, t: SyntaxTree, i: int, c: int, path: Seq<Seq<u8>>, cfg: Config) -> Option<
    Seq<u8>,
>
    decreases t.len() - i, 1int, 0int,
{
    if i < c < t.len() {
        rewrite_spec(src, t, c, path, cfg)
    } else {
        None
    }
}

/// What node `i` becomes once everything in it is ordered by the rules at
/// `path`, or nothing where nothing in it changes. Attribute sets and `let`
/// reorder their bindings, formals their arguments, lists their elements and
/// `inherit` its names; a binding passes its path on to its value; any other
/// node passes the rewriting on to its children.
pub open spec fn rewrite_spec(src: Seq<u8>, t: SyntaxTree, i: int, path: Seq<Seq<u8>>, cfg: Config) -> Option<
    Seq<u8>,
>
    decreases t.len() - i, 5int, 0int,
{
    if i < 0 || i >= t.len() {
        None
    } else {
        match t.nodes@[i].kind {
            Kind::AttrsetExpression | Kind::RecAttrsetExpression | Kind::LetAttrsetExpression => sorted_container(
                src,
                t,
                i,
                path,
                cfg,
                RuleKind::Attrs,
            ),
            Kind::LetExpression => sorted_container(src, t, i, path, cfg, RuleKind::Lets),
            Kind::Formals => sorted_formals(src, t, i, path, cfg),
            Kind::ListExpression => sorted_list(src, t, i, path, cfg),
            Kind::InheritedAttrs => sorted_inherit(src, t, i, path, cfg),
            Kind::Binding => descended(src, t, i, path, cfg),
            _ => spliced(src, t, i, path, cfg),
        }
    }
}

/// The first `j` children of node `i`, each rewritten at `path`.
pub open spec fn child_rewrites_upto(
    src: Seq<u8>,
    t: SyntaxTree,
    i: int,
    path: Seq<Seq<u8>>,
    cfg: Config,
    j: int,
) -> Seq<Option<Seq<u8>>>
    decreases t.len() - i, 2int, j,
{
    if j <= 0 {
        seq![]
    } else {
        child_rewrites_upto(src, t, i, path, cfg, j - 1).push(
            rewrite_below(src, t, i, t.child(i, j - 1) as int, path, cfg),
        )
    }
}

/// The text of node `i` with its children replaced where `rw` says, or
/// nothing where none is.
pub open spec fn splice_result(src: Seq<u8>, t: SyntaxTree, i: int, rw: Seq<Option<Seq<u8>>>) -> Option<Seq<u8>> {
    if crate::layout::any_rewritten(rw) {
        Some(crate::layout::splice_from(src, t, i, rw, 0, t.nodes@[i].start as int))
    } else {
        None
    }
}

/// Node `i` with its children rewritten at `path`.
pub open spec fn spliced(src: Seq<u8>, t: SyntaxTree, i: int, path: Seq<Seq<u8>>, cfg: Config) -> Option<Seq<u8>>
    decreases t.len() - i, 3int, 0int,
{
    splice_result(src, t, i, child_rewrites_upto(src, t, i, path, cfg, t.n_children(i)))
}

/// The first `j` children of binding `i`: its value rewritten at `inner`,
/// the others at `path`.
pub open spec fn binding_rewrites_upto(
    src: Seq<u8>,
    t: SyntaxTree,
    i: int,
    path: Seq<Seq<u8>>,
    inner: Seq<Seq<u8>>,
    cfg: Config,
    j: int,
) -> Seq<Option<Seq<u8>>>
    decreases t.len() - i, 2int, j,
{
    if j <= 0 {
        seq![]
    } else {
        let c = t.nodes@[i].children@[j - 1];
        binding_rewrites_upto(src, t, i, path, inner, cfg, j - 1).push(
            if crate::syntax::field_child(t, i, Field::Expression) == Some(c) {
                rewrite_below(src, t, i, c as int, inner, cfg)
            } else {
                rewrite_below(src, t, i, c as int, path, cfg)
            },
        )
    }
}

/// Binding `i` with its value rewritten at the path the binding extends.
pub open spec fn descended(src: Seq<u8>, t: SyntaxTree, i: int, path: Seq<Seq<u8>>, cfg: Config) -> Option<Seq<u8>>
    decreases t.len() - i, 4int, 0int,
{
    let inner = path + crate::syntax::binding_components(src, t, i);
    splice_result(src, t, i, binding_rewrites_upto(src, t, i, path, inner, cfg, t.n_children(i)))
}

/// The first `q` items in `order`, each rewritten at `path`.
pub open spec fn item_rewrites_upto(
    src: Seq<u8>,
    t: SyntaxTree,
    i: int,
    items: Seq<ItemView>,
    order: Seq<usize>,
    path: Seq<Seq<u8>>,
    cfg: Config,
    q: int,
) -> Seq<Option<Seq<u8>>>
    decreases t.len() - i, 2int, q,
{
    if q <= 0 {
        seq![]
    } else {
        item_rewrites_upto(src, t, i, items, order, path, cfg, q - 1).push(
            rewrite_below(src, t, i, items[order[q - 1] as int].node as int, path, cfg),
        )
    }
}

/// The first `j` children of container `i` rewritten at `path`, but for
/// its region `s..=e`.
pub open spec fn outside_rewrites_upto(
    src: Seq<u8>,
    t: SyntaxTree,
    i: int,
    s: int,
    e: int,
    path: Seq<Seq<u8>>,
    cfg: Config,
    j: int,
) -> Seq<Option<Seq<u8>>>
    decreases t.len() - i, 2int, j,
{
    if j <= 0 {
        seq![]
    } else {
        outside_rewrites_upto(src, t, i, s, e, path, cfg, j - 1).push(
            if s <= j - 1 <= e {
                None
            } else {
                rewrite_below(src, t, i, t.child(i, j - 1) as int, path, cfg)
            },
        )
    }
}

/// Whether `inherit` names sort before the other bindings of the set that
/// the rules at `path` sort.
pub open spec fn inherit_sort_at(cfg: Config, path: Seq<Seq<u8>>) -> bool {
    cfg.inherit_placement == InheritPlacement::Sorted && cfg.rules_at_spec(RuleKind::Inherits, path).sort
}

/// The order of the items of container `i`'s binding set by their keys.
pub open spec fn container_order(src: Seq<u8>, t: SyntaxTree, items: Seq<ItemView>, rules: RulesView, cfg: Config, path: Seq<Seq<u8>>) -> Seq<usize> {
    stable_order(
        binding_set_keys(src, t, items, rules, cfg.inherit_placement, inherit_sort_at(cfg, path)),
        items.len() as int,
    )
}

/// Container `i` with the bindings of its set in the order of the rules of
/// `kind` at `path`, where they sort it and the order changes; else with its
/// children rewritten.
pub open spec fn sorted_container(
    src: Seq<u8>,
    t: SyntaxTree,
    i: int,
    path: Seq<Seq<u8>>,
    cfg: Config,
    kind: RuleKind,
) -> Option<Seq<u8>>
    decreases t.len() - i, 4int, 0int,
{
    let rules = cfg.rules_at_spec(kind, path);
    if !rules.sort {
        spliced(src, t, i, path, cfg)
    } else {
        match crate::layout::region_of(t, i) {
            None => spliced(src, t, i, path, cfg),
            Some((s, b, e)) => {
                let flat = region_nodes(t, i, s, b, e);
                let ci = crate::layout::collect_upto(t, flat, flat.len() as int);
                let order = container_order(src, t, ci.0, rules, cfg, path);
                if order == identity(ci.0.len() as int) {
                    spliced(src, t, i, path, cfg)
                } else {
                    let bodies = item_rewrites_upto(src, t, i, ci.0, order, path, cfg, order.len() as int);
                    let region = region_text(src, t, ci.0, ci.1, order, bodies);
                    let rw = outside_rewrites_upto(src, t, i, s, e, path, cfg, t.n_children(i));
                    Some(crate::layout::splice_region_from(src, t, i, s, e, region, rw, 0, t.nodes@[i].start as int))
                }
            },
        }
    }
}

/// The children of node `i` among the first `j` that a formals list (or,
/// for `formals` false, a list) orders: formals, the ellipsis and comments,
/// or every named child.
pub open spec fn kept_children(t: SyntaxTree, i: int, formals: bool, j: int) -> Seq<usize>
    decreases j,
{
    if j <= 0 {
        seq![]
    } else {
        let c = t.nodes@[i].children@[j - 1];
        let k = t.nodes@[c as int].kind;
        let keep = if formals {
            k == Kind::Formal || k == Kind::Ellipses || k == Kind::Comment
        } else {
            t.nodes@[c as int].named
        };
        if keep {
            kept_children(t, i, formals, j - 1).push(c)
        } else {
            kept_children(t, i, formals, j - 1)
        }
    }
}

/// The comments `ds`, each after `sep`.
pub open spec fn dangling_text(src: Seq<u8>, t: SyntaxTree, ds: Seq<usize>, sep: Seq<u8>) -> Seq<u8>
    decreases ds.len(),
{
    if ds.len() == 0 {
        seq![]
    } else {
        dangling_text(src, t, ds.drop_last(), sep) + sep + crate::syntax::text_of(src, t, ds.last() as int)
    }
}

/// A bracketed list of items in `order`, each with its body: `open`, the
/// items, the leftover comments, and `close` on a line of its own unless it
/// all fits on one line; `comma` puts a comma after each item but the last.
pub open spec fn bracketed_text(
    src: Seq<u8>,
    t: SyntaxTree,
    i: int,
    items: Seq<ItemView>,
    dangling: Seq<usize>,
    order: Seq<usize>,
    bodies: Seq<Option<Seq<u8>>>,
    open: u8,
    close: u8,
    comma: bool,
) -> Seq<u8> {
    let single_line = t.nodes@[i].start_row == t.nodes@[i].end_row && !crate::layout::has_comments(items, dangling);
    let sep = item_sep_spec(src, t, items[0].node as int, single_line);
    seq![open] + sep + crate::layout::join(rendered_items(src, t, items, order, bodies, sep, comma), sep)
        + dangling_text(src, t, dangling, sep) + if single_line {
        seq![32u8, close]
    } else {
        seq![10u8] + crate::layout::line_indent(src, t, i) + seq![close]
    }
}

/// The keys of the items of a formals list, or of a list (`formals` false).
pub open spec fn bracket_keys(src: Seq<u8>, t: SyntaxTree, items: Seq<ItemView>, rules: RulesView, formals: bool) -> Seq<
    KeyView,
> {
    Seq::new(
        items.len(),
        |k: int|
            if formals {
                formal_key(src, t, items[k].node as int, rules)
            } else {
                name_key(src, t, items[k].node as int, rules)
            },
    )
}

/// A formals list or a list (`formals` false) with its items in the stable
/// order of `key`, where the order changes; else with its children
/// rewritten.
pub open spec fn sorted_bracketed(
    src: Seq<u8>,
    t: SyntaxTree,
    i: int,
    path: Seq<Seq<u8>>,
    cfg: Config,
    formals: bool,
) -> Option<Seq<u8>>
    decreases t.len() - i, 4int, 0int,
{
    let rules = cfg.rules_at_spec(if formals { RuleKind::Args } else { RuleKind::Lists }, path);
    if !rules.sort {
        spliced(src, t, i, path, cfg)
    } else {
        let cs = kept_children(t, i, formals, t.n_children(i));
        let ci = crate::layout::collect_upto(t, cs, cs.len() as int);
        let items = ci.0;
        let order = stable_order(bracket_keys(src, t, items, rules, formals), items.len() as int);
        if order == identity(items.len() as int) {
            spliced(src, t, i, path, cfg)
        } else {
            let bodies = item_rewrites_upto(src, t, i, items, order, path, cfg, order.len() as int);
            Some(
                if formals {
                    bracketed_text(src, t, i, items, ci.1, order, bodies, 123u8, 125u8, true)
                } else {
                    bracketed_text(src, t, i, items, ci.1, order, bodies, 91u8, 93u8, false)
                },
            )
        }
    }
}

pub open spec fn sorted_formals(src: Seq<u8>, t: SyntaxTree, i: int, path: Seq<Seq<u8>>, cfg: Config) -> Option<
    Seq<u8>,
>
    decreases t.len() - i, 4int, 1int,
{
    sorted_bracketed(src, t, i, path, cfg, true)
}

pub open spec fn sorted_list(src: Seq<u8>, t: SyntaxTree, i: int, path: Seq<Seq<u8>>, cfg: Config) -> Option<
    Seq<u8>,
>
    decreases t.len() - i, 4int, 1int,
{
    sorted_bracketed(src, t, i, path, cfg, false)
}

/// Whether some child of node `i` is a comment.
pub open spec fn has_comment_child(t: SyntaxTree, i: int) -> bool {
    exists|j: int| 0 <= j < t.n_children(i) && t.nodes@[#[trigger] t.child(i, j) as int].kind == Kind::Comment
}

/// The names of an `inherit` in their stable order by key, separated by
/// spaces, where the order changes and no comment is among them; else the
/// node with its children rewritten.
pub open spec fn sorted_inherit(src: Seq<u8>, t: SyntaxTree, i: int, path: Seq<Seq<u8>>, cfg: Config) -> Option<
    Seq<u8>,
>
    decreases t.len() - i, 4int, 0int,
{
    let rules = cfg.rules_at_spec(RuleKind::Inherits, path);
    if !rules.sort || has_comment_child(t, i) {
        spliced(src, t, i, path, cfg)
    } else {
        let cs = t.nodes@[i].children@;
        let items = crate::layout::collect_upto(t, cs, cs.len() as int).0;
        let keys = Seq::new(items.len(), |k: int| name_key(src, t, items[k].node as int, rules));
        let order = stable_order(keys, items.len() as int);
        if order == identity(items.len() as int) {
            spliced(src, t, i, path, cfg)
        } else {
            let bodies = item_rewrites_upto(src, t, i, items, order, path, cfg, order.len() as int);
            Some(crate::layout::join(rendered_items(src, t, items, order, bodies, seq![32u8], false), seq![32u8]))
        }
    }
}

/// Each child of node `i` rewritten, where it changes.
fn child_rewrites(src: &[u8], t: &SyntaxTree, i: usize, path: &Vec<Vec<u8>>, cfg: &Config) -> (r: Vec<
    Option<Vec<u8>>,
>)
    requires
        t.wf(src@.len()),
        i < t.nodes@.len(),
    ensures
        r@.len() == t.n_children(i as int),
        texts(r@) == child_rewrites_upto(src@, *t, i as int, strs(path@), *cfg, t.n_children(i as int)),
    decreases t.nodes@.len() - i, 1nat,
{
    proof {
        lemma_children_after(*t, src@.len(), i as int);
    }
    let n = t.nodes[i].children.len();
    let mut rw: Vec<Option<Vec<u8>>> = Vec::new();
    let mut j: usize = 0;
    while j < n
        invariant
            t.wf(src@.len()),
            i < t.nodes@.len(),
            n == t.n_children(i as int),
            j <= n,
            rw@.len() == j,
            texts(rw@) == child_rewrites_upto(src@, *t, i as int, strs(path@), *cfg, j as int),
            forall|q: int| 0 <= q < t.n_children(i as int) ==> i < #[trigger] t.child(i as int, q) < t.len(),
        decreases n - j,
    {
        let c = t.nodes[i].children[j];
        assert(c == t.child(i as int, j as int));
        let x = rewrite(src, t, c, path, cfg);
        let ghost before = texts(rw@);
        rw.push(x);
        assert(texts(rw@) =~= before.push(opt_bytes(x)));
        assert(rewrite_below(src@, *t, i as int, c as int, strs(path@), *cfg) == opt_bytes(x));
        assert(child_rewrites_upto(src@, *t, i as int, strs(path@), *cfg, j + 1) == before.push(
            rewrite_below(src@, *t, i as int, t.child(i as int, j as int), strs(path@), *cfg),
        ));
        j += 1;
    }
    rw
}

/// Node `i` with its children rewritten, where one changes.
fn splice_all(src: &[u8], t: &SyntaxTree, i: usize, path: &Vec<Vec<u8>>, cfg: &Config) -> (r: Option<Vec<u8>>)
    requires
        t.wf(src@.len()),
        i < t.nodes@.len(),
    ensures
        opt_bytes(r) == spliced(src@, *t, i as int, strs(path@), *cfg),
    decreases t.nodes@.len() - i, 2nat,
{
    let rw = child_rewrites(src, t, i, path, cfg);
    splice_children(src, t, i, &rw)
}

/// Node `i` rewritten by the rules for its kind, where anything in it
/// changes.
pub fn rewrite(src: &[u8], t: &SyntaxTree, i: usize, path: &Vec<Vec<u8>>, cfg: &Config) -> (r: Option<Vec<u8>>)
    requires
        t.wf(src@.len()),
        i < t.nodes@.len(),
    ensures
        opt_bytes(r) == rewrite_spec(src@, *t, i as int, strs(path@), *cfg),
    decreases t.nodes@.len() - i, 4nat,
{
    match t.nodes[i].kind {
        Kind::AttrsetExpression | Kind::RecAttrsetExpression | Kind::LetAttrsetExpression => {
            sort_container(src, t, i, path, cfg, RuleKind::Attrs)
        },
        Kind::LetExpression => sort_container(src, t, i, path, cfg, RuleKind::Lets),
        Kind::Formals => sort_formals(src, t, i, path, cfg),
        Kind::ListExpression => sort_list(src, t, i, path, cfg),
        Kind::InheritedAttrs => sort_inherited_attrs(src, t, i, path, cfg),
        Kind::Binding => descend_binding(src, t, i, path, cfg),
        _ => splice_all(src, t, i, path, cfg),
    }
}

/// A binding with its value rewritten at the path the binding extends.
fn descend_binding(src: &[u8], t: &SyntaxTree, i: usize, path: &Vec<Vec<u8>>, cfg: &Config) -> (r: Option<
    Vec<u8>,
>)
    requires
        t.wf(src@.len()),
        i < t.nodes@.len(),
    ensures
        opt_bytes(r) == descended(src@, *t, i as int, strs(path@), *cfg),
    decreases t.nodes@.len() - i, 3nat,
{
    proof {
        lemma_children_after(*t, src@.len(), i as int);
    }
    let expr = field_child_of(t, i, Field::Expression);
    let comps = binding_components_of(src, t, i);
    let mut inner = copy_strs(path);
    extend_strs(&mut inner, &comps);
    let ghost iv = strs(inner@);
    assert(strs(comps@) =~= crate::syntax::binding_components(src@, *t, i as int));
    assert(iv == strs(path@) + crate::syntax::binding_components(src@, *t, i as int));
    let n = t.nodes[i].children.len();
    let mut rw: Vec<Option<Vec<u8>>> = Vec::new();
    let mut j: usize = 0;
    while j < n
        invariant
            t.wf(src@.len()),
            i < t.nodes@.len(),
            n == t.n_children(i as int),
            j <= n,
            rw@.len() == j,
            expr == crate::syntax::field_child(*t, i as int, Field::Expression),
            iv == strs(inner@),
            texts(rw@) == binding_rewrites_upto(src@, *t, i as int, strs(path@), iv, *cfg, j as int),
            forall|q: int| 0 <= q < t.n_children(i as int) ==> i < #[trigger] t.child(i as int, q) < t.len(),
        decreases n - j,
    {
        let c = t.nodes[i].children[j];
        assert(c == t.child(i as int, j as int));
        let ghost before = texts(rw@);
        let x = if expr == Some(c) {
            rewrite(src, t, c, &inner, cfg)
        } else {
            rewrite(src, t, c, path, cfg)
        };
        rw.push(x);
        assert(texts(rw@) =~= before.push(opt_bytes(x)));
        assert(t.nodes@[i as int].children@[j as int] == c);
        if expr == Some(c) {
            assert(rewrite_below(src@, *t, i as int, c as int, iv, *cfg) == opt_bytes(x));
        } else {
            assert(rewrite_below(src@, *t, i as int, c as int, strs(path@), *cfg) == opt_bytes(x));
        }
        assert(binding_rewrites_upto(src@, *t, i as int, strs(path@), iv, *cfg, j + 1) == before.push(opt_bytes(x)));
        j += 1;
    }
    splice_children(src, t, i, &rw)
}

/// An attribute set or `let` with its bindings reordered, where the rules at
/// its path sort it and the order changes.
fn sort_container(
    src: &[u8],
    t: &SyntaxTree,
    i: usize,
    path: &Vec<Vec<u8>>,
    cfg: &Config,
    kind: RuleKind,
) -> (r: Option<Vec<u8>>)
    requires
        t.wf(src@.len()),
        i < t.nodes@.len(),
    ensures
        opt_bytes(r) == sorted_container(src@, *t, i as int, strs(path@), *cfg, kind),
    decreases t.nodes@.len() - i, 3nat,
{
    let rules = cfg.rules_at(kind, path);
    if !rules.sort {
        return splice_all(src, t, i, path, cfg);
    }
    proof {
        lemma_children_after(*t, src@.len(), i as int);
    }
    let (s, b, e, flat) = match container_region(t, i) {
        None => return splice_all(src, t, i, path, cfg),
        Some(x) => x,
    };
    proof {
        lemma_region_after(*t, src@.len(), i as int, s as int, b as int, e as int);
    }
    let region = match sort_bindings(src, t, i, &flat, path, cfg, &rules) {
        None => return splice_all(src, t, i, path, cfg),
        Some(v) => v,
    };
    let n = t.nodes[i].children.len();
    let mut rw: Vec<Option<Vec<u8>>> = Vec::new();
    let mut j: usize = 0;
    while j < n
        invariant
            t.wf(src@.len()),
            i < t.nodes@.len(),
            n == t.n_children(i as int),
            j <= n,
            rw@.len() == j,
            texts(rw@) == outside_rewrites_upto(src@, *t, i as int, s as int, e as int, strs(path@), *cfg, j as int),
            forall|q: int| 0 <= q < t.n_children(i as int) ==> i < #[trigger] t.child(i as int, q) < t.len(),
        decreases n - j,
    {
        let ghost before = texts(rw@);
        if s <= j && j <= e {
            rw.push(None);
            assert(texts(rw@) =~= before.push(None));
        } else {
            let c = t.nodes[i].children[j];
            assert(c == t.child(i as int, j as int));
            let x = rewrite(src, t, c, path, cfg);
            rw.push(x);
            assert(texts(rw@) =~= before.push(opt_bytes(x)));
            assert(rewrite_below(src@, *t, i as int, c as int, strs(path@), *cfg) == opt_bytes(x));
        }
        j += 1;
    }
    Some(splice_region(src, t, i, s, e, &region, &rw))
}

/// The first items in `order`, as many as there are `bodies`, each written
/// with its body, each but the last of `order` followed by a comma where
/// `comma` says so.
pub open spec fn rendered_items(
    src: Seq<u8>,
    t: SyntaxTree,
    items: Seq<ItemView>,
    order: Seq<usize>,
    bodies: Seq<Option<Seq<u8>>>,
    sep: Seq<u8>,
    comma: bool,
) -> Seq<Seq<u8>> {
    Seq::new(
        bodies.len(),
        |q: int|
            crate::layout::item_text(
                src,
                t,
                items[order[q] as int],
                bodies[q],
                sep,
                if comma && q + 1 < order.len() {
                    seq![44u8]
                } else {
                    seq![]
                },
            ),
    )
}

/// The texts of the nodes `cs`.
pub open spec fn node_texts(src: Seq<u8>, t: SyntaxTree, cs: Seq<usize>) -> Seq<Seq<u8>> {
    cs.map_values(|c: usize| crate::syntax::text_of(src, t, c as int))
}

/// The keys of the children of a binding set.
pub open spec fn binding_set_keys(
    src: Seq<u8>,
    t: SyntaxTree,
    items: Seq<ItemView>,
    rules: RulesView,
    placement: InheritPlacement,
    inherit_sort: bool,
) -> Seq<KeyView> {
    Seq::new(items.len(), |k: int| binding_set_key(src, t, items[k].node as int, rules, placement, inherit_sort))
}

/// Whether the items stay on one line: no comment among them, and the first
/// starts on the row where the last ends.
pub open spec fn on_one_line(t: SyntaxTree, items: Seq<ItemView>, dangling: Seq<usize>) -> bool {
    !crate::layout::has_comments(items, dangling) && t.nodes@[items[0].node as int].start_row
        == t.nodes@[items[items.len() - 1].node as int].end_row
}

/// The text a binding set's region gets once its items are in `order`: the
/// items, with their bodies, then the comments left after them, joined by
/// the separator.
pub open spec fn region_text(
    src: Seq<u8>,
    t: SyntaxTree,
    items: Seq<ItemView>,
    dangling: Seq<usize>,
    order: Seq<usize>,
    bodies: Seq<Option<Seq<u8>>>,
) -> Seq<u8> {
    let sep = item_sep_spec(src, t, items[0].node as int, on_one_line(t, items, dangling));
    crate::layout::join(rendered_items(src, t, items, order, bodies, sep, false) + node_texts(src, t, dangling), sep)
}

/// The items of a binding set in their stable order by key, where it differs
/// from the order they are in; each item's node may come back rewritten.
fn sort_bindings(
    src: &[u8],
    t: &SyntaxTree,
    i: usize,
    flat: &Vec<usize>,
    path: &Vec<Vec<u8>>,
    cfg: &Config,
    rules: &SortRules,
) -> (r: Option<Vec<u8>>)
    requires
        t.wf(src@.len()),
        i < t.nodes@.len(),
        all_after(*t, i as int, flat@),
    ensures
        ({
            let ci = crate::layout::collect_upto(*t, flat@, flat@.len() as int);
            let order = container_order(src@, *t, ci.0, rules@, *cfg, strs(path@));
            &&& r is None <==> order == identity(ci.0.len() as int)
            &&& r matches Some(v) ==> v@ == region_text(
                src@,
                *t,
                ci.0,
                ci.1,
                order,
                item_rewrites_upto(src@, *t, i as int, ci.0, order, strs(path@), *cfg, order.len() as int),
            )
        }),
    decreases t.nodes@.len() - i, 2nat,
{
    let inherit_sort = cfg.inherit_placement == InheritPlacement::Sorted && cfg.rules_at(
        RuleKind::Inherits,
        path,
    ).sort;
    let (items, dangling) = items_of(t, i, flat);
    let ghost iv = item_views(items@);
    let ghost kv = binding_set_keys(src@, *t, iv, rules@, cfg.inherit_placement, inherit_sort);
    let mut keys: Vec<SortKey> = Vec::new();
    let mut k: usize = 0;
    while k < items.len()
        invariant
            t.wf(src@.len()),
            k <= items@.len(),
            keys@.len() == k,
            iv == item_views(items@),
            kv == binding_set_keys(src@, *t, iv, rules@, cfg.inherit_placement, inherit_sort),
            forall|q: int| 0 <= q < items@.len() ==> i < (#[trigger] items@[q]).node < t.len(),
            forall|q: int| 0 <= q < k ==> #[trigger] key_views(keys@)[q] == kv[q],
        decreases items.len() - k,
    {
        assert(iv[k as int] == items@[k as int]@);
        let ghost before = key_views(keys@);
        keys.push(binding_set_key_of(src, t, items[k].node, rules, cfg.inherit_placement, inherit_sort));
        assert(key_views(keys@)[k as int] == keys@[k as int]@);
        assert forall|q: int| 0 <= q < k implies #[trigger] key_views(keys@)[q] == before[q] by {
            assert(key_views(keys@)[q] == keys@[q]@);
        }
        k += 1;
    }
    assert(key_views(keys@) =~= kv);
    proof {
        let ci = crate::layout::collect_upto(*t, flat@, flat@.len() as int);
        assert(ci.0 == iv && ci.1 == dangling@);
        let want = cfg.inherit_placement == InheritPlacement::Sorted && cfg.rules_at_spec(
            RuleKind::Inherits,
            strs(path@),
        ).sort;
        assert(inherit_sort == want);
    }
    let order = match changed_order(&keys) {
        None => return None,
        Some(o) => o,
    };
    proof {
        lemma_stable_order_indices(key_views(keys@), keys@.len() as int);
        if keys@.len() == 0 {
            assert(stable_order(key_views(keys@), 0) =~= identity(0));
        }
    }
    let n = items.len();
    let single_line = !items_have_comments(&items, &dangling) && t.nodes[items[0].node].start_row
        == t.nodes[items[n - 1].node].end_row;
    assert(iv[0] == items@[0]@ && iv[n - 1] == items@[n - 1]@);
    assert(single_line == on_one_line(*t, iv, dangling@));
    let sep = item_sep(src, t, items[0].node, single_line);
    let mut blocks: Vec<Vec<u8>> = Vec::new();
    let ghost mut bodies: Seq<Option<Seq<u8>>> = seq![];
    let mut q: usize = 0;
    while q < order.len()
        invariant
            t.wf(src@.len()),
            n == items@.len(),
            iv == item_views(items@),
            indices_below(order@, n as int),
            q <= order@.len(),
            bodies.len() == q,
            bodies == item_rewrites_upto(src@, *t, i as int, iv, order@, strs(path@), *cfg, q as int),
            strs(blocks@) == rendered_items(src@, *t, iv, order@, bodies, sep@, false),
            blocks@.len() == q,
            order@.len() == n,
            forall|x: int| 0 <= x < items@.len() ==> i < (#[trigger] items@[x]).node < t.len() && item_in(
                *t,
                items@[x]@,
            ),
        decreases order.len() - q,
    {
        let it = &items[order[q]];
        assert(iv[order@[q as int] as int] == it@);
        let body = rewrite(src, t, it.node, path, cfg);
        let block = render_item(src, t, it, &body, &sep, &[]);
        let ghost before = strs(blocks@);
        assert(before =~= rendered_items(src@, *t, iv, order@, bodies, sep@, false));
        let ghost bv = match body {
            Some(b) => Some(b@),
            None => None,
        };
        blocks.push(block);
        proof {
            assert(bv == opt_bytes(body));
            assert(rewrite_below(src@, *t, i as int, iv[order@[q as int] as int].node as int, strs(path@), *cfg) == bv);
            bodies = bodies.push(bv);
        }
        q += 1;
        assert(strs(blocks@) =~= rendered_items(src@, *t, iv, order@, bodies, sep@, false)) by {
            assert forall|x: int| 0 <= x < q implies #[trigger] strs(blocks@)[x] == rendered_items(
                src@,
                *t,
                iv,
                order@,
                bodies,
                sep@,
                false,
            )[x] by {
                if x < q - 1 {
                    assert(strs(blocks@)[x] == before[x]);
                }
            }
        }
    }
    let ghost rendered = strs(blocks@);
    let mut d: usize = 0;
    while d < dangling.len()
        invariant
            t.wf(src@.len()),
            d <= dangling@.len(),
            forall|x: int| 0 <= x < dangling@.len() ==> (#[trigger] dangling@[x] as int) < t.nodes@.len(),
            strs(blocks@) == rendered + node_texts(src@, *t, dangling@.take(d as int)),
            blocks@.len() == rendered.len() + d,
        decreases dangling.len() - d,
    {
        let ghost before = strs(blocks@);
        let text = node_text(src, t, dangling[d]);
        let ghost tv = text@;
        blocks.push(text);
        assert(strs(blocks@) =~= before.push(tv));
        d += 1;
        assert(dangling@.take(d as int) =~= dangling@.take(d - 1).push(dangling@[d - 1]));
        assert(node_texts(src@, *t, dangling@.take(d as int)) =~= node_texts(src@, *t, dangling@.take(d - 1)).push(
            crate::syntax::text_of(src@, *t, dangling@[d - 1] as int),
        ));
        assert(strs(blocks@) =~= rendered + node_texts(src@, *t, dangling@.take(d as int)));
    }
    assert(dangling@.take(d as int) =~= dangling@);
    let out = join_blocks(&blocks, sep.as_slice());
    assert(out@ == region_text(src@, *t, iv, dangling@, order@, bodies));
    Some(out)
}

/// What separates items: a space where they stay on one line, else a line
/// break and the indentation of the first.
pub open spec fn item_sep_spec(src: Seq<u8>, t: SyntaxTree, first: int, single_line: bool) -> Seq<u8> {
    if single_line {
        seq![32u8]
    } else {
        seq![10u8] + crate::layout::indent(src, t, first)
    }
}

fn item_sep(src: &[u8], t: &SyntaxTree, first: usize, single_line: bool) -> (r: Vec<u8>)
    requires
        t.wf(src@.len()),
        first < t.nodes@.len(),
    ensures
        r@ == item_sep_spec(src@, *t, first as int, single_line),
{
    let mut v: Vec<u8> = Vec::new();
    if single_line {
        v.push(32u8);
        assert(v@ =~= seq![32u8]);
    } else {
        v.push(10u8);
        let ind = indent_of(src, t, first);
        push_all(&mut v, ind.as_slice());
        assert(v@ =~= seq![10u8] + ind@);
    }
    v
}

/// A bracketed list of items in their stable order: `open`, the items, the
/// leftover comments, and `close` on a line of its own unless it all fits on
/// one line; `comma` puts a comma after each item but the last.
fn render_sorted(
    src: &[u8],
    t: &SyntaxTree,
    i: usize,
    items: &Vec<Item>,
    dangling: &Vec<usize>,
    keys: &Vec<SortKey>,
    open: u8,
    close: u8,
    comma: bool,
    path: &Vec<Vec<u8>>,
    cfg: &Config,
) -> (r: Option<Vec<u8>>)
    requires
        t.wf(src@.len()),
        i < t.nodes@.len(),
        keys@.len() == items@.len(),
        forall|x: int| 0 <= x < items@.len() ==> i < (#[trigger] items@[x]).node < t.len() && item_in(
            *t,
            items@[x]@,
        ),
        forall|x: int| 0 <= x < dangling@.len() ==> (#[trigger] dangling@[x] as int) < t.nodes@.len(),
    ensures
        ({
            let iv = item_views(items@);
            let order = stable_order(key_views(keys@), items@.len() as int);
            &&& r is None <==> order == identity(items@.len() as int)
            &&& r matches Some(v) ==> v@ == bracketed_text(
                src@,
                *t,
                i as int,
                iv,
                dangling@,
                order,
                item_rewrites_upto(src@, *t, i as int, iv, order, strs(path@), *cfg, order.len() as int),
                open,
                close,
                comma,
            )
        }),
    decreases t.nodes@.len() - i, 2nat,
{
    let ghost iv = item_views(items@);
    let order = match changed_order(keys) {
        None => return None,
        Some(o) => o,
    };
    proof {
        lemma_stable_order_indices(key_views(keys@), keys@.len() as int);
        if keys@.len() == 0 {
            assert(stable_order(key_views(keys@), 0) =~= identity(0));
        }
    }
    let n = items.len();
    let single_line = t.nodes[i].start_row == t.nodes[i].end_row && !items_have_comments(items, dangling);
    assert(iv[0] == items@[0]@);
    let sep = item_sep(src, t, items[0].node, single_line);
    let mut blocks: Vec<Vec<u8>> = Vec::new();
    let ghost mut bodies: Seq<Option<Seq<u8>>> = seq![];
    let mut q: usize = 0;
    while q < order.len()
        invariant
            t.wf(src@.len()),
            n == items@.len(),
            iv == item_views(items@),
            order@.len() == n,
            indices_below(order@, n as int),
            q <= order@.len(),
            bodies.len() == q,
            bodies == item_rewrites_upto(src@, *t, i as int, iv, order@, strs(path@), *cfg, q as int),
            strs(blocks@) == rendered_items(src@, *t, iv, order@, bodies, sep@, comma),
            blocks@.len() == q,
            forall|x: int| 0 <= x < items@.len() ==> i < (#[trigger] items@[x]).node < t.len() && item_in(
                *t,
                items@[x]@,
            ),
        decreases order.len() - q,
    {
        let it = &items[order[q]];
        assert(iv[order@[q as int] as int] == it@);
        let body = rewrite(src, t, it.node, path, cfg);
        let suffix: &[u8] = if comma && q + 1 < order.len() {
            &[44u8]
        } else {
            &[]
        };
        assert(suffix@ == (if comma && q + 1 < order@.len() {
            seq![44u8]
        } else {
            seq![]
        }));
        let block = render_item(src, t, it, &body, &sep, suffix);
        let ghost before = strs(blocks@);
        blocks.push(block);
        proof {
            assert(rewrite_below(src@, *t, i as int, iv[order@[q as int] as int].node as int, strs(path@), *cfg)
                == opt_bytes(body));
            bodies = bodies.push(opt_bytes(body));
        }
        q += 1;
        assert(strs(blocks@) =~= rendered_items(src@, *t, iv, order@, bodies, sep@, comma)) by {
            assert forall|x: int| 0 <= x < q implies #[trigger] strs(blocks@)[x] == rendered_items(
                src@,
                *t,
                iv,
                order@,
                bodies,
                sep@,
                comma,
            )[x] by {
                if x < q - 1 {
                    assert(strs(blocks@)[x] == before[x]);
                }
            }
        }
    }
    let mut out: Vec<u8> = Vec::new();
    out.push(open);
    push_all(&mut out, sep.as_slice());
    let joined = join_blocks(&blocks, sep.as_slice());
    assert(blocks@.map_values(|b: Vec<u8>| b@) =~= strs(blocks@));
    push_all(&mut out, joined.as_slice());
    let ghost head = out@;
    assert(dangling@.take(0) =~= Seq::<usize>::empty());
    let mut d: usize = 0;
    while d < dangling.len()
        invariant
            t.wf(src@.len()),
            d <= dangling@.len(),
            forall|x: int| 0 <= x < dangling@.len() ==> (#[trigger] dangling@[x] as int) < t.nodes@.len(),
            out@ == head + dangling_text(src@, *t, dangling@.take(d as int), sep@),
        decreases dangling.len() - d,
    {
        push_all(&mut out, sep.as_slice());
        let c = dangling[d];
        proof {
            assert(t.node_wf(c as int, src@.len()));
        }
        push_range(&mut out, src, t.nodes[c].start, t.nodes[c].end);
        d += 1;
        assert(dangling@.take(d as int).drop_last() =~= dangling@.take(d - 1));
    }
    assert(dangling@.take(d as int) =~= dangling@);
    let ghost mid = out@;
    if single_line {
        out.push(32u8);
        out.push(close);
        assert(out@ =~= mid + seq![32u8, close]);
    } else {
        out.push(10u8);
        let ind = line_indent_of(src, t, i);
        push_all(&mut out, ind.as_slice());
        out.push(close);
        assert(out@ =~= mid + (seq![10u8] + crate::layout::line_indent(src@, *t, i as int) + seq![close]));
    }
    Some(out)
}

/// The children of node `i` whose kind `keep` admits.
fn children_where(t: &SyntaxTree, i: usize, formals: bool) -> (r: Vec<usize>)
    requires
        i < t.nodes@.len(),
        forall|q: int| 0 <= q < t.n_children(i as int) ==> i < #[trigger] t.child(i as int, q) < t.len(),
    ensures
        all_after(*t, i as int, r@),
        r@ == kept_children(*t, i as int, formals, t.n_children(i as int)),
{
    let n = t.nodes[i].children.len();
    let mut out: Vec<usize> = Vec::new();
    let mut j: usize = 0;
    while j < n
        invariant
            i < t.nodes@.len(),
            n == t.n_children(i as int),
            j <= n,
            forall|q: int| 0 <= q < t.n_children(i as int) ==> i < #[trigger] t.child(i as int, q) < t.len(),
            all_after(*t, i as int, out@),
            out@ == kept_children(*t, i as int, formals, j as int),
        decreases n - j,
    {
        let c = t.nodes[i].children[j];
        assert(c == t.child(i as int, j as int));
        let k = t.nodes[c].kind;
        let keep = if formals {
            k == Kind::Formal || k == Kind::Ellipses || k == Kind::Comment
        } else {
            t.nodes[c].named
        };
        if keep {
            out.push(c);
        }
        j += 1;
    }
    out
}

/// The items of node `i`, and its leftover comments, with the facts the
/// renderers need.
pub fn items_of(t: &SyntaxTree, i: usize, cs: &Vec<usize>) -> (r: (Vec<Item>, Vec<usize>))
    requires
        i < t.nodes@.len(),
        all_after(*t, i as int, cs@),
    ensures
        (item_views(r.0@), r.1@) == crate::layout::collect_upto(*t, cs@, cs@.len() as int),
        forall|x: int| 0 <= x < r.0@.len() ==> i < (#[trigger] r.0@[x]).node < t.len() && item_in(
            *t,
            r.0@[x]@,
        ),
        forall|x: int| 0 <= x < r.1@.len() ==> (#[trigger] r.1@[x] as int) < t.nodes@.len(),
{
    assert(nodes_in(*t, cs@));
    let (items, dangling) = collect_items(t, cs);
    proof {
        lemma_collect_from(*t, cs@, cs@.len() as int);
    }
    let ghost iv = item_views(items@);
    assert forall|q: int| 0 <= q < items@.len() implies i < (#[trigger] items@[q]).node < t.len() && item_in(
        *t,
        items@[q]@,
    ) by {
        assert(iv[q] == items@[q]@);
        assert(cs@.contains(iv[q].node));
        assert forall|j: int| 0 <= j < iv[q].leading.len() implies (#[trigger] iv[q].leading[j] as int) < t.nodes@.len() by {
            assert(cs@.contains(iv[q].leading[j]));
        }
        if let Some(c) = iv[q].trailing {
            assert(cs@.contains(c));
        }
    }
    assert forall|q: int| 0 <= q < dangling@.len() implies (#[trigger] dangling@[q] as int) < t.nodes@.len() by {
        assert(cs@.contains(dangling@[q]));
    }
    (items, dangling)
}

/// A formals list in the order its rules give, where they sort it and the
/// order changes.
fn sort_formals(src: &[u8], t: &SyntaxTree, i: usize, path: &Vec<Vec<u8>>, cfg: &Config) -> (r: Option<Vec<u8>>)
    requires
        t.wf(src@.len()),
        i < t.nodes@.len(),
    ensures
        opt_bytes(r) == sorted_formals(src@, *t, i as int, strs(path@), *cfg),
    decreases t.nodes@.len() - i, 3nat,
{
    let rules = cfg.rules_at(RuleKind::Args, path);
    if !rules.sort {
        return splice_all(src, t, i, path, cfg);
    }
    proof {
        lemma_children_after(*t, src@.len(), i as int);
    }
    let cs = children_where(t, i, true);
    let (items, dangling) = items_of(t, i, &cs);
    let ghost iv = item_views(items@);
    let mut keys: Vec<SortKey> = Vec::new();
    let mut k: usize = 0;
    while k < items.len()
        invariant
            t.wf(src@.len()),
            k <= items@.len(),
            keys@.len() == k,
            iv == item_views(items@),
            forall|x: int| 0 <= x < items@.len() ==> i < (#[trigger] items@[x]).node < t.len(),
            forall|x: int| 0 <= x < k ==> #[trigger] key_views(keys@)[x] == formal_key(src@, *t, iv[x].node as int, rules@),
        decreases items.len() - k,
    {
        assert(iv[k as int] == items@[k as int]@);
        let ghost before = key_views(keys@);
        keys.push(formal_key_of(src, t, items[k].node, &rules));
        assert(key_views(keys@)[k as int] == keys@[k as int]@);
        assert forall|x: int| 0 <= x < k implies #[trigger] key_views(keys@)[x] == before[x] by {
            assert(key_views(keys@)[x] == keys@[x]@);
        }
        k += 1;
    }
    assert(key_views(keys@) =~= bracket_keys(src@, *t, iv, rules@, true));
    match render_sorted(src, t, i, &items, &dangling, &keys, 123u8, 125u8, true, path, cfg) {
        Some(v) => Some(v),
        None => splice_all(src, t, i, path, cfg),
    }
}

/// A list in the order its rules give, where they sort it and the order
/// changes.
fn sort_list(src: &[u8], t: &SyntaxTree, i: usize, path: &Vec<Vec<u8>>, cfg: &Config) -> (r: Option<Vec<u8>>)
    requires
        t.wf(src@.len()),
        i < t.nodes@.len(),
    ensures
        opt_bytes(r) == sorted_list(src@, *t, i as int, strs(path@), *cfg),
    decreases t.nodes@.len() - i, 3nat,
{
    let rules = cfg.rules_at(RuleKind::Lists, path);
    if !rules.sort {
        return splice_all(src, t, i, path, cfg);
    }
    proof {
        lemma_children_after(*t, src@.len(), i as int);
    }
    let cs = children_where(t, i, false);
    let (items, dangling) = items_of(t, i, &cs);
    let ghost iv = item_views(items@);
    let mut keys: Vec<SortKey> = Vec::new();
    let mut k: usize = 0;
    while k < items.len()
        invariant
            t.wf(src@.len()),
            k <= items@.len(),
            keys@.len() == k,
            iv == item_views(items@),
            forall|x: int| 0 <= x < items@.len() ==> i < (#[trigger] items@[x]).node < t.len(),
            forall|x: int| 0 <= x < k ==> #[trigger] key_views(keys@)[x] == name_key(src@, *t, iv[x].node as int, rules@),
        decreases items.len() - k,
    {
        assert(iv[k as int] == items@[k as int]@);
        let ghost before = key_views(keys@);
        keys.push(name_key_of(src, t, items[k].node, &rules));
        assert(key_views(keys@)[k as int] == keys@[k as int]@);
        assert forall|x: int| 0 <= x < k implies #[trigger] key_views(keys@)[x] == before[x] by {
            assert(key_views(keys@)[x] == keys@[x]@);
        }
        k += 1;
    }
    assert(key_views(keys@) =~= bracket_keys(src@, *t, iv, rules@, false));
    match render_sorted(src, t, i, &items, &dangling, &keys, 91u8, 93u8, false, path, cfg) {
        Some(v) => Some(v),
        None => splice_all(src, t, i, path, cfg),
    }
}

/// The names of an `inherit` in the order its rules give, where they sort
/// them and the order changes. Names with comments among them stay as they
/// are.
fn sort_inherited_attrs(src: &[u8], t: &SyntaxTree, i: usize, path: &Vec<Vec<u8>>, cfg: &Config) -> (r:
    Option<Vec<u8>>)
    requires
        t.wf(src@.len()),
        i < t.nodes@.len(),
    ensures
        opt_bytes(r) == sorted_inherit(src@, *t, i as int, strs(path@), *cfg),
    decreases t.nodes@.len() - i, 3nat,
{
    let rules = cfg.rules_at(RuleKind::Inherits, path);
    if !rules.sort {
        return splice_all(src, t, i, path, cfg);
    }
    proof {
        lemma_children_after(*t, src@.len(), i as int);
    }
    let n = t.nodes[i].children.len();
    let mut cs: Vec<usize> = Vec::new();
    let mut j: usize = 0;
    while j < n
        invariant
            t.wf(src@.len()),
            i < t.nodes@.len(),
            n == t.n_children(i as int),
            j <= n,
            forall|q: int| 0 <= q < t.n_children(i as int) ==> i < #[trigger] t.child(i as int, q) < t.len(),
            forall|q: int| 0 <= q < j ==> t.nodes@[#[trigger] t.child(i as int, q)].kind != Kind::Comment,
            all_after(*t, i as int, cs@),
            cs@ == t.nodes@[i as int].children@.take(j as int),
        decreases n - j,
    {
        let c = t.nodes[i].children[j];
        assert(c == t.child(i as int, j as int));
        if t.nodes[c].kind == Kind::Comment {
            assert(has_comment_child(*t, i as int));
            return splice_all(src, t, i, path, cfg);
        }
        cs.push(c);
        j += 1;
        assert(cs@ =~= t.nodes@[i as int].children@.take(j as int));
    }
    assert(cs@ =~= t.nodes@[i as int].children@);
    assert(!has_comment_child(*t, i as int));
    let (items, _dangling) = items_of(t, i, &cs);
    let ghost iv = item_views(items@);
    let mut keys: Vec<SortKey> = Vec::new();
    let mut k: usize = 0;
    while k < items.len()
        invariant
            t.wf(src@.len()),
            k <= items@.len(),
            keys@.len() == k,
            iv == item_views(items@),
            forall|x: int| 0 <= x < items@.len() ==> i < (#[trigger] items@[x]).node < t.len(),
            forall|x: int| 0 <= x < k ==> #[trigger] key_views(keys@)[x] == name_key(src@, *t, iv[x].node as int, rules@),
        decreases items.len() - k,
    {
        assert(iv[k as int] == items@[k as int]@);
        let ghost before = key_views(keys@);
        keys.push(name_key_of(src, t, items[k].node, &rules));
        assert(key_views(keys@)[k as int] == keys@[k as int]@);
        assert forall|x: int| 0 <= x < k implies #[trigger] key_views(keys@)[x] == before[x] by {
            assert(key_views(keys@)[x] == keys@[x]@);
        }
        k += 1;
    }
    assert(key_views(keys@) =~= Seq::new(iv.len(), |x: int| name_key(src@, *t, iv[x].node as int, rules@)));
    let order = match changed_order(&keys) {
        None => return splice_all(src, t, i, path, cfg),
        Some(o) => o,
    };
    proof {
        lemma_stable_order_indices(key_views(keys@), keys@.len() as int);
    }
    let mut sep: Vec<u8> = Vec::new();
    sep.push(32u8);
    assert(sep@ =~= seq![32u8]);
    let mut blocks: Vec<Vec<u8>> = Vec::new();
    let ghost mut bodies: Seq<Option<Seq<u8>>> = seq![];
    let mut q: usize = 0;
    while q < order.len()
        invariant
            t.wf(src@.len()),
            items@.len() == keys@.len(),
            iv == item_views(items@),
            sep@ == seq![32u8],
            order@.len() == items@.len(),
            indices_below(order@, items@.len() as int),
            q <= order@.len(),
            bodies.len() == q,
            bodies == item_rewrites_upto(src@, *t, i as int, iv, order@, strs(path@), *cfg, q as int),
            strs(blocks@) == rendered_items(src@, *t, iv, order@, bodies, sep@, false),
            blocks@.len() == q,
            forall|x: int| 0 <= x < items@.len() ==> i < (#[trigger] items@[x]).node < t.len() && item_in(
                *t,
                items@[x]@,
            ),
        decreases order.len() - q,
    {
        let it = &items[order[q]];
        assert(iv[order@[q as int] as int] == it@);
        let body = rewrite(src, t, it.node, path, cfg);
        let block = render_item(src, t, it, &body, &sep, &[]);
        let ghost before = strs(blocks@);
        blocks.push(block);
        proof {
            assert(rewrite_below(src@, *t, i as int, iv[order@[q as int] as int].node as int, strs(path@), *cfg)
                == opt_bytes(body));
            bodies = bodies.push(opt_bytes(body));
        }
        q += 1;
        assert(strs(blocks@) =~= rendered_items(src@, *t, iv, order@, bodies, sep@, false)) by {
            assert forall|x: int| 0 <= x < q implies #[trigger] strs(blocks@)[x] == rendered_items(
                src@,
                *t,
                iv,
                order@,
                bodies,
                sep@,
                false,
            )[x] by {
                if x < q - 1 {
                    assert(strs(blocks@)[x] == before[x]);
                }
            }
        }
    }
    assert(blocks@.map_values(|b: Vec<u8>| b@) =~= strs(blocks@));
    Some(join_blocks(&blocks, sep.as_slice()))
}

/// The text that reordering makes of the syntax tree `t` of `src`: the
/// rewritten text, or `src` where nothing moves.
pub open spec fn sorted_text(src: Seq<u8>, t: SyntaxTree, cfg: Config) -> Seq<u8> {
    match rewrite_spec(src, t, 0, seq![], cfg) {
        Some(v) => v,
        None => src,
    }
}

/// Reorders the source by the configuration. Input that is not valid Nix is
/// refused; input with nothing to reorder comes back as it is.
pub fn sort_source(src: &str, cfg: &Config) -> (r: Result<String, Error>)
    ensures
        pass_result(src@, r, Refusal::Reorder, |t: SyntaxTree| sorted_text(src.spec_bytes(), t, *cfg)),
        sorting_off(*cfg) ==> (r matches Ok(s) ==> s@ == src@),
{
    let ghost out = |t: SyntaxTree| sorted_text(src.spec_bytes(), t, *cfg);
    let t = match parse_valid(src, Refusal::Reorder) {
        Ok(t) => t,
        Err(e) => return Err(e),
    };
    let path: Vec<Vec<u8>> = Vec::new();
    assert(strs(path@) =~= Seq::<Seq<u8>>::empty());
    proof {
        if sorting_off(*cfg) {
            lemma_unsorted_unchanged(src.spec_bytes(), t, 0, seq![], *cfg);
        }
    }
    match rewrite(src.as_bytes(), &t, 0, &path, cfg) {
        Some(v) => {
            assert(v@ == out(t));
            output_string(v)
        },
        None => {
            let out_s = src.to_owned();
            assert(encode_utf8(out_s@) == src.spec_bytes());
            assert(vstd::utf8::valid_utf8(src.spec_bytes())) by {
                vstd::utf8::encode_utf8_valid_utf8(src@);
            }
            Ok(out_s)
        },
    }
}

/// Items already in order stay where they are: where no item's key sorts
/// before an earlier one's, the stable order is the order they are in, so a
/// second pass over sorted items changes nothing.
pub proof fn lemma_sorted_keys_stay(keys: Seq<KeyView>, n: int)
    requires
        0 <= n <= keys.len(),
        n <= usize::MAX,
        forall|a: int, b: int| 0 <= a < b < n ==> !key_lt(#[trigger] keys[b], #[trigger] keys[a]),
    ensures
        stable_order(keys, n) == identity(n),
    decreases n,
{
    if n > 0 {
        lemma_sorted_keys_stay(keys, n - 1);
        let prev = identity(n - 1);
        assert forall|q: int| 0 <= q < n - 1 implies !key_lt(keys[n - 1], #[trigger] keys[prev[q] as int]) by {
            assert(prev[q] as int == q);
        }
        lemma_insert_index_at(prev, (n - 1) as usize, keys, n - 1);
        assert(prev.take(n - 1) + seq![(n - 1) as usize] + prev.skip(n - 1) =~= identity(n));
    }
}

/// Sorting is idempotent: the items taken in their stable order, sorted
/// again by the same keys, stay in that order.
pub proof fn lemma_sorting_twice(keys: Seq<KeyView>, n: int)
    requires
        0 <= n <= keys.len(),
        n <= usize::MAX,
    ensures
        ({
            let order = stable_order(keys, n);
            stable_order(Seq::new(n as nat, |q: int| keys[order[q] as int]), n) == identity(n)
        }),
{
    let order = stable_order(keys, n);
    lemma_stable_order_sorts(keys, n);
    let again = Seq::new(n as nat, |q: int| keys[order[q] as int]);
    assert forall|a: int, b: int| 0 <= a < b < n implies !key_lt(#[trigger] again[b], #[trigger] again[a]) by {
        assert(again[a] == keys[order[a] as int] && again[b] == keys[order[b] as int]);
    }
    lemma_sorted_keys_stay(again, n);
}

/// Whether no rule sorts anything: no kind sorts by default and no override
/// turns sorting on.
pub open spec fn sorting_off(cfg: Config) -> bool {
    &&& !cfg.args.sort
    &&& !cfg.attrs.sort
    &&& !cfg.lets.sort
    &&& !cfg.inherits.sort
    &&& !cfg.lists.sort
    &&& forall|k: int, kind: RuleKind|
        0 <= k < cfg.overrides@.len() ==> !(#[trigger] cfg.overrides@[k].partial_for(kind) matches Some(p)
            && p.sort == Some(true))
}

/// Where sorting is off, the rules of every kind at every path leave their
/// items as they are.
pub proof fn lemma_rules_unsorted(cfg: Config, kind: RuleKind, path: Seq<Seq<u8>>, k: int)
    requires
        sorting_off(cfg),
    ensures
        !cfg.rules_after(kind, path, k).sort,
    decreases k,
{
    if 0 < k <= cfg.overrides@.len() {
        lemma_rules_unsorted(cfg, kind, path, k - 1);
        let o = cfg.overrides@[k - 1];
        assert(!(o.partial_for(kind) matches Some(p) && p.sort == Some(true)));
    }
}

/// The first `j` children of node `i`, rewritten where sorting is off, are
/// all unchanged.
proof fn lemma_children_unsorted(src: Seq<u8>, t: SyntaxTree, i: int, path: Seq<Seq<u8>>, cfg: Config, j: int)
    requires
        sorting_off(cfg),
        0 <= i < t.len(),
        j >= 0,
    ensures
        child_rewrites_upto(src, t, i, path, cfg, j).len() == j,
        forall|q: int| 0 <= q < j ==> (#[trigger] child_rewrites_upto(src, t, i, path, cfg, j)[q]) is None,
    decreases t.len() - i, 2int, j,
{
    if j > 0 {
        lemma_children_unsorted(src, t, i, path, cfg, j - 1);
        let c = t.child(i, j - 1);
        if i < c < t.len() {
            lemma_unsorted_unchanged(src, t, c, path, cfg);
        }
        let prev = child_rewrites_upto(src, t, i, path, cfg, j - 1);
        let cur = child_rewrites_upto(src, t, i, path, cfg, j);
        assert(cur == prev.push(rewrite_below(src, t, i, c, path, cfg)));
        assert forall|q: int| 0 <= q < j implies (#[trigger] cur[q]) is None by {
            if q < j - 1 {
                assert(cur[q] == prev[q]);
            }
        }
    }
}

proof fn lemma_binding_unsorted(
    src: Seq<u8>,
    t: SyntaxTree,
    i: int,
    path: Seq<Seq<u8>>,
    inner: Seq<Seq<u8>>,
    cfg: Config,
    j: int,
)
    requires
        sorting_off(cfg),
        0 <= i < t.len(),
        j >= 0,
    ensures
        binding_rewrites_upto(src, t, i, path, inner, cfg, j).len() == j,
        forall|q: int| 0 <= q < j ==> (#[trigger] binding_rewrites_upto(src, t, i, path, inner, cfg, j)[q]) is None,
    decreases t.len() - i, 2int, j,
{
    if j > 0 {
        lemma_binding_unsorted(src, t, i, path, inner, cfg, j - 1);
        let c = t.nodes@[i].children@[j - 1];
        if i < c < t.len() {
            lemma_unsorted_unchanged(src, t, c as int, path, cfg);
            lemma_unsorted_unchanged(src, t, c as int, inner, cfg);
        }
        let prev = binding_rewrites_upto(src, t, i, path, inner, cfg, j - 1);
        let cur = binding_rewrites_upto(src, t, i, path, inner, cfg, j);
        assert(rewrite_below(src, t, i, c as int, path, cfg) is None);
        assert(rewrite_below(src, t, i, c as int, inner, cfg) is None);
        assert(cur[j - 1] is None);
        assert forall|q: int| 0 <= q < j implies (#[trigger] cur[q]) is None by {
            if q < j - 1 {
                assert(cur[q] == prev[q]);
            }
        }
    }
}

/// Where no rule sorts anything, nothing is reordered: every node comes
/// back unchanged.
pub proof fn lemma_unsorted_unchanged(src: Seq<u8>, t: SyntaxTree, i: int, path: Seq<Seq<u8>>, cfg: Config)
    requires
        sorting_off(cfg),
    ensures
        rewrite_spec(src, t, i, path, cfg) is None,
    decreases t.len() - i, 5int, 0int,
{
    if 0 <= i < t.len() {
        let n = t.n_children(i);
        lemma_children_unsorted(src, t, i, path, cfg, n);
        let rw = child_rewrites_upto(src, t, i, path, cfg, n);
        assert(!crate::layout::any_rewritten(rw));
        lemma_rules_unsorted(cfg, RuleKind::Attrs, path, cfg.overrides@.len() as int);
        lemma_rules_unsorted(cfg, RuleKind::Lets, path, cfg.overrides@.len() as int);
        lemma_rules_unsorted(cfg, RuleKind::Args, path, cfg.overrides@.len() as int);
        lemma_rules_unsorted(cfg, RuleKind::Lists, path, cfg.overrides@.len() as int);
        lemma_rules_unsorted(cfg, RuleKind::Inherits, path, cfg.overrides@.len() as int);
        if t.nodes@[i].kind == Kind::Binding {
            let inner = path + crate::syntax::binding_components(src, t, i);
            lemma_binding_unsorted(src, t, i, path, inner, cfg, n);
            assert(!crate::layout::any_rewritten(binding_rewrites_upto(src, t, i, path, inner, cfg, n)));
        }
    }
}

/// No sequence of names sorts before itself.
pub proof fn lemma_names_irreflexive(a: Seq<Seq<u8>>)
    ensures
        !names_lt(a, a),
    decreases a.len(),
{
    if a.len() > 0 {
        lemma_names_irreflexive(a.drop_first());
    }
}

pub proof fn lemma_names_transitive(a: Seq<Seq<u8>>, b: Seq<Seq<u8>>, c: Seq<Seq<u8>>)
    requires
        names_lt(a, b),
        names_lt(b, c),
    ensures
        names_lt(a, c),
    decreases a.len(),
{
    if a.len() > 0 && b.len() > 0 && c.len() > 0 {
        if a[0] == b[0] && b[0] == c[0] {
            lemma_names_transitive(a.drop_first(), b.drop_first(), c.drop_first());
        } else if a[0] == b[0] {
        } else if b[0] == c[0] {
        } else {
            crate::bytes::lemma_lex_transitive(a[0], b[0], c[0]);
            if a[0] == c[0] {
                crate::bytes::lemma_lex_irreflexive(a[0]);
                crate::bytes::lemma_lex_transitive(b[0], c[0], b[0]);
                crate::bytes::lemma_lex_irreflexive(b[0]);
            }
        }
    }
}

pub proof fn lemma_names_total(a: Seq<Seq<u8>>, b: Seq<Seq<u8>>)
    requires
        a != b,
    ensures
        names_lt(a, b) || names_lt(b, a),
    decreases a.len(),
{
    if a.len() > 0 && b.len() > 0 {
        if a[0] == b[0] {
            if a.drop_first() == b.drop_first() {
                assert(a =~= seq![a[0]] + a.drop_first());
                assert(b =~= seq![b[0]] + b.drop_first());
            }
            lemma_names_total(a.drop_first(), b.drop_first());
        } else {
            crate::bytes::lemma_lex_total(a[0], b[0]);
        }
    } else if a.len() == 0 && b.len() == 0 {
        assert(a =~= b);
    }
}

/// The order of keys is a strict total order.
pub proof fn lemma_key_order(a: KeyView, b: KeyView, c: KeyView)
    ensures
        !key_lt(a, a),
        key_lt(a, b) && key_lt(b, c) ==> key_lt(a, c),
        a != b ==> key_lt(a, b) || key_lt(b, a),
{
    lemma_names_irreflexive(a.key);
    if key_lt(a, b) && key_lt(b, c) && a.class == b.class && b.class == c.class && a.list_idx == b.list_idx
        && b.list_idx == c.list_idx {
        lemma_names_transitive(a.key, b.key, c.key);
    }
    if a != b && a.class == b.class && a.list_idx == b.list_idx {
        lemma_names_total(a.key, b.key);
    }
}

/// Whether `order` holds each index below `n` once.
pub open spec fn is_permutation(order: Seq<usize>, n: int) -> bool {
    &&& order.len() == n
    &&& forall|q: int| 0 <= q < order.len() ==> (#[trigger] order[q] as int) < n
    &&& forall|a: int, b: int| 0 <= a < b < order.len() ==> #[trigger] order[a] != #[trigger] order[b]
}

/// Whether `order` lists the items by key, items of equal keys in the order
/// they had.
pub open spec fn sorted_stably(keys: Seq<KeyView>, order: Seq<usize>) -> bool {
    forall|a: int, b: int|
        0 <= a < b < order.len() ==> {
            let ka = keys[#[trigger] order[a] as int];
            let kb = keys[#[trigger] order[b] as int];
            &&& !key_lt(kb, ka)
            &&& ka == kb ==> order[a] < order[b]
        }
}

/// The first position of `order` whose key sorts after index `i`'s.
pub open spec fn insert_pos(order: Seq<usize>, i: usize, keys: Seq<KeyView>, q: int) -> int
    decreases order.len() - q,
{
    if q < 0 || q >= order.len() {
        order.len() as int
    } else if key_lt(keys[i as int], keys[order[q] as int]) {
        q
    } else {
        insert_pos(order, i, keys, q + 1)
    }
}

proof fn lemma_insert_pos(order: Seq<usize>, i: usize, keys: Seq<KeyView>, q: int)
    requires
        0 <= q <= order.len(),
    ensures
        q <= insert_pos(order, i, keys, q) <= order.len(),
        forall|x: int| q <= x < insert_pos(order, i, keys, q) ==> !key_lt(keys[i as int], #[trigger] keys[order[x] as int]),
        insert_pos(order, i, keys, q) < order.len() ==> key_lt(
            keys[i as int],
            keys[order[insert_pos(order, i, keys, q)] as int],
        ),
    decreases order.len() - q,
{
    if q < order.len() && !key_lt(keys[i as int], keys[order[q] as int]) {
        lemma_insert_pos(order, i, keys, q + 1);
    }
}

/// The order the stable sort gives: each index below `n` once, by key, and
/// items of equal keys in the order they had.
pub proof fn lemma_stable_order_sorts(keys: Seq<KeyView>, n: int)
    requires
        0 <= n <= keys.len(),
        n <= usize::MAX,
    ensures
        is_permutation(stable_order(keys, n), n),
        sorted_stably(keys, stable_order(keys, n)),
    decreases n,
{
    if n > 0 {
        lemma_stable_order_sorts(keys, n - 1);
        let prev = stable_order(keys, n - 1);
        let i = (n - 1) as usize;
        lemma_insert_pos(prev, i, keys, 0);
        let p = insert_pos(prev, i, keys, 0);
        lemma_insert_index_at(prev, i, keys, p);
        let r = stable_order(keys, n);
        assert(r == prev.take(p) + seq![i] + prev.skip(p));
        assert forall|x: int| 0 <= x < r.len() implies (if x < p {
            r[x] == prev[x]
        } else if x == p {
            r[x] == i
        } else {
            r[x] == prev[x - 1]
        }) by {}
        assert forall|a: int, b: int| 0 <= a < b < r.len() implies #[trigger] r[a] != #[trigger] r[b] by {
            if a < p && b < p {
            } else if a < p && b == p {
            } else if a < p {
                assert(r[b] == prev[b - 1]);
            } else if a == p {
                assert(r[b] == prev[b - 1]);
            } else {
                assert(r[a] == prev[a - 1]);
                assert(r[b] == prev[b - 1]);
            }
        }
        assert forall|a: int, b: int| 0 <= a < b < r.len() implies {
            let ka = keys[#[trigger] r[a] as int];
            let kb = keys[#[trigger] r[b] as int];
            &&& !key_lt(kb, ka)
            &&& ka == kb ==> r[a] < r[b]
        } by {
            let ki = keys[i as int];
            if b < p {
                assert(r[a] == prev[a] && r[b] == prev[b]);
            } else if b == p {
                assert(r[a] == prev[a]);
                let ka = keys[prev[a] as int];
                assert(!key_lt(ki, ka));
                lemma_key_order(ka, ki, ka);
            } else if a < p {
                assert(r[a] == prev[a] && r[b] == prev[b - 1]);
            } else if a == p {
                assert(r[b] == prev[b - 1]);
                let kp = keys[prev[p] as int];
                let kb = keys[prev[b - 1] as int];
                assert(key_lt(ki, kp));
                if b - 1 > p {
                    assert(!key_lt(kb, kp));
                    lemma_key_order(kb, kp, kb);
                    lemma_key_order(ki, kp, kb);
                }
                lemma_key_order(ki, kb, ki);
                lemma_key_order(kb, ki, kb);
            } else {
                assert(r[a] == prev[a - 1] && r[b] == prev[b - 1]);
            }
        }
    }
}

} // verus!
