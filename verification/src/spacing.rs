//! Blank lines between bindings: the top-level and per-path spacing rules.

use crate::bytes::{copy_strs, extend_strs, push_all, push_range, strs};
use crate::config::{BlankLinesMode, Config, RuleKind, SortRules};
use crate::error::{Error, ErrorKind, Refusal};
use crate::layout::{container_region, item_in, item_views, multiline, Item, ItemView};
use crate::parser::{output_string, parse_valid, pass_result};
use crate::sort::{items_of, lemma_children_after, lemma_region_after};
use crate::syntax::{binding_components_of, field_child_of, Field, Kind, SyntaxTree};
use vstd::prelude::*;
use vstd::string::StringSliceAdditionalSpecFns;

verus! {

/// Spacing that a set hands down to the sets its bindings define: the count,
/// the mode, and how many more levels it reaches.
#[derive(Clone, Copy, PartialEq, Eq, Structural, Debug)]
pub struct Inherited {
    pub n: usize,
    pub mode: BlankLinesMode,
    pub window: usize,
}

/// The number of blank lines a set gets: its own rules first, then what it
/// inherits, then the top-level setting where it is a top-level set.
pub open spec fn blank_lines_for(
    rules: Option<usize>,
    inherited: Option<Inherited>,
    root: Option<usize>,
    top: Option<usize>,
) -> Option<usize> {
    match rules {
        Some(n) => Some(n),
        None => match inherited {
            Some(inh) => Some(inh.n),
            None => match root {
                Some(_) => top,
                None => None,
            },
        },
    }
}

/// Which bindings of the set are spaced.
pub open spec fn mode_for(
    rules_mode: Option<BlankLinesMode>,
    rules_n: Option<usize>,
    inherited: Option<Inherited>,
    top_mode: BlankLinesMode,
) -> BlankLinesMode {
    match rules_mode {
        Some(m) => m,
        None => match rules_n {
            Some(_) => BlankLinesMode::Multiline,
            None => match inherited {
                Some(inh) => inh.mode,
                None => top_mode,
            },
        },
    }
}

/// What the set hands down: its own count for the levels its depth reaches,
/// or one level less of what it inherited.
pub open spec fn handed_down(
    rules_n: Option<usize>,
    rules_depth: usize,
    mode: BlankLinesMode,
    inherited: Option<Inherited>,
) -> Option<Inherited> {
    match rules_n {
        Some(n) => if rules_depth > 1 {
            Some(Inherited { n, mode, window: (rules_depth - 1) as usize })
        } else {
            None
        },
        None => match inherited {
            Some(inh) => if inh.window > 1 {
                Some(Inherited { window: (inh.window - 1) as usize, ..inh })
            } else {
                None
            },
            None => None,
        },
    }
}

/// The spacing of a set: its count, its mode, and what it hands down.
pub fn resolve_spacing(rules: &SortRules, inherited: Option<Inherited>, root: Option<usize>, cfg: &Config) -> (r: (
    Option<usize>,
    BlankLinesMode,
    Option<Inherited>,
))
    ensures
        r.0 == blank_lines_for(rules.blank_lines, inherited, root, cfg.top_level_blank_lines),
        r.1 == mode_for(rules.blank_lines_mode, rules.blank_lines, inherited, cfg.top_level_blank_lines_mode),
        r.2 == handed_down(rules.blank_lines, rules.blank_lines_depth, r.1, inherited),
{
    let n = match rules.blank_lines {
        Some(n) => Some(n),
        None => match inherited {
            Some(inh) => Some(inh.n),
            None => match root {
                Some(_) => cfg.top_level_blank_lines,
                None => None,
            },
        },
    };
    let mode = match rules.blank_lines_mode {
        Some(m) => m,
        None => match rules.blank_lines {
            Some(_) => BlankLinesMode::Multiline,
            None => match inherited {
                Some(inh) => inh.mode,
                None => cfg.top_level_blank_lines_mode,
            },
        },
    };
    let down = match rules.blank_lines {
        Some(n) => if rules.blank_lines_depth > 1 {
            Some(Inherited { n, mode, window: rules.blank_lines_depth - 1 })
        } else {
            None
        },
        None => match inherited {
            Some(inh) => if inh.window > 1 {
                Some(Inherited { n: inh.n, mode: inh.mode, window: inh.window - 1 })
            } else {
                None
            },
            None => None,
        },
    };
    (n, mode, down)
}

/// The position of the last line break in `s`.
pub open spec fn last_newline(s: Seq<u8>, k: int) -> Option<int>
    decreases k,
{
    if k <= 0 || k > s.len() {
        None
    } else if s[k - 1] == 10u8 {
        Some(k - 1)
    } else {
        last_newline(s, k - 1)
    }
}

pub proof fn lemma_last_newline(s: Seq<u8>, k: int)
    requires
        0 <= k <= s.len(),
    ensures
        last_newline(s, k) matches Some(p) ==> 0 <= p < k && s[p] == 10u8,
    decreases k,
{
    if k > 0 && s[k - 1] != 10u8 {
        lemma_last_newline(s, k - 1);
    }
}

/// `line` `count` times over.
pub open spec fn repeat(line: Seq<u8>, count: nat) -> Seq<u8>
    decreases count,
{
    if count == 0 {
        seq![]
    } else {
        repeat(line, (count - 1) as nat) + line
    }
}

/// The text that replaces the gap between two items so that `lines` blank
/// lines separate them: as many line breaks as that takes, in the style of
/// the gap's last one, then the indentation the gap ends with. A gap without
/// a line break stays as it is.
pub open spec fn gap_text(gap: Seq<u8>, lines: nat) -> Option<Seq<u8>> {
    match last_newline(gap, gap.len() as int) {
        Some(p) => {
            let eol = if p > 0 && gap[p - 1] == 13u8 {
                seq![13u8, 10u8]
            } else {
                seq![10u8]
            };
            Some(repeat(eol, lines + 1) + gap.subrange(p + 1, gap.len() as int))
        },
        None => None,
    }
}

/// The last line break before `k` is at `m - 1` where none follows it
/// before `k`.
proof fn lemma_last_newline_at(s: Seq<u8>, m: int, k: int)
    requires
        0 < m <= k <= s.len(),
        s[m - 1] == 10u8,
        forall|q: int| m <= q < k ==> s[q] != 10u8,
    ensures
        last_newline(s, k) == Some(m - 1),
    decreases k,
{
    if k > m {
        lemma_last_newline_at(s, m, k - 1);
    }
}

/// No line break follows the last one.
proof fn lemma_after_last_newline(s: Seq<u8>, k: int)
    requires
        0 <= k <= s.len(),
    ensures
        last_newline(s, k) matches Some(p) ==> forall|q: int| p < q < k ==> s[q] != 10u8,
        last_newline(s, k) is None ==> forall|q: int| 0 <= q < k ==> s[q] != 10u8,
    decreases k,
{
    if k > 0 && s[k - 1] != 10u8 {
        lemma_after_last_newline(s, k - 1);
    }
}

proof fn lemma_repeat_len(line: Seq<u8>, count: nat)
    ensures
        repeat(line, count).len() == count * line.len(),
    decreases count,
{
    if count > 0 {
        let c1 = (count - 1) as nat;
        lemma_repeat_len(line, c1);
        let n = line.len();
        assert(c1 * n + n == count * n) by (nonlinear_arith)
            requires
                count == c1 + 1,
        ;
    } else {
        assert(0 * line.len() == 0) by (nonlinear_arith);
    }
}

/// Spacing is idempotent on a gap: the text a gap is given, spaced again
/// with the same number of blank lines, stays as it is.
pub proof fn lemma_gap_text_stable(gap: Seq<u8>, lines: nat)
    requires
        gap_text(gap, lines) is Some,
    ensures
        gap_text(gap_text(gap, lines).unwrap(), lines) == gap_text(gap, lines),
{
    let p = last_newline(gap, gap.len() as int).unwrap();
    lemma_last_newline(gap, gap.len() as int);
    lemma_after_last_newline(gap, gap.len() as int);
    let crlf = p > 0 && gap[p - 1] == 13u8;
    let eol = if crlf {
        seq![13u8, 10u8]
    } else {
        seq![10u8]
    };
    let tail = gap.subrange(p + 1, gap.len() as int);
    let head = repeat(eol, lines + 1);
    let out = head + tail;
    assert(out == gap_text(gap, lines).unwrap());
    lemma_repeat_len(eol, lines + 1);
    let r = head.len() as int;
    let before = repeat(eol, lines);
    assert(head == before + eol);
    lemma_repeat_len(eol, lines);
    assert(r == before.len() + eol.len());
    assert(out[r - 1] == 10u8);
    assert forall|q: int| r <= q < out.len() implies out[q] != 10u8 by {
        assert(out[q] == gap[p + 1 + (q - r)]);
    }
    lemma_last_newline_at(out, r, out.len() as int);
    let crlf2 = r - 1 > 0 && out[r - 2] == 13u8;
    if crlf {
        assert(out[r - 2] == 13u8);
    } else if lines > 0 {
        assert(before.len() >= 1);
        assert(before == repeat(eol, (lines - 1) as nat) + eol);
        assert(out[r - 2] == before[before.len() - 1]);
        assert(out[r - 2] == 10u8);
    }
    assert(crlf2 == crlf);
    assert(out.subrange(r, out.len() as int) =~= tail);
}

pub fn gap_replacement(gap: &[u8], lines: usize) -> (r: Option<Vec<u8>>)
    ensures
        match r {
            Some(v) => gap_text(gap@, lines as nat) == Some(v@),
            None => gap_text(gap@, lines as nat) is None,
        },
{
    let mut k = gap.len();
    while k > 0 && gap[k - 1] != 10u8
        invariant
            k <= gap@.len(),
            last_newline(gap@, gap@.len() as int) == last_newline(gap@, k as int),
        decreases k,
    {
        k -= 1;
    }
    if k == 0 {
        return None;
    }
    let p = k - 1;
    let crlf = p > 0 && gap[p - 1] == 13u8;
    let ghost eol = if crlf {
        seq![13u8, 10u8]
    } else {
        seq![10u8]
    };
    let mut out: Vec<u8> = Vec::new();
    if crlf {
        out.push(13u8);
    }
    out.push(10u8);
    assert(repeat(eol, 0) =~= Seq::<u8>::empty());
    assert(repeat(eol, 1) == repeat(eol, 0) + eol);
    assert(out@ =~= repeat(eol, 1));
    let mut c: usize = 0;
    while c < lines
        invariant
            c <= lines,
            out@ == repeat(eol, (c + 1) as nat),
            eol == (if crlf {
                seq![13u8, 10u8]
            } else {
                seq![10u8]
            }),
        decreases lines - c,
    {
        let ghost before = out@;
        if crlf {
            out.push(13u8);
        }
        out.push(10u8);
        assert(out@ =~= before + eol);
        c += 1;
    }
    push_range(&mut out, gap, p + 1, gap.len());
    Some(out)
}

/// Where an item starts, its leading comments included, and where it ends,
/// its trailing comment included.
pub open spec fn item_start(t: SyntaxTree, it: ItemView) -> int {
    if it.leading.len() > 0 {
        t.nodes@[it.leading[0] as int].start as int
    } else {
        t.nodes@[it.node as int].start as int
    }
}

pub open spec fn item_end(t: SyntaxTree, it: ItemView) -> int {
    match it.trailing {
        Some(c) => t.nodes@[c as int].end as int,
        None => t.nodes@[it.node as int].end as int,
    }
}

/// An edit of the source: the bytes from `start` to `end` become `text`.
pub struct Edit {
    pub start: usize,
    pub end: usize,
    pub text: Vec<u8>,
}

/// What an edit does: the span it replaces and the text it puts there.
pub open spec fn edit_views(edits: Seq<Edit>) -> Seq<(int, int, Seq<u8>)> {
    edits.map_values(|e: Edit| (e.start as int, e.end as int, e.text@))
}

/// How many blank lines go between items `a` and `b` of a set spaced with
/// `n` in `mode`: `n` for every pair in `All`, else only where one of the
/// two spans more than one line.
pub open spec fn gap_lines(t: SyntaxTree, a: ItemView, b: ItemView, n: nat, mode: BlankLinesMode) -> nat {
    if mode == BlankLinesMode::All || multiline(t, a.node as int) || multiline(t, b.node as int) {
        n
    } else {
        0
    }
}

/// The edit for the gap between items `a` and `b`, where the gap holds a
/// line break.
pub open spec fn gap_edit(src: Seq<u8>, t: SyntaxTree, a: ItemView, b: ItemView, n: nat, mode: BlankLinesMode) -> Option<
    (int, int, Seq<u8>),
> {
    let from = item_end(t, a);
    let to = item_start(t, b);
    if from <= to {
        match gap_text(src.subrange(from, to), gap_lines(t, a, b, n, mode)) {
            Some(text) => Some((from, to, text)),
            None => None,
        }
    } else {
        None
    }
}

/// The edits for the gaps between the first `k` items of a set, in order.
pub open spec fn gap_edit_list(
    src: Seq<u8>,
    t: SyntaxTree,
    items: Seq<ItemView>,
    n: nat,
    mode: BlankLinesMode,
    k: int,
) -> Seq<(int, int, Seq<u8>)>
    decreases k,
{
    if k <= 1 || k > items.len() {
        seq![]
    } else {
        let before = gap_edit_list(src, t, items, n, mode, k - 1);
        match gap_edit(src, t, items[k - 2], items[k - 1], n, mode) {
            Some(e) => before.push(e),
            None => before,
        }
    }
}

/// The edits for the gaps between the items of one set.
fn gap_edits(
    src: &[u8],
    t: &SyntaxTree,
    items: &Vec<Item>,
    n: usize,
    mode: BlankLinesMode,
    edits: &mut Vec<Edit>,
)
    requires
        t.wf(src@.len()),
        forall|x: int| 0 <= x < items@.len() ==> item_in(*t, (#[trigger] items@[x])@),
    ensures
        edit_views(final(edits)@) == edit_views(old(edits)@) + gap_edit_list(
            src@,
            *t,
            item_views(items@),
            n as nat,
            mode,
            items@.len() as int,
        ),
{
    let ghost iv = item_views(items@);
    let ghost start = edit_views(edits@);
    let mut k: usize = 0;
    assert(edit_views(edits@) =~= start + gap_edit_list(src@, *t, iv, n as nat, mode, 1));
    while k < items.len() && k + 1 < items.len()
        invariant
            k <= items@.len(),
            items@.len() > 0 ==> k < items@.len(),
            t.wf(src@.len()),
            iv == item_views(items@),
            forall|x: int| 0 <= x < items@.len() ==> item_in(*t, (#[trigger] items@[x])@),
            edit_views(edits@) == start + gap_edit_list(src@, *t, iv, n as nat, mode, (k + 1) as int),
        decreases items.len() - k,
    {
        let a = &items[k];
        let b = &items[k + 1];
        assert(iv[k as int] == a@ && iv[k + 1] == b@);
        let ghost before = edit_views(edits@);
        let prev_end = match a.trailing {
            Some(c) => {
                proof {
                    assert(t.node_wf(c as int, src@.len()));
                }
                t.nodes[c].end
            },
            None => {
                proof {
                    assert(t.node_wf(a.node as int, src@.len()));
                }
                t.nodes[a.node].end
            },
        };
        let next_start = if b.leading.len() > 0 {
            proof {
                assert(t.node_wf(b.leading@[0] as int, src@.len()));
            }
            t.nodes[b.leading[0]].start
        } else {
            proof {
                assert(t.node_wf(b.node as int, src@.len()));
            }
            t.nodes[b.node].start
        };
        if prev_end <= next_start {
            let lines = match mode {
                BlankLinesMode::All => n,
                _ => {
                    let ma = t.nodes[a.node].start_row != t.nodes[a.node].end_row;
                    let mb = t.nodes[b.node].start_row != t.nodes[b.node].end_row;
                    if ma || mb {
                        n
                    } else {
                        0
                    }
                },
            };
            let gap = &src[prev_end..next_start];
            assert(gap@ == src@.subrange(prev_end as int, next_start as int));
            assert(lines == gap_lines(*t, a@, b@, n as nat, mode));
            match gap_replacement(gap, lines) {
                Some(text) => {
                    edits.push(Edit { start: prev_end, end: next_start, text });
                    assert(edit_views(edits@) =~= before.push((prev_end as int, next_start as int, text@)));
                },
                None => {},
            }
        }
        k += 1;
        assert(edit_views(edits@) =~= start + gap_edit_list(src@, *t, iv, n as nat, mode, (k + 1) as int));
    }
    if items.len() == 0 {
        assert(gap_edit_list(src@, *t, iv, n as nat, mode, 0) =~= gap_edit_list(src@, *t, iv, n as nat, mode, 1));
    }
}

/// The spacing edits of node `c`, where it lies below node `i`.
pub open spec fn walk_below(
    src: Seq<u8>,
    t: SyntaxTree,
    i: int,
    c: int,
    path: Seq<Seq<u8>>,
    root: Option<usize>,
    inherited: Option<Inherited>,
    cfg: Config,
    is_flake: bool,
) -> Seq<(int, int, Seq<u8>)>
    decreases t.len() - i, 1int, 0int,
{
    if i < c < t.len() {
        walk_edits(src, t, c, path, root, inherited, cfg, is_flake)
    } else {
        seq![]
    }
}

/// The spacing edits of binding `c`, where it lies below node `i`.
pub open spec fn binding_walk_below(
    src: Seq<u8>,
    t: SyntaxTree,
    i: int,
    c: int,
    path: Seq<Seq<u8>>,
    root: Option<usize>,
    inherited: Option<Inherited>,
    cfg: Config,
    is_flake: bool,
) -> Seq<(int, int, Seq<u8>)>
    decreases t.len() - i, 1int, 0int,
{
    if i < c < t.len() {
        binding_walk_edits(src, t, c, path, root, inherited, cfg, is_flake)
    } else {
        seq![]
    }
}

/// The spacing edits for the sets in node `i`, in the order they are
/// found: a set's own gaps, then those of the sets its bindings hold. Each
/// set takes its spacing from its rules, what it inherits, or, as a
/// top-level set (`root` its depth), the top-level setting. A set reached
/// through a function, `let`, `with` or `assert` body, or parentheses,
/// stays top-level; one in any other expression does not.
pub open spec fn walk_edits(
    src: Seq<u8>,
    t: SyntaxTree,
    i: int,
    path: Seq<Seq<u8>>,
    root: Option<usize>,
    inherited: Option<Inherited>,
    cfg: Config,
    is_flake: bool,
) -> Seq<(int, int, Seq<u8>)>
    decreases t.len() - i, 5int, 0int,
{
    if i < 0 || i >= t.len() {
        seq![]
    } else {
        match t.nodes@[i].kind {
            Kind::AttrsetExpression | Kind::RecAttrsetExpression | Kind::LetAttrsetExpression => container_edits(
                src,
                t,
                i,
                path,
                root,
                inherited,
                cfg,
                is_flake,
            ),
            Kind::Binding => binding_walk_edits(src, t, i, path, None, None, cfg, is_flake),
            _ => children_walk_edits(src, t, i, path, root, inherited, cfg, is_flake, t.n_children(i)),
        }
    }
}

/// The child through which a node hands its spacing on: the body of a
/// function, `let`, `with` or `assert`.
pub open spec fn body_child(t: SyntaxTree, i: int) -> Option<usize> {
    let k = t.nodes@[i].kind;
    if k == Kind::FunctionExpression || k == Kind::LetExpression || k == Kind::WithExpression || k
        == Kind::AssertExpression {
        crate::syntax::field_child(t, i, Field::Body)
    } else {
        None
    }
}

/// A function, `let`, `with` or `assert` expression hands its own depth and
/// inherited spacing on to its body: a set behind `with x;` or `x:` is
/// spaced as one without it, while its other children start afresh.
pub proof fn lemma_body_keeps_spacing(
    src: Seq<u8>,
    t: SyntaxTree,
    i: int,
    path: Seq<Seq<u8>>,
    root: Option<usize>,
    inherited: Option<Inherited>,
    cfg: Config,
    is_flake: bool,
    j: int,
)
    requires
        0 <= i < t.len(),
        0 <= j < t.n_children(i),
        t.nodes@[i].kind == Kind::FunctionExpression || t.nodes@[i].kind == Kind::LetExpression
            || t.nodes@[i].kind == Kind::WithExpression || t.nodes@[i].kind == Kind::AssertExpression,
        t.nodes@[t.nodes@[i].children@[j] as int].named,
    ensures
        children_walk_edits(src, t, i, path, root, inherited, cfg, is_flake, j + 1) == children_walk_edits(
            src,
            t,
            i,
            path,
            root,
            inherited,
            cfg,
            is_flake,
            j,
        ) + if crate::syntax::field_child(t, i, Field::Body) == Some(t.nodes@[i].children@[j]) {
            walk_below(src, t, i, t.child(i, j), path, root, inherited, cfg, is_flake)
        } else {
            walk_below(src, t, i, t.child(i, j), path, None, None, cfg, is_flake)
        },
{
}

/// The spacing edits of the named ones among the first `j` children of a
/// node that is no set and no binding.
pub open spec fn children_walk_edits(
    src: Seq<u8>,
    t: SyntaxTree,
    i: int,
    path: Seq<Seq<u8>>,
    root: Option<usize>,
    inherited: Option<Inherited>,
    cfg: Config,
    is_flake: bool,
    j: int,
) -> Seq<(int, int, Seq<u8>)>
    decreases t.len() - i, 2int, j,
{
    if j <= 0 {
        seq![]
    } else {
        let c = t.nodes@[i].children@[j - 1];
        let k = t.nodes@[i].kind;
        let passes = k == Kind::SourceCode || k == Kind::ParenthesizedExpression;
        children_walk_edits(src, t, i, path, root, inherited, cfg, is_flake, j - 1) + if !t.nodes@[c as int].named {
            seq![]
        } else if passes || body_child(t, i) == Some(c) {
            walk_below(src, t, i, c as int, path, root, inherited, cfg, is_flake)
        } else {
            walk_below(src, t, i, c as int, path, None, None, cfg, is_flake)
        }
    }
}

/// The spacing edits of binding `i`: its value at the path it extends, with
/// `root` and `inherited`; its other children without.
pub open spec fn binding_walk_edits(
    src: Seq<u8>,
    t: SyntaxTree,
    i: int,
    path: Seq<Seq<u8>>,
    root: Option<usize>,
    inherited: Option<Inherited>,
    cfg: Config,
    is_flake: bool,
) -> Seq<(int, int, Seq<u8>)>
    decreases t.len() - i, 4int, 0int,
{
    binding_children_edits(
        src,
        t,
        i,
        path,
        path + crate::syntax::binding_components(src, t, i),
        root,
        inherited,
        cfg,
        is_flake,
        t.n_children(i),
    )
}

pub open spec fn binding_children_edits(
    src: Seq<u8>,
    t: SyntaxTree,
    i: int,
    path: Seq<Seq<u8>>,
    inner: Seq<Seq<u8>>,
    root: Option<usize>,
    inherited: Option<Inherited>,
    cfg: Config,
    is_flake: bool,
    j: int,
) -> Seq<(int, int, Seq<u8>)>
    decreases t.len() - i, 2int, j,
{
    if j <= 0 {
        seq![]
    } else {
        let c = t.nodes@[i].children@[j - 1];
        binding_children_edits(src, t, i, path, inner, root, inherited, cfg, is_flake, j - 1) + if crate::syntax::field_child(
            t,
            i,
            Field::Expression,
        ) == Some(c) {
            walk_below(src, t, i, c as int, inner, root, inherited, cfg, is_flake)
        } else {
            walk_below(src, t, i, c as int, path, None, None, cfg, is_flake)
        }
    }
}

/// The depth a binding of a top-level set at depth `root` hands its value:
/// the bodies of a flake's `inputs` and `outputs` count as top-level sets,
/// other values one level deeper while that stays within the top-level
/// depth.
pub open spec fn child_root(
    src: Seq<u8>,
    t: SyntaxTree,
    b: int,
    root: Option<usize>,
    cfg: Config,
    is_flake: bool,
) -> Option<usize> {
    let comps = crate::syntax::binding_components(src, t, b);
    let flake_body = is_flake && root == Some(1usize) && (comps == seq![seq![105u8, 110, 112, 117, 116, 115]]
        || comps == seq![seq![111u8, 117, 116, 112, 117, 116, 115]]);
    if flake_body {
        Some(1usize)
    } else {
        match root {
            Some(d) => if d < cfg.top_level_blank_lines_depth {
                Some((d + 1) as usize)
            } else {
                None
            },
            None => None,
        }
    }
}

/// The spacing edits of the first `k` items of a set, in order.
pub open spec fn items_walk_edits(
    src: Seq<u8>,
    t: SyntaxTree,
    i: int,
    items: Seq<ItemView>,
    path: Seq<Seq<u8>>,
    root: Option<usize>,
    down: Option<Inherited>,
    cfg: Config,
    is_flake: bool,
    k: int,
) -> Seq<(int, int, Seq<u8>)>
    decreases t.len() - i, 2int, k,
{
    if k <= 0 {
        seq![]
    } else {
        let node = items[k - 1].node as int;
        items_walk_edits(src, t, i, items, path, root, down, cfg, is_flake, k - 1) + if t.nodes@[node].kind
            != Kind::Binding {
            walk_below(src, t, i, node, path, None, None, cfg, is_flake)
        } else {
            binding_walk_below(src, t, i, node, path, child_root(src, t, node, root, cfg, is_flake), down, cfg, is_flake)
        }
    }
}

/// The spacing edits of set `i`: the gaps between its items, where a count
/// applies and its mode is not off, then those of its items.
pub open spec fn container_edits(
    src: Seq<u8>,
    t: SyntaxTree,
    i: int,
    path: Seq<Seq<u8>>,
    root: Option<usize>,
    inherited: Option<Inherited>,
    cfg: Config,
    is_flake: bool,
) -> Seq<(int, int, Seq<u8>)>
    decreases t.len() - i, 4int, 0int,
{
    match crate::layout::region_of(t, i) {
        None => seq![],
        Some((s, b, e)) => {
            let flat = crate::layout::region_nodes(t, i, s, b, e);
            let items = crate::layout::collect_upto(t, flat, flat.len() as int).0;
            let rules = cfg.rules_at_spec(RuleKind::Attrs, path);
            let n = blank_lines_for(rules.blank_lines, inherited, root, cfg.top_level_blank_lines);
            let mode = mode_for(rules.blank_lines_mode, rules.blank_lines, inherited, cfg.top_level_blank_lines_mode);
            let down = handed_down(rules.blank_lines, rules.blank_lines_depth, mode, inherited);
            let gaps = match n {
                Some(n) => if mode != BlankLinesMode::Off {
                    gap_edit_list(src, t, items, n as nat, mode, items.len() as int)
                } else {
                    seq![]
                },
                None => seq![],
            };
            gaps + items_walk_edits(src, t, i, items, path, root, down, cfg, is_flake, items.len() as int)
        },
    }
}

/// Walks node `i`, collecting the spacing edits of the sets below it.
fn walk(
    src: &[u8],
    t: &SyntaxTree,
    i: usize,
    path: &Vec<Vec<u8>>,
    root: Option<usize>,
    inherited: Option<Inherited>,
    cfg: &Config,
    is_flake: bool,
    edits: &mut Vec<Edit>,
)
    requires
        t.wf(src@.len()),
        i < t.nodes@.len(),
    ensures
        edit_views(final(edits)@) == edit_views(old(edits)@) + walk_edits(
            src@,
            *t,
            i as int,
            strs(path@),
            root,
            inherited,
            *cfg,
            is_flake,
        ),
    decreases t.nodes@.len() - i, 3nat,
{
    proof {
        lemma_children_after(*t, src@.len(), i as int);
    }
    let ghost start = edit_views(edits@);
    let kind = t.nodes[i].kind;
    match kind {
        Kind::AttrsetExpression | Kind::RecAttrsetExpression | Kind::LetAttrsetExpression => {
            space_container(src, t, i, path, root, inherited, cfg, is_flake, edits);
        },
        Kind::Binding => {
            walk_binding(src, t, i, path, None, None, cfg, is_flake, edits);
        },
        _ => {
            let passes = kind == Kind::SourceCode || kind == Kind::ParenthesizedExpression;
            let wraps = kind == Kind::FunctionExpression || kind == Kind::LetExpression || kind
                == Kind::WithExpression || kind == Kind::AssertExpression;
            let body = if wraps {
                field_child_of(t, i, Field::Body)
            } else {
                None
            };
            assert(body == body_child(*t, i as int));
            let n = t.nodes[i].children.len();
            let mut j: usize = 0;
            assert(edit_views(edits@) =~= start + children_walk_edits(
                src@,
                *t,
                i as int,
                strs(path@),
                root,
                inherited,
                *cfg,
                is_flake,
                0,
            ));
            while j < n
                invariant
                    t.wf(src@.len()),
                    i < t.nodes@.len(),
                    n == t.n_children(i as int),
                    j <= n,
                    kind == t.nodes@[i as int].kind,
                    passes == (kind == Kind::SourceCode || kind == Kind::ParenthesizedExpression),
                    body == body_child(*t, i as int),
                    forall|q: int| 0 <= q < t.n_children(i as int) ==> i < #[trigger] t.child(i as int, q) < t.len(),
                    edit_views(edits@) == start + children_walk_edits(
                        src@,
                        *t,
                        i as int,
                        strs(path@),
                        root,
                        inherited,
                        *cfg,
                        is_flake,
                        j as int,
                    ),
                decreases n - j,
            {
                let c = t.nodes[i].children[j];
                assert(c == t.child(i as int, j as int));
                assert(t.nodes@[i as int].children@[j as int] == c);
                let ghost before = edit_views(edits@);
                if t.nodes[c].named {
                    if passes || body == Some(c) {
                        walk(src, t, c, path, root, inherited, cfg, is_flake, edits);
                        assert(walk_below(src@, *t, i as int, c as int, strs(path@), root, inherited, *cfg, is_flake)
                            == walk_edits(src@, *t, c as int, strs(path@), root, inherited, *cfg, is_flake));
                    } else {
                        walk(src, t, c, path, None, None, cfg, is_flake, edits);
                        assert(walk_below(src@, *t, i as int, c as int, strs(path@), None, None, *cfg, is_flake)
                            == walk_edits(src@, *t, c as int, strs(path@), None, None, *cfg, is_flake));
                    }
                } else {
                    assert(edit_views(edits@) =~= before + Seq::<(int, int, Seq<u8>)>::empty());
                }
                j += 1;
            }
        },
    }
}

/// Walks a binding: its value at the path the binding extends, with the
/// spacing handed to it; its other children without.
fn walk_binding(
    src: &[u8],
    t: &SyntaxTree,
    i: usize,
    path: &Vec<Vec<u8>>,
    root: Option<usize>,
    inherited: Option<Inherited>,
    cfg: &Config,
    is_flake: bool,
    edits: &mut Vec<Edit>,
)
    requires
        t.wf(src@.len()),
        i < t.nodes@.len(),
    ensures
        edit_views(final(edits)@) == edit_views(old(edits)@) + binding_walk_edits(
            src@,
            *t,
            i as int,
            strs(path@),
            root,
            inherited,
            *cfg,
            is_flake,
        ),
    decreases t.nodes@.len() - i, 2nat,
{
    proof {
        lemma_children_after(*t, src@.len(), i as int);
    }
    let ghost start = edit_views(edits@);
    let expr = field_child_of(t, i, Field::Expression);
    let comps = binding_components_of(src, t, i);
    let mut inner = copy_strs(path);
    extend_strs(&mut inner, &comps);
    assert(strs(comps@) =~= crate::syntax::binding_components(src@, *t, i as int));
    let ghost iv = strs(inner@);
    let n = t.nodes[i].children.len();
    let mut j: usize = 0;
    assert(edit_views(edits@) =~= start + binding_children_edits(
        src@,
        *t,
        i as int,
        strs(path@),
        iv,
        root,
        inherited,
        *cfg,
        is_flake,
        0,
    ));
    while j < n
        invariant
            t.wf(src@.len()),
            i < t.nodes@.len(),
            n == t.n_children(i as int),
            j <= n,
            forall|q: int| 0 <= q < t.n_children(i as int) ==> i < #[trigger] t.child(i as int, q) < t.len(),
            expr == crate::syntax::field_child(*t, i as int, Field::Expression),
            iv == strs(inner@),
            iv == strs(path@) + crate::syntax::binding_components(src@, *t, i as int),
            edit_views(edits@) == start + binding_children_edits(
                src@,
                *t,
                i as int,
                strs(path@),
                iv,
                root,
                inherited,
                *cfg,
                is_flake,
                j as int,
            ),
        decreases n - j,
    {
        let c = t.nodes[i].children[j];
        assert(c == t.child(i as int, j as int));
        assert(t.nodes@[i as int].children@[j as int] == c);
        if expr == Some(c) {
            walk(src, t, c, &inner, root, inherited, cfg, is_flake, edits);
            assert(walk_below(src@, *t, i as int, c as int, iv, root, inherited, *cfg, is_flake) == walk_edits(
                src@,
                *t,
                c as int,
                iv,
                root,
                inherited,
                *cfg,
                is_flake,
            ));
        } else {
            walk(src, t, c, path, None, None, cfg, is_flake, edits);
            assert(walk_below(src@, *t, i as int, c as int, strs(path@), None, None, *cfg, is_flake) == walk_edits(
                src@,
                *t,
                c as int,
                strs(path@),
                None,
                None,
                *cfg,
                is_flake,
            ));
        }
        j += 1;
    }
}

/// Whether the components of a binding are just `name`.
fn is_single(comps: &Vec<Vec<u8>>, name: &[u8]) -> (r: bool)
    ensures
        r == (strs(comps@) == seq![name@]),
{
    if comps.len() != 1 {
        assert(strs(comps@).len() != 1);
        return false;
    }
    let r = crate::bytes::bytes_eq(comps[0].as_slice(), name);
    assert(strs(comps@)[0] == comps@[0]@);
    assert(r ==> strs(comps@) =~= seq![name@]);
    r
}

/// Spaces the bindings of a set, then walks them.
fn space_container(
    src: &[u8],
    t: &SyntaxTree,
    i: usize,
    path: &Vec<Vec<u8>>,
    root: Option<usize>,
    inherited: Option<Inherited>,
    cfg: &Config,
    is_flake: bool,
    edits: &mut Vec<Edit>,
)
    requires
        t.wf(src@.len()),
        i < t.nodes@.len(),
    ensures
        edit_views(final(edits)@) == edit_views(old(edits)@) + container_edits(
            src@,
            *t,
            i as int,
            strs(path@),
            root,
            inherited,
            *cfg,
            is_flake,
        ),
    decreases t.nodes@.len() - i, 1nat,
{
    proof {
        lemma_children_after(*t, src@.len(), i as int);
    }
    let ghost start = edit_views(edits@);
    let (s, b, e, flat) = match container_region(t, i) {
        None => {
            assert(edit_views(edits@) =~= start + Seq::<(int, int, Seq<u8>)>::empty());
            return ;
        },
        Some(x) => x,
    };
    proof {
        lemma_region_after(*t, src@.len(), i as int, s as int, b as int, e as int);
    }
    let (items, _dangling) = items_of(t, i, &flat);
    let ghost iv = item_views(items@);
    let rules = cfg.rules_at(RuleKind::Attrs, path);
    let (blank_lines, mode, child_inherited) = resolve_spacing(&rules, inherited, root, cfg);
    match blank_lines {
        Some(n) => if mode != BlankLinesMode::Off {
            gap_edits(src, t, &items, n, mode, edits);
        } else {
            assert(edit_views(edits@) =~= start + Seq::<(int, int, Seq<u8>)>::empty());
        },
        None => {
            assert(edit_views(edits@) =~= start + Seq::<(int, int, Seq<u8>)>::empty());
        },
    }
    let ghost gaps = edit_views(edits@);
    let inputs: &[u8] = &[105u8, 110, 112, 117, 116, 115];
    let outputs: &[u8] = &[111u8, 117, 116, 112, 117, 116, 115];
    assert(inputs@ == seq![105u8, 110, 112, 117, 116, 115]);
    assert(outputs@ == seq![111u8, 117, 116, 112, 117, 116, 115]);
    let mut k: usize = 0;
    assert(gaps =~= gaps + items_walk_edits(
        src@,
        *t,
        i as int,
        iv,
        strs(path@),
        root,
        child_inherited,
        *cfg,
        is_flake,
        0,
    ));
    while k < items.len()
        invariant
            t.wf(src@.len()),
            k <= items@.len(),
            iv == item_views(items@),
            inputs@ == seq![105u8, 110, 112, 117, 116, 115],
            outputs@ == seq![111u8, 117, 116, 112, 117, 116, 115],
            forall|x: int| 0 <= x < items@.len() ==> i < (#[trigger] items@[x]).node < t.len(),
            edit_views(edits@) == gaps + items_walk_edits(
                src@,
                *t,
                i as int,
                iv,
                strs(path@),
                root,
                child_inherited,
                *cfg,
                is_flake,
                k as int,
            ),
        decreases items.len() - k,
    {
        let node = items[k].node;
        assert(iv[k as int] == items@[k as int]@);
        if t.nodes[node].kind != Kind::Binding {
            walk(src, t, node, path, None, None, cfg, is_flake, edits);
            assert(walk_below(src@, *t, i as int, node as int, strs(path@), None, None, *cfg, is_flake) == walk_edits(
                src@,
                *t,
                node as int,
                strs(path@),
                None,
                None,
                *cfg,
                is_flake,
            ));
        } else {
            let comps = binding_components_of(src, t, node);
            assert(strs(comps@) =~= crate::syntax::binding_components(src@, *t, node as int));
            let flake_body = is_flake && root == Some(1usize) && (is_single(&comps, inputs) || is_single(
                &comps,
                outputs,
            ));
            let child_root_v = if flake_body {
                Some(1usize)
            } else {
                match root {
                    Some(depth) => if depth < cfg.top_level_blank_lines_depth {
                        Some(depth + 1)
                    } else {
                        None
                    },
                    None => None,
                }
            };
            assert(child_root_v == child_root(src@, *t, node as int, root, *cfg, is_flake));
            walk_binding(src, t, node, path, child_root_v, child_inherited, cfg, is_flake, edits);
            assert(binding_walk_below(
                src@,
                *t,
                i as int,
                node as int,
                strs(path@),
                child_root_v,
                child_inherited,
                *cfg,
                is_flake,
            ) == binding_walk_edits(src@, *t, node as int, strs(path@), child_root_v, child_inherited, *cfg, is_flake));
        }
        k += 1;
    }
}

/// How many of the edits start at or before `x`.
pub open spec fn count_starting_by(s: Seq<(int, int, Seq<u8>)>, x: int) -> nat
    decreases s.len(),
{
    if s.len() == 0 {
        0
    } else {
        count_starting_by(s.drop_last(), x) + (if s.last().0 <= x {
            1nat
        } else {
            0nat
        })
    }
}

/// The first `m` edits ordered by where they start: each goes in after the
/// edits already placed that start at or before it.
pub open spec fn by_start(s: Seq<(int, int, Seq<u8>)>, m: int) -> Seq<(int, int, Seq<u8>)>
    decreases m,
{
    if m <= 0 || m > s.len() {
        seq![]
    } else {
        let out = by_start(s, m - 1);
        out.insert(count_starting_by(out, s[m - 1].0) as int, s[m - 1])
    }
}

/// In a sequence ordered by start, the edits that start at or before `x` are
/// the first `p`.
proof fn lemma_count_starting_by(s: Seq<(int, int, Seq<u8>)>, x: int, p: int)
    requires
        0 <= p <= s.len(),
        forall|q: int| 0 <= q < p ==> (#[trigger] s[q]).0 <= x,
        forall|q: int| p <= q < s.len() ==> (#[trigger] s[q]).0 > x,
    ensures
        count_starting_by(s, x) == p,
    decreases s.len(),
{
    if s.len() > 0 {
        let d = s.drop_last();
        if p == s.len() {
            assert forall|q: int| 0 <= q < p - 1 implies (#[trigger] d[q]).0 <= x by {
                assert(d[q] == s[q]);
            }
            lemma_count_starting_by(d, x, p - 1);
        } else {
            assert forall|q: int| 0 <= q < p implies (#[trigger] d[q]).0 <= x by {
                assert(d[q] == s[q]);
            }
            assert forall|q: int| p <= q < d.len() implies (#[trigger] d[q]).0 > x by {
                assert(d[q] == s[q]);
            }
            lemma_count_starting_by(d, x, p);
        }
    }
}

/// The edits in order of where they start, edits that start together in the
/// order they were made.
fn sort_edits(edits: Vec<Edit>) -> (r: Vec<Edit>)
    ensures
        edit_views(r@) == by_start(edit_views(edits@), edits@.len() as int),
        forall|a: int, b: int| 0 <= a < b < r@.len() ==> r@[a].start <= r@[b].start,
{
    let ghost ev = edit_views(edits@);
    let mut out: Vec<Edit> = Vec::new();
    let mut rest = edits;
    while rest.len() > 0
        invariant
            forall|a: int, b: int| 0 <= a < b < out@.len() ==> out@[a].start <= out@[b].start,
            out@.len() + rest@.len() == ev.len(),
            edit_views(out@) == by_start(ev, out@.len() as int),
            edit_views(rest@) == ev.subrange(out@.len() as int, ev.len() as int),
        decreases rest.len(),
    {
        let ghost m = out@.len() as int;
        let ghost rv = edit_views(rest@);
        assert(rv[0] == ev[m]);
        let e = rest.remove(0);
        assert(edit_views(rest@) =~= ev.subrange(m + 1, ev.len() as int)) by {
            assert forall|q: int| 0 <= q < rest@.len() implies #[trigger] edit_views(rest@)[q] == ev[m + 1 + q] by {
                assert(rv[q + 1] == ev[m + 1 + q]);
            }
        }
        let mut p = out.len();
        while p > 0 && out[p - 1].start > e.start
            invariant
                p <= out@.len(),
                forall|a: int, b: int| 0 <= a < b < out@.len() ==> out@[a].start <= out@[b].start,
                forall|q: int| p <= q < out@.len() ==> out@[q].start > e.start,
            decreases p,
        {
            p -= 1;
        }
        let ghost before = out@;
        let ghost bv = edit_views(before);
        proof {
            assert forall|q: int| 0 <= q < p implies (#[trigger] bv[q]).0 <= e.start by {
                assert(bv[q].0 == before[q].start);
                assert(before[q].start <= before[p - 1].start);
            }
            assert forall|q: int| p <= q < bv.len() implies (#[trigger] bv[q]).0 > e.start by {
                assert(bv[q].0 == before[q].start);
            }
            lemma_count_starting_by(bv, e.start as int, p as int);
        }
        out.insert(p, e);
        assert(edit_views(out@) =~= bv.insert(p as int, ev[m]));
        assert forall|a: int, b: int| 0 <= a < b < out@.len() implies out@[a].start <= out@[b].start by {
            if b < p {
                assert(out@[a] == before[a] && out@[b] == before[b]);
            } else if b == p {
                if a < p {
                    assert(out@[a] == before[a]);
                    if p > 0 {
                        assert(before[p - 1].start <= e.start);
                    }
                }
            } else if a < p {
                assert(out@[a] == before[a] && out@[b] == before[b - 1]);
            } else if a == p {
                assert(out@[b] == before[b - 1]);
            } else {
                assert(out@[a] == before[a - 1] && out@[b] == before[b - 1]);
            }
        }
    }
    out
}

/// The source from `pos` on with edits `k` and after applied in turn: each
/// puts its text in place of its span, unless the span starts before `pos`
/// or does not lie in the source.
pub open spec fn applied(src: Seq<u8>, edits: Seq<(int, int, Seq<u8>)>, k: int, pos: int) -> Seq<u8>
    decreases edits.len() - k,
{
    if k < 0 || k >= edits.len() {
        src.subrange(pos, src.len() as int)
    } else {
        let (s, e, text) = edits[k];
        if pos <= s && s <= e && e <= src.len() {
            src.subrange(pos, s) + text + applied(src, edits, k + 1, e)
        } else {
            applied(src, edits, k + 1, pos)
        }
    }
}

/// Applies sorted edits to the source. Each edit lies in the gap between two
/// siblings, so no two overlap; one that would start before the end of the
/// last applied is passed over.
fn apply_edits(src: &[u8], edits: &Vec<Edit>) -> (r: Vec<u8>)
    ensures
        r@ == applied(src@, edit_views(edits@), 0, 0),
{
    let ghost ev = edit_views(edits@);
    let mut out: Vec<u8> = Vec::new();
    let mut pos: usize = 0;
    let mut k: usize = 0;
    while k < edits.len()
        invariant
            pos <= src@.len(),
            k <= edits@.len(),
            ev == edit_views(edits@),
            out@ + applied(src@, ev, k as int, pos as int) == applied(src@, ev, 0, 0),
        decreases edits.len() - k,
    {
        let e = &edits[k];
        assert(ev[k as int] == (e.start as int, e.end as int, e.text@));
        if pos <= e.start && e.start <= e.end && e.end <= src.len() {
            let ghost before = out@;
            push_range(&mut out, src, pos, e.start);
            push_all(&mut out, e.text.as_slice());
            assert(out@ + applied(src@, ev, k + 1, e.end as int) =~= before + applied(src@, ev, k as int, pos as int));
            pos = e.end;
        }
        k += 1;
    }
    push_range(&mut out, src, pos, src.len());
    out
}

/// The text that spacing makes of the syntax tree `t` of `src`: the edits
/// found in it, ordered by where they start, applied.
pub open spec fn spaced_text(src: Seq<u8>, t: SyntaxTree, cfg: Config, is_flake: bool) -> Seq<u8> {
    let found = walk_edits(src, t, 0, seq![], Some(1usize), None, cfg, is_flake);
    applied(src, by_start(found, found.len() as int), 0, 0)
}

/// Adjusts the blank lines between bindings by the configuration. Where no
/// spacing rule is set, the source comes back as it is; input that is not
/// valid Nix is refused. `is_flake` makes the bodies of `inputs` and
/// `outputs` count as top-level sets.
pub fn space_top_level(src: &str, cfg: &Config, is_flake: bool) -> (r: Result<String, Error>)
    ensures
        !cfg.blank_lines_may_apply_spec() ==> (r matches Ok(s) && s@ == src@),
        cfg.blank_lines_may_apply_spec() ==> pass_result(
            src@,
            r,
            Refusal::AdjustSpacing,
            |t: SyntaxTree| spaced_text(src.spec_bytes(), t, *cfg, is_flake),
        ),
{
    if !cfg.blank_lines_may_apply() {
        return Ok(src.to_owned());
    }
    let ghost out = |t: SyntaxTree| spaced_text(src.spec_bytes(), t, *cfg, is_flake);
    let t = match parse_valid(src, Refusal::AdjustSpacing) {
        Ok(t) => t,
        Err(e) => return Err(e),
    };
    let path: Vec<Vec<u8>> = Vec::new();
    assert(strs(path@) =~= Seq::<Seq<u8>>::empty());
    let mut edits: Vec<Edit> = Vec::new();
    walk(src.as_bytes(), &t, 0, &path, Some(1), None, cfg, is_flake, &mut edits);
    assert(edit_views(edits@) =~= walk_edits(src.spec_bytes(), t, 0, seq![], Some(1usize), None, *cfg, is_flake));
    let edits = sort_edits(edits);
    let res = apply_edits(src.as_bytes(), &edits);
    assert(res@ == out(t));
    output_string(res)
}

} // verus!
