//! Byte-string helpers shared by the rewriting passes.

use vstd::prelude::*;
use vstd::string::StringSliceAdditionalSpecFns;

verus! {

/// Appends `src[start..end]` to `out`.
pub fn push_range(out: &mut Vec<u8>, src: &[u8], start: usize, end: usize)
    requires
        start <= end <= src@.len(),
    ensures
        final(out)@ == old(out)@ + src@.subrange(start as int, end as int),
{
    let mut i = start;
    while i < end
        invariant
            start <= i <= end <= src@.len(),
            out@ == old(out)@ + src@.subrange(start as int, i as int),
        decreases end - i,
    {
        out.push(src[i]);
        i += 1;
        assert(out@ =~= old(out)@ + src@.subrange(start as int, i as int));
    }
}

/// Appends all of `s` to `out`.
pub fn push_all(out: &mut Vec<u8>, s: &[u8])
    ensures
        final(out)@ == old(out)@ + s@,
{
    push_range(out, s, 0, s.len());
    assert(s@.subrange(0, s@.len() as int) =~= s@);
}

/// Whether two byte strings are equal.
pub fn bytes_eq(a: &[u8], b: &[u8]) -> (r: bool)
    ensures
        r == (a@ == b@),
{
    if a.len() != b.len() {
        return false;
    }
    let mut i: usize = 0;
    while i < a.len()
        invariant
            a@.len() == b@.len(),
            i <= a@.len(),
            forall|j: int| 0 <= j < i ==> a@[j] == b@[j],
        decreases a.len() - i,
    {
        if a[i] != b[i] {
            return false;
        }
        i += 1;
    }
    assert(a@ =~= b@);
    true
}

} // verus!

verus! {

/// Strict lexicographic order on byte strings, as `Ord` orders `[u8]` and
/// `String`.
pub open spec fn lex_lt(a: Seq<u8>, b: Seq<u8>) -> bool
    decreases a.len(),
{
    if a.len() == 0 {
        b.len() > 0
    } else if b.len() == 0 {
        false
    } else if a[0] != b[0] {
        a[0] < b[0]
    } else {
        lex_lt(a.drop_first(), b.drop_first())
    }
}

/// No byte string sorts before itself.
pub proof fn lemma_lex_irreflexive(a: Seq<u8>)
    ensures
        !lex_lt(a, a),
    decreases a.len(),
{
    if a.len() > 0 {
        lemma_lex_irreflexive(a.drop_first());
    }
}

/// The order of byte strings is transitive.
pub proof fn lemma_lex_transitive(a: Seq<u8>, b: Seq<u8>, c: Seq<u8>)
    requires
        lex_lt(a, b),
        lex_lt(b, c),
    ensures
        lex_lt(a, c),
    decreases a.len(),
{
    if a.len() > 0 && b.len() > 0 && c.len() > 0 && a[0] == b[0] && b[0] == c[0] {
        lemma_lex_transitive(a.drop_first(), b.drop_first(), c.drop_first());
    }
}

/// Of two different byte strings, one sorts before the other.
pub proof fn lemma_lex_total(a: Seq<u8>, b: Seq<u8>)
    requires
        a != b,
    ensures
        lex_lt(a, b) || lex_lt(b, a),
    decreases a.len(),
{
    if a.len() > 0 && b.len() > 0 && a[0] == b[0] {
        if a.drop_first() == b.drop_first() {
            assert(a =~= seq![a[0]] + a.drop_first());
            assert(b =~= seq![b[0]] + b.drop_first());
        }
        lemma_lex_total(a.drop_first(), b.drop_first());
    } else if a.len() == 0 && b.len() == 0 {
        assert(a =~= b);
    }
}

/// Whether `a` sorts strictly before `b`.
pub fn bytes_lt(a: &[u8], b: &[u8]) -> (r: bool)
    ensures
        r == lex_lt(a@, b@),
{
    let mut i: usize = 0;
    assert(a@.skip(0) =~= a@);
    assert(b@.skip(0) =~= b@);
    while i < a.len() && i < b.len()
        invariant
            i <= a@.len(),
            i <= b@.len(),
            lex_lt(a@, b@) == lex_lt(a@.skip(i as int), b@.skip(i as int)),
        decreases a.len() - i,
    {
        if a[i] != b[i] {
            assert(a@.skip(i as int)[0] == a@[i as int]);
            assert(b@.skip(i as int)[0] == b@[i as int]);
            return a[i] < b[i];
        }
        assert(a@.skip(i as int).drop_first() =~= a@.skip(i + 1));
        assert(b@.skip(i as int).drop_first() =~= b@.skip(i + 1));
        i += 1;
    }
    i == a.len() && i < b.len()
}

/// `s` with `x` placed before the first element that sorts strictly after it.
pub open spec fn insert_sorted(s: Seq<Seq<u8>>, x: Seq<u8>) -> Seq<Seq<u8>>
    decreases s.len(),
{
    if s.len() == 0 {
        seq![x]
    } else if lex_lt(x, s[0]) {
        seq![x] + s
    } else {
        seq![s[0]] + insert_sorted(s.drop_first(), x)
    }
}

/// Stable insertion sort of byte strings.
pub open spec fn sort_bytes(s: Seq<Seq<u8>>) -> Seq<Seq<u8>>
    decreases s.len(),
{
    if s.len() == 0 {
        s
    } else {
        insert_sorted(sort_bytes(s.drop_last()), s.last())
    }
}

/// Inserting at the first position that sorts strictly after `x`.
pub proof fn lemma_insert_sorted_at(s: Seq<Seq<u8>>, x: Seq<u8>, p: int)
    requires
        0 <= p <= s.len(),
        forall|q: int| 0 <= q < p ==> !lex_lt(x, #[trigger] s[q]),
        p < s.len() ==> lex_lt(x, s[p]),
    ensures
        insert_sorted(s, x) == s.take(p) + seq![x] + s.skip(p),
    decreases s.len(),
{
    if s.len() == 0 {
        assert(s.take(p) + seq![x] + s.skip(p) =~= seq![x]);
    } else if p == 0 {
        assert(s.take(p) + seq![x] + s.skip(p) =~= seq![x] + s);
    } else {
        let t = s.drop_first();
        assert forall|q: int| 0 <= q < p - 1 implies !lex_lt(x, #[trigger] t[q]) by {
            assert(t[q] == s[q + 1]);
        }
        lemma_insert_sorted_at(t, x, p - 1);
        assert(s.take(p) + seq![x] + s.skip(p) =~= seq![s[0]] + (t.take(p - 1) + seq![x] + t.skip(
            p - 1,
        )));
    }
}

/// Inserts `x` into `v`, before the first element that sorts strictly after it.
pub fn insert_sorted_vec(v: &mut Vec<Vec<u8>>, x: Vec<u8>)
    ensures
        final(v)@.map_values(|e: Vec<u8>| e@) == insert_sorted(
            old(v)@.map_values(|e: Vec<u8>| e@),
            x@,
        ),
{
    let ghost s = v@.map_values(|e: Vec<u8>| e@);
    let mut p: usize = 0;
    while p < v.len() && !bytes_lt(x.as_slice(), v[p].as_slice())
        invariant
            p <= v@.len(),
            s == v@.map_values(|e: Vec<u8>| e@),
            forall|q: int| 0 <= q < p ==> !lex_lt(x@, #[trigger] s[q]),
        decreases v.len() - p,
    {
        p += 1;
    }
    proof {
        lemma_insert_sorted_at(s, x@, p as int);
    }
    v.insert(p, x);
    assert(v@.map_values(|e: Vec<u8>| e@) =~= s.take(p as int) + seq![x@] + s.skip(p as int));
}

/// Sorts byte strings in ascending order, keeping equal ones in their order.
pub fn sort_byte_strings(items: Vec<Vec<u8>>) -> (r: Vec<Vec<u8>>)
    ensures
        r@.map_values(|e: Vec<u8>| e@) == sort_bytes(items@.map_values(|e: Vec<u8>| e@)),
{
    let ghost s = items@.map_values(|e: Vec<u8>| e@);
    let mut out: Vec<Vec<u8>> = Vec::new();
    let mut items = items;
    let mut rest: Vec<Vec<u8>> = Vec::new();
    // reverse so that popping yields the items in order
    while items.len() > 0
        invariant
            s.len() == items@.len() + rest@.len(),
            forall|k: int| 0 <= k < items@.len() ==> #[trigger] items@[k]@ == s[k],
            forall|k: int|
                0 <= k < rest@.len() ==> #[trigger] rest@[k]@ == s[s.len() - 1 - k],
        decreases items.len(),
    {
        let x = items.pop().unwrap();
        rest.push(x);
    }
    let n = rest.len();
    let mut i: usize = 0;
    while i < n
        invariant
            i <= n == s.len(),
            rest@.len() == n - i,
            forall|k: int|
                0 <= k < rest@.len() ==> #[trigger] rest@[k]@ == s[s.len() - 1 - k],
            out@.map_values(|e: Vec<u8>| e@) == sort_bytes(s.take(i as int)),
        decreases n - i,
    {
        let x = rest.pop().unwrap();
        proof {
            assert(s.take(i + 1).drop_last() =~= s.take(i as int));
            assert(s.take(i + 1).last() == s[i as int]);
        }
        insert_sorted_vec(&mut out, x);
        i += 1;
    }
    assert(s.take(n as int) =~= s);
    out
}

/// The concatenation of byte strings.
pub open spec fn concat(ss: Seq<Seq<u8>>) -> Seq<u8>
    decreases ss.len(),
{
    if ss.len() == 0 {
        seq![]
    } else {
        concat(ss.drop_last()) + ss.last()
    }
}

} // verus!

verus! {

/// `String::from_utf8`: the string whose UTF-8 encoding is `v`, if `v` is
/// valid UTF-8, and nothing otherwise.
#[verifier::external_body]
pub fn string_from_utf8(v: Vec<u8>) -> (r: Option<String>)
    ensures
        r is Some <==> vstd::utf8::valid_utf8(v@),
        r matches Some(s) ==> vstd::utf8::encode_utf8(s@) == v@,
{
    String::from_utf8(v).ok()
}

/// `s` without its trailing white space, as `str::trim_end` has it for ASCII
/// white space and the other white-space characters of Unicode.
pub open spec fn trailing_space_len(s: Seq<u8>) -> int {
    let n = s.len() as int;
    if n >= 1 && (s[n - 1] == 32u8 || (9u8 <= s[n - 1] && s[n - 1] <= 13u8)) {
        1
    } else if n >= 2 && s[n - 2] == 0xc2u8 && (s[n - 1] == 0x85u8 || s[n - 1] == 0xa0u8) {
        2
    } else if n >= 3 && ((s[n - 3] == 0xe1u8 && s[n - 2] == 0x9au8 && s[n - 1] == 0x80u8) || (
    s[n - 3] == 0xe2u8 && s[n - 2] == 0x80u8 && (s[n - 1] <= 0x8au8 && s[n - 1] >= 0x80u8 || s[n
        - 1] == 0xa8u8 || s[n - 1] == 0xa9u8 || s[n - 1] == 0xafu8)) || (s[n - 3] == 0xe2u8 && s[n
        - 2] == 0x81u8 && s[n - 1] == 0x9fu8) || (s[n - 3] == 0xe3u8 && s[n - 2] == 0x80u8 && s[n
        - 1] == 0x80u8)) {
        3
    } else {
        0
    }
}

pub open spec fn trim_end(s: Seq<u8>) -> Seq<u8>
    decreases s.len(),
{
    let k = trailing_space_len(s);
    if k == 0 {
        s
    } else {
        trim_end(s.subrange(0, s.len() - k))
    }
}

fn trailing_space_len_at(s: &[u8], n: usize) -> (k: usize)
    requires
        n <= s@.len(),
    ensures
        k == trailing_space_len(s@.subrange(0, n as int)),
        k <= n,
{
    if n == 0 {
        return 0;
    }
    let b1 = s[n - 1];
    if b1 == 32u8 || (9u8 <= b1 && b1 <= 13u8) {
        1
    } else if n >= 2 && s[n - 2] == 0xc2u8 && (b1 == 0x85u8 || b1 == 0xa0u8) {
        2
    } else if n >= 3 && ((s[n - 3] == 0xe1u8 && s[n - 2] == 0x9au8 && b1 == 0x80u8) || (s[n - 3]
        == 0xe2u8 && s[n - 2] == 0x80u8 && (b1 <= 0x8au8 && b1 >= 0x80u8 || b1 == 0xa8u8 || b1
        == 0xa9u8 || b1 == 0xafu8)) || (s[n - 3] == 0xe2u8 && s[n - 2] == 0x81u8 && b1 == 0x9fu8)
        || (s[n - 3] == 0xe3u8 && s[n - 2] == 0x80u8 && b1 == 0x80u8)) {
        3
    } else {
        0
    }
}

pub fn trim_end_bytes(s: &[u8]) -> (r: Vec<u8>)
    ensures
        r@ == trim_end(s@),
{
    let mut n = s.len();
    assert(s@.subrange(0, n as int) =~= s@);
    while trailing_space_len_at(s, n) > 0
        invariant
            n <= s@.len(),
            trim_end(s@) == trim_end(s@.subrange(0, n as int)),
        decreases n,
    {
        let k = trailing_space_len_at(s, n);
        let ghost cur = s@.subrange(0, n as int);
        assert(cur.subrange(0, cur.len() - k) =~= s@.subrange(0, n - k));
        n = n - k;
    }
    let mut r: Vec<u8> = Vec::new();
    push_range(&mut r, s, 0, n);
    r
}

} // verus!

verus! {

/// The UTF-8 bytes of a literal.
pub open spec fn lit(s: &str) -> Seq<u8> {
    s.spec_bytes()
}

/// Appends the UTF-8 bytes of `s` to `out`.
pub fn push_str(out: &mut Vec<u8>, s: &str)
    ensures
        final(out)@ == old(out)@ + lit(s),
{
    push_all(out, s.as_bytes());
}

/// Appends each of `parts` to `out`, in order.
pub fn push_concat(out: &mut Vec<u8>, parts: &Vec<Vec<u8>>)
    ensures
        final(out)@ == old(out)@ + concat(parts@.map_values(|v: Vec<u8>| v@)),
{
    let ghost ps = parts@.map_values(|v: Vec<u8>| v@);
    let mut k: usize = 0;
    while k < parts.len()
        invariant
            k <= parts@.len(),
            ps == parts@.map_values(|v: Vec<u8>| v@),
            out@ == old(out)@ + concat(ps.take(k as int)),
        decreases parts.len() - k,
    {
        push_all(out, parts[k].as_slice());
        assert(ps.take(k + 1).drop_last() =~= ps.take(k as int));
        k += 1;
    }
    assert(ps.take(k as int) =~= ps);
}

} // verus!

verus! {

/// The pieces of `s.take(k)` between `sep` bytes; the last may be partial.
pub open spec fn split_upto(s: Seq<u8>, sep: u8, k: int) -> Seq<Seq<u8>>
    decreases k,
{
    if k <= 0 {
        seq![seq![]]
    } else {
        let prev = split_upto(s, sep, k - 1);
        if s[k - 1] == sep {
            prev.push(seq![])
        } else {
            prev.update(prev.len() - 1, prev.last().push(s[k - 1]))
        }
    }
}

pub proof fn lemma_split_nonempty(s: Seq<u8>, sep: u8, k: int)
    ensures
        split_upto(s, sep, k).len() >= 1,
    decreases k,
{
    if k > 0 {
        lemma_split_nonempty(s, sep, k - 1);
    }
}

/// The pieces of `s` between `sep` bytes, as `str::split` yields them.
pub open spec fn split(s: Seq<u8>, sep: u8) -> Seq<Seq<u8>> {
    split_upto(s, sep, s.len() as int)
}

/// The lines of `s`, as `str::split('\n')` yields them.
pub open spec fn split_lines(s: Seq<u8>) -> Seq<Seq<u8>> {
    split(s, 10u8)
}

pub fn split_bytes(s: &[u8], sep: u8) -> (r: Vec<Vec<u8>>)
    ensures
        strs(r@) == split(s@, sep),
        r@.len() >= 1,
{
    let mut lines: Vec<Vec<u8>> = Vec::new();
    let mut cur: Vec<u8> = Vec::new();
    let mut k: usize = 0;
    while k < s.len()
        invariant
            k <= s@.len(),
            strs(lines@).push(cur@) == split_upto(s@, sep, k as int),
        decreases s.len() - k,
    {
        let ghost prev = strs(lines@).push(cur@);
        if s[k] == sep {
            let done = cur;
            lines.push(done);
            cur = Vec::new();
            assert(strs(lines@).push(cur@) =~= prev.push(seq![]));
        } else {
            cur.push(s[k]);
            assert(strs(lines@).push(cur@) =~= prev.update(
                prev.len() - 1,
                prev.last().push(s@[k as int]),
            ));
        }
        k += 1;
    }
    lines.push(cur);
    lines
}

/// The number of spaces that `l` starts with, from position `k` on.
pub open spec fn leading_spaces_from(l: Seq<u8>, k: int) -> int
    decreases l.len() - k,
{
    if k < 0 || k >= l.len() || l[k] != 32u8 {
        0
    } else {
        1 + leading_spaces_from(l, k + 1)
    }
}

pub open spec fn leading_spaces(l: Seq<u8>) -> int {
    leading_spaces_from(l, 0)
}

/// Whether `l` holds something other than spaces.
pub open spec fn has_non_space(l: Seq<u8>) -> bool {
    exists|j: int| 0 <= j < l.len() && l[j] != 32u8
}

/// The least indentation among lines 1 to `k - 1` that are not blank.
pub open spec fn min_indent_upto(lines: Seq<Seq<u8>>, k: int) -> Option<int>
    decreases k,
{
    if k <= 1 {
        None
    } else {
        let prev = min_indent_upto(lines, k - 1);
        let l = lines[k - 1];
        if !has_non_space(l) {
            prev
        } else {
            match prev {
                None => Some(leading_spaces(l)),
                Some(m) => Some(if leading_spaces(l) < m {
                    leading_spaces(l)
                } else {
                    m
                }),
            }
        }
    }
}

/// Lines 1 to `k - 1`, each after a newline and without `m` of its leading
/// spaces.
pub open spec fn dedent_rest(lines: Seq<Seq<u8>>, m: int, k: int) -> Seq<u8>
    decreases k,
{
    if k <= 1 {
        seq![]
    } else {
        let l = lines[k - 1];
        let cut = if leading_spaces(l) < m {
            leading_spaces(l)
        } else {
            m
        };
        dedent_rest(lines, m, k - 1) + seq![10u8] + l.skip(cut)
    }
}

/// `s` with the indentation common to its non-blank lines after the first
/// taken out.
pub open spec fn strip_common_indent(s: Seq<u8>) -> Seq<u8> {
    let lines = split_lines(s);
    let m = match min_indent_upto(lines, lines.len() as int) {
        Some(m) => m,
        None => 0,
    };
    lines[0] + dedent_rest(lines, m, lines.len() as int)
}

fn leading_spaces_of(l: &[u8]) -> (r: usize)
    ensures
        r == leading_spaces(l@),
        r <= l@.len(),
{
    let mut k: usize = 0;
    while k < l.len() && l[k] == 32u8
        invariant
            k <= l@.len(),
            leading_spaces(l@) == k + leading_spaces_from(l@, k as int),
        decreases l.len() - k,
    {
        k += 1;
    }
    k
}

fn has_non_space_of(l: &[u8]) -> (r: bool)
    ensures
        r == has_non_space(l@),
{
    let mut k: usize = 0;
    while k < l.len()
        invariant
            k <= l@.len(),
            forall|j: int| 0 <= j < k ==> l@[j] == 32u8,
        decreases l.len() - k,
    {
        if l[k] != 32u8 {
            return true;
        }
        k += 1;
    }
    false
}

pub fn strip_common_indent_bytes(s: &[u8]) -> (r: Vec<u8>)
    ensures
        r@ == strip_common_indent(s@),
{
    let lines = split_bytes(s, 10u8);
    let ghost ls = lines@.map_values(|v: Vec<u8>| v@);
    let n = lines.len();
    let mut m: Option<usize> = None;
    let mut k: usize = 1;
    while k < n
        invariant
            1 <= k <= n == lines@.len() == ls.len(),
            ls == lines@.map_values(|v: Vec<u8>| v@),
            match m {
                Some(x) => min_indent_upto(ls, k as int) == Some(x as int),
                None => min_indent_upto(ls, k as int) is None,
            },
        decreases n - k,
    {
        let l = lines[k].as_slice();
        assert(l@ == ls[k as int]);
        if has_non_space_of(l) {
            let lead = leading_spaces_of(l);
            m = match m {
                None => Some(lead),
                Some(x) => Some(if lead < x { lead } else { x }),
            };
        }
        k += 1;
    }
    let m = match m {
        Some(x) => x,
        None => 0,
    };
    let mut out: Vec<u8> = Vec::new();
    push_all(&mut out, lines[0].as_slice());
    let mut k: usize = 1;
    while k < n
        invariant
            1 <= k <= n == lines@.len() == ls.len(),
            ls == lines@.map_values(|v: Vec<u8>| v@),
            out@ == ls[0] + dedent_rest(ls, m as int, k as int),
        decreases n - k,
    {
        let l = lines[k].as_slice();
        assert(l@ == ls[k as int]);
        let lead = leading_spaces_of(l);
        let cut = if lead < m { lead } else { m };
        out.push(10u8);
        push_range(&mut out, l, cut, l.len());
        assert(l@.subrange(cut as int, l@.len() as int) =~= l@.skip(cut as int));
        k += 1;
    }
    out
}

} // verus!

verus! {

/// The contents of a vector of byte strings.
pub open spec fn strs(v: Seq<Vec<u8>>) -> Seq<Seq<u8>> {
    v.map_values(|x: Vec<u8>| x@)
}

/// A copy of `s`.
pub fn copy_bytes(s: &[u8]) -> (r: Vec<u8>)
    ensures
        r@ == s@,
{
    let mut r: Vec<u8> = Vec::new();
    push_all(&mut r, s);
    r
}

/// A copy of a vector of byte strings.
pub fn copy_strs(v: &Vec<Vec<u8>>) -> (r: Vec<Vec<u8>>)
    ensures
        strs(r@) == strs(v@),
{
    let mut r: Vec<Vec<u8>> = Vec::new();
    let mut k: usize = 0;
    while k < v.len()
        invariant
            k <= v@.len(),
            strs(r@) == strs(v@).take(k as int),
        decreases v.len() - k,
    {
        let ghost prev = strs(r@);
        r.push(copy_bytes(v[k].as_slice()));
        assert(strs(r@) =~= prev.push(v@[k as int]@));
        assert(strs(v@).take(k + 1) =~= strs(v@).take(k as int).push(v@[k as int]@));
        k += 1;
    }
    assert(strs(v@).take(k as int) =~= strs(v@));
    r
}

/// Appends copies of all of `w` to `v`.
pub fn extend_strs(v: &mut Vec<Vec<u8>>, w: &Vec<Vec<u8>>)
    ensures
        strs(final(v)@) == strs(old(v)@) + strs(w@),
{
    let mut k: usize = 0;
    while k < w.len()
        invariant
            k <= w@.len(),
            strs(v@) == strs(old(v)@) + strs(w@).take(k as int),
        decreases w.len() - k,
    {
        let ghost prev = strs(v@);
        v.push(copy_bytes(w[k].as_slice()));
        assert(strs(v@) =~= prev.push(w@[k as int]@));
        assert(strs(w@).take(k + 1) =~= strs(w@).take(k as int).push(w@[k as int]@));
        k += 1;
    }
    assert(strs(w@).take(k as int) =~= strs(w@));
}

} // verus!
