//! Text as characters: white space, trimming, and splitting at a separator,
//! as `str::trim` and `str::split` do them.

use vstd::prelude::*;
use vstd::string::StrSliceExecFns;

verus! {

/// Whether `c` is white space in Unicode's sense, as `char::is_whitespace`
/// documents it.
pub open spec fn is_ws(c: char) -> bool {
    let n = c as u32;
    n == 0x20 || (0x09 <= n && n <= 0x0d) || n == 0x85 || n == 0xa0 || n == 0x1680 || (0x2000 <= n
        && n <= 0x200a) || n == 0x2028 || n == 0x2029 || n == 0x202f || n == 0x205f || n == 0x3000
}

pub fn is_whitespace(c: char) -> (r: bool)
    ensures
        r == is_ws(c),
{
    let n = c as u32;
    n == 0x20 || (0x09 <= n && n <= 0x0d) || n == 0x85 || n == 0xa0 || n == 0x1680 || (0x2000 <= n
        && n <= 0x200a) || n == 0x2028 || n == 0x2029 || n == 0x202f || n == 0x205f || n == 0x3000
}

/// The first position at or after `k` that holds no white space.
pub open spec fn ws_end(s: Seq<char>, k: int) -> int
    decreases s.len() - k,
{
    if k < 0 || k >= s.len() {
        s.len() as int
    } else if is_ws(s[k]) {
        ws_end(s, k + 1)
    } else {
        k
    }
}

/// The end of `s.take(e)` once white space back to position `a` is dropped.
pub open spec fn ws_start(s: Seq<char>, e: int, a: int) -> int
    decreases e - a,
{
    if e <= a || e > s.len() {
        e
    } else if is_ws(s[e - 1]) {
        ws_start(s, e - 1, a)
    } else {
        e
    }
}

/// `s` without leading and trailing white space.
pub open spec fn trim_chars(s: Seq<char>) -> Seq<char> {
    let a = ws_end(s, 0);
    s.subrange(a, ws_start(s, s.len() as int, a))
}

proof fn lemma_ws_end_bounds(s: Seq<char>, k: int)
    requires
        0 <= k <= s.len(),
    ensures
        k <= ws_end(s, k) <= s.len(),
    decreases s.len() - k,
{
    if k < s.len() {
        lemma_ws_end_bounds(s, k + 1);
    }
}

proof fn lemma_ws_start_bounds(s: Seq<char>, e: int, a: int)
    requires
        0 <= a <= e <= s.len(),
    ensures
        a <= ws_start(s, e, a) <= e,
    decreases e - a,
{
    if e > a {
        lemma_ws_start_bounds(s, e - 1, a);
    }
}

/// `s` with leading and trailing white space removed.
pub fn trim_str(s: &str) -> (r: String)
    ensures
        r@ == trim_chars(s@),
{
    let n = s.unicode_len();
    let mut a: usize = 0;
    while a < n && is_whitespace(s.get_char(a))
        invariant
            a <= n,
            n == s@.len(),
            ws_end(s@, 0) == ws_end(s@, a as int),
        decreases n - a,
    {
        a += 1;
    }
    let mut b: usize = n;
    while b > a && is_whitespace(s.get_char(b - 1))
        invariant
            a <= b <= n,
            n == s@.len(),
            a == ws_end(s@, 0),
            ws_start(s@, n as int, a as int) == ws_start(s@, b as int, a as int),
        decreases b - a,
    {
        b -= 1;
    }
    s.substring_char(a, b).to_owned()
}

/// The position of the first `c` in `s`.
pub open spec fn find_char_from(s: Seq<char>, c: char, k: int) -> Option<int>
    decreases s.len() - k,
{
    if k < 0 || k >= s.len() {
        None
    } else if s[k] == c {
        Some(k)
    } else {
        find_char_from(s, c, k + 1)
    }
}

pub proof fn lemma_find_char_bounds(s: Seq<char>, c: char, k: int)
    requires
        0 <= k,
    ensures
        find_char_from(s, c, k) matches Some(i) ==> k <= i < s.len() && s[i] == c,
    decreases s.len() - k,
{
    if k < s.len() {
        lemma_find_char_bounds(s, c, k + 1);
    }
}

pub fn find_char(s: &str, c: char) -> (r: Option<usize>)
    ensures
        match r {
            Some(i) => find_char_from(s@, c, 0) == Some(i as int),
            None => find_char_from(s@, c, 0) is None,
        },
{
    let n = s.unicode_len();
    let mut k: usize = 0;
    while k < n
        invariant
            k <= n,
            n == s@.len(),
            find_char_from(s@, c, 0) == find_char_from(s@, c, k as int),
        decreases n - k,
    {
        if s.get_char(k) == c {
            return Some(k);
        }
        k += 1;
    }
    None
}

/// The pieces of `s.take(k)` between `sep` characters; the last may be
/// partial.
pub open spec fn split_chars_upto(s: Seq<char>, sep: char, k: int) -> Seq<Seq<char>>
    decreases k,
{
    if k <= 0 {
        seq![seq![]]
    } else {
        let prev = split_chars_upto(s, sep, k - 1);
        if s[k - 1] == sep {
            prev.push(seq![])
        } else {
            prev.update(prev.len() - 1, prev.last().push(s[k - 1]))
        }
    }
}

/// The pieces of `s` between `sep` characters, as `str::split` yields them.
pub open spec fn split_chars(s: Seq<char>, sep: char) -> Seq<Seq<char>> {
    split_chars_upto(s, sep, s.len() as int)
}

/// The contents of a list of strings.
pub open spec fn views(v: Seq<String>) -> Seq<Seq<char>> {
    v.map_values(|x: String| x@)
}

pub fn split_on(s: &str, sep: char) -> (r: Vec<String>)
    ensures
        views(r@) == split_chars(s@, sep),
        r@.len() >= 1,
{
    let n = s.unicode_len();
    let mut pieces: Vec<String> = Vec::new();
    let mut start: usize = 0;
    let mut k: usize = 0;
    assert(s@.subrange(0, 0) =~= Seq::<char>::empty());
    assert(views(pieces@) =~= Seq::<Seq<char>>::empty());
    assert(views(pieces@).push(s@.subrange(0, 0)) =~= seq![Seq::<char>::empty()]);
    while k < n
        invariant
            start <= k <= n,
            n == s@.len(),
            views(pieces@).push(s@.subrange(start as int, k as int)) == split_chars_upto(
                s@,
                sep,
                k as int,
            ),
        decreases n - k,
    {
        let ghost prev = views(pieces@).push(s@.subrange(start as int, k as int));
        if s.get_char(k) == sep {
            let piece = s.substring_char(start, k).to_owned();
            let ghost pv = views(pieces@);
            pieces.push(piece);
            assert(views(pieces@) =~= pv.push(s@.subrange(start as int, k as int)));
            start = k + 1;
            assert(s@.subrange(start as int, (k + 1) as int) =~= Seq::<char>::empty());
            assert(views(pieces@).push(s@.subrange(start as int, (k + 1) as int)) =~= prev.push(seq![]));
        } else {
            assert(s@.subrange(start as int, (k + 1) as int) =~= s@.subrange(start as int, k as int).push(
                s@[k as int],
            ));
            assert(views(pieces@).push(s@.subrange(start as int, (k + 1) as int)) =~= prev.update(
                prev.len() - 1,
                prev.last().push(s@[k as int]),
            ));
        }
        k += 1;
    }
    let last = s.substring_char(start, n).to_owned();
    let ghost before = views(pieces@);
    pieces.push(last);
    assert(views(pieces@) =~= before.push(last@));
    pieces
}

} // verus!
