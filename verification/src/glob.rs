//! Globs over attribute paths (`a.*.b`, `**.x`) and over file paths
//! (`pkgs/**/*.nix`).

use crate::bytes::{bytes_eq, split, split_bytes, strs};
use vstd::prelude::*;
use vstd::string::StringSliceAdditionalSpecFns;

verus! {

pub open spec fn star() -> Seq<u8> {
    seq![42u8]
}

pub open spec fn double_star() -> Seq<u8> {
    seq![42u8, 42u8]
}

/// Whether the glob `pat` matches `path`, component by component: `*`
/// matches one component, `**` any number of them, anything else itself.
pub open spec fn glob_match(pat: Seq<Seq<u8>>, path: Seq<Seq<u8>>) -> bool
    decreases pat.len() + path.len(),
{
    if pat.len() == 0 {
        path.len() == 0
    } else if pat[0] == double_star() {
        glob_match(pat.drop_first(), path) || (path.len() > 0 && glob_match(
            pat,
            path.drop_first(),
        ))
    } else if path.len() == 0 {
        false
    } else if pat[0] == star() || pat[0] == path[0] {
        glob_match(pat.drop_first(), path.drop_first())
    } else {
        false
    }
}

fn is_double_star(c: &[u8]) -> (r: bool)
    ensures
        r == (c@ == double_star()),
{
    let r = c.len() == 2 && c[0] == 42u8 && c[1] == 42u8;
    assert(r ==> c@ =~= double_star());
    r
}

fn is_star(c: &[u8]) -> (r: bool)
    ensures
        r == (c@ == star()),
{
    let r = c.len() == 1 && c[0] == 42u8;
    assert(r ==> c@ =~= star());
    r
}

fn glob_match_from(pat: &Vec<Vec<u8>>, path: &Vec<Vec<u8>>, i: usize, j: usize) -> (r: bool)
    requires
        i <= pat@.len(),
        j <= path@.len(),
    ensures
        r == glob_match(strs(pat@).skip(i as int), strs(path@).skip(j as int)),
    decreases pat@.len() - i + path@.len() - j,
{
    let ghost p = strs(pat@).skip(i as int);
    let ghost q = strs(path@).skip(j as int);
    if i == pat.len() {
        return j == path.len();
    }
    assert(p[0] == pat@[i as int]@);
    assert(p.drop_first() =~= strs(pat@).skip(i + 1));
    if is_double_star(pat[i].as_slice()) {
        if glob_match_from(pat, path, i + 1, j) {
            return true;
        }
        if j < path.len() {
            assert(q.drop_first() =~= strs(path@).skip(j + 1));
            return glob_match_from(pat, path, i, j + 1);
        }
        return false;
    }
    if j == path.len() {
        return false;
    }
    assert(q[0] == path@[j as int]@);
    assert(q.drop_first() =~= strs(path@).skip(j + 1));
    if is_star(pat[i].as_slice()) || bytes_eq(pat[i].as_slice(), path[j].as_slice()) {
        glob_match_from(pat, path, i + 1, j + 1)
    } else {
        false
    }
}

/// Whether the glob `pattern` over dot-separated attribute paths matches
/// `path`.
pub open spec fn glob_match_path_spec(pattern: Seq<u8>, path: Seq<Seq<u8>>) -> bool {
    glob_match(split(pattern, 46u8), path)
}

pub fn glob_match_path(pattern: &str, path: &Vec<Vec<u8>>) -> (r: bool)
    ensures
        r == glob_match_path_spec(pattern.spec_bytes(), strs(path@)),
{
    let pat = split_bytes(pattern.as_bytes(), 46u8);
    assert(strs(pat@).skip(0) =~= strs(pat@));
    assert(strs(path@).skip(0) =~= strs(path@));
    glob_match_from(&pat, path, 0, 0)
}

/// Whether `pat`, in which `*` matches any run of bytes, matches `text`.
pub open spec fn component_match(pat: Seq<u8>, text: Seq<u8>) -> bool
    decreases pat.len() + text.len(),
{
    if pat.len() == 0 {
        text.len() == 0
    } else if pat[0] == 42u8 {
        component_match(pat.drop_first(), text) || (text.len() > 0 && component_match(
            pat,
            text.drop_first(),
        ))
    } else {
        text.len() > 0 && text[0] == pat[0] && component_match(pat.drop_first(), text.drop_first())
    }
}

fn component_match_from(pat: &[u8], text: &[u8], i: usize, j: usize) -> (r: bool)
    requires
        i <= pat@.len(),
        j <= text@.len(),
    ensures
        r == component_match(pat@.skip(i as int), text@.skip(j as int)),
    decreases pat@.len() - i + text@.len() - j,
{
    let ghost p = pat@.skip(i as int);
    let ghost q = text@.skip(j as int);
    if i == pat.len() {
        return j == text.len();
    }
    assert(p.drop_first() =~= pat@.skip(i + 1));
    if pat[i] == 42u8 {
        if component_match_from(pat, text, i + 1, j) {
            return true;
        }
        if j < text.len() {
            assert(q.drop_first() =~= text@.skip(j + 1));
            return component_match_from(pat, text, i, j + 1);
        }
        return false;
    }
    if j < text.len() && text[j] == pat[i] {
        assert(q.drop_first() =~= text@.skip(j + 1));
        component_match_from(pat, text, i + 1, j + 1)
    } else {
        false
    }
}

/// Like [`glob_match`], but every component other than `**` matches by
/// [`component_match`].
pub open spec fn file_glob(pat: Seq<Seq<u8>>, path: Seq<Seq<u8>>) -> bool
    decreases pat.len() + path.len(),
{
    if pat.len() == 0 {
        path.len() == 0
    } else if pat[0] == double_star() {
        file_glob(pat.drop_first(), path) || (path.len() > 0 && file_glob(pat, path.drop_first()))
    } else if path.len() == 0 {
        false
    } else {
        component_match(pat[0], path[0]) && file_glob(pat.drop_first(), path.drop_first())
    }
}

fn file_glob_from(pat: &Vec<Vec<u8>>, path: &Vec<Vec<u8>>, i: usize, j: usize) -> (r: bool)
    requires
        i <= pat@.len(),
        j <= path@.len(),
    ensures
        r == file_glob(strs(pat@).skip(i as int), strs(path@).skip(j as int)),
    decreases pat@.len() - i + path@.len() - j,
{
    let ghost p = strs(pat@).skip(i as int);
    let ghost q = strs(path@).skip(j as int);
    if i == pat.len() {
        return j == path.len();
    }
    assert(p[0] == pat@[i as int]@);
    assert(p.drop_first() =~= strs(pat@).skip(i + 1));
    if is_double_star(pat[i].as_slice()) {
        if file_glob_from(pat, path, i + 1, j) {
            return true;
        }
        if j < path.len() {
            assert(q.drop_first() =~= strs(path@).skip(j + 1));
            return file_glob_from(pat, path, i, j + 1);
        }
        return false;
    }
    if j == path.len() {
        return false;
    }
    assert(q[0] == path@[j as int]@);
    assert(q.drop_first() =~= strs(path@).skip(j + 1));
    assert(pat@[i as int]@.skip(0) =~= pat@[i as int]@);
    assert(path@[j as int]@.skip(0) =~= path@[j as int]@);
    if component_match_from(pat[i].as_slice(), path[j].as_slice(), 0, 0) {
        file_glob_from(pat, path, i + 1, j + 1)
    } else {
        false
    }
}

/// The components a file pattern is matched with: a pattern starting with
/// `./` is anchored at the configuration's directory, any other may match
/// anywhere below it.
pub open spec fn file_pattern_components(pattern: Seq<u8>) -> Seq<Seq<u8>> {
    if pattern.len() >= 2 && pattern[0] == 46u8 && pattern[1] == 47u8 {
        split(pattern.skip(2), 47u8)
    } else {
        seq![double_star()] + split(pattern, 47u8)
    }
}

/// Whether the file pattern `pattern` matches the `/`-separated `path`.
pub open spec fn glob_match_file_spec(pattern: Seq<u8>, path: Seq<u8>) -> bool {
    file_glob(file_pattern_components(pattern), split(path, 47u8))
}

pub fn glob_match_file(pattern: &str, path: &str) -> (r: bool)
    ensures
        r == glob_match_file_spec(pattern.spec_bytes(), path.spec_bytes()),
{
    let pb = pattern.as_bytes();
    let pat = if pb.len() >= 2 && pb[0] == 46u8 && pb[1] == 47u8 {
        let rest = &pb[2..pb.len()];
        assert(rest@ =~= pb@.skip(2));
        let v = split_bytes(rest, 47u8);
        assert(strs(v@) == file_pattern_components(pb@));
        v
    } else {
        let mut v: Vec<Vec<u8>> = Vec::new();
        let mut ds: Vec<u8> = Vec::new();
        ds.push(42u8);
        ds.push(42u8);
        assert(ds@ =~= double_star());
        v.push(ds);
        let rest = split_bytes(pb, 47u8);
        let ghost first = strs(v@);
        let mut rest = rest;
        let ghost rs = strs(rest@);
        v.append(&mut rest);
        assert(strs(v@) =~= first + rs);
        assert(strs(v@) == file_pattern_components(pb@));
        v
    };
    let parts = split_bytes(path.as_bytes(), 47u8);
    assert(strs(pat@).skip(0) =~= strs(pat@));
    assert(strs(parts@).skip(0) =~= strs(parts@));
    file_glob_from(&pat, &parts, 0, 0)
}

/// `**` matches every attribute path, the empty one too.
pub proof fn lemma_double_star_matches_all(path: Seq<Seq<u8>>)
    ensures
        glob_match(seq![double_star()], path),
    decreases path.len(),
{
    let pat = seq![double_star()];
    assert(pat.drop_first() =~= Seq::<Seq<u8>>::empty());
    assert(pat[0] == double_star());
    if path.len() > 0 {
        lemma_double_star_matches_all(path.drop_first());
        assert(glob_match(pat, path.drop_first()));
    } else {
        assert(glob_match(pat.drop_first(), path));
    }
}

/// `*` matches exactly the paths of one component.
pub proof fn lemma_star_matches_one(path: Seq<Seq<u8>>)
    ensures
        glob_match(seq![star()], path) <==> path.len() == 1,
{
    let pat = seq![star()];
    assert(pat.drop_first() =~= Seq::<Seq<u8>>::empty());
    assert(pat[0] == star());
    assert(star() != double_star()) by {
        assert(star().len() != double_star().len());
    }
    if path.len() > 0 {
        assert(glob_match(pat, path) == glob_match(pat.drop_first(), path.drop_first()));
        assert(glob_match(pat.drop_first(), path.drop_first()) == (path.drop_first().len() == 0));
    }
}

/// A pattern without wildcards matches exactly the path it spells.
pub proof fn lemma_literal_pattern(pat: Seq<Seq<u8>>, path: Seq<Seq<u8>>)
    requires
        forall|j: int| 0 <= j < pat.len() ==> #[trigger] pat[j] != star() && pat[j] != double_star(),
    ensures
        glob_match(pat, path) <==> pat == path,
    decreases pat.len() + path.len(),
{
    if pat.len() > 0 && path.len() > 0 {
        assert(pat[0] != star() && pat[0] != double_star());
        assert forall|j: int| 0 <= j < pat.drop_first().len() implies #[trigger] pat.drop_first()[j] != star()
            && pat.drop_first()[j] != double_star() by {
            assert(pat.drop_first()[j] == pat[j + 1]);
        }
        lemma_literal_pattern(pat.drop_first(), path.drop_first());
        if pat[0] == path[0] && pat.drop_first() == path.drop_first() {
            assert forall|i: int| 0 <= i < pat.len() implies pat[i] == path[i] by {
                if i > 0 {
                    assert(pat[i] == pat.drop_first()[i - 1]);
                    assert(path[i] == path.drop_first()[i - 1]);
                }
            }
            assert(pat =~= path);
        }
        if pat == path {
            assert(pat.drop_first() =~= path.drop_first());
        }
    } else if pat.len() > 0 {
        assert(pat[0] != double_star());
    } else if path.len() == 0 {
        assert(pat =~= path);
    }
}

} // verus!
