//! Where in a repository the artifacts of a class are looked for.

use vstd::prelude::*;
use crate::paths::{dir_prefix_of, file_name_of, is_dot_dot, join_path, joined, name_bounds};
use crate::text::{
    char_positions, chars_of, positions_of, replace_char, replaced, string_of,
};

verus! {

/// The entry of an archive that holds the class `class_name`.
pub open spec fn class_path_of(class_name: Seq<char>) -> Seq<char> {
    replace_char(class_name, '.', '/') + ".class"@
}

/// The entry of an archive that holds the class `class_name`.
pub fn class_name_to_class_path(class_name: &str) -> (r: String)
    ensures
        r@ == class_path_of(class_name@),
{
    let mut r = replaced(class_name, '.', '/');
    r.append(".class");
    r
}

/// `p` up to its last component; `None` when `p` has no component.
pub open spec fn parent_of(p: Seq<char>) -> Option<Seq<char>> {
    if file_name_of(p).len() == 0 {
        None
    } else {
        Some(dir_prefix_of(p))
    }
}

/// The version of an artifact in a repository laid out as
/// `group/artifact/version/file`: the name of the directory that holds the
/// file. A file without a named directory above it has none.
pub open spec fn maven_version(p: Seq<char>) -> Option<Seq<char>> {
    match parent_of(p) {
        None => None,
        Some(dir) => {
            let name = file_name_of(dir);
            if name.len() == 0 || name == seq!['.', '.'] {
                None
            } else {
                Some(name)
            }
        },
    }
}

/// The version of the artifact at `jar_path`, read off its directory.
pub fn extract_version_from_maven_path(jar_path: &str) -> (r: Option<String>)
    ensures
        match r {
            Some(v) => maven_version(jar_path@) == Some(v@),
            None => maven_version(jar_path@) is None,
        },
{
    let v = chars_of(jar_path);
    assert(v@.take(v.len() as int) =~= v@);
    let (a, b) = name_bounds(&v, v.len());
    if a == b {
        return None;
    }
    let (x, y) = name_bounds(&v, a);
    if x == y || is_dot_dot(&v, x, y) {
        None
    } else {
        Some(string_of(&v, x, y))
    }
}

/// The directories in which the class may live, narrowest first: for a
/// name of `n` parts, the first `n - 1` parts as a path under `m2_repo`,
/// then the first `n - 2`, down to the first two.
pub open spec fn search_candidates(m2_repo: Seq<char>, class_name: Seq<char>) -> Seq<Seq<char>> {
    let dots = positions_of(class_name, '.');
    if dots.len() < 2 {
        Seq::empty()
    } else {
        Seq::new(
            (dots.len() - 1) as nat,
            |j: int| joined(m2_repo, replace_char(class_name.take(dots[dots.len() - 1 - j]), '.', '/')),
        )
    }
}

/// The candidates that exist, in order. `exists[k]` says whether candidate
/// `k` exists; a candidate without a flag counts as missing.
pub open spec fn existing(candidates: Seq<Seq<char>>, exists: Seq<bool>, n: int) -> Seq<Seq<char>>
    decreases n,
{
    if n <= 0 {
        Seq::empty()
    } else {
        let before = existing(candidates, exists, n - 1);
        if n - 1 < exists.len() && exists[n - 1] {
            before.push(candidates[n - 1])
        } else {
            before
        }
    }
}

/// The directories to scan for a class: the candidates that exist, or the
/// whole repository when there is none.
pub open spec fn search_paths(
    m2_repo: Seq<char>,
    class_name: Seq<char>,
    exists: Seq<bool>,
) -> Seq<Seq<char>> {
    let c = search_candidates(m2_repo, class_name);
    let found = existing(c, exists, c.len() as int);
    if found.len() == 0 {
        seq![m2_repo]
    } else {
        found
    }
}

/// The directories in which the class may live, narrowest first.
pub fn search_path_candidates(m2_repo: &str, class_name: &str) -> (r: Vec<String>)
    ensures
        r.deep_view() == search_candidates(m2_repo@, class_name@),
{
    let v = chars_of(class_name);
    let dots = char_positions(&v, '.');
    let ghost marks = positions_of(class_name@, '.');
    let mut r: Vec<String> = Vec::new();
    if dots.len() < 2 {
        assert(r.deep_view() =~= Seq::<Seq<char>>::empty());
        return r;
    }
    let k = dots.len();
    let mut j: usize = 0;
    while j < k - 1
        invariant
            j <= k - 1,
            k == dots.len(),
            k >= 2,
            v@ == class_name@,
            marks == positions_of(class_name@, '.'),
            marks == dots@.map_values(|x: usize| x as int),
            forall|i: int| 0 <= i < dots.len() ==> (#[trigger] dots[i]) < v.len(),
            r.len() == j,
            forall|i: int|
                0 <= i < j ==> (#[trigger] r[i])@ == joined(
                    m2_repo@,
                    replace_char(class_name@.take(marks[k - 1 - i]), '.', '/'),
                ),
        decreases k - 1 - j,
    {
        let d = dots[k - 1 - j];
        assert(marks[k - 1 - j] == d as int);
        let prefix = string_of(&v, 0, d);
        assert(prefix@ =~= class_name@.take(d as int));
        let rel = replaced(prefix.as_str(), '.', '/');
        r.push(join_path(m2_repo, rel.as_str()));
        j = j + 1;
    }
    assert(r.deep_view() =~= search_candidates(m2_repo@, class_name@));
    r
}

/// The directories to scan for the class, narrowest first. `exists` tells
/// for each candidate of `search_path_candidates` whether it is there.
pub fn infer_search_paths(m2_repo: &str, class_name: &str, exists: &Vec<bool>) -> (r: Vec<String>)
    ensures
        r.deep_view() == search_paths(m2_repo@, class_name@, exists@),
        r.len() > 0,
{
    let candidates = search_path_candidates(m2_repo, class_name);
    let ghost c = search_candidates(m2_repo@, class_name@);
    let mut r: Vec<String> = Vec::new();
    let mut i: usize = 0;
    assert(r.deep_view() =~= existing(c, exists@, 0));
    while i < candidates.len()
        invariant
            i <= candidates.len(),
            c == candidates.deep_view(),
            r.deep_view() == existing(c, exists@, i as int),
        decreases candidates.len() - i,
    {
        if i < exists.len() && exists[i] {
            let ghost before = r.deep_view();
            r.push(candidates[i].clone());
            assert(r.deep_view() =~= before.push(c[i as int]));
        }
        i = i + 1;
    }
    if r.len() == 0 {
        r.push(m2_repo.to_owned());
        assert(r.deep_view() =~= seq![m2_repo@]);
    }
    r
}

/// The narrowest directory to scan for the class.
pub fn infer_scan_path(m2_repo: &str, class_name: &str, exists: &Vec<bool>) -> (r: String)
    ensures
        r@ == search_paths(m2_repo@, class_name@, exists@)[0],
{
    let paths = infer_search_paths(m2_repo, class_name, exists);
    paths[0].clone()
}

} // verus!
