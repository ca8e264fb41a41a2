//! Paths as text: components are separated by `/`.

use vstd::prelude::*;
use crate::text::{append_range, chars_of, last_index_of, rfind_char, same_text, to_string};

verus! {

/// `rel` seen from `base`: `rel` itself when it starts at the root or
/// `base` is empty, else the two with one `/` between them.
pub open spec fn joined(base: Seq<char>, rel: Seq<char>) -> Seq<char> {
    if rel.len() > 0 && rel[0] == '/' {
        rel
    } else if base.len() == 0 {
        rel
    } else if base.last() == '/' {
        base + rel
    } else {
        base + seq!['/'] + rel
    }
}

/// Length of `p` without what stands at its end and names nothing: slashes
/// and `.` components.
pub open spec fn path_end(p: Seq<char>) -> nat
    decreases p.len(),
{
    if p.len() == 0 {
        0
    } else if p.last() == '/' {
        path_end(p.drop_last())
    } else if p.last() == '.' && (p.len() == 1 || p[p.len() - 2] == '/') {
        path_end(p.drop_last())
    } else {
        p.len()
    }
}

/// The last component of `p`; slashes and `.` components at the end of `p`
/// do not count.
pub open spec fn file_name_of(p: Seq<char>) -> Seq<char> {
    let q = p.take(path_end(p) as int);
    q.skip(last_index_of(q, '/') + 1)
}

/// `p` up to and with the `/` before its last component.
pub open spec fn dir_prefix_of(p: Seq<char>) -> Seq<char> {
    let q = p.take(path_end(p) as int);
    q.take(last_index_of(q, '/') + 1)
}

/// `name` without its extension. A dot at the very front starts no
/// extension.
pub open spec fn stem_of(name: Seq<char>) -> Seq<char> {
    let i = last_index_of(name, '.');
    if i <= 0 {
        name
    } else {
        name.take(i)
    }
}

/// `last_index_of` stays inside the text.
pub proof fn lemma_last_index_of(s: Seq<char>, c: char)
    ensures
        -1 <= last_index_of(s, c) < s.len(),
        last_index_of(s, c) >= 0 ==> s[last_index_of(s, c)] == c,
    decreases s.len(),
{
    if s.len() > 0 && s.last() != c {
        lemma_last_index_of(s.drop_last(), c);
    }
}

/// Bounds of the last component of `v[..to]`: the start of its name and,
/// once slashes at the end are left out, its end.
pub fn name_bounds(v: &Vec<char>, to: usize) -> (r: (usize, usize))
    requires
        to <= v.len(),
    ensures
        r.0 <= r.1 <= to,
        v@.subrange(r.0 as int, r.1 as int) == file_name_of(v@.take(to as int)),
        v@.take(r.0 as int) == dir_prefix_of(v@.take(to as int)),
{
    let ghost p = v@.take(to as int);
    let mut end: usize = to;
    while end > 0 && (v[end - 1] == '/' || (v[end - 1] == '.' && (end == 1 || v[end - 2] == '/')))
        invariant
            end <= to <= v.len(),
            p == v@.take(to as int),
            path_end(p) == path_end(v@.take(end as int)),
        decreases end,
    {
        proof {
            let cur = v@.take(end as int);
            assert(cur.last() == v@[end - 1]);
            if end >= 2 {
                assert(cur[cur.len() - 2] == v@[end - 2]);
            }
            assert(cur.drop_last() =~= v@.take(end - 1));
        }
        end = end - 1;
    }
    let ghost q = v@.take(end as int);
    proof {
        if end > 0 {
            assert(q.last() == v@[end - 1]);
            if end >= 2 {
                assert(q[q.len() - 2] == v@[end - 2]);
            }
        }
        assert(path_end(p) == end);
        assert(p.take(end as int) =~= q);
        lemma_last_index_of(q, '/');
    }
    let start = match rfind_char(v, end, '/') {
        Some(i) => i + 1,
        None => 0,
    };
    proof {
        assert(q.skip(start as int) =~= v@.subrange(start as int, end as int));
        assert(q.take(start as int) =~= v@.take(start as int));
    }
    (start, end)
}

/// `rel` seen from `base`.
pub fn join_path(base: &str, rel: &str) -> (r: String)
    ensures
        r@ == joined(base@, rel@),
{
    let b = chars_of(base);
    let t = chars_of(rel);
    if t.len() > 0 && t[0] == '/' {
        return to_string(&t);
    }
    if b.len() == 0 {
        return to_string(&t);
    }
    let mut out: Vec<char> = Vec::new();
    append_range(&mut out, &b, 0, b.len());
    if b[b.len() - 1] != '/' {
        out.push('/');
    }
    append_range(&mut out, &t, 0, t.len());
    proof {
        assert(b@.subrange(0, b.len() as int) =~= b@);
        assert(t@.subrange(0, t.len() as int) =~= t@);
        assert(out@ =~= joined(base@, rel@));
    }
    to_string(&out)
}

/// The last component of `path`.
pub fn file_name(path: &str) -> (r: String)
    ensures
        r@ == file_name_of(path@),
{
    let v = chars_of(path);
    assert(v@.take(v.len() as int) =~= v@);
    let (a, b) = name_bounds(&v, v.len());
    crate::text::string_of(&v, a, b)
}

/// Whether `v[a..b]` is the text `..`.
pub fn is_dot_dot(v: &Vec<char>, a: usize, b: usize) -> (r: bool)
    requires
        a <= b <= v.len(),
    ensures
        r == (v@.subrange(a as int, b as int) == seq!['.', '.']),
{
    if b - a != 2 {
        assert(seq!['.', '.'].len() == 2);
        return false;
    }
    let r = v[a] == '.' && v[a + 1] == '.';
    proof {
        let s = v@.subrange(a as int, b as int);
        if r {
            assert(s =~= seq!['.', '.']);
        } else {
            assert(s[0] == v@[a as int] && s[1] == v@[a + 1]);
            assert(seq!['.', '.'][0] == '.' && seq!['.', '.'][1] == '.');
        }
    }
    r
}

/// Whether the two texts are equal.
pub fn same_str(a: &str, b: &str) -> (r: bool)
    ensures
        r == (a@ == b@),
{
    let x = chars_of(a);
    let y = chars_of(b);
    same_text(&x, &y)
}

} // verus!
