//! Character-level text model and scanning primitives.
//!
//! Text is modelled as `Seq<char>`. The executable helpers work on a
//! `Vec<char>` together with a half-open index range, so that parsers can
//! walk one buffer without copying it.

use vstd::prelude::*;

verus! {

pub assume_specification[ String::push ](s: &mut String, c: char)
    ensures
        final(s)@ == old(s)@.push(c),
;

// ---------------------------------------------------------------------------
// Model
// ---------------------------------------------------------------------------

/// Characters with the Unicode `White_Space` property.
pub open spec fn is_space(c: char) -> bool {
    let u = c as u32;
    (0x09 <= u <= 0x0D) || u == 0x20 || u == 0x85 || u == 0xA0 || u == 0x1680 || (0x2000 <= u
        <= 0x200A) || u == 0x2028 || u == 0x2029 || u == 0x202F || u == 0x205F || u == 0x3000
}

/// Number of whitespace characters at the front of `s`.
pub open spec fn leading_spaces(s: Seq<char>) -> nat
    decreases s.len(),
{
    if s.len() > 0 && is_space(s[0]) {
        1 + leading_spaces(s.drop_first())
    } else {
        0
    }
}

/// Number of non-whitespace characters at the front of `s`.
pub open spec fn leading_non_spaces(s: Seq<char>) -> nat
    decreases s.len(),
{
    if s.len() > 0 && !is_space(s[0]) {
        1 + leading_non_spaces(s.drop_first())
    } else {
        0
    }
}

/// Number of whitespace characters at the back of `s`.
pub open spec fn trailing_spaces(s: Seq<char>) -> nat
    decreases s.len(),
{
    if s.len() > 0 && is_space(s.last()) {
        1 + trailing_spaces(s.drop_last())
    } else {
        0
    }
}

/// Number of consecutive occurrences of `c` at the back of `s`.
pub open spec fn trailing_run(s: Seq<char>, c: char) -> nat
    decreases s.len(),
{
    if s.len() > 0 && s.last() == c {
        1 + trailing_run(s.drop_last(), c)
    } else {
        0
    }
}

/// `s` without its leading whitespace.
pub open spec fn trim_start(s: Seq<char>) -> Seq<char> {
    s.skip(leading_spaces(s) as int)
}

/// `s` without its trailing whitespace.
pub open spec fn trim_end(s: Seq<char>) -> Seq<char> {
    s.take(s.len() - trailing_spaces(s))
}

/// `s` without leading and trailing whitespace.
pub open spec fn trim(s: Seq<char>) -> Seq<char> {
    trim_end(trim_start(s))
}

/// `s` without the run of `c` at its end.
pub open spec fn strip_trailing(s: Seq<char>, c: char) -> Seq<char> {
    s.take(s.len() - trailing_run(s, c))
}

/// `pat` occurs in `s` at index `i`.
pub open spec fn matches_at(s: Seq<char>, pat: Seq<char>, i: int) -> bool {
    0 <= i && i + pat.len() <= s.len() && s.subrange(i, i + pat.len()) == pat
}

/// `s` begins with `pat`.
pub open spec fn starts_with(s: Seq<char>, pat: Seq<char>) -> bool {
    matches_at(s, pat, 0)
}

/// `s` ends with `pat`.
pub open spec fn ends_with(s: Seq<char>, pat: Seq<char>) -> bool {
    matches_at(s, pat, s.len() - pat.len())
}

/// Index of the first occurrence of `pat` in `s` at or after `i`.
pub open spec fn find_from(s: Seq<char>, pat: Seq<char>, i: int) -> Option<int>
    decreases s.len() + 1 - i,
{
    if i < 0 || i + pat.len() > s.len() {
        None
    } else if matches_at(s, pat, i) {
        Some(i)
    } else {
        find_from(s, pat, i + 1)
    }
}

/// Index of the first occurrence of `pat` in `s`.
pub open spec fn find(s: Seq<char>, pat: Seq<char>) -> Option<int> {
    find_from(s, pat, 0)
}

/// Index of the first `c` in `s`, or `s.len()` when there is none.
pub open spec fn index_of(s: Seq<char>, c: char) -> nat
    decreases s.len(),
{
    if s.len() > 0 && s[0] != c {
        1 + index_of(s.drop_first(), c)
    } else {
        0
    }
}

/// `s` after removing `pat` from its front as often as it occurs there.
pub open spec fn strip_leading_all(s: Seq<char>, pat: Seq<char>) -> Seq<char>
    decreases s.len(),
{
    if pat.len() > 0 && starts_with(s, pat) {
        strip_leading_all(s.skip(pat.len() as int), pat)
    } else {
        s
    }
}

/// `s` after removing `pat` from its end as often as it occurs there.
pub open spec fn strip_trailing_all(s: Seq<char>, pat: Seq<char>) -> Seq<char>
    decreases s.len(),
{
    if pat.len() > 0 && ends_with(s, pat) {
        strip_trailing_all(s.take(s.len() - pat.len()), pat)
    } else {
        s
    }
}

/// `s` with every `from` replaced by `to`.
pub open spec fn replace_char(s: Seq<char>, from: char, to: char) -> Seq<char> {
    Seq::new(s.len(), |i: int| if s[i] == from { to } else { s[i] })
}

/// Index of the last `c` in `s`, or -1 when there is none.
pub open spec fn last_index_of(s: Seq<char>, c: char) -> int
    decreases s.len(),
{
    if s.len() == 0 {
        -1
    } else if s.last() == c {
        s.len() - 1
    } else {
        last_index_of(s.drop_last(), c)
    }
}

/// The indices of `s` that hold `c`, in rising order.
pub open spec fn positions_of(s: Seq<char>, c: char) -> Seq<int>
    decreases s.len(),
{
    if s.len() == 0 {
        Seq::empty()
    } else if s.last() == c {
        positions_of(s.drop_last(), c).push(s.len() - 1)
    } else {
        positions_of(s.drop_last(), c)
    }
}

/// `s` without its whitespace characters.
pub open spec fn without_spaces(s: Seq<char>) -> Seq<char>
    decreases s.len(),
{
    if s.len() == 0 {
        s
    } else if is_space(s.last()) {
        without_spaces(s.drop_last())
    } else {
        without_spaces(s.drop_last()).push(s.last())
    }
}

/// Strict lexicographic order by code point, the order of `str`.
pub open spec fn lex_lt(a: Seq<char>, b: Seq<char>) -> bool
    decreases a.len(),
{
    if b.len() == 0 {
        false
    } else if a.len() == 0 {
        true
    } else if a[0] != b[0] {
        (a[0] as u32) < (b[0] as u32)
    } else {
        lex_lt(a.drop_first(), b.drop_first())
    }
}

// ---------------------------------------------------------------------------
// Facts about the model
// ---------------------------------------------------------------------------

/// `index_of` is the place of the first `c`, and is the length when `s`
/// holds no `c`.
pub proof fn lemma_index_of(s: Seq<char>, c: char)
    ensures
        index_of(s, c) <= s.len(),
        index_of(s, c) < s.len() ==> s[index_of(s, c) as int] == c,
        forall|j: int| 0 <= j < index_of(s, c) ==> s[j] != c,
        (index_of(s, c) < s.len()) == s.contains(c),
    decreases s.len(),
{
    if s.len() > 0 && s[0] != c {
        let rest = s.drop_first();
        lemma_index_of(rest, c);
        let k = index_of(rest, c);
        assert forall|j: int| 0 <= j < k + 1 implies s[j] != c by {
            if j > 0 {
                assert(rest[j - 1] == s[j]);
            }
        }
        if k < rest.len() {
            assert(rest[k as int] == s[k as int + 1]);
            assert(s.contains(c));
        }
        if s.contains(c) {
            let j = s.index_of(c);
            assert(j > 0);
            assert(rest[j - 1] == c);
            assert(rest.contains(c));
        }
    } else if s.len() > 0 {
        assert(s[0] == c);
        assert(s.contains(c));
    }
}

/// Distinct characters have distinct code points.
pub proof fn lemma_code_injective(c: char, d: char)
    ensures
        (c as u32) == (d as u32) ==> c == d,
{
}

/// Nothing is smaller than itself.
pub proof fn lemma_lex_irreflexive(a: Seq<char>)
    ensures
        !lex_lt(a, a),
    decreases a.len(),
{
    if a.len() > 0 {
        lemma_lex_irreflexive(a.drop_first());
    }
}

/// Two texts are equal, or one is smaller than the other.
pub proof fn lemma_lex_total(a: Seq<char>, b: Seq<char>)
    ensures
        a == b || lex_lt(a, b) || lex_lt(b, a),
    decreases a.len(),
{
    if a.len() == 0 || b.len() == 0 {
        if a.len() == 0 && b.len() == 0 {
            assert(a =~= b);
        }
    } else if a[0] != b[0] {
        lemma_code_injective(a[0], b[0]);
    } else {
        lemma_lex_total(a.drop_first(), b.drop_first());
        if a.drop_first() == b.drop_first() {
            assert(a =~= seq![a[0]] + a.drop_first());
            assert(b =~= seq![b[0]] + b.drop_first());
        }
    }
}

/// The order has no cycle of length two.
pub proof fn lemma_lex_asymmetric(a: Seq<char>, b: Seq<char>)
    ensures
        !(lex_lt(a, b) && lex_lt(b, a)),
    decreases a.len(),
{
    if a.len() > 0 && b.len() > 0 && a[0] == b[0] {
        lemma_lex_asymmetric(a.drop_first(), b.drop_first());
    }
}

/// The order is transitive.
pub proof fn lemma_lex_transitive(a: Seq<char>, b: Seq<char>, c: Seq<char>)
    requires
        lex_lt(a, b),
        lex_lt(b, c),
    ensures
        lex_lt(a, c),
    decreases a.len(),
{
    if a.len() > 0 && b.len() > 0 && c.len() > 0 && a[0] == b[0] && b[0] == c[0] {
        lemma_lex_transitive(a.drop_first(), b.drop_first(), c.drop_first());
    }
}

// ---------------------------------------------------------------------------
// Executable primitives
// ---------------------------------------------------------------------------

/// The characters of `s`, in order.
pub fn chars_of(s: &str) -> (v: Vec<char>)
    ensures
        v@ == s@,
{
    let mut v: Vec<char> = Vec::new();
    for c in it: s.chars()
        invariant
            v@ == it.seq().take(it.index() as int),
            it.seq() == s@,
    {
        v.push(c);
    }
    v
}

/// The string made of the characters `v[from..to]`.
pub fn string_of(v: &Vec<char>, from: usize, to: usize) -> (s: String)
    requires
        from <= to <= v.len(),
    ensures
        s@ == v@.subrange(from as int, to as int),
{
    let mut s = String::new();
    let mut i: usize = from;
    while i < to
        invariant
            from <= i <= to <= v.len(),
            s@ == v@.subrange(from as int, i as int),
        decreases to - i,
    {
        s.push(v[i]);
        i = i + 1;
        assert(v@.subrange(from as int, i as int) =~= v@.subrange(from as int, i - 1).push(
            v@[i - 1],
        ));
    }
    s
}

/// The string made of all of `v`.
pub fn to_string(v: &Vec<char>) -> (s: String)
    ensures
        s@ == v@,
{
    let s = string_of(v, 0, v.len());
    assert(v@.subrange(0, v.len() as int) =~= v@);
    s
}

/// Appends `src[from..to]` to `out`.
pub fn append_range(out: &mut Vec<char>, src: &Vec<char>, from: usize, to: usize)
    requires
        from <= to <= src.len(),
    ensures
        final(out)@ == old(out)@ + src@.subrange(from as int, to as int),
{
    let mut i: usize = from;
    while i < to
        invariant
            from <= i <= to <= src.len(),
            out@ == old(out)@ + src@.subrange(from as int, i as int),
        decreases to - i,
    {
        out.push(src[i]);
        i = i + 1;
        assert(src@.subrange(from as int, i as int) =~= src@.subrange(from as int, i - 1).push(
            src@[i - 1],
        ));
        assert(out@ =~= old(out)@ + src@.subrange(from as int, i as int));
    }
    assert(out@ =~= old(out)@ + src@.subrange(from as int, to as int));
}

pub fn is_space_char(c: char) -> (b: bool)
    ensures
        b == is_space(c),
{
    let u: u32 = c as u32;
    (0x09 <= u && u <= 0x0D) || u == 0x20 || u == 0x85 || u == 0xA0 || u == 0x1680 || (0x2000
        <= u && u <= 0x200A) || u == 0x2028 || u == 0x2029 || u == 0x202F || u == 0x205F || u
        == 0x3000
}

/// First index in `from..to` that holds no whitespace, or `to`.
pub fn skip_spaces(v: &Vec<char>, from: usize, to: usize) -> (k: usize)
    requires
        from <= to <= v.len(),
    ensures
        from <= k <= to,
        k == from + leading_spaces(v@.subrange(from as int, to as int)),
{
    let mut i: usize = from;
    while i < to && is_space_char(v[i])
        invariant
            from <= i <= to <= v.len(),
            leading_spaces(v@.subrange(from as int, to as int)) == (i - from) + leading_spaces(
                v@.subrange(i as int, to as int),
            ),
        decreases to - i,
    {
        assert(v@.subrange(i as int, to as int).drop_first() =~= v@.subrange(
            i + 1,
            to as int,
        ));
        i = i + 1;
    }
    i
}

/// First index in `from..to` that holds whitespace, or `to`.
pub fn skip_non_spaces(v: &Vec<char>, from: usize, to: usize) -> (k: usize)
    requires
        from <= to <= v.len(),
    ensures
        from <= k <= to,
        k == from + leading_non_spaces(v@.subrange(from as int, to as int)),
{
    let mut i: usize = from;
    while i < to && !is_space_char(v[i])
        invariant
            from <= i <= to <= v.len(),
            leading_non_spaces(v@.subrange(from as int, to as int)) == (i - from)
                + leading_non_spaces(v@.subrange(i as int, to as int)),
        decreases to - i,
    {
        assert(v@.subrange(i as int, to as int).drop_first() =~= v@.subrange(
            i + 1,
            to as int,
        ));
        i = i + 1;
    }
    i
}

/// End of `from..to` once trailing whitespace is left out.
pub fn back_spaces(v: &Vec<char>, from: usize, to: usize) -> (k: usize)
    requires
        from <= to <= v.len(),
    ensures
        from <= k <= to,
        k == to - trailing_spaces(v@.subrange(from as int, to as int)),
{
    let mut i: usize = to;
    while i > from && is_space_char(v[i - 1])
        invariant
            from <= i <= to <= v.len(),
            trailing_spaces(v@.subrange(from as int, to as int)) == (to - i) + trailing_spaces(
                v@.subrange(from as int, i as int),
            ),
        decreases i - from,
    {
        assert(v@.subrange(from as int, i as int).drop_last() =~= v@.subrange(
            from as int,
            i - 1,
        ));
        i = i - 1;
    }
    i
}

/// End of `from..to` once the trailing run of `c` is left out.
pub fn back_run(v: &Vec<char>, from: usize, to: usize, c: char) -> (k: usize)
    requires
        from <= to <= v.len(),
    ensures
        from <= k <= to,
        k == to - trailing_run(v@.subrange(from as int, to as int), c),
        v@.subrange(from as int, k as int) == strip_trailing(
            v@.subrange(from as int, to as int),
            c,
        ),
{
    let mut i: usize = to;
    while i > from && v[i - 1] == c
        invariant
            from <= i <= to <= v.len(),
            trailing_run(v@.subrange(from as int, to as int), c) == (to - i) + trailing_run(
                v@.subrange(from as int, i as int),
                c,
            ),
        decreases i - from,
    {
        assert(v@.subrange(from as int, i as int).drop_last() =~= v@.subrange(
            from as int,
            i - 1,
        ));
        i = i - 1;
    }
    assert(v@.subrange(from as int, i as int) =~= strip_trailing(
        v@.subrange(from as int, to as int),
        c,
    ));
    i
}

/// Bounds of `from..to` without leading and trailing whitespace.
pub fn trim_range(v: &Vec<char>, from: usize, to: usize) -> (r: (usize, usize))
    requires
        from <= to <= v.len(),
    ensures
        from <= r.0 <= r.1 <= to,
        v@.subrange(r.0 as int, r.1 as int) == trim(v@.subrange(from as int, to as int)),
{
    let a = skip_spaces(v, from, to);
    let b = back_spaces(v, a, to);
    proof {
        let s = v@.subrange(from as int, to as int);
        assert(trim_start(s) =~= v@.subrange(a as int, to as int));
        assert(trim(s) =~= v@.subrange(a as int, b as int));
    }
    (a, b)
}

/// Whether `pat` occurs in `v[..to]` at index `at`.
pub fn matches_range(v: &Vec<char>, at: usize, to: usize, pat: &Vec<char>) -> (b: bool)
    requires
        at <= to <= v.len(),
    ensures
        b == (at + pat.len() <= to && v@.subrange(at as int, at + pat.len()) == pat@),
{
    if pat.len() > to - at {
        return false;
    }
    let n = pat.len();
    let mut j: usize = 0;
    while j < n
        invariant
            n == pat.len(),
            at + n <= to <= v.len(),
            0 <= j <= n,
            v@.subrange(at as int, at + j) == pat@.subrange(0, j as int),
        decreases n - j,
    {
        if v[at + j] != pat[j] {
            assert(v@.subrange(at as int, at + n)[j as int] != pat@[j as int]);
            return false;
        }
        j = j + 1;
        assert(v@.subrange(at as int, at + j) =~= v@.subrange(at as int, at + j - 1).push(
            v@[at + j - 1],
        ));
        assert(pat@.subrange(0, j as int) =~= pat@.subrange(0, j - 1).push(pat@[j - 1]));
    }
    assert(pat@.subrange(0, n as int) =~= pat@);
    true
}

/// First index at or after `from` where `pat` occurs inside `v[from..to]`.
pub fn find_range(v: &Vec<char>, from: usize, to: usize, pat: &Vec<char>) -> (r: Option<usize>)
    requires
        from <= to <= v.len(),
    ensures
        match r {
            Some(k) => from <= k && k + pat.len() <= to && find(
                v@.subrange(from as int, to as int),
                pat@,
            ) == Some(k - from),
            None => find(v@.subrange(from as int, to as int), pat@) is None,
        },
{
    let ghost s = v@.subrange(from as int, to as int);
    let n = pat.len();
    if n == 0 {
        assert(s.subrange(0, 0) =~= pat@);
        return Some(from);
    }
    let mut i: usize = from;
    while i < to && n <= to - i
        invariant
            from <= i <= to <= v.len(),
            n == pat.len(),
            n > 0,
            s == v@.subrange(from as int, to as int),
            find(s, pat@) == find_from(s, pat@, i - from),
        decreases to - i,
    {
        assert(s.subrange(i - from, i - from + n) =~= v@.subrange(i as int, i + n));
        if matches_range(v, i, to, pat) {
            return Some(i);
        }
        i = i + 1;
    }
    None
}

/// Start of `from..to` once every leading repetition of `pat` is left out.
pub fn skip_prefix_all(v: &Vec<char>, from: usize, to: usize, pat: &Vec<char>) -> (k: usize)
    requires
        from <= to <= v.len(),
    ensures
        from <= k <= to,
        v@.subrange(k as int, to as int) == strip_leading_all(
            v@.subrange(from as int, to as int),
            pat@,
        ),
{
    let n = pat.len();
    if n == 0 {
        return from;
    }
    let mut i: usize = from;
    while matches_range(v, i, to, pat)
        invariant
            from <= i <= to <= v.len(),
            n == pat.len(),
            n > 0,
            strip_leading_all(v@.subrange(from as int, to as int), pat@) == strip_leading_all(
                v@.subrange(i as int, to as int),
                pat@,
            ),
        decreases to - i,
    {
        proof {
            let s = v@.subrange(i as int, to as int);
            assert(s.subrange(0, n as int) =~= v@.subrange(i as int, i + n));
            assert(s.skip(n as int) =~= v@.subrange(i + n, to as int));
        }
        i = i + n;
    }
    proof {
        let s = v@.subrange(i as int, to as int);
        if i + n <= to {
            assert(s.subrange(0, n as int) =~= v@.subrange(i as int, i + n));
        }
    }
    i
}

/// Whether `v[from..to]` ends with `pat`.
pub fn ends_with_range(v: &Vec<char>, from: usize, to: usize, pat: &Vec<char>) -> (b: bool)
    requires
        from <= to <= v.len(),
    ensures
        b == ends_with(v@.subrange(from as int, to as int), pat@),
{
    let n = pat.len();
    if n > to - from {
        return false;
    }
    let b = matches_range(v, to - n, to, pat);
    proof {
        let s = v@.subrange(from as int, to as int);
        assert(s.subrange(s.len() - n, s.len() - n + n) =~= v@.subrange(to - n, to - n + n));
    }
    b
}

/// Whether `v[from..to]` begins with `pat`.
pub fn starts_with_range(v: &Vec<char>, from: usize, to: usize, pat: &Vec<char>) -> (b: bool)
    requires
        from <= to <= v.len(),
    ensures
        b == starts_with(v@.subrange(from as int, to as int), pat@),
{
    let b = matches_range(v, from, to, pat);
    proof {
        let s = v@.subrange(from as int, to as int);
        if from + pat.len() <= to {
            assert(s.subrange(0, pat.len() as int) =~= v@.subrange(from as int, from + pat.len()));
        }
    }
    b
}

/// First index in `from..to` that holds `c`, or `to`.
pub fn find_char(v: &Vec<char>, from: usize, to: usize, c: char) -> (k: usize)
    requires
        from <= to <= v.len(),
    ensures
        from <= k <= to,
        k == from + index_of(v@.subrange(from as int, to as int), c),
{
    let mut i: usize = from;
    while i < to && v[i] != c
        invariant
            from <= i <= to <= v.len(),
            index_of(v@.subrange(from as int, to as int), c) == (i - from) + index_of(
                v@.subrange(i as int, to as int),
                c,
            ),
        decreases to - i,
    {
        assert(v@.subrange(i as int, to as int).drop_first() =~= v@.subrange(
            i + 1,
            to as int,
        ));
        i = i + 1;
    }
    i
}

/// Whether the two texts hold the same characters.
pub fn same_text(a: &Vec<char>, b: &Vec<char>) -> (r: bool)
    ensures
        r == (a@ == b@),
{
    if a.len() != b.len() {
        return false;
    }
    let r = matches_range(a, 0, a.len(), b);
    proof {
        assert(a@.subrange(0, a.len() as int) =~= a@);
    }
    r
}

/// Whether `a` comes strictly before `b`.
pub fn lex_less(a: &Vec<char>, b: &Vec<char>) -> (r: bool)
    ensures
        r == lex_lt(a@, b@),
{
    let mut i: usize = 0;
    assert(a@.skip(0) =~= a@ && b@.skip(0) =~= b@);
    while i < a.len() && i < b.len() && a[i] == b[i]
        invariant
            i <= a.len(),
            i <= b.len(),
            lex_lt(a@, b@) == lex_lt(a@.skip(i as int), b@.skip(i as int)),
        decreases a.len() - i,
    {
        assert(a@.skip(i as int).drop_first() =~= a@.skip(i + 1));
        assert(b@.skip(i as int).drop_first() =~= b@.skip(i + 1));
        i = i + 1;
    }
    if i >= b.len() {
        false
    } else if i >= a.len() {
        true
    } else {
        (a[i] as u32) < (b[i] as u32)
    }
}

/// Whether `s` holds the character `c`.
pub fn has_char(s: &str, c: char) -> (b: bool)
    ensures
        b == s@.contains(c),
{
    let v = chars_of(s);
    let k = find_char(&v, 0, v.len(), c);
    proof {
        assert(v@.subrange(0, v.len() as int) =~= v@);
        lemma_index_of(v@, c);
    }
    k < v.len()
}

/// Whether `s` ends with `pat`.
pub fn str_ends_with(s: &str, pat: &str) -> (b: bool)
    ensures
        b == ends_with(s@, pat@),
{
    let v = chars_of(s);
    let p = chars_of(pat);
    proof {
        assert(v@.subrange(0, v.len() as int) =~= v@);
    }
    ends_with_range(&v, 0, v.len(), &p)
}

/// Whether `s` begins with `pat`.
pub fn str_starts_with(s: &str, pat: &str) -> (b: bool)
    ensures
        b == starts_with(s@, pat@),
{
    let v = chars_of(s);
    let p = chars_of(pat);
    proof {
        assert(v@.subrange(0, v.len() as int) =~= v@);
    }
    starts_with_range(&v, 0, v.len(), &p)
}

/// The three texts one after another.
pub fn concat3(a: &str, b: &str, c: &str) -> (r: String)
    ensures
        r@ == a@ + b@ + c@,
{
    let mut r = a.to_owned();
    r.append(b);
    r.append(c);
    r
}

/// `s` with every `from` replaced by `to`.
pub fn replaced(s: &str, from: char, to: char) -> (r: String)
    ensures
        r@ == replace_char(s@, from, to),
{
    let v = chars_of(s);
    let mut r = String::new();
    let mut i: usize = 0;
    while i < v.len()
        invariant
            i <= v.len(),
            v@ == s@,
            r@ == replace_char(s@, from, to).take(i as int),
        decreases v.len() - i,
    {
        let c = if v[i] == from {
            to
        } else {
            v[i]
        };
        r.push(c);
        i = i + 1;
        assert(replace_char(s@, from, to).take(i as int) =~= replace_char(s@, from, to).take(
            i - 1,
        ).push(c));
    }
    assert(replace_char(s@, from, to).take(v.len() as int) =~= replace_char(s@, from, to));
    r
}

/// Index of the last `c` in `v[..to]`.
pub fn rfind_char(v: &Vec<char>, to: usize, c: char) -> (r: Option<usize>)
    requires
        to <= v.len(),
    ensures
        match r {
            Some(k) => k < to && k == last_index_of(v@.take(to as int), c) && v[k as int] == c,
            None => last_index_of(v@.take(to as int), c) == -1,
        },
{
    let mut i: usize = to;
    while i > 0
        invariant
            i <= to <= v.len(),
            last_index_of(v@.take(to as int), c) == last_index_of(v@.take(i as int), c),
        decreases i,
    {
        let ghost cur = v@.take(i as int);
        assert(cur.last() == v@[i - 1]);
        assert(cur.drop_last() =~= v@.take(i - 1));
        if v[i - 1] == c {
            return Some(i - 1);
        }
        i = i - 1;
    }
    None
}

/// The indices of `v` that hold `c`, in rising order.
pub fn char_positions(v: &Vec<char>, c: char) -> (r: Vec<usize>)
    ensures
        r@.map_values(|x: usize| x as int) == positions_of(v@, c),
        forall|j: int| 0 <= j < r.len() ==> (#[trigger] r[j]) < v.len(),
{
    let mut r: Vec<usize> = Vec::new();
    let mut i: usize = 0;
    assert(v@.take(0) =~= Seq::<char>::empty());
    assert(r@.map_values(|x: usize| x as int) =~= positions_of(v@.take(0), c));
    while i < v.len()
        invariant
            i <= v.len(),
            r@.map_values(|x: usize| x as int) == positions_of(v@.take(i as int), c),
            forall|j: int| 0 <= j < r.len() ==> (#[trigger] r[j]) < i,
        decreases v.len() - i,
    {
        let ghost next = v@.take(i + 1);
        let ghost before = r@.map_values(|x: usize| x as int);
        assert(next.last() == v@[i as int]);
        assert(next.drop_last() =~= v@.take(i as int));
        if v[i] == c {
            r.push(i);
            assert(r@.map_values(|x: usize| x as int) =~= before.push(i as int));
        }
        i = i + 1;
    }
    assert(v@.take(v.len() as int) =~= v@);
    r
}

/// `v[from..to]` without its whitespace characters, appended to `out`.
pub fn append_without_spaces(out: &mut Vec<char>, v: &Vec<char>, from: usize, to: usize)
    requires
        from <= to <= v.len(),
    ensures
        final(out)@ == old(out)@ + without_spaces(v@.subrange(from as int, to as int)),
{
    let mut i: usize = from;
    assert(v@.subrange(from as int, from as int) =~= Seq::<char>::empty());
    assert(out@ =~= old(out)@ + Seq::<char>::empty());
    while i < to
        invariant
            from <= i <= to <= v.len(),
            out@ == old(out)@ + without_spaces(v@.subrange(from as int, i as int)),
        decreases to - i,
    {
        let ghost next = v@.subrange(from as int, i + 1);
        assert(next.last() == v@[i as int]);
        assert(next.drop_last() =~= v@.subrange(from as int, i as int));
        if !is_space_char(v[i]) {
            out.push(v[i]);
            assert(out@ =~= old(out)@ + without_spaces(next));
        }
        i = i + 1;
    }
}

/// End of `from..to` once every repetition of `pat` at its end is left out.
pub fn skip_suffix_all(v: &Vec<char>, from: usize, to: usize, pat: &Vec<char>) -> (k: usize)
    requires
        from <= to <= v.len(),
    ensures
        from <= k <= to,
        v@.subrange(from as int, k as int) == strip_trailing_all(
            v@.subrange(from as int, to as int),
            pat@,
        ),
{
    let n = pat.len();
    if n == 0 {
        return to;
    }
    let mut i: usize = to;
    while ends_with_range(v, from, i, pat)
        invariant
            from <= i <= to <= v.len(),
            n == pat.len(),
            n > 0,
            strip_trailing_all(v@.subrange(from as int, to as int), pat@) == strip_trailing_all(
                v@.subrange(from as int, i as int),
                pat@,
            ),
        decreases i - from,
    {
        proof {
            let s = v@.subrange(from as int, i as int);
            assert(s.take(s.len() - n) =~= v@.subrange(from as int, i - n));
        }
        i = i - n;
    }
    i
}

} // verus!
