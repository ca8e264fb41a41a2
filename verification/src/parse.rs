//! Splitting a decompiler dump into per-class records.
//!
//! A dump is a run of sections, each opened by the decompiler's banner
//! comment. Every section that declares a type becomes one record, named by
//! its package and the first type it declares.

use vstd::prelude::*;
use vstd::utf8::encode_utf8;
use crate::text::{
    append_range, back_run, chars_of, find, find_char, find_range, index_of, leading_non_spaces,
    matches_at, matches_range, skip_non_spaces, skip_prefix_all, skip_spaces, starts_with,
    starts_with_range, string_of, strip_leading_all, strip_trailing, to_string, trim, trim_range,
    trim_start,
};

verus! {

/// One decompiled class: its fully-qualified name, its source text and the
/// SHA-256 of that text in lowercase hex.
#[derive(Debug, Clone)]
pub struct ParsedClass {
    pub class_name: String,
    pub content: String,
    pub content_hash: String,
}

// ---------------------------------------------------------------------------
// Digest
// ---------------------------------------------------------------------------

/// The SHA-256 digest of `data`.
pub uninterp spec fn sha256(data: Seq<u8>) -> Seq<u8>;

/// The lowercase hexadecimal digit for `n` in `0..16`.
pub open spec fn hex_digit(n: int) -> char {
    if n < 10 {
        (0x30 + n) as char
    } else {
        (0x61 + n - 10) as char
    }
}

/// Two lowercase hexadecimal digits per byte, high nibble first.
pub open spec fn hex_lower(bytes: Seq<u8>) -> Seq<char> {
    Seq::new(
        2 * bytes.len(),
        |i: int|
            if i % 2 == 0 {
                hex_digit(bytes[i / 2] as int / 16)
            } else {
                hex_digit(bytes[i / 2] as int % 16)
            },
    )
}

/// The hash recorded for a text: hex of the SHA-256 of its UTF-8 bytes.
pub open spec fn content_digest(text: Seq<char>) -> Seq<char> {
    hex_lower(sha256(encode_utf8(text)))
}

/// Calls `sha2::Sha256::digest`: the result is the SHA-256 digest of `data`,
/// which is 32 bytes long.
#[verifier::external_body]
fn sha256_digest(data: &[u8]) -> (r: Vec<u8>)
    ensures
        r@ == sha256(data@),
        r@.len() == 32,
{
    <sha2::Sha256 as sha2::Digest>::digest(data).to_vec()
}

/// Calls `hex::encode`: each byte becomes two lowercase hexadecimal digits,
/// high nibble first.
#[verifier::external_body]
fn hex_encode(data: &[u8]) -> (r: String)
    ensures
        r@ == hex_lower(data@),
{
    hex::encode(data)
}

/// SHA-256 of the UTF-8 bytes of `content`, in lowercase hex.
pub fn hash_content(content: &str) -> (r: String)
    ensures
        r@ == content_digest(content@),
        r@.len() == 64,
{
    let digest = sha256_digest(content.as_bytes());
    hex_encode(digest.as_slice())
}

// ---------------------------------------------------------------------------
// Model of the grammar
// ---------------------------------------------------------------------------

/// The banner that opens each section of a dump.
pub open spec fn banner() -> Seq<char> {
    "/*\n * Decompiled with CFR"@
}

/// The prefix of a package declaration.
pub open spec fn package_word() -> Seq<char> {
    "package "@
}

/// The words that introduce a type declaration, in the order they are tried.
pub open spec fn keyword(k: int) -> Seq<char> {
    if k == 0 {
        "class "@
    } else if k == 1 {
        "interface "@
    } else if k == 2 {
        "enum "@
    } else if k == 3 {
        "record "@
    } else {
        "@interface "@
    }
}

/// `s` with every `\r\n` turned into `\n`.
pub open spec fn normalize_newlines(s: Seq<char>) -> Seq<char>
    decreases s.len(),
{
    if s.len() == 0 {
        s
    } else if s.len() >= 2 && s[0] == '\r' && s[1] == '\n' {
        seq!['\n'] + normalize_newlines(s.skip(2))
    } else {
        seq![s[0]] + normalize_newlines(s.skip(1))
    }
}

/// Start indices of the non-overlapping occurrences of `pat` in `s` at or
/// after `i`, leftmost first.
pub open spec fn occurrences_from(s: Seq<char>, pat: Seq<char>, i: int) -> Seq<int>
    decreases s.len() + 1 - i,
{
    if i < 0 || pat.len() == 0 || i + pat.len() > s.len() {
        Seq::empty()
    } else if matches_at(s, pat, i) {
        seq![i] + occurrences_from(s, pat, i + pat.len())
    } else {
        occurrences_from(s, pat, i + 1)
    }
}

/// The first whitespace-delimited word of `s`, empty when there is none.
pub open spec fn first_token(s: Seq<char>) -> Seq<char> {
    let t = trim_start(s);
    t.take(leading_non_spaces(t) as int)
}

/// The part of `s` before the first `c`.
pub open spec fn before(s: Seq<char>, c: char) -> Seq<char> {
    s.take(index_of(s, c) as int)
}

/// The package that a trimmed line declares.
pub open spec fn package_in_line(line: Seq<char>) -> Option<Seq<char>> {
    if starts_with(line, package_word()) {
        let p = trim(strip_trailing(strip_leading_all(line, package_word()), ';'));
        if p.len() > 0 {
            Some(p)
        } else {
            None
        }
    } else {
        None
    }
}

/// The type name that a line declares, trying the keywords from `k` on.
/// A keyword with nothing after it ends the search.
pub open spec fn type_in_line_from(line: Seq<char>, k: int) -> Option<Seq<char>>
    decreases 5 - k,
{
    if k < 0 || k >= 5 {
        None
    } else {
        match find(line, keyword(k)) {
            None => type_in_line_from(line, k + 1),
            Some(pos) => {
                let tok = first_token(line.skip(pos + keyword(k).len()));
                if tok.len() == 0 {
                    None
                } else {
                    let name = before(strip_trailing(tok, '{'), '<');
                    if name.len() > 0 {
                        Some(name)
                    } else {
                        type_in_line_from(line, k + 1)
                    }
                }
            },
        }
    }
}

/// The type name that a line declares.
pub open spec fn type_in_line(line: Seq<char>) -> Option<Seq<char>> {
    type_in_line_from(line, 0)
}

/// The package declared by the first line of `s` that declares one.
pub open spec fn first_package(s: Seq<char>) -> Option<Seq<char>>
    decreases s.len(),
{
    let e = index_of(s, '\n');
    match package_in_line(trim(s.take(e as int))) {
        Some(p) => Some(p),
        None => if e >= s.len() {
            None
        } else {
            first_package(s.skip(e as int + 1))
        },
    }
}

/// The type declared by the first line of `s` that declares one.
pub open spec fn first_type(s: Seq<char>) -> Option<Seq<char>>
    decreases s.len(),
{
    let e = index_of(s, '\n');
    match type_in_line(trim(s.take(e as int))) {
        Some(t) => Some(t),
        None => if e >= s.len() {
            None
        } else {
            first_type(s.skip(e as int + 1))
        },
    }
}

/// The fully-qualified name of the class that `s` declares: its first type
/// name, prefixed by its first package when it has one.
pub open spec fn class_name_of(s: Seq<char>) -> Option<Seq<char>> {
    match first_type(s) {
        None => None,
        Some(t) => Some(
            match first_package(s) {
                Some(p) => p + seq!['.'] + t,
                None => t,
            },
        ),
    }
}

/// The trimmed text of section `idx`: from its banner to the next one.
pub open spec fn section(s: Seq<char>, starts: Seq<int>, idx: int) -> Seq<char> {
    let end = if idx + 1 < starts.len() {
        starts[idx + 1]
    } else {
        s.len() as int
    };
    trim(s.subrange(starts[idx], end))
}

/// The records (name, text) of the first `n` sections.
pub open spec fn records_upto(s: Seq<char>, starts: Seq<int>, n: int) -> Seq<
    (Seq<char>, Seq<char>),
>
    decreases n,
{
    if n <= 0 {
        Seq::empty()
    } else {
        let prev = records_upto(s, starts, n - 1);
        let text = section(s, starts, n - 1);
        match class_name_of(text) {
            Some(name) => if text.len() > 0 {
                prev.push((name, text))
            } else {
                prev
            },
            None => prev,
        }
    }
}

/// The records (name, text) that a dump holds. Without any banner the whole
/// text is one section.
pub open spec fn records_of(content: Seq<char>) -> Seq<(Seq<char>, Seq<char>)> {
    let text = normalize_newlines(content);
    let starts = occurrences_from(text, banner(), 0);
    if starts.len() == 0 {
        match class_name_of(text) {
            Some(name) => seq![(name, text)],
            None => Seq::empty(),
        }
    } else {
        records_upto(text, starts, starts.len() as int)
    }
}

impl ParsedClass {
    /// This record holds `name` and `text`, with the digest of `text`.
    pub open spec fn holds(self, name: Seq<char>, text: Seq<char>) -> bool {
        &&& self.class_name@ == name
        &&& self.content@ == text
        &&& self.content_hash@ == content_digest(text)
    }
}

// ---------------------------------------------------------------------------
// Parsing
// ---------------------------------------------------------------------------

fn keyword_chars(k: usize) -> (r: Vec<char>)
    requires
        k < 5,
    ensures
        r@ == keyword(k as int),
{
    if k == 0 {
        chars_of("class ")
    } else if k == 1 {
        chars_of("interface ")
    } else if k == 2 {
        chars_of("enum ")
    } else if k == 3 {
        chars_of("record ")
    } else {
        chars_of("@interface ")
    }
}

/// Bounds of the package that the trimmed line `v[a..b]` declares.
fn package_in(v: &Vec<char>, a: usize, b: usize) -> (r: Option<(usize, usize)>)
    requires
        a <= b <= v.len(),
    ensures
        match r {
            Some((x, y)) => a <= x <= y <= b && package_in_line(v@.subrange(a as int, b as int))
                == Some(v@.subrange(x as int, y as int)),
            None => package_in_line(v@.subrange(a as int, b as int)) is None,
        },
{
    let word = chars_of("package ");
    if !starts_with_range(v, a, b, &word) {
        return None;
    }
    let x0 = skip_prefix_all(v, a, b, &word);
    let y0 = back_run(v, x0, b, ';');
    let (x, y) = trim_range(v, x0, y0);
    if x < y {
        Some((x, y))
    } else {
        None
    }
}

/// Bounds of the type name that the line `v[a..b]` declares.
fn type_in(v: &Vec<char>, a: usize, b: usize) -> (r: Option<(usize, usize)>)
    requires
        a <= b <= v.len(),
    ensures
        match r {
            Some((x, y)) => a <= x <= y <= b && type_in_line(v@.subrange(a as int, b as int))
                == Some(v@.subrange(x as int, y as int)),
            None => type_in_line(v@.subrange(a as int, b as int)) is None,
        },
{
    let ghost line = v@.subrange(a as int, b as int);
    let mut k: usize = 0;
    while k < 5
        invariant
            k <= 5,
            a <= b <= v.len(),
            line == v@.subrange(a as int, b as int),
            type_in_line(line) == type_in_line_from(line, k as int),
        decreases 5 - k,
    {
        let kw = keyword_chars(k);
        match find_range(v, a, b, &kw) {
            None => {},
            Some(pos) => {
                let after = pos + kw.len();
                let t0 = skip_spaces(v, after, b);
                let t1 = skip_non_spaces(v, t0, b);
                proof {
                    let rest = line.skip(pos - a + kw.len());
                    assert(rest =~= v@.subrange(after as int, b as int));
                    assert(trim_start(rest) =~= v@.subrange(t0 as int, b as int));
                    assert(first_token(rest) =~= v@.subrange(t0 as int, t1 as int));
                }
                if t0 == t1 {
                    return None;
                }
                let t2 = back_run(v, t0, t1, '{');
                let t3 = find_char(v, t0, t2, '<');
                proof {
                    let stripped = v@.subrange(t0 as int, t2 as int);
                    assert(before(stripped, '<') =~= v@.subrange(t0 as int, t3 as int));
                }
                if t0 < t3 {
                    return Some((t0, t3));
                }
            },
        }
        k = k + 1;
    }
    None
}

/// The fully-qualified class name declared in `v[from..to]`.
fn class_name_in(v: &Vec<char>, from: usize, to: usize) -> (r: Option<Vec<char>>)
    requires
        from <= to <= v.len(),
    ensures
        match r {
            Some(name) => class_name_of(v@.subrange(from as int, to as int)) == Some(name@),
            None => class_name_of(v@.subrange(from as int, to as int)) is None,
        },
{
    let ghost s = v@.subrange(from as int, to as int);
    let mut package: Option<(usize, usize)> = None;
    let mut type_found: Option<(usize, usize)> = None;
    let mut pos: usize = from;
    let mut more = true;
    while more && !(package.is_some() && type_found.is_some())
        invariant
            from <= pos <= to <= v.len(),
            s == v@.subrange(from as int, to as int),
            match package {
                Some((x, y)) => x <= y <= v.len() && first_package(s) == Some(
                    v@.subrange(x as int, y as int),
                ),
                None => first_package(s) == if more {
                    first_package(v@.subrange(pos as int, to as int))
                } else {
                    None
                },
            },
            match type_found {
                Some((x, y)) => x <= y <= v.len() && first_type(s) == Some(
                    v@.subrange(x as int, y as int),
                ),
                None => first_type(s) == if more {
                    first_type(v@.subrange(pos as int, to as int))
                } else {
                    None
                },
            },
        decreases (to - pos) + (if more { 1int } else { 0int }),
    {
        let e = find_char(v, pos, to, '\n');
        let (a, b) = trim_range(v, pos, e);
        proof {
            let rest = v@.subrange(pos as int, to as int);
            assert(rest.take(e - pos) =~= v@.subrange(pos as int, e as int));
            if e < to {
                assert(rest.skip(e - pos + 1) =~= v@.subrange(e + 1, to as int));
            }
        }
        if package.is_none() {
            package = package_in(v, a, b);
        }
        if type_found.is_none() {
            type_found = type_in(v, a, b);
        }
        if e >= to {
            more = false;
        } else {
            pos = e + 1;
        }
    }
    match type_found {
        None => None,
        Some((tx, ty)) => {
            let mut name: Vec<char> = Vec::new();
            match package {
                Some((px, py)) => {
                    append_range(&mut name, v, px, py);
                    name.push('.');
                    append_range(&mut name, v, tx, ty);
                    assert(name@ =~= v@.subrange(px as int, py as int) + seq!['.'] + v@.subrange(
                        tx as int,
                        ty as int,
                    ));
                },
                None => {
                    append_range(&mut name, v, tx, ty);
                    assert(name@ =~= v@.subrange(tx as int, ty as int));
                },
            }
            Some(name)
        },
    }
}

/// A copy of `src` with every `\r\n` turned into `\n`.
fn normalized(src: &Vec<char>) -> (out: Vec<char>)
    ensures
        out@ == normalize_newlines(src@),
{
    let mut out: Vec<char> = Vec::new();
    let mut i: usize = 0;
    assert(src@.skip(0) =~= src@);
    while i < src.len()
        invariant
            i <= src.len(),
            normalize_newlines(src@) == out@ + normalize_newlines(src@.skip(i as int)),
        decreases src.len() - i,
    {
        let ghost rest = src@.skip(i as int);
        if src[i] == '\r' && i + 1 < src.len() && src[i + 1] == '\n' {
            out.push('\n');
            assert(rest.skip(2) =~= src@.skip(i + 2));
            i = i + 2;
        } else {
            out.push(src[i]);
            assert(rest.skip(1) =~= src@.skip(i + 1));
            i = i + 1;
        }
        assert(normalize_newlines(src@) =~= out@ + normalize_newlines(src@.skip(i as int)));
    }
    assert(normalize_newlines(src@) =~= out@);
    out
}

/// The starts of the non-overlapping occurrences of `pat` in `v`.
fn occurrences(v: &Vec<char>, pat: &Vec<char>) -> (r: Vec<usize>)
    ensures
        r@.map_values(|x: usize| x as int) == occurrences_from(v@, pat@, 0),
        forall|j: int| 0 <= j < r.len() ==> #[trigger] r[j] <= v.len(),
        forall|j: int| 0 <= j < r.len() - 1 ==> #[trigger] r[j] <= r[j + 1],
{
    let mut r: Vec<usize> = Vec::new();
    let n = pat.len();
    if n == 0 {
        assert(r@.map_values(|x: usize| x as int) =~= occurrences_from(v@, pat@, 0));
        return r;
    }
    let mut i: usize = 0;
    assert(r@.map_values(|x: usize| x as int) =~= Seq::<int>::empty());
    while i < v.len() && n <= v.len() - i
        invariant
            i <= v.len(),
            n == pat.len(),
            n > 0,
            occurrences_from(v@, pat@, 0) == r@.map_values(|x: usize| x as int) + occurrences_from(
                v@,
                pat@,
                i as int,
            ),
            forall|j: int| 0 <= j < r.len() ==> #[trigger] r[j] <= i,
            forall|j: int| 0 <= j < r.len() - 1 ==> #[trigger] r[j] <= r[j + 1],
        decreases v.len() - i,
    {
        let ghost before_view = r@.map_values(|x: usize| x as int);
        if matches_range(v, i, v.len(), pat) {
            r.push(i);
            assert(r@.map_values(|x: usize| x as int) =~= before_view.push(i as int));
            i = i + n;
        } else {
            i = i + 1;
        }
        assert(occurrences_from(v@, pat@, 0) =~= r@.map_values(|x: usize| x as int)
            + occurrences_from(v@, pat@, i as int));
    }
    assert(occurrences_from(v@, pat@, 0) =~= r@.map_values(|x: usize| x as int));
    r
}

fn record(name: &Vec<char>, text: &Vec<char>, a: usize, b: usize) -> (r: ParsedClass)
    requires
        a <= b <= text.len(),
    ensures
        r.holds(name@, text@.subrange(a as int, b as int)),
{
    let content = string_of(text, a, b);
    let content_hash = hash_content(content.as_str());
    ParsedClass { class_name: to_string(name), content, content_hash }
}

/// Splits a decompiler dump into its classes, in the order of the dump.
/// Sections that declare no type are left out.
pub fn parse_decompiled_output(content: &str) -> (r: Vec<ParsedClass>)
    ensures
        r.len() == records_of(content@).len(),
        forall|i: int|
            0 <= i < r.len() ==> (#[trigger] r[i]).holds(
                records_of(content@)[i].0,
                records_of(content@)[i].1,
            ),
{
    let raw = chars_of(content);
    let text = normalized(&raw);
    let marker = chars_of("/*\n * Decompiled with CFR");
    let starts = occurrences(&text, &marker);
    let ghost marks = occurrences_from(text@, banner(), 0);
    assert(marks.len() == starts.len());
    let mut out: Vec<ParsedClass> = Vec::new();
    if starts.len() == 0 {
        assert(text@.subrange(0, text.len() as int) =~= text@);
        match class_name_in(&text, 0, text.len()) {
            Some(name) => {
                out.push(record(&name, &text, 0, text.len()));
            },
            None => {},
        }
        return out;
    }
    let mut idx: usize = 0;
    while idx < starts.len()
        invariant
            idx <= starts.len(),
            marks.len() == starts.len(),
            marks == starts@.map_values(|x: usize| x as int),
            forall|j: int| 0 <= j < starts.len() ==> #[trigger] starts[j] <= text.len(),
            forall|j: int| 0 <= j < starts.len() - 1 ==> #[trigger] starts[j] <= starts[j + 1],
            out.len() == records_upto(text@, marks, idx as int).len(),
            forall|i: int|
                0 <= i < out.len() ==> (#[trigger] out[i]).holds(
                    records_upto(text@, marks, idx as int)[i].0,
                    records_upto(text@, marks, idx as int)[i].1,
                ),
        decreases starts.len() - idx,
    {
        let start = starts[idx];
        let end = if idx + 1 < starts.len() {
            starts[idx + 1]
        } else {
            text.len()
        };
        assert(marks[idx as int] == start as int);
        assert(idx + 1 < starts.len() ==> marks[idx + 1] == end as int);
        let (a, b) = trim_range(&text, start, end);
        assert(text@.subrange(a as int, b as int) == section(text@, marks, idx as int));
        if a < b {
            match class_name_in(&text, a, b) {
                Some(name) => {
                    out.push(record(&name, &text, a, b));
                },
                None => {},
            }
        }
        idx = idx + 1;
    }
    out
}

/// The fully-qualified name of the class that `content` declares: the first
/// type name in it, prefixed by the first package when there is one.
pub fn extract_class_name(content: &str) -> (r: Option<String>)
    ensures
        match r {
            Some(name) => class_name_of(content@) == Some(name@),
            None => class_name_of(content@) is None,
        },
{
    let v = chars_of(content);
    assert(v@.subrange(0, v.len() as int) =~= v@);
    match class_name_in(&v, 0, v.len()) {
        Some(name) => Some(to_string(&name)),
        None => None,
    }
}

/// The type name that `line` declares, if any.
pub fn extract_type_name_from_line(line: &str) -> (r: Option<String>)
    ensures
        match r {
            Some(name) => type_in_line(line@) == Some(name@),
            None => type_in_line(line@) is None,
        },
{
    let v = chars_of(line);
    assert(v@.subrange(0, v.len() as int) =~= v@);
    match type_in(&v, 0, v.len()) {
        Some((x, y)) => Some(string_of(&v, x, y)),
        None => None,
    }
}

} // verus!
