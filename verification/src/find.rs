//! The result of looking a class up, and the choice among its versions.

use vstd::prelude::*;
use crate::parse::{content_digest, hash_content, parse_decompiled_output, records_of, ParsedClass};
use crate::registry::holds_path;
use crate::scan::{extract_version_from_maven_path, maven_version};
use crate::structure::ClassStructure;
use crate::table::Table;
use crate::text::{chars_of, concat3, lemma_lex_total, lex_less, lex_lt};
use crate::warmup::cache_key;

verus! {

/// The source of a class as one artifact holds it.
#[derive(Debug, Clone)]
pub struct FindVersion {
    pub version: Option<String>,
    pub jar_path: String,
    pub content_hash: String,
    pub content: String,
    pub cache_hit: bool,
    pub source: String,
    pub structure: Option<ClassStructure>,
}

/// All that a lookup found.
#[derive(Debug, Clone)]
pub struct FindResult {
    pub class_name: String,
    pub scanned_root: String,
    pub matched_jars: usize,
    pub duration_ms: u64,
    pub versions: Vec<FindVersion>,
}

/// A lookup has nothing to show.
#[derive(Debug, Clone, Copy, PartialEq, Eq, Structural)]
pub enum FindError {
    /// No version of the class is there to print.
    NoVersion,
    /// No artifact holds the class.
    NotFound,
}

impl FindError {
    pub fn message(&self) -> (r: String)
        ensures
            r@ == match *self {
                FindError::NoVersion => "No available decompiled result"@,
                FindError::NotFound => "Class not found"@,
            },
    {
        match self {
            FindError::NoVersion => "No available decompiled result".to_owned(),
            FindError::NotFound => "Class not found".to_owned(),
        }
    }
}

/// What is reported when no artifact holds the class.
pub open spec fn not_found_text(class_name: Seq<char>, scan_dir: Seq<char>) -> Seq<char> {
    "Class "@ + class_name + " not found (scan dir: "@ + scan_dir + ")"@
}

/// What is reported when no artifact below `scan_dir` holds `class_name`.
pub fn not_found_message(class_name: &str, scan_dir: &str) -> (r: String)
    ensures
        r@ == not_found_text(class_name@, scan_dir@),
{
    let mut r = "Class ".to_owned();
    r.append(class_name);
    r.append(" not found (scan dir: ");
    r.append(scan_dir);
    r.append(")");
    r
}

/// A lookup goes on only with an artifact that holds the class.
pub fn require_match(matched: &Vec<String>) -> (r: Result<(), FindError>)
    ensures
        r == if matched.len() == 0 {
            Err::<(), FindError>(FindError::NotFound)
        } else {
            Ok::<(), FindError>(())
        },
{
    if matched.len() == 0 {
        Err(FindError::NotFound)
    } else {
        Ok(())
    }
}

/// Index of the first among the first `k` records that is named
/// `class_name`.
pub open spec fn record_named_upto(
    records: Seq<(Seq<char>, Seq<char>)>,
    class_name: Seq<char>,
    k: int,
) -> Option<int>
    decreases k,
{
    if k <= 0 {
        None
    } else {
        match record_named_upto(records, class_name, k - 1) {
            Some(i) => Some(i),
            None => if records[k - 1].0 == class_name {
                Some(k - 1)
            } else {
                None
            },
        }
    }
}

/// The source shown for `class_name` out of the dump `dump`: the text of
/// the first class of that name in it, or the whole dump when it holds
/// none.
pub open spec fn content_of_dump(class_name: Seq<char>, dump: Seq<char>) -> Seq<char> {
    match record_named_upto(records_of(dump), class_name, records_of(dump).len() as int) {
        Some(i) => records_of(dump)[i].1,
        None => dump,
    }
}

/// The version record of a lookup of `class_name` in the artifact
/// `jar_key`. With the source in the cache it is a cache hit and shows that
/// source. Else it is built from what the decompiler gave for the class and
/// is marked with where the artifact was found (`miss_source`). Without
/// either there is no record.
pub fn find_version(
    class_name: &str,
    jar_key: &str,
    cached: Option<String>,
    decompiled: Option<&str>,
    miss_source: &str,
) -> (r: Option<FindVersion>)
    ensures
        match cached {
            Some(src) => r is Some && r->0.cache_hit && r->0.source@ == "cache"@ && r->0.content@
                == src@,
            None => match decompiled {
                Some(d) => r is Some && !r->0.cache_hit && r->0.source@ == miss_source@
                    && r->0.content@ == content_of_dump(class_name@, d@),
                None => r is None,
            },
        },
        r is Some ==> {
            &&& r->0.content_hash@ == content_digest(r->0.content@)
            &&& r->0.jar_path@ == jar_key@
            &&& r->0.structure is None
            &&& match r->0.version {
                Some(v) => maven_version(jar_key@) == Some(v@),
                None => maven_version(jar_key@) is None,
            }
        },
{
    match cached {
        Some(content) => {
            let content_hash = hash_content(content.as_str());
            Some(
                FindVersion {
                    version: extract_version_from_maven_path(jar_key),
                    jar_path: jar_key.to_owned(),
                    content_hash,
                    content,
                    cache_hit: true,
                    source: "cache".to_owned(),
                    structure: None,
                },
            )
        },
        None => match decompiled {
            Some(dump) => {
                let parsed = parse_decompiled_output(dump);
                proof {
                    lemma_named_records(
                        parsed@,
                        records_of(dump@),
                        class_name@,
                        parsed.len() as int,
                    );
                }
                let content = resolve_content(&parsed, class_name, dump);
                let content_hash = hash_content(content.as_str());
                Some(
                    FindVersion {
                        version: extract_version_from_maven_path(jar_key),
                        jar_path: jar_key.to_owned(),
                        content_hash,
                        content,
                        cache_hit: false,
                        source: miss_source.to_owned(),
                        structure: None,
                    },
                )
            },
            None => None,
        },
    }
}

/// Parsed classes that hold the records of a dump are named as the records
/// are.
pub proof fn lemma_named_records(
    parsed: Seq<ParsedClass>,
    records: Seq<(Seq<char>, Seq<char>)>,
    class_name: Seq<char>,
    k: int,
)
    requires
        0 <= k <= parsed.len(),
        parsed.len() == records.len(),
        forall|j: int|
            0 <= j < parsed.len() ==> (#[trigger] parsed[j]).holds(records[j].0, records[j].1),
    ensures
        named_upto(parsed, class_name, k) == record_named_upto(records, class_name, k),
        named_upto(parsed, class_name, k) is Some ==> 0 <= named_upto(parsed, class_name, k)->0
            < k && parsed[named_upto(parsed, class_name, k)->0].content@
            == records[named_upto(parsed, class_name, k)->0].1,
    decreases k,
{
    if k > 0 {
        lemma_named_records(parsed, records, class_name, k - 1);
        assert(parsed[k - 1].holds(records[k - 1].0, records[k - 1].1));
    }
}

/// All that a lookup found, put together.
pub fn find_result(
    class_name: String,
    scanned_root: String,
    matched_jars: usize,
    duration_ms: u64,
    versions: Vec<FindVersion>,
) -> (r: FindResult)
    ensures
        r.class_name == class_name,
        r.scanned_root == scanned_root,
        r.matched_jars == matched_jars,
        r.duration_ms == duration_ms,
        r.versions == versions,
{
    FindResult { class_name, scanned_root, matched_jars, duration_ms, versions }
}

/// Index of the version shown by default: the last one that names its
/// version, or the first one when none does. `n` is how many of the
/// versions are looked at.
pub open spec fn default_index(versions: Seq<FindVersion>, n: int) -> int
    decreases n,
{
    if n <= 0 {
        0
    } else if versions[n - 1].version is Some {
        n - 1
    } else {
        default_index(versions, n - 1)
    }
}

/// The version to show when the user asked for the code alone.
pub fn choose_default_version(versions: &Vec<FindVersion>) -> (r: Result<&FindVersion, FindError>)
    ensures
        match r {
            Ok(v) => versions.len() > 0 && *v == versions[default_index(
                versions@,
                versions.len() as int,
            )],
            Err(e) => versions.len() == 0 && e == FindError::NoVersion,
        },
{
    if versions.len() == 0 {
        return Err(FindError::NoVersion);
    }
    let mut i: usize = versions.len();
    while i > 0
        invariant
            i <= versions.len(),
            default_index(versions@, versions.len() as int) == default_index(versions@, i as int),
        decreases i,
    {
        if versions[i - 1].version.is_some() {
            return Ok(&versions[i - 1]);
        }
        i = i - 1;
    }
    Ok(&versions[0])
}

/// The key under which the source of `class_name` from `jar_key` is
/// cached.
pub fn source_key(class_name: &str, jar_key: &str) -> (r: String)
    ensures
        r@ == cache_key(class_name@, jar_key@),
{
    concat3(class_name, "::", jar_key)
}

/// The artifacts among `jars` whose version is `version`, in order.
pub open spec fn of_version(jars: Seq<Seq<char>>, version: Seq<char>) -> Seq<Seq<char>>
    decreases jars.len(),
{
    if jars.len() == 0 {
        jars
    } else if maven_version(jars.last()) == Some(version) {
        of_version(jars.drop_last(), version).push(jars.last())
    } else {
        of_version(jars.drop_last(), version)
    }
}

/// The artifacts among `jars` whose version is `version`, in order.
pub fn keep_version(jars: &Vec<String>, version: &str) -> (r: Vec<String>)
    ensures
        r.deep_view() == of_version(jars.deep_view(), version@),
{
    let ghost all = jars.deep_view();
    let wanted = version.to_owned();
    let mut r: Vec<String> = Vec::new();
    let mut i: usize = 0;
    assert(all.take(0) =~= Seq::<Seq<char>>::empty());
    assert(r.deep_view() =~= of_version(all.take(0), version@));
    while i < jars.len()
        invariant
            i <= jars.len(),
            all == jars.deep_view(),
            wanted@ == version@,
            r.deep_view() == of_version(all.take(i as int), version@),
        decreases jars.len() - i,
    {
        proof {
            assert(all.take(i + 1).drop_last() =~= all.take(i as int));
            assert(all.take(i + 1).last() == jars[i as int]@);
        }
        let keep = match extract_version_from_maven_path(jars[i].as_str()) {
            Some(v) => v == wanted,
            None => false,
        };
        if keep {
            let ghost before = r.deep_view();
            r.push(jars[i].clone());
            assert(r.deep_view() =~= before.push(jars[i as int]@));
        }
        i = i + 1;
    }
    assert(all.take(jars.len() as int) =~= all);
    r
}

/// The order of versions: an artifact without a version comes before all
/// that have one, and versions are ordered as text.
pub open spec fn version_lt(a: Option<Seq<char>>, b: Option<Seq<char>>) -> bool {
    match (a, b) {
        (None, Some(_)) => true,
        (Some(x), Some(y)) => lex_lt(x, y),
        _ => false,
    }
}

/// The list `s`, ordered by version, with `x` put behind every artifact
/// whose version is not later than its own.
pub open spec fn inserted(s: Seq<Seq<char>>, x: Seq<char>) -> Seq<Seq<char>>
    decreases s.len(),
{
    if s.len() > 0 && version_lt(maven_version(x), maven_version(s.last())) {
        inserted(s.drop_last(), x).push(s.last())
    } else {
        s.push(x)
    }
}

/// `s` ordered by version; artifacts of one version keep their order.
pub open spec fn by_version(s: Seq<Seq<char>>) -> Seq<Seq<char>>
    decreases s.len(),
{
    if s.len() == 0 {
        s
    } else {
        inserted(by_version(s.drop_last()), s.last())
    }
}

/// When exactly the artifacts from index `j` on are of a later version than
/// `x`, inserting `x` puts it at index `j`.
pub proof fn lemma_inserted(s: Seq<Seq<char>>, x: Seq<char>, j: int)
    requires
        0 <= j <= s.len(),
        forall|i: int| j <= i < s.len() ==> version_lt(maven_version(x), maven_version(#[trigger] s[i])),
        j > 0 ==> !version_lt(maven_version(x), maven_version(s[j - 1])),
    ensures
        inserted(s, x) == s.insert(j, x),
    decreases s.len() - j,
{
    if j == s.len() {
        assert(s.insert(j, x) =~= s.push(x));
    } else {
        let init = s.drop_last();
        assert(version_lt(maven_version(x), maven_version(s[s.len() - 1])));
        assert forall|i: int| j <= i < init.len() implies version_lt(
            maven_version(x),
            maven_version(#[trigger] init[i]),
        ) by {
            assert(init[i] == s[i]);
        }
        if j > 0 {
            assert(init[j - 1] == s[j - 1]);
        }
        lemma_inserted(init, x, j);
        assert(init.insert(j, x).push(s.last()) =~= s.insert(j, x));
    }
}

/// Ordering by version keeps every artifact, and puts no later version
/// before an earlier one.
pub proof fn lemma_by_version(s: Seq<Seq<char>>)
    ensures
        by_version(s).to_multiset() == s.to_multiset(),
        by_version(s).len() == s.len(),
        forall|i: int, j: int|
            0 <= i < j < by_version(s).len() ==> !version_lt(
                maven_version(#[trigger] by_version(s)[j]),
                maven_version(#[trigger] by_version(s)[i]),
            ),
    decreases s.len(),
{
    broadcast use vstd::seq_lib::group_to_multiset_ensures;

    if s.len() > 0 {
        let init = s.drop_last();
        let x = s.last();
        lemma_by_version(init);
        let b = by_version(init);
        lemma_inserted_sorted(b, x);
        assert(s =~= init.push(x));
    }
}

/// Inserting into an ordered list gives an ordered list with one more
/// artifact.
pub proof fn lemma_inserted_sorted(b: Seq<Seq<char>>, x: Seq<char>)
    requires
        forall|i: int, j: int|
            0 <= i < j < b.len() ==> !version_lt(
                maven_version(#[trigger] b[j]),
                maven_version(#[trigger] b[i]),
            ),
    ensures
        inserted(b, x).to_multiset() == b.to_multiset().insert(x),
        inserted(b, x).len() == b.len() + 1,
        forall|i: int, j: int|
            0 <= i < j < inserted(b, x).len() ==> !version_lt(
                maven_version(#[trigger] inserted(b, x)[j]),
                maven_version(#[trigger] inserted(b, x)[i]),
            ),
    decreases b.len(),
{
    broadcast use vstd::seq_lib::group_to_multiset_ensures;

    let r = inserted(b, x);
    if b.len() > 0 && version_lt(maven_version(x), maven_version(b.last())) {
        let init = b.drop_last();
        assert forall|i: int, j: int| 0 <= i < j < init.len() implies !version_lt(
            maven_version(#[trigger] init[j]),
            maven_version(#[trigger] init[i]),
        ) by {
            assert(init[i] == b[i] && init[j] == b[j]);
        }
        lemma_inserted_sorted(init, x);
        let ri = inserted(init, x);
        assert(r == ri.push(b.last()));
        assert(b =~= init.push(b.last()));
        assert(r.to_multiset() =~= b.to_multiset().insert(x));
        assert forall|i: int, j: int| 0 <= i < j < r.len() implies !version_lt(
            maven_version(#[trigger] r[j]),
            maven_version(#[trigger] r[i]),
        ) by {
            if j < ri.len() {
                assert(r[i] == ri[i] && r[j] == ri[j]);
            } else {
                // r[j] is the last of b; r[i] is x or an artifact of init
                assert(r[i] == ri[i]);
                assert(ri.to_multiset().count(ri[i]) > 0);
                if ri[i] != x {
                    assert(init.to_multiset().count(ri[i]) > 0);
                    assert(init.contains(ri[i]));
                    let k = init.index_of(ri[i]);
                    assert(b[k] == ri[i]);
                    assert(!version_lt(maven_version(b[b.len() - 1]), maven_version(b[k])));
                } else {
                    lemma_version_asymmetric(maven_version(x), maven_version(b.last()));
                }
            }
        }
    } else {
        assert(r == b.push(x));
        assert forall|i: int, j: int| 0 <= i < j < r.len() implies !version_lt(
            maven_version(#[trigger] r[j]),
            maven_version(#[trigger] r[i]),
        ) by {
            if j < b.len() {
                assert(r[i] == b[i] && r[j] == b[j]);
            } else {
                assert(r[j] == x && r[i] == b[i]);
                if i < b.len() - 1 {
                    // b[i] is not later than the last of b, which is not later than x
                    assert(!version_lt(maven_version(b[b.len() - 1]), maven_version(b[i])));
                    lemma_version_not_later(
                        maven_version(b[i]),
                        maven_version(b[b.len() - 1]),
                        maven_version(x),
                    );
                }
            }
        }
    }
}

/// No version is both earlier and later than another.
pub proof fn lemma_version_asymmetric(a: Option<Seq<char>>, b: Option<Seq<char>>)
    ensures
        !(version_lt(a, b) && version_lt(b, a)),
{
    if a is Some && b is Some {
        crate::text::lemma_lex_asymmetric(a->0, b->0);
    }
}

/// "Not later than" is transitive.
pub proof fn lemma_version_not_later(
    a: Option<Seq<char>>,
    b: Option<Seq<char>>,
    c: Option<Seq<char>>,
)
    requires
        !version_lt(b, a),
        !version_lt(c, b),
    ensures
        !version_lt(c, a),
{
    if a is Some && b is Some && c is Some {
        lemma_lex_total(a->0, b->0);
        lemma_lex_total(b->0, c->0);
        if lex_lt(c->0, a->0) {
            if a->0 == b->0 {
            } else if b->0 == c->0 {
            } else {
                crate::text::lemma_lex_transitive(c->0, a->0, b->0);
            }
        }
    }
}

fn version_before(a: &Option<String>, b: &Option<String>) -> (r: bool)
    ensures
        r == version_lt(
            match *a {
                Some(x) => Some(x@),
                None => None,
            },
            match *b {
                Some(y) => Some(y@),
                None => None,
            },
        ),
{
    match (a, b) {
        (None, Some(_)) => true,
        (Some(x), Some(y)) => {
            let cx = chars_of(x.as_str());
            let cy = chars_of(y.as_str());
            lex_less(&cx, &cy)
        },
        _ => false,
    }
}

/// The artifacts ordered by version; artifacts of one version keep their
/// order.
pub fn sort_by_version(jars: &Vec<String>) -> (r: Vec<String>)
    ensures
        r.deep_view() == by_version(jars.deep_view()),
        r.deep_view().to_multiset() == jars.deep_view().to_multiset(),
        forall|i: int, j: int|
            0 <= i < j < r.len() ==> !version_lt(
                maven_version(#[trigger] r.deep_view()[j]),
                maven_version(#[trigger] r.deep_view()[i]),
            ),
{
    proof {
        lemma_by_version(jars.deep_view());
    }
    let ghost all = jars.deep_view();
    let mut r: Vec<String> = Vec::new();
    let mut i: usize = 0;
    assert(all.take(0) =~= Seq::<Seq<char>>::empty());
    assert(r.deep_view() =~= by_version(all.take(0)));
    while i < jars.len()
        invariant
            i <= jars.len(),
            all == jars.deep_view(),
            r.deep_view() == by_version(all.take(i as int)),
        decreases jars.len() - i,
    {
        proof {
            assert(all.take(i + 1).drop_last() =~= all.take(i as int));
            assert(all.take(i + 1).last() == jars[i as int]@);
        }
        let ghost before = r.deep_view();
        let x = jars[i].clone();
        let kx = extract_version_from_maven_path(x.as_str());
        let mut j: usize = r.len();
        let mut stop = false;
        while j > 0 && !stop
            invariant
                j <= r.len(),
                before == r.deep_view(),
                match kx {
                    Some(v) => maven_version(x@) == Some(v@),
                    None => maven_version(x@) is None,
                },
                forall|k: int|
                    j <= k < before.len() ==> version_lt(
                        maven_version(x@),
                        maven_version(#[trigger] before[k]),
                    ),
                stop ==> j > 0 && !version_lt(maven_version(x@), maven_version(before[j - 1])),
            decreases j + (if stop { 0int } else { 1int }),
        {
            let kj = extract_version_from_maven_path(r[j - 1].as_str());
            assert(r[j - 1]@ == before[j - 1]);
            if version_before(&kx, &kj) {
                j = j - 1;
            } else {
                stop = true;
            }
        }
        proof {
            lemma_inserted(before, x@, j as int);
        }
        r.insert(j, x);
        assert(r.deep_view() =~= before.insert(j as int, x@));
        i = i + 1;
    }
    assert(all.take(jars.len() as int) =~= all);
    r
}

/// `a` is a better answer than `b` to a lookup by simple name: it is held
/// by more artifacts, or by as many and its name comes later.
pub open spec fn better(a: (Seq<char>, nat), b: (Seq<char>, nat)) -> bool {
    a.1 > b.1 || (a.1 == b.1 && lex_lt(b.0, a.0))
}

/// The artifacts that hold each class, grouped by class name: each found
/// pair (class, artifact) adds the artifact to the list of its class.
pub open spec fn grouped(found: Seq<(Seq<char>, Seq<char>)>) -> Map<Seq<char>, Seq<Seq<char>>>
    decreases found.len(),
{
    if found.len() == 0 {
        Map::empty()
    } else {
        let g = grouped(found.drop_last());
        let (class, jar) = found.last();
        g.insert(
            class,
            if g.contains_key(class) {
                g[class].push(jar)
            } else {
                seq![jar]
            },
        )
    }
}

/// Groups the found pairs (class, artifact) by class.
pub fn group_by_fqn(found: &Vec<(String, String)>) -> (t: Table<Vec<String>>)
    ensures
        t.model() == grouped(found.deep_view()),
{
    let ghost all = found.deep_view();
    let mut t: Table<Vec<String>> = Table::new();
    let mut i: usize = 0;
    assert(all.take(0) =~= Seq::<(Seq<char>, Seq<char>)>::empty());
    while i < found.len()
        invariant
            i <= found.len(),
            all == found.deep_view(),
            t.model() == grouped(all.take(i as int)),
        decreases found.len() - i,
    {
        proof {
            assert(all.take(i + 1).drop_last() =~= all.take(i as int));
            assert(all.take(i + 1).last() == (found[i as int].0@, found[i as int].1@));
        }
        let class = &found[i].0;
        let mut jars = match t.get(class.as_str()) {
            Some(list) => crate::registry::copy_paths(list),
            None => Vec::new(),
        };
        let ghost before = jars.deep_view();
        jars.push(found[i].1.clone());
        proof {
            assert(jars.deep_view() =~= before.push(found[i as int].1@));
            if !grouped(all.take(i as int)).contains_key(class@) {
                assert(before =~= Seq::<Seq<char>>::empty());
                assert(jars.deep_view() =~= seq![found[i as int].1@]);
            }
        }
        t.insert(class.clone(), jars);
        i = i + 1;
    }
    assert(all.take(found.len() as int) =~= all);
    t
}

/// The row of the class that answers a lookup by simple name best: no
/// other row is better. There is one unless the table is empty.
pub fn best_match(t: &Table<Vec<String>>) -> (r: Option<usize>)
    ensures
        match r {
            Some(i) => i < t.keys().len() && forall|j: int|
                0 <= j < t.keys().len() ==> !better(
                    (#[trigger] t.keys()[j], t.values()[j].len()),
                    (t.keys()[i as int], t.values()[i as int].len()),
                ),
            None => t.keys().len() == 0,
        },
{
    let n = t.len();
    if n == 0 {
        return None;
    }
    let mut best: usize = 0;
    let mut i: usize = 1;
    proof {
        crate::text::lemma_lex_irreflexive(t.keys()[0]);
    }
    while i < n
        invariant
            1 <= i <= n,
            best < i,
            n == t.keys().len(),
            t.keys().len() == t.values().len(),
            forall|j: int|
                0 <= j < i ==> !better(
                    (#[trigger] t.keys()[j], t.values()[j].len()),
                    (t.keys()[best as int], t.values()[best as int].len()),
                ),
        decreases n - i,
    {
        let vi = t.value_at(i);
        let vb = t.value_at(best);
        let ci = vi.len();
        let cb = vb.len();
        proof {
            assert(vi.deep_view().len() == vi@.len());
            assert(vb.deep_view().len() == vb@.len());
        }
        let wins = if ci != cb {
            ci > cb
        } else {
            let a = chars_of(t.key_at(best).as_str());
            let b = chars_of(t.key_at(i).as_str());
            lex_less(&a, &b)
        };
        if wins {
            proof {
                let kb = t.keys()[best as int];
                let ki = t.keys()[i as int];
                crate::text::lemma_lex_irreflexive(ki);
                assert forall|j: int| 0 <= j < i + 1 implies !better(
                    (#[trigger] t.keys()[j], t.values()[j].len()),
                    (ki, t.values()[i as int].len()),
                ) by {
                    if j < i {
                        let kj = t.keys()[j];
                        if t.values()[j].len() == t.values()[i as int].len() && lex_lt(ki, kj) {
                            // then kj would also beat the former best
                            if t.values()[best as int].len() == t.values()[i as int].len() {
                                crate::text::lemma_lex_transitive(kb, ki, kj);
                            }
                        }
                    }
                }
            }
            best = i;
        } else {
            proof {
                let kb = t.keys()[best as int];
                let ki = t.keys()[i as int];
                if ci == cb {
                    crate::text::lemma_lex_asymmetric(kb, ki);
                }
            }
        }
        i = i + 1;
    }
    Some(best)
}

/// The artifacts to load after a lookup: those of the versions that were
/// not served from the cache, each once, in the order of the versions.
pub open spec fn backfill_upto(versions: Seq<FindVersion>, k: int) -> Seq<Seq<char>>
    decreases k,
{
    if k <= 0 {
        Seq::empty()
    } else {
        let before = backfill_upto(versions, k - 1);
        let v = versions[k - 1];
        if !v.cache_hit && !before.contains(v.jar_path@) {
            before.push(v.jar_path@)
        } else {
            before
        }
    }
}

/// The artifacts to load after a lookup.
pub fn backfill_targets(versions: &Vec<FindVersion>) -> (r: Vec<String>)
    ensures
        r.deep_view() == backfill_upto(versions@, versions.len() as int),
{
    let mut r: Vec<String> = Vec::new();
    let mut i: usize = 0;
    assert(r.deep_view() =~= backfill_upto(versions@, 0));
    while i < versions.len()
        invariant
            i <= versions.len(),
            r.deep_view() == backfill_upto(versions@, i as int),
        decreases versions.len() - i,
    {
        if !versions[i].cache_hit && !holds_path(&r, &versions[i].jar_path) {
            let ghost before = r.deep_view();
            r.push(versions[i].jar_path.clone());
            assert(r.deep_view() =~= before.push(versions[i as int].jar_path@));
        }
        i = i + 1;
    }
    r
}

/// Index of the first among the first `k` parsed classes that is named
/// `class_name`.
pub open spec fn named_upto(parsed: Seq<ParsedClass>, class_name: Seq<char>, k: int) -> Option<int>
    decreases k,
{
    if k <= 0 {
        None
    } else {
        match named_upto(parsed, class_name, k - 1) {
            Some(i) => Some(i),
            None => if parsed[k - 1].class_name@ == class_name {
                Some(k - 1)
            } else {
                None
            },
        }
    }
}

/// The source to show for `class_name`: that of the first parsed class of
/// this name, or the whole dump when there is none.
pub fn resolve_content(parsed: &Vec<ParsedClass>, class_name: &str, decompiled: &str) -> (r: String)
    ensures
        r@ == match named_upto(parsed@, class_name@, parsed.len() as int) {
            Some(i) => parsed[i].content@,
            None => decompiled@,
        },
{
    let wanted = class_name.to_owned();
    let mut i: usize = 0;
    while i < parsed.len()
        invariant
            i <= parsed.len(),
            wanted@ == class_name@,
            named_upto(parsed@, class_name@, i as int) is None,
        decreases parsed.len() - i,
    {
        if parsed[i].class_name == wanted {
            proof {
                assert(named_upto(parsed@, class_name@, i + 1) == Some(i as int));
                lemma_named_found(parsed@, class_name@, i + 1, parsed.len() as int);
            }
            return parsed[i].content.clone();
        }
        i = i + 1;
    }
    decompiled.to_owned()
}

/// Once a class of the name is found, later classes change nothing.
pub proof fn lemma_named_found(parsed: Seq<ParsedClass>, class_name: Seq<char>, k: int, m: int)
    requires
        0 <= k <= m,
        named_upto(parsed, class_name, k) is Some,
    ensures
        named_upto(parsed, class_name, m) == named_upto(parsed, class_name, k),
    decreases m - k,
{
    if k < m {
        lemma_named_found(parsed, class_name, k, m - 1);
    }
}

/// The directory to scan next for a class, after the first `tried` of the
/// search paths gave no artifact: the next search path, then once the
/// whole repository unless the first search path was the repository
/// itself, then nothing.
pub open spec fn scan_root_after(search_paths: Seq<Seq<char>>, repo: Seq<char>, tried: nat) -> Option<
    Seq<char>,
> {
    if tried < search_paths.len() {
        Some(search_paths[tried as int])
    } else if tried == search_paths.len() && (search_paths.len() == 0 || search_paths[0] != repo) {
        Some(repo)
    } else {
        None
    }
}

/// The directory to scan next for a class, after `tried` scans that gave
/// no artifact.
pub fn next_scan_root(search_paths: &Vec<String>, repo: &str, tried: usize) -> (r: Option<String>)
    ensures
        match r {
            Some(root) => scan_root_after(search_paths.deep_view(), repo@, tried as nat) == Some(
                root@,
            ),
            None => scan_root_after(search_paths.deep_view(), repo@, tried as nat) is None,
        },
{
    if tried < search_paths.len() {
        Some(search_paths[tried].clone())
    } else if tried == search_paths.len() {
        let first_is_repo = if search_paths.len() == 0 {
            false
        } else {
            let a = chars_of(search_paths[0].as_str());
            let b = chars_of(repo);
            crate::text::same_text(&a, &b)
        };
        if first_is_repo {
            None
        } else {
            Some(repo.to_owned())
        }
    } else {
        None
    }
}

} // verus!
