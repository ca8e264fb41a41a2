//! Access tracking per artifact and the warmup decisions derived from it.

use vstd::prelude::*;
use crate::cache::{PersistentCache, StoreView};
use crate::table::Table;
use crate::text::{chars_of, lex_less, lex_lt, lemma_lex_total, lemma_lex_transitive, lemma_lex_irreflexive};
use crate::warmup::{WarmupMode, WarmupPriority};

verus! {

/// What is known about the use of one artifact.
#[derive(Debug, Clone, Copy, PartialEq, Eq, Structural)]
pub struct JarHotspot {
    pub access_count: u32,
    pub last_access: u64,
    pub warmed: bool,
    pub class_count: u32,
}

impl DeepView for JarHotspot {
    type V = JarHotspot;

    open spec fn deep_view(&self) -> JarHotspot {
        *self
    }
}

impl JarHotspot {
    /// The record of an artifact that was never accessed.
    pub open spec fn fresh() -> JarHotspot {
        JarHotspot { access_count: 0, last_access: 0, warmed: false, class_count: 0 }
    }

    /// The record after one more access at time `now`; the count saturates.
    pub open spec fn accessed(self, now: u64) -> JarHotspot {
        JarHotspot {
            access_count: if self.access_count == u32::MAX {
                u32::MAX
            } else {
                (self.access_count + 1) as u32
            },
            last_access: now,
            warmed: self.warmed,
            class_count: self.class_count,
        }
    }

    /// The record after a warmup that produced `class_count` classes.
    pub open spec fn warmed_with(self, class_count: u32) -> JarHotspot {
        JarHotspot {
            access_count: self.access_count,
            last_access: self.last_access,
            warmed: true,
            class_count,
        }
    }
}

impl Default for JarHotspot {
    fn default() -> (r: Self)
        ensures
            r == JarHotspot::fresh(),
    {
        JarHotspot { access_count: 0, last_access: 0, warmed: false, class_count: 0 }
    }
}

/// A warmup that an access asks for.
#[derive(Debug, Clone, Copy, PartialEq, Eq, Structural)]
pub struct WarmupRequest {
    pub priority: WarmupPriority,
    pub mode: WarmupMode,
}

/// The request that the access leading to record `h` raises under
/// `threshold`: none once warmed; the thorough one from the threshold on;
/// the fast one on the very first access.
pub open spec fn request_for(h: JarHotspot, threshold: u32) -> Option<WarmupRequest> {
    if h.warmed {
        None
    } else if h.access_count >= threshold {
        Some(WarmupRequest { priority: WarmupPriority::High, mode: WarmupMode::AllClasses })
    } else if h.access_count == 1 {
        Some(WarmupRequest { priority: WarmupPriority::Normal, mode: WarmupMode::TopLevelOnly })
    } else {
        None
    }
}

/// The record after the accesses at `times`, one after another.
pub open spec fn after_accesses(h: JarHotspot, times: Seq<u64>) -> JarHotspot
    decreases times.len(),
{
    if times.len() == 0 {
        h
    } else {
        after_accesses(h, times.drop_last()).accessed(times.last())
    }
}

/// Accesses change neither the warmed mark nor the class count, and count
/// up by one each until the count is full.
pub proof fn lemma_after_accesses(h: JarHotspot, times: Seq<u64>)
    ensures
        after_accesses(h, times).warmed == h.warmed,
        after_accesses(h, times).class_count == h.class_count,
        h.access_count + times.len() <= u32::MAX ==> after_accesses(h, times).access_count
            == h.access_count + times.len(),
        h.access_count + times.len() > u32::MAX ==> after_accesses(h, times).access_count
            == u32::MAX,
    decreases times.len(),
{
    if times.len() > 0 {
        lemma_after_accesses(h, times.drop_last());
    }
}

/// For an artifact that was never accessed nor warmed, the access number
/// `n` asks for the thorough warmup when `n` has reached the threshold;
/// below the threshold only the first access asks for anything, and it asks
/// for the fast warmup.
pub proof fn lemma_requests_until_warmed(threshold: u32, times: Seq<u64>)
    requires
        threshold >= 1,
        times.len() > 0,
    ensures
        request_for(after_accesses(JarHotspot::fresh(), times), threshold) == if times.len()
            >= threshold {
            Some(WarmupRequest { priority: WarmupPriority::High, mode: WarmupMode::AllClasses })
        } else if times.len() == 1 {
            Some(WarmupRequest { priority: WarmupPriority::Normal, mode: WarmupMode::TopLevelOnly })
        } else {
            None
        },
{
    lemma_after_accesses(JarHotspot::fresh(), times);
}

/// Once an artifact is marked as warmed, no access asks for a warmup.
pub proof fn lemma_no_request_once_warmed(
    h: JarHotspot,
    class_count: u32,
    times: Seq<u64>,
    threshold: u32,
)
    ensures
        request_for(after_accesses(h.warmed_with(class_count), times), threshold) is None,
        after_accesses(h.warmed_with(class_count), times).class_count == class_count,
{
    lemma_after_accesses(h.warmed_with(class_count), times);
}

/// `a` is listed before `b`: more accesses first, then the later access,
/// then the smaller path.
pub open spec fn ranks_before(a: JarHotspot, pa: Seq<char>, b: JarHotspot, pb: Seq<char>) -> bool {
    a.access_count > b.access_count || (a.access_count == b.access_count && (a.last_access
        > b.last_access || (a.last_access == b.last_access && lex_lt(pa, pb))))
}

/// Whether a record takes part in a listing: every record does, unless only
/// artifacts that were accessed and not yet warmed are asked for.
pub open spec fn listed(h: JarHotspot, unwarmed_only: bool) -> bool {
    !unwarmed_only || (!h.warmed && h.access_count > 0)
}

/// `r` lists the first `k` artifacts of `m` that take part, in rank order.
pub open spec fn is_ranking(
    r: Seq<Seq<char>>,
    m: Map<Seq<char>, JarHotspot>,
    k: nat,
    unwarmed_only: bool,
) -> bool {
    &&& r.len() <= k
    &&& r.no_duplicates()
    &&& forall|i: int|
        0 <= i < r.len() ==> m.contains_key(#[trigger] r[i]) && listed(m[r[i]], unwarmed_only)
    &&& forall|i: int, j: int|
        0 <= i < j < r.len() ==> ranks_before(m[#[trigger] r[i]], r[i], m[#[trigger] r[j]], r[j])
    &&& forall|c: Seq<char>|
        #![trigger m.contains_key(c)]
        m.contains_key(c) && listed(m[c], unwarmed_only) && !r.contains(c) ==> r.len() == k
            && forall|i: int| 0 <= i < r.len() ==> ranks_before(m[#[trigger] r[i]], r[i], m[c], c)
}

/// Of two records with different paths one ranks before the other.
pub proof fn lemma_rank_total(a: JarHotspot, pa: Seq<char>, b: JarHotspot, pb: Seq<char>)
    requires
        pa != pb,
    ensures
        ranks_before(a, pa, b, pb) || ranks_before(b, pb, a, pa),
{
    lemma_lex_total(pa, pb);
}

/// Ranking is transitive.
pub proof fn lemma_rank_transitive(
    a: JarHotspot,
    pa: Seq<char>,
    b: JarHotspot,
    pb: Seq<char>,
    c: JarHotspot,
    pc: Seq<char>,
)
    requires
        ranks_before(a, pa, b, pb),
        ranks_before(b, pb, c, pc),
    ensures
        ranks_before(a, pa, c, pc),
{
    if a.access_count == b.access_count && b.access_count == c.access_count && a.last_access
        == b.last_access && b.last_access == c.last_access {
        lemma_lex_transitive(pa, pb, pc);
    }
}

/// No record ranks before itself.
pub proof fn lemma_rank_irreflexive(a: JarHotspot, pa: Seq<char>)
    ensures
        !ranks_before(a, pa, a, pa),
{
    lemma_lex_irreflexive(pa);
}

fn ranks_before_exec(a: &JarHotspot, pa: &String, b: &JarHotspot, pb: &String) -> (r: bool)
    ensures
        r == ranks_before(*a, pa@, *b, pb@),
{
    if a.access_count != b.access_count {
        a.access_count > b.access_count
    } else if a.last_access != b.last_access {
        a.last_access > b.last_access
    } else {
        let ca = chars_of(pa.as_str());
        let cb = chars_of(pb.as_str());
        lex_less(&ca, &cb)
    }
}

fn takes_part(h: &JarHotspot, unwarmed_only: bool) -> (r: bool)
    ensures
        r == listed(*h, unwarmed_only),
{
    !unwarmed_only || (!h.warmed && h.access_count > 0)
}

/// Row `a` of the table ranks before row `b`.
pub open spec fn row_before(t: &Table<JarHotspot>, a: int, b: int) -> bool {
    ranks_before(t.values()[a], t.keys()[a], t.values()[b], t.keys()[b])
}

/// `best` holds the first `k` rows among the first `p` that take part.
pub open spec fn ranks_rows(
    best: Seq<usize>,
    t: &Table<JarHotspot>,
    p: int,
    k: nat,
    unwarmed_only: bool,
) -> bool {
    &&& best.len() <= k
    &&& forall|i: int|
        0 <= i < best.len() ==> 0 <= (#[trigger] best[i]) < p && listed(
            t.values()[best[i] as int],
            unwarmed_only,
        )
    &&& forall|i: int, j: int|
        0 <= i < j < best.len() ==> row_before(t, #[trigger] best[i] as int, #[trigger] best[j] as int)
    &&& forall|c: int|
        #![trigger t.values()[c]]
        0 <= c < p && listed(t.values()[c], unwarmed_only) && !best.contains(c as usize)
            ==> best.len() == k && forall|i: int|
            0 <= i < best.len() ==> row_before(t, #[trigger] best[i] as int, c)
}

/// Indices of the first `k` rows that take part, in rank order.
pub fn ranked_rows(t: &Table<JarHotspot>, k: usize, unwarmed_only: bool) -> (best: Vec<usize>)
    ensures
        ranks_rows(best@, t, t.keys().len() as int, k as nat, unwarmed_only),
{
    let n = t.len();
    let mut best: Vec<usize> = Vec::new();
    if k == 0 {
        return best;
    }
    let mut p: usize = 0;
    while p < n
        invariant
            p <= n,
            k > 0,
            n == t.keys().len(),
            t.keys().len() == t.values().len(),
            t.keys().no_duplicates(),
            ranks_rows(best@, t, p as int, k as nat, unwarmed_only),
        decreases n - p,
    {
        let h = t.value_at(p);
        if !takes_part(h, unwarmed_only) {
            p = p + 1;
            continue ;
        }
        let key = t.key_at(p);
        // Find the first listed row that the new one ranks before.
        let mut pos: usize = 0;
        while pos < best.len() && !ranks_before_exec(
            h,
            key,
            t.value_at(best[pos]),
            t.key_at(best[pos]),
        )
            invariant
                pos <= best.len(),
                p < n,
                n == t.keys().len(),
                t.keys().len() == t.values().len(),
                *h == t.values()[p as int],
                key@ == t.keys()[p as int],
                forall|i: int| 0 <= i < best.len() ==> 0 <= (#[trigger] best[i]) < p,
                forall|i: int| 0 <= i < pos ==> !row_before(t, p as int, #[trigger] best[i] as int),
            decreases best.len() - pos,
        {
            pos = pos + 1;
        }
        let ghost old_best = best@;
        proof {
            assert forall|i: int| 0 <= i < pos implies row_before(
                t,
                #[trigger] old_best[i] as int,
                p as int,
            ) by {
                let b = old_best[i] as int;
                assert(t.keys()[b] != t.keys()[p as int]);
                lemma_rank_total(
                    t.values()[b],
                    t.keys()[b],
                    t.values()[p as int],
                    t.keys()[p as int],
                );
            }
            assert forall|i: int| pos <= i < old_best.len() implies row_before(
                t,
                p as int,
                #[trigger] old_best[i] as int,
            ) by {
                if i > pos {
                    let a = old_best[pos as int] as int;
                    let b = old_best[i] as int;
                    assert(row_before(t, a, b));
                    lemma_rank_transitive(
                        t.values()[p as int],
                        t.keys()[p as int],
                        t.values()[a],
                        t.keys()[a],
                        t.values()[b],
                        t.keys()[b],
                    );
                }
            }
        }
        if pos == best.len() && best.len() == k {
            proof {
                assert forall|c: int|
                    #![trigger t.values()[c]]
                    0 <= c < p + 1 && listed(t.values()[c], unwarmed_only) && !old_best.contains(
                        c as usize,
                    ) implies old_best.len() == k && forall|i: int|
                    0 <= i < old_best.len() ==> row_before(t, #[trigger] old_best[i] as int, c) by {
                    if c == p {
                    }
                }
            }
            p = p + 1;
            continue ;
        }
        best.insert(pos, p);
        let ghost mid = best@;
        proof {
            assert(mid == old_best.insert(pos as int, p));
            assert forall|i: int, j: int| 0 <= i < j < mid.len() implies row_before(
                t,
                #[trigger] mid[i] as int,
                #[trigger] mid[j] as int,
            ) by {
                if j < pos {
                    assert(mid[i] == old_best[i] && mid[j] == old_best[j]);
                } else if j == pos {
                    assert(mid[i] == old_best[i]);
                } else if i < pos {
                    assert(mid[i] == old_best[i] && mid[j] == old_best[j - 1]);
                } else if i == pos {
                    assert(mid[j] == old_best[j - 1]);
                } else {
                    assert(mid[i] == old_best[i - 1] && mid[j] == old_best[j - 1]);
                }
            }
            assert forall|i: int| 0 <= i < mid.len() implies 0 <= (#[trigger] mid[i]) < p + 1
                && listed(t.values()[mid[i] as int], unwarmed_only) by {
                if i < pos {
                    assert(mid[i] == old_best[i]);
                } else if i > pos {
                    assert(mid[i] == old_best[i - 1]);
                }
            }
            assert forall|x: usize| old_best.contains(x) implies mid.contains(x) by {
                let i = old_best.index_of(x);
                if i < pos {
                    assert(mid[i] == x);
                } else {
                    assert(mid[i + 1] == x);
                }
            }
            assert(mid[pos as int] == p);
        }
        if best.len() > k {
            let dropped = best.pop();
            proof {
                let last = mid.len() - 1;
                assert(best@ == mid.drop_last());
                assert forall|c: int|
                    #![trigger t.values()[c]]
                    0 <= c < p + 1 && listed(t.values()[c], unwarmed_only) && !best@.contains(
                        c as usize,
                    ) implies best@.len() == k && forall|i: int|
                    0 <= i < best@.len() ==> row_before(t, #[trigger] best@[i] as int, c) by {
                    assert forall|i: int| 0 <= i < best@.len() implies row_before(
                        t,
                        #[trigger] best@[i] as int,
                        c,
                    ) by {
                        assert(best@[i] == mid[i]);
                        if c == mid[last] as int {
                            assert(row_before(t, mid[i] as int, mid[last] as int));
                        } else {
                            // `c` was left out before; it ranks after the row that is dropped now.
                            assert(!mid.contains(c as usize)) by {
                                if mid.contains(c as usize) {
                                    let q = mid.index_of(c as usize);
                                    assert(q != last);
                                    assert(best@[q] == c as usize);
                                }
                            }
                            assert(!old_best.contains(c as usize));
                            assert(c != p);
                            if i == pos {
                                // the new row is not the last one
                                let w = old_best[old_best.len() - 1] as int;
                                assert(mid[last] == old_best[old_best.len() - 1]);
                                assert(row_before(t, p as int, w)) by {
                                    assert(pos <= old_best.len() - 1);
                                }
                                assert(row_before(t, w, c));
                                lemma_rank_transitive(
                                    t.values()[p as int],
                                    t.keys()[p as int],
                                    t.values()[w],
                                    t.keys()[w],
                                    t.values()[c],
                                    t.keys()[c],
                                );
                            } else if i < pos {
                                assert(mid[i] == old_best[i]);
                            } else {
                                assert(mid[i] == old_best[i - 1]);
                            }
                        }
                    }
                }
                assert forall|i: int, j: int| 0 <= i < j < best@.len() implies row_before(
                    t,
                    #[trigger] best@[i] as int,
                    #[trigger] best@[j] as int,
                ) by {
                    assert(best@[i] == mid[i] && best@[j] == mid[j]);
                }
            }
        } else {
            proof {
                assert forall|c: int|
                    #![trigger t.values()[c]]
                    0 <= c < p + 1 && listed(t.values()[c], unwarmed_only) && !mid.contains(
                        c as usize,
                    ) implies mid.len() == k && forall|i: int|
                    0 <= i < mid.len() ==> row_before(t, #[trigger] mid[i] as int, c) by {
                    assert(!old_best.contains(c as usize));
                    assert(c != p);
                }
            }
        }
        p = p + 1;
    }
    best
}

/// Decides, from the access counts in the store, which artifacts to warm.
pub struct HotspotTracker {
    warmup_threshold: u32,
}

impl HotspotTracker {
    /// The access count from which the thorough warmup is asked for.
    pub closed spec fn threshold(&self) -> u32 {
        self.warmup_threshold
    }

    #[verifier::type_invariant]
    spec fn positive(&self) -> bool {
        self.warmup_threshold >= 1
    }

    /// A tracker with the given threshold, raised to 1 when it is 0.
    pub fn new(warmup_threshold: u32) -> (r: Self)
        ensures
            r.threshold() == if warmup_threshold < 1 {
                1u32
            } else {
                warmup_threshold
            },
            r.threshold() >= 1,
    {
        HotspotTracker { warmup_threshold: if warmup_threshold < 1 { 1 } else { warmup_threshold } }
    }

    /// The threshold of this tracker.
    pub fn warmup_threshold(&self) -> (r: u32)
        ensures
            r == self.threshold(),
            r >= 1,
    {
        proof {
            use_type_invariant(self);
        }
        self.warmup_threshold
    }

    /// Counts one access to `jar_key` at time `now` and says which warmup,
    /// if any, it asks for.
    pub fn record_access_at(&self, db: &mut PersistentCache, jar_key: &str, now: u64) -> (r: Option<
        WarmupRequest,
    >)
        ensures
            final(db)@ == (StoreView {
                hotspots: old(db)@.hotspots.insert(
                    jar_key@,
                    old(db)@.hotspot_of(jar_key@).accessed(now),
                ),
                ..old(db)@
            }),
            final(db).path() == old(db).path(),
            r == request_for(old(db)@.hotspot_of(jar_key@).accessed(now), self.threshold()),
    {
        let mut hotspot = match db.hotspot(jar_key) {
            Some(h) => h,
            None => JarHotspot::default(),
        };
        hotspot.access_count = hotspot.access_count.saturating_add(1);
        hotspot.last_access = now;
        let mut request = None;
        if !hotspot.warmed {
            if hotspot.access_count >= self.warmup_threshold {
                request = Some(
                    WarmupRequest {
                        priority: WarmupPriority::High,
                        mode: WarmupMode::AllClasses,
                    },
                );
            } else if hotspot.access_count == 1 {
                request = Some(
                    WarmupRequest {
                        priority: WarmupPriority::Normal,
                        mode: WarmupMode::TopLevelOnly,
                    },
                );
            }
        }
        db.put_hotspot(jar_key, hotspot);
        request
    }

    /// Counts one access to `jar_key` at the current time.
    pub fn record_access(&self, db: &mut PersistentCache, jar_key: &str) -> (r: Option<
        WarmupRequest,
    >)
        ensures
            exists|now: u64|
                {
                    &&& final(db)@ == (StoreView {
                        hotspots: old(db)@.hotspots.insert(
                            jar_key@,
                            old(db)@.hotspot_of(jar_key@).accessed(now),
                        ),
                        ..old(db)@
                    })
                    &&& r == request_for(
                        #[trigger] old(db)@.hotspot_of(jar_key@).accessed(now),
                        self.threshold(),
                    )
                },
            final(db).path() == old(db).path(),
    {
        let now = unix_now();
        self.record_access_at(db, jar_key, now)
    }

    /// Records that `jar_key` was warmed and how many classes that gave.
    pub fn mark_warmed(&self, db: &mut PersistentCache, jar_key: &str, class_count: u32)
        ensures
            final(db)@ == (StoreView {
                hotspots: old(db)@.hotspots.insert(
                    jar_key@,
                    old(db)@.hotspot_of(jar_key@).warmed_with(class_count),
                ),
                ..old(db)@
            }),
            final(db).path() == old(db).path(),
    {
        let mut hotspot = match db.hotspot(jar_key) {
            Some(h) => h,
            None => JarHotspot::default(),
        };
        hotspot.warmed = true;
        hotspot.class_count = class_count;
        db.put_hotspot(jar_key, hotspot);
    }

    /// The access record of `jar_key`.
    pub fn get_hotspot(&self, db: &PersistentCache, jar_key: &str) -> (r: Option<JarHotspot>)
        ensures
            match r {
                Some(h) => db@.hotspots.contains_key(jar_key@) && db@.hotspots[jar_key@] == h,
                None => !db@.hotspots.contains_key(jar_key@),
            },
    {
        db.hotspot(jar_key)
    }

    /// Replaces the access record of `jar_key`.
    pub fn put_hotspot(&self, db: &mut PersistentCache, jar_key: &str, value: &JarHotspot)
        ensures
            final(db)@ == (StoreView {
                hotspots: old(db)@.hotspots.insert(jar_key@, *value),
                ..old(db)@
            }),
            final(db).path() == old(db).path(),
    {
        db.put_hotspot(jar_key, *value);
    }

    /// The `top` most used artifacts that were accessed and are not warmed
    /// yet, in rank order.
    pub fn top_unwarmed_jars(&self, db: &PersistentCache, top: usize) -> (r: Vec<String>)
        ensures
            is_ranking(r.deep_view(), db@.hotspots, top as nat, true),
    {
        let t = db.hotspot_table();
        let n = t.len();
        let rows = ranked_rows(t, top, true);
        let paths = row_keys(t, &rows);
        proof {
            lemma_ranking(rows@, t, top as nat, true, paths.deep_view());
        }
        paths
    }
}

/// The keys of the given rows.
pub fn row_keys(t: &Table<JarHotspot>, rows: &Vec<usize>) -> (paths: Vec<String>)
    requires
        forall|i: int| 0 <= i < rows.len() ==> (#[trigger] rows[i]) < t.keys().len(),
    ensures
        paths.len() == rows.len(),
        forall|i: int| 0 <= i < rows.len() ==> (#[trigger] paths[i])@ == t.keys()[rows[i] as int],
        paths.deep_view() == Seq::new(rows.len() as nat, |i: int| t.keys()[rows[i] as int]),
{
    let mut paths: Vec<String> = Vec::new();
    let mut i: usize = 0;
    while i < rows.len()
        invariant
            i <= rows.len(),
            paths.len() == i,
            forall|j: int| 0 <= j < rows.len() ==> (#[trigger] rows[j]) < t.keys().len(),
            forall|j: int| 0 <= j < i ==> (#[trigger] paths[j])@ == t.keys()[rows[j] as int],
        decreases rows.len() - i,
    {
        paths.push(t.key_at(rows[i]).clone());
        i = i + 1;
    }
    assert(paths.deep_view() =~= Seq::new(rows.len() as nat, |i: int| t.keys()[rows[i] as int]));
    paths
}

/// A ranking of rows is a ranking of the table's map.
pub proof fn lemma_ranking(
    rows: Seq<usize>,
    t: &Table<JarHotspot>,
    k: nat,
    unwarmed_only: bool,
    paths: Seq<Seq<char>>,
)
    requires
        ranks_rows(rows, t, t.keys().len() as int, k, unwarmed_only),
        paths == Seq::new(rows.len(), |i: int| t.keys()[rows[i] as int]),
        t.keys().len() <= usize::MAX,
        t.keys().no_duplicates(),
        t.keys().len() == t.values().len(),
        forall|i: int|
            0 <= i < t.keys().len() ==> t.model().contains_key(#[trigger] t.keys()[i])
                && t.model()[t.keys()[i]] == t.values()[i],
        forall|q: Seq<char>| t.model().contains_key(q) ==> t.keys().contains(q),
    ensures
        is_ranking(paths, t.model(), k, unwarmed_only),
{
    let m = t.model();
    let keys = t.keys();
    assert forall|i: int, j: int| 0 <= i < j < paths.len() implies ranks_before(
        m[#[trigger] paths[i]],
        paths[i],
        m[#[trigger] paths[j]],
        paths[j],
    ) by {
        assert(row_before(t, rows[i] as int, rows[j] as int));
    }
    assert forall|i: int, j: int| 0 <= i < paths.len() && 0 <= j < paths.len() && i
        != j implies paths[i] != paths[j] by {
        if i < j {
            assert(row_before(t, rows[i] as int, rows[j] as int));
        } else {
            assert(row_before(t, rows[j] as int, rows[i] as int));
        }
        lemma_rank_irreflexive(m[paths[i]], paths[i]);
    }
    assert forall|c: Seq<char>|
        #![trigger m.contains_key(c)]
        m.contains_key(c) && listed(m[c], unwarmed_only) && !paths.contains(c) implies paths.len()
            == k && forall|i: int|
        0 <= i < paths.len() ==> ranks_before(m[#[trigger] paths[i]], paths[i], m[c], c) by {
        assert(keys.contains(c));
        let ic = keys.index_of(c);
        assert(listed(t.values()[ic], unwarmed_only));
        assert(!rows.contains(ic as usize)) by {
            if rows.contains(ic as usize) {
                let q = rows.index_of(ic as usize);
                assert(paths[q] == c);
            }
        }
        assert forall|i: int| 0 <= i < paths.len() implies ranks_before(
            m[#[trigger] paths[i]],
            paths[i],
            m[c],
            c,
        ) by {
            assert(row_before(t, rows[i] as int, ic));
        }
    }
}

/// Reads the clock with `std::time::SystemTime::now` and gives the whole
/// seconds since the Unix epoch, 0 when the clock is set before it.
#[verifier::external_body]
fn unix_now() -> (now: u64) {
    std::time::SystemTime::now().duration_since(std::time::UNIX_EPOCH).unwrap_or_default().as_secs()
}


} // verus!
