//! Grouping of (source, target, weight) triples into a per-source map of
//! deduplicated target/weight pairs.
//!
//! The map is kept as an association sequence of `(key, value)` entries with
//! unique keys; its mathematical model is stated over `Seq<char>` keys.

use vstd::prelude::*;

verus! {

use crate::types::NetworkError;
use crate::types::DEFAULT_WEIGHT;

// ---------------------------------------------------------------------------
// Views of executable data as mathematical sequences
// ---------------------------------------------------------------------------

/// The sequence of character-sequence views of a sequence of strings.
pub open spec fn key_views(v: Seq<String>) -> Seq<Seq<char>> {
    v.map_values(|s: String| s@)
}

/// The model of a sequence of (target, weight) pairs.
pub open spec fn pairs_view(v: Seq<(String, u32)>) -> Seq<(Seq<char>, u32)> {
    v.map_values(|p: (String, u32)| (p.0@, p.1))
}

/// The model of a grouped map held as a vector of (source, members) entries.
pub open spec fn groups_view(v: Seq<(String, Vec<(String, u32)>)>) -> Seq<
    (Seq<char>, Seq<(Seq<char>, u32)>),
> {
    v.map_values(|e: (String, Vec<(String, u32)>)| (e.0@, pairs_view(e.1@)))
}

/// The model of an optional weight vector.
pub open spec fn weights_view(w: Option<Vec<u32>>) -> Option<Seq<u32>> {
    match w {
        Option::Some(v) => Option::Some(v@),
        Option::None => Option::None,
    }
}

// ---------------------------------------------------------------------------
// Association sequences
// ---------------------------------------------------------------------------

/// Does the association sequence `m` bind the key `k`?
pub open spec fn assoc_has<V>(m: Seq<(Seq<char>, V)>, k: Seq<char>) -> bool {
    exists|j: int| 0 <= j < m.len() && m[j].0 == k
}

/// The value bound to `k` in `m` (meaningful when `m` has unique keys).
pub open spec fn assoc_get<V>(m: Seq<(Seq<char>, V)>, k: Seq<char>) -> V {
    let j = choose|j: int| 0 <= j < m.len() && m[j].0 == k;
    m[j].1
}

/// Bind `k` to `v` in `m`: replace the entry holding `k` in place, or append
/// a new entry at the end.
pub open spec fn assoc_set<V>(m: Seq<(Seq<char>, V)>, k: Seq<char>, v: V) -> Seq<
    (Seq<char>, V),
> {
    if assoc_has(m, k) {
        let j = choose|j: int| 0 <= j < m.len() && m[j].0 == k;
        m.update(j, (k, v))
    } else {
        m.push((k, v))
    }
}

/// No two entries of `m` share a key.
pub open spec fn unique_keys<V>(m: Seq<(Seq<char>, V)>) -> bool {
    forall|j1: int, j2: int|
        #![trigger m[j1].0, m[j2].0]
        0 <= j1 < j2 < m.len() ==> m[j1].0 != m[j2].0
}

/// In a sequence with unique keys, an index is determined by its key.
pub proof fn lemma_key_index<V>(m: Seq<(Seq<char>, V)>, j1: int, j2: int)
    requires
        unique_keys(m),
        0 <= j1 < m.len(),
        0 <= j2 < m.len(),
        m[j1].0 == m[j2].0,
    ensures
        j1 == j2,
{
    if j1 < j2 {
        assert(m[j1].0 != m[j2].0);
    } else if j2 < j1 {
        assert(m[j2].0 != m[j1].0);
    }
}

/// What `assoc_set` does, entry by entry, when keys are unique.
pub proof fn lemma_assoc_set<V>(m: Seq<(Seq<char>, V)>, k: Seq<char>, v: V)
    requires
        unique_keys(m),
    ensures
        unique_keys(assoc_set(m, k, v)),
        assoc_has(assoc_set(m, k, v), k),
        assoc_get(assoc_set(m, k, v), k) == v,
        assoc_set(m, k, v).len() == if assoc_has(m, k) {
            m.len()
        } else {
            m.len() + 1
        },
        forall|k2: Seq<char>|
            k2 != k ==> (assoc_has(assoc_set(m, k, v), k2) <==> assoc_has(m, k2)),
        forall|k2: Seq<char>|
            k2 != k && assoc_has(m, k2) ==> assoc_get(assoc_set(m, k, v), k2) == assoc_get(
                m,
                k2,
            ),
        forall|j: int|
            0 <= j < assoc_set(m, k, v).len() ==> assoc_set(m, k, v)[j] == (k, v)
                || m.contains(assoc_set(m, k, v)[j]),
{
    let r = assoc_set(m, k, v);
    if assoc_has(m, k) {
        let j0 = choose|j: int| 0 <= j < m.len() && m[j].0 == k;
        assert(r == m.update(j0, (k, v)));
        assert(r[j0].0 == k);
        assert forall|j1: int, j2: int| 0 <= j1 < j2 < r.len() implies r[j1].0 != r[j2].0 by {
            assert(m[j1].0 != m[j2].0);
        }
        assert(assoc_get(r, k) == v) by {
            let j1 = choose|j: int| 0 <= j < r.len() && r[j].0 == k;
            if j1 != j0 {
                assert(m[j1].0 == k);
            }
        }
        assert forall|k2: Seq<char>| k2 != k && assoc_has(m, k2) implies assoc_has(r, k2)
            && assoc_get(r, k2) == assoc_get(m, k2) by {
            let j1 = choose|j: int| 0 <= j < m.len() && m[j].0 == k2;
            assert(j1 != j0);
            assert(r[j1].0 == k2);
            let j2 = choose|j: int| 0 <= j < r.len() && r[j].0 == k2;
            if j2 != j1 {
                assert(m[j2].0 == k2 || j2 == j0);
            }
        }
        assert forall|k2: Seq<char>| k2 != k && assoc_has(r, k2) implies assoc_has(m, k2) by {
            let j1 = choose|j: int| 0 <= j < r.len() && r[j].0 == k2;
            assert(j1 != j0);
            assert(m[j1].0 == k2);
        }
        assert forall|j: int| 0 <= j < r.len() implies r[j] == (k, v) || m.contains(r[j]) by {
            if j != j0 {
                assert(r[j] == m[j]);
                assert(m.contains(r[j]));
            }
        }
    } else {
        assert(r == m.push((k, v)));
        assert(r[m.len() as int].0 == k);
        assert forall|j1: int, j2: int| 0 <= j1 < j2 < r.len() implies r[j1].0 != r[j2].0 by {
            if j2 < m.len() {
                assert(m[j1].0 != m[j2].0);
            } else {
                assert(r[j2].0 == k);
                assert(!(m[j1].0 == k));
            }
        }
        assert(assoc_get(r, k) == v) by {
            let j1 = choose|j: int| 0 <= j < r.len() && r[j].0 == k;
            if j1 != m.len() {
                assert(m[j1].0 == k);
            }
        }
        assert forall|k2: Seq<char>| k2 != k && assoc_has(m, k2) implies assoc_has(r, k2)
            && assoc_get(r, k2) == assoc_get(m, k2) by {
            let j1 = choose|j: int| 0 <= j < m.len() && m[j].0 == k2;
            assert(r[j1].0 == k2);
            let j2 = choose|j: int| 0 <= j < r.len() && r[j].0 == k2;
            assert(j2 != m.len());
            assert(m[j2].0 == k2);
            if j2 != j1 {
                assert(m[j1].0 != m[j2].0 || m[j2].0 != m[j1].0);
            }
        }
        assert forall|k2: Seq<char>| k2 != k && assoc_has(r, k2) implies assoc_has(m, k2) by {
            let j1 = choose|j: int| 0 <= j < r.len() && r[j].0 == k2;
            assert(j1 != m.len());
            assert(m[j1].0 == k2);
        }
        assert forall|j: int| 0 <= j < r.len() implies r[j] == (k, v) || m.contains(r[j]) by {
            if j < m.len() {
                assert(r[j] == m[j]);
                assert(m.contains(r[j]));
            }
        }
    }
}

// ---------------------------------------------------------------------------
// Model of the grouping pass
// ---------------------------------------------------------------------------

/// The weight carried by triple `i`: the supplied one where a weight sequence
/// is present, the default weight otherwise.
pub open spec fn weight_at(w: Option<Seq<u32>>, i: int) -> u32 {
    match w {
        Option::Some(ws) => ws[i],
        Option::None => DEFAULT_WEIGHT,
    }
}

/// The (target, weight) pairs carried by the triples, positionally.
pub open spec fn input_pairs(t: Seq<Seq<char>>, w: Option<Seq<u32>>) -> Seq<(Seq<char>, u32)> {
    Seq::new(t.len(), |i: int| (t[i], weight_at(w, i)))
}

/// Deduplication of a run of (target, weight) pairs: each target keeps the
/// position of its first occurrence and the weight of its last occurrence.
pub open spec fn dedup_pairs(ps: Seq<(Seq<char>, u32)>) -> Seq<(Seq<char>, u32)>
    decreases ps.len(),
{
    if ps.len() == 0 {
        Seq::empty()
    } else {
        assoc_set(dedup_pairs(ps.drop_last()), ps.last().0, ps.last().1)
    }
}

/// The grouped map and the working set of the current run after the first
/// `i` triples have been consumed.  A run ends where the source key changes;
/// the finished run is then flushed into the map under its key, a key seen
/// in an earlier run losing its earlier entry.
pub open spec fn group_state(
    s: Seq<Seq<char>>,
    t: Seq<Seq<char>>,
    w: Option<Seq<u32>>,
    i: int,
) -> (Seq<(Seq<char>, Seq<(Seq<char>, u32)>)>, Seq<(Seq<char>, u32)>)
    decreases i,
{
    if i <= 0 {
        (Seq::empty(), Seq::empty())
    } else {
        let (m, cur) = group_state(s, t, w, i - 1);
        if i == 1 || s[i - 1] == s[i - 2] {
            (m, assoc_set(cur, t[i - 1], weight_at(w, i - 1)))
        } else {
            (
                assoc_set(m, s[i - 2], cur),
                assoc_set(Seq::empty(), t[i - 1], weight_at(w, i - 1)),
            )
        }
    }
}

/// The grouped map of the whole input: contiguous runs of one source key,
/// each deduplicated, keyed by that source key; where a key occurs in more
/// than one run, only the last run survives.
pub open spec fn grouped_map(s: Seq<Seq<char>>, t: Seq<Seq<char>>, w: Option<Seq<u32>>) -> Seq<
    (Seq<char>, Seq<(Seq<char>, u32)>),
> {
    let (m, cur) = group_state(s, t, w, s.len() as int);
    if s.len() == 0 {
        m
    } else {
        assoc_set(m, s[s.len() - 1], cur)
    }
}

/// The source/target/weight arrays agree in length.
pub open spec fn lengths_ok(s: Seq<Seq<char>>, t: Seq<Seq<char>>, w: Option<Seq<u32>>) -> bool {
    s.len() == t.len() && (w matches Option::Some(ws) ==> ws.len() == s.len())
}

/// The grouped map is well formed: unique keys, and no key bound to an empty
/// member list.
pub open spec fn grouped_wf(m: Seq<(Seq<char>, Seq<(Seq<char>, u32)>)>) -> bool {
    unique_keys(m) && forall|g: int| 0 <= g < m.len() ==> #[trigger] m[g].1.len() > 0
}

/// The intermediate grouping states are well formed: the map keeps unique
/// keys and non-empty values, and the working set keeps unique keys and is
/// non-empty once a triple has been consumed.
pub proof fn lemma_group_state_wf(
    s: Seq<Seq<char>>,
    t: Seq<Seq<char>>,
    w: Option<Seq<u32>>,
    i: int,
)
    requires
        0 <= i,
    ensures
        grouped_wf(group_state(s, t, w, i).0),
        unique_keys(group_state(s, t, w, i).1),
        i > 0 ==> group_state(s, t, w, i).1.len() > 0,
    decreases i,
{
    if i > 0 {
        lemma_group_state_wf(s, t, w, i - 1);
        let (m, cur) = group_state(s, t, w, i - 1);
        if i == 1 || s[i - 1] == s[i - 2] {
            lemma_assoc_set(cur, t[i - 1], weight_at(w, i - 1));
        } else {
            lemma_assoc_set(m, s[i - 2], cur);
            lemma_assoc_set(Seq::<(Seq<char>, u32)>::empty(), t[i - 1], weight_at(w, i - 1));
            let m2 = assoc_set(m, s[i - 2], cur);
            assert forall|g: int| 0 <= g < m2.len() implies #[trigger] m2[g].1.len() > 0 by {
                if m2[g] != (s[i - 2], cur) {
                    assert(m.contains(m2[g]));
                    let j = choose|j: int| 0 <= j < m.len() && m[j] == m2[g];
                    assert(m[j].1.len() > 0);
                }
            }
        }
    }
}

/// The grouped map of any input is well formed.
pub proof fn lemma_grouped_map_wf(s: Seq<Seq<char>>, t: Seq<Seq<char>>, w: Option<Seq<u32>>)
    ensures
        grouped_wf(grouped_map(s, t, w)),
{
    lemma_group_state_wf(s, t, w, s.len() as int);
    if s.len() > 0 {
        let (m, cur) = group_state(s, t, w, s.len() as int);
        lemma_assoc_set(m, s[s.len() - 1], cur);
        let m2 = assoc_set(m, s[s.len() - 1], cur);
        assert forall|g: int| 0 <= g < m2.len() implies #[trigger] m2[g].1.len() > 0 by {
            if m2[g] != (s[s.len() - 1], cur) {
                assert(m.contains(m2[g]));
                let j = choose|j: int| 0 <= j < m.len() && m[j] == m2[g];
                assert(m[j].1.len() > 0);
            }
        }
    }
}

/// A deduplicated run holds each target key at most once.
pub proof fn lemma_dedup_unique(ps: Seq<(Seq<char>, u32)>)
    ensures
        unique_keys(dedup_pairs(ps)),
    decreases ps.len(),
{
    if ps.len() > 0 {
        lemma_dedup_unique(ps.drop_last());
        lemma_assoc_set(dedup_pairs(ps.drop_last()), ps.last().0, ps.last().1);
    }
}

/// Within one deduplicated run, a target key that occurs several times keeps
/// exactly the weight of its last occurrence: the occurrence at `j` after
/// which the key never recurs is the one bound in the result.
pub proof fn lemma_dedup_last_write(ps: Seq<(Seq<char>, u32)>, j: int)
    requires
        0 <= j < ps.len(),
        forall|l: int| j < l < ps.len() ==> (#[trigger] ps[l]).0 != ps[j].0,
    ensures
        assoc_has(dedup_pairs(ps), ps[j].0),
        assoc_get(dedup_pairs(ps), ps[j].0) == ps[j].1,
    decreases ps.len(),
{
    lemma_dedup_unique(ps.drop_last());
    let d0 = dedup_pairs(ps.drop_last());
    lemma_assoc_set(d0, ps.last().0, ps.last().1);
    if j < ps.len() - 1 {
        assert(ps[ps.len() - 1].0 != ps[j].0);
        assert forall|l: int|
            j < l < ps.drop_last().len() implies (#[trigger] ps.drop_last()[l]).0
            != ps.drop_last()[j].0 by {
            assert(ps.drop_last()[l] == ps[l]);
        }
        lemma_dedup_last_write(ps.drop_last(), j);
        assert(ps.drop_last()[j] == ps[j]);
    }
}

/// Helper for `lemma_single_run_dedup`: while the source key never changes,
/// the grouped map stays empty and the working set is the deduplication of
/// the pairs consumed so far.
proof fn lemma_single_run_state(s: Seq<Seq<char>>, t: Seq<Seq<char>>, w: Option<Seq<u32>>, i: int)
    requires
        lengths_ok(s, t, w),
        s.len() > 0,
        0 <= i <= s.len(),
        forall|l: int| 0 <= l < s.len() ==> #[trigger] s[l] == s[0],
    ensures
        group_state(s, t, w, i).0 == Seq::<(Seq<char>, Seq<(Seq<char>, u32)>)>::empty(),
        group_state(s, t, w, i).1 == dedup_pairs(input_pairs(t, w).take(i)),
    decreases i,
{
    let ps = input_pairs(t, w);
    if i == 0 {
        assert(ps.take(0) =~= Seq::<(Seq<char>, u32)>::empty());
    } else {
        lemma_single_run_state(s, t, w, i - 1);
        assert(s[i - 1] == s[0]);
        assert(ps.take(i).drop_last() =~= ps.take(i - 1));
        assert(ps.take(i).last() == ps[i - 1]);
        assert(ps[i - 1] == (t[i - 1], weight_at(w, i - 1)));
    }
}

/// An input that is one contiguous run of a single source key groups to
/// exactly one entry, keyed by that source key, whose members are the run's
/// (target, weight) pairs deduplicated with last-write-wins.
pub proof fn lemma_single_run_dedup(s: Seq<Seq<char>>, t: Seq<Seq<char>>, w: Option<Seq<u32>>)
    requires
        lengths_ok(s, t, w),
        s.len() > 0,
        forall|l: int| 0 <= l < s.len() ==> #[trigger] s[l] == s[0],
    ensures
        grouped_map(s, t, w) == seq![(s[0], dedup_pairs(input_pairs(t, w)))],
{
    lemma_single_run_state(s, t, w, s.len() as int);
    let ps = input_pairs(t, w);
    assert(ps.take(s.len() as int) =~= ps);
    let me = Seq::<(Seq<char>, Seq<(Seq<char>, u32)>)>::empty();
    assert(!assoc_has(me, s[s.len() - 1]));
    assert(s[s.len() - 1] == s[0]);
    assert(grouped_map(s, t, w) =~= seq![(s[0], dedup_pairs(ps))]);
}

// ---------------------------------------------------------------------------
// Executable association updates
// ---------------------------------------------------------------------------

/// Bind target `k` to weight `v` in the working set, replacing the weight in
/// place where `k` is already present.
fn set_pair(m: &mut Vec<(String, u32)>, k: String, v: u32)
    requires
        unique_keys(pairs_view(old(m)@)),
    ensures
        pairs_view(final(m)@) == assoc_set(pairs_view(old(m)@), k@, v),
        unique_keys(pairs_view(final(m)@)),
{
    proof {
        lemma_assoc_set(pairs_view(m@), k@, v);
    }
    let ghost m0 = pairs_view(m@);
    let mut j: usize = 0;
    while j < m.len()
        invariant
            m@ == old(m)@,
            m0 == pairs_view(m@),
            unique_keys(m0),
            j <= m@.len(),
            forall|l: int| 0 <= l < j ==> #[trigger] m0[l].0 != k@,
        decreases m@.len() - j,
    {
        if m[j].0.eq(&k) {
            proof {
                assert(m0[j as int] == (m@[j as int].0@, m@[j as int].1));
                assert(m0[j as int].0 == k@);
                assert(assoc_has(m0, k@));
                let j2 = choose|l: int| 0 <= l < m0.len() && m0[l].0 == k@;
                lemma_key_index(m0, j2, j as int);
            }
            m[j] = (k, v);
            proof {
                assert(pairs_view(m@) =~= m0.update(j as int, (k@, v)));
            }
            return ;
        }
        j += 1;
    }
    proof {
        assert(!assoc_has(m0, k@));
    }
    m.push((k, v));
    proof {
        assert(pairs_view(m@) =~= m0.push((k@, v)));
    }
}

/// Bind source `k` to member list `v` in the grouped map, replacing the
/// members in place where `k` is already present.
fn set_group(m: &mut Vec<(String, Vec<(String, u32)>)>, k: String, v: Vec<(String, u32)>)
    requires
        unique_keys(groups_view(old(m)@)),
    ensures
        groups_view(final(m)@) == assoc_set(groups_view(old(m)@), k@, pairs_view(v@)),
        unique_keys(groups_view(final(m)@)),
{
    proof {
        lemma_assoc_set(groups_view(m@), k@, pairs_view(v@));
    }
    let ghost m0 = groups_view(m@);
    let mut j: usize = 0;
    while j < m.len()
        invariant
            m@ == old(m)@,
            m0 == groups_view(m@),
            unique_keys(m0),
            j <= m@.len(),
            forall|l: int| 0 <= l < j ==> #[trigger] m0[l].0 != k@,
        decreases m@.len() - j,
    {
        if m[j].0.eq(&k) {
            proof {
                assert(m0[j as int] == (m@[j as int].0@, pairs_view(m@[j as int].1@)));
                assert(m0[j as int].0 == k@);
                assert(assoc_has(m0, k@));
                let j2 = choose|l: int| 0 <= l < m0.len() && m0[l].0 == k@;
                lemma_key_index(m0, j2, j as int);
            }
            m[j] = (k, v);
            proof {
                assert(groups_view(m@) =~= m0.update(j as int, (k@, pairs_view(v@))));
            }
            return ;
        }
        j += 1;
    }
    proof {
        assert(!assoc_has(m0, k@));
    }
    m.push((k, v));
    proof {
        assert(groups_view(m@) =~= m0.push((k@, pairs_view(v@))));
    }
}

// ---------------------------------------------------------------------------
// The grouping pass
// ---------------------------------------------------------------------------

/// Groups the positional (source, target, weight) triples by source key.
///
/// Identical source keys are assumed to appear contiguously: each maximal run
/// of one source key becomes one entry of the returned map, its members the
/// run's (target, weight) pairs with a repeated target keeping only the last
/// weight.  A source key occurring in several disjoint runs keeps only the
/// last run's members.  Where the three arrays disagree in length, the call
/// fails with `LengthMismatch` before any grouping work.
///
/// The `verbose` flag is accepted for interface compatibility and has no
/// effect on the result.
pub fn validate_net(
    source: Vec<String>,
    target: Vec<String>,
    weights: Option<Vec<u32>>,
    verbose: bool,
) -> (r: Result<Vec<(String, Vec<(String, u32)>)>, NetworkError>)
    ensures
        ({
            let s = key_views(source@);
            let t = key_views(target@);
            let w = weights_view(weights);
            &&& (r is Err <==> !lengths_ok(s, t, w))
            &&& (r matches Err(e) ==> e == NetworkError::LengthMismatch)
            &&& (r matches Ok(m) ==> {
                &&& groups_view(m@) == grouped_map(s, t, w)
                &&& grouped_wf(groups_view(m@))
            })
        }),
{
    let ghost s = key_views(source@);
    let ghost t = key_views(target@);
    let ghost w = weights_view(weights);
    let n = source.len();
    if n != target.len() {
        return Err(NetworkError::LengthMismatch);
    }
    match &weights {
        Some(ws) => {
            if ws.len() != n {
                return Err(NetworkError::LengthMismatch);
            }
        },
        None => {},
    }
    let mut map: Vec<(String, Vec<(String, u32)>)> = Vec::new();
    let mut cur: Vec<(String, u32)> = Vec::new();
    let mut i: usize = 0;
    while i < n
        invariant
            i <= n,
            n == s.len(),
            n == t.len(),
            s == key_views(source@),
            t == key_views(target@),
            w == weights_view(weights),
            lengths_ok(s, t, w),
            groups_view(map@) == group_state(s, t, w, i as int).0,
            pairs_view(cur@) == group_state(s, t, w, i as int).1,
        decreases n - i,
    {
        proof {
            lemma_group_state_wf(s, t, w, i as int);
        }
        if i > 0 && !(source[i].eq(&source[i - 1])) {
            let prev = source[i - 1].clone();
            set_group(&mut map, prev, cur);
            cur = Vec::new();
        }
        let wv: u32 = match &weights {
            Some(ws) => ws[i],
            None => DEFAULT_WEIGHT,
        };
        let tk = target[i].clone();
        set_pair(&mut cur, tk, wv);
        i += 1;
    }
    if n > 0 {
        proof {
            lemma_group_state_wf(s, t, w, n as int);
        }
        let last = source[n - 1].clone();
        set_group(&mut map, last, cur);
    }
    proof {
        lemma_grouped_map_wf(s, t, w);
    }
    Ok(map)
}

} // verus!
