//! Core data types: operation direction, distance metrics, batch
//! identifiers, and the flattened sparse pathway network.

use vstd::prelude::*;
use vstd::slice::slice_subrange;

verus! {

use crate::utils::grouped_map;
use crate::utils::key_views;
use crate::utils::lengths_ok;
use crate::utils::pairs_view;
use crate::utils::groups_view;
use crate::utils::validate_net;
use crate::utils::weights_view;

/// The weight recorded for a triple that carries no explicit weight: the
/// bit pattern of an IEEE-754 single-precision one.  Weights run through
/// this library as opaque 32-bit patterns; interpreting them as numbers is
/// the surrounding layer's concern.
pub const DEFAULT_WEIGHT: u32 = 0x3F80_0000;

/// The ways in which building or reading a network can fail.
#[derive(Clone, Copy, Debug, PartialEq, Eq, Structural)]
pub enum NetworkError {
    /// The source, target and weight arrays do not agree in length.
    LengthMismatch,
    /// A target name of a retained group has no entry in the vocabulary.
    UnresolvedTarget,
    /// An accessor was called with a group index at or past the group count.
    IndexOutOfRange,
}

/// Represents the direction of operations in matrix or array computations.
///
/// This enum is used to specify whether operations should be performed
/// along rows or columns of a data structure.
pub enum Direction {
    /// Operations performed along columns (vertical direction)
    COLUMN,
    /// Operations performed along rows (horizontal direction)
    ROW,
}

impl Clone for Direction {
    /// Yields an identical direction.
    fn clone(&self) -> (r: Self)
        ensures
            r == self,
    {
        match self {
            Direction::ROW => Direction::ROW,
            Direction::COLUMN => Direction::COLUMN,
        }
    }
}

impl Direction {
    /// Checks if the direction is row-wise.
    ///
    /// Returns `true` if the direction is `ROW`, `false` if it is `COLUMN`.
    pub fn is_row(&self) -> (r: bool)
        ensures
            r <==> self is ROW,
    {
        match self {
            Direction::ROW => true,
            Direction::COLUMN => false,
        }
    }
}

/// Enumeration of distance metrics for mathematical computations.
///
/// Each variant represents a different approach to measuring the distance
/// between points or vectors.
#[derive(Debug, Clone, Copy)]
pub enum DistanceMetric {
    /// Euclidean distance (L2 norm) - straight-line distance between points
    Euclidean,
    /// Manhattan distance (L1 norm) - sum of absolute differences per dimension
    Manhattan,
    /// Cosine distance - the cosine of the angle between vectors
    Cosine,
}

/// A trait for types that can serve as batch identifiers.
///
/// Types implementing this trait must be cloneable, comparable for equality,
/// and hashable for efficient lookup operations.
pub trait BatchIdentifier: Clone + Eq + core::hash::Hash {}

impl BatchIdentifier for String {}

impl<'a> BatchIdentifier for &'a str {}

impl BatchIdentifier for i32 {}

impl BatchIdentifier for u32 {}

impl BatchIdentifier for usize {}

// ---------------------------------------------------------------------------
// Model of vocabulary resolution, filtering, and flattening
// ---------------------------------------------------------------------------

/// The integer sequence standing for a sequence of machine indices.
pub open spec fn usize_views(v: Seq<usize>) -> Seq<int> {
    v.map_values(|x: usize| x as int)
}

/// The index of `name` in the vocabulary `f`: the position of its last
/// occurrence (later duplicates shadow earlier ones), or -1 where `name`
/// does not occur.
pub open spec fn vocab_index(f: Seq<Seq<char>>, name: Seq<char>) -> int
    decreases f.len(),
{
    if f.len() == 0 {
        -1
    } else if f.last() == name {
        f.len() - 1
    } else {
        vocab_index(f.drop_last(), name)
    }
}

/// Every target of the member list `ps` resolves in the vocabulary `f`.
pub open spec fn group_resolvable(ps: Seq<(Seq<char>, u32)>, f: Seq<Seq<char>>) -> bool {
    forall|j: int| 0 <= j < ps.len() ==> vocab_index(f, #[trigger] ps[j].0) >= 0
}

/// Every member of every group of `m` resolves in the vocabulary `f`.
pub open spec fn all_resolvable(
    m: Seq<(Seq<char>, Seq<(Seq<char>, u32)>)>,
    f: Seq<Seq<char>>,
) -> bool {
    forall|g: int| 0 <= g < m.len() ==> group_resolvable(#[trigger] m[g].1, f)
}

/// The groups of `m` with at least `tmin` members, in order.
pub open spec fn filter_groups(
    m: Seq<(Seq<char>, Seq<(Seq<char>, u32)>)>,
    tmin: int,
) -> Seq<(Seq<char>, Seq<(Seq<char>, u32)>)>
    decreases m.len(),
{
    if m.len() == 0 {
        Seq::empty()
    } else if m.last().1.len() >= tmin {
        filter_groups(m.drop_last(), tmin).push(m.last())
    } else {
        filter_groups(m.drop_last(), tmin)
    }
}

/// The vocabulary indices of one group's members, positionally.
pub open spec fn run_indices(ps: Seq<(Seq<char>, u32)>, f: Seq<Seq<char>>) -> Seq<int> {
    ps.map_values(|p: (Seq<char>, u32)| vocab_index(f, p.0))
}

/// The weights of one group's members, positionally.
pub open spec fn run_weights(ps: Seq<(Seq<char>, u32)>) -> Seq<u32> {
    ps.map_values(|p: (Seq<char>, u32)| p.1)
}

/// The total number of members over all groups of `m`.
pub open spec fn sum_lens(m: Seq<(Seq<char>, Seq<(Seq<char>, u32)>)>) -> int
    decreases m.len(),
{
    if m.len() == 0 {
        0
    } else {
        sum_lens(m.drop_last()) + m.last().1.len()
    }
}

/// The group names of `m`, in order.
pub open spec fn flat_names(m: Seq<(Seq<char>, Seq<(Seq<char>, u32)>)>) -> Seq<Seq<char>> {
    m.map_values(|e: (Seq<char>, Seq<(Seq<char>, u32)>)| e.0)
}

/// The member counts of the groups of `m`, in order.
pub open spec fn flat_lens(m: Seq<(Seq<char>, Seq<(Seq<char>, u32)>)>) -> Seq<int> {
    m.map_values(|e: (Seq<char>, Seq<(Seq<char>, u32)>)| e.1.len() as int)
}

/// The start offset of each group of `m` in the flattened arrays: the sum of
/// the member counts of the groups before it.
pub open spec fn flat_starts(m: Seq<(Seq<char>, Seq<(Seq<char>, u32)>)>) -> Seq<int>
    decreases m.len(),
{
    if m.len() == 0 {
        Seq::empty()
    } else {
        flat_starts(m.drop_last()).push(sum_lens(m.drop_last()))
    }
}

/// The flattened connectivity of `m`: the vocabulary indices of every
/// group's members, group by group.
pub open spec fn flat_cnct(
    m: Seq<(Seq<char>, Seq<(Seq<char>, u32)>)>,
    f: Seq<Seq<char>>,
) -> Seq<int>
    decreases m.len(),
{
    if m.len() == 0 {
        Seq::empty()
    } else {
        flat_cnct(m.drop_last(), f) + run_indices(m.last().1, f)
    }
}

/// The flattened weights of `m`, aligned with `flat_cnct`.
pub open spec fn flat_weights(m: Seq<(Seq<char>, Seq<(Seq<char>, u32)>)>) -> Seq<u32>
    decreases m.len(),
{
    if m.len() == 0 {
        Seq::empty()
    } else {
        flat_weights(m.drop_last()) + run_weights(m.last().1)
    }
}

/// The mathematical value of a flattened network: five parallel sequences.
pub struct NetModel {
    /// Group names, one per retained group.
    pub names: Seq<Seq<char>>,
    /// Start offset of each group in `cnct` and `weights`.
    pub starts: Seq<int>,
    /// Member count of each group.
    pub lens: Seq<int>,
    /// Flattened feature indices of all groups.
    pub cnct: Seq<int>,
    /// Flattened weights, aligned with `cnct`.
    pub weights: Seq<u32>,
}

/// The network model flattened from the grouped map `m` under vocabulary `f`.
pub open spec fn net_model(
    m: Seq<(Seq<char>, Seq<(Seq<char>, u32)>)>,
    f: Seq<Seq<char>>,
) -> NetModel {
    NetModel {
        names: flat_names(m),
        starts: flat_starts(m),
        lens: flat_lens(m),
        cnct: flat_cnct(m, f),
        weights: flat_weights(m),
    }
}

/// The network model built from raw triples: group by source, drop groups
/// with fewer than `tmin` members, resolve and flatten.
pub open spec fn full_model(
    s: Seq<Seq<char>>,
    t: Seq<Seq<char>>,
    w: Option<Seq<u32>>,
    f: Seq<Seq<char>>,
    tmin: int,
) -> NetModel {
    net_model(filter_groups(grouped_map(s, t, w), tmin), f)
}

// ---------------------------------------------------------------------------
// Lemmas about the flattening model
// ---------------------------------------------------------------------------

/// The flattened arrays hold one entry per member: their length is the sum
/// of the group lengths, and the offset array has one entry per group.
pub proof fn lemma_flat_lengths(m: Seq<(Seq<char>, Seq<(Seq<char>, u32)>)>, f: Seq<Seq<char>>)
    ensures
        flat_cnct(m, f).len() == sum_lens(m),
        flat_weights(m).len() == sum_lens(m),
        flat_starts(m).len() == m.len(),
        sum_lens(m) >= 0,
    decreases m.len(),
{
    if m.len() > 0 {
        lemma_flat_lengths(m.drop_last(), f);
    }
}

/// The total member count of a prefix grows by the length of each group
/// taken in.
pub proof fn lemma_sum_lens_take_step(m: Seq<(Seq<char>, Seq<(Seq<char>, u32)>)>, i: int)
    requires
        0 <= i < m.len(),
    ensures
        sum_lens(m.take(i + 1)) == sum_lens(m.take(i)) + m[i].1.len(),
{
    assert(m.take(i + 1).drop_last() =~= m.take(i));
    assert(m.take(i + 1).last() == m[i]);
}

/// Prefix sums of member counts are monotone.
pub proof fn lemma_sum_lens_monotone(m: Seq<(Seq<char>, Seq<(Seq<char>, u32)>)>, i: int, j: int)
    requires
        0 <= i <= j <= m.len(),
    ensures
        sum_lens(m.take(i)) <= sum_lens(m.take(j)),
    decreases j - i,
{
    if i < j {
        lemma_sum_lens_monotone(m, i, j - 1);
        lemma_sum_lens_take_step(m, j - 1);
    }
}

/// Each start offset is the total member count of the groups before it.
pub proof fn lemma_flat_starts_entry(m: Seq<(Seq<char>, Seq<(Seq<char>, u32)>)>, i: int)
    requires
        0 <= i < m.len(),
    ensures
        flat_starts(m)[i] == sum_lens(m.take(i)),
    decreases m.len(),
{
    lemma_flat_lengths(m, Seq::empty());
    if i == m.len() - 1 {
        assert(m.take(i) =~= m.drop_last());
    } else {
        lemma_flat_starts_entry(m.drop_last(), i);
        assert(m.drop_last().take(i) =~= m.take(i));
    }
}

/// Every group's slice lies inside the flattened arrays.
pub proof fn lemma_slice_in_bounds(
    m: Seq<(Seq<char>, Seq<(Seq<char>, u32)>)>,
    f: Seq<Seq<char>>,
    i: int,
)
    requires
        0 <= i < m.len(),
    ensures
        0 <= flat_starts(m)[i],
        0 <= flat_lens(m)[i],
        flat_starts(m)[i] + flat_lens(m)[i] <= flat_cnct(m, f).len(),
{
    lemma_flat_lengths(m, f);
    lemma_flat_starts_entry(m, i);
    lemma_sum_lens_take_step(m, i);
    lemma_sum_lens_monotone(m, 0, i);
    lemma_sum_lens_monotone(m, i + 1, m.len() as int);
    assert(m.take(m.len() as int) =~= m);
}

/// The slices of two distinct groups never overlap: the earlier group's
/// slice ends at or before the later group's slice begins.
pub proof fn lemma_slices_disjoint(
    m: Seq<(Seq<char>, Seq<(Seq<char>, u32)>)>,
    i: int,
    j: int,
)
    requires
        0 <= i < j < m.len(),
    ensures
        flat_starts(m)[i] + flat_lens(m)[i] <= flat_starts(m)[j],
{
    lemma_flat_starts_entry(m, i);
    lemma_flat_starts_entry(m, j);
    lemma_sum_lens_take_step(m, i);
    lemma_sum_lens_monotone(m, i + 1, j);
}

/// The vocabulary index of `name` is the position of its last occurrence:
/// that position holds `name` and no later position does, so a duplicate
/// vocabulary entry shadows every earlier one.  A negative index means
/// `name` occurs nowhere in the vocabulary.
pub proof fn lemma_vocab_index_last(f: Seq<Seq<char>>, name: Seq<char>)
    ensures
        -1 <= vocab_index(f, name) < f.len(),
        vocab_index(f, name) >= 0 ==> f[vocab_index(f, name)] == name,
        forall|i: int| vocab_index(f, name) < i < f.len() ==> #[trigger] f[i] != name,
    decreases f.len(),
{
    if f.len() > 0 && f.last() != name {
        lemma_vocab_index_last(f.drop_last(), name);
        assert forall|i: int|
            vocab_index(f, name) < i < f.len() implies #[trigger] f[i] != name by {
            if i < f.len() - 1 {
                assert(f.drop_last()[i] != name);
            }
        }
    }
}

/// Every entry of the flattened connectivity of a fully resolvable grouped
/// map is a valid position in the vocabulary.
pub proof fn lemma_cnct_indices_valid(
    m: Seq<(Seq<char>, Seq<(Seq<char>, u32)>)>,
    f: Seq<Seq<char>>,
)
    requires
        all_resolvable(m, f),
    ensures
        forall|j: int|
            0 <= j < flat_cnct(m, f).len() ==> 0 <= #[trigger] flat_cnct(m, f)[j] < f.len(),
    decreases m.len(),
{
    if m.len() > 0 {
        assert forall|g: int|
            0 <= g < m.drop_last().len() implies group_resolvable(
            #[trigger] m.drop_last()[g].1,
            f,
        ) by {
            assert(m.drop_last()[g] == m[g]);
            assert(group_resolvable(m[g].1, f));
        }
        lemma_cnct_indices_valid(m.drop_last(), f);
        let ps = m.last().1;
        assert(m[m.len() - 1].1 == ps);
        assert(group_resolvable(ps, f));
        let prefix = flat_cnct(m.drop_last(), f);
        assert forall|j: int|
            0 <= j < flat_cnct(m, f).len() implies 0 <= #[trigger] flat_cnct(m, f)[j]
            < f.len() by {
            if j < prefix.len() {
                assert(flat_cnct(m, f)[j] == prefix[j]);
            } else {
                let l = j - prefix.len();
                assert(flat_cnct(m, f)[j] == run_indices(ps, f)[l]);
                assert(run_indices(ps, f)[l] == vocab_index(f, ps[l].0));
                lemma_vocab_index_last(f, ps[l].0);
            }
        }
    }
}

/// No group below the member threshold survives the filter: every filtered
/// group keeps at least `tmin` members.
pub proof fn lemma_filter_min(
    m: Seq<(Seq<char>, Seq<(Seq<char>, u32)>)>,
    tmin: int,
    i: int,
)
    requires
        0 <= i < filter_groups(m, tmin).len(),
    ensures
        flat_lens(filter_groups(m, tmin))[i] >= tmin,
        filter_groups(m, tmin)[i].1.len() >= tmin,
    decreases m.len(),
{
    if m.len() > 0 {
        let rest = filter_groups(m.drop_last(), tmin);
        if m.last().1.len() >= tmin && i == rest.len() {
        } else {
            lemma_filter_min(m.drop_last(), tmin, i);
        }
    }
}

/// A group of `m` with at least `tmin` members appears in the filtered map.
pub proof fn lemma_filter_contains(
    m: Seq<(Seq<char>, Seq<(Seq<char>, u32)>)>,
    tmin: int,
    g: int,
)
    requires
        0 <= g < m.len(),
        m[g].1.len() >= tmin,
    ensures
        filter_groups(m, tmin).contains(m[g]),
    decreases m.len(),
{
    let fm = filter_groups(m, tmin);
    if g == m.len() - 1 {
        assert(fm[fm.len() - 1] == m[g]);
    } else {
        lemma_filter_contains(m.drop_last(), tmin, g);
        let rest = filter_groups(m.drop_last(), tmin);
        let w = choose|l: int| 0 <= l < rest.len() && rest[l] == m.drop_last()[g];
        assert(m.drop_last()[g] == m[g]);
        assert(fm[w] == m[g]);
    }
}

/// Construction is deterministic: two networks built from the same raw
/// inputs and the same vocabulary carry equal names, offsets, lengths,
/// connectivity and weights.
pub proof fn lemma_build_deterministic(
    a: NetModel,
    b: NetModel,
    s: Seq<Seq<char>>,
    t: Seq<Seq<char>>,
    w: Option<Seq<u32>>,
    f: Seq<Seq<char>>,
    tmin: int,
)
    requires
        a == full_model(s, t, w, f, tmin),
        b == full_model(s, t, w, f, tmin),
    ensures
        a == b,
{
}

// ---------------------------------------------------------------------------
// The flattened network
// ---------------------------------------------------------------------------

/// An immutable flattened grouped sparse network: per-group name, start
/// offset and member count, over shared flat arrays of feature indices and
/// weights (compressed sparse row storage).
pub struct PathwayNetwork {
    names: Vec<String>,
    starts: Vec<usize>,
    offsets: Vec<usize>,
    cnct: Vec<usize>,
    weights: Vec<u32>,
}

impl View for PathwayNetwork {
    type V = NetModel;

    closed spec fn view(&self) -> NetModel {
        NetModel {
            names: key_views(self.names@),
            starts: usize_views(self.starts@),
            lens: usize_views(self.offsets@),
            cnct: usize_views(self.cnct@),
            weights: self.weights@,
        }
    }
}

impl PathwayNetwork {
    /// The five parallel arrays are mutually consistent: one start offset
    /// and one member count per name, flattened arrays of equal length, and
    /// every group slice inside them.
    pub open spec fn wf(self) -> bool {
        &&& self@.starts.len() == self@.names.len()
        &&& self@.lens.len() == self@.names.len()
        &&& self@.weights.len() == self@.cnct.len()
        &&& forall|i: int|
            #![trigger self@.starts[i]]
            #![trigger self@.lens[i]]
            0 <= i < self@.names.len() ==> 0 <= self@.starts[i] && 0 <= self@.lens[i]
                && self@.starts[i] + self@.lens[i] <= self@.cnct.len()
    }

    /// Builds a network directly from pre-flattened arrays.  No consistency
    /// between the five arrays is checked: the caller is fully responsible
    /// for the invariants.
    pub fn new(
        names: Vec<String>,
        starts: Vec<usize>,
        offsets: Vec<usize>,
        cnct: Vec<usize>,
        weights: Vec<u32>,
    ) -> (r: Self)
        ensures
            r@.names == key_views(names@),
            r@.starts == usize_views(starts@),
            r@.lens == usize_views(offsets@),
            r@.cnct == usize_views(cnct@),
            r@.weights == weights@,
    {
        PathwayNetwork { names, starts, offsets, cnct, weights }
    }

    /// Builds a network from pre-flattened arrays without weights: every
    /// member's weight defaults to `DEFAULT_WEIGHT`.  As with `new`, no
    /// consistency between the arrays is checked.
    pub fn new_wo_weights(
        names: Vec<String>,
        starts: Vec<usize>,
        offsets: Vec<usize>,
        cnct: Vec<usize>,
    ) -> (r: Self)
        ensures
            r@.names == key_views(names@),
            r@.starts == usize_views(starts@),
            r@.lens == usize_views(offsets@),
            r@.cnct == usize_views(cnct@),
            r@.weights.len() == cnct@.len(),
            forall|i: int| 0 <= i < cnct@.len() ==> r@.weights[i] == DEFAULT_WEIGHT,
    {
        let n = cnct.len();
        let mut weights: Vec<u32> = Vec::new();
        let mut i: usize = 0;
        while i < n
            invariant
                i <= n,
                weights@.len() == i,
                forall|l: int| 0 <= l < i ==> weights@[l] == DEFAULT_WEIGHT,
            decreases n - i,
        {
            weights.push(DEFAULT_WEIGHT);
            i += 1;
        }
        PathwayNetwork { names, starts, offsets, cnct, weights }
    }

    /// Builds the network from raw (source, target, weight) triples: the
    /// triples are grouped by source key, groups with fewer than `tmin`
    /// deduplicated members are dropped, every member's target name is
    /// resolved to its position in `features` (a later duplicate name
    /// shadowing an earlier one), and the retained groups are flattened in
    /// order.
    ///
    /// Fails with `LengthMismatch` exactly where the input arrays disagree
    /// in length, and with `UnresolvedTarget` exactly where a member of a
    /// retained group has no entry in `features`; on success the result is
    /// well formed and equals the model of the filtered grouped input.
    #[verifier::loop_isolation(false)]
    pub fn new_from_vec(
        sources: Vec<String>,
        targets: Vec<String>,
        weights: Option<Vec<u32>>,
        features: Vec<String>,
        tmin: u32,
    ) -> (r: Result<Self, NetworkError>)
        ensures
            ({
                let s = key_views(sources@);
                let t = key_views(targets@);
                let w = weights_view(weights);
                let f = key_views(features@);
                let fm = filter_groups(grouped_map(s, t, w), tmin as int);
                &&& ((r matches Err(NetworkError::LengthMismatch)) <==> !lengths_ok(s, t, w))
                &&& (lengths_ok(s, t, w) ==> ((r matches Err(NetworkError::UnresolvedTarget))
                    <==> !all_resolvable(fm, f)))
                &&& ((lengths_ok(s, t, w) && all_resolvable(fm, f)) ==> (r matches Ok(net)
                    && net@ == net_model(fm, f) && net.wf()))
            }),
    {
        let ghost s = key_views(sources@);
        let ghost t = key_views(targets@);
        let ghost w = weights_view(weights);
        let ghost f = key_views(features@);
        let ghost tm = tmin as int;
        let grouped = match validate_net(sources, targets, weights, false) {
            Ok(g) => g,
            Err(e) => {
                return Err(e);
            },
        };
        let ghost gm = grouped_map(s, t, w);
        let ghost fm = filter_groups(gm, tm);
        let tmin_us = tmin as usize;
        let mut names: Vec<String> = Vec::new();
        let mut starts: Vec<usize> = Vec::new();
        let mut offsets: Vec<usize> = Vec::new();
        let mut cnct: Vec<usize> = Vec::new();
        let mut weights_vec: Vec<u32> = Vec::new();
        let ng = grouped.len();
        let mut g: usize = 0;
        proof {
            let m0 = gm.take(0);
            assert(m0 =~= Seq::<(Seq<char>, Seq<(Seq<char>, u32)>)>::empty());
            assert(key_views(names@) =~= flat_names(filter_groups(m0, tm)));
            assert(usize_views(starts@) =~= flat_starts(filter_groups(m0, tm)));
            assert(usize_views(offsets@) =~= flat_lens(filter_groups(m0, tm)));
            assert(usize_views(cnct@) =~= flat_cnct(filter_groups(m0, tm), f));
            assert(weights_vec@ =~= flat_weights(filter_groups(m0, tm)));
        }
        while g < ng
            invariant
                g <= ng,
                ng == grouped@.len(),
                gm == groups_view(grouped@),
                fm == filter_groups(gm, tm),
                tm == tmin_us as int,
                f == key_views(features@),
                lengths_ok(s, t, w),
                key_views(names@) == flat_names(filter_groups(gm.take(g as int), tm)),
                usize_views(starts@) == flat_starts(filter_groups(gm.take(g as int), tm)),
                usize_views(offsets@) == flat_lens(filter_groups(gm.take(g as int), tm)),
                usize_views(cnct@) == flat_cnct(filter_groups(gm.take(g as int), tm), f),
                weights_vec@ == flat_weights(filter_groups(gm.take(g as int), tm)),
                all_resolvable(filter_groups(gm.take(g as int), tm), f),
            decreases ng - g,
        {
            let ghost fg = filter_groups(gm.take(g as int), tm);
            let ghost e = gm[g as int];
            proof {
                assert(gm.take(g as int + 1).drop_last() =~= gm.take(g as int));
                assert(gm.take(g as int + 1).last() == gm[g as int]);
                assert(e == (grouped@[g as int].0@, pairs_view(grouped@[g as int].1@)));
            }
            let entry = &grouped[g];
            let glen = entry.1.len();
            if glen >= tmin_us {
                let ghost fg2 = filter_groups(gm.take(g as int + 1), tm);
                proof {
                    assert(e.1.len() == glen);
                    assert(fg2 == fg.push(e));
                    lemma_flat_lengths(fg, f);
                    assert(cnct@.len() == sum_lens(fg));
                }
                starts.push(cnct.len());
                offsets.push(glen);
                let nm = entry.0.clone();
                names.push(nm);
                proof {
                    assert(key_views(names@) =~= flat_names(fg).push(e.0));
                    assert(usize_views(starts@) =~= flat_starts(fg).push(sum_lens(fg)));
                    assert(usize_views(offsets@) =~= flat_lens(fg).push(e.1.len() as int));
                    assert(e.1.take(0) =~= Seq::<(Seq<char>, u32)>::empty());
                    assert(usize_views(cnct@) =~= flat_cnct(fg, f) + run_indices(e.1.take(0), f));
                    assert(weights_vec@ =~= flat_weights(fg) + run_weights(e.1.take(0)));
                }
                let ghost names_snap = names@;
                let ghost starts_snap = starts@;
                let ghost offsets_snap = offsets@;
                let mut j: usize = 0;
                while j < glen
                    invariant
                        j <= glen,
                        ng == grouped@.len(),
                        g < ng,
                        gm == groups_view(grouped@),
                        fm == filter_groups(gm, tm),
                        tm == tmin_us as int,
                        f == key_views(features@),
                        lengths_ok(s, t, w),
                        e == gm[g as int],
                        entry.0@ == e.0,
                        pairs_view(entry.1@) == e.1,
                        entry.1@.len() == glen,
                        e.1.len() >= tm,
                        names@ == names_snap,
                        starts@ == starts_snap,
                        offsets@ == offsets_snap,
                        usize_views(cnct@) == flat_cnct(fg, f) + run_indices(
                            e.1.take(j as int),
                            f,
                        ),
                        weights_vec@ == flat_weights(fg) + run_weights(e.1.take(j as int)),
                        group_resolvable(e.1.take(j as int), f),
                    decreases glen - j,
                {
                    proof {
                        assert(e.1[j as int] == (entry.1@[j as int].0@, entry.1@[j as int].1));
                    }
                    let pj = &entry.1[j];
                    let ghost c0 = cnct@;
                    match vocab_lookup(&features, &pj.0) {
                        Some(fi) => {
                            cnct.push(fi);
                            weights_vec.push(pj.1);
                            proof {
                                assert(fi as int == vocab_index(f, e.1[j as int].0));
                                assert(cnct@ == c0.push(fi));
                                assert(usize_views(cnct@) =~= usize_views(c0).push(fi as int));
                                assert(run_indices(e.1.take(j as int + 1), f) =~= run_indices(
                                    e.1.take(j as int),
                                    f,
                                ).push(vocab_index(f, e.1[j as int].0)));
                                assert(run_weights(e.1.take(j as int + 1)) =~= run_weights(
                                    e.1.take(j as int),
                                ).push(e.1[j as int].1));
                                assert(usize_views(cnct@) =~= flat_cnct(fg, f) + run_indices(
                                    e.1.take(j as int + 1),
                                    f,
                                ));
                                assert(weights_vec@ =~= flat_weights(fg) + run_weights(
                                    e.1.take(j as int + 1),
                                ));
                                assert forall|l: int|
                                    0 <= l < e.1.take(j as int + 1).len() implies vocab_index(
                                    f,
                                    #[trigger] e.1.take(j as int + 1)[l].0,
                                ) >= 0 by {
                                    if l < j as int {
                                        assert(e.1.take(j as int)[l] == e.1.take(j as int + 1)[l]);
                                        assert(vocab_index(f, e.1.take(j as int)[l].0) >= 0);
                                    }
                                }
                            }
                            j += 1;
                        },
                        None => {
                            proof {
                                assert(vocab_index(f, e.1[j as int].0) < 0);
                                assert(gm.len() == grouped@.len());
                                lemma_filter_contains(gm, tm, g as int);
                                let widx = choose|l: int|
                                    0 <= l < fm.len() && fm[l] == gm[g as int];
                                assert(!group_resolvable(fm[widx].1, f));
                                assert(!all_resolvable(fm, f));
                            }
                            return Err(NetworkError::UnresolvedTarget);
                        },
                    }
                }
                proof {
                    assert(e.1.take(glen as int) =~= e.1);
                    assert(fg2.drop_last() =~= fg);
                    assert(fg2.last() == e);
                    assert(flat_names(fg2) =~= flat_names(fg).push(e.0));
                    assert(flat_lens(fg2) =~= flat_lens(fg).push(e.1.len() as int));
                    assert(flat_starts(fg2) == flat_starts(fg).push(sum_lens(fg)));
                    assert(flat_cnct(fg2, f) == flat_cnct(fg, f) + run_indices(e.1, f));
                    assert(flat_weights(fg2) == flat_weights(fg) + run_weights(e.1));
                    assert forall|l: int| 0 <= l < fg2.len() implies group_resolvable(
                        #[trigger] fg2[l].1,
                        f,
                    ) by {
                        if l < fg.len() {
                            assert(fg2[l] == fg[l]);
                            assert(group_resolvable(fg[l].1, f));
                        } else {
                            assert(fg2[l] == e);
                        }
                    }
                }
            } else {
                proof {
                    assert(e.1.len() == glen);
                    assert(filter_groups(gm.take(g as int + 1), tm) == fg);
                }
            }
            g += 1;
        }
        proof {
            assert(gm.take(ng as int) =~= gm);
            lemma_flat_lengths(fm, f);
            assert forall|i: int|
                0 <= i < flat_names(fm).len() implies 0 <= #[trigger] flat_starts(fm)[i] && 0
                <= flat_lens(fm)[i] && flat_starts(fm)[i] + flat_lens(fm)[i] <= flat_cnct(
                fm,
                f,
            ).len() by {
                lemma_slice_in_bounds(fm, f, i);
            }
        }
        Ok(PathwayNetwork { names, starts, offsets, cnct, weights: weights_vec })
    }

    /// The number of retained groups.
    pub fn get_num_pathways(&self) -> (r: usize)
        ensures
            r == self@.names.len(),
    {
        self.names.len()
    }

    /// The name of group `idx`, or `IndexOutOfRange` where `idx` is at or
    /// past the group count.
    pub fn get_pathway_name(&self, idx: usize) -> (r: Result<&str, NetworkError>)
        ensures
            idx < self@.names.len() ==> (r matches Ok(s) && s@ == self@.names[idx as int]),
            idx >= self@.names.len() ==> r matches Err(NetworkError::IndexOutOfRange),
    {
        if idx < self.names.len() {
            Ok(self.names[idx].as_str())
        } else {
            Err(NetworkError::IndexOutOfRange)
        }
    }

    /// The feature indices of group `idx`: the slice of the flattened
    /// connectivity from its start offset, of its member count.  Fails with
    /// `IndexOutOfRange` where `idx` is at or past the group count.
    pub fn get_pathway_features(&self, idx: usize) -> (r: Result<&[usize], NetworkError>)
        requires
            self.wf(),
        ensures
            idx < self@.names.len() ==> (r matches Ok(s) && usize_views(s@)
                == self@.cnct.subrange(
                self@.starts[idx as int],
                self@.starts[idx as int] + self@.lens[idx as int],
            )),
            idx >= self@.names.len() ==> r matches Err(NetworkError::IndexOutOfRange),
    {
        if idx < self.names.len() {
            proof {
                assert(self.starts@.len() == self.names@.len());
                assert(self.offsets@.len() == self.names@.len());
                assert(self@.starts[idx as int] == self.starts@[idx as int] as int);
                assert(self@.lens[idx as int] == self.offsets@[idx as int] as int);
                assert(self@.cnct.len() == self.cnct@.len());
            }
            let total = self.cnct.len();
            let srt = self.starts[idx];
            proof {
                assert(srt as int + self.offsets@[idx as int] as int <= total as int);
            }
            let off = srt + self.offsets[idx];
            let s = slice_subrange(self.cnct.as_slice(), srt, off);
            proof {
                assert(usize_views(s@) =~= self@.cnct.subrange(
                    self@.starts[idx as int],
                    self@.starts[idx as int] + self@.lens[idx as int],
                ));
            }
            Ok(s)
        } else {
            Err(NetworkError::IndexOutOfRange)
        }
    }

    /// The feature indices and the weights of group `idx`, as two aligned
    /// slices of the flattened arrays.  Fails with `IndexOutOfRange` where
    /// `idx` is at or past the group count.
    pub fn get_pathway_features_and_weights(&self, idx: usize) -> (r: Result<
        (&[usize], &[u32]),
        NetworkError,
    >)
        requires
            self.wf(),
        ensures
            idx < self@.names.len() ==> (r matches Ok(p) && usize_views(p.0@)
                == self@.cnct.subrange(
                self@.starts[idx as int],
                self@.starts[idx as int] + self@.lens[idx as int],
            ) && p.1@ == self@.weights.subrange(
                self@.starts[idx as int],
                self@.starts[idx as int] + self@.lens[idx as int],
            )),
            idx >= self@.names.len() ==> r matches Err(NetworkError::IndexOutOfRange),
    {
        if idx < self.names.len() {
            proof {
                assert(self.starts@.len() == self.names@.len());
                assert(self.offsets@.len() == self.names@.len());
                assert(self@.starts[idx as int] == self.starts@[idx as int] as int);
                assert(self@.lens[idx as int] == self.offsets@[idx as int] as int);
                assert(self@.cnct.len() == self.cnct@.len());
                assert(self@.weights.len() == self.weights@.len());
            }
            let total = self.cnct.len();
            let srt = self.starts[idx];
            proof {
                assert(srt as int + self.offsets@[idx as int] as int <= total as int);
            }
            let off = srt + self.offsets[idx];
            let s = slice_subrange(self.cnct.as_slice(), srt, off);
            let wsl = slice_subrange(self.weights.as_slice(), srt, off);
            proof {
                assert(usize_views(s@) =~= self@.cnct.subrange(
                    self@.starts[idx as int],
                    self@.starts[idx as int] + self@.lens[idx as int],
                ));
            }
            Ok((s, wsl))
        } else {
            Err(NetworkError::IndexOutOfRange)
        }
    }
}

// ---------------------------------------------------------------------------
// Vocabulary lookup
// ---------------------------------------------------------------------------

/// Looks `name` up in the vocabulary: the index of its last occurrence,
/// `None` where it does not occur.
fn vocab_lookup(features: &Vec<String>, name: &String) -> (r: Option<usize>)
    ensures
        vocab_index(key_views(features@), name@) >= 0 ==> (r matches Some(idx) && idx as int
            == vocab_index(key_views(features@), name@)),
        vocab_index(key_views(features@), name@) < 0 ==> r is None,
{
    let ghost f = key_views(features@);
    let mut j = features.len();
    proof {
        assert(f.take(features@.len() as int) =~= f);
    }
    while j > 0
        invariant
            j <= features@.len(),
            f == key_views(features@),
            vocab_index(f, name@) == vocab_index(f.take(j as int), name@),
        decreases j,
    {
        j -= 1;
        proof {
            assert(f.take(j as int + 1).last() == f[j as int]);
            assert(f.take(j as int + 1).drop_last() =~= f.take(j as int));
        }
        if features[j].eq(name) {
            return Some(j);
        }
    }
    None
}

} // verus!
