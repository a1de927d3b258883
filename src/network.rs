//! A fixed-size packed symmetric matrix of flight counts between airports.

use vstd::prelude::*;
use crate::condensed::{
    pair_count, pair_offset, row_start, lemma_pair_offset_bounds, lemma_pair_count_rows,
    lemma_pair_offset_row, lemma_row_start_closed, lemma_row_start_mono, pair_at,
    lemma_condensed_index_bijection,
};

verus! {

/// Entry of the condensed matrix over `n` airports that holds the pair
/// `{a, b}`, `a != b`.
pub open spec fn pair_entry(n: int, a: int, b: int) -> int {
    if a < b {
        pair_offset(n, a, b)
    } else {
        pair_offset(n, b, a)
    }
}

/// Whether the flight `f`, a pair of airport ids, adds to entry `k` of the
/// condensed matrix over `n` airports. A flight from an airport to itself
/// adds to no entry.
pub open spec fn flight_hits(f: (usize, usize), n: int, k: int) -> bool {
    f.0 != f.1 && pair_entry(n, f.0 as int, f.1 as int) == k
}

/// Number of the flights in `flights` that add to entry `k`.
pub open spec fn flight_tally(flights: Seq<(usize, usize)>, n: int, k: int) -> nat
    decreases flights.len(),
{
    if flights.len() == 0 {
        0
    } else {
        flight_tally(flights.drop_last(), n, k) + if flight_hits(flights.last(), n, k) {
            1nat
        } else {
            0nat
        }
    }
}

/// Sum over the groups of flights of their tallies at entry `k`: what entry
/// `k` holds after one network per group is built and all are merged.
pub open spec fn group_tally(groups: Seq<Seq<(usize, usize)>>, n: int, k: int) -> nat
    decreases groups.len(),
{
    if groups.len() == 0 {
        0
    } else {
        group_tally(groups.drop_last(), n, k) + flight_tally(groups.last(), n, k)
    }
}

/// Largest value of `s`, and `0` for an empty sequence.
pub open spec fn max_count(s: Seq<u32>) -> u32
    decreases s.len(),
{
    if s.len() == 0 {
        0
    } else {
        let m = max_count(s.drop_last());
        if s.last() > m {
            s.last()
        } else {
            m
        }
    }
}

/// Sum of entry `k` over the networks `parts`.
pub open spec fn sum_counts(parts: Seq<FlightCountNetwork>, k: int) -> int
    decreases parts.len(),
{
    if parts.len() == 0 {
        0
    } else {
        sum_counts(parts.drop_last(), k) + parts.last().counts()[k]
    }
}

/// A count would pass the largest value it can hold.
#[derive(Debug, PartialEq, Eq, Structural)]
pub struct CountOverflow;

/// Counts of flights between each unordered pair of `n` airports, stored as
/// a condensed matrix: the pair `i < j` is at `pair_offset(n, i, j)`.
#[derive(Clone)]
pub struct FlightCountNetwork {
    connections: Vec<u32>,
    n: usize,
}

impl FlightCountNetwork {
    /// Number of airports.
    pub closed spec fn size(&self) -> nat {
        self.n as nat
    }

    /// The condensed matrix of counts.
    pub closed spec fn counts(&self) -> Seq<u32> {
        self.connections@
    }

    pub open spec fn well_formed(&self) -> bool {
        &&& self.size() >= 1
        &&& self.size() * (self.size() - 1) <= usize::MAX
        &&& self.counts().len() == pair_count(self.size() as int)
    }

    /// Count of flights between the airports `a` and `b`, `a != b`.
    pub open spec fn count(&self, a: int, b: int) -> u32 {
        self.counts()[pair_entry(self.size() as int, a, b)]
    }

    /// A network over `n` airports with every count zero.
    pub fn new(n: usize) -> (r: Self)
        requires
            n >= 1,
            n * (n - 1) <= usize::MAX,
        ensures
            r.well_formed(),
            r.size() == n,
            forall|k: int| 0 <= k < r.counts().len() ==> #[trigger] r.counts()[k] == 0,
    {
        assert(n * (n - 1) >= 0) by (nonlinear_arith)
            requires
                n >= 1,
        ;
        let len: usize = n * (n - 1) / 2;
        let mut connections: Vec<u32> = Vec::new();
        while connections.len() < len
            invariant
                connections@.len() <= len,
                forall|k: int| 0 <= k < connections@.len() ==> #[trigger] connections@[k] == 0,
            decreases len - connections@.len(),
        {
            connections.push(0);
        }
        FlightCountNetwork { connections, n }
    }

    /// Number of airports.
    pub fn airport_count(&self) -> (r: usize)
        ensures
            r == self.size(),
    {
        self.n
    }

    /// The condensed matrix of counts.
    pub fn connections(&self) -> (r: &Vec<u32>)
        ensures
            r@ == self.counts(),
    {
        &self.connections
    }

    /// Counts one flight between `from` and `to`; a flight from an airport to
    /// itself is not counted.
    pub fn add_flight(&mut self, from: usize, to: usize)
        requires
            old(self).well_formed(),
            from < old(self).size(),
            to < old(self).size(),
            from != to ==> old(self).count(from as int, to as int) < u32::MAX,
        ensures
            final(self).well_formed(),
            final(self).size() == old(self).size(),
            from == to ==> final(self).counts() == old(self).counts(),
            forall|k: int|
                0 <= k < old(self).counts().len() ==> #[trigger] final(self).counts()[k]
                    == old(self).counts()[k] + if flight_hits(
                    (from, to),
                    old(self).size() as int,
                    k,
                ) {
                    1int
                } else {
                    0int
                },
    {
        if from != to {
            let ind = self.entry_index(from, to);
            let v = self.connections[ind];
            self.connections.set(ind, v + 1);
        }
    }

    /// Position in the condensed matrix of the pair `{from, to}`.
    fn entry_index(&self, from: usize, to: usize) -> (r: usize)
        requires
            self.well_formed(),
            from < self.size(),
            to < self.size(),
            from != to,
        ensures
            r == pair_entry(self.size() as int, from as int, to as int),
            r < self.counts().len(),
    {
        let (row, col) = if from > to {
            (to, from)
        } else {
            (from, to)
        };
        proof {
            lemma_index_fits(self.n as int, row as int, col as int);
        }
        row * (2 * self.n - row - 1) / 2 + (col - row - 1)
    }

    /// Counts each flight of `flights`, a sequence of pairs of airport ids.
    /// Fails with `CountOverflow`, having counted part of the flights, when a
    /// count would pass `u32::MAX`.
    pub fn add_flights(&mut self, flights: &[(usize, usize)]) -> (r: Result<(), CountOverflow>)
        requires
            old(self).well_formed(),
            forall|t: int|
                0 <= t < flights@.len() ==> (#[trigger] flights@[t]).0 < old(self).size()
                    && flights@[t].1 < old(self).size(),
        ensures
            final(self).well_formed(),
            final(self).size() == old(self).size(),
            r.is_ok() <==> forall|k: int|
                0 <= k < old(self).counts().len() ==> old(self).counts()[k] + flight_tally(
                    flights@,
                    old(self).size() as int,
                    k,
                ) <= u32::MAX,
            r.is_ok() ==> forall|k: int|
                0 <= k < old(self).counts().len() ==> #[trigger] final(self).counts()[k]
                    == old(self).counts()[k] + flight_tally(flights@, old(self).size() as int, k),
    {
        let ghost start = self.counts();
        let ghost n = self.size() as int;
        let mut i: usize = 0;
        while i < flights.len()
            invariant
                i <= flights@.len(),
                self.well_formed(),
                n == old(self).size(),
                start == old(self).counts(),
                self.size() == n,
                start.len() == self.counts().len(),
                forall|t: int|
                    0 <= t < flights@.len() ==> (#[trigger] flights@[t]).0 < n && flights@[t].1
                        < n,
                forall|k: int|
                    0 <= k < start.len() ==> #[trigger] self.counts()[k] == start[k]
                        + flight_tally(flights@.take(i as int), n, k),
            decreases flights@.len() - i,
        {
            let (from, to) = flights[i];
            let ghost pre = flights@.take(i as int);
            let ghost next = flights@.take(i + 1);
            proof {
                assert(next.drop_last() == pre);
                assert(next.last() == (from, to));
            }
            if from != to {
                let e = self.entry_index(from, to);
                proof {
                    assert(flight_hits((from, to), n, e as int));
                    assert(flight_tally(next, n, e as int) == flight_tally(pre, n, e as int) + 1);
                }
                if self.connections[e] == u32::MAX {
                    proof {
                        lemma_tally_prefix(flights@, n, e as int, i + 1);
                        assert(self.counts()[e as int] == start[e as int] + flight_tally(
                            pre,
                            n,
                            e as int,
                        ));
                        assert(!(start[e as int] + flight_tally(flights@, n, e as int)
                            <= u32::MAX));
                    }
                    return Err(CountOverflow);
                }
            }
            self.add_flight(from, to);
            i = i + 1;
        }
        proof {
            assert(flights@.take(flights@.len() as int) == flights@);
            assert forall|k: int| 0 <= k < start.len() implies start[k] + flight_tally(
                flights@,
                n,
                k,
            ) <= u32::MAX by {
                assert(self.counts()[k] == start[k] + flight_tally(flights@, n, k));
            }
        }
        Ok(())
    }

    /// Adds every count of `other`, a network over as many airports, to this one.
    pub fn add_network(&mut self, other: FlightCountNetwork)
        requires
            old(self).well_formed(),
            other.well_formed(),
            other.size() == old(self).size(),
            forall|k: int|
                0 <= k < old(self).counts().len() ==> old(self).counts()[k] + other.counts()[k]
                    <= u32::MAX,
        ensures
            final(self).well_formed(),
            final(self).size() == old(self).size(),
            forall|k: int|
                0 <= k < old(self).counts().len() ==> #[trigger] final(self).counts()[k]
                    == old(self).counts()[k] + other.counts()[k],
    {
        let ghost start = self.counts();
        let len = self.connections.len();
        let mut i: usize = 0;
        while i < len
            invariant
                i <= len,
                len == start.len(),
                self.n == old(self).n,
                self.connections@.len() == len,
                other.connections@.len() == len,
                forall|k: int|
                    0 <= k < len ==> start[k] + other.connections@[k] <= u32::MAX,
                forall|k: int| 0 <= k < i ==> #[trigger] self.connections@[k] == start[k]
                    + other.connections@[k],
                forall|k: int| i <= k < len ==> #[trigger] self.connections@[k] == start[k],
            decreases len - i,
        {
            let v = self.connections[i] + other.connections[i];
            self.connections.set(i, v);
            i = i + 1;
        }
    }

    /// Adds every count of `other`, a network over as many airports, to this
    /// one, or fails with `CountOverflow`, changing nothing, when a sum would
    /// pass `u32::MAX`.
    pub fn try_add_network(&mut self, other: FlightCountNetwork) -> (r: Result<(), CountOverflow>)
        requires
            old(self).well_formed(),
            other.well_formed(),
            other.size() == old(self).size(),
        ensures
            final(self).well_formed(),
            final(self).size() == old(self).size(),
            r.is_ok() <==> forall|k: int|
                0 <= k < old(self).counts().len() ==> old(self).counts()[k] + other.counts()[k]
                    <= u32::MAX,
            r.is_ok() ==> forall|k: int|
                0 <= k < old(self).counts().len() ==> #[trigger] final(self).counts()[k]
                    == old(self).counts()[k] + other.counts()[k],
            r.is_err() ==> final(self).counts() == old(self).counts(),
    {
        let len = self.connections.len();
        let mut i: usize = 0;
        while i < len
            invariant
                i <= len,
                *self == *old(self),
                self.well_formed(),
                len == self.connections@.len(),
                len == other.connections@.len(),
                forall|k: int|
                    0 <= k < i ==> self.connections@[k] + other.connections@[k] <= u32::MAX,
            decreases len - i,
        {
            if self.connections[i] > u32::MAX - other.connections[i] {
                assert(!(self.counts()[i as int] + other.counts()[i as int] <= u32::MAX));
                return Err(CountOverflow);
            }
            i = i + 1;
        }
        self.add_network(other);
        Ok(())
    }

    /// The dissimilarity of each pair: the largest count of the network minus
    /// the pair's count, so that more flights give a smaller dissimilarity.
    /// No value is negative, and a network without flights gives all zeros.
    pub fn to_dissimilarity_vec(&self) -> (r: Vec<u32>)
        ensures
            r@.len() == self.counts().len(),
            forall|k: int|
                0 <= k < r@.len() ==> #[trigger] r@[k] == max_count(self.counts())
                    - self.counts()[k],
            (forall|k: int| 0 <= k < self.counts().len() ==> #[trigger] self.counts()[k] == 0)
                ==> forall|k: int| 0 <= k < r@.len() ==> #[trigger] r@[k] == 0,
    {
        let len = self.connections.len();
        let mut shift: u32 = 0;
        let mut i: usize = 0;
        while i < len
            invariant
                i <= len,
                len == self.connections@.len(),
                shift == max_count(self.connections@.take(i as int)),
            decreases len - i,
        {
            proof {
                assert(self.connections@.take(i + 1).drop_last() == self.connections@.take(
                    i as int,
                ));
            }
            if self.connections[i] > shift {
                shift = self.connections[i];
            }
            i = i + 1;
        }
        assert(self.connections@.take(len as int) == self.connections@);
        proof {
            lemma_max_count_bounds(self.connections@);
        }
        let mut out: Vec<u32> = Vec::new();
        let mut j: usize = 0;
        while j < len
            invariant
                j <= len,
                len == self.connections@.len(),
                shift == max_count(self.connections@),
                out@.len() == j,
                forall|k: int| 0 <= k < len ==> #[trigger] self.connections@[k] <= shift,
                forall|k: int|
                    0 <= k < j ==> #[trigger] out@[k] == shift - self.connections@[k],
            decreases len - j,
        {
            out.push(shift - self.connections[j]);
            j = j + 1;
        }
        proof {
            if forall|k: int| 0 <= k < self.counts().len() ==> #[trigger] self.counts()[k] == 0 {
                lemma_max_count_zero(self.counts());
                assert forall|k: int| 0 <= k < out@.len() implies #[trigger] out@[k] == 0 by {
                    assert(self.counts()[k] == 0);
                }
            }
        }
        out
    }
}

/// Merges the networks `parts`, each over `n` airports, into one: each
/// entry is the sum of the parts' entries. Fails with `CountOverflow` when a
/// sum would pass `u32::MAX`.
pub fn merge_networks(n: usize, parts: Vec<FlightCountNetwork>) -> (r: Result<
    FlightCountNetwork,
    CountOverflow,
>)
    requires
        n >= 1,
        n * (n - 1) <= usize::MAX,
        forall|g: int|
            0 <= g < parts@.len() ==> (#[trigger] parts@[g]).well_formed() && parts@[g].size()
                == n,
    ensures
        r.is_ok() <==> forall|k: int|
            0 <= k < pair_count(n as int) ==> #[trigger] sum_counts(parts@, k) <= u32::MAX,
        r.is_ok() ==> {
            let m = r.unwrap();
            &&& m.well_formed()
            &&& m.size() == n
            &&& forall|k: int|
                0 <= k < pair_count(n as int) ==> #[trigger] m.counts()[k] == sum_counts(
                    parts@,
                    k,
                )
        },
{
    let ghost all = parts@;
    let mut rest = parts;
    let mut combined = FlightCountNetwork::new(n);
    proof {
        assert forall|k: int| 0 <= k < pair_count(n as int) implies #[trigger] combined.counts()[k]
            == sum_counts(all, k) - sum_counts(rest@, k) by {
            assert(rest@ == all);
        }
    }
    while rest.len() > 0
        invariant
            all == parts@,
            rest@ == all.take(rest@.len() as int),
            rest@.len() <= all.len(),
            combined.well_formed(),
            combined.size() == n,
            forall|g: int|
                0 <= g < all.len() ==> (#[trigger] all[g]).well_formed() && all[g].size() == n,
            forall|k: int|
                0 <= k < pair_count(n as int) ==> #[trigger] combined.counts()[k] == sum_counts(
                    all,
                    k,
                ) - sum_counts(rest@, k),
        decreases rest@.len(),
    {
        let ghost before = rest@;
        let part = rest.pop().unwrap();
        proof {
            assert(rest@ == before.drop_last());
            assert(part == before.last());
            assert(rest@ == all.take(rest@.len() as int));
            assert(part == all[rest@.len() as int]);
        }
        let ghost old_counts = combined.counts();
        let ghost part_counts = part.counts();
        match combined.try_add_network(part) {
            Ok(()) => {},
            Err(e) => {
                proof {
                    let k = choose|k: int|
                        !(0 <= k < old_counts.len() ==> old_counts[k] + part_counts[k]
                            <= u32::MAX);
                    assert(0 <= k < pair_count(n as int));
                    assert(before.drop_last() == rest@);
                    assert(sum_counts(before, k) == sum_counts(rest@, k) + part_counts[k]);
                    assert(old_counts[k] == sum_counts(all, k) - sum_counts(before, k));
                    lemma_sum_counts_nonneg(rest@, k);
                    assert(!(sum_counts(all, k) <= u32::MAX));
                    assert(all == parts@);
                }
                return Err(e);
            },
        }
    }
    proof {
        assert forall|k: int| 0 <= k < pair_count(n as int) implies #[trigger] sum_counts(all, k)
            <= u32::MAX by {
            assert(combined.counts()[k] == sum_counts(all, k) - sum_counts(rest@, k));
        }
    }
    Ok(combined)
}

/// A prefix of the parts sums to no more than all of them.
proof fn lemma_sum_counts_prefix(parts: Seq<FlightCountNetwork>, k: int, j: int)
    requires
        0 <= j <= parts.len(),
    ensures
        0 <= sum_counts(parts.take(j), k) <= sum_counts(parts, k),
    decreases parts.len(),
{
    if j < parts.len() {
        assert(parts.drop_last().take(j) == parts.take(j));
        lemma_sum_counts_prefix(parts.drop_last(), k, j);
    } else {
        assert(parts.take(j) == parts);
        lemma_sum_counts_nonneg(parts, k);
    }
}

proof fn lemma_sum_counts_nonneg(parts: Seq<FlightCountNetwork>, k: int)
    ensures
        0 <= sum_counts(parts, k),
    decreases parts.len(),
{
    if parts.len() > 0 {
        lemma_sum_counts_nonneg(parts.drop_last(), k);
    }
}

/// Networks built one per group of flights, merged together, hold the counts
/// of all the flights: where part `g` holds the tally of group `g`, and
/// `whole` is the same groups in any order, the merged entries are the tally
/// of the flights of `whole` together.
pub proof fn lemma_merged_networks_match(
    parts: Seq<FlightCountNetwork>,
    groups: Seq<Seq<(usize, usize)>>,
    whole: Seq<Seq<(usize, usize)>>,
    n: int,
)
    requires
        parts.len() == groups.len(),
        forall|g: int, k: int|
            0 <= g < parts.len() && 0 <= k < pair_count(n) ==> #[trigger] parts[g].counts()[k]
                == flight_tally(groups[g], n, k),
        whole.to_multiset() == groups.to_multiset(),
    ensures
        forall|k: int|
            0 <= k < pair_count(n) ==> #[trigger] sum_counts(parts, k) == flight_tally(
                whole.flatten(),
                n,
                k,
            ),
    decreases parts.len(),
{
    lemma_merge_order_independent(whole, groups, n);
    assert forall|k: int| 0 <= k < pair_count(n) implies #[trigger] sum_counts(parts, k)
        == group_tally(groups, n, k) by {
        lemma_sum_counts_groups(parts, groups, n, k);
    }
}

proof fn lemma_sum_counts_groups(
    parts: Seq<FlightCountNetwork>,
    groups: Seq<Seq<(usize, usize)>>,
    n: int,
    k: int,
)
    requires
        parts.len() == groups.len(),
        0 <= k < pair_count(n),
        forall|g: int, k2: int|
            0 <= g < parts.len() && 0 <= k2 < pair_count(n) ==> #[trigger] parts[g].counts()[k2]
                == flight_tally(groups[g], n, k2),
    ensures
        sum_counts(parts, k) == group_tally(groups, n, k),
    decreases parts.len(),
{
    if parts.len() > 0 {
        let pd = parts.drop_last();
        let gd = groups.drop_last();
        assert forall|g: int, k2: int|
            0 <= g < pd.len() && 0 <= k2 < pair_count(n) implies #[trigger] pd[g].counts()[k2]
                == flight_tally(gd[g], n, k2) by {
            assert(pd[g] == parts[g] && gd[g] == groups[g]);
        }
        lemma_sum_counts_groups(pd, gd, n, k);
        assert(parts.last() == parts[parts.len() - 1]);
        assert(groups.last() == groups[groups.len() - 1]);
    }
}

/// Every value of `s` is at most `max_count(s)`.
proof fn lemma_max_count_bounds(s: Seq<u32>)
    ensures
        forall|k: int| 0 <= k < s.len() ==> #[trigger] s[k] <= max_count(s),
    decreases s.len(),
{
    if s.len() > 0 {
        lemma_max_count_bounds(s.drop_last());
        assert forall|k: int| 0 <= k < s.len() implies #[trigger] s[k] <= max_count(s) by {
            if k < s.len() - 1 {
                assert(s[k] == s.drop_last()[k]);
            }
        }
    }
}

/// A sequence of zeros has the largest value `0`.
proof fn lemma_max_count_zero(s: Seq<u32>)
    requires
        forall|k: int| 0 <= k < s.len() ==> #[trigger] s[k] == 0,
    ensures
        max_count(s) == 0,
    decreases s.len(),
{
    if s.len() > 0 {
        assert(s.last() == s[s.len() - 1]);
        lemma_max_count_zero(s.drop_last());
    }
}

/// A prefix of the flights tallies no more than all of them.
proof fn lemma_tally_prefix(flights: Seq<(usize, usize)>, n: int, k: int, i: int)
    requires
        0 <= i <= flights.len(),
    ensures
        flight_tally(flights.take(i), n, k) <= flight_tally(flights, n, k),
    decreases flights.len(),
{
    if i < flights.len() {
        assert(flights.drop_last().take(i) == flights.take(i));
        lemma_tally_prefix(flights.drop_last(), n, k, i);
    } else {
        assert(flights.take(i) == flights);
    }
}

/// The tally of two sequences of flights one after the other is the sum of
/// their tallies.
pub proof fn lemma_tally_concat(a: Seq<(usize, usize)>, b: Seq<(usize, usize)>, n: int, k: int)
    ensures
        flight_tally(a + b, n, k) == flight_tally(a, n, k) + flight_tally(b, n, k),
    decreases b.len(),
{
    if b.len() == 0 {
        assert(a + b == a);
    } else {
        assert((a + b).drop_last() == a + b.drop_last());
        assert((a + b).last() == b.last());
        lemma_tally_concat(a, b.drop_last(), n, k);
    }
}

/// Taking out group `i` takes its tally out of the sum.
proof fn lemma_group_tally_remove(groups: Seq<Seq<(usize, usize)>>, n: int, k: int, i: int)
    requires
        0 <= i < groups.len(),
    ensures
        group_tally(groups, n, k) == group_tally(groups.remove(i), n, k) + flight_tally(
            groups[i],
            n,
            k,
        ),
    decreases groups.len(),
{
    if i == groups.len() - 1 {
        assert(groups.remove(i) == groups.drop_last());
    } else {
        let rest = groups.remove(i);
        assert(rest.drop_last() == groups.drop_last().remove(i));
        assert(rest.last() == groups.last());
        lemma_group_tally_remove(groups.drop_last(), n, k, i);
    }
}

/// Summing group tallies in two orders of the same groups gives the same.
proof fn lemma_group_tally_reorder(
    g: Seq<Seq<(usize, usize)>>,
    h: Seq<Seq<(usize, usize)>>,
    n: int,
    k: int,
)
    requires
        g.to_multiset() == h.to_multiset(),
    ensures
        group_tally(g, n, k) == group_tally(h, n, k),
    decreases g.len(),
{
    broadcast use vstd::seq_lib::group_to_multiset_ensures;

    if g.len() == 0 {
        assert(h.to_multiset().len() == 0);
        assert(h.len() == 0);
    } else {
        let x = g.last();
        assert(g.drop_last().push(x) == g);
        assert(g.to_multiset().count(x) > 0);
        assert(h.contains(x));
        let i = choose|i: int| 0 <= i < h.len() && h[i] == x;
        assert(g.drop_last().to_multiset() == g.to_multiset().remove(x));
        assert(h.remove(i).to_multiset() == h.to_multiset().remove(x));
        lemma_group_tally_reorder(g.drop_last(), h.remove(i), n, k);
        lemma_group_tally_remove(h, n, k, i);
    }
}

/// The group tallies sum to the tally of all flights of the groups together.
proof fn lemma_group_tally_flatten(g: Seq<Seq<(usize, usize)>>, n: int, k: int)
    ensures
        group_tally(g, n, k) == flight_tally(g.flatten(), n, k),
    decreases g.len(),
{
    if g.len() == 0 {
        assert(g.flatten() == Seq::<(usize, usize)>::empty());
    } else {
        lemma_group_tally_flatten(g.drop_last(), n, k);
        assert(g.drop_last().push(g.last()) == g);
        g.drop_last().lemma_flatten_push(g.last());
        lemma_tally_concat(g.drop_last().flatten(), g.last(), n, k);
    }
}

/// Splitting flights into groups, counting each group in a network of its
/// own and merging the networks in any order gives the counts of all the
/// flights counted in one network: for `h` any reordering of the groups `g`,
/// the merged counts of `h` are the tally of the flights of `g` together.
pub proof fn lemma_merge_order_independent(
    g: Seq<Seq<(usize, usize)>>,
    h: Seq<Seq<(usize, usize)>>,
    n: int,
)
    requires
        g.to_multiset() == h.to_multiset(),
    ensures
        forall|k: int| #[trigger] group_tally(h, n, k) == flight_tally(g.flatten(), n, k),
{
    assert forall|k: int| #[trigger] group_tally(h, n, k) == flight_tally(g.flatten(), n, k) by {
        lemma_group_tally_reorder(g, h, n, k);
        lemma_group_tally_flatten(g, n, k);
    }
}

/// A flight between two distinct airports `a < b` adds to entry `k` exactly
/// when it is the pair stored there.
proof fn lemma_hits_pair_at(f: (usize, usize), n: int, k: int)
    requires
        n >= 2,
        f.0 < f.1 < n,
        0 <= k < pair_count(n),
    ensures
        flight_hits(f, n, k) <==> (f.0 as int, f.1 as int) == pair_at(n, k),
{
    lemma_condensed_index_bijection(n);
}

proof fn lemma_tally_one_pair(s: Seq<(usize, usize)>, n: int, k: int)
    requires
        n >= 2,
        0 <= k < pair_count(n),
        s.no_duplicates(),
        forall|t: int| 0 <= t < s.len() ==> (#[trigger] s[t]).0 < s[t].1 < n,
    ensures
        flight_tally(s, n, k) == if exists|t: int|
            0 <= t < s.len() && (#[trigger] s[t].0 as int, s[t].1 as int) == pair_at(n, k) {
            1nat
        } else {
            0nat
        },
    decreases s.len(),
{
    if s.len() > 0 {
        let d = s.drop_last();
        assert forall|t: int| 0 <= t < d.len() implies (#[trigger] d[t]).0 < d[t].1 < n by {
            assert(d[t] == s[t]);
        }
        assert(d.no_duplicates()) by {
            assert forall|a: int, b: int| 0 <= a < b < d.len() implies d[a] != d[b] by {
                assert(d[a] == s[a] && d[b] == s[b]);
            }
        }
        lemma_tally_one_pair(d, n, k);
        let last = s.last();
        assert(last == s[s.len() - 1]);
        lemma_hits_pair_at(last, n, k);
        let p = pair_at(n, k);
        if (last.0 as int, last.1 as int) == p {
            assert(0 <= s.len() - 1 < s.len() && (s[s.len() - 1].0 as int, s[s.len() - 1].1 as int) == p);
            assert(!exists|t: int|
                0 <= t < d.len() && (#[trigger] d[t].0 as int, d[t].1 as int) == p) by {
                if exists|t: int| 0 <= t < d.len() && (#[trigger] d[t].0 as int, d[t].1 as int) == p {
                    let t = choose|t: int|
                        0 <= t < d.len() && (#[trigger] d[t].0 as int, d[t].1 as int) == p;
                    assert(s[t] == d[t]);
                    assert(s[t] == s[s.len() - 1]);
                }
            }
        } else {
            if exists|t: int| 0 <= t < s.len() && (#[trigger] s[t].0 as int, s[t].1 as int) == p {
                let t = choose|t: int|
                    0 <= t < s.len() && (#[trigger] s[t].0 as int, s[t].1 as int) == p;
                assert(t < d.len());
                assert(d[t] == s[t]);
            }
            if exists|t: int| 0 <= t < d.len() && (#[trigger] d[t].0 as int, d[t].1 as int) == p {
                let t = choose|t: int|
                    0 <= t < d.len() && (#[trigger] d[t].0 as int, d[t].1 as int) == p;
                assert(d[t] == s[t]);
            }
        }
    }
}

/// Flights that name each pair `i < j < n` exactly once, in any order, add
/// one to every entry of the condensed matrix: no two pairs share an entry
/// and no entry is left out.
pub proof fn lemma_each_pair_once(s: Seq<(usize, usize)>, n: int)
    requires
        2 <= n <= usize::MAX,
        s.no_duplicates(),
        forall|t: int| 0 <= t < s.len() ==> (#[trigger] s[t]).0 < s[t].1 < n,
        forall|i: usize, j: usize| i < j < n ==> #[trigger] s.contains((i, j)),
    ensures
        forall|k: int| 0 <= k < pair_count(n) ==> #[trigger] flight_tally(s, n, k) == 1,
{
    lemma_condensed_index_bijection(n);
    assert forall|k: int| 0 <= k < pair_count(n) implies #[trigger] flight_tally(s, n, k)
        == 1 by {
        lemma_tally_one_pair(s, n, k);
        let p = pair_at(n, k);
        assert(0 <= p.0 < p.1 < n);
        let q = (p.0 as usize, p.1 as usize);
        assert(q.0 as int == p.0 && q.1 as int == p.1);
        assert(q.0 < q.1 < n);
        assert(s.contains(q));
        let t = choose|t: int| 0 <= t < s.len() && s[t] == q;
        assert((s[t].0 as int, s[t].1 as int) == p);
    }
}

/// The arithmetic of the offset of `(row, col)` stays within `usize`.
proof fn lemma_index_fits(n: int, row: int, col: int)
    requires
        0 <= row < col < n,
        n * (n - 1) <= usize::MAX,
    ensures
        2 * n <= usize::MAX,
        0 <= row * (2 * n - row - 1) <= usize::MAX,
        row * (2 * n - row - 1) / 2 + (col - row - 1) == pair_offset(n, row, col),
        0 <= pair_offset(n, row, col) < pair_count(n),
{
    lemma_pair_offset_bounds(n, row, col);
    lemma_pair_offset_row(n, row, col);
    lemma_pair_count_rows(n);
    lemma_row_start_closed(n, row);
    lemma_row_start_closed(n, n);
    lemma_row_start_mono(n, row, n);
    if n >= 3 {
        assert(2 * n <= n * (n - 1)) by (nonlinear_arith)
            requires
                n >= 3,
        ;
    }
}

} // verus!
