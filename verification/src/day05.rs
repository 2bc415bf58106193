//! Piecewise-linear integer range remapping.
//!
//! A [`RemapTable`] is an ordered list of entries, each translating the
//! source interval `[source, source + length)` by the affine shift
//! `destination - source`.  Values outside every entry pass through
//! unchanged.  Tables are chained: the output of one stage feeds the
//! next.  Single values are looked up with [`RemapTable::get_destination`];
//! whole intervals are pushed through with
//! [`RemapTable::get_destination_ranges`], which splits them at entry
//! boundaries so that every integer of the input interval is mapped
//! exactly once.

use vstd::prelude::*;

verus! {

/// A contiguous integer interval `[start, start + length)`.
#[derive(Clone, Copy, Debug, PartialEq, Eq, Structural)]
pub struct Interval {
    pub start: u64,
    pub length: u64,
}

pub open spec fn max_i(a: int, b: int) -> int {
    if a >= b {
        a
    } else {
        b
    }
}

pub open spec fn min_i(a: int, b: int) -> int {
    if a <= b {
        a
    } else {
        b
    }
}

impl Interval {
    /// The interval stays inside the `u64` domain.
    pub open spec fn wf(self) -> bool {
        self.start + self.length <= u64::MAX
    }

    /// Does `x` lie in `[start, start + length)`?
    pub open spec fn spec_contains(self, x: int) -> bool {
        self.start <= x < self.start + self.length
    }

    /// The first index past the interval (exclusive upper bound).
    pub fn last(&self) -> (r: u64)
        requires
            self.wf(),
        ensures
            r == self.start + self.length,
    {
        self.start + self.length
    }

    /// The common part of two intervals; `None` when they share no point.
    pub fn intersection(&self, other: &Interval) -> (r: Option<Interval>)
        requires
            self.wf(),
            other.wf(),
        ensures
            match r {
                Option::Some(iv) => {
                    &&& iv.wf()
                    &&& iv.length > 0
                    &&& iv.start == max_i(self.start as int, other.start as int)
                    &&& iv.start + iv.length == min_i(
                        self.start + self.length,
                        other.start + other.length,
                    )
                },
                Option::None => min_i(self.start + self.length, other.start + other.length)
                    <= max_i(self.start as int, other.start as int),
            },
    {
        let start = if self.start >= other.start {
            self.start
        } else {
            other.start
        };
        let e1 = self.last();
        let e2 = other.last();
        let end = if e1 <= e2 {
            e1
        } else {
            e2
        };
        if start >= end {
            None
        } else {
            Some(Interval { start, length: end - start })
        }
    }
}

/// One entry of a remapping table: the source interval
/// `[source, source + length)` is translated to start at `destination`.
#[derive(Clone, Copy, Debug, PartialEq, Eq, Structural)]
pub struct RemapEntry {
    pub source: u64,
    pub destination: u64,
    pub length: u64,
}

impl RemapEntry {
    /// Both the source and the destination interval stay inside `u64`.
    pub open spec fn wf(self) -> bool {
        self.source + self.length <= u64::MAX && self.destination + self.length <= u64::MAX
    }

    /// Does `x` fall in this entry's source interval?
    pub open spec fn contains_src(self, x: int) -> bool {
        self.source <= x < self.source + self.length
    }

    /// The translated position of a source value `x`.
    pub open spec fn map_src(self, x: int) -> int {
        self.destination + (x - self.source)
    }

    /// The source intervals of two entries share no point.
    pub open spec fn disjoint_src(self, other: RemapEntry) -> bool {
        self.source + self.length <= other.source || other.source + other.length <= self.source
    }

    /// Does this entry's source interval share a point with `iv`?
    pub open spec fn overlaps(self, iv: Interval) -> bool {
        max_i(self.source as int, iv.start as int) < min_i(
            self.source + self.length,
            iv.start + iv.length,
        )
    }

    /// Start of the overlap of this entry's source interval with `iv`.
    pub open spec fn overlap_lo(self, iv: Interval) -> int {
        max_i(self.source as int, iv.start as int)
    }

    /// End (exclusive) of the overlap of this entry's source interval with `iv`.
    pub open spec fn overlap_hi(self, iv: Interval) -> int {
        min_i(self.source + self.length, iv.start + iv.length)
    }
}

/// Is `x` in some entry's source interval?
pub open spec fn covered(es: Seq<RemapEntry>, x: int) -> bool {
    exists|k: int| 0 <= k < es.len() && es[k].contains_src(x)
}

/// Where the table sends a single value: the first entry whose source
/// interval holds `x` translates it; without such an entry `x` passes
/// through unchanged.
pub open spec fn table_map(es: Seq<RemapEntry>, x: int) -> int
    decreases es.len(),
{
    if es.len() == 0 {
        x
    } else if es[0].contains_src(x) {
        es[0].map_src(x)
    } else {
        table_map(es.drop_first(), x)
    }
}

pub proof fn lemma_table_map_uncovered(es: Seq<RemapEntry>, x: int)
    requires
        !covered(es, x),
    ensures
        table_map(es, x) == x,
    decreases es.len(),
{
    if es.len() > 0 {
        assert(!es[0].contains_src(x));
        assert(!covered(es.drop_first(), x)) by {
            if covered(es.drop_first(), x) {
                let k = choose|k: int|
                    0 <= k < es.drop_first().len() && es.drop_first()[k].contains_src(x);
                assert(es[k + 1].contains_src(x));
            }
        }
        lemma_table_map_uncovered(es.drop_first(), x);
    }
}

/// In a table with pairwise disjoint source intervals, the one entry
/// holding `x` decides where `x` goes.
pub proof fn lemma_table_map_at(es: Seq<RemapEntry>, x: int, k: int)
    requires
        0 <= k < es.len(),
        es[k].contains_src(x),
        forall|i: int, j: int|
            0 <= i < es.len() && 0 <= j < es.len() && i != j ==> es[i].disjoint_src(es[j]),
    ensures
        table_map(es, x) == es[k].map_src(x),
    decreases es.len(),
{
    if k == 0 {
    } else {
        assert(es[0].disjoint_src(es[k]));
        assert(!es[0].contains_src(x));
        assert(es.drop_first()[k - 1] == es[k]);
        assert(forall|i: int, j: int|
            0 <= i < es.drop_first().len() && 0 <= j < es.drop_first().len() && i != j
                ==> es.drop_first()[i].disjoint_src(es.drop_first()[j])) by {
            assert(forall|i: int| 0 <= i < es.drop_first().len() ==> es.drop_first()[i] == es[i + 1]);
        }
        lemma_table_map_at(es.drop_first(), x, k - 1);
    }
}

/// Total length of a list of intervals.
pub open spec fn sum_lengths(s: Seq<Interval>) -> int
    decreases s.len(),
{
    if s.len() == 0 {
        0
    } else {
        sum_lengths(s.drop_last()) + s.last().length
    }
}

/// Intervals listed in order of ascending start.
pub open spec fn sorted_by_start(s: Seq<Interval>) -> bool {
    forall|i: int, j: int| 0 <= i < j < s.len() ==> s[i].start <= s[j].start
}

proof fn lemma_sum_insert(s: Seq<Interval>, k: int, x: Interval)
    requires
        0 <= k <= s.len(),
    ensures
        sum_lengths(s.insert(k, x)) == sum_lengths(s) + x.length,
    decreases s.len(),
{
    if k == s.len() {
        assert(s.insert(k, x) =~= s.push(x));
        assert(s.push(x).drop_last() =~= s);
    } else {
        assert(s.insert(k, x).drop_last() =~= s.drop_last().insert(k, x));
        assert(s.insert(k, x).last() == s.last());
        lemma_sum_insert(s.drop_last(), k, x);
    }
}

/// Stable insertion sort of intervals by ascending start.
fn sort_by_start(v: Vec<Interval>) -> (r: Vec<Interval>)
    ensures
        r@.to_multiset() == v@.to_multiset(),
        sorted_by_start(r@),
        sum_lengths(r@) == sum_lengths(v@),
        r@.len() == v@.len(),
{
    broadcast use vstd::seq_lib::to_multiset_insert;
    broadcast use vstd::seq_lib::to_multiset_build;

    let n = v.len();
    let mut r: Vec<Interval> = Vec::new();
    proof {
        assert(r@ =~= v@.take(0));
    }
    let mut i: usize = 0;
    while i < n
        invariant
            n == v@.len(),
            0 <= i <= n,
            r@.len() == i,
            r@.to_multiset() == v@.take(i as int).to_multiset(),
            sorted_by_start(r@),
            sum_lengths(r@) == sum_lengths(v@.take(i as int)),
        decreases n - i,
    {
        let x = v[i];
        let mut p: usize = 0;
        while p < r.len() && r[p].start <= x.start
            invariant
                0 <= p <= r@.len(),
                forall|k: int| 0 <= k < p ==> r@[k].start <= x.start,
            decreases r@.len() - p,
        {
            p = p + 1;
        }
        let ghost old_r = r@;
        r.insert(p, x);
        proof {
            assert(sorted_by_start(r@)) by {
                assert(forall|k: int| 0 <= k < p ==> r@[k] == old_r[k]);
                assert(r@[p as int] == x);
                assert(forall|k: int| p < k < r@.len() ==> r@[k] == old_r[k - 1]);
                assert(forall|k: int| p <= k < old_r.len() ==> old_r[k].start > x.start || k == p);
                assert forall|a: int, b: int| 0 <= a < b < r@.len() implies r@[a].start
                    <= r@[b].start by {
                    if a < p && b < p {
                    } else if b == p {
                        assert(r@[a] == old_r[a]);
                    } else if a == p {
                        assert(r@[b] == old_r[b - 1]);
                        if p < old_r.len() {
                            assert(old_r[p as int].start > x.start);
                            assert(old_r[b - 1].start >= old_r[p as int].start);
                        }
                    } else if a < p {
                        assert(r@[b] == old_r[b - 1]);
                    } else {
                        assert(r@[a] == old_r[a - 1]);
                        assert(r@[b] == old_r[b - 1]);
                    }
                }
            }
            lemma_sum_insert(old_r, p as int, x);
            assert(v@.take((i + 1) as int) =~= v@.take(i as int).push(v@[i as int]));
            assert(v@.take((i + 1) as int).drop_last() =~= v@.take(i as int));
            assert(r@ == old_r.insert(p as int, x));
            vstd::seq_lib::to_multiset_insert(old_r, p as int, x);
            vstd::seq_lib::to_multiset_build(v@.take(i as int), v@[i as int]);
            assert(r@.to_multiset() == v@.take((i + 1) as int).to_multiset());
        }
        i = i + 1;
    }
    proof {
        assert(v@.take(n as int) =~= v@);
    }
    r
}

/// Does `x` lie in one of the listed intervals?
pub open spec fn in_some(list: Seq<Interval>, x: int) -> bool {
    exists|k: int| 0 <= k < list.len() && (#[trigger] list[k]).spec_contains(x)
}

/// The `m`-th entry produced `a` as its overlap with `iv` and `o` as
/// the translated image of that overlap.
pub open spec fn ov_ok(es: Seq<RemapEntry>, iv: Interval, m: int, a: Interval) -> bool {
    &&& 0 <= m < es.len()
    &&& es[m].overlaps(iv)
    &&& a.start == es[m].overlap_lo(iv)
    &&& a.start + a.length == es[m].overlap_hi(iv)
}

/// The `m`-th entry produced `o` as the translated image of its
/// overlap with `iv`.
pub open spec fn chunk_ok(es: Seq<RemapEntry>, iv: Interval, m: int, o: Interval) -> bool {
    &&& 0 <= m < es.len()
    &&& is_entry_chunk(es[m], iv, o)
}

/// Both halves together: overlap and translated image of one entry.
pub open spec fn pick_ok(es: Seq<RemapEntry>, iv: Interval, m: int, a: Interval, o: Interval) -> bool {
    ov_ok(es, iv, m, a) && chunk_ok(es, iv, m, o)
}

/// Two intervals that share no point.
pub open spec fn iv_disjoint(a: Interval, b: Interval) -> bool {
    a.start + a.length <= b.start || b.start + b.length <= a.start
}

/// The entry's source interval encloses `iv` whole.
pub open spec fn covers(e: RemapEntry, iv: Interval) -> bool {
    e.source <= iv.start && iv.start + iv.length <= e.source + e.length
}

/// One output chunk that an entry produced: the overlap of `iv` with
/// the entry's source interval, translated by the entry's shift.
pub open spec fn is_entry_chunk(e: RemapEntry, iv: Interval, o: Interval) -> bool {
    &&& e.overlaps(iv)
    &&& o.start == e.destination + (e.overlap_lo(iv) - e.source)
    &&& o.length == e.overlap_hi(iv) - e.overlap_lo(iv)
}

/// One output chunk that passed through unchanged: a non-empty piece of
/// `iv` that no entry covers.
pub open spec fn is_free_chunk(es: Seq<RemapEntry>, iv: Interval, o: Interval) -> bool {
    &&& o.length > 0
    &&& forall|x: int| o.spec_contains(x) ==> iv.spec_contains(x) && !covered(es, x)
}

/// What mapping an interval through a table yields: non-empty
/// well-formed output intervals whose lengths add up to the input's
/// length, such that the translated position of every value of the
/// input interval lies in one of them, and each of them is either the
/// translated overlap with one entry or an untouched uncovered piece of
/// the input.
pub open spec fn is_interval_mapping(es: Seq<RemapEntry>, iv: Interval, out: Seq<Interval>) -> bool {
    &&& forall|j: int| 0 <= j < out.len() ==> (#[trigger] out[j]).wf() && out[j].length > 0
    &&& sum_lengths(out) == iv.length
    &&& forall|x: int|
        iv.spec_contains(x) ==> exists|j: int|
            0 <= j < out.len() && (#[trigger] out[j]).spec_contains(table_map(es, x))
    &&& forall|j: int|
        0 <= j < out.len() ==> (exists|m: int|
            0 <= m < es.len() && is_entry_chunk(es[m], iv, #[trigger] out[j])) || is_free_chunk(
            es,
            iv,
            out[j],
        )
}

/// An ordered remapping table.
///
/// The table is well formed when every entry stays inside the `u64`
/// domain and the entries' source intervals are pairwise disjoint, as
/// the input format guarantees.
#[derive(Debug)]
pub struct RemapTable {
    pub entries: Vec<RemapEntry>,
}

impl RemapTable {
    /// Every entry stays inside the `u64` domain.
    pub open spec fn entries_wf(self) -> bool {
        forall|i: int| 0 <= i < self.entries@.len() ==> (#[trigger] self.entries@[i]).wf()
    }

    /// Well-formed entries with pairwise disjoint source intervals.
    pub open spec fn wf(self) -> bool {
        &&& self.entries_wf()
        &&& forall|i: int, j: int|
            0 <= i < self.entries@.len() && 0 <= j < self.entries@.len() && i != j
                ==> self.entries@[i].disjoint_src(self.entries@[j])
    }

    /// Where the table sends the single value `input`: the entry whose
    /// source interval holds it translates it, and a value no entry
    /// holds passes through unchanged.
    pub fn get_destination(&self, input: u64) -> (r: u64)
        requires
            self.entries_wf(),
        ensures
            r == table_map(self.entries@, input as int),
    {
        let n = self.entries.len();
        proof {
            assert(self.entries@.skip(0) =~= self.entries@);
        }
        let mut i: usize = 0;
        while i < n
            invariant
                n == self.entries@.len(),
                0 <= i <= n,
                self.entries_wf(),
                table_map(self.entries@, input as int) == table_map(
                    self.entries@.skip(i as int),
                    input as int,
                ),
        decreases n - i,
        {
            let e = self.entries[i];
            proof {
                assert(self.entries@.skip(i as int)[0] == e);
                assert(self.entries@.skip(i as int).drop_first() =~= self.entries@.skip(
                    (i + 1) as int,
                ));
            }
            if input >= e.source && input < e.source + e.length {
                return e.destination + (input - e.source);
            }
            i = i + 1;
        }
        proof {
            assert(self.entries@.skip(n as int) =~= Seq::<RemapEntry>::empty());
        }
        input
    }

}

impl RemapTable {
    /// Collect, entry by entry, the overlap of `range` with each
    /// entry's source interval (first result) and its translated image
    /// (second result).  The ghost third result records which entry
    /// produced each pair.
    fn collect_overlaps(&self, range: &Interval) -> (r: (
        Vec<Interval>,
        Vec<Interval>,
        Ghost<Seq<int>>,
    ))
        requires
            self.wf(),
            range.wf(),
            range.length > 0,
        ensures
            r.0@.len() == r.1@.len(),
            r.2@.len() == r.0@.len(),
            forall|k: int|
                0 <= k < r.2@.len() ==> #[trigger] pick_ok(
                    self.entries@,
                    *range,
                    r.2@[k],
                    r.0@[k],
                    r.1@[k],
                ),
            forall|m: int|
                0 <= m < self.entries@.len() && (#[trigger] self.entries@[m]).overlaps(*range)
                    ==> exists|k: int| 0 <= k < r.2@.len() && r.2@[k] == m,
            forall|a: int, b: int| 0 <= a < b < r.2@.len() ==> r.2@[a] < r.2@[b],
            forall|a: int, b: int|
                0 <= a < r.0@.len() && 0 <= b < r.0@.len() && a != b ==> #[trigger] r.0@[a]
                    != #[trigger] r.0@[b] && iv_disjoint(r.0@[a], r.0@[b]),
            sum_lengths(r.1@) == sum_lengths(r.0@),
            forall|k: int|
                0 <= k < r.0@.len() ==> (#[trigger] r.0@[k]).length > 0 && r.0@[k].wf()
                    && r.0@[k].start >= range.start && r.0@[k].start + r.0@[k].length
                    <= range.start + range.length,
            forall|j: int|
                0 <= j < r.1@.len() ==> (#[trigger] r.1@[j]).wf() && r.1@[j].length > 0,
            r.0@.len() == 0 ==> forall|m: int|
                0 <= m < self.entries@.len() ==> !(#[trigger] self.entries@[m]).overlaps(*range),
    {
        let ghost es = self.entries@;
        let ghost iv = *range;
        let n = self.entries.len();
        let mut input_ranges: Vec<Interval> = Vec::new();
        let mut ranges: Vec<Interval> = Vec::new();
        let ghost mut ms: Seq<int> = Seq::empty();
        let mut i: usize = 0;
        while i < n
            invariant
                n == es.len(),
                es == self.entries@,
                iv == *range,
                self.entries_wf(),
                range.wf(),
                range.length > 0,
                0 <= i <= n,
                input_ranges@.len() == ranges@.len(),
                ms.len() == input_ranges@.len(),
                forall|k: int| 0 <= k < ms.len() ==> 0 <= #[trigger] ms[k] < i,
                forall|a: int, b: int| 0 <= a < b < ms.len() ==> ms[a] < ms[b],
                forall|k: int|
                    0 <= k < ms.len() ==> #[trigger] pick_ok(
                        es,
                        iv,
                        ms[k],
                        input_ranges@[k],
                        ranges@[k],
                    ),
                forall|m: int|
                    0 <= m < i && (#[trigger] es[m]).overlaps(iv) ==> exists|k: int|
                        0 <= k < ms.len() && ms[k] == m,
                sum_lengths(ranges@) == sum_lengths(input_ranges@),
            decreases n - i,
        {
            let e = self.entries[i];
            let src_iv = Interval { start: e.source, length: e.length };
            match range.intersection(&src_iv) {
                Option::Some(inter) => {
                    let mapped = Interval {
                        start: e.destination + (inter.start - e.source),
                        length: inter.length,
                    };
                    let ghost old_in = input_ranges@;
                    let ghost old_rg = ranges@;
                    ranges.push(mapped);
                    input_ranges.push(inter);
                    proof {
                        let old_ms = ms;
                        ms = ms.push(i as int);
                        assert(ranges@.drop_last() =~= old_rg);
                        assert(input_ranges@.drop_last() =~= old_in);
                        assert(es[i as int] == e);
                        assert(e.overlaps(iv));
                        assert(is_entry_chunk(e, iv, mapped));
                        assert(pick_ok(es, iv, i as int, inter, mapped));
                        assert(forall|k: int| 0 <= k < old_ms.len() ==> ms[k] == old_ms[k]);
                        assert(ms[ms.len() - 1] == i as int);
                        assert forall|m: int|
                            0 <= m < i + 1 && (#[trigger] es[m]).overlaps(iv) implies exists|
                            k: int,
                        |
                            0 <= k < ms.len() && ms[k] == m by {
                            if m == i {
                                assert(ms[ms.len() - 1] == m);
                            } else {
                                let k = choose|k: int| 0 <= k < old_ms.len() && old_ms[k] == m;
                                assert(ms[k] == m);
                            }
                        }
                    }
                },
                Option::None => {
                    proof {
                        assert(!es[i as int].overlaps(iv));
                    }
                },
            }
            i = i + 1;
        }
        proof {
            assert forall|a: int, b: int|
                0 <= a < input_ranges@.len() && 0 <= b < input_ranges@.len() && a
                    != b implies #[trigger] input_ranges@[a] != #[trigger] input_ranges@[b]
                && iv_disjoint(input_ranges@[a], input_ranges@[b]) by {
                let ma = ms[a];
                let mb = ms[b];
                assert(pick_ok(es, iv, ma, input_ranges@[a], ranges@[a]));
                assert(pick_ok(es, iv, mb, input_ranges@[b], ranges@[b]));
                assert(ma != mb) by {
                    if a < b {
                        assert(ms[a] < ms[b]);
                    } else {
                        assert(ms[b] < ms[a]);
                    }
                }
                assert(es[ma].disjoint_src(es[mb]));
                assert(input_ranges@[a].length > 0 && input_ranges@[b].length > 0);
                assert(iv_disjoint(input_ranges@[a], input_ranges@[b]));
            }
            assert forall|k: int| 0 <= k < input_ranges@.len() implies (
            #[trigger] input_ranges@[k]).length > 0 && input_ranges@[k].wf()
                && input_ranges@[k].start >= iv.start && input_ranges@[k].start
                + input_ranges@[k].length <= iv.start + iv.length by {
                assert(pick_ok(es, iv, ms[k], input_ranges@[k], ranges@[k]));
                assert(es[ms[k]].wf());
            }
            assert forall|j: int| 0 <= j < ranges@.len() implies (#[trigger] ranges@[j]).wf()
                && ranges@[j].length > 0 by {
                assert(pick_ok(es, iv, ms[j], input_ranges@[j], ranges@[j]));
                assert(es[ms[j]].wf());
            }
        }
        (input_ranges, ranges, Ghost(ms))
    }
}

/// Consecutive disjoint sorted intervals stay apart at any distance.
proof fn lemma_chain_le(sd: Seq<Interval>, k: int, l: int)
    requires
        forall|t: int| 0 <= t < sd.len() ==> (#[trigger] sd[t]).length > 0,
        forall|t: int|
            0 <= t < sd.len() - 1 ==> (#[trigger] sd[t]).start + sd[t].length <= sd[t + 1].start,
        0 <= k < l < sd.len(),
    ensures
        sd[k].start + sd[k].length <= sd[l].start,
    decreases l - k,
{
    if k + 1 < l {
        lemma_chain_le(sd, k, l - 1);
        assert(sd[l - 1].start + sd[l - 1].length <= sd[l].start);
    }
}

/// Carry the per-element facts about the collected overlaps over to
/// their sorted arrangement.
#[verifier::rlimit(100)]
proof fn lemma_sorted_facts(
    es: Seq<RemapEntry>,
    iv: Interval,
    ms: Seq<int>,
    in0: Seq<Interval>,
    sd: Seq<Interval>,
)
    requires
        ms.len() == in0.len(),
        sd.len() == in0.len(),
        forall|k: int| 0 <= k < ms.len() ==> #[trigger] ov_ok(es, iv, ms[k], in0[k]),
        forall|m: int|
            0 <= m < es.len() && (#[trigger] es[m]).overlaps(iv) ==> exists|k: int|
                0 <= k < ms.len() && ms[k] == m,
        forall|a: int, b: int|
            0 <= a < in0.len() && 0 <= b < in0.len() && a != b ==> #[trigger] in0[a]
                != #[trigger] in0[b] && iv_disjoint(in0[a], in0[b]),
        forall|k: int|
            0 <= k < in0.len() ==> (#[trigger] in0[k]).length > 0 && in0[k].wf() && in0[k].start
                >= iv.start && in0[k].start + in0[k].length <= iv.start + iv.length,
        sd.to_multiset() == in0.to_multiset(),
        sorted_by_start(sd),
    ensures
        forall|k: int|
            0 <= k < sd.len() ==> (#[trigger] sd[k]).length > 0 && sd[k].wf() && sd[k].start
                >= iv.start && sd[k].start + sd[k].length <= iv.start + iv.length,
        forall|k: int|
            0 <= k < sd.len() - 1 ==> (#[trigger] sd[k]).start + sd[k].length <= sd[k + 1].start,
        forall|x: int| #[trigger] covered(es, x) && iv.spec_contains(x) ==> in_some(sd, x),
        forall|x: int, k: int|
            0 <= k < sd.len() && #[trigger] sd[k].spec_contains(x) ==> covered(es, x),
{
    assert forall|k: int| 0 <= k < sd.len() implies exists|l: int|
        0 <= l < in0.len() && in0[l] == #[trigger] sd[k] by {
        assert(sd.contains(sd[k]));
        vstd::seq_lib::to_multiset_contains(sd, sd[k]);
        vstd::seq_lib::to_multiset_contains(in0, sd[k]);
        assert(in0.contains(sd[k]));
    }
    assert forall|k: int| 0 <= k < sd.len() implies (#[trigger] sd[k]).length > 0 && sd[k].wf()
        && sd[k].start >= iv.start && sd[k].start + sd[k].length <= iv.start + iv.length by {
        let l = choose|l: int| 0 <= l < in0.len() && in0[l] == sd[k];
        assert(in0[l].length > 0);
    }
    in0.lemma_multiset_has_no_duplicates();
    sd.lemma_multiset_has_no_duplicates_conv();
    assert forall|k: int, l: int|
        0 <= k < sd.len() && 0 <= l < sd.len() && k != l implies iv_disjoint(
        #[trigger] sd[k],
        #[trigger] sd[l],
    ) by {
        assert(sd[k] != sd[l]);
        let a = choose|a: int| 0 <= a < in0.len() && in0[a] == sd[k];
        let b = choose|b: int| 0 <= b < in0.len() && in0[b] == sd[l];
        assert(a != b);
    }
    assert forall|k: int| 0 <= k < sd.len() - 1 implies (#[trigger] sd[k]).start + sd[k].length
        <= sd[k + 1].start by {
        assert(iv_disjoint(sd[k], sd[k + 1]));
        assert(sd[k].start <= sd[k + 1].start);
        if sd[k + 1].start + sd[k + 1].length <= sd[k].start {
            assert(sd[k + 1].length > 0);
            assert(false);
        }
    }
    assert forall|x: int| #[trigger] covered(es, x) && iv.spec_contains(x) implies in_some(
        sd,
        x,
    ) by {
        let m = choose|m: int| 0 <= m < es.len() && es[m].contains_src(x);
        assert(es[m].overlaps(iv));
        let k0 = choose|k0: int| 0 <= k0 < ms.len() && ms[k0] == m;
        assert(ov_ok(es, iv, m, in0[k0]));
        assert(in0[k0].spec_contains(x));
        assert(in0.contains(in0[k0]));
        vstd::seq_lib::to_multiset_contains(in0, in0[k0]);
        vstd::seq_lib::to_multiset_contains(sd, in0[k0]);
        assert(sd.contains(in0[k0]));
        let k = choose|k: int| 0 <= k < sd.len() && sd[k] == in0[k0];
        assert(sd[k].spec_contains(x));
    }
    assert forall|x: int, k: int|
        0 <= k < sd.len() && #[trigger] sd[k].spec_contains(x) implies covered(es, x) by {
        let l = choose|l: int| 0 <= l < in0.len() && in0[l] == sd[k];
        assert(ov_ok(es, iv, ms[l], in0[l]));
        assert(es[ms[l]].contains_src(x));
    }
}

/// Every value of the interval lands, translated, in one of the
/// assembled pieces: covered values in their entry's translated chunk,
/// uncovered ones unchanged in an identity piece.
#[verifier::rlimit(100)]
proof fn lemma_coverage(
    es: Seq<RemapEntry>,
    iv: Interval,
    ms: Seq<int>,
    off: int,
    sd: Seq<Interval>,
    mp: Seq<Interval>,
    rg: Seq<Interval>,
)
    requires
        sd.len() >= 1,
        ms.len() == mp.len(),
        forall|i: int, j: int|
            0 <= i < es.len() && 0 <= j < es.len() && i != j ==> es[i].disjoint_src(es[j]),
        forall|k: int|
            0 <= k < sd.len() ==> (#[trigger] sd[k]).length > 0 && sd[k].start >= iv.start
                && sd[k].start + sd[k].length <= iv.start + iv.length,
        forall|x: int| #[trigger] covered(es, x) && iv.spec_contains(x) ==> in_some(sd, x),
        forall|x: int, k: int|
            0 <= k < sd.len() && #[trigger] sd[k].spec_contains(x) ==> covered(es, x),
        forall|j: int| 0 <= j < ms.len() ==> #[trigger] chunk_ok(es, iv, ms[j], mp[j]),
        forall|m: int|
            0 <= m < es.len() && (#[trigger] es[m]).overlaps(iv) ==> exists|k: int|
                0 <= k < ms.len() && ms[k] == m,
        0 <= off,
        off + mp.len() <= rg.len(),
        forall|j: int| 0 <= j < mp.len() ==> #[trigger] mp[j] == rg[off + j],
        forall|x: int|
            iv.start <= x < sd[sd.len() - 1].start && !in_some(sd, x) ==> #[trigger] in_some(
                rg,
                x,
            ),
        forall|x: int|
            sd[sd.len() - 1].start + sd[sd.len() - 1].length <= x < iv.start + iv.length
                ==> #[trigger] in_some(rg, x),
    ensures
        forall|x: int|
            iv.spec_contains(x) ==> exists|j: int|
                0 <= j < rg.len() && (#[trigger] rg[j]).spec_contains(table_map(es, x)),
{
    assert forall|x: int| iv.spec_contains(x) implies exists|j: int|
        0 <= j < rg.len() && (#[trigger] rg[j]).spec_contains(table_map(es, x)) by {
        if covered(es, x) {
            let m = choose|m: int| 0 <= m < es.len() && es[m].contains_src(x);
            lemma_table_map_at(es, x, m);
            assert(es[m].overlaps(iv));
            let k = choose|k: int| 0 <= k < ms.len() && ms[k] == m;
            assert(chunk_ok(es, iv, m, mp[k]));
            assert(is_entry_chunk(es[m], iv, mp[k]));
            assert(mp[k] == rg[off + k]);
            assert(rg[off + k].spec_contains(table_map(es, x)));
        } else {
            lemma_table_map_uncovered(es, x);
            assert(!in_some(sd, x)) by {
                if in_some(sd, x) {
                    let k = choose|k: int| 0 <= k < sd.len() && (#[trigger] sd[k]).spec_contains(x);
                    assert(covered(es, x));
                }
            }
            if x < sd[sd.len() - 1].start {
                assert(in_some(rg, x));
            } else {
                assert(!sd[sd.len() - 1].spec_contains(x));
                assert(x >= sd[sd.len() - 1].start + sd[sd.len() - 1].length);
                assert(in_some(rg, x));
            }
            let j = choose|j: int| 0 <= j < rg.len() && (#[trigger] rg[j]).spec_contains(x);
            assert(rg[j].spec_contains(table_map(es, x)));
        }
    }
}

/// Fill the uncovered stretches of `range` — before, between and after
/// the sorted overlaps — with identity pieces, completing the
/// translated chunks into an exact partition of the input interval.
#[verifier::rlimit(100)]
fn fill_gaps(
    sorted: &Vec<Interval>,
    mapped: Vec<Interval>,
    range: &Interval,
    Ghost(es): Ghost<Seq<RemapEntry>>,
    Ghost(ms): Ghost<Seq<int>>,
) -> (out: Vec<Interval>)
    requires
        range.wf(),
        range.length > 0,
        sorted@.len() >= 1,
        mapped@.len() == sorted@.len(),
        ms.len() == mapped@.len(),
        forall|j: int| 0 <= j < ms.len() ==> #[trigger] chunk_ok(es, *range, ms[j], mapped@[j]),
        forall|m: int|
            0 <= m < es.len() && (#[trigger] es[m]).overlaps(*range) ==> exists|k: int|
                0 <= k < ms.len() && ms[k] == m,
        forall|j: int|
            0 <= j < mapped@.len() ==> (#[trigger] mapped@[j]).wf() && mapped@[j].length > 0,
        forall|k: int|
            0 <= k < sorted@.len() ==> (#[trigger] sorted@[k]).length > 0 && sorted@[k].wf()
                && sorted@[k].start >= range.start && sorted@[k].start + sorted@[k].length
                <= range.start + range.length,
        forall|k: int|
            0 <= k < sorted@.len() - 1 ==> (#[trigger] sorted@[k]).start + sorted@[k].length
                <= sorted@[k + 1].start,
        forall|x: int| #[trigger] covered(es, x) && range.spec_contains(x) ==> in_some(sorted@, x),
        forall|x: int, k: int|
            0 <= k < sorted@.len() && #[trigger] sorted@[k].spec_contains(x) ==> covered(es, x),
        sum_lengths(mapped@) == sum_lengths(sorted@),
        forall|i: int, j: int|
            0 <= i < es.len() && 0 <= j < es.len() && i != j ==> es[i].disjoint_src(es[j]),
    ensures
        is_interval_mapping(es, *range, out@),
        (sorted@.len() == 1 && sorted@[0].start == range.start && sorted@[0].start
            + sorted@[0].length == range.start + range.length) ==> out@ == mapped@,
{
    let ghost iv = *range;
    let ghost sd = sorted@;
    let ghost mp = mapped@;
    let mut ranges = mapped;
    proof {
        assert forall|k: int, l: int| 0 <= k < l < sd.len() implies (#[trigger] sd[k]).start
            + sd[k].length <= (#[trigger] sd[l]).start by {
            lemma_chain_le(sd, k, l);
        }
    }
    let ghost mut off: int = 0;
    let first = sorted[0];
    if first.start > range.start {
        let gap = Interval { start: range.start, length: first.start - range.start };
        let ghost old_rg = ranges@;
        ranges.insert(0, gap);
        proof {
            off = 1;
            lemma_sum_insert(old_rg, 0, gap);
            assert(forall|j: int| 1 <= j < ranges@.len() ==> ranges@[j] == old_rg[j - 1]);
            assert(ranges@[0] == gap);
            assert forall|x: int| gap.spec_contains(x) implies iv.spec_contains(x) && !covered(
                es,
                x,
            ) by {
                assert(x < sd[0].start);
                if covered(es, x) {
                    assert(in_some(sd, x));
                    let k = choose|k: int| 0 <= k < sd.len() && (#[trigger] sd[k]).spec_contains(x);
                    assert(sd[0].start <= sd[k].start);
                    assert(false);
                }
            }
            assert(is_free_chunk(es, iv, gap));
        }
    }
    proof {
        assert(sum_lengths(ranges@) == sum_lengths(sd) + sd[0].start - iv.start - sum_lengths(
            sd.take(0),
        )) by {
            assert(sd.take(0) =~= Seq::<Interval>::empty());
        }
        assert forall|x: int|
            iv.start <= x < sd[0].start && !in_some(sd, x) implies #[trigger] in_some(
            ranges@,
            x,
        ) by {
            assert(first.start > iv.start);
            assert(ranges@[0].spec_contains(x));
        }
    }
    let mut gi: usize = 0;
    while gi < sorted.len() - 1
        invariant
            iv == *range,
            sd == sorted@,
            iv.wf(),
            iv.length > 0,
            1 <= sd.len(),
            0 <= off <= 1,
            forall|k: int|
                0 <= k < sd.len() ==> (#[trigger] sd[k]).length > 0 && sd[k].wf() && sd[k].start
                    >= iv.start && sd[k].start + sd[k].length <= iv.start + iv.length,
            forall|k: int, l: int|
                0 <= k < l < sd.len() ==> (#[trigger] sd[k]).start + sd[k].length
                    <= (#[trigger] sd[l]).start,
            forall|x: int| #[trigger] covered(es, x) && iv.spec_contains(x) ==> in_some(sd, x),
            0 <= gi <= sd.len() - 1,
            off + mp.len() <= ranges@.len(),
            forall|j: int| 0 <= j < mp.len() ==> #[trigger] mp[j] == ranges@[off + j],
            forall|j: int|
                0 <= j < ranges@.len() && !(off <= j < off + mp.len()) ==> is_free_chunk(
                    es,
                    iv,
                    #[trigger] ranges@[j],
                ) && ranges@[j].wf() && ranges@[j].length > 0,
            sum_lengths(ranges@) == sum_lengths(sd) + sd[gi as int].start - iv.start - sum_lengths(
                sd.take(gi as int),
            ),
            forall|x: int|
                iv.start <= x < sd[gi as int].start && !in_some(sd, x) ==> #[trigger] in_some(
                    ranges@,
                    x,
                ),
            (sd.len() == 1 && sd[0].start == iv.start && sd[0].start + sd[0].length == iv.start
                + iv.length) ==> ranges@ == mp,
        decreases sd.len() - 1 - gi,
    {
        let a = sorted[gi];
        let b = sorted[gi + 1];
        let a_end = a.last();
        proof {
            assert(sd[gi as int].start + sd[gi as int].length <= sd[gi + 1].start);
            assert(sd.take((gi + 1) as int).drop_last() =~= sd.take(gi as int));
            assert(sum_lengths(sd.take((gi + 1) as int)) == sum_lengths(sd.take(gi as int))
                + sd[gi as int].length);
        }
        if a_end < b.start {
            let gap = Interval { start: a_end, length: b.start - a_end };
            let ghost old_rg = ranges@;
            ranges.push(gap);
            proof {
                assert(ranges@.drop_last() =~= old_rg);
                assert forall|x: int| gap.spec_contains(x) implies iv.spec_contains(x) && !covered(
                    es,
                    x,
                ) by {
                    assert(x >= sd[gi as int].start + sd[gi as int].length);
                    assert(x < sd[gi + 1].start);
                    if covered(es, x) {
                        assert(in_some(sd, x));
                        let k = choose|k: int|
                            0 <= k < sd.len() && (#[trigger] sd[k]).spec_contains(x);
                        if k < gi {
                            assert(sd[k].start + sd[k].length <= sd[gi as int].start);
                            assert(false);
                        } else if k == gi {
                            assert(false);
                        } else {
                            assert(sd[gi + 1].start <= sd[k].start);
                            assert(false);
                        }
                    }
                }
                assert(is_free_chunk(es, iv, gap));
                assert(sd.len() > 1);
                assert forall|x: int| in_some(old_rg, x) implies #[trigger] in_some(
                    ranges@,
                    x,
                ) by {
                    let j = choose|j: int|
                        0 <= j < old_rg.len() && (#[trigger] old_rg[j]).spec_contains(x);
                    assert(ranges@[j].spec_contains(x));
                }
            }
        }
        proof {
            assert forall|x: int|
                iv.start <= x < sd[gi + 1].start && !in_some(sd, x) implies #[trigger] in_some(
                ranges@,
                x,
            ) by {
                if x < sd[gi as int].start {
                    assert(in_some(ranges@, x));
                } else {
                    assert(!sd[gi as int].spec_contains(x));
                    assert(x >= sd[gi as int].start + sd[gi as int].length);
                    assert(ranges@[ranges@.len() - 1].spec_contains(x));
                }
            }
        }
        gi = gi + 1;
    }
    let last_iv = sorted[sorted.len() - 1];
    let le = last_iv.last();
    let re = range.last();
    proof {
        assert(gi == sd.len() - 1);
        assert(sd.take(sd.len() - 1) =~= sd.drop_last());
        assert(sum_lengths(sd) == sum_lengths(sd.drop_last()) + sd[sd.len() - 1].length);
        assert(sum_lengths(ranges@) == sd[sd.len() - 1].start + sd[sd.len() - 1].length
            - iv.start);
    }
    if le < re {
        let gap = Interval { start: le, length: re - le };
        let ghost old_rg = ranges@;
        ranges.push(gap);
        proof {
            assert(ranges@.drop_last() =~= old_rg);
            assert forall|x: int| gap.spec_contains(x) implies iv.spec_contains(x) && !covered(
                es,
                x,
            ) by {
                assert(x >= sd[sd.len() - 1].start + sd[sd.len() - 1].length);
                if covered(es, x) {
                    assert(in_some(sd, x));
                    let k = choose|k: int| 0 <= k < sd.len() && (#[trigger] sd[k]).spec_contains(x);
                    if k < sd.len() - 1 {
                        assert(sd[k].start + sd[k].length <= sd[sd.len() - 1].start);
                        assert(false);
                    } else {
                        assert(false);
                    }
                }
            }
            assert(is_free_chunk(es, iv, gap));
            assert forall|x: int| in_some(old_rg, x) implies #[trigger] in_some(ranges@, x) by {
                let j = choose|j: int|
                    0 <= j < old_rg.len() && (#[trigger] old_rg[j]).spec_contains(x);
                assert(ranges@[j].spec_contains(x));
            }
        }
    }
    proof {
        assert(sum_lengths(ranges@) == iv.length);
        assert forall|x: int|
            sd[sd.len() - 1].start + sd[sd.len() - 1].length <= x < iv.start + iv.length
                implies #[trigger] in_some(ranges@, x) by {
            assert(le < re);
            assert(ranges@[ranges@.len() - 1].spec_contains(x));
        }
        lemma_coverage(es, iv, ms, off, sd, mp, ranges@);
        assert forall|j: int| 0 <= j < ranges@.len() implies ((exists|m: int|
            0 <= m < es.len() && is_entry_chunk(es[m], iv, #[trigger] ranges@[j])) || is_free_chunk(
            es,
            iv,
            ranges@[j],
        )) && ranges@[j].wf() && ranges@[j].length > 0 by {
            if off <= j < off + mp.len() {
                assert(ranges@[j] == mp[j - off]);
                assert(chunk_ok(es, iv, ms[j - off], mp[j - off]));
                assert(is_entry_chunk(es[ms[j - off]], iv, ranges@[j]));
            }
        }
    }
    ranges
}

/// An interval that no entry touches passes through whole: it is its
/// own partition.
proof fn lemma_no_overlap_output(es: Seq<RemapEntry>, iv: Interval)
    requires
        iv.wf(),
        iv.length > 0,
        forall|m: int| 0 <= m < es.len() ==> !(#[trigger] es[m]).overlaps(iv),
    ensures
        is_interval_mapping(es, iv, seq![iv]),
{
    let out = seq![iv];
    assert(sum_lengths(out) == iv.length) by {
        assert(out.drop_last() =~= Seq::<Interval>::empty());
        assert(sum_lengths(Seq::<Interval>::empty()) == 0);
    }
    assert forall|x: int| iv.spec_contains(x) implies !covered(es, x) by {
        if covered(es, x) {
            let m = choose|m: int| 0 <= m < es.len() && es[m].contains_src(x);
            assert(es[m].overlaps(iv));
        }
    }
    assert forall|x: int| iv.spec_contains(x) implies exists|j: int|
        0 <= j < out.len() && (#[trigger] out[j]).spec_contains(table_map(es, x)) by {
        lemma_table_map_uncovered(es, x);
        assert(out[0].spec_contains(x));
    }
    assert(is_free_chunk(es, iv, iv));
}

/// When a single entry encloses the whole interval and nothing else
/// touches it, exactly one overlap was collected and no identity piece
/// was added: the output is that entry's translated chunk alone.
#[verifier::rlimit(100)]
proof fn lemma_single_cover(
    es: Seq<RemapEntry>,
    iv: Interval,
    ms: Seq<int>,
    in0: Seq<Interval>,
    mp: Seq<Interval>,
    sd: Seq<Interval>,
    out: Seq<Interval>,
)
    requires
        iv.length > 0,
        in0.len() >= 1,
        ms.len() == in0.len(),
        mp.len() == in0.len(),
        sd.len() == in0.len(),
        sd.to_multiset() == in0.to_multiset(),
        forall|k: int| 0 <= k < ms.len() ==> #[trigger] pick_ok(es, iv, ms[k], in0[k], mp[k]),
        forall|m: int|
            0 <= m < es.len() && (#[trigger] es[m]).overlaps(iv) ==> exists|k: int|
                0 <= k < ms.len() && ms[k] == m,
        forall|a: int, b: int| 0 <= a < b < ms.len() ==> ms[a] < ms[b],
        (sd.len() == 1 && sd[0].start == iv.start && sd[0].start + sd[0].length == iv.start
            + iv.length) ==> out == mp,
    ensures
        forall|m: int|
            (0 <= m < es.len() && covers(#[trigger] es[m], iv) && (forall|k: int|
                0 <= k < es.len() && k != m ==> !(#[trigger] es[k]).overlaps(iv))) ==> out.len()
                == 1 && is_entry_chunk(es[m], iv, out[0]),
{
    assert forall|m: int|
        (0 <= m < es.len() && covers(#[trigger] es[m], iv) && (forall|k: int|
            0 <= k < es.len() && k != m ==> !(#[trigger] es[k]).overlaps(iv))) implies out.len()
        == 1 && is_entry_chunk(es[m], iv, out[0]) by {
        assert(es[m].overlaps(iv));
        assert(pick_ok(es, iv, ms[0], in0[0], mp[0]));
        assert(ms[0] == m);
        assert(in0.len() == 1) by {
            if in0.len() >= 2 {
                assert(pick_ok(es, iv, ms[1], in0[1], mp[1]));
                assert(ms[1] == m);
                assert(ms[0] < ms[1]);
                assert(false);
            }
        }
        assert(sd.len() == 1);
        assert(sd.contains(sd[0]));
        vstd::seq_lib::to_multiset_contains(sd, sd[0]);
        vstd::seq_lib::to_multiset_contains(in0, sd[0]);
        assert(in0.contains(sd[0]));
        assert(sd[0] == in0[0]);
        assert(es[m].overlap_lo(iv) == iv.start);
        assert(es[m].overlap_hi(iv) == iv.start + iv.length);
        assert(sd[0].start == iv.start && sd[0].start + sd[0].length == iv.start + iv.length);
        assert(out == mp);
        assert(is_entry_chunk(es[m], iv, out[0]));
    }
}

impl RemapTable {
    /// Map a whole interval through the table.  The overlap with each
    /// entry becomes one translated output interval; whatever the
    /// entries leave uncovered passes through unchanged, split into the
    /// pieces before, between and after the covered parts.  An interval
    /// no entry touches comes back alone and unchanged, and one that an
    /// entry encloses whole comes back as a single translated interval.
    #[verifier::rlimit(100)]
    pub fn get_destination_ranges(&self, range: &Interval) -> (out: Vec<Interval>)
        requires
            self.wf(),
            range.wf(),
            range.length > 0,
        ensures
            is_interval_mapping(self.entries@, *range, out@),
            (forall|m: int|
                0 <= m < self.entries@.len() ==> !(#[trigger] self.entries@[m]).overlaps(*range))
                ==> out@ == seq![*range],
            forall|m: int|
                (0 <= m < self.entries@.len() && covers(#[trigger] self.entries@[m], *range) && (
                forall|k: int|
                    0 <= k < self.entries@.len() && k != m
                        ==> !(#[trigger] self.entries@[k]).overlaps(*range))) ==> out@.len() == 1
                    && is_entry_chunk(self.entries@[m], *range, out@[0]),
    {
        let ghost es = self.entries@;
        let ghost iv = *range;
        let (input_ranges, ranges, ms_g) = self.collect_overlaps(range);
        let ghost ms = ms_g@;
        if input_ranges.len() == 0 {
            let out = vec![*range];
            proof {
                assert(out@ =~= seq![iv]);
                lemma_no_overlap_output(es, iv);
                assert forall|m: int|
                    (0 <= m < es.len() && covers(#[trigger] es[m], iv) && (forall|k: int|
                        0 <= k < es.len() && k != m ==> !(#[trigger] es[k]).overlaps(iv))) implies out@.len()
                    == 1 && is_entry_chunk(es[m], iv, out@[0]) by {
                    assert(es[m].overlaps(iv));
                    assert(false);
                }
            }
            return out;
        }
        let ghost in0 = input_ranges@;
        let ghost mp = ranges@;
        let sorted = sort_by_start(input_ranges);
        let ghost sd = sorted@;
        proof {
            assert forall|k: int| 0 <= k < ms.len() implies #[trigger] ov_ok(
                es,
                iv,
                ms[k],
                in0[k],
            ) by {
                assert(pick_ok(es, iv, ms[k], in0[k], mp[k]));
            }
            assert forall|j: int| 0 <= j < ms.len() implies #[trigger] chunk_ok(
                es,
                iv,
                ms[j],
                mp[j],
            ) by {
                assert(pick_ok(es, iv, ms[j], in0[j], mp[j]));
            }
            lemma_sorted_facts(es, iv, ms, in0, sd);
        }
        let out = fill_gaps(&sorted, ranges, range, Ghost(es), Ghost(ms));
        proof {
            assert(pick_ok(es, iv, ms[0], in0[0], mp[0]));
            assert(es[ms[0]].overlaps(iv));
            lemma_single_cover(es, iv, ms, in0, mp, sd, out@);
        }
        out
    }
}

// ---------------------------------------------------------------------
// Laws relating single-value lookup and interval mapping.
// ---------------------------------------------------------------------

/// Partition law: the pieces that mapping an interval yields carry as
/// many integers as the interval itself — their lengths add up to its
/// length, with no gap and no overlap.
pub proof fn lemma_interval_partition(es: Seq<RemapEntry>, iv: Interval, out: Seq<Interval>)
    requires
        is_interval_mapping(es, iv, out),
    ensures
        sum_lengths(out) == iv.length,
{
}

/// Consistency law: for every value of the input interval, the single
/// value lookup lands inside one of the pieces that the interval
/// mapping produced.
pub proof fn lemma_value_interval_consistent(
    es: Seq<RemapEntry>,
    iv: Interval,
    out: Seq<Interval>,
    x: int,
)
    requires
        is_interval_mapping(es, iv, out),
        iv.spec_contains(x),
    ensures
        exists|j: int| 0 <= j < out.len() && (#[trigger] out[j]).spec_contains(table_map(es, x)),
{
}

/// Identity fallback: an empty table translates nothing.  Every single
/// value passes through unchanged, and no entry of an empty table
/// overlaps any interval, so mapping an interval through it returns the
/// interval alone, by the contract of `get_destination_ranges`.
pub proof fn lemma_identity_fallback(es: Seq<RemapEntry>, iv: Interval, x: int)
    requires
        es.len() == 0,
    ensures
        table_map(es, x) == x,
        forall|m: int| 0 <= m < es.len() ==> !(#[trigger] es[m]).overlaps(iv),
{
}

// ---------------------------------------------------------------------
// Parsing the input text.
// ---------------------------------------------------------------------

/// The second `": "`-separated piece of a line, if any.
pub open spec fn second_piece(s: Seq<char>) -> Option<Seq<char>> {
    let pieces = crate::text::split_on_spec(s, seq![':', ' ']);
    if pieces.len() >= 2 {
        Some(pieces[1])
    } else {
        None
    }
}

/// All tokens read as decimal numbers; `None` if one is malformed or
/// out of the `u64` range.
pub open spec fn parse_u64_tokens(toks: Seq<Seq<char>>) -> Option<Seq<u64>>
    decreases toks.len(),
{
    if toks.len() == 0 {
        Some(Seq::empty())
    } else {
        match parse_u64_tokens(toks.drop_last()) {
            Option::Some(vs) => {
                if crate::text::is_digits(toks.last()) && crate::text::nat_of(toks.last())
                    <= u64::MAX {
                    Some(vs.push(crate::text::nat_of(toks.last()) as u64))
                } else {
                    None
                }
            },
            Option::None => None,
        }
    }
}

/// The seed numbers named on the first line.
pub open spec fn seeds_spec(ls: Seq<Seq<char>>) -> Option<Seq<u64>> {
    if ls.len() == 0 {
        None
    } else {
        match second_piece(ls[0]) {
            Option::Some(rest) => parse_u64_tokens(crate::text::tokens_of(rest)),
            Option::None => None,
        }
    }
}

/// One data line: exactly three numbers, in the order destination,
/// source, length.
pub open spec fn entry_spec(line: Seq<char>) -> Option<RemapEntry> {
    let toks = crate::text::tokens_of(line);
    if toks.len() != 3 {
        None
    } else {
        match parse_u64_tokens(toks) {
            Option::Some(vs) => Some(
                RemapEntry { source: vs[1], destination: vs[0], length: vs[2] },
            ),
            Option::None => None,
        }
    }
}

/// The entries of the data lines `ls[lo..hi)`.
pub open spec fn entries_spec(ls: Seq<Seq<char>>, lo: int, hi: int) -> Option<Seq<RemapEntry>>
    decreases hi - lo,
{
    if lo >= hi {
        Some(Seq::empty())
    } else {
        match entries_spec(ls, lo, hi - 1) {
            Option::Some(es) => {
                match entry_spec(ls[hi - 1]) {
                    Option::Some(e) => Some(es.push(e)),
                    Option::None => None,
                }
            },
            Option::None => None,
        }
    }
}

/// First position at or after `i` holding a blank line, or the length.
pub open spec fn blank_end(ls: Seq<Seq<char>>, i: int) -> int
    decreases ls.len() - i,
{
    if i < 0 || i >= ls.len() || ls[i].len() == 0 {
        i
    } else {
        blank_end(ls, i + 1)
    }
}

pub proof fn lemma_blank_end(ls: Seq<Seq<char>>, i: int)
    requires
        0 <= i <= ls.len(),
    ensures
        i <= blank_end(ls, i) <= ls.len(),
        forall|k: int| i <= k < blank_end(ls, i) ==> (#[trigger] ls[k]).len() != 0,
        blank_end(ls, i) < ls.len() ==> ls[blank_end(ls, i)].len() == 0,
    decreases ls.len() - i,
{
    if i < ls.len() && ls[i].len() != 0 {
        lemma_blank_end(ls, i + 1);
    }
}

/// The tables described from line `p` on: one line is consumed, the
/// following non-blank group (its first line being the table's label)
/// holds the data lines; an empty group ends the list.
pub open spec fn tables_spec(ls: Seq<Seq<char>>, p: int) -> Option<Seq<Seq<RemapEntry>>>
    decreases ls.len() - p,
    when 0 <= p
{
    if p >= ls.len() {
        Some(Seq::empty())
    } else {
        proof {
            lemma_blank_end(ls, p + 1);
        }
        let q = p + 1;
        let r = blank_end(ls, q);
        if r - q <= 1 {
            Some(Seq::empty())
        } else {
            match entries_spec(ls, q + 1, r) {
                Option::Some(t) => {
                    match tables_spec(ls, r) {
                        Option::Some(ts) => Some(seq![t] + ts),
                        Option::None => None,
                    }
                },
                Option::None => None,
            }
        }
    }
}

/// The whole input: the seed list and the table chain.
pub open spec fn input_spec(ls: Seq<Seq<char>>) -> Option<(Seq<u64>, Seq<Seq<RemapEntry>>)> {
    match seeds_spec(ls) {
        Option::Some(seeds) => {
            match tables_spec(ls, 1) {
                Option::Some(ts) => Some((seeds, ts)),
                Option::None => None,
            }
        },
        Option::None => None,
    }
}

/// The view of the parsed tables as a sequence of entry sequences.
pub open spec fn tables_view(tables: Seq<RemapTable>) -> Seq<Seq<RemapEntry>> {
    Seq::new(tables.len(), |i: int| tables[i].entries@)
}

/// A single value threaded through every table in order.
pub open spec fn chain_map(ts: Seq<Seq<RemapEntry>>, x: int) -> int
    decreases ts.len(),
{
    if ts.len() == 0 {
        x
    } else {
        chain_map(ts.drop_first(), table_map(ts[0], x))
    }
}

/// The least chained value over a list of seeds.
pub open spec fn min_chain(seeds: Seq<u64>, ts: Seq<Seq<RemapEntry>>) -> int
    decreases seeds.len(),
{
    if seeds.len() <= 1 {
        chain_map(ts, seeds[0] as int)
    } else {
        min_i(chain_map(ts, seeds.last() as int), min_chain(seeds.drop_last(), ts))
    }
}

/// The lines as sequences of characters.
pub open spec fn lines_view(lines: Seq<String>) -> Seq<Seq<char>> {
    Seq::new(lines.len(), |i: int| lines[i]@)
}

/// Every entry of every table stays inside the `u64` domain.
pub open spec fn tables_wf(ts: Seq<Seq<RemapEntry>>) -> bool {
    forall|i: int, j: int|
        0 <= i < ts.len() && 0 <= j < ts[i].len() ==> (#[trigger] ts[i][j]).wf()
}

/// Within each table the source intervals are pairwise disjoint, as
/// the format assumes.
pub open spec fn tables_disjoint(ts: Seq<Seq<RemapEntry>>) -> bool {
    forall|i: int, a: int, b: int|
        0 <= i < ts.len() && 0 <= a < ts[i].len() && 0 <= b < ts[i].len() && a != b ==> (
        #[trigger] ts[i][a]).disjoint_src(#[trigger] ts[i][b])
}

/// Read the seed list and the remapping tables from the input lines.
/// Parsing the same lines twice yields structurally equal results: the
/// outcome is a function of the text alone.
pub fn parse_input(lines: &[String]) -> (r: (Vec<u64>, Vec<RemapTable>))
    requires
        input_spec(lines_view(lines@)) is Some,
    ensures
        ({
            let (seeds, ts) = input_spec(lines_view(lines@)).unwrap();
            r.0@ == seeds && tables_view(r.1@) == ts
        }),
{
    let ghost ls = lines_view(lines@);
    let line0 = crate::text::chars_of(lines[0].as_str());
    let sep: Vec<char> = vec![':', ' '];
    proof {
        assert(sep@ =~= seq![':', ' ']);
        assert(ls[0] == lines@[0]@);
    }
    let pieces = crate::text::split_on(line0.as_slice(), sep.as_slice());
    assert(pieces.deep_view() == crate::text::split_on_spec(ls[0], seq![':', ' ']));
    proof {
        assert(seeds_spec(ls) is Some);
        assert(second_piece(ls[0]) is Some);
        assert(pieces.deep_view().len() >= 2);
        assert(pieces@[1]@ == pieces.deep_view()[1]);
        assert(pieces@[1]@ == second_piece(ls[0]).unwrap());
    }
    let seeds = parse_number_list(&pieces[1]);
    let n = lines.len();
    let mut tables: Vec<RemapTable> = Vec::new();
    let mut p: usize = 0;
    proof {
        assert(tables_spec(ls, 1) is Some);
    }
    let mut done = false;
    p = 1;
    while !done
        invariant
            n == ls.len(),
            ls == lines_view(lines@),
            forall|i: int| 0 <= i < ls.len() ==> ls[i] == lines@[i]@,
            0 <= p <= n + 1,
            !done ==> p <= n,
            tables_spec(ls, 1) is Some,
            ({
                let full = tables_spec(ls, 1).unwrap();
                if done {
                    tables_view(tables@) == full
                } else {
                    tables_spec(ls, p as int) is Some && tables_view(tables@) + tables_spec(
                        ls,
                        p as int,
                    ).unwrap() == full
                }
            }),
        decreases n + 1 - p + (if done { 0int } else { 1int }),
    {
        if p >= n {
            done = true;
            proof {
                assert(tables_spec(ls, p as int).unwrap() =~~= Seq::<Seq<RemapEntry>>::empty());
                assert(tables_view(tables@) + tables_spec(ls, p as int).unwrap() =~~= tables_view(
                    tables@,
                ));
                assert(tables_view(tables@) == tables_spec(ls, 1).unwrap());
            }
        } else {
            proof {
                lemma_blank_end(ls, p + 1);
            }
            let q = p + 1;
            let mut r = q;
            while r < n && lines[r].as_str().unicode_len() != 0
                invariant
                    n == ls.len(),
                    n == lines@.len(),
                    forall|i: int| 0 <= i < ls.len() ==> ls[i] == lines@[i]@,
                    q <= r <= n,
                    blank_end(ls, q as int) == blank_end(ls, r as int),
                decreases n - r,
            {
                r = r + 1;
            }
            assert(blank_end(ls, q as int) == r);
            if r - q <= 1 {
                done = true;
                proof {
                    assert(tables_spec(ls, p as int).unwrap() =~~= Seq::<
                        Seq<RemapEntry>,
                    >::empty());
                    assert(tables_view(tables@) + tables_spec(ls, p as int).unwrap()
                        =~~= tables_view(tables@));
                    assert(tables_view(tables@) == tables_spec(ls, 1).unwrap());
                }
            } else {
                let mut entries: Vec<RemapEntry> = Vec::new();
                let mut d = q + 1;
                proof {
                    assert(entries_spec(ls, (q + 1) as int, r as int) is Some) by {
                        if entries_spec(ls, (q + 1) as int, r as int) is None {
                            assert(tables_spec(ls, p as int) is None);
                        }
                    }
                    lemma_entries_prefix(ls, (q + 1) as int, d as int, r as int);
                }
                while d < r
                    invariant
                        n == ls.len(),
                        n == lines@.len(),
                        forall|i: int| 0 <= i < ls.len() ==> ls[i] == lines@[i]@,
                        q + 1 <= d <= r <= n,
                        entries_spec(ls, (q + 1) as int, r as int) is Some,
                        entries_spec(ls, (q + 1) as int, d as int) is Some,
                        entries@ == entries_spec(ls, (q + 1) as int, d as int).unwrap(),
                    decreases r - d,
                {
                    proof {
                        lemma_entries_prefix(ls, (q + 1) as int, (d + 1) as int, r as int);
                    }
                    let line = crate::text::chars_of(lines[d].as_str());
                    let toks = crate::text::split_ws(line.as_slice());
                    assert(toks.deep_view() == crate::text::tokens_of(ls[d as int]));
                    if toks.len() != 3 {
                        proof {
                            assert(entry_spec(ls[d as int]) is None);
                            assert(false);
                        }
                    }
                    let dest = crate::text::parse_u64(toks[0].as_slice());
                    let src = crate::text::parse_u64(toks[1].as_slice());
                    let len = crate::text::parse_u64(toks[2].as_slice());
                    proof {
                        assert(toks@[0]@ == toks.deep_view()[0]);
                        assert(toks@[1]@ == toks.deep_view()[1]);
                        assert(toks@[2]@ == toks.deep_view()[2]);
                        lemma_parse_u64_tokens(crate::text::tokens_of(ls[d as int]));
                    }
                    match (dest, src, len) {
                        (Option::Some(dv), Option::Some(sv), Option::Some(lv)) => {
                            let e = RemapEntry { source: sv, destination: dv, length: lv };
                            entries.push(e);
                            proof {
                                let toks_s = crate::text::tokens_of(ls[d as int]);
                                let vs = parse_u64_tokens(toks_s).unwrap();
                                assert(vs[0] == dv && vs[1] == sv && vs[2] == lv);
                                assert(entry_spec(ls[d as int]) == Some(e));
                                assert(entries_spec(ls, (q + 1) as int, (d + 1) as int)
                                    == Some(
                                    entries_spec(ls, (q + 1) as int, d as int).unwrap().push(e),
                                ));
                            }
                        },
                        _ => {
                            proof {
                                let toks_s = crate::text::tokens_of(ls[d as int]);
                                assert(parse_u64_tokens(toks_s) is None);
                                assert(entry_spec(ls[d as int]) is None);
                                assert(false);
                            }
                        },
                    }
                    d = d + 1;
                }
                let ghost old_tv = tables_view(tables@);
                tables.push(RemapTable { entries });
                proof {
                    let t = entries_spec(ls, (q + 1) as int, r as int).unwrap();
                    assert(entries@ == t);
                    assert(tables@[tables@.len() - 1].entries@ == t);
                    assert(tables_view(tables@) =~~= old_tv.push(t));
                    assert(tables_spec(ls, r as int) is Some) by {
                        if tables_spec(ls, r as int) is None {
                            assert(tables_spec(ls, p as int) is None);
                        }
                    }
                    assert(tables_spec(ls, p as int).unwrap() =~~= seq![t] + tables_spec(
                        ls,
                        r as int,
                    ).unwrap());
                    assert(tables_view(tables@) + tables_spec(ls, r as int).unwrap()
                        =~~= old_tv + tables_spec(ls, p as int).unwrap());
                    assert(tables_view(tables@) + tables_spec(ls, r as int).unwrap()
                        == tables_spec(ls, 1).unwrap());
                }
                p = r;
            }
        }
        proof {
            let full = tables_spec(ls, 1).unwrap();
            if done {
                assert(tables_view(tables@) == full);
            } else {
                assert(tables_spec(ls, p as int) is Some);
                assert(tables_view(tables@) + tables_spec(ls, p as int).unwrap() == full);
            }
        }
    }
    proof {
        assert(tables_view(tables@) == tables_spec(ls, 1).unwrap());
        assert(seeds@ == input_spec(ls).unwrap().0) by {
            assert(ls[0] == lines@[0]@);
        }
    }
    (seeds, tables)
}

/// Thread one value through every table in order.
fn chain_value(tables: &Vec<RemapTable>, x: u64) -> (r: u64)
    requires
        tables_wf(tables_view(tables@)),
    ensures
        r == chain_map(tables_view(tables@), x as int),
{
    let ghost ts = tables_view(tables@);
    let n = tables.len();
    let mut acc = x;
    proof {
        assert(ts.skip(0) =~= ts);
    }
    let mut i: usize = 0;
    while i < n
        invariant
            n == ts.len(),
            ts == tables_view(tables@),
            tables_wf(ts),
            0 <= i <= n,
            chain_map(ts, x as int) == chain_map(ts.skip(i as int), acc as int),
        decreases n - i,
    {
        proof {
            assert(forall|j: int|
                0 <= j < tables@[i as int].entries@.len() ==> (
                #[trigger] tables@[i as int].entries@[j]) == ts[i as int][j]);
            assert(tables@[i as int].entries_wf());
            assert(ts.skip(i as int)[0] == ts[i as int]);
            assert(ts.skip(i as int).drop_first() =~= ts.skip((i + 1) as int));
        }
        acc = tables[i].get_destination(acc);
        proof {
            assert(tables@[i as int].entries@ =~= ts[i as int]);
        }
        i = i + 1;
    }
    proof {
        assert(ts.skip(n as int) =~= Seq::<Seq<RemapEntry>>::empty());
    }
    acc
}

/// The least location that any seed reaches after passing through
/// every table in order.
pub fn part1(lines: &[String]) -> (r: u64)
    requires
        input_spec(lines_view(lines@)) is Some,
        input_spec(lines_view(lines@)).unwrap().0.len() >= 1,
        tables_wf(input_spec(lines_view(lines@)).unwrap().1),
    ensures
        r == min_chain(
            input_spec(lines_view(lines@)).unwrap().0,
            input_spec(lines_view(lines@)).unwrap().1,
        ),
{
    let ghost ls = lines_view(lines@);
    let ghost spec_seeds = input_spec(ls).unwrap().0;
    let ghost ts = input_spec(ls).unwrap().1;
    let (seeds, tables) = parse_input(lines);
    proof {
        assert(tables_view(tables@) == ts);
        assert(seeds@ == spec_seeds);
    }
    let n = seeds.len();
    let mut m = chain_value(&tables, seeds[0]);
    let mut i: usize = 1;
    proof {
        assert(spec_seeds.take(1).len() == 1);
        assert(spec_seeds.take(1)[0] == spec_seeds[0]);
    }
    while i < n
        invariant
            n == spec_seeds.len(),
            seeds@ == spec_seeds,
            tables_view(tables@) == ts,
            tables_wf(ts),
            1 <= i <= n,
            m == min_chain(spec_seeds.take(i as int), ts),
        decreases n - i,
    {
        let v = chain_value(&tables, seeds[i]);
        proof {
            assert(spec_seeds.take((i + 1) as int).drop_last() =~= spec_seeds.take(i as int));
            assert(spec_seeds.take((i + 1) as int).last() == spec_seeds[i as int]);
            assert(spec_seeds.take((i + 1) as int).len() == i + 1 >= 2);
        }
        if v < m {
            m = v;
        }
        i = i + 1;
    }
    proof {
        assert(spec_seeds.take(n as int) =~= spec_seeds);
    }
    m
}

/// Does `x` lie in one of the seed intervals that the seed list
/// describes pairwise, as start and length?
pub open spec fn in_seed_intervals(seeds: Seq<u64>, x: int) -> bool {
    exists|i: int|
        0 <= i && 2 * i + 1 < seeds.len() && (#[trigger] seeds[2 * i]) <= x < seeds[2 * i]
            + seeds[2 * i + 1]
}

/// The seed pairs read as intervals stay inside the `u64` domain and
/// are never empty.
pub open spec fn seed_pairs_wf(seeds: Seq<u64>) -> bool {
    forall|i: int|
        0 <= i && 2 * i + 1 < seeds.len() ==> (#[trigger] seeds[2 * i]) + seeds[2 * i + 1]
            <= u64::MAX && seeds[2 * i + 1] > 0
}

/// The least start among the intervals that remain after threading the
/// seed intervals through every table: a lower bound for the final
/// position of every value of every seed interval.
pub fn part2(lines: &[String]) -> (r: u64)
    requires
        input_spec(lines_view(lines@)) is Some,
        input_spec(lines_view(lines@)).unwrap().0.len() >= 2,
        input_spec(lines_view(lines@)).unwrap().0.len() % 2 == 0,
        seed_pairs_wf(input_spec(lines_view(lines@)).unwrap().0),
        tables_wf(input_spec(lines_view(lines@)).unwrap().1),
        tables_disjoint(input_spec(lines_view(lines@)).unwrap().1),
    ensures
        forall|x: int|
            in_seed_intervals(input_spec(lines_view(lines@)).unwrap().0, x) ==> r <= chain_map(
                input_spec(lines_view(lines@)).unwrap().1,
                x,
            ),
        exists|x: int|
            in_seed_intervals(input_spec(lines_view(lines@)).unwrap().0, x) && r == chain_map(
                input_spec(lines_view(lines@)).unwrap().1,
                x,
            ),
{
    let ghost ls = lines_view(lines@);
    let ghost spec_seeds = input_spec(ls).unwrap().0;
    let ghost ts = input_spec(ls).unwrap().1;
    let (seeds, tables) = parse_input(lines);
    proof {
        assert(tables_view(tables@) == ts);
        assert(seeds@ == spec_seeds);
    }
    let n = seeds.len();
    let mut ranges: Vec<Interval> = Vec::new();
    let mut i: usize = 0;
    while i + 1 < n
        invariant
            n == spec_seeds.len(),
            seeds@ == spec_seeds,
            seed_pairs_wf(spec_seeds),
            i % 2 == 0,
            0 <= i <= n,
            ranges@.len() * 2 == i,
            forall|k: int|
                0 <= k < ranges@.len() ==> (#[trigger] ranges@[k]).start == spec_seeds[2 * k]
                    && ranges@[k].length == spec_seeds[2 * k + 1] && ranges@[k].wf()
                    && ranges@[k].length > 0,
        decreases n - i,
    {
        let iv = Interval { start: seeds[i], length: seeds[i + 1] };
        proof {
            let k = (i as int) / 2;
            assert(2 * k == i as int);
            assert(spec_seeds[2 * k] + spec_seeds[2 * k + 1] <= u64::MAX && spec_seeds[2 * k + 1]
                > 0);
        }
        ranges.push(iv);
        i = i + 2;
    }
    proof {
        assert(ranges@.len() * 2 == n);
        assert forall|x: int| in_seed_intervals(spec_seeds, x) implies #[trigger] in_some(
            ranges@,
            x,
        ) by {
            let k = choose|k: int|
                0 <= k && 2 * k + 1 < spec_seeds.len() && (#[trigger] spec_seeds[2 * k]) <= x
                    < spec_seeds[2 * k] + spec_seeds[2 * k + 1];
            assert(ranges@[k].spec_contains(x));
        }
        assert(ts.take(0) =~= Seq::<Seq<RemapEntry>>::empty());
        assert forall|y: int| #[trigger] in_some(ranges@, y) implies exists|x: int|
            in_seed_intervals(spec_seeds, x) && y == chain_map(ts.take(0), x) by {
            let k = choose|k: int|
                0 <= k < ranges@.len() && (#[trigger] ranges@[k]).spec_contains(y);
            assert(spec_seeds[2 * k] <= y < spec_seeds[2 * k] + spec_seeds[2 * k + 1]);
            assert(in_seed_intervals(spec_seeds, y));
            assert(chain_map(ts.take(0), y) == y);
        }
    }
    let tn = tables.len();
    let mut ti: usize = 0;
    while ti < tn
        invariant
            tn == ts.len(),
            tables_view(tables@) == ts,
            tables_wf(ts),
            tables_disjoint(ts),
            0 <= ti <= tn,
            forall|k: int|
                0 <= k < ranges@.len() ==> (#[trigger] ranges@[k]).wf() && ranges@[k].length > 0,
            forall|x: int|
                in_seed_intervals(spec_seeds, x) ==> #[trigger] in_some(
                    ranges@,
                    chain_map(ts.take(ti as int), x),
                ),
            forall|y: int|
                #[trigger] in_some(ranges@, y) ==> exists|x: int|
                    in_seed_intervals(spec_seeds, x) && y == chain_map(ts.take(ti as int), x),
        decreases tn - ti,
    {
        let ghost old_set = ranges@;
        let mut new_ranges: Vec<Interval> = Vec::new();
        let rn = ranges.len();
        let mut k: usize = 0;
        proof {
            assert(forall|j: int|
                0 <= j < tables@[ti as int].entries@.len() ==> (
                #[trigger] tables@[ti as int].entries@[j]) == ts[ti as int][j]);
            assert(tables@[ti as int].entries@ =~= ts[ti as int]);
            assert(tables@[ti as int].wf());
        }
        while k < rn
            invariant
                rn == old_set.len(),
                ranges@ == old_set,
                tables_view(tables@) == ts,
                ti < ts.len(),
                tables@[ti as int].entries@ == ts[ti as int],
                tables@[ti as int].wf(),
                0 <= k <= rn,
                forall|j: int|
                    0 <= j < old_set.len() ==> (#[trigger] old_set[j]).wf() && old_set[j].length
                        > 0,
                forall|j: int|
                    0 <= j < new_ranges@.len() ==> (#[trigger] new_ranges@[j]).wf()
                        && new_ranges@[j].length > 0,
                forall|p: int|
                    (exists|j: int|
                        0 <= j < k && (#[trigger] old_set[j]).spec_contains(p)) ==> #[trigger] in_some(
                        new_ranges@,
                        table_map(ts[ti as int], p),
                    ),
                forall|y: int|
                    #[trigger] in_some(new_ranges@, y) ==> exists|p: int|
                        in_some(old_set, p) && y == table_map(ts[ti as int], p),
                tables_disjoint(ts),
            decreases rn - k,
        {
            let iv = ranges[k];
            let mut out = tables[ti].get_destination_ranges(&iv);
            let ghost out_view = out@;
            let ghost before = new_ranges@;
            new_ranges.append(&mut out);
            proof {
                assert(new_ranges@ =~= before + out_view);
                assert(forall|j: int| 0 <= j < before.len() ==> new_ranges@[j] == before[j]);
                assert(forall|j: int|
                    0 <= j < out_view.len() ==> new_ranges@[before.len() + j] == out_view[j]);
                assert forall|p: int|
                    (exists|j: int|
                        0 <= j < k + 1 && (#[trigger] old_set[j]).spec_contains(
                            p,
                        )) implies #[trigger] in_some(
                    new_ranges@,
                    table_map(ts[ti as int], p),
                ) by {
                    let j = choose|j: int|
                        0 <= j < k + 1 && (#[trigger] old_set[j]).spec_contains(p);
                    if j < k {
                        assert(in_some(before, table_map(ts[ti as int], p)));
                        let jj = choose|jj: int|
                            0 <= jj < before.len() && (#[trigger] before[jj]).spec_contains(
                                table_map(ts[ti as int], p),
                            );
                        assert(new_ranges@[jj].spec_contains(table_map(ts[ti as int], p)));
                    } else {
                        assert(iv.spec_contains(p));
                        let jj = choose|jj: int|
                            0 <= jj < out_view.len() && (#[trigger] out_view[jj]).spec_contains(
                                table_map(tables@[ti as int].entries@, p),
                            );
                        assert(new_ranges@[before.len() + jj].spec_contains(
                            table_map(ts[ti as int], p),
                        ));
                    }
                }
                let ghost es_t = ts[ti as int];
                assert(forall|a: int, b: int|
                    0 <= a < es_t.len() && 0 <= b < es_t.len() && a != b ==> es_t[a].disjoint_src(
                        es_t[b],
                    ));
                assert forall|y: int| #[trigger] in_some(new_ranges@, y) implies exists|p: int|
                    in_some(old_set, p) && y == table_map(es_t, p) by {
                    let jj = choose|jj: int|
                        0 <= jj < new_ranges@.len() && (#[trigger] new_ranges@[jj]).spec_contains(
                            y,
                        );
                    if jj < before.len() {
                        assert(before[jj].spec_contains(y));
                        assert(in_some(before, y));
                    } else {
                        let oj = jj - before.len();
                        assert(out_view[oj].spec_contains(y));
                        if exists|m: int|
                            0 <= m < es_t.len() && is_entry_chunk(es_t[m], iv, out_view[oj]) {
                            let m = choose|m: int|
                                0 <= m < es_t.len() && is_entry_chunk(
                                    es_t[m],
                                    iv,
                                    out_view[oj],
                                );
                            let z = y - es_t[m].destination + es_t[m].source;
                            assert(es_t[m].overlap_lo(iv) <= z < es_t[m].overlap_hi(iv));
                            assert(es_t[m].contains_src(z));
                            assert(iv.spec_contains(z));
                            lemma_table_map_at(es_t, z, m);
                            assert(y == table_map(es_t, z));
                            assert(old_set[k as int].spec_contains(z));
                            assert(in_some(old_set, z));
                        } else {
                            assert(is_free_chunk(es_t, iv, out_view[oj]));
                            assert(iv.spec_contains(y) && !covered(es_t, y));
                            lemma_table_map_uncovered(es_t, y);
                            assert(old_set[k as int].spec_contains(y));
                            assert(in_some(old_set, y));
                        }
                    }
                }
            }
            k = k + 1;
        }
        ranges = new_ranges;
        proof {
            assert forall|x: int| in_seed_intervals(spec_seeds, x) implies #[trigger] in_some(
                ranges@,
                chain_map(ts.take((ti + 1) as int), x),
            ) by {
                let p = chain_map(ts.take(ti as int), x);
                assert(in_some(old_set, p));
                let j = choose|j: int|
                    0 <= j < old_set.len() && (#[trigger] old_set[j]).spec_contains(p);
                assert(in_some(ranges@, table_map(ts[ti as int], p)));
                lemma_chain_take_snoc(ts, ti as int, x);
            }
            assert forall|y: int| #[trigger] in_some(ranges@, y) implies exists|x: int|
                in_seed_intervals(spec_seeds, x) && y == chain_map(ts.take((ti + 1) as int), x) by {
                let p = choose|p: int| in_some(old_set, p) && y == table_map(ts[ti as int], p);
                assert(in_some(old_set, p));
                let x = choose|x: int|
                    in_seed_intervals(spec_seeds, x) && p == chain_map(ts.take(ti as int), x);
                lemma_chain_take_snoc(ts, ti as int, x);
                assert(y == chain_map(ts.take((ti + 1) as int), x));
            }
        }
        ti = ti + 1;
    }
    proof {
        assert(ts.take(tn as int) =~= ts);
        assert(ranges@.len() >= 1) by {
            let k0: int = 0;
            assert(spec_seeds[2 * k0] + spec_seeds[2 * k0 + 1] <= u64::MAX && spec_seeds[2 * k0
                + 1] > 0);
            let x0 = spec_seeds[0] as int;
            assert(2 * k0 + 1 < spec_seeds.len());
            assert(spec_seeds[2 * k0] <= x0);
            assert(x0 < spec_seeds[2 * k0] + spec_seeds[2 * k0 + 1]);
            assert(in_seed_intervals(spec_seeds, x0));
            assert(in_some(ranges@, chain_map(ts.take(tn as int), spec_seeds[0] as int)));
        }
    }
    let rn2 = ranges.len();
    let mut m = ranges[0].start;
    let mut j: usize = 1;
    while j < rn2
        invariant
            rn2 == ranges@.len(),
            1 <= j <= rn2,
            forall|t: int| 0 <= t < j ==> m <= (#[trigger] ranges@[t]).start,
            exists|t: int| 0 <= t < rn2 && (#[trigger] ranges@[t]).start == m,
        decreases rn2 - j,
    {
        let s = ranges[j].start;
        if s < m {
            m = s;
        }
        j = j + 1;
    }
    proof {
        assert forall|x: int| in_seed_intervals(spec_seeds, x) implies m <= chain_map(ts, x) by {
            assert(in_some(ranges@, chain_map(ts.take(tn as int), x)));
            let t = choose|t: int|
                0 <= t < ranges@.len() && (#[trigger] ranges@[t]).spec_contains(
                    chain_map(ts.take(tn as int), x),
                );
            assert(m <= ranges@[t].start);
        }
        let t0 = choose|t: int| 0 <= t < rn2 && (#[trigger] ranges@[t]).start == m;
        assert(ranges@[t0].length > 0);
        assert(ranges@[t0].spec_contains(m as int));
        assert(in_some(ranges@, m as int));
        let xw = choose|x: int|
            in_seed_intervals(spec_seeds, x) && m as int == chain_map(ts.take(tn as int), x);
        assert(in_seed_intervals(spec_seeds, xw) && m as int == chain_map(ts, xw));
    }
    m
}

/// Chaining through one more table applies that table to the chained
/// value so far.
pub proof fn lemma_chain_take_snoc(ts: Seq<Seq<RemapEntry>>, k: int, x: int)
    requires
        0 <= k < ts.len(),
    ensures
        chain_map(ts.take(k + 1), x) == table_map(ts[k], chain_map(ts.take(k), x)),
    decreases k,
{
    if k == 0 {
        assert(ts.take(1).drop_first() =~= Seq::<Seq<RemapEntry>>::empty());
        assert(ts.take(0) =~= Seq::<Seq<RemapEntry>>::empty());
        assert(ts.take(1)[0] == ts[0]);
        assert(chain_map(Seq::<Seq<RemapEntry>>::empty(), table_map(ts[0], x)) == table_map(
            ts[0],
            x,
        ));
        assert(chain_map(ts.take(1), x) == table_map(ts[0], x));
    } else {
        let y = table_map(ts[0], x);
        assert(ts.take(k + 1).drop_first() =~= ts.drop_first().take(k));
        assert(ts.take(k).drop_first() =~= ts.drop_first().take(k - 1));
        assert(ts.take(k + 1)[0] == ts[0]);
        assert(ts.take(k)[0] == ts[0]);
        lemma_chain_take_snoc(ts.drop_first(), k - 1, y);
        assert(ts.drop_first()[k - 1] == ts[k]);
    }
}

/// Numbers only appear at the end of a token list that parses whole.
proof fn lemma_parse_u64_tokens(toks: Seq<Seq<char>>)
    ensures
        parse_u64_tokens(toks) is Some ==> parse_u64_tokens(toks).unwrap().len() == toks.len()
            && forall|i: int|
            0 <= i < toks.len() ==> crate::text::is_digits(#[trigger] toks[i])
                && crate::text::nat_of(toks[i]) <= u64::MAX && parse_u64_tokens(
                toks,
            ).unwrap()[i] == crate::text::nat_of(toks[i]),
        parse_u64_tokens(toks) is None ==> exists|i: int|
            0 <= i < toks.len() && !(crate::text::is_digits(#[trigger] toks[i])
                && crate::text::nat_of(toks[i]) <= u64::MAX),
    decreases toks.len(),
{
    if toks.len() > 0 {
        lemma_parse_u64_tokens(toks.drop_last());
        assert(forall|i: int| 0 <= i < toks.len() - 1 ==> toks.drop_last()[i] == toks[i]);
        if parse_u64_tokens(toks) is Some {
            assert(parse_u64_tokens(toks.drop_last()) is Some);
            assert(crate::text::is_digits(toks.last()) && crate::text::nat_of(toks.last())
                <= u64::MAX);
            crate::text::lemma_nat_of_nonneg(toks.last());
            let vs = parse_u64_tokens(toks.drop_last()).unwrap();
            assert(parse_u64_tokens(toks).unwrap() == vs.push(
                crate::text::nat_of(toks.last()) as u64,
            ));
            assert forall|i: int| 0 <= i < toks.len() implies crate::text::is_digits(
                #[trigger] toks[i],
            ) && crate::text::nat_of(toks[i]) <= u64::MAX && parse_u64_tokens(toks).unwrap()[i]
                == crate::text::nat_of(toks[i]) by {
                if i < toks.len() - 1 {
                    assert(toks.drop_last()[i] == toks[i]);
                    assert(parse_u64_tokens(toks).unwrap()[i] == vs[i]);
                } else {
                    assert(toks[i] == toks.last());
                }
            }
        }
        if parse_u64_tokens(toks) is None && parse_u64_tokens(toks.drop_last()) is Some {
            assert(!(crate::text::is_digits(toks[toks.len() - 1]) && crate::text::nat_of(
                toks[toks.len() - 1],
            ) <= u64::MAX));
        }
    }
}

/// A parsed stretch of data lines parses in every prefix.
proof fn lemma_entries_prefix(ls: Seq<Seq<char>>, lo: int, mid: int, hi: int)
    requires
        lo <= mid <= hi,
        entries_spec(ls, lo, hi) is Some,
    ensures
        entries_spec(ls, lo, mid) is Some,
        forall|d: int|
            mid <= d < hi ==> entry_spec(ls[d]) is Some,
    decreases hi - mid,
{
    if mid < hi {
        assert(entries_spec(ls, lo, hi - 1) is Some) by {
            if entries_spec(ls, lo, hi - 1) is None {
                assert(entries_spec(ls, lo, hi) is None);
            }
        }
        assert(entry_spec(ls[hi - 1]) is Some) by {
            if entry_spec(ls[hi - 1]) is None {
                assert(entries_spec(ls, lo, hi) is None);
            }
        }
        lemma_entries_prefix(ls, lo, mid, hi - 1);
    }
}

/// Read a whitespace-separated list of numbers.
pub(crate) fn parse_number_list(piece: &Vec<char>) -> (r: Vec<u64>)
    requires
        parse_u64_tokens(crate::text::tokens_of(piece@)) is Some,
    ensures
        r@ == parse_u64_tokens(crate::text::tokens_of(piece@)).unwrap(),
{
    let ghost toks_s = crate::text::tokens_of(piece@);
    let toks = crate::text::split_ws(piece.as_slice());
    assert(toks.deep_view() == toks_s);
    proof {
        lemma_parse_u64_tokens(toks_s);
    }
    let mut r: Vec<u64> = Vec::new();
    let mut i: usize = 0;
    let n = toks.len();
    while i < n
        invariant
            n == toks_s.len(),
            toks.deep_view() == toks_s,
            toks@.len() == n,
            parse_u64_tokens(toks_s) is Some,
            parse_u64_tokens(toks_s).unwrap().len() == n,
            forall|k: int|
                0 <= k < n ==> crate::text::is_digits(#[trigger] toks_s[k]) && crate::text::nat_of(
                    toks_s[k],
                ) <= u64::MAX && parse_u64_tokens(toks_s).unwrap()[k] == crate::text::nat_of(
                    toks_s[k],
                ),
            0 <= i <= n,
            r@ == parse_u64_tokens(toks_s).unwrap().take(i as int),
        decreases n - i,
    {
        proof {
            assert(toks@[i as int]@ == toks_s[i as int]);
        }
        match crate::text::parse_u64(toks[i].as_slice()) {
            Option::Some(v) => {
                r.push(v);
                proof {
                    assert(r@ =~= parse_u64_tokens(toks_s).unwrap().take((i + 1) as int));
                }
            },
            Option::None => {
                proof {
                    assert(false);
                }
            },
        }
        i = i + 1;
    }
    proof {
        assert(r@ =~= parse_u64_tokens(toks_s).unwrap());
    }
    r
}

} // verus!
