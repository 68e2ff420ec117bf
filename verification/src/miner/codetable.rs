pub mod pattern;

use vstd::prelude::*;
use vstd::pervasive::VecAdditionalExecFns;
use vstd::pervasive::unreached;

use crate::database::Database;
use crate::database::sum_bits;
use crate::database::lemma_sum_bits_prefix;
use crate::database::lemma_record_le_sum;
use pattern::Pattern;
use pattern::pat_le;
use pattern::is_zero_singleton;
use pattern::is_one_singleton;
use pattern::lemma_pat_le_total;
use pattern::lemma_pat_le_trans;
use pattern::lemma_key_eq_same_view;

verus! {

/// The bit at position `i` of a byte record, most significant bit of each
/// byte first.
pub open spec fn data_bit(r: Seq<u8>, i: int) -> bool
    recommends
        0 <= i < 8 * r.len(),
{
    r[i / 8] & (0x80u8 >> ((i % 8) as u8)) != 0
}

/// Reading a data bit through a mask equals shifting the byte down: bit `k`
/// of a byte (most significant first) is `(byte >> (7 - k)) & 1`.
pub proof fn lemma_data_bit_shift_form(b: u8, k: u8)
    by (bit_vector)
    requires
        k < 8,
    ensures
        (b & (0x80u8 >> k) != 0) == ((b >> ((7 - k) as u8)) & 1 == 1),
{
}

/// Whether one pattern position agrees with the data bit at `i`: a concrete
/// position must equal the data bit, a wildcard always agrees.
pub open spec fn position_matches(pos: Option<bool>, r: Seq<u8>, i: int) -> bool {
    match pos {
        Some(v) => v == data_bit(r, i),
        None => true,
    }
}

/// Whether pattern `p` is selectable at bit offset `off` of record `r`: it
/// is non-empty, it fits in the remaining bits, and every concrete position
/// agrees with the data.
pub open spec fn matches_at(p: Pattern, r: Seq<u8>, off: int) -> bool {
    &&& 1 <= p@.len()
    &&& off + p@.len() <= 8 * r.len()
    &&& forall|b: int| 0 <= b < p@.len() ==> position_matches(#[trigger] p@[b], r, off + b)
}

/// Whether `j` is the first index in table order whose pattern is
/// selectable at offset `off`.
pub open spec fn is_first_match(t: Seq<Pattern>, r: Seq<u8>, off: int, j: int) -> bool {
    &&& 0 <= j < t.len()
    &&& matches_at(t[j], r, off)
    &&& forall|k: int| 0 <= k < j ==> !matches_at(#[trigger] t[k], r, off)
}

/// Whether some pattern of the table is selectable at offset `off`.
pub open spec fn has_match(t: Seq<Pattern>, r: Seq<u8>, off: int) -> bool {
    exists|j: int| is_first_match(t, r, off, j)
}

/// The index of the first selectable pattern at offset `off`.
pub open spec fn first_match(t: Seq<Pattern>, r: Seq<u8>, off: int) -> int {
    choose|j: int| is_first_match(t, r, off, j)
}

/// A usage vector of `n` zero counts.
pub open spec fn zero_usage(n: nat) -> Seq<nat> {
    Seq::new(n, |i: int| 0nat)
}

/// Pointwise sum of two usage vectors.
pub open spec fn add_usage(a: Seq<nat>, b: Seq<nat>) -> Seq<nat>
    recommends
        a.len() == b.len(),
{
    Seq::new(a.len(), |i: int| (a[i] + b[i]) as nat)
}

/// The usage counts produced by covering record `r` from bit offset `off`
/// to its end: at each offset the first selectable pattern in table order
/// is chosen and the offset advances by that pattern's length.
pub open spec fn rec_usage(t: Seq<Pattern>, r: Seq<u8>, off: int) -> Seq<nat>
    decreases 8 * r.len() - off,
{
    if off < 0 || 8 * r.len() <= off || !has_match(t, r, off) {
        zero_usage(t.len())
    } else {
        let j = first_match(t, r, off);
        let rest = rec_usage(t, r, off + t[j]@.len());
        rest.update(j, (rest[j] + 1) as nat)
    }
}

/// The usage counts produced by covering every record of the database
/// independently and summing the per-record counts.
pub open spec fn db_usage(t: Seq<Pattern>, recs: Seq<Seq<u8>>) -> Seq<nat>
    decreases recs.len(),
{
    if recs.len() == 0 {
        zero_usage(t.len())
    } else {
        add_usage(db_usage(t, recs.drop_last()), rec_usage(t, recs.last(), 0))
    }
}

/// Usage counts weighted by the corresponding pattern lengths: the number
/// of data bits the counted selections consume.
pub open spec fn weighted_len(u: Seq<nat>, t: Seq<Pattern>) -> nat
    recommends
        u.len() == t.len(),
    decreases u.len(),
{
    if u.len() == 0 || u.len() != t.len() {
        0
    } else {
        weighted_len(u.drop_last(), t.drop_last()) + u.last() * t.last()@.len()
    }
}

/// The sum of all usage counts.
pub open spec fn sum_usage(u: Seq<nat>) -> nat
    decreases u.len(),
{
    if u.len() == 0 {
        0
    } else {
        sum_usage(u.drop_last()) + u.last()
    }
}

/// A usage vector of machine words, as mathematical counts.
pub open spec fn nats_of(u: Seq<usize>) -> Seq<nat> {
    Seq::new(u.len(), |i: int| u[i] as nat)
}

/// Every pattern of the table is well formed and non-empty.
pub open spec fn patterns_wf(t: Seq<Pattern>) -> bool {
    forall|i: int| 0 <= i < t.len() ==> (#[trigger] t[i]).wf() && t[i]@.len() >= 1
}

/// The table holds a singleton matching a clear bit and one matching a set
/// bit, so every record can be fully covered.
pub open spec fn has_singletons(t: Seq<Pattern>) -> bool {
    &&& exists|i: int| 0 <= i < t.len() && is_zero_singleton(#[trigger] t[i])
    &&& exists|i: int| 0 <= i < t.len() && is_one_singleton(#[trigger] t[i])
}

/// The table is sorted by the fixed total order: length descending, ties
/// broken lexicographically on the packed byte encoding.
pub open spec fn sorted_table(t: Seq<Pattern>) -> bool {
    forall|i: int, j: int| 0 <= i < j < t.len() ==> pat_le(#[trigger] t[i], #[trigger] t[j])
}

/// A valid code table body.
pub open spec fn table_wf(t: Seq<Pattern>) -> bool {
    &&& patterns_wf(t)
    &&& has_singletons(t)
    &&& sorted_table(t)
}

/// An ordered dictionary of patterns over a fixed database, with a cache of
/// per-pattern usage counts from the last covering pass. The cache is valid
/// only while the `covered` flag is set; every table mutation clears it.
pub struct CodeTable {
    data: Database,
    table: Vec<Pattern>,
    usage: Vec<usize>,
    covered: bool,
}

impl CodeTable {
    /// The patterns of the table, in their fixed order.
    pub closed spec fn patterns(&self) -> Seq<Pattern> {
        self.table@
    }

    /// The records of the owned database.
    pub closed spec fn records(&self) -> Seq<Seq<u8>> {
        self.data.records()
    }

    /// The cached usage counts, one per table entry.
    pub closed spec fn usage_counts(&self) -> Seq<nat> {
        nats_of(self.usage@)
    }

    /// Whether the cached usage counts reflect the current table and data.
    pub closed spec fn covered_flag(&self) -> bool {
        self.covered
    }

    /// Table and database are valid, the usage cache is aligned with the
    /// table, and a set `covered` flag means the cache equals the counts of
    /// a full covering pass.
    pub closed spec fn wf(&self) -> bool {
        &&& self.data.wf()
        &&& table_wf(self.table@)
        &&& self.usage@.len() == self.table@.len()
        &&& self.covered ==> nats_of(self.usage@) == db_usage(self.table@, self.data.records())
    }

    /// Creates a table over a database, holding exactly the two mandatory
    /// singleton fallback patterns and an invalid (empty) usage cache.
    pub fn new(data: Database) -> (ct: CodeTable)
        requires
            data.wf(),
        ensures
            ct.wf(),
            ct.patterns().len() == 2,
            is_zero_singleton(ct.patterns()[0]),
            is_one_singleton(ct.patterns()[1]),
            ct.records() == data.records(),
            !ct.covered_flag(),
    {
        let table = vec![Pattern::zero(), Pattern::one()];
        let usage = vec![0usize, 0usize];
        proof {
            assert(pattern::lex_le_from(seq![0x40u8], seq![0xC0u8], 0));
            assert(sorted_table(table@));
        }
        CodeTable { data, table, usage, covered: false }
    }

    /// The number of patterns in the table.
    pub fn num_patterns(&self) -> (n: usize)
        ensures
            n == self.patterns().len(),
    {
        self.table.len()
    }

    /// A borrow of the pattern at `index` in table order.
    pub fn pattern_at(&self, index: usize) -> (p: &Pattern)
        requires
            index < self.patterns().len(),
        ensures
            *p == self.patterns()[index as int],
    {
        &self.table[index]
    }

    /// The cached usage count of the pattern at `index` in the table.
    pub fn usage_of(&self, index: usize) -> (c: usize)
        requires
            self.wf(),
            index < self.patterns().len(),
        ensures
            c as nat == self.usage_counts()[index as int],
    {
        self.usage[index]
    }

    /// The sum of the record bit lengths of the owned database.
    pub fn data_total_bits(&self) -> (t: usize)
        requires
            self.wf(),
        ensures
            t == sum_bits(self.records()),
    {
        self.data.total_bits()
    }

    /// Whether the usage cache is clean (no table mutation since the last
    /// covering pass).
    pub fn is_covered(&self) -> (b: bool)
        ensures
            b == self.covered_flag(),
    {
        self.covered
    }

    /// Covers every record of the database with the current table: at each
    /// bit offset the first selectable pattern in table order is chosen and
    /// the offset advances by its length, so each record is segmented into
    /// non-overlapping matches with no leftover bits. The resulting
    /// per-pattern selection counts replace the usage cache and the cache
    /// is marked clean. A clean cache makes this a no-op, so covering twice
    /// without an intervening mutation changes nothing.
    pub fn cover(&mut self)
        requires
            old(self).wf(),
        ensures
            final(self).wf(),
            final(self).covered_flag(),
            final(self).patterns() == old(self).patterns(),
            final(self).records() == old(self).records(),
            final(self).usage_counts() == db_usage(old(self).patterns(), old(self).records()),
            old(self).covered_flag() ==> *final(self) == *old(self),
    {
        if self.covered {
            return;
        }
        let ghost t = self.table@;
        let ghost recs = self.data.records();
        let tb = self.data.total_bits();
        let tn = self.table.len();
        let mut usage: Vec<usize> = Vec::new();
        let mut z: usize = 0;
        while z < tn
            invariant
                z <= tn,
                usage@.len() == z,
                forall|k: int| 0 <= k < z ==> usage@[k] == 0usize,
            decreases tn - z,
        {
            usage.push(0);
            z += 1;
        }
        proof {
            assert(nats_of(usage@) =~= zero_usage(t.len()));
            assert(db_usage(t, recs.subrange(0, 0)) == zero_usage(t.len()));
            lemma_weighted_zero(t);
            assert(sum_bits(recs.subrange(0, 0)) == 0);
        }
        let nrec = self.data.num_records();
        let mut ri: usize = 0;
        while ri < nrec
            invariant
                *self == *old(self),
                old(self).wf(),
                !self.covered,
                t == self.table@,
                recs == self.data.records(),
                tb == sum_bits(recs),
                tn == t.len(),
                nrec == recs.len(),
                ri <= nrec,
                usage@.len() == t.len(),
                nats_of(usage@) == db_usage(t, recs.subrange(0, ri as int)),
                weighted_len(nats_of(usage@), t) == sum_bits(recs.subrange(0, ri as int)),
            decreases nrec - ri,
        {
            proof {
                lemma_record_le_sum(recs, ri as int);
                lemma_sum_bits_prefix(recs, ri + 1);
                assert(recs.subrange(0, ri + 1).drop_last() =~= recs.subrange(0, ri as int));
                assert(recs.subrange(0, ri + 1).last() == recs[ri as int]);
            }
            let rec = self.data.record(ri);
            let rbits = 8 * rec.len();
            let ghost u0 = nats_of(usage@);
            let ghost w0 = weighted_len(u0, t);
            let mut cur: usize = 0;
            while cur < rbits
                invariant
                    *self == *old(self),
                    old(self).wf(),
                    t == self.table@,
                    recs == self.data.records(),
                    ri < recs.len(),
                    rec@ == recs[ri as int],
                    rbits == 8 * rec@.len(),
                    cur <= rbits,
                    usage@.len() == t.len(),
                    w0 == weighted_len(u0, t),
                    w0 + rbits <= usize::MAX,
                    add_usage(nats_of(usage@), rec_usage(t, rec@, cur as int))
                        == add_usage(u0, rec_usage(t, rec@, 0)),
                    weighted_len(nats_of(usage@), t) == w0 + cur,
                decreases rbits - cur,
            {
                let pi = find_first_match(&self.table, rec, cur);
                let ghost prev = nats_of(usage@);
                let ghost rest = rec_usage(t, rec@, cur + self.table@[pi as int]@.len());
                proof {
                    assert(has_match(t, rec@, cur as int));
                    let jj = first_match(t, rec@, cur as int);
                    assert(is_first_match(t, rec@, cur as int, jj));
                    lemma_first_unique(t, rec@, cur as int, jj, pi as int);
                    lemma_rec_usage_len(t, rec@, cur + t[pi as int]@.len());
                    assert(rec_usage(t, rec@, cur as int)
                        == rest.update(pi as int, (rest[pi as int] + 1) as nat));
                    lemma_count_le_weighted(prev, t, pi as int);
                }
                let plen = self.table[pi].len();
                let cnt = usage[pi];
                usage.set(pi, cnt + 1);
                proof {
                    assert(nats_of(usage@) =~= prev.update(pi as int, (cnt + 1) as nat));
                    lemma_weighted_update(prev, t, pi as int);
                    lemma_rec_usage_len(t, rec@, cur as int);
                    assert(add_usage(nats_of(usage@), rest)
                        =~= add_usage(prev, rec_usage(t, rec@, cur as int)));
                }
                cur = cur + plen;
            }
            proof {
                assert(rec_usage(t, rec@, cur as int) == zero_usage(t.len()));
                lemma_add_zero_right(nats_of(usage@));
                lemma_add_zero_right(u0);
                lemma_rec_usage_len(t, rec@, 0);
                assert(nats_of(usage@) == add_usage(u0, rec_usage(t, recs[ri as int], 0)));
                assert(db_usage(t, recs.subrange(0, ri + 1))
                    == add_usage(db_usage(t, recs.subrange(0, ri as int)),
                        rec_usage(t, recs[ri as int], 0)));
            }
            ri += 1;
        }
        proof {
            assert(recs.subrange(0, ri as int) =~= recs);
        }
        self.usage = usage;
        self.covered = true;
    }

    /// Inserts a pattern at its place in the fixed table order (after any
    /// equal entries) and marks the usage cache stale, so the next covering
    /// pass recomputes every count from scratch.
    pub fn insert_pattern(&mut self, p: Pattern)
        requires
            old(self).wf(),
            p.wf(),
            p@.len() >= 1,
        ensures
            final(self).wf(),
            !final(self).covered_flag(),
            final(self).records() == old(self).records(),
            final(self).patterns()
                == old(self).patterns().insert(insertion_index(old(self).patterns(), p), p),
    {
        let ghost t = self.table@;
        let n = self.table.len();
        let mut idx: usize = 0;
        while idx < n && self.table[idx].order_le(&p)
            invariant
                *self == *old(self),
                t == self.table@,
                n == t.len(),
                idx <= n,
                insertion_index(t, p) == insertion_index_from(t, p, idx as int),
            decreases n - idx,
        {
            idx += 1;
        }
        proof {
            assert(idx as int == insertion_index(t, p));
            lemma_insertion_index_from(t, p, 0);
        }
        self.table.insert(idx, p);
        self.usage.insert(idx, 0);
        self.covered = false;
        proof {
            let s = self.table@;
            assert(s == t.insert(idx as int, p));
            assert(forall|k: int| 0 <= k < idx ==> s[k] == #[trigger] t[k]);
            assert(s[idx as int] == p);
            assert(forall|k: int| idx <= k < t.len() ==> s[k + 1] == #[trigger] t[k]);
            assert(sorted_table(s)) by {
                assert forall|i: int, j: int| 0 <= i < j < s.len() implies pat_le(s[i], s[j]) by {
                    if idx < t.len() {
                        lemma_pat_le_total(t[idx as int], p);
                    }
                    if i == idx && idx < j {
                        if j - 1 > idx {
                            lemma_pat_le_trans(p, t[idx as int], t[j - 1]);
                        }
                    }
                }
            }
            assert(exists|i: int| 0 <= i < s.len() && is_zero_singleton(#[trigger] s[i])) by {
                let zi = choose|i: int| 0 <= i < t.len() && is_zero_singleton(#[trigger] t[i]);
                if zi < idx {
                    assert(is_zero_singleton(s[zi]));
                } else {
                    assert(is_zero_singleton(s[zi + 1]));
                }
            }
            assert(exists|i: int| 0 <= i < s.len() && is_one_singleton(#[trigger] s[i])) by {
                let oi = choose|i: int| 0 <= i < t.len() && is_one_singleton(#[trigger] t[i]);
                if oi < idx {
                    assert(is_one_singleton(s[oi]));
                } else {
                    assert(is_one_singleton(s[oi + 1]));
                }
            }
            assert(patterns_wf(s)) by {
                assert forall|i: int| 0 <= i < s.len() implies (#[trigger] s[i]).wf()
                    && s[i]@.len() >= 1 by {
                    if i < idx {
                        assert(s[i] == t[i]);
                    } else if i > idx {
                        assert(s[i] == t[i - 1]);
                    }
                }
            }
        }
    }

    /// Removes the first table entry structurally equal to `p`, if any, and
    /// marks the usage cache stale. The two mandatory singleton fallbacks
    /// may not be removed: they guarantee that every record stays fully
    /// coverable.
    pub fn remove_pattern(&mut self, p: &Pattern)
        requires
            old(self).wf(),
            !is_zero_singleton(*p),
            !is_one_singleton(*p),
        ensures
            final(self).wf(),
            !final(self).covered_flag(),
            final(self).records() == old(self).records(),
            find_index(old(self).patterns(), *p) < old(self).patterns().len()
                ==> final(self).patterns()
                    == old(self).patterns().remove(find_index(old(self).patterns(), *p)),
            find_index(old(self).patterns(), *p) >= old(self).patterns().len()
                ==> final(self).patterns() == old(self).patterns(),
    {
        let ghost t = self.table@;
        let n = self.table.len();
        let mut idx: usize = 0;
        while idx < n && !(self.table[idx] == *p)
            invariant
                *self == *old(self),
                t == self.table@,
                n == t.len(),
                idx <= n,
                find_index(t, *p) == find_index_from(t, *p, idx as int),
            decreases n - idx,
        {
            idx += 1;
        }
        proof {
            assert(idx as int == find_index(t, *p));
        }
        if idx < n {
            proof {
                lemma_key_eq_same_view(&self.table@[idx as int], p);
            }
            self.table.remove(idx);
            self.usage.remove(idx);
            self.covered = false;
            proof {
                let s = self.table@;
                assert(s == t.remove(idx as int));
                assert(forall|k: int| 0 <= k < idx ==> s[k] == #[trigger] t[k]);
                assert(forall|k: int| idx < k < t.len() ==> s[k - 1] == #[trigger] t[k]);
                assert(sorted_table(s)) by {
                    assert forall|i: int, j: int| 0 <= i < j < s.len() implies pat_le(s[i], s[j]) by {
                        let i0: int = if i < idx { i } else { i + 1 };
                        let j0: int = if j < idx { j } else { j + 1 };
                        assert(s[i] == t[i0] && s[j] == t[j0]);
                    }
                }
                assert(exists|i: int| 0 <= i < s.len() && is_zero_singleton(#[trigger] s[i])) by {
                    let zi = choose|i: int| 0 <= i < t.len() && is_zero_singleton(#[trigger] t[i]);
                    assert(zi != idx);
                    if zi < idx {
                        assert(is_zero_singleton(s[zi]));
                    } else {
                        assert(is_zero_singleton(s[zi - 1]));
                    }
                }
                assert(exists|i: int| 0 <= i < s.len() && is_one_singleton(#[trigger] s[i])) by {
                    let oi = choose|i: int| 0 <= i < t.len() && is_one_singleton(#[trigger] t[i]);
                    assert(oi != idx);
                    if oi < idx {
                        assert(is_one_singleton(s[oi]));
                    } else {
                        assert(is_one_singleton(s[oi - 1]));
                    }
                }
                assert(patterns_wf(s)) by {
                    assert forall|i: int| 0 <= i < s.len() implies (#[trigger] s[i]).wf()
                        && s[i]@.len() >= 1 by {
                        if i < idx {
                            assert(s[i] == t[i]);
                        } else {
                            assert(s[i] == t[i + 1]);
                        }
                    }
                }
            }
        } else {
            self.covered = false;
        }
    }

    /// The sum of all cached usage counts: how many pattern selections the
    /// last covering pass made, the denominator of the per-pattern code
    /// lengths in the encoded-database half of the score.
    pub fn total_usage(&self) -> (s: usize)
        requires
            self.wf(),
            self.covered_flag(),
        ensures
            s as nat == sum_usage(self.usage_counts()),
    {
        let ghost u = nats_of(self.usage@);
        let tb = self.data.total_bits();
        proof {
            lemma_db_cover_totality(self.table@, self.data.records());
            lemma_sum_le_weighted(u, self.table@);
        }
        let n = self.usage.len();
        let mut s: usize = 0;
        let mut i: usize = 0;
        while i < n
            invariant
                u == nats_of(self.usage@),
                n == u.len(),
                i <= n,
                sum_usage(u) <= usize::MAX,
                s as nat == sum_usage(u.subrange(0, i as int)),
            decreases n - i,
        {
            proof {
                lemma_sum_usage_prefix(u, i + 1);
                assert(u.subrange(0, i + 1).drop_last() =~= u.subrange(0, i as int));
                assert(u.subrange(0, i + 1).last() == u[i as int]);
            }
            s = s + self.usage[i];
            i += 1;
        }
        proof {
            assert(u.subrange(0, i as int) =~= u);
        }
        s
    }

    /// The number of bits needed to describe the table itself, under the
    /// documented model: each pattern costs `2 * floor(log2 length) + 1`
    /// header bits naming its length, then two literal bits (value plus
    /// wildcard mask) per position.
    pub fn table_cost_bits(&self) -> (c: u64)
        requires
            self.wf(),
            table_cost(self.patterns()) <= u64::MAX,
        ensures
            c as nat == table_cost(self.patterns()),
    {
        let ghost t = self.table@;
        let n = self.table.len();
        let mut c: u64 = 0;
        let mut i: usize = 0;
        while i < n
            invariant
                t == self.table@,
                n == t.len(),
                i <= n,
                table_cost(t) <= u64::MAX,
                c as nat == table_cost(t.subrange(0, i as int)),
            decreases n - i,
        {
            proof {
                lemma_table_cost_prefix(t, i + 1);
                assert(t.subrange(0, i + 1).drop_last() =~= t.subrange(0, i as int));
                assert(t.subrange(0, i + 1).last() == t[i as int]);
            }
            let p = &self.table[i];
            let lg = log2_floor_usize(p.len());
            let cost = 2 * lg + 1 + 2 * (p.len() as u64);
            c = c + cost;
            i += 1;
        }
        proof {
            assert(t.subrange(0, i as int) =~= t);
        }
        c
    }
}

/// The first index at or after `i` whose pattern comes strictly after `p`
/// in the table order; the table length if there is none. Equal entries
/// are passed over, so insertion after them is stable and deterministic.
pub open spec fn insertion_index_from(t: Seq<Pattern>, p: Pattern, i: int) -> int
    decreases t.len() - i,
{
    if i < 0 || i >= t.len() {
        i
    } else if pat_le(t[i], p) {
        insertion_index_from(t, p, i + 1)
    } else {
        i
    }
}

/// The table index where `insert_pattern` places a new pattern.
pub open spec fn insertion_index(t: Seq<Pattern>, p: Pattern) -> int {
    insertion_index_from(t, p, 0)
}

proof fn lemma_insertion_index_from(t: Seq<Pattern>, p: Pattern, i: int)
    requires
        0 <= i <= t.len(),
    ensures
        i <= insertion_index_from(t, p, i) <= t.len(),
        forall|k: int| i <= k < insertion_index_from(t, p, i) ==> pat_le(#[trigger] t[k], p),
        insertion_index_from(t, p, i) < t.len()
            ==> !pat_le(t[insertion_index_from(t, p, i)], p),
    decreases t.len() - i,
{
    if i < t.len() && pat_le(t[i], p) {
        lemma_insertion_index_from(t, p, i + 1);
    }
}

/// The first index at or after `i` whose pattern is structurally equal to
/// `p`; the table length if there is none.
pub open spec fn find_index_from(t: Seq<Pattern>, p: Pattern, i: int) -> int
    decreases t.len() - i,
{
    if i < 0 || i >= t.len() {
        i
    } else if t[i].key_eq(&p) {
        i
    } else {
        find_index_from(t, p, i + 1)
    }
}

/// The table index of the first entry structurally equal to `p`, or the
/// table length when no entry is.
pub open spec fn find_index(t: Seq<Pattern>, p: Pattern) -> int {
    find_index_from(t, p, 0)
}

/// Floor of the base-2 logarithm; zero for inputs zero and one.
pub open spec fn log2_floor(n: nat) -> nat
    decreases n,
{
    if n < 2 {
        0
    } else {
        (1 + log2_floor(n / 2)) as nat
    }
}

/// Bits to describe one pattern in the table: a header of
/// `2 * floor(log2 length) + 1` bits naming its length (an Elias-gamma
/// style code), then two literal bits (value plus wildcard mask) per
/// position.
pub open spec fn pattern_cost(p: Pattern) -> nat {
    2 * log2_floor(p@.len()) + 1 + 2 * p@.len()
}

/// Bits to describe the whole table.
pub open spec fn table_cost(t: Seq<Pattern>) -> nat
    decreases t.len(),
{
    if t.len() == 0 {
        0
    } else {
        table_cost(t.drop_last()) + pattern_cost(t.last())
    }
}

proof fn lemma_log2_floor_le(n: nat)
    ensures
        log2_floor(n) <= n,
    decreases n,
{
    if n >= 2 {
        lemma_log2_floor_le(n / 2);
    }
}

proof fn lemma_table_cost_prefix(t: Seq<Pattern>, k: int)
    requires
        0 <= k <= t.len(),
    ensures
        table_cost(t.subrange(0, k)) <= table_cost(t),
    decreases t.len(),
{
    if k == t.len() {
        assert(t.subrange(0, k) =~= t);
    } else {
        lemma_table_cost_prefix(t.drop_last(), k);
        assert(t.drop_last().subrange(0, k) =~= t.subrange(0, k));
    }
}

proof fn lemma_sum_usage_prefix(u: Seq<nat>, k: int)
    requires
        0 <= k <= u.len(),
    ensures
        sum_usage(u.subrange(0, k)) <= sum_usage(u),
    decreases u.len(),
{
    if k == u.len() {
        assert(u.subrange(0, k) =~= u);
    } else {
        lemma_sum_usage_prefix(u.drop_last(), k);
        assert(u.drop_last().subrange(0, k) =~= u.subrange(0, k));
    }
}

fn log2_floor_usize(n: usize) -> (l: u64)
    ensures
        l as nat == log2_floor(n as nat),
{
    let mut v = n;
    let mut l: u64 = 0;
    while v >= 2
        invariant
            log2_floor(n as nat) == l + log2_floor(v as nat),
            l <= log2_floor(n as nat),
        decreases v,
    {
        proof {
            lemma_log2_floor_le(n as nat);
            assert(log2_floor(v as nat) >= 1);
        }
        v = v / 2;
        l = l + 1;
    }
    l
}

/// Pointwise sums weight to the sum of the weights.
proof fn lemma_weighted_add(a: Seq<nat>, b: Seq<nat>, t: Seq<Pattern>)
    requires
        a.len() == t.len(),
        b.len() == t.len(),
    ensures
        weighted_len(add_usage(a, b), t) == weighted_len(a, t) + weighted_len(b, t),
    decreases a.len(),
{
    if a.len() > 0 {
        assert(add_usage(a, b).drop_last() =~= add_usage(a.drop_last(), b.drop_last()));
        lemma_weighted_add(a.drop_last(), b.drop_last(), t.drop_last());
        let x = a.last();
        let y = b.last();
        let l = t.last()@.len();
        assert(add_usage(a, b).last() == x + y);
        assert((x + y) * l == x * l + y * l) by (nonlinear_arith);
    }
}

/// An all-zero usage vector weighs nothing.
proof fn lemma_zero_sum_zero_weight(u: Seq<nat>, t: Seq<Pattern>)
    requires
        u.len() == t.len(),
        sum_usage(u) == 0,
    ensures
        weighted_len(u, t) == 0,
    decreases u.len(),
{
    if u.len() > 0 {
        lemma_zero_sum_zero_weight(u.drop_last(), t.drop_last());
        assert(u.last() == 0);
        assert(0nat * t.last()@.len() == 0) by (nonlinear_arith);
    }
}

proof fn lemma_cover_totality_from(t: Seq<Pattern>, r: Seq<u8>, off: int)
    requires
        patterns_wf(t),
        has_singletons(t),
        0 <= off <= 8 * r.len(),
    ensures
        weighted_len(rec_usage(t, r, off), t) == 8 * r.len() - off,
    decreases 8 * r.len() - off,
{
    if off == 8 * r.len() {
        lemma_weighted_zero(t);
    } else {
        lemma_singleton_match_exists(t, r, off);
        let w = choose|j: int| 0 <= j < t.len() && matches_at(#[trigger] t[j], r, off);
        lemma_first_exists(t, r, off, w);
        let j = first_match(t, r, off);
        assert(is_first_match(t, r, off, j));
        lemma_rec_usage_len(t, r, off + t[j]@.len());
        lemma_cover_totality_from(t, r, off + t[j]@.len());
        lemma_weighted_update(rec_usage(t, r, off + t[j]@.len()), t, j);
    }
}

/// Coverage totality: covering a record with a table that holds the two
/// singleton fallbacks consumes the record exactly — the selected pattern
/// lengths, weighted by how often each pattern was selected, sum to the
/// record's bit length, leaving no gaps, overlaps or leftover bits.
pub proof fn lemma_cover_totality(t: Seq<Pattern>, r: Seq<u8>)
    requires
        patterns_wf(t),
        has_singletons(t),
    ensures
        weighted_len(rec_usage(t, r, 0), t) == 8 * r.len(),
{
    lemma_cover_totality_from(t, r, 0);
}

/// Coverage totality over the whole database: the usage counts of a full
/// covering pass, weighted by the pattern lengths, sum to the database's
/// total bit length.
pub proof fn lemma_db_cover_totality(t: Seq<Pattern>, recs: Seq<Seq<u8>>)
    requires
        patterns_wf(t),
        has_singletons(t),
    ensures
        weighted_len(db_usage(t, recs), t) == sum_bits(recs),
    decreases recs.len(),
{
    if recs.len() == 0 {
        lemma_weighted_zero(t);
    } else {
        lemma_db_cover_totality(t, recs.drop_last());
        lemma_cover_totality(t, recs.last());
        lemma_db_usage_len(t, recs.drop_last());
        lemma_rec_usage_len(t, recs.last(), 0);
        lemma_weighted_add(db_usage(t, recs.drop_last()), rec_usage(t, recs.last(), 0), t);
    }
}

/// A non-empty database forces at least one pattern selection, so the
/// total usage of a covering pass is positive and the frequency
/// denominator of the score is never zero.
pub proof fn lemma_nonempty_positive_usage(t: Seq<Pattern>, recs: Seq<Seq<u8>>)
    requires
        patterns_wf(t),
        has_singletons(t),
        sum_bits(recs) > 0,
    ensures
        sum_usage(db_usage(t, recs)) >= 1,
{
    lemma_db_cover_totality(t, recs);
    lemma_db_usage_len(t, recs);
    if sum_usage(db_usage(t, recs)) == 0 {
        lemma_zero_sum_zero_weight(db_usage(t, recs), t);
    }
}

/// The number of set bits of record `r` from bit offset `off` on.
pub open spec fn set_bits_from(r: Seq<u8>, off: int) -> nat
    decreases 8 * r.len() - off,
{
    if off < 0 || 8 * r.len() <= off {
        0
    } else {
        ((if data_bit(r, off) {
            1nat
        } else {
            0nat
        }) + set_bits_from(r, off + 1)) as nat
    }
}

/// The number of set bits over all records of a database.
pub open spec fn db_set_bits(recs: Seq<Seq<u8>>) -> nat
    decreases recs.len(),
{
    if recs.len() == 0 {
        0
    } else {
        db_set_bits(recs.drop_last()) + set_bits_from(recs.last(), 0)
    }
}

proof fn lemma_singleton_only_cover_from(t: Seq<Pattern>, r: Seq<u8>, off: int)
    requires
        t.len() == 2,
        is_zero_singleton(t[0]),
        is_one_singleton(t[1]),
        0 <= off <= 8 * r.len(),
    ensures
        rec_usage(t, r, off).len() == 2,
        rec_usage(t, r, off)[1] == set_bits_from(r, off),
        rec_usage(t, r, off)[0] + set_bits_from(r, off) == 8 * r.len() - off,
    decreases 8 * r.len() - off,
{
    lemma_rec_usage_len(t, r, off);
    if off < 8 * r.len() {
        lemma_singleton_only_cover_from(t, r, off + 1);
        if data_bit(r, off) {
            assert(t[0]@[0] == Some(false));
            assert(!position_matches(t[0]@[0], r, off));
            assert(!matches_at(t[0], r, off));
            assert(t[1]@[0] == Some(true));
            assert(forall|b: int|
                0 <= b < t[1]@.len() ==> position_matches(#[trigger] t[1]@[b], r, off + b)) by {
                assert(position_matches(t[1]@[0], r, off));
            }
            assert(matches_at(t[1], r, off));
            assert(is_first_match(t, r, off, 1));
            let j = first_match(t, r, off);
            assert(is_first_match(t, r, off, j));
            lemma_first_unique(t, r, off, j, 1);
        } else {
            assert(t[0]@[0] == Some(false));
            assert(forall|b: int|
                0 <= b < t[0]@.len() ==> position_matches(#[trigger] t[0]@[b], r, off + b)) by {
                assert(position_matches(t[0]@[0], r, off));
            }
            assert(matches_at(t[0], r, off));
            assert(is_first_match(t, r, off, 0));
            let j = first_match(t, r, off);
            assert(is_first_match(t, r, off, j));
            lemma_first_unique(t, r, off, j, 0);
        }
    }
}

/// With a table holding only the two singleton fallbacks, covering counts
/// the bits of the record: `one()` is selected once per set bit and
/// `zero()` once per clear bit.
pub proof fn lemma_singleton_only_cover(t: Seq<Pattern>, r: Seq<u8>)
    requires
        t.len() == 2,
        is_zero_singleton(t[0]),
        is_one_singleton(t[1]),
    ensures
        rec_usage(t, r, 0)[1] == set_bits_from(r, 0),
        rec_usage(t, r, 0)[0] + rec_usage(t, r, 0)[1] == 8 * r.len(),
{
    lemma_singleton_only_cover_from(t, r, 0);
}

/// Database-level form: with only the two singletons, the two usage counts
/// together count every bit of the database, and the count of `one()` is
/// exactly the number of set bits.
pub proof fn lemma_singleton_only_db(t: Seq<Pattern>, recs: Seq<Seq<u8>>)
    requires
        t.len() == 2,
        is_zero_singleton(t[0]),
        is_one_singleton(t[1]),
    ensures
        db_usage(t, recs).len() == 2,
        db_usage(t, recs)[1] == db_set_bits(recs),
        db_usage(t, recs)[0] + db_usage(t, recs)[1] == sum_bits(recs),
    decreases recs.len(),
{
    lemma_db_usage_len(t, recs);
    if recs.len() > 0 {
        lemma_singleton_only_db(t, recs.drop_last());
        lemma_singleton_only_cover(t, recs.last());
        lemma_db_usage_len(t, recs.drop_last());
        lemma_rec_usage_len(t, recs.last(), 0);
    }
}

/// Score determinism: every quantity the description-length score is
/// computed from — the per-pattern usage counts, their sum, and the bits
/// needed to describe the table — is a function of the table and the
/// database alone, so two covered tables with the same patterns over the
/// same records score identically, whatever their history.
pub proof fn lemma_score_determinism(a: &CodeTable, b: &CodeTable)
    requires
        a.wf(),
        b.wf(),
        a.covered_flag(),
        b.covered_flag(),
        a.patterns() == b.patterns(),
        a.records() == b.records(),
    ensures
        a.usage_counts() == b.usage_counts(),
        sum_usage(a.usage_counts()) == sum_usage(b.usage_counts()),
        table_cost(a.patterns()) == table_cost(b.patterns()),
{
}

/// Deterministic tie-break: whenever any pattern is selectable at an
/// offset, the covering pass selects the selectable pattern standing
/// earliest in the fixed table order — in particular, of two equal-length
/// selectable candidates the one earlier in the table always wins.
pub proof fn lemma_deterministic_tie_break(t: Seq<Pattern>, r: Seq<u8>, off: int, k: int)
    requires
        0 <= k < t.len(),
        matches_at(t[k], r, off),
    ensures
        has_match(t, r, off),
        is_first_match(t, r, off, first_match(t, r, off)),
        first_match(t, r, off) <= k,
{
    lemma_first_exists(t, r, off, k);
    let j = first_match(t, r, off);
    assert(is_first_match(t, r, off, j));
    if j > k {
        assert(!matches_at(t[k], r, off));
    }
}

/// A singleton fallback is selectable wherever at least one bit remains, so
/// a table holding both singletons has a selectable pattern at every offset.
proof fn lemma_singleton_match_exists(t: Seq<Pattern>, r: Seq<u8>, off: int)
    requires
        0 <= off < 8 * r.len(),
        has_singletons(t),
    ensures
        exists|j: int| 0 <= j < t.len() && matches_at(#[trigger] t[j], r, off),
{
    if data_bit(r, off) {
        let i = choose|i: int| 0 <= i < t.len() && is_one_singleton(#[trigger] t[i]);
        assert(t[i]@[0] == Some(true));
        assert(forall|b: int| 0 <= b < t[i]@.len() ==> position_matches(#[trigger] t[i]@[b], r, off + b)) by {
            assert(position_matches(t[i]@[0], r, off));
        }
        assert(matches_at(t[i], r, off));
    } else {
        let i = choose|i: int| 0 <= i < t.len() && is_zero_singleton(#[trigger] t[i]);
        assert(t[i]@[0] == Some(false));
        assert(forall|b: int| 0 <= b < t[i]@.len() ==> position_matches(#[trigger] t[i]@[b], r, off + b)) by {
            assert(position_matches(t[i]@[0], r, off));
        }
        assert(matches_at(t[i], r, off));
    }
}

/// If any pattern is selectable at an offset, a first one exists.
proof fn lemma_first_exists(t: Seq<Pattern>, r: Seq<u8>, off: int, j: int)
    requires
        0 <= j < t.len(),
        matches_at(t[j], r, off),
    ensures
        has_match(t, r, off),
    decreases j,
{
    if forall|k: int| 0 <= k < j ==> !matches_at(#[trigger] t[k], r, off) {
        assert(is_first_match(t, r, off, j));
    } else {
        let k = choose|k: int| 0 <= k < j && matches_at(#[trigger] t[k], r, off);
        lemma_first_exists(t, r, off, k);
    }
}

/// The first selectable index is unique.
proof fn lemma_first_unique(t: Seq<Pattern>, r: Seq<u8>, off: int, j1: int, j2: int)
    requires
        is_first_match(t, r, off, j1),
        is_first_match(t, r, off, j2),
    ensures
        j1 == j2,
{
}

fn data_bit_at(rec: &Vec<u8>, i: usize) -> (b: bool)
    requires
        i < 8 * rec@.len(),
    ensures
        b == data_bit(rec@, i as int),
{
    let byte = rec[i / 8];
    let sh: u8 = (i % 8) as u8;
    byte & (0x80u8 >> sh) != 0
}

fn pattern_matches(p: &Pattern, rec: &Vec<u8>, off: usize) -> (r: bool)
    requires
        p.wf(),
        off + p@.len() <= 8 * rec@.len(),
        8 * rec@.len() <= usize::MAX,
    ensures
        r == forall|b: int| 0 <= b < p@.len() ==> position_matches(#[trigger] p@[b], rec@, off + b),
{
    let n = p.len();
    let mut b: usize = 0;
    while b < n
        invariant
            b <= n,
            n == p@.len(),
            p.wf(),
            off + n <= 8 * rec@.len(),
            8 * rec@.len() <= usize::MAX,
            forall|k: int| 0 <= k < b ==> position_matches(#[trigger] p@[k], rec@, off + k),
        decreases n - b,
    {
        match p.get(b) {
            Some(v) => {
                let bit = data_bit_at(rec, off + b);
                if bit != v {
                    proof {
                        assert(!position_matches(p@[b as int], rec@, off + b));
                    }
                    return false;
                }
                proof {
                    assert(position_matches(p@[b as int], rec@, off + b));
                }
            }
            None => {
                proof {
                    assert(position_matches(p@[b as int], rec@, off + b));
                }
            }
        }
        b += 1;
    }
    true
}

/// A covering pass always produces one count per table entry.
proof fn lemma_rec_usage_len(t: Seq<Pattern>, r: Seq<u8>, off: int)
    ensures
        rec_usage(t, r, off).len() == t.len(),
    decreases 8 * r.len() - off,
{
    if !(off < 0 || 8 * r.len() <= off || !has_match(t, r, off)) {
        let j = first_match(t, r, off);
        assert(is_first_match(t, r, off, j));
        lemma_rec_usage_len(t, r, off + t[j]@.len());
    }
}

proof fn lemma_db_usage_len(t: Seq<Pattern>, recs: Seq<Seq<u8>>)
    ensures
        db_usage(t, recs).len() == t.len(),
    decreases recs.len(),
{
    if recs.len() > 0 {
        lemma_db_usage_len(t, recs.drop_last());
        lemma_rec_usage_len(t, recs.last(), 0);
    }
}

proof fn lemma_add_zero_right(u: Seq<nat>)
    ensures
        add_usage(u, zero_usage(u.len())) == u,
{
    assert(add_usage(u, zero_usage(u.len())) =~= u);
}

proof fn lemma_weighted_zero(t: Seq<Pattern>)
    ensures
        weighted_len(zero_usage(t.len()), t) == 0,
    decreases t.len(),
{
    if t.len() > 0 {
        assert(zero_usage(t.len()).drop_last() =~= zero_usage((t.len() - 1) as nat));
        lemma_weighted_zero(t.drop_last());
        assert(zero_usage(t.len()).last() == 0);
        assert(weighted_len(zero_usage(t.len()), t)
            == weighted_len(zero_usage(t.len()).drop_last(), t.drop_last())
                + zero_usage(t.len()).last() * t.last()@.len());
        assert(0nat * t.last()@.len() == 0) by (nonlinear_arith);
    }
}

/// Raising one count by one raises the weighted total by that pattern's
/// length.
proof fn lemma_weighted_update(u: Seq<nat>, t: Seq<Pattern>, j: int)
    requires
        u.len() == t.len(),
        0 <= j < u.len(),
    ensures
        weighted_len(u.update(j, (u[j] + 1) as nat), t) == weighted_len(u, t) + t[j]@.len(),
    decreases u.len(),
{
    let u2 = u.update(j, (u[j] + 1) as nat);
    if j == u.len() - 1 {
        assert(u2.drop_last() =~= u.drop_last());
        let a = u[j];
        let l = t[j]@.len();
        assert((a + 1) * l == a * l + l) by (nonlinear_arith);
    } else {
        lemma_weighted_update(u.drop_last(), t.drop_last(), j);
        assert(u2.drop_last() =~= u.drop_last().update(j, (u[j] + 1) as nat));
    }
}

/// No single count exceeds the weighted total when every pattern is
/// non-empty.
proof fn lemma_count_le_weighted(u: Seq<nat>, t: Seq<Pattern>, j: int)
    requires
        u.len() == t.len(),
        patterns_wf(t),
        0 <= j < u.len(),
    ensures
        u[j] <= weighted_len(u, t),
    decreases u.len(),
{
    if j == u.len() - 1 {
        let a = u.last();
        let l = t.last()@.len();
        assert(t[u.len() - 1]@.len() >= 1);
        assert(a * l >= a) by (nonlinear_arith)
            requires
                l >= 1,
                a >= 0,
        ;
    } else {
        assert(patterns_wf(t.drop_last())) by {
            assert(forall|i: int|
                0 <= i < t.len() - 1 ==> t.drop_last()[i] == #[trigger] t[i]);
        }
        lemma_count_le_weighted(u.drop_last(), t.drop_last(), j);
    }
}

/// The sum of all counts never exceeds the weighted total when every
/// pattern is non-empty.
proof fn lemma_sum_le_weighted(u: Seq<nat>, t: Seq<Pattern>)
    requires
        u.len() == t.len(),
        patterns_wf(t),
    ensures
        sum_usage(u) <= weighted_len(u, t),
    decreases u.len(),
{
    if u.len() > 0 {
        assert(patterns_wf(t.drop_last())) by {
            assert(forall|i: int|
                0 <= i < t.len() - 1 ==> t.drop_last()[i] == #[trigger] t[i]);
        }
        lemma_sum_le_weighted(u.drop_last(), t.drop_last());
        let a = u.last();
        let l = t.last()@.len();
        assert(t[u.len() - 1]@.len() >= 1);
        assert(a * l >= a) by (nonlinear_arith)
            requires
                l >= 1,
                a >= 0,
        ;
    }
}

/// The first-fit scan of the table: the first pattern in table order that
/// fits the remaining bits and whose concrete positions all agree.
fn find_first_match(table: &Vec<Pattern>, rec: &Vec<u8>, off: usize) -> (pi: usize)
    requires
        patterns_wf(table@),
        has_singletons(table@),
        off < 8 * rec@.len(),
        8 * rec@.len() <= usize::MAX,
    ensures
        is_first_match(table@, rec@, off as int, pi as int),
{
    let rbits = 8 * rec.len();
    let mut pi: usize = 0;
    while pi < table.len()
        invariant
            pi <= table@.len(),
            patterns_wf(table@),
            off < 8 * rec@.len(),
            rbits == 8 * rec@.len(),
            forall|k: int| 0 <= k < pi ==> !matches_at(#[trigger] table@[k], rec@, off as int),
        decreases table@.len() - pi,
    {
        let p = &table[pi];
        let plen = p.len();
        if plen <= rbits - off {
            if pattern_matches(p, rec, off) {
                return pi;
            }
        }
        proof {
            assert(!matches_at(table@[pi as int], rec@, off as int));
        }
        pi += 1;
    }
    proof {
        lemma_singleton_match_exists(table@, rec@, off as int);
        assert(false);
    }
    unreached()
}

} // verus!
