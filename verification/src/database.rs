use vstd::prelude::*;

verus! {

/// The byte records of a sequence of buffers, as mathematical sequences.
pub open spec fn byte_views(rs: Seq<Vec<u8>>) -> Seq<Seq<u8>> {
    Seq::new(rs.len(), |i: int| rs[i]@)
}

/// The sum of the bit lengths of a sequence of byte records; each record
/// of `n` bytes holds `8 * n` bits.
pub open spec fn sum_bits(recs: Seq<Seq<u8>>) -> nat
    decreases recs.len(),
{
    if recs.len() == 0 {
        0
    } else {
        sum_bits(recs.drop_last()) + 8 * recs.last().len()
    }
}

/// An ordered collection of immutable bit records. Each record is a byte
/// buffer read bit by bit, most significant bit of each byte first. The
/// total bit length over all records is cached at construction.
pub struct Database {
    records: Vec<Vec<u8>>,
    total_bits: usize,
}

impl Database {
    /// The records as mathematical byte sequences.
    pub closed spec fn records(&self) -> Seq<Seq<u8>> {
        byte_views(self.records@)
    }

    /// The cached total equals the sum of the record bit lengths.
    pub closed spec fn wf(&self) -> bool {
        self.total_bits == sum_bits(self.records())
    }

    /// Builds a database from byte records. The total bit length must fit
    /// the machine word in which it is cached.
    pub fn new(records: Vec<Vec<u8>>) -> (d: Database)
        requires
            sum_bits(byte_views(records@)) <= usize::MAX,
        ensures
            d.wf(),
            d.records() == byte_views(records@),
    {
        let ghost all = byte_views(records@);
        let mut total: usize = 0;
        let mut i: usize = 0;
        while i < records.len()
            invariant
                i <= records@.len(),
                all == byte_views(records@),
                sum_bits(all) <= usize::MAX,
                total == sum_bits(all.subrange(0, i as int)),
            decreases records@.len() - i,
        {
            proof {
                lemma_sum_bits_prefix(all, i + 1);
                assert(all.subrange(0, i + 1).drop_last() =~= all.subrange(0, i as int));
                assert(all.subrange(0, i + 1).last() == records@[i as int]@);
            }
            let n = records[i].len();
            total = total + 8 * n;
            i += 1;
        }
        proof {
            assert(all.subrange(0, i as int) =~= all);
        }
        Database { records, total_bits: total }
    }

    /// The number of records.
    pub fn num_records(&self) -> (n: usize)
        ensures
            n == self.records().len(),
    {
        self.records.len()
    }

    /// A borrow of the record at `index`.
    pub fn record(&self, index: usize) -> (r: &Vec<u8>)
        requires
            index < self.records().len(),
        ensures
            r@ == self.records()[index as int],
    {
        &self.records[index]
    }

    /// The cached sum of the record bit lengths.
    pub fn total_bits(&self) -> (t: usize)
        requires
            self.wf(),
        ensures
            t == sum_bits(self.records()),
    {
        self.total_bits
    }
}

/// A prefix never holds more bits than the whole sequence of records.
pub proof fn lemma_sum_bits_prefix(recs: Seq<Seq<u8>>, k: int)
    requires
        0 <= k <= recs.len(),
    ensures
        sum_bits(recs.subrange(0, k)) <= sum_bits(recs),
    decreases recs.len(),
{
    if k == recs.len() {
        assert(recs.subrange(0, k) =~= recs);
    } else {
        lemma_sum_bits_prefix(recs.drop_last(), k);
        assert(recs.drop_last().subrange(0, k) =~= recs.subrange(0, k));
    }
}

/// No single record holds more bits than the whole database.
pub proof fn lemma_record_le_sum(recs: Seq<Seq<u8>>, i: int)
    requires
        0 <= i < recs.len(),
    ensures
        8 * recs[i].len() <= sum_bits(recs),
    decreases recs.len(),
{
    if i < recs.len() - 1 {
        lemma_record_le_sum(recs.drop_last(), i);
    }
}

} // verus!
