pub mod codetable;

use vstd::prelude::*;

use crate::database::Database;
use crate::database::sum_bits;
use codetable::CodeTable;
use codetable::db_usage;
use codetable::sum_usage;
use codetable::table_cost;
use codetable::insertion_index;
use codetable::find_index;
use codetable::pattern::Pattern;
use codetable::pattern::is_zero_singleton;
use codetable::pattern::is_one_singleton;

verus! {

/// Orchestrates candidate patterns against a code table: it owns the table,
/// mutates its pattern set, and reads the covering and scoring results. How
/// candidates are generated and accepted is left to the caller; the miner
/// only guarantees that every mutation is reflected on the next query.
pub struct Miner {
    table: CodeTable,
}

impl Miner {
    /// The owned code table.
    pub closed spec fn code_table(&self) -> CodeTable {
        self.table
    }

    /// The owned code table is valid.
    pub open spec fn wf(&self) -> bool {
        self.code_table().wf()
    }

    /// Creates a miner over a database, with a fresh table holding exactly
    /// the two mandatory singleton fallback patterns.
    pub fn with_database(d: Database) -> (m: Miner)
        requires
            d.wf(),
        ensures
            m.wf(),
            m.code_table().patterns().len() == 2,
            is_zero_singleton(m.code_table().patterns()[0]),
            is_one_singleton(m.code_table().patterns()[1]),
            m.code_table().records() == d.records(),
            !m.code_table().covered_flag(),
    {
        Miner { table: CodeTable::new(d) }
    }

    /// Creates a miner over a database; identical to `with_database`.
    pub fn new(database: Database) -> (m: Miner)
        requires
            database.wf(),
        ensures
            m.wf(),
            m.code_table().patterns().len() == 2,
            is_zero_singleton(m.code_table().patterns()[0]),
            is_one_singleton(m.code_table().patterns()[1]),
            m.code_table().records() == database.records(),
            !m.code_table().covered_flag(),
    {
        Miner { table: CodeTable::new(database) }
    }

    /// Runs (or reuses) a covering pass on the owned table.
    pub fn cover(&mut self)
        requires
            old(self).wf(),
        ensures
            final(self).wf(),
            final(self).code_table().covered_flag(),
            final(self).code_table().patterns() == old(self).code_table().patterns(),
            final(self).code_table().records() == old(self).code_table().records(),
            final(self).code_table().usage_counts()
                == db_usage(old(self).code_table().patterns(), old(self).code_table().records()),
    {
        self.table.cover();
    }

    /// Inserts a candidate pattern into the owned table.
    pub fn insert_pattern(&mut self, p: Pattern)
        requires
            old(self).wf(),
            p.wf(),
            p@.len() >= 1,
        ensures
            final(self).wf(),
            !final(self).code_table().covered_flag(),
            final(self).code_table().records() == old(self).code_table().records(),
            final(self).code_table().patterns() == old(self).code_table().patterns().insert(
                insertion_index(old(self).code_table().patterns(), p),
                p,
            ),
    {
        self.table.insert_pattern(p);
    }

    /// Removes a candidate pattern from the owned table; the two singleton
    /// fallbacks may not be removed.
    pub fn remove_pattern(&mut self, p: &Pattern)
        requires
            old(self).wf(),
            !is_zero_singleton(*p),
            !is_one_singleton(*p),
        ensures
            final(self).wf(),
            !final(self).code_table().covered_flag(),
            final(self).code_table().records() == old(self).code_table().records(),
            find_index(old(self).code_table().patterns(), *p)
                < old(self).code_table().patterns().len() ==> final(self).code_table().patterns()
                == old(self).code_table().patterns().remove(
                find_index(old(self).code_table().patterns(), *p),
            ),
            find_index(old(self).code_table().patterns(), *p)
                >= old(self).code_table().patterns().len() ==> final(self).code_table().patterns()
                == old(self).code_table().patterns(),
    {
        self.table.remove_pattern(p);
    }

    /// The number of patterns in the owned table.
    pub fn num_patterns(&self) -> (n: usize)
        ensures
            n == self.code_table().patterns().len(),
    {
        self.table.num_patterns()
    }

    /// The cached usage count of the pattern at `index` in the owned table.
    pub fn usage_of(&self, index: usize) -> (c: usize)
        requires
            self.wf(),
            index < self.code_table().patterns().len(),
        ensures
            c as nat == self.code_table().usage_counts()[index as int],
    {
        self.table.usage_of(index)
    }

    /// Whether the usage cache of the owned table is clean.
    pub fn is_covered(&self) -> (b: bool)
        ensures
            b == self.code_table().covered_flag(),
    {
        self.table.is_covered()
    }

    /// The sum of all cached usage counts of the owned table.
    pub fn total_usage(&self) -> (s: usize)
        requires
            self.wf(),
            self.code_table().covered_flag(),
        ensures
            s as nat == sum_usage(self.code_table().usage_counts()),
    {
        self.table.total_usage()
    }

    /// The bits needed to describe the owned table itself.
    pub fn table_cost_bits(&self) -> (c: u64)
        requires
            self.wf(),
            table_cost(self.code_table().patterns()) <= u64::MAX,
        ensures
            c as nat == table_cost(self.code_table().patterns()),
    {
        self.table.table_cost_bits()
    }

    /// The sum of the record bit lengths of the owned database.
    pub fn total_bits(&self) -> (t: usize)
        requires
            self.wf(),
        ensures
            t == sum_bits(self.code_table().records()),
    {
        self.table.data_total_bits()
    }
}

} // verus!
