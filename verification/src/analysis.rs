//! External collaborators seen at their interface: the statistics source,
//! the catalog's index metadata, and the optimizer configuration.
//!
//! The engine reads plain values from these: a table's estimated row count
//! and whether a column of a table carries an index. Degenerate statistics
//! (a zero or absurdly large row count) are clamped to a safe range rather
//! than propagated, so a single bad estimate cannot abort optimization.

use vstd::prelude::*;

verus! {

/// Row estimate used for a table the statistics source does not list.
pub const DEFAULT_TABLE_ROWS: u64 = 1000;

/// Upper clamp for row estimates; keeps cost arithmetic far from overflow.
pub const ROWS_CAP: u64 = 0x100_0000_0000;

/// Read-only, per-table row estimates supplied by an external statistics
/// source.
#[derive(Debug)]
pub struct Statistics {
    /// `(table id, estimated row count)` pairs; the first match wins.
    pub table_rows: Vec<(u64, u64)>,
}

/// Read-only index metadata supplied by the external catalog.
#[derive(Debug)]
pub struct Catalog {
    /// `(table id, column ordinal)` pairs that carry an index.
    pub indexes: Vec<(u64, u64)>,
}

/// Immutable optimizer configuration; selects which optional rule sets the
/// stages include.
#[derive(Clone, Copy, PartialEq, Eq, Structural, Debug)]
pub struct Config {
    /// Allow rewriting a filtered scan into an index scan.
    pub enable_range_filter_scan: bool,
    /// Assume each table is stored sorted by its primary key, allowing
    /// sorts over base order to be dropped.
    pub table_is_sorted_by_primary_key: bool,
}

impl Default for Config {
    /// Both optional rule sets disabled.
    fn default() -> (r: Config)
        ensures
            !r.enable_range_filter_scan,
            !r.table_is_sorted_by_primary_key,
    {
        Config { enable_range_filter_scan: false, table_is_sorted_by_primary_key: false }
    }
}

/// Everything the per-class analysis and the cost model read: catalog,
/// configuration, and statistics. Immutable for the life of an optimizer.
#[derive(Debug)]
pub struct ExprAnalysis {
    pub catalog: Catalog,
    pub config: Config,
    pub stat: Statistics,
}

/// Clamp a raw row estimate into `[1, ROWS_CAP]`.
pub open spec fn clamp_rows(x: u64) -> u64 {
    if x < 1 {
        1u64
    } else if x > ROWS_CAP {
        ROWS_CAP
    } else {
        x
    }
}

/// The estimate the statistics report for table `t`: the first matching
/// entry, or `DEFAULT_TABLE_ROWS` when none is listed.
pub open spec fn table_rows_in(s: Seq<(u64, u64)>, t: u64) -> u64
    decreases s.len(),
{
    if s.len() == 0 {
        DEFAULT_TABLE_ROWS
    } else if s[0].0 == t {
        s[0].1
    } else {
        table_rows_in(s.drop_first(), t)
    }
}

/// Whether the catalog lists an index on column `c` of table `t`.
pub open spec fn has_index_in(s: Seq<(u64, u64)>, t: u64, c: u64) -> bool {
    exists|i: int| 0 <= i < s.len() && s[i] == (t, c)
}

impl Statistics {
    /// A source with no listed tables; every lookup reports the default.
    pub fn new() -> (r: Statistics)
        ensures
            r.table_rows@ == Seq::<(u64, u64)>::empty(),
    {
        Statistics { table_rows: Vec::new() }
    }

    /// Record an estimate for a table.
    pub fn set_rows(&mut self, table: u64, rows: u64)
        ensures
            final(self).table_rows@ == old(self).table_rows@.push((table, rows)),
    {
        self.table_rows.push((table, rows));
    }

    /// Estimated row count of `t`, before clamping.
    pub fn rows_for(&self, t: u64) -> (r: u64)
        ensures
            r == table_rows_in(self.table_rows@, t),
    {
        let mut i: usize = 0;
        proof {
            assert(self.table_rows@.skip(0) =~= self.table_rows@);
        }
        while i < self.table_rows.len()
            invariant
                i <= self.table_rows@.len(),
                table_rows_in(self.table_rows@, t) == table_rows_in(
                    self.table_rows@.skip(i as int),
                    t,
                ),
            decreases self.table_rows@.len() - i,
        {
            let pair = self.table_rows[i];
            proof {
                assert(self.table_rows@.skip(i as int)[0] == self.table_rows@[i as int]);
                assert(self.table_rows@.skip(i as int).drop_first() =~= self.table_rows@.skip(
                    i as int + 1,
                ));
            }
            if pair.0 == t {
                return pair.1;
            }
            i = i + 1;
        }
        proof {
            assert(self.table_rows@.skip(i as int).len() == 0);
        }
        DEFAULT_TABLE_ROWS
    }
}

impl Catalog {
    /// A catalog with no indexes.
    pub fn new() -> (r: Catalog)
        ensures
            r.indexes@ == Seq::<(u64, u64)>::empty(),
    {
        Catalog { indexes: Vec::new() }
    }

    /// Record an index on column `c` of table `t`.
    pub fn add_index(&mut self, t: u64, c: u64)
        ensures
            final(self).indexes@ == old(self).indexes@.push((t, c)),
    {
        self.indexes.push((t, c));
    }

    /// Whether column `c` of table `t` carries an index.
    pub fn has_index(&self, t: u64, c: u64) -> (r: bool)
        ensures
            r == has_index_in(self.indexes@, t, c),
    {
        let mut i: usize = 0;
        while i < self.indexes.len()
            invariant
                i <= self.indexes@.len(),
                forall|k: int| 0 <= k < i ==> self.indexes@[k] != (t, c),
            decreases self.indexes@.len() - i,
        {
            let pair = self.indexes[i];
            if pair.0 == t && pair.1 == c {
                assert(self.indexes@[i as int] == (t, c));
                return true;
            }
            proof {
                assert(self.indexes@[i as int] == pair);
                assert(pair != (t, c));
            }
            i = i + 1;
        }
        false
    }
}

} // verus!
