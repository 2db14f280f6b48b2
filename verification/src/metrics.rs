//! Counters and gauges the subsystem maintains about its own progress. The
//! caller reads them out to whatever monitoring backend it uses.

use vstd::prelude::*;

verus! {

/// The subsystem's own counters and gauges.
#[derive(Debug)]
pub struct UbtMetrics {
    /// How many blocks have been processed.
    pub blocks_processed: u64,
    /// How many entries the last processed block wrote.
    pub entries_last_block: u64,
    /// The total number of stems after the last processed block.
    pub stems_total: u64,
    /// The number of the last processed block.
    pub last_block_number: u64,
    /// The number of stems currently dirty in memory.
    pub dirty_stems: u64,
    /// How many reverts have run.
    pub reverts: u64,
    /// How many blocks the last revert undid.
    pub blocks_reverted_last: u64,
    /// How many entries the last revert restored.
    pub entries_reverted_last: u64,
}

impl UbtMetrics {
    pub fn new() -> (r: UbtMetrics)
        ensures
            r.blocks_processed == 0,
            r.entries_last_block == 0,
            r.stems_total == 0,
            r.last_block_number == 0,
            r.dirty_stems == 0,
            r.reverts == 0,
            r.blocks_reverted_last == 0,
            r.entries_reverted_last == 0,
    {
        UbtMetrics {
            blocks_processed: 0,
            entries_last_block: 0,
            stems_total: 0,
            last_block_number: 0,
            dirty_stems: 0,
            reverts: 0,
            blocks_reverted_last: 0,
            entries_reverted_last: 0,
        }
    }
}

/// Record a block being processed.
pub fn record_block_processed(m: &mut UbtMetrics, block_number: u64, entries: usize, stems: usize)
    ensures
        final(m).blocks_processed == (if old(m).blocks_processed == u64::MAX {
            u64::MAX
        } else {
            (old(m).blocks_processed + 1) as u64
        }),
        final(m).entries_last_block == entries as u64,
        final(m).stems_total == stems as u64,
        final(m).last_block_number == block_number,
        final(m).dirty_stems == old(m).dirty_stems,
        final(m).reverts == old(m).reverts,
        final(m).blocks_reverted_last == old(m).blocks_reverted_last,
        final(m).entries_reverted_last == old(m).entries_reverted_last,
{
    if m.blocks_processed < u64::MAX {
        m.blocks_processed = m.blocks_processed + 1;
    }
    m.entries_last_block = entries as u64;
    m.stems_total = stems as u64;
    m.last_block_number = block_number;
}

/// Record the dirty stems gauge.
pub fn record_dirty_stems(m: &mut UbtMetrics, count: usize)
    ensures
        final(m).dirty_stems == count as u64,
        final(m).blocks_processed == old(m).blocks_processed,
        final(m).entries_last_block == old(m).entries_last_block,
        final(m).stems_total == old(m).stems_total,
        final(m).last_block_number == old(m).last_block_number,
        final(m).reverts == old(m).reverts,
        final(m).blocks_reverted_last == old(m).blocks_reverted_last,
        final(m).entries_reverted_last == old(m).entries_reverted_last,
{
    m.dirty_stems = count as u64;
}

/// Record a revert operation.
pub fn record_revert(m: &mut UbtMetrics, blocks_reverted: usize, entries_reverted: usize)
    ensures
        final(m).reverts == (if old(m).reverts == u64::MAX {
            u64::MAX
        } else {
            (old(m).reverts + 1) as u64
        }),
        final(m).blocks_processed == old(m).blocks_processed,
        final(m).entries_last_block == old(m).entries_last_block,
        final(m).stems_total == old(m).stems_total,
        final(m).last_block_number == old(m).last_block_number,
        final(m).dirty_stems == old(m).dirty_stems,
        final(m).blocks_reverted_last == blocks_reverted as u64,
        final(m).entries_reverted_last == entries_reverted as u64,
{
    if m.reverts < u64::MAX {
        m.reverts = m.reverts + 1;
    }
    m.blocks_reverted_last = blocks_reverted as u64;
    m.entries_reverted_last = entries_reverted as u64;
}

} // verus!
