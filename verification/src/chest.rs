//! The storage engine. It owns the in-memory write buffer, the membership
//! filter and the ordered collection of on-disk runs; it serves point
//! reads and writes, flushes the buffer into a new run when it reaches
//! the configured size, and merges the oldest run into the newest when
//! the run count reaches its bound. File traffic is not performed here:
//! every write or removal the engine decides on is queued as a file
//! operation for the caller to apply, and an engine is reopened from the
//! file contents the caller reads back.

use vstd::prelude::*;

use crate::clock::now_nanos;
use crate::errors::{DungeonError, DungeonResult};
use crate::filter::Filter;
use crate::mem_table::MemTable;
use crate::merge_model::{
    collapse, merge_seq, lww_pick, lemma_collapse_strict_id, lemma_merge_lww,
};
use crate::run_id::{digits_value, u128_to_string, lemma_dec_str_value};
use crate::sorted_map::{assoc_get, keys_sorted, lemma_assoc_present};
use crate::ss_table::SSTable;
use crate::value::{TimeStampedValue, TsvView, Value, pairs_view};

verus! {

/// One file action the engine has decided on. The caller applies them in
/// order: this is the whole of the engine's disk traffic.
pub enum FileOp {
    Write { path: String, bytes: Vec<u8> },
    Remove { path: String },
}

/// The contents of one run's files as read back from a directory: the
/// shared file stem, the index file's bytes and the data file's bytes.
pub struct RunFile {
    pub stem: String,
    pub index_bytes: Vec<u8>,
    pub data_bytes: Vec<u8>,
}

/// Whether a file operation writes the given bytes under the given path.
pub open spec fn op_is_write(op: FileOp, path: Seq<char>, bytes: Seq<u8>) -> bool {
    match op {
        FileOp::Write { path: p, bytes: b } => p@ == path && b@ == bytes,
        FileOp::Remove { .. } => false,
    }
}

/// Whether a file operation removes the file under the given path.
pub open spec fn op_is_remove(op: FileOp, path: Seq<char>) -> bool {
    match op {
        FileOp::Write { .. } => false,
        FileOp::Remove { path: p } => p@ == path,
    }
}

/// A run's file pair, as the engine would persist it: the encoded index
/// is coherent with the data bytes and decodes back to exactly the
/// run's index, so reopening the pair restores the run.
pub open spec fn run_files_coherent(t: SSTable) -> bool {
    &&& crate::ss_table::run_file_ok(
        t.file_name@,
        crate::ss_table::enc_index(t.index.entries_view()),
        t.data@,
    )
    &&& crate::ss_table::dec_index_exact(crate::ss_table::enc_index(t.index.entries_view()))
        == Some(t.index.entries_view())
}

/// The two writes a freshly installed run queues: its encoded index and
/// its data bytes, each under the run's own path.
pub open spec fn run_write_ops(pre: Seq<FileOp>, post: Seq<FileOp>, t: SSTable) -> bool {
    &&& post.len() == pre.len() + 2
    &&& post.subrange(0, pre.len() as int) == pre
    &&& op_is_write(
        post[pre.len() as int],
        crate::ss_table::spec_index_path(t),
        crate::ss_table::enc_index(t.index.entries_view()),
    )
    &&& op_is_write(post[pre.len() as int + 1], crate::ss_table::spec_data_path(t), t.data@)
}

/// The trail a merging flush leaves, in order: the new run's two writes,
/// the four removals retiring both merge inputs, and the merged run's
/// two writes.
pub open spec fn merge_ops(
    pre: Seq<FileOp>,
    post: Seq<FileOp>,
    oldest: SSTable,
    t: SSTable,
    merged: SSTable,
) -> bool {
    &&& post.len() == pre.len() + 8
    &&& post.subrange(0, pre.len() as int) == pre
    &&& op_is_write(
        post[pre.len() as int],
        crate::ss_table::spec_index_path(t),
        crate::ss_table::enc_index(t.index.entries_view()),
    )
    &&& op_is_write(post[pre.len() as int + 1], crate::ss_table::spec_data_path(t), t.data@)
    &&& op_is_remove(post[pre.len() as int + 2], crate::ss_table::spec_index_path(oldest))
    &&& op_is_remove(post[pre.len() as int + 3], crate::ss_table::spec_data_path(oldest))
    &&& op_is_remove(post[pre.len() as int + 4], crate::ss_table::spec_index_path(t))
    &&& op_is_remove(post[pre.len() as int + 5], crate::ss_table::spec_data_path(t))
    &&& op_is_write(
        post[pre.len() as int + 6],
        crate::ss_table::spec_index_path(merged),
        crate::ss_table::enc_index(merged.index.entries_view()),
    )
    &&& op_is_write(post[pre.len() as int + 7], crate::ss_table::spec_data_path(merged), merged.data@)
}

/// What a merging flush produces from the oldest run and the drained
/// buffer: a fresh run t holding exactly the buffer, and the merged run
/// reconciling the two under last-writer-wins; both file pairs cohere.
pub open spec fn merged_from(
    oldest: SSTable,
    memview: Seq<(Seq<char>, TsvView)>,
    dir: Seq<char>,
    t: SSTable,
    merged: SSTable,
) -> bool {
    &&& t.wf()
    &&& t.base_dir@ == dir
    &&& t.run_entries() == memview
    &&& merged.run_entries() == collapse(merge_seq(oldest.run_entries(), t.run_entries()))
    &&& forall|k: Seq<char>|
        #[trigger] merged.spec_get(k) == lww_pick(oldest.spec_get(k), t.spec_get(k))
    &&& run_files_coherent(t)
    &&& run_files_coherent(merged)
}

/// How many of the runs hold the key.
pub open spec fn run_homes(runs: Seq<SSTable>, k: Seq<char>) -> nat
    decreases runs.len(),
{
    if runs.len() == 0 {
        0nat
    } else {
        run_homes(runs.drop_last(), k) + if runs.last().spec_get(k) is Some {
            1nat
        } else {
            0nat
        }
    }
}

/// The reading a run collection gives a key: newest run first, first hit
/// wins. Runs are kept ascending by id, so the scan walks from the back.
pub open spec fn lookup_runs(runs: Seq<SSTable>, k: Seq<char>) -> Option<TsvView>
    decreases runs.len(),
{
    if runs.len() == 0 {
        None
    } else {
        match runs.last().spec_get(k) {
            Some(v) => Some(v),
            None => lookup_runs(runs.drop_last(), k),
        }
    }
}

/// Appending a run puts it in front of the scan.
pub proof fn lemma_lookup_runs_push(runs: Seq<SSTable>, t: SSTable, k: Seq<char>)
    ensures
        lookup_runs(runs.push(t), k) == match t.spec_get(k) {
            Some(v) => Some(v),
            None => lookup_runs(runs, k),
        },
{
    assert(runs.push(t).last() == t);
    assert(runs.push(t).drop_last() =~= runs);
}

/// A key no run holds reads as absent.
pub proof fn lemma_lookup_runs_none(runs: Seq<SSTable>, k: Seq<char>)
    requires
        forall|i: int| 0 <= i < runs.len() ==> (#[trigger] runs[i]).spec_get(k) is None,
    ensures
        lookup_runs(runs, k) is None,
    decreases runs.len(),
{
    if runs.len() > 0 {
        assert(runs.last() == runs[runs.len() - 1]);
        assert(forall|i: int|
            0 <= i < runs.drop_last().len() ==> (#[trigger] runs.drop_last()[i]).spec_get(
                k,
            ) is None) by {
            assert(forall|i: int|
                0 <= i < runs.drop_last().len() ==> runs.drop_last()[i] == runs[i]);
        }
        lemma_lookup_runs_none(runs.drop_last(), k);
    }
}

/// Dropping the oldest run changes no reading of a key it does not hold
/// exclusively; here, of a key it does not hold at all.
pub proof fn lemma_lookup_runs_drop_first(runs: Seq<SSTable>, k: Seq<char>)
    requires
        runs.len() > 0,
        runs[0].spec_get(k) is None,
    ensures
        lookup_runs(runs, k) == lookup_runs(runs.drop_first(), k),
    decreases runs.len(),
{
    if runs.len() == 1 {
        assert(runs.last() == runs[0]);
        assert(runs.drop_first() =~= Seq::<SSTable>::empty());
    } else {
        assert(runs.drop_first().last() == runs.last());
        if runs.last().spec_get(k) is None {
            assert(runs.drop_last()[0] == runs[0]);
            lemma_lookup_runs_drop_first(runs.drop_last(), k);
            assert(runs.drop_last().drop_first() =~= runs.drop_first().drop_last());
        }
    }
}

/// A key exactly one run holds reads from that run.
pub proof fn lemma_lookup_runs_found_at(runs: Seq<SSTable>, i: int, k: Seq<char>)
    requires
        0 <= i < runs.len(),
        forall|j: int| 0 <= j < runs.len() && j != i ==> (#[trigger] runs[j]).spec_get(k) is None,
    ensures
        lookup_runs(runs, k) == runs[i].spec_get(k),
    decreases runs.len(),
{
    assert(runs.last() == runs[runs.len() - 1]);
    if i == runs.len() - 1 {
        if runs[i].spec_get(k) is None {
            assert(forall|j: int|
                0 <= j < runs.drop_last().len() ==> (#[trigger] runs.drop_last()[j]).spec_get(
                    k,
                ) is None) by {
                assert(forall|j: int|
                    0 <= j < runs.drop_last().len() ==> runs.drop_last()[j] == runs[j]);
            }
            lemma_lookup_runs_none(runs.drop_last(), k);
        }
    } else {
        assert(runs.drop_last()[i] == runs[i]);
        assert(forall|j: int|
            0 <= j < runs.drop_last().len() && j != i ==> (#[trigger] runs.drop_last()[j]).spec_get(
                k,
            ) is None) by {
            assert(forall|j: int|
                0 <= j < runs.drop_last().len() ==> runs.drop_last()[j] == runs[j]);
        }
        lemma_lookup_runs_found_at(runs.drop_last(), i, k);
    }
}

/// The engine. Runs are kept ascending by id: the scan for a read walks
/// them newest first, and a merge takes the oldest.
pub struct Chest<F: Filter> {
    dir_path: String,
    mem_table: MemTable,
    flush_size: usize,
    max_sstable_count: usize,
    sstables: Vec<SSTable>,
    filter: F,
    last_ts: u128,
    pending: Vec<FileOp>,
}

impl<F: Filter> Chest<F> {
    pub closed spec fn dir(&self) -> Seq<char> {
        self.dir_path@
    }

    pub closed spec fn mem_entries(&self) -> Seq<(Seq<char>, TsvView)> {
        self.mem_table.entries_view()
    }

    pub closed spec fn mem_wf(&self) -> bool {
        self.mem_table.wf()
    }

    pub closed spec fn runs(&self) -> Seq<SSTable> {
        self.sstables@
    }

    pub closed spec fn spec_flush_size(&self) -> nat {
        self.flush_size as nat
    }

    pub closed spec fn spec_max_runs(&self) -> nat {
        self.max_sstable_count as nat
    }

    pub closed spec fn spec_last_ts(&self) -> u128 {
        self.last_ts
    }

    pub closed spec fn filter_keys(&self) -> Set<Seq<char>> {
        self.filter.keys()
    }

    pub closed spec fn filter_inv(&self) -> bool {
        self.filter.inv()
    }

    /// The file operations queued and not yet taken, oldest first.
    pub closed spec fn pending_ops(&self) -> Seq<FileOp> {
        self.pending@
    }

    /// The write buffer's reading of a key.
    pub open spec fn mem_get(&self, k: Seq<char>) -> Option<TsvView> {
        assoc_get(self.mem_entries(), k)
    }

    /// The reading the engine gives a key, the deletion marker included:
    /// the write buffer first, then the runs newest first.
    pub open spec fn lookup(&self, k: Seq<char>) -> Option<TsvView> {
        match self.mem_get(k) {
            Some(v) => Some(v),
            None => lookup_runs(self.runs(), k),
        }
    }

    /// The user-visible reading of a key: a deletion marker reads as
    /// absent.
    pub open spec fn user_get(&self, k: Seq<char>) -> Option<TsvView> {
        match self.lookup(k) {
            Some(tv) => if tv.value is Tombstone {
                None
            } else {
                Some(tv)
            },
            None => None,
        }
    }

    /// How many places hold the key: the write buffer and each run count
    /// one. Claims about preservation across a merge hold for keys with
    /// at most one home.
    pub open spec fn homes(&self, k: Seq<char>) -> nat {
        run_homes(self.runs(), k) + if self.mem_get(k) is Some {
            1nat
        } else {
            0nat
        }
    }

    /// Well-formed: the buffer and each run are well-formed; run ids
    /// ascend strictly and share the engine's directory; every stored
    /// timestamp is at most last_ts; every buffered entry is newer than
    /// every run entry under any key; and the filter covers every stored
    /// key.
    pub open spec fn wf(&self) -> bool {
        &&& self.mem_wf()
        &&& self.filter_inv()
        &&& self.spec_flush_size() >= 1
        &&& self.spec_max_runs() >= 1
        &&& forall|i: int| 0 <= i < self.runs().len() ==> (#[trigger] self.runs()[i]).wf()
        &&& forall|i: int|
            0 <= i < self.runs().len() ==> (#[trigger] self.runs()[i]).base_dir@ == self.dir()
        &&& forall|i: int, j: int|
            0 <= i < j < self.runs().len() ==> self.runs()[i].id < self.runs()[j].id
        &&& forall|e: (Seq<char>, TsvView)|
            self.mem_entries().contains(e) ==> (#[trigger] e.1).timestamp <= self.spec_last_ts()
        &&& forall|i: int, l: int|
            0 <= i < self.runs().len() && 0 <= l < (#[trigger] self.runs()[i]).run_entries().len()
                ==> (#[trigger] self.runs()[i].run_entries()[l]).1.timestamp
                <= self.spec_last_ts()
        &&& forall|e: (Seq<char>, TsvView), i: int, l: int|
            self.mem_entries().contains(e) && 0 <= i < self.runs().len() && 0 <= l < (
            #[trigger] self.runs()[i]).run_entries().len() ==> (#[trigger] e.1).timestamp > (
            #[trigger] self.runs()[i].run_entries()[l]).1.timestamp
        &&& forall|k: Seq<char>|
            (#[trigger] self.mem_get(k)) is Some ==> self.filter_keys().contains(k)
        &&& forall|i: int, k: Seq<char>|
            0 <= i < self.runs().len() && (#[trigger] self.runs()[i].spec_get(k)) is Some
                ==> self.filter_keys().contains(k)
    }

    /// How many keys the write buffer holds.
    pub fn len(&self) -> (r: usize)
        ensures
            r == self.mem_entries().len(),
    {
        self.mem_table.size()
    }

    /// Whether the write buffer holds nothing.
    pub fn is_empty(&self) -> (r: bool)
        ensures
            r == (self.mem_entries().len() == 0),
    {
        self.len() == 0
    }

    /// How many runs the engine holds.
    pub fn run_count(&self) -> (r: usize)
        ensures
            r == self.runs().len(),
    {
        self.sstables.len()
    }

    /// Takes the queued file operations, oldest first, leaving the queue
    /// empty. Applying them in order brings the directory up to date.
    pub fn take_pending(&mut self) -> (r: Vec<FileOp>)
        ensures
            final(self).mem_entries() == old(self).mem_entries(),
            final(self).mem_wf() == old(self).mem_wf(),
            final(self).runs() == old(self).runs(),
            final(self).filter_keys() == old(self).filter_keys(),
            final(self).filter_inv() == old(self).filter_inv(),
            final(self).dir() == old(self).dir(),
            final(self).spec_flush_size() == old(self).spec_flush_size(),
            final(self).spec_max_runs() == old(self).spec_max_runs(),
            final(self).spec_last_ts() == old(self).spec_last_ts(),
            final(self).pending_ops().len() == 0,
            r@ == old(self).pending_ops(),
    {
        let mut taken: Vec<FileOp> = Vec::new();
        std::mem::swap(&mut taken, &mut self.pending);
        taken
    }

    /// Reads a key: the filter first, then the write buffer, then the
    /// runs newest first; a deletion marker reads as absent. A
    /// well-formed engine always answers.
    pub fn get(&self, key: &str) -> (r: DungeonResult<Option<TimeStampedValue>>)
        requires
            self.wf(),
        ensures
            match r {
                Ok(opt) => match opt {
                    Some(tv) => self.user_get(key@) == Some(tv@),
                    None => self.user_get(key@) is None,
                },
                Err(_) => false,
            },
    {
        if !self.filter.contains(key) {
            proof {
                assert(self.mem_table.spec_get(key@) is None);
                assert(forall|i: int|
                    0 <= i < self.sstables@.len() ==> (#[trigger] self.sstables@[i]).spec_get(
                        key@,
                    ) is None);
                lemma_lookup_runs_none(self.sstables@, key@);
            }
            return Ok(None);
        }
        match self.mem_table.get(key) {
            Some(found) => {
                if found.value.is_tombstone() {
                    Ok(None)
                } else {
                    Ok(Some(found))
                }
            },
            None => {
                let n: usize = self.sstables.len();
                let mut idx: usize = n;
                proof {
                    assert(self.sstables@.take(n as int) =~= self.sstables@);
                }
                while idx > 0
                    invariant
                        idx <= n,
                        n == self.sstables@.len(),
                        self.wf(),
                        self.mem_table.spec_get(key@) is None,
                        lookup_runs(self.sstables@, key@) == lookup_runs(
                            self.sstables@.take(idx as int),
                            key@,
                        ),
                    decreases idx,
                {
                    idx = idx - 1;
                    let table: &SSTable = &self.sstables[idx];
                    match table.get(key) {
                        Ok(Some(found)) => {
                            proof {
                                assert(self.sstables@.take(idx + 1).last() == self.sstables@[
                                    idx as int
                                ]);
                            }
                            if found.value.is_tombstone() {
                                return Ok(None);
                            } else {
                                return Ok(Some(found));
                            }
                        },
                        Ok(None) => {
                            proof {
                                assert(self.sstables@.take(idx + 1).last() == self.sstables@[
                                    idx as int
                                ]);
                                assert(self.sstables@.take(idx + 1).drop_last()
                                    =~= self.sstables@.take(idx as int));
                            }
                        },
                        Err(e) => {
                            return Err(e);
                        },
                    }
                }
                proof {
                    assert(self.sstables@.take(0) =~= Seq::<SSTable>::empty());
                }
                Ok(None)
            },
        }
    }
}

} // verus!

verus! {

/// A fresh run id: a clock reading strictly above the bound, so equal
/// ids never arise. When repeated readings fail to pass the bound, the
/// bound plus one is taken instead; only a bound at the top of the word
/// leaves nothing fresh.
fn next_id_above(bound: u128) -> (r: Option<u128>)
    ensures
        match r {
            Some(id) => id > bound && (id < 0x400000000000000000000000u128 || id == bound + 1),
            None => bound == u128::MAX,
        },
{
    let mut tries: u32 = 0;
    while tries < 1000
        decreases 1000 - tries,
    {
        let t: u128 = now_nanos();
        if t > bound {
            return Some(t);
        }
        tries = tries + 1;
    }
    if bound < u128::MAX {
        Some(bound + 1)
    } else {
        None
    }
}

/// The greatest run id present, or zero with no runs.
pub open spec fn max_run_id(runs: Seq<SSTable>) -> u128 {
    if runs.len() == 0 {
        0u128
    } else {
        runs.last().id
    }
}

/// A verified byte-for-byte copy.
fn copy_bytes(src: &Vec<u8>) -> (r: Vec<u8>)
    ensures
        r@ == src@,
{
    let n: usize = src.len();
    let mut out: Vec<u8> = Vec::new();
    let mut i: usize = 0;
    while i < n
        invariant
            i <= n,
            n == src@.len(),
            out@ == src@.take(i as int),
        decreases n - i,
    {
        out.push(src[i]);
        proof {
            assert(out@ =~= src@.take(i + 1));
        }
        i = i + 1;
    }
    proof {
        assert(src@.take(n as int) =~= src@);
    }
    out
}

impl<F: Filter> Chest<F> {
    /// How many keys the write buffer holds once the given key is bound:
    /// unchanged for a key already buffered, one more for a fresh one.
    /// The flush threshold is judged against this size.
    pub open spec fn grown_size_of(&self, k: Seq<char>) -> nat {
        self.mem_entries().len() + if self.mem_get(k) is Some {
            0nat
        } else {
            1nat
        }
    }

    /// The timestamp a write is stored under: the caller's instant when
    /// it is fresh, else one past the newest stamp the engine has seen,
    /// so that store order and timestamp order agree.
    pub open spec fn next_stamp(&self, t: u128) -> u128 {
        if t > self.spec_last_ts() {
            t
        } else {
            (self.spec_last_ts() + 1) as u128
        }
    }

    /// Drains the write buffer into a new run and installs it; when the
    /// run count has reached its bound, the oldest run is merged with the
    /// new one instead and both inputs are retired. The buffer is empty
    /// afterwards; every buffered key, and every key with at most one
    /// home, reads as before.
    #[verifier::rlimit(100)]
    #[verifier::spinoff_prover]
    pub fn flush(&mut self) -> (r: DungeonResult<()>)
        requires
            old(self).wf(),
        ensures
            match r {
                Ok(()) => {
                    &&& final(self).wf()
                    &&& final(self).mem_entries().len() == 0
                    &&& final(self).dir() == old(self).dir()
                    &&& final(self).spec_flush_size() == old(self).spec_flush_size()
                    &&& final(self).spec_max_runs() == old(self).spec_max_runs()
                    &&& final(self).spec_last_ts() == old(self).spec_last_ts()
                    &&& final(self).filter_keys() == old(self).filter_keys()
                    &&& old(self).runs().len() >= old(self).spec_max_runs() ==> final(self).runs().len() == old(self).runs().len()
                    &&& old(self).runs().len() < old(self).spec_max_runs() ==> final(self).runs().len() == old(self).runs().len() + 1
                    &&& forall|k: Seq<char>|
                        (#[trigger] old(self).mem_get(k)) is Some ==> final(self).lookup(k) == old(self).lookup(k)
                    &&& forall|k: Seq<char>|
                        old(self).homes(k) <= 1 ==> #[trigger] final(self).lookup(k) == old(self).lookup(k)
                    &&& old(self).runs().len() < old(self).spec_max_runs() ==> {
                        &&& final(self).runs().drop_last() == old(self).runs()
                        &&& final(self).runs().last().run_entries() == old(self).mem_entries()
                        &&& final(self).runs().last().base_dir@ == old(self).dir()
                        &&& run_files_coherent(final(self).runs().last())
                        &&& run_write_ops(
                            old(self).pending_ops(),
                            final(self).pending_ops(),
                            final(self).runs().last(),
                        )
                    }
                    &&& old(self).runs().len() >= old(self).spec_max_runs() ==> {
                        &&& final(self).runs().len() > 0
                        &&& final(self).runs().drop_last() == old(self).runs().drop_first()
                        &&& exists|t: SSTable|
                            merged_from(
                                old(self).runs()[0],
                                old(self).mem_entries(),
                                old(self).dir(),
                                t,
                                final(self).runs().last(),
                            ) && merge_ops(
                                old(self).pending_ops(),
                                final(self).pending_ops(),
                                old(self).runs()[0],
                                t,
                                final(self).runs().last(),
                            )
                    }
                },
                Err(_) => {
                    &&& max_run_id(old(self).runs()) == u128::MAX || (old(self).runs().len()
                        >= old(self).spec_max_runs() && max_run_id(old(self).runs()) == u128::MAX
                        - 1)
                    &&& final(self).mem_entries() == old(self).mem_entries()
                    &&& final(self).runs() == old(self).runs()
                    &&& final(self).filter_keys() == old(self).filter_keys()
                    &&& final(self).dir() == old(self).dir()
                    &&& final(self).spec_flush_size() == old(self).spec_flush_size()
                    &&& final(self).spec_max_runs() == old(self).spec_max_runs()
                    &&& final(self).spec_last_ts() == old(self).spec_last_ts()
                    &&& final(self).wf()
                },
            },
    {
        let ghost pre = *self;
        let bound: u128 = if self.sstables.len() > 0 {
            self.sstables[self.sstables.len() - 1].id
        } else {
            0
        };
        let id0: u128 = match next_id_above(bound) {
            Some(id) => id,
            None => {
                return Err(DungeonError::new("No fresh run id is left"));
            },
        };
        let merging: bool = self.sstables.len() >= self.max_sstable_count;
        let id1: u128 = if merging {
            match next_id_above(id0) {
                Some(id) => id,
                None => {
                    proof {
                        assert(max_run_id(pre.runs()) == u128::MAX - 1);
                    }
                    return Err(DungeonError::new("No fresh run id is left"));
                },
            }
        } else {
            0
        };
        let ghost memview = self.mem_table.entries_view();
        let drained: Vec<(String, TimeStampedValue)> = self.mem_table.flush();
        let name: String = u128_to_string(id0);
        proof {
            lemma_dec_str_value(id0 as nat);
            lemma_sorted_to_le(memview);
            assert(pairs_view(drained@) == memview);
        }
        let built = SSTable::new(self.dir_path.clone(), name, drained);
        let run: SSTable = match built {
            Ok(t) => t,
            Err(_) => {
                proof {
                    assert(false);
                }
                return Err(DungeonError::new("Could not build run"));
            },
        };
        proof {
            lemma_collapse_strict_id(memview);
            assert(run.run_entries() == memview);
            assert forall|k: Seq<char>| #[trigger] run.spec_get(k) == pre.mem_get(k) by {}
        }
        let ix_bytes: Vec<u8> = crate::ss_table::encode_index(&run.index);
        let data_bytes: Vec<u8> = copy_bytes(&run.data);
        let p1: String = run.get_index_file_path();
        let p2: String = run.get_data_file_path();
        self.pending.push(FileOp::Write { path: p1, bytes: ix_bytes });
        self.pending.push(FileOp::Write { path: p2, bytes: data_bytes });
        proof {
            crate::ss_table::lemma_run_files_round_trip(run);
            assert(run_files_coherent(run));
            assert(self.pending@.subrange(0, pre.pending@.len() as int) =~= pre.pending@);
            assert(run_write_ops(pre.pending@, self.pending@, run));
        }
        if merging {
            let ghost oldruns = self.sstables@;
            let oldest: SSTable = self.sstables.remove(0);
            let merged_name: String = u128_to_string(id1);
            proof {
                lemma_dec_str_value(id1 as nat);
            }
            let merged_r = oldest.merge(&run, merged_name);
            let merged: SSTable = match merged_r {
                Ok(t) => t,
                Err(_) => {
                    proof {
                        assert(false);
                    }
                    return Err(DungeonError::new("Could not merge runs"));
                },
            };
            let q1: String = oldest.get_index_file_path();
            let q2: String = oldest.get_data_file_path();
            let q3: String = run.get_index_file_path();
            let q4: String = run.get_data_file_path();
            let q5: String = merged.get_index_file_path();
            let q6: String = merged.get_data_file_path();
            let m_ix: Vec<u8> = crate::ss_table::encode_index(&merged.index);
            let m_data: Vec<u8> = copy_bytes(&merged.data);
            self.pending.push(FileOp::Remove { path: q1 });
            self.pending.push(FileOp::Remove { path: q2 });
            self.pending.push(FileOp::Remove { path: q3 });
            self.pending.push(FileOp::Remove { path: q4 });
            self.pending.push(FileOp::Write { path: q5, bytes: m_ix });
            self.pending.push(FileOp::Write { path: q6, bytes: m_data });
            self.sstables.push(merged);
            proof {
                let newruns = self.sstables@;
                assert(newruns =~= oldruns.drop_first().push(merged));
                lemma_flush_merge_case(pre, *self, oldest, run, merged, oldruns, id0, id1);
                crate::ss_table::lemma_run_files_round_trip(merged);
                assert(run_files_coherent(merged));
                assert(newruns.last() == merged);
                assert(newruns.drop_last() =~= oldruns.drop_first());
                assert(merged_from(pre.runs()[0], memview, pre.dir(), run, merged));
                assert(self.pending@.subrange(0, pre.pending@.len() as int) =~= pre.pending@);
                assert(merge_ops(pre.pending@, self.pending@, pre.runs()[0], run, merged));
            }
        } else {
            let ghost oldruns = self.sstables@;
            self.sstables.push(run);
            proof {
                let newruns = self.sstables@;
                assert(newruns =~= oldruns.push(run));
                lemma_flush_plain_case(pre, *self, run, oldruns, id0);
                assert(newruns.last() == run);
                assert(newruns.drop_last() =~= oldruns);
            }
        }
        Ok(())
    }
}

/// Strict key order admits the relaxed order the run builder asks for.
proof fn lemma_sorted_to_le(s: Seq<(Seq<char>, TsvView)>)
    requires
        keys_sorted(s),
    ensures
        crate::merge_model::keys_sorted_le(s),
{
    assert forall|i: int, j: int|
        0 <= i < j < s.len() implies !crate::order::lex_lt(s[j].0, s[i].0) by {
        assert(crate::order::lex_lt(s[i].0, s[j].0));
        crate::order::lemma_lex_trichotomy(s[i].0, s[j].0);
    }
}

/// A run holding the key contributes a home.
proof fn lemma_run_homes_ge(runs: Seq<SSTable>, i: int, k: Seq<char>)
    requires
        0 <= i < runs.len(),
        runs[i].spec_get(k) is Some,
    ensures
        run_homes(runs, k) >= 1,
    decreases runs.len(),
{
    assert(runs.last() == runs[runs.len() - 1]);
    if i < runs.len() - 1 {
        assert(runs.drop_last()[i] == runs[i]);
        lemma_run_homes_ge(runs.drop_last(), i, k);
    }
}

/// Two runs holding the key contribute two homes.
proof fn lemma_run_homes_two(runs: Seq<SSTable>, i: int, j: int, k: Seq<char>)
    requires
        0 <= i < j < runs.len(),
        runs[i].spec_get(k) is Some,
        runs[j].spec_get(k) is Some,
    ensures
        run_homes(runs, k) >= 2,
    decreases runs.len(),
{
    assert(runs.last() == runs[runs.len() - 1]);
    if j == runs.len() - 1 {
        assert(runs.drop_last()[i] == runs[i]);
        lemma_run_homes_ge(runs.drop_last(), i, k);
    } else {
        assert(runs.drop_last()[i] == runs[i]);
        assert(runs.drop_last()[j] == runs[j]);
        lemma_run_homes_two(runs.drop_last(), i, j, k);
    }
}

/// With no homes among the runs, no run holds the key.
proof fn lemma_run_homes_zero(runs: Seq<SSTable>, k: Seq<char>)
    requires
        run_homes(runs, k) == 0,
    ensures
        forall|i: int| 0 <= i < runs.len() ==> (#[trigger] runs[i]).spec_get(k) is None,
{
    assert forall|i: int| 0 <= i < runs.len() implies (#[trigger] runs[i]).spec_get(k) is None by {
        if runs[i].spec_get(k) is Some {
            lemma_run_homes_ge(runs, i, k);
        }
    }
}

/// With at most one home among the runs, a run holding the key is alone.
proof fn lemma_run_homes_unique(runs: Seq<SSTable>, i: int, k: Seq<char>)
    requires
        run_homes(runs, k) <= 1,
        0 <= i < runs.len(),
        runs[i].spec_get(k) is Some,
    ensures
        forall|j: int|
            0 <= j < runs.len() && j != i ==> (#[trigger] runs[j]).spec_get(k) is None,
{
    assert forall|j: int|
        0 <= j < runs.len() && j != i implies (#[trigger] runs[j]).spec_get(k) is None by {
        if runs[j].spec_get(k) is Some {
            if j < i {
                lemma_run_homes_two(runs, j, i, k);
            } else {
                lemma_run_homes_two(runs, i, j, k);
            }
        }
    }
}

} // verus!

verus! {

/// Installing a freshly built run behind the drained buffer changes no
/// reading: the run answers exactly as the buffer did.
proof fn lemma_flush_plain_case<F: Filter>(
    pre: Chest<F>,
    post: Chest<F>,
    run: SSTable,
    oldruns: Seq<SSTable>,
    id0: u128,
)
    requires
        pre.wf(),
        oldruns == pre.runs(),
        post.runs() == oldruns.push(run),
        post.mem_entries() == Seq::<(Seq<char>, TsvView)>::empty(),
        post.mem_wf(),
        post.filter_inv(),
        post.filter_keys() == pre.filter_keys(),
        post.dir() == pre.dir(),
        post.spec_flush_size() == pre.spec_flush_size(),
        post.spec_max_runs() == pre.spec_max_runs(),
        post.spec_last_ts() == pre.spec_last_ts(),
        run.wf(),
        run.base_dir@ == pre.dir(),
        run.id == id0,
        forall|i: int| 0 <= i < oldruns.len() ==> (#[trigger] oldruns[i]).id < id0,
        run.run_entries() == pre.mem_entries(),
    ensures
        post.wf(),
        forall|k: Seq<char>| #[trigger] post.lookup(k) == pre.lookup(k),
{
    let newruns = post.runs();
    let m = oldruns.len() as int;
    assert(newruns.len() == m + 1);
    assert(forall|i: int| 0 <= i < m ==> newruns[i] == oldruns[i]);
    assert(newruns[m] == run);
    assert forall|k: Seq<char>| true implies #[trigger] run.spec_get(k) == pre.mem_get(k) by {}
    // well-formedness of the new state
    assert forall|i: int| 0 <= i < newruns.len() implies (#[trigger] newruns[i]).wf() by {}
    assert forall|i: int|
        0 <= i < newruns.len() implies (#[trigger] newruns[i]).base_dir@ == post.dir() by {}
    assert forall|i: int, j: int|
        0 <= i < j < newruns.len() implies newruns[i].id < newruns[j].id by {}
    assert forall|i: int, l: int|
        0 <= i < newruns.len() && 0 <= l < (#[trigger] newruns[i]).run_entries().len() implies (
    #[trigger] newruns[i].run_entries()[l]).1.timestamp <= post.spec_last_ts() by {
        if i == m {
            assert(run.run_entries()[l] == pre.mem_entries()[l]);
            assert(pre.mem_entries().contains(pre.mem_entries()[l]));
        }
    }
    assert forall|i: int, k: Seq<char>|
        0 <= i < newruns.len() && (#[trigger] newruns[i].spec_get(k)) is Some implies
        post.filter_keys().contains(k) by {
        if i == m {
            assert(pre.mem_get(k) is Some);
        }
    }
    assert(post.wf());
    // every reading is preserved
    assert forall|k: Seq<char>| true implies #[trigger] post.lookup(k) == pre.lookup(k) by {
        lemma_lookup_runs_push(oldruns, run, k);
        assert(post.mem_get(k) is None);
    }
}

/// Merging the oldest run with the freshly built one and installing the
/// result keeps the reading of every buffered key and of every key with
/// at most one home.
proof fn lemma_flush_merge_case<F: Filter>(
    pre: Chest<F>,
    post: Chest<F>,
    oldest: SSTable,
    run: SSTable,
    merged: SSTable,
    oldruns: Seq<SSTable>,
    id0: u128,
    id1: u128,
)
    requires
        pre.wf(),
        oldruns == pre.runs(),
        oldruns.len() >= 1,
        oldest == oldruns[0],
        post.runs() == oldruns.drop_first().push(merged),
        post.mem_entries() == Seq::<(Seq<char>, TsvView)>::empty(),
        post.mem_wf(),
        post.filter_inv(),
        post.filter_keys() == pre.filter_keys(),
        post.dir() == pre.dir(),
        post.spec_flush_size() == pre.spec_flush_size(),
        post.spec_max_runs() == pre.spec_max_runs(),
        post.spec_last_ts() == pre.spec_last_ts(),
        run.wf(),
        run.id == id0,
        forall|i: int| 0 <= i < oldruns.len() ==> (#[trigger] oldruns[i]).id < id0,
        run.run_entries() == pre.mem_entries(),
        merged.wf(),
        merged.base_dir@ == pre.dir(),
        merged.id == id1,
        id1 > id0,
        forall|k: Seq<char>|
            #[trigger] merged.spec_get(k) == lww_pick(oldest.spec_get(k), run.spec_get(k)),
    ensures
        post.wf(),
        forall|k: Seq<char>|
            (#[trigger] pre.mem_get(k)) is Some ==> post.lookup(k) == pre.lookup(k),
        forall|k: Seq<char>|
            pre.homes(k) <= 1 ==> #[trigger] post.lookup(k) == pre.lookup(k),
{
    let newruns = post.runs();
    let m = oldruns.len() as int;
    assert(newruns.len() == m);
    assert(forall|j: int| 0 <= j < m - 1 ==> newruns[j] == oldruns[j + 1]);
    assert(newruns[m - 1] == merged);
    assert forall|k: Seq<char>| true implies #[trigger] run.spec_get(k) == pre.mem_get(k) by {}
    // well-formedness
    assert forall|i: int| 0 <= i < newruns.len() implies (#[trigger] newruns[i]).wf() by {}
    assert forall|i: int|
        0 <= i < newruns.len() implies (#[trigger] newruns[i]).base_dir@ == post.dir() by {}
    assert forall|i: int, j: int|
        0 <= i < j < newruns.len() implies newruns[i].id < newruns[j].id by {
        if j == m - 1 {
            assert(newruns[i] == oldruns[i + 1]);
            assert(oldruns[i + 1].id < id0);
        }
    }
    // every merged entry's timestamp is bounded by a stored one
    let me = merged.run_entries();
    crate::ss_table::lemma_run_map_keys(merged.index.entries_view(), merged.data@);
    assert forall|l: int|
        0 <= l < me.len() implies (#[trigger] me[l]).1.timestamp <= pre.spec_last_ts() by {
        crate::sorted_map::lemma_assoc_at(me, l);
        let k = me[l].0;
        assert(merged.spec_get(k) == Some(me[l].1));
        if oldest.spec_get(k) is Some {
            lemma_assoc_present(oldest.run_entries(), k);
            let l0 = choose|l0: int|
                0 <= l0 < oldest.run_entries().len() && oldest.run_entries()[l0].0 == k
                    && oldest.run_entries()[l0].1 == oldest.spec_get(k)->0;
            assert(oldruns[0].run_entries()[l0].1.timestamp <= pre.spec_last_ts());
        }
        if run.spec_get(k) is Some {
            lemma_assoc_present(pre.mem_entries(), k);
            let e = (k, pre.mem_get(k)->0);
            assert(pre.mem_entries().contains(e));
        }
    }
    assert forall|i: int, l: int|
        0 <= i < newruns.len() && 0 <= l < (#[trigger] newruns[i]).run_entries().len() implies (
    #[trigger] newruns[i].run_entries()[l]).1.timestamp <= post.spec_last_ts() by {
        if i < m - 1 {
            assert(newruns[i] == oldruns[i + 1]);
            assert(oldruns[i + 1].run_entries()[l].1.timestamp <= pre.spec_last_ts());
        }
    }
    // the filter still covers every stored key
    assert forall|i: int, k: Seq<char>|
        0 <= i < newruns.len() && (#[trigger] newruns[i].spec_get(k)) is Some implies
        post.filter_keys().contains(k) by {
        if i == m - 1 {
            assert(merged.spec_get(k) == lww_pick(oldest.spec_get(k), run.spec_get(k)));
            if oldest.spec_get(k) is Some {
                assert(oldruns[0].spec_get(k) is Some);
            } else {
                assert(run.spec_get(k) is Some);
                assert(pre.mem_get(k) is Some);
            }
        } else {
            assert(newruns[i] == oldruns[i + 1]);
            assert(oldruns[i + 1].spec_get(k) is Some);
        }
    }
    assert(post.wf());
    // buffered keys keep their reading
    assert forall|k: Seq<char>|
        (#[trigger] pre.mem_get(k)) is Some implies post.lookup(k) == pre.lookup(k) by {
        let v = pre.mem_get(k)->0;
        lemma_lookup_runs_push(oldruns.drop_first(), merged, k);
        assert(post.mem_get(k) is None);
        if oldest.spec_get(k) is Some {
            let w = oldest.spec_get(k)->0;
            lemma_assoc_present(pre.mem_entries(), k);
            let e = (k, v);
            assert(pre.mem_entries().contains(e));
            lemma_assoc_present(oldest.run_entries(), k);
            let l0 = choose|l0: int|
                0 <= l0 < oldest.run_entries().len() && oldest.run_entries()[l0].0 == k
                    && oldest.run_entries()[l0].1 == w;
            assert(oldruns[0].run_entries()[l0] == (k, w));
            assert(v.timestamp > w.timestamp);
            assert(merged.spec_get(k) == Some(v));
        } else {
            assert(merged.spec_get(k) == Some(v));
        }
        assert(post.lookup(k) == Some(v));
    }
    // keys with at most one home keep their reading
    assert forall|k: Seq<char>|
        pre.homes(k) <= 1 implies #[trigger] post.lookup(k) == pre.lookup(k) by {
        if pre.mem_get(k) is Some {
            assert(post.lookup(k) == pre.lookup(k));
        } else {
            assert(run.spec_get(k) is None);
            lemma_lookup_runs_push(oldruns.drop_first(), merged, k);
            assert(post.mem_get(k) is None);
            if oldest.spec_get(k) is Some {
                lemma_run_homes_unique(oldruns, 0, k);
                lemma_lookup_runs_found_at(oldruns, 0, k);
                assert(merged.spec_get(k) == oldest.spec_get(k));
                assert(pre.lookup(k) == oldest.spec_get(k));
                assert(post.lookup(k) == merged.spec_get(k));
            } else {
                assert(merged.spec_get(k) is None);
                lemma_lookup_runs_drop_first(oldruns, k);
                assert(post.lookup(k) == lookup_runs(oldruns.drop_first(), k));
                assert(pre.lookup(k) == lookup_runs(oldruns.drop_first(), k));
            }
        }
    }
}

} // verus!

verus! {

impl<F: Filter> Chest<F> {
    /// Writes a key. The filter learns the key, the write buffer takes
    /// the value under a timestamp that agrees with store order, and a
    /// buffer grown to the flush threshold is flushed. The key then reads
    /// as the written value; other buffered keys and keys with at most
    /// one home read as before.
    pub fn set(&mut self, key: &str, value: TimeStampedValue) -> (r: DungeonResult<()>)
        requires
            old(self).wf(),
        ensures
            match r {
                Ok(()) => {
                    &&& final(self).wf()
                    &&& final(self).dir() == old(self).dir()
                    &&& final(self).spec_flush_size() == old(self).spec_flush_size()
                    &&& final(self).spec_max_runs() == old(self).spec_max_runs()
                    &&& final(self).filter_keys() == old(self).filter_keys().insert(key@)
                    &&& final(self).lookup(key@) == Some(
                        TsvView {
                            timestamp: old(self).next_stamp(value@.timestamp),
                            value: value@.value,
                        },
                    )
                    &&& forall|j: Seq<char>|
                        j != key@ && (#[trigger] old(self).mem_get(j)) is Some ==> final(self).lookup(j) == old(self).lookup(j)
                    &&& forall|j: Seq<char>|
                        j != key@ && old(self).homes(j) <= 1 ==> #[trigger] final(self).lookup(j)
                            == old(self).lookup(j)
                    &&& old(self).runs().len() <= old(self).spec_max_runs() ==> final(self).runs().len() <= final(self).spec_max_runs()
                    &&& old(self).grown_size_of(key@) < old(self).spec_flush_size() ==> {
                        &&& final(self).mem_get(key@) == Some(
                            TsvView {
                                timestamp: old(self).next_stamp(value@.timestamp),
                                value: value@.value,
                            },
                        )
                        &&& final(self).mem_entries().len() == old(self).grown_size_of(key@)
                        &&& final(self).runs() == old(self).runs()
                        &&& final(self).pending_ops() == old(self).pending_ops()
                    }
                    &&& old(self).grown_size_of(key@) >= old(self).spec_flush_size() ==> {
                        &&& final(self).mem_entries().len() == 0
                        &&& old(self).runs().len() < old(self).spec_max_runs() ==> {
                            &&& final(self).runs().len() == old(self).runs().len() + 1
                            &&& final(self).runs().drop_last() == old(self).runs()
                            &&& run_files_coherent(final(self).runs().last())
                            &&& run_write_ops(
                                old(self).pending_ops(),
                                final(self).pending_ops(),
                                final(self).runs().last(),
                            )
                        }
                        &&& old(self).runs().len() >= old(self).spec_max_runs() ==> {
                            &&& final(self).runs().len() == old(self).runs().len()
                            &&& final(self).runs().drop_last() == old(self).runs().drop_first()
                            &&& run_files_coherent(final(self).runs().last())
                            &&& exists|t: SSTable|
                                merge_ops(
                                    old(self).pending_ops(),
                                    final(self).pending_ops(),
                                    old(self).runs()[0],
                                    t,
                                    final(self).runs().last(),
                                )
                        }
                    }
                },
                Err(_) => {
                    &&& final(self).wf()
                    &&& old(self).spec_last_ts() == u128::MAX || max_run_id(old(self).runs())
                        >= u128::MAX - 1
                },
            },
    {
        let ghost pre = *self;
        let TimeStampedValue { timestamp: vts, value: vv } = value;
        let ts: u128 = if vts > self.last_ts {
            vts
        } else {
            if self.last_ts == u128::MAX {
                return Err(DungeonError::new("Timestamp space is exhausted"));
            }
            self.last_ts + 1
        };
        self.filter.insert(key);
        self.last_ts = ts;
        let tv = TimeStampedValue::with_timestamp(vv, ts);
        let ghost tvv = tv@;
        self.mem_table.set(key, tv);
        proof {
            assert(tvv == TsvView { timestamp: pre.next_stamp(value@.timestamp), value: value@.value });
            assert forall|j: Seq<char>| j != key@ implies #[trigger] self.mem_get(j)
                == pre.mem_get(j) by {
                assert(self.mem_table.spec_get(j) == pre.mem_table.spec_get(j));
            }
            lemma_set_mid_state(pre, *self, key@, tvv, ts);
        }
        let ghost mid = *self;
        if self.mem_table.size() >= self.flush_size {
            match self.flush() {
                Ok(()) => {
                    proof {
                        assert(mid.mem_get(key@) == Some(tvv));
                        assert(self.lookup(key@) == mid.lookup(key@));
                        assert forall|j: Seq<char>|
                            j != key@ && (#[trigger] pre.mem_get(j)) is Some implies self.lookup(j)
                            == pre.lookup(j) by {
                            assert(mid.mem_get(j) == pre.mem_get(j));
                            assert(self.lookup(j) == mid.lookup(j));
                        }
                        assert forall|j: Seq<char>|
                            j != key@ && pre.homes(j) <= 1 implies #[trigger] self.lookup(j)
                            == pre.lookup(j) by {
                            assert(mid.homes(j) == pre.homes(j));
                            assert(self.lookup(j) == pre.lookup(j)) by {
                                assert(self.lookup(j) == mid.lookup(j));
                            }
                        }
                        if mid.runs().len() >= mid.spec_max_runs() {
                            let t = choose|t: SSTable|
                                merged_from(
                                    mid.runs()[0],
                                    mid.mem_entries(),
                                    mid.dir(),
                                    t,
                                    self.runs().last(),
                                ) && merge_ops(
                                    mid.pending_ops(),
                                    self.pending_ops(),
                                    mid.runs()[0],
                                    t,
                                    self.runs().last(),
                                );
                            assert(merge_ops(
                                pre.pending_ops(),
                                self.pending_ops(),
                                pre.runs()[0],
                                t,
                                self.runs().last(),
                            ));
                        }
                    }
                    Ok(())
                },
                Err(e) => Err(e),
            }
        } else {
            Ok(())
        }
    }

    /// Deletes a key by writing the internal deletion marker under a
    /// fresh timestamp: the key then reads as absent, whatever its prior
    /// history, while other buffered keys and keys with at most one home
    /// read as before.
    pub fn delete(&mut self, key: &str) -> (r: DungeonResult<()>)
        requires
            old(self).wf(),
        ensures
            match r {
                Ok(()) => {
                    &&& final(self).wf()
                    &&& final(self).user_get(key@) is None
                    &&& final(self).lookup(key@) is Some
                    &&& (final(self).lookup(key@)->0).value is Tombstone
                    &&& old(self).grown_size_of(key@) < old(self).spec_flush_size() ==> {
                        &&& final(self).mem_get(key@) is Some
                        &&& (final(self).mem_get(key@)->0).value is Tombstone
                        &&& final(self).mem_entries().len() == old(self).grown_size_of(key@)
                        &&& final(self).runs() == old(self).runs()
                        &&& final(self).pending_ops() == old(self).pending_ops()
                    }
                    &&& old(self).grown_size_of(key@) >= old(self).spec_flush_size() ==> final(self).mem_entries().len() == 0
                    &&& final(self).dir() == old(self).dir()
                    &&& final(self).spec_flush_size() == old(self).spec_flush_size()
                    &&& final(self).spec_max_runs() == old(self).spec_max_runs()
                    &&& final(self).filter_keys() == old(self).filter_keys().insert(key@)
                    &&& forall|j: Seq<char>|
                        j != key@ && (#[trigger] old(self).mem_get(j)) is Some ==> final(self).lookup(j) == old(self).lookup(j)
                    &&& forall|j: Seq<char>|
                        j != key@ && old(self).homes(j) <= 1 ==> #[trigger] final(self).lookup(j)
                            == old(self).lookup(j)
                    &&& old(self).runs().len() <= old(self).spec_max_runs() ==> final(self).runs().len() <= final(self).spec_max_runs()
                },
                Err(_) => {
                    &&& final(self).wf()
                    &&& old(self).spec_last_ts() == u128::MAX || max_run_id(old(self).runs())
                        >= u128::MAX - 1
                },
            },
    {
        let marker = TimeStampedValue::new(Value::Tombstone);
        self.set(key, marker)
    }
}

/// After a buffered write under a stamp above every stored one, the
/// engine is well-formed again and every other key reads as before.
proof fn lemma_set_mid_state<F: Filter>(
    pre: Chest<F>,
    mid: Chest<F>,
    key: Seq<char>,
    tvv: TsvView,
    ts: u128,
)
    requires
        pre.wf(),
        mid.runs() == pre.runs(),
        mid.dir() == pre.dir(),
        mid.spec_flush_size() == pre.spec_flush_size(),
        mid.spec_max_runs() == pre.spec_max_runs(),
        mid.filter_inv(),
        mid.filter_keys() == pre.filter_keys().insert(key),
        mid.mem_wf(),
        mid.spec_last_ts() == ts,
        ts > pre.spec_last_ts(),
        tvv.timestamp == ts,
        mid.mem_get(key) == Some(tvv),
        forall|j: Seq<char>| j != key ==> #[trigger] mid.mem_get(j) == pre.mem_get(j),
        forall|e: (Seq<char>, TsvView)|
            mid.mem_entries().contains(e) ==> e == (key, tvv) || pre.mem_entries().contains(e),
    ensures
        mid.wf(),
        mid.lookup(key) == Some(tvv),
        forall|j: Seq<char>| j != key ==> #[trigger] mid.lookup(j) == pre.lookup(j),
        forall|j: Seq<char>| j != key ==> #[trigger] mid.homes(j) == pre.homes(j),
{
    assert forall|e: (Seq<char>, TsvView)|
        mid.mem_entries().contains(e) implies (#[trigger] e.1).timestamp
        <= mid.spec_last_ts() by {
        if e != (key, tvv) {
            assert(pre.mem_entries().contains(e));
        }
    }
    assert forall|e: (Seq<char>, TsvView), i: int, l: int|
        mid.mem_entries().contains(e) && 0 <= i < mid.runs().len() && 0 <= l < (
    #[trigger] mid.runs()[i]).run_entries().len() implies (#[trigger] e.1).timestamp > (
    #[trigger] mid.runs()[i].run_entries()[l]).1.timestamp by {
        assert(mid.runs()[i].run_entries()[l].1.timestamp <= pre.spec_last_ts());
        if e != (key, tvv) {
            assert(pre.mem_entries().contains(e));
        }
    }
    assert forall|k: Seq<char>|
        (#[trigger] mid.mem_get(k)) is Some implies mid.filter_keys().contains(k) by {
        if k != key {
            assert(pre.mem_get(k) is Some);
        }
    }
    assert forall|i: int, k: Seq<char>|
        0 <= i < mid.runs().len() && (#[trigger] mid.runs()[i].spec_get(k)) is Some implies
        mid.filter_keys().contains(k) by {
        assert(pre.runs()[i].spec_get(k) is Some);
    }
    assert(mid.wf());
    assert forall|j: Seq<char>| j != key implies #[trigger] mid.lookup(j) == pre.lookup(j) by {}
    assert forall|j: Seq<char>| j != key implies #[trigger] mid.homes(j) == pre.homes(j) by {}
}

} // verus!

verus! {

/// Whether a run was opened from the given file pair under the given
/// directory.
pub open spec fn run_from_file(t: SSTable, f: RunFile, dir: Seq<char>) -> bool {
    &&& t.base_dir@ == dir
    &&& t.file_name@ == f.stem@
    &&& t.data@ == f.data_bytes@
    &&& Some(t.index.entries_view()) == crate::ss_table::dec_index_exact(f.index_bytes@)
    &&& Some(t.id as nat) == digits_value(f.stem@)
}

/// Whether some file read opens to the given run.
pub open spec fn has_source(t: SSTable, files: Seq<RunFile>, dir: Seq<char>) -> bool {
    exists|j: int| 0 <= j < files.len() && run_from_file(t, files[j], dir)
}

/// Every run comes from one of the files read.
pub open spec fn runs_from_files(runs: Seq<SSTable>, files: Seq<RunFile>, dir: Seq<char>) -> bool {
    forall|i: int| 0 <= i < runs.len() ==> has_source(#[trigger] runs[i], files, dir)
}

/// Whether a directory's run files can open: each file pair is coherent
/// and no two share an id.
pub open spec fn open_files_ok(files: Seq<RunFile>) -> bool {
    &&& forall|j: int|
        0 <= j < files.len() ==> crate::ss_table::run_file_ok(
            (#[trigger] files[j]).stem@,
            files[j].index_bytes@,
            files[j].data_bytes@,
        )
    &&& forall|j1: int, j2: int|
        0 <= j1 < j2 < files.len() ==> digits_value((#[trigger] files[j1]).stem@) != digits_value(
            (#[trigger] files[j2]).stem@,
        )
}

/// Opens every run file pair and builds the run collection, ascending
/// by id. Fails exactly when a pair is incoherent or two runs share an
/// id.
#[verifier::rlimit(100)]
#[verifier::spinoff_prover]
fn open_runs(dir_path: &str, run_files: &Vec<RunFile>) -> (r: DungeonResult<Vec<SSTable>>)
    ensures
        match r {
            Ok(runs) => {
                &&& forall|j: int|
                    0 <= j < run_files@.len() ==> crate::ss_table::run_file_ok(
                        (#[trigger] run_files@[j]).stem@,
                        run_files@[j].index_bytes@,
                        run_files@[j].data_bytes@,
                    )
                &&& runs@.len() == run_files@.len()
                &&& forall|i: int| 0 <= i < runs@.len() ==> (#[trigger] runs@[i]).wf()
                &&& forall|i: int|
                    0 <= i < runs@.len() ==> (#[trigger] runs@[i]).base_dir@ == dir_path@
                &&& forall|a: int, b: int|
                    0 <= a < b < runs@.len() ==> runs@[a].id < runs@[b].id
                &&& runs_from_files(runs@, run_files@, dir_path@)
            },
            Err(_) => !open_files_ok(run_files@),
        },
{
    let n: usize = run_files.len();
    let mut runs: Vec<SSTable> = Vec::new();
    let mut j: usize = 0;
    while j < n
        invariant
            j <= n,
            n == run_files@.len(),
            runs@.len() == j,
            forall|i: int| 0 <= i < runs@.len() ==> (#[trigger] runs@[i]).wf(),
            forall|i: int|
                0 <= i < runs@.len() ==> (#[trigger] runs@[i]).base_dir@ == dir_path@,
            forall|a: int, b: int| 0 <= a < b < runs@.len() ==> runs@[a].id < runs@[b].id,
            forall|i: int|
                0 <= i < runs@.len() ==> exists|j2: int|
                    0 <= j2 < j && run_from_file(#[trigger] runs@[i], run_files@[j2], dir_path@),
            forall|j2: int|
                0 <= j2 < j ==> crate::ss_table::run_file_ok(
                    (#[trigger] run_files@[j2]).stem@,
                    run_files@[j2].index_bytes@,
                    run_files@[j2].data_bytes@,
                ),
        decreases n - j,
    {
        let f: &RunFile = &run_files[j];
        let stem: String = f.stem.clone();
        let data_copy: Vec<u8> = copy_bytes(&f.data_bytes);
        let dir_owned: String = dir_path.to_owned();
        let opened = SSTable::from_file(dir_owned, stem, f.index_bytes.as_slice(), data_copy);
        let t: SSTable = match opened {
            Ok(t) => t,
            Err(e) => {
                proof {
                    assert(!crate::ss_table::run_file_ok(
                        run_files@[j as int].stem@,
                        run_files@[j as int].index_bytes@,
                        run_files@[j as int].data_bytes@,
                    ));
                    assert(!open_files_ok(run_files@));
                }
                return Err(e);
            },
        };
        // find the sorted position for the new run's id
        let m: usize = runs.len();
        let mut pos: usize = 0;
        while pos < m && runs[pos].id < t.id
            invariant
                pos <= m,
                m == runs@.len(),
                forall|a: int| 0 <= a < pos ==> (#[trigger] runs@[a]).id < t.id,
            decreases m - pos,
        {
            pos = pos + 1;
        }
        if pos < m {
            let other_id: u128 = runs[pos].id;
            if other_id == t.id {
                proof {
                    let i0 = pos as int;
                    let jw = choose|j2: int|
                        0 <= j2 < j && run_from_file(runs@[i0], run_files@[j2], dir_path@);
                    assert(digits_value(run_files@[jw].stem@) == digits_value(
                        run_files@[j as int].stem@,
                    ));
                    assert(!open_files_ok(run_files@));
                }
                return Err(DungeonError::new("Two runs share an id"));
            }
        }
        let ghost oldrunsv = runs@;
        runs.insert(pos, t);
        proof {
            lemma_step_sorted(oldrunsv, runs@, t, pos as int);
            lemma_step_runs_to_files(
                oldrunsv,
                runs@,
                t,
                run_files@,
                dir_path@,
                pos as int,
                j as int,
            );
        }
        j = j + 1;
    }
    proof {
        assert forall|i: int|
            0 <= i < runs@.len() implies has_source(#[trigger] runs@[i], run_files@, dir_path@) by {
            let ri = runs@[i];
            assert(exists|j2: int|
                0 <= j2 < j && run_from_file(#[trigger] runs@[i], run_files@[j2], dir_path@));
            let jw = choose|j2: int|
                0 <= j2 < j && run_from_file(runs@[i], run_files@[j2], dir_path@);
            assert(0 <= jw < run_files@.len() && run_from_file(
                runs@[i],
                run_files@[jw],
                dir_path@,
            ));
        }
    }
    Ok(runs)
}

/// Feeds every key of every run to the filter and finds the newest
/// stored stamp.
fn seed_filter<F: Filter>(runs: &Vec<SSTable>, filter: F) -> (r: (F, u128))
    requires
        filter.inv(),
        forall|i: int| 0 <= i < runs@.len() ==> (#[trigger] runs@[i]).wf(),
    ensures
        r.0.inv(),
        runs@.len() == 0 ==> r.1 == 0,
        forall|i2: int, k: Seq<char>|
            0 <= i2 < runs@.len() && (#[trigger] runs@[i2].spec_get(k)) is Some ==> r.0.keys().contains(
                k,
            ),
        forall|i2: int, l: int|
            0 <= i2 < runs@.len() && 0 <= l < (#[trigger] runs@[i2]).run_entries().len() ==> (
            #[trigger] runs@[i2].run_entries()[l]).1.timestamp <= r.1,
{
    let mut filter = filter;
    let mut last_ts: u128 = 0;
    let rcount: usize = runs.len();
    let mut i: usize = 0;
    while i < rcount
        invariant
            i <= rcount,
            rcount == runs@.len(),
            rcount == 0 ==> last_ts == 0,
            filter.inv(),
            forall|i2: int| 0 <= i2 < runs@.len() ==> (#[trigger] runs@[i2]).wf(),
            forall|i2: int, k: Seq<char>|
                0 <= i2 < i && (#[trigger] runs@[i2].spec_get(k)) is Some
                    ==> filter.keys().contains(k),
            forall|i2: int, l: int|
                0 <= i2 < i && 0 <= l < (#[trigger] runs@[i2]).run_entries().len() ==> (
                #[trigger] runs@[i2].run_entries()[l]).1.timestamp <= last_ts,
        decreases rcount - i,
    {
        let entries: Vec<(String, TimeStampedValue)> = runs[i].all_entries();
        let ecount: usize = entries.len();
        let mut l: usize = 0;
        while l < ecount
            invariant
                l <= ecount,
                i < rcount,
                rcount == runs@.len(),
                ecount == entries@.len(),
                filter.inv(),
                pairs_view(entries@) == runs@[i as int].run_entries(),
                forall|i2: int| 0 <= i2 < runs@.len() ==> (#[trigger] runs@[i2]).wf(),
                forall|i2: int, k: Seq<char>|
                    0 <= i2 < i && (#[trigger] runs@[i2].spec_get(k)) is Some
                        ==> filter.keys().contains(k),
                forall|l2: int|
                    0 <= l2 < l ==> filter.keys().contains((#[trigger] entries@[l2]).0@),
                forall|i2: int, l2: int|
                    0 <= i2 < i && 0 <= l2 < (#[trigger] runs@[i2]).run_entries().len() ==> (
                    #[trigger] runs@[i2].run_entries()[l2]).1.timestamp <= last_ts,
                forall|l2: int|
                    0 <= l2 < l ==> (#[trigger] entries@[l2]).1.timestamp <= last_ts,
            decreases ecount - l,
        {
            let key_ref: &str = entries[l].0.as_str();
            filter.insert(key_ref);
            if entries[l].1.timestamp > last_ts {
                last_ts = entries[l].1.timestamp;
            }
            l = l + 1;
        }
        proof {
            assert forall|k: Seq<char>|
                (#[trigger] runs@[i as int].spec_get(k)) is Some implies filter.keys().contains(
                k,
            ) by {
                lemma_assoc_present(runs@[i as int].run_entries(), k);
                let lw = choose|lw: int|
                    0 <= lw < runs@[i as int].run_entries().len() && runs@[
                        i as int
                    ].run_entries()[lw].0 == k;
                assert(entries@[lw].0@ == k);
            }
            assert forall|l2: int|
                0 <= l2 < (#[trigger] runs@[i as int]).run_entries().len() implies runs@[
                i as int
            ].run_entries()[l2].1.timestamp <= last_ts by {
                assert(pairs_view(entries@)[l2] == runs@[i as int].run_entries()[l2]);
            }
        }
        i = i + 1;
    }
    (filter, last_ts)
}

impl<F: Filter> Chest<F> {
    /// Opens an engine over a directory: one run per index file read
    /// back, every index key fed to the filter, the write buffer empty.
    /// Fails exactly when some file pair is incoherent or two runs share
    /// an id.
    pub fn new(
        dir_path: &str,
        flush_size: usize,
        max_sstable_count: usize,
        filter: F,
        run_files: Vec<RunFile>,
    ) -> (r: DungeonResult<Chest<F>>)
        requires
            flush_size >= 1,
            max_sstable_count >= 1,
            filter.inv(),
            filter.keys() == Set::<Seq<char>>::empty(),
        ensures
            match r {
                Ok(c) => {
                    &&& forall|j: int|
                        0 <= j < run_files@.len() ==> crate::ss_table::run_file_ok(
                            (#[trigger] run_files@[j]).stem@,
                            run_files@[j].index_bytes@,
                            run_files@[j].data_bytes@,
                        )
                    &&& c.wf()
                    &&& c.dir() == dir_path@
                    &&& c.spec_flush_size() == flush_size as nat
                    &&& c.spec_max_runs() == max_sstable_count as nat
                    &&& c.mem_entries().len() == 0
                    &&& c.pending_ops().len() == 0
                    &&& c.runs().len() == run_files@.len()
                    &&& runs_from_files(c.runs(), run_files@, dir_path@)
                    &&& run_files@.len() == 0 ==> c.spec_last_ts() == 0
                },
                Err(_) => !open_files_ok(run_files@),
            },
    {
        let runs: Vec<SSTable> = match open_runs(dir_path, &run_files) {
            Ok(runs) => runs,
            Err(e) => {
                return Err(e);
            },
        };
        let (filter, last_ts) = seed_filter(&runs, filter);
        let chest = Chest {
            dir_path: dir_path.to_owned(),
            mem_table: MemTable::new(),
            flush_size,
            max_sstable_count,
            sstables: runs,
            filter,
            last_ts,
            pending: Vec::new(),
        };
        proof {
            assert(chest.runs() == chest.sstables@);
            assert(runs_from_files(chest.runs(), run_files@, dir_path@));
            assert(chest.mem_entries().len() == 0);
            assert(forall|e: (Seq<char>, TsvView)| !chest.mem_entries().contains(e));
            assert forall|k: Seq<char>|
                (#[trigger] chest.mem_get(k)) is Some implies chest.filter_keys().contains(
                k,
            ) by {
                lemma_assoc_present(chest.mem_entries(), k);
            }
            assert(chest.wf());
        }
        Ok(chest)
    }
}

} // verus!

verus! {

/// One step of opening a directory: the id order after the insertion.
#[verifier::spinoff_prover]
proof fn lemma_step_sorted(oldrunsv: Seq<SSTable>, newrunsv: Seq<SSTable>, t: SSTable, pos: int)
    requires
        0 <= pos <= oldrunsv.len(),
        newrunsv == oldrunsv.insert(pos, t),
        forall|a: int, b: int| 0 <= a < b < oldrunsv.len() ==> oldrunsv[a].id < oldrunsv[b].id,
        forall|a: int| 0 <= a < pos ==> (#[trigger] oldrunsv[a]).id < t.id,
        pos < oldrunsv.len() ==> oldrunsv[pos].id > t.id,
    ensures
        forall|a: int, b: int| 0 <= a < b < newrunsv.len() ==> newrunsv[a].id < newrunsv[b].id,
{
    assert(newrunsv[pos] == t);
    assert(forall|i: int| 0 <= i < pos ==> newrunsv[i] == oldrunsv[i]);
    assert(forall|i: int| pos < i < newrunsv.len() ==> newrunsv[i] == oldrunsv[i - 1]);
    assert forall|a: int, b: int|
        0 <= a < b < newrunsv.len() implies newrunsv[a].id < newrunsv[b].id by {
        if a == pos && b > pos {
            assert(newrunsv[b] == oldrunsv[b - 1]);
            assert(oldrunsv[pos].id <= oldrunsv[b - 1].id);
        }
    }
}

/// One step of opening a directory: every run still comes from a file.
#[verifier::spinoff_prover]
proof fn lemma_step_runs_to_files(
    oldrunsv: Seq<SSTable>,
    newrunsv: Seq<SSTable>,
    t: SSTable,
    files: Seq<RunFile>,
    dir: Seq<char>,
    pos: int,
    j: int,
)
    requires
        0 <= pos <= oldrunsv.len(),
        0 <= j < files.len(),
        newrunsv == oldrunsv.insert(pos, t),
        run_from_file(t, files[j], dir),
        forall|i: int|
            0 <= i < oldrunsv.len() ==> exists|j2: int|
                0 <= j2 < j && run_from_file(#[trigger] oldrunsv[i], files[j2], dir),
    ensures
        forall|i: int|
            0 <= i < newrunsv.len() ==> exists|j2: int|
                0 <= j2 < j + 1 && run_from_file(#[trigger] newrunsv[i], files[j2], dir),
{
    assert(newrunsv[pos] == t);
    assert forall|i: int|
        0 <= i < newrunsv.len() implies exists|j2: int|
        0 <= j2 < j + 1 && run_from_file(#[trigger] newrunsv[i], files[j2], dir) by {
        if i < pos {
            assert(newrunsv[i] == oldrunsv[i]);
            let jw = choose|j2: int|
                0 <= j2 < j && run_from_file(oldrunsv[i], files[j2], dir);
            assert(run_from_file(newrunsv[i], files[jw], dir));
        } else if i == pos {
            assert(run_from_file(newrunsv[i], files[j], dir));
        } else {
            assert(newrunsv[i] == oldrunsv[i - 1]);
            let jw = choose|j2: int|
                0 <= j2 < j && run_from_file(oldrunsv[i - 1], files[j2], dir);
            assert(run_from_file(newrunsv[i], files[jw], dir));
        }
    }
}



} // verus!

verus! {

/// Filter soundness: a key the filter does not claim is stored nowhere,
/// so it reads as absent without any disk work.
pub proof fn lemma_filter_soundness<F: Filter>(c: Chest<F>, k: Seq<char>)
    requires
        c.wf(),
        !c.filter_keys().contains(k),
    ensures
        c.lookup(k) is None,
        c.user_get(k) is None,
{
    assert(c.mem_get(k) is None);
    assert(forall|i: int|
        0 <= i < c.runs().len() ==> (#[trigger] c.runs()[i]).spec_get(k) is None);
    lemma_lookup_runs_none(c.runs(), k);
}

} // verus!
