//! The hash pipeline's verified core.
//!
//! Workers read files and compute digests; a single writer consumes their
//! results and appends to the journal. The file reads, the threads and the
//! channel live with the caller; this module owns what they must agree on:
//! the digest of a byte sequence, and the one consumer's state machine,
//! which alone touches the journal — the single-writer discipline is
//! enforced by construction, since the journal is handed only to
//! `consume_message`.

use vstd::prelude::*;
use sha2::Digest;
use crate::codec;
use crate::codec::DIGEST_BYTES;
use crate::codec::HashType;
use crate::differ;
use crate::file_journal::FileJournal;
use crate::path_walker;

verus! {

/// The 512-bit digest of a byte sequence. The value is fixed by the bytes
/// alone; it is named, not spelled out, and everything downstream is proved
/// against the name.
pub uninterp spec fn sha512_of(bytes: Seq<u8>) -> Seq<u8>;

/// An incremental hasher. It holds sha2's `Sha512` state, so a file can be
/// streamed through it in bounded-size chunks and never buffered whole;
/// Verus sees the state only through `absorbed_of`. (The struct is opaque
/// because `Sha512` names a generic outside type whose declaration Verus
/// refuses.)
#[verifier::external_body]
pub struct Sha512Stream {
    inner: sha2::Sha512,
}

/// The bytes a hasher has absorbed so far, in order.
pub uninterp spec fn absorbed_of(h: Sha512Stream) -> Seq<u8>;

/// Relies on sha2's `Sha512::new` (the `Digest` trait): a fresh hasher has
/// processed no input.
#[verifier::external_body]
pub fn sha512_new() -> (h: Sha512Stream)
    ensures
        absorbed_of(h) == Seq::<u8>::empty(),
{
    Sha512Stream { inner: sha2::Sha512::new() }
}

/// Relies on sha2's `Digest::update`: processing a chunk appends it to the
/// input the hasher has absorbed.
#[verifier::external_body]
pub fn sha512_update(h: &mut Sha512Stream, chunk: &[u8])
    ensures
        absorbed_of(*final(h)) == absorbed_of(*old(h)) + chunk@,
{
    h.inner.update(chunk);
}

/// Relies on sha2's `Digest::finalize`: the digest of everything absorbed,
/// a pure function of those bytes, 64 bytes long.
#[verifier::external_body]
pub fn sha512_finalize(h: Sha512Stream) -> (r: Vec<u8>)
    ensures
        r@ == sha512_of(absorbed_of(h)),
        r@.len() == DIGEST_BYTES,
{
    h.inner.finalize().to_vec()
}

/// The byte sequence a list of chunks denotes, in order.
pub open spec fn concat_chunks(chunks: Seq<Seq<u8>>) -> Seq<u8>
    decreases chunks.len(),
{
    if chunks.len() == 0 {
        Seq::empty()
    } else {
        concat_chunks(chunks.drop_last()) + chunks.last()
    }
}

/// Digest a file's content handed over as a list of chunks. The result is
/// the digest of the chunks' concatenation — it does not depend on how the
/// content was split — and the chunks are streamed through the hasher one
/// at a time, never joined in memory.
pub fn hash_file(chunks: &Vec<Vec<u8>>) -> (h: Vec<u8>)
    ensures
        h@ == sha512_of(concat_chunks(chunks.deep_view())),
        h@.len() == DIGEST_BYTES,
{
    let ghost all = chunks.deep_view();
    let mut hasher = sha512_new();
    let mut i: usize = 0;
    proof {
        assert(all.take(0) =~= Seq::<Seq<u8>>::empty());
        assert(absorbed_of(hasher) =~= concat_chunks(all.take(0)));
    }
    while i < chunks.len()
        invariant
            i <= chunks@.len(),
            all == chunks.deep_view(),
            all.len() == chunks@.len(),
            forall|k: int| 0 <= k < chunks@.len() ==> all[k] == #[trigger] chunks@[k]@,
            absorbed_of(hasher) == concat_chunks(all.take(i as int)),
        decreases chunks@.len() - i,
    {
        sha512_update(&mut hasher, chunks[i].as_slice());
        proof {
            assert(all.take(i + 1 as int).drop_last() =~= all.take(i as int));
            assert(all.take(i + 1 as int).last() == all[i as int]);
            assert(absorbed_of(hasher) =~= concat_chunks(all.take(i + 1 as int)));
        }
        i = i + 1;
    }
    proof {
        assert(all.take(all.len() as int) =~= all);
    }
    sha512_finalize(hasher)
}

/// One worker's result for one file: the digest of the content it read,
/// and the modification time it observed at completion.
pub struct HashResult {
    pub hash: Vec<u8>,
    pub hash_type: HashType,
    pub filename: String,
    pub modified: u64,
}

/// What flows over the channel from the hashing workers to the one writer:
/// a result, or a worker's completion signal.
pub enum JournalWriteMessageEnum {
    Finished,
    Message(HashResult),
}

/// A result the writer can record: a digest of the algorithm's exact width,
/// and a path that fits on one journal line.
pub open spec fn message_ok(msg: JournalWriteMessageEnum) -> bool {
    match msg {
        JournalWriteMessageEnum::Finished => true,
        JournalWriteMessageEnum::Message(r) => r.hash@.len() == DIGEST_BYTES
            && !r.filename@.contains('\n'),
    }
}

/// The one consumer of the hash pipeline's channel. It counts the workers'
/// completion signals and is done once every worker has signalled; every
/// result it consumes turns into exactly one appended add/modify line.
pub struct JournalWriter {
    pub thread_count: usize,
    pub finished_threads: usize,
}

impl JournalWriter {
    pub open spec fn wf(&self) -> bool {
        self.finished_threads <= self.thread_count
    }

    pub open spec fn done(&self) -> bool {
        self.finished_threads == self.thread_count
    }

    /// A writer awaiting results from `thread_count` workers.
    pub fn new(thread_count: usize) -> (w: JournalWriter)
        ensures
            w.wf(),
            w.thread_count == thread_count,
            w.finished_threads == 0,
    {
        JournalWriter { thread_count, finished_threads: 0 }
    }

    /// Has every worker signalled completion?
    pub fn is_done(&self) -> (b: bool)
        ensures
            b == self.done(),
    {
        self.finished_threads == self.thread_count
    }

    /// Consume one message from the channel. A result is appended to the
    /// journal — one line per result, `A` or `M` by prior membership — and
    /// the returned line must be written to the log by the caller, which
    /// owns the file handle. A completion signal only counts up.
    pub fn consume_message(
        &mut self,
        file_journal: &mut FileJournal,
        msg: JournalWriteMessageEnum,
    ) -> (line: Option<String>)
        requires
            old(self).wf(),
            !old(self).done(),
            old(file_journal).wf(),
            message_ok(msg),
        ensures
            final(self).wf(),
            final(self).thread_count == old(self).thread_count,
            final(file_journal).wf(),
            final(file_journal).skipped == old(file_journal).skipped,
            match msg {
                JournalWriteMessageEnum::Finished => {
                    &&& line is None
                    &&& final(self).finished_threads == old(self).finished_threads + 1
                    &&& *final(file_journal) == *old(file_journal)
                },
                JournalWriteMessageEnum::Message(r) => {
                    &&& final(self).finished_threads == old(self).finished_threads
                    &&& final(file_journal).snapshot() == old(file_journal).snapshot().insert(
                        r.filename@,
                        (r.modified, r.hash@),
                    )
                    &&& line matches Some(l) && l@ == codec::upsert_line_spec(
                        old(file_journal).snapshot().contains_key(r.filename@),
                        r.hash@,
                        r.modified,
                        r.filename@,
                    )
                },
            },
    {
        match msg {
            JournalWriteMessageEnum::Finished => {
                self.finished_threads = self.finished_threads + 1;
                None
            },
            JournalWriteMessageEnum::Message(r) => {
                let line = file_journal.write_update_or_add_file(
                    &r.filename,
                    r.hash_type,
                    r.hash.as_slice(),
                    r.modified,
                );
                Some(line)
            },
        }
    }
}

// ---------------------------------------------------------------------------
// Single-writer safety
// ---------------------------------------------------------------------------

/// The snapshot after the writer has consumed a batch of results, each a
/// (path, modified, digest) triple, in the order the channel delivered them.
pub open spec fn apply_results(
    m: Map<Seq<char>, (u64, Seq<u8>)>,
    rs: Seq<(Seq<char>, u64, Seq<u8>)>,
) -> Map<Seq<char>, (u64, Seq<u8>)>
    decreases rs.len(),
{
    if rs.len() == 0 {
        m
    } else {
        apply_results(m, rs.drop_last()).insert(rs.last().0, (rs.last().1, rs.last().2))
    }
}

/// Single-writer safety: consuming results for distinct paths — in whatever
/// order the workers delivered them — records every path exactly once, with
/// exactly the digest and modified time its worker computed, and touches no
/// other path.
pub proof fn lemma_single_writer_safety(
    m: Map<Seq<char>, (u64, Seq<u8>)>,
    rs: Seq<(Seq<char>, u64, Seq<u8>)>,
)
    requires
        forall|i: int, j: int| 0 <= i < j < rs.len() ==> (#[trigger] rs[i]).0 != (#[trigger] rs[j]).0,
    ensures
        forall|k: int| 0 <= k < rs.len() ==> apply_results(m, rs).contains_key((#[trigger] rs[k]).0)
            && apply_results(m, rs)[rs[k].0] == (rs[k].1, rs[k].2),
        forall|p: Seq<char>| apply_results(m, rs).contains_key(p)
            <==> m.contains_key(p) || exists|k: int| 0 <= k < rs.len() && (#[trigger] rs[k]).0 == p,
        forall|p: Seq<char>| m.contains_key(p)
            && !(exists|k: int| 0 <= k < rs.len() && (#[trigger] rs[k]).0 == p)
            ==> apply_results(m, rs)[p] == m[p],
    decreases rs.len(),
{
    if rs.len() > 0 {
        lemma_single_writer_safety(m, rs.drop_last());
        assert forall|k: int| 0 <= k < rs.len() implies
            apply_results(m, rs).contains_key((#[trigger] rs[k]).0)
                && apply_results(m, rs)[rs[k].0] == (rs[k].1, rs[k].2) by {
            if k < rs.len() - 1 {
                assert(rs.drop_last()[k] == rs[k]);
                assert(rs[k].0 != rs.last().0);
            }
        }
        assert forall|p: Seq<char>| apply_results(m, rs).contains_key(p)
            <==> m.contains_key(p) || exists|k: int| 0 <= k < rs.len() && (#[trigger] rs[k]).0 == p by {
            if p == rs.last().0 {
                assert(rs[rs.len() - 1].0 == p);
            } else {
                if exists|k: int| 0 <= k < rs.drop_last().len() && (#[trigger] rs.drop_last()[k]).0 == p {
                    let k = choose|k: int| 0 <= k < rs.drop_last().len() && (#[trigger] rs.drop_last()[k]).0 == p;
                    assert(rs[k].0 == p);
                }
                if exists|k: int| 0 <= k < rs.len() && (#[trigger] rs[k]).0 == p {
                    let k = choose|k: int| 0 <= k < rs.len() && (#[trigger] rs[k]).0 == p;
                    assert(rs.drop_last()[k].0 == p);
                }
            }
        }
        assert forall|p: Seq<char>| m.contains_key(p)
            && !(exists|k: int| 0 <= k < rs.len() && (#[trigger] rs[k]).0 == p)
            implies apply_results(m, rs)[p] == m[p] by {
            assert(rs[rs.len() - 1].0 != p);
            if exists|k: int| 0 <= k < rs.drop_last().len() && (#[trigger] rs.drop_last()[k]).0 == p {
                let k = choose|k: int| 0 <= k < rs.drop_last().len() && (#[trigger] rs.drop_last()[k]).0 == p;
                assert(rs[k].0 == p);
            }
        }
    }
}

/// Idempotent re-run, end to end: start from any snapshot, remove what was
/// not observed (as `process_missing_files` leaves the journal), then record
/// a result for every path the differ selected — each at its observed
/// modification time, each path once. Against the unchanged observation, a
/// second diff then selects nothing to hash and nothing to delete.
pub proof fn lemma_full_run_idempotent(
    m0: Map<Seq<char>, (u64, Seq<u8>)>,
    o: Seq<path_walker::FileData>,
    rs: Seq<(Seq<char>, u64, Seq<u8>)>,
)
    requires
        differ::observed_wf(o),
        forall|i: int, j: int| 0 <= i < j < rs.len() ==> (#[trigger] rs[i]).0 != (#[trigger] rs[j]).0,
        forall|k: int| 0 <= k < rs.len() ==> differ::obs_has(o, (#[trigger] rs[k]).0)
            && rs[k].1 == differ::obs_modified(o, rs[k].0),
        forall|p: Seq<char>|
            differ::needs_hash(m0.restrict(differ::obs_key_set(o)), o, p)
                ==> exists|k: int| 0 <= k < rs.len() && (#[trigger] rs[k]).0 == p,
    ensures
        differ::to_hash_set(apply_results(m0.restrict(differ::obs_key_set(o)), rs), o)
            =~= Set::<Seq<char>>::empty(),
        differ::to_delete_set(apply_results(m0.restrict(differ::obs_key_set(o)), rs), o)
            =~= Set::<Seq<char>>::empty(),
{
    let m1 = m0.restrict(differ::obs_key_set(o));
    let m2 = apply_results(m1, rs);
    lemma_single_writer_safety(m1, rs);
    assert forall|i: int| 0 <= i < o.len() implies m2.contains_key(#[trigger] o[i].filename@)
        && m2[o[i].filename@].0 >= o[i].modified by {
        let p = o[i].filename@;
        differ::lemma_obs_at(o, i);
        if differ::needs_hash(m1, o, p) {
            let k = choose|k: int| 0 <= k < rs.len() && (#[trigger] rs[k]).0 == p;
            assert(m2.contains_key(p) && m2[p] == (rs[k].1, rs[k].2));
            assert(m2[p].0 == differ::obs_modified(o, p));
        } else {
            assert(m1.contains_key(p) && m1[p].0 >= o[i].modified);
            if exists|k: int| 0 <= k < rs.len() && (#[trigger] rs[k]).0 == p {
                let k = choose|k: int| 0 <= k < rs.len() && (#[trigger] rs[k]).0 == p;
                assert(m2[p] == (rs[k].1, rs[k].2));
                assert(m2[p].0 == differ::obs_modified(o, p));
            } else {
                assert(m2[p] == m1[p]);
            }
        }
    }
    assert forall|p: Seq<char>| #[trigger] m2.contains_key(p) implies differ::obs_has(o, p) by {
        if m1.contains_key(p) {
            assert(differ::obs_key_set(o).contains(p));
        } else {
            let k = choose|k: int| 0 <= k < rs.len() && (#[trigger] rs[k]).0 == p;
        }
    }
    differ::lemma_idempotent_rerun(m2, o);
}

} // verus!
