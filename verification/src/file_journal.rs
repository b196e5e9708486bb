//! The journal's in-memory snapshot and its replay semantics.
//!
//! The on-disk journal is an append-only sequence of lines. Replaying every
//! decodable line in order — last write per path wins, deletes remove the
//! path — rebuilds the snapshot: a mapping from path to its last recorded
//! state. A line that fails to decode is skipped and counted, never fatal,
//! so a corrupted trailing line cannot block access to the prior history.
//!
//! This module holds no file handle: the caller reads the log's lines and
//! writes back the lines that the append operations here return, flushing
//! each one before relying on it.

use vstd::prelude::*;
use crate::codec;
use crate::codec::DIGEST_BYTES;
use crate::codec::HashType;
use crate::codec::JournalEntry;

verus! {

/// The journal's record for one live path.
pub struct FileData {
    pub filename: String,
    pub modified: u64,
    pub digest: Vec<u8>,
}

impl FileData {
    pub fn new(filename: String, modified: u64, digest: Vec<u8>) -> (r: FileData)
        ensures
            r.filename == filename,
            r.modified == modified,
            r.digest == digest,
    {
        FileData { filename, modified, digest }
    }

    /// The recorded modification time, in seconds since the epoch.
    pub fn get_modified(&self) -> (m: u64)
        ensures
            m == self.modified,
    {
        self.modified
    }
}

// ---------------------------------------------------------------------------
// The snapshot model: an association list viewed as a map
// ---------------------------------------------------------------------------

/// Well-formed snapshot state: one entry per path, every path a single
/// journal line's final field (so no embedded newline), every digest of the
/// algorithm's exact width.
pub open spec fn state_wf(s: Seq<FileData>) -> bool {
    &&& (forall|i: int, j: int|
        0 <= i < j < s.len() ==> #[trigger] s[i].filename@ != #[trigger] s[j].filename@)
    &&& (forall|i: int|
        0 <= i < s.len() ==> !(#[trigger] s[i].filename@).contains('\n')
            && s[i].digest@.len() == DIGEST_BYTES)
}

/// The mapping a snapshot denotes: path to (modified time, digest).
pub open spec fn state_map(s: Seq<FileData>) -> Map<Seq<char>, (u64, Seq<u8>)>
    decreases s.len(),
{
    if s.len() == 0 {
        Map::empty()
    } else {
        state_map(s.drop_last()).insert(
            s.last().filename@,
            (s.last().modified, s.last().digest@),
        )
    }
}

pub proof fn lemma_state_map_dom(s: Seq<FileData>, p: Seq<char>)
    ensures
        state_map(s).contains_key(p) <==> exists|i: int|
            0 <= i < s.len() && #[trigger] s[i].filename@ == p,
    decreases s.len(),
{
    if s.len() > 0 {
        lemma_state_map_dom(s.drop_last(), p);
        if s.last().filename@ == p {
            assert(s[s.len() - 1].filename@ == p);
        } else if state_map(s).contains_key(p) {
            let i = choose|i: int| 0 <= i < s.drop_last().len() && #[trigger] s.drop_last()[i].filename@ == p;
            assert(s[i].filename@ == p);
        } else {
            assert forall|i: int| 0 <= i < s.len() implies #[trigger] s[i].filename@ != p by {
                if i < s.len() - 1 {
                    assert(s.drop_last()[i].filename@ == s[i].filename@);
                }
            }
        }
    }
}

pub proof fn lemma_state_map_at(s: Seq<FileData>, i: int)
    requires
        state_wf(s),
        0 <= i < s.len(),
    ensures
        state_map(s).contains_key(s[i].filename@),
        state_map(s)[s[i].filename@] == (s[i].modified, s[i].digest@),
    decreases s.len(),
{
    assert(state_wf(s.drop_last()));
    if i == s.len() - 1 {
    } else {
        lemma_state_map_at(s.drop_last(), i);
        assert(s.drop_last()[i] == s[i]);
        assert(s[i].filename@ != s.last().filename@);
    }
}

pub proof fn lemma_state_map_remove(s: Seq<FileData>, i: int)
    requires
        state_wf(s),
        0 <= i < s.len(),
    ensures
        state_map(s.remove(i)) == state_map(s).remove(s[i].filename@),
    decreases s.len(),
{
    let k = s[i].filename@;
    assert(state_wf(s.drop_last()));
    if i == s.len() - 1 {
        assert(s.remove(i) =~= s.drop_last());
        lemma_state_map_dom(s.drop_last(), k);
        assert forall|j: int| 0 <= j < s.drop_last().len() implies #[trigger] s.drop_last()[j].filename@ != k by {
            assert(s[j].filename@ == s.drop_last()[j].filename@);
        }
        assert(!state_map(s.drop_last()).contains_key(k));
        assert(state_map(s.drop_last()) =~= state_map(s).remove(k));
    } else {
        lemma_state_map_remove(s.drop_last(), i);
        assert(s.remove(i).drop_last() =~= s.drop_last().remove(i));
        assert(s.remove(i).last() == s.last());
        assert(s.drop_last()[i] == s[i]);
        assert(k != s.last().filename@);
        assert(state_map(s.remove(i)) == state_map(s.drop_last()).remove(k).insert(
            s.last().filename@,
            (s.last().modified, s.last().digest@),
        ));
        assert(state_map(s.remove(i)) =~= state_map(s).remove(k));
    }
}

/// Look a path up in the snapshot state.
fn find_index(state: &Vec<FileData>, name: &String) -> (r: Option<usize>)
    ensures
        match r {
            Some(i) => i < state@.len() && state@[i as int].filename@ == name@,
            None => forall|i: int| 0 <= i < state@.len() ==> #[trigger] state@[i].filename@ != name@,
        },
{
    let mut i: usize = 0;
    while i < state.len()
        invariant
            i <= state@.len(),
            forall|j: int| 0 <= j < i ==> #[trigger] state@[j].filename@ != name@,
        decreases state@.len() - i,
    {
        if state[i].filename == *name {
            return Some(i);
        }
        i = i + 1;
    }
    None
}

/// Record the latest state of a path: replace its entry, or add one.
/// Fixes the snapshot so that replay's last-write-wins rule holds.
pub fn update_file(current_state: &mut Vec<FileData>, filename: String, modified: u64, digest: Vec<u8>)
    requires
        state_wf(old(current_state)@),
        !filename@.contains('\n'),
        digest@.len() == DIGEST_BYTES,
    ensures
        state_wf(final(current_state)@),
        state_map(final(current_state)@) == state_map(old(current_state)@).insert(
            filename@,
            (modified, digest@),
        ),
{
    let ghost orig = current_state@;
    if let Some(i) = find_index(current_state, &filename) {
        proof {
            lemma_state_map_remove(orig, i as int);
        }
        current_state.remove(i);
        proof {
            let removed = orig.remove(i as int);
            assert forall|a: int, b: int|
                0 <= a < b < removed.len() implies #[trigger] removed[a].filename@ != #[trigger] removed[b].filename@ by {
                if b < i {
                    assert(removed[a] == orig[a] && removed[b] == orig[b]);
                } else if a < i {
                    assert(removed[a] == orig[a] && removed[b] == orig[b + 1]);
                } else {
                    assert(removed[a] == orig[a + 1] && removed[b] == orig[b + 1]);
                }
            }
            assert forall|a: int| 0 <= a < removed.len() implies
                !(#[trigger] removed[a].filename@).contains('\n')
                    && removed[a].digest@.len() == DIGEST_BYTES by {
                if a < i {
                    assert(removed[a] == orig[a]);
                } else {
                    assert(removed[a] == orig[a + 1]);
                }
            }
        }
    }
    let ghost mid = current_state@;
    proof {
        lemma_state_map_dom(mid, filename@);
    }
    current_state.push(FileData { filename, modified, digest });
    proof {
        let fin = final(current_state)@;
        assert(fin.drop_last() =~= mid);
        assert forall|a: int, b: int|
            0 <= a < b < fin.len() implies #[trigger] fin[a].filename@ != #[trigger] fin[b].filename@ by {
            if b < fin.len() - 1 {
                assert(fin[a] == mid[a] && fin[b] == mid[b]);
            } else {
                assert(fin[a] == mid[a]);
                assert(forall|j: int| 0 <= j < mid.len() ==> #[trigger] mid[j].filename@ != fin[b].filename@);
            }
        }
        assert(state_map(fin) =~= state_map(orig).insert(fin.last().filename@, (modified, fin.last().digest@)));
    }
}

/// Remove a path from the snapshot. Replaying a delete line for a path with
/// no entry is a harmless no-op.
pub fn delete_file(current_state: &mut Vec<FileData>, path: &String)
    requires
        state_wf(old(current_state)@),
    ensures
        state_wf(final(current_state)@),
        state_map(final(current_state)@) == state_map(old(current_state)@).remove(path@),
{
    let ghost orig = current_state@;
    if let Some(i) = find_index(current_state, path) {
        proof {
            lemma_state_map_remove(orig, i as int);
        }
        current_state.remove(i);
        proof {
            let removed = orig.remove(i as int);
            assert forall|a: int, b: int|
                0 <= a < b < removed.len() implies #[trigger] removed[a].filename@ != #[trigger] removed[b].filename@ by {
                if b < i {
                    assert(removed[a] == orig[a] && removed[b] == orig[b]);
                } else if a < i {
                    assert(removed[a] == orig[a] && removed[b] == orig[b + 1]);
                } else {
                    assert(removed[a] == orig[a + 1] && removed[b] == orig[b + 1]);
                }
            }
            assert forall|a: int| 0 <= a < removed.len() implies
                !(#[trigger] removed[a].filename@).contains('\n')
                    && removed[a].digest@.len() == DIGEST_BYTES by {
                if a < i {
                    assert(removed[a] == orig[a]);
                } else {
                    assert(removed[a] == orig[a + 1]);
                }
            }
        }
    } else {
        proof {
            lemma_state_map_dom(orig, path@);
            assert(state_map(orig) =~= state_map(orig).remove(path@));
        }
    }
}

// ---------------------------------------------------------------------------
// Replay
// ---------------------------------------------------------------------------

/// The effect of one journal line on the snapshot. A valid add/modify line
/// records its path; a valid delete line removes it; anything else is
/// skipped.
pub open spec fn apply_line(
    m: Map<Seq<char>, (u64, Seq<u8>)>,
    line: Seq<char>,
) -> Map<Seq<char>, (u64, Seq<u8>)> {
    if codec::upsert_line_valid(line) {
        m.insert(
            codec::upsert_path_of(line),
            (codec::upsert_modified_of(line) as u64, codec::upsert_digest_of(line)),
        )
    } else if codec::delete_line_valid(line) {
        m.remove(codec::delete_path_of(line))
    } else {
        m
    }
}

/// The snapshot that replaying a sequence of journal lines from the empty
/// state denotes: every decodable line applied in order, last write wins.
pub open spec fn replay(lines: Seq<Seq<char>>) -> Map<Seq<char>, (u64, Seq<u8>)>
    decreases lines.len(),
{
    if lines.len() == 0 {
        Map::empty()
    } else {
        apply_line(replay(lines.drop_last()), lines.last())
    }
}

/// How many of the lines no replay can use.
pub open spec fn invalid_count(lines: Seq<Seq<char>>) -> nat
    decreases lines.len(),
{
    if lines.len() == 0 {
        0
    } else {
        invalid_count(lines.drop_last()) + if codec::line_valid(lines.last()) {
            0nat
        } else {
            1nat
        }
    }
}

/// Replay determinism: the snapshot is a pure function of the journal's
/// line sequence, so rebuilding it from the same lines any number of times
/// yields the same snapshot.
pub proof fn lemma_replay_deterministic(
    lines: Seq<Seq<char>>,
    s1: Map<Seq<char>, (u64, Seq<u8>)>,
    s2: Map<Seq<char>, (u64, Seq<u8>)>,
)
    requires
        s1 == replay(lines),
        s2 == replay(lines),
    ensures
        s1 == s2,
{
}

/// Corrupt-tail tolerance: one trailing line that fails to parse leaves the
/// snapshot of the valid prefix exactly as it was.
pub proof fn lemma_corrupt_tail(lines: Seq<Seq<char>>, bad: Seq<char>)
    requires
        !codec::line_valid(bad),
    ensures
        replay(lines.push(bad)) == replay(lines),
{
    assert(lines.push(bad).drop_last() =~= lines);
    assert(lines.push(bad).last() == bad);
}

proof fn lemma_subrange_not_contains(s: Seq<char>, a: int, b: int, c: char)
    requires
        0 <= a <= b <= s.len(),
        !s.contains(c),
    ensures
        !s.subrange(a, b).contains(c),
{
    let sub = s.subrange(a, b);
    assert forall|i: int| 0 <= i < sub.len() implies sub[i] != c by {
        if sub[i] == c {
            assert(s[a + i] == c);
            assert(s.contains(c));
        }
    }
    if sub.contains(c) {
        let i = choose|i: int| 0 <= i < sub.len() && sub[i] == c;
    }
}

// ---------------------------------------------------------------------------
// The journal itself
// ---------------------------------------------------------------------------

/// The in-memory reduction of the journal: the live snapshot, plus a count
/// of the lines that replay had to skip.
pub struct FileJournal {
    pub current_state: Vec<FileData>,
    pub skipped: usize,
}

impl FileJournal {
    /// The mapping this journal's snapshot denotes.
    pub open spec fn snapshot(&self) -> Map<Seq<char>, (u64, Seq<u8>)> {
        state_map(self.current_state@)
    }

    pub open spec fn wf(&self) -> bool {
        state_wf(self.current_state@)
    }

    /// Rebuild the snapshot by replaying every line of the journal in order.
    /// A line that fails to decode is skipped and counted, so a corrupted
    /// trailing line never blocks access to the prior history. The caller
    /// hands over the log's lines (each one stripped of its newline).
    pub fn load_journal(lines: &Vec<String>) -> (journal: FileJournal)
        requires
            forall|i: int| 0 <= i < lines@.len() ==> !(#[trigger] lines@[i]@).contains('\n'),
        ensures
            journal.wf(),
            journal.snapshot() == replay(lines.deep_view()),
            journal.skipped as nat == invalid_count(lines.deep_view()),
    {
        let ghost all = lines.deep_view();
        let mut current_state: Vec<FileData> = Vec::new();
        let mut skipped: usize = 0;
        let mut i: usize = 0;
        proof {
            assert(all.take(0) =~= Seq::<Seq<char>>::empty());
        }
        while i < lines.len()
            invariant
                i <= lines@.len(),
                all == lines.deep_view(),
                all.len() == lines@.len(),
                forall|k: int| 0 <= k < lines@.len() ==> all[k] == #[trigger] lines@[k]@,
                forall|k: int| 0 <= k < lines@.len() ==> !(#[trigger] lines@[k]@).contains('\n'),
                state_wf(current_state@),
                state_map(current_state@) == replay(all.take(i as int)),
                skipped as nat == invalid_count(all.take(i as int)),
                skipped <= i,
            decreases lines@.len() - i,
        {
            let ghost pre = state_map(current_state@);
            let line: &String = &lines[i];
            proof {
                assert(all.take(i + 1).drop_last() =~= all.take(i as int));
                assert(all.take(i + 1).last() == line@);
            }
            match codec::decode(line.as_str()) {
                Ok(JournalEntry::Upsert { modify, hash_type, digest, modified, path }) => {
                    proof {
                        codec::lemma_hex_decode_len(line@.subrange(9, 137));
                        lemma_subrange_not_contains(
                            line@,
                            codec::upsert_sep(line@) + 1,
                            line@.len() as int,
                            '\n',
                        );
                        assert(!codec::delete_line_valid(line@));
                        assert(codec::upsert_modified_of(line@) as u64 == modified);
                    }
                    update_file(&mut current_state, path, modified, digest);
                },
                Ok(JournalEntry::Delete { path }) => {
                    proof {
                        assert(codec::delete_line_valid(line@));
                        assert(!codec::upsert_line_valid(line@));
                    }
                    delete_file(&mut current_state, &path);
                },
                Err(_) => {
                    skipped = skipped + 1;
                },
            }
            i = i + 1;
        }
        proof {
            assert(all.take(lines@.len() as int) =~= all);
        }
        FileJournal { current_state, skipped }
    }

    /// The current record for a path, if the snapshot holds one.
    pub fn get_filename(&self, name: &String) -> (r: Option<&FileData>)
        requires
            self.wf(),
        ensures
            match r {
                Some(f) => self.snapshot().contains_key(name@) && f.filename@ == name@
                    && f.modified == self.snapshot()[name@].0
                    && f.digest@ == self.snapshot()[name@].1,
                None => !self.snapshot().contains_key(name@),
            },
    {
        proof {
            lemma_state_map_dom(self.current_state@, name@);
        }
        match find_index(&self.current_state, name) {
            Some(i) => {
                proof {
                    lemma_state_map_at(self.current_state@, i as int);
                }
                Some(&self.current_state[i])
            },
            None => None,
        }
    }

    /// All live paths of the snapshot, one per entry.
    pub fn get_filenames(&self) -> (names: Vec<String>)
        ensures
            names@.len() == self.current_state@.len(),
            forall|i: int| 0 <= i < names@.len() ==> names@[i]@ == #[trigger] self.current_state@[i].filename@,
    {
        let mut names: Vec<String> = Vec::new();
        let mut i: usize = 0;
        while i < self.current_state.len()
            invariant
                i <= self.current_state@.len(),
                names@.len() == i,
                forall|k: int| 0 <= k < i ==> names@[k]@ == #[trigger] self.current_state@[k].filename@,
            decreases self.current_state@.len() - i,
        {
            names.push(self.current_state[i].filename.clone());
            i = i + 1;
        }
        names
    }

    /// Record that a path has disappeared: remove it from the snapshot and
    /// return the delete line the caller must append to the log. Safe for a
    /// path with no prior record — the write is still recorded, and the
    /// snapshot is unchanged.
    pub fn write_missing_file(&mut self, filename: &String) -> (line: String)
        requires
            old(self).wf(),
            !filename@.contains('\n'),
        ensures
            final(self).wf(),
            final(self).snapshot() == old(self).snapshot().remove(filename@),
            final(self).skipped == old(self).skipped,
            line@ == codec::delete_line_spec(filename@),
    {
        delete_file(&mut self.current_state, filename);
        let entry = JournalEntry::Delete { path: filename.clone() };
        codec::encode(&entry)
    }

    /// Record the current digest and modified time of a path: choose `A` or
    /// `M` by whether the snapshot already holds the path (checked before
    /// mutating), update the snapshot, and return the line the caller must
    /// append to the log.
    pub fn write_update_or_add_file(
        &mut self,
        filename: &String,
        hash_type: HashType,
        hash: &[u8],
        modified: u64,
    ) -> (line: String)
        requires
            old(self).wf(),
            !filename@.contains('\n'),
            hash@.len() == DIGEST_BYTES,
        ensures
            final(self).wf(),
            final(self).snapshot() == old(self).snapshot().insert(filename@, (modified, hash@)),
            final(self).skipped == old(self).skipped,
            line@ == codec::upsert_line_spec(
                old(self).snapshot().contains_key(filename@),
                hash@,
                modified,
                filename@,
            ),
    {
        proof {
            lemma_state_map_dom(self.current_state@, filename@);
        }
        let existed = match find_index(&self.current_state, filename) {
            Some(_) => true,
            None => false,
        };
        let entry = JournalEntry::Upsert {
            modify: existed,
            hash_type,
            digest: vstd::slice::slice_to_vec(hash),
            modified,
            path: filename.clone(),
        };
        let line = codec::encode(&entry);
        update_file(&mut self.current_state, filename.clone(), modified, vstd::slice::slice_to_vec(hash));
        line
    }
}

} // verus!
