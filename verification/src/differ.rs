//! The snapshot differ: a pure comparison of the journal's last-known state
//! against a freshly observed filesystem snapshot.
//!
//! It selects for hashing every observed path that the journal lacks or
//! whose observed modification time is strictly newer than the recorded one
//! (equal or older times are trusted as unchanged — a timestamp
//! optimization, not a content guarantee), and selects for deletion every
//! recorded path that was not observed.

use vstd::prelude::*;
use crate::codec;
use crate::file_journal::FileJournal;
use crate::path_walker;

verus! {

/// A well-formed observation: one entry per path, each path a single line's
/// final field (no embedded newline).
pub open spec fn observed_wf(o: Seq<path_walker::FileData>) -> bool {
    &&& (forall|i: int, j: int|
        0 <= i < j < o.len() ==> #[trigger] o[i].filename@ != #[trigger] o[j].filename@)
    &&& (forall|i: int| 0 <= i < o.len() ==> !(#[trigger] o[i].filename@).contains('\n'))
}

pub open spec fn obs_has(o: Seq<path_walker::FileData>, p: Seq<char>) -> bool {
    exists|i: int| 0 <= i < o.len() && #[trigger] o[i].filename@ == p
}

pub open spec fn obs_index(o: Seq<path_walker::FileData>, p: Seq<char>) -> int {
    choose|i: int| 0 <= i < o.len() && #[trigger] o[i].filename@ == p
}

/// The observed modification time of a path (meaningful when observed).
pub open spec fn obs_modified(o: Seq<path_walker::FileData>, p: Seq<char>) -> u64 {
    o[obs_index(o, p)].modified
}

pub proof fn lemma_obs_at(o: Seq<path_walker::FileData>, i: int)
    requires
        observed_wf(o),
        0 <= i < o.len(),
    ensures
        obs_has(o, o[i].filename@),
        obs_modified(o, o[i].filename@) == o[i].modified,
{
    let p = o[i].filename@;
    assert(obs_has(o, p));
    let j = obs_index(o, p);
    assert(0 <= j < o.len() && o[j].filename@ == p);
    if i != j {
        assert(o[i].filename@ != o[j].filename@);
    }
}

/// A path the differ must select for (re)hashing: observed, and either
/// absent from the snapshot or observed strictly newer than recorded.
pub open spec fn needs_hash(
    m: Map<Seq<char>, (u64, Seq<u8>)>,
    o: Seq<path_walker::FileData>,
    p: Seq<char>,
) -> bool {
    obs_has(o, p) && (!m.contains_key(p) || obs_modified(o, p) > m[p].0)
}

pub open spec fn obs_key_set(o: Seq<path_walker::FileData>) -> Set<Seq<char>> {
    Set::new(|p: Seq<char>| obs_has(o, p))
}

pub open spec fn to_hash_set(
    m: Map<Seq<char>, (u64, Seq<u8>)>,
    o: Seq<path_walker::FileData>,
) -> Set<Seq<char>> {
    Set::new(|p: Seq<char>| needs_hash(m, o, p))
}

pub open spec fn to_delete_set(
    m: Map<Seq<char>, (u64, Seq<u8>)>,
    o: Seq<path_walker::FileData>,
) -> Set<Seq<char>> {
    Set::new(|p: Seq<char>| m.contains_key(p) && !obs_has(o, p))
}

/// Diff correctness: the paths to delete are exactly the snapshot's keys
/// minus the observed keys, and the paths to hash are exactly the observed
/// paths that are unrecorded or observed strictly newer than recorded.
pub proof fn lemma_diff_correct(m: Map<Seq<char>, (u64, Seq<u8>)>, o: Seq<path_walker::FileData>)
    ensures
        to_delete_set(m, o) =~= m.dom().difference(obs_key_set(o)),
        to_hash_set(m, o) =~= Set::new(
            |p: Seq<char>| obs_has(o, p) && (!m.contains_key(p) || obs_modified(o, p) > m[p].0),
        ),
{
}

/// Idempotent re-run: once every observed path is recorded with a modified
/// time at least the observed one and every recorded path is still observed
/// — the state a completed run leaves behind when the filesystem has not
/// changed — a further diff selects nothing to hash and nothing to delete.
pub proof fn lemma_idempotent_rerun(m: Map<Seq<char>, (u64, Seq<u8>)>, o: Seq<path_walker::FileData>)
    requires
        observed_wf(o),
        forall|i: int| 0 <= i < o.len() ==> m.contains_key(#[trigger] o[i].filename@)
            && m[o[i].filename@].0 >= o[i].modified,
        forall|p: Seq<char>| m.contains_key(p) ==> obs_has(o, p),
    ensures
        to_hash_set(m, o) =~= Set::<Seq<char>>::empty(),
        to_delete_set(m, o) =~= Set::<Seq<char>>::empty(),
{
    assert forall|p: Seq<char>| !needs_hash(m, o, p) by {
        if obs_has(o, p) {
            let i = choose|i: int| 0 <= i < o.len() && #[trigger] o[i].filename@ == p;
            lemma_obs_at(o, i);
        }
    }
}

/// The differ's per-entry test, phrased over an index of the observation:
/// the journal lacks the path, or it was observed strictly newer.
pub open spec fn selected_at(
    m: Map<Seq<char>, (u64, Seq<u8>)>,
    o: Seq<path_walker::FileData>,
    j: int,
) -> bool {
    !m.contains_key(o[j].filename@) || o[j].modified > m[o[j].filename@].0
}

/// Does the observation hold this path?
fn obs_contains(current_files: &Vec<path_walker::FileData>, name: &String) -> (r: bool)
    ensures
        r == obs_has(current_files@, name@),
{
    let mut i: usize = 0;
    while i < current_files.len()
        invariant
            i <= current_files@.len(),
            forall|j: int| 0 <= j < i ==> #[trigger] current_files@[j].filename@ != name@,
        decreases current_files@.len() - i,
    {
        if current_files[i].filename == *name {
            return true;
        }
        i = i + 1;
    }
    false
}

/// Does a name list hold this path?
pub open spec fn contains_name(v: Seq<String>, p: Seq<char>) -> bool {
    exists|k: int| 0 <= k < v.len() && #[trigger] v[k]@ == p
}

/// Is this line the delete record of some path that the snapshot holds and
/// the observation lacks?
pub open spec fn delete_line_for_missing(
    l: Seq<char>,
    m: Map<Seq<char>, (u64, Seq<u8>)>,
    o: Seq<path_walker::FileData>,
) -> bool {
    exists|p: Seq<char>| l == codec::delete_line_spec(p) && #[trigger] m.contains_key(p) && !obs_has(o, p)
}

/// Does a line list hold the delete line for this path?
pub open spec fn contains_del_line(v: Seq<String>, p: Seq<char>) -> bool {
    exists|k: int| 0 <= k < v.len() && #[trigger] v[k]@ == codec::delete_line_spec(p)
}

proof fn lemma_contains_name_push(pre: Seq<String>, cur: Seq<String>, p: Seq<char>)
    requires
        cur.len() == pre.len() + 1,
        forall|k: int| 0 <= k < pre.len() ==> cur[k] == #[trigger] pre[k],
        contains_name(pre, p),
    ensures
        contains_name(cur, p),
{
    let k = choose|k: int| 0 <= k < pre.len() && #[trigger] pre[k]@ == p;
    assert(cur[k]@ == p);
}

proof fn lemma_contains_del_line_push(pre: Seq<String>, cur: Seq<String>, p: Seq<char>)
    requires
        cur.len() == pre.len() + 1,
        forall|k: int| 0 <= k < pre.len() ==> cur[k] == #[trigger] pre[k],
        contains_del_line(pre, p),
    ensures
        contains_del_line(cur, p),
{
    let k = choose|k: int| 0 <= k < pre.len() && #[trigger] pre[k]@ == codec::delete_line_spec(p);
    assert(cur[k]@ == codec::delete_line_spec(p));
}

/// Select the observed paths that need (re)hashing: those the journal lacks,
/// and those observed strictly newer than recorded. Pure over its inputs —
/// no I/O, no side effects.
pub fn filter_changed_files(
    file_journal: &FileJournal,
    current_files: &Vec<path_walker::FileData>,
) -> (to_hash: Vec<String>)
    requires
        file_journal.wf(),
        observed_wf(current_files@),
    ensures
        forall|p: Seq<char>|
            contains_name(to_hash@, p) <==> needs_hash(file_journal.snapshot(), current_files@, p),
        forall|k1: int, k2: int|
            0 <= k1 < k2 < to_hash@.len() ==> #[trigger] to_hash@[k1]@ != #[trigger] to_hash@[k2]@,
        forall|k: int| 0 <= k < to_hash@.len() ==> !(#[trigger] to_hash@[k]@).contains('\n'),
{
    let ghost m = file_journal.snapshot();
    let ghost o = current_files@;
    let mut to_hash: Vec<String> = Vec::new();
    let ghost mut srcs: Seq<int> = Seq::empty();
    let mut i: usize = 0;
    while i < current_files.len()
        invariant
            i <= o.len(),
            o == current_files@,
            m == file_journal.snapshot(),
            file_journal.wf(),
            observed_wf(o),
            srcs.len() == to_hash@.len(),
            forall|k: int| 0 <= k < srcs.len() ==> 0 <= #[trigger] srcs[k] < i
                && o[srcs[k]].filename@ == to_hash@[k]@ && selected_at(m, o, srcs[k]),
            forall|j: int| 0 <= j < i && selected_at(m, o, j)
                ==> contains_name(to_hash@, #[trigger] o[j].filename@),
            forall|k1: int, k2: int| 0 <= k1 < k2 < srcs.len() ==> #[trigger] srcs[k1] != #[trigger] srcs[k2],
        decreases o.len() - i,
    {
        let f = &current_files[i];
        let selected = match file_journal.get_filename(&f.filename) {
            Some(rec) => f.modified > rec.get_modified(),
            None => true,
        };
        proof {
            assert(selected == selected_at(m, o, i as int));
        }
        if selected {
            let ghost pre = to_hash@;
            to_hash.push(f.filename.clone());
            proof {
                let cur = to_hash@;
                srcs = srcs.push(i as int);
                assert(cur[cur.len() - 1]@ == o[i as int].filename@);
                assert(contains_name(cur, o[i as int].filename@));
                assert forall|j: int| 0 <= j < i + 1 && selected_at(m, o, j)
                    implies contains_name(cur, #[trigger] o[j].filename@) by {
                    if j < i {
                        lemma_contains_name_push(pre, cur, o[j].filename@);
                    }
                }
            }
        }
        i = i + 1;
    }
    proof {
        assert forall|p: Seq<char>| contains_name(to_hash@, p) <==> needs_hash(m, o, p) by {
            if contains_name(to_hash@, p) {
                let k = choose|k: int| 0 <= k < to_hash@.len() && #[trigger] to_hash@[k]@ == p;
                lemma_obs_at(o, srcs[k]);
                assert(needs_hash(m, o, p));
            }
            if needs_hash(m, o, p) {
                let j = choose|j: int| 0 <= j < o.len() && #[trigger] o[j].filename@ == p;
                lemma_obs_at(o, j);
                assert(selected_at(m, o, j));
            }
        }
        assert forall|k1: int, k2: int|
            0 <= k1 < k2 < to_hash@.len() implies #[trigger] to_hash@[k1]@ != #[trigger] to_hash@[k2]@ by {
            assert(o[srcs[k1]].filename@ == to_hash@[k1]@);
            assert(o[srcs[k2]].filename@ == to_hash@[k2]@);
            assert(srcs[k1] != srcs[k2]);
            assert(o[srcs[k1]].filename@ != o[srcs[k2]].filename@);
        }
        assert forall|k: int| 0 <= k < to_hash@.len() implies !(#[trigger] to_hash@[k]@).contains('\n') by {
            assert(o[srcs[k]].filename@ == to_hash@[k]@);
        }
    }
    to_hash
}

/// Whether a name was processed as missing among the first `i` of the
/// journal's recorded names.
pub open spec fn deleted_before(
    names: Seq<String>,
    o: Seq<path_walker::FileData>,
    i: int,
    p: Seq<char>,
) -> bool {
    exists|j: int| 0 <= j < i && #[trigger] names[j]@ == p && !obs_has(o, p)
}

/// Append a delete record for every recorded path that was not observed,
/// removing each from the snapshot; return the delete lines the caller must
/// append to the log, one per disappeared path.
pub fn process_missing_files(
    file_journal: &mut FileJournal,
    current_files: &Vec<path_walker::FileData>,
) -> (lines: Vec<String>)
    requires
        old(file_journal).wf(),
        observed_wf(current_files@),
    ensures
        final(file_journal).wf(),
        final(file_journal).snapshot() == old(file_journal).snapshot().restrict(
            obs_key_set(current_files@),
        ),
        final(file_journal).skipped == old(file_journal).skipped,
        forall|k: int| 0 <= k < lines@.len() ==> delete_line_for_missing(
            #[trigger] lines@[k]@,
            old(file_journal).snapshot(),
            current_files@,
        ),
        forall|p: Seq<char>|
            old(file_journal).snapshot().contains_key(p) && !obs_has(current_files@, p)
                ==> contains_del_line(lines@, p),
        forall|k1: int, k2: int|
            0 <= k1 < k2 < lines@.len() ==> #[trigger] lines@[k1]@ != #[trigger] lines@[k2]@,
{
    let ghost m0 = old(file_journal).snapshot();
    let ghost o = current_files@;
    let ghost orig = file_journal.current_state@;
    let names = file_journal.get_filenames();
    let ghost names0 = names@;
    let mut lines: Vec<String> = Vec::new();
    let ghost mut srcs: Seq<int> = Seq::empty();
    let mut i: usize = 0;
    while i < names.len()
        invariant
            i <= names0.len(),
            names0 == names@,
            o == current_files@,
            observed_wf(o),
            names0.len() == orig.len(),
            crate::file_journal::state_wf(orig),
            m0 == crate::file_journal::state_map(orig),
            forall|k: int| 0 <= k < names0.len() ==> names0[k]@ == #[trigger] orig[k].filename@,
            file_journal.wf(),
            file_journal.skipped == old(file_journal).skipped,
            forall|p: Seq<char>| #[trigger] file_journal.snapshot().contains_key(p)
                <==> m0.contains_key(p) && !deleted_before(names0, o, i as int, p),
            forall|p: Seq<char>| file_journal.snapshot().contains_key(p)
                ==> #[trigger] file_journal.snapshot()[p] == m0[p],
            srcs.len() == lines@.len(),
            forall|k: int| 0 <= k < srcs.len() ==> 0 <= #[trigger] srcs[k] < i
                && lines@[k]@ == codec::delete_line_spec(names0[srcs[k]]@)
                && !obs_has(o, names0[srcs[k]]@),
            forall|j: int| 0 <= j < i && !obs_has(o, #[trigger] names0[j]@)
                ==> contains_del_line(lines@, names0[j]@),
            forall|k1: int, k2: int| 0 <= k1 < k2 < srcs.len() ==> #[trigger] srcs[k1] != #[trigger] srcs[k2],
        decreases names0.len() - i,
    {
        let name = &names[i];
        proof {
            assert(names0[i as int]@ == orig[i as int].filename@);
            assert(!orig[i as int].filename@.contains('\n'));
            crate::file_journal::lemma_state_map_at(orig, i as int);
        }
        let present = obs_contains(current_files, name);
        if !present {
            let ghost snap_pre = file_journal.snapshot();
            let line = file_journal.write_missing_file(name);
            let ghost pre = lines@;
            lines.push(line);
            proof {
                let cur = lines@;
                srcs = srcs.push(i as int);
                assert(cur[cur.len() - 1]@ == codec::delete_line_spec(names0[i as int]@));
                assert(contains_del_line(cur, names0[i as int]@));
                assert forall|j: int| 0 <= j < i + 1 && !obs_has(o, #[trigger] names0[j]@)
                    implies contains_del_line(cur, names0[j]@) by {
                    if j < i {
                        lemma_contains_del_line_push(pre, cur, names0[j]@);
                    }
                }
                let snap = file_journal.snapshot();
                assert forall|p: Seq<char>| #[trigger] snap.contains_key(p)
                    <==> m0.contains_key(p) && !deleted_before(names0, o, i + 1, p) by {
                    if p == name@ {
                        assert(names0[i as int]@ == p && !obs_has(o, p));
                        assert(deleted_before(names0, o, i + 1, p));
                        assert(!snap.contains_key(p));
                    } else {
                        assert(snap.contains_key(p) == snap_pre.contains_key(p));
                        if deleted_before(names0, o, i + 1, p) && !deleted_before(names0, o, i as int, p) {
                            let j = choose|j: int| 0 <= j < i + 1 && #[trigger] names0[j]@ == p && !obs_has(o, p);
                            assert(j == i);
                            assert(false);
                        }
                        if deleted_before(names0, o, i as int, p) {
                            let j = choose|j: int| 0 <= j < i && #[trigger] names0[j]@ == p && !obs_has(o, p);
                            assert(0 <= j < i + 1 && names0[j]@ == p && !obs_has(o, p));
                            assert(deleted_before(names0, o, i + 1, p));
                        }
                    }
                }
            }
        } else {
            proof {
                let snap = file_journal.snapshot();
                assert forall|p: Seq<char>| #[trigger] snap.contains_key(p)
                    <==> m0.contains_key(p) && !deleted_before(names0, o, i + 1, p) by {
                    if deleted_before(names0, o, i + 1, p) && !deleted_before(names0, o, i as int, p) {
                        let j = choose|j: int| 0 <= j < i + 1 && #[trigger] names0[j]@ == p && !obs_has(o, p);
                        assert(j == i);
                        assert(obs_has(o, names0[i as int]@));
                        assert(false);
                    }
                    if deleted_before(names0, o, i as int, p) {
                        let j = choose|j: int| 0 <= j < i && #[trigger] names0[j]@ == p && !obs_has(o, p);
                        assert(0 <= j < i + 1 && names0[j]@ == p && !obs_has(o, p));
                        assert(deleted_before(names0, o, i + 1, p));
                    }
                }
            }
        }
        i = i + 1;
    }
    proof {
        let n = names0.len() as int;
        assert(final(file_journal).snapshot() =~= m0.restrict(obs_key_set(o))) by {
            assert forall|p: Seq<char>| #[trigger] final(file_journal).snapshot().contains_key(p)
                <==> (m0.contains_key(p) && obs_key_set(o).contains(p)) by {
                if m0.contains_key(p) {
                    crate::file_journal::lemma_state_map_dom(orig, p);
                    let j = choose|j: int| 0 <= j < orig.len() && #[trigger] orig[j].filename@ == p;
                    assert(names0[j]@ == p);
                    if !obs_has(o, p) {
                        assert(deleted_before(names0, o, n, p));
                    } else if deleted_before(names0, o, n, p) {
                        assert(false);
                    }
                }
            }
        }
        assert forall|k: int| 0 <= k < lines@.len() implies
            delete_line_for_missing(#[trigger] lines@[k]@, m0, o) by {
            let j = srcs[k];
            crate::file_journal::lemma_state_map_at(orig, j);
            assert(lines@[k]@ == codec::delete_line_spec(names0[j]@)
                && m0.contains_key(names0[j]@) && !obs_has(o, names0[j]@));
        }
        assert forall|p: Seq<char>|
            m0.contains_key(p) && !obs_has(o, p) implies contains_del_line(lines@, p) by {
            crate::file_journal::lemma_state_map_dom(orig, p);
            let j = choose|j: int| 0 <= j < orig.len() && #[trigger] orig[j].filename@ == p;
            assert(names0[j]@ == p);
        }
        assert forall|k1: int, k2: int|
            0 <= k1 < k2 < lines@.len() implies #[trigger] lines@[k1]@ != #[trigger] lines@[k2]@ by {
            assert(srcs[k1] != srcs[k2]);
            assert(orig[srcs[k1]].filename@ != orig[srcs[k2]].filename@);
            let p1 = names0[srcs[k1]]@;
            let p2 = names0[srcs[k2]]@;
            if codec::delete_line_spec(p1) == codec::delete_line_spec(p2) {
                assert(p1 =~= codec::delete_path_of(codec::delete_line_spec(p1)));
                assert(p2 =~= codec::delete_path_of(codec::delete_line_spec(p2)));
            }
        }
    }
    lines
}

} // verus!
