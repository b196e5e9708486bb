use file_history::codec::HashType;
use file_history::differ::{filter_changed_files, process_missing_files};
use file_history::file_journal::FileJournal;
use file_history::path_walker;
use file_history::pipeline::{hash_file, HashResult, JournalWriteMessageEnum, JournalWriter};

fn hex1() -> String {
    "12".repeat(64)
}

fn lines(v: &[&str]) -> Vec<String> {
    v.iter().map(|s| s.to_string()).collect()
}

#[test]
fn load_replays_last_write_wins() {
    let journal = FileJournal::load_journal(&lines(&[
        &format!("A sha512 {} 10 a.txt", hex1()),
        &format!("M sha512 {} 20 a.txt", "ef".repeat(64)),
    ]));
    let rec = journal.get_filename(&String::from("a.txt")).expect("a.txt recorded");
    assert_eq!(rec.get_modified(), 20);
    assert_eq!(rec.digest, vec![0xef; 64]);
    assert_eq!(journal.skipped, 0);
}

#[test]
fn load_applies_deletes() {
    let journal = FileJournal::load_journal(&lines(&[
        &format!("A sha512 {} 10 a.txt", hex1()),
        "D a.txt",
    ]));
    assert!(journal.get_filename(&String::from("a.txt")).is_none());
    assert_eq!(journal.get_filenames().len(), 0);
}

#[test]
fn corrupt_tail_is_skipped() {
    let valid = format!("A sha512 {} 10 a.txt", hex1());
    let clean = FileJournal::load_journal(&lines(&[&valid]));
    let dirty = FileJournal::load_journal(&lines(&[&valid, "1 M not-a-record"]));
    assert_eq!(dirty.skipped, 1);
    let a = String::from("a.txt");
    assert_eq!(
        clean.get_filename(&a).unwrap().get_modified(),
        dirty.get_filename(&a).unwrap().get_modified(),
    );
    assert_eq!(clean.get_filenames().len(), dirty.get_filenames().len());
}

#[test]
fn replay_is_deterministic() {
    let ls = lines(&[
        &format!("A sha512 {} 10 a.txt", hex1()),
        &format!("A sha512 {} 30 b.txt", hex1()),
        "D a.txt",
        "broken line",
        &format!("M sha512 {} 40 b.txt", "ef".repeat(64)),
    ]);
    let j1 = FileJournal::load_journal(&ls);
    let j2 = FileJournal::load_journal(&ls);
    let mut n1 = j1.get_filenames();
    let mut n2 = j2.get_filenames();
    n1.sort();
    n2.sort();
    assert_eq!(n1, n2);
    for name in n1 {
        let r1 = j1.get_filename(&name).unwrap();
        let r2 = j2.get_filename(&name).unwrap();
        assert_eq!(r1.get_modified(), r2.get_modified());
        assert_eq!(r1.digest, r2.digest);
    }
}

#[test]
fn write_update_picks_add_then_modify() {
    let mut journal = FileJournal::load_journal(&lines(&[]));
    let name = String::from("a.txt");
    let line1 = journal.write_update_or_add_file(&name, HashType::Sha512, &[0xab; 64], 100);
    assert!(line1.starts_with("A sha512 "));
    let line2 = journal.write_update_or_add_file(&name, HashType::Sha512, &[0xcd; 64], 200);
    assert!(line2.starts_with("M sha512 "));
    assert_eq!(journal.get_filename(&name).unwrap().get_modified(), 200);
}

#[test]
fn write_missing_file_removes_and_encodes() {
    let mut journal = FileJournal::load_journal(&lines(&[
        &format!("A sha512 {} 10 a.txt", hex1()),
    ]));
    let line = journal.write_missing_file(&String::from("a.txt"));
    assert_eq!(line, "D a.txt");
    assert!(journal.get_filename(&String::from("a.txt")).is_none());
    // deleting a path that was never recorded is a harmless no-op record
    let line = journal.write_missing_file(&String::from("ghost.txt"));
    assert_eq!(line, "D ghost.txt");
}

#[test]
fn diff_selects_new_and_newer_only() {
    let journal = FileJournal::load_journal(&lines(&[
        &format!("A sha512 {} 100 same.txt", hex1()),
        &format!("A sha512 {} 100 older.txt", hex1()),
        &format!("A sha512 {} 100 newer.txt", hex1()),
    ]));
    let observed = vec![
        path_walker::FileData::new(String::from("same.txt"), 100),
        path_walker::FileData::new(String::from("older.txt"), 50),
        path_walker::FileData::new(String::from("newer.txt"), 150),
        path_walker::FileData::new(String::from("new.txt"), 1),
    ];
    let mut to_hash = filter_changed_files(&journal, &observed);
    to_hash.sort();
    assert_eq!(to_hash, vec![String::from("new.txt"), String::from("newer.txt")]);
}

#[test]
fn scenario_unchanged_plus_new_file() {
    // journal: M sha512 <h1> 1000 a.txt; observed: a.txt@1000, b.txt@2000
    let mut journal = FileJournal::load_journal(&lines(&[
        &format!("M sha512 {} 1000 a.txt", hex1()),
    ]));
    let observed = vec![
        path_walker::FileData::new(String::from("a.txt"), 1000),
        path_walker::FileData::new(String::from("b.txt"), 2000),
    ];
    let deletes = process_missing_files(&mut journal, &observed);
    assert_eq!(deletes.len(), 0);
    let to_hash = filter_changed_files(&journal, &observed);
    assert_eq!(to_hash, vec![String::from("b.txt")]);

    // hash b.txt's content and feed the result through the single writer
    let digest = hash_file(&vec![b"b-content".to_vec()]);
    let mut writer = JournalWriter::new(1);
    let result = HashResult {
        hash: digest.clone(),
        hash_type: HashType::Sha512,
        filename: String::from("b.txt"),
        modified: 2000,
    };
    let line = writer
        .consume_message(&mut journal, JournalWriteMessageEnum::Message(result))
        .expect("a result yields a line");
    assert_eq!(line, format!("A sha512 {} 2000 b.txt", file_history::codec::format_hash(&digest)));
    let _ = writer.consume_message(&mut journal, JournalWriteMessageEnum::Finished);
    assert!(writer.is_done());
    assert_eq!(journal.get_filenames().len(), 2);
    assert_eq!(journal.get_filename(&String::from("b.txt")).unwrap().get_modified(), 2000);
}

#[test]
fn scenario_disappeared_file() {
    // journal has a.txt; observed set lacks it
    let base = format!("A sha512 {} 10 a.txt", hex1());
    let mut journal = FileJournal::load_journal(&lines(&[&base]));
    let observed: Vec<path_walker::FileData> = Vec::new();
    let deletes = process_missing_files(&mut journal, &observed);
    assert_eq!(deletes, vec![String::from("D a.txt")]);
    assert!(journal.get_filename(&String::from("a.txt")).is_none());
    // the appended journal replays to a snapshot without a.txt
    let replayed = FileJournal::load_journal(&lines(&[&base, "D a.txt"]));
    assert!(replayed.get_filename(&String::from("a.txt")).is_none());
    assert_eq!(replayed.get_filenames().len(), 0);
}

#[test]
fn single_writer_records_each_result_once() {
    let paths = ["p0", "p1", "p2", "p3", "p4"];
    let contents: Vec<Vec<u8>> = paths.iter().map(|p| p.as_bytes().to_vec()).collect();

    // results arriving in two different orders, as from concurrent workers
    let orders: [Vec<usize>; 2] = [vec![0, 1, 2, 3, 4], vec![3, 0, 4, 2, 1]];
    let mut journals = Vec::new();
    for order in orders.iter() {
        let mut journal = FileJournal::load_journal(&Vec::new());
        let mut writer = JournalWriter::new(2);
        let mut appended = 0;
        for (n, &i) in order.iter().enumerate() {
            let msg = JournalWriteMessageEnum::Message(HashResult {
                hash: hash_file(&vec![contents[i].clone()]),
                hash_type: HashType::Sha512,
                filename: String::from(paths[i]),
                modified: 10 + i as u64,
            });
            if writer.consume_message(&mut journal, msg).is_some() {
                appended += 1;
            }
            // a completion signal can interleave with results
            if n == 2 {
                assert!(writer.consume_message(&mut journal, JournalWriteMessageEnum::Finished).is_none());
            }
        }
        assert!(writer.consume_message(&mut journal, JournalWriteMessageEnum::Finished).is_none());
        assert!(writer.is_done());
        assert_eq!(appended, paths.len());
        journals.push(journal);
    }
    // whatever the arrival order, one record per path with the same digest
    for journal in journals.iter() {
        assert_eq!(journal.get_filenames().len(), paths.len());
        for (i, p) in paths.iter().enumerate() {
            let rec = journal.get_filename(&p.to_string()).unwrap();
            assert_eq!(rec.digest, hash_file(&vec![contents[i].clone()]));
        }
    }
}

#[test]
fn rerun_without_changes_produces_no_work() {
    // first run: empty journal, two observed files
    let mut journal = FileJournal::load_journal(&Vec::new());
    let observed = vec![
        path_walker::FileData::new(String::from("a.txt"), 100),
        path_walker::FileData::new(String::from("b.txt"), 200),
    ];
    let deletes = process_missing_files(&mut journal, &observed);
    assert_eq!(deletes.len(), 0);
    let to_hash = filter_changed_files(&journal, &observed);
    assert_eq!(to_hash.len(), 2);
    let mut writer = JournalWriter::new(1);
    for name in to_hash {
        let modified = observed.iter().find(|f| f.filename == name).unwrap().get_modified();
        let msg = JournalWriteMessageEnum::Message(HashResult {
            hash: hash_file(&vec![name.as_bytes().to_vec()]),
            hash_type: HashType::Sha512,
            filename: name,
            modified,
        });
        assert!(writer.consume_message(&mut journal, msg).is_some());
    }
    assert!(writer.consume_message(&mut journal, JournalWriteMessageEnum::Finished).is_none());
    assert!(writer.is_done());

    // second run with an unchanged filesystem: nothing to hash, nothing to delete
    let deletes = process_missing_files(&mut journal, &observed);
    assert_eq!(deletes.len(), 0);
    let to_hash = filter_changed_files(&journal, &observed);
    assert_eq!(to_hash.len(), 0);
}
