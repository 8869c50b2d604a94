use lsmrs::config::Config;
use lsmrs::db::{Db, Get};
use lsmrs::hash::hash64;
use lsmrs::memtable::Memtable;
use lsmrs::resp::{read_command, write_command, ReadStep, RespError};
use lsmrs::server::{
    after_command, after_reading, dispatch, get_reply, server_error, set_reply, unknown_command,
    DelStep, Next, Outcome, Request,
};
use lsmrs::session::Session;
use lsmrs::sstable::image::TableImage;
use lsmrs::sstable::layout::{TableError, FORMAT_VERSION, TRAILER_SIZE};
use lsmrs::sstable::lookup::{Lookup, LookupStep};
use lsmrs::sstable::merge::MergeStep;
use lsmrs::sstable::names::{
    classify, describe_unrecognised, parse_span, table_name, tmp_name, FileKind,
};
use lsmrs::sstable::records::{NextRecord, Records};
use lsmrs::sstable::recovery::{Directory, Noted, RecoveryStep};
use lsmrs::sstable::table::{search_block, Found, SSTable};
use lsmrs::sstable::tableset::SSTableSet;
use lsmrs::wal::intact_len;
use std::cell::RefCell;
use std::collections::BTreeMap;
use std::rc::Rc;
use std::sync::Arc;

const BITS_PER_KEY: usize = 10;

// ------------------------------------------------------------------- a disk

type File = Arc<Vec<u8>>;

// A data directory in memory. A file that was opened stays readable when its
// name is gone.
#[derive(Default)]
struct Disk {
    files: BTreeMap<Vec<u8>, File>,
    log: Vec<u8>,
}

impl Disk {
    fn has(&self, name: &str) -> bool {
        self.files.contains_key(name.as_bytes())
    }

    fn write(&mut self, name: &str, bytes: &[u8]) {
        self.files
            .insert(name.as_bytes().to_vec(), Arc::new(bytes.to_vec()));
    }

    fn publish(&mut self, image: TableImage) -> SSTable<File> {
        let file = Arc::new(image.bytes.clone());
        self.files.insert(image.tmp_name.clone(), file.clone());
        self.files.remove(&image.tmp_name);
        self.files.insert(image.name.clone(), file.clone());
        image.into_table(file)
    }
}

fn text(bytes: &[u8]) -> String {
    String::from_utf8_lossy(bytes).into_owned()
}

fn open_table(name: &str, disk: &Disk, first: u64, last: u64) -> Result<SSTable<File>, TableError> {
    let file = disk.files[name.as_bytes()].clone();
    SSTable::open(name.as_bytes().to_vec(), file.clone(), &file, first, last)
}

fn open_set(disk: &mut Disk, bits_per_key: usize) -> Result<SSTableSet<File>, String> {
    let mut directory = Directory::new();
    let names: Vec<Vec<u8>> = disk.files.keys().cloned().collect();
    for name in names {
        match directory.note(name.clone()) {
            Noted::Table | Noted::Ignore => {}
            Noted::Delete => {
                disk.files.remove(&name);
            }
            Noted::Reject => return Err(text(&describe_unrecognised(&name))),
        }
    }
    let next_seq = directory.next_seq().unwrap();
    let mut tables = Vec::new();
    for step in directory.plan() {
        match step {
            RecoveryStep::Delete(f) => {
                disk.files.remove(&f.name);
            }
            RecoveryStep::Load(f) => {
                let file = disk.files[&f.name].clone();
                let contents = file.clone();
                match SSTable::open(f.name.clone(), file, &contents, f.first_seq, f.last_seq) {
                    Ok(table) => tables.push(table),
                    Err(e) => return Err(text(&e.describe(&f.name))),
                }
            }
        }
    }
    Ok(SSTableSet::open(tables, bits_per_key, next_seq))
}

fn write(disk: &mut Disk, set: &mut SSTableSet<File>, memtable: &Memtable) {
    if let Some(image) = set.write(memtable) {
        let table = disk.publish(image);
        set.publish(table);
    }
}

fn compact(disk: &mut Disk, set: &mut SSTableSet<File>, start: usize, count: usize) {
    let mut compaction = set.compact(start, count);
    loop {
        match compaction.merge.advance().unwrap() {
            MergeStep::Done => break,
            MergeStep::Read { source, table, start, end } => {
                let block = table.file[start as usize..end as usize].to_vec();
                compaction.merge.feed(source, block);
            }
        }
    }
    let replacement = set.replacement(&compaction).map(|image| disk.publish(image));
    for table in set.install(start, count, replacement) {
        disk.files.remove(table.path());
    }
}

fn finish(mut lookup: Lookup<File>) -> Result<Option<Vec<u8>>, TableError> {
    let mut step = lookup.advance()?;
    loop {
        match step {
            LookupStep::Done(value) => return Ok(value),
            LookupStep::Read { table, start, end } => {
                step = lookup.resume(&table.file[start as usize..end as usize])?;
            }
        }
    }
}

fn get(set: &SSTableSet<File>, key: &[u8]) -> Option<Vec<u8>> {
    finish(set.get(key)).unwrap()
}

// What one table says about a key.
fn ask(table: &SSTable<File>, key: &[u8]) -> Option<Found> {
    match table.meta.block_for(key, hash64(key)).unwrap() {
        None => None,
        Some((start, end)) => {
            search_block(&table.file[start as usize..end as usize], key).unwrap()
        }
    }
}

fn pick_run(set: &SSTableSet<File>, min_run: usize, ratio: f64) -> Option<(usize, usize)> {
    let sizes: Vec<u64> = set.snapshot().iter().map(|t| t.file.len() as u64).collect();
    SSTableSet::<File>::pick_run(&sizes, min_run, |smallest, largest| {
        largest as f64 > smallest as f64 * ratio
    })
}

fn memtable(entries: &[(&str, Option<&str>)]) -> Memtable {
    let mut map = Memtable::new();
    for (k, v) in entries {
        map.insert(k.as_bytes().to_vec(), v.map(|v| v.as_bytes().to_vec()));
    }
    map
}

// Enough padding that a few hundred records span several blocks and the sparse
// index gets more than one entry.
fn wide_memtable(count: usize) -> Memtable {
    let mut map = Memtable::new();
    for i in 0..count {
        let key = format!("key{:05}", i).into_bytes();
        let value = format!("{:0>64}", i).into_bytes();
        map.insert(key, Some(value));
    }
    map
}

fn value_of(found: Option<Found>) -> Option<Vec<u8>> {
    match found {
        Some(Found::Value(v)) => Some(v),
        _ => None,
    }
}

// ------------------------------------------------------------------- tables

#[test]
fn trailer_points_at_each_block() {
    let mut disk = Disk::default();
    let mut set = open_set(&mut disk, BITS_PER_KEY).unwrap();
    write(
        &mut disk,
        &mut set,
        &memtable(&[("a", Some("1")), ("b", Some("2"))]),
    );

    let bytes = disk.files[b"sstable-000000-000000.sst".as_slice()].clone();
    let trailer = &bytes[bytes.len() - TRAILER_SIZE..];
    let index_start = u64::from_le_bytes(trailer[0..8].try_into().unwrap()) as usize;
    let filter_start = u64::from_le_bytes(trailer[8..16].try_into().unwrap()) as usize;
    let meta_start = u64::from_le_bytes(trailer[16..24].try_into().unwrap()) as usize;

    // Two records of [4][1][4][1][1] = 11 bytes each.
    assert_eq!(index_start, 22);
    // One index entry covers both records: [4][1][8].
    assert_eq!(filter_start, index_start + 13);
    assert_eq!(meta_start, filter_start + 20);
    // Metadata is min_key then max_key, each length-prefixed.
    assert_eq!(
        &bytes[meta_start..bytes.len() - TRAILER_SIZE],
        b"\x01\0\0\0a\x01\0\0\0b"
    );

    assert_eq!(&trailer[24..30], b"LSMRS\0");
    assert_eq!(trailer[30], FORMAT_VERSION);
}

#[test]
fn foreign_file_is_rejected() {
    let mut disk = Disk::default();
    disk.write("sstable-000000-000000.sst", &[0u8; 128]);

    let err = open_table("sstable-000000-000000.sst", &disk, 0, 0)
        .err()
        .expect("open should have failed");
    assert_eq!(err, TableError::NotATable);
    assert!(text(&err.describe(b"x.sst")).contains("not an lsmrs SSTable"));
}

#[test]
fn wrong_format_version_is_rejected() {
    let mut disk = Disk::default();
    let mut set = open_set(&mut disk, BITS_PER_KEY).unwrap();
    write(&mut disk, &mut set, &memtable(&[("a", Some("1"))]));

    let mut bytes = disk.files[b"sstable-000000-000000.sst".as_slice()].to_vec();
    let version_at = bytes.len() - 2;
    bytes[version_at] = FORMAT_VERSION + 1;
    disk.write("sstable-000000-000000.sst", &bytes);

    let err = open_table("sstable-000000-000000.sst", &disk, 0, 0)
        .err()
        .expect("open should have failed");
    assert_eq!(
        text(&err.describe(b"x.sst")),
        "x.sst has SSTable format version 2, expected 1"
    );
    assert!(text(&err.describe(b"x.sst")).contains("format version"));
}

#[test]
fn filter_survives_reopen() {
    let mut disk = Disk::default();
    let mut set = open_set(&mut disk, BITS_PER_KEY).unwrap();
    let entries = wide_memtable(300);
    write(&mut disk, &mut set, &entries);

    let reopened = open_table("sstable-000000-000000.sst", &disk, 0, 0).unwrap();
    let written = set.snapshot();
    assert_eq!(
        reopened.meta.filter.num_bits(),
        written[0].meta.filter.num_bits()
    );
    assert_eq!(
        reopened.meta.filter.num_probes(),
        written[0].meta.filter.num_probes()
    );

    for (key, _) in entries.records() {
        assert!(
            reopened.meta.filter.contains(hash64(key)),
            "filter lost a key"
        );
    }
}

#[test]
fn reads_continue_during_compaction() {
    let mut disk = Disk::default();
    let mut set = open_set(&mut disk, BITS_PER_KEY).unwrap();
    write(&mut disk, &mut set, &wide_memtable(300));
    write(&mut disk, &mut set, &memtable(&[("zzz", Some("last"))]));

    // Lookups that have begun, some of them in the middle of a table, before the
    // compaction deletes both of their files.
    let mut readers = Vec::new();
    for i in (0..300).step_by(7) {
        let key = format!("key{:05}", i).into_bytes();
        let mut lookup = set.get(&key);
        let step = lookup.advance().unwrap();
        readers.push((i, lookup, step));
    }

    compact(&mut disk, &mut set, 0, 2);

    for (i, mut lookup, step) in readers {
        let found = match step {
            LookupStep::Read { table, start, end } => lookup
                .resume(&table.file[start as usize..end as usize])
                .unwrap(),
            LookupStep::Done(_) => panic!("reader lost key {i} before the compaction"),
        };
        match found {
            LookupStep::Done(value) => assert_eq!(
                value,
                Some(format!("{:0>64}", i).into_bytes()),
                "reader lost key {i} mid-compaction"
            ),
            LookupStep::Read { .. } => panic!("reader lost key {i} mid-compaction"),
        }
    }
    assert_eq!(set.snapshot().len(), 1);
}

#[test]
fn pick_run_groups_only_similar_sizes() {
    let mut disk = Disk::default();
    let mut set = open_set(&mut disk, BITS_PER_KEY).unwrap();

    write(&mut disk, &mut set, &wide_memtable(400));
    for i in 0..3 {
        write(
            &mut disk,
            &mut set,
            &memtable(&[(&format!("k{i}"), Some("v"))]),
        );
    }

    // The large table must not be dragged into a merge with three tiny ones --
    // that is the write amplification size-tiering exists to avoid.
    assert_eq!(pick_run(&set, 3, 1.5), Some((1, 3)));
    assert_eq!(pick_run(&set, 4, 1.5), None);
}

#[test]
fn pick_run_needs_a_full_run() {
    let mut disk = Disk::default();
    let mut set = open_set(&mut disk, BITS_PER_KEY).unwrap();
    write(&mut disk, &mut set, &memtable(&[("a", Some("1"))]));
    write(&mut disk, &mut set, &memtable(&[("b", Some("2"))]));

    assert_eq!(pick_run(&set, 4, 1.5), None);
    assert_eq!(pick_run(&set, 2, 1.5), Some((0, 2)));
}

#[test]
fn pick_run_takes_the_oldest_run_of_one_tier() {
    let test = |smallest: u64, largest: u64| largest as f64 > smallest as f64 * 1.5;
    let pick = |sizes: &[u64], min: usize| SSTableSet::<File>::pick_run(sizes, min, test);
    assert_eq!(pick(&[], 1), None);
    assert_eq!(pick(&[5], 1), Some((0, 1)));
    assert_eq!(pick(&[10, 15, 16, 10, 11, 12], 2), Some((0, 2)));
    assert_eq!(pick(&[10, 15, 16, 10, 11, 12], 3), Some((3, 3)));
    assert_eq!(pick(&[100, 10, 10, 100, 100, 100], 3), Some((3, 3)));
    assert_eq!(pick(&[0, 0, 1], 2), Some((0, 2)));
    // A run may start inside one that is too short.
    assert_eq!(pick(&[100, 140, 200, 200, 200], 4), Some((1, 4)));
}

#[test]
fn sstable_set_can_be_shared_across_threads() {
    fn assert_send_sync<T: Send + Sync>() {}
    assert_send_sync::<SSTableSet<File>>();
    assert_send_sync::<SSTable<File>>();
}

#[test]
fn compaction_keeps_the_newest_value() {
    let mut disk = Disk::default();
    let mut set = open_set(&mut disk, BITS_PER_KEY).unwrap();
    write(
        &mut disk,
        &mut set,
        &memtable(&[("k", Some("old")), ("only_old", Some("x"))]),
    );
    write(&mut disk, &mut set, &memtable(&[("k", Some("new"))]));

    compact(&mut disk, &mut set, 0, 2);

    assert_eq!(set.snapshot().len(), 1);
    assert_eq!(set.snapshot()[0].span(), (0, 1));
    assert_eq!(get(&set, b"k"), Some(b"new".to_vec()));
    assert_eq!(get(&set, b"only_old"), Some(b"x".to_vec()));
    assert!(disk.has("sstable-000000-000001.sst"));
    assert!(!disk.has("sstable-000000-000000.sst"));
    assert!(!disk.has("sstable-000001-000001.sst"));
}

#[test]
fn oldest_compaction_drops_tombstones() {
    let mut disk = Disk::default();
    let mut set = open_set(&mut disk, BITS_PER_KEY).unwrap();
    write(&mut disk, &mut set, &memtable(&[("k", Some("live"))]));
    write(&mut disk, &mut set, &memtable(&[("k", None)]));

    compact(&mut disk, &mut set, 0, 2);

    // Every record was a delete of a key this merge also owned, so there is
    // nothing left to write and no output file at all.
    assert!(set.snapshot().is_empty());
    assert!(!disk.has("sstable-000000-000001.sst"));
    assert_eq!(get(&set, b"k"), None);
}

#[test]
fn tombstone_is_carried_when_an_older_table_remains() {
    let mut disk = Disk::default();
    let mut set = open_set(&mut disk, BITS_PER_KEY).unwrap();
    write(&mut disk, &mut set, &memtable(&[("k", Some("live"))]));
    write(&mut disk, &mut set, &memtable(&[("other", Some("1"))]));
    write(&mut disk, &mut set, &memtable(&[("k", None)]));

    compact(&mut disk, &mut set, 1, 2);

    // Dropping the tombstone here would expose "live" in table 0 again.
    assert_eq!(set.snapshot().len(), 2);
    assert_eq!(get(&set, b"k"), None);
    assert_eq!(get(&set, b"other"), Some(b"1".to_vec()));
}

#[test]
fn compaction_preserves_every_key() {
    let mut disk = Disk::default();
    let mut set = open_set(&mut disk, BITS_PER_KEY).unwrap();
    write(&mut disk, &mut set, &wide_memtable(300));
    write(&mut disk, &mut set, &memtable(&[("zzz", Some("last"))]));

    compact(&mut disk, &mut set, 0, 2);

    assert_eq!(set.snapshot().len(), 1);
    for i in 0..300 {
        let key = format!("key{:05}", i).into_bytes();
        assert_eq!(
            get(&set, &key),
            Some(format!("{:0>64}", i).into_bytes()),
            "lost key {i}"
        );
    }
    assert_eq!(get(&set, b"zzz"), Some(b"last".to_vec()));
}

#[test]
fn a_flush_during_a_compaction_is_kept() {
    let mut disk = Disk::default();
    let mut set = open_set(&mut disk, BITS_PER_KEY).unwrap();
    write(&mut disk, &mut set, &memtable(&[("a", Some("1"))]));
    write(&mut disk, &mut set, &memtable(&[("a", Some("2"))]));

    let mut compaction = set.compact(0, 2);
    // Meanwhile a newer table is published.
    write(&mut disk, &mut set, &memtable(&[("a", Some("3")), ("b", Some("4"))]));
    loop {
        match compaction.merge.advance().unwrap() {
            MergeStep::Done => break,
            MergeStep::Read { source, table, start, end } => {
                let block = table.file[start as usize..end as usize].to_vec();
                compaction.merge.feed(source, block);
            }
        }
    }
    let image = set.replacement(&compaction).unwrap();
    assert_eq!(image.name, b"sstable-000000-000001.sst");
    let table = disk.publish(image);
    let obsolete = set.install(0, 2, Some(table));
    assert_eq!(obsolete.len(), 2);
    assert_eq!(obsolete[1].span(), (1, 1));

    assert_eq!(set.len(), 2);
    assert_eq!(set.snapshot()[1].span(), (2, 2));
    assert_eq!(get(&set, b"a"), Some(b"3".to_vec()));
    assert_eq!(get(&set, b"b"), Some(b"4".to_vec()));
}

fn read_all(table: Arc<SSTable<File>>) -> Vec<(Vec<u8>, Option<Vec<u8>>)> {
    let mut records = Records::new(table.clone());
    let mut all = Vec::new();
    loop {
        match records.next_record().unwrap() {
            NextRecord::End => return all,
            NextRecord::Record(record) => all.push(record),
            NextRecord::Read { start, end } => {
                records.feed(table.file[start as usize..end as usize].to_vec());
            }
        }
    }
}

#[test]
fn records_iterates_every_block_in_order() {
    let mut disk = Disk::default();
    let mut set = open_set(&mut disk, BITS_PER_KEY).unwrap();
    write(&mut disk, &mut set, &wide_memtable(300));

    let records = read_all(set.snapshot()[0].clone());

    assert_eq!(records.len(), 300);
    assert!(records.windows(2).all(|w| w[0].0 < w[1].0));
    assert_eq!(records[0].0, b"key00000".to_vec());
}

#[test]
fn compaction_leftovers_are_deleted_on_open() {
    let mut disk = Disk::default();
    let mut set = open_set(&mut disk, BITS_PER_KEY).unwrap();
    write(&mut disk, &mut set, &memtable(&[("a", Some("1"))]));
    write(&mut disk, &mut set, &memtable(&[("b", Some("2"))]));

    // Stand in for a compaction that published its output and crashed before
    // deleting the two tables it consumed.
    let copy = disk.files[b"sstable-000000-000000.sst".as_slice()].clone();
    disk.write("sstable-000000-000001.sst", &copy);

    let reopened = open_set(&mut disk, BITS_PER_KEY).unwrap();

    assert_eq!(reopened.snapshot().len(), 1);
    assert_eq!(reopened.snapshot()[0].span(), (0, 1));
    assert!(!disk.has("sstable-000000-000000.sst"));
    assert!(!disk.has("sstable-000001-000001.sst"));
}

#[test]
fn stray_tmp_files_are_removed_on_open() {
    let mut disk = Disk::default();
    let mut set = open_set(&mut disk, BITS_PER_KEY).unwrap();
    write(&mut disk, &mut set, &memtable(&[("a", Some("1"))]));

    disk.write("sstable-000001-000001.sst.tmp", b"half a table");

    let reopened = open_set(&mut disk, BITS_PER_KEY).unwrap();

    assert_eq!(reopened.snapshot().len(), 1);
    assert!(!disk.has("sstable-000001-000001.sst.tmp"));
}

#[test]
fn sequence_numbers_continue_after_reopen() {
    let mut disk = Disk::default();
    let mut set = open_set(&mut disk, BITS_PER_KEY).unwrap();
    write(&mut disk, &mut set, &memtable(&[("a", Some("1"))]));
    write(&mut disk, &mut set, &memtable(&[("b", Some("2"))]));

    let mut reopened = open_set(&mut disk, BITS_PER_KEY).unwrap();
    assert_eq!(reopened.next_seq(), 2);

    write(&mut disk, &mut reopened, &memtable(&[("c", Some("3"))]));
    assert!(disk.has("sstable-000002-000002.sst"));
}

#[test]
fn unrecognised_sst_name_is_rejected() {
    let mut disk = Disk::default();
    disk.write("sstable-000000.sst", b"old scheme");

    let err = open_set(&mut disk, BITS_PER_KEY)
        .err()
        .expect("open should have failed");
    assert!(err.contains("naming scheme"));
}

#[test]
fn write_then_open_roundtrips() {
    let mut disk = Disk::default();
    let mut set = open_set(&mut disk, BITS_PER_KEY).unwrap();
    write(
        &mut disk,
        &mut set,
        &memtable(&[("a", Some("1")), ("b", Some("2"))]),
    );

    let reopened = open_table("sstable-000000-000000.sst", &disk, 0, 0).unwrap();
    let written = &set.snapshot()[0];

    assert_eq!(reopened.meta.min_key, written.meta.min_key);
    assert_eq!(reopened.meta.max_key, written.meta.max_key);
    assert_eq!(reopened.meta.index_start, written.meta.index_start);
    assert_eq!(reopened.meta.sparse_index, written.meta.sparse_index);
}

#[test]
fn finds_key_that_is_not_first_in_its_block() {
    let mut disk = Disk::default();
    let mut set = open_set(&mut disk, BITS_PER_KEY).unwrap();
    write(
        &mut disk,
        &mut set,
        &memtable(&[("a", Some("1")), ("b", Some("2")), ("c", Some("3"))]),
    );

    // Only "a" is indexed, so "c" is only reachable by scanning forward.
    let found = ask(&set.snapshot()[0], b"c");
    assert_eq!(value_of(found), Some(b"3".to_vec()));
}

#[test]
fn missing_key_inside_range_is_not_found() {
    let mut disk = Disk::default();
    let mut set = open_set(&mut disk, BITS_PER_KEY).unwrap();
    write(
        &mut disk,
        &mut set,
        &memtable(&[("a", Some("1")), ("c", Some("3"))]),
    );

    // "b" sorts between the two, so the scan has to overshoot and give up rather
    // than returning "c".
    assert!(ask(&set.snapshot()[0], b"b").is_none());
    assert!(ask(&set.snapshot()[0], b"zz").is_none());
    assert!(ask(&set.snapshot()[0], b"0").is_none());
}

#[test]
fn spans_multiple_blocks() {
    let mut disk = Disk::default();
    let mut set = open_set(&mut disk, BITS_PER_KEY).unwrap();
    let entries = wide_memtable(300);
    write(&mut disk, &mut set, &entries);

    let sstable = &set.snapshot()[0];
    assert!(
        sstable.meta.sparse_index.len() > 1,
        "expected several blocks, got {} index entries",
        sstable.meta.sparse_index.len()
    );

    // Every key must be reachable, including ones in the middle and last blocks
    // where the end of the block comes from the next index entry.
    for i in 0..300 {
        let key = format!("key{:05}", i).into_bytes();
        let found = ask(sstable, &key);
        assert_eq!(
            value_of(found),
            Some(format!("{:0>64}", i).into_bytes()),
            "lost key {}",
            i
        );
    }
}

#[test]
fn newer_table_shadows_older() {
    let mut disk = Disk::default();
    let mut set = open_set(&mut disk, BITS_PER_KEY).unwrap();
    write(
        &mut disk,
        &mut set,
        &memtable(&[("k", Some("old")), ("only_old", Some("x"))]),
    );
    write(&mut disk, &mut set, &memtable(&[("k", Some("new"))]));

    assert_eq!(get(&set, b"k"), Some(b"new".to_vec()));
    assert_eq!(get(&set, b"only_old"), Some(b"x".to_vec()));
}

#[test]
fn tombstone_in_newer_table_hides_older_value() {
    let mut disk = Disk::default();
    let mut set = open_set(&mut disk, BITS_PER_KEY).unwrap();
    write(&mut disk, &mut set, &memtable(&[("k", Some("live"))]));
    write(&mut disk, &mut set, &memtable(&[("k", None)]));

    assert_eq!(get(&set, b"k"), None);
}

#[test]
fn empty_memtable_writes_nothing() {
    let mut disk = Disk::default();
    let mut set = open_set(&mut disk, BITS_PER_KEY).unwrap();
    write(&mut disk, &mut set, &Memtable::new());

    assert!(set.snapshot().is_empty());
    assert!(!disk.has("sstable-000000-000000.sst"));
}

#[test]
fn damaged_tables_are_told_apart() {
    let mut disk = Disk::default();
    let mut set = open_set(&mut disk, BITS_PER_KEY).unwrap();
    write(&mut disk, &mut set, &memtable(&[("a", Some("1")), ("b", None)]));
    let good = disk.files[b"sstable-000000-000000.sst".as_slice()].to_vec();
    let n = good.len();

    let fault = |bytes: &[u8]| {
        SSTable::open(b"t".to_vec(), (), bytes, 0, 0)
            .err()
            .expect("open should have failed")
    };
    assert_eq!(fault(&good[..31]), TableError::TooShort);
    // A metadata block that lies behind the end.
    let mut bad = good.clone();
    bad[n - 16] = 0xff;
    bad[n - 15] = 0xff;
    assert_eq!(fault(&bad), TableError::Truncated);
    // A filter with no bits at all is no reason not to open the table. It shows
    // where a key is looked up that the table could hold.
    let filter_start = u64::from_le_bytes(good[n - 24..n - 16].try_into().unwrap()) as usize;
    let mut bad = good.clone();
    bad[filter_start] = 0;
    let table = SSTable::open(b"t".to_vec(), (), &bad, 0, 0).unwrap();
    assert_eq!(table.meta.filter.num_bits(), 0);
    assert!(matches!(
        table.meta.block_for(b"a", hash64(b"a")),
        Err(TableError::InvalidFilter)
    ));
    assert!(matches!(table.meta.block_for(b"c", hash64(b"c")), Ok(None)));
    let mut lookup = SSTableSet::open(vec![table], BITS_PER_KEY, 1).get(b"b");
    assert!(matches!(lookup.advance(), Err(TableError::InvalidFilter)));

    // A record whose operation stands for nothing: the first one is 11 bytes.
    let mut bad = good.clone();
    bad[10] = 9;
    assert!(matches!(
        search_block(&bad[..11], b"a"),
        Err(TableError::InvalidOperation)
    ));
    assert!(matches!(
        search_block(&good[..10], b"a"),
        Err(TableError::Truncated)
    ));
    // An index whose only block ends before it starts.
    let mut bad = good.clone();
    let index_start = u64::from_le_bytes(good[n - 32..n - 24].try_into().unwrap()) as usize;
    bad[index_start + 5] = 0xff;
    let table = SSTable::open(b"t".to_vec(), (), &bad, 0, 0).unwrap();
    assert!(matches!(
        table.meta.block_for(b"a", hash64(b"a")),
        Err(TableError::InvalidIndex)
    ));

    assert_eq!(
        text(&TableError::InvalidOperation.describe(b"t")),
        "invalid op_type byte in SSTable record"
    );
    assert_eq!(
        text(&TableError::TooShort.describe(b"t")),
        "t is too short to be an SSTable"
    );
}

#[test]
fn a_damaged_table_stops_a_merge() {
    let mut disk = Disk::default();
    let mut set = open_set(&mut disk, BITS_PER_KEY).unwrap();
    write(&mut disk, &mut set, &memtable(&[("a", Some("1"))]));
    write(&mut disk, &mut set, &memtable(&[("b", Some("2"))]));

    let mut compaction = set.compact(0, 2);
    let mut fault = None;
    while fault.is_none() {
        match compaction.merge.advance() {
            Err(e) => fault = Some(e),
            Ok(MergeStep::Done) => panic!("the damage went unnoticed"),
            Ok(MergeStep::Read { source, table, start, end }) => {
                let mut block = table.file[start as usize..end as usize].to_vec();
                if source == 1 {
                    block.pop();
                    block.push(7);
                }
                compaction.merge.feed(source, block);
            }
        }
    }
    assert_eq!(fault, Some(TableError::InvalidOperation));
}

#[test]
fn records_before_the_damage_are_given() {
    let mut disk = Disk::default();
    let mut set = open_set(&mut disk, BITS_PER_KEY).unwrap();
    let entries = [("a", Some("1")), ("b", Some("2")), ("c", None)];
    write(&mut disk, &mut set, &memtable(&entries));
    let table = set.snapshot()[0].clone();

    // Records of 11 bytes: the second one has an unknown operation, or the third
    // one is cut off.
    for (at, cut, given, expected) in [
        (21, 0, 1, TableError::InvalidOperation),
        (21, 1, 1, TableError::InvalidOperation),
        (0, 1, 2, TableError::Truncated),
    ] {
        let mut records = Records::new(table.clone());
        match records.next_record().unwrap() {
            NextRecord::Read { start, end } => {
                let mut block = table.file[start as usize..end as usize - cut].to_vec();
                if at > 0 {
                    block[at] = 7;
                }
                records.feed(block);
            }
            _ => panic!("nothing was asked for"),
        }
        for (key, value) in &entries[..given] {
            match records.next_record().unwrap() {
                NextRecord::Record((k, v)) => {
                    assert_eq!(k, key.as_bytes());
                    assert_eq!(v, value.map(|v| v.as_bytes().to_vec()));
                }
                _ => panic!("a record was lost"),
            }
        }
        assert_eq!(records.next_record().err(), Some(expected));
    }
}

// Of two damaged tables, the one is named whose damage the merge meets first.
#[test]
fn the_first_damage_is_reported() {
    let mut disk = Disk::default();
    let mut set = open_set(&mut disk, BITS_PER_KEY).unwrap();
    write(&mut disk, &mut set, &memtable(&[("a", Some("1")), ("y", Some("2"))]));
    write(&mut disk, &mut set, &memtable(&[("b", Some("3")), ("c", Some("4"))]));

    // Each record is 11 bytes. Damage in the second record of either table.
    let fault = |older: bool, newer: bool| {
        let mut merge = set.compact(0, 2).merge;
        loop {
            match merge.advance() {
                Err(e) => return Some((e, merge.merged.len())),
                Ok(MergeStep::Done) => return None,
                Ok(MergeStep::Read { source, table, start, end }) => {
                    let mut block = table.file[start as usize..end as usize].to_vec();
                    if source == 0 && older {
                        block.pop();
                    }
                    if source == 1 && newer {
                        block[21] = 7;
                    }
                    merge.feed(source, block);
                }
            }
        }
    };
    assert_eq!(fault(false, false), None);
    assert_eq!(fault(true, true), Some((TableError::Truncated, 1)));
    assert_eq!(fault(true, false), Some((TableError::Truncated, 1)));
    assert_eq!(fault(false, true), Some((TableError::InvalidOperation, 2)));
}

#[test]
fn names_say_which_flushes_a_table_covers() {
    assert_eq!(table_name(3, 17), b"sstable-000003-000017.sst");
    assert_eq!(tmp_name(3, 17), b"sstable-000003-000017.sst.tmp");
    assert_eq!(table_name(0, u64::MAX), b"sstable-000000-18446744073709551615.sst");
    for (first, last) in [(0, 0), (7, 1234567), (0, u64::MAX)] {
        assert_eq!(parse_span(&table_name(first, last)), Some((first, last)));
        assert_eq!(classify(&table_name(first, last)), FileKind::Table(first, last));
        assert_eq!(classify(&tmp_name(first, last)), FileKind::Unfinished);
    }
    assert_eq!(parse_span(b"sstable-1-+2.sst"), Some((1, 2)));
    assert_eq!(parse_span(b"sstable-1-2-3.sst"), None);
    assert_eq!(parse_span(b"sstable--2.sst"), None);
    assert_eq!(parse_span(b"table-1-2.sst"), None);
    assert_eq!(parse_span(b"sstable-1-18446744073709551616.sst"), None);
    assert_eq!(classify(b"wal.log"), FileKind::Other);
    assert_eq!(classify(b".sst"), FileKind::Other);
    assert_eq!(classify(b"sst"), FileKind::Other);
    assert_eq!(classify(b"a.sst"), FileKind::Unrecognised);
    assert_eq!(classify(b"anything.tmp"), FileKind::Unfinished);
    assert_eq!(
        text(&describe_unrecognised(b"a.sst")),
        "a.sst does not follow the SSTable naming scheme"
    );
}

#[test]
fn recovery_orders_tables_and_drops_covered_ones() {
    let mut directory = Directory::new();
    for (first, last) in [(4, 6), (0, 1), (5, 5), (2, 3), (10, 10)] {
        assert_eq!(directory.note(table_name(first, last)), Noted::Table);
    }
    assert_eq!(directory.note(b"wal.log".to_vec()), Noted::Ignore);
    assert_eq!(directory.note(b"x.tmp".to_vec()), Noted::Delete);
    assert_eq!(directory.note(b"x.sst".to_vec()), Noted::Reject);
    assert_eq!(directory.next_seq(), Some(11));
    let steps: Vec<(u64, u64, bool)> = directory
        .plan()
        .iter()
        .map(|s| match s {
            RecoveryStep::Load(f) => (f.first_seq, f.last_seq, true),
            RecoveryStep::Delete(f) => (f.first_seq, f.last_seq, false),
        })
        .collect();
    assert_eq!(
        steps,
        [
            (0, 1, true),
            (2, 3, true),
            (4, 6, true),
            (5, 5, false),
            (10, 10, true)
        ]
    );
    assert_eq!(Directory::new().next_seq(), Some(0));
    let mut full = Directory::new();
    full.note(table_name(0, u64::MAX));
    assert_eq!(full.next_seq(), None);
}

// -------------------------------------------------------------------- store

// A store on a disk in memory. Compaction runs after every flush.
struct Store {
    disk: Rc<RefCell<Disk>>,
    db: Db,
    tables: SSTableSet<File>,
    ratio: f64,
}

fn config(table_size: usize) -> Config {
    Config {
        sync: false,
        table_size,
        ..Config::default()
    }
}

impl Store {
    fn open(disk: &Rc<RefCell<Disk>>, config: Config) -> Self {
        let bits_per_key = config.bits_per_key;
        let log = disk.borrow().log.clone();
        let db = Db::with_config(config, &log).unwrap();
        disk.borrow_mut().log.truncate(intact_len(&log));
        let tables = open_set(&mut disk.borrow_mut(), bits_per_key).unwrap();
        Store {
            disk: disk.clone(),
            db,
            tables,
            ratio: 1.5,
        }
    }

    fn new(table_size: usize) -> Self {
        Store::open(&Rc::new(RefCell::new(Disk::default())), config(table_size))
    }

    fn put(&mut self, key: &[u8], value: &[u8]) {
        let append = self.db.put(key, value);
        assert_eq!(append.sync, self.db.config().sync);
        self.disk.borrow_mut().log.extend_from_slice(&append.bytes);
        if self.db.put_logged(key.to_vec(), value.to_vec()) {
            self.flush();
        }
    }

    fn delete(&mut self, key: &[u8]) {
        let append = self.db.delete(key);
        self.disk.borrow_mut().log.extend_from_slice(&append.bytes);
        if self.db.delete_logged(key.to_vec()) {
            self.flush();
        }
    }

    fn flush(&mut self) {
        let mut disk = self.disk.borrow_mut();
        if let Some(image) = self.db.flush(&self.tables) {
            let table = disk.publish(image);
            self.tables.publish(table);
        }
        self.db.flushed();
        disk.log.clear();
        self.db.truncated();
        let threshold = self.db.config().compaction_threshold;
        while let Some((start, count)) = pick_run(&self.tables, threshold, self.ratio) {
            compact(&mut disk, &mut self.tables, start, count);
        }
    }

    fn get(&self, key: &[u8]) -> Option<Vec<u8>> {
        match self.db.get(&self.tables, key) {
            Get::Known(value) => value,
            Get::Search(lookup) => finish(lookup).unwrap(),
        }
    }

    fn scan(&self) -> Vec<(Vec<u8>, Vec<u8>)> {
        let mut scan = self.db.scan(&self.tables);
        loop {
            match scan.merge.advance().unwrap() {
                MergeStep::Done => return scan.pairs(),
                MergeStep::Read { source, table, start, end } => {
                    let block = table.file[start as usize..end as usize].to_vec();
                    scan.merge.feed(source, block);
                }
            }
        }
    }
}

fn pair(key: &str, value: &str) -> (Vec<u8>, Vec<u8>) {
    (key.as_bytes().to_vec(), value.as_bytes().to_vec())
}

// A threshold of 0 makes every put trip the flush check, so the tables are
// exercised without writing megabytes.
const FLUSH_EVERY_PUT: usize = 0;

fn fresh_disk() -> Rc<RefCell<Disk>> {
    Rc::new(RefCell::new(Disk::default()))
}

#[test]
fn compaction_merges_tables_in_the_background() {
    let disk = fresh_disk();
    {
        let mut db = Store::open(&disk, config(FLUSH_EVERY_PUT));
        for i in 0..20u32 {
            db.put(format!("key{i:03}").as_bytes(), &[b'v'; 32]);
        }
    }

    let count = disk.borrow().files.len();
    assert!(
        count < 20,
        "expected compaction to reduce 20 flushes, found {}",
        count
    );

    let db = Store::open(&disk, config(FLUSH_EVERY_PUT));
    for i in 0..20u32 {
        assert_eq!(
            db.get(format!("key{i:03}").as_bytes()),
            Some(vec![b'v'; 32]),
            "lost key {i} to compaction"
        );
    }
}

#[test]
fn compaction_survives_overwrites_and_deletes() {
    let disk = fresh_disk();
    {
        let mut db = Store::open(&disk, config(FLUSH_EVERY_PUT));
        for i in 0..12u32 {
            db.put(format!("key{i:03}").as_bytes(), b"first");
        }
        for i in 0..12u32 {
            if i % 3 == 0 {
                db.delete(format!("key{i:03}").as_bytes());
            } else {
                db.put(format!("key{i:03}").as_bytes(), b"second");
            }
        }
    }

    let db = Store::open(&disk, config(FLUSH_EVERY_PUT));
    for i in 0..12u32 {
        let expected = match i % 3 {
            0 => None,
            _ => Some(b"second".to_vec()),
        };
        assert_eq!(db.get(format!("key{i:03}").as_bytes()), expected);
    }
}

#[test]
fn put_then_get_returns_value() {
    let mut db = Store::new(Config::default().table_size);
    db.put(b"foo", b"bar");
    assert_eq!(db.get(b"foo"), Some(b"bar".to_vec()));
}

#[test]
fn get_missing_returns_none() {
    let db = Store::new(Config::default().table_size);
    assert_eq!(db.get(b"missing"), None);
}

#[test]
fn delete_removes_key() {
    let mut db = Store::new(Config::default().table_size);
    db.put(b"k", b"v");
    db.delete(b"k");
    assert_eq!(db.get(b"k"), None);
}

#[test]
fn delete_missing_is_a_noop() {
    let mut db = Store::new(Config::default().table_size);
    db.delete(b"nope");
    assert_eq!(db.get(b"nope"), None);
}

#[test]
fn put_overwrites_existing_value() {
    let mut db = Store::new(Config::default().table_size);
    db.put(b"k", b"v1");
    db.put(b"k", b"v2");
    assert_eq!(db.get(b"k"), Some(b"v2".to_vec()));
}

#[test]
fn flushed_value_is_readable() {
    let mut db = Store::new(FLUSH_EVERY_PUT);
    db.put(b"a", b"1");
    db.put(b"b", b"2");

    // Both keys left the memtable in the flush; the read path has to find them
    // in the table that was just created.
    assert_eq!(db.get(b"a"), Some(b"1".to_vec()));
    assert_eq!(db.get(b"b"), Some(b"2".to_vec()));
}

#[test]
fn tombstone_hides_flushed_value() {
    let mut db = Store::new(FLUSH_EVERY_PUT);
    db.put(b"a", b"1");
    db.put(b"b", b"2");

    // `a` now lives on disk. The read path must stop at its tombstone instead of
    // falling through to the table.
    db.delete(b"a");
    assert_eq!(db.get(b"a"), None);
}

#[test]
fn second_flush_does_not_clobber_first() {
    let mut db = Store::new(FLUSH_EVERY_PUT);
    db.put(b"a", b"1");
    db.put(b"b", b"2");
    db.put(b"c", b"3");
    db.put(b"d", b"4");

    assert_eq!(db.get(b"a"), Some(b"1".to_vec()));
    assert_eq!(db.get(b"b"), Some(b"2".to_vec()));
    assert_eq!(db.get(b"c"), Some(b"3".to_vec()));
    assert_eq!(db.get(b"d"), Some(b"4".to_vec()));
}

#[test]
fn reopen_replays_wal() {
    let disk = fresh_disk();
    {
        let mut db = Store::open(&disk, config(usize::MAX));
        db.put(b"a", b"1");
        db.put(b"b", b"2");
        db.delete(b"a");
    }

    let db = Store::open(&disk, config(usize::MAX));
    assert_eq!(db.get(b"b"), Some(b"2".to_vec()));
    assert_eq!(db.get(b"a"), None);
}

#[test]
fn reopen_after_flush_reads_sstable() {
    let disk = fresh_disk();
    {
        let mut db = Store::open(&disk, config(FLUSH_EVERY_PUT));
        db.put(b"a", b"1");
        db.put(b"b", b"2");
    }

    // The flush truncated the log, so this can only come from the table.
    let db = Store::open(&disk, config(FLUSH_EVERY_PUT));
    assert_eq!(db.get(b"a"), Some(b"1".to_vec()));
    assert_eq!(db.get(b"b"), Some(b"2".to_vec()));
}

#[test]
fn wal_is_empty_after_flush() {
    let disk = fresh_disk();
    let mut db = Store::open(&disk, config(FLUSH_EVERY_PUT));
    db.put(b"a", b"1");
    db.put(b"b", b"2");

    assert_eq!(disk.borrow().log.len(), 0);
}

#[test]
fn put_get_delete_roundtrip() {
    let mut db = Store::new(usize::MAX);
    db.put(b"alpha", b"1");
    db.put(b"beta", b"2");

    assert_eq!(db.get(b"alpha"), Some(b"1".to_vec()));
    assert_eq!(db.get(b"beta"), Some(b"2".to_vec()));

    db.delete(b"alpha");
    assert_eq!(db.get(b"alpha"), None);
    assert_eq!(db.get(b"beta"), Some(b"2".to_vec()));
}

#[test]
fn data_survives_reopen_across_a_flush() {
    let disk = fresh_disk();
    {
        let mut db = Store::open(&disk, config(0));
        db.put(b"alpha", b"1");
        db.put(b"beta", b"2");
        db.put(b"gamma", b"3");
    }

    let db = Store::open(&disk, config(0));
    assert_eq!(db.get(b"alpha"), Some(b"1".to_vec()));
    assert_eq!(db.get(b"beta"), Some(b"2".to_vec()));
    assert_eq!(db.get(b"gamma"), Some(b"3".to_vec()));
}

#[test]
fn a_flush_is_due_once_the_threshold_is_passed() {
    let mut db = Db::with_config(config(6), b"").unwrap();
    assert!(!db.put_logged(b"ab".to_vec(), b"cd".to_vec()));
    assert!(!db.delete_logged(b"ef".to_vec()));
    assert!(db.put_logged(b"g".to_vec(), b"".to_vec()));
    assert_eq!(db.pending(), 3);
    db.flushed();
    assert_eq!(db.pending(), 0);
    // The count goes on until the log has been emptied.
    assert!(db.put_logged(b"".to_vec(), b"".to_vec()));
    db.truncated();
    assert!(!db.put_logged(b"h".to_vec(), b"".to_vec()));
}

#[test]
fn settings_have_their_defaults() {
    let config = Config::default();
    assert_eq!(config.path, "data");
    assert!(config.sync);
    assert_eq!(config.table_size, 4096 * 1024);
    assert_eq!(config.bits_per_key, 10);
    assert_eq!(config.compaction_threshold, 4);
}

#[test]
fn a_scan_shows_what_is_alive() {
    let mut db = Store::new(usize::MAX);
    assert!(db.scan().is_empty());
    db.put(b"b", b"2");
    db.put(b"a", b"1");
    db.put(b"c", b"3");
    db.delete(b"b");
    assert_eq!(db.scan(), vec![pair("a", "1"), pair("c", "3")]);
    db.flush();
    assert_eq!(db.scan(), vec![pair("a", "1"), pair("c", "3")]);
}

#[test]
fn a_scan_finds_what_was_flushed() {
    let mut db = Store::new(FLUSH_EVERY_PUT);
    db.put(b"b", b"2");
    db.put(b"a", b"1");
    assert_eq!(db.db.pending(), 0);
    assert_eq!(db.scan(), vec![pair("a", "1"), pair("b", "2")]);
}

#[test]
fn a_scan_lists_what_reads_see() {
    let mut db = Store::new(2000);
    for i in 0..900u32 {
        let n = (i * 7919) % 200;
        let key = format!("k{n:03}").into_bytes();
        if i % 5 == 0 {
            db.delete(&key);
        } else {
            db.put(&key, i.to_string().as_bytes());
        }
    }
    assert!(db.db.pending() > 0);
    assert!(!db.tables.snapshot().is_empty());

    let mut expected = Vec::new();
    for n in 0..200 {
        let key = format!("k{n:03}").into_bytes();
        if let Some(value) = db.get(&key) {
            expected.push((key, value));
        }
    }
    assert!(expected.len() < 200);
    assert_eq!(db.scan(), expected);
}

#[test]
fn what_a_reopened_log_holds_counts_towards_the_next_flush() {
    let disk = fresh_disk();
    {
        let mut db = Store::open(&disk, config(4));
        db.put(b"a", b"1");
        db.put(b"b", b"2");
    }
    let mut db = Store::open(&disk, config(4));
    assert_eq!(db.db.size(), 4);
    db.put(b"c", b"3");
    assert!(disk.borrow().log.is_empty());
    assert_eq!(db.db.size(), 0);
    assert_eq!(db.tables.snapshot().len(), 1);
    assert_eq!(
        db.scan(),
        vec![pair("a", "1"), pair("b", "2"), pair("c", "3")]
    );
}

#[test]
fn a_write_after_a_torn_one_survives() {
    let disk = fresh_disk();
    let mut db = Store::open(&disk, config(usize::MAX));
    db.put(b"foo", b"bar");
    let before = disk.borrow().log.len();
    db.put(b"omar", b"ashour");
    let full = disk.borrow().log.clone();
    for len in before..full.len() {
        disk.borrow_mut().log = full[..len].to_vec();
        let mut reopened = Store::open(&disk, config(usize::MAX));
        reopened.put(b"k", b"v");

        let again = Store::open(&disk, config(usize::MAX));
        assert_eq!(again.scan(), vec![pair("foo", "bar"), pair("k", "v")]);
    }
}

#[test]
fn a_crash_at_any_byte_of_a_write_keeps_the_rest() {
    let disk = fresh_disk();
    let mut db = Store::open(&disk, config(usize::MAX));
    db.put(b"a", b"1");
    let before = disk.borrow().log.len();
    db.put(b"a", b"2");
    let full = disk.borrow().log.clone();
    for len in before..=full.len() {
        disk.borrow_mut().log = full[..len].to_vec();
        let reopened = Store::open(&disk, config(usize::MAX));
        let expected = if len == full.len() { b"2" } else { b"1" };
        assert_eq!(reopened.get(b"a"), Some(expected.to_vec()));
    }
}

#[test]
fn a_crash_during_a_flush_loses_nothing() {
    let disk = fresh_disk();
    let mut db = Store::open(&disk, config(usize::MAX));
    db.put(b"a", b"1");
    db.put(b"b", b"2");
    db.delete(b"a");

    let check = |disk: &Rc<RefCell<Disk>>| {
        let reopened = Store::open(disk, config(usize::MAX));
        assert_eq!(reopened.get(b"a"), None);
        assert_eq!(reopened.get(b"b"), Some(b"2".to_vec()));
    };
    // Before the table is published, with a half-written file around.
    let image = db.db.flush(&db.tables).unwrap();
    let half = image.bytes[..image.bytes.len() / 2].to_vec();
    disk.borrow_mut()
        .files
        .insert(image.tmp_name.clone(), Arc::new(half));
    check(&disk);
    // After it is published, before the log is emptied.
    disk.borrow_mut().publish(image);
    check(&disk);
    // After the log is emptied.
    disk.borrow_mut().log.clear();
    check(&disk);
}

#[test]
fn a_damaged_log_is_reported() {
    let mut db = Store::new(usize::MAX);
    db.put(b"a", b"1");
    let mut log = db.disk.borrow().log.clone();
    log[9] ^= 1;
    assert!(Db::with_config(config(0), &log).is_err());
}

// ------------------------------------------------------------------- server

fn run(store: &mut Store, request: Request) -> Outcome {
    match request {
        Request::Answer(outcome) => outcome,
        Request::Get(key) => get_reply(Ok(store.get(&key))),
        Request::Put { key, value } => {
            store.put(&key, &value);
            set_reply(Ok(()))
        }
        Request::Del(mut deletion) => {
            let mut step = deletion.step();
            loop {
                match step {
                    DelStep::Look(key) => {
                        let there = store.get(&key).is_some();
                        step = deletion.found(Ok(there));
                    }
                    DelStep::Delete(key) => {
                        store.delete(&key);
                        step = deletion.deleted(Ok(()));
                    }
                    DelStep::Done(outcome) => return outcome,
                }
            }
        }
    }
}

fn encode(store: &mut Store, parts: &[&str]) -> String {
    let args: Vec<Vec<u8>> = parts.iter().map(|p| p.as_bytes().to_vec()).collect();
    match run(store, dispatch(&args)) {
        Outcome::Reply(reply) => {
            let mut out = Vec::new();
            reply.write_to(&mut out);
            text(&out)
        }
        Outcome::Quit => "<quit>".into(),
        Outcome::Nothing => "<nothing>".into(),
    }
}

fn test_db() -> Store {
    Store::new(Config::default().table_size)
}

#[test]
fn ping_and_echo() {
    let mut db = test_db();
    assert_eq!(encode(&mut db, &["ping"]), "+PONG\r\n");
    assert_eq!(encode(&mut db, &["PING", "hi"]), "$2\r\nhi\r\n");
    assert_eq!(encode(&mut db, &["echo", "hi"]), "$2\r\nhi\r\n");
}

#[test]
fn set_get_del_round_trip() {
    let mut db = test_db();
    assert_eq!(encode(&mut db, &["SET", "k", "v"]), "+OK\r\n");
    assert_eq!(encode(&mut db, &["GET", "k"]), "$1\r\nv\r\n");
    assert_eq!(encode(&mut db, &["DEL", "k"]), ":1\r\n");
    assert_eq!(encode(&mut db, &["GET", "k"]), "$-1\r\n");
}

#[test]
fn del_counts_only_keys_that_existed() {
    let mut db = test_db();
    encode(&mut db, &["SET", "a", "1"]);
    encode(&mut db, &["SET", "b", "2"]);
    assert_eq!(encode(&mut db, &["DEL", "a", "missing", "b"]), ":2\r\n");
}

#[test]
fn del_counts_a_repeated_key_once_and_leaves_no_trace_of_absent_ones() {
    let mut db = test_db();
    encode(&mut db, &["SET", "a", "1"]);
    assert_eq!(encode(&mut db, &["DEL", "a", "a", "x"]), ":1\r\n");
    assert_eq!(db.db.pending(), 1);
}

#[test]
fn command_names_are_case_insensitive() {
    let mut db = test_db();
    encode(&mut db, &["sEt", "k", "v"]);
    assert_eq!(encode(&mut db, &["GeT", "k"]), "$1\r\nv\r\n");
}

#[test]
fn wrong_arity_is_an_error_not_a_panic() {
    let mut db = test_db();
    assert_eq!(
        encode(&mut db, &["GET"]),
        "-ERR wrong number of arguments for 'get' command\r\n"
    );
    assert_eq!(
        encode(&mut db, &["SET", "k"]),
        "-ERR wrong number of arguments for 'set' command\r\n"
    );
}

#[test]
fn every_command_has_its_arity() {
    let mut db = test_db();
    for (parts, name) in [
        (vec!["PING", "a", "b"], "ping"),
        (vec!["ECHO"], "echo"),
        (vec!["Get", "a", "b"], "get"),
        (vec!["set", "k", "v", "x"], "set"),
        (vec!["DEL"], "del"),
    ] {
        assert_eq!(
            encode(&mut db, &parts),
            format!("-ERR wrong number of arguments for '{name}' command\r\n")
        );
    }
    assert_eq!(encode(&mut db, &["COMMAND", "DOCS"]), "*0\r\n");
    assert_eq!(encode(&mut db, &["quit", "now"]), "<quit>");
}

#[test]
fn unknown_command_names_itself() {
    let mut db = test_db();
    assert_eq!(
        encode(&mut db, &["FLUSHALL"]),
        "-ERR unknown command 'FLUSHALL'\r\n"
    );
}

#[test]
fn unknown_commands_are_shown_as_text() {
    let args = vec![b"f\xffoo".to_vec()];
    let reply = match dispatch(&args) {
        Request::Answer(Outcome::Reply(reply)) => reply,
        _ => panic!("expected a reply"),
    };
    let mut out = Vec::new();
    reply.write_to(&mut out);
    assert_eq!(text(&out), "-ERR unknown command 'f\u{fffd}oo'\r\n");
    let mut out = Vec::new();
    unknown_command("x").write_to(&mut out);
    assert_eq!(text(&out), "-ERR unknown command 'x'\r\n");
}

#[test]
fn quit_and_empty_are_not_replies() {
    let mut db = test_db();
    assert_eq!(encode(&mut db, &["QUIT"]), "<quit>");
    assert_eq!(encode(&mut db, &[]), "<nothing>");
}

fn sent(outcome: Outcome) -> String {
    match outcome {
        Outcome::Reply(reply) => {
            let mut out = Vec::new();
            reply.write_to(&mut out);
            text(&out)
        }
        _ => panic!("expected a reply"),
    }
}

#[test]
fn failures_of_the_store_are_errors() {
    let failure = || "disk full".to_string();
    assert_eq!(sent(get_reply(Err(failure()))), "-ERR disk full\r\n");
    assert_eq!(sent(set_reply(Err(failure()))), "-ERR disk full\r\n");
    assert_eq!(
        sent(Outcome::Reply(server_error("disk full"))),
        "-ERR disk full\r\n"
    );
    let args = vec![b"DEL".to_vec(), b"a".to_vec(), b"b".to_vec()];
    match dispatch(&args) {
        Request::Del(mut deletion) => {
            assert!(matches!(deletion.step(), DelStep::Look(k) if k == b"a"));
            assert!(matches!(deletion.found(Ok(true)), DelStep::Delete(k) if k == b"a"));
            assert!(matches!(deletion.deleted(Ok(())), DelStep::Look(k) if k == b"b"));
            match deletion.found(Err(failure())) {
                DelStep::Done(outcome) => assert_eq!(sent(outcome), "-ERR disk full\r\n"),
                _ => panic!("expected the end"),
            }
            match deletion.deleted(Err(failure())) {
                DelStep::Done(outcome) => assert_eq!(sent(outcome), "-ERR disk full\r\n"),
                _ => panic!("expected the end"),
            }
        }
        _ => panic!("expected a deletion"),
    }
}

// A connection in memory: what came back, and whether it is over.
struct Connection {
    session: Session,
    output: Vec<u8>,
    failure: Option<RespError>,
    closed: bool,
}

impl Connection {
    fn new() -> Self {
        Connection {
            session: Session::new(),
            output: Vec::new(),
            failure: None,
            closed: false,
        }
    }

    fn send(&mut self, store: &mut Store, bytes: &[u8]) {
        self.session.receive(bytes);
        self.pump(store);
    }

    fn end(&mut self, store: &mut Store) {
        self.session.end();
        self.pump(store);
    }

    fn pump(&mut self, store: &mut Store) {
        while !self.closed {
            let mut next = self.session.next();
            if let Next::Run { args, .. } = next {
                next = self.session.answer(run(store, dispatch(&args)));
                if let Next::Read = next {
                    continue;
                }
            }
            match next {
                Next::Send(reply) => reply.write_to(&mut self.output),
                Next::SendAndClose(reply) => {
                    reply.write_to(&mut self.output);
                    self.closed = true;
                }
                Next::Close => self.closed = true,
                Next::Fail(e) => {
                    self.failure = Some(e);
                    self.closed = true;
                }
                Next::Read => return,
                Next::Run { .. } => unreachable!(),
            }
        }
    }

    fn call(&mut self, store: &mut Store, parts: &[&str]) -> String {
        let args: Vec<Vec<u8>> = parts.iter().map(|p| p.as_bytes().to_vec()).collect();
        let mut bytes = Vec::new();
        write_command(&mut bytes, &args);
        self.send(store, &bytes);
        let reply = text(&self.output);
        self.output.clear();
        reply
    }
}

#[test]
fn set_and_get_over_the_wire() {
    let mut store = test_db();
    let mut client = Connection::new();

    assert_eq!(client.call(&mut store, &["PING"]), "+PONG\r\n");
    assert_eq!(
        client.call(&mut store, &["SET", "colour", "blue"]),
        "+OK\r\n"
    );
    assert_eq!(
        client.call(&mut store, &["GET", "colour"]),
        "$4\r\nblue\r\n"
    );
    assert_eq!(client.call(&mut store, &["DEL", "colour"]), ":1\r\n");
    assert_eq!(client.call(&mut store, &["GET", "colour"]), "$-1\r\n");
}

#[test]
fn many_clients_share_one_store() {
    let mut store = test_db();
    let mut clients: Vec<Connection> = (0..8).map(|_| Connection::new()).collect();
    for j in 0..25 {
        for (i, client) in clients.iter_mut().enumerate() {
            let key = format!("c{i}-{j}");
            assert_eq!(client.call(&mut store, &["SET", &key, &key]), "+OK\r\n");
        }
    }

    let mut reader = Connection::new();
    for i in 0..8 {
        for j in 0..25 {
            let key = format!("c{i}-{j}");
            assert_eq!(
                reader.call(&mut store, &["GET", &key]),
                format!("${}\r\n{key}\r\n", key.len()),
                "lost {key}"
            );
        }
    }
}

#[test]
fn quit_closes_the_connection() {
    let mut store = test_db();
    let mut client = Connection::new();

    assert_eq!(client.call(&mut store, &["QUIT"]), "+OK\r\n");

    assert!(client.closed, "server kept the connection open");
    assert!(client.output.is_empty(), "server kept the connection open");
}

#[test]
fn protocol_error_reports_and_hangs_up() {
    let mut store = test_db();
    let mut client = Connection::new();

    client.send(&mut store, b"*1\r\n$99999999999\r\n");
    assert!(text(&client.output).starts_with("-ERR Protocol error"));
    assert_eq!(
        text(&client.output),
        "-ERR Protocol error: length exceeds the protocol limit\r\n"
    );
    assert!(client.closed);
}

#[test]
fn a_broken_connection_does_not_take_the_server_down() {
    let mut store = test_db();

    // The client is gone before it could read the reply.
    let mut rude = Connection::new();
    assert_eq!(rude.call(&mut store, &["SET", "k", "v"]), "+OK\r\n");
    rude.end(&mut store);
    assert!(rude.closed);
    assert!(rude.failure.is_none());

    let mut client = Connection::new();
    assert_eq!(client.call(&mut store, &["PING"]), "+PONG\r\n");
    assert_eq!(client.call(&mut store, &["GET", "k"]), "$1\r\nv\r\n");
}

#[test]
fn a_connection_that_breaks_off_in_a_command_runs_nothing_of_it() {
    let mut store = test_db();
    let mut rude = Connection::new();
    rude.send(&mut store, b"PING\r\n*3\r\n$3\r\nSET\r\n$1\r\nk\r\n");
    rude.end(&mut store);
    assert!(rude.closed);
    assert_eq!(rude.failure, Some(RespError::ConnectionClosed));
    assert_eq!(text(&rude.output), "+PONG\r\n");
    assert_eq!(store.get(b"k"), None);
}

#[test]
fn pipelined_commands_are_answered_in_order() {
    let mut store = test_db();
    let mut client = Connection::new();
    client.send(
        &mut store,
        b"SET k v\r\n\r\nGET k\r\n*1\r\n$4\r\nPING\r\nPI",
    );
    assert_eq!(text(&client.output), "+OK\r\n$1\r\nv\r\n+PONG\r\n");
    client.send(&mut store, b"NG\n");
    client.end(&mut store);
    assert_eq!(text(&client.output), "+OK\r\n$1\r\nv\r\n+PONG\r\n+PONG\r\n");
    assert!(client.closed);
}

// Whatever the pieces in which the bytes arrive: the same replies, none behind a
// QUIT, and a wrong command in between ends nothing.
#[test]
fn commands_are_answered_in_order_up_to_quit() {
    let mut bytes = Vec::new();
    for parts in [
        &["SET", "k", "v"][..],
        &["GET"],
        &["GET", "k"],
        &["NOPE"],
        &["quit"],
        &["SET", "k", "w"],
        &["PING"],
    ] {
        let args: Vec<Vec<u8>> = parts.iter().map(|p| p.as_bytes().to_vec()).collect();
        write_command(&mut bytes, &args);
    }
    for size in 1..=bytes.len() {
        let mut store = test_db();
        let mut client = Connection::new();
        for piece in bytes.chunks(size) {
            if !client.closed {
                client.send(&mut store, piece);
            }
        }
        assert!(client.closed);
        assert_eq!(
            text(&client.output),
            "+OK\r\n-ERR wrong number of arguments for 'get' command\r\n$1\r\nv\r\n\
             -ERR unknown command 'NOPE'\r\n+OK\r\n"
        );
        assert_eq!(store.get(b"k"), Some(b"v".to_vec()));
    }
}

#[test]
fn what_was_read_decides_what_follows() {
    let read = |bytes: &[u8], ended: bool| after_reading(read_command(bytes, ended));
    assert!(matches!(read(b"PI", false), Next::Read));
    assert!(matches!(read(b"", true), Next::Close));
    assert!(matches!(read(b"PING\r\nGET", false), Next::Run { consumed: 6, .. }));
    assert!(matches!(read(b"*1\r\n+\r\n", false), Next::SendAndClose(_)));
    assert!(matches!(
        after_reading(Err(RespError::Truncated)),
        Next::Fail(RespError::Truncated)
    ));
    assert!(matches!(after_reading(Ok(ReadStep::More)), Next::Read));
    assert!(matches!(after_command(Outcome::Nothing), Next::Read));
    assert!(matches!(after_command(Outcome::Quit), Next::SendAndClose(_)));
}
