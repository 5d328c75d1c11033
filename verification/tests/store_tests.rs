use vernam_otp::db::simple_file::SimpleFileDb;
use vernam_otp::db::DbInterface;
use vernam_otp::db::DbMode;
use vernam_otp::db::DEFAULT_KEY_SIZE;
use vernam_otp::pipeline::binary_file_import;
use vernam_otp::pipeline::process_data;
use vernam_otp::pipeline::text_file_hex_import;

fn record(fill: u8) -> Vec<u8> {
    vec![fill; DEFAULT_KEY_SIZE]
}

#[test]
fn open_loads_whole_records_and_drops_tail() {
    let mut contents = record(1);
    contents.extend_from_slice(&record(2));
    contents.extend_from_slice(&[9, 9, 9]);
    let db = SimpleFileDb::new(String::from("keys.db"), DbMode::ReadWrite, &contents);
    let keys = db.keys().expect("resident pool is loaded");
    assert_eq!(keys.len(), 2);
    assert_eq!(keys[0], record(1));
    assert_eq!(keys[1], record(2));
    assert!(db.imported_keys().is_none());
}

#[test]
fn close_after_open_writes_nothing() {
    let mut contents = record(7);
    contents.extend_from_slice(&record(8));
    let mut db = SimpleFileDb::new(String::from("keys.db"), DbMode::ReadWrite, &contents);
    assert_eq!(db.close(), None);
}

#[test]
fn close_in_read_mode_writes_nothing() {
    let contents = record(7);
    let mut db = SimpleFileDb::new(String::from("keys.db"), DbMode::Read, &contents);
    assert!(db.get_key().is_some());
    assert_eq!(db.close(), None);
}

#[test]
fn add_entropy_absorbs_whole_records_only() {
    let mut db = SimpleFileDb::new(String::from("keys.db"), DbMode::ReadWrite, &[]);
    let mut raw = record(3);
    raw.extend_from_slice(&[1, 2, 3, 4, 5, 6, 7, 8, 9, 10]);
    let absorbed = binary_file_import(&raw, &mut db);
    assert_eq!(absorbed, DEFAULT_KEY_SIZE);
    assert_eq!(db.imported_keys().expect("one key staged").len(), 1);
}

#[test]
fn short_input_absorbs_nothing() {
    let mut db = SimpleFileDb::new(String::from("keys.db"), DbMode::ReadWrite, &[]);
    let raw = vec![1u8; DEFAULT_KEY_SIZE - 1];
    let absorbed = binary_file_import(&raw, &mut db);
    assert_eq!(absorbed, 0);
    assert!(db.imported_keys().is_none());
    assert_eq!(db.close(), None);
}

#[test]
fn hex_import_stages_parsed_records() {
    let mut db = SimpleFileDb::new(String::from("keys.db"), DbMode::ReadWrite, &[]);
    let mut text = String::new();
    for _ in 0..DEFAULT_KEY_SIZE {
        text.push_str("AB ");
    }
    let absorbed = text_file_hex_import(text.trim_end().as_bytes(), &mut db);
    assert_eq!(absorbed, Some(DEFAULT_KEY_SIZE));
    assert_eq!(db.imported_keys().expect("one key staged")[0], record(0xAB));
}

#[test]
fn hex_import_rejects_malformed_text() {
    let mut db = SimpleFileDb::new(String::from("keys.db"), DbMode::ReadWrite, &[]);
    assert_eq!(text_file_hex_import("01 GG 02".as_bytes(), &mut db), None);
    assert!(db.imported_keys().is_none());
    assert_eq!(db.close(), None);
}

#[test]
fn import_close_reopen_consumes_in_reverse_order() {
    let mut db = SimpleFileDb::new(String::from("keys.db"), DbMode::ReadWrite, &[]);
    assert!(db.keys().is_none());
    let mut raw = record(1);
    raw.extend_from_slice(&record(2));
    let absorbed = binary_file_import(&raw, &mut db);
    assert_eq!(absorbed, 2 * DEFAULT_KEY_SIZE);
    assert_eq!(db.imported_keys().expect("two keys staged").len(), 2);
    let persisted = db.close().expect("dirty store persists");
    assert_eq!(persisted.len(), 2 * DEFAULT_KEY_SIZE);
    assert_eq!(&persisted[..DEFAULT_KEY_SIZE], &record(1)[..]);
    assert_eq!(&persisted[DEFAULT_KEY_SIZE..], &record(2)[..]);

    let mut db = SimpleFileDb::new(String::from("keys.db"), DbMode::ReadWrite, &persisted);
    assert_eq!(db.keys().expect("two keys resident").len(), 2);
    assert_eq!(db.get_key(), Some(record(2)));
    assert_eq!(db.get_key(), Some(record(1)));
    assert_eq!(db.get_key(), None);
}

#[test]
fn staged_pool_becomes_resident_when_resident_is_empty() {
    let mut db = SimpleFileDb::new(String::from("keys.db"), DbMode::ReadWrite, &[]);
    let mut raw = record(4);
    raw.extend_from_slice(&record(5));
    binary_file_import(&raw, &mut db);
    assert_eq!(db.get_key(), Some(record(5)));
    assert!(db.imported_keys().is_none());
    assert_eq!(db.keys().expect("remainder became resident").len(), 1);
    assert_eq!(db.get_key(), Some(record(4)));
    assert_eq!(db.get_key(), None);
}

#[test]
fn pipeline_stops_when_keys_run_out() {
    let contents = record(6);
    let mut db = SimpleFileDb::new(String::from("keys.db"), DbMode::ReadWrite, &contents);
    let input = vec![0x5Au8; DEFAULT_KEY_SIZE + 10];
    let blocks = process_data(&input, &mut db, &[]);
    assert_eq!(blocks.len(), 1);
    assert_eq!(blocks[0].len(), DEFAULT_KEY_SIZE);
    let total: usize = blocks.iter().map(|b| b.len()).sum();
    assert_eq!(total, DEFAULT_KEY_SIZE);
    assert_eq!(blocks[0], vec![0x5A ^ 6u8; DEFAULT_KEY_SIZE]);
}

#[test]
fn pipeline_processes_whole_input_when_keys_suffice() {
    let mut contents = record(1);
    contents.extend_from_slice(&record(2));
    let mut db = SimpleFileDb::new(String::from("keys.db"), DbMode::ReadWrite, &contents);
    let input = vec![0u8; DEFAULT_KEY_SIZE + 10];
    let blocks = process_data(&input, &mut db, &[]);
    assert_eq!(blocks.len(), 2);
    assert_eq!(blocks[0], record(2));
    assert_eq!(blocks[1].len(), DEFAULT_KEY_SIZE);
    assert_eq!(&blocks[1][..10], &record(1)[..10]);
}

#[test]
fn consumed_key_is_gone_after_commit_and_reload() {
    let mut contents = record(1);
    contents.extend_from_slice(&record(2));
    let mut db = SimpleFileDb::new(String::from("keys.db"), DbMode::ReadWrite, &contents);
    let taken = db.get_key().expect("a key is available");
    assert_eq!(taken, record(2));
    let persisted = db.close().expect("consumption dirties the store");
    assert_eq!(persisted, record(1));
    let mut db = SimpleFileDb::new(String::from("keys.db"), DbMode::ReadWrite, &persisted);
    assert_eq!(db.get_key(), Some(record(1)));
    assert_eq!(db.get_key(), None);
}
