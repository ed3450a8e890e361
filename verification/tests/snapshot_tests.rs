use rbmem::snapshot::{select_snapshot_files, snapshot_record};
use rbmem::time::read_time;

#[test]
fn snapshot_record_holds_digest_label_time_and_count() {
    let now = read_time("2026-05-07T12:00:00Z").unwrap();
    let raw = "meta:\n  version: 1.3\n[SECTION: a]\ncontent: x\n[END SECTION]\n[SECTION: b]\ncontent: y\n[END SECTION]\n";
    let record = snapshot_record(raw, "before-edit", now).unwrap();
    assert_eq!(record.label, "before-edit");
    assert_eq!(record.timestamp, now);
    assert_eq!(record.section_count, 2);
    assert_eq!(record.file_hash, format!("{:x}", md5::compute(raw)));
    let empty = snapshot_record("", "e", now).unwrap();
    assert_eq!(empty.file_hash, "d41d8cd98f00b204e9800998ecf8427e");
    assert_eq!(empty.section_count, 0);
}

#[test]
fn snapshot_files_are_chosen_by_label() {
    let names = vec![
        "a-1234.snap".to_string(),
        "ab-9999.snap".to_string(),
        "a-1234.rbmem".to_string(),
        "a-5678.snap".to_string(),
        "notes.txt".to_string(),
    ];
    assert_eq!(select_snapshot_files(&names, "a"), (Some(3), Some(2)));
    assert_eq!(select_snapshot_files(&names, "ab"), (Some(1), None));
    assert_eq!(select_snapshot_files(&names, "zz"), (None, None));
}
