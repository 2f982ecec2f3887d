use dupscan::digest::{digest_bytes, digest_in_chunks, digest_pieces, ContentHasher, READ_CHUNK_SIZE};
use dupscan::duplicates::DuplicateEntry;
use dupscan::index::{FileIndex, FileMeta, FileRecord};
use dupscan::order::{chars_of, key_less, path_less};
use dupscan::render::{
    header, index_report, render_line, render_report, spinner_frame, ReportError,
    MAX_RENDERABLE_MTIME, MIN_RENDERABLE_MTIME,
};
use std::hash::Hasher;
use time::OffsetDateTime;
use twox_hash::XxHash64;

fn record(path: &str, size: u64, mtime: i64, hash: u64) -> FileRecord {
    FileRecord { path: path.to_string(), size, mtime, hash }
}

fn stamp(secs: i64) -> String {
    OffsetDateTime::from_unix_timestamp(secs).unwrap().to_string()
}

fn sample_bytes(n: usize) -> Vec<u8> {
    (0..n).map(|i| (i * 31 % 251) as u8).collect()
}

#[test]
fn digest_of_empty_input_is_xxh64_seed_zero() {
    assert_eq!(digest_bytes(&[]), 0xEF46_DB37_51D8_E999);
}

#[test]
fn digest_matches_xxhash64_with_zero_seed() {
    let data = b"hello";
    let mut h = XxHash64::with_seed(0);
    h.write(data);
    assert_eq!(digest_bytes(data), h.finish());
    assert_ne!(digest_bytes(b"hello"), digest_bytes(b"world"));
}

#[test]
fn digest_is_independent_of_chunking() {
    let data = sample_bytes(10_000);
    let whole = digest_bytes(&data);
    for size in [1usize, 3, 7, 64, READ_CHUNK_SIZE, 9_999, 10_000, 50_000] {
        assert_eq!(digest_in_chunks(&data, size), whole);
    }
    let pieces = vec![data[..5].to_vec(), Vec::new(), data[5..4100].to_vec(), data[4100..].to_vec()];
    assert_eq!(digest_pieces(&pieces), whole);
}

#[test]
fn hasher_fed_in_pieces_matches_one_shot() {
    let data = sample_bytes(5_000);
    let mut h = ContentHasher::new();
    h.update(&data[..1]);
    h.update(&data[1..4096]);
    h.update(&data[4096..]);
    assert_eq!(h.finish(), digest_bytes(&data));
}

#[test]
fn rescanning_a_path_keeps_one_record_with_latest_metadata() {
    let mut idx = FileIndex::new();
    idx.insert(record("a/file", 3, 100, 7));
    idx.insert(record("b/file", 4, 200, 8));
    idx.insert(record("a/file", 5, 300, 9));
    assert_eq!(idx.len(), 2);
    assert_eq!(idx.lookup(&"a/file".to_string()), Some(FileMeta { size: 5, mtime: 300, hash: 9 }));
    assert_eq!(idx.lookup(&"c/file".to_string()), None);
    assert_eq!(idx.records().len(), 2);
}

#[test]
fn single_shared_digest_gives_one_group_of_two() {
    let mut idx = FileIndex::new();
    let contents: [&[u8]; 5] = [b"one", b"two", b"same", b"three", b"same"];
    for (i, c) in contents.iter().enumerate() {
        idx.insert(record(&format!("f{}", i), c.len() as u64, i as i64, digest_bytes(c)));
    }
    let rows = idx.duplicate_rows();
    assert_eq!(rows.len(), 2);
    assert_eq!(rows[0].group, 1);
    assert_eq!(rows[1].group, 1);
    assert_eq!(rows[0].path, "f2");
    assert_eq!(rows[1].path, "f4");
    assert_eq!(rows[0].mtime, 2);
}

#[test]
fn members_ordered_by_path_and_groups_by_digest() {
    let mut idx = FileIndex::new();
    idx.insert(record("b/file", 1, 10, 5));
    idx.insert(record("a/file", 1, 11, 5));
    idx.insert(record("z", 1, 12, 3));
    idx.insert(record("y", 1, 13, 3));
    idx.insert(record("lonely", 1, 14, 4));
    idx.insert(record("big", 1, 15, u64::MAX));
    idx.insert(record("big2", 1, 16, u64::MAX));
    let rows = idx.duplicate_rows();
    let got: Vec<(u64, &str)> = rows.iter().map(|r| (r.group, r.path.as_str())).collect();
    assert_eq!(got, vec![(1, "y"), (1, "z"), (2, "a/file"), (2, "b/file"), (3, "big"), (3, "big2")]);
}

#[test]
fn path_order_is_lexicographic_by_code_point() {
    let a = chars_of(&"a/file".to_string());
    let b = chars_of(&"b/file".to_string());
    assert!(path_less(&a, &b));
    assert!(!path_less(&b, &a));
    assert!(!path_less(&a, &a));
    let pre = chars_of(&"a".to_string());
    assert!(path_less(&pre, &a));
    let upper = chars_of(&"Z".to_string());
    assert!(path_less(&upper, &pre));
    let accented = chars_of(&"é".to_string());
    assert_eq!(accented, vec!['é']);
    assert!(path_less(&b, &accented));
    assert!(key_less(1, &b, 2, &a));
    assert!(key_less(2, &a, 2, &b));
}

#[test]
fn report_is_reproducible() {
    let mut idx = FileIndex::new();
    idx.insert(record("q", 1, 1_000, 9));
    idx.insert(record("p", 1, 2_000, 9));
    idx.insert(record("r", 1, 3_000, 1));
    let first = index_report(&idx).ok().unwrap();
    let second = index_report(&idx).ok().unwrap();
    assert_eq!(first, second);
    assert_eq!(first.len(), 3);
}

#[test]
fn concrete_tree_reports_the_shared_pair() {
    let mut idx = FileIndex::new();
    idx.insert(record("dir/a.txt", 5, 1_700_000_000, digest_bytes(b"hello")));
    idx.insert(record("dir/c.txt", 5, 1_700_000_100, digest_bytes(b"world")));
    idx.insert(record("dir/sub/b.txt", 5, 1_700_000_200, digest_bytes(b"hello")));
    let lines = index_report(&idx).ok().unwrap();
    assert_eq!(
        lines,
        vec![
            "Group\tPath\tLast Modified".to_string(),
            format!("1\tdir/a.txt\t{}", stamp(1_700_000_000)),
            format!("1\tdir/sub/b.txt\t{}", stamp(1_700_000_200)),
        ]
    );
}

#[test]
fn empty_tree_reports_only_the_header() {
    let idx = FileIndex::new();
    let lines = index_report(&idx).ok().unwrap();
    assert_eq!(lines, vec!["Group\tPath\tLast Modified".to_string()]);
    assert_eq!(header(), "Group\tPath\tLast Modified");
}

#[test]
fn line_has_group_path_and_utc_time() {
    let e = DuplicateEntry { group: 12, path: "x/y".to_string(), mtime: 0, hash: 1 };
    assert_eq!(render_line(&e, "T"), "12\tx/y\tT");
    let lines = render_report(&vec![e]).ok().unwrap();
    assert_eq!(lines[1], "12\tx/y\t1970-01-01 0:00:00.0 +00:00:00");
}

#[test]
fn timestamps_at_the_calendar_limits_render() {
    let rows = vec![
        DuplicateEntry { group: 1, path: "lo".to_string(), mtime: MIN_RENDERABLE_MTIME, hash: 1 },
        DuplicateEntry { group: 1, path: "hi".to_string(), mtime: MAX_RENDERABLE_MTIME, hash: 1 },
    ];
    let lines = render_report(&rows).ok().unwrap();
    assert_eq!(lines[1], format!("1\tlo\t{}", stamp(MIN_RENDERABLE_MTIME)));
    assert_eq!(lines[2], format!("1\thi\t{}", stamp(MAX_RENDERABLE_MTIME)));
}

#[test]
fn out_of_range_timestamp_is_reported() {
    let rows = vec![
        DuplicateEntry { group: 1, path: "ok".to_string(), mtime: 0, hash: 1 },
        DuplicateEntry { group: 1, path: "bad".to_string(), mtime: MAX_RENDERABLE_MTIME + 1, hash: 1 },
        DuplicateEntry { group: 1, path: "worse".to_string(), mtime: i64::MIN, hash: 1 },
    ];
    match render_report(&rows) {
        Err(ReportError::TimestampOutOfRange { path, mtime }) => {
            assert_eq!(path, "bad");
            assert_eq!(mtime, MAX_RENDERABLE_MTIME + 1);
        }
        Ok(_) => panic!("expected an error"),
    }
    let low = vec![DuplicateEntry { group: 1, path: "b".to_string(), mtime: MIN_RENDERABLE_MTIME - 1, hash: 1 }];
    assert!(render_report(&low).is_err());
}

#[test]
fn spinner_turns_through_four_glyphs() {
    let got: Vec<char> = (0u64..6).map(spinner_frame).collect();
    assert_eq!(got, vec!['|', '/', '-', '\\', '|', '/']);
    assert_eq!(spinner_frame(u64::MAX), '\\');
}
