use checksum_handler::hex::hex_upper;
use checksum_handler::record::{is_valid, FileMeta, FileRecord};
use checksum_handler::snapshot::{hashmap_to_string, load_lines, parse_line, LoadError, Snapshot};
use checksum_handler::split::split_fields;

fn record(path: &str, digest: &str, created: &str, modified: &str) -> FileRecord {
    FileRecord {
        path: path.to_string(),
        digest: digest.to_string(),
        created_at: created.to_string(),
        modified_at: modified.to_string(),
    }
}

#[test]
fn hex_of_small_and_large_numbers() {
    assert_eq!(hex_upper(0), "0");
    assert_eq!(hex_upper(15), "F");
    assert_eq!(hex_upper(255), "FF");
    assert_eq!(hex_upper(0x1A2B), "1A2B");
    assert_eq!(hex_upper(u128::MAX), "F".repeat(32));
    assert_eq!(hex_upper(1_700_000_000), format!("{:X}", 1_700_000_000u64));
}

#[test]
fn split_keeps_empty_pieces() {
    assert_eq!(split_fields("a>b>>c", '>'), vec!["a", "b", "", "c"]);
    assert_eq!(split_fields("", '>'), vec![""]);
    assert_eq!(split_fields(">", '>'), vec!["", ""]);
    assert_eq!(split_fields("päth>ü", '>'), vec!["päth", "ü"]);
}

#[test]
fn parse_line_needs_four_fields() {
    let r = parse_line("./a.txt>ABC>65000000>65000001").unwrap();
    assert_eq!(r.path, "./a.txt");
    assert_eq!(r.digest, "ABC");
    assert_eq!(r.created_at, "65000000");
    assert_eq!(r.modified_at, "65000001");
    assert!(parse_line("./a.txt>ABC>65000000").is_none());
    assert!(parse_line("./a.txt>ABC>1>2>3").is_none());
    assert!(parse_line("").is_none());
}

#[test]
fn load_reports_first_malformed_line() {
    let lines = vec![
        "x>1>2>3".to_string(),
        "bad line".to_string(),
        "also>bad".to_string(),
    ];
    match load_lines(&lines) {
        Err(e) => assert_eq!(e, LoadError { line: 1 }),
        Ok(_) => panic!("malformed line accepted"),
    }
}

#[test]
fn load_later_line_replaces_earlier() {
    let lines = vec!["x>1>2>3".to_string(), "x>4>5>6".to_string(), "y>7>8>9".to_string()];
    let s = load_lines(&lines).unwrap();
    assert_eq!(s.len(), 2);
    assert_eq!(s.get(&"x".to_string()).unwrap().digest, "4");
    assert_eq!(s.get(&"y".to_string()).unwrap().modified_at, "9");
}

#[test]
fn load_of_no_lines_is_empty() {
    let s = load_lines(&Vec::new()).unwrap();
    assert_eq!(s.len(), 0);
}

#[test]
fn insert_overwrites_same_path() {
    let mut s = Snapshot::new();
    s.insert(record("p", "1", "2", "3"));
    s.insert(record("q", "4", "5", "6"));
    s.insert(record("p", "7", "8", "9"));
    assert_eq!(s.len(), 2);
    let p = s.get(&"p".to_string()).unwrap();
    assert_eq!((p.digest.as_str(), p.created_at.as_str()), ("7", "8"));
    assert!(s.get(&"r".to_string()).is_none());
}

#[test]
fn save_writes_one_line_per_record() {
    let mut s = Snapshot::new();
    s.insert(record("./a", "D1", "C1", "M1"));
    s.insert(record("./b", "D2", "C2", "M2"));
    let text = hashmap_to_string(&s);
    let mut lines: Vec<&str> = text.lines().collect();
    lines.sort();
    assert_eq!(lines, vec!["./a>D1>C1>M1", "./b>D2>C2>M2"]);
    assert!(text.ends_with('\n'));
    assert_eq!(hashmap_to_string(&Snapshot::new()), "");
}

#[test]
fn save_then_load_gives_same_records() {
    let mut s = Snapshot::new();
    s.insert(record("./dir/a b.txt", "ABCDEF", "6500AA00", "6500AA01"));
    s.insert(record("./ü.bin", "0", "1", "2"));
    s.insert(record("", "", "", ""));
    let text = hashmap_to_string(&s);
    let lines: Vec<String> = text.lines().map(|l| l.to_string()).collect();
    let t = load_lines(&lines).unwrap();
    assert_eq!(t.len(), s.len());
    for i in 0..s.len() {
        let r = s.entry(i);
        let u = t.get(&r.path).unwrap();
        assert_eq!(
            (&u.path, &u.digest, &u.created_at, &u.modified_at),
            (&r.path, &r.digest, &r.created_at, &r.modified_at)
        );
    }
}

#[test]
fn delimiter_in_path_breaks_round_trip() {
    let mut s = Snapshot::new();
    s.insert(record("./a>b", "D", "C", "M"));
    let text = hashmap_to_string(&s);
    let lines: Vec<String> = text.lines().map(|l| l.to_string()).collect();
    assert_eq!(load_lines(&lines).err(), Some(LoadError { line: 0 }));
}

#[test]
fn staleness_rule() {
    let r = record("./f", "D", "10", "2A");
    let same = FileMeta { readonly: false, created: 0x10, modified: 0x2A };
    assert!(is_valid(&r, &same));
    let touched = FileMeta { readonly: false, created: 0x10, modified: 0x2B };
    assert!(!is_valid(&r, &touched));
    let recreated = FileMeta { readonly: false, created: 0x11, modified: 0x2A };
    assert!(!is_valid(&r, &recreated));
    let readonly = FileMeta { readonly: true, created: 0x99, modified: 0x99 };
    assert!(is_valid(&r, &readonly));
}
