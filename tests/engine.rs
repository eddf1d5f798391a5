use checksum_handler::check::{outcome_of_digest, verify_all, verify_entry, Outcome};
use checksum_handler::digest::content_digest;
use checksum_handler::display::{colored_string, Color, Intensity, Style};
use checksum_handler::reconcile::{
    classify, fresh_record, reconcile, reconcile_step, Action, ScannedFile, Stats,
};
use checksum_handler::record::{FileMeta, FileRecord};
use checksum_handler::snapshot::Snapshot;

fn h(bytes: &[u8]) -> String {
    format!("{:X}", xxhash_rust::xxh3::xxh3_128(bytes))
}

fn meta(created: u64, modified: u64) -> FileMeta {
    FileMeta { readonly: false, created, modified }
}

fn scan(path: &str, m: FileMeta, contents: &[u8]) -> ScannedFile {
    ScannedFile { path: path.to_string(), meta: m, contents: contents.to_vec() }
}

fn stats(inserted: u64, updated: u64, skipped: u64) -> Stats {
    Stats { inserted, updated, skipped }
}

fn two_files() -> Vec<ScannedFile> {
    vec![
        scan("./a.txt", meta(100, 200), b"hello"),
        scan("./b.txt", meta(101, 201), b"world"),
    ]
}

fn digest_of(s: &Snapshot, path: &str) -> String {
    s.get(&path.to_string()).unwrap().digest.clone()
}

#[test]
fn digest_is_upper_hex_of_xxh3() {
    assert_eq!(content_digest(b"hello"), h(b"hello"));
    assert_ne!(content_digest(b"hello"), "hello");
    assert_ne!(content_digest(b"hello"), content_digest(b"world"));
    assert_eq!(content_digest(b""), h(b""));
}

#[test]
fn first_and_second_run_example() {
    let mut s = Snapshot::new();
    let files = two_files();
    assert_eq!(reconcile(&mut s, &files), stats(2, 0, 0));
    assert_eq!(s.len(), 2);
    assert_eq!(digest_of(&s, "./a.txt"), h(b"hello"));
    assert_eq!(digest_of(&s, "./b.txt"), h(b"world"));
    let a = s.get(&"./a.txt".to_string()).unwrap();
    assert_eq!((a.created_at.as_str(), a.modified_at.as_str()), ("64", "C8"));
    assert_eq!(reconcile(&mut s, &files), stats(0, 0, 2));
    assert_eq!(s.len(), 2);
}

#[test]
fn second_run_without_changes_skips_all() {
    let mut s = Snapshot::new();
    let files = vec![
        scan("./x", meta(1, 2), b"1"),
        scan("./y", meta(3, 4), b"2"),
        scan("./z/w", FileMeta { readonly: true, created: 5, modified: 6 }, b"3"),
    ];
    reconcile(&mut s, &files);
    let before = hashmap_text(&s);
    assert_eq!(reconcile(&mut s, &files), stats(0, 0, 3));
    assert_eq!(hashmap_text(&s), before);
}

fn hashmap_text(s: &Snapshot) -> Vec<String> {
    let mut v: Vec<String> = checksum_handler::snapshot::hashmap_to_string(s)
        .lines()
        .map(|l| l.to_string())
        .collect();
    v.sort();
    v
}

#[test]
fn new_file_is_inserted_once() {
    let mut s = Snapshot::new();
    let mut files = two_files();
    reconcile(&mut s, &files);
    files.push(scan("./c.txt", meta(300, 400), b"new"));
    assert_eq!(reconcile(&mut s, &files), stats(1, 0, 2));
    assert_eq!(digest_of(&s, "./c.txt"), h(b"new"));
    assert_eq!(s.len(), 3);
}

#[test]
fn changed_file_is_updated() {
    let mut s = Snapshot::new();
    let mut files = two_files();
    reconcile(&mut s, &files);
    files[0] = scan("./a.txt", meta(100, 250), b"HELLO");
    assert_eq!(reconcile(&mut s, &files), stats(0, 1, 1));
    assert_eq!(digest_of(&s, "./a.txt"), h(b"HELLO"));
    assert_eq!(s.get(&"./a.txt".to_string()).unwrap().modified_at, "FA");
    assert_eq!(digest_of(&s, "./b.txt"), h(b"world"));
}

#[test]
fn content_change_without_timestamp_change_is_skipped() {
    let mut s = Snapshot::new();
    let mut files = two_files();
    reconcile(&mut s, &files);
    files[0] = scan("./a.txt", meta(100, 200), b"HELLO");
    assert_eq!(reconcile(&mut s, &files), stats(0, 0, 2));
    assert_eq!(digest_of(&s, "./a.txt"), h(b"hello"));
}

#[test]
fn readonly_file_is_never_rehashed() {
    let mut s = Snapshot::new();
    reconcile(&mut s, &two_files());
    let ro = FileMeta { readonly: true, created: 999, modified: 999 };
    assert_eq!(classify(&s, &"./a.txt".to_string(), &ro), Action::Skip);
    let files = vec![scan("./a.txt", ro, b"changed")];
    assert_eq!(reconcile(&mut s, &files), stats(0, 0, 1));
    assert_eq!(digest_of(&s, "./a.txt"), h(b"hello"));
}

#[test]
fn step_by_step_with_classify() {
    let mut s = Snapshot::new();
    let mut st = stats(0, 0, 0);
    let p = "./f".to_string();
    assert_eq!(classify(&s, &p, &meta(1, 1)), Action::Insert);
    assert_eq!(reconcile_step(&mut s, &mut st, p.clone(), &meta(1, 1), b"v1"), Action::Insert);
    assert_eq!(classify(&s, &p, &meta(1, 1)), Action::Skip);
    assert_eq!(reconcile_step(&mut s, &mut st, p.clone(), &meta(1, 1), b""), Action::Skip);
    assert_eq!(digest_of(&s, "./f"), h(b"v1"));
    assert_eq!(classify(&s, &p, &meta(1, 2)), Action::Update);
    assert_eq!(reconcile_step(&mut s, &mut st, p.clone(), &meta(1, 2), b"v2"), Action::Update);
    assert_eq!(digest_of(&s, "./f"), h(b"v2"));
    assert_eq!(st, stats(1, 1, 1));
}

#[test]
fn removed_files_keep_their_records() {
    let mut s = Snapshot::new();
    reconcile(&mut s, &two_files());
    let only_b = vec![scan("./b.txt", meta(101, 201), b"world")];
    assert_eq!(reconcile(&mut s, &only_b), stats(0, 0, 1));
    assert_eq!(s.len(), 2);
    assert_eq!(digest_of(&s, "./a.txt"), h(b"hello"));
}

#[test]
fn fresh_record_fields() {
    let r = fresh_record("./q".to_string(), &meta(0x1F, 0xABC), b"data");
    assert_eq!(r.path, "./q");
    assert_eq!(r.digest, h(b"data"));
    assert_eq!(r.created_at, "1F");
    assert_eq!(r.modified_at, "ABC");
}

#[test]
fn verify_outcomes() {
    let r = FileRecord {
        path: "./a.txt".to_string(),
        digest: h(b"hello"),
        created_at: "1".to_string(),
        modified_at: "2".to_string(),
    };
    assert_eq!(verify_entry(&r, Some(b"hello".as_slice())), Outcome::Pass);
    assert_eq!(verify_entry(&r, Some(b"hellO".as_slice())), Outcome::Fail);
    assert_eq!(verify_entry(&r, None), Outcome::ReadError);
    assert_eq!(outcome_of_digest(&r, &h(b"hello")), Outcome::Pass);
    assert_eq!(outcome_of_digest(&r, &"0".to_string()), Outcome::Fail);
}

#[test]
fn verify_continues_after_read_error() {
    let mut s = Snapshot::new();
    reconcile(&mut s, &two_files());
    let mut outcomes = Vec::new();
    for i in 0..s.len() {
        let r = s.entry(i);
        let read: Option<&[u8]> = if r.path == "./a.txt" { None } else { Some(b"changed") };
        outcomes.push(verify_entry(r, read));
    }
    outcomes.sort_by_key(|o| format!("{:?}", o));
    assert_eq!(outcomes, vec![Outcome::Fail, Outcome::ReadError]);
}

#[test]
fn colored_string_escapes() {
    assert_eq!(
        colored_string("SKIP", Color::Cyan, Style::Regular, Intensity::Low),
        "\x1b[0;36mSKIP\x1b[0m"
    );
    assert_eq!(
        colored_string("ERR", Color::Red, Style::Bold, Intensity::High),
        "\x1b[1;91mERR\x1b[0m"
    );
    assert_eq!(
        colored_string("", Color::White, Style::Underline, Intensity::High),
        "\x1b[4;97m\x1b[0m"
    );
}

#[test]
fn verify_all_reports_every_entry() {
    let mut s = Snapshot::new();
    reconcile(&mut s, &two_files());
    reconcile(&mut s, &vec![scan("./c.txt", meta(1, 1), b"c")]);
    let mut reads: Vec<Option<Vec<u8>>> = Vec::new();
    for i in 0..s.len() {
        let read = match s.entry(i).path.as_str() {
            "./a.txt" => None,
            "./b.txt" => Some(b"altered".to_vec()),
            _ => Some(b"c".to_vec()),
        };
        reads.push(read);
    }
    let mut out = verify_all(&s, &reads);
    out.sort_by(|x, y| x.0.cmp(&y.0));
    assert_eq!(
        out,
        vec![
            ("./a.txt".to_string(), Outcome::ReadError),
            ("./b.txt".to_string(), Outcome::Fail),
            ("./c.txt".to_string(), Outcome::Pass),
        ]
    );
}
