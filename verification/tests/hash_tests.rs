use copyhash::hashing::build_hashes;
use copyhash::hashing::content_hash;
use copyhash::hashing::HashMapping;
use copyhash::plan::plan_copy;

fn bytes(s: &str) -> Vec<u8> {
    s.as_bytes().to_vec()
}

#[test]
fn content_hash_matches_reference_implementation() {
    let r = content_hash(&bytes("hello"));
    assert_eq!(r.as_slice(), blake3::hash(b"hello").as_bytes());
}

#[test]
fn content_hash_of_empty_input() {
    let r = content_hash(&bytes(""));
    assert_eq!(r.as_slice(), blake3::hash(b"").as_bytes());
}

#[test]
fn content_hash_is_not_the_input() {
    let r = content_hash(&bytes("abc"));
    assert_eq!(r.len(), 32);
    assert_ne!(r, bytes("abc"));
}

#[test]
fn content_hash_distinguishes_contents() {
    assert_ne!(content_hash(&bytes("hello")), content_hash(&bytes("world")));
}

#[test]
fn build_hashes_keys_by_basename() {
    let paths = vec!["x/a.txt".to_string()];
    let contents = vec![bytes("hello")];
    let m = build_hashes(&paths, &contents);
    let d = m.get(&"a.txt".to_string()).expect("basename key must be present");
    assert_eq!(d.as_slice(), blake3::hash(b"hello").as_bytes());
    assert!(m.get(&"x/a.txt".to_string()).is_none());
}

#[test]
fn build_hashes_later_basename_overwrites_earlier() {
    let paths = vec!["p/a.txt".to_string(), "q/a.txt".to_string()];
    let contents = vec![bytes("first"), bytes("second")];
    let m = build_hashes(&paths, &contents);
    let d = m.get(&"a.txt".to_string()).expect("key must be present");
    assert_eq!(d.as_slice(), blake3::hash(b"second").as_bytes());
}

#[test]
fn insert_overwrites_same_name() {
    let mut m = HashMapping::new();
    m.insert("a".to_string(), bytes("d1"));
    m.insert("a".to_string(), bytes("d2"));
    assert_eq!(m.get(&"a".to_string()).unwrap(), &bytes("d2"));
}

#[test]
fn get_missing_name_is_none() {
    let m = HashMapping::new();
    assert!(m.get(&"a".to_string()).is_none());
}

#[test]
fn covered_by_detects_missing_destination() {
    let src = build_hashes(&vec!["a.txt".to_string()], &vec![bytes("hello")]);
    let dst = HashMapping::new();
    assert!(!src.covered_by(&dst));
    assert!(dst.covered_by(&src));
}

#[test]
fn faithful_copy_reports_no_mismatch() {
    let sources = vec!["a.txt".to_string(), "b.txt".to_string()];
    let src_contents = vec![bytes("hello"), bytes("world")];
    let dests = plan_copy(&sources, &"outdir".to_string(), true).unwrap();
    assert_eq!(dests, vec!["outdir/a.txt".to_string(), "outdir/b.txt".to_string()]);
    let src_hashes = build_hashes(&sources, &src_contents);
    let dst_hashes = build_hashes(&dests, &src_contents);
    assert!(src_hashes.covered_by(&dst_hashes));
    assert!(src_hashes.mismatches(&dst_hashes).is_empty());
}

#[test]
fn altered_destination_reported_exactly_once() {
    let sources = vec!["a.txt".to_string(), "b.txt".to_string()];
    let src_contents = vec![bytes("hello"), bytes("world")];
    let dests = plan_copy(&sources, &"outdir".to_string(), true).unwrap();
    let dst_contents = vec![bytes("hello"), bytes("w0rld")];
    let src_hashes = build_hashes(&sources, &src_contents);
    let dst_hashes = build_hashes(&dests, &dst_contents);
    assert!(src_hashes.covered_by(&dst_hashes));
    let report = src_hashes.mismatches(&dst_hashes);
    assert_eq!(report, vec!["b.txt".to_string()]);
}

#[test]
fn every_destination_altered_all_reported() {
    let sources = vec!["a.txt".to_string(), "b.txt".to_string()];
    let dests = vec!["outdir/a.txt".to_string(), "outdir/b.txt".to_string()];
    let src_hashes = build_hashes(&sources, &vec![bytes("one"), bytes("two")]);
    let dst_hashes = build_hashes(&dests, &vec![bytes("eins"), bytes("zwei")]);
    let report = src_hashes.mismatches(&dst_hashes);
    assert_eq!(report, vec!["a.txt".to_string(), "b.txt".to_string()]);
}

#[test]
fn literal_destination_with_same_basename_verifies() {
    let sources = vec!["in/a.txt".to_string()];
    let contents = vec![bytes("hello")];
    let dests = plan_copy(&sources, &"out/a.txt".to_string(), false).unwrap();
    assert_eq!(dests, vec!["out/a.txt".to_string()]);
    let src_hashes = build_hashes(&sources, &contents);
    let dst_hashes = build_hashes(&dests, &contents);
    assert!(src_hashes.covered_by(&dst_hashes));
    assert!(src_hashes.mismatches(&dst_hashes).is_empty());
}

#[test]
fn literal_destination_with_other_basename_is_not_covered() {
    let sources = vec!["a.txt".to_string()];
    let contents = vec![bytes("hello")];
    let dests = plan_copy(&sources, &"out.txt".to_string(), false).unwrap();
    let src_hashes = build_hashes(&sources, &contents);
    let dst_hashes = build_hashes(&dests, &contents);
    assert!(!src_hashes.covered_by(&dst_hashes));
}
