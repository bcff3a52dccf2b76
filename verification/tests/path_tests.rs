use copyhash::paths::basename;
use copyhash::paths::classify_source;
use copyhash::paths::flatten_sources;
use copyhash::paths::join_path;
use copyhash::paths::SourceKind;

#[test]
fn basename_of_plain_file() {
    assert_eq!(basename(&"a.txt".to_string()), Some("a.txt".to_string()));
}

#[test]
fn basename_strips_directories() {
    assert_eq!(basename(&"dir/sub/a.txt".to_string()), Some("a.txt".to_string()));
    assert_eq!(basename(&"/abs/x.bin".to_string()), Some("x.bin".to_string()));
}

#[test]
fn basename_of_trailing_separator_is_none() {
    assert_eq!(basename(&"dir/".to_string()), None);
    assert_eq!(basename(&"/".to_string()), None);
}

#[test]
fn basename_of_empty_is_none() {
    assert_eq!(basename(&"".to_string()), None);
}

#[test]
fn basename_of_dot_components_is_none() {
    assert_eq!(basename(&".".to_string()), None);
    assert_eq!(basename(&"..".to_string()), None);
    assert_eq!(basename(&"foo/..".to_string()), None);
    assert_eq!(basename(&"foo/.".to_string()), None);
}

#[test]
fn basename_keeps_dotfiles() {
    assert_eq!(basename(&".hidden".to_string()), Some(".hidden".to_string()));
    assert_eq!(basename(&"dir/..x".to_string()), Some("..x".to_string()));
}

#[test]
fn join_path_inserts_separator() {
    assert_eq!(join_path(&"outdir".to_string(), &"a.txt".to_string()), "outdir/a.txt");
}

#[test]
fn join_path_keeps_trailing_separator() {
    assert_eq!(join_path(&"outdir/".to_string(), &"a.txt".to_string()), "outdir/a.txt");
}

#[test]
fn join_path_with_empty_directory() {
    assert_eq!(join_path(&"".to_string(), &"a.txt".to_string()), "a.txt");
}

#[test]
fn classify_directory_first() {
    assert!(matches!(classify_source(true, false), SourceKind::Directory));
    assert!(matches!(classify_source(true, true), SourceKind::Directory));
}

#[test]
fn classify_file_when_not_directory() {
    assert!(matches!(classify_source(false, true), SourceKind::File));
}

#[test]
fn classify_pattern_otherwise() {
    assert!(matches!(classify_source(false, false), SourceKind::Pattern));
}

#[test]
fn flatten_preserves_source_major_order() {
    let groups = vec![
        vec!["a.txt".to_string()],
        vec!["b.txt".to_string(), "c.txt".to_string()],
    ];
    assert_eq!(
        flatten_sources(&groups),
        vec!["a.txt".to_string(), "b.txt".to_string(), "c.txt".to_string()]
    );
}

#[test]
fn flatten_drops_empty_sources() {
    let groups = vec![
        vec![],
        vec!["a.txt".to_string()],
        vec![],
    ];
    assert_eq!(flatten_sources(&groups), vec!["a.txt".to_string()]);
}
