use copyhash::plan::plan_copy;
use copyhash::Error;

#[test]
fn ambiguous_destination_rejected() {
    let sources = vec!["a.txt".to_string(), "b.txt".to_string()];
    let r = plan_copy(&sources, &"out.txt".to_string(), false);
    assert!(matches!(r, Err(Error::Data)));
}

#[test]
fn ambiguous_destination_message() {
    let sources = vec!["a.txt".to_string(), "b.txt".to_string()];
    let e = plan_copy(&sources, &"out.txt".to_string(), false).unwrap_err();
    assert_eq!(
        e.message(),
        "copying multiple files to one path; probable data loss"
    );
}

#[test]
fn single_source_literal_destination() {
    let sources = vec!["a.txt".to_string()];
    let r = plan_copy(&sources, &"out.txt".to_string(), false).unwrap();
    assert_eq!(r, vec!["out.txt".to_string()]);
}

#[test]
fn directory_destination_plans_basenames() {
    let sources = vec!["a.txt".to_string(), "b.txt".to_string()];
    let r = plan_copy(&sources, &"outdir".to_string(), true).unwrap();
    assert_eq!(r, vec!["outdir/a.txt".to_string(), "outdir/b.txt".to_string()]);
}

#[test]
fn directory_destination_strips_source_directories() {
    let sources = vec!["src1/a.txt".to_string(), "src2/sub/b.txt".to_string()];
    let r = plan_copy(&sources, &"outdir/".to_string(), true).unwrap();
    assert_eq!(r, vec!["outdir/a.txt".to_string(), "outdir/b.txt".to_string()]);
}

#[test]
fn many_sources_into_directory_allowed() {
    let sources = vec!["a".to_string(), "b".to_string(), "c".to_string()];
    let r = plan_copy(&sources, &"outdir".to_string(), true).unwrap();
    assert_eq!(r.len(), 3);
}

#[test]
fn no_sources_plans_nothing() {
    let sources: Vec<String> = vec![];
    let r = plan_copy(&sources, &"out.txt".to_string(), false).unwrap();
    assert!(r.is_empty());
}

#[test]
fn error_messages_by_kind() {
    assert_eq!(Error::Threading.message(), "thread join failed");
    assert_eq!(
        Error::Io("no such file or directory".to_string()).message(),
        "no such file or directory"
    );
}
