use peisar::files::keep_file;

#[test]
fn listing_keeps_files_by_extension() {
    let exts = [Some("txt"), Some("rs"), Some("txt")];
    assert_eq!(exts.iter().filter(|e| keep_file(**e, None)).count(), 3);
    assert_eq!(exts.iter().filter(|e| keep_file(**e, Some("txt"))).count(), 2);
}

#[test]
fn files_without_an_extension_are_kept_only_when_no_extension_is_wanted() {
    assert!(keep_file(None, None));
    assert!(!keep_file(None, Some("txt")));
    assert!(keep_file(Some("md"), None));
    assert!(!keep_file(Some("md"), Some("MD")));
}
