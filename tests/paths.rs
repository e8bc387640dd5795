use docse::paths::{group_id, is_indexed};

#[test]
fn group_id_strips_extension() {
    assert_eq!(group_id("docs/intro.md"), Some("docs/intro".to_string()));
}

#[test]
fn group_id_strips_readme() {
    assert_eq!(group_id("docs/README.md"), Some("docs".to_string()));
    assert_eq!(group_id("README.md"), Some(String::new()));
    assert_eq!(group_id("a/b/README.md"), Some("a/b".to_string()));
}

#[test]
fn toc_and_metadata_are_excluded() {
    assert_eq!(group_id("TOC.md"), None);
    assert_eq!(group_id(".github/pull.md"), None);
    assert!(!is_indexed(".github/ISSUE/bug.md"));
    assert_eq!(group_id("guide/TOC.md"), Some("guide/TOC".to_string()));
    assert_eq!(group_id(".githubx.md"), Some(".githubx".to_string()));
}

#[test]
fn non_markdown_is_not_indexed() {
    assert_eq!(group_id("notes.txt"), None);
    assert_eq!(group_id("md"), None);
    assert!(is_indexed("监控/介绍.md"));
    assert_eq!(group_id("监控/介绍.md"), Some("监控/介绍".to_string()));
}

#[test]
fn readme_is_dropped_only_as_a_whole_segment() {
    assert_eq!(group_id("xREADME.md"), Some("xREADME".to_string()));
    assert_eq!(group_id("READMEREADME.md"), Some("READMEREADME".to_string()));
    assert_eq!(group_id("a/README/README.md"), Some("a/README".to_string()));
    assert_eq!(group_id("a/README.md"), group_id("a.md"));
}
