use wks::github_url::{RepoError, RepoInfo, UrlParts};

#[test]
fn other_hosts_are_refused() {
    assert_eq!(RepoInfo::try_from("https://gitlab.com/owner/repo"), Err(RepoError::NotGithubUrl));
}

#[test]
fn urls_without_host_are_refused() {
    assert_eq!(RepoInfo::try_from("mailto:someone@example.com"), Err(RepoError::NoHost));
}

#[test]
fn owner_without_repo_is_refused() {
    assert_eq!(RepoInfo::try_from("https://github.com/owner"), Err(RepoError::NoRepo));
}

#[test]
fn fragment_without_line_gives_none() {
    let ins = "https://github.com/owner/repo/blob/main/README.md#readme";
    assert_eq!(RepoInfo::try_from(ins).unwrap(), RepoInfo::brath(ins, "repo", "main/README.md"));
}

#[test]
fn issues_page_is_only_a_repo() {
    let ins = "https://github.com/owner/repo/issues/3#L5";
    assert_eq!(RepoInfo::try_from(ins).unwrap(), RepoInfo::basic(ins, "repo"));
}

#[test]
fn reads_from_given_parts() {
    let parts = UrlParts {
        host: Some("raw.githubusercontent.com".to_string()),
        fragment: Some("L7".to_string()),
        segments: Some(vec!["o".into(), "r".into(), "v1".into(), "x.rs".into()]),
    };
    assert_eq!(
        RepoInfo::from_url_parts("anything", Some(parts)).unwrap(),
        RepoInfo::line("https://github.com/o/r", "r", "v1/x.rs", 7)
    );
    let no_segments = UrlParts { host: Some("github.com".to_string()), fragment: None, segments: None };
    assert_eq!(RepoInfo::from_url_parts("x", Some(no_segments)), Err(RepoError::NoOwnerOrRepo));
    let no_owner = UrlParts { host: Some("github.com".to_string()), fragment: None, segments: Some(vec![]) };
    assert_eq!(RepoInfo::from_url_parts("x", Some(no_owner)), Err(RepoError::NoOwner));
}
