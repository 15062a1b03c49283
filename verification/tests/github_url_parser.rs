use wks::github_url::RepoInfo;

#[test]
fn shorthand() {
    let ins = "repo";
    let out = RepoInfo::try_from(ins).unwrap();
    assert_eq!(out, RepoInfo::basic(ins, "repo"));
}

#[test]
fn shorthand_owner() {
    let ins = "owner/repo";
    let out = RepoInfo::try_from(ins).unwrap();
    assert_eq!(out, RepoInfo::basic(ins, "repo"));
}

#[test]
fn normal_nothing() {
    let ins = "https://github.com/owner/repo";
    let out = RepoInfo::try_from(ins).unwrap();
    assert_eq!(out, RepoInfo::basic(ins, "repo"));
}

#[test]
fn normal_nothing_trail() {
    let ins = "https://github.com/owner/repo/";
    let out = RepoInfo::try_from(ins).unwrap();
    assert_eq!(out, RepoInfo::basic(ins, "repo"));
}

#[test]
fn branch() {
    let ins = "https://github.com/owner/repo/tree/main";
    let out = RepoInfo::try_from(ins).unwrap();
    assert_eq!(out, RepoInfo::brath(ins, "repo", "main"));
}

#[test]
fn branch_dir() {
    let ins = "https://github.com/owner/repo/tree/main/src/lib";
    let out = RepoInfo::try_from(ins).unwrap();
    assert_eq!(out, RepoInfo::brath(ins, "repo", "main/src/lib"));
}

#[test]
fn branch_file() {
    let ins = "https://github.com/owner/repo/blob/main/src/main.rs";
    let out = RepoInfo::try_from(ins).unwrap();
    assert_eq!(out, RepoInfo::brath(ins, "repo", "main/src/main.rs"));
}

#[test]
fn branch_file_line() {
    let ins = "https://github.com/owner/repo/blob/main/src/main.rs#L15";
    let out = RepoInfo::try_from(ins).unwrap();
    assert_eq!(out, RepoInfo::line(ins, "repo", "main/src/main.rs", 15));
}

#[test]
fn branch_file_param() {
    let ins = "https://github.com/owner/repo/blob/main/src/main.rs?plain=1";
    let out = RepoInfo::try_from(ins).unwrap();
    assert_eq!(out, RepoInfo::brath(ins, "repo", "main/src/main.rs"));
}

#[test]
fn branch_file_param_line() {
    let ins = "https://github.com/owner/repo/blob/main/src/main.rs?plain=1#L10";
    let out = RepoInfo::try_from(ins).unwrap();
    assert_eq!(out, RepoInfo::line(ins, "repo", "main/src/main.rs", 10));
}

#[test]
fn blame_file() {
    let ins = "https://github.com/owner/repo/blame/main/src/main.rs";
    let out = RepoInfo::try_from(ins).unwrap();
    assert_eq!(out, RepoInfo::brath(ins, "repo", "main/src/main.rs"));
}

#[test]
fn commit() {
    let ins = "https://github.com/owner/repo/tree/0123456789abcdef0123456789abcdef01234567";
    let out = RepoInfo::try_from(ins).unwrap();
    assert_eq!(
        out,
        RepoInfo::brath(ins, "repo", "0123456789abcdef0123456789abcdef01234567")
    );
}

#[test]
fn commit_file() {
    let ins = "https://github.com/owner/repo/blob/0123456789abcdef0123456789abcdef01234567/src/main.rs";
    let out = RepoInfo::try_from(ins).unwrap();
    assert_eq!(
        out,
        RepoInfo::brath(
            ins,
            "repo",
            "0123456789abcdef0123456789abcdef01234567/src/main.rs"
        )
    );
}

#[test]
fn commit_file_line() {
    let ins =
        "https://github.com/owner/repo/blob/0123456789abcdef0123456789abcdef01234567/src/main.rs#L50";
    let out = RepoInfo::try_from(ins).unwrap();
    assert_eq!(
        out,
        RepoInfo::line(
            ins,
            "repo",
            "0123456789abcdef0123456789abcdef01234567/src/main.rs",
            50
        )
    );
}

#[test]
fn commit_file_dir() {
    let ins = "https://github.com/owner/repo/tree/0123456789abcdef0123456789abcdef01234567/src";
    let out = RepoInfo::try_from(ins).unwrap();
    assert_eq!(
        out,
        RepoInfo::brath(ins, "repo", "0123456789abcdef0123456789abcdef01234567/src")
    );
}

#[test]
fn commit_view() {
    let ins = "https://github.com/owner/repo/commit/0123456789abcdef0123456789abcdef01234567";
    let out = RepoInfo::try_from(ins).unwrap();
    assert_eq!(
        out,
        RepoInfo::brath(ins, "repo", "0123456789abcdef0123456789abcdef01234567")
    );
}

#[test]
fn tag() {
    let ins = "https://github.com/owner/repo/tree/v1.0.0";
    let out = RepoInfo::try_from(ins).unwrap();
    assert_eq!(out, RepoInfo::brath(ins, "repo", "v1.0.0"));
}

#[test]
fn tag_file() {
    let ins = "https://github.com/owner/repo/blob/v1.2.3/src/main.rs";
    let out = RepoInfo::try_from(ins).unwrap();
    assert_eq!(out, RepoInfo::brath(ins, "repo", "v1.2.3/src/main.rs"));
}

#[test]
fn raw_file() {
    let ins = "https://raw.githubusercontent.com/owner/repo/main/README.md";
    let out = RepoInfo::try_from(ins).unwrap();
    assert_eq!(
        out,
        RepoInfo::brath("https://github.com/owner/repo", "repo", "main/README.md")
    );
}

#[test]
fn raw_permanent_file() {
    let ins = "https://raw.githubusercontent.com/owner/repo/0123456789abcdef0123456789abcdef01234567/src/main.rs";
    let out = RepoInfo::try_from(ins).unwrap();
    assert_eq!(
        out,
        RepoInfo::brath(
            "https://github.com/owner/repo",
            "repo",
            "0123456789abcdef0123456789abcdef01234567/src/main.rs"
        )
    );
}
