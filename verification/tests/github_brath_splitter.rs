use wks::brath::{brath_into_potentials, refs_into_branchlikes, resolve_ref};

#[test]
fn local_branches() {
    let ins = r#"
        refs/heads/10576/anchors/pantos9000
        refs/heads/11700/search_index/useche
    "#;
    let out = refs_into_branchlikes(ins);
    assert_eq!(
        out,
        vec![
            String::from("10576/anchors/pantos9000"),
            String::from("11700/search_index/useche")
        ]
    );
}

#[test]
fn origin_branches() {
    let ins = r#"
        refs/remotes/origin/Axlefublr/buffer_nth
        refs/remotes/origin/Axlefublr/enable_diagnostics
    "#;
    let out = refs_into_branchlikes(ins);
    assert_eq!(
        out,
        vec![
            String::from("Axlefublr/buffer_nth"),
            String::from("Axlefublr/enable_diagnostics")
        ]
    );
}

#[test]
fn upstream_branches() {
    let ins = r#"
        refs/remotes/upstream/config_refactor_v2
        refs/remotes/upstream/dependabot/cargo/rust-dependencies-c55b2a2244
    "#;
    let out = refs_into_branchlikes(ins);
    assert_eq!(
        out,
        vec![
            String::from("config_refactor_v2"),
            String::from("dependabot/cargo/rust-dependencies-c55b2a2244")
        ]
    );
}

#[test]
fn tags() {
    let ins = r#"
        refs/tags/25.07.1
        refs/tags/v0.0.10
    "#;
    let out = refs_into_branchlikes(ins);
    assert_eq!(out, vec![String::from("25.07.1"), String::from("v0.0.10")]);
}

#[test]
fn blocked() {
    let ins = r#"
        refs/remotes/origin/HEAD
        refs/remotes/upstream/HEAD
        refs/stash
    "#;
    let out = refs_into_branchlikes(ins);
    assert_eq!(out, Vec::<String>::new());
}

#[test]
fn one_of_each() {
    let ins = r#"
        refs/heads/10576/anchors/pantos9000
        refs/heads/dev
        refs/remotes/origin/Axlefublr/buffer_nth
        refs/remotes/origin/HEAD
        refs/remotes/upstream/25.07.x
        refs/remotes/upstream/HEAD
        refs/stash
        refs/tags/22.03
    "#;
    let out = refs_into_branchlikes(ins);
    assert_eq!(
        out,
        vec![
            String::from("10576/anchors/pantos9000"),
            String::from("dev"),
            String::from("Axlefublr/buffer_nth"),
            String::from("25.07.x"),
            String::from("22.03"),
        ]
    );
}

#[test]
fn potentialing() {
    let ins = "guarantees/orgasm/albany/permit/routine.rs";
    let out = brath_into_potentials(ins);
    assert_eq!(
        out,
        vec![
            String::from("guarantees/orgasm/albany/permit"),
            String::from("guarantees/orgasm/albany"),
            String::from("guarantees/orgasm"),
            String::from("guarantees"),
        ]
    );
}

#[test]
fn potentialing_uselessly() {
    let ins = "guarantees";
    let out = brath_into_potentials(ins);
    assert_eq!(out, vec![String::from("guarantees"),]);
}

#[test]
fn resolvation() {
    let potentials = vec![
        String::from("guarantees/orgasm/albany/permit"),
        String::from("guarantees/orgasm/albany"),
        String::from("guarantees/orgasm"),
        String::from("guarantees"),
    ];
    let branchlikes = vec![
        String::from("guarantees"),
        String::from("guarantees/orgasm"),
        String::from("guarantees/orgasm/albany"),
        String::from("guarantees/orgasm/albany/permit"),
    ];
    let out = resolve_ref(&branchlikes, &potentials);
    assert_eq!(out, Some("guarantees/orgasm/albany/permit".to_owned()));
}

#[test]
fn resolvation_rev() {
    let potentials = vec![
        String::from("guarantees/orgasm/albany/permit"),
        String::from("guarantees/orgasm/albany"),
        String::from("guarantees/orgasm"),
        String::from("guarantees"),
    ];
    let branchlikes = vec![
        String::from("guarantees/orgasm/albany/permit"),
        String::from("guarantees/orgasm/albany"),
        String::from("guarantees/orgasm"),
        String::from("guarantees"),
    ];
    let out = resolve_ref(&branchlikes, &potentials);
    assert_eq!(out, Some("guarantees/orgasm/albany/permit".to_owned()));
}
