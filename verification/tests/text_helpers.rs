use wks::brath::{brath_into_potentials, commit_candidate, resolve_ref};
use wks::text::{join_strings, split_lines};

#[test]
fn lines_as_str_lines_gives_them() {
    assert_eq!(split_lines("a\r\nb\n\nc"), vec!["a", "b", "", "c"]);
    assert_eq!(split_lines("a\n"), vec!["a"]);
    assert_eq!(split_lines("a\r"), vec!["a\r"]);
    assert_eq!(split_lines(""), Vec::<String>::new());
    assert_eq!(split_lines("\n"), vec![""]);
}

#[test]
fn joining_split_pieces_gives_text_back() {
    let text = "x/y//z/";
    let pieces: Vec<String> = text.split('/').map(String::from).collect();
    assert_eq!(join_strings(&pieces, "/"), text);
}

#[test]
fn potentials_are_prefixes() {
    let brath = "feature/x/src/lib.rs";
    for p in brath_into_potentials(brath) {
        assert!(brath.starts_with(&format!("{}/", p)));
    }
    assert_eq!(brath_into_potentials("/abs"), Vec::<String>::new());
    assert_eq!(brath_into_potentials("a//b"), vec!["a/".to_string(), "a".to_string()]);
}

#[test]
fn unresolved_falls_back_to_shortest() {
    let potentials = brath_into_potentials("main/src/lib.rs");
    let branchlikes = vec!["dev".to_string()];
    assert_eq!(resolve_ref(&branchlikes, &potentials), None);
    assert_eq!(commit_candidate(&potentials), Some("main".to_string()));
    assert_eq!(commit_candidate(&Vec::new()), None);
}
