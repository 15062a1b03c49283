use wks::confirm::{accepts, build_prompt, Alternative};

#[test]
fn key_follows_the_first_bracket() {
    let a = Alternative::from_str("[y]es");
    assert_eq!(a.text, "[y]es");
    assert_eq!(a.shortcut, Some('y'));
    let b = Alternative::from_str("ma[y]be [n]ot");
    assert_eq!(b.shortcut, Some('y'));
}

#[test]
fn no_key_gives_a_line_break() {
    let a = Alternative::from_str("plain");
    assert_eq!(a.text, "");
    assert_eq!(a.shortcut, None);
    let b = Alternative::from_str("trailing[");
    assert_eq!(b.shortcut, None);
}

#[test]
fn prompt_lays_out_alternatives() {
    let alts = vec![
        Alternative::from_str("[y]es"),
        Alternative::from_str("[n]o"),
        Alternative::from_str("-"),
        Alternative::from_str("[q]uit"),
    ];
    let p = build_prompt(&alts);
    assert_eq!(p.text, "[y]es [n]o\n[q]uit");
    assert_eq!(p.keys, vec!['y', 'n', 'q']);
    assert!(accepts(&p.keys, 'n'));
    assert!(!accepts(&p.keys, 'x'));
}
