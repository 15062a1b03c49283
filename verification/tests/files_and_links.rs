use wks::anki::{anki_card, card_file_readable, AnkiError};
use wks::links::{try_update_links, update_links, LinkOutcome};
use wks::partialsort::partial_sort;
use wks::walk::{listing, WalkEntry};

fn strings(v: &[&str]) -> Vec<String> {
    v.iter().map(|s| s.to_string()).collect()
}

#[test]
fn card_checks_come_in_order() {
    assert_eq!(anki_card("Once\nb\nx\ny\n"), Err(AnkiError::InvalidDeck));
    assert_eq!(anki_card("Other\nfb\nx\ny\n"), Err(AnkiError::InvalidNoteType));
    assert_eq!(anki_card("Other\nzz\nx\ny\n"), Err(AnkiError::FieldCount(4)));
}

#[test]
fn card_fields_are_quoted_and_padded() {
    assert_eq!(
        anki_card("  Deck \nnote\nsay \"hi\"\n").unwrap(),
        "\"Deck\"|\"note\"|\"say \"\"hi\"\"\"|\"\"|\"\"|\"\""
    );
}

#[test]
fn card_fields_beyond_six_are_dropped() {
    assert_eq!(
        anki_card("a\nq\n1\n2\n3\n4\n5\n").unwrap(),
        "\"a\"|\"q\"|\"1\"|\"2\"|\"3\"|\"4\""
    );
}

#[test]
fn link_with_known_address_is_found() {
    let text = "one \u{2014} https://a\ntwo \u{2014} https://b\n";
    assert_eq!(update_links(text, "three", "https://b"), LinkOutcome::Listed(2));
}

#[test]
fn link_with_known_name_is_overwritten() {
    let text = "one \u{2014} https://a\ntwo \u{2014} https://b\n";
    assert_eq!(
        update_links(text, "two", "https://c"),
        LinkOutcome::Updated {
            contents: "one \u{2014} https://a\ntwo \u{2014} https://c\n".to_string(),
            replaced: true,
        }
    );
}

#[test]
fn new_link_is_appended() {
    let text = "one \u{2014} https://a\n";
    assert_eq!(
        update_links(text, "two", "https://b"),
        LinkOutcome::Updated {
            contents: "one \u{2014} https://a\ntwo \u{2014} https://b\n".to_string(),
            replaced: false,
        }
    );
}

#[test]
fn sorts_only_between_markers() {
    let out = partial_sort(strings(&["z", "[[sort on]]", "c", "a", "b", "[[sort off]]", "y"]));
    assert_eq!(out, strings(&["z", "[[sort on]]", "a\nb\nc", "[[sort off]]", "y"]));
}

#[test]
fn unterminated_block_is_sorted_at_the_end() {
    let out = partial_sort(strings(&["[[sort on]]", "b", "a"]));
    assert_eq!(out, strings(&["[[sort on]]", "a\nb"]));
}

#[test]
fn text_without_markers_is_unchanged() {
    let lines = strings(&["b", "a", "c"]);
    assert_eq!(partial_sort(lines.clone()), lines);
}

#[test]
fn walk_listing_is_breadth_first() {
    let e = |p: &str, depth: usize, is_dir: bool| WalkEntry { path: p.to_string(), depth, is_dir };
    let entries = vec![
        e("a", 1, true),
        e("a/x", 2, false),
        e("b.txt", 1, false),
        e("c", 1, true),
        e("c/d", 2, true),
    ];
    assert_eq!(listing(&entries), strings(&["b.txt", "a/", "c/", "a/x", "c/d/"]));
}

#[test]
fn unreadable_line_after_the_stop_is_not_reached() {
    let text = "one \u{2014} https://a\nbroken\n";
    assert_eq!(update_links(text, "two", "https://a"), LinkOutcome::Listed(1));
    assert_eq!(try_update_links(text, "two", "https://b"), None);
}

#[test]
fn refused_deck_needs_no_note_type() {
    assert_eq!(anki_card("Freq"), Err(AnkiError::InvalidDeck));
    assert!(card_file_readable("Freq"));
    assert!(!card_file_readable("Other"));
    assert!(!card_file_readable(""));
}
