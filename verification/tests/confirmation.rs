use file_organizer::confirm::is_affirmative;
use file_organizer::organize;
use file_organizer::planner::Entry;

fn chars(s: &str) -> Vec<char> {
    s.chars().collect()
}

#[test]
fn a_lone_y_confirms_in_any_case() {
    assert!(is_affirmative(&chars("y")));
    assert!(is_affirmative(&chars("Y")));
    assert!(is_affirmative(&chars("y\n")));
    assert!(is_affirmative(&chars("Y\r\n")));
    assert!(is_affirmative(&chars("  y  ")));
    // Unicode whitespace is stripped too, as `str::trim` strips it.
    assert!(is_affirmative(&chars("y\u{00A0}")));
    assert!(is_affirmative(&chars("\u{3000}Y\u{2028}")));
}

#[test]
fn anything_else_declines() {
    assert!(!is_affirmative(&chars("")));
    assert!(!is_affirmative(&chars("\n")));
    assert!(!is_affirmative(&chars("n")));
    assert!(!is_affirmative(&chars("yes")));
    assert!(!is_affirmative(&chars("yy")));
    assert!(!is_affirmative(&chars("x y")));
    // A zero-width space is not whitespace: it stays and declines.
    assert!(!is_affirmative(&chars("y\u{200B}")));
}

#[test]
fn declining_plans_nothing_at_all() {
    let entries = vec![
        Entry { rel_path: vec![], is_file: false },
        Entry { rel_path: vec![chars("a.jpg")], is_file: true },
        Entry { rel_path: vec![chars("b.txt")], is_file: true },
    ];
    assert!(organize(&chars("n\n"), &entries).is_none());
    assert!(organize(&chars(""), &entries).is_none());
    assert!(organize(&chars("yes\n"), &entries).is_none());
}
