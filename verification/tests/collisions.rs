use file_organizer::naming::generate_unique_name;

fn chars(s: &str) -> Vec<char> {
    s.chars().collect()
}

fn names(list: &[&str]) -> Vec<Vec<char>> {
    list.iter().map(|s| chars(s)).collect()
}

#[test]
fn a_free_name_is_kept_unchanged() {
    let existing = names(&["b.jpg", "c.jpg"]);
    assert_eq!(generate_unique_name(&chars("a.jpg"), &existing), chars("a.jpg"));
    assert_eq!(generate_unique_name(&chars("a.jpg"), &names(&[])), chars("a.jpg"));
}

#[test]
fn an_occupied_name_gets_the_first_suffix() {
    let existing = names(&["a.jpg"]);
    assert_eq!(generate_unique_name(&chars("a.jpg"), &existing), chars("a_1.jpg"));
}

#[test]
fn suffixes_count_up_to_the_first_free_one() {
    let existing = names(&["a.jpg", "a_1.jpg", "a_2.jpg"]);
    assert_eq!(generate_unique_name(&chars("a.jpg"), &existing), chars("a_3.jpg"));
}

#[test]
fn a_gap_in_the_suffixes_is_taken() {
    let existing = names(&["a.jpg", "a_1.jpg", "a_3.jpg"]);
    assert_eq!(generate_unique_name(&chars("a.jpg"), &existing), chars("a_2.jpg"));
}

#[test]
fn an_extensionless_name_gets_suffix_and_trailing_dot() {
    let existing = names(&["README"]);
    assert_eq!(generate_unique_name(&chars("README"), &existing), chars("README_1."));
}

#[test]
fn an_empty_extension_keeps_its_dot() {
    let existing = names(&["a."]);
    assert_eq!(generate_unique_name(&chars("a."), &existing), chars("a_1."));
}

#[test]
fn many_collisions_reach_double_digits() {
    let mut list: Vec<&str> = vec!["a.jpg"];
    let with_suffix: Vec<String> = (1..=10).map(|k| format!("a_{}.jpg", k)).collect();
    for s in &with_suffix {
        list.push(s);
    }
    let existing: Vec<Vec<char>> = list.iter().map(|s| s.chars().collect()).collect();
    assert_eq!(generate_unique_name(&chars("a.jpg"), &existing), chars("a_11.jpg"));
}
