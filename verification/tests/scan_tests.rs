use submission_organizer::scan::scan_names;

fn listing() -> Vec<String> {
    vec![
        String::from("CS101_ab12cd34_attempt_2023-05-01-10-00-00_hw1.py"),
        String::from("readme.txt"),
        String::from("CS101_ef56gh78_attempt_2023-05-02-11-30-00_hw1.py"),
        String::from("notes"),
    ]
}

#[test]
fn scan_collects_matches_in_listing_order() {
    let matches = scan_names(&listing());
    assert_eq!(matches.len(), 2);
    assert_eq!(
        matches[0].source_path,
        "CS101_ab12cd34_attempt_2023-05-01-10-00-00_hw1.py"
    );
    assert_eq!(matches[0].fields.user_id, "ab12cd34");
    assert_eq!(
        matches[1].source_path,
        "CS101_ef56gh78_attempt_2023-05-02-11-30-00_hw1.py"
    );
    assert_eq!(matches[1].fields.user_id, "ef56gh78");
}

#[test]
fn scanning_an_unchanged_listing_twice_gives_the_same_matches() {
    let names = listing();
    let first = scan_names(&names);
    let second = scan_names(&names);
    assert_eq!(first, second);
}

#[test]
fn scan_of_empty_listing_is_empty() {
    let matches = scan_names(&Vec::new());
    assert!(matches.is_empty());
}
