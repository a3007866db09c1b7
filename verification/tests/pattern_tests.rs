use submission_organizer::pattern::match_name;

#[test]
fn full_match_extracts_all_fields() {
    let m = match_name("CS101_ab12cd34_attempt_2023-05-01-10-00-00_hw1.py").unwrap();
    assert_eq!(m.group_label, "CS101");
    assert_eq!(m.user_id, "ab12cd34");
    assert_eq!(m.submitted_at, "2023-05-01-10-00-00");
    assert_eq!(m.original_filename, "hw1.py");
}

#[test]
fn leading_path_segments_are_tolerated() {
    let m = match_name("/srv/export/CS101_ab12cd34_attempt_2023-05-01-10-00-00_hw1.py").unwrap();
    assert_eq!(m.group_label, "CS101");
    assert_eq!(m.user_id, "ab12cd34");
    assert_eq!(m.original_filename, "hw1.py");
}

#[test]
fn label_may_contain_spaces() {
    let m = match_name("Home Work 2_ab12cd34_attempt_2023-05-01-10-00-00_hw2.txt").unwrap();
    assert_eq!(m.group_label, "Home Work 2");
    assert_eq!(m.user_id, "ab12cd34");
    assert_eq!(m.original_filename, "hw2.txt");
}

#[test]
fn user_id_of_seven_characters_is_rejected() {
    assert!(match_name("CS101_ab12cd3_attempt_2023-05-01-10-00-00_hw1.py").is_none());
}

#[test]
fn missing_attempt_literal_is_rejected() {
    assert!(match_name("CS101_ab12cd34_try_2023-05-01-10-00-00_hw1.py").is_none());
}

#[test]
fn malformed_timestamp_is_rejected() {
    assert!(match_name("CS101_ab12cd34_attempt_2023-05-01_hw1.py").is_none());
    assert!(match_name("CS101_ab12cd34_attempt_2023-05-01-10-00-0x_hw1.py").is_none());
}

#[test]
fn extra_dot_in_trailing_token_is_rejected() {
    assert!(match_name("CS101_ab12cd34_attempt_2023-05-01-10-00-00_hw1.tar.gz").is_none());
}

#[test]
fn plain_name_does_not_match() {
    assert!(match_name("readme.txt").is_none());
    assert!(match_name("").is_none());
}

#[test]
fn underscores_may_sit_inside_the_label() {
    let m = match_name("CS_101_ab12cd34_attempt_2023-05-01-10-00-00_hw1.py").unwrap();
    assert_eq!(m.group_label, "CS_101");
    assert_eq!(m.user_id, "ab12cd34");
}

#[test]
fn timestamp_fields_are_not_validated_as_dates() {
    let m = match_name("CS101_ab12cd34_attempt_9999-99-99-99-99-99_hw1.py").unwrap();
    assert_eq!(m.submitted_at, "9999-99-99-99-99-99");
}
