use submission_organizer::archive::{plan_archive, ArchiveStep};

#[test]
fn matching_entry_is_extracted_into_its_user_directory() {
    let entries = vec![String::from(
        "CS101_ab12cd34_attempt_2023-05-01-10-00-00_hw1.py",
    )];
    let steps = plan_archive(&entries);
    assert_eq!(
        steps,
        vec![
            ArchiveStep::CreateDir { user_id: String::from("ab12cd34") },
            ArchiveStep::ExtractFile {
                entry_index: 0,
                user_id: String::from("ab12cd34"),
                original_filename: String::from("hw1.py"),
            },
        ]
    );
    // the runner decompresses entry 0 and writes its bytes unchanged to
    // <dst>/ab12cd34/hw1.py
}

#[test]
fn entry_indices_skip_entries_that_do_not_match() {
    let entries = vec![
        String::from("readme.txt"),
        String::from("CS101_ab12cd34_attempt_2023-05-01-10-00-00_hw1.py"),
    ];
    let steps = plan_archive(&entries);
    assert_eq!(
        steps,
        vec![
            ArchiveStep::CreateDir { user_id: String::from("ab12cd34") },
            ArchiveStep::ExtractFile {
                entry_index: 1,
                user_id: String::from("ab12cd34"),
                original_filename: String::from("hw1.py"),
            },
        ]
    );
}

#[test]
fn one_directory_per_user_among_archive_entries() {
    let entries = vec![
        String::from("CS101_ab12cd34_attempt_2023-05-01-10-00-00_hw1.py"),
        String::from("CS102_ab12cd34_attempt_2023-05-03-10-00-00_hw2.py"),
    ];
    let steps = plan_archive(&entries);
    assert_eq!(
        steps,
        vec![
            ArchiveStep::CreateDir { user_id: String::from("ab12cd34") },
            ArchiveStep::ExtractFile {
                entry_index: 0,
                user_id: String::from("ab12cd34"),
                original_filename: String::from("hw1.py"),
            },
            ArchiveStep::ExtractFile {
                entry_index: 1,
                user_id: String::from("ab12cd34"),
                original_filename: String::from("hw2.py"),
            },
        ]
    );
}

#[test]
fn empty_archive_plans_no_steps() {
    assert!(plan_archive(&Vec::new()).is_empty());
}
