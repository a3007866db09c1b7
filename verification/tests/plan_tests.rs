use submission_organizer::plan::{plan_moves, PlanStep};
use submission_organizer::scan::scan_names;

fn batch_same_user() -> Vec<String> {
    vec![
        String::from("CS101_ab12cd34_attempt_2023-05-01-10-00-00_hw1.py"),
        String::from("Lab 2_ab12cd34_attempt_2023-06-01-09-00-00_hw2.py"),
    ]
}

#[test]
fn one_directory_per_user_across_labels_and_timestamps() {
    let matches = scan_names(&batch_same_user());
    assert_eq!(matches.len(), 2);
    let steps = plan_moves(&matches);
    let creates: Vec<&PlanStep> = steps
        .iter()
        .filter(|st| matches!(st, PlanStep::CreateDir { .. }))
        .collect();
    assert_eq!(creates.len(), 1);
    assert_eq!(
        *creates[0],
        PlanStep::CreateDir { user_id: String::from("ab12cd34") }
    );
}

#[test]
fn each_match_is_moved_to_its_user_directory_under_its_original_name() {
    let names = vec![
        String::from("CS101_ab12cd34_attempt_2023-05-01-10-00-00_hw1.py"),
        String::from("CS101_ef56gh78_attempt_2023-05-02-11-30-00_hw1.py"),
    ];
    let steps = plan_moves(&scan_names(&names));
    assert_eq!(
        steps,
        vec![
            PlanStep::CreateDir { user_id: String::from("ab12cd34") },
            PlanStep::MoveFile {
                source_path: names[0].clone(),
                user_id: String::from("ab12cd34"),
                original_filename: String::from("hw1.py"),
            },
            PlanStep::CreateDir { user_id: String::from("ef56gh78") },
            PlanStep::MoveFile {
                source_path: names[1].clone(),
                user_id: String::from("ef56gh78"),
                original_filename: String::from("hw1.py"),
            },
        ]
    );
}

#[test]
fn directory_creation_comes_before_every_move_of_its_user() {
    let steps = plan_moves(&scan_names(&batch_same_user()));
    assert_eq!(
        steps,
        vec![
            PlanStep::CreateDir { user_id: String::from("ab12cd34") },
            PlanStep::MoveFile {
                source_path: String::from("CS101_ab12cd34_attempt_2023-05-01-10-00-00_hw1.py"),
                user_id: String::from("ab12cd34"),
                original_filename: String::from("hw1.py"),
            },
            PlanStep::MoveFile {
                source_path: String::from("Lab 2_ab12cd34_attempt_2023-06-01-09-00-00_hw2.py"),
                user_id: String::from("ab12cd34"),
                original_filename: String::from("hw2.py"),
            },
        ]
    );
    // a runner that performs the steps in order and aborts on the first
    // failure therefore moves nothing for this user when the creation
    // fails, e.g. because the directory already existed before the run
}

#[test]
fn unmatched_names_are_left_untouched() {
    let names = vec![
        String::from("readme.txt"),
        String::from("CS101_ab12cd34_attempt_2023-05-01-10-00-00_hw1.py"),
    ];
    let steps = plan_moves(&scan_names(&names));
    for st in &steps {
        match st {
            PlanStep::CreateDir { user_id } => assert_eq!(user_id, "ab12cd34"),
            PlanStep::MoveFile { source_path, .. } => {
                assert_ne!(source_path, "readme.txt");
            }
        }
    }
    assert_eq!(steps.len(), 2);
}

#[test]
fn empty_batch_plans_no_steps() {
    let steps = plan_moves(&Vec::new());
    assert!(steps.is_empty());
}
