use mygrep::grep::{
    divide_files_by_workers, is_case_insensitive_match, is_match, GrepData, GrepIterator,
    GrepState,
};
use mygrep::grep_error::GrepError;

fn state(pattern: &str) -> GrepState {
    GrepState {
        pattern: String::from(pattern),
        ignore_case: false,
        invert_match: false,
        no_messages: false,
        max_count: u32::MAX,
        show_line_number: false,
        with_filename: false,
        devices: String::from("skip"),
        recursive: false,
        files_without_match: false,
        count: false,
    }
}

#[test]
fn test_is_match_substring() {
    assert!(is_match(&String::from("lo wo"), &String::from("hello world")));
    assert!(!is_match(&String::from("low"), &String::from("hello world")));
    assert!(is_match(&String::from(""), &String::from("anything")));
}

#[test]
fn test_case_insensitive_match_lowers_both_sides() {
    assert!(is_case_insensitive_match(&String::from("ABC"), &String::from("zabcz")));
    assert!(is_case_insensitive_match(&String::from("abc"), &String::from("zABCz")));
    assert!(!is_case_insensitive_match(&String::from("abd"), &String::from("zABCz")));
}

#[test]
fn test_grep_iterator_reports_matches_in_order() {
    let lines = vec![
        Some(String::from("nothing here")),
        Some(String::from("a needle sits here")),
        None,
        Some(String::from("needle again")),
    ];
    let st = state("needle");
    let mut it = GrepIterator::new(lines, &st, String::from("input.txt"));
    let first = it.next().unwrap();
    assert_eq!(
        first,
        GrepData {
            line_number: 2,
            line: String::from("a needle sits here"),
            filename: String::from("input.txt"),
        }
    );
    let second = it.next().unwrap();
    assert_eq!(second.line_number, 4);
    assert_eq!(second.line, String::from("needle again"));
    assert!(it.next().is_none());
}

#[test]
fn test_grep_iterator_invert_match() {
    let lines = vec![Some(String::from("keep me")), Some(String::from("drop needle"))];
    let mut st = state("needle");
    st.invert_match = true;
    let mut it = GrepIterator::new(lines, &st, String::from("f"));
    let hit = it.next().unwrap();
    assert_eq!(hit.line_number, 1);
    assert_eq!(hit.line, String::from("keep me"));
    assert!(it.next().is_none());
}

#[test]
fn test_grep_iterator_ignore_case() {
    let lines = vec![Some(String::from("NEEDLE in caps"))];
    let mut st = state("needle");
    st.ignore_case = true;
    let mut it = GrepIterator::new(lines, &st, String::from("f"));
    assert_eq!(it.next().unwrap().line_number, 1);
}

#[test]
fn test_grep_iterator_unreadable_lines_keep_numbering() {
    let lines = vec![None, None, Some(String::from("needle"))];
    let st = state("needle");
    let mut it = GrepIterator::new(lines, &st, String::from("f"));
    assert_eq!(it.next().unwrap().line_number, 3);
}

#[test]
fn test_divide_files_by_workers_chunks_dirs() {
    let files = vec![String::from("a.txt"), String::from("b.txt")];
    let dirs = vec![
        String::from("d1"),
        String::from("d2"),
        String::from("d3"),
        String::from("d4"),
        String::from("d5"),
    ];
    let jobs = divide_files_by_workers(files.clone(), dirs, 4);
    assert_eq!(jobs.len(), 3);
    assert_eq!(jobs[0], files);
    assert_eq!(jobs[1], vec![String::from("d1"), String::from("d2")]);
    assert_eq!(jobs[2], vec![String::from("d3"), String::from("d4")]);
}

#[test]
fn test_divide_files_by_workers_no_dirs() {
    let files = vec![String::from("a.txt")];
    let jobs = divide_files_by_workers(files.clone(), Vec::new(), 4);
    assert_eq!(jobs.len(), 1);
    assert_eq!(jobs[0], files);
    let jobs = divide_files_by_workers(files.clone(), Vec::new(), 2);
    assert_eq!(jobs.len(), 1);
}

#[test]
fn test_grep_error_keeps_message() {
    let e = GrepError::from_err(String::from("no such file"));
    assert_eq!(e.message(), String::from("no such file"));
}
