use mygrep::glob::Glob;

#[test]
fn test_glob_1() {
    let path = String::from("./foo/bar.py");
    let pattern = String::from("./foo/bar.py");
    assert_eq!(Glob::new(&pattern).is_match(&path), true);
}

#[test]
fn test_glob_2() {
    let pattern = String::from("./**/bar.py");
    let path = String::from("./foo/bar.py");
    assert_eq!(Glob::new(&pattern).is_match(&path), true);
}

#[test]
fn test_glob_3() {
    let pattern = String::from("./**/*.py");
    let path = String::from("./foo/bar.py");
    assert_eq!(Glob::new(&pattern).is_match(&path), true);
}

#[test]
fn test_glob_4() {
    let pattern = String::from("./**/*");
    let path_1 = String::from("./foo/bar.py");
    let path_2 = String::from("./foo/baz.txt");
    assert_eq!(Glob::new(&pattern).is_match(&path_1), true);
    assert_eq!(Glob::new(&pattern).is_match(&path_2), true);
}

#[test]
fn test_glob_5() {
    let pattern = String::from("./**");
    let path_1 = String::from("./foo/bar.py");
    let path_2 = String::from("./foo/baz.txt");
    let path_3 = String::from("./foo/bar/baz.txt");
    let path_4 = String::from("./foo/");
    assert_eq!(Glob::new(&pattern).is_match(&path_1), true);
    assert_eq!(Glob::new(&pattern).is_match(&path_2), true);
    assert_eq!(Glob::new(&pattern).is_match(&path_3), true);
    assert_eq!(Glob::new(&pattern).is_match(&path_4), true);
}

#[test]
fn test_glob_6() {
    let pattern = String::from("foo/bar/baz/**/a.txt");
    let path = String::from("foo/bar/baz/a.txt");
    assert_eq!(Glob::new(&pattern).is_match(&path), true);
    let pattern = String::from("foo/bar/baz/**/*.txt");
    assert_eq!(Glob::new(&pattern).is_match(&path), true);
}

#[test]
fn test_glob_7() {
    let pattern = String::from("foo/**/bar/baz/a.txt");
    let path = String::from("foo/bar/bar/baz/a.txt");
    assert_eq!(Glob::new(&pattern).is_match(&path), true);
}

#[test]
fn test_glob_8() {
    let pattern = String::from("foo/**/bar.txt");
    let path = String::from("foo/baz.txt");
    assert_eq!(Glob::new(&pattern).is_match(&path), false);
    let path = String::from("bar/bar.txt");
    assert_eq!(Glob::new(&pattern).is_match(&path), false);
    let path = String::from("foo/bar");
    assert_eq!(Glob::new(&pattern).is_match(&path), false);
}

#[test]
fn test_glob_9() {
    let pattern = String::from("foo/**/*.txt");
    let path = String::from("foo/bar/baz.py");
    assert_eq!(Glob::new(&pattern).is_match(&path), false);
}

#[test]
fn test_glob_10() {
    let pattern = String::from("foo/**/*.txt");
    let path = String::from("foo/bar/baz/a.txt");
    assert_eq!(Glob::new(&pattern).is_match(&path), false);
}

#[test]
fn test_glob_11() {
    let pattern = String::from("/foo/bar");
    let path = String::from("foo/bar");
    assert_eq!(Glob::new(&pattern).is_match(&path), false);
}

#[test]
fn test_glob_12() {
    let pattern = String::from("./foo/bar");
    let path = String::from("foo/bar");
    assert_eq!(Glob::new(&pattern).is_match(&path), false);
}
