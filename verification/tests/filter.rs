use nxdl::filter::{build_filter, decide, FileFilter, FilterError};

#[test]
fn substrings_are_alternatives() {
    let f = FileFilter::from_substrings("Base:Character:Etc", false).unwrap();
    assert!(f.matches("Data/Base/Base.wz"));
    assert!(f.matches("Data\\Character\\00002000.img"));
    assert!(!f.matches("Data/Mob/0100100.img"));
    assert!(!f.matches("data/base"));
    let slashed = FileFilter::from_substrings("Data/Base", false).unwrap();
    assert!(slashed.matches("x\\Data\\Base\\y"));
    let back = FileFilter::from_substrings("Data\\Base", false).unwrap();
    assert!(!back.matches("x\\Data\\Base\\y"));
}

#[test]
fn patterns_are_regular_expressions() {
    let f = FileFilter::from_regexes("^mxd/Base:\\.wz$", false).unwrap();
    assert!(f.matches("mxd\\Base\\x"));
    assert!(f.matches("a/b.wz"));
    assert!(!f.matches("a/b.wz.bak"));
    assert!(!f.matches("x/mxd/Base"));
    let any = FileFilter::from_regexes("[ab]{2}", false).unwrap();
    assert!(any.matches("xxabxx"));
    assert!(!any.matches("a-b{2}"));
}

#[test]
fn an_inverted_filter_keeps_the_rest() {
    for (raw, path) in [("a", "abc"), ("a", "xyz"), ("b:c", "abc"), ("q:r", "")] {
        let plain = FileFilter::from_substrings(raw, false).unwrap();
        let inverted = FileFilter::from_substrings(raw, true).unwrap();
        assert_eq!(inverted.matches(path), !plain.matches(path));
        let plain = FileFilter::from_regexes(raw, false).unwrap();
        let inverted = FileFilter::from_regexes(raw, true).unwrap();
        assert_eq!(inverted.matches(path), !plain.matches(path));
    }
}

#[test]
fn empty_conditions_are_refused() {
    for raw in ["", ":", "a:", ":a", "a::b"] {
        let err = FileFilter::from_substrings(raw, false).err().unwrap();
        assert!(matches!(err, FilterError::EmptyCondition { .. }));
        assert_eq!(
            err.message(),
            format!("filter condition is invalid: empty condition in '{raw}'")
        );
        let err = FileFilter::from_regexes(raw, true).err().unwrap();
        assert_eq!(
            err.message(),
            format!("filter-regex condition is invalid: empty pattern in '{raw}'")
        );
    }
}

#[test]
fn broken_patterns_are_refused_in_order() {
    let err = FileFilter::from_regexes("a:(b:[", false).err().unwrap();
    let words = regex::Regex::new("(b").unwrap_err().to_string();
    assert_eq!(err.message(), format!("invalid regex pattern '(b': {words}"));
    // The first fault is the one that is reported.
    assert!(matches!(
        FileFilter::from_regexes("a::(b", false).err().unwrap(),
        FilterError::EmptyPattern { .. }
    ));
    assert!(matches!(
        FileFilter::from_regexes("(b:", false).err().unwrap(),
        FilterError::InvalidRegex { .. }
    ));
}

#[test]
fn verdicts_are_joined() {
    assert!(!decide(&[], false));
    assert!(decide(&[], true));
    assert!(decide(&[false, true, false], false));
    assert!(!decide(&[false, true, false], true));
    assert!(decide(&[false, false], true));
}

#[test]
fn substrings_go_before_patterns() {
    let a = "a.c".to_owned();
    let b = "a.c".to_owned();
    let plain = build_filter(Some(&a), Some(&b), false).unwrap().unwrap();
    assert!(!plain.matches("abc"));
    let regex = build_filter(None, Some(&b), false).unwrap().unwrap();
    assert!(regex.matches("abc"));
    assert!(build_filter(None, None, true).unwrap().is_none());
    let empty = String::new();
    assert!(build_filter(Some(&empty), None, false).is_err());
    assert!(build_filter(None, Some(&empty), false).is_err());
}

#[test]
fn a_cloned_filter_answers_alike() {
    for invert in [false, true] {
        for filter in [
            FileFilter::from_substrings("a/b:c", invert).unwrap(),
            FileFilter::from_regexes("^a.b$:c+", invert).unwrap(),
        ] {
            let copy = filter.clone();
            for path in ["a\\b", "a/b", "xcx", "A/B", ""] {
                assert_eq!(copy.matches(path), filter.matches(path));
            }
        }
    }
}
