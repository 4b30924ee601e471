use transit_csa::names::Names;

#[test]
fn each_text_gets_a_number_of_its_own() {
    let mut names = Names::new();
    assert_eq!(names.len(), 0);
    assert_eq!(names.number("stoparea:17"), 0);
    assert_eq!(names.number("7"), 1);
    assert_eq!(names.number("007"), 2);
    assert_eq!(names.number(""), 3);
    assert_eq!(names.number("Zürich HB"), 4);
    assert_eq!(names.len(), 5);
}

#[test]
fn a_text_keeps_its_number() {
    let mut names = Names::new();
    let first = names.number("S1");
    let second = names.number("S2");
    assert_eq!(names.number("S1"), first);
    assert_eq!(names.number("S2"), second);
    assert_ne!(first, second);
    assert_eq!(names.len(), 2);
    assert_eq!(names.find("S1"), Some(first));
    assert_eq!(names.find("S3"), None);
    assert_eq!(names.len(), 2);
}

#[test]
fn a_number_leads_back_to_its_text() {
    let mut names = Names::new();
    for text in ["a", "b", "a", "c"] {
        let n = names.number(text);
        assert_eq!(names.text_of(n), Some(text));
    }
    assert_eq!(names.text_of(3), None);
    assert!(names.contains("c"));
    assert!(!names.contains("d"));
}

#[test]
fn many_texts_keep_their_numbers_apart() {
    let mut names = Names::new();
    let text = |k: u64| format!("stop:{}", k * 7919 % 20011);
    for k in 0..20000 {
        assert_eq!(names.number(&text(k)), k);
    }
    assert_eq!(names.len(), 20000);
    for k in (0..20000).rev() {
        assert_eq!(names.find(&text(k)), Some(k));
        assert_eq!(names.number(&text(k)), k);
        assert_eq!(names.text_of(k), Some(text(k).as_str()));
    }
    assert_eq!(names.find("stop:20011"), None);
    assert_eq!(names.len(), 20000);
}
