use finalfusion_utils::analogies::{read_analogies, MalformedLine};

fn lines(text: &[&str]) -> Vec<String> {
    text.iter().map(|l| l.to_string()).collect()
}

#[test]
fn instances_take_the_label_of_the_last_header() {
    let file = read_analogies(&lines(&[
        ": capital-world",
        "Athens Greece Baghdad Iraq",
        "Bern Switzerland Cairo Egypt",
        ": family",
        "boy girl brother sister",
    ]))
    .unwrap();
    assert_eq!(file.sections, vec!["capital-world", "family"]);
    assert_eq!(file.instances.len(), 3);
    assert_eq!(file.instances[0].section, 0);
    assert_eq!(file.instances[1].section, 0);
    assert_eq!(file.instances[2].section, 1);
    let i = &file.instances[2];
    assert_eq!((i.query.0.as_str(), i.query.1.as_str(), i.query.2.as_str()), ("boy", "girl", "brother"));
    assert_eq!(i.answer, "sister");
}

#[test]
fn instances_before_any_header_have_the_empty_label() {
    let file = read_analogies(&lines(&["a b c d"])).unwrap();
    assert_eq!(file.sections, vec![""]);
    assert_eq!(file.instances[0].section, 0);
}

#[test]
fn repeated_label_names_one_section() {
    let file = read_analogies(&lines(&[": x", "a b c d", ": y", "e f g h", ": x", "i j k l"])).unwrap();
    assert_eq!(file.sections, vec!["x", "y"]);
    assert_eq!(file.instances[2].section, 0);
}

#[test]
fn header_without_instances_adds_no_section() {
    let file = read_analogies(&lines(&[": empty", ": full", "a b c d"])).unwrap();
    assert_eq!(file.sections, vec!["full"]);
}

#[test]
fn extra_tokens_after_the_answer_are_ignored() {
    let file = read_analogies(&lines(&["a b c d e"])).unwrap();
    assert_eq!(file.instances[0].answer, "d");
}

#[test]
fn short_line_is_malformed() {
    assert_eq!(
        read_analogies(&lines(&[": s", "a b c d", "a b c"])).err(),
        Some(MalformedLine { line: 2 })
    );
    assert_eq!(read_analogies(&lines(&["", "a b c d"])).err(), Some(MalformedLine { line: 0 }));
}

#[test]
fn colon_without_space_is_no_header() {
    assert_eq!(read_analogies(&lines(&[":s"])).err(), Some(MalformedLine { line: 0 }));
}
