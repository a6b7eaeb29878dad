use finalfusion::vocab::{SimpleVocab, VocabWrap};

use finalfusion_utils::vocab::{select_known, select_words, UnknownWord};

fn strings(ws: &[&str]) -> Vec<String> {
    ws.iter().map(|w| w.to_string()).collect()
}

fn vocab() -> VocabWrap {
    SimpleVocab::new(strings(&["berlin", "paris", "rome"])).into()
}

#[test]
fn known_words_are_kept_once_in_order() {
    let sel = select_known(&strings(&["rome", "x", "paris", "rome"]), &vec![true, false, true, true], true);
    assert_eq!(sel, Ok(strings(&["rome", "paris"])));
}

#[test]
fn first_unknown_word_is_an_error() {
    let sel = select_known(&strings(&["rome", "x", "y"]), &vec![true, false, false], false);
    assert_eq!(sel, Err(UnknownWord { word: "x".to_string() }));
}

#[test]
fn selecting_from_a_vocabulary() {
    let v = vocab();
    assert_eq!(
        select_words(&v, &strings(&["paris", "london", "berlin", "paris"]), true),
        Ok(strings(&["paris", "berlin"]))
    );
    assert_eq!(
        select_words(&v, &strings(&["paris", "london"]), false),
        Err(UnknownWord { word: "london".to_string() })
    );
    assert_eq!(select_words(&v, &strings(&[]), false), Ok(vec![]));
}
