use pos_tagger::hmm::model::{argmax, observe};
use pos_tagger::hmm::trainer::hapax_of_row;
use pos_tagger::hmm::POSTaggingHMMTrainer;
use pos_tagger::text::{chars_of, lower_char_of, position, string_of, to_lowercase};
use pos_tagger::StringCounter;

#[test]
fn a_string_is_its_characters() {
    assert_eq!(chars_of("a\u{e9}z"), vec!['a', '\u{e9}', 'z']);
    assert_eq!(chars_of(""), Vec::<char>::new());
    let chars = vec!['h', 'e', 'l', 'l', 'o'];
    assert_eq!(string_of(&chars, 1, 4), "ell");
    assert_eq!(string_of(&chars, 0, 5), "hello");
    assert_eq!(string_of(&chars, 2, 2), "");
}

#[test]
fn only_ascii_capitals_are_lowered() {
    assert_eq!(lower_char_of('A'), 'a');
    assert_eq!(lower_char_of('Z'), 'z');
    assert_eq!(lower_char_of('m'), 'm');
    assert_eq!(lower_char_of('@'), '@');
    assert_eq!(lower_char_of('['), '[');
    assert_eq!(lower_char_of('\u{c9}'), '\u{c9}');
    assert_eq!(to_lowercase("Hello, WORLD-42 \u{c9}"), "hello, world-42 \u{c9}");
    assert_eq!(to_lowercase(""), "");
    for word in ["END", "MiXeD", "already", "\u{df}\u{130}K"] {
        assert_eq!(to_lowercase(word), word.to_ascii_lowercase());
    }
}

#[test]
fn position_is_the_first_place_of_a_key() {
    let keys = vec!["b".to_string(), "a".to_string(), "b".to_string()];
    assert_eq!(position(&keys, &"b".to_string()), Some(0));
    assert_eq!(position(&keys, &"a".to_string()), Some(1));
    assert_eq!(position(&keys, &"c".to_string()), None);
    assert_eq!(position(&Vec::new(), &"c".to_string()), None);
}

#[test]
fn the_first_of_equal_maxima_is_found() {
    assert_eq!(argmax(&vec![5]), 0);
    assert_eq!(argmax(&vec![1, 7, 3, 7]), 1);
    assert_eq!(argmax(&vec![-3, -3, -3]), 0);
    assert_eq!(argmax(&vec![-9, -8, -7]), 2);
    assert_eq!(argmax(&vec![i128::MIN, i128::MAX, i128::MAX]), 1);
}

#[test]
fn a_sentence_is_observed_in_lower_case_with_the_terminal_word() {
    let sentence = vec!["The".to_string(), "DOG".to_string()];
    assert_eq!(observe(&sentence), vec!["the", "dog", "end"]);
    assert_eq!(observe(&Vec::new()), vec!["end"]);
}

#[test]
fn hapax_words_of_a_row_are_counted_with_their_artificial_tags() {
    let mut row = StringCounter::new();
    for word in ["running", "running", "jumping", "singing", "quickly", "dog", "repeat", "1234"] {
        row.increment(word);
    }
    let (hapax, artificial) = hapax_of_row(&row);
    assert_eq!(hapax, 6);
    assert_eq!(
        artificial.iter(),
        vec![
            ("SUFF-ING".to_string(), 2),
            ("SUFF-LY".to_string(), 1),
            ("PREF-RE".to_string(), 1),
            ("IS-A-NUMBER".to_string(), 1)
        ]
    );
    let (hapax, artificial) = hapax_of_row(&StringCounter::new());
    assert_eq!(hapax, 0);
    assert_eq!(artificial.len(), 0);
}

#[test]
fn pairs_are_counted_one_sentence_at_a_time() {
    let mut trainer = POSTaggingHMMTrainer::default();
    assert!(!trainer.was_trained());
    assert_eq!(trainer.observed(), 0);
    let pair = |w: &str, t: &str| (w.to_string(), t.to_string());
    trainer.count_pairs(&vec![pair("The", "DT"), pair("dog", "NN"), pair("END", "END")]);
    trainer.count_pairs(&Vec::new());
    trainer.count_pairs(&vec![pair("A", "DT")]);
    assert_eq!(trainer.observed(), 4);
    assert!(trainer.can_train(&vec!["a=B c=D".to_string(), "e=F".to_string()]));
    assert!(trainer.can_train(&Vec::new()));
    assert!(!trainer.was_trained());
    let trained = trainer.train(Vec::new()).unwrap();
    assert!(trained.was_trained());
    let counts = trained.finalize().unwrap();
    assert_eq!(counts.initial.get("DT"), 2);
    assert_eq!(counts.emission.get("DT", "the"), 1);
    assert_eq!(counts.emission.get("DT", "a"), 1);
    assert_eq!(counts.emission.get("END", "end"), 1);
    assert_eq!(counts.transition.get("DT", "NN"), 1);
    assert_eq!(counts.transition.get("NN", "END"), 1);
    assert_eq!(counts.transition.get("END", "DT"), 0);
}

#[test]
fn default_counters_are_empty() {
    assert_eq!(StringCounter::default().len(), 0);
    assert_eq!(pos_tagger::ConditionalStringCounter::default().len(), 0);
}
