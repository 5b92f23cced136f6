use pos_tagger::nlp::{extract_word_and_tag, preprocess_sentence};
use pos_tagger::nlp::parsing::{is_well_formed, parse_line, piece_count};

fn pair(word: &str, tag: &str) -> (String, String) {
    (word.to_string(), tag.to_string())
}

#[test]
fn a_line_is_split_into_pairs_and_closed() {
    assert_eq!(
        extract_word_and_tag("the=DT dog=NN runs=VBZ"),
        vec![pair("the", "DT"), pair("dog", "NN"), pair("runs", "VBZ"), pair("END", "END")]
    );
}

#[test]
fn words_are_put_in_lower_case_and_tags_are_kept() {
    assert_eq!(
        extract_word_and_tag("The=DT DOG=nn"),
        vec![pair("the", "DT"), pair("dog", "nn"), pair("END", "END")]
    );
}

#[test]
fn a_further_delimiter_in_a_word_is_read_as_a_slash() {
    assert_eq!(
        extract_word_and_tag("a=b=SYM x==Y"),
        vec![pair("a/b", "SYM"), pair("x/", "Y"), pair("END", "END")]
    );
}

#[test]
fn a_pair_may_have_an_empty_word_or_tag() {
    assert_eq!(extract_word_and_tag("=X"), vec![pair("", "X"), pair("END", "END")]);
    assert_eq!(extract_word_and_tag("x="), vec![pair("x", ""), pair("END", "END")]);
}

#[test]
fn a_piece_without_delimiter_is_malformed() {
    assert!(is_well_formed("the=DT dog=NN"));
    assert!(!is_well_formed("the=DT dog"));
    assert!(!is_well_formed("the dog=NN"));
    assert!(!is_well_formed(""));
    assert!(!is_well_formed("the=DT  dog=NN"));
    assert!(!is_well_formed("the=DT "));
    assert_eq!(parse_line("the=DT dog"), None);
    assert_eq!(parse_line("a=B"), Some(vec![pair("a", "B"), pair("END", "END")]));
}

#[test]
fn words_beyond_ascii_keep_their_case() {
    assert_eq!(
        extract_word_and_tag("\u{c9}T\u{c9}=NN"),
        vec![pair("\u{c9}t\u{c9}", "NN"), pair("END", "END")]
    );
}

fn preprocessed(text: &str) -> String {
    let mut s = text.to_string();
    preprocess_sentence(&mut s);
    s
}

#[test]
fn a_closing_mark_is_set_apart() {
    assert_eq!(preprocessed("the dog runs."), "the dog runs .");
    assert_eq!(preprocessed("really?"), "really ?");
    assert_eq!(preprocessed("stop!"), "stop !");
    assert_eq!(preprocessed("."), " .");
}

#[test]
fn a_sentence_without_a_joined_closing_mark_is_kept() {
    assert_eq!(preprocessed("the dog runs ."), "the dog runs .");
    assert_eq!(preprocessed("the dog runs"), "the dog runs");
    assert_eq!(preprocessed(""), "");
    assert_eq!(preprocessed("a,"), "a,");
    assert_eq!(preprocessed("wait..."), "wait.. .");
    assert_eq!(preprocessed(" ?"), " ?");
}

#[test]
fn pieces_are_what_single_spaces_part() {
    assert_eq!(piece_count(""), 1);
    assert_eq!(piece_count("a=B"), 1);
    assert_eq!(piece_count("a=B c=D e=F"), 3);
    assert_eq!(piece_count(" "), 2);
    assert_eq!(piece_count("a  b "), 4);
    for line in ["the=DT dog=NN", "x=Y", "a=B c=D e=F g=H"] {
        assert_eq!(extract_word_and_tag(line).len() as u128, piece_count(line) + 1);
    }
}
