use pos_tagger::{ConditionalStringCounter, StringCounter};

fn entries(counter: &StringCounter) -> Vec<(String, usize)> {
    counter.iter()
}

#[test]
fn a_new_counter_is_empty() {
    let c = StringCounter::new();
    assert_eq!(c.len(), 0);
    assert_eq!(c.total(), 0);
    assert_eq!(c.get("x"), 0);
    assert!(c.keys().is_empty());
}

#[test]
fn n_increments_of_one_key_count_n() {
    let mut c = StringCounter::new();
    for n in 1..=25usize {
        c.increment("NN");
        assert_eq!(c.get("NN"), n);
    }
    assert_eq!(c.len(), 1);
    assert_eq!(c.total(), 25);
}

#[test]
fn increments_of_distinct_keys_are_independent() {
    let mut c = StringCounter::new();
    c.increment("a");
    c.increment("b");
    c.increment("a");
    c.increment("c");
    c.increment("a");
    assert_eq!(c.get("a"), 3);
    assert_eq!(c.get("b"), 1);
    assert_eq!(c.get("c"), 1);
    assert_eq!(c.get("d"), 0);
    assert_eq!(c.len(), 3);
    assert_eq!(c.total(), 5);
}

#[test]
fn keys_stand_in_the_order_of_their_first_count() {
    let mut c = StringCounter::new();
    c.increment("z");
    c.increment("a");
    c.increment("z");
    c.increment("m");
    assert_eq!(c.keys(), vec!["z".to_string(), "a".to_string(), "m".to_string()]);
    assert_eq!(c.values(), vec![2, 1, 1]);
    assert_eq!(
        entries(&c),
        vec![("z".to_string(), 2), ("a".to_string(), 1), ("m".to_string(), 1)]
    );
    assert_eq!(c.find("a"), Some(1));
    assert_eq!(c.find("q"), None);
    assert_eq!(c.key_at(2), "m");
    assert_eq!(c.count_at(0), 2);
}

#[test]
fn keys_are_told_apart_by_case() {
    let mut c = StringCounter::new();
    c.increment("End");
    c.increment("END");
    assert_eq!(c.get("End"), 1);
    assert_eq!(c.get("END"), 1);
    assert_eq!(c.get("end"), 0);
}

#[test]
fn extend_takes_the_counts_of_the_other() {
    let mut a = StringCounter::new();
    a.increment("x");
    a.increment("x");
    a.increment("y");
    let mut b = StringCounter::new();
    b.increment("y");
    b.increment("y");
    b.increment("y");
    b.increment("w");
    a.extend(b);
    assert_eq!(a.get("x"), 2);
    assert_eq!(a.get("y"), 3);
    assert_eq!(a.get("w"), 1);
    assert_eq!(a.keys(), vec!["x".to_string(), "y".to_string(), "w".to_string()]);
}

#[test]
fn insert_replaces_a_count() {
    let mut a = StringCounter::new();
    a.increment("x");
    a.insert("x".to_string(), 7);
    a.insert("y".to_string(), 2);
    assert_eq!(a.get("x"), 7);
    assert_eq!(a.get("y"), 2);
    assert_eq!(a.total(), 9);
}

#[test]
fn a_clone_counts_for_itself() {
    let mut a = StringCounter::new();
    a.increment("x");
    let b = a.clone();
    a.increment("x");
    assert_eq!(a.get("x"), 2);
    assert_eq!(b.get("x"), 1);
    assert_eq!(b.into_iter(), vec![("x".to_string(), 1)]);
}

#[test]
fn a_conditional_counter_counts_pairs() {
    let mut c = ConditionalStringCounter::new();
    assert_eq!(c.len(), 0);
    c.increment("DT", "the");
    c.increment("DT", "the");
    c.increment("DT", "a");
    c.increment("NN", "dog");
    assert_eq!(c.len(), 2);
    assert_eq!(c.get("DT", "the"), 2);
    assert_eq!(c.get("DT", "a"), 1);
    assert_eq!(c.get("NN", "dog"), 1);
    assert_eq!(c.get("NN", "the"), 0);
    assert_eq!(c.get("VB", "the"), 0);
    assert_eq!(c.keys(), vec!["DT".to_string(), "NN".to_string()]);
    assert_eq!(c.find("NN"), Some(1));
    assert_eq!(c.key_at(0), "DT");
    assert_eq!(c.row_at(0).total(), 3);
}

#[test]
fn pairs_are_counted_independently() {
    let mut c = ConditionalStringCounter::new();
    for n in 1..=10usize {
        c.increment("a", "b");
        c.increment("b", "a");
        c.increment("b", "a");
        assert_eq!(c.get("a", "b"), n);
        assert_eq!(c.get("b", "a"), 2 * n);
        assert_eq!(c.get("a", "a"), 0);
    }
}

#[test]
fn ensure_key_adds_an_empty_row_once() {
    let mut c = ConditionalStringCounter::new();
    c.increment("a", "x");
    assert_eq!(c.ensure_key("END"), 1);
    assert_eq!(c.ensure_key("END"), 1);
    assert_eq!(c.ensure_key("a"), 0);
    assert_eq!(c.len(), 2);
    assert_eq!(c.row_at(1).len(), 0);
    assert_eq!(c.get("a", "x"), 1);
}

#[test]
fn extend_merges_row_by_row() {
    let mut a = ConditionalStringCounter::new();
    a.increment("DT", "the");
    a.increment("NN", "dog");
    a.increment("NN", "dog");
    let mut b = ConditionalStringCounter::new();
    b.increment("NN", "SUFF-ING");
    b.increment("VB", "PREF-RE");
    b.increment("NN", "dog");
    a.extend(b);
    assert_eq!(a.keys(), vec!["DT".to_string(), "NN".to_string(), "VB".to_string()]);
    assert_eq!(a.get("DT", "the"), 1);
    assert_eq!(a.get("NN", "dog"), 1);
    assert_eq!(a.get("NN", "SUFF-ING"), 1);
    assert_eq!(a.get("VB", "PREF-RE"), 1);
}

#[test]
fn rows_are_handed_out_in_order() {
    let mut c = ConditionalStringCounter::new();
    c.increment("b", "x");
    c.increment("a", "y");
    c.increment("a", "y");
    let rows = c.iter();
    assert_eq!(rows.len(), 2);
    assert_eq!(rows[0].0, "b");
    assert_eq!(rows[0].1.get("x"), 1);
    assert_eq!(rows[1].0, "a");
    assert_eq!(rows[1].1.get("y"), 2);
    let values = c.values();
    assert_eq!(values[1].iter(), vec![("y".to_string(), 2)]);
    c.replace_row(0, StringCounter::new());
    assert_eq!(c.get("b", "x"), 0);
    let owned = c.into_iter();
    assert_eq!(owned[0].1.len(), 0);
}

#[test]
fn a_copy_of_a_conditional_counter_counts_for_itself() {
    let mut a = ConditionalStringCounter::new();
    a.increment("x", "y");
    let b = a.clone();
    a.increment("x", "y");
    a.increment("z", "y");
    assert_eq!(a.get("x", "y"), 2);
    assert_eq!(b.get("x", "y"), 1);
    assert_eq!(b.len(), 1);
}
