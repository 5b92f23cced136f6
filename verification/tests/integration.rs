use pos_tagger::hmm::batch::{clone_sentence, workers_for};
use pos_tagger::hmm::persistence::model_file_header;
use pos_tagger::hmm::{
    collect_in_order, count_correct, evaluate, frame, par_evaluate, partition, predict_shard,
    restore, snapshot, unframe, worker_count, LoadError,
    ModelLikelihoods, POSTaggingHMM, POSTaggingHMMTrainer, StoredModel, StoredTable,
    TrainedCounts, TrainerError,
};
use pos_tagger::utils::distribution::UNITS_PER_NAT;
use pos_tagger::utils::smoothing::{default_scale, smoothing_masses, tag_scale, Masses, Scale};
use pos_tagger::{
    ConditionalStringCounter, ConditionalStringFrequencyDistribution, StringCounter,
    StringFrequencyDistribution,
};

const UNIT: f64 = UNITS_PER_NAT as f64;

fn log_likelihood(mass: u128, whole: u128) -> i64 {
    ((mass as f64 / whole as f64).ln() * UNIT).round() as i64
}

fn smoothed(counter: &StringCounter, scale: Scale) -> (Vec<i64>, i64) {
    let masses = smoothing_masses(counter, scale).unwrap();
    let values = masses.keys.iter().map(|m| log_likelihood(*m, masses.whole)).collect();
    (values, log_likelihood(masses.unseen, masses.whole))
}

fn distribution(counter: StringCounter, scale: Scale) -> StringFrequencyDistribution {
    let (values, default) = smoothed(&counter, scale);
    StringFrequencyDistribution::with_smoothing(counter, values, default).unwrap()
}

fn conditional(
    counter: ConditionalStringCounter,
    hapax: Option<&StringCounter>,
) -> ConditionalStringFrequencyDistribution {
    let mut values = Vec::new();
    let mut defaults = Vec::new();
    for (tag, row) in counter.iter() {
        let scale = match hapax {
            Some(h) => tag_scale(h, &tag, default_scale()).unwrap(),
            None => default_scale(),
        };
        let (v, d) = smoothed(&row, scale);
        values.push(v);
        defaults.push(d);
    }
    ConditionalStringFrequencyDistribution::with_smoothing(counter, values, defaults).unwrap()
}

fn log_likelihoods(masses: &Masses) -> (Vec<i64>, i64) {
    let keys = masses.keys.iter().map(|m| log_likelihood(*m, masses.whole)).collect();
    (keys, log_likelihood(masses.unseen, masses.whole))
}

fn model_of(counts: TrainedCounts) -> POSTaggingHMM {
    let masses = counts.masses().unwrap();
    let likelihoods = ModelLikelihoods {
        initial: log_likelihoods(&masses.initial),
        emission: masses.emission.iter().map(log_likelihoods).unzip(),
        transition: masses.transition.iter().map(log_likelihoods).unzip(),
    };
    counts.into_model(likelihoods).unwrap()
}

fn model_by_hand(counts: TrainedCounts) -> POSTaggingHMM {
    let emission = conditional(counts.emission, Some(&counts.hapax));
    let transition = conditional(counts.transition, None);
    let initial = distribution(counts.initial, default_scale());
    POSTaggingHMM::new(initial, emission, transition).unwrap()
}

fn lines(text: &[&str]) -> Vec<String> {
    text.iter().map(|l| l.to_string()).collect()
}

fn words(text: &[&str]) -> Vec<String> {
    text.iter().map(|w| w.to_string()).collect()
}

fn tagged(pairs: &[(&str, &str)]) -> Vec<(String, String)> {
    pairs.iter().map(|(w, t)| (w.to_string(), t.to_string())).collect()
}

fn corpus() -> Vec<String> {
    lines(&[
        "the=DT dog=NN runs=VBZ",
        "the=DT cat=NN sleeps=VBZ",
        "a=DT dog=NN barks=VBZ",
        "the=DT bird=NN is=VBZ singing=VBG",
        "a=DT cat=NN is=VBZ running=VBG",
        "the=DT dog=NN is=VBZ sleeping=VBG",
        "dogs=NNS bark=VBP",
        "the=DT dogs=NNS run=VBP quickly=RB",
    ])
}

fn trained_model() -> POSTaggingHMM {
    let counts = POSTaggingHMMTrainer::new().train(corpus()).unwrap().finalize().unwrap();
    model_of(counts)
}

#[test]
fn test_it_all_works() {
    let model = POSTaggingHMMTrainer::new().train(corpus()).unwrap().finalize();

    assert!(model.is_ok());
}

#[test]
fn test_training_works() {
    let trainer = POSTaggingHMMTrainer::new().train(corpus()).unwrap();

    println!("{:?}", trainer);
    assert!(trainer.was_trained());
}

#[test]
fn repeated_lines_are_tagged_as_trained() {
    let corpus = lines(&[
        "the=DT dog=NN runs=VBZ",
        "the=DT dog=NN runs=VBZ",
        "the=DT dog=NN runs=VBZ",
    ]);
    let counts = POSTaggingHMMTrainer::new().train(corpus).unwrap().finalize().unwrap();
    let model = model_of(counts);
    assert_eq!(
        model.predict(words(&["the", "dog", "runs"])),
        tagged(&[("the", "DT"), ("dog", "NN"), ("runs", "VBZ"), ("end", "END")])
    );
}

#[test]
fn one_line_is_enough_to_tag_it() {
    let counts = POSTaggingHMMTrainer::new()
        .train(lines(&["the=DT dog=NN runs=VBZ"]))
        .unwrap()
        .finalize()
        .unwrap();
    let model = model_of(counts);
    assert_eq!(
        model.predict(words(&["The", "DOG", "runs"])),
        tagged(&[("the", "DT"), ("dog", "NN"), ("runs", "VBZ"), ("end", "END")])
    );
}

#[test]
fn training_counts_initial_tags_emissions_and_transitions() {
    let counts = POSTaggingHMMTrainer::new()
        .train(lines(&["The=DT dog=NN", "the=DT cat=NN"]))
        .unwrap()
        .finalize()
        .unwrap();
    assert_eq!(counts.initial.iter(), vec![("DT".to_string(), 2)]);
    assert_eq!(counts.emission.get("DT", "the"), 2);
    assert_eq!(counts.emission.get("NN", "dog"), 1);
    assert_eq!(counts.emission.get("NN", "cat"), 1);
    assert_eq!(counts.emission.get("END", "end"), 2);
    assert_eq!(counts.emission.get("END", "END"), 0);
    assert_eq!(counts.transition.get("DT", "NN"), 2);
    assert_eq!(counts.transition.get("NN", "END"), 2);
    assert_eq!(counts.transition.get("NN", "DT"), 0);
    assert_eq!(
        counts.transition.keys(),
        vec!["DT".to_string(), "NN".to_string(), "END".to_string()]
    );
    assert_eq!(counts.transition.row_at(2).len(), 0);
    assert_eq!(counts.hapax.iter(), vec![("NN".to_string(), 2)]);
}

#[test]
fn training_twice_adds_the_counts() {
    let trainer = POSTaggingHMMTrainer::new()
        .train(lines(&["a=X b=Y"]))
        .unwrap()
        .train(lines(&["a=X b=Y", "b=Y"]))
        .unwrap();
    let counts = trainer.finalize().unwrap();
    assert_eq!(counts.initial.get("X"), 2);
    assert_eq!(counts.initial.get("Y"), 1);
    assert_eq!(counts.emission.get("X", "a"), 2);
    assert_eq!(counts.emission.get("Y", "b"), 3);
    assert_eq!(counts.transition.get("X", "Y"), 2);
    assert_eq!(counts.transition.get("Y", "END"), 3);
}

#[test]
fn hapax_words_bring_their_artificial_tags_into_the_emissions() {
    let counts = POSTaggingHMMTrainer::new().train(corpus()).unwrap().finalize().unwrap();
    assert_eq!(counts.hapax.get("VBG"), 3);
    assert_eq!(counts.emission.get("VBG", "SUFF-ING"), 3);
    assert_eq!(counts.emission.get("VBG", "singing"), 1);
    assert_eq!(counts.hapax.get("RB"), 1);
    assert_eq!(counts.emission.get("RB", "SUFF-LY"), 1);
    assert_eq!(counts.hapax.get("DT"), 0);
    assert_eq!(counts.hapax.get("END"), 0);
    assert_eq!(counts.emission.get("NN", "bird"), 1);
    assert_eq!(counts.hapax.get("NN"), 1);
}

#[test]
fn finalize_before_training_fails() {
    let result = POSTaggingHMMTrainer::new().finalize();
    assert_eq!(result.err(), Some(TrainerError::NotTrained));
}

#[test]
fn training_on_no_lines_still_counts_as_training() {
    let counts = POSTaggingHMMTrainer::new().train(Vec::new()).unwrap().finalize().unwrap();
    assert_eq!(counts.transition.keys(), vec!["END".to_string()]);
    assert_eq!(counts.emission.keys(), vec!["END".to_string()]);
    let model = model_of(counts);
    assert_eq!(model.predict(words(&["x"])), tagged(&[("x", "END"), ("end", "END")]));
}

#[test]
fn a_malformed_line_fails_the_training() {
    let result = POSTaggingHMMTrainer::new().train(lines(&["a=X", "b=Y c", "d", "e=Z"]));
    assert_eq!(result.err(), Some(TrainerError::MalformedLine(1)));
    let result = POSTaggingHMMTrainer::new().train(lines(&[""]));
    assert_eq!(result.err(), Some(TrainerError::MalformedLine(0)));
}

#[test]
fn an_unseen_word_is_tagged_by_its_shape() {
    let model = trained_model();
    assert_eq!(model.emission_word("jumping"), "SUFF-ING");
    assert_eq!(model.emission_word("dog"), "dog");
    assert_eq!(model.emission_word("zebra"), "zebra");
    assert_eq!(model.emission_word("SUFF-ING"), "SUFF-ING");
    assert_eq!(
        model.predict(words(&["the", "dog", "is", "jumping"])),
        tagged(&[("the", "DT"), ("dog", "NN"), ("is", "VBZ"), ("jumping", "VBG"), ("end", "END")])
    );
}

#[test]
fn a_copy_of_a_model_tags_as_the_model_does() {
    let model = trained_model();
    let copy = model.clone();
    assert_eq!(snapshot(&copy), snapshot(&model));
    let s = words(&["the", "dogs", "run", "unseenly"]);
    assert_eq!(copy.predict(clone_sentence(&s)), model.predict(s));
}

#[test]
fn the_empty_sentence_is_tagged_with_the_terminal_pair() {
    let model = trained_model();
    assert_eq!(model.predict(Vec::new()), tagged(&[("end", "END")]));
}

#[test]
fn the_tags_are_the_outer_keys_of_the_transitions() {
    let model = trained_model();
    let tags = model.tag_set();
    assert_eq!(tags, model.transition_distribution().keys());
    assert_eq!(tags[0], "DT");
    assert!(tags.contains(&"END".to_string()));
    assert_eq!(model.tag_index("DT"), Some(0));
    assert_eq!(model.tag_index("XX"), None);
    for (i, tag) in tags.iter().enumerate() {
        assert_eq!(model.tag_index(tag), Some(i));
        assert!(model.emission_distribution().get_likelihood(tag, "dog").is_some());
    }
}

#[test]
fn equal_scores_go_to_the_first_tag() {
    let mut transition = ConditionalStringCounter::new();
    transition.ensure_key("A");
    transition.ensure_key("B");
    let mut emission = ConditionalStringCounter::new();
    emission.ensure_key("A");
    emission.ensure_key("B");
    let t = ConditionalStringFrequencyDistribution::with_smoothing(
        transition,
        vec![vec![], vec![]],
        vec![-5, -5],
    )
    .unwrap();
    let e = ConditionalStringFrequencyDistribution::with_smoothing(
        emission,
        vec![vec![], vec![]],
        vec![-7, -7],
    )
    .unwrap();
    let i = StringFrequencyDistribution::with_smoothing(StringCounter::new(), vec![], -3).unwrap();
    let model = POSTaggingHMM::new(i, e, t).unwrap();
    assert_eq!(
        model.predict(words(&["x", "y"])),
        tagged(&[("x", "A"), ("y", "A"), ("end", "A")])
    );
}

#[test]
fn the_best_path_is_taken_not_the_best_step() {
    let mut transition = ConditionalStringCounter::new();
    transition.increment("A", "A");
    transition.increment("A", "B");
    transition.increment("B", "A");
    transition.increment("B", "B");
    let mut emission = ConditionalStringCounter::new();
    emission.increment("A", "x");
    emission.increment("B", "x");
    emission.increment("A", "end");
    emission.increment("B", "end");
    let mut initial = StringCounter::new();
    initial.increment("A");
    initial.increment("B");
    let t = ConditionalStringFrequencyDistribution::with_smoothing(
        transition,
        vec![vec![-100, -1], vec![-1, -100]],
        vec![-1000, -1000],
    )
    .unwrap();
    let e = ConditionalStringFrequencyDistribution::with_smoothing(
        emission,
        vec![vec![-1, -50], vec![-2, -1]],
        vec![-1000, -1000],
    )
    .unwrap();
    let i = StringFrequencyDistribution::with_smoothing(initial, vec![-1, -3], -1000).unwrap();
    let model = POSTaggingHMM::new(i, e, t).unwrap();
    assert_eq!(
        model.predict(words(&["x", "x"])),
        tagged(&[("x", "B"), ("x", "A"), ("end", "B")])
    );
}

#[test]
fn a_model_needs_a_tag_and_emissions_for_every_tag() {
    let i = StringFrequencyDistribution::with_smoothing(StringCounter::new(), vec![], 0).unwrap();
    let e = ConditionalStringFrequencyDistribution::with_smoothing(
        ConditionalStringCounter::new(),
        vec![],
        vec![],
    )
    .unwrap();
    let t = ConditionalStringFrequencyDistribution::with_smoothing(
        ConditionalStringCounter::new(),
        vec![],
        vec![],
    )
    .unwrap();
    assert!(POSTaggingHMM::new(i, e, t).is_none());

    let i = StringFrequencyDistribution::with_smoothing(StringCounter::new(), vec![], 0).unwrap();
    let e = ConditionalStringFrequencyDistribution::with_smoothing(
        ConditionalStringCounter::new(),
        vec![],
        vec![],
    )
    .unwrap();
    let mut transition = ConditionalStringCounter::new();
    transition.ensure_key("A");
    let t =
        ConditionalStringFrequencyDistribution::with_smoothing(transition, vec![vec![]], vec![0])
            .unwrap();
    assert!(POSTaggingHMM::new(i, e, t).is_none());
}

#[test]
fn predict_gives_the_same_tags_each_time() {
    let model = trained_model();
    let sentences = [
        words(&["the", "dog", "runs"]),
        words(&["a", "zebra", "is", "unknowing"]),
        words(&["1234", "well-known", "dogs"]),
        Vec::new(),
    ];
    for s in sentences.iter() {
        let first = model.predict(clone_sentence(s));
        let second = model.predict(clone_sentence(s));
        assert_eq!(first, second);
        assert_eq!(first.len(), s.len() + 1);
    }
}

type Row = (String, StoredTable);

fn encode(model: &POSTaggingHMM) -> Vec<u8> {
    model.save().unwrap()
}

fn decode(bytes: &Vec<u8>) -> Result<POSTaggingHMM, LoadError> {
    POSTaggingHMM::from_file(bytes)
}

fn stored(parts: StoredModel) -> StoredModel {
    parts
}

fn row(key: &str, entries: &[(&str, i64)], smoothed_default: i64) -> Row {
    (key.to_string(), (entries.iter().map(|(k, v)| (k.to_string(), *v)).collect(), smoothed_default))
}

#[test]
fn a_stored_model_is_read_back_as_it_was() {
    let model = trained_model();
    let bytes = encode(&model);
    assert_eq!(&bytes[..4], b"VHMM");
    let loaded = decode(&bytes).unwrap();
    for s in [
        words(&["the", "dog", "runs"]),
        words(&["a", "zebra", "is", "unknowing"]),
        words(&["dogs", "bark", "quickly"]),
    ] {
        assert_eq!(loaded.predict(clone_sentence(&s)), model.predict(s));
    }
    assert_eq!(loaded.tag_set(), model.tag_set());
    for tag in model.tag_set() {
        assert_eq!(
            loaded.initial_tag_distribution().get_likelihood(&tag),
            model.initial_tag_distribution().get_likelihood(&tag)
        );
        for word in ["dog", "the", "SUFF-ING", "never-seen"] {
            assert_eq!(
                loaded.emission_distribution().get_likelihood(&tag, word),
                model.emission_distribution().get_likelihood(&tag, word)
            );
        }
        for next in model.tag_set() {
            assert_eq!(
                loaded.transition_distribution().get_likelihood(&tag, &next),
                model.transition_distribution().get_likelihood(&tag, &next)
            );
        }
    }
    assert_eq!(encode(&loaded), bytes);
    assert_eq!(snapshot(&loaded), snapshot(&model));
    let payload = unframe(&bytes).unwrap();
    assert_eq!(bincode::deserialize::<StoredModel>(&payload).unwrap(), snapshot(&model));
    assert_eq!(frame(&bincode::serialize(&snapshot(&model)).unwrap()), bytes);
    let restored = restore(&snapshot(&model)).unwrap();
    assert_eq!(snapshot(&restored), snapshot(&model));
}

#[test]
fn a_frame_is_the_header_and_the_payload() {
    assert_eq!(model_file_header(), b"VHMM".to_vec());
    assert_eq!(frame(&vec![1, 2, 3]), vec![0x56, 0x48, 0x4d, 0x4d, 1, 2, 3]);
    assert_eq!(frame(&Vec::new()), b"VHMM".to_vec());
    assert_eq!(unframe(&vec![0x56, 0x48, 0x4d, 0x4d, 9, 8]), Ok(vec![9, 8]));
    assert_eq!(unframe(&b"VHMM".to_vec()), Ok(Vec::new()));
    for payload in [vec![], vec![0u8], b"VHMM".to_vec(), vec![7u8; 100]] {
        assert_eq!(unframe(&frame(&payload)), Ok(payload));
    }
}

#[test]
fn a_wrong_or_short_header_is_refused() {
    assert_eq!(unframe(&Vec::new()), Err(LoadError::UnknownFileStructure));
    assert_eq!(unframe(&b"VHM".to_vec()), Err(LoadError::UnknownFileStructure));
    assert_eq!(unframe(&b"vhmm123".to_vec()), Err(LoadError::UnknownFileStructure));
    assert_eq!(unframe(&b"VHMX123".to_vec()), Err(LoadError::UnknownFileStructure));
    assert_eq!(unframe(&b"XVHMM".to_vec()), Err(LoadError::UnknownFileStructure));
}

#[test]
fn a_cut_or_foreign_payload_is_refused() {
    let model = trained_model();
    let bytes = encode(&model);
    let cut = bytes[..bytes.len() - 3].to_vec();
    assert_eq!(decode(&cut).err(), Some(LoadError::CorruptPayload));
    assert_eq!(decode(&b"VHMM".to_vec()).err(), Some(LoadError::CorruptPayload));
    assert_eq!(decode(&b"VHMMnot a model".to_vec()).err(), Some(LoadError::CorruptPayload));
    assert_eq!(decode(&b"nope".to_vec()).err(), Some(LoadError::UnknownFileStructure));
}

#[test]
fn values_that_make_no_model_are_refused() {
    let good: StoredModel = (
        (vec![("A".to_string(), -1)], -9),
        vec![row("A", &[("x", -1)], -9), row("B", &[], -9)],
        vec![row("A", &[("A", -1), ("B", -2)], -9), row("B", &[], -9)],
    );
    let model = restore(&stored(good.clone())).unwrap();
    assert_eq!(model.tag_set(), vec!["A".to_string(), "B".to_string()]);
    assert_eq!(model.transition_distribution().get_likelihood("A", "B"), Some(-2));
    assert_eq!(model.emission_distribution().get_likelihood("B", "x"), Some(-9));
    assert_eq!(model.initial_tag_distribution().get_likelihood("A"), -1);

    let refused = |parts: StoredModel| restore(&stored(parts)).err() == Some(LoadError::CorruptPayload);

    let mut no_tags = good.clone();
    no_tags.2.clear();
    assert!(refused(no_tags));

    let mut no_emissions = good.clone();
    no_emissions.1.pop();
    assert!(refused(no_emissions));

    let mut twice = good.clone();
    twice.2.push(row("A", &[], -9));
    assert!(refused(twice));

    let mut twice = good.clone();
    twice.1.push(row("B", &[], -9));
    assert!(refused(twice));

    let mut twice = good.clone();
    twice.2[0].1 .0.push(("A".to_string(), -3));
    assert!(refused(twice));

    let mut twice = good.clone();
    twice.0 .0.push(("A".to_string(), -3));
    assert!(refused(twice));

    let mut far = good.clone();
    far.0 .1 = i64::MIN;
    assert!(refused(far));

    let mut far = good.clone();
    far.1[0].1 .0[0].1 = i64::MAX;
    assert!(refused(far));

    let mut far = good.clone();
    far.2[1].1 .1 = (1i64 << 62) + 1;
    assert!(refused(far));

    let empty = bincode::serialize::<StoredModel>(&((vec![], 0), vec![], vec![])).unwrap();
    assert_eq!(decode(&frame(&empty)).err(), Some(LoadError::CorruptPayload));
}

#[test]
fn distributions_are_built_of_entries_and_rows() {
    let entries = vec![("a".to_string(), -1i64), ("b".to_string(), -2)];
    let d = StringFrequencyDistribution::from_entries(entries, -5).unwrap();
    assert_eq!(d.get_likelihood("b"), -2);
    assert_eq!(d.get_likelihood("c"), -5);
    let doubled = vec![("a".to_string(), 1i64), ("a".to_string(), 2i64)];
    assert!(StringFrequencyDistribution::from_entries(doubled, 0).is_none());
    assert!(StringFrequencyDistribution::from_entries(vec![("a".to_string(), i64::MIN)], 0)
        .is_none());
    assert!(StringFrequencyDistribution::from_entries(Vec::new(), i64::MAX).is_none());
    let one = StringFrequencyDistribution::from_entries(Vec::new(), -1).unwrap();
    let two = StringFrequencyDistribution::from_entries(Vec::new(), -2).unwrap();
    let rows = vec![("X".to_string(), one.clone()), ("Y".to_string(), two.clone())];
    let c = ConditionalStringFrequencyDistribution::from_rows(rows).unwrap();
    assert_eq!(c.get_likelihood("Y", "w"), Some(-2));
    assert_eq!(c.get_likelihood("X", "w"), Some(-1));
    let rows = vec![("X".to_string(), one), ("X".to_string(), two)];
    assert!(ConditionalStringFrequencyDistribution::from_rows(rows).is_none());
}

#[test]
fn likelihoods_out_of_range_are_refused() {
    let mut counter = StringCounter::new();
    counter.increment("a");
    assert!(StringFrequencyDistribution::with_smoothing(counter.clone(), vec![i64::MIN], 0)
        .is_none());
    assert!(StringFrequencyDistribution::with_smoothing(counter.clone(), vec![0], i64::MAX)
        .is_none());
    assert!(StringFrequencyDistribution::with_smoothing(counter.clone(), vec![], 0).is_none());
    assert!(StringFrequencyDistribution::with_smoothing(counter.clone(), vec![0, 0], 0).is_none());
    let least = -(1i64 << 62);
    let d = StringFrequencyDistribution::with_smoothing(counter, vec![least], 1i64 << 62).unwrap();
    assert_eq!(d.get_likelihood("a"), least);
    assert_eq!(d.get_likelihood("b"), 1i64 << 62);
}

#[test]
fn a_nat_has_two_to_the_thirty_two_units() {
    assert_eq!(UNITS_PER_NAT, 4294967296);
    assert_eq!(log_likelihood(1, 1), 0);
    let e = std::f64::consts::E;
    assert_eq!(log_likelihood(1_000_000, (1_000_000.0 * e * e) as u128) / 1000, -2 * UNITS_PER_NAT / 1000);
}

#[test]
fn a_distribution_falls_back_to_its_default() {
    let mut counter = StringCounter::new();
    counter.increment("a");
    counter.increment("b");
    let d = StringFrequencyDistribution::with_smoothing(counter, vec![-10, -20], -99).unwrap();
    assert_eq!(d.get_likelihood("a"), -10);
    assert_eq!(d.get_likelihood("b"), -20);
    assert_eq!(d.get_likelihood("c"), -99);
    assert!(d.contains_key("a"));
    assert!(!d.contains_key("c"));
    assert_eq!(d.smoothed_default(), -99);
    assert_eq!(d.len(), 2);
    assert_eq!(d.keys(), vec!["a".to_string(), "b".to_string()]);
    assert_eq!(d.values(), vec![-10, -20]);
    assert_eq!(d.clone().into_iter(), vec![("a".to_string(), -10), ("b".to_string(), -20)]);
    assert_eq!(d.find("b"), Some(1));
}

#[test]
fn a_conditional_distribution_knows_its_outer_keys_only() {
    let mut counter = ConditionalStringCounter::new();
    counter.increment("X", "a");
    counter.increment("Y", "b");
    let d = ConditionalStringFrequencyDistribution::with_smoothing(
        counter,
        vec![vec![-1], vec![-2]],
        vec![-10, -20],
    )
    .unwrap();
    assert_eq!(d.get_likelihood("X", "a"), Some(-1));
    assert_eq!(d.get_likelihood("X", "b"), Some(-10));
    assert_eq!(d.get_likelihood("Y", "b"), Some(-2));
    assert_eq!(d.get_likelihood("Y", "zzz"), Some(-20));
    assert_eq!(d.get_likelihood("Z", "a"), None);
    assert!(d.inner_key_exists("a"));
    assert!(d.inner_key_exists("b"));
    assert!(!d.inner_key_exists("X"));
    assert!(!d.inner_key_exists("c"));
    assert_eq!(d.len(), 2);
    assert_eq!(d.keys(), vec!["X".to_string(), "Y".to_string()]);
    assert_eq!(d.key_at(1), "Y");
    assert_eq!(d.row_at(1).smoothed_default(), -20);
    assert_eq!(d.values()[0].iter(), vec![("a".to_string(), -1)]);
    assert_eq!(d.find("Y"), Some(1));
    let rows = d.into_iter();
    assert_eq!(rows[0].0, "X");
}

#[test]
fn values_that_do_not_fit_the_counter_are_refused() {
    let mut counter = ConditionalStringCounter::new();
    counter.increment("X", "a");
    let rows = counter.iter();
    let again = |values: Vec<Vec<i64>>, defaults: Vec<i64>| {
        let mut c = ConditionalStringCounter::new();
        for (k, r) in rows.iter() {
            for (w, _) in r.iter() {
                c.increment(k, &w);
            }
        }
        ConditionalStringFrequencyDistribution::with_smoothing(c, values, defaults).is_some()
    };
    assert!(again(vec![vec![-1]], vec![-2]));
    assert!(!again(vec![], vec![-2]));
    assert!(!again(vec![vec![-1]], vec![]));
    assert!(!again(vec![vec![]], vec![-2]));
    assert!(!again(vec![vec![-1, -1]], vec![-2]));
    assert!(!again(vec![vec![i64::MAX]], vec![-2]));
    assert!(!again(vec![vec![-1]], vec![i64::MIN]));
}

#[test]
fn smoothing_keeps_the_mass_of_a_distribution() {
    let mut counter = StringCounter::new();
    for _ in 0..3 {
        counter.increment("a");
    }
    counter.increment("b");
    let masses = smoothing_masses(&counter, default_scale()).unwrap();
    assert_eq!(masses.keys, vec![300001, 100001]);
    assert_eq!(masses.unseen, 1);
    assert_eq!(masses.whole, 400003);
    assert_eq!(masses.keys.iter().sum::<u128>() + masses.unseen, masses.whole);

    let (values, default) = smoothed(&counter, default_scale());
    let mass: f64 =
        values.iter().map(|v| (*v as f64 / UNIT).exp()).sum::<f64>() + (default as f64 / UNIT).exp();
    assert!((mass - 1.0).abs() < 1e-6);
    let alpha = 1e-5;
    let expected = ((3.0 + alpha) / (4.0 + alpha * 3.0f64)).ln();
    assert!((values[0] as f64 / UNIT - expected).abs() < 1e-9);
    let unseen = (alpha / (4.0 + alpha * 3.0f64)).ln();
    assert!((default as f64 / UNIT - unseen).abs() < 1e-9);
}

#[test]
fn the_tables_of_a_model_are_smoothed_each_under_its_scale() {
    let counts = POSTaggingHMMTrainer::new().train(corpus()).unwrap().finalize().unwrap();
    let masses = counts.masses().unwrap();
    assert_eq!(masses.initial.keys, vec![700001, 100001]);
    assert_eq!(masses.initial.whole, 800003);
    assert_eq!(masses.transition.len(), counts.transition.len());
    assert_eq!(masses.emission.len(), counts.emission.len());
    for (i, row) in counts.transition.values().iter().enumerate() {
        let by_row = smoothing_masses(row, default_scale()).unwrap();
        assert_eq!(masses.transition[i].keys, by_row.keys);
        assert_eq!(masses.transition[i].whole, by_row.whole);
        assert_eq!(masses.transition[i].unseen, 1);
    }
    for (i, (tag, row)) in counts.emission.iter().iter().enumerate() {
        let scale = tag_scale(&counts.hapax, tag, default_scale()).unwrap();
        let by_row = smoothing_masses(row, scale).unwrap();
        assert_eq!(masses.emission[i].keys, by_row.keys);
        assert_eq!(masses.emission[i].whole, by_row.whole);
        assert_eq!(masses.emission[i].unseen, scale.numerator);
        assert_eq!(
            masses.emission[i].keys.iter().sum::<u128>() + masses.emission[i].unseen,
            masses.emission[i].whole
        );
    }
    let again = POSTaggingHMMTrainer::new().train(corpus()).unwrap().finalize().unwrap();
    assert_eq!(snapshot(&model_of(counts)), snapshot(&model_by_hand(again)));
}

#[test]
fn likelihoods_must_be_one_for_each_mass() {
    let counts = || POSTaggingHMMTrainer::new().train(corpus()).unwrap().finalize().unwrap();
    let likelihoods = |c: &TrainedCounts| {
        let masses = c.masses().unwrap();
        ModelLikelihoods {
            initial: log_likelihoods(&masses.initial),
            emission: masses.emission.iter().map(log_likelihoods).unzip(),
            transition: masses.transition.iter().map(log_likelihoods).unzip(),
        }
    };
    let c = counts();
    let l = likelihoods(&c);
    assert!(c.into_model(l).is_some());
    let c = counts();
    let mut l = likelihoods(&c);
    l.initial.0.pop();
    assert!(c.into_model(l).is_none());
    let c = counts();
    let mut l = likelihoods(&c);
    l.emission.1.push(0);
    assert!(c.into_model(l).is_none());
    let c = counts();
    let mut l = likelihoods(&c);
    l.transition.0[0][0] = i64::MIN;
    assert!(c.into_model(l).is_none());
}

#[test]
fn an_empty_counter_gives_all_mass_to_the_unseen() {
    let masses = smoothing_masses(&StringCounter::new(), default_scale()).unwrap();
    assert!(masses.keys.is_empty());
    assert_eq!(masses.unseen, 1);
    assert_eq!(masses.whole, 1);
}

#[test]
fn a_scale_must_be_positive_and_the_whole_must_fit() {
    let mut counter = StringCounter::new();
    counter.increment("a");
    counter.increment("a");
    let none = Scale { numerator: 0, denominator: 1 };
    assert!(smoothing_masses(&counter, none).is_none());
    let none = Scale { numerator: 1, denominator: 0 };
    assert!(smoothing_masses(&counter, none).is_none());
    let large = Scale { numerator: 1, denominator: u128::MAX };
    assert!(smoothing_masses(&counter, large).is_none());
    let large = Scale { numerator: u128::MAX / 2, denominator: 1 };
    assert!(smoothing_masses(&counter, large).is_none());
    let fits = Scale { numerator: 3, denominator: 7 };
    let masses = smoothing_masses(&counter, fits).unwrap();
    assert_eq!(masses.keys, vec![17]);
    assert_eq!(masses.unseen, 3);
    assert_eq!(masses.whole, 20);
    assert!(tag_scale(&counter, "a", Scale { numerator: 0, denominator: 1 }).is_none());
    assert!(tag_scale(&counter, "a", Scale { numerator: 1, denominator: u128::MAX }).is_none());
}

#[test]
fn the_scale_of_a_tag_grows_with_its_hapax_words() {
    let mut hapax = StringCounter::new();
    hapax.increment("NN");
    hapax.increment("NN");
    hapax.increment("NN");
    hapax.increment("VB");
    let base = default_scale();
    assert_eq!(
        tag_scale(&hapax, "NN", base),
        Some(Scale { numerator: 300001, denominator: 100000 * 400003 })
    );
    assert_eq!(
        tag_scale(&hapax, "VB", base),
        Some(Scale { numerator: 100001, denominator: 100000 * 400003 })
    );
    assert_eq!(
        tag_scale(&hapax, "DT", base),
        Some(Scale { numerator: 1, denominator: 100000 * 400003 })
    );
    assert_eq!(
        tag_scale(&StringCounter::new(), "DT", base),
        Some(Scale { numerator: 1, denominator: 100000 })
    );
}

#[test]
fn there_is_always_a_worker() {
    assert!(worker_count() >= 1);
    assert_eq!(workers_for(0), 1);
    assert_eq!(workers_for(1), 1);
    assert_eq!(workers_for(2), 1);
    assert_eq!(workers_for(3), 2);
    assert_eq!(workers_for(8), 7);
    assert_eq!(workers_for(usize::MAX), usize::MAX - 1);
}

#[test]
fn a_batch_is_dealt_out_round_robin() {
    assert_eq!(partition(7, 3), vec![vec![0, 3, 6], vec![1, 4], vec![2, 5]]);
    assert_eq!(partition(3, 1), vec![vec![0, 1, 2]]);
    assert_eq!(partition(2, 4), vec![vec![0], vec![1], vec![], vec![]]);
    assert_eq!(partition(0, 2), vec![Vec::<usize>::new(), Vec::new()]);
}

#[test]
fn results_are_put_back_in_the_order_of_the_batch() {
    let t = |w: &str| tagged(&[(w, "X")]);
    let results = vec![(2, t("c")), (0, t("a")), (3, t("d")), (1, t("b"))];
    assert_eq!(collect_in_order(results, 4), Some(vec![t("a"), t("b"), t("c"), t("d")]));
    assert_eq!(collect_in_order(Vec::new(), 0), Some(Vec::new()));
}

#[test]
fn a_lost_or_doubled_result_is_not_passed_over() {
    let t = |w: &str| tagged(&[(w, "X")]);
    assert_eq!(collect_in_order(vec![(0, t("a")), (2, t("c"))], 3), None);
    assert_eq!(collect_in_order(vec![(0, t("a")), (0, t("b")), (1, t("c"))], 2), None);
    assert_eq!(collect_in_order(vec![(0, t("a")), (1, t("b"))], 1), None);
    assert_eq!(collect_in_order(vec![(0, t("a")), (5, t("b"))], 2), None);
    assert_eq!(collect_in_order(Vec::new(), 1), None);
}

#[test]
fn shards_give_what_one_worker_gives() {
    let model = trained_model();
    let batch: Vec<Vec<String>> = vec![
        words(&["the", "dog", "runs"]),
        words(&["a", "cat", "is", "jumping"]),
        Vec::new(),
        words(&["dogs", "bark"]),
        words(&["the", "zebra", "sleeps", "quickly"]),
        words(&["1234"]),
        words(&["the", "dogs", "run"]),
    ];
    let expected = evaluate(&model, &batch);
    assert_eq!(expected.len(), batch.len());
    assert_eq!(expected[0], model.predict(words(&["the", "dog", "runs"])));
    for workers in 1..=9usize {
        let shards = partition(batch.len(), workers);
        let mut results = Vec::new();
        for shard in shards.iter().rev() {
            let mut part = predict_shard(&model, &batch, shard);
            part.reverse();
            results.append(&mut part);
        }
        assert_eq!(collect_in_order(results, batch.len()), Some(expected.clone()));
        assert_eq!(par_evaluate(&model, &batch, workers), expected);
    }
}

#[test]
fn right_tags_are_counted() {
    let predicted = tagged(&[("the", "DT"), ("dog", "NN"), ("runs", "NN"), ("end", "END")]);
    let answer = words(&["DT", "NN", "VBZ", "END"]);
    assert_eq!(count_correct(&predicted, &answer), 3);
    assert_eq!(count_correct(&predicted, &words(&["x", "x", "x", "x"])), 0);
    assert_eq!(count_correct(&Vec::new(), &Vec::new()), 0);
    let model = trained_model();
    let tagging = model.predict(words(&["the", "dog", "runs"]));
    assert_eq!(count_correct(&tagging, &words(&["DT", "NN", "VBZ", "END"])), 4);
}
