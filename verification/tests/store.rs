use punkt::data::TrainingData;

#[test]
fn abbrev_insert_is_idempotent() {
    let mut data = TrainingData::new();
    assert!(!data.contains_abbrev("mr"));
    assert!(data.insert_abbrev("mr"));
    assert!(data.contains_abbrev("mr"));
    assert_eq!(data.abbrevs_len(), 1);
    assert!(!data.insert_abbrev("mr"));
    assert_eq!(data.abbrevs_len(), 1);
    assert!(data.contains_abbrev("mr"));
}

#[test]
fn sentence_starter_insert_is_idempotent() {
    let mut data = TrainingData::new();
    assert!(data.insert_sentence_starter("the"));
    assert!(data.contains_sentence_starter("the"));
    assert!(!data.insert_sentence_starter("the"));
    assert_eq!(data.sentence_starters_len(), 1);
}

#[test]
fn collocation_len_counts_pairs_not_keys() {
    let mut data = TrainingData::new();
    assert!(data.insert_collocation("a", "b"));
    assert_eq!(data.collocations_len(), 1);
    assert!(data.contains_collocation("a", "b"));
    assert!(data.insert_collocation("a", "c"));
    assert_eq!(data.collocations_len(), 2);
    assert!(data.insert_collocation("a", "d"));
    assert_eq!(data.collocations_len(), 3);
    assert!(data.insert_collocation("e", "f"));
    assert_eq!(data.collocations_len(), 4);
    assert!(!data.insert_collocation("a", "c"));
    assert_eq!(data.collocations_len(), 4);
}

#[test]
fn orthographic_context_is_write_once() {
    let mut data = TrainingData::new();
    assert!(data.insert_orthographic_context("tok", 5));
    assert_eq!(data.get_orthographic_context("tok"), Some(5));
    assert!(!data.insert_orthographic_context("tok", 9));
    assert_eq!(data.get_orthographic_context("tok"), Some(5));
    assert!(data.contains_orthographic_context("tok"));
    assert_eq!(data.orthographic_context_len(), 1);
}

#[test]
fn remove_collocation_with_absent_left_is_a_no_op() {
    let mut data = TrainingData::new();
    assert!(data.insert_collocation("l", "r"));
    assert!(!data.remove_collocation("absent-left", "r"));
    assert_eq!(data.collocations_len(), 1);
    assert!(data.contains_collocation("l", "r"));
    assert!(!data.remove_collocation("l", "absent-right"));
    assert!(data.remove_collocation("l", "r"));
    assert!(!data.contains_collocation("l", "r"));
    assert_eq!(data.collocations_len(), 0);
}

#[test]
fn removes_report_presence() {
    let mut data = TrainingData::new();
    data.insert_abbrev("dr");
    data.insert_sentence_starter("so");
    data.insert_orthographic_context("word", 3);
    assert!(data.remove_abbrev("dr"));
    assert!(!data.remove_abbrev("dr"));
    assert!(data.remove_sentence_starter("so"));
    assert!(!data.remove_sentence_starter("so"));
    assert!(data.remove_orthographic_context("word"));
    assert!(!data.remove_orthographic_context("word"));
    assert_eq!(data.abbrevs_len(), 0);
    assert_eq!(data.sentence_starters_len(), 0);
    assert_eq!(data.orthographic_context_len(), 0);
}

#[test]
fn clears_touch_one_container_only() {
    let mut data = TrainingData::new();
    data.insert_abbrev("a");
    data.insert_collocation("l", "r");
    data.insert_sentence_starter("s");
    data.insert_orthographic_context("o", 1);
    data.clear_abbrevs();
    assert_eq!(data.abbrevs_len(), 0);
    assert_eq!(data.collocations_len(), 1);
    assert_eq!(data.sentence_starters_len(), 1);
    assert_eq!(data.orthographic_context_len(), 1);
    data.clear_collocations();
    assert_eq!(data.collocations_len(), 0);
    assert_eq!(data.sentence_starters_len(), 1);
    data.clear_sentence_starters();
    assert_eq!(data.sentence_starters_len(), 0);
    assert_eq!(data.orthographic_context_len(), 1);
    data.clear_orthographic_context();
    assert_eq!(data.orthographic_context_len(), 0);
}

#[test]
fn flattening_iterator_yields_each_pair_exactly_once() {
    let mut data = TrainingData::new();
    data.insert_collocation("a", "b");
    data.insert_collocation("a", "c");
    data.insert_collocation("d", "e");
    let mut seen: Vec<(String, String)> = Vec::new();
    let mut it = data.collocations_iter();
    while let Some((l, r)) = it.next() {
        seen.push((l.to_string(), r.to_string()));
    }
    assert_eq!(seen.len(), 3);
    for want in [("a", "b"), ("a", "c"), ("d", "e")] {
        let hits = seen
            .iter()
            .filter(|(l, r)| l == want.0 && r == want.1)
            .count();
        assert_eq!(hits, 1);
    }
    assert!(it.next().is_none());
    assert!(it.next().is_none());
}

#[test]
fn size_hint_has_no_upper_bound() {
    let mut data = TrainingData::new();
    data.insert_collocation("a", "b");
    data.insert_collocation("c", "d");
    let it = data.collocations_iter();
    let (lower, upper) = it.size_hint();
    assert_eq!(lower, 2);
    assert!(upper.is_none());
}

#[test]
fn iteration_vectors_cover_every_element_once() {
    let mut data = TrainingData::new();
    data.insert_abbrev("x");
    data.insert_abbrev("y");
    data.insert_sentence_starter("z");
    data.insert_orthographic_context("k", 7);
    let abbrevs = data.abbrevs_iter();
    assert_eq!(abbrevs.len(), 2);
    assert!(abbrevs.iter().any(|s| s == "x"));
    assert!(abbrevs.iter().any(|s| s == "y"));
    let starters = data.sentence_starters_iter();
    assert_eq!(starters.len(), 1);
    assert_eq!(starters[0], "z");
    let ortho = data.orthographic_context_iter();
    assert_eq!(ortho.len(), 1);
    assert_eq!(ortho[0].0, "k");
    assert_eq!(ortho[0].1, 7);
}

#[test]
fn default_store_is_empty() {
    let data = TrainingData::default();
    assert_eq!(data.abbrevs_len(), 0);
    assert_eq!(data.collocations_len(), 0);
    assert_eq!(data.sentence_starters_len(), 0);
    assert_eq!(data.orthographic_context_len(), 0);
}
