use punkt::data::TrainingData;
use punkt::json::from_json;
use punkt::json::to_json;

const WELL_FORMED: &str = r#"{
  "abbrev_types": ["mr", "dr"],
  "sentence_starters": ["the"],
  "collocations": [["new", "york"], ["san", "francisco"]],
  "ortho_context": {"word": 6, "other": 0}
}"#;

#[test]
fn well_formed_document_loads_fully() {
    let data = TrainingData::from_str(WELL_FORMED).unwrap();
    assert!(data.contains_abbrev("mr"));
    assert!(data.contains_abbrev("dr"));
    assert_eq!(data.abbrevs_len(), 2);
    assert!(data.contains_sentence_starter("the"));
    assert_eq!(data.sentence_starters_len(), 1);
    assert!(data.contains_collocation("new", "york"));
    assert!(data.contains_collocation("san", "francisco"));
    assert_eq!(data.collocations_len(), 2);
    assert_eq!(data.get_orthographic_context("word"), Some(6));
    assert_eq!(data.get_orthographic_context("other"), Some(0));
    assert_eq!(data.orthographic_context_len(), 2);
}

#[test]
fn missing_ortho_context_fails_entirely() {
    let text = r#"{
      "abbrev_types": ["mr"],
      "sentence_starters": ["the"],
      "collocations": [["a", "b"]]
    }"#;
    assert!(TrainingData::from_str(text).is_none());
}

#[test]
fn missing_any_field_fails_entirely() {
    let no_abbrev = r#"{"sentence_starters": [], "collocations": [], "ortho_context": {}}"#;
    assert!(TrainingData::from_str(no_abbrev).is_none());
    let no_starters = r#"{"abbrev_types": [], "collocations": [], "ortho_context": {}}"#;
    assert!(TrainingData::from_str(no_starters).is_none());
    let no_colloc = r#"{"abbrev_types": [], "sentence_starters": [], "ortho_context": {}}"#;
    assert!(TrainingData::from_str(no_colloc).is_none());
}

#[test]
fn wrong_field_shape_fails_entirely() {
    let obj_for_array = r#"{"abbrev_types": {}, "sentence_starters": [], "collocations": [], "ortho_context": {}}"#;
    assert!(TrainingData::from_str(obj_for_array).is_none());
    let array_for_obj = r#"{"abbrev_types": [], "sentence_starters": [], "collocations": [], "ortho_context": []}"#;
    assert!(TrainingData::from_str(array_for_obj).is_none());
}

#[test]
fn non_object_documents_fail() {
    assert!(TrainingData::from_str("not json at all").is_none());
    assert!(TrainingData::from_str("[1, 2, 3]").is_none());
    assert!(TrainingData::from_str("\"text\"").is_none());
}

#[test]
fn collocations_use_the_last_two_elements() {
    let text = r#"{
      "abbrev_types": [],
      "sentence_starters": [],
      "collocations": [["x", "y"], ["a", "b", "extra"]],
      "ortho_context": {}
    }"#;
    let data = TrainingData::from_str(text).unwrap();
    assert_eq!(data.collocations_len(), 2);
    assert!(data.contains_collocation("x", "y"));
    assert!(data.contains_collocation("b", "extra"));
    assert!(!data.contains_collocation("a", "b"));
}

#[test]
fn short_collocation_entry_fails_the_whole_load() {
    let text = r#"{
      "abbrev_types": ["kept"],
      "sentence_starters": [],
      "collocations": [["a", "b"], ["only-one"]],
      "ortho_context": {}
    }"#;
    assert!(TrainingData::from_str(text).is_none());
    let non_string_tail = r#"{
      "abbrev_types": [],
      "sentence_starters": [],
      "collocations": [["a", 3]],
      "ortho_context": {}
    }"#;
    assert!(TrainingData::from_str(non_string_tail).is_none());
}

#[test]
fn non_array_collocation_entry_fails_the_whole_load() {
    let text = r#"{
      "abbrev_types": [],
      "sentence_starters": [],
      "collocations": [["a", "b"], "stray"],
      "ortho_context": {}
    }"#;
    assert!(TrainingData::from_str(text).is_none());
    let number_entry = r#"{
      "abbrev_types": [],
      "sentence_starters": [],
      "collocations": [7],
      "ortho_context": {}
    }"#;
    assert!(TrainingData::from_str(number_entry).is_none());
}

#[test]
fn non_string_array_elements_are_skipped() {
    let text = r#"{
      "abbrev_types": ["mr", 3, null, ["deep"]],
      "sentence_starters": [true, "the"],
      "collocations": [],
      "ortho_context": {}
    }"#;
    let data = TrainingData::from_str(text).unwrap();
    assert_eq!(data.abbrevs_len(), 1);
    assert!(data.contains_abbrev("mr"));
    assert_eq!(data.sentence_starters_len(), 1);
    assert!(data.contains_sentence_starter("the"));
}

#[test]
fn ortho_values_narrow_and_skip_like_the_flag_width() {
    let text = r#"{
      "abbrev_types": [],
      "sentence_starters": [],
      "collocations": [],
      "ortho_context": {"wide": 300, "neg": -2, "frac": 3.5, "text": "x", "ok": 255}
    }"#;
    let data = TrainingData::from_str(text).unwrap();
    assert_eq!(data.get_orthographic_context("wide"), Some(44));
    assert_eq!(data.get_orthographic_context("neg"), None);
    assert_eq!(data.get_orthographic_context("frac"), None);
    assert_eq!(data.get_orthographic_context("text"), None);
    assert_eq!(data.get_orthographic_context("ok"), Some(255));
    assert_eq!(data.orthographic_context_len(), 2);
}

#[test]
fn serialization_round_trip_keeps_membership() {
    let mut data = TrainingData::new();
    data.insert_abbrev("mr");
    data.insert_abbrev("dr");
    data.insert_sentence_starter("the");
    data.insert_sentence_starter("a");
    data.insert_collocation("new", "york");
    data.insert_collocation("new", "jersey");
    data.insert_collocation("san", "diego");
    data.insert_orthographic_context("word", 9);
    data.insert_orthographic_context("other", 130);

    let node = to_json(&data);
    let back = from_json(&node).unwrap();

    assert_eq!(back.abbrevs_len(), 2);
    assert!(back.contains_abbrev("mr"));
    assert!(back.contains_abbrev("dr"));
    assert_eq!(back.sentence_starters_len(), 2);
    assert!(back.contains_sentence_starter("the"));
    assert!(back.contains_sentence_starter("a"));
    assert_eq!(back.collocations_len(), 3);
    assert!(back.contains_collocation("new", "york"));
    assert!(back.contains_collocation("new", "jersey"));
    assert!(back.contains_collocation("san", "diego"));
    assert_eq!(back.orthographic_context_len(), 2);
    assert_eq!(back.get_orthographic_context("word"), Some(9));
    assert_eq!(back.get_orthographic_context("other"), Some(130));
}

#[test]
fn empty_store_round_trips() {
    let data = TrainingData::new();
    let back = from_json(&to_json(&data)).unwrap();
    assert_eq!(back.abbrevs_len(), 0);
    assert_eq!(back.collocations_len(), 0);
    assert_eq!(back.sentence_starters_len(), 0);
    assert_eq!(back.orthographic_context_len(), 0);
}

#[test]
fn loading_never_keeps_a_partial_store() {
    let text = r#"{
      "abbrev_types": ["kept"],
      "sentence_starters": ["also-kept"],
      "collocations": [["fine", "pair"], []],
      "ortho_context": {}
    }"#;
    assert!(TrainingData::from_str(text).is_none());
}
