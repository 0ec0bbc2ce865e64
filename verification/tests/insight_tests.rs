use knowledge_graph::graph::Knowledge;
use knowledge_graph::insight::{extract_json_block, ingest_raw};
use knowledge_graph::render::render;

#[test]
fn extract_block_spans_first_to_last_bracket() {
    assert_eq!(extract_json_block("x[1,2]y"), Some("[1,2]".to_string()));
    assert_eq!(extract_json_block("a[1][2]b"), Some("[1][2]".to_string()));
    assert_eq!(extract_json_block("[]"), Some("[]".to_string()));
}

#[test]
fn extract_block_requires_both_brackets() {
    assert_eq!(extract_json_block("no brackets"), None);
    assert_eq!(extract_json_block("only [ left"), None);
    assert_eq!(extract_json_block("only ] right"), None);
    // The last `]` stands before the first `[`: no span.
    assert_eq!(extract_json_block("]a["), None);
}

#[test]
fn extraction_heuristic_builds_gravity_entry() {
    let raw = "Raw output: [{\"concept\":\"Gravity\",\"topic\":\"Physics\",\"definition\":\"A force\",\"example\":\"Apples fall\"}] trailing junk";
    let mut k = Knowledge::new();
    let applied = ingest_raw(raw, &mut k);
    assert!(applied);
    let g = k.lookup("Gravity").expect("Gravity entry");
    assert_eq!(g.definition.as_deref(), Some("A force"));
    assert_eq!(g.examples, vec!["Apples fall".to_string()]);
    assert_eq!(g.related_concepts, vec!["Physics".to_string()]);
    // The reverse edge of the worklist variant.
    let p = k.lookup("Physics").expect("Physics entry");
    assert_eq!(p.related_concepts, vec!["Gravity".to_string()]);
    assert!(p.definition.is_none());
}

#[test]
fn malformed_payload_is_a_no_op() {
    let mut k = Knowledge::new();
    k.add_definition("Kept".to_string(), "untouched".to_string());
    let before = render(&k);
    let applied = ingest_raw("nothing bracketed in here", &mut k);
    assert!(!applied);
    assert_eq!(render(&k), before);
}

#[test]
fn unparseable_span_is_a_no_op() {
    let mut k = Knowledge::new();
    let before = render(&k);
    // First-to-last-bracket span "[1][2]" is not one JSON array.
    let applied = ingest_raw("a[1][2]b", &mut k);
    assert!(!applied);
    assert_eq!(render(&k), before);
}

#[test]
fn non_object_records_merge_as_no_ops() {
    let mut k = Knowledge::new();
    let applied = ingest_raw("[1, \"two\", null]", &mut k);
    assert!(applied);
    assert_eq!(k.num_entries(), 0);
}

#[test]
fn non_string_fields_are_treated_as_absent() {
    let mut k = Knowledge::new();
    let applied = ingest_raw("[{\"concept\":5,\"definition\":\"x\"}]", &mut k);
    assert!(applied);
    assert_eq!(k.num_entries(), 0);
}

#[test]
fn batch_applies_each_record_independently() {
    let raw = "[{\"concept\":\"A\",\"definition\":\"da\"},{\"definition\":\"ignored\"},{\"concept\":\"B\",\"example\":\"eb\"}]";
    let mut k = Knowledge::new();
    assert!(ingest_raw(raw, &mut k));
    assert_eq!(k.num_entries(), 2);
    assert_eq!(k.lookup("A").unwrap().definition.as_deref(), Some("da"));
    assert_eq!(k.lookup("B").unwrap().examples, vec!["eb".to_string()]);
}

#[test]
fn reingesting_the_same_raw_text_changes_nothing() {
    // Two records touch the same concept, the second overwriting the first's
    // definition: a whole re-run still lands on the same graph.
    let raw = "[{\"concept\":\"A\",\"topic\":\"B\",\"definition\":\"one\",\"example\":\"e\"},{\"concept\":\"A\",\"definition\":\"two\"}]";
    let mut k = Knowledge::new();
    assert!(ingest_raw(raw, &mut k));
    let once = render(&k);
    assert!(ingest_raw(raw, &mut k));
    assert_eq!(render(&k), once);
    assert_eq!(k.lookup("A").unwrap().definition.as_deref(), Some("two"));
}

#[test]
fn subtopic_field_is_ignored_by_the_merge() {
    let raw = "[{\"concept\":\"A\",\"subtopic\":\"S\"}]";
    let mut k = Knowledge::new();
    k.add_concept("General".to_string());
    assert!(ingest_raw(raw, &mut k));
    assert!(k.lookup("A").unwrap().subtopics.is_empty());
    assert!(k.lookup("General").unwrap().subtopics.is_empty());
    assert!(k.lookup("S").is_none());
}

#[test]
fn brackets_inside_string_values_defeat_the_heuristic() {
    // Documented fragility, both ways: a quoted `]` before the first `[` is
    // harmless and the record merges...
    let raw = "noise \"quoted ]\" then [{\"concept\":\"C\"}]";
    let mut k = Knowledge::new();
    let applied = ingest_raw(raw, &mut k);
    assert!(applied);
    assert_eq!(k.num_entries(), 1);
    // ...while a stray `]` after the array extends the span past it, the span
    // is then not valid JSON, and nothing merges.
    let raw2 = "[{\"concept\":\"C\"}] and ] again";
    let mut k2 = Knowledge::new();
    assert!(!ingest_raw(raw2, &mut k2));
    assert_eq!(k2.num_entries(), 0);
}
