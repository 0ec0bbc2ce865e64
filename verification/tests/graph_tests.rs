use knowledge_graph::graph::Knowledge;
use knowledge_graph::insight::{apply_insight, Insight};
use knowledge_graph::render::render;

fn insight(
    topic: Option<&str>,
    concept: Option<&str>,
    definition: Option<&str>,
    example: Option<&str>,
    subtopic: Option<&str>,
) -> Insight {
    Insight {
        topic: topic.map(|s| s.to_string()),
        concept: concept.map(|s| s.to_string()),
        definition: definition.map(|s| s.to_string()),
        example: example.map(|s| s.to_string()),
        subtopic: subtopic.map(|s| s.to_string()),
    }
}

#[test]
fn add_concept_creates_empty_entry() {
    let mut k = Knowledge::new();
    assert_eq!(k.num_entries(), 0);
    k.add_concept("Gravity".to_string());
    assert_eq!(k.num_entries(), 1);
    let c = k.lookup("Gravity").expect("entry must exist");
    assert!(c.definition.is_none());
    assert!(c.examples.is_empty());
    assert!(c.related_concepts.is_empty());
    assert!(c.subtopics.is_empty());
}

#[test]
fn add_concept_twice_keeps_one_entry() {
    let mut k = Knowledge::new();
    k.add_concept("Gravity".to_string());
    k.add_definition("Gravity".to_string(), "A force".to_string());
    k.add_concept("Gravity".to_string());
    assert_eq!(k.num_entries(), 1);
    let c = k.lookup("Gravity").unwrap();
    assert_eq!(c.definition.as_deref(), Some("A force"));
}

#[test]
fn definition_overwrite_last_wins() {
    let mut k = Knowledge::new();
    k.add_definition("Gravity".to_string(), "first".to_string());
    k.add_definition("Gravity".to_string(), "second".to_string());
    let c = k.lookup("Gravity").unwrap();
    assert_eq!(c.definition.as_deref(), Some("second"));
}

#[test]
fn examples_deduplicate() {
    let mut k = Knowledge::new();
    k.add_example("Gravity", "Apples fall".to_string());
    k.add_example("Gravity", "Apples fall".to_string());
    k.add_example("Gravity", "Tides".to_string());
    let c = k.lookup("Gravity").unwrap();
    assert_eq!(c.examples, vec!["Apples fall".to_string(), "Tides".to_string()]);
}

#[test]
fn related_concepts_deduplicate() {
    let mut k = Knowledge::new();
    k.add_related_concept("Gravity", "Physics".to_string());
    k.add_related_concept("Gravity", "Physics".to_string());
    let c = k.lookup("Gravity").unwrap();
    assert_eq!(c.related_concepts, vec!["Physics".to_string()]);
}

#[test]
fn subtopics_deduplicate() {
    let mut k = Knowledge::new();
    k.add_subtopic("General", "Waves".to_string());
    k.add_subtopic("General", "Waves".to_string());
    k.add_subtopic("General", "Optics".to_string());
    let c = k.lookup("General").unwrap();
    assert_eq!(c.subtopics, vec!["Waves".to_string(), "Optics".to_string()]);
}

#[test]
fn forward_reference_creates_no_entry() {
    let mut k = Knowledge::new();
    k.add_related_concept("Gravity", "Thermodynamics".to_string());
    assert!(k.lookup("Gravity").is_some());
    assert!(k.lookup("Thermodynamics").is_none());
    // Only an explicit mention as a concept creates the entry.
    apply_insight(&mut k, &insight(None, Some("Thermodynamics"), None, None, None));
    assert!(k.lookup("Thermodynamics").is_some());
}

#[test]
fn merge_same_insight_twice_equals_once() {
    let ins = insight(
        Some("Physics"),
        Some("Gravity"),
        Some("A force"),
        Some("Apples fall"),
        None,
    );
    let mut once = Knowledge::new();
    apply_insight(&mut once, &ins);
    let mut twice = Knowledge::new();
    apply_insight(&mut twice, &ins);
    apply_insight(&mut twice, &ins);
    assert_eq!(render(&once), render(&twice));
    assert_eq!(once.num_entries(), twice.num_entries());
}

#[test]
fn insight_without_concept_is_no_op() {
    let mut k = Knowledge::new();
    apply_insight(&mut k, &insight(Some("Physics"), None, Some("x"), Some("y"), None));
    assert_eq!(k.num_entries(), 0);
}

#[test]
fn empty_strings_are_accepted() {
    let mut k = Knowledge::new();
    k.add_concept("".to_string());
    k.add_example("", "".to_string());
    let c = k.lookup("").unwrap();
    assert_eq!(c.examples, vec!["".to_string()]);
}
