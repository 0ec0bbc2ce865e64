use knowledge_graph::graph::Knowledge;
use knowledge_graph::prompts::{initial_prompt, insight_prompt, related_prompt};
use knowledge_graph::render::render;

#[test]
fn render_empty_graph_is_empty() {
    let k = Knowledge::new();
    assert_eq!(render(&k), "");
}

#[test]
fn render_full_concept_record() {
    let mut k = Knowledge::new();
    k.add_definition("Gravity".to_string(), "A force".to_string());
    k.add_example("Gravity", "Apples fall".to_string());
    k.add_related_concept("Gravity", "Physics".to_string());
    k.add_subtopic("Gravity", "Tides".to_string());
    let expected = "Concept: Gravity\n  Definition: A force\n  Examples:\n    - Apples fall\n  Related Concepts:\n    - Physics\n  Subtopics:\n    - Tides\n\n";
    assert_eq!(render(&k), expected);
}

#[test]
fn render_skips_empty_sections() {
    let mut k = Knowledge::new();
    k.add_concept("Bare".to_string());
    assert_eq!(render(&k), "Concept: Bare\n\n");
}

#[test]
fn render_lists_entries_in_insertion_order() {
    let mut k = Knowledge::new();
    k.add_concept("B".to_string());
    k.add_concept("A".to_string());
    assert_eq!(render(&k), "Concept: B\n\nConcept: A\n\n");
}

#[test]
fn initial_prompt_wraps_the_topic() {
    assert_eq!(
        initial_prompt("biology"),
        "How does biology relate to other fields of science?"
    );
}

#[test]
fn related_prompt_names_concept_and_topic() {
    assert_eq!(
        related_prompt("Gravity", "physics"),
        "How does Gravity relate to other disciplines in the context of physics? Provide related concepts, definitions, and examples."
    );
}

#[test]
fn insight_prompt_embeds_the_text_and_a_worked_example() {
    let p = insight_prompt("some text");
    assert!(p.starts_with(
        "Analyze the following text and return JSON with these fields: topic, concept, definition, example, subtopic.\n"
    ));
    assert!(p.contains("Example JSON format:\n"));
    assert!(p.contains("\"concept\": \"Gravity\""));
    assert!(p.ends_with("Test: \"some text\""));
}
