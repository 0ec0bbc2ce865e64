use knowledge_graph::explore::ExplorationState;
use knowledge_graph::graph::Knowledge;
use knowledge_graph::insight::ingest_raw;

#[test]
fn worklist_pops_last_in_first_out() {
    let mut st = ExplorationState::new();
    st.push_if_new("B".to_string());
    st.push_if_new("A".to_string());
    assert_eq!(st.next_to_explore(), Some("A".to_string()));
    assert_eq!(st.next_to_explore(), Some("B".to_string()));
    assert_eq!(st.next_to_explore(), None);
}

#[test]
fn worklist_traversal_terminates_without_requery() {
    // Frontier starts as {A, B} with A on top; processing A discovers C.
    let mut k = Knowledge::new();
    let mut st = ExplorationState::new();
    st.push_if_new("B".to_string());
    st.push_if_new("A".to_string());

    let mut processed: Vec<String> = Vec::new();
    while let Some(name) = st.next_to_explore() {
        processed.push(name.clone());
        if name == "A" {
            // The query about A yields one new related concept, C.
            assert!(ingest_raw("[{\"concept\":\"A\",\"topic\":\"C\"}]", &mut k));
        }
        st.enqueue_related(&k, &name);
    }
    // A first, then the freshly pushed C, then B; the frontier emptied.
    assert_eq!(processed, vec!["A".to_string(), "C".to_string(), "B".to_string()]);
    // No concept was queried twice: all processed names are distinct.
    let mut sorted = processed.clone();
    sorted.sort();
    sorted.dedup();
    assert_eq!(sorted.len(), processed.len());
}

#[test]
fn push_suppresses_duplicates_and_explored_names() {
    let mut st = ExplorationState::new();
    st.push_if_new("X".to_string());
    st.push_if_new("X".to_string());
    assert_eq!(st.next_to_explore(), Some("X".to_string()));
    // X is explored now: offering it again schedules nothing.
    st.push_if_new("X".to_string());
    assert_eq!(st.next_to_explore(), None);
}

#[test]
fn seed_takes_every_entry_except_the_root() {
    let mut k = Knowledge::new();
    k.add_concept("General".to_string());
    k.add_concept("X".to_string());
    k.add_concept("Y".to_string());
    let mut st = ExplorationState::new();
    st.seed_from_graph(&k, "General");
    assert_eq!(st.next_to_explore(), Some("Y".to_string()));
    assert_eq!(st.next_to_explore(), Some("X".to_string()));
    assert_eq!(st.next_to_explore(), None);
}

#[test]
fn enqueue_related_of_unknown_name_adds_nothing() {
    let k = Knowledge::new();
    let mut st = ExplorationState::new();
    st.enqueue_related(&k, "Missing");
    assert_eq!(st.next_to_explore(), None);
}

#[test]
fn enqueue_related_skips_explored_and_waiting_names() {
    let mut k = Knowledge::new();
    k.add_related_concept("A", "B".to_string());
    k.add_related_concept("A", "C".to_string());
    let mut st = ExplorationState::new();
    st.push_if_new("C".to_string());
    st.push_if_new("A".to_string());
    assert_eq!(st.next_to_explore(), Some("A".to_string()));
    st.enqueue_related(&k, "A");
    // C was already waiting, so only B joined it.
    assert_eq!(st.next_to_explore(), Some("B".to_string()));
    assert_eq!(st.next_to_explore(), Some("C".to_string()));
    assert_eq!(st.next_to_explore(), None);
}
