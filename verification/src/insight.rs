use vstd::prelude::*;
use vstd::string::StrSliceExecFns;

use crate::graph::Knowledge;
use crate::graph::ConceptView;
use crate::graph::spec_add_concept;
use crate::graph::spec_add_related;
use crate::graph::spec_add_definition;
use crate::graph::spec_add_example;
use crate::graph::get_or_empty;
use crate::graph::insert_unique;

verus! {

/// One structured record recovered from generated text. Every field is
/// independently optional; a record with no fields merges as a no-op.
pub struct Insight {
    pub topic: Option<String>,
    pub concept: Option<String>,
    pub definition: Option<String>,
    pub example: Option<String>,
    pub subtopic: Option<String>,
}

/// Mathematical image of one insight record.
#[verifier::ext_equal]
pub ghost struct InsightView {
    pub topic: Option<Seq<char>>,
    pub concept: Option<Seq<char>>,
    pub definition: Option<Seq<char>>,
    pub example: Option<Seq<char>>,
    pub subtopic: Option<Seq<char>>,
}

impl View for Insight {
    type V = InsightView;

    open spec fn view(&self) -> InsightView {
        InsightView {
            topic: self.topic.deep_view(),
            concept: self.concept.deep_view(),
            definition: self.definition.deep_view(),
            example: self.example.deep_view(),
            subtopic: self.subtopic.deep_view(),
        }
    }
}

/// Index of the first occurrence of `c` in `s`; meaningful only when `s`
/// contains `c`.
pub open spec fn first_occurrence(s: Seq<char>, c: char) -> int
    decreases s.len(),
{
    if s.len() == 0 {
        0
    } else if s[0] == c {
        0
    } else {
        1 + first_occurrence(s.drop_first(), c)
    }
}

/// Index of the last occurrence of `c` in `s`; meaningful only when `s`
/// contains `c`.
pub open spec fn last_occurrence(s: Seq<char>, c: char) -> int
    decreases s.len(),
{
    if s.len() == 0 {
        -1
    } else if s.last() == c {
        s.len() - 1
    } else {
        last_occurrence(s.drop_last(), c)
    }
}

proof fn lemma_first_occurrence(s: Seq<char>, c: char, i: int)
    requires
        0 <= i < s.len(),
        s[i] == c,
        forall|j: int| 0 <= j < i ==> s[j] != c,
    ensures
        first_occurrence(s, c) == i,
    decreases i,
{
    if s[0] == c {
        assert(i == 0);
    } else {
        let d = s.drop_first();
        assert(d[i - 1] == c);
        assert(forall|j: int| 0 <= j < i - 1 ==> d[j] == s[j + 1] && d[j] != c);
        lemma_first_occurrence(d, c, i - 1);
    }
}

proof fn lemma_last_occurrence(s: Seq<char>, c: char, i: int)
    requires
        0 <= i < s.len(),
        s[i] == c,
        forall|j: int| i < j < s.len() ==> s[j] != c,
    ensures
        last_occurrence(s, c) == i,
    decreases s.len(),
{
    if s.last() == c {
        assert(i == s.len() - 1);
    } else {
        let d = s.drop_last();
        assert(d[i] == c);
        lemma_last_occurrence(d, c, i);
    }
}

/// The span from the first `[` to the last `]`, both inclusive: the heuristic
/// by which a JSON array is located inside noisy text. It is deliberately not
/// a JSON-aware scan: brackets inside string values defeat it, and that
/// behaviour is preserved. When either bracket is missing, or the last `]`
/// stands before the first `[`, there is no span.
pub open spec fn spec_extract_json_block(s: Seq<char>) -> Option<Seq<char>> {
    if !s.contains('[') || !s.contains(']') {
        None
    } else {
        let a = first_occurrence(s, '[');
        let b = last_occurrence(s, ']');
        if a <= b {
            Some(s.subrange(a, b + 1))
        } else {
            None
        }
    }
}

/// Locate the substring from the first `[` to the last `]` of `text`.
pub fn extract_json_block(text: &str) -> (r: Option<String>)
    ensures
        match r {
            Some(b) => spec_extract_json_block(text@) == Some(b@),
            None => spec_extract_json_block(text@) is None,
        },
{
    let n = text.unicode_len();
    let mut a: usize = 0;
    while a < n && text.get_char(a) != '['
        invariant
            a <= n,
            n == text@.len(),
            forall|j: int| 0 <= j < a ==> text@[j] != '[',
        decreases n - a,
    {
        a += 1;
    }
    if a == n {
        proof {
            if text@.contains('[') {
                let w = choose|w: int| 0 <= w < text@.len() && text@[w] == '[';
                assert(false);
            }
        }
        return None;
    }
    let mut b: usize = n - 1;
    while text.get_char(b) != ']' && b > 0
        invariant
            b < n,
            n == text@.len(),
            forall|j: int| b < j < n ==> text@[j] != ']',
        decreases b,
    {
        b -= 1;
    }
    if text.get_char(b) != ']' {
        proof {
            if text@.contains(']') {
                let w = choose|w: int| 0 <= w < text@.len() && text@[w] == ']';
                assert(false);
            }
        }
        return None;
    }
    proof {
        lemma_first_occurrence(text@, '[', a as int);
        lemma_last_occurrence(text@, ']', b as int);
        assert(text@.contains('[')) by {
            assert(text@[a as int] == '[');
        };
        assert(text@.contains(']')) by {
            assert(text@[b as int] == ']');
        };
    }
    if a <= b {
        Some(text.substring_char(a, b + 1).to_owned())
    } else {
        None
    }
}

#[verifier::external_type_specification]
#[verifier::external_body]
pub struct ExValue(serde_json::Value);

/// What parsing a text as one JSON array of values yields: `None` when the
/// text is not a single well-formed JSON array, otherwise its elements.
pub uninterp spec fn json_records_of(s: Seq<char>) -> Option<Seq<serde_json::Value>>;

/// Relies on `serde_json::from_str::<Vec<serde_json::Value>>`: a pure parser
/// whose outcome depends on the text alone; a parse error becomes `None`.
#[verifier::external_body]
fn parse_record_array(text: &str) -> (r: Option<Vec<serde_json::Value>>)
    ensures
        r is Some <==> json_records_of(text@) is Some,
        r matches Some(v) ==> json_records_of(text@) == Some(v@),
{
    serde_json::from_str::<Vec<serde_json::Value>>(text).ok()
}

/// The string found under `key` in a JSON value: `None` when the value is not
/// an object, has no such key, or holds something other than a string there.
pub uninterp spec fn str_field_of(v: serde_json::Value, key: Seq<char>) -> Option<Seq<char>>;

/// Relies on `serde_json::Value::get` and `serde_json::Value::as_str`: `get`
/// looks the key up in the object's map, `as_str` reads the string variant;
/// both depend on the value and the key alone.
#[verifier::external_body]
fn get_str_field(v: &serde_json::Value, key: &str) -> (r: Option<String>)
    ensures
        r is Some <==> str_field_of(*v, key@) is Some,
        r matches Some(s) ==> str_field_of(*v, key@) == Some(s@),
{
    match v.get(key).and_then(|f| f.as_str()) {
        Some(s) => Some(s.to_owned()),
        None => None,
    }
}

/// The insight record that one JSON value denotes: each recognised field is
/// present exactly when the value carries a string under that key. A value of
/// any other shape yields a record with no fields, which merges as a no-op.
pub open spec fn insight_of_value(v: serde_json::Value) -> InsightView {
    InsightView {
        topic: str_field_of(v, "topic"@),
        concept: str_field_of(v, "concept"@),
        definition: str_field_of(v, "definition"@),
        example: str_field_of(v, "example"@),
        subtopic: str_field_of(v, "subtopic"@),
    }
}

/// Read the five recognised fields out of one parsed JSON value.
fn insight_from_value(v: &serde_json::Value) -> (r: Insight)
    ensures
        r@ == insight_of_value(*v),
{
    let r = Insight {
        topic: get_str_field(v, "topic"),
        concept: get_str_field(v, "concept"),
        definition: get_str_field(v, "definition"),
        example: get_str_field(v, "example"),
        subtopic: get_str_field(v, "subtopic"),
    };
    proof {
        assert(r@ =~= insight_of_value(*v));
    }
    r
}

/// Effect of merging one insight into the graph. A record names its facts
/// through `concept`: without one, nothing changes. A `topic` adds the edge in
/// both directions; a `definition` overwrites; an `example` joins the example
/// set. The `subtopic` field plays no part in worklist exploration and is
/// ignored by the merge.
pub open spec fn spec_apply_insight(
    m: Map<Seq<char>, ConceptView>,
    i: InsightView,
) -> Map<Seq<char>, ConceptView> {
    match i.concept {
        None => m,
        Some(c) => {
            let m1 = spec_add_concept(m, c);
            let m2 = match i.topic {
                Some(t) => spec_add_related(spec_add_related(m1, c, t), t, c),
                None => m1,
            };
            let m3 = match i.definition {
                Some(d) => spec_add_definition(m2, c, d),
                None => m2,
            };
            match i.example {
                Some(e) => spec_add_example(m3, c, e),
                None => m3,
            }
        },
    }
}

/// Merge one insight record into the graph.
pub fn apply_insight(k: &mut Knowledge, insight: &Insight)
    requires
        old(k).wf(),
    ensures
        final(k).wf(),
        final(k)@ == spec_apply_insight(old(k)@, insight@),
{
    if let Some(concept) = &insight.concept {
        k.add_concept(concept.clone());
        if let Some(topic) = &insight.topic {
            k.add_related_concept(concept.as_str(), topic.clone());
            k.add_related_concept(topic.as_str(), concept.clone());
        }
        if let Some(def) = &insight.definition {
            k.add_definition(concept.clone(), def.clone());
        }
        if let Some(ex) = &insight.example {
            k.add_example(concept.as_str(), ex.clone());
        }
    }
}

/// Effect of merging a batch of insights, first to last. Each record is
/// applied independently: a record with missing fields skips those fields,
/// never the whole batch.
pub open spec fn spec_apply_insights(
    m: Map<Seq<char>, ConceptView>,
    s: Seq<InsightView>,
) -> Map<Seq<char>, ConceptView>
    decreases s.len(),
{
    if s.len() == 0 {
        m
    } else {
        spec_apply_insight(spec_apply_insights(m, s.drop_last()), s.last())
    }
}

/// The images of a batch of insight records.
pub open spec fn views_of_insights(s: Seq<Insight>) -> Seq<InsightView> {
    s.map_values(|x: Insight| x@)
}

/// Merge a batch of insight records into the graph, first to last.
pub fn apply_insights(k: &mut Knowledge, insights: &Vec<Insight>)
    requires
        old(k).wf(),
    ensures
        final(k).wf(),
        final(k)@ == spec_apply_insights(old(k)@, views_of_insights(insights@)),
{
    let ghost m0 = k@;
    let n = insights.len();
    let mut i: usize = 0;
    while i < n
        invariant
            old(k).wf(),
            k.wf(),
            n == insights@.len(),
            i <= n,
            k@ == spec_apply_insights(m0, views_of_insights(insights@.take(i as int))),
        decreases n - i,
    {
        apply_insight(k, &insights[i]);
        proof {
            let vs = views_of_insights(insights@.take(i as int + 1));
            assert(vs.drop_last() =~= views_of_insights(insights@.take(i as int)));
            assert(vs.last() == insights@[i as int]@);
        }
        i += 1;
    }
    proof {
        assert(insights@.take(n as int) =~= insights@);
    }
}

/// Effect of one extraction step on the graph, given the raw text that came
/// back from the generation endpoint: locate the bracketed span, parse it as
/// an array of records, and merge them; when either step fails, the graph is
/// left exactly as it was.
pub open spec fn spec_ingest(
    m: Map<Seq<char>, ConceptView>,
    t: Seq<char>,
) -> Map<Seq<char>, ConceptView> {
    match spec_extract_json_block(t) {
        None => m,
        Some(block) => match json_records_of(block) {
            None => m,
            Some(vs) => spec_apply_insights(
                m,
                vs.map_values(|v: serde_json::Value| insight_of_value(v)),
            ),
        },
    }
}

/// Recover insight records from raw generated text and merge them into the
/// graph. Returns whether a record array was found and applied; on failure
/// the graph is untouched and no error reaches the caller.
pub fn ingest_raw(text: &str, k: &mut Knowledge) -> (applied: bool)
    requires
        old(k).wf(),
    ensures
        final(k).wf(),
        final(k)@ == spec_ingest(old(k)@, text@),
        applied == (spec_extract_json_block(text@) matches Some(b) && json_records_of(b) is Some),
{
    match extract_json_block(text) {
        None => false,
        Some(block) => {
            match parse_record_array(block.as_str()) {
                None => false,
                Some(vals) => {
                    let ghost bv = block@;
                    let mut insights: Vec<Insight> = Vec::new();
                    let n = vals.len();
                    let mut i: usize = 0;
                    while i < n
                        invariant
                            n == vals@.len(),
                            i <= n,
                            insights@.len() == i,
                            forall|j: int|
                                0 <= j < i ==> insights@[j]@ == insight_of_value(vals@[j]),
                        decreases n - i,
                    {
                        let ins = insight_from_value(&vals[i]);
                        insights.push(ins);
                        i += 1;
                    }
                    apply_insights(k, &insights);
                    proof {
                        assert(views_of_insights(insights@) =~= vals@.map_values(
                            |v: serde_json::Value| insight_of_value(v),
                        ));
                    }
                    true
                },
            }
        },
    }
}

proof fn lemma_insert_unique_contains(s: Seq<Seq<char>>, x: Seq<char>, y: Seq<char>)
    ensures
        insert_unique(s, x).contains(y) <==> (s.contains(y) || y == x),
{
    let su = insert_unique(s, x);
    if s.contains(x) {
        if y == x {
            assert(s.contains(y));
        }
    } else {
        if s.contains(y) {
            let i = choose|i: int| 0 <= i < s.len() && s[i] == y;
            assert(su[i] == y);
            assert(su.contains(y));
        }
        if y == x {
            assert(su[s.len() as int] == y);
            assert(su.contains(y));
        }
        if su.contains(y) && !s.contains(y) && y != x {
            let i = choose|i: int| 0 <= i < su.len() && su[i] == y;
            if i < s.len() {
                assert(s[i] == y);
            } else {
                assert(su[i] == x);
            }
            assert(false);
        }
    }
}

proof fn lemma_add_concept_noop(m: Map<Seq<char>, ConceptView>, c: Seq<char>)
    requires
        m.contains_key(c),
    ensures
        spec_add_concept(m, c) == m,
{
    assert(m.insert(c, m[c]) =~= m);
}

proof fn lemma_add_related_noop(m: Map<Seq<char>, ConceptView>, c: Seq<char>, r: Seq<char>)
    requires
        m.contains_key(c),
        m[c].related_concepts.contains(r),
    ensures
        spec_add_related(m, c, r) == m,
{
    assert(get_or_empty(m, c) == m[c]);
    assert((ConceptView {
        definition: m[c].definition,
        examples: m[c].examples,
        related_concepts: insert_unique(m[c].related_concepts, r),
        subtopics: m[c].subtopics,
    }) =~= m[c]);
    assert(m.insert(c, m[c]) =~= m);
}

proof fn lemma_add_definition_noop(m: Map<Seq<char>, ConceptView>, c: Seq<char>, d: Seq<char>)
    requires
        m.contains_key(c),
        m[c].definition == Some(d),
    ensures
        spec_add_definition(m, c, d) == m,
{
    assert((ConceptView {
        definition: Some(d),
        examples: m[c].examples,
        related_concepts: m[c].related_concepts,
        subtopics: m[c].subtopics,
    }) =~= m[c]);
    assert(m.insert(c, m[c]) =~= m);
}

proof fn lemma_add_example_noop(m: Map<Seq<char>, ConceptView>, c: Seq<char>, e: Seq<char>)
    requires
        m.contains_key(c),
        m[c].examples.contains(e),
    ensures
        spec_add_example(m, c, e) == m,
{
    assert((ConceptView {
        definition: m[c].definition,
        examples: insert_unique(m[c].examples, e),
        related_concepts: m[c].related_concepts,
        subtopics: m[c].subtopics,
    }) =~= m[c]);
    assert(m.insert(c, m[c]) =~= m);
}

/// Law: merging the same insight twice yields the graph that merging it once
/// yields. Set insertions deduplicate and the definition overwrite is stable
/// under repetition.
pub proof fn lemma_apply_insight_idempotent(m: Map<Seq<char>, ConceptView>, i: InsightView)
    ensures
        spec_apply_insight(spec_apply_insight(m, i), i) == spec_apply_insight(m, i),
{
    match i.concept {
        None => {},
        Some(c) => {
            let m1 = spec_add_concept(m, c);
            let m2 = match i.topic {
                Some(t) => spec_add_related(spec_add_related(m1, c, t), t, c),
                None => m1,
            };
            let m3 = match i.definition {
                Some(d) => spec_add_definition(m2, c, d),
                None => m2,
            };
            let m4 = match i.example {
                Some(e) => spec_add_example(m3, c, e),
                None => m3,
            };
            assert(spec_apply_insight(m, i) == m4);
            // The facts the second pass needs: the entry for `c` exists and
            // already carries every datum the insight supplies, and so does
            // the entry for the topic.
            assert(m1.contains_key(c));
            match i.topic {
                Some(t) => {
                    let ma = spec_add_related(m1, c, t);
                    lemma_insert_unique_contains(get_or_empty(m1, c).related_concepts, t, t);
                    assert(ma[c].related_concepts.contains(t));
                    if t == c {
                        lemma_insert_unique_contains(ma[c].related_concepts, c, t);
                        assert(m2[c].related_concepts.contains(t));
                    } else {
                        assert(m2[c] == ma[c]);
                    }
                    lemma_insert_unique_contains(get_or_empty(ma, t).related_concepts, c, c);
                    assert(m2.contains_key(t) && m2[t].related_concepts.contains(c));
                    assert(m2.contains_key(c));
                },
                None => {},
            }
            assert(m2.contains_key(c));
            assert(m3.contains_key(c));
            assert(m4.contains_key(c));
            // Definitions and examples touch only the entry for `c`, and keep
            // its related-concept set.
            match i.definition {
                Some(d) => {
                    assert(m3[c].definition == Some(d));
                    assert(m3[c].related_concepts == m2[c].related_concepts);
                },
                None => {},
            }
            match i.example {
                Some(e) => {
                    lemma_insert_unique_contains(m3[c].examples, e, e);
                    assert(m4[c].examples.contains(e));
                    assert(m4[c].related_concepts == m3[c].related_concepts);
                    assert(m4[c].definition == m3[c].definition);
                },
                None => {},
            }
            // Second pass: every step leaves `m4` unchanged.
            lemma_add_concept_noop(m4, c);
            match i.topic {
                Some(t) => {
                    assert(m4[c].related_concepts.contains(t));
                    lemma_add_related_noop(m4, c, t);
                    if t == c {
                        lemma_insert_unique_contains(
                            get_or_empty(spec_add_related(m1, c, t), t).related_concepts,
                            c,
                            c,
                        );
                        assert(m4[t].related_concepts.contains(c));
                    } else {
                        assert(m4[t] == m2[t]);
                        assert(m4[t].related_concepts.contains(c));
                    }
                    lemma_add_related_noop(m4, t, c);
                },
                None => {},
            }
            match i.definition {
                Some(d) => {
                    assert(m4[c].definition == Some(d));
                    lemma_add_definition_noop(m4, c, d);
                },
                None => {},
            }
            match i.example {
                Some(e) => {
                    lemma_add_example_noop(m4, c, e);
                },
                None => {},
            }
        },
    }
}

proof fn lemma_apply_insights_concat(
    m: Map<Seq<char>, ConceptView>,
    a: Seq<InsightView>,
    b: Seq<InsightView>,
)
    ensures
        spec_apply_insights(m, a + b) == spec_apply_insights(spec_apply_insights(m, a), b),
    decreases b.len(),
{
    if b.len() == 0 {
        assert(a + b =~= a);
    } else {
        assert((a + b).drop_last() =~= a + b.drop_last());
        assert((a + b).last() == b.last());
        lemma_apply_insights_concat(m, a, b.drop_last());
    }
}

/// `m2` keeps everything `m1` has: every entry, and every member of every
/// related-concept and example set. Merging can only add.
spec fn graph_extends(
    m1: Map<Seq<char>, ConceptView>,
    m2: Map<Seq<char>, ConceptView>,
) -> bool {
    &&& forall|c: Seq<char>| #[trigger] m1.contains_key(c) ==> m2.contains_key(c)
    &&& forall|c: Seq<char>, v: Seq<char>|
        m1.contains_key(c) && #[trigger] m1[c].related_concepts.contains(v) ==> m2.contains_key(c)
            && m2[c].related_concepts.contains(v)
    &&& forall|c: Seq<char>, v: Seq<char>|
        m1.contains_key(c) && #[trigger] m1[c].examples.contains(v) ==> m2.contains_key(c)
            && m2[c].examples.contains(v)
}

proof fn lemma_extends_transitive(
    m1: Map<Seq<char>, ConceptView>,
    m2: Map<Seq<char>, ConceptView>,
    m3: Map<Seq<char>, ConceptView>,
)
    requires
        graph_extends(m1, m2),
        graph_extends(m2, m3),
    ensures
        graph_extends(m1, m3),
{
}

/// Every single merge step only extends the graph.
proof fn lemma_insert_step_extends(m: Map<Seq<char>, ConceptView>, k: Seq<char>, v: ConceptView)
    requires
        forall|x: Seq<char>|
            get_or_empty(m, k).related_concepts.contains(x) ==> #[trigger] v.related_concepts.contains(x),
        forall|x: Seq<char>|
            get_or_empty(m, k).examples.contains(x) ==> #[trigger] v.examples.contains(x),
    ensures
        graph_extends(m, m.insert(k, v)),
{
}

proof fn lemma_apply_extends(m: Map<Seq<char>, ConceptView>, i: InsightView)
    ensures
        graph_extends(m, spec_apply_insight(m, i)),
{
    match i.concept {
        None => {},
        Some(c) => {
            let m1 = spec_add_concept(m, c);
            lemma_insert_step_extends(m, c, get_or_empty(m, c));
            let m2 = match i.topic {
                Some(t) => spec_add_related(spec_add_related(m1, c, t), t, c),
                None => m1,
            };
            match i.topic {
                Some(t) => {
                    let ma = spec_add_related(m1, c, t);
                    assert forall|x: Seq<char>|
                        get_or_empty(m1, c).related_concepts.contains(x) implies #[trigger] insert_unique(
                        get_or_empty(m1, c).related_concepts,
                        t,
                    ).contains(x) by {
                        lemma_insert_unique_contains(get_or_empty(m1, c).related_concepts, t, x);
                    };
                    lemma_insert_step_extends(m1, c, ma[c]);
                    assert forall|x: Seq<char>|
                        get_or_empty(ma, t).related_concepts.contains(x) implies #[trigger] insert_unique(
                        get_or_empty(ma, t).related_concepts,
                        c,
                    ).contains(x) by {
                        lemma_insert_unique_contains(get_or_empty(ma, t).related_concepts, c, x);
                    };
                    lemma_insert_step_extends(ma, t, m2[t]);
                    lemma_extends_transitive(m, m1, ma);
                    lemma_extends_transitive(m, ma, m2);
                },
                None => {},
            }
            let m3 = match i.definition {
                Some(d) => spec_add_definition(m2, c, d),
                None => m2,
            };
            match i.definition {
                Some(d) => {
                    lemma_insert_step_extends(m2, c, m3[c]);
                    lemma_extends_transitive(m, m2, m3);
                },
                None => {},
            }
            match i.example {
                Some(e) => {
                    assert forall|x: Seq<char>|
                        get_or_empty(m3, c).examples.contains(x) implies #[trigger] insert_unique(
                        get_or_empty(m3, c).examples,
                        e,
                    ).contains(x) by {
                        lemma_insert_unique_contains(get_or_empty(m3, c).examples, e, x);
                    };
                    lemma_insert_step_extends(m3, c, spec_add_example(m3, c, e)[c]);
                    lemma_extends_transitive(m, m3, spec_add_example(m3, c, e));
                },
                None => {},
            }
        },
    }
}

/// `m` already holds every set-valued datum of insight `i`: the entry and,
/// where given, both topic edges and the example. Definitions stand apart,
/// since a later insight may overwrite them.
spec fn absorbed(m: Map<Seq<char>, ConceptView>, i: InsightView) -> bool {
    match i.concept {
        None => true,
        Some(c) => {
            &&& m.contains_key(c)
            &&& (match i.topic {
                Some(t) => m.contains_key(t) && m[c].related_concepts.contains(t)
                    && m[t].related_concepts.contains(c),
                None => true,
            })
            &&& (match i.example {
                Some(e) => m[c].examples.contains(e),
                None => true,
            })
        },
    }
}

proof fn lemma_absorbed_after(m: Map<Seq<char>, ConceptView>, i: InsightView)
    ensures
        absorbed(spec_apply_insight(m, i), i),
{
    match i.concept {
        None => {},
        Some(c) => {
            let m1 = spec_add_concept(m, c);
            let m2 = match i.topic {
                Some(t) => spec_add_related(spec_add_related(m1, c, t), t, c),
                None => m1,
            };
            let m3 = match i.definition {
                Some(d) => spec_add_definition(m2, c, d),
                None => m2,
            };
            let m4 = match i.example {
                Some(e) => spec_add_example(m3, c, e),
                None => m3,
            };
            assert(graph_extends(m2, m4)) by {
                match i.definition {
                    Some(d) => {
                        lemma_insert_step_extends(m2, c, m3[c]);
                    },
                    None => {},
                }
                match i.example {
                    Some(e) => {
                        assert forall|x: Seq<char>|
                            get_or_empty(m3, c).examples.contains(x) implies #[trigger] insert_unique(
                            get_or_empty(m3, c).examples,
                            e,
                        ).contains(x) by {
                            lemma_insert_unique_contains(get_or_empty(m3, c).examples, e, x);
                        };
                        lemma_insert_step_extends(m3, c, m4[c]);
                    },
                    None => {},
                }
                lemma_extends_transitive(m2, m3, m4);
            };
            match i.topic {
                Some(t) => {
                    let ma = spec_add_related(m1, c, t);
                    lemma_insert_unique_contains(get_or_empty(m1, c).related_concepts, t, t);
                    assert(ma[c].related_concepts.contains(t));
                    lemma_insert_unique_contains(get_or_empty(ma, t).related_concepts, c, c);
                    assert(m2[t].related_concepts.contains(c));
                    if t == c {
                        lemma_insert_unique_contains(ma[c].related_concepts, c, t);
                    }
                    assert(m2[c].related_concepts.contains(t));
                },
                None => {},
            }
            match i.example {
                Some(e) => {
                    lemma_insert_unique_contains(get_or_empty(m3, c).examples, e, e);
                    assert(m4[c].examples.contains(e));
                },
                None => {},
            }
        },
    }
}

proof fn lemma_absorbed_preserved(
    m: Map<Seq<char>, ConceptView>,
    m2: Map<Seq<char>, ConceptView>,
    i: InsightView,
)
    requires
        absorbed(m, i),
        graph_extends(m, m2),
    ensures
        absorbed(m2, i),
{
}

/// After a whole batch, the graph has absorbed every insight of the batch.
proof fn lemma_absorbed_all(m: Map<Seq<char>, ConceptView>, s: Seq<InsightView>)
    ensures
        forall|k: int| 0 <= k < s.len() ==> absorbed(spec_apply_insights(m, s), #[trigger] s[k]),
    decreases s.len(),
{
    if s.len() > 0 {
        let prev = spec_apply_insights(m, s.drop_last());
        lemma_absorbed_all(m, s.drop_last());
        lemma_apply_extends(prev, s.last());
        lemma_absorbed_after(prev, s.last());
        assert forall|k: int| 0 <= k < s.len() implies absorbed(
            spec_apply_insights(m, s),
            #[trigger] s[k],
        ) by {
            if k < s.len() - 1 {
                assert(absorbed(prev, s.drop_last()[k]));
                lemma_absorbed_preserved(prev, spec_apply_insights(m, s), s[k]);
            }
        };
    }
}

/// The definition that the last insight of `s` defining `c` writes, if any.
spec fn last_def(s: Seq<InsightView>, c: Seq<char>) -> Option<Seq<char>>
    decreases s.len(),
{
    if s.len() == 0 {
        None
    } else if s.last().concept == Some(c) && s.last().definition is Some {
        s.last().definition
    } else {
        last_def(s.drop_last(), c)
    }
}

proof fn lemma_last_def_drop_first(s: Seq<InsightView>, c: Seq<char>)
    requires
        s.len() > 0,
    ensures
        last_def(s, c) == (if last_def(s.drop_first(), c) is Some {
            last_def(s.drop_first(), c)
        } else if s[0].concept == Some(c) && s[0].definition is Some {
            s[0].definition
        } else {
            None::<Seq<char>>
        }),
    decreases s.len(),
{
    if s.len() == 1 {
        assert(s.drop_first() =~= Seq::<InsightView>::empty());
        assert(s.last() == s[0]);
        assert(s.drop_last() =~= Seq::<InsightView>::empty());
    } else {
        let d = s.drop_first();
        assert(s.drop_last().drop_first() =~= d.drop_last());
        assert(s.last() == d.last());
        assert(s[0] == s.drop_last()[0]);
        lemma_last_def_drop_first(s.drop_last(), c);
    }
}

/// Merging insight `j` keeps the entry for `c` and its definition, as long as
/// `j` does not itself define `c`.
proof fn lemma_apply_preserves_def(m: Map<Seq<char>, ConceptView>, j: InsightView, c: Seq<char>)
    requires
        m.contains_key(c),
        !(j.concept == Some(c) && j.definition is Some),
    ensures
        spec_apply_insight(m, j).contains_key(c),
        spec_apply_insight(m, j)[c].definition == m[c].definition,
{
    match j.concept {
        None => {},
        Some(cj) => {
            let m1 = spec_add_concept(m, cj);
            assert(m1.contains_key(c) && m1[c].definition == m[c].definition);
            let m2 = match j.topic {
                Some(t) => spec_add_related(spec_add_related(m1, cj, t), t, cj),
                None => m1,
            };
            match j.topic {
                Some(t) => {
                    let ma = spec_add_related(m1, cj, t);
                    assert(ma.contains_key(c) && ma[c].definition == m[c].definition);
                    assert(m2.contains_key(c) && m2[c].definition == m[c].definition);
                },
                None => {},
            }
            let m3 = match j.definition {
                Some(d) => spec_add_definition(m2, cj, d),
                None => m2,
            };
            assert(m3.contains_key(c) && m3[c].definition == m[c].definition);
            match j.example {
                Some(e) => {
                    assert(spec_add_example(m3, cj, e).contains_key(c) && spec_add_example(
                        m3,
                        cj,
                        e,
                    )[c].definition == m[c].definition);
                },
                None => {},
            }
        },
    }
}

/// After a batch, the definition of `c` is what its last definer wrote.
proof fn lemma_last_def_char(m: Map<Seq<char>, ConceptView>, s: Seq<InsightView>, c: Seq<char>)
    requires
        last_def(s, c) is Some,
    ensures
        spec_apply_insights(m, s).contains_key(c),
        spec_apply_insights(m, s)[c].definition == last_def(s, c),
    decreases s.len(),
{
    let j = s.last();
    let prev = spec_apply_insights(m, s.drop_last());
    if j.concept == Some(c) && j.definition is Some {
        let cj = j.concept->0;
        let d = j.definition->0;
        let m1 = spec_add_concept(prev, cj);
        let m2 = match j.topic {
            Some(t) => spec_add_related(spec_add_related(m1, cj, t), t, cj),
            None => m1,
        };
        let m3 = spec_add_definition(m2, cj, d);
        assert(m3.contains_key(c) && m3[c].definition == Some(d));
        match j.example {
            Some(e) => {
                assert(spec_add_example(m3, cj, e)[c].definition == Some(d));
            },
            None => {},
        }
    } else {
        lemma_last_def_char(m, s.drop_last(), c);
        lemma_apply_preserves_def(prev, j, c);
    }
}

/// Merging an insight whose set-valued data the graph has already absorbed
/// changes nothing but, possibly, one definition: the entry set and every
/// example, related-concept and subtopic set stay exactly as they were, and
/// only the definition of the insight's own concept (when it carries one) is
/// rewritten.
proof fn lemma_apply_when_absorbed(x: Map<Seq<char>, ConceptView>, j: InsightView)
    requires
        absorbed(x, j),
    ensures
        spec_apply_insight(x, j).dom() == x.dom(),
        forall|c: Seq<char>|
            #[trigger] x.contains_key(c) ==> spec_apply_insight(x, j)[c].related_concepts
                == x[c].related_concepts && spec_apply_insight(x, j)[c].examples == x[c].examples
                && spec_apply_insight(x, j)[c].subtopics == x[c].subtopics,
        j.concept is Some && j.definition is Some ==> spec_apply_insight(
            x,
            j,
        )[j.concept->0].definition == j.definition,
{
    match j.concept {
        None => {},
        Some(cj) => {
            let m1 = spec_add_concept(x, cj);
            assert(m1 == x) by {
                assert(x.insert(cj, x[cj]) =~= x);
            };
            let m2 = match j.topic {
                Some(t) => spec_add_related(spec_add_related(m1, cj, t), t, cj),
                None => m1,
            };
            assert(m2 == x) by {
                match j.topic {
                    Some(t) => {
                        let ma = spec_add_related(x, cj, t);
                        assert(insert_unique(x[cj].related_concepts, t)
                            == x[cj].related_concepts);
                        assert((ConceptView {
                            definition: x[cj].definition,
                            examples: x[cj].examples,
                            related_concepts: insert_unique(x[cj].related_concepts, t),
                            subtopics: x[cj].subtopics,
                        }) =~= x[cj]);
                        assert(ma =~= x);
                        assert(insert_unique(x[t].related_concepts, cj)
                            == x[t].related_concepts);
                        assert((ConceptView {
                            definition: x[t].definition,
                            examples: x[t].examples,
                            related_concepts: insert_unique(x[t].related_concepts, cj),
                            subtopics: x[t].subtopics,
                        }) =~= x[t]);
                        assert(spec_add_related(ma, t, cj) =~= x);
                    },
                    None => {},
                }
            };
            let m3 = match j.definition {
                Some(d) => spec_add_definition(m2, cj, d),
                None => m2,
            };
            assert(m3.dom() =~= x.dom());
            let m4 = match j.example {
                Some(e) => spec_add_example(m3, cj, e),
                None => m3,
            };
            match j.example {
                Some(e) => {
                    assert(insert_unique(m3[cj].examples, e) == m3[cj].examples);
                },
                None => {},
            }
            assert(m4.dom() =~= x.dom());
        },
    }
}

/// `x` agrees with `n` except, possibly, on definitions that the remaining
/// batch `q` is still going to overwrite.
spec fn eq_mod_defs(
    x: Map<Seq<char>, ConceptView>,
    n: Map<Seq<char>, ConceptView>,
    q: Seq<InsightView>,
) -> bool {
    &&& x.dom() == n.dom()
    &&& forall|c: Seq<char>|
        #[trigger] x.contains_key(c) ==> x[c].related_concepts == n[c].related_concepts
            && x[c].examples == n[c].examples && x[c].subtopics == n[c].subtopics
    &&& forall|c: Seq<char>|
        #[trigger] x.contains_key(c) ==> (x[c].definition == n[c].definition || last_def(q, c)
            is Some)
}

/// Replaying the batch `q` over any state that differs from `n` only in
/// definitions `q` overwrites anyway lands exactly on `n`, as long as `n` has
/// absorbed `q`'s set-valued data and already shows `q`'s last definitions.
proof fn lemma_reapply_converges(
    x: Map<Seq<char>, ConceptView>,
    n: Map<Seq<char>, ConceptView>,
    q: Seq<InsightView>,
)
    requires
        eq_mod_defs(x, n, q),
        forall|k: int| 0 <= k < q.len() ==> absorbed(n, #[trigger] q[k]),
        forall|c: Seq<char>|
            #[trigger] last_def(q, c) is Some ==> n.contains_key(c) && n[c].definition == last_def(
                q,
                c,
            ),
    ensures
        spec_apply_insights(x, q) == n,
    decreases q.len(),
{
    if q.len() == 0 {
        assert forall|c: Seq<char>| #[trigger] x.contains_key(c) implies x[c] == n[c] by {
            assert(x[c] =~= n[c]);
        };
        assert(x =~= n);
    } else {
        let j = q[0];
        let q2 = q.drop_first();
        assert(q =~= seq![j] + q2);
        lemma_apply_insights_concat(x, seq![j], q2);
        assert(seq![j].drop_last() =~= Seq::<InsightView>::empty());
        assert(seq![j].last() == j);
        reveal_with_fuel(spec_apply_insights, 2);
        assert(spec_apply_insights(x, seq![j]) == spec_apply_insight(x, j));
        let x2 = spec_apply_insight(x, j);
        // `x` absorbed `j` just as `n` did, since their sets agree.
        assert(absorbed(x, j)) by {
            assert(absorbed(n, j));
            match j.concept {
                Some(cj) => {
                    assert(x.contains_key(cj));
                },
                None => {},
            }
        };
        lemma_apply_when_absorbed(x, j);
        // Definitions: untouched ones carry their disjunct from `x`, and a
        // definition `j` writes is either `q2`'s business or already `n`'s.
        assert(eq_mod_defs(x2, n, q2)) by {
            assert forall|c: Seq<char>| #[trigger] x2.contains_key(c) implies (x2[c].definition
                == n[c].definition || last_def(q2, c) is Some) by {
                lemma_last_def_drop_first(q, c);
                if j.concept == Some(c) && j.definition is Some {
                    if !(last_def(q2, c) is Some) {
                        assert(last_def(q, c) == j.definition);
                        assert(x2[c].definition == j.definition);
                    }
                } else {
                    lemma_apply_preserves_def(x, j, c);
                    assert(x2[c].definition == x[c].definition);
                    if x[c].definition != n[c].definition {
                        assert(last_def(q, c) is Some);
                        assert(last_def(q2, c) is Some);
                    }
                }
            };
        };
        assert forall|k: int| 0 <= k < q2.len() implies absorbed(n, #[trigger] q2[k]) by {
            assert(q2[k] == q[k + 1]);
        };
        assert forall|c: Seq<char>| #[trigger] last_def(q2, c) is Some implies n.contains_key(c)
            && n[c].definition == last_def(q2, c) by {
            lemma_last_def_drop_first(q, c);
        };
        lemma_reapply_converges(x2, n, q2);
    }
}

/// Law: merging the same batch of insights twice yields the graph that
/// merging it once yields. Sets only deduplicate on the second pass, and
/// every definition ends with the batch's last writer either way.
pub proof fn lemma_apply_insights_idempotent(
    m: Map<Seq<char>, ConceptView>,
    s: Seq<InsightView>,
)
    ensures
        spec_apply_insights(spec_apply_insights(m, s), s) == spec_apply_insights(m, s),
{
    let n = spec_apply_insights(m, s);
    lemma_absorbed_all(m, s);
    assert forall|c: Seq<char>| #[trigger] last_def(s, c) is Some implies n.contains_key(c)
        && n[c].definition == last_def(s, c) by {
        lemma_last_def_char(m, s, c);
    };
    lemma_reapply_converges(n, n, s);
}

/// Law: feeding the same raw text through extraction twice leaves the graph
/// exactly as one pass left it — the whole step, not only one record, is
/// idempotent.
pub proof fn lemma_ingest_idempotent(m: Map<Seq<char>, ConceptView>, t: Seq<char>)
    ensures
        spec_ingest(spec_ingest(m, t), t) == spec_ingest(m, t),
{
    match spec_extract_json_block(t) {
        None => {},
        Some(block) => match json_records_of(block) {
            None => {},
            Some(vs) => {
                lemma_apply_insights_idempotent(
                    m,
                    vs.map_values(|v: serde_json::Value| insight_of_value(v)),
                );
            },
        },
    }
}

/// Law: the graph never shrinks. Merging an insight keeps every entry that
/// existed before; entries are only ever created or extended.
pub proof fn lemma_merge_monotone(m: Map<Seq<char>, ConceptView>, i: InsightView)
    ensures
        forall|k: Seq<char>|
            m.contains_key(k) ==> #[trigger] spec_apply_insight(m, i).contains_key(k),
{
}

/// Law: text without a bracketed span changes nothing. When the raw text
/// holds no `[` and no `]`, extraction is a no-op on the graph.
pub proof fn lemma_no_brackets_no_change(m: Map<Seq<char>, ConceptView>, t: Seq<char>)
    requires
        forall|j: int| 0 <= j < t.len() ==> t[j] != '[' && t[j] != ']',
    ensures
        spec_ingest(m, t) == m,
{
    if t.contains('[') {
        let w = choose|w: int| 0 <= w < t.len() && t[w] == '[';
        assert(false);
    }
}

} // verus!
