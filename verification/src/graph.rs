use vstd::prelude::*;

verus! {

/// One node of the knowledge graph: an optional definition, the set of
/// examples, the set of related-concept names, and the set of subtopic names.
/// Each set is held as a vector that the graph keeps free of duplicates.
#[derive(Debug)]
pub struct Concept {
    pub definition: Option<String>,
    pub examples: Vec<String>,
    pub related_concepts: Vec<String>,
    pub subtopics: Vec<String>,
}

/// Mathematical image of one concept. The three collections are sequences of
/// character sequences; well-formed graphs keep them duplicate-free, and merge
/// operations treat them as sets (insertion only when absent).
#[verifier::ext_equal]
pub ghost struct ConceptView {
    pub definition: Option<Seq<char>>,
    pub examples: Seq<Seq<char>>,
    pub related_concepts: Seq<Seq<char>>,
    pub subtopics: Seq<Seq<char>>,
}

impl View for Concept {
    type V = ConceptView;

    open spec fn view(&self) -> ConceptView {
        ConceptView {
            definition: self.definition.deep_view(),
            examples: self.examples.deep_view(),
            related_concepts: self.related_concepts.deep_view(),
            subtopics: self.subtopics.deep_view(),
        }
    }
}

/// The image of a concept no insight has touched yet.
pub open spec fn empty_concept_view() -> ConceptView {
    ConceptView {
        definition: None,
        examples: Seq::empty(),
        related_concepts: Seq::empty(),
        subtopics: Seq::empty(),
    }
}

/// A sequence without repeated elements: the representation of a set.
pub open spec fn no_dups(s: Seq<Seq<char>>) -> bool {
    forall|i: int, j: int| 0 <= i < j < s.len() ==> s[i] != s[j]
}

/// All collections of the concept are duplicate-free.
pub open spec fn concept_wf(c: ConceptView) -> bool {
    &&& no_dups(c.examples)
    &&& no_dups(c.related_concepts)
    &&& no_dups(c.subtopics)
}

/// Set-style insertion into a duplicate-free sequence: append the element
/// only when it is not already present.
pub open spec fn insert_unique(s: Seq<Seq<char>>, x: Seq<char>) -> Seq<Seq<char>> {
    if s.contains(x) {
        s
    } else {
        s.push(x)
    }
}

/// The entry stored under `k`, or the empty concept when `k` is absent:
/// every graph operation is total and creates missing entries on demand.
pub open spec fn get_or_empty(m: Map<Seq<char>, ConceptView>, k: Seq<char>) -> ConceptView {
    if m.contains_key(k) {
        m[k]
    } else {
        empty_concept_view()
    }
}

/// Effect of `add_concept`: the entry comes to exist, its contents untouched.
pub open spec fn spec_add_concept(
    m: Map<Seq<char>, ConceptView>,
    k: Seq<char>,
) -> Map<Seq<char>, ConceptView> {
    m.insert(k, get_or_empty(m, k))
}

/// Effect of `add_related_concept`: `related` joins the related-concept set
/// of `concept`; no entry is created for `related` itself.
pub open spec fn spec_add_related(
    m: Map<Seq<char>, ConceptView>,
    concept: Seq<char>,
    related: Seq<char>,
) -> Map<Seq<char>, ConceptView> {
    let c = get_or_empty(m, concept);
    m.insert(
        concept,
        ConceptView {
            definition: c.definition,
            examples: c.examples,
            related_concepts: insert_unique(c.related_concepts, related),
            subtopics: c.subtopics,
        },
    )
}

/// Effect of `add_definition`: the definition is overwritten, last write wins.
pub open spec fn spec_add_definition(
    m: Map<Seq<char>, ConceptView>,
    concept: Seq<char>,
    definition: Seq<char>,
) -> Map<Seq<char>, ConceptView> {
    let c = get_or_empty(m, concept);
    m.insert(
        concept,
        ConceptView {
            definition: Some(definition),
            examples: c.examples,
            related_concepts: c.related_concepts,
            subtopics: c.subtopics,
        },
    )
}

/// Effect of `add_example`: `example` joins the example set of `concept`.
pub open spec fn spec_add_example(
    m: Map<Seq<char>, ConceptView>,
    concept: Seq<char>,
    example: Seq<char>,
) -> Map<Seq<char>, ConceptView> {
    let c = get_or_empty(m, concept);
    m.insert(
        concept,
        ConceptView {
            definition: c.definition,
            examples: insert_unique(c.examples, example),
            related_concepts: c.related_concepts,
            subtopics: c.subtopics,
        },
    )
}

/// Effect of `add_subtopic`: `subtopic` joins the subtopic set of `concept`.
pub open spec fn spec_add_subtopic(
    m: Map<Seq<char>, ConceptView>,
    concept: Seq<char>,
    subtopic: Seq<char>,
) -> Map<Seq<char>, ConceptView> {
    let c = get_or_empty(m, concept);
    m.insert(
        concept,
        ConceptView {
            definition: c.definition,
            examples: c.examples,
            related_concepts: c.related_concepts,
            subtopics: insert_unique(c.subtopics, subtopic),
        },
    )
}

/// The name stored at position `i` of an entry list.
pub open spec fn key_at(s: Seq<(String, Concept)>, i: int) -> Seq<char> {
    s[i].0@
}

/// No two entries share a name.
pub open spec fn keys_distinct(s: Seq<(String, Concept)>) -> bool {
    forall|i: int, j: int| 0 <= i < j < s.len() ==> key_at(s, i) != key_at(s, j)
}

/// Some entry carries the name `k`.
pub open spec fn has_key(s: Seq<(String, Concept)>, k: Seq<char>) -> bool {
    exists|i: int| 0 <= i < s.len() && key_at(s, i) == k
}

/// The finite map that an entry list denotes; later entries would win, and
/// well-formed graphs keep the names distinct so the question never arises.
pub open spec fn entries_map(s: Seq<(String, Concept)>) -> Map<Seq<char>, ConceptView>
    decreases s.len(),
{
    if s.len() == 0 {
        Map::empty()
    } else {
        entries_map(s.drop_last()).insert(s.last().0@, s.last().1@)
    }
}

proof fn lemma_entries_map_dom(s: Seq<(String, Concept)>)
    ensures
        forall|k: Seq<char>| #[trigger] entries_map(s).contains_key(k) <==> has_key(s, k),
    decreases s.len(),
{
    if s.len() > 0 {
        let dl = s.drop_last();
        lemma_entries_map_dom(dl);
        assert forall|k: Seq<char>| #[trigger] entries_map(s).contains_key(k) implies has_key(
            s,
            k,
        ) by {
            if k == s.last().0@ {
                assert(key_at(s, s.len() - 1) == k);
            } else {
                assert(entries_map(dl).contains_key(k));
                let i = choose|i: int| 0 <= i < dl.len() && key_at(dl, i) == k;
                assert(key_at(s, i) == k);
            }
        };
        assert forall|k: Seq<char>| has_key(s, k) implies #[trigger] entries_map(s).contains_key(
            k,
        ) by {
            let i = choose|i: int| 0 <= i < s.len() && key_at(s, i) == k;
            if i < s.len() - 1 {
                assert(key_at(dl, i) == k);
                assert(entries_map(dl).contains_key(k));
            }
        };
    }
}

proof fn lemma_entries_map_get(s: Seq<(String, Concept)>, i: int)
    requires
        keys_distinct(s),
        0 <= i < s.len(),
    ensures
        entries_map(s).contains_key(key_at(s, i)),
        entries_map(s)[key_at(s, i)] == s[i].1@,
    decreases s.len(),
{
    let dl = s.drop_last();
    if i < s.len() - 1 {
        assert(keys_distinct(dl)) by {
            assert(forall|a: int, b: int|
                0 <= a < b < dl.len() ==> key_at(dl, a) == key_at(s, a) && key_at(dl, b) == key_at(
                    s,
                    b,
                ));
        };
        lemma_entries_map_get(dl, i);
        assert(key_at(dl, i) == key_at(s, i));
        assert(key_at(s, i) != key_at(s, s.len() - 1));
    }
}

proof fn lemma_entries_map_update(s: Seq<(String, Concept)>, i: int, p: (String, Concept))
    requires
        keys_distinct(s),
        0 <= i < s.len(),
        p.0@ == key_at(s, i),
    ensures
        entries_map(s.update(i, p)) == entries_map(s).insert(p.0@, p.1@),
    decreases s.len(),
{
    let su = s.update(i, p);
    let dl = s.drop_last();
    if i == s.len() - 1 {
        assert(su.drop_last() =~= dl);
        assert(su.last() == p);
        assert(entries_map(dl).insert(s.last().0@, s.last().1@).insert(p.0@, p.1@)
            =~= entries_map(dl).insert(p.0@, p.1@));
    } else {
        assert(keys_distinct(dl)) by {
            assert(forall|a: int, b: int|
                0 <= a < b < dl.len() ==> key_at(dl, a) == key_at(s, a) && key_at(dl, b) == key_at(
                    s,
                    b,
                ));
        };
        assert(key_at(dl, i) == key_at(s, i));
        lemma_entries_map_update(dl, i, p);
        assert(su.drop_last() =~= dl.update(i, p));
        assert(su.last() == s.last());
        assert(key_at(s, i) != key_at(s, s.len() - 1));
        assert(entries_map(dl).insert(p.0@, p.1@).insert(s.last().0@, s.last().1@)
            =~= entries_map(dl).insert(s.last().0@, s.last().1@).insert(p.0@, p.1@));
    }
}

proof fn lemma_entries_map_push(s: Seq<(String, Concept)>, p: (String, Concept))
    ensures
        entries_map(s.push(p)) == entries_map(s).insert(p.0@, p.1@),
{
    assert(s.push(p).drop_last() =~= s);
    assert(s.push(p).last() == p);
}

proof fn lemma_wf_entry_update(s: Seq<(String, Concept)>, i: int, p: (String, Concept))
    requires
        keys_distinct(s),
        forall|j: int| 0 <= j < s.len() ==> concept_wf(#[trigger] s[j].1@),
        0 <= i < s.len(),
        p.0@ == key_at(s, i),
        concept_wf(p.1@),
    ensures
        keys_distinct(s.update(i, p)),
        forall|j: int| 0 <= j < s.update(i, p).len() ==> concept_wf(#[trigger] s.update(i, p)[j].1@),
{
    let su = s.update(i, p);
    assert(forall|j: int| 0 <= j < su.len() ==> key_at(su, j) == key_at(s, j));
    assert forall|a: int, b: int| 0 <= a < b < su.len() implies key_at(su, a) != key_at(su, b) by {
        assert(key_at(s, a) != key_at(s, b));
    };
    assert forall|j: int| 0 <= j < su.len() implies concept_wf(#[trigger] su[j].1@) by {
        if j != i {
            assert(su[j] == s[j]);
        }
    };
}

proof fn lemma_no_dups_insert_unique(s: Seq<Seq<char>>, x: Seq<char>)
    requires
        no_dups(s),
    ensures
        no_dups(insert_unique(s, x)),
{
    if !s.contains(x) {
        let su = s.push(x);
        assert forall|a: int, b: int| 0 <= a < b < su.len() implies su[a] != su[b] by {
            if b == s.len() {
                if s[a] == x {
                    assert(s.contains(x));
                }
            }
        };
    }
}

/// Shared tail of every graph mutation: entry `i` of the list `smid` (the
/// state right after get-or-create on key `ck` over the original map `m0`)
/// is replaced by `p`, which carries the same name and a well-formed concept.
proof fn lemma_entry_update_chain(
    m0: Map<Seq<char>, ConceptView>,
    ck: Seq<char>,
    smid: Seq<(String, Concept)>,
    i: int,
    p: (String, Concept),
    s2: Seq<(String, Concept)>,
)
    requires
        keys_distinct(smid),
        forall|j: int| 0 <= j < smid.len() ==> concept_wf(#[trigger] smid[j].1@),
        0 <= i < smid.len(),
        key_at(smid, i) == ck,
        p.0 == smid[i].0,
        concept_wf(p.1@),
        entries_map(smid) == spec_add_concept(m0, ck),
        s2 == smid.remove(i).insert(i, p),
    ensures
        keys_distinct(s2),
        forall|j: int| 0 <= j < s2.len() ==> concept_wf(#[trigger] s2[j].1@),
        entries_map(s2) == m0.insert(ck, p.1@),
{
    assert(s2 =~= smid.update(i, p));
    lemma_wf_entry_update(smid, i, p);
    lemma_entries_map_update(smid, i, p);
    assert(m0.insert(ck, get_or_empty(m0, ck)).insert(ck, p.1@) =~= m0.insert(ck, p.1@));
}

/// True exactly when some element of `v` equals `x` as a string.
pub(crate) fn vec_contains_string(v: &Vec<String>, x: &String) -> (r: bool)
    ensures
        r == v.deep_view().contains(x@),
{
    let n = v.len();
    let mut i: usize = 0;
    while i < n
        invariant
            i <= n,
            n == v@.len(),
            forall|j: int| 0 <= j < i ==> v.deep_view()[j] != x@,
        decreases n - i,
    {
        if v[i] == *x {
            proof {
                assert(v.deep_view()[i as int] == x@);
            }
            return true;
        }
        i += 1;
    }
    false
}

/// The knowledge graph: a mapping from concept names to concepts. Entries are
/// only ever created or extended; nothing is deleted during a run.
pub struct Knowledge {
    concepts: Vec<(String, Concept)>,
}

impl View for Knowledge {
    type V = Map<Seq<char>, ConceptView>;

    closed spec fn view(&self) -> Map<Seq<char>, ConceptView> {
        entries_map(self.concepts@)
    }
}

impl Knowledge {
    /// Names are pairwise distinct and every stored concept is duplicate-free.
    pub closed spec fn wf(&self) -> bool {
        &&& keys_distinct(self.concepts@)
        &&& forall|i: int|
            0 <= i < self.concepts@.len() ==> concept_wf(#[trigger] self.concepts@[i].1@)
    }

    /// The entries in their insertion order: name and concept image.
    pub closed spec fn entries(&self) -> Seq<(Seq<char>, ConceptView)> {
        Seq::new(self.concepts@.len(), |i: int| (self.concepts@[i].0@, self.concepts@[i].1@))
    }

    pub fn new() -> (r: Knowledge)
        ensures
            r@ == Map::<Seq<char>, ConceptView>::empty(),
            r.wf(),
            r.entries().len() == 0,
    {
        Knowledge { concepts: Vec::new() }
    }

    /// Position of the entry named `name`, if one exists.
    fn find_index(&self, name: &String) -> (r: Option<usize>)
        ensures
            match r {
                Some(i) => i < self.concepts@.len() && key_at(self.concepts@, i as int) == name@,
                None => !has_key(self.concepts@, name@),
            },
    {
        let n = self.concepts.len();
        let mut i: usize = 0;
        while i < n
            invariant
                i <= n,
                n == self.concepts@.len(),
                forall|j: int| 0 <= j < i ==> key_at(self.concepts@, j) != name@,
            decreases n - i,
        {
            if self.concepts[i].0 == *name {
                return Some(i);
            }
            i += 1;
        }
        None
    }

    /// Get-or-create: afterwards an entry named `name` stands at position `i`,
    /// holding what the map held before (or the empty concept).
    fn ensure_entry(&mut self, name: String) -> (i: usize)
        requires
            old(self).wf(),
        ensures
            final(self).wf(),
            final(self)@ == spec_add_concept(old(self)@, name@),
            i < final(self).concepts@.len(),
            key_at(final(self).concepts@, i as int) == name@,
            final(self).concepts@[i as int].1@ == get_or_empty(old(self)@, name@),
            keys_distinct(final(self).concepts@),
    {
        proof {
            lemma_entries_map_dom(self.concepts@);
        }
        match self.find_index(&name) {
            Some(i) => {
                proof {
                    lemma_entries_map_get(self.concepts@, i as int);
                    assert(self@.insert(name@, self@[name@]) =~= self@);
                }
                i
            },
            None => {
                let c = Concept {
                    definition: None,
                    examples: Vec::new(),
                    related_concepts: Vec::new(),
                    subtopics: Vec::new(),
                };
                let ghost s0 = self.concepts@;
                let ghost nv = name@;
                let i = self.concepts.len();
                self.concepts.push((name, c));
                proof {
                    lemma_entries_map_push(s0, self.concepts@.last());
                    assert(self.concepts@[i as int] == self.concepts@.last());
                    assert(self.concepts@.last().1@ =~= empty_concept_view());
                    assert forall|a: int, b: int|
                        0 <= a < b < self.concepts@.len() implies key_at(self.concepts@, a)
                        != key_at(self.concepts@, b) by {
                        assert(key_at(self.concepts@, a) == key_at(s0, a));
                        if b < i as int {
                            assert(key_at(self.concepts@, b) == key_at(s0, b));
                        } else {
                            assert(key_at(self.concepts@, b) == nv);
                            if key_at(s0, a) == nv {
                                assert(has_key(s0, nv));
                            }
                        }
                    };
                }
                i
            },
        }
    }

    /// Remove the entry at position `i` and hand it out for modification.
    fn take_entry_at(&mut self, i: usize) -> (pair: (String, Concept))
        requires
            i < old(self).concepts@.len(),
        ensures
            pair == old(self).concepts@[i as int],
            final(self).concepts@ == old(self).concepts@.remove(i as int),
    {
        self.concepts.remove(i)
    }

    /// Put a modified entry back at position `i`: together with
    /// `take_entry_at` this updates one position in place.
    fn put_entry_at(&mut self, i: usize, pair: (String, Concept))
        requires
            i <= old(self).concepts@.len(),
        ensures
            final(self).concepts@ == old(self).concepts@.insert(i as int, pair),
    {
        self.concepts.insert(i, pair);
    }

    /// Ensure an entry for `concept` exists; its contents are untouched.
    pub fn add_concept(&mut self, concept: String)
        requires
            old(self).wf(),
        ensures
            final(self).wf(),
            final(self)@ == spec_add_concept(old(self)@, concept@),
    {
        self.ensure_entry(concept);
    }

    /// Record `related` as a related concept of `concept`. The edge is one
    /// directional datum of `concept`; no entry is created for `related`.
    pub fn add_related_concept(&mut self, concept: &str, related: String)
        requires
            old(self).wf(),
        ensures
            final(self).wf(),
            final(self)@ == spec_add_related(old(self)@, concept@, related@),
    {
        let ghost m0 = self@;
        let ghost ck = concept@;
        let ghost rv = related@;
        let i = self.ensure_entry(concept.to_owned());
        let ghost smid = self.concepts@;
        let ghost goe = get_or_empty(m0, ck);
        let (name0, mut c) = self.take_entry_at(i);
        let ghost dv0 = c.related_concepts.deep_view();
        if !vec_contains_string(&c.related_concepts, &related) {
            c.related_concepts.push(related);
            proof {
                assert(c.related_concepts.deep_view() =~= dv0.push(rv));
            }
        }
        let ghost pg = (name0, c);
        self.put_entry_at(i, (name0, c));
        proof {
            assert(concept_wf(smid[i as int].1@));
            lemma_no_dups_insert_unique(goe.related_concepts, rv);
            assert(pg.1@ =~= ConceptView {
                definition: goe.definition,
                examples: goe.examples,
                related_concepts: insert_unique(goe.related_concepts, rv),
                subtopics: goe.subtopics,
            });
            lemma_entry_update_chain(m0, ck, smid, i as int, pg, self.concepts@);
        }
    }

    /// Set (or overwrite) the definition of `concept`: the last write wins.
    pub fn add_definition(&mut self, concept: String, definition: String)
        requires
            old(self).wf(),
        ensures
            final(self).wf(),
            final(self)@ == spec_add_definition(old(self)@, concept@, definition@),
    {
        let ghost m0 = self@;
        let ghost ck = concept@;
        let ghost dv = definition@;
        let i = self.ensure_entry(concept);
        let ghost smid = self.concepts@;
        let ghost goe = get_or_empty(m0, ck);
        let (name0, mut c) = self.take_entry_at(i);
        c.definition = Some(definition);
        let ghost pg = (name0, c);
        self.put_entry_at(i, (name0, c));
        proof {
            assert(concept_wf(smid[i as int].1@));
            assert(pg.1@ =~= ConceptView {
                definition: Some(dv),
                examples: goe.examples,
                related_concepts: goe.related_concepts,
                subtopics: goe.subtopics,
            });
            lemma_entry_update_chain(m0, ck, smid, i as int, pg, self.concepts@);
        }
    }

    /// Add `example` to the example set of `concept`.
    pub fn add_example(&mut self, concept: &str, example: String)
        requires
            old(self).wf(),
        ensures
            final(self).wf(),
            final(self)@ == spec_add_example(old(self)@, concept@, example@),
    {
        let ghost m0 = self@;
        let ghost ck = concept@;
        let ghost ev = example@;
        let i = self.ensure_entry(concept.to_owned());
        let ghost smid = self.concepts@;
        let ghost goe = get_or_empty(m0, ck);
        let (name0, mut c) = self.take_entry_at(i);
        let ghost dv0 = c.examples.deep_view();
        if !vec_contains_string(&c.examples, &example) {
            c.examples.push(example);
            proof {
                assert(c.examples.deep_view() =~= dv0.push(ev));
            }
        }
        let ghost pg = (name0, c);
        self.put_entry_at(i, (name0, c));
        proof {
            assert(concept_wf(smid[i as int].1@));
            lemma_no_dups_insert_unique(goe.examples, ev);
            assert(pg.1@ =~= ConceptView {
                definition: goe.definition,
                examples: insert_unique(goe.examples, ev),
                related_concepts: goe.related_concepts,
                subtopics: goe.subtopics,
            });
            lemma_entry_update_chain(m0, ck, smid, i as int, pg, self.concepts@);
        }
    }

    /// Add `subtopic` to the subtopic set of `concept`.
    pub fn add_subtopic(&mut self, concept: &str, subtopic: String)
        requires
            old(self).wf(),
        ensures
            final(self).wf(),
            final(self)@ == spec_add_subtopic(old(self)@, concept@, subtopic@),
    {
        let ghost m0 = self@;
        let ghost ck = concept@;
        let ghost sv = subtopic@;
        let i = self.ensure_entry(concept.to_owned());
        let ghost smid = self.concepts@;
        let ghost goe = get_or_empty(m0, ck);
        let (name0, mut c) = self.take_entry_at(i);
        let ghost dv0 = c.subtopics.deep_view();
        if !vec_contains_string(&c.subtopics, &subtopic) {
            c.subtopics.push(subtopic);
            proof {
                assert(c.subtopics.deep_view() =~= dv0.push(sv));
            }
        }
        let ghost pg = (name0, c);
        self.put_entry_at(i, (name0, c));
        proof {
            assert(concept_wf(smid[i as int].1@));
            lemma_no_dups_insert_unique(goe.subtopics, sv);
            assert(pg.1@ =~= ConceptView {
                definition: goe.definition,
                examples: goe.examples,
                related_concepts: goe.related_concepts,
                subtopics: insert_unique(goe.subtopics, sv),
            });
            lemma_entry_update_chain(m0, ck, smid, i as int, pg, self.concepts@);
        }
    }

    /// The concept stored under `name`, if one exists.
    pub fn lookup(&self, name: &str) -> (r: Option<&Concept>)
        requires
            self.wf(),
        ensures
            match r {
                Some(c) => self@.contains_key(name@) && c@ == self@[name@],
                None => !self@.contains_key(name@),
            },
    {
        proof {
            lemma_entries_map_dom(self.concepts@);
        }
        match self.find_index(&name.to_owned()) {
            Some(i) => {
                proof {
                    lemma_entries_map_get(self.concepts@, i as int);
                }
                Some(&self.concepts[i].1)
            },
            None => None,
        }
    }

    /// How many entries the graph holds.
    pub fn num_entries(&self) -> (n: usize)
        ensures
            n == self.entries().len(),
    {
        self.concepts.len()
    }

    /// The name of the entry at position `i` (insertion order).
    pub fn name_at(&self, i: usize) -> (r: &String)
        requires
            i < self.entries().len(),
        ensures
            r@ == self.entries()[i as int].0,
    {
        &self.concepts[i].0
    }

    /// The concept of the entry at position `i` (insertion order).
    pub fn concept_at(&self, i: usize) -> (r: &Concept)
        requires
            i < self.entries().len(),
        ensures
            r@ == self.entries()[i as int].1,
    {
        &self.concepts[i].1
    }
}

impl Default for Knowledge {
    fn default() -> (r: Knowledge)
        ensures
            r@ == Map::<Seq<char>, ConceptView>::empty(),
            r.wf(),
            r.entries().len() == 0,
    {
        Knowledge::new()
    }
}

/// The entry list and the map view agree: entry names are pairwise distinct,
/// every entry stands in the map under its name, and every key of the map
/// names some entry — so the list holds exactly one entry per key.
pub proof fn lemma_entries_agree_with_view(k: Knowledge)
    requires
        k.wf(),
    ensures
        forall|i: int, j: int|
            0 <= i < j < k.entries().len() ==> k.entries()[i].0 != k.entries()[j].0,
        forall|i: int|
            0 <= i < k.entries().len() ==> k@.contains_key(#[trigger] k.entries()[i].0)
                && k@[k.entries()[i].0] == k.entries()[i].1,
        forall|key: Seq<char>|
            #[trigger] k@.contains_key(key) ==> exists|i: int|
                0 <= i < k.entries().len() && k.entries()[i].0 == key,
{
    assert forall|i: int, j: int| 0 <= i < j < k.entries().len() implies k.entries()[i].0
        != k.entries()[j].0 by {
        assert(k.entries()[i].0 == key_at(k.concepts@, i));
        assert(k.entries()[j].0 == key_at(k.concepts@, j));
    };
    lemma_entries_map_dom(k.concepts@);
    assert forall|i: int| 0 <= i < k.entries().len() implies k@.contains_key(
        #[trigger] k.entries()[i].0,
    ) && k@[k.entries()[i].0] == k.entries()[i].1 by {
        lemma_entries_map_get(k.concepts@, i);
        assert(k.entries()[i].0 == key_at(k.concepts@, i));
    };
    assert forall|key: Seq<char>| #[trigger] k@.contains_key(key) implies exists|i: int|
        0 <= i < k.entries().len() && k.entries()[i].0 == key by {
        let i = choose|i: int| 0 <= i < k.concepts@.len() && key_at(k.concepts@, i) == key;
        assert(k.entries()[i].0 == key);
    };
}

/// Law: a related-concept edge is a forward reference, not an entry. Adding
/// `related` as a related concept of `concept` creates an entry for `concept`
/// alone; a name that was absent stays absent unless it is `concept` itself.
pub proof fn lemma_forward_reference_creates_no_entry(
    m: Map<Seq<char>, ConceptView>,
    concept: Seq<char>,
    related: Seq<char>,
)
    ensures
        forall|k: Seq<char>|
            #[trigger] spec_add_related(m, concept, related).contains_key(k) <==> (m.contains_key(k)
                || k == concept),
        related != concept && !m.contains_key(related)
            ==> !spec_add_related(m, concept, related).contains_key(related),
{
}

} // verus!
