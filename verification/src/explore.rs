use vstd::prelude::*;

use crate::graph::Knowledge;
use crate::graph::ConceptView;
use crate::graph::no_dups;
use crate::graph::vec_contains_string;

verus! {

/// Insertion into the worklist: a name already explored, or already waiting
/// in the frontier, is suppressed; a new name is pushed onto the stack.
pub open spec fn spec_push_if_new(
    explored: Seq<Seq<char>>,
    frontier: Seq<Seq<char>>,
    name: Seq<char>,
) -> Seq<Seq<char>> {
    if explored.contains(name) || frontier.contains(name) {
        frontier
    } else {
        frontier.push(name)
    }
}

/// Insertion of a batch of names, first to last.
pub open spec fn spec_push_all(
    explored: Seq<Seq<char>>,
    frontier: Seq<Seq<char>>,
    names: Seq<Seq<char>>,
) -> Seq<Seq<char>>
    decreases names.len(),
{
    if names.len() == 0 {
        frontier
    } else {
        spec_push_if_new(explored, spec_push_all(explored, frontier, names.drop_last()), names.last())
    }
}

/// Seeding the worklist from the graph: every stored concept name except the
/// distinguished root is offered to the frontier, first to last.
pub open spec fn spec_seed(
    explored: Seq<Seq<char>>,
    frontier: Seq<Seq<char>>,
    names: Seq<Seq<char>>,
    root: Seq<char>,
) -> Seq<Seq<char>>
    decreases names.len(),
{
    if names.len() == 0 {
        frontier
    } else {
        let f2 = spec_seed(explored, frontier, names.drop_last(), root);
        if names.last() == root {
            f2
        } else {
            spec_push_if_new(explored, f2, names.last())
        }
    }
}

/// Taking the next work item: pop names off the top of the stack, skipping
/// any that were already explored, until an unexplored one appears; that name
/// is marked explored and handed out. Yields the explored set, the frontier
/// and the chosen name after the step.
pub open spec fn spec_next(
    explored: Seq<Seq<char>>,
    frontier: Seq<Seq<char>>,
) -> (Seq<Seq<char>>, Seq<Seq<char>>, Option<Seq<char>>)
    decreases frontier.len(),
{
    if frontier.len() == 0 {
        (explored, frontier, None)
    } else {
        let n = frontier.last();
        if explored.contains(n) {
            spec_next(explored, frontier.drop_last())
        } else {
            (explored.push(n), frontier.drop_last(), Some(n))
        }
    }
}

/// Law: no concept is ever queried twice. A name handed out by the worklist
/// was never explored before, is explored afterwards, and the explored set
/// only ever grows — so the explored set counts exactly the distinct names
/// handed out. When nothing is handed out, the explored set is unchanged.
pub proof fn lemma_no_requery(explored: Seq<Seq<char>>, frontier: Seq<Seq<char>>)
    ensures
        spec_next(explored, frontier).2 matches Some(n) ==> !explored.contains(n) && spec_next(
            explored,
            frontier,
        ).0 == explored.push(n),
        spec_next(explored, frontier).2 is None ==> spec_next(explored, frontier).0 == explored,
        forall|x: Seq<char>|
            explored.contains(x) ==> spec_next(explored, frontier).0.contains(x),
    decreases frontier.len(),
{
    if frontier.len() > 0 {
        let n = frontier.last();
        if explored.contains(n) {
            lemma_no_requery(explored, frontier.drop_last());
        } else {
            assert forall|x: Seq<char>| explored.contains(x) implies explored.push(n).contains(
                x,
            ) by {
                let i = choose|i: int| 0 <= i < explored.len() && explored[i] == x;
                assert(explored.push(n)[i] == x);
            };
        }
    }
}

/// Law: the worklist makes progress. A non-empty frontier strictly shrinks at
/// every step, and an empty frontier ends exploration with nothing handed
/// out; the frontier alone is the termination signal.
pub proof fn lemma_next_progress(explored: Seq<Seq<char>>, frontier: Seq<Seq<char>>)
    ensures
        frontier.len() > 0 ==> spec_next(explored, frontier).1.len() < frontier.len(),
        frontier.len() == 0 ==> spec_next(explored, frontier).2 is None,
    decreases frontier.len(),
{
    if frontier.len() > 0 && explored.contains(frontier.last()) {
        lemma_next_progress(explored, frontier.drop_last());
    }
}

/// Controller-owned exploration state: the names already queried and the
/// ordered worklist of names pending a query, processed last-in-first-out.
pub struct ExplorationState {
    explored: Vec<String>,
    frontier: Vec<String>,
}

impl ExplorationState {
    /// Names already queried, in the order they were taken.
    pub closed spec fn explored(&self) -> Seq<Seq<char>> {
        self.explored.deep_view()
    }

    /// Names pending a query; the last element is taken first.
    pub closed spec fn frontier(&self) -> Seq<Seq<char>> {
        self.frontier.deep_view()
    }

    /// Both lists are duplicate-free and nothing pending was already queried.
    pub closed spec fn wf(&self) -> bool {
        &&& no_dups(self.explored())
        &&& no_dups(self.frontier())
        &&& forall|x: Seq<char>| self.frontier().contains(x) ==> !self.explored().contains(x)
    }

    pub fn new() -> (r: ExplorationState)
        ensures
            r.explored() == Seq::<Seq<char>>::empty(),
            r.frontier() == Seq::<Seq<char>>::empty(),
            r.wf(),
    {
        let r = ExplorationState { explored: Vec::new(), frontier: Vec::new() };
        proof {
            assert(r.explored() =~= Seq::<Seq<char>>::empty());
            assert(r.frontier() =~= Seq::<Seq<char>>::empty());
        }
        r
    }

    /// Schedule `name` unless it was already queried or is already waiting.
    pub fn push_if_new(&mut self, name: String)
        requires
            old(self).wf(),
        ensures
            final(self).wf(),
            final(self).explored() == old(self).explored(),
            final(self).frontier() == spec_push_if_new(
                old(self).explored(),
                old(self).frontier(),
                name@,
            ),
    {
        let in_explored = vec_contains_string(&self.explored, &name);
        let in_frontier = vec_contains_string(&self.frontier, &name);
        if !in_explored && !in_frontier {
            let ghost f0 = self.frontier();
            let ghost nv = name@;
            self.frontier.push(name);
            proof {
                assert(self.frontier() =~= f0.push(nv));
                assert forall|a: int, b: int|
                    0 <= a < b < self.frontier().len() implies self.frontier()[a]
                    != self.frontier()[b] by {
                    if b == f0.len() {
                        if f0[a] == nv {
                            assert(f0.contains(nv));
                        }
                    }
                };
                assert forall|x: Seq<char>| self.frontier().contains(x) implies !self.explored()
                    .contains(x) by {
                    let i = choose|i: int|
                        0 <= i < self.frontier().len() && self.frontier()[i] == x;
                    if i < f0.len() {
                        assert(f0[i] == x);
                        assert(f0.contains(x));
                    }
                };
            }
        }
    }

    /// Take the next name to query: pop until an unexplored name appears,
    /// mark it explored, and hand it out; `None` when the frontier is empty.
    pub fn next_to_explore(&mut self) -> (r: Option<String>)
        requires
            old(self).wf(),
        ensures
            final(self).wf(),
            final(self).explored() == spec_next(old(self).explored(), old(self).frontier()).0,
            final(self).frontier() == spec_next(old(self).explored(), old(self).frontier()).1,
            (match r {
                Some(n) => spec_next(old(self).explored(), old(self).frontier()).2 == Some(n@),
                None => spec_next(old(self).explored(), old(self).frontier()).2 is None,
            }),
    {
        let ghost e0 = self.explored();
        let ghost f0 = self.frontier();
        loop
            invariant
                e0 == old(self).explored(),
                f0 == old(self).frontier(),
                self.wf(),
                self.explored() == e0,
                spec_next(e0, self.frontier()) == spec_next(e0, f0),
            decreases self.frontier().len(),
        {
            let ghost fprev = self.frontier();
            match self.frontier.pop() {
                None => {
                    proof {
                        assert(self.frontier().len() == 0);
                        assert(spec_next(e0, self.frontier()) == (
                            e0,
                            self.frontier(),
                            Option::<Seq<char>>::None,
                        ));
                    }
                    return None;
                },
                Some(name) => {
                    proof {
                        assert(self.frontier() =~= fprev.drop_last());
                        assert(name@ == fprev.last());
                    }
                    if !vec_contains_string(&self.explored, &name) {
                        let out = name.clone();
                        let ghost nv = name@;
                        proof {
                            assert(fprev.len() > 0 && fprev.last() == nv && !e0.contains(nv));
                            assert(spec_next(e0, fprev) == (
                                e0.push(nv),
                                fprev.drop_last(),
                                Some(nv),
                            ));
                        }
                        self.explored.push(name);
                        proof {
                            assert(self.explored() =~= e0.push(nv));
                            assert forall|a: int, b: int|
                                0 <= a < b < self.explored().len() implies self.explored()[a]
                                != self.explored()[b] by {
                                if b == e0.len() {
                                    if e0[a] == nv {
                                        assert(e0.contains(nv));
                                    }
                                }
                            };
                            assert forall|x: Seq<char>| self.frontier().contains(x)
                                implies !self.explored().contains(x) by {
                                let i = choose|i: int|
                                    0 <= i < self.frontier().len() && self.frontier()[i] == x;
                                assert(fprev[i] == x);
                                assert(fprev.contains(x));
                                if self.explored().contains(x) {
                                    let j = choose|j: int|
                                        0 <= j < self.explored().len() && self.explored()[j] == x;
                                    if j < e0.len() {
                                        assert(e0.contains(x));
                                    } else {
                                        // x would be the name just popped, which
                                        // a duplicate-free frontier holds once
                                        assert(x == nv);
                                        assert(fprev[fprev.len() - 1] == nv);
                                    }
                                }
                            };
                        }
                        return Some(out);
                    }
                    // A popped name that was already explored is skipped; under
                    // the state invariant this branch never fires, but the
                    // worklist tolerates it.
                },
            }
        }
    }

    /// Seed the worklist with every concept name of the graph except `root`.
    pub fn seed_from_graph(&mut self, k: &Knowledge, root: &str)
        requires
            old(self).wf(),
        ensures
            final(self).wf(),
            final(self).explored() == old(self).explored(),
            final(self).frontier() == spec_seed(
                old(self).explored(),
                old(self).frontier(),
                k.entries().map_values(|p: (Seq<char>, ConceptView)| p.0),
                root@,
            ),
    {
        let ghost e0 = self.explored();
        let ghost f0 = self.frontier();
        let ghost keys = k.entries().map_values(|p: (Seq<char>, ConceptView)| p.0);
        let n = k.num_entries();
        let root_string = root.to_owned();
        let mut i: usize = 0;
        while i < n
            invariant
                i <= n,
                n == k.entries().len(),
                keys == k.entries().map_values(|p: (Seq<char>, ConceptView)| p.0),
                root_string@ == root@,
                e0 == old(self).explored(),
                f0 == old(self).frontier(),
                self.wf(),
                self.explored() == e0,
                self.frontier() == spec_seed(e0, f0, keys.take(i as int), root@),
            decreases n - i,
        {
            let name = k.name_at(i);
            proof {
                assert(keys[i as int] == name@);
                assert(keys.take(i as int + 1).drop_last() =~= keys.take(i as int));
                assert(keys.take(i as int + 1).last() == keys[i as int]);
            }
            if !(*name == root_string) {
                self.push_if_new(name.clone());
            }
            i += 1;
        }
        proof {
            assert(keys.take(n as int) =~= keys);
        }
    }

    /// After `name` was processed and its insights merged, schedule every
    /// related concept now attached to it that is neither explored nor
    /// already waiting.
    pub fn enqueue_related(&mut self, k: &Knowledge, name: &str)
        requires
            old(self).wf(),
            k.wf(),
        ensures
            final(self).wf(),
            final(self).explored() == old(self).explored(),
            final(self).frontier() == spec_push_all(
                old(self).explored(),
                old(self).frontier(),
                (if k@.contains_key(name@) {
                    k@[name@].related_concepts
                } else {
                    Seq::<Seq<char>>::empty()
                }),
            ),
    {
        let ghost e0 = self.explored();
        let ghost f0 = self.frontier();
        match k.lookup(name) {
            None => {
                proof {
                    assert(spec_push_all(e0, f0, Seq::<Seq<char>>::empty()) == f0);
                }
            },
            Some(c) => {
                let ghost rel = k@[name@].related_concepts;
                let n = c.related_concepts.len();
                let mut i: usize = 0;
                while i < n
                    invariant
                        i <= n,
                        n == c.related_concepts@.len(),
                        rel == c.related_concepts.deep_view(),
                        e0 == old(self).explored(),
                        f0 == old(self).frontier(),
                        self.wf(),
                        self.explored() == e0,
                        self.frontier() == spec_push_all(e0, f0, rel.take(i as int)),
                    decreases n - i,
                {
                    let item = c.related_concepts[i].clone();
                    proof {
                        assert(rel.take(i as int + 1).drop_last() =~= rel.take(i as int));
                        assert(rel.take(i as int + 1).last() == rel[i as int]);
                        assert(item@ == rel[i as int]);
                    }
                    self.push_if_new(item);
                    i += 1;
                }
                proof {
                    assert(rel.take(n as int) =~= rel);
                }
            },
        }
    }
}

} // verus!
