use vstd::prelude::*;
use vstd::string::StringExecFns;

use crate::graph::Concept;
use crate::graph::ConceptView;
use crate::graph::Knowledge;

verus! {

/// One indented list: a `    - item` line per element, in stored order.
pub open spec fn render_items(items: Seq<Seq<char>>) -> Seq<char>
    decreases items.len(),
{
    if items.len() == 0 {
        Seq::empty()
    } else {
        render_items(items.drop_last()) + "    - "@ + items.last() + "\n"@
    }
}

/// The record written for one concept: the header line, then each section
/// only when it has content, then a blank separator line.
pub open spec fn render_concept(name: Seq<char>, c: ConceptView) -> Seq<char> {
    "Concept: "@ + name + "\n"@ + (match c.definition {
        Some(d) => "  Definition: "@ + d + "\n"@,
        None => Seq::<char>::empty(),
    }) + (if c.examples.len() == 0 {
        Seq::<char>::empty()
    } else {
        "  Examples:\n"@ + render_items(c.examples)
    }) + (if c.related_concepts.len() == 0 {
        Seq::<char>::empty()
    } else {
        "  Related Concepts:\n"@ + render_items(c.related_concepts)
    }) + (if c.subtopics.len() == 0 {
        Seq::<char>::empty()
    } else {
        "  Subtopics:\n"@ + render_items(c.subtopics)
    }) + "\n"@
}

/// The whole output artifact: one record per entry, in insertion order.
pub open spec fn render_entries(entries: Seq<(Seq<char>, ConceptView)>) -> Seq<char>
    decreases entries.len(),
{
    if entries.len() == 0 {
        Seq::empty()
    } else {
        render_entries(entries.drop_last()) + render_concept(
            entries.last().0,
            entries.last().1,
        )
    }
}

fn append_items(out: &mut String, items: &Vec<String>)
    ensures
        final(out)@ == old(out)@ + render_items(items.deep_view()),
{
    let ghost base = out@;
    let ghost dv = items.deep_view();
    let n = items.len();
    let mut i: usize = 0;
    proof {
        assert(dv.take(0) =~= Seq::<Seq<char>>::empty());
        assert(base + render_items(dv.take(0)) =~= base);
    }
    while i < n
        invariant
            base == old(out)@,
            dv == items.deep_view(),
            n == items@.len(),
            i <= n,
            out@ == base + render_items(dv.take(i as int)),
        decreases n - i,
    {
        out.append("    - ");
        out.append(items[i].as_str());
        out.append("\n");
        proof {
            assert(dv.take(i as int + 1).drop_last() =~= dv.take(i as int));
            assert(dv.take(i as int + 1).last() == dv[i as int]);
            assert(out@ =~= base + render_items(dv.take(i as int + 1)));
        }
        i += 1;
    }
    proof {
        assert(dv.take(n as int) =~= dv);
    }
}

#[verifier::rlimit(50)]
fn append_concept(out: &mut String, name: &String, c: &Concept)
    ensures
        final(out)@ == old(out)@ + render_concept(name@, c@),
{
    let ghost base = out@;
    out.append("Concept: ");
    out.append(name.as_str());
    out.append("\n");
    let ghost part_header = "Concept: "@ + name@ + "\n"@;
    proof {
        assert(out@ =~= base + part_header);
    }
    match &c.definition {
        Some(d) => {
            out.append("  Definition: ");
            out.append(d.as_str());
            out.append("\n");
        },
        None => {},
    }
    let ghost part_def = (match c@.definition {
        Some(d) => "  Definition: "@ + d + "\n"@,
        None => Seq::<char>::empty(),
    });
    proof {
        assert(out@ =~= base + part_header + part_def);
    }
    if c.examples.len() > 0 {
        out.append("  Examples:\n");
        append_items(out, &c.examples);
    }
    let ghost part_ex = (if c@.examples.len() == 0 {
        Seq::<char>::empty()
    } else {
        "  Examples:\n"@ + render_items(c@.examples)
    });
    proof {
        assert(out@ =~= base + part_header + part_def + part_ex);
    }
    if c.related_concepts.len() > 0 {
        out.append("  Related Concepts:\n");
        append_items(out, &c.related_concepts);
    }
    let ghost part_rel = (if c@.related_concepts.len() == 0 {
        Seq::<char>::empty()
    } else {
        "  Related Concepts:\n"@ + render_items(c@.related_concepts)
    });
    proof {
        assert(out@ =~= base + part_header + part_def + part_ex + part_rel);
    }
    if c.subtopics.len() > 0 {
        out.append("  Subtopics:\n");
        append_items(out, &c.subtopics);
    }
    let ghost part_sub = (if c@.subtopics.len() == 0 {
        Seq::<char>::empty()
    } else {
        "  Subtopics:\n"@ + render_items(c@.subtopics)
    });
    proof {
        assert(out@ =~= base + part_header + part_def + part_ex + part_rel + part_sub);
    }
    out.append("\n");
    proof {
        assert(render_concept(name@, c@) =~= part_header + part_def + part_ex + part_rel
            + part_sub + "\n"@);
        assert(out@ =~= base + (part_header + part_def + part_ex + part_rel + part_sub + "\n"@));
    }
}

/// Produce the text of the output artifact for the whole graph, one record
/// per concept in insertion order. Writing it to disk is the caller's affair.
pub fn render(k: &Knowledge) -> (r: String)
    ensures
        r@ == render_entries(k.entries()),
{
    let mut out = String::new();
    let n = k.num_entries();
    let mut i: usize = 0;
    proof {
        assert(k.entries().take(0) =~= Seq::<(Seq<char>, ConceptView)>::empty());
    }
    while i < n
        invariant
            n == k.entries().len(),
            i <= n,
            out@ == render_entries(k.entries().take(i as int)),
        decreases n - i,
    {
        append_concept(&mut out, k.name_at(i), k.concept_at(i));
        proof {
            assert(k.entries().take(i as int + 1).drop_last() =~= k.entries().take(i as int));
            assert(k.entries().take(i as int + 1).last() == k.entries()[i as int]);
        }
        i += 1;
    }
    proof {
        assert(k.entries().take(n as int) =~= k.entries());
    }
    out
}

} // verus!
