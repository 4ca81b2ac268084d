//! Building the graph from a sequence of text lines. Each line that parses
//! as an edge is inserted; every other line is skipped and reported by its
//! 1-based line number. A malformed line never aborts the load.

use vstd::prelude::*;
use crate::graph::{Graph, build_model, id_appears, lemma_build_model_edges, lemma_model_nodes};
use crate::parse::{line_edge, parse_edge_line};

verus! {

/// The lines as sequences of bytes.
pub open spec fn lines_view(lines: Seq<Vec<u8>>) -> Seq<Seq<u8>> {
    lines.map_values(|l: Vec<u8>| l@)
}

/// The edges of the lines that parse, in line order.
pub open spec fn parsed_edges(ls: Seq<Seq<u8>>) -> Seq<(u64, u64)>
    decreases ls.len(),
{
    if ls.len() == 0 {
        Seq::empty()
    } else {
        parsed_edges(ls.drop_last()) + (match line_edge(ls.last()) {
            Some(e) => seq![e],
            None => Seq::empty(),
        })
    }
}

/// The 1-based numbers of the lines that do not parse, in line order.
pub open spec fn skipped_line_numbers(ls: Seq<Seq<u8>>) -> Seq<int>
    decreases ls.len(),
{
    if ls.len() == 0 {
        Seq::empty()
    } else {
        skipped_line_numbers(ls.drop_last()) + (if line_edge(ls.last()) is Some {
            Seq::empty()
        } else {
            seq![ls.len() as int]
        })
    }
}

/// No more edges than lines.
pub proof fn lemma_parsed_edges_len(ls: Seq<Seq<u8>>)
    ensures
        parsed_edges(ls).len() <= ls.len(),
    decreases ls.len(),
{
    if ls.len() > 0 {
        lemma_parsed_edges_len(ls.drop_last());
    }
}

/// Load an edge list. Returns the populated graph and the 1-based numbers
/// of the skipped lines.
///
/// The graph is exactly the model built from the lines that parse: its
/// edge count is the number of successfully parsed lines, and its nodes
/// are the distinct external identifiers seen across those lines, each
/// exactly once.
pub fn load_edge_list(lines: &Vec<Vec<u8>>) -> (r: (Graph, Vec<usize>))
    ensures
        r.0.wf(),
        r.0.model() == build_model(parsed_edges(lines_view(lines@))),
        r.0.spec_edge_count() == parsed_edges(lines_view(lines@)).len(),
        forall|id: u64|
            r.0.ext().contains(id) <==> id_appears(parsed_edges(lines_view(lines@)), id),
        r.1@.map_values(|x: usize| x as int) == skipped_line_numbers(lines_view(lines@)),
{
    let n = lines.len();
    let mut g = Graph::new();
    let mut skipped: Vec<usize> = Vec::new();
    let mut i: usize = 0;
    proof {
        assert(lines_view(lines@).subrange(0, 0) =~= Seq::<Seq<u8>>::empty());
        assert(skipped@.map_values(|x: usize| x as int) =~= Seq::<int>::empty());
    }
    while i < n
        invariant
            n == lines@.len(),
            i <= n,
            g.wf(),
            g.model() == build_model(parsed_edges(lines_view(lines@).subrange(0, i as int))),
            g.spec_edge_count() == parsed_edges(
                lines_view(lines@).subrange(0, i as int),
            ).len(),
            skipped@.map_values(|x: usize| x as int) == skipped_line_numbers(
                lines_view(lines@).subrange(0, i as int),
            ),
        decreases n - i,
    {
        let ghost ls = lines_view(lines@);
        let ghost pre = ls.subrange(0, i as int);
        let ghost post = ls.subrange(0, i + 1);
        proof {
            assert(post.drop_last() =~= pre);
            assert(post.last() == lines@[i as int]@);
        }
        match parse_edge_line(&lines[i]) {
            Some(e) => {
                proof {
                    assert(parsed_edges(post) =~= parsed_edges(pre).push(e));
                    assert(parsed_edges(pre).push(e).drop_last() =~= parsed_edges(pre));
                    lemma_parsed_edges_len(pre);
                    assert(skipped_line_numbers(post) =~= skipped_line_numbers(pre));
                }
                g.insert_edge(e.0, e.1);
            },
            None => {
                proof {
                    assert(parsed_edges(post) =~= parsed_edges(pre));
                }
                let ghost skipped_before = skipped@.map_values(|x: usize| x as int);
                skipped.push(i + 1);
                proof {
                    assert(skipped@.map_values(|x: usize| x as int) =~= skipped_before.push(
                        i + 1,
                    ));
                    assert(skipped_line_numbers(post) =~= skipped_line_numbers(pre).push(
                        post.len() as int,
                    ));
                }
            },
        }
        i += 1;
    }
    proof {
        assert(lines_view(lines@).subrange(0, n as int) =~= lines_view(lines@));
        lemma_model_nodes(parsed_edges(lines_view(lines@)));
        lemma_build_model_edges(parsed_edges(lines_view(lines@)));
    }
    (g, skipped)
}

} // verus!
