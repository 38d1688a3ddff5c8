//! Deterministic serialization of a dependency subgraph into a
//! directed-graph text description: a strict digraph declaration, a
//! configurable layout direction, fixed presentational attributes, and
//! one edge statement per reference, emitted in the subgraph's
//! insertion order with escaped tokens.

use vstd::prelude::*;
use vstd::string::StringExecFns;
use crate::builder::{build, build_post, prefix_view};
use crate::escape::{escape, escape_seq};
use crate::module_map::ModuleMap;
use crate::rankdir::RankDir;

verus! {

/// The layout-direction attribute line.
pub open spec fn rankdir_line(rank_dir: RankDir) -> Seq<char> {
    match rank_dir {
        RankDir::LR => "  rankdir=LR;\n"@,
        RankDir::RL => "  rankdir=RL;\n"@,
        RankDir::TB => "  rankdir=TB;\n"@,
        RankDir::BT => "  rankdir=BT;\n"@,
    }
}

/// The strict digraph declaration.
pub open spec fn strict_declaration() -> Seq<char> {
    "strict digraph G {\n"@
}

/// Everything before the first edge statement: the strict declaration,
/// the layout direction, and the fixed styling attributes.
pub open spec fn header_text(rank_dir: RankDir) -> Seq<char> {
    strict_declaration() + rankdir_line(rank_dir) + "  graph [bgcolor=black];\n"@
        + "  graph [label=\"Orthogonal edges\", splines=ortho, nodesep=0.8];\n"@
        + "  edge [color=white];\n"@ + "  graph[ratio=fill,center=1];\n"@
        + "  node[style=filled, shape=box];\n"@
}

/// One edge statement, with both endpoint tokens escaped.
pub open spec fn edge_line(k: Seq<char>, r: Seq<char>) -> Seq<char> {
    "  \""@ + escape_seq(k) + "\" -> \""@ + escape_seq(r) + "\";\n"@
}

/// The edge statements of one entry's first `j` references.
pub open spec fn entry_text(k: Seq<char>, refs: Seq<Seq<char>>, j: int) -> Seq<char>
    decreases j,
{
    if j <= 0 {
        Seq::empty()
    } else {
        entry_text(k, refs, j - 1) + edge_line(k, refs[j - 1])
    }
}

/// The edge statements of the first `i` entries of the subgraph, in
/// insertion order.
pub open spec fn edges_text(g: ModuleMap, i: int) -> Seq<char>
    decreases i,
{
    if i <= 0 {
        Seq::empty()
    } else {
        edges_text(g, i - 1) + entry_text(g.key_at(i - 1), g.refs_at(i - 1), g.refs_at(i - 1).len() as int)
    }
}

/// The whole description for a subgraph and a layout direction.
pub open spec fn dot_text(g: ModuleMap, rank_dir: RankDir) -> Seq<char> {
    header_text(rank_dir) + edges_text(g, g.len_spec()) + "}"@
}

/// The description always begins with the strict digraph declaration,
/// so the layout engine represents duplicate edge statements by a
/// single edge.
pub proof fn lemma_strict_declaration(g: ModuleMap, rank_dir: RankDir)
    ensures
        dot_text(g, rank_dir).len() >= strict_declaration().len(),
        dot_text(g, rank_dir).take(strict_declaration().len() as int) == strict_declaration(),
{
    assert(dot_text(g, rank_dir).take(strict_declaration().len() as int) =~= strict_declaration());
}

/// Serialize a subgraph, emitting entries in insertion order.
#[verifier::loop_isolation(false)]
pub fn serialize(g: &ModuleMap, rank_dir: RankDir) -> (r: String)
    ensures
        r@ == dot_text(*g, rank_dir),
{
    let mut out = String::new();
    out.append("strict digraph G {\n");
    match rank_dir {
        RankDir::LR => out.append("  rankdir=LR;\n"),
        RankDir::RL => out.append("  rankdir=RL;\n"),
        RankDir::TB => out.append("  rankdir=TB;\n"),
        RankDir::BT => out.append("  rankdir=BT;\n"),
    }
    out.append("  graph [bgcolor=black];\n");
    out.append("  graph [label=\"Orthogonal edges\", splines=ortho, nodesep=0.8];\n");
    out.append("  edge [color=white];\n");
    out.append("  graph[ratio=fill,center=1];\n");
    out.append("  node[style=filled, shape=box];\n");
    proof {
        assert(out@ =~= header_text(rank_dir));
    }
    let n: usize = g.len();
    let mut i: usize = 0;
    while i < n
        invariant
            0 <= i <= n,
            out@ == header_text(rank_dir) + edges_text(*g, i as int),
        decreases n - i,
    {
        let key = g.entry_key(i);
        let refs = g.entry_refs(i);
        let ek = escape(key.as_str());
        let m: usize = refs.len();
        let mut j: usize = 0;
        while j < m
            invariant
                0 <= j <= m,
                ek@ == escape_seq(g.key_at(i as int)),
                out@ == header_text(rank_dir) + edges_text(*g, i as int) + entry_text(
                    g.key_at(i as int),
                    g.refs_at(i as int),
                    j as int,
                ),
            decreases m - j,
        {
            let er = escape(refs[j].as_str());
            out.append("  \"");
            out.append(ek.as_str());
            out.append("\" -> \"");
            out.append(er.as_str());
            out.append("\";\n");
            proof {
                assert(er@ == escape_seq(g.refs_at(i as int)[j as int]));
                assert(out@ =~= header_text(rank_dir) + edges_text(*g, i as int) + entry_text(
                    g.key_at(i as int),
                    g.refs_at(i as int),
                    j + 1,
                ));
            }
            j = j + 1;
        }
        proof {
            assert(out@ =~= header_text(rank_dir) + edges_text(*g, i + 1));
        }
        i = i + 1;
    }
    out.append("}");
    proof {
        assert(out@ =~= dot_text(*g, rank_dir));
    }
    out
}

/// Derive the subgraph for the given roots and bound and serialize it.
pub fn generate_dot_content(
    m: &ModuleMap,
    prefix: Option<&str>,
    max_depth: Option<usize>,
    rank_dir: RankDir,
) -> (r: String)
    requires
        m.wf(),
    ensures
        exists|g: ModuleMap|
            (#[trigger] build_post(*m, prefix_view(prefix), max_depth, g)) && r@
                == dot_text(g, rank_dir),
{
    let g = build(m, prefix, max_depth);
    let r = serialize(&g, rank_dir);
    proof {
        assert(build_post(*m, prefix_view(prefix), max_depth, g) && r@ == dot_text(
            g,
            rank_dir,
        ));
    }
    r
}

} // verus!
