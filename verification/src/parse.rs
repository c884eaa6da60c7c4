//! Indentation-driven tokenizer for the configuration dialect.

use vstd::prelude::*;
use crate::node::{SpannedNode, SpannedNodeBlock, SpannedNodeStmt, Node, NodeBlock, NodeStmt};
use crate::span::{LineNumber, Span};

verus! {

/// Mathematical model of a tokenized node.
pub enum SpecNode {
    Block { name: Seq<char>, span: Span, children: Seq<SpecNode> },
    Stmt { text: Seq<char>, span: Span },
}

/// Mathematical model of a node without position information.
pub enum PNode {
    Block { name: Seq<char>, children: Seq<PNode> },
    Stmt { text: Seq<char> },
}

/// Model of a spanned node.
pub open spec fn node_view(n: SpannedNode) -> SpecNode
    decreases n,
{
    match n {
        SpannedNode::Stmt(s) => SpecNode::Stmt { text: s.stmt@, span: s.span },
        SpannedNode::Block(b) => SpecNode::Block {
            name: b.name@,
            span: b.span,
            children: nodes_view(b.stmts@),
        },
    }
}

/// Models of a sequence of spanned nodes, in order.
pub open spec fn nodes_view(ns: Seq<SpannedNode>) -> Seq<SpecNode>
    decreases ns,
{
    if ns.len() == 0 {
        Seq::empty()
    } else {
        seq![node_view(ns[0])] + nodes_view(ns.drop_first())
    }
}

pub proof fn lemma_nodes_view(ns: Seq<SpannedNode>)
    ensures
        nodes_view(ns).len() == ns.len(),
        forall|i: int| 0 <= i < ns.len() ==> #[trigger] nodes_view(ns)[i] == node_view(ns[i]),
    decreases ns,
{
    if ns.len() > 0 {
        lemma_nodes_view(ns.drop_first());
    }
}

/// Model of a plain node.
pub open spec fn pnode_view(n: Node) -> PNode
    decreases n,
{
    match n {
        Node::Stmt(s) => PNode::Stmt { text: s.stmt@ },
        Node::Block(b) => PNode::Block { name: b.name@, children: pnodes_view(b.stmts@) },
    }
}

/// Models of a sequence of plain nodes, in order.
pub open spec fn pnodes_view(ns: Seq<Node>) -> Seq<PNode>
    decreases ns,
{
    if ns.len() == 0 {
        Seq::empty()
    } else {
        seq![pnode_view(ns[0])] + pnodes_view(ns.drop_first())
    }
}

pub proof fn lemma_pnodes_view(ns: Seq<Node>)
    ensures
        pnodes_view(ns).len() == ns.len(),
        forall|i: int| 0 <= i < ns.len() ==> #[trigger] pnodes_view(ns)[i] == pnode_view(ns[i]),
    decreases ns,
{
    if ns.len() > 0 {
        lemma_pnodes_view(ns.drop_first());
    }
}

/// Drop position information from a node model.
pub open spec fn strip_span(m: SpecNode) -> PNode
    decreases m,
{
    match m {
        SpecNode::Stmt { text, span } => PNode::Stmt { text },
        SpecNode::Block { name, span, children } => PNode::Block {
            name,
            children: strip_spans(children),
        },
    }
}

/// Drop position information from each node model.
pub open spec fn strip_spans(ms: Seq<SpecNode>) -> Seq<PNode>
    decreases ms,
{
    if ms.len() == 0 {
        Seq::empty()
    } else {
        seq![strip_span(ms[0])] + strip_spans(ms.drop_first())
    }
}

pub proof fn lemma_strip_spans(ms: Seq<SpecNode>)
    ensures
        strip_spans(ms).len() == ms.len(),
        forall|i: int| 0 <= i < ms.len() ==> #[trigger] strip_spans(ms)[i] == strip_span(ms[i]),
    decreases ms,
{
    if ms.len() > 0 {
        lemma_strip_spans(ms.drop_first());
    }
}

pub proof fn lemma_nodes_view_concat(a: Seq<SpannedNode>, b: Seq<SpannedNode>)
    ensures
        nodes_view(a + b) == nodes_view(a) + nodes_view(b),
    decreases a,
{
    if a.len() == 0 {
        assert(a + b =~= b);
        assert(nodes_view(a) + nodes_view(b) =~= nodes_view(b));
    } else {
        lemma_nodes_view_concat(a.drop_first(), b);
        assert((a + b).drop_first() =~= a.drop_first() + b);
        assert((a + b)[0] == a[0]);
        assert(seq![node_view(a[0])] + (nodes_view(a.drop_first()) + nodes_view(b)) =~= (seq![
            node_view(a[0]),
        ] + nodes_view(a.drop_first())) + nodes_view(b));
    }
}

/// Span covering (only) the 1-based source line `ln`.
pub open spec fn line_span(ln: int) -> Span {
    Span { line: LineNumber(ln as u32), col_start: 0, col_end: 0 }
}

/// One step of tokenization, scanning lines from index `i`: the sibling
/// nodes recognised at the current nesting level and the index of the first
/// line not consumed.
///
/// A line whose successor is more deeply indented opens a block holding
/// everything up to the next line at equal-or-lesser indentation; blank
/// lines and `!` comment lines are dropped but still count for indentation;
/// an `end-set` / `end-policy` line directly after a dedent is absorbed
/// into the level that is being closed.
pub open spec fn spec_tok(lines: Seq<Seq<char>>, i: int) -> (Seq<SpecNode>, int)
    decreases lines.len() - i,
    when 0 <= i <= lines.len()
{
    if i >= lines.len() {
        (Seq::empty(), i)
    } else {
        let l = lines[i];
        let this_indent = crate::text::spec_indent(l);
        let line = crate::text::spec_trim(l);
        let peek = if i + 1 < lines.len() {
            lines[i + 1]
        } else {
            Seq::empty()
        };
        let next_indent = crate::text::spec_indent(peek);
        let peek_trimmed = crate::text::spec_trim(peek);
        if next_indent > this_indent {
            let child = spec_tok(lines, i + 1);
            let j = if i + 1 <= child.1 <= lines.len() {
                child.1
            } else {
                i + 1
            };
            let node = SpecNode::Block { name: line, span: line_span(i + 1), children: child.0 };
            let rest = spec_tok(lines, j);
            (seq![node] + rest.0, rest.1)
        } else {
            let nodes: Seq<SpecNode> = if line.len() > 0 && line[0] != '!' {
                seq![SpecNode::Stmt { text: line, span: line_span(i + 1) }]
            } else {
                Seq::empty()
            };
            if next_indent < this_indent {
                if peek_trimmed == "end-set"@ || peek_trimmed == "end-policy"@ {
                    if i + 1 < lines.len() {
                        (
                            nodes + seq![
                                SpecNode::Stmt { text: peek_trimmed, span: line_span(i + 2) },
                            ],
                            i + 2,
                        )
                    } else {
                        (nodes, i + 1)
                    }
                } else {
                    (nodes, i + 1)
                }
            } else {
                let rest = spec_tok(lines, i + 1);
                (nodes + rest.0, rest.1)
            }
        }
    }
}

pub proof fn lemma_spec_tok_bounds(lines: Seq<Seq<char>>, i: int)
    requires
        0 <= i <= lines.len(),
    ensures
        i <= spec_tok(lines, i).1 <= lines.len(),
        i < lines.len() ==> i < spec_tok(lines, i).1,
    decreases lines.len() - i,
{
    if i < lines.len() {
        lemma_spec_tok_bounds(lines, i + 1);
        let l = lines[i];
        let this_indent = crate::text::spec_indent(l);
        let peek = if i + 1 < lines.len() {
            lines[i + 1]
        } else {
            Seq::empty()
        };
        let next_indent = crate::text::spec_indent(peek);
        if next_indent > this_indent {
            let child = spec_tok(lines, i + 1);
            let j = if i + 1 <= child.1 <= lines.len() {
                child.1
            } else {
                i + 1
            };
            lemma_spec_tok_bounds(lines, j);
        }
    }
}

proof fn lemma_nodes_view_one(n: SpannedNode)
    ensures
        nodes_view(seq![n]) == seq![node_view(n)],
{
    assert(nodes_view(Seq::<SpannedNode>::empty()) == Seq::<SpecNode>::empty());
    assert(seq![n].drop_first() =~= Seq::<SpannedNode>::empty());
    assert(seq![n][0] == n);
    assert(nodes_view(seq![n]) == seq![node_view(n)] + Seq::<SpecNode>::empty());
    assert(seq![node_view(n)] + Seq::<SpecNode>::empty() =~= seq![node_view(n)]);
}

/// Tokenize the sibling run starting at line index `from`, appending the
/// recognised nodes to `res` and returning the first unconsumed index.
fn tok_at(lines: &Vec<String>, from: usize, res: &mut Vec<SpannedNode>) -> (next: usize)
    requires
        from <= lines@.len(),
        lines@.len() < 0xFFFF_FFFFusize,
    ensures
        final(res)@.len() == old(res)@.len() + spec_tok(lines_model(lines@), from as int).0.len(),
        forall|k: int| 0 <= k < old(res)@.len() ==> final(res)@[k] == old(res)@[k],
        nodes_view(final(res)@.skip(old(res)@.len() as int)) == spec_tok(
            lines_model(lines@),
            from as int,
        ).0,
        next == spec_tok(lines_model(lines@), from as int).1,
        from <= next <= lines@.len(),
    decreases lines@.len() - from,
{
    let ghost lv = lines_model(lines@);
    let ghost base = old(res)@.len() as int;
    let n = lines.len();
    proof {
        lemma_spec_tok_bounds(lv, from as int);
        assert(Seq::<SpannedNode>::empty() + res@.skip(base) =~= res@.skip(base));
        assert(nodes_view(res@.skip(base)) =~= Seq::<SpecNode>::empty());
    }
    let mut i: usize = from;
    loop
        invariant
            from <= i <= n,
            n == lines@.len(),
            lv == lines_model(lines@),
            base == old(res)@.len(),
            res@.len() >= base,
            forall|k: int| 0 <= k < base ==> res@[k] == old(res)@[k],
            spec_tok(lv, from as int).0 == nodes_view(res@.skip(base)) + spec_tok(lv, i as int).0,
            spec_tok(lv, from as int).1 == spec_tok(lv, i as int).1,
        decreases n - i,
    {
        proof {
            lemma_spec_tok_bounds(lv, i as int);
        }
        if i >= n {
            proof {
                assert(spec_tok(lv, i as int).0 =~= Seq::<SpecNode>::empty());
                assert(nodes_view(res@.skip(base)) + Seq::<SpecNode>::empty() =~= nodes_view(
                    res@.skip(base),
                ));
                lemma_nodes_view(res@.skip(base));
            }
            return i;
        }
        let ghost pre = res@;
        let this_indent = crate::text::get_indent(lines[i].as_str());
        let line = crate::text::trim_str(lines[i].as_str());
        let peek: &str = if i + 1 < n {
            lines[i + 1].as_str()
        } else {
            ""
        };
        proof {
            reveal_strlit("");
            assert(""@ =~= Seq::<char>::empty());
            assert(lv[i as int] == lines@[i as int]@);
            if i + 1 < n {
                assert(lv[i + 1] == lines@[i + 1]@);
            }
        }
        let next_indent = crate::text::get_indent(peek);
        let peek_trimmed = crate::text::trim_str(peek);
        if next_indent > this_indent {
            let mut buf: Vec<SpannedNode> = Vec::new();
            let j = tok_at(lines, i + 1, &mut buf);
            proof {
                assert(buf@.skip(0) =~= buf@);
            }
            let name = line.to_owned();
            let block = SpannedNodeBlock { name, span: Span::line_only((i + 1) as u32), stmts: buf };
            res.push(SpannedNode::Block(block));
            proof {
                let node = res@[res@.len() - 1];
                assert(node_view(node) == spec_tok(lv, i as int).0[0]) by {
                    assert(spec_tok(lv, i as int).0 == seq![
                        SpecNode::Block {
                            name: crate::text::spec_trim(lv[i as int]),
                            span: line_span(i + 1),
                            children: spec_tok(lv, i + 1).0,
                        },
                    ] + spec_tok(lv, j as int).0);
                }
                assert(res@.skip(base) =~= pre.skip(base) + seq![node]);
                lemma_nodes_view_concat(pre.skip(base), seq![node]);
                lemma_nodes_view_one(node);
                assert(nodes_view(res@.skip(base)) =~= nodes_view(pre.skip(base)).push(
                    node_view(node),
                ));
                assert(spec_tok(lv, from as int).0 == nodes_view(res@.skip(base)) + spec_tok(
                    lv,
                    j as int,
                ).0) by {
                    assert((nodes_view(pre.skip(base)) + (seq![node_view(node)] + spec_tok(
                        lv,
                        j as int,
                    ).0)) =~= (nodes_view(pre.skip(base)).push(node_view(node)) + spec_tok(
                        lv,
                        j as int,
                    ).0));
                }
            }
            i = j;
        } else {
            let keep = if crate::text::str_len(line) > 0 {
                line.get_char(0) != '!'
            } else {
                false
            };
            if keep {
                let text = line.to_owned();
                res.push(
                    SpannedNode::Stmt(
                        SpannedNodeStmt { stmt: text, span: Span::line_only((i + 1) as u32) },
                    ),
                );
            }
            let ghost nodes: Seq<SpecNode> = if crate::text::spec_trim(lv[i as int]).len() > 0
                && crate::text::spec_trim(lv[i as int])[0] != '!' {
                seq![
                    SpecNode::Stmt {
                        text: crate::text::spec_trim(lv[i as int]),
                        span: line_span(i + 1),
                    },
                ]
            } else {
                Seq::<SpecNode>::empty()
            };
            proof {
                assert(res@.skip(base) =~= pre.skip(base) + if keep {
                    seq![res@[res@.len() - 1]]
                } else {
                    Seq::<SpannedNode>::empty()
                });
                if keep {
                    lemma_nodes_view_concat(pre.skip(base), seq![res@[res@.len() - 1]]);
                    lemma_nodes_view_one(res@[res@.len() - 1]);
                    assert(nodes_view(seq![res@[res@.len() - 1]]) == seq![
                        node_view(res@[res@.len() - 1]),
                    ]);
                } else {
                    assert(res@.skip(base) =~= pre.skip(base));
                }
                assert(nodes_view(res@.skip(base)) == nodes_view(pre.skip(base)) + nodes);
            }
            if next_indent < this_indent {
                proof {
                    reveal_strlit("end-set");
                    reveal_strlit("end-policy");
                }
                let absorb = crate::text::str_eq(peek_trimmed, "end-set") || crate::text::str_eq(
                    peek_trimmed,
                    "end-policy",
                );
                if absorb && i + 1 < n {
                    let ghost pre2 = res@;
                    let text = peek_trimmed.to_owned();
                    res.push(
                        SpannedNode::Stmt(
                            SpannedNodeStmt { stmt: text, span: Span::line_only((i + 2) as u32) },
                        ),
                    );
                    proof {
                        let node = res@[res@.len() - 1];
                        assert(res@.skip(base) =~= pre2.skip(base) + seq![node]);
                        lemma_nodes_view_concat(pre2.skip(base), seq![node]);
                        lemma_nodes_view_one(node);
                        assert(spec_tok(lv, i as int).0 == nodes + seq![node_view(node)]);
                        assert(nodes_view(res@.skip(base)) =~= nodes_view(pre.skip(base)) + (
                        nodes + seq![node_view(node)]));
                        lemma_nodes_view(res@.skip(base));
                    }
                    return i + 2;
                }
                proof {
                    assert(spec_tok(lv, i as int).0 == nodes);
                    assert(spec_tok(lv, i as int).1 == i + 1);
                    assert(nodes_view(res@.skip(base)) =~= nodes_view(pre.skip(base)) + nodes);
                    lemma_nodes_view(res@.skip(base));
                }
                return i + 1;
            }
            proof {
                assert(spec_tok(lv, i as int).0 == nodes + spec_tok(lv, i + 1).0);
                assert(spec_tok(lv, from as int).0 == nodes_view(res@.skip(base)) + spec_tok(
                    lv,
                    i + 1,
                ).0) by {
                    assert((nodes_view(pre.skip(base)) + (nodes + spec_tok(lv, i + 1).0)) =~= ((
                    nodes_view(pre.skip(base)) + nodes) + spec_tok(lv, i + 1).0));
                }
            }
            i = i + 1;
        }
    }
}

/// The character-sequence model of the split input lines.
pub open spec fn lines_model(ls: Seq<String>) -> Seq<Seq<char>> {
    ls.map_values(|l: String| l@)
}

/// The tokenized tree of `s`: the node models produced by scanning the
/// lines of `s` from the first line.
pub open spec fn spec_tokenize(s: Seq<char>) -> Seq<SpecNode> {
    spec_tok(crate::text::spec_lines(s), 0).0
}

/// Tokenize the input into a tree of span-annotated nodes.
///
/// Total: malformed indentation yields a different tree, never an error.
pub fn tokenize_spanned(s: &str) -> (r: Vec<SpannedNode>)
    requires
        s@.len() < 0xFFFF_FFFFusize,
    ensures
        nodes_view(r@) == spec_tokenize(s@),
{
    let lines = crate::text::split_lines(s);
    proof {
        assert(lines_model(lines@) =~= crate::text::spec_lines(s@));
        assert(crate::text::spec_lines(s@).len() <= s@.len()) by {
            lemma_lines_count(s@, 0);
        }
    }
    let mut res: Vec<SpannedNode> = Vec::new();
    tok_at(&lines, 0, &mut res);
    proof {
        assert(res@.skip(0) =~= res@);
    }
    res
}

/// Drop the span annotations from a tokenized node.
fn convert_spanned(node: &SpannedNode) -> (r: Node)
    ensures
        pnode_view(r) == strip_span(node_view(*node)),
    decreases *node,
{
    match node {
        SpannedNode::Stmt(s) => {
            let text = s.stmt.as_str().to_owned();
            Node::Stmt(NodeStmt { stmt: text })
        },
        SpannedNode::Block(b) => {
            let n = b.stmts.len();
            let mut out: Vec<Node> = Vec::new();
            let mut i: usize = 0;
            while i < n
                invariant
                    0 <= i <= n,
                    n == b.stmts@.len(),
                    out@.len() == i,
                    forall|k: int|
                        0 <= k < i ==> pnode_view(#[trigger] out@[k]) == strip_span(
                            node_view(b.stmts@[k]),
                        ),
                decreases n - i,
            {
                let c = convert_spanned(&b.stmts[i]);
                out.push(c);
                i += 1;
            }
            let name = b.name.as_str().to_owned();
            let r = Node::Block(NodeBlock { name, stmts: out });
            proof {
                lemma_pnodes_view(out@);
                lemma_nodes_view(b.stmts@);
                lemma_strip_spans(nodes_view(b.stmts@));
                assert(pnodes_view(out@) =~= strip_spans(nodes_view(b.stmts@)));
            }
            r
        },
    }
}

/// The tokenized tree of `s`, without position information.
pub open spec fn spec_tokenize_plain(s: Seq<char>) -> Seq<PNode> {
    strip_spans(spec_tokenize(s))
}

/// Tokenize the input into a tree of nodes without position information.
///
/// Total: malformed indentation yields a different tree, never an error.
pub fn tokenize(s: &str) -> (r: Vec<Node>)
    requires
        s@.len() < 0xFFFF_FFFFusize,
    ensures
        pnodes_view(r@) == spec_tokenize_plain(s@),
{
    let spanned = tokenize_spanned(s);
    let n = spanned.len();
    let ghost ms = spec_tokenize(s@);
    proof {
        lemma_nodes_view(spanned@);
    }
    let mut out: Vec<Node> = Vec::new();
    let mut i: usize = 0;
    while i < n
        invariant
            0 <= i <= n,
            n == spanned@.len(),
            nodes_view(spanned@) == ms,
            out@.len() == i,
            forall|k: int|
                0 <= k < i ==> pnode_view(#[trigger] out@[k]) == strip_span(
                    node_view(spanned@[k]),
                ),
        decreases n - i,
    {
        let c = convert_spanned(&spanned[i]);
        out.push(c);
        i += 1;
    }
    proof {
        lemma_pnodes_view(out@);
        lemma_nodes_view(spanned@);
        lemma_strip_spans(ms);
        assert(pnodes_view(out@) =~= strip_spans(ms));
    }
    out
}

/// A string of `n` characters splits into at most `n` lines.
proof fn lemma_lines_count(s: Seq<char>, i: int)
    requires
        0 <= i <= s.len(),
    ensures
        crate::text::spec_lines_from(s, i).len() <= s.len() - i,
    decreases s.len() - i,
{
    if i < s.len() {
        let j0 = crate::text::scan_while(s, i, |c: char| c != '\n');
        crate::text::lemma_scan_while(s, i, |c: char| c != '\n');
        let j = if i <= j0 <= s.len() {
            j0
        } else {
            i
        };
        if j < s.len() {
            lemma_lines_count(s, j + 1);
        }
    }
}

} // verus!
