//! Folding ranges: the regions of a document an editor can fold.
use crate::ast::{AstNode, Span};
use vstd::prelude::*;

verus! {

/// A foldable region: its first and last lines (a plain region).
#[derive(Debug, Clone, Copy, PartialEq, Eq, Structural)]
pub struct FoldRange {
    /// First line (0-based)
    pub start_line: u32,
    /// Last line (0-based)
    pub end_line: u32,
}

pub open spec fn fold_of(span: Span) -> FoldRange {
    FoldRange { start_line: span.start.line, end_line: span.end.line }
}

/// The folding ranges of a node: a document that spans several lines, then
/// the ranges of its children; an object or array that spans several lines
/// and is not empty (its contents are not searched further).
pub open spec fn node_folds(n: AstNode) -> Seq<FoldRange>
    decreases n,
{
    match n {
        AstNode::Document { children, span } => (if span.end.line > span.start.line {
            seq![fold_of(span)]
        } else {
            Seq::empty()
        }) + nodes_folds(children@),
        AstNode::Object { entries, span } => if span.end.line > span.start.line && entries@.len() > 0 {
            seq![fold_of(span)]
        } else {
            Seq::empty()
        },
        AstNode::Array { items, span, .. } => if span.end.line > span.start.line && items@.len() > 0 {
            seq![fold_of(span)]
        } else {
            Seq::empty()
        },
        _ => Seq::empty(),
    }
}

pub open spec fn nodes_folds(s: Seq<AstNode>) -> Seq<FoldRange>
    decreases s,
{
    if s.len() == 0 {
        Seq::empty()
    } else {
        nodes_folds(s.drop_last()) + node_folds(s.last())
    }
}

/// The folding ranges of a document, in document order.
pub fn collect_folding_ranges(ast: &AstNode) -> (r: Vec<FoldRange>)
    ensures
        r@ == node_folds(*ast),
{
    let mut out: Vec<FoldRange> = Vec::new();
    folds_of_node(ast, &mut out);
    proof {
        assert(out@ =~= Seq::<FoldRange>::empty() + node_folds(*ast));
    }
    out
}

fn folds_of_node(node: &AstNode, out: &mut Vec<FoldRange>)
    ensures
        final(out)@ == old(out)@ + node_folds(*node),
    decreases node,
{
    let ghost before = out@;
    match node {
        AstNode::Document { children, span } => {
            if span.end.line > span.start.line {
                out.push(FoldRange { start_line: span.start.line, end_line: span.end.line });
            }
            folds_of_nodes(children, out);
            proof {
                assert(out@ =~= before + node_folds(*node));
            }
        },
        AstNode::Object { entries, span } => {
            if span.end.line > span.start.line && entries.len() > 0 {
                out.push(FoldRange { start_line: span.start.line, end_line: span.end.line });
            }
            proof {
                assert(out@ =~= before + node_folds(*node));
            }
        },
        AstNode::Array { items, span, .. } => {
            if span.end.line > span.start.line && items.len() > 0 {
                out.push(FoldRange { start_line: span.start.line, end_line: span.end.line });
            }
            proof {
                assert(out@ =~= before + node_folds(*node));
            }
        },
        _ => {
            proof {
                assert(out@ =~= before + node_folds(*node));
            }
        },
    }
}

fn folds_of_nodes(children: &Vec<AstNode>, out: &mut Vec<FoldRange>)
    ensures
        final(out)@ == old(out)@ + nodes_folds(children@),
    decreases children,
{
    let ghost mid = out@;
    let mut i: usize = 0;
    while i < children.len()
        invariant
            0 <= i <= children.len(),
            out@ == mid + nodes_folds(children@.take(i as int)),
        decreases children.len() - i,
    {
        proof {
            assert(children@.take(i + 1).drop_last() =~= children@.take(i as int));
        }
        folds_of_node(&children[i], out);
        proof {
            assert(mid + nodes_folds(children@.take(i + 1)) =~= mid + nodes_folds(children@.take(i as int))
                + node_folds(children@[i as int]));
        }
        i += 1;
    }
    proof {
        assert(children@.take(children.len() as int) =~= children@);
    }
}

} // verus!
