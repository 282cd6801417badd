//! Document highlights: the key or reference under the cursor, its
//! definition and every reference to the same path.
use crate::ast::node::node_view;
use crate::ast::{AstNode, Position, Span};
use crate::lsp::ast_utils::{descent, find_node_at_position, steps_view, StepView};
use crate::lsp::hover::{calculate_offset, position_offset};
use crate::parser::grammar::env_prefixed;
use crate::parser::is_env_reference;
use crate::resolve::{
    collect_reference_spans, env_view, join_dots, node_ref_spans, ref_pairs_view, resolve, resolve_result,
    ResolvedRef, ResolvedView,
};
use crate::text::utf8_len;
use vstd::prelude::*;

verus! {

/// A highlighted span; `write` marks the one under the cursor.
#[derive(Debug)]
pub struct Highlight {
    pub span: Span,
    pub write: bool,
}

pub open spec fn highlights_view(v: Seq<Highlight>) -> Seq<(Span, bool)> {
    v.map_values(|h: Highlight| (h.span, h.write))
}

/// The keys along a path (the steps that are object entry values).
pub open spec fn step_keys(steps: Seq<StepView>) -> Seq<Seq<char>>
    decreases steps.len(),
{
    if steps.len() == 0 {
        Seq::empty()
    } else {
        step_keys(steps.drop_last()) + match steps.last().1 {
            Some(k) => seq![k],
            None => Seq::empty(),
        }
    }
}

/// The dotted path highlighted from `pos`: the full path of the key under
/// it, or the path of the reference under it.
pub open spec fn highlight_target(ast: AstNode, pos: Position) -> Option<Seq<char>> {
    if !ast.spec_span().spec_contains(pos) {
        None
    } else {
        let d = descent(ast, pos);
        match d.2 {
            Some(e) => {
                let parent = join_dots(step_keys(seq![(ast, None::<Seq<char>>, None::<usize>)] + d.0));
                Some(if parent.len() == 0 { e.key@ } else { parent + seq!['.'] + e.key@ })
            },
            None => match d.1 {
                AstNode::Reference { path, .. } => Some(path@),
                _ => None,
            },
        }
    }
}

/// The definition of `target`, when it is a document path that resolves to
/// a keyed value.
pub open spec fn definition_part(ast: AstNode, target: Seq<char>, pos: Position) -> Seq<(Span, bool)> {
    if !env_prefixed(target) {
        match resolve_result(node_view(ast), target, Seq::empty()) {
            Ok(ResolvedView::Node(_, Some(sp))) => seq![(sp, sp.spec_contains(pos))],
            _ => Seq::empty(),
        }
    } else {
        Seq::empty()
    }
}

/// The references among `rs` to `target`.
pub open spec fn reference_part(rs: Seq<(Seq<char>, Span)>, target: Seq<char>, pos: Position) -> Seq<(Span, bool)>
    decreases rs.len(),
{
    if rs.len() == 0 {
        Seq::empty()
    } else {
        reference_part(rs.drop_last(), target, pos) + if rs.last().0 == target {
            seq![(rs.last().1, rs.last().1.spec_contains(pos))]
        } else {
            Seq::empty()
        }
    }
}

/// The highlights at a 0-based line and byte column.
pub open spec fn highlights_at(ast: AstNode, source: Seq<char>, line: u32, column: u32) -> Seq<(Span, bool)> {
    match position_offset(source, line as nat, column as nat) {
        None => Seq::empty(),
        Some(o) => {
            let pos = Position { line, column, offset: o as u32 };
            match highlight_target(ast, pos) {
                None => Seq::empty(),
                Some(t) => definition_part(ast, t, pos) + reference_part(node_ref_spans(node_view(ast)), t, pos),
            }
        },
    }
}

/// The highlights for the key or reference at a 0-based line and byte
/// column: its definition, then each reference to it.
pub fn collect_document_highlights(ast: &AstNode, source: &str, line: u32, column: u32) -> (r: Vec<Highlight>)
    requires
        utf8_len(source@) <= u32::MAX,
    ensures
        highlights_view(r@) == highlights_at(*ast, source@, line, column),
{
    let offset = match calculate_offset(source, line, column) {
        Some(o) => o,
        None => {
            let none: Vec<Highlight> = Vec::new();
            proof {
                assert(highlights_view(none@) =~= Seq::<(Span, bool)>::empty());
            }
            return none;
        },
    };
    let pos = Position::new(line, column, offset);
    proof {
        assert(pos == Position { line, column, offset: offset as nat as u32 });
    }
    let found = match find_node_at_position(ast, line, column, offset) {
        Some(n) => n,
        None => {
            let none: Vec<Highlight> = Vec::new();
            proof {
                assert(highlights_view(none@) =~= Seq::<(Span, bool)>::empty());
            }
            return none;
        },
    };
    let ghost steps = steps_view(found.path@);
    let target: String = match found.on_key {
        Some(entry) => {
            let mut keys: Vec<String> = Vec::new();
            let mut i: usize = 0;
            proof {
                assert(steps.take(0) =~= Seq::<StepView>::empty());
                assert(crate::toon::scalars::strings_view(keys@) =~= step_keys(steps.take(0)));
            }
            while i < found.path.len()
                invariant
                    0 <= i <= found.path.len(),
                    steps == steps_view(found.path@),
                    crate::toon::scalars::strings_view(keys@) == step_keys(steps.take(i as int)),
                decreases found.path.len() - i,
            {
                proof {
                    assert(steps.take(i + 1).drop_last() =~= steps.take(i as int));
                }
                match found.path[i].key {
                    Some(k) => {
                        keys.push(String::from_str(k));
                        proof {
                            assert(crate::toon::scalars::strings_view(keys@) =~= step_keys(steps.take(i + 1)));
                        }
                    },
                    None => {
                        proof {
                            assert(crate::toon::scalars::strings_view(keys@) =~= step_keys(steps.take(i + 1)));
                        }
                    },
                }
                i += 1;
            }
            proof {
                assert(steps.take(found.path.len() as int) =~= steps);
            }
            let mut t = join_all(&keys);
            if crate::text::chars_of(t.as_str()).len() == 0 {
                entry.key.clone()
            } else {
                t.push('.');
                t.append(entry.key.as_str());
                t
            }
        },
        None => match found.node {
            AstNode::Reference { path, .. } => path.clone(),
            _ => {
                let none: Vec<Highlight> = Vec::new();
                proof {
                    assert(highlights_view(none@) =~= Seq::<(Span, bool)>::empty());
                }
                return none;
            },
        },
    };
    let mut out: Vec<Highlight> = Vec::new();
    if !is_env_reference(&target) {
        let no_env: Vec<(String, String)> = Vec::new();
        proof {
            assert(env_view(no_env@) =~= Seq::<(Seq<char>, Seq<char>)>::empty());
        }
        match resolve(ast, target.as_str(), &no_env) {
            Ok(ResolvedRef::Node { key_span: Some(sp), .. }) => {
                out.push(Highlight { span: sp, write: sp.contains(pos) });
            },
            _ => {},
        }
    }
    let ghost head = highlights_view(out@);
    proof {
        assert(head =~= definition_part(*ast, target@, pos));
        assert(highlight_target(*ast, pos) == Some(target@));
    }
    let refs = collect_reference_spans(ast);
    let ghost rs = ref_pairs_view(refs@);
    let mut i: usize = 0;
    proof {
        assert(rs.take(0) =~= Seq::<(Seq<char>, Span)>::empty());
        assert(highlights_view(out@) =~= head + reference_part(rs.take(0), target@, pos));
    }
    while i < refs.len()
        invariant
            0 <= i <= refs.len(),
            rs == ref_pairs_view(refs@),
            rs.len() == refs.len(),
            highlights_view(out@) == head + reference_part(rs.take(i as int), target@, pos),
        decreases refs.len() - i,
    {
        proof {
            assert(rs.take(i + 1).drop_last() =~= rs.take(i as int));
            assert(rs.take(i + 1).last() == (refs@[i as int].0@, refs@[i as int].1));
        }
        let ghost prev = out@;
        if refs[i].0 == target {
            let sp = refs[i].1;
            let w = sp.contains(pos);
            out.push(Highlight { span: sp, write: w });
            proof {
                assert(highlights_view(out@) =~= highlights_view(prev).push((sp, sp.spec_contains(pos))));
            }
        } else {
            proof {
                assert(highlights_view(out@) =~= highlights_view(prev));
            }
        }
        proof {
            assert(highlights_view(out@) =~= head + reference_part(rs.take(i + 1), target@, pos));
        }
        i += 1;
    }
    proof {
        assert(rs.take(refs.len() as int) =~= rs);
    }
    out
}

/// Words joined with `.`.
pub(crate) fn join_all(keys: &Vec<String>) -> (r: String)
    ensures
        r@ == join_dots(crate::toon::scalars::strings_view(keys@)),
{
    let ghost sv = crate::toon::scalars::strings_view(keys@);
    let mut out = String::new();
    let mut i: usize = 0;
    proof {
        assert(sv.take(0) =~= Seq::<Seq<char>>::empty());
    }
    while i < keys.len()
        invariant
            0 <= i <= keys.len(),
            sv == crate::toon::scalars::strings_view(keys@),
            out@ == join_dots(sv.take(i as int)),
        decreases keys.len() - i,
    {
        let ghost t = sv.take(i + 1);
        proof {
            assert(t.drop_last() =~= sv.take(i as int));
            assert(t.last() == keys@[i as int]@);
        }
        if i > 0 {
            out.push('.');
        }
        out.append(keys[i].as_str());
        proof {
            if i == 0 {
                assert(out@ =~= t[0]);
            } else {
                assert(out@ =~= join_dots(t.drop_last()) + seq!['.'] + t.last());
            }
        }
        i += 1;
    }
    proof {
        assert(sv.take(keys.len() as int) =~= sv);
    }
    out
}

} // verus!
