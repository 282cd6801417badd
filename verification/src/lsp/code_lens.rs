//! Code lenses: above the first occurrence of each key that occurs more
//! than once, the number of its occurrences.
use super::ast_utils::{collect_all_keys, node_keys, pairs_view};
use super::references::{with_key, KeyedSpan};
use crate::ast::{AstNode, Span};
use crate::text::{decimal_digits, push_decimal};
use vstd::prelude::*;

verus! {

/// A lens on a repeated key.
#[derive(Debug, Clone)]
pub struct KeyLens {
    /// The key
    pub key: String,
    /// The span of its first occurrence
    pub span: Span,
    /// How often it occurs
    pub count: usize,
    /// `<count> references`
    pub title: String,
}

pub type LensView = (Seq<char>, Span, nat, Seq<char>);

pub open spec fn lens_view(l: KeyLens) -> LensView {
    (l.key@, l.span, l.count as nat, l.title@)
}

/// Whether the key at index `i` occurs there for the first time.
pub open spec fn first_occurrence(keys: Seq<KeyedSpan>, i: int) -> bool {
    forall|j: int| 0 <= j < i ==> (#[trigger] keys[j]).0 != keys[i].0
}

/// The lenses of the first `i` keys: for each key occurring there first,
/// if it occurs more than once in all of `keys`, a lens with its first
/// span and its number of occurrences.
pub open spec fn lenses_upto(keys: Seq<KeyedSpan>, i: int) -> Seq<LensView>
    decreases i,
{
    if i <= 0 {
        Seq::empty()
    } else {
        let k = keys[i - 1].0;
        let n = with_key(keys, k).len();
        lenses_upto(keys, i - 1) + if first_occurrence(keys, i - 1) && n > 1 {
            seq![(k, keys[i - 1].1, n, decimal_digits(n) + " references"@)]
        } else {
            Seq::empty()
        }
    }
}

/// The code lenses of a document, in the order in which their keys first
/// occur.
pub fn collect_code_lenses(ast: &AstNode) -> (r: Vec<KeyLens>)
    ensures
        r@.map_values(|l: KeyLens| lens_view(l)) == lenses_upto(node_keys(*ast), node_keys(*ast).len() as int),
{
    let all_keys = collect_all_keys(ast);
    let ghost keys = pairs_view(all_keys@);
    let mut lenses: Vec<KeyLens> = Vec::new();
    let mut i: usize = 0;
    while i < all_keys.len()
        invariant
            0 <= i <= all_keys.len(),
            keys == pairs_view(all_keys@),
            keys == node_keys(*ast),
            lenses@.map_values(|l: KeyLens| lens_view(l)) == lenses_upto(keys, i as int),
        decreases all_keys.len() - i,
    {
        // Is this the first occurrence of the key?
        let mut first = true;
        let mut j: usize = 0;
        while j < i
            invariant
                0 <= j <= i < all_keys.len(),
                keys == pairs_view(all_keys@),
                first == forall|m: int| 0 <= m < j ==> (#[trigger] keys[m]).0 != keys[i as int].0,
            decreases i - j,
        {
            if all_keys[j].0 == all_keys[i].0 {
                first = false;
            }
            proof {
                assert(keys[j as int].0 == all_keys@[j as int].0@);
                assert(keys[i as int].0 == all_keys@[i as int].0@);
            }
            j += 1;
        }
        let ghost before = lenses@.map_values(|l: KeyLens| lens_view(l));
        if first {
            // Count its occurrences.
            let mut count: usize = 0;
            let mut m: usize = 0;
            while m < all_keys.len()
                invariant
                    0 <= m <= all_keys.len(),
                    i < all_keys.len(),
                    keys == pairs_view(all_keys@),
                    count == with_key(keys.take(m as int), keys[i as int].0).len(),
                    count <= m,
                decreases all_keys.len() - m,
            {
                proof {
                    assert(keys.take(m + 1).drop_last() =~= keys.take(m as int));
                    assert(keys.take(m + 1).last() == keys[m as int]);
                    assert(keys[m as int].0 == all_keys@[m as int].0@);
                }
                if all_keys[m].0 == all_keys[i].0 {
                    count += 1;
                }
                m += 1;
            }
            proof {
                assert(keys.take(all_keys.len() as int) =~= keys);
            }
            if count > 1 {
                let mut title = String::new();
                push_decimal(&mut title, count as u64);
                title.append(" references");
                lenses.push(KeyLens { key: all_keys[i].0.clone(), span: all_keys[i].1, count, title });
                proof {
                    assert(lenses@.map_values(|l: KeyLens| lens_view(l)) =~= before.push(lens_view(lenses@.last())));
                }
            }
        }
        proof {
            assert(lenses@.map_values(|l: KeyLens| lens_view(l)) =~= lenses_upto(keys, i + 1));
        }
        i += 1;
    }
    lenses
}

} // verus!
