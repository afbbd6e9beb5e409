//! Recursive decomposition of the layer tree: groups are expanded in
//! place, depth-first, into a flat order-preserving sequence of tile and
//! object elements. The index of each flattened element becomes its
//! entities' ZLevel.

use vstd::prelude::*;
use crate::tiled::{Layer, Object, TileLayer};
use crate::world::Diagnostic;

verus! {

/// One element of the flattened layer sequence.
#[derive(Debug)]
pub enum FlatLayer {
    Tiles(TileLayer),
    Objects(Vec<Object>),
}

/// The flattened form of one layer node: a tile or object leaf is itself,
/// a group is its children flattened in order, an image layer yields no
/// simulated entities, and an unsupported kind is skipped.
pub open spec fn flat_of_layer(l: Layer) -> Seq<FlatLayer>
    decreases l,
{
    match l {
        Layer::Tiles(t) => seq![FlatLayer::Tiles(t)],
        Layer::Objects(os) => seq![FlatLayer::Objects(os)],
        Layer::Image(_) => Seq::empty(),
        Layer::Group(children) => flat_of_layers(children@),
        Layer::Unsupported(_) => Seq::empty(),
    }
}

/// The flattened form of a list of layer nodes, in order.
pub open spec fn flat_of_layers(ls: Seq<Layer>) -> Seq<FlatLayer>
    decreases ls,
{
    if ls.len() == 0 {
        Seq::empty()
    } else {
        flat_of_layer(ls[0]) + flat_of_layers(ls.drop_first())
    }
}

/// The diagnostics flattening one node emits: one record per skipped
/// unsupported layer, in traversal order.
pub open spec fn skipped_of_layer(l: Layer) -> Seq<Diagnostic>
    decreases l,
{
    match l {
        Layer::Group(children) => skipped_of_layers(children@),
        Layer::Unsupported(kind) => seq![Diagnostic::UnsupportedLayerKind(kind)],
        _ => Seq::empty(),
    }
}

/// The diagnostics flattening a list of nodes emits, in order.
pub open spec fn skipped_of_layers(ls: Seq<Layer>) -> Seq<Diagnostic>
    decreases ls,
{
    if ls.len() == 0 {
        Seq::empty()
    } else {
        skipped_of_layer(ls[0]) + skipped_of_layers(ls.drop_first())
    }
}

/// How many tile and object leaves one node holds.
pub open spec fn leaf_count_of_layer(l: Layer) -> nat
    decreases l,
{
    match l {
        Layer::Tiles(_) => 1,
        Layer::Objects(_) => 1,
        Layer::Image(_) => 0,
        Layer::Group(children) => leaf_count_of_layers(children@),
        Layer::Unsupported(_) => 0,
    }
}

/// How many tile and object leaves a list of nodes holds.
pub open spec fn leaf_count_of_layers(ls: Seq<Layer>) -> nat
    decreases ls,
{
    if ls.len() == 0 {
        0
    } else {
        leaf_count_of_layer(ls[0]) + leaf_count_of_layers(ls.drop_first())
    }
}

/// A tree of N groups nesting M tile and object leaves flattens to exactly
/// M elements: one per leaf, in depth-first order.
pub proof fn lemma_flatten_yields_leaves(ls: Seq<Layer>)
    ensures
        flat_of_layers(ls).len() == leaf_count_of_layers(ls),
    decreases ls,
{
    if ls.len() != 0 {
        lemma_flatten_one_yields_leaves(ls[0]);
        lemma_flatten_yields_leaves(ls.drop_first());
    }
}

/// One node flattens to exactly as many elements as it holds leaves.
pub proof fn lemma_flatten_one_yields_leaves(l: Layer)
    ensures
        flat_of_layer(l).len() == leaf_count_of_layer(l),
    decreases l,
{
    match l {
        Layer::Group(children) => {
            lemma_flatten_yields_leaves(children@);
        },
        _ => {},
    }
}

/// Flattening distributes over concatenation of layer lists.
pub proof fn lemma_flat_append(a: Seq<Layer>, b: Seq<Layer>)
    ensures
        flat_of_layers(a + b) == flat_of_layers(a) + flat_of_layers(b),
        skipped_of_layers(a + b) == skipped_of_layers(a) + skipped_of_layers(b),
    decreases a,
{
    if a.len() == 0 {
        assert(a + b =~= b);
        assert(flat_of_layers(a) + flat_of_layers(b) =~= flat_of_layers(b));
        assert(skipped_of_layers(a) + skipped_of_layers(b) =~= skipped_of_layers(b));
    } else {
        assert((a + b)[0] == a[0]);
        assert((a + b).drop_first() =~= a.drop_first() + b);
        lemma_flat_append(a.drop_first(), b);
        assert(flat_of_layers(a + b) =~= flat_of_layers(a) + flat_of_layers(b));
        assert(skipped_of_layers(a + b) =~= skipped_of_layers(a) + skipped_of_layers(b));
    }
}

/// Flattening a one-element list flattens the element.
pub proof fn lemma_flat_singleton(l: Layer)
    ensures
        flat_of_layers(seq![l]) == flat_of_layer(l),
        skipped_of_layers(seq![l]) == skipped_of_layer(l),
{
    assert(seq![l].drop_first() =~= Seq::<Layer>::empty());
    assert(flat_of_layer(l) + flat_of_layers(Seq::empty()) =~= flat_of_layer(l));
    assert(skipped_of_layer(l) + skipped_of_layers(Seq::empty()) =~= skipped_of_layer(l));
}

/// Append the flattened form of one layer node to `out`, and a diagnostic
/// to `diags` for every unsupported kind that was skipped.
fn flatten_layer(l: Layer, out: &mut Vec<FlatLayer>, diags: &mut Vec<Diagnostic>)
    ensures
        final(out)@ == old(out)@ + flat_of_layer(l),
        final(diags)@ == old(diags)@ + skipped_of_layer(l),
    decreases l,
{
    match l {
        Layer::Tiles(t) => {
            out.push(FlatLayer::Tiles(t));
            proof {
                assert(out@ =~= old(out)@ + flat_of_layer(Layer::Tiles(t)));
                assert(diags@ =~= old(diags)@ + skipped_of_layer(Layer::Tiles(t)));
            }
        },
        Layer::Objects(os) => {
            out.push(FlatLayer::Objects(os));
            proof {
                assert(out@ =~= old(out)@ + flat_of_layer(l));
                assert(diags@ =~= old(diags)@ + skipped_of_layer(l));
            }
        },
        Layer::Image(_) => {
            proof {
                assert(out@ =~= old(out)@ + flat_of_layer(l));
                assert(diags@ =~= old(diags)@ + skipped_of_layer(l));
            }
        },
        Layer::Group(children) => {
            flatten_layers(children, out, diags);
        },
        Layer::Unsupported(kind) => {
            diags.push(Diagnostic::UnsupportedLayerKind(kind));
            proof {
                assert(out@ =~= old(out)@ + flat_of_layer(l));
                assert(diags@ =~= old(diags)@ + skipped_of_layer(l));
            }
        },
    }
}

/// Append the flattened form of a list of layer nodes to `out`.
#[verifier::loop_isolation(false)]
fn flatten_layers(ls: Vec<Layer>, out: &mut Vec<FlatLayer>, diags: &mut Vec<Diagnostic>)
    ensures
        final(out)@ == old(out)@ + flat_of_layers(ls@),
        final(diags)@ == old(diags)@ + skipped_of_layers(ls@),
    decreases ls,
{
    let ghost ls0 = ls;
    let mut rest = ls;
    let ghost mut i: int = 0;
    while rest.len() > 0
        invariant
            0 <= i <= ls0@.len(),
            rest@ =~= ls0@.skip(i),
            out@ == old(out)@ + flat_of_layers(ls0@.take(i)),
            diags@ == old(diags)@ + skipped_of_layers(ls0@.take(i)),
        decreases rest@.len(),
    {
        let l = rest.remove(0);
        proof {
            assert(l == ls0@[i]);
            assert(rest@ =~= ls0@.skip(i + 1));
            assert(decreases_to!(ls0 => ls0@));
            assert(decreases_to!(ls0@ => ls0@[i]));
        }
        flatten_layer(l, out, diags);
        proof {
            assert(ls0@.take(i + 1) =~= ls0@.take(i) + seq![l]);
            lemma_flat_append(ls0@.take(i), seq![l]);
            lemma_flat_singleton(l);
            assert(out@ =~= old(out)@ + flat_of_layers(ls0@.take(i + 1)));
            assert(diags@ =~= old(diags)@ + skipped_of_layers(ls0@.take(i + 1)));
            i = i + 1;
        }
    }
    proof {
        assert(ls0@.take(i) =~= ls0@);
    }
}

/// Flatten a layer tree into the ordered sequence of its tile and object
/// elements, depth-first, groups expanded in place; the second result
/// records one diagnostic per skipped unsupported layer. The index of an
/// element in the result is the ZLevel ingestion assigns to its entities.
pub fn flatten_layer_tree(ls: Vec<Layer>) -> (r: (Vec<FlatLayer>, Vec<Diagnostic>))
    ensures
        r.0@ == flat_of_layers(ls@),
        r.1@ == skipped_of_layers(ls@),
{
    let mut out: Vec<FlatLayer> = Vec::new();
    let mut diags: Vec<Diagnostic> = Vec::new();
    flatten_layers(ls, &mut out, &mut diags);
    proof {
        assert(out@ =~= flat_of_layers(ls@));
        assert(diags@ =~= skipped_of_layers(ls@));
    }
    (out, diags)
}

} // verus!
