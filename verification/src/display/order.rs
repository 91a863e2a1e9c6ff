//! The paint order: a list of layer handles in which priorities never fall
//! and no handle stands twice.

use crate::display::layer::{Layer, LayerData};
use vstd::prelude::*;

verus! {

/// The priority of `layer` as `layers` has it.
pub open spec fn rank_of(layers: Seq<LayerData>, layer: Layer) -> int {
    layers[layer.index() as int].rank() as int
}

/// Every handle in `order` names one of `layers`, none stands twice, and
/// priorities never fall from one to the next.
pub open spec fn ordered(order: Seq<Layer>, layers: Seq<LayerData>) -> bool {
    &&& forall|i: int| 0 <= i < order.len() ==> (#[trigger] order[i]).index() < layers.len()
    &&& forall|i: int, j: int|
        0 <= i < j < order.len() ==> #[trigger] order[i] != #[trigger] order[j]
    &&& forall|i: int, j: int|
        0 <= i <= j < order.len() ==> rank_of(layers, #[trigger] order[i]) <= rank_of(
            layers,
            #[trigger] order[j],
        )
}

/// Every one of `layers` has its handle in `order`, and `order` holds no
/// more handles than there are layers.
pub open spec fn complete(order: Seq<Layer>, layers: Seq<LayerData>) -> bool {
    &&& order.len() == layers.len()
    &&& forall|layer: Layer| layer.index() < layers.len() ==> #[trigger] order.contains(layer)
}

/// Where a layer of priority `rank` goes in `order`: behind every layer of
/// that priority or a lower one, before every layer of a higher one.
pub open spec fn is_slot(order: Seq<Layer>, layers: Seq<LayerData>, rank: int, slot: int) -> bool {
    &&& 0 <= slot <= order.len()
    &&& forall|i: int| 0 <= i < slot ==> rank_of(layers, #[trigger] order[i]) <= rank
    &&& forall|i: int| slot <= i < order.len() ==> rank_of(layers, #[trigger] order[i]) > rank
}

/// A priority has one slot only.
pub proof fn lemma_slot_is_unique(
    order: Seq<Layer>,
    layers: Seq<LayerData>,
    rank: int,
    first: int,
    second: int,
)
    requires
        is_slot(order, layers, rank, first),
        is_slot(order, layers, rank, second),
    ensures
        first == second,
{
    if first < second {
        assert(rank_of(layers, order[first]) > rank);
    } else if second < first {
        assert(rank_of(layers, order[second]) > rank);
    }
}

/// An order stays ordered when the layers change in a way that keeps the
/// priority of every layer in the order.
pub proof fn lemma_ordered_under_change(
    order: Seq<Layer>,
    before: Seq<LayerData>,
    after: Seq<LayerData>,
)
    requires
        ordered(order, before),
        before.len() <= after.len(),
        forall|i: int|
            0 <= i < order.len() ==> rank_of(after, #[trigger] order[i]) == rank_of(before, order[i]),
    ensures
        ordered(order, after),
{
}

/// Putting a handle that is not in the order into the slot of its priority
/// keeps the order ordered.
pub proof fn lemma_insert_keeps_order(
    order: Seq<Layer>,
    layers: Seq<LayerData>,
    layer: Layer,
    slot: int,
)
    requires
        ordered(order, layers),
        layer.index() < layers.len(),
        !order.contains(layer),
        is_slot(order, layers, rank_of(layers, layer), slot),
    ensures
        ordered(order.insert(slot, layer), layers),
        order.insert(slot, layer).contains(layer),
        forall|other: Layer| order.contains(other) ==> order.insert(slot, layer).contains(other),
{
    let after = order.insert(slot, layer);
    assert forall|i: int| 0 <= i < after.len() implies (#[trigger] after[i]).index()
        < layers.len() by {
        if i < slot {
            assert(after[i] == order[i]);
        } else if i > slot {
            assert(after[i] == order[i - 1]);
        }
    }
    assert forall|i: int, j: int| 0 <= i < j < after.len() implies #[trigger] after[i]
        != #[trigger] after[j] by {
        let a = if i < slot {
            i
        } else {
            i - 1
        };
        let b = if j < slot {
            j
        } else {
            j - 1
        };
        if i != slot && j != slot {
            assert(order[a] != order[b]);
        } else if i == slot {
            assert(order.contains(order[b]));
        } else {
            assert(order.contains(order[a]));
        }
    }
    assert forall|i: int, j: int| 0 <= i <= j < after.len() implies rank_of(
        layers,
        #[trigger] after[i],
    ) <= rank_of(layers, #[trigger] after[j]) by {
        let a = if i < slot {
            i
        } else {
            i - 1
        };
        let b = if j < slot {
            j
        } else {
            j - 1
        };
        if i != slot {
            assert(after[i] == order[a]);
        }
        if j != slot {
            assert(after[j] == order[b]);
        }
    }
    assert(after[slot] == layer);
    assert forall|other: Layer| order.contains(other) implies after.contains(other) by {
        let at = choose|at: int| 0 <= at < order.len() && order[at] == other;
        if at < slot {
            assert(after[at] == other);
        } else {
            assert(after[at + 1] == other);
        }
    }
}

/// Taking a handle out of the order keeps the order ordered, leaves that
/// handle out of it, and keeps every other handle in.
pub proof fn lemma_remove_keeps_order(order: Seq<Layer>, layers: Seq<LayerData>, from: int)
    requires
        ordered(order, layers),
        0 <= from < order.len(),
    ensures
        ordered(order.remove(from), layers),
        !order.remove(from).contains(order[from]),
        forall|other: Layer|
            order.contains(other) && other != order[from] ==> order.remove(from).contains(other),
{
    let after = order.remove(from);
    assert forall|i: int| 0 <= i < after.len() implies (#[trigger] after[i]).index()
        < layers.len() by {
        if i < from {
            assert(after[i] == order[i]);
        } else {
            assert(after[i] == order[i + 1]);
        }
    }
    assert forall|i: int, j: int| 0 <= i < j < after.len() implies #[trigger] after[i]
        != #[trigger] after[j] by {
        let a = if i < from {
            i
        } else {
            i + 1
        };
        let b = if j < from {
            j
        } else {
            j + 1
        };
        assert(order[a] != order[b]);
    }
    assert forall|i: int, j: int| 0 <= i <= j < after.len() implies rank_of(
        layers,
        #[trigger] after[i],
    ) <= rank_of(layers, #[trigger] after[j]) by {
        let a = if i < from {
            i
        } else {
            i + 1
        };
        let b = if j < from {
            j
        } else {
            j + 1
        };
        assert(after[i] == order[a]);
        assert(after[j] == order[b]);
    }
    if after.contains(order[from]) {
        let at = choose|at: int| 0 <= at < after.len() && after[at] == order[from];
        let a = if at < from {
            at
        } else {
            at + 1
        };
        assert(order[a] == order[from]);
        if a < from {
            assert(order[a] != order[from]);
        } else {
            assert(order[from] != order[a]);
        }
    }
    assert forall|other: Layer| order.contains(other) && other != order[from] implies after.contains(
        other,
    ) by {
        let at = choose|at: int| 0 <= at < order.len() && order[at] == other;
        if at < from {
            assert(after[at] == other);
        } else {
            assert(after[at - 1] == other);
        }
    }
}

/// In an ordered list a layer of a higher priority stands behind every
/// layer of a lower one, so it is painted later.
pub proof fn lemma_higher_rank_is_later(
    order: Seq<Layer>,
    layers: Seq<LayerData>,
    lower: int,
    higher: int,
)
    requires
        ordered(order, layers),
        0 <= lower < order.len(),
        0 <= higher < order.len(),
        rank_of(layers, order[lower]) < rank_of(layers, order[higher]),
    ensures
        lower < higher,
{
    if higher <= lower {
        assert(rank_of(layers, order[higher]) <= rank_of(layers, order[lower]));
    }
}

} // verus!
