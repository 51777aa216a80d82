//! General statements about the container's model, proved once and usable by
//! every client.

use vstd::prelude::*;

verus! {

use crate::IdoKeyT;
use crate::container::Ido;
use crate::container::set_transition;

/// Overwriting renews the order slot: after an overwrite of the entry at
/// slot `pos`, every other occupied slot is unchanged and the overwritten
/// key occupies the new final slot, so it comes after every key not touched
/// since.
pub proof fn lemma_overwrite_moves_to_end(
    order: Seq<Option<IdoKeyT>>,
    pos: int,
    k: IdoKeyT,
)
    requires
        0 <= pos < order.len(),
    ensures
        ({
            let renewed = order.update(pos, None).push(Some(k));
            &&& renewed.len() == order.len() + 1
            &&& renewed[order.len() as int] == Some(k)
            &&& renewed[pos] is None
            &&& forall|p: int| 0 <= p < order.len() && p != pos ==> renewed[p] == order[p]
        }),
{
}

/// After a clear, order numbering starts again at zero: a set on any
/// container whose order index is empty — a fresh or a cleared one — gives
/// the new entry order position zero.
pub proof fn lemma_numbering_restarts(mid: Ido, post: Ido, k: IdoKeyT)
    requires
        mid.spec_order().len() == 0,
        set_transition(mid, post, k),
    ensures
        post.spec_slot(k) == Some(0usize),
        post.spec_order().len() == 1,
        post.spec_order()[0] == Some(k),
{
}

/// Serialization is read-only and deterministic: two serializations of an
/// unchanged container are the same text, since each equals the container's
/// one serialized text.
pub proof fn lemma_serialization_deterministic(d: Ido, s1: Seq<char>, s2: Seq<char>)
    requires
        s1 == crate::container::ido_text(d),
        s2 == crate::container::ido_text(d),
    ensures
        s1 == s2,
{
}

} // verus!
