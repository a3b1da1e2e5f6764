use vstd::prelude::*;
use rstar::primitives::{GeomWithData, Rectangle};
use rstar::{RTree, AABB};
use crate::geometry::{Envelope, meets};

verus! {

/// A bulk-loaded R*-tree over a snapshot of boxes; entry `j` carries its index `j`.
#[verifier::external_body]
pub struct EnvelopeIndex {
    tree: RTree<GeomWithData<Rectangle<[i64; 2]>, usize>>,
}

/// The boxes an index was built from, in the order they were given.
pub uninterp spec fn indexed_boxes(t: EnvelopeIndex) -> Seq<Envelope>;

pub open spec fn proper(e: Envelope) -> bool {
    e.min_x <= e.max_x && e.min_y <= e.max_y
}

/// Relies on rstar::RTree::bulk_load: the tree stores every element it is given,
/// once each. Rectangle::from_corners keeps a box whose corners are already ordered.
#[verifier::external_body]
pub(crate) fn build_index(boxes: &Vec<Envelope>) -> (r: EnvelopeIndex)
    requires
        forall|j: int| 0 <= j < boxes.len() ==> proper(#[trigger] boxes[j]),
    ensures
        indexed_boxes(r) == boxes@,
{
    let items = boxes.iter().enumerate().map(|(j, b)| {
        GeomWithData::new(Rectangle::from_corners([b.min_x, b.min_y], [b.max_x, b.max_y]), j)
    }).collect();
    EnvelopeIndex { tree: RTree::bulk_load(items) }
}

/// Relies on rstar::RTree::locate_in_envelope_intersecting: it yields each stored
/// element whose box shares a point with the query box (AABB::intersects), once.
#[verifier::external_body]
pub(crate) fn query_index(t: &EnvelopeIndex, q: Envelope) -> (r: Vec<usize>)
    requires
        proper(q),
    ensures
        r@.no_duplicates(),
        forall|j: usize|
            #![trigger r@.contains(j)]
            r@.contains(j) <==> (j < indexed_boxes(*t).len() && meets(
                indexed_boxes(*t)[j as int],
                q,
            )),
{
    let query = AABB::from_corners([q.min_x, q.min_y], [q.max_x, q.max_y]);
    t.tree.locate_in_envelope_intersecting(&query).map(|g| g.data).collect()
}

} // verus!
