//! Short lists of cells, kept in place without allocation while they are
//! short.

use vstd::prelude::*;
use smallvec::SmallVec;

verus! {

/// A list of cells in a `SmallVec` with room for 32 cells in place.
#[verifier::external_body]
pub struct CellList {
    inner: SmallVec<[(usize, usize); 32]>,
}

/// The cells that a list holds, the one pushed first coming first.
pub uninterp spec fn cells_of(list: CellList) -> Seq<(usize, usize)>;

/// `SmallVec::new`: a list that holds nothing.
#[verifier::external_body]
pub(crate) fn small_new() -> (list: CellList)
    ensures
        cells_of(list) == Seq::<(usize, usize)>::empty(),
{
    CellList { inner: SmallVec::new() }
}

/// `SmallVec::push` on a list that still has room in place, so that nothing
/// is allocated: the list holds what it held, and then `item`.
#[verifier::external_body]
pub(crate) fn small_push(list: &mut CellList, item: (usize, usize))
    requires
        cells_of(*old(list)).len() < 32,
    ensures
        cells_of(*final(list)) == cells_of(*old(list)).push(item),
{
    list.inner.push(item)
}

/// `SmallVec::into_vec`: a vector of what the list held, in the same order.
#[verifier::external_body]
pub(crate) fn small_into_vec(list: CellList) -> (out: Vec<(usize, usize)>)
    ensures
        out@ == cells_of(list),
{
    list.inner.into_vec()
}

} // verus!
