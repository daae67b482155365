//! The registry of finished reactors: an `IndexVec` indexed by reactor id,
//! which grows on demand and holds an empty slot for every reactor not yet
//! registered.
use crate::assembler::RunnableReactor;
use crate::ids::ReactorId;
use index_vec::IndexVec;
use vstd::prelude::*;

verus! {

/// Registry of finished reactors, indexed by reactor id.
#[verifier::external_body]
pub struct ReactorSlots {
    raw: IndexVec<ReactorId, Option<RunnableReactor>>,
}

/// What the registry holds, slot by slot.
pub uninterp spec fn slots_of(s: ReactorSlots) -> Seq<Option<RunnableReactor>>;

/// Relies on `IndexVec::new`: an empty vector.
#[verifier::external_body]
pub(crate) fn slots_new() -> (r: ReactorSlots)
    ensures
        slots_of(r) == Seq::<Option<RunnableReactor>>::empty(),
{
    ReactorSlots { raw: IndexVec::new() }
}

/// Relies on `IndexSlice::len`: the number of slots.
#[verifier::external_body]
pub(crate) fn slots_len(s: &ReactorSlots) -> (r: usize)
    ensures
        r == slots_of(*s).len(),
{
    s.raw.len()
}

/// Relies on `IndexVec::resize`: grows to `n` slots, the new ones empty.
#[verifier::external_body]
pub(crate) fn slots_grow(s: &mut ReactorSlots, n: usize)
    requires
        n >= slots_of(*old(s)).len(),
    ensures
        slots_of(*final(s)) == slots_of(*old(s)) + Seq::new(
            (n - slots_of(*old(s)).len()) as nat,
            |i: int| None::<RunnableReactor>,
        ),
{
    s.raw.resize(n, None)
}

/// Relies on indexing an `IndexVec` by `ReactorId`: swaps the slot's content
/// for `x` and returns what it held.
#[verifier::external_body]
pub(crate) fn slots_replace(s: &mut ReactorSlots, id: ReactorId, x: Option<RunnableReactor>) -> (r: Option<
    RunnableReactor,
>)
    requires
        (id.0 as int) < slots_of(*old(s)).len(),
    ensures
        r == slots_of(*old(s))[id.0 as int],
        slots_of(*final(s)) == slots_of(*old(s)).update(id.0 as int, x),
{
    std::mem::replace(&mut s.raw[id], x)
}

/// Relies on the public `raw` vector of an `IndexVec`: the slots in order.
#[verifier::external_body]
pub(crate) fn slots_into_vec(s: ReactorSlots) -> (r: Vec<Option<RunnableReactor>>)
    ensures
        r@ == slots_of(s),
{
    s.raw.raw
}

} // verus!
