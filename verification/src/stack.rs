use vstd::prelude::*;

verus! {

/// The hash stack used by the decoder: a small vector of 32-byte hash
/// values that stays inline for the depths real trees reach. The vector
/// itself comes from the smallvec crate, so the struct is opaque and its
/// contents are reached through [`hash_stack_view`].
#[verifier::external_body]
pub struct HashStack {
    inner: smallvec::SmallVec<[[u8; 32]; 10]>,
}

/// The stack's contents, bottom first.
pub uninterp spec fn hash_stack_view(v: HashStack) -> Seq<Seq<u8>>;

/// Relies on `smallvec::SmallVec::new`: the new vector is empty.
#[verifier::external_body]
pub(crate) fn stack_new() -> (r: HashStack)
    ensures
        hash_stack_view(r) == Seq::<Seq<u8>>::empty(),
{
    HashStack { inner: smallvec::SmallVec::new() }
}

/// Relies on `smallvec::SmallVec::push`: appends one value at the end.
#[verifier::external_body]
pub(crate) fn stack_push(v: &mut HashStack, h: &[u8; 32])
    ensures
        hash_stack_view(*final(v)) == hash_stack_view(*old(v)).push(h@),
{
    v.inner.push(*h)
}

/// Relies on `smallvec::SmallVec::pop`: removes and returns the last
/// value, or `None` when the vector is empty.
#[verifier::external_body]
pub(crate) fn stack_pop(v: &mut HashStack) -> (r: Option<[u8; 32]>)
    ensures
        match r {
            Some(h) => {
                &&& hash_stack_view(*old(v)).len() > 0
                &&& h@ == hash_stack_view(*old(v)).last()
                &&& hash_stack_view(*final(v)) == hash_stack_view(*old(v)).drop_last()
            },
            None => {
                &&& hash_stack_view(*old(v)).len() == 0
                &&& hash_stack_view(*final(v)) == hash_stack_view(*old(v))
            },
        },
{
    v.inner.pop()
}

/// Relies on `smallvec::SmallVec::len`.
#[verifier::external_body]
pub(crate) fn stack_len(v: &HashStack) -> (r: usize)
    ensures
        r == hash_stack_view(*v).len(),
{
    v.inner.len()
}

} // verus!
