use vstd::prelude::*;

verus! {

/// Relies on `rand::random::<u32>`: a value drawn from the thread-local
/// generator. Nothing is promised of it.
#[verifier::external_body]
fn random_u32() -> (r: u32) {
    rand::random::<u32>()
}

/// A freshly drawn hue, in degrees, for each of `count` top-level branches.
///
/// The hues do not take part in the layout: a renderer colours every cell of
/// branch `i` (the cells whose path starts with `i`) with hue `i`.
pub fn branch_hues(count: usize) -> (r: Vec<u32>)
    ensures
        r@.len() == count,
        forall|i: int| 0 <= i < count ==> #[trigger] r@[i] < 360,
{
    let mut r: Vec<u32> = Vec::new();
    let mut i: usize = 0;
    while i < count
        invariant
            i <= count,
            r@.len() == i,
            forall|j: int| 0 <= j < i ==> #[trigger] r@[j] < 360,
        decreases count - i,
    {
        r.push(random_u32() % 360);
        i = i + 1;
    }
    r
}

} // verus!
