//! Setting or borrowing a slot of a vector, growing the vector as needed.

use vstd::prelude::*;

verus! {

/// `v` grown to hold index `index`, with every new slot holding a value that
/// `T::default()` may return.
pub open spec fn grown_to<T: Default>(old_v: Seq<T>, new_v: Seq<T>, index: nat) -> bool {
    &&& new_v.len() == if index < old_v.len() { old_v.len() } else { index + 1 }
    &&& forall|i: int| 0 <= i < old_v.len() ==> #[trigger] new_v[i] == old_v[i]
    &&& forall|i: int|
        old_v.len() <= i < new_v.len() ==> call_ensures(T::default, (), #[trigger] new_v[i])
}

pub trait OrExtend<T>: Sized {
    /// Sets slot `index` to `value`, first growing with default values.
    fn set_or_extend(&mut self, index: usize, value: T);

    /// Borrows slot `index`, first growing with default values.
    fn get_mut_or_extend(&mut self, index: usize) -> &mut T;
}

impl<T: Default> OrExtend<T> for Vec<T> {
    fn set_or_extend(&mut self, index: usize, value: T)
        ensures
            exists|grown: Seq<T>|
                {
                    &&& grown_to(old(self)@, grown, index as nat)
                    &&& final(self)@ == grown.update(index as int, value)
                },
    {
        grow_to(self, index);
        self.set(index, value);
    }

    fn get_mut_or_extend(&mut self, index: usize) -> (r: &mut T)
        ensures
            exists|grown: Seq<T>|
                {
                    &&& grown_to(old(self)@, grown, index as nat)
                    &&& *r == grown[index as int]
                    &&& final(self)@ == grown.update(index as int, *final(r))
                },
    {
        grow_to(self, index);
        &mut self[index]
    }
}

/// Pushes default values until `index` is a slot of `v`.
fn grow_to<T: Default>(v: &mut Vec<T>, index: usize)
    ensures
        grown_to(old(v)@, final(v)@, index as nat),
{
    let ghost start = v@;
    while v.len() <= index
        invariant
            start.len() <= v@.len(),
            v@.len() <= index + 1 || v@.len() == start.len(),
            forall|i: int| 0 <= i < start.len() ==> #[trigger] v@[i] == start[i],
            forall|i: int| start.len() <= i < v@.len() ==> call_ensures(T::default, (), #[trigger] v@[i]),
        decreases index + 1 - v@.len(),
    {
        let d = T::default();
        v.push(d);
    }
}

} // verus!
