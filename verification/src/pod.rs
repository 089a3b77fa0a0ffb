//! A growable array of plain values.
use vstd::prelude::*;

verus! {

/// A growable array of plain values.
pub struct Pod<T: Copy> {
    pub data: Vec<T>,
}

impl<T: Copy> Pod<T> {
    /// The values, in order.
    pub open spec fn view(&self) -> Seq<T> {
        self.data@
    }

    /// An empty array.
    pub fn new() -> (r: Self)
        ensures
            r@ == Seq::<T>::empty(),
    {
        Pod { data: Vec::new() }
    }

    /// An empty array with room for `capacity` values.
    pub fn with_capacity(capacity: usize) -> (r: Self)
        ensures
            r@ == Seq::<T>::empty(),
    {
        Pod { data: Vec::with_capacity(capacity) }
    }

    /// Adds `t` at the end.
    pub fn push(&mut self, t: T)
        ensures
            final(self)@ == old(self)@.push(t),
    {
        self.data.push(t);
    }

    /// Removes every value.
    pub fn clear(&mut self)
        ensures
            final(self)@ == Seq::<T>::empty(),
    {
        self.data.clear();
    }

    /// Puts `value` at position `i`, moving the values from there on up one.
    pub fn insert(&mut self, i: usize, value: T)
        requires
            i <= old(self)@.len(),
        ensures
            final(self)@ == old(self)@.insert(i as int, value),
    {
        self.data.insert(i, value);
    }

    /// Replaces the values from `start` up to `end` with `values`.
    pub fn splice(&mut self, start: usize, end: usize, values: Vec<T>)
        requires
            start <= end <= old(self)@.len(),
        ensures
            final(self)@ == old(self)@.subrange(0, start as int) + values@ + old(self)@.subrange(
                end as int,
                old(self)@.len() as int,
            ),
    {
        self._splice(start, end, values)
    }

    /// Replaces the values from `start` up to `end` with `values`: the
    /// values overwrite the range in order; what is left of the range when
    /// they run out is removed, and what is left of them when the range is
    /// full is put in after it.
    fn _splice(&mut self, start: usize, end: usize, values: Vec<T>)
        requires
            start <= end <= old(self)@.len(),
        ensures
            final(self)@ == old(self)@.subrange(0, start as int) + values@ + old(self)@.subrange(
                end as int,
                old(self)@.len() as int,
            ),
    {
        let ghost old_data = self.data@;
        let mut current = start;
        let mut k: usize = 0;
        while current < end && k < values.len()
            invariant
                start <= current <= end,
                end <= old_data.len(),
                k == current - start,
                k <= values@.len(),
                self.data@.len() == old_data.len(),
                self.data@ == old_data.subrange(0, start as int) + values@.subrange(0, k as int)
                    + old_data.subrange(current as int, old_data.len() as int),
            decreases end - current,
        {
            self.data.set(current, values[k]);
            proof {
                assert(self.data@ =~= old_data.subrange(0, start as int) + values@.subrange(0, k + 1)
                    + old_data.subrange(current + 1, old_data.len() as int));
            }
            current += 1;
            k += 1;
        }
        if current < end {
            let ghost kept = old_data.subrange(0, start as int) + values@.subrange(0, k as int);
            let mut j = current;
            while j < end
                invariant
                    current <= j <= end,
                    end <= old_data.len(),
                    kept.len() == current,
                    self.data@ == kept + old_data.subrange(j as int, old_data.len() as int),
                decreases end - j,
            {
                self.data.remove(current);
                proof {
                    assert(self.data@ =~= kept + old_data.subrange(j + 1, old_data.len() as int));
                }
                j += 1;
            }
            proof {
                assert(values@.subrange(0, k as int) =~= values@);
            }
        } else {
            let mut at = current;
            while k < values.len()
                invariant
                    start <= end <= old_data.len(),
                    k <= values@.len(),
                    at == start + k,
                    self.data@ == old_data.subrange(0, start as int) + values@.subrange(0, k as int)
                        + old_data.subrange(end as int, old_data.len() as int),
                decreases values@.len() - k,
            {
                proof {
                    assert(self.data@.len() == start + k + (old_data.len() - end));
                }
                self.data.insert(at, values[k]);
                proof {
                    assert(self.data@ =~= old_data.subrange(0, start as int) + values@.subrange(0, k + 1)
                        + old_data.subrange(end as int, old_data.len() as int));
                    assert(at < self.data.len());
                }
                at += 1;
                k += 1;
            }
            proof {
                assert(values@.subrange(0, k as int) =~= values@);
            }
        }
    }

    /// Removes the last value and returns it; `None` on an empty array.
    pub fn pop(&mut self) -> (r: Option<T>)
        ensures
            old(self)@.len() == 0 ==> r is None && final(self)@ == old(self)@,
            old(self)@.len() > 0 ==> r == Some(old(self)@.last()) && final(self)@ == old(self)@.drop_last(),
    {
        self.data.pop()
    }

    /// Removes the value at position `i` and returns it.
    pub fn remove(&mut self, i: usize) -> (r: T)
        requires
            i < old(self)@.len(),
        ensures
            r == old(self)@[i as int],
            final(self)@ == old(self)@.remove(i as int),
    {
        self.data.remove(i)
    }

    /// Adds `repeat` copies of `t` at the end.
    pub fn push_repeat(&mut self, t: T, repeat: usize)
        ensures
            final(self)@ == old(self)@ + Seq::new(repeat as nat, |i: int| t),
    {
        let ghost before = self.data@;
        let mut i: usize = 0;
        while i < repeat
            invariant
                i <= repeat,
                self.data@ == before + Seq::new(i as nat, |j: int| t),
            decreases repeat - i,
        {
            self.data.push(t);
            proof {
                assert(self.data@ =~= before + Seq::new((i + 1) as nat, |j: int| t));
            }
            i += 1;
        }
    }

    /// Makes room for at least `additional` more values. The room an
    /// allocation gives is not part of the array's value, so only the values
    /// are stated, which stay as they are.
    pub fn reserve(&mut self, additional: usize)
        ensures
            final(self)@ == old(self)@,
    {
        self.data.reserve(additional);
    }

    /// Gives back the room not taken by values; as with `reserve`, only the
    /// values, which stay as they are, are stated.
    pub fn shrink_to_fit(&mut self)
        ensures
            final(self)@ == old(self)@,
    {
        shrink_vec(&mut self.data);
    }

    /// The value at position `i` to change in place, if there is one.
    pub fn get_mut(&mut self, i: usize) -> (r: Option<&mut T>)
        ensures
            match r {
                Some(e) => i < old(self)@.len() && *e == old(self)@[i as int] && final(self)@ == old(
                    self,
                )@.update(i as int, *final(e)),
                None => i >= old(self)@.len() && final(self)@ == old(self)@,
            },
    {
        if i < self.data.len() {
            Some(&mut self.data[i])
        } else {
            None
        }
    }

    /// The number of values.
    pub fn len(&self) -> (r: usize)
        ensures
            r == self@.len(),
    {
        self.data.len()
    }

    /// The value at position `i`, if there is one.
    pub fn get(&self, i: usize) -> (r: Option<&T>)
        ensures
            r == (if i < self@.len() {
                Some(&self@[i as int])
            } else {
                None
            }),
    {
        if i < self.data.len() {
            Some(&self.data[i])
        } else {
            None
        }
    }

    /// The values from `start` up to `end`, if that is a range of the array.
    pub fn get_slice(&self, start: usize, end: usize) -> (r: Option<&[T]>)
        ensures
            match r {
                Some(s) => start <= end <= self@.len() && s@ == self@.subrange(start as int, end as int),
                None => !(start <= end <= self@.len()),
            },
    {
        if start <= end && end <= self.data.len() {
            Some(&self.data.as_slice()[start..end])
        } else {
            None
        }
    }
}

/// Shrinks the room `v` holds as far as it can: `Vec::shrink_to_fit`,
/// which by its documentation keeps the contents as they are.
#[verifier::external_body]
fn shrink_vec<T>(v: &mut Vec<T>)
    ensures
        final(v)@ == old(v)@,
{
    v.shrink_to_fit();
}

} // verus!
