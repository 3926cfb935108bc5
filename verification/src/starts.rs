//! The indices at which batches begin, kept in order.

use vstd::prelude::*;

verus! {

pub struct Starts {
    sorted: Vec<u32>,
}

impl View for Starts {
    type V = Set<u32>;

    closed spec fn view(&self) -> Set<u32> {
        self.sorted@.to_set()
    }
}

impl Starts {
    /// The indices stand in ascending order, each once.
    pub closed spec fn wf(&self) -> bool {
        forall|i: int, j: int| 0 <= i < j < self.sorted@.len() ==> self.sorted@[i] < self.sorted@[j]
    }

    /// Just the first index of the slot.
    pub fn new() -> (starts: Starts)
        ensures
            starts.wf(),
            starts@ == set![0u32],
    {
        let mut sorted: Vec<u32> = Vec::new();
        sorted.push(0);
        proof {
            assert(sorted@ =~= seq![0u32]);
            assert(sorted@.to_set() =~= set![0u32]) by {
                assert(sorted@[0] == 0);
            }
        }
        Starts { sorted }
    }

    /// How many of the indices are below `index`.
    fn below(&self, index: u32) -> (count: usize)
        requires
            self.wf(),
        ensures
            count <= self.sorted@.len(),
            forall|i: int| 0 <= i < count ==> self.sorted@[i] < index,
            forall|i: int| count <= i < self.sorted@.len() ==> self.sorted@[i] >= index,
    {
        let mut low: usize = 0;
        let mut high: usize = self.sorted.len();
        while low < high
            invariant
                self.wf(),
                low <= high <= self.sorted@.len(),
                forall|i: int| 0 <= i < low ==> self.sorted@[i] < index,
                forall|i: int| high <= i < self.sorted@.len() ==> self.sorted@[i] >= index,
            decreases high - low,
        {
            let mid: usize = low + (high - low) / 2;
            if self.sorted[mid] < index {
                low = mid + 1;
            } else {
                high = mid;
            }
        }
        low
    }

    pub fn contains(&self, index: u32) -> (contains: bool)
        requires
            self.wf(),
        ensures
            contains == self@.contains(index),
    {
        let at: usize = self.below(index);
        let contains = at < self.sorted.len() && self.sorted[at] == index;
        proof {
            if self.sorted@.contains(index) {
                let i = choose|i: int| 0 <= i < self.sorted@.len() && self.sorted@[i] == index;
                assert(at <= i);
                assert(i <= at);
            }
        }
        contains
    }

    pub fn insert(&mut self, index: u32)
        requires
            old(self).wf(),
        ensures
            final(self).wf(),
            final(self)@ == old(self)@.insert(index),
    {
        let ghost before = self.sorted@;
        let at: usize = self.below(index);
        if at < self.sorted.len() && self.sorted[at] == index {
            assert(before.contains(index));
            assert(self@ =~= before.to_set().insert(index));
            return ;
        }
        self.sorted.insert(at, index);
        proof {
            assert forall|other: u32|
                #![trigger self.sorted@.contains(other)]
                #![trigger before.contains(other)]
                self.sorted@.contains(other) <==> before.contains(other) || other == index by {
                if before.contains(other) {
                    let i = choose|i: int| 0 <= i < before.len() && before[i] == other;
                    if i < at {
                        assert(self.sorted@[i] == other);
                    } else {
                        assert(self.sorted@[i + 1] == other);
                    }
                }
                assert(self.sorted@[at as int] == index);
                if self.sorted@.contains(other) {
                    let i = choose|i: int| 0 <= i < self.sorted@.len() && self.sorted@[i] == other;
                    if i < at {
                        assert(before[i] == other);
                    } else if i > at {
                        assert(before[i - 1] == other);
                    }
                }
            }
            assert(self.sorted@.contains(index));
            assert(self@ =~= before.to_set().insert(index));
        }
    }

    pub fn remove(&mut self, index: u32)
        requires
            old(self).wf(),
        ensures
            final(self).wf(),
            final(self)@ == old(self)@.remove(index),
    {
        let ghost before = self.sorted@;
        let at: usize = self.below(index);
        if at < self.sorted.len() && self.sorted[at] == index {
            self.sorted.remove(at);
            proof {
                assert forall|other: u32| self.sorted@.contains(other) <==> before.contains(other)
                    && other != index by {
                    if before.contains(other) && other != index {
                        let i = choose|i: int| 0 <= i < before.len() && before[i] == other;
                        if i < at {
                            assert(self.sorted@[i] == other);
                        } else {
                            assert(self.sorted@[i - 1] == other);
                        }
                    }
                    if self.sorted@.contains(other) {
                        let i = choose|i: int|
                            0 <= i < self.sorted@.len() && self.sorted@[i] == other;
                        if i < at {
                            assert(before[i] == other);
                        } else {
                            assert(before[i + 1] == other);
                        }
                    }
                }
            }
        } else {
            assert(!before.contains(index)) by {
                if before.contains(index) {
                    let i = choose|i: int| 0 <= i < before.len() && before[i] == index;
                    assert(at <= i);
                }
            }
        }
        assert(self@ =~= before.to_set().remove(index));
    }

    /// The highest index that is not above `index`.
    pub fn last_at_most(&self, index: u32) -> (last: Option<u32>)
        requires
            self.wf(),
        ensures
            last is None <==> forall|other: u32| self@.contains(other) ==> other > index,
            last matches Some(last) ==> {
                &&& self@.contains(last)
                &&& last <= index
                &&& forall|other: u32| self@.contains(other) && other <= index ==> other <= last
            },
    {
        let at: usize = self.below(index);
        if at < self.sorted.len() && self.sorted[at] == index {
            assert(self@.contains(index));
            return Some(index);
        }
        if at == 0 {
            return None;
        }
        assert(self@.contains(self.sorted@[at - 1]));
        Some(self.sorted[at - 1])
    }
}

} // verus!
