use crate::common_types::IsID;
use vstd::prelude::*;

verus! {

/// A bijection between dense indices `0..n` and external string ids: index `i`
/// stands for the `i`-th distinct id that was added.
pub struct CounterMapper {
    items: Vec<String>,
}

impl View for CounterMapper {
    type V = Seq<Seq<char>>;

    closed spec fn view(&self) -> Seq<Seq<char>> {
        self.items@.map_values(|s: String| s@)
    }
}

impl CounterMapper {
    /// No id occurs twice.
    pub open spec fn wf(&self) -> bool {
        forall|i: int, j: int| 0 <= i < j < self@.len() ==> self@[i] != self@[j]
    }

    pub fn new() -> (r: Self)
        ensures
            r@ == Seq::<Seq<char>>::empty(),
            r.wf(),
    {
        CounterMapper { items: Vec::new() }
    }

    /// The number of ids known.
    pub fn len(&self) -> (r: usize)
        ensures
            r == self@.len(),
    {
        self.items.len()
    }

    /// Position of `item`, if it is known.
    fn position(&self, item: &String) -> (r: Option<usize>)
        ensures
            r.is_some() <==> self@.contains(item@),
            r matches Some(i) ==> i < self@.len() && self@[i as int] == item@,
    {
        let n = self.items.len();
        let mut i: usize = 0;
        while i < n
            invariant
                n == self@.len(),
                i <= n,
                forall|k: int| 0 <= k < i ==> self@[k] != item@,
            decreases n - i,
        {
            proof {
                assert(self@[i as int] == self.items@[i as int]@);
            }
            if self.items[i] == *item {
                return Some(i);
            }
            i = i + 1;
        }
        proof {
            if self@.contains(item@) {
                let k = choose|k: int| 0 <= k < self@.len() && self@[k] == item@;
            }
        }
        None
    }

    /// The index of `new_item`, added as the next index if it is new.
    pub fn add_or_find<U: IsID>(&mut self, new_item: &String) -> (r: U)
        requires
            old(self).wf(),
        ensures
            final(self).wf(),
            old(self)@.contains(new_item@) ==> final(self)@ == old(self)@,
            !old(self)@.contains(new_item@) ==> final(self)@ == old(self)@.push(new_item@),
            r.id() < final(self)@.len(),
            final(self)@[r.id() as int] == new_item@,
    {
        match self.position(new_item) {
            Some(index) => U::from_id(index),
            None => {
                let index = self.items.len();
                self.items.push(new_item.clone());
                proof {
                    assert(self@ == old(self)@.push(new_item@));
                }
                U::from_id(index)
            },
        }
    }

    /// The external id of `index`.
    pub fn map<U: IsID>(&self, index: &U) -> (r: Option<String>)
        ensures
            r.is_some() <==> index.id() < self@.len(),
            r matches Some(s) ==> s@ == self@[index.id() as int],
    {
        let i = index.get_id();
        if i < self.items.len() {
            Some(self.items[i].clone())
        } else {
            None
        }
    }

    /// The index of the external id `item`.
    pub fn reverse_map<U: IsID>(&self, item: &String) -> (r: Option<U>)
        ensures
            r.is_some() <==> self@.contains(item@),
            r matches Some(u) ==> u.id() < self@.len() && self@[u.id() as int] == item@,
    {
        match self.position(item) {
            Some(i) => Some(U::from_id(i)),
            None => None,
        }
    }
}

} // verus!
