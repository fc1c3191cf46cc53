//! The areas of an address space, kept in a map from the first page of each
//! area to the area, with the first pages listed in the order of the areas.
//!
//! The map is searched by the first page of an area; the list gives the
//! areas an order, so that they can be walked one after the other.

use crate::vm_area::VmArea;
use std::collections::BTreeMap;
use vstd::prelude::*;

verus! {

/// Whether `starts` lists the keys of `map`, each once, and each key is the
/// first page of its area.
pub open spec fn keyed(map: Map<u64, VmArea>, starts: Seq<u64>) -> bool {
    &&& starts.no_duplicates()
    &&& forall|i: int|
        0 <= i < starts.len() ==> map.dom().contains(#[trigger] starts[i])
            && map[starts[i]].spec_start_vpn() == starts[i]
    &&& forall|key: u64| map.dom().contains(key) ==> starts.contains(key)
}

/// The areas of `map` in the order of `starts`.
pub open spec fn listed(map: Map<u64, VmArea>, starts: Seq<u64>) -> Seq<VmArea> {
    Seq::new(starts.len(), |i: int| map[starts[i]])
}

/// Areas, each under its first page, in an order.
pub struct AreaMap {
    store: (BTreeMap<u64, VmArea>, Vec<u64>),
}

impl View for AreaMap {
    type V = Seq<VmArea>;

    /// The areas in their order.
    closed spec fn view(&self) -> Seq<VmArea> {
        listed(self.store.0@, self.store.1@)
    }
}

impl AreaMap {
    #[verifier::type_invariant]
    closed spec fn wf(self) -> bool {
        keyed(self.store.0@, self.store.1@)
    }

    /// No areas.
    pub fn new() -> (r: Self)
        ensures
            r@ == Seq::<VmArea>::empty(),
    {
        let r = AreaMap { store: (BTreeMap::new(), Vec::new()) };
        assert(r@ =~= Seq::<VmArea>::empty());
        r
    }

    /// Number of areas. No two of them start with the same page.
    pub fn len(&self) -> (r: usize)
        ensures
            r == self@.len(),
            forall|i: int, j: int|
                0 <= i < j < self@.len() ==> (#[trigger] self@[i]).spec_start_vpn() != (
                #[trigger] self@[j]).spec_start_vpn(),
    {
        proof {
            use_type_invariant(self);
        }
        self.store.1.len()
    }

    /// Area `index`.
    pub fn at(&self, index: usize) -> (r: &VmArea)
        requires
            index < self@.len(),
        ensures
            *r == self@[index as int],
    {
        proof {
            use_type_invariant(self);
        }
        let key = self.store.1[index];
        self.store.0.get(&key).unwrap()
    }

    /// Put `area` at position `index` of the order. No area starts with the
    /// first page of `area` yet.
    pub fn insert(&mut self, index: usize, area: VmArea)
        requires
            index <= old(self)@.len(),
            forall|i: int|
                0 <= i < old(self)@.len() ==> (#[trigger] old(self)@[i]).spec_start_vpn()
                    != area.spec_start_vpn(),
        ensures
            final(self)@ == old(self)@.insert(index as int, area),
    {
        proof {
            use_type_invariant(&*self);
        }
        let mut store = (BTreeMap::new(), Vec::new());
        std::mem::swap(&mut store, &mut self.store);
        let ghost map = store.0@;
        let ghost starts = store.1@;
        let key = area.start_vpn().0;
        proof {
            if map.dom().contains(key) {
                assert(starts.contains(key));
                let i = choose|i: int| 0 <= i < starts.len() && starts[i] == key;
                assert(map[starts[i]].spec_start_vpn() == key);
                assert(listed(map, starts)[i] == map[starts[i]]);
                assert(old(self)@[i].spec_start_vpn() == key);
            }
            assert(!map.dom().contains(key));
        }
        let (mut areas, mut keys) = store;
        areas.insert(key, area);
        keys.insert(index, key);
        proof {
            assert(listed(areas@, keys@) =~= listed(map, starts).insert(index as int, area));
            assert forall|k: u64| areas@.dom().contains(k) implies keys@.contains(k) by {
                if k == key {
                    assert(keys@[index as int] == key);
                } else {
                    assert(map.dom().contains(k));
                    assert(starts.contains(k));
                    let i = choose|i: int| 0 <= i < starts.len() && starts[i] == k;
                    if i < index {
                        assert(keys@[i] == k);
                    } else {
                        assert(keys@[i + 1] == k);
                    }
                }
            }
        }
        self.store = (areas, keys);
    }

    /// Take area `index` out.
    pub fn remove(&mut self, index: usize) -> (r: VmArea)
        requires
            index < old(self)@.len(),
        ensures
            r == old(self)@[index as int],
            final(self)@ == old(self)@.remove(index as int),
    {
        proof {
            use_type_invariant(&*self);
        }
        let mut store = (BTreeMap::new(), Vec::new());
        std::mem::swap(&mut store, &mut self.store);
        let ghost map = store.0@;
        let ghost starts = store.1@;
        let (mut areas, mut keys) = store;
        let key = keys.remove(index);
        let area = areas.remove(&key).unwrap();
        proof {
            assert(listed(areas@, keys@) =~= listed(map, starts).remove(index as int));
            assert forall|k: u64| areas@.dom().contains(k) implies keys@.contains(k) by {
                assert(map.dom().contains(k));
                assert(starts.contains(k));
                let i = choose|i: int| 0 <= i < starts.len() && starts[i] == k;
                if i < index {
                    assert(keys@[i] == k);
                } else {
                    assert(keys@[i - 1] == k);
                }
            }
        }
        self.store = (areas, keys);
        area
    }

    /// Take the last area out, where there is one.
    pub fn pop(&mut self) -> (r: Option<VmArea>)
        ensures
            old(self)@.len() == 0 ==> r is None && final(self)@ == old(self)@,
            old(self)@.len() > 0 ==> r == Some(old(self)@.last()) && final(self)@
                == old(self)@.drop_last(),
    {
        let count = self.len();
        if count == 0 {
            None
        } else {
            let area = self.remove(count - 1);
            proof {
                assert(old(self)@.remove(count - 1) =~= old(self)@.drop_last());
            }
            Some(area)
        }
    }
}

} // verus!
