//! Tile storage: a map from axial coordinates to per-tile data, backed by a
//! hash table keyed by the two coordinates packed into one 64-bit word. Its
//! mathematical view is a `Map<Axial, T>`.
use vstd::prelude::*;
use vstd::set_lib::lemma_set_subset_finite;
use crate::hex::Axial;
use std::collections::HashMap;

verus! {

broadcast use vstd::std_specs::hash::group_hash_axioms;

/// The hash key a coordinate is stored under: q in the high 32 bits, r in
/// the low 32 bits.
pub closed spec fn pack(a: Axial) -> u64 {
    ((a.q as u32 as u64) << 32) | (a.r as u32 as u64)
}

/// The coordinate a hash key stands for; inverse of `pack`.
pub closed spec fn unpack(k: u64) -> Axial {
    Axial { q: ((k >> 32) as u32) as i32, r: (k as u32) as i32 }
}

proof fn lemma_pack_unpack(a: Axial)
    ensures
        unpack(pack(a)) == a,
{
    let qk = a.q as u32;
    let rk = a.r as u32;
    assert((((qk as u64) << 32) | (rk as u64)) >> 32 == qk as u64) by (bit_vector);
    assert(((((qk as u64) << 32) | (rk as u64)) as u32) == rk) by (bit_vector);
    assert(forall|x: i32| #![trigger x as u32] (x as u32) as i32 == x) by (bit_vector);
    assert(unpack(pack(a)).q == a.q);
    assert(unpack(pack(a)).r == a.r);
}

proof fn lemma_pack_injective(a: Axial, b: Axial)
    requires
        pack(a) == pack(b),
    ensures
        a == b,
{
    lemma_pack_unpack(a);
    lemma_pack_unpack(b);
}

/// A chunk-free stand-in for chunked hex storage: any structure that can
/// get, set and clear tiles by coordinate serves the algorithms equally.
pub struct HexGrid<T> {
    table: HashMap<u64, T>,
}

impl<T> View for HexGrid<T> {
    type V = Map<Axial, T>;

    closed spec fn view(&self) -> Map<Axial, T> {
        Map::new(
            |a: Axial| self.table@.contains_key(pack(a)),
            |a: Axial| self.table@[pack(a)],
        )
    }
}

impl<T> HexGrid<T> {
    pub fn new() -> (g: Self)
        ensures
            g@ == Map::<Axial, T>::empty(),
    {
        let g = HexGrid { table: HashMap::new() };
        proof {
            assert(g@ =~= Map::<Axial, T>::empty());
        }
        g
    }

    /// The tile stored at `a`, or `None` when the grid holds no tile there.
    pub fn get(&self, a: Axial) -> (r: Option<&T>)
        ensures
            match r {
                Some(v) => self@.dom().contains(a) && *v == self@[a],
                None => !self@.dom().contains(a),
            },
    {
        let k: u64 = ((a.q as u32 as u64) << 32) | (a.r as u32 as u64);
        proof {
            assert(k == pack(a));
        }
        self.table.get(&k)
    }

    /// Stores `v` at `a`, replacing any tile already there.
    pub fn set(&mut self, a: Axial, v: T)
        ensures
            final(self)@ == old(self)@.insert(a, v),
    {
        let k: u64 = ((a.q as u32 as u64) << 32) | (a.r as u32 as u64);
        proof {
            assert(k == pack(a));
        }
        self.table.insert(k, v);
        proof {
            assert forall|b: Axial| final(self)@.dom().contains(b) implies old(self)@.insert(
                a,
                v,
            ).dom().contains(b) by {
                if pack(b) == pack(a) {
                    lemma_pack_injective(b, a);
                }
            }
            assert forall|b: Axial| old(self)@.insert(a, v).dom().contains(b) implies final(self)@.dom().contains(
                b,
            ) && final(self)@[b] == old(self)@.insert(a, v)[b] by {
                if b == a {
                } else {
                    assert(pack(b) != pack(a)) by {
                        if pack(b) == pack(a) {
                            lemma_pack_injective(b, a);
                        }
                    }
                }
            }
            assert(final(self)@ =~= old(self)@.insert(a, v));
        }
    }

    /// Removes every tile.
    pub fn clear(&mut self)
        ensures
            final(self)@ == Map::<Axial, T>::empty(),
    {
        self.table.clear();
        proof {
            assert(final(self)@ =~= Map::<Axial, T>::empty());
        }
    }

    /// The grid holds finitely many tiles.
    pub proof fn lemma_dom_finite(&self)
        ensures
            self@.dom().finite(),
    {
        let keys = self.table@.dom();
        let image = keys.map(|k: u64| unpack(k));
        keys.lemma_map_finite(|k: u64| unpack(k));
        assert forall|a: Axial| self@.dom().contains(a) implies image.contains(a) by {
            lemma_pack_unpack(a);
            assert(keys.contains(pack(a)));
        }
        lemma_set_subset_finite(image, self@.dom());
    }
}

} // verus!
