//! Dense storage using a bitmask.

use vstd::prelude::*;

verus! {

/// Whether bit `k` of `m` is set.
pub open spec fn bit64(m: u64, k: int) -> bool {
    0 <= k < 64 && (m >> (k as u64)) & 1 == 1
}

/// The number of set bits of `m` below position `k`: the rank of key `k` in
/// the dense value array.
pub open spec fn rank64(m: u64, k: int) -> nat
    decreases k,
{
    if k <= 0 {
        0
    } else {
        rank64(m, k - 1) + if bit64(m, k - 1) {
            1nat
        } else {
            0nat
        }
    }
}

/// Ranks grow with the position.
proof fn lemma_rank_le(m: u64, k1: int, k2: int)
    requires
        k1 <= k2,
    ensures
        rank64(m, k1) <= rank64(m, k2),
    decreases k2 - k1,
{
    if k1 < k2 {
        lemma_rank_le(m, k1, k2 - 1);
    }
}

/// A set bit's rank lies strictly below any later position's rank.
proof fn lemma_rank_lt(m: u64, k1: int, k2: int)
    requires
        bit64(m, k1),
        k1 < k2,
    ensures
        rank64(m, k1) < rank64(m, k2),
{
    lemma_rank_le(m, k1 + 1, k2);
}

/// Setting bit `key` raises by one the rank of every later position and
/// leaves earlier ones alone.
proof fn lemma_rank_set_bit(m: u64, key: u64, k: int)
    requires
        key < 64,
        !bit64(m, key as int),
    ensures
        rank64(m | (1u64 << key), k) == rank64(m, k) + if k > key {
            1nat
        } else {
            0nat
        },
    decreases k,
{
    let m2 = m | (1u64 << key);
    assert((m >> key) & 1 == 0) by (bit_vector)
        requires
            (m >> key) & 1 != 1,
    ;
    assert forall|j: u64| j < 64 implies ((m2 >> j) & 1) == (if j == key {
        1u64
    } else {
        (m >> j) & 1
    }) by {
        assert(((m | (1u64 << key)) >> j) & 1 == (if j == key {
            1u64
        } else {
            (m >> j) & 1
        })) by (bit_vector)
            requires
                j < 64,
                key < 64,
                (m >> key) & 1 == 0,
        ;
    }
    if k > 0 {
        lemma_rank_set_bit(m, key, k - 1);
    }
}

/// Clearing bit `key` lowers by one the rank of every later position and
/// leaves earlier ones alone.
proof fn lemma_rank_clear_bit(m: u64, key: u64, k: int)
    requires
        key < 64,
        bit64(m, key as int),
    ensures
        rank64(m, k) == rank64(m & !(1u64 << key), k) + if k > key {
            1nat
        } else {
            0nat
        },
    decreases k,
{
    let m2 = m & !(1u64 << key);
    assert forall|j: u64| j < 64 implies ((m2 >> j) & 1) == (if j == key {
        0u64
    } else {
        (m >> j) & 1
    }) by {
        assert(((m & !(1u64 << key)) >> j) & 1 == (if j == key {
            0u64
        } else {
            (m >> j) & 1
        })) by (bit_vector)
            requires
                j < 64,
                key < 64,
                (m >> key) & 1 == 1,
        ;
    }
    if k > 0 {
        lemma_rank_clear_bit(m, key, k - 1);
    }
}

/// The zero mask has rank zero everywhere.
proof fn lemma_rank_zero_mask(k: int)
    ensures
        rank64(0u64, k) == 0,
    decreases k,
{
    if k > 0 {
        lemma_rank_zero_mask(k - 1);
        if 0 <= k - 1 < 64 {
            let j = (k - 1) as u64;
            assert((0u64 >> j) & 1 == 0) by (bit_vector);
        }
    }
}

/// A mask whose bits at and above `k` are clear is zero from `k` up.
proof fn lemma_no_bits_zero(m: u64, k: u64)
    requires
        k <= 64,
        forall|j: u64| k <= j < 64 ==> (m >> j) & 1 == 0,
    ensures
        (m >> k) == 0,
    decreases 64 - k,
{
    if k == 64 {
        assert(m >> 64u64 == 0) by (bit_vector);
    } else {
        lemma_no_bits_zero(m, (k + 1) as u64);
        assert((m >> k) == 0) by (bit_vector)
            requires
                k < 64,
                (m >> (k + 1) as u64) == 0,
                (m >> k) & 1 == 0,
        ;
    }
}

/// A mask with no set bits below 64 is zero.
proof fn lemma_rank_zero(m: u64)
    requires
        rank64(m, 64) == 0,
    ensures
        m == 0,
{
    assert forall|j: u64| j < 64 implies (m >> j) & 1 == 0 by {
        if bit64(m, j as int) {
            lemma_rank_lt(m, j as int, 64);
        }
        assert((m >> j) & 1 == 0) by (bit_vector)
            requires
                (m >> j) & 1 != 1,
        ;
    }
    lemma_no_bits_zero(m, 0);
    assert((m >> 0u64) == m) by (bit_vector);
}

/// The single-bit test written by the executable code agrees with `bit64`.
proof fn lemma_bit_test(m: u64, key: u8)
    requires
        key < 64,
    ensures
        bit64(m, key as int) == ((m >> (key as u64)) & 1 == 1),
        ((m >> (key as u64)) & 1 == 1) == ((m >> (key as u64)) & 1 != 0),
{
    assert(((m >> (key as u64)) & 1 == 1) == ((m >> (key as u64)) & 1 != 0)) by (bit_vector);
}

/// A dense map keyed by small integers, implemented with a bitmask.
/// It can hold up to 64 entries.
///
/// Reasons:
/// - O(1) membership without hashing
/// - Dense storage (very small when empty)
///
/// Issues:
/// - O(n) insert / remove (but that happens rarely)
///
/// The values sit in ascending key order, so a key's value lives at the index
/// given by the rank of its bit.
pub struct DenseMap<V> {
    mask: u64,
    values: Vec<V>,
}

impl<V> View for DenseMap<V> {
    type V = Map<u8, V>;

    closed spec fn view(&self) -> Map<u8, V> {
        let m = self.mask;
        let vals = self.values@;
        Map::new(|k: u8| k < 64 && bit64(m, k as int), |k: u8| vals[rank64(m, k as int) as int])
    }
}

impl<V> DenseMap<V> {
    /// Well-formed: one stored value per set bit.
    pub closed spec fn wf(self) -> bool {
        self.values@.len() == rank64(self.mask, 64)
    }

    /// The empty map.
    pub fn new() -> (r: Self)
        ensures
            r.wf(),
            r@ == Map::<u8, V>::empty(),
    {
        let r = DenseMap { mask: 0u64, values: Vec::new() };
        proof {
            lemma_rank_zero_mask(64);
            assert forall|k: u8| !(#[trigger] r@.dom().contains(k)) by {
                assert((0u64 >> (k as u64)) & 1 == 0) by (bit_vector);
            }
            assert(r@ =~= Map::<u8, V>::empty());
        }
        r
    }

    /// The index of a key's value in the dense vector; meaningful when the
    /// key is present.
    fn index(&self, key: u8) -> (r: usize)
        requires
            key < 64,
        ensures
            r == rank64(self.mask, key as int),
    {
        let mut r: usize = 0;
        let mut j: u8 = 0;
        while j < key
            invariant
                j <= key,
                key < 64,
                r == rank64(self.mask, j as int),
                r <= j,
            decreases key - j,
        {
            if (self.mask >> (j as u64)) & 1 == 1 {
                r = r + 1;
            }
            j = j + 1;
        }
        r
    }

    /// Set or update a value.
    pub fn set(&mut self, key: u8, value: V)
        requires
            old(self).wf(),
            key < 64,
        ensures
            final(self).wf(),
            final(self)@ == old(self)@.insert(key, value),
    {
        let bit = 1u64 << (key as u64);
        let ghost m = self.mask;
        proof {
            assert(m & bit == 0 <==> (m >> (key as u64)) & 1 == 0) by (bit_vector)
                requires
                    bit == 1u64 << (key as u64),
                    key < 64,
            ;
            lemma_bit_test(m, key);
        }
        if self.mask & bit == 0 {
            // not set yet: make room at the key's rank
            let i = self.index(key);
            proof {
                lemma_rank_le(m, key as int, 64);
                old(self).values@.insert_ensures(i as int, value);
            }
            self.values.insert(i, value);
            self.mask = self.mask | bit;
            proof {
                let m2 = self.mask;
                assert forall|k: int| true implies rank64(m2, k) == rank64(m, k) + (if k
                    > key as int {
                    1nat
                } else {
                    0nat
                }) by {
                    lemma_rank_set_bit(m, key as u64, k);
                }
                assert(bit64(m2, key as int)) by (bit_vector)
                    requires
                        m2 == m | (1u64 << (key as u64)),
                        key < 64,
                ;
                assert forall|k: u8| k < 64 && k != key implies bit64(m2, k as int) == bit64(
                    m,
                    k as int,
                ) by {
                    assert(((m | (1u64 << (key as u64))) >> (k as u64)) & 1 == (m >> (k as u64))
                        & 1) by (bit_vector)
                        requires
                            k < 64,
                            key < 64,
                            k != key,
                            (m >> (key as u64)) & 1 == 0,
                    ;
                }
                let vals = old(self).values@;
                let vals2 = self.values@;
                let i_ = rank64(m, key as int) as int;
                assert forall|k: u8| #[trigger] final(self)@.dom().contains(k) implies final(self)@[k] == old(self)@.insert(key, value)[k] by {
                    if k == key {
                        assert(rank64(m2, k as int) == i_);
                        assert(vals2[i_] == value);
                    } else {
                        assert(bit64(m, k as int));
                        lemma_rank_lt(m, k as int, 64);
                        if k < key {
                            lemma_rank_lt(m, k as int, key as int);
                            assert(rank64(m2, k as int) == rank64(m, k as int));
                            assert(vals2[rank64(m, k as int) as int] == vals[rank64(m, k as int) as int]);
                        } else {
                            lemma_rank_le(m, key as int + 1, k as int);
                            assert(rank64(m2, k as int) == rank64(m, k as int) + 1);
                            assert(vals2[rank64(m, k as int) as int + 1] == vals[rank64(m, k as int) as int]);
                        }
                    }
                }
                assert(final(self)@ =~= old(self)@.insert(key, value));
            }
        } else {
            // already set: update the value in place
            let i = self.index(key);
            proof {
                lemma_rank_lt(m, key as int, 64);
            }
            self.values[i] = value;
            proof {
                assert forall|k: u8| #[trigger] final(self)@.dom().contains(k) implies final(self)@[k] == old(self)@.insert(key, value)[k] by {
                    if k != key {
                        assert(bit64(m, k as int));
                        lemma_rank_lt(m, k as int, 64);
                        if k < key {
                            lemma_rank_lt(m, k as int, key as int);
                        } else {
                            lemma_rank_lt(m, key as int, k as int);
                        }
                    }
                }
                assert(final(self)@ =~= old(self)@.insert(key, value));
            }
        }
    }

    /// Get a value.
    pub fn get(&self, key: u8) -> (r: Option<&V>)
        requires
            self.wf(),
            key < 64,
        ensures
            match r {
                Some(v) => self@.dom().contains(key) && *v == self@[key],
                None => !self@.dom().contains(key),
            },
    {
        proof {
            lemma_bit_test(self.mask, key);
        }
        if (self.mask >> (key as u64)) & 1 == 0 {
            None
        } else {
            let i = self.index(key);
            proof {
                lemma_rank_lt(self.mask, key as int, 64);
            }
            Some(&self.values[i])
        }
    }

    /// Remove a value.
    pub fn remove(&mut self, key: u8) -> (r: Option<V>)
        requires
            old(self).wf(),
            key < 64,
        ensures
            final(self).wf(),
            final(self)@ == old(self)@.remove(key),
            match r {
                Some(v) => old(self)@.dom().contains(key) && v == old(self)@[key],
                None => !old(self)@.dom().contains(key),
            },
    {
        let bit = 1u64 << (key as u64);
        let ghost m = self.mask;
        proof {
            assert(m & bit == 0 <==> (m >> (key as u64)) & 1 == 0) by (bit_vector)
                requires
                    bit == 1u64 << (key as u64),
                    key < 64,
            ;
            lemma_bit_test(m, key);
        }
        if self.mask & bit == 0 {
            proof {
                assert(final(self)@ =~= old(self)@.remove(key));
            }
            None
        } else {
            let i = self.index(key);
            proof {
                lemma_rank_lt(m, key as int, 64);
                old(self).values@.remove_ensures(i as int);
            }
            self.mask = self.mask & !bit;
            let v = self.values.remove(i);
            proof {
                let m2 = self.mask;
                assert forall|k: int| true implies rank64(m, k) == rank64(m2, k) + (if k
                    > key as int {
                    1nat
                } else {
                    0nat
                }) by {
                    lemma_rank_clear_bit(m, key as u64, k);
                }
                assert(!bit64(m2, key as int)) by (bit_vector)
                    requires
                        m2 == m & !(1u64 << (key as u64)),
                        key < 64,
                ;
                assert forall|k: u8| k < 64 && k != key implies bit64(m2, k as int) == bit64(
                    m,
                    k as int,
                ) by {
                    assert(((m & !(1u64 << (key as u64))) >> (k as u64)) & 1 == (m >> (k as u64))
                        & 1) by (bit_vector)
                        requires
                            k < 64,
                            key < 64,
                            k != key,
                    ;
                }
                let vals = old(self).values@;
                let vals2 = self.values@;
                let i_ = rank64(m, key as int) as int;
                assert forall|k: u8| #[trigger] final(self)@.dom().contains(k) implies final(self)@[k] == old(self)@.remove(key)[k] by {
                    assert(bit64(m2, k as int));
                    assert(k != key);
                    assert(bit64(m, k as int));
                    lemma_rank_lt(m, k as int, 64);
                    if k < key {
                        lemma_rank_lt(m, k as int, key as int);
                        assert(rank64(m2, k as int) == rank64(m, k as int));
                        assert(vals2[rank64(m, k as int) as int] == vals[rank64(m, k as int) as int]);
                    } else {
                        lemma_rank_le(m, key as int + 1, k as int);
                        assert(rank64(m, k as int) == rank64(m2, k as int) + 1);
                        assert(i_ <= rank64(m2, k as int));
                        assert(vals2[rank64(m2, k as int) as int] == vals[rank64(m2, k as int) as int + 1]);
                    }
                }
                assert(final(self)@ =~= old(self)@.remove(key));
            }
            Some(v)
        }
    }

    /// Check if the map is empty.
    pub fn is_empty(&self) -> (r: bool)
        requires
            self.wf(),
        ensures
            r == (self@.dom() =~= Set::<u8>::empty()),
    {
        let r = self.mask == 0;
        proof {
            if self.mask == 0 {
                assert forall|k: u8| !(#[trigger] self@.dom().contains(k)) by {
                    let m = self.mask;
                    assert((m >> (k as u64)) & 1 == 0) by (bit_vector)
                        requires
                            m == 0,
                    ;
                }
                assert(self@.dom() =~= Set::<u8>::empty());
            } else {
                if rank64(self.mask, 64) == 0 {
                    lemma_rank_zero(self.mask);
                }
                assert(self.values@.len() > 0);
                let k = least_key(self.mask, 0);
                lemma_least_key(self.mask, 0);
                assert(self@.dom().contains(k));
            }
        }
        r
    }
}

impl<V> DenseMap<V> {
    /// Get an iterator over set keys and values, in ascending key order.
    pub fn iter(&self) -> (it: DenseMapIter<'_, V>)
        requires
            self.wf(),
        ensures
            it.wf(),
            it.map() == *self,
            it.pos() == 0,
    {
        DenseMapIter { pos: 0, index: 0, map: self }
    }
}

/// Iterator over set keys and values in the dense map, in ascending key
/// order. `pos` is the next key to examine; `index` is the rank of `pos`,
/// the position in the dense value array the next entry sits at.
pub struct DenseMapIter<'a, V> {
    pos: u8,
    index: usize,
    map: &'a DenseMap<V>,
}

impl<'a, V> DenseMapIter<'a, V> {
    /// The map being walked.
    pub closed spec fn map(self) -> DenseMap<V> {
        *self.map
    }

    /// The next key to examine.
    pub closed spec fn pos(self) -> int {
        self.pos as int
    }

    /// Well-formed: the value index is the rank of the scan position.
    pub closed spec fn wf(self) -> bool {
        &&& self.map.wf()
        &&& self.pos <= 64
        &&& self.index == rank64(self.map.mask, self.pos as int)
    }

    /// The next entry in ascending key order: the least present key at or
    /// above the scan position, or `None` when no key is left.
    pub fn next(&mut self) -> (r: Option<(u8, &'a V)>)
        requires
            old(self).wf(),
        ensures
            final(self).wf(),
            final(self).map() == old(self).map(),
            match r {
                Some((k, v)) => {
                    &&& old(self).pos() <= k < 64
                    &&& old(self).map()@.dom().contains(k)
                    &&& *v == old(self).map()@[k]
                    &&& forall|j: u8|
                        old(self).pos() <= j < k ==> !old(self).map()@.dom().contains(j)
                    &&& final(self).pos() == k + 1
                },
                None => {
                    &&& forall|j: u8| old(self).pos() <= j < 64 ==> !old(self).map()@.dom().contains(j)
                    &&& final(self).pos() == 64
                },
            },
    {
        let m = self.map.mask;
        let mut p: u8 = self.pos;
        while p < 64
            invariant
                self == old(self),
                old(self).wf(),
                m == self.map.mask,
                old(self).pos <= p <= 64,
                rank64(m, p as int) == rank64(m, self.pos as int),
                forall|j: u8| self.pos <= j < p ==> !bit64(m, j as int),
            decreases 64 - p,
        {
            proof {
                lemma_bit_test(m, p);
            }
            if (m >> (p as u64)) & 1 == 1 {
                proof {
                    lemma_rank_lt(m, p as int, 64);
                }
                let stored = self.map.values.len();
                let v = &self.map.values[self.index];
                proof {
                    assert(self.index < stored);
                }
                self.index = self.index + 1;
                self.pos = p + 1;
                proof {
                    assert forall|j: u8| old(self).pos() <= j < p implies !old(
                        self,
                    ).map()@.dom().contains(j) by {}
                }
                return Some((p, v));
            }
            p = p + 1;
        }
        self.pos = 64;
        proof {
            assert forall|j: u8| old(self).pos() <= j < 64 implies !old(
                self,
            ).map()@.dom().contains(j) by {}
        }
        None
    }
}

/// Every present key lies below 64.
pub proof fn lemma_keys_bounded<V>(m: &DenseMap<V>)
    ensures
        forall|k: u8| #[trigger] m@.dom().contains(k) ==> k < 64,
{
}

/// The least set bit of `m` at or above `pos`; 64 when there is none.
pub open spec fn least_key(m: u64, pos: int) -> u8
    decreases 64 - pos,
{
    if pos < 0 || pos >= 64 {
        64u8
    } else if bit64(m, pos) {
        pos as u8
    } else {
        least_key(m, pos + 1)
    }
}

/// When a set bit exists at or above `pos`, the least key finds one.
proof fn lemma_least_key(m: u64, pos: int)
    requires
        0 <= pos <= 64,
        rank64(m, 64) > rank64(m, pos),
    ensures
        least_key(m, pos) < 64,
        bit64(m, least_key(m, pos) as int),
        least_key(m, pos) >= pos,
    decreases 64 - pos,
{
    if pos < 64 {
        if !bit64(m, pos) {
            lemma_least_key(m, pos + 1);
        }
    }
}

} // verus!
