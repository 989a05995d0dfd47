//! The value-mask and value-list pair that closes many requests.
//!
//! Both halves are derived from one mapping from bit position to value, so
//! they cannot disagree: the mask has exactly the bits of the positions that
//! hold a value, and the list holds those values in ascending bit order.

use crate::error::ValidationError;
use crate::wire::{put_u32, u32_bytes, Endianness};
use vstd::arithmetic::div_mod::{lemma_fundamental_div_mod_converse, lemma_hoist_over_denominator};
use vstd::arithmetic::power2::{
    lemma2_to64, lemma_pow2_adds, lemma_pow2_pos, lemma_pow2_strictly_increases,
    lemma_pow2_unfold, pow2,
};
use vstd::prelude::*;

verus! {

/// The values held at positions below `n`, in ascending order of position.
pub open spec fn values_upto(slots: Seq<Option<u32>>, n: int) -> Seq<u32>
    decreases n,
{
    if n <= 0 {
        Seq::empty()
    } else {
        let below = values_upto(slots, n - 1);
        match slots[n - 1] {
            Some(v) => below.push(v),
            None => below,
        }
    }
}

/// The number whose binary digits are the occupied positions below `n`.
pub open spec fn mask_upto(slots: Seq<Option<u32>>, n: int) -> nat
    decreases n,
{
    if n <= 0 {
        0
    } else if slots[n - 1] is Some {
        mask_upto(slots, n - 1) + pow2((n - 1) as nat)
    } else {
        mask_upto(slots, n - 1)
    }
}

/// The wire image of a list of 32-bit values, one after the other.
pub open spec fn values_image(order: Endianness, values: Seq<u32>) -> Seq<u8>
    decreases values.len(),
{
    if values.len() == 0 {
        Seq::empty()
    } else {
        values_image(order, values.drop_last()) + u32_bytes(order, values.last())
    }
}

/// The values below `a` are a prefix of the values below `b`.
pub proof fn lemma_values_prefix(slots: Seq<Option<u32>>, a: int, b: int)
    requires
        0 <= a <= b,
    ensures
        values_upto(slots, a).len() <= values_upto(slots, b).len(),
        values_upto(slots, b).subrange(0, values_upto(slots, a).len() as int) == values_upto(
            slots,
            a,
        ),
    decreases b - a,
{
    if a < b {
        lemma_values_prefix(slots, a, b - 1);
    }
}

/// There are never more values than positions.
pub proof fn lemma_values_len_bound(slots: Seq<Option<u32>>, n: int)
    requires
        0 <= n,
    ensures
        values_upto(slots, n).len() <= n,
    decreases n,
{
    if n > 0 {
        lemma_values_len_bound(slots, n - 1);
    }
}

/// Positions at or above `n` do not matter to the values below `n`.
pub proof fn lemma_values_ignore_above(
    slots: Seq<Option<u32>>,
    bit: int,
    entry: Option<u32>,
    n: int,
)
    requires
        0 <= n <= bit < slots.len(),
    ensures
        values_upto(slots.update(bit, entry), n) == values_upto(slots, n),
    decreases n,
{
    if n > 0 {
        lemma_values_ignore_above(slots, bit, entry, n - 1);
    }
}

/// Emptying an occupied position removes exactly its entry from the list:
/// the entries before it and after it stay, in their order. Emptying a free
/// position changes nothing.
pub proof fn lemma_clear_removes_one_entry(slots: Seq<Option<u32>>, bit: int, n: int)
    requires
        0 <= bit < n <= slots.len(),
    ensures
        values_upto(slots.update(bit, None), n) == if slots[bit] is Some {
            values_upto(slots, n).remove(values_upto(slots, bit).len() as int)
        } else {
            values_upto(slots, n)
        },
    decreases n,
{
    let rank = values_upto(slots, bit).len() as int;
    if bit == n - 1 {
        lemma_values_ignore_above(slots, bit, None, bit);
        if slots[bit] is Some {
            assert(values_upto(slots, n).remove(rank) =~= values_upto(slots, bit));
        }
    } else {
        lemma_clear_removes_one_entry(slots, bit, n - 1);
        if slots[bit] is Some {
            lemma_values_prefix(slots, bit + 1, n - 1);
            let below = values_upto(slots, n - 1);
            match slots[n - 1] {
                Some(v) => {
                    assert(below.push(v).remove(rank) =~= below.remove(rank).push(v));
                },
                None => {},
            }
        }
    }
}

/// Filling a free position inserts its value at the position's rank; filling
/// an occupied position replaces the value there. No other entry changes.
pub proof fn lemma_set_places_one_entry(slots: Seq<Option<u32>>, bit: int, value: u32, n: int)
    requires
        0 <= bit < n <= slots.len(),
    ensures
        values_upto(slots.update(bit, Some(value)), n) == if slots[bit] is Some {
            values_upto(slots, n).update(values_upto(slots, bit).len() as int, value)
        } else {
            values_upto(slots, n).insert(values_upto(slots, bit).len() as int, value)
        },
    decreases n,
{
    let rank = values_upto(slots, bit).len() as int;
    if bit == n - 1 {
        lemma_values_ignore_above(slots, bit, Some(value), bit);
        let below = values_upto(slots, bit);
        if slots[bit] is Some {
            assert(values_upto(slots, n).update(rank, value) =~= below.push(value));
        } else {
            assert(below.insert(rank, value) =~= below.push(value));
        }
    } else {
        lemma_set_places_one_entry(slots, bit, value, n - 1);
        lemma_values_prefix(slots, bit, n - 1);
        let below = values_upto(slots, n - 1);
        if slots[bit] is Some {
            lemma_values_prefix(slots, bit + 1, n - 1);
            match slots[n - 1] {
                Some(v) => {
                    assert(below.push(v).update(rank, value) =~= below.update(rank, value).push(v));
                },
                None => {},
            }
        } else {
            match slots[n - 1] {
                Some(v) => {
                    assert(below.push(v).insert(rank, value) =~= below.insert(rank, value).push(v));
                },
                None => {},
            }
        }
    }
}

/// The digit that position `bit` contributes to a mask.
pub open spec fn digit(entry: Option<u32>, bit: int) -> nat {
    if entry is Some {
        pow2(bit as nat)
    } else {
        0
    }
}

/// Changing one position changes the mask by that position's digit only.
pub proof fn lemma_mask_changes_one_digit(
    slots: Seq<Option<u32>>,
    bit: int,
    entry: Option<u32>,
    n: int,
)
    requires
        0 <= bit < slots.len(),
        0 <= n <= slots.len(),
    ensures
        mask_upto(slots.update(bit, entry), n) == if bit < n {
            mask_upto(slots, n) - digit(slots[bit], bit) + digit(entry, bit)
        } else {
            mask_upto(slots, n) as int
        },
        bit < n ==> mask_upto(slots, n) >= digit(slots[bit], bit),
    decreases n,
{
    if n > 0 {
        lemma_mask_changes_one_digit(slots, bit, entry, n - 1);
    }
}

/// A mapping without values has an empty list and a zero mask.
pub proof fn lemma_nothing_held(slots: Seq<Option<u32>>, n: int)
    requires
        0 <= n <= slots.len(),
        forall|b: int| 0 <= b < slots.len() ==> slots[b] is None,
    ensures
        values_upto(slots, n) == Seq::<u32>::empty(),
        mask_upto(slots, n) == 0,
    decreases n,
{
    if n > 0 {
        lemma_nothing_held(slots, n - 1);
    }
}

/// The mask of the positions below `n` has no digit at or above `n`.
pub proof fn lemma_mask_bound(slots: Seq<Option<u32>>, n: int)
    requires
        0 <= n,
    ensures
        mask_upto(slots, n) < pow2(n as nat),
    decreases n,
{
    if n > 0 {
        lemma_mask_bound(slots, n - 1);
        lemma_pow2_unfold(n as nat);
    } else {
        lemma2_to64();
    }
}

/// Bit `bit` of a mask is set exactly when position `bit` holds a value: the
/// mask, halved `bit` times, is odd if and only if it does.
pub proof fn lemma_mask_has_bit(slots: Seq<Option<u32>>, bit: int, n: int)
    requires
        0 <= bit < n,
    ensures
        (mask_upto(slots, n) as int / pow2(bit as nat) as int) % 2 == (if slots[bit] is Some {
            1int
        } else {
            0int
        }),
    decreases n,
{
    let d = pow2(bit as nat) as int;
    lemma_pow2_pos(bit as nat);
    let below = mask_upto(slots, n - 1) as int;
    let whole = mask_upto(slots, n) as int;
    if bit == n - 1 {
        lemma_mask_bound(slots, bit);
        if slots[bit] is Some {
            assert(whole == 1 * d + below);
            lemma_fundamental_div_mod_converse(whole, d, 1, below);
        } else {
            assert(whole == 0 * d + below);
            lemma_fundamental_div_mod_converse(whole, d, 0, below);
        }
    } else {
        lemma_mask_has_bit(slots, bit, n - 1);
        if slots[n - 1] is Some {
            let gap = (n - 1 - bit) as nat;
            lemma_pow2_adds(gap, bit as nat);
            lemma_pow2_unfold(gap);
            let half = pow2((gap - 1) as nat) as int;
            let k = 2 * half;
            assert(pow2((n - 1) as nat) == k * d);
            lemma_hoist_over_denominator(below, k, d as nat);
            assert(whole == below + k * d);
            assert(whole / d == below / d + k);
            assert((below / d + 2 * half) % 2 == (below / d) % 2);
        }
    }
}

/// Every value takes four bytes on the wire.
pub proof fn lemma_values_image_len(order: Endianness, values: Seq<u32>)
    ensures
        values_image(order, values).len() == 4 * values.len(),
    decreases values.len(),
{
    if values.len() > 0 {
        lemma_values_image_len(order, values.drop_last());
    }
}

/// An ordered mapping from bit position (0 to 31) to a 32-bit value.
#[derive(Clone, Copy, Debug)]
pub struct ValueList {
    slots: [Option<u32>; 32],
}

impl View for ValueList {
    type V = Seq<Option<u32>>;

    /// Entry `b` is the value at bit position `b`, if there is one.
    closed spec fn view(&self) -> Seq<Option<u32>> {
        self.slots@
    }
}

impl ValueList {
    /// The value-mask: bit `b` is set exactly when position `b` holds a value.
    pub open spec fn mask_value(&self) -> nat {
        mask_upto(self@, 32)
    }

    /// The value-list: the values held, in ascending order of bit position.
    pub open spec fn list(&self) -> Seq<u32> {
        values_upto(self@, 32)
    }

    /// The index in the value-list at which position `bit` stands or would stand.
    pub open spec fn rank(&self, bit: int) -> int {
        values_upto(self@, bit).len() as int
    }

    /// The wire image: the 4-byte mask followed by the list.
    pub open spec fn image(&self, order: Endianness) -> Seq<u8> {
        u32_bytes(order, self.mask_value() as u32) + values_image(order, self.list())
    }

    /// A mapping always has 32 positions, its mask fits in 32 bits, and its
    /// list has at most 32 entries.
    pub proof fn lemma_shape(&self)
        ensures
            self@.len() == 32,
            self.mask_value() <= u32::MAX,
            self.list().len() <= 32,
            self.image(Endianness::Big).len() == 4 + 4 * self.list().len(),
            self.image(Endianness::Little).len() == 4 + 4 * self.list().len(),
    {
        lemma_mask_bound(self@, 32);
        lemma2_to64();
        lemma_values_len_bound(self@, 32);
        lemma_values_image_len(Endianness::Big, self.list());
        lemma_values_image_len(Endianness::Little, self.list());
    }

    /// Bit `bit` of the mask is set exactly when position `bit` holds a value.
    pub proof fn lemma_mask_bit(&self, bit: int)
        requires
            0 <= bit < 32,
        ensures
            (self.mask_value() as int / pow2(bit as nat) as int) % 2 == 1 <==> self@[bit] is Some,
    {
        lemma_mask_has_bit(self@, bit, 32);
    }

    /// The mapping that holds no value.
    pub fn new() -> (r: ValueList)
        ensures
            r@ == Seq::new(32, |b: int| None::<u32>),
            r.list() == Seq::<u32>::empty(),
            r.mask_value() == 0,
    {
        let r = ValueList { slots: [None;32] };
        proof {
            assert(r@ =~= Seq::new(32, |b: int| None::<u32>));
            lemma_nothing_held(r@, 32);
        }
        r
    }

    /// The value at `bit`, if the position exists and holds one.
    pub fn get(&self, bit: u8) -> (r: Option<u32>)
        ensures
            r == if bit < 32 {
                self@[bit as int]
            } else {
                None
            },
    {
        if bit < 32 {
            self.slots[bit as usize]
        } else {
            None
        }
    }

    /// Puts `value` at `bit`. Positions beyond the mask's 32 bits are refused
    /// and leave the mapping as it was.
    pub fn set(&mut self, bit: u8, value: u32) -> (r: Result<(), ValidationError>)
        ensures
            final(self)@.len() == 32,
            bit < 32 ==> r is Ok && final(self)@ == old(self)@.update(bit as int, Some(value)),
            bit < 32 && old(self)@[bit as int] is Some ==> ({
                &&& final(self).list() == old(self).list().update(old(self).rank(bit as int), value)
                &&& final(self).mask_value() == old(self).mask_value()
            }),
            bit < 32 && old(self)@[bit as int] is None ==> ({
                &&& final(self).list() == old(self).list().insert(old(self).rank(bit as int), value)
                &&& final(self).mask_value() == old(self).mask_value() + pow2(bit as nat)
            }),
            bit >= 32 ==> r == Err::<(), ValidationError>(ValidationError::BitOutOfRange)
                && *final(self) == *old(self),
    {
        if bit >= 32 {
            return Err(ValidationError::BitOutOfRange);
        }
        proof {
            lemma_set_places_one_entry(self@, bit as int, value, 32);
            lemma_mask_changes_one_digit(self@, bit as int, Some(value), 32);
        }
        self.slots[bit as usize] = Some(value);
        Ok(())
    }

    /// Empties `bit` and returns what it held. The entry of that position
    /// leaves the list; every other entry stays where it was relative to the
    /// rest.
    pub fn clear(&mut self, bit: u8) -> (r: Option<u32>)
        ensures
            final(self)@.len() == 32,
            bit < 32 ==> r == old(self)@[bit as int] && final(self)@ == old(self)@.update(
                bit as int,
                None,
            ),
            bit < 32 && r is Some ==> final(self).list() == old(self).list().remove(
                old(self).rank(bit as int),
            ),
            r is None ==> ({
                &&& final(self).list() == old(self).list()
                &&& final(self).mask_value() == old(self).mask_value()
            }),
            bit < 32 && r is Some ==> final(self).mask_value() == old(self).mask_value() - pow2(
                bit as nat,
            ),
            bit >= 32 ==> r is None && *final(self) == *old(self),
    {
        if bit >= 32 {
            return None;
        }
        proof {
            lemma_clear_removes_one_entry(self@, bit as int, 32);
            lemma_mask_changes_one_digit(self@, bit as int, None, 32);
        }
        let held = self.slots[bit as usize];
        self.slots[bit as usize] = None;
        held
    }

    /// The 4-byte value-mask.
    pub fn mask(&self) -> (m: u32)
        ensures
            m == self.mask_value(),
    {
        let mut acc: u64 = 0;
        let mut weight: u64 = 1;
        let mut bit: usize = 0;
        proof {
            lemma2_to64();
        }
        while bit < 32
            invariant
                bit <= 32,
                self@.len() == 32,
                weight == pow2(bit as nat),
                acc == mask_upto(self@, bit as int),
                acc < weight,
                pow2(32) == 0x1_0000_0000,
            decreases 32 - bit,
        {
            proof {
                lemma_pow2_unfold((bit + 1) as nat);
                if bit < 31 {
                    lemma_pow2_strictly_increases((bit + 1) as nat, 32);
                }
            }
            if self.slots[bit].is_some() {
                acc = acc + weight;
            }
            weight = weight * 2;
            bit = bit + 1;
        }
        acc as u32
    }

    /// The number of values held.
    pub fn len(&self) -> (n: usize)
        ensures
            n == self.list().len(),
            n <= 32,
    {
        let mut n: usize = 0;
        let mut bit: usize = 0;
        while bit < 32
            invariant
                bit <= 32,
                self@.len() == 32,
                n == values_upto(self@, bit as int).len(),
                n <= bit,
            decreases 32 - bit,
        {
            if self.slots[bit].is_some() {
                n = n + 1;
            }
            bit = bit + 1;
        }
        n
    }

    /// The value-list: the values held, in ascending order of bit position.
    pub fn values(&self) -> (list: Vec<u32>)
        ensures
            list@ == self.list(),
    {
        let mut list: Vec<u32> = Vec::new();
        let mut bit: usize = 0;
        while bit < 32
            invariant
                bit <= 32,
                self@.len() == 32,
                list@ == values_upto(self@, bit as int),
            decreases 32 - bit,
        {
            match self.slots[bit] {
                Some(v) => {
                    list.push(v);
                },
                None => {},
            }
            bit = bit + 1;
        }
        list
    }

    /// Appends the wire image: the mask, then each value in list order.
    pub fn write_to(&self, order: Endianness, buf: &mut Vec<u8>)
        ensures
            final(buf)@ == old(buf)@ + self.image(order),
    {
        let mask: u32 = self.mask();
        put_u32(buf, order, mask);
        let ghost start = buf@;
        let mut bit: usize = 0;
        while bit < 32
            invariant
                bit <= 32,
                self@.len() == 32,
                buf@ == start + values_image(order, values_upto(self@, bit as int)),
            decreases 32 - bit,
        {
            match self.slots[bit] {
                Some(v) => {
                    let ghost below = values_upto(self@, bit as int);
                    put_u32(buf, order, v);
                    proof {
                        assert(below.push(v).drop_last() =~= below);
                        assert(buf@ =~= start + values_image(order, below.push(v)));
                    }
                },
                None => {},
            }
            bit = bit + 1;
        }
        assert(buf@ =~= old(buf)@ + self.image(order));
    }
}

} // verus!
