use vstd::prelude::*;

verus! {

/// A fixed run of flags, packed eight to a byte.
pub struct FlagVec(Vec<u8>);

/// Flag `k` of a byte, counted from the least significant bit.
pub open spec fn bit(byte: u8, k: u8) -> bool {
    byte & (1u8 << k) != 0
}

proof fn lemma_bit_zero(k: u8)
    by (bit_vector)
    requires
        k < 8,
    ensures
        !bit(0u8, k),
{
}

proof fn lemma_bit_raise(byte: u8, k: u8, j: u8)
    by (bit_vector)
    requires
        k < 8,
        j < 8,
    ensures
        bit(byte | (1u8 << k), j) == (j == k || bit(byte, j)),
{
}

proof fn lemma_bit_lower(byte: u8, k: u8, j: u8)
    by (bit_vector)
    requires
        k < 8,
        j < 8,
    ensures
        bit(byte & !(1u8 << k), j) == (j != k && bit(byte, j)),
{
}

impl FlagVec {
    /// The flags, one `bool` for each position that the bytes can hold.
    pub closed spec fn view(&self) -> Seq<bool> {
        Seq::new((self.0@.len() * 8) as nat, |i: int| bit(self.0@[i / 8], (i % 8) as u8))
    }

    /// As many lowered flags as whole bytes are needed to hold `capacity` of them.
    pub fn with_capacity(capacity: usize) -> (flags: Self)
        ensures
            flags@.len() == 8 * ((capacity + 7) / 8),
            flags@.len() >= capacity,
            forall|i: int| 0 <= i < flags@.len() ==> !flags@[i],
    {
        let bytes: usize = if capacity % 8 == 0 {
            capacity / 8
        } else {
            capacity / 8 + 1
        };
        let flags = FlagVec(vec![0u8; bytes]);
        assert forall|i: int| 0 <= i < flags@.len() implies !flags@[i] by {
            lemma_bit_zero((i % 8) as u8);
        }
        flags
    }

    /// Raises flag `i`.
    pub fn set(&mut self, i: usize)
        requires
            i < old(self)@.len(),
        ensures
            final(self)@ == old(self)@.update(i as int, true),
    {
        let k: u8 = (i % 8) as u8;
        let block: u8 = self.0[i / 8];
        self.0[i / 8] = block | (1u8 << k);
        proof {
            assert forall|j: int| 0 <= j < self@.len() implies self@[j] == old(self)@.update(
                i as int,
                true,
            )[j] by {
                if j / 8 == i / 8 {
                    lemma_bit_raise(block, k, (j % 8) as u8);
                }
            }
            assert(self@ =~= old(self)@.update(i as int, true));
        }
    }

    /// Lowers flag `i` and tells whether it was raised.
    pub fn clear(&mut self, i: usize) -> (was: bool)
        requires
            i < old(self)@.len(),
        ensures
            was == old(self)@[i as int],
            final(self)@ == old(self)@.update(i as int, false),
    {
        let k: u8 = (i % 8) as u8;
        let block: u8 = self.0[i / 8];
        let mask: u8 = 1u8 << k;
        let was = (block & mask) != 0;
        self.0[i / 8] = block & !mask;
        proof {
            assert forall|j: int| 0 <= j < self@.len() implies self@[j] == old(self)@.update(
                i as int,
                false,
            )[j] by {
                if j / 8 == i / 8 {
                    lemma_bit_lower(block, k, (j % 8) as u8);
                }
            }
            assert(self@ =~= old(self)@.update(i as int, false));
        }
        was
    }

    /// Reads flag `i`.
    pub fn get(&self, i: usize) -> (is: bool)
        requires
            i < self@.len(),
        ensures
            is == self@[i as int],
    {
        let k: u8 = (i % 8) as u8;
        (self.0[i / 8] & (1u8 << k)) != 0
    }
}

} // verus!
