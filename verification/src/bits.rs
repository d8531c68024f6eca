//! Fixed-size bit sets made of 16-bit words, with fields of 4 to 64 bits.
use vstd::prelude::*;

verus! {

/// Bit `s` of the word `w`.
pub open spec fn word_bit(w: u16, s: int) -> bool {
    (w >> (s as u16)) & 1u16 == 1u16
}

/// The 4-bit field `s` (counted from the least significant end) of `w`.
pub open spec fn word_u4(w: u16, s: int) -> u8 {
    ((w >> ((s * 4) as u16)) & 0xfu16) as u8
}

/// The 8-bit field `s` (0 for the low byte, 1 for the high one) of `w`.
pub open spec fn word_u8(w: u16, s: int) -> u8 {
    ((w >> ((s * 8) as u16)) & 0xffu16) as u8
}

/// A bit as a number.
pub open spec fn bit_value(b: bool) -> int {
    if b {
        1
    } else {
        0
    }
}

proof fn lemma_word_u4_bits(w: u16, s: u16)
    requires
        s < 4,
    ensures
        word_u4(w, s as int) as int == bit_value(word_bit(w, 4 * s as int)) + 2 * bit_value(
            word_bit(w, 4 * s + 1),
        ) + 4 * bit_value(word_bit(w, 4 * s + 2)) + 8 * bit_value(word_bit(w, 4 * s + 3)),
{
    let f = (w >> (s * 4)) & 0xfu16;
    let b0 = (w >> (4 * s)) & 1u16;
    let b1 = (w >> (4 * s + 1)) & 1u16;
    let b2 = (w >> (4 * s + 2)) & 1u16;
    let b3 = (w >> (4 * s + 3)) & 1u16;
    assert(f == b0 + 2 * b1 + 4 * b2 + 8 * b3 && b0 <= 1 && b1 <= 1 && b2 <= 1 && b3 <= 1) by (bit_vector)
        requires
            s < 4,
            f == (w >> (s * 4)) & 0xfu16,
            b0 == (w >> (4 * s)) & 1u16,
            b1 == (w >> (4 * s + 1)) & 1u16,
            b2 == (w >> (4 * s + 2)) & 1u16,
            b3 == (w >> (4 * s + 3)) & 1u16,
    ;
}

proof fn lemma_set_bit(w: u16, s: u16, value: bool, t: u16)
    requires
        s < 16,
        t < 16,
    ensures
        ({
            let n = (w & !(1u16 << s)) | ((if value { 1u16 } else { 0u16 }) << s);
            &&& t == s ==> (((n >> t) & 1u16 == 1u16) == value)
            &&& t != s ==> ((n >> t) & 1u16 == (w >> t) & 1u16)
        }),
{
    let b: u16 = if value { 1u16 } else { 0u16 };
    assert(b <= 1);
    assert(t == s ==> ((((w & !(1u16 << s)) | (b << s)) >> t) & 1u16 == b)) by (bit_vector)
        requires
            s < 16,
            t < 16,
            b <= 1,
    ;
    assert(t != s ==> ((((w & !(1u16 << s)) | (b << s)) >> t) & 1u16 == (w >> t) & 1u16))
        by (bit_vector)
        requires
            s < 16,
            t < 16,
            b <= 1,
    ;
}

proof fn lemma_set_u4(w: u16, s: u16, value: u16, t: u16)
    requires
        s < 4,
        t < 4,
        value < 16,
    ensures
        ({
            let n = (w & !(0xfu16 << (s * 4))) | (value << (s * 4));
            &&& t == s ==> (n >> (t * 4)) & 0xfu16 == value
            &&& t != s ==> (n >> (t * 4)) & 0xfu16 == (w >> (t * 4)) & 0xfu16
        }),
{
    assert(t == s ==> (((w & !(0xfu16 << (s * 4))) | (value << (s * 4))) >> (t * 4)) & 0xfu16
        == value) by (bit_vector)
        requires
            s < 4,
            t < 4,
            value < 16,
    ;
    assert(t != s ==> (((w & !(0xfu16 << (s * 4))) | (value << (s * 4))) >> (t * 4)) & 0xfu16
        == (w >> (t * 4)) & 0xfu16) by (bit_vector)
        requires
            s < 4,
            t < 4,
            value < 16,
    ;
}

proof fn lemma_set_u8(w: u16, s: u16, value: u16, t: u16)
    requires
        s < 2,
        t < 2,
        value < 256,
    ensures
        ({
            let n = (w & !(0xffu16 << (s * 8))) | (value << (s * 8));
            &&& t == s ==> (n >> (t * 8)) & 0xffu16 == value
            &&& t != s ==> (n >> (t * 8)) & 0xffu16 == (w >> (t * 8)) & 0xffu16
        }),
{
    assert(t == s ==> (((w & !(0xffu16 << (s * 8))) | (value << (s * 8))) >> (t * 8)) & 0xffu16
        == value) by (bit_vector)
        requires
            s < 2,
            t < 2,
            value < 256,
    ;
    assert(t != s ==> (((w & !(0xffu16 << (s * 8))) | (value << (s * 8))) >> (t * 8)) & 0xffu16
        == (w >> (t * 8)) & 0xffu16) by (bit_vector)
        requires
            s < 2,
            t < 2,
            value < 256,
    ;
}

proof fn lemma_word_ops(a: u16, b: u16, t: u16)
    requires
        t < 16,
    ensures
        (((a & b) >> t) & 1u16 == 1u16) == (((a >> t) & 1u16 == 1u16) && ((b >> t) & 1u16
            == 1u16)),
        (((a | b) >> t) & 1u16 == 1u16) == (((a >> t) & 1u16 == 1u16) || ((b >> t) & 1u16
            == 1u16)),
        ((!a >> t) & 1u16 == 1u16) == !((a >> t) & 1u16 == 1u16),
{
    assert((((a & b) >> t) & 1u16 == 1u16) == (((a >> t) & 1u16 == 1u16) && ((b >> t) & 1u16
        == 1u16))) by (bit_vector)
        requires
            t < 16,
    ;
    assert((((a | b) >> t) & 1u16 == 1u16) == (((a >> t) & 1u16 == 1u16) || ((b >> t) & 1u16
        == 1u16))) by (bit_vector)
        requires
            t < 16,
    ;
    assert(((!a >> t) & 1u16 == 1u16) == !((a >> t) & 1u16 == 1u16)) by (bit_vector)
        requires
            t < 16,
    ;
}

/// A set bit of a non-zero word.
proof fn choose_set_bit(w: u16) -> (t: int)
    requires
        w != 0,
    ensures
        0 <= t < 16,
        word_bit(w, t),
{
    assert(exists|t: u16| t < 16 && (w >> t) & 1u16 == 1u16) by {
        assert(w != 0 ==> ((w >> 0u16) & 1u16 == 1u16 || (w >> 1u16) & 1u16 == 1u16 || (w >> 2u16)
            & 1u16 == 1u16 || (w >> 3u16) & 1u16 == 1u16 || (w >> 4u16) & 1u16 == 1u16 || (w
            >> 5u16) & 1u16 == 1u16 || (w >> 6u16) & 1u16 == 1u16 || (w >> 7u16) & 1u16 == 1u16
            || (w >> 8u16) & 1u16 == 1u16 || (w >> 9u16) & 1u16 == 1u16 || (w >> 10u16) & 1u16
            == 1u16 || (w >> 11u16) & 1u16 == 1u16 || (w >> 12u16) & 1u16 == 1u16 || (w >> 13u16)
            & 1u16 == 1u16 || (w >> 14u16) & 1u16 == 1u16 || (w >> 15u16) & 1u16 == 1u16))
            by (bit_vector);
    }
    let t = choose|t: u16| t < 16 && (w >> t) & 1u16 == 1u16;
    t as int
}

/// A fixed-size set of `16 * N` bits, stored in `N` words.
#[derive(Clone, Copy)]
pub struct Bits<const N: usize> {
    v: [u16; N],
}

impl<const N: usize> Default for Bits<N> {
    /// All bits cleared.
    fn default() -> (r: Self)
        ensures
            r.words() == Seq::new(N as nat, |i: int| 0u16),
            forall|i: int| 0 <= i < Self::capacity() ==> !r.spec_has(i),
    {
        Self::zero()
    }
}

impl<const N: usize> Bits<N> {
    /// The words that hold the bits, least significant first.
    pub closed spec fn words(&self) -> Seq<u16> {
        self.v@
    }

    /// There are `N` words.
    pub proof fn lemma_words_len(&self)
        ensures
            self.words().len() == N,
    {
    }

    /// Number of bits held.
    pub open spec fn capacity() -> int {
        N * 16
    }

    /// Whether bit `index` is set.
    pub open spec fn spec_has(&self, index: int) -> bool {
        word_bit(self.words()[index / 16], index % 16)
    }

    /// The value of the 4-bit field `index`.
    pub open spec fn spec_u4(&self, index: int) -> u8 {
        word_u4(self.words()[index / 4], index % 4)
    }

    /// The value of the 8-bit field `index`.
    pub open spec fn spec_u8(&self, index: int) -> u8 {
        word_u8(self.words()[index / 2], index % 2)
    }

    /// The value of the 16-bit field `index`.
    pub open spec fn spec_u16(&self, index: int) -> u16 {
        self.words()[index]
    }

    /// All fields of an all-zero set of words are zero.
    pub proof fn lemma_zero_fields(&self)
        requires
            self.words() == Seq::new(N as nat, |i: int| 0u16),
        ensures
            forall|i: int| 0 <= i < N * 4 ==> #[trigger] self.spec_u4(i) == 0,
            forall|i: int| 0 <= i < N * 2 ==> #[trigger] self.spec_u8(i) == 0,
            forall|i: int| 0 <= i < N ==> #[trigger] self.spec_u16(i) == 0,
            forall|i: int| 0 <= i < N * 16 ==> !#[trigger] self.spec_has(i),
    {
        assert forall|i: int| 0 <= i < N * 4 implies #[trigger] self.spec_u4(i) == 0 by {
            let s = (i % 4) as u16;
            assert((0u16 >> (s * 4)) & 0xfu16 == 0u16) by (bit_vector);
        }
        assert forall|i: int| 0 <= i < N * 2 implies #[trigger] self.spec_u8(i) == 0 by {
            let s = (i % 2) as u16;
            assert((0u16 >> (s * 8)) & 0xffu16 == 0u16) by (bit_vector);
        }
        assert forall|i: int| 0 <= i < N * 16 implies !#[trigger] self.spec_has(i) by {
            let t = (i % 16) as u16;
            assert((0u16 >> t) & 1u16 == 0u16) by (bit_vector);
        }
    }

    /// A 4-bit field is its four bits, the lowest first.
    pub proof fn lemma_u4_bits(&self, index: int)
        requires
            0 <= index < N * 4,
        ensures
            self.spec_u4(index) as int == bit_value(self.spec_has(4 * index)) + 2 * bit_value(
                self.spec_has(4 * index + 1),
            ) + 4 * bit_value(self.spec_has(4 * index + 2)) + 8 * bit_value(
                self.spec_has(4 * index + 3),
            ),
    {
        let q = index / 4;
        let s = index % 4;
        assert(index == 4 * q + s);
        assert((4 * index) / 16 == q && (4 * index) % 16 == 4 * s);
        assert((4 * index + 1) / 16 == q && (4 * index + 1) % 16 == 4 * s + 1);
        assert((4 * index + 2) / 16 == q && (4 * index + 2) % 16 == 4 * s + 2);
        assert((4 * index + 3) / 16 == q && (4 * index + 3) % 16 == 4 * s + 3);
        lemma_word_u4_bits(self.words()[q], s as u16);
    }

    /// No bit is set exactly when none is counted.
    pub proof fn lemma_count_zero(&self, n: int)
        requires
            0 <= n,
        ensures
            self.count_below(n) == 0 <==> forall|j: int| 0 <= j < n ==> !#[trigger] self.spec_has(j),
        decreases n,
    {
        if n > 0 {
            self.lemma_count_zero(n - 1);
        }
    }

    /// All bits cleared.
    pub fn zero() -> (r: Self)
        ensures
            r.words() == Seq::new(N as nat, |i: int| 0u16),
            forall|i: int| 0 <= i < Self::capacity() ==> !r.spec_has(i),
    {
        let r = Self { v: [0u16; N] };
        proof {
            assert(r.words() =~= Seq::new(N as nat, |i: int| 0u16));
            assert forall|i: int| 0 <= i < Self::capacity() implies !r.spec_has(i) by {
                assert(r.words()[i / 16] == 0u16);
                let t = (i % 16) as u16;
                assert(((0u16 >> t) & 1u16) == 0u16) by (bit_vector);
            }
        }
        r
    }

    /// Whether bit `index` is set.
    pub fn has(&self, index: usize) -> (r: bool)
        requires
            index < Self::capacity(),
        ensures
            r == self.spec_has(index as int),
    {
        let w = self.v[index / 16];
        (w >> ((index % 16) as u16)) & 1u16 == 1u16
    }

    /// Sets bit `index` to `value`, keeping every other bit.
    pub fn set(&mut self, index: usize, value: bool)
        requires
            index < Self::capacity(),
        ensures
            final(self).spec_has(index as int) == value,
            forall|i: int|
                #![trigger final(self).spec_has(i)]
                0 <= i < Self::capacity() && i != index ==> final(self).spec_has(i)
                    == old(self).spec_has(i),
    {
        let slot = index / 16;
        let s = (index % 16) as u16;
        let w = self.v[slot];
        let b: u16 = if value { 1u16 } else { 0u16 };
        let n = (w & !(1u16 << s)) | (b << s);
        self.v[slot] = n;
        proof {
            lemma_set_bit(w, s, value, s);
            assert forall|i: int|
                0 <= i < Self::capacity() && i != index implies self.spec_has(i) == old(
                self,
            ).spec_has(i) by {
                if i / 16 == slot as int {
                    lemma_set_bit(w, s, value, (i % 16) as u16);
                }
            }
        }
    }
    /// Number of set bits among the first `n` bits.
    pub open spec fn count_below(&self, n: int) -> nat
        decreases n,
    {
        if n <= 0 {
            0
        } else {
            self.count_below(n - 1) + if self.spec_has(n - 1) {
                1nat
            } else {
                0nat
            }
        }
    }

    /// Number of set bits.
    pub fn count(&self) -> (r: u32)
        requires
            Self::capacity() <= u32::MAX,
        ensures
            r == self.count_below(Self::capacity()),
    {
        let n = N * 16;
        let mut i: usize = 0;
        let mut c: u32 = 0;
        while i < n
            invariant
                n == Self::capacity(),
                n <= u32::MAX,
                i <= n,
                c == self.count_below(i as int),
                c <= i,
            decreases n - i,
        {
            if self.has(i) {
                c = c + 1;
            }
            i = i + 1;
        }
        c
    }

    /// The lowest set bit, if any.
    pub fn first(&self) -> (r: Option<usize>)
        requires
            Self::capacity() <= usize::MAX,
        ensures
            match r {
                Some(i) => i < Self::capacity() && self.spec_has(i as int) && forall|j: int|
                    0 <= j < i ==> !self.spec_has(j),
                None => forall|j: int| 0 <= j < Self::capacity() ==> !self.spec_has(j),
            },
    {
        let n = N * 16;
        let mut i: usize = 0;
        while i < n
            invariant
                n == Self::capacity(),
                i <= n,
                forall|j: int| 0 <= j < i ==> !self.spec_has(j),
            decreases n - i,
        {
            if self.has(i) {
                return Some(i);
            }
            i = i + 1;
        }
        None
    }

    /// The highest set bit, if any.
    pub fn last(&self) -> (r: Option<usize>)
        requires
            Self::capacity() <= usize::MAX,
        ensures
            match r {
                Some(i) => i < Self::capacity() && self.spec_has(i as int) && forall|j: int|
                    i < j < Self::capacity() ==> !self.spec_has(j),
                None => forall|j: int| 0 <= j < Self::capacity() ==> !self.spec_has(j),
            },
    {
        let n = N * 16;
        let mut i: usize = n;
        while i > 0
            invariant
                n == Self::capacity(),
                i <= n,
                forall|j: int| i <= j < n ==> !self.spec_has(j),
            decreases i,
        {
            if self.has(i - 1) {
                return Some(i - 1);
            }
            i = i - 1;
        }
        None
    }

    /// Copies `bits` bits of `src`, starting at `offset`, into the lowest
    /// bits of `self`; the bits above stay as they are.
    pub fn copy_from<const M: usize>(&mut self, src: &Bits<M>, offset: usize, bits: usize)
        requires
            offset + bits <= Bits::<M>::capacity(),
            bits <= Self::capacity(),
            Bits::<M>::capacity() <= usize::MAX,
        ensures
            forall|i: int|
                #![trigger final(self).spec_has(i)]
                0 <= i < bits ==> final(self).spec_has(i) == src.spec_has(offset + i),
            forall|i: int|
                #![trigger final(self).spec_has(i)]
                bits <= i < Self::capacity() ==> final(self).spec_has(i) == old(self).spec_has(i),
    {
        let mut index: usize = 0;
        while index < bits
            invariant
                offset + bits <= Bits::<M>::capacity(),
                Bits::<M>::capacity() <= usize::MAX,
                bits <= Self::capacity(),
                index <= bits,
                forall|i: int| 0 <= i < index ==> self.spec_has(i) == src.spec_has(offset + i),
                forall|i: int|
                    index <= i < Self::capacity() ==> self.spec_has(i) == old(self).spec_has(i),
            decreases bits - index,
        {
            let b = src.has(offset + index);
            self.set(index, b);
            index = index + 1;
        }
    }

    /// The 4-bit field `index`.
    pub fn get_u4(&self, index: usize) -> (r: u8)
        requires
            index < N * 4,
        ensures
            r == self.spec_u4(index as int),
            r < 16,
    {
        let w = self.v[index / 4];
        let sh = ((index % 4) * 4) as u16;
        let r = ((w >> sh) & 0xfu16) as u8;
        proof {
            assert((w >> sh) & 0xfu16 < 16) by (bit_vector);
        }
        r
    }

    /// Sets the 4-bit field `index` to `value`, keeping every other field.
    pub fn set_u4(&mut self, index: usize, value: u8)
        requires
            index < N * 4,
            value < 16,
        ensures
            final(self).spec_u4(index as int) == value,
            forall|i: int|
                #![trigger final(self).spec_u4(i)]
                0 <= i < N * 4 && i != index ==> final(self).spec_u4(i) == old(self).spec_u4(i),
    {
        let slot = index / 4;
        let s = (index % 4) as u16;
        let w = self.v[slot];
        let value16 = value as u16;
        let n = (w & !(0xfu16 << (s * 4))) | (value16 << (s * 4));
        self.v[slot] = n;
        proof {
            lemma_set_u4(w, s, value16, s);
            assert forall|i: int|
                0 <= i < N * 4 && i != index implies self.spec_u4(i) == old(self).spec_u4(i) by {
                if i / 4 == slot as int {
                    lemma_set_u4(w, s, value16, (i % 4) as u16);
                }
            }
        }
    }

    /// The 8-bit field `index`.
    pub fn get_u8(&self, index: usize) -> (r: u8)
        requires
            index < N * 2,
        ensures
            r == self.spec_u8(index as int),
    {
        let w = self.v[index / 2];
        let sh = ((index % 2) * 8) as u16;
        ((w >> sh) & 0xffu16) as u8
    }

    /// Sets the 8-bit field `index` to `value`, keeping every other field.
    pub fn set_u8(&mut self, index: usize, value: u8)
        requires
            index < N * 2,
        ensures
            final(self).spec_u8(index as int) == value,
            forall|i: int|
                #![trigger final(self).spec_u8(i)]
                0 <= i < N * 2 && i != index ==> final(self).spec_u8(i) == old(self).spec_u8(i),
    {
        let slot = index / 2;
        let s = (index % 2) as u16;
        let w = self.v[slot];
        let value16 = value as u16;
        let n = (w & !(0xffu16 << (s * 8))) | (value16 << (s * 8));
        self.v[slot] = n;
        proof {
            lemma_set_u8(w, s, value16, s);
            assert forall|i: int|
                0 <= i < N * 2 && i != index implies self.spec_u8(i) == old(self).spec_u8(i) by {
                if i / 2 == slot as int {
                    lemma_set_u8(w, s, value16, (i % 2) as u16);
                }
            }
        }
    }

    /// The 16-bit field `index`.
    pub fn get_u16(&self, index: usize) -> (r: u16)
        requires
            index < N,
        ensures
            r == self.spec_u16(index as int),
    {
        self.v[index]
    }

    /// Sets the 16-bit field `index` to `value`, keeping every other field.
    pub fn set_u16(&mut self, index: usize, value: u16)
        requires
            index < N,
        ensures
            final(self).words() == old(self).words().update(index as int, value),
            final(self).spec_u16(index as int) == value,
            forall|i: int|
                #![trigger final(self).spec_u16(i)]
                0 <= i < N && i != index ==> final(self).spec_u16(i) == old(self).spec_u16(i),
    {
        self.v[index] = value;
    }

    /// The 32-bit field `index`, made of the words `2 * index` (low half)
    /// and `2 * index + 1` (high half).
    pub open spec fn spec_u32(&self, index: int) -> u32 {
        ((self.words()[2 * index + 1] as u32) << 16u32 | self.words()[2 * index] as u32) as u32
    }

    /// The 32-bit field `index`.
    pub fn get_u32(&self, index: usize) -> (r: u32)
        requires
            index < N / 2,
        ensures
            r == self.spec_u32(index as int),
    {
        (self.v[index * 2 + 1] as u32) << 16u32 | self.v[index * 2] as u32
    }

    /// Sets the 32-bit field `index` to `value`.
    pub fn set_u32(&mut self, index: usize, value: u32)
        requires
            index < N / 2,
        ensures
            final(self).words() == old(self).words().update(2 * index + 1, (value >> 16u32) as u16)
                .update(2 * index, value as u16),
            final(self).spec_u32(index as int) == value,
            final(self).spec_u16(2 * index) == value as u16,
            final(self).spec_u16(2 * index + 1) == (value >> 16u32) as u16,
            forall|i: int|
                #![trigger final(self).spec_u16(i)]
                0 <= i < N && i != 2 * index && i != 2 * index + 1 ==> final(self).spec_u16(i)
                    == old(self).spec_u16(i),
    {
        self.v[index * 2 + 1] = (value >> 16u32) as u16;
        self.v[index * 2] = value as u16;
        proof {
            let hi = (value >> 16u32) as u16;
            let lo = value as u16;
            assert(((hi as u32) << 16u32 | lo as u32) as u32 == value) by (bit_vector)
                requires
                    hi == (value >> 16u32) as u16,
                    lo == value as u16,
            ;
            assert(self.words() =~= old(self).words().update(2 * index + 1, (value >> 16u32) as u16)
                .update(2 * index, value as u16));
        }
    }

    /// The 64-bit field `index`, made of the words `4 * index` (lowest)
    /// to `4 * index + 3` (highest).
    pub open spec fn spec_u64(&self, index: int) -> u64 {
        ((self.words()[4 * index + 3] as u64) << 48u64 | (self.words()[4 * index + 2] as u64)
            << 32u64 | (self.words()[4 * index + 1] as u64) << 16u64 | self.words()[4
            * index] as u64) as u64
    }

    /// The 64-bit field `index`.
    pub fn get_u64(&self, index: usize) -> (r: u64)
        requires
            index < N / 4,
        ensures
            r == self.spec_u64(index as int),
    {
        (self.v[index * 4 + 3] as u64) << 48u64 | (self.v[index * 4 + 2] as u64) << 32u64 | (
        self.v[index * 4 + 1] as u64) << 16u64 | self.v[index * 4] as u64
    }

    /// Sets the 64-bit field `index` to `value`.
    pub fn set_u64(&mut self, index: usize, value: u64)
        requires
            index < N / 4,
        ensures
            final(self).words() == old(self).words().update(4 * index + 3, (value >> 48u64) as u16)
                .update(4 * index + 2, (value >> 32u64) as u16).update(
                4 * index + 1,
                (value >> 16u64) as u16,
            ).update(4 * index, value as u16),
            final(self).spec_u64(index as int) == value,
            forall|k: int|
                0 <= k < 4 ==> #[trigger] final(self).spec_u16(4 * index + k) == (value >> (16 * k) as u64) as u16,
            forall|i: int|
                #![trigger final(self).spec_u16(i)]
                0 <= i < N && !(4 * index <= i < 4 * index + 4) ==> final(self).spec_u16(i)
                    == old(self).spec_u16(i),
    {
        self.v[index * 4 + 3] = (value >> 48u64) as u16;
        self.v[index * 4 + 2] = (value >> 32u64) as u16;
        self.v[index * 4 + 1] = (value >> 16u64) as u16;
        self.v[index * 4] = value as u16;
        proof {
            assert(self.words() =~= old(self).words().update(4 * index + 3, (value >> 48u64) as u16)
                .update(4 * index + 2, (value >> 32u64) as u16).update(
                4 * index + 1,
                (value >> 16u64) as u16,
            ).update(4 * index, value as u16));
            let w3 = (value >> 48u64) as u16;
            let w2 = (value >> 32u64) as u16;
            let w1 = (value >> 16u64) as u16;
            let w0 = value as u16;
            assert(((w3 as u64) << 48u64 | (w2 as u64) << 32u64 | (w1 as u64) << 16u64 | w0 as u64) as u64
                == value) by (bit_vector)
                requires
                    w3 == (value >> 48u64) as u16,
                    w2 == (value >> 32u64) as u16,
                    w1 == (value >> 16u64) as u16,
                    w0 == value as u16,
            ;
            assert forall|k: int| 0 <= k < 4 implies #[trigger] self.spec_u16(4 * index + k) == (value
                >> (16 * k) as u64) as u16 by {
                if k == 0 {
                    assert(value >> 0u64 == value) by (bit_vector);
                }
            }
        }
    }

    /// The bits set in both `self` and `rhs`.
    pub fn bitand(self, rhs: Self) -> (r: Self)
        ensures
            forall|i: int|
                #![trigger r.spec_has(i)]
                0 <= i < Self::capacity() ==> r.spec_has(i) == (self.spec_has(i) && rhs.spec_has(
                    i,
                )),
    {
        let mut r = self;
        let mut k: usize = 0;
        while k < N
            invariant
                k <= N,
                forall|i: int|
                    0 <= i < k * 16 ==> r.spec_has(i) == (self.spec_has(i) && rhs.spec_has(i)),
                forall|j: int| k <= j < N ==> r.words()[j] == self.words()[j],
            decreases N - k,
        {
            let ghost prev = r;
            let a = r.v[k];
            let b = rhs.v[k];
            r.v[k] = a & b;
            proof {
                assert(r.words() == prev.words().update(k as int, a & b));
                assert forall|i: int| 0 <= i < (k + 1) * 16 implies r.spec_has(i) == (
                self.spec_has(i) && rhs.spec_has(i)) by {
                    if i / 16 == k as int {
                        lemma_word_ops(a, b, (i % 16) as u16);
                    } else {
                        assert(r.words()[i / 16] == prev.words()[i / 16]);
                    }
                }
            }
            k = k + 1;
        }
        r
    }

    /// Keeps only the bits also set in `rhs`.
    pub fn bitand_assign(&mut self, rhs: Self)
        ensures
            forall|i: int|
                #![trigger final(self).spec_has(i)]
                0 <= i < Self::capacity() ==> final(self).spec_has(i) == (old(self).spec_has(i)
                    && rhs.spec_has(i)),
    {
        let ghost orig = *self;
        let mut k: usize = 0;
        while k < N
            invariant
                orig == *old(self),
                k <= N,
                forall|i: int|
                    0 <= i < k * 16 ==> self.spec_has(i) == (orig.spec_has(i) && rhs.spec_has(
                        i,
                    )),
                forall|j: int| k <= j < N ==> self.words()[j] == orig.words()[j],
            decreases N - k,
        {
            let ghost prev = *self;
            let a = self.v[k];
            let b = rhs.v[k];
            self.v[k] = a & b;
            proof {
                assert(self.words() == prev.words().update(k as int, a & b));
                assert(orig.words()[k as int] == a);
                assert(rhs.words()[k as int] == b);
                assert forall|i: int|
                    0 <= i < (k + 1) * 16 implies self.spec_has(i) == (orig.spec_has(i)
                    && rhs.spec_has(i)) by {
                    if i / 16 == k as int {
                        lemma_word_ops(a, b, (i % 16) as u16);
                    } else {
                        assert(i < k * 16);
                        assert(self.words()[i / 16] == prev.words()[i / 16]);
                        assert(self.spec_has(i) == prev.spec_has(i));
                        assert(prev.spec_has(i) == (orig.spec_has(i) && rhs.spec_has(i)));
                    }
                }
            }
            k = k + 1;
        }
    }

    /// Adds the bits set in `rhs`.
    pub fn bitor_assign(&mut self, rhs: Self)
        ensures
            forall|i: int|
                #![trigger final(self).spec_has(i)]
                0 <= i < Self::capacity() ==> final(self).spec_has(i) == (old(self).spec_has(i)
                    || rhs.spec_has(i)),
    {
        let ghost orig = *self;
        let mut k: usize = 0;
        while k < N
            invariant
                orig == *old(self),
                k <= N,
                forall|i: int|
                    0 <= i < k * 16 ==> self.spec_has(i) == (orig.spec_has(i) || rhs.spec_has(
                        i,
                    )),
                forall|j: int| k <= j < N ==> self.words()[j] == orig.words()[j],
            decreases N - k,
        {
            let ghost prev = *self;
            let a = self.v[k];
            let b = rhs.v[k];
            self.v[k] = a | b;
            proof {
                assert(self.words() == prev.words().update(k as int, a | b));
                assert(orig.words()[k as int] == a);
                assert(rhs.words()[k as int] == b);
                assert forall|i: int|
                    0 <= i < (k + 1) * 16 implies self.spec_has(i) == (orig.spec_has(i)
                    || rhs.spec_has(i)) by {
                    if i / 16 == k as int {
                        lemma_word_ops(a, b, (i % 16) as u16);
                    } else {
                        assert(i < k * 16);
                        assert(self.words()[i / 16] == prev.words()[i / 16]);
                        assert(self.spec_has(i) == prev.spec_has(i));
                        assert(prev.spec_has(i) == (orig.spec_has(i) || rhs.spec_has(i)));
                    }
                }
            }
            k = k + 1;
        }
    }

    /// Every bit flipped.
    pub fn not(self) -> (r: Self)
        ensures
            forall|i: int|
                #![trigger r.spec_has(i)]
                0 <= i < Self::capacity() ==> r.spec_has(i) == !self.spec_has(i),
    {
        let mut r = self;
        let mut k: usize = 0;
        while k < N
            invariant
                k <= N,
                forall|i: int| 0 <= i < k * 16 ==> r.spec_has(i) == !self.spec_has(i),
                forall|j: int| k <= j < N ==> r.words()[j] == self.words()[j],
            decreases N - k,
        {
            let ghost prev = r;
            let a = r.v[k];
            r.v[k] = !a;
            proof {
                assert(r.words() == prev.words().update(k as int, !a));
                assert forall|i: int| 0 <= i < (k + 1) * 16 implies r.spec_has(i)
                    == !self.spec_has(i) by {
                    if i / 16 == k as int {
                        lemma_word_ops(a, a, (i % 16) as u16);
                    } else {
                        assert(r.words()[i / 16] == prev.words()[i / 16]);
                    }
                }
            }
            k = k + 1;
        }
        r
    }

    /// Whether no bit is set.
    pub fn is_zero(&self) -> (r: bool)
        ensures
            r == forall|i: int| 0 <= i < Self::capacity() ==> !self.spec_has(i),
    {
        let mut k: usize = 0;
        while k < N
            invariant
                k <= N,
                forall|i: int| 0 <= i < k * 16 ==> !self.spec_has(i),
            decreases N - k,
        {
            let w = self.v[k];
            if w != 0 {
                proof {
                    let t = choose_set_bit(w);
                    assert(self.spec_has(k * 16 + t));
                }
                return false;
            }
            proof {
                assert forall|i: int| 0 <= i < (k + 1) * 16 implies !self.spec_has(i) by {
                    if i / 16 == k as int {
                        let t = (i % 16) as u16;
                        assert((0u16 >> t) & 1u16 == 0u16) by (bit_vector);
                    }
                }
            }
            k = k + 1;
        }
        true
    }
}

} // verus!
