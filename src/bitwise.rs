//! Bit-level helpers and the prefix code of a single symbol.

use vstd::prelude::*;

verus! {

/// Bit `i` of the byte `b` (bit 0 is the least significant).
pub open spec fn bit_of(b: u8, i: int) -> bool {
    (b >> (i as u8)) & 1 == 1
}

/// The eight bits of a byte, least significant first.
pub open spec fn byte_bits(b: u8) -> Seq<bool> {
    Seq::new(8, |i: int| bit_of(b, i))
}

/// Every bit of a byte sequence, each byte least significant bit first.
pub open spec fn bits_of(bytes: Seq<u8>) -> Seq<bool> {
    Seq::new(8 * bytes.len(), |i: int| bit_of(bytes[i / 8], i % 8))
}

/// A run of `n` zero bits.
pub open spec fn zero_bits(n: nat) -> Seq<bool> {
    Seq::new(n, |i: int| false)
}

/// Bit `i` of a 32-bit word.
pub open spec fn word_bit(w: u32, i: int) -> bool {
    (w >> (i as u32)) & 1 == 1
}

pub proof fn lemma_byte_bit_shapes(b: u8, k: u8, i: u8)
    requires
        k < 8,
        i < 8,
    ensures
        ((0u8 >> i) & 1 == 1) == false,
        ((1u8 >> i) & 1 == 1) == (i == 0),
        (((b | (1u8 << k)) >> i) & 1 == 1) == (i == k || (b >> i) & 1 == 1),
{
    assert(((0u8 >> i) & 1 == 1) == false) by (bit_vector);
    assert(((1u8 >> i) & 1 == 1) == (i == 0)) by (bit_vector)
        requires
            i < 8,
    ;
    assert((((b | (1u8 << k)) >> i) & 1 == 1) == (i == k || (b >> i) & 1 == 1)) by (bit_vector)
        requires
            k < 8,
            i < 8,
    ;
}

proof fn lemma_word_append_bit(c: u32, bit: u32, n: u32, i: u32)
    requires
        n < 32,
        i < 32,
        c >> n == 0,
        bit <= 1,
    ensures
        (((c | (bit << n)) >> i) & 1 == 1) == (if i < n {
            (c >> i) & 1 == 1
        } else if i == n {
            bit == 1
        } else {
            false
        }),
{
    assert((((c | (bit << n)) >> i) & 1 == 1) == (if i < n {
        (c >> i) & 1 == 1
    } else if i == n {
        bit == 1
    } else {
        false
    })) by (bit_vector)
        requires
            n < 32,
            i < 32,
            c >> n == 0,
            bit <= 1,
    ;
}

proof fn lemma_word_append_clean(c: u32, bit: u32, n: u32)
    requires
        n < 32,
        c >> n == 0,
        bit <= 1,
    ensures
        n + 1 < 32 ==> ((c | (bit << n)) >> ((n + 1) as u32)) == 0,
{
    assert(n + 1 < 32 ==> ((c | (bit << n)) >> ((n + 1) as u32)) == 0) by (bit_vector)
        requires
            n < 32,
            c >> n == 0,
            bit <= 1,
    ;
}

/// The code of one symbol: the first `bit_len` bits of `encoded_symbol`,
/// bit 0 being the first one emitted.
#[derive(Clone, Copy)]
pub struct SymbolCode {
    pub plain_symbol: u8,
    pub encoded_symbol: u32,
    pub bit_len: u8,
}

impl SymbolCode {
    /// At most 32 bits, and no bit set at or above `bit_len`.
    pub open spec fn wf(self) -> bool {
        &&& self.bit_len <= 32
        &&& self.bit_len < 32 ==> (self.encoded_symbol >> (self.bit_len as u32)) == 0
    }

    /// The code as the sequence of bits it emits.
    pub open spec fn bits(self) -> Seq<bool> {
        Seq::new(self.bit_len as nat, |i: int| word_bit(self.encoded_symbol, i))
    }

    /// The empty code of symbol 0.
    pub fn new() -> (r: SymbolCode)
        ensures
            r.plain_symbol == 0,
            r.bit_len == 0,
            r.bits() == Seq::<bool>::empty(),
            r.wf(),
    {
        let r = SymbolCode { plain_symbol: 0, encoded_symbol: 0, bit_len: 0 };
        assert(0u32 >> 0u32 == 0) by (bit_vector);
        assert(r.bits() =~= Seq::<bool>::empty());
        r
    }

    /// The code followed by one more bit (`bit` is 0 or 1).
    pub fn append_bit(&self, bit: u32) -> (r: SymbolCode)
        requires
            self.wf(),
            self.bit_len < 32,
            bit <= 1,
        ensures
            r.wf(),
            r.plain_symbol == self.plain_symbol,
            r.bit_len == self.bit_len + 1,
            r.bits() == self.bits().push(bit == 1),
    {
        let c = self.encoded_symbol;
        let n = self.bit_len as u32;
        let r = SymbolCode {
            plain_symbol: self.plain_symbol,
            encoded_symbol: c | (bit << n),
            bit_len: self.bit_len + 1,
        };
        proof {
            lemma_word_append_clean(c, bit, n);
            assert forall|i: int| 0 <= i < r.bit_len implies #[trigger] r.bits()[i]
                == self.bits().push(bit == 1)[i] by {
                lemma_word_append_bit(c, bit, n, i as u32);
            }
            assert(r.bits() =~= self.bits().push(bit == 1));
        }
        r
    }
}

/// Bit `n` of `num`, as 0 or 1.
pub fn get_bit(num: u32, n: u32) -> (r: u8)
    requires
        n < 32,
    ensures
        r <= 1,
        (r == 1) == word_bit(num, n as int),
{
    let v = (num >> n) & 1;
    assert(v <= 1) by (bit_vector)
        requires
            v == (num >> n) & 1,
    ;
    v as u8
}

/// The byte `num` with bit `n` set.
pub fn set_bit(num: u32, n: u32) -> (r: u8)
    requires
        num < 256,
        n < 8,
    ensures
        r as u32 == (1u32 << n) | num,
        forall|i: int| 0 <= i < 8 ==> #[trigger] bit_of(r, i) == (i == n || bit_of(num as u8, i)),
{
    let v = (1u32 << n) | num;
    assert(v < 256) by (bit_vector)
        requires
            v == (1u32 << n) | num,
            num < 256,
            n < 8,
    ;
    let r = v as u8;
    proof {
        let b = num as u8;
        assert forall|i: int| 0 <= i < 8 implies #[trigger] bit_of(r, i) == (i == n || bit_of(
            b,
            i,
        )) by {
            let k = n as u8;
            let j = i as u8;
            assert(r == b | (1u8 << k)) by (bit_vector)
                requires
                    v == (1u32 << n) | num,
                    num < 256,
                    n < 8,
                    r == v as u8,
                    b == num as u8,
                    k == n as u8,
            ;
            lemma_byte_bit_shapes(b, k, j);
        }
    }
    r
}

} // verus!

verus! {

pub proof fn lemma_bits_of_len(bytes: Seq<u8>)
    ensures
        bits_of(bytes).len() == 8 * bytes.len(),
{
}

/// Appending a byte appends its eight bits.
pub proof fn lemma_bits_of_push(bytes: Seq<u8>, b: u8)
    ensures
        bits_of(bytes.push(b)) == bits_of(bytes) + byte_bits(b),
{
    let l = bits_of(bytes.push(b));
    let r = bits_of(bytes) + byte_bits(b);
    assert forall|j: int| 0 <= j < l.len() implies #[trigger] l[j] == r[j] by {
        if j < 8 * bytes.len() {
            assert(j / 8 < bytes.len());
            assert(bytes.push(b)[j / 8] == bytes[j / 8]);
        } else {
            assert(j / 8 == bytes.len());
            assert(j % 8 == j - 8 * bytes.len());
        }
    }
    assert(l =~= r);
}

/// Appending bytes appends their bits.
pub proof fn lemma_bits_of_add(a: Seq<u8>, b: Seq<u8>)
    ensures
        bits_of(a + b) == bits_of(a) + bits_of(b),
    decreases b.len(),
{
    if b.len() == 0 {
        assert(a + b =~= a);
        assert(bits_of(b) =~= Seq::<bool>::empty());
        assert(bits_of(a) + bits_of(b) =~= bits_of(a));
    } else {
        let c = b.drop_last();
        let x = b.last();
        lemma_bits_of_add(a, c);
        assert(a + b =~= (a + c).push(x));
        assert(b =~= c.push(x));
        lemma_bits_of_push(a + c, x);
        lemma_bits_of_push(c, x);
        assert(bits_of(a) + bits_of(b) =~= bits_of(a) + bits_of(c) + byte_bits(x));
    }
}

} // verus!

verus! {

/// The value of eight bytes read as a little-endian integer.
pub open spec fn u64_le(b: Seq<u8>) -> int {
    b[0] + 256 * (b[1] + 256 * (b[2] + 256 * (b[3] + 256 * (b[4] + 256 * (b[5] + 256 * (b[6]
        + 256 * b[7]))))))
}

/// The eight little-endian bytes of `n`.
#[verifier::opaque]
pub open spec fn le_bytes(n: u64) -> Seq<u8> {
    seq![
        (n % 256) as u8,
        (n / 0x100 % 256) as u8,
        (n / 0x10000 % 256) as u8,
        (n / 0x1000000 % 256) as u8,
        (n / 0x100000000 % 256) as u8,
        (n / 0x10000000000 % 256) as u8,
        (n / 0x1000000000000 % 256) as u8,
        (n / 0x100000000000000 % 256) as u8,
    ]
}

pub proof fn lemma_le_bytes(n: u64)
    ensures
        le_bytes(n).len() == 8,
        u64_le(le_bytes(n)) == n,
{
    reveal(le_bytes);
    let b = le_bytes(n);
    let x1 = n / 0x100;
    let x2 = x1 / 0x100;
    let x3 = x2 / 0x100;
    let x4 = x3 / 0x100;
    let x5 = x4 / 0x100;
    let x6 = x5 / 0x100;
    let x7 = x6 / 0x100;
    assert(x2 == n / 0x10000) by (nonlinear_arith)
        requires
            x1 == n / 0x100,
            x2 == x1 / 0x100,
    ;
    assert(x3 == n / 0x1000000) by (nonlinear_arith)
        requires
            x2 == n / 0x10000,
            x3 == x2 / 0x100,
    ;
    assert(x4 == n / 0x100000000) by (nonlinear_arith)
        requires
            x3 == n / 0x1000000,
            x4 == x3 / 0x100,
    ;
    assert(x5 == n / 0x10000000000) by (nonlinear_arith)
        requires
            x4 == n / 0x100000000,
            x5 == x4 / 0x100,
    ;
    assert(x6 == n / 0x1000000000000) by (nonlinear_arith)
        requires
            x5 == n / 0x10000000000,
            x6 == x5 / 0x100,
    ;
    assert(x7 == n / 0x100000000000000) by (nonlinear_arith)
        requires
            x6 == n / 0x1000000000000,
            x7 == x6 / 0x100,
    ;
    assert(x7 < 256);
}

proof fn lemma_split_byte(n: int, lo: int, hi: int)
    requires
        0 <= lo < 256,
        n == lo + 256 * hi,
    ensures
        n % 256 == lo,
        n / 256 == hi,
{
    vstd::arithmetic::div_mod::lemma_fundamental_div_mod_converse(n, 256, hi, lo);
}

proof fn lemma_div_step(n: int, d: int, x: int)
    requires
        n >= 0,
        d > 0,
        n / d == x,
    ensures
        n / (d * 256) == x / 256,
{
    vstd::arithmetic::div_mod::lemma_div_denominator(n, d, 256);
}

pub proof fn lemma_u64_le(b: Seq<u8>)
    requires
        b.len() == 8,
    ensures
        0 <= u64_le(b) <= u64::MAX,
        le_bytes(u64_le(b) as u64) == b,
{
    reveal(le_bytes);
    let n = u64_le(b);
    let x6 = b[6] + 256 * b[7];
    let x5 = b[5] + 256 * x6;
    let x4 = b[4] + 256 * x5;
    let x3 = b[3] + 256 * x4;
    let x2 = b[2] + 256 * x3;
    let x1 = b[1] + 256 * x2;
    assert(n == b[0] + 256 * x1);
    let m = n as u64;
    lemma_split_byte(n, b[0] as int, x1);
    lemma_split_byte(x1, b[1] as int, x2);
    lemma_split_byte(x2, b[2] as int, x3);
    lemma_split_byte(x3, b[3] as int, x4);
    lemma_split_byte(x4, b[4] as int, x5);
    lemma_split_byte(x5, b[5] as int, x6);
    lemma_split_byte(x6, b[6] as int, b[7] as int);
    lemma_div_step(n, 0x100, x1);
    lemma_div_step(n, 0x10000, x2);
    lemma_div_step(n, 0x1000000, x3);
    lemma_div_step(n, 0x100000000, x4);
    lemma_div_step(n, 0x10000000000, x5);
    lemma_div_step(n, 0x1000000000000, x6);
    assert(le_bytes(m) =~= b);
}

/// The byte whose eight bits are `s`.
pub open spec fn byte_from_bits(s: Seq<bool>) -> u8 {
    choose|b: u8| byte_bits(b) == s
}

pub proof fn lemma_byte_from_bits(b: u8)
    ensures
        byte_from_bits(byte_bits(b)) == b,
{
    assert(exists|x: u8| byte_bits(x) == byte_bits(b)) by {
        assert(byte_bits(b) == byte_bits(b));
    }
    let c = byte_from_bits(byte_bits(b));
    assert(byte_bits(c) == byte_bits(b));
    assert(byte_bits(c)[0] == byte_bits(b)[0]);
    assert(byte_bits(c)[1] == byte_bits(b)[1]);
    assert(byte_bits(c)[2] == byte_bits(b)[2]);
    assert(byte_bits(c)[3] == byte_bits(b)[3]);
    assert(byte_bits(c)[4] == byte_bits(b)[4]);
    assert(byte_bits(c)[5] == byte_bits(b)[5]);
    assert(byte_bits(c)[6] == byte_bits(b)[6]);
    assert(byte_bits(c)[7] == byte_bits(b)[7]);
    assert(c == b) by (bit_vector)
        requires
            ((c >> 0u8) & 1 == 1) == ((b >> 0u8) & 1 == 1),
            ((c >> 1u8) & 1 == 1) == ((b >> 1u8) & 1 == 1),
            ((c >> 2u8) & 1 == 1) == ((b >> 2u8) & 1 == 1),
            ((c >> 3u8) & 1 == 1) == ((b >> 3u8) & 1 == 1),
            ((c >> 4u8) & 1 == 1) == ((b >> 4u8) & 1 == 1),
            ((c >> 5u8) & 1 == 1) == ((b >> 5u8) & 1 == 1),
            ((c >> 6u8) & 1 == 1) == ((b >> 6u8) & 1 == 1),
            ((c >> 7u8) & 1 == 1) == ((b >> 7u8) & 1 == 1),
    ;
}

/// Bytes whose bits agree agree.
pub proof fn lemma_byte_at(a: Seq<u8>, b: Seq<u8>, k: int)
    requires
        0 <= k < a.len(),
        k < b.len(),
        bits_of(a).subrange(8 * k, 8 * k + 8) == bits_of(b).subrange(8 * k, 8 * k + 8),
    ensures
        a[k] == b[k],
{
    assert forall|i: int| 0 <= i < 8 implies #[trigger] byte_bits(a[k])[i] == byte_bits(b[k])[i] by {
        assert(bits_of(a).subrange(8 * k, 8 * k + 8)[i] == bits_of(a)[8 * k + i]);
        assert(bits_of(b).subrange(8 * k, 8 * k + 8)[i] == bits_of(b)[8 * k + i]);
        assert((8 * k + i) / 8 == k);
        assert((8 * k + i) % 8 == i);
    }
    assert(byte_bits(a[k]) =~= byte_bits(b[k]));
    lemma_byte_from_bits(a[k]);
    lemma_byte_from_bits(b[k]);
}

} // verus!
