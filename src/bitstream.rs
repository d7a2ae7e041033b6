//! Big-endian, most-significant-bit-first reading of bits and bytes.
use vstd::arithmetic::div_mod::*;
use vstd::arithmetic::power2::*;
use vstd::bits::*;
use vstd::prelude::*;

use crate::error::FlacError;

verus! {

/// Bit `i` of `data`, counting from the most significant bit of the first byte.
pub open spec fn bit_at(data: Seq<u8>, i: int) -> bool {
    (data[i / 8] >> ((7 - i % 8) as u8)) & 1u8 == 1u8
}

/// The unsigned value of the `n` bits of `data` that start at bit `pos`, the first
/// of them the most significant.
pub open spec fn bits_value(data: Seq<u8>, pos: int, n: nat) -> nat
    decreases n,
{
    if n == 0 {
        0
    } else {
        2 * bits_value(data, pos, (n - 1) as nat) + if bit_at(data, pos + n - 1) {
            1nat
        } else {
            0nat
        }
    }
}

/// `v`, an `n`-bit two's complement pattern, as a signed number.
pub open spec fn sign_extend(v: nat, n: nat) -> int {
    if n > 0 && v >= pow2((n - 1) as nat) {
        v - pow2(n)
    } else {
        v as int
    }
}

/// The number of bits in `data`.
pub open spec fn bit_len(data: Seq<u8>) -> int {
    8 * data.len() as int
}

/// Reading `n` bits at `pos`: the value and the position after it.
pub open spec fn read_spec(data: Seq<u8>, pos: int, n: nat) -> Result<(u64, int), FlacError> {
    if pos + n <= bit_len(data) {
        Ok((bits_value(data, pos, n) as u64, pos + n))
    } else {
        Err(FlacError::EndOfStream)
    }
}

/// Reading `n` bits at `pos` as a two's complement number.
pub open spec fn read_signed_spec(data: Seq<u8>, pos: int, n: nat) -> Result<(i64, int), FlacError> {
    if pos + n <= bit_len(data) {
        Ok((sign_extend(bits_value(data, pos, n), n) as i64, pos + n))
    } else {
        Err(FlacError::EndOfStream)
    }
}

/// How many zero bits follow `pos` before a one bit or the end of `data`.
pub open spec fn zero_run(data: Seq<u8>, pos: int) -> nat
    decreases bit_len(data) - pos,
{
    if pos < 0 || pos >= bit_len(data) || bit_at(data, pos) {
        0
    } else {
        1 + zero_run(data, pos + 1)
    }
}

/// Reading a unary count at `pos`: the zero bits before a terminating one bit, which
/// is consumed too.
pub open spec fn unary_spec(data: Seq<u8>, pos: int) -> Result<(u64, int), FlacError> {
    let k = zero_run(data, pos);
    if pos + k < bit_len(data) {
        Ok((k as u64, pos + k + 1))
    } else {
        Err(FlacError::EndOfStream)
    }
}

/// The first multiple of eight at or after `p`.
pub open spec fn align_up(p: int) -> int {
    if p % 8 == 0 {
        p
    } else {
        p + 8 - p % 8
    }
}

/// The number of leading one bits of a byte.
pub open spec fn leading_ones(b: nat) -> nat {
    if b < 0x80 {
        0
    } else if b < 0xC0 {
        1
    } else if b < 0xE0 {
        2
    } else if b < 0xF0 {
        3
    } else if b < 0xF8 {
        4
    } else if b < 0xFC {
        5
    } else if b < 0xFE {
        6
    } else if b < 0xFF {
        7
    } else {
        8
    }
}

/// Reading `count` continuation bytes of a coded number at `pos`, each `10xxxxxx`,
/// onto the payload `acc` read so far.
pub open spec fn coded_tail(data: Seq<u8>, pos: int, count: nat, acc: nat) -> Result<(u64, int), FlacError>
    decreases count,
{
    if count == 0 {
        Ok((acc as u64, pos))
    } else if pos + 8 > bit_len(data) {
        Err(FlacError::EndOfStream)
    } else {
        let c = bits_value(data, pos, 8);
        if c / 64 != 2 {
            Err(FlacError::InvalidCodedNumber)
        } else {
            coded_tail(data, pos + 8, (count - 1) as nat, acc * 64 + c % 64)
        }
    }
}

/// Reading a UTF-8 style coded number at `pos`: a leading byte with `L` leading one
/// bits (`L` is 0, or 2 to 7), and `L - 1` continuation bytes of six payload bits each.
pub open spec fn coded_spec(data: Seq<u8>, pos: int) -> Result<(u64, int), FlacError> {
    if pos + 8 > bit_len(data) {
        Err(FlacError::EndOfStream)
    } else {
        let lead = bits_value(data, pos, 8);
        let l = leading_ones(lead);
        if l == 0 {
            Ok((lead as u64, pos + 8))
        } else if l == 1 || l == 8 {
            Err(FlacError::InvalidCodedNumber)
        } else {
            coded_tail(data, pos + 8, (l - 1) as nat, lead % pow2((7 - l) as nat))
        }
    }
}

pub proof fn lemma_bits_value_bound(data: Seq<u8>, pos: int, n: nat)
    ensures
        bits_value(data, pos, n) < pow2(n),
    decreases n,
{
    lemma2_to64();
    if n > 0 {
        lemma_bits_value_bound(data, pos, (n - 1) as nat);
        lemma_pow2_unfold(n);
    }
}

/// `2^k` for `k < 64`.
pub fn pow2_u64(k: u32) -> (r: u64)
    requires
        k < 64,
    ensures
        r as nat == pow2(k as nat),
{
    proof {
        lemma_u64_pow2_no_overflow(k as nat);
        lemma_pow2_pos(k as nat);
        lemma_u64_shl_is_mul(1u64, k as u64);
    }
    1u64 << (k as u64)
}

/// A cursor over a byte buffer that reads bits most significant first.
pub struct BitReader {
    data: Vec<u8>,
    pos: u64,
}

impl View for BitReader {
    /// The bytes, and the number of bits read so far.
    type V = (Seq<u8>, nat);

    closed spec fn view(&self) -> (Seq<u8>, nat) {
        (self.data@, self.pos as nat)
    }
}

impl BitReader {
    #[verifier::type_invariant]
    spec fn inv(&self) -> bool {
        &&& self.pos <= 8 * self.data@.len()
        &&& 8 * self.data@.len() <= u64::MAX
        &&& self.data@.len() <= usize::MAX
    }

    /// A reader at the first bit of `data`.
    pub fn new(data: Vec<u8>) -> (r: BitReader)
        requires
            8 * data@.len() <= u64::MAX,
        ensures
            r@ == (data@, 0nat),
    {
        // `len` returns a `usize`: this tells the invariant that the length fits one.
        let _len: usize = data.len();
        BitReader { data, pos: 0 }
    }

    /// The index of the byte that holds the next bit.
    pub fn byte_position(&self) -> (r: usize)
        ensures
            r == self@.1 / 8,
            r <= self@.0.len(),
    {
        proof {
            use_type_invariant(self);
        }
        (self.pos / 8) as usize
    }

    /// The number of bits read so far.
    pub fn position(&self) -> (r: u64)
        ensures
            r == self@.1,
            r <= bit_len(self@.0),
    {
        proof {
            use_type_invariant(self);
        }
        self.pos
    }

    /// The number of bits not read yet.
    pub fn bits_left(&self) -> (r: u64)
        ensures
            r == bit_len(self@.0) - self@.1,
    {
        proof {
            use_type_invariant(self);
        }
        self.data.len() as u64 * 8 - self.pos
    }

    /// Whether the next bit is the first of a byte.
    pub fn is_byte_aligned(&self) -> (r: bool)
        ensures
            r == (self@.1 % 8 == 0),
    {
        self.pos % 8 == 0
    }

    /// The bytes under the cursor.
    pub fn data(&self) -> (r: &Vec<u8>)
        ensures
            r@ == self@.0,
    {
        &self.data
    }

    fn peek_bit(&self, p: u64) -> (b: bool)
        requires
            p < bit_len(self@.0),
        ensures
            b == bit_at(self@.0, p as int),
    {
        proof {
            use_type_invariant(self);
        }
        let idx = (p / 8) as usize;
        let byte = self.data[idx];
        let off = (p % 8) as u8;
        proof {
            assert((7 - off) as u8 == (7 - (p as int) % 8) as u8);
        }
        (byte >> (7 - off)) & 1u8 == 1u8
    }

    fn read_bit(&mut self) -> (b: u64)
        requires
            old(self)@.1 < bit_len(old(self)@.0),
        ensures
            final(self)@ == (old(self)@.0, old(self)@.1 + 1),
            b == (if bit_at(old(self)@.0, old(self)@.1 as int) { 1u64 } else { 0u64 }),
    {
        proof {
            use_type_invariant(&*self);
        }
        let set = self.peek_bit(self.pos);
        self.pos = self.pos + 1;
        if set {
            1
        } else {
            0
        }
    }

    /// Reads `n` bits, the first of them the most significant bit of the result.
    /// Past the end it fails with `EndOfStream` and reads nothing.
    pub fn read_bits(&mut self, n: u32) -> (r: Result<u64, FlacError>)
        requires
            n <= 64,
        ensures
            final(self)@.0 == old(self)@.0,
            old(self)@.1 <= final(self)@.1,
            r is Ok ==> r->Ok_0 as nat == bits_value(old(self)@.0, old(self)@.1 as int, n as nat),
            match read_spec(old(self)@.0, old(self)@.1 as int, n as nat) {
                Ok((v, p)) => r == Ok::<u64, FlacError>(v) && final(self)@.1 == p,
                Err(e) => r == Err::<u64, FlacError>(e) && final(self)@ == old(self)@,
            },
    {
        proof {
            use_type_invariant(&*self);
        }
        if n as u64 > self.data.len() as u64 * 8 - self.pos {
            return Err(FlacError::EndOfStream);
        }
        let ghost data = self@.0;
        let ghost start = self@.1 as int;
        let mut v: u64 = 0;
        let mut i: u32 = 0;
        proof {
            lemma2_to64();
        }
        while i < n
            invariant
                i <= n <= 64,
                self@.0 == data,
                self@.1 == start + i,
                start + n <= bit_len(data),
                v as nat == bits_value(data, start, i as nat),
                v < pow2(i as nat),
            decreases n - i,
        {
            let b = self.read_bit();
            proof {
                lemma_pow2_unfold((i + 1) as nat);
                lemma2_to64();
                if i + 1 < 64 {
                    lemma_pow2_strictly_increases((i + 1) as nat, 64);
                }
            }
            v = v * 2 + b;
            i = i + 1;
        }
        Ok(v)
    }

    /// Reads `n` bits and sign-extends them from the first.
    pub fn read_signed_bits(&mut self, n: u32) -> (r: Result<i64, FlacError>)
        requires
            n <= 64,
        ensures
            final(self)@.0 == old(self)@.0,
            old(self)@.1 <= final(self)@.1,
            match read_signed_spec(old(self)@.0, old(self)@.1 as int, n as nat) {
                Ok((v, p)) => r == Ok::<i64, FlacError>(v) && final(self)@.1 == p,
                Err(e) => r == Err::<i64, FlacError>(e) && final(self)@ == old(self)@,
            },
    {
        let v = match self.read_bits(n) {
            Ok(v) => v,
            Err(e) => {
                return Err(e);
            },
        };
        if n == 0 {
            return Ok(0);
        }
        let half = pow2_u64(n - 1);
        proof {
            lemma_pow2_unfold(n as nat);
            lemma2_to64();
            lemma2_to64_rest();
            if n - 1 < 63 {
                lemma_pow2_strictly_increases((n - 1) as nat, 63);
            }
            lemma_bits_value_bound(old(self)@.0, old(self)@.1 as int, n as nat);
        }
        if v >= half {
            Ok(((v - half) as i64) - ((half - 1) as i64) - 1)
        } else {
            Ok(v as i64)
        }
    }

    /// Counts the zero bits before the next one bit, and consumes that one bit too.
    /// Without a one bit before the end it fails with `EndOfStream` and reads nothing.
    pub fn read_unary(&mut self) -> (r: Result<u64, FlacError>)
        ensures
            final(self)@.0 == old(self)@.0,
            old(self)@.1 <= final(self)@.1,
            match unary_spec(old(self)@.0, old(self)@.1 as int) {
                Ok((v, p)) => r == Ok::<u64, FlacError>(v) && final(self)@.1 == p,
                Err(e) => r == Err::<u64, FlacError>(e) && final(self)@ == old(self)@,
            },
    {
        proof {
            use_type_invariant(&*self);
        }
        let ghost data = self@.0;
        let ghost start = self@.1 as int;
        let total = self.data.len() as u64 * 8;
        let mut p = self.pos;
        while p < total && !self.peek_bit(p)
            invariant
                self@.0 == data,
                self@.1 == start,
                total == bit_len(data),
                start <= p <= total,
                zero_run(data, start) == (p - start) + zero_run(data, p as int),
            decreases total - p,
        {
            p = p + 1;
        }
        if p == total {
            return Err(FlacError::EndOfStream);
        }
        let count = p - self.pos;
        self.pos = p + 1;
        Ok(count)
    }

    /// Reads a UTF-8 style coded number of up to 36 bits: the frame or sample number
    /// of a frame header. On failure it reads nothing.
    pub fn read_utf8_coded(&mut self) -> (r: Result<u64, FlacError>)
        ensures
            final(self)@.0 == old(self)@.0,
            old(self)@.1 <= final(self)@.1,
            match coded_spec(old(self)@.0, old(self)@.1 as int) {
                Ok((v, p)) => r == Ok::<u64, FlacError>(v) && final(self)@.1 == p,
                Err(e) => r == Err::<u64, FlacError>(e) && final(self)@ == old(self)@,
            },
            r is Ok ==> old(self)@.1 < final(self)@.1 && (final(self)@.1 - old(self)@.1) % 8 == 0,
    {
        let ghost data = self@.0;
        proof {
            use_type_invariant(&*self);
        }
        let start = self.pos;
        let lead = match self.read_bits(8) {
            Ok(v) => v,
            Err(e) => {
                return Err(e);
            },
        };
        proof {
            lemma2_to64();
            lemma_bits_value_bound(data, old(self)@.1 as int, 8);
        }
        let l: u32 = if lead < 0x80 {
            0
        } else if lead < 0xC0 {
            1
        } else if lead < 0xE0 {
            2
        } else if lead < 0xF0 {
            3
        } else if lead < 0xF8 {
            4
        } else if lead < 0xFC {
            5
        } else if lead < 0xFE {
            6
        } else if lead < 0xFF {
            7
        } else {
            8
        };
        if l == 0 {
            return Ok(lead);
        }
        if l == 1 || l == 8 {
            proof {
                use_type_invariant(&*self);
            }
            self.pos = start;
            return Err(FlacError::InvalidCodedNumber);
        }
        let mask = pow2_u64(7 - l);
        let mut acc = lead % mask;
        let mut i: u32 = 1;
        proof {
            lemma_pow2_strictly_increases((7 - l) as nat, 6);
        }
        while i < l
            invariant
                2 <= l <= 7,
                1 <= i <= l,
                self@.0 == data,
                data == old(self)@.0,
                self@.1 == old(self)@.1 + 8 * i,
                start == old(self)@.1,
                start <= bit_len(data),
                acc < pow2(6 * i as nat),
                coded_spec(data, old(self)@.1 as int) == coded_tail(
                    data,
                    self@.1 as int,
                    (l - i) as nat,
                    acc as nat,
                ),
            decreases l - i,
        {
            let ghost p = self@.1 as int;
            let c = match self.read_bits(8) {
                Ok(v) => v,
                Err(e) => {
                    proof {
                        use_type_invariant(&*self);
                    }
                    self.pos = start;
                    return Err(e);
                },
            };
            proof {
                lemma2_to64();
                lemma_bits_value_bound(data, p, 8);
                lemma_pow2_adds(6 * i as nat, 6);
                lemma_pow2_strictly_increases(6 * (i + 1) as nat, 64);
            }
            if c / 64 != 2 {
                proof {
                    use_type_invariant(&*self);
                }
                self.pos = start;
                return Err(FlacError::InvalidCodedNumber);
            }
            acc = acc * 64 + c % 64;
            i = i + 1;
        }
        Ok(acc)
    }

    /// Skips the unread bits of the current byte, if any.
    pub fn align_to_byte(&mut self)
        ensures
            final(self)@.0 == old(self)@.0,
            old(self)@.1 <= final(self)@.1,
            final(self)@.1 == align_up(old(self)@.1 as int),
    {
        proof {
            use_type_invariant(&*self);
        }
        if self.pos % 8 != 0 {
            self.pos = self.pos + (8 - self.pos % 8);
        }
    }

    /// Reads `count` whole bytes; the cursor must stand at the start of a byte.
    /// Past the end it fails with `EndOfStream` and reads nothing.
    pub fn read_bytes(&mut self, count: usize) -> (r: Result<Vec<u8>, FlacError>)
        requires
            old(self)@.1 % 8 == 0,
        ensures
            final(self)@.0 == old(self)@.0,
            old(self)@.1 <= final(self)@.1,
            old(self)@.1 + 8 * count <= bit_len(old(self)@.0) ==> {
                &&& r is Ok
                &&& r->Ok_0@ == old(self)@.0.subrange(
                    old(self)@.1 as int / 8,
                    old(self)@.1 as int / 8 + count,
                )
                &&& final(self)@.1 == old(self)@.1 + 8 * count
            },
            old(self)@.1 + 8 * count > bit_len(old(self)@.0) ==> r == Err::<Vec<u8>, FlacError>(
                FlacError::EndOfStream,
            ) && final(self)@ == old(self)@,
    {
        proof {
            use_type_invariant(&*self);
        }
        let first = (self.pos / 8) as usize;
        if count > self.data.len() - first {
            return Err(FlacError::EndOfStream);
        }
        let mut out: Vec<u8> = Vec::with_capacity(count);
        let mut i: usize = 0;
        while i < count
            invariant
                first + count <= self.data@.len() <= usize::MAX,
                i <= count,
                out@ == self.data@.subrange(first as int, first + i),
            decreases count - i,
        {
            out.push(self.data[first + i]);
            i = i + 1;
            proof {
                assert(out@ =~= self.data@.subrange(first as int, first + i));
            }
        }
        self.pos = self.pos + 8 * count as u64;
        Ok(out)
    }
}

/// Unary round trip: where `n` zero bits and then a one bit stand at `p`,
/// reading a unary count there gives `n` and consumes those `n + 1` bits.
pub proof fn law_unary_round_trip(data: Seq<u8>, p: int, n: nat)
    requires
        0 <= p,
        p + n < bit_len(data),
        bit_len(data) <= u64::MAX,
        forall|j: int| p <= j < p + n ==> !bit_at(data, j),
        bit_at(data, p + n),
    ensures
        unary_spec(data, p) == Ok::<(u64, int), FlacError>((n as u64, p + n + 1)),
    decreases n,
{
    if n > 0 {
        law_unary_round_trip(data, p + 1, (n - 1) as nat);
        assert(!bit_at(data, p));
    }
}

/// The `n` low bits of `v`, most significant first.
pub open spec fn value_bits(v: nat, n: nat) -> Seq<bool>
    decreases n,
{
    if n == 0 {
        Seq::empty()
    } else {
        value_bits(v / 2, (n - 1) as nat).push(v % 2 == 1)
    }
}

/// The `n` bits of `data` from bit `p` on.
pub open spec fn input_bits(data: Seq<u8>, p: int, n: nat) -> Seq<bool> {
    Seq::new(n, |i: int| bit_at(data, p + i))
}

/// The sum of `sizes`.
pub open spec fn total_size(sizes: Seq<nat>) -> nat
    decreases sizes.len(),
{
    if sizes.len() == 0 {
        0
    } else {
        total_size(sizes.drop_last()) + sizes.last()
    }
}

/// The values of successive reads of `sizes[0]`, `sizes[1]`, ... bits from bit `p` on.
pub open spec fn read_all(data: Seq<u8>, p: int, sizes: Seq<nat>) -> Seq<nat>
    decreases sizes.len(),
{
    if sizes.len() == 0 {
        Seq::empty()
    } else {
        read_all(data, p, sizes.drop_last()).push(
            bits_value(data, p + total_size(sizes.drop_last()), sizes.last()),
        )
    }
}

/// The bits of `values`, each written in as many bits as `sizes` gives it.
pub open spec fn concat_bits(values: Seq<nat>, sizes: Seq<nat>) -> Seq<bool>
    decreases sizes.len(),
{
    if sizes.len() == 0 {
        Seq::empty()
    } else {
        concat_bits(values.drop_last(), sizes.drop_last()) + value_bits(values.last(), sizes.last())
    }
}

proof fn lemma_value_bits(data: Seq<u8>, p: int, n: nat)
    ensures
        value_bits(bits_value(data, p, n), n) == input_bits(data, p, n),
    decreases n,
{
    if n == 0 {
        assert(input_bits(data, p, n) =~= Seq::empty());
    } else {
        lemma_value_bits(data, p, (n - 1) as nat);
        assert(input_bits(data, p, n) =~= input_bits(data, p, (n - 1) as nat).push(
            bit_at(data, p + n - 1),
        ));
    }
}

/// Bit-read exactness: reading `sizes[0]`, `sizes[1]`, ... bits in turn from bit `p`,
/// and writing each value back in its number of bits, most significant first, gives
/// the input bits from `p` on, as many as were read.
pub proof fn law_bit_read_exactness(data: Seq<u8>, p: int, sizes: Seq<nat>)
    ensures
        concat_bits(read_all(data, p, sizes), sizes) == input_bits(data, p, total_size(sizes)),
    decreases sizes.len(),
{
    if sizes.len() == 0 {
        assert(input_bits(data, p, 0) =~= Seq::empty());
    } else {
        let front = sizes.drop_last();
        let n = sizes.last();
        let t = total_size(front);
        law_bit_read_exactness(data, p, front);
        lemma_value_bits(data, p + t, n);
        let values = read_all(data, p, sizes);
        assert(values.drop_last() =~= read_all(data, p, front));
        assert(input_bits(data, p, t + n) =~= input_bits(data, p, t) + input_bits(data, p + t, n));
    }
}

/// The coded form of `v` in `len` bytes, 1 to 7: below 128 a single byte; else a
/// leading byte of `len` one bits, a zero bit and the high payload bits, and `len - 1`
/// bytes `10xxxxxx` of six payload bits each.
pub open spec fn coded_bytes(v: nat, len: nat) -> Seq<u8> {
    if len == 1 {
        seq![v as u8]
    } else {
        Seq::new(
            len,
            |i: int|
                if i == 0 {
                    (256 - pow2((8 - len) as nat) + v / pow2((6 * (len - 1)) as nat)) as u8
                } else {
                    (128 + (v / pow2((6 * (len - 1 - i)) as nat)) % 64) as u8
                },
        )
    }
}

/// The values that `len` coded bytes hold: 7 payload bits in one byte, `5 len + 1`
/// in more.
pub open spec fn coded_capacity(len: nat) -> nat {
    if len == 1 {
        128
    } else {
        pow2((5 * len + 1) as nat)
    }
}

proof fn lemma_byte_bits(data: Seq<u8>, k: int)
    requires
        0 <= k < data.len(),
    ensures
        bits_value(data, 8 * k, 8) == data[k],
{
    reveal_with_fuel(bits_value, 9);
    let b = data[k];
    assert(b == ((b >> 7u8) & 1u8) * 128 + ((b >> 6u8) & 1u8) * 64 + ((b >> 5u8) & 1u8) * 32 + ((b
        >> 4u8) & 1u8) * 16 + ((b >> 3u8) & 1u8) * 8 + ((b >> 2u8) & 1u8) * 4 + ((b >> 1u8) & 1u8)
        * 2 + ((b >> 0u8) & 1u8)) by (bit_vector);
    assert(((b >> 7u8) & 1u8) < 2 && ((b >> 6u8) & 1u8) < 2 && ((b >> 5u8) & 1u8) < 2 && ((b
        >> 4u8) & 1u8) < 2 && ((b >> 3u8) & 1u8) < 2 && ((b >> 2u8) & 1u8) < 2 && ((b >> 1u8)
        & 1u8) < 2 && ((b >> 0u8) & 1u8) < 2) by (bit_vector);
    assert(bit_at(data, 8 * k + 0) == ((b >> 7u8) & 1u8 == 1u8));
    assert(bit_at(data, 8 * k + 1) == ((b >> 6u8) & 1u8 == 1u8));
    assert(bit_at(data, 8 * k + 2) == ((b >> 5u8) & 1u8 == 1u8));
    assert(bit_at(data, 8 * k + 3) == ((b >> 4u8) & 1u8 == 1u8));
    assert(bit_at(data, 8 * k + 4) == ((b >> 3u8) & 1u8 == 1u8));
    assert(bit_at(data, 8 * k + 5) == ((b >> 2u8) & 1u8 == 1u8));
    assert(bit_at(data, 8 * k + 6) == ((b >> 1u8) & 1u8 == 1u8));
    assert(bit_at(data, 8 * k + 7) == ((b >> 0u8) & 1u8 == 1u8));
}

proof fn lemma_coded_tail(data: Seq<u8>, k: int, v: nat, len: nat, j: nat)
    requires
        2 <= len <= 7,
        1 <= j <= len,
        0 <= k,
        k + len <= data.len(),
        v < pow2((5 * len + 1) as nat),
        forall|i: int|
            1 <= i < len ==> #[trigger] data[k + i] == (128 + (v / pow2((6 * (len - 1 - i)) as nat))
                % 64) as u8,
    ensures
        coded_tail(data, 8 * (k + j), (len - j) as nat, v / pow2((6 * (len - j)) as nat)) == Ok::<
            (u64, int),
            FlacError,
        >((v as u64, 8 * (k + len))),
    decreases len - j,
{
    lemma2_to64();
    lemma2_to64_rest();
    if j == len {
        lemma_pow2_strictly_increases((5 * len + 1) as nat, 64);
        assert(v / pow2(0) == v);
        assert(coded_tail(data, 8 * (k + j), 0, v) == Ok::<(u64, int), FlacError>(
            (v as u64, 8 * (k + len)),
        ));
    } else {
        lemma_coded_tail(data, k, v, len, j + 1);
        let m = (len - j - 1) as nat;
        lemma_byte_bits(data, k + j);
        let x = v / pow2(6 * m);
        lemma_pow2_pos(6 * m);
        lemma_pow2_adds(6 * m, 6);
        lemma_div_denominator(v as int, pow2(6 * m) as int, 64);
        lemma_fundamental_div_mod(x as int, 64);
        assert(data[k + j] == (128 + x % 64) as u8);
        assert(8 * (k + j) + 8 == 8 * (k + (j + 1)));
        assert(6 * (len - j) == 6 * m + 6);
        let acc = v / pow2((6 * (len - j)) as nat);
        assert(pow2((6 * (len - j)) as nat) == pow2(6 * m) * 64);
        assert(acc == x / 64);
        let c = bits_value(data, 8 * (k + j), 8);
        assert(c == 128 + x % 64);
        assert(c / 64 == 2);
        assert(acc * 64 + c % 64 == x);
        assert(x == v / pow2((6 * (len - (j + 1))) as nat));
        assert(8 * (k + j) + 8 <= bit_len(data));
        assert(coded_tail(data, 8 * (k + j), (len - j) as nat, acc) == coded_tail(
            data,
            8 * (k + (j + 1)),
            (len - (j + 1)) as nat,
            x,
        ));
    }
}

proof fn lemma_lead_byte(len: nat, x: nat)
    requires
        2 <= len <= 7,
        x < pow2((7 - len) as nat),
    ensures
        leading_ones((256 - pow2((8 - len) as nat) + x) as nat) == len,
        (256 - pow2((8 - len) as nat) + x) % (pow2((7 - len) as nat) as int) == x,
{
    lemma2_to64();
    if len == 2 {
        assert((192 + x) % 32 == x);
    } else if len == 3 {
        assert((224 + x) % 16 == x);
    } else if len == 4 {
        assert((240 + x) % 8 == x);
    } else if len == 5 {
        assert((248 + x) % 4 == x);
    } else if len == 6 {
        assert((252 + x) % 2 == x);
    } else {
        assert((254 + x) % 1 == x);
    }
}

/// UTF-8 coded round trip: where the coded form of `v` in `len` bytes stands at byte
/// `k`, reading a coded number there gives `v` and ends after those bytes.
pub proof fn law_coded_round_trip(data: Seq<u8>, k: int, v: nat, len: nat)
    requires
        1 <= len <= 7,
        v < coded_capacity(len),
        0 <= k,
        k + len <= data.len(),
        data.subrange(k, k + len) == coded_bytes(v, len),
    ensures
        coded_spec(data, 8 * k) == Ok::<(u64, int), FlacError>((v as u64, 8 * (k + len))),
{
    lemma2_to64();
    lemma2_to64_rest();
    lemma_byte_bits(data, k);
    assert(data[k] == data.subrange(k, k + len)[0]);
    if len > 1 {
        let e = (6 * (len - 1)) as nat;
        let x = v / pow2(e);
        lemma_pow2_pos(e);
        lemma_pow2_adds((7 - len) as nat, e);
        lemma_fundamental_div_mod(v as int, pow2(e) as int);
        assert(x < pow2((7 - len) as nat)) by (nonlinear_arith)
            requires
                v < pow2((7 - len) as nat) * pow2(e),
                v == pow2(e) * x + v % pow2(e as nat),
                0 <= v % pow2(e as nat),
                pow2(e) > 0,
        ;
        assert forall|i: int| 1 <= i < len implies #[trigger] data[k + i] == (128 + (v / pow2(
            (6 * (len - 1 - i)) as nat,
        )) % 64) as u8 by {
            assert(data[k + i] == data.subrange(k, k + len)[i]);
        }
        lemma_coded_tail(data, k, v, len, 1);
        let lead = bits_value(data, 8 * k, 8);
        assert(lead == 256 - pow2((8 - len) as nat) + x);
        lemma_lead_byte(len, x);
        assert(8 * k + 8 == 8 * (k + 1));
    } else {
        assert(bits_value(data, 8 * k, 8) == v);
    }
}

} // verus!
