//! Subframes: one channel of a frame, coded as a constant, verbatim samples, or a
//! fixed or LPC predictor over a Rice-coded residual.
use vstd::arithmetic::div_mod::*;
use vstd::arithmetic::power2::*;
use vstd::prelude::*;

use crate::bitstream::{
    bit_at, bit_len, bits_value, lemma_bits_value_bound, pow2_u64, read_signed_spec, sign_extend,
    unary_spec, BitReader,
};
use crate::error::FlacError;
use crate::frame::header::Header as FrameHeader;

verus! {

/// How a subframe codes its samples.
#[derive(Clone, Copy, Debug, PartialEq, Eq, Structural)]
pub enum Ty {
    Constant,
    Verbatim,
    /// A fixed predictor of order 0 to 4.
    Fixed(u8),
    /// A linear predictor of order 1 to 32.
    LPC(u8),
}

/// The subframe header: the coding, and how many low bits of every sample are zero.
#[derive(Clone, Copy, Debug, PartialEq, Eq, Structural)]
pub struct Header {
    pub ty: Ty,
    pub wasted_bits: u8,
}

/// How one value is coded: as a two's complement number of a given width, or Rice
/// coded with a given parameter.
#[derive(Clone, Copy, Debug, PartialEq, Eq, Structural)]
pub enum Coding {
    Signed(u32),
    Rice(u32),
}

/// The subframe type of a 6-bit type code; `None` for a reserved code.
pub open spec fn type_of(code: nat) -> Option<Ty> {
    if code == 0 {
        Some(Ty::Constant)
    } else if code == 1 {
        Some(Ty::Verbatim)
    } else if 8 <= code <= 12 {
        Some(Ty::Fixed((code - 8) as u8))
    } else if code >= 32 {
        Some(Ty::LPC((code - 31) as u8))
    } else {
        None
    }
}

/// Parsing a subframe header at bit `p`: a zero bit, the type code, and the wasted
/// bits flag, followed when set by a unary count of the wasted bits less one.
pub open spec fn header_spec(d: Seq<u8>, p: int) -> Result<(Header, int), FlacError> {
    if p + 8 > bit_len(d) {
        Err(FlacError::EndOfStream)
    } else if bits_value(d, p, 1) != 0 {
        Err(FlacError::FrameSyncLost)
    } else {
        match type_of(bits_value(d, p + 1, 6)) {
            None => Err(FlacError::ReservedSubframeType),
            Some(ty) => if bits_value(d, p + 7, 1) == 0 {
                Ok((Header { ty, wasted_bits: 0 }, p + 8))
            } else {
                match unary_spec(d, p + 8) {
                    Err(e) => Err(e),
                    Ok((k, q)) => if k + 1 > 32 {
                        Err(FlacError::InvalidWastedBits)
                    } else {
                        Ok((Header { ty, wasted_bits: (k + 1) as u8 }, q))
                    },
                }
            },
        }
    }
}

/// The zig-zag map from the naturals onto the integers: 0, -1, 1, -2, 2, ...
pub open spec fn zigzag(u: nat) -> int {
    if u % 2 == 0 {
        (u / 2) as int
    } else {
        -((u / 2) as int) - 1
    }
}

/// Reading one Rice-coded residual with parameter `k` at bit `p`: a unary quotient,
/// `k` remainder bits, then the zig-zag map. A value of 2^63 or more before the map
/// cannot stand for a sample of at most 33 bits and is refused.
pub open spec fn rice_spec(d: Seq<u8>, p: int, k: nat) -> Result<(i64, int), FlacError> {
    match unary_spec(d, p) {
        Err(e) => Err(e),
        Ok((q, p1)) => if p1 + k > bit_len(d) {
            Err(FlacError::EndOfStream)
        } else {
            let u: nat = q as nat * pow2(k) + bits_value(d, p1, k);
            if u >= pow2(63) {
                Err(FlacError::SampleOutOfRange)
            } else {
                Ok((zigzag(u) as i64, p1 + k))
            }
        },
    }
}

/// Reading one value coded as `c` at bit `p`.
pub open spec fn value_spec(d: Seq<u8>, p: int, c: Coding) -> Result<(i64, int), FlacError> {
    match c {
        Coding::Signed(w) => read_signed_spec(d, p, w as nat),
        Coding::Rice(k) => rice_spec(d, p, k as nat),
    }
}

/// Reading `n` more values coded as `c` from bit `p` on, after the values `acc`.
pub open spec fn values_from(d: Seq<u8>, p: int, n: nat, c: Coding, acc: Seq<i64>) -> Result<
    (Seq<i64>, int),
    FlacError,
>
    decreases n,
{
    if n == 0 {
        Ok((acc, p))
    } else {
        match value_spec(d, p, c) {
            Err(e) => Err(e),
            Ok((v, q)) => values_from(d, q, (n - 1) as nat, c, acc.push(v)),
        }
    }
}

/// Reading `n` values coded as `c` from bit `p` on.
pub open spec fn values_spec(d: Seq<u8>, p: int, n: nat, c: Coding) -> Result<(Seq<i64>, int), FlacError> {
    values_from(d, p, n, c, Seq::empty())
}

/// Whether `v` is a two's complement number of `w` bits.
pub open spec fn in_width(v: int, w: nat) -> bool {
    if w == 0 {
        v == 0
    } else {
        -pow2((w - 1) as nat) <= v < pow2((w - 1) as nat)
    }
}

/// The range that every value read with coding `c` lies in.
pub open spec fn coded_range(v: int, c: Coding) -> bool {
    match c {
        Coding::Signed(w) => in_width(v, w as nat),
        Coding::Rice(_) => -pow2(62) <= v < pow2(62),
    }
}

/// Reading one residual partition of `count` values at bit `p` with coding method
/// `method`: a Rice parameter of 4 bits (method 0) or 5 bits (method 1); the all-ones
/// parameter escapes to a 5-bit width of plain signed values.
pub open spec fn partition_spec(d: Seq<u8>, p: int, method: nat, count: nat) -> Result<
    (Seq<i64>, int),
    FlacError,
> {
    let pw: nat = if method == 0 {
        4
    } else {
        5
    };
    let escape: nat = if method == 0 {
        15
    } else {
        31
    };
    if p + pw > bit_len(d) {
        Err(FlacError::EndOfStream)
    } else {
        let param = bits_value(d, p, pw);
        if param == escape {
            if p + pw + 5 > bit_len(d) {
                Err(FlacError::EndOfStream)
            } else {
                values_spec(d, p + pw + 5, count, Coding::Signed(bits_value(d, p + pw, 5) as u32))
            }
        } else {
            values_spec(d, p + pw, count, Coding::Rice(param as u32))
        }
    }
}

/// Reading the partitions `i` to `total - 1` from bit `p` on, after the residuals
/// `acc`. Each holds `per` residuals, but the first, which leaves out the `order`
/// warm-up samples.
pub open spec fn partitions_from(
    d: Seq<u8>,
    p: int,
    method: nat,
    per: nat,
    order: nat,
    i: nat,
    total: nat,
    acc: Seq<i64>,
) -> Result<(Seq<i64>, int), FlacError>
    decreases total - i,
{
    if i >= total {
        Ok((acc, p))
    } else {
        let count: nat = if i == 0 {
            (per - order) as nat
        } else {
            per
        };
        match partition_spec(d, p, method, count) {
            Err(e) => Err(e),
            Ok((xs, q)) => partitions_from(d, q, method, per, order, i + 1, total, acc + xs),
        }
    }
}

/// Reading the residual of a subframe of `block_size` samples with a predictor of
/// order `order` at bit `p`: the coding method, the partition order, the partitions.
pub open spec fn residual_spec(d: Seq<u8>, p: int, block_size: nat, order: nat) -> Result<
    (Seq<i64>, int),
    FlacError,
> {
    if p + 2 > bit_len(d) {
        Err(FlacError::EndOfStream)
    } else if bits_value(d, p, 2) > 1 {
        Err(FlacError::InvalidResidualCodingMethod)
    } else if p + 6 > bit_len(d) {
        Err(FlacError::EndOfStream)
    } else {
        let parts = pow2(bits_value(d, p + 2, 4));
        if block_size % parts != 0 || block_size / parts < order {
            Err(FlacError::InvalidPartitionOrder)
        } else {
            partitions_from(
                d,
                p + 6,
                bits_value(d, p, 2),
                block_size / parts,
                order,
                0,
                parts,
                Seq::empty(),
            )
        }
    }
}

/// `sum(coefs[j] * s[n - 1 - j])` over the first `j` coefficients, `n` the length of `s`.
pub open spec fn lpc_sum(s: Seq<i64>, coefs: Seq<i64>, j: nat) -> int
    decreases j,
{
    if j == 0 {
        0
    } else {
        lpc_sum(s, coefs, (j - 1) as nat) + coefs[j - 1] * s[s.len() - j]
    }
}

/// The prediction of the sample after `s`: the weighted sum of the samples before it,
/// shifted right by `shift` (a division rounding down).
pub open spec fn prediction(s: Seq<i64>, coefs: Seq<i64>, shift: nat) -> int {
    lpc_sum(s, coefs, coefs.len()) / (pow2(shift) as int)
}

/// Restoring samples from residual `i` on after the samples `s`: each sample is its
/// residual plus the prediction from the samples before it, and must fit `w` bits.
pub open spec fn restore_from(s: Seq<i64>, res: Seq<i64>, i: nat, coefs: Seq<i64>, shift: nat, w: nat) -> Result<
    Seq<i64>,
    FlacError,
>
    decreases res.len() - i,
{
    if i >= res.len() {
        Ok(s)
    } else {
        let v = res[i as int] + prediction(s, coefs, shift);
        if in_width(v, w) {
            restore_from(s.push(v as i64), res, i + 1, coefs, shift, w)
        } else {
            Err(FlacError::SampleOutOfRange)
        }
    }
}

/// The coefficients of the fixed predictor of order 0 to 4.
pub open spec fn fixed_coefficients(order: nat) -> Seq<i64> {
    if order == 0 {
        seq![]
    } else if order == 1 {
        seq![1i64]
    } else if order == 2 {
        seq![2i64, -1i64]
    } else if order == 3 {
        seq![3i64, -3i64, 1i64]
    } else {
        seq![4i64, -6i64, 4i64, -1i64]
    }
}

/// Reading the parameters of an LPC subframe of order `order` at bit `p`: `order`
/// warm-up samples of `w` bits, the coefficient precision less one (4 bits), the shift
/// (5 signed bits, a negative one counting as zero), `order` coefficients. The result
/// holds the warm-up samples, the coefficients, the shift and the position after them.
pub open spec fn lpc_header_spec(d: Seq<u8>, p: int, order: nat, w: nat) -> Result<
    (Seq<i64>, Seq<i64>, nat, int),
    FlacError,
> {
    match values_spec(d, p, order, Coding::Signed(w as u32)) {
        Err(e) => Err(e),
        Ok((warm, q)) => if q + 4 > bit_len(d) {
            Err(FlacError::EndOfStream)
        } else {
            let precision = bits_value(d, q, 4) + 1;
            match read_signed_spec(d, q + 4, 5) {
                Err(e) => Err(e),
                Ok((sh, q1)) => match values_spec(d, q1, order, Coding::Signed(precision as u32)) {
                    Err(e) => Err(e),
                    Ok((coefs, q2)) => Ok(
                        (
                            warm,
                            coefs,
                            if sh < 0 {
                                0nat
                            } else {
                                sh as nat
                            },
                            q2,
                        ),
                    ),
                },
            }
        },
    }
}

/// Decoding the body of a subframe of type `ty` at bit `p`, with `w` bits per sample.
pub open spec fn body_spec(d: Seq<u8>, p: int, ty: Ty, block_size: nat, w: nat) -> Result<
    (Seq<i64>, int),
    FlacError,
> {
    match ty {
        Ty::Constant => match read_signed_spec(d, p, w) {
            Err(e) => Err(e),
            Ok((v, q)) => Ok((Seq::new(block_size, |i: int| v), q)),
        },
        Ty::Verbatim => values_spec(d, p, block_size, Coding::Signed(w as u32)),
        Ty::Fixed(order) => match values_spec(d, p, order as nat, Coding::Signed(w as u32)) {
            Err(e) => Err(e),
            Ok((warm, q)) => match residual_spec(d, q, block_size, order as nat) {
                Err(e) => Err(e),
                Ok((res, q2)) => match restore_from(
                    warm,
                    res,
                    0,
                    fixed_coefficients(order as nat),
                    0,
                    w,
                ) {
                    Err(e) => Err(e),
                    Ok(s) => Ok((s, q2)),
                },
            },
        },
        Ty::LPC(order) => match lpc_header_spec(d, p, order as nat, w) {
            Err(e) => Err(e),
            Ok((warm, coefs, shift, q)) => match residual_spec(d, q, block_size, order as nat) {
                Err(e) => Err(e),
                Ok((res, q2)) => match restore_from(warm, res, 0, coefs, shift, w) {
                    Err(e) => Err(e),
                    Ok(s) => Ok((s, q2)),
                },
            },
        },
    }
}

/// Every sample of `s` shifted left by `k` bits.
pub open spec fn scaled(s: Seq<i64>, k: nat) -> Seq<i64> {
    Seq::new(s.len(), |i: int| (s[i] * pow2(k)) as i64)
}

/// Decoding a whole subframe of `block_size` samples at bit `p` for a channel of
/// `bits` bits per sample: its header, its body at `bits` less the wasted bits, and
/// the wasted bits put back.
#[verifier::opaque]
pub open spec fn subframe_spec(d: Seq<u8>, p: int, block_size: nat, bits: nat) -> Result<
    (Seq<i64>, int),
    FlacError,
> {
    match header_spec(d, p) {
        Err(e) => Err(e),
        Ok((h, p1)) => if h.wasted_bits >= bits {
            Err(FlacError::InvalidWastedBits)
        } else {
            match body_spec(d, p1, h.ty, block_size, (bits - h.wasted_bits) as nat) {
                Err(e) => Err(e),
                Ok((s, p2)) => Ok((scaled(s, h.wasted_bits as nat), p2)),
            }
        },
    }
}

proof fn lemma_sign_extend_range(v: nat, n: nat)
    requires
        v < pow2(n),
    ensures
        in_width(sign_extend(v, n), n),
{
    lemma2_to64();
    if n > 0 {
        lemma_pow2_unfold(n);
    }
}

impl Header {
    /// Parses a subframe header.
    pub fn from(stream: &mut BitReader) -> (r: Result<Header, FlacError>)
        ensures
            final(stream)@.0 == old(stream)@.0,
            old(stream)@.1 <= final(stream)@.1,
            match header_spec(old(stream)@.0, old(stream)@.1 as int) {
                Ok((h, q)) => r == Ok::<Header, FlacError>(h) && final(stream)@.1 == q,
                Err(e) => r == Err::<Header, FlacError>(e),
            },
            r is Ok ==> match r->Ok_0.ty {
                Ty::Fixed(order) => order <= 4,
                Ty::LPC(order) => 1 <= order <= 32,
                _ => true,
            },
    {
        let ghost d = stream@.0;
        let ghost p = stream@.1 as int;
        let zero = match stream.read_bits(1) {
            Ok(v) => v,
            Err(e) => {
                return Err(e);
            },
        };
        let ty_code = match stream.read_bits(6) {
            Ok(v) => v,
            Err(e) => {
                return Err(e);
            },
        };
        let flag = match stream.read_bits(1) {
            Ok(v) => v,
            Err(e) => {
                return Err(e);
            },
        };
        proof {
            lemma2_to64();
            lemma_bits_value_bound(d, p + 1, 6);
        }
        if zero != 0 {
            return Err(FlacError::FrameSyncLost);
        }
        let ty = if ty_code == 0 {
            Ty::Constant
        } else if ty_code == 1 {
            Ty::Verbatim
        } else if 8 <= ty_code && ty_code <= 12 {
            Ty::Fixed((ty_code - 8) as u8)
        } else if ty_code >= 32 {
            Ty::LPC((ty_code - 31) as u8)
        } else {
            return Err(FlacError::ReservedSubframeType);
        };
        if flag == 0 {
            return Ok(Header { ty, wasted_bits: 0 });
        }
        let zeros = match stream.read_unary() {
            Ok(v) => v,
            Err(e) => {
                return Err(e);
            },
        };
        if zeros >= 32 {
            return Err(FlacError::InvalidWastedBits);
        }
        Ok(Header { ty, wasted_bits: (zeros + 1) as u8 })
    }
}

/// Reads one Rice-coded residual with parameter `parameter`.
pub fn decode_golomb(stream: &mut BitReader, parameter: u32) -> (r: Result<i64, FlacError>)
    requires
        parameter <= 30,
    ensures
        final(stream)@.0 == old(stream)@.0,
        old(stream)@.1 <= final(stream)@.1,
        match rice_spec(old(stream)@.0, old(stream)@.1 as int, parameter as nat) {
            Ok((v, q)) => r == Ok::<i64, FlacError>(v) && final(stream)@.1 == q,
            Err(e) => r == Err::<i64, FlacError>(e),
        },
        r is Ok ==> -pow2(62) <= r->Ok_0 < pow2(62),
{
    let ghost d = stream@.0;
    let msbs = match stream.read_unary() {
        Ok(v) => v,
        Err(e) => {
            return Err(e);
        },
    };
    let ghost p1 = stream@.1 as int;
    let lsbs = match stream.read_bits(parameter) {
        Ok(v) => v,
        Err(e) => {
            return Err(e);
        },
    };
    let limit = pow2_u64(63 - parameter);
    let unit = pow2_u64(parameter);
    proof {
        lemma_bits_value_bound(d, p1, parameter as nat);
        lemma_pow2_adds((63 - parameter) as nat, parameter as nat);
        lemma_pow2_pos(parameter as nat);
        lemma2_to64();
        lemma2_to64_rest();
    }
    if msbs >= limit {
        proof {
            assert(msbs * unit >= limit * unit) by (nonlinear_arith)
                requires
                    msbs >= limit,
                    unit > 0,
            ;
        }
        return Err(FlacError::SampleOutOfRange);
    }
    proof {
        assert(msbs * unit <= (limit - 1) * unit) by (nonlinear_arith)
            requires
                msbs <= limit - 1,
                unit > 0,
        ;
        assert((limit - 1) * unit == limit * unit - unit) by (nonlinear_arith);
    }
    let uval = msbs * unit + lsbs;
    if uval % 2 == 0 {
        Ok((uval / 2) as i64)
    } else {
        Ok(-((uval / 2) as i64) - 1)
    }
}

/// Reads `n` values coded as `coding`.
pub fn read_values(stream: &mut BitReader, n: usize, coding: Coding) -> (r: Result<Vec<i64>, FlacError>)
    requires
        match coding {
            Coding::Signed(w) => w <= 33,
            Coding::Rice(k) => k <= 30,
        },
    ensures
        final(stream)@.0 == old(stream)@.0,
        old(stream)@.1 <= final(stream)@.1,
        match values_spec(old(stream)@.0, old(stream)@.1 as int, n as nat, coding) {
            Ok((xs, q)) => r is Ok && r->Ok_0@ == xs && final(stream)@.1 == q,
            Err(e) => r == Err::<Vec<i64>, FlacError>(e),
        },
        r is Ok ==> forall|i: int| 0 <= i < r->Ok_0@.len() ==> coded_range(#[trigger] r->Ok_0@[i] as int, coding),
{
    let ghost d = stream@.0;
    let mut out: Vec<i64> = Vec::new();
    let mut i: usize = 0;
    while i < n
        invariant
            i <= n,
            stream@.0 == d,
            d == old(stream)@.0,
            old(stream)@.1 <= stream@.1,
            match coding {
                Coding::Signed(w) => w <= 33,
                Coding::Rice(k) => k <= 30,
            },
            values_spec(d, old(stream)@.1 as int, n as nat, coding) == values_from(
                d,
                stream@.1 as int,
                (n - i) as nat,
                coding,
                out@,
            ),
            forall|j: int| 0 <= j < out@.len() ==> coded_range(#[trigger] out@[j] as int, coding),
        decreases n - i,
    {
        let ghost p = stream@.1 as int;
        let v = match coding {
            Coding::Signed(w) => match stream.read_signed_bits(w) {
                Ok(v) => {
                    proof {
                        lemma_bits_value_bound(d, p, w as nat);
                        lemma_sign_extend_range(bits_value(d, p, w as nat), w as nat);
                        lemma2_to64();
                        lemma2_to64_rest();
                        if w > 0 {
                            lemma_pow2_strictly_increases((w - 1) as nat, 63);
                        }
                    }
                    v
                },
                Err(e) => {
                    return Err(e);
                },
            },
            Coding::Rice(k) => match decode_golomb(stream, k) {
                Ok(v) => v,
                Err(e) => {
                    return Err(e);
                },
            },
        };
        out.push(v);
        i = i + 1;
    }
    Ok(out)
}

/// Reads one residual partition of `count` values with coding method `method`.
fn decode_partition(stream: &mut BitReader, method: u64, count: usize) -> (r: Result<
    Vec<i64>,
    FlacError,
>)
    requires
        method <= 1,
    ensures
        final(stream)@.0 == old(stream)@.0,
        old(stream)@.1 <= final(stream)@.1,
        match partition_spec(old(stream)@.0, old(stream)@.1 as int, method as nat, count as nat) {
            Ok((xs, q)) => r is Ok && r->Ok_0@ == xs && final(stream)@.1 == q,
            Err(e) => r == Err::<Vec<i64>, FlacError>(e),
        },
        r is Ok ==> forall|i: int|
            0 <= i < r->Ok_0@.len() ==> -pow2(62) <= #[trigger] r->Ok_0@[i] < pow2(62),
{
    let ghost d = stream@.0;
    let ghost q = stream@.1 as int;
    let (width, escape) = if method == 0 {
        (4u32, 15u64)
    } else {
        (5u32, 31u64)
    };
    let parameter = match stream.read_bits(width) {
        Ok(v) => v,
        Err(e) => {
            return Err(e);
        },
    };
    proof {
        lemma2_to64();
        lemma_bits_value_bound(d, q, width as nat);
        lemma_bits_value_bound(d, q + width, 5);
        lemma_pow2_pos(62);
    }
    if parameter == escape {
        let raw_width = match stream.read_bits(5) {
            Ok(v) => v,
            Err(e) => {
                return Err(e);
            },
        };
        match read_values(stream, count, Coding::Signed(raw_width as u32)) {
            Ok(v) => {
                proof {
                    assert forall|j: int| 0 <= j < v@.len() implies -pow2(62) <= #[trigger] v@[j]
                        < pow2(62) by {
                        assert(coded_range(v@[j] as int, Coding::Signed(raw_width as u32)));
                        if raw_width > 0 {
                            lemma_pow2_strictly_increases((raw_width - 1) as nat, 62);
                        }
                    }
                }
                Ok(v)
            },
            Err(e) => Err(e),
        }
    } else {
        match read_values(stream, count, Coding::Rice(parameter as u32)) {
            Ok(v) => {
                proof {
                    assert forall|j: int| 0 <= j < v@.len() implies -pow2(62) <= #[trigger] v@[j]
                        < pow2(62) by {
                        assert(coded_range(v@[j] as int, Coding::Rice(parameter as u32)));
                    }
                }
                Ok(v)
            },
            Err(e) => Err(e),
        }
    }
}

/// Reads the residual of a subframe with a predictor of order `order`.
pub fn decode_residuals(frame_header: &FrameHeader, order: u32, stream: &mut BitReader) -> (r: Result<
    Vec<i64>,
    FlacError,
>)
    requires
        order <= 32,
    ensures
        final(stream)@.0 == old(stream)@.0,
        old(stream)@.1 <= final(stream)@.1,
        match residual_spec(
            old(stream)@.0,
            old(stream)@.1 as int,
            frame_header.block_size as nat,
            order as nat,
        ) {
            Ok((xs, q)) => r is Ok && r->Ok_0@ == xs && final(stream)@.1 == q,
            Err(e) => r == Err::<Vec<i64>, FlacError>(e),
        },
        r is Ok ==> forall|i: int|
            0 <= i < r->Ok_0@.len() ==> -pow2(62) <= #[trigger] r->Ok_0@[i] < pow2(62),
{
    let ghost d = stream@.0;
    let ghost p = stream@.1 as int;
    let method = match stream.read_bits(2) {
        Ok(v) => v,
        Err(e) => {
            return Err(e);
        },
    };
    if method > 1 {
        return Err(FlacError::InvalidResidualCodingMethod);
    }
    let partition_order = match stream.read_bits(4) {
        Ok(v) => v,
        Err(e) => {
            return Err(e);
        },
    };
    proof {
        lemma2_to64();
        lemma2_to64_rest();
        lemma_bits_value_bound(d, p + 2, 4);
    }
    let parts = pow2_u64(partition_order as u32);
    let block_size = frame_header.block_size as u64;
    if block_size % parts != 0 || block_size / parts < order as u64 {
        return Err(FlacError::InvalidPartitionOrder);
    }
    decode_partitions(stream, method, block_size / parts, order as u64, parts)
}

/// Reads the `parts` partitions of a residual, `per` values each but the first,
/// which leaves out the `order` warm-up samples.
fn decode_partitions(stream: &mut BitReader, method: u64, per: u64, order: u64, parts: u64) -> (r:
    Result<Vec<i64>, FlacError>)
    requires
        method <= 1,
        order <= per <= u32::MAX,
    ensures
        final(stream)@.0 == old(stream)@.0,
        old(stream)@.1 <= final(stream)@.1,
        match partitions_from(
            old(stream)@.0,
            old(stream)@.1 as int,
            method as nat,
            per as nat,
            order as nat,
            0,
            parts as nat,
            Seq::empty(),
        ) {
            Ok((xs, q)) => r is Ok && r->Ok_0@ == xs && final(stream)@.1 == q,
            Err(e) => r == Err::<Vec<i64>, FlacError>(e),
        },
        r is Ok ==> forall|i: int|
            0 <= i < r->Ok_0@.len() ==> -pow2(62) <= #[trigger] r->Ok_0@[i] < pow2(62),
{
    let ghost d = stream@.0;
    let ghost p = stream@.1 as int;
    let mut out: Vec<i64> = Vec::new();
    let mut i: u64 = 0;
    while i < parts
        invariant
            i <= parts,
            order <= per <= u32::MAX,
            stream@.0 == d,
            d == old(stream)@.0,
            old(stream)@.1 <= stream@.1,
            p == old(stream)@.1,
            method <= 1,
            partitions_from(d, p, method as nat, per as nat, order as nat, 0, parts as nat, Seq::empty())
                == partitions_from(
                d,
                stream@.1 as int,
                method as nat,
                per as nat,
                order as nat,
                i as nat,
                parts as nat,
                out@,
            ),
            forall|j: int| 0 <= j < out@.len() ==> -pow2(62) <= #[trigger] out@[j] < pow2(62),
        decreases parts - i,
    {
        let count = if i == 0 {
            per - order
        } else {
            per
        };
        let mut part = match decode_partition(stream, method, count as usize) {
            Ok(v) => v,
            Err(e) => {
                return Err(e);
            },
        };
        let ghost before = out@;
        let ghost added = part@;
        out.append(&mut part);
        proof {
            assert forall|j: int| 0 <= j < out@.len() implies -pow2(62) <= #[trigger] out@[j] < pow2(
                62,
            ) by {
                if j >= before.len() {
                    assert(out@[j] == added[j - before.len()]);
                }
            }
        }
        i = i + 1;
    }
    Ok(out)
}

proof fn lemma_div_within(x: int, d: int)
    requires
        d >= 1,
        -0x10_0000_0000_0000 <= x <= 0x10_0000_0000_0000,
    ensures
        -0x10_0000_0000_0000 <= x / d <= 0x10_0000_0000_0000,
{
    lemma_fundamental_div_mod(x, d);
    assert(-0x10_0000_0000_0000 <= x / d <= 0x10_0000_0000_0000) by (nonlinear_arith)
        requires
            d >= 1,
            -0x10_0000_0000_0000 <= x <= 0x10_0000_0000_0000,
            x == d * (x / d) + x % d,
            0 <= x % d < d,
    ;
}

/// `x` divided by `2^shift`, rounding down: an arithmetic shift right.
fn floor_shift(x: i64, shift: u32) -> (r: i64)
    requires
        -0x10_0000_0000_0000 <= x <= 0x10_0000_0000_0000,
        shift <= 15,
    ensures
        r == (x as int) / (pow2(shift as nat) as int),
{
    let bias: u64 = 0x1000_0000_0000_0000;
    let divisor = pow2_u64(shift);
    proof {
        lemma2_to64();
        lemma2_to64_rest();
        lemma_pow2_pos(shift as nat);
        lemma_pow2_adds((60 - shift) as nat, shift as nat);
        let j = pow2((60 - shift) as nat) as int;
        lemma_hoist_over_denominator(x as int, j, pow2(shift as nat));
        lemma_div_multiples_vanish(j, divisor as int);
        assert(j * divisor == bias);
        vstd::arithmetic::mul::lemma_mul_is_commutative(j, divisor as int);
        lemma_div_is_ordered(0, bias as int, divisor as int);
        lemma_div_is_ordered(0, x + bias, divisor as int);
        lemma_div_is_ordered(x + bias, 2 * bias as int, divisor as int);
        lemma_div_is_ordered(bias as int, 2 * bias as int, divisor as int);
    }
    let biased = (x + bias as i64) as u64;
    (biased / divisor) as i64 - (bias / divisor) as i64
}

/// The prediction of the sample that follows `s`.
fn predict(s: &Vec<i64>, coefficients: &Vec<i64>, shift: u32) -> (r: i64)
    requires
        coefficients@.len() <= 32,
        coefficients@.len() <= s@.len(),
        shift <= 15,
        forall|j: int|
            0 <= j < coefficients@.len() ==> -0x8000 <= #[trigger] coefficients@[j] <= 0x8000,
        forall|j: int| 0 <= j < s@.len() ==> -0x1_0000_0000 <= #[trigger] s@[j] <= 0x1_0000_0000,
    ensures
        r == prediction(s@, coefficients@, shift as nat),
        -0x10_0000_0000_0000 <= r <= 0x10_0000_0000_0000,
{
    let n = s.len();
    let mut sum: i64 = 0;
    let mut j: usize = 0;
    while j < coefficients.len()
        invariant
            n == s@.len(),
            coefficients@.len() <= 32,
            coefficients@.len() <= n,
            j <= coefficients@.len(),
            forall|k: int|
                0 <= k < coefficients@.len() ==> -0x8000 <= #[trigger] coefficients@[k] <= 0x8000,
            forall|k: int| 0 <= k < s@.len() ==> -0x1_0000_0000 <= #[trigger] s@[k] <= 0x1_0000_0000,
            sum == lpc_sum(s@, coefficients@, j as nat),
            -j * 0x8000_0000_0000 <= sum <= j * 0x8000_0000_0000,
        decreases coefficients@.len() - j,
    {
        let c = coefficients[j];
        let x = s[n - 1 - j];
        proof {
            assert(-0x8000_0000_0000 <= c * x <= 0x8000_0000_0000) by (nonlinear_arith)
                requires
                    -0x8000 <= c <= 0x8000,
                    -0x1_0000_0000 <= x <= 0x1_0000_0000,
            ;
        }
        sum = sum + c * x;
        j = j + 1;
    }
    proof {
        lemma2_to64();
    }
    let q = floor_shift(sum, shift);
    proof {
        lemma_pow2_pos(shift as nat);
        lemma_div_within(sum as int, pow2(shift as nat) as int);
    }
    q
}

/// Restores the samples that follow `warmup` from `residuals`, each the residual
/// plus the prediction from the samples before it; every one must fit `bits` bits.
pub fn restore(warmup: Vec<i64>, coefficients: &Vec<i64>, shift: u32, residuals: &Vec<i64>, bits: u32) -> (r:
    Result<Vec<i64>, FlacError>)
    requires
        1 <= bits <= 33,
        shift <= 15,
        coefficients@.len() <= 32,
        coefficients@.len() <= warmup@.len(),
        forall|j: int|
            0 <= j < coefficients@.len() ==> -0x8000 <= #[trigger] coefficients@[j] <= 0x8000,
        forall|j: int| 0 <= j < warmup@.len() ==> in_width(#[trigger] warmup@[j] as int, bits as nat),
        forall|j: int|
            0 <= j < residuals@.len() ==> -pow2(62) <= #[trigger] residuals@[j] < pow2(62),
    ensures
        match restore_from(warmup@, residuals@, 0, coefficients@, shift as nat, bits as nat) {
            Ok(xs) => r is Ok && r->Ok_0@ == xs,
            Err(e) => r == Err::<Vec<i64>, FlacError>(e),
        },
        r is Ok ==> forall|j: int|
            0 <= j < r->Ok_0@.len() ==> in_width(#[trigger] r->Ok_0@[j] as int, bits as nat),
{
    proof {
        lemma2_to64();
        lemma2_to64_rest();
        if bits - 1 < 32 {
            lemma_pow2_strictly_increases((bits - 1) as nat, 32);
        }
    }
    let half = pow2_u64(bits - 1) as i64;
    let ghost goal = restore_from(warmup@, residuals@, 0, coefficients@, shift as nat, bits as nat);
    let mut s = warmup;
    let mut i: usize = 0;
    while i < residuals.len()
        invariant
            1 <= bits <= 33,
            shift <= 15,
            half == pow2((bits - 1) as nat),
            half <= 0x1_0000_0000,
            coefficients@.len() <= 32,
            coefficients@.len() <= s@.len(),
            i <= residuals@.len(),
            forall|j: int|
                0 <= j < coefficients@.len() ==> -0x8000 <= #[trigger] coefficients@[j] <= 0x8000,
            forall|j: int| 0 <= j < s@.len() ==> in_width(#[trigger] s@[j] as int, bits as nat),
            forall|j: int|
                0 <= j < residuals@.len() ==> -pow2(62) <= #[trigger] residuals@[j] < pow2(62),
            goal == restore_from(warmup@, residuals@, 0, coefficients@, shift as nat, bits as nat),
            goal == restore_from(s@, residuals@, i as nat, coefficients@, shift as nat, bits as nat),
        decreases residuals@.len() - i,
    {
        proof {
            lemma2_to64_rest();
            assert forall|j: int| 0 <= j < s@.len() implies -0x1_0000_0000 <= #[trigger] s@[j]
                <= 0x1_0000_0000 by {
                assert(in_width(s@[j] as int, bits as nat));
            }
        }
        let pred = predict(&s, coefficients, shift);
        let v = residuals[i] + pred;
        if v < -half || v >= half {
            return Err(FlacError::SampleOutOfRange);
        }
        s.push(v);
        i = i + 1;
    }
    Ok(s)
}

/// A subframe of one sample value, repeated over the block.
fn decode_constant(frame_header: &FrameHeader, bits: u32, stream: &mut BitReader) -> (r: Result<
    Vec<i64>,
    FlacError,
>)
    requires
        1 <= bits <= 33,
        frame_header.block_size <= 65536,
    ensures
        final(stream)@.0 == old(stream)@.0,
        old(stream)@.1 <= final(stream)@.1,
        match body_spec(
            old(stream)@.0,
            old(stream)@.1 as int,
            Ty::Constant,
            frame_header.block_size as nat,
            bits as nat,
        ) {
            Ok((xs, q)) => r is Ok && r->Ok_0@ == xs && final(stream)@.1 == q,
            Err(e) => r == Err::<Vec<i64>, FlacError>(e),
        },
        r is Ok ==> forall|j: int|
            0 <= j < r->Ok_0@.len() ==> in_width(#[trigger] r->Ok_0@[j] as int, bits as nat),
{
    let ghost d = stream@.0;
    let ghost p = stream@.1 as int;
    let v = match stream.read_signed_bits(bits) {
        Ok(v) => v,
        Err(e) => {
            return Err(e);
        },
    };
    proof {
        lemma_bits_value_bound(d, p, bits as nat);
        lemma_sign_extend_range(bits_value(d, p, bits as nat), bits as nat);
        lemma2_to64();
        lemma2_to64_rest();
        lemma_pow2_strictly_increases((bits - 1) as nat, 63);
    }
    let n = frame_header.block_size as usize;
    let mut out: Vec<i64> = Vec::with_capacity(n);
    let mut i: usize = 0;
    while i < n
        invariant
            i <= n,
            out@ == Seq::new(i as nat, |j: int| v),
        decreases n - i,
    {
        out.push(v);
        i = i + 1;
        proof {
            assert(out@ =~= Seq::new(i as nat, |j: int| v));
        }
    }
    Ok(out)
}

/// A subframe of samples stored as they are.
#[derive(Debug)]
pub struct VerbatimSubframe {
    pub subblocks: Vec<i64>,
}

impl VerbatimSubframe {
    /// Reads the block's samples, `bits` bits each.
    pub fn from(frame_header: &FrameHeader, bits: u32, stream: &mut BitReader) -> (r: Result<
        Vec<i64>,
        FlacError,
    >)
        requires
            1 <= bits <= 33,
            frame_header.block_size <= 65536,
        ensures
            final(stream)@.0 == old(stream)@.0,
            old(stream)@.1 <= final(stream)@.1,
            match body_spec(
                old(stream)@.0,
                old(stream)@.1 as int,
                Ty::Verbatim,
                frame_header.block_size as nat,
                bits as nat,
            ) {
                Ok((xs, q)) => r is Ok && r->Ok_0@ == xs && final(stream)@.1 == q,
                Err(e) => r == Err::<Vec<i64>, FlacError>(e),
            },
            r is Ok ==> forall|j: int|
                0 <= j < r->Ok_0@.len() ==> in_width(#[trigger] r->Ok_0@[j] as int, bits as nat),
    {
        let r = read_values(stream, frame_header.block_size as usize, Coding::Signed(bits));
        proof {
            if r is Ok {
                assert forall|j: int| 0 <= j < r->Ok_0@.len() implies in_width(
                    #[trigger] r->Ok_0@[j] as int,
                    bits as nat,
                ) by {
                    assert(coded_range(r->Ok_0@[j] as int, Coding::Signed(bits)));
                }
            }
        }
        r
    }
}

/// Reads `order` warm-up samples of `bits` bits.
fn read_warmup(stream: &mut BitReader, order: usize, bits: u32) -> (r: Result<Vec<i64>, FlacError>)
    requires
        1 <= bits <= 33,
    ensures
        final(stream)@.0 == old(stream)@.0,
        old(stream)@.1 <= final(stream)@.1,
        match values_spec(old(stream)@.0, old(stream)@.1 as int, order as nat, Coding::Signed(bits)) {
            Ok((xs, q)) => r is Ok && r->Ok_0@ == xs && final(stream)@.1 == q,
            Err(e) => r == Err::<Vec<i64>, FlacError>(e),
        },
        r is Ok ==> r->Ok_0@.len() == order,
        r is Ok ==> forall|j: int|
            0 <= j < r->Ok_0@.len() ==> in_width(#[trigger] r->Ok_0@[j] as int, bits as nat),
{
    let r = read_values(stream, order, Coding::Signed(bits));
    proof {
        lemma_values_len(old(stream)@.0, old(stream)@.1 as int, order as nat, Coding::Signed(bits), Seq::empty());
        if r is Ok {
            assert forall|j: int| 0 <= j < r->Ok_0@.len() implies in_width(
                #[trigger] r->Ok_0@[j] as int,
                bits as nat,
            ) by {
                assert(coded_range(r->Ok_0@[j] as int, Coding::Signed(bits)));
            }
        }
    }
    r
}

proof fn lemma_values_len(d: Seq<u8>, p: int, n: nat, c: Coding, acc: Seq<i64>)
    ensures
        values_from(d, p, n, c, acc) is Ok ==> values_from(d, p, n, c, acc)->Ok_0.0.len() == acc.len() + n,
    decreases n,
{
    if n > 0 {
        match value_spec(d, p, c) {
            Err(_) => {},
            Ok((v, q)) => lemma_values_len(d, q, (n - 1) as nat, c, acc.push(v)),
        }
    }
}

/// A subframe coded with the fixed predictor of order `order`.
fn decode_fixed(frame_header: &FrameHeader, order: u8, bits: u32, stream: &mut BitReader) -> (r: Result<
    Vec<i64>,
    FlacError,
>)
    requires
        1 <= bits <= 33,
        order <= 4,
        frame_header.block_size <= 65536,
    ensures
        final(stream)@.0 == old(stream)@.0,
        old(stream)@.1 <= final(stream)@.1,
        match body_spec(
            old(stream)@.0,
            old(stream)@.1 as int,
            Ty::Fixed(order),
            frame_header.block_size as nat,
            bits as nat,
        ) {
            Ok((xs, q)) => r is Ok && r->Ok_0@ == xs && final(stream)@.1 == q,
            Err(e) => r == Err::<Vec<i64>, FlacError>(e),
        },
        r is Ok ==> forall|j: int|
            0 <= j < r->Ok_0@.len() ==> in_width(#[trigger] r->Ok_0@[j] as int, bits as nat),
{
    let warmup = match read_warmup(stream, order as usize, bits) {
        Ok(v) => v,
        Err(e) => {
            return Err(e);
        },
    };
    let residuals = match decode_residuals(frame_header, order as u32, stream) {
        Ok(v) => v,
        Err(e) => {
            return Err(e);
        },
    };
    let coefficients: Vec<i64> = if order == 0 {
        vec![]
    } else if order == 1 {
        vec![1]
    } else if order == 2 {
        vec![2, -1]
    } else if order == 3 {
        vec![3, -3, 1]
    } else {
        vec![4, -6, 4, -1]
    };
    proof {
        assert(coefficients@ =~= fixed_coefficients(order as nat));
        lemma2_to64();
    }
    restore(warmup, &coefficients, 0, &residuals, bits)
}

/// A subframe coded with a linear predictor: its parameters as read.
#[derive(Debug)]
pub struct LPCSubframe {
    pub warmup: Vec<i64>,
    pub precision: u8,
    pub shift: i8,
    pub coefficients: Vec<i64>,
}

impl LPCSubframe {
    /// Reads an LPC subframe whose header is `subframe_header`, at `bits` bits per
    /// sample: warm-up samples, coefficient precision, shift (a negative one counts as
    /// zero), coefficients, residual; and restores its samples.
    pub fn from(
        frame_header: &FrameHeader,
        subframe_header: &Header,
        bits: u32,
        stream: &mut BitReader,
    ) -> (r: Result<Vec<i64>, FlacError>)
        requires
            1 <= bits <= 33,
            frame_header.block_size <= 65536,
            subframe_header.ty is LPC,
            1 <= subframe_header.ty->LPC_0 <= 32,
        ensures
            final(stream)@.0 == old(stream)@.0,
            old(stream)@.1 <= final(stream)@.1,
            match body_spec(
                old(stream)@.0,
                old(stream)@.1 as int,
                subframe_header.ty,
                frame_header.block_size as nat,
                bits as nat,
            ) {
                Ok((xs, q)) => r is Ok && r->Ok_0@ == xs && final(stream)@.1 == q,
                Err(e) => r == Err::<Vec<i64>, FlacError>(e),
            },
            r is Ok ==> forall|j: int|
                0 <= j < r->Ok_0@.len() ==> in_width(#[trigger] r->Ok_0@[j] as int, bits as nat),
    {
        let order = match subframe_header.ty {
            Ty::LPC(n) => n,
            _ => 1,
        };
        let sub = match LPCSubframe::read_parameters(stream, order, bits) {
            Ok(v) => v,
            Err(e) => {
                return Err(e);
            },
        };
        let residuals = match decode_residuals(frame_header, order as u32, stream) {
            Ok(v) => v,
            Err(e) => {
                return Err(e);
            },
        };
        let shift = if sub.shift < 0 {
            0
        } else {
            sub.shift as u32
        };
        restore(sub.warmup, &sub.coefficients, shift, &residuals, bits)
    }

    /// Reads the parameters of an LPC subframe of order `order`, up to its residual.
    fn read_parameters(stream: &mut BitReader, order: u8, bits: u32) -> (r: Result<
        LPCSubframe,
        FlacError,
    >)
        requires
            1 <= bits <= 33,
            1 <= order <= 32,
        ensures
            final(stream)@.0 == old(stream)@.0,
            old(stream)@.1 <= final(stream)@.1,
            match lpc_header_spec(old(stream)@.0, old(stream)@.1 as int, order as nat, bits as nat) {
                Ok((warm, coefs, shift, q)) => {
                    &&& r is Ok
                    &&& r->Ok_0.warmup@ == warm
                    &&& r->Ok_0.coefficients@ == coefs
                    &&& (if r->Ok_0.shift < 0 {
                        0nat
                    } else {
                        r->Ok_0.shift as nat
                    }) == shift
                    &&& final(stream)@.1 == q
                },
                Err(e) => r == Err::<LPCSubframe, FlacError>(e),
            },
            r is Ok ==> {
                &&& r->Ok_0.warmup@.len() == order
                &&& r->Ok_0.coefficients@.len() == order
                &&& -16 <= r->Ok_0.shift <= 15
                &&& forall|j: int|
                    0 <= j < r->Ok_0.warmup@.len() ==> in_width(
                        #[trigger] r->Ok_0.warmup@[j] as int,
                        bits as nat,
                    )
                &&& forall|j: int|
                    0 <= j < r->Ok_0.coefficients@.len() ==> -0x8000 <= #[trigger] r->Ok_0.coefficients@[j]
                        <= 0x8000
            },
    {
        let ghost d = stream@.0;
        let warmup = match read_warmup(stream, order as usize, bits) {
            Ok(v) => v,
            Err(e) => {
                return Err(e);
            },
        };
        let ghost q = stream@.1 as int;
        let precision_code = match stream.read_bits(4) {
            Ok(v) => v,
            Err(e) => {
                return Err(e);
            },
        };
        let shift = match stream.read_signed_bits(5) {
            Ok(v) => v,
            Err(e) => {
                return Err(e);
            },
        };
        proof {
            lemma2_to64();
            lemma_bits_value_bound(d, q, 4);
            lemma_bits_value_bound(d, q + 4, 5);
            lemma_sign_extend_range(bits_value(d, q + 4, 5), 5);
        }
        let precision = precision_code + 1;
        let coefficients = match read_values(stream, order as usize, Coding::Signed(precision as u32)) {
            Ok(v) => v,
            Err(e) => {
                return Err(e);
            },
        };
        proof {
            lemma_values_len(d, q + 9, order as nat, Coding::Signed(precision as u32), Seq::empty());
            assert forall|j: int| 0 <= j < coefficients@.len() implies -0x8000 <= #[trigger] coefficients@[j]
                <= 0x8000 by {
                assert(coded_range(coefficients@[j] as int, Coding::Signed(precision as u32)));
                if precision - 1 < 15 {
                    lemma_pow2_strictly_increases((precision - 1) as nat, 15);
                }
            }
        }
        Ok(LPCSubframe { warmup, precision: precision as u8, shift: shift as i8, coefficients })
    }
}

/// Decodes one subframe of a channel with `bits` bits per sample.
pub fn read(frame_header: &FrameHeader, bits: u32, bitstream: &mut BitReader) -> (r: Result<
    Vec<i64>,
    FlacError,
>)
    requires
        1 <= bits <= 33,
        frame_header.block_size <= 65536,
    ensures
        final(bitstream)@.0 == old(bitstream)@.0,
        old(bitstream)@.1 <= final(bitstream)@.1,
        match subframe_spec(
            old(bitstream)@.0,
            old(bitstream)@.1 as int,
            frame_header.block_size as nat,
            bits as nat,
        ) {
            Ok((xs, q)) => r is Ok && r->Ok_0@ == xs && final(bitstream)@.1 == q,
            Err(e) => r == Err::<Vec<i64>, FlacError>(e),
        },
        r is Ok ==> forall|j: int|
            0 <= j < r->Ok_0@.len() ==> in_width(#[trigger] r->Ok_0@[j] as int, bits as nat),
{
    proof {
        reveal(subframe_spec);
    }
    let header = match Header::from(bitstream) {
        Ok(h) => h,
        Err(e) => {
            return Err(e);
        },
    };
    if header.wasted_bits as u32 >= bits {
        return Err(FlacError::InvalidWastedBits);
    }
    let width = bits - header.wasted_bits as u32;
    let decoded = match header.ty {
        Ty::Constant => decode_constant(frame_header, width, bitstream),
        Ty::Verbatim => VerbatimSubframe::from(frame_header, width, bitstream),
        Ty::Fixed(order) => decode_fixed(frame_header, order, width, bitstream),
        Ty::LPC(_) => LPCSubframe::from(frame_header, &header, width, bitstream),
    };
    let samples = match decoded {
        Ok(v) => v,
        Err(e) => {
            return Err(e);
        },
    };
    Ok(restore_wasted_bits(samples, width, header.wasted_bits as u32))
}

/// Shifts every sample of `width` bits left by `wasted` bits.
fn restore_wasted_bits(samples: Vec<i64>, width: u32, wasted: u32) -> (r: Vec<i64>)
    requires
        1 <= width,
        width + wasted <= 33,
        forall|j: int|
            0 <= j < samples@.len() ==> in_width(#[trigger] samples@[j] as int, width as nat),
    ensures
        r@ == scaled(samples@, wasted as nat),
        forall|j: int|
            0 <= j < r@.len() ==> in_width(#[trigger] r@[j] as int, (width + wasted) as nat),
{
    let bits = width + wasted;
    proof {
        lemma2_to64();
        lemma2_to64_rest();
        lemma_pow2_pos(wasted as nat);
        lemma_pow2_adds((width - 1) as nat, wasted as nat);
        if bits - 1 < 33 {
            lemma_pow2_strictly_increases((bits - 1) as nat, 33);
        }
    }
    let factor = pow2_u64(wasted) as i64;
    let mut out: Vec<i64> = Vec::with_capacity(samples.len());
    let mut i: usize = 0;
    while i < samples.len()
        invariant
            i <= samples@.len(),
            1 <= width,
            width + wasted == bits <= 33,
            factor == pow2(wasted as nat),
            factor > 0,
            pow2((width - 1) as nat) * pow2(wasted as nat) == pow2((bits - 1) as nat),
            pow2((bits - 1) as nat) <= 0x1_0000_0000,
            forall|j: int|
                0 <= j < samples@.len() ==> in_width(#[trigger] samples@[j] as int, width as nat),
            out@ == scaled(samples@, wasted as nat).take(i as int),
            forall|j: int| 0 <= j < out@.len() ==> in_width(#[trigger] out@[j] as int, bits as nat),
        decreases samples@.len() - i,
    {
        let x = samples[i];
        proof {
            assert(in_width(x as int, width as nat));
            let h = pow2((width - 1) as nat);
            assert(-(h * factor) <= x * factor < h * factor) by (nonlinear_arith)
                requires
                    -h <= x < h,
                    factor > 0,
            ;
            assert(h * factor == pow2((bits - 1) as nat));
            assert(in_width(x * factor, bits as nat));
        }
        let y = x * factor;
        let ghost before = out@;
        out.push(y);
        i = i + 1;
        proof {
            assert(out@ =~= scaled(samples@, wasted as nat).take(i as int));
            assert forall|j: int| 0 <= j < out@.len() implies in_width(
                #[trigger] out@[j] as int,
                bits as nat,
            ) by {
                if j < before.len() {
                    assert(out@[j] == before[j]);
                }
            }
        }
    }
    proof {
        assert(out@ =~= scaled(samples@, wasted as nat));
    }
    out
}

proof fn lemma_restore_len(s: Seq<i64>, res: Seq<i64>, i: nat, coefs: Seq<i64>, shift: nat, w: nat)
    requires
        i <= res.len(),
    ensures
        restore_from(s, res, i, coefs, shift, w) is Ok ==> restore_from(
            s,
            res,
            i,
            coefs,
            shift,
            w,
        )->Ok_0.len() == s.len() + res.len() - i,
    decreases res.len() - i,
{
    if i < res.len() {
        let v = res[i as int] + prediction(s, coefs, shift);
        if in_width(v, w) {
            lemma_restore_len(s.push(v as i64), res, i + 1, coefs, shift, w);
        }
    }
}

proof fn lemma_partitions_len(
    d: Seq<u8>,
    p: int,
    method: nat,
    per: nat,
    order: nat,
    i: nat,
    total: nat,
    acc: Seq<i64>,
)
    requires
        order <= per,
        i <= total,
    ensures
        partitions_from(d, p, method, per, order, i, total, acc) is Ok ==> partitions_from(
            d,
            p,
            method,
            per,
            order,
            i,
            total,
            acc,
        )->Ok_0.0.len() == acc.len() + (total - i) * per - (if i == 0 && total > 0 {
            order
        } else {
            0
        }),
    decreases total - i,
{
    if i == total {
        assert((total - i) * per == 0) by (nonlinear_arith)
            requires
                i == total,
        ;
    }
    if i < total {
        let count: nat = if i == 0 {
            (per - order) as nat
        } else {
            per
        };
        let pw: nat = if method == 0 {
            4
        } else {
            5
        };
        if p + pw <= bit_len(d) {
            let param = bits_value(d, p, pw);
            if param == (if method == 0 {
                15nat
            } else {
                31nat
            }) {
                lemma_values_len(
                    d,
                    p + pw + 5,
                    count,
                    Coding::Signed(bits_value(d, p + pw, 5) as u32),
                    Seq::empty(),
                );
            } else {
                lemma_values_len(d, p + pw, count, Coding::Rice(param as u32), Seq::empty());
            }
        }
        match partition_spec(d, p, method, count) {
            Err(_) => {},
            Ok((xs, q)) => {
                assert(xs.len() == count);
                lemma_partitions_len(d, q, method, per, order, i + 1, total, acc + xs);
                assert((total - i) * per == per + (total - (i + 1)) * per) by (nonlinear_arith)
                    requires
                        i < total,
                ;
            },
        }
    }
}

/// A decoded residual holds one value for each sample but the warm-up ones.
proof fn lemma_residual_len(d: Seq<u8>, p: int, block_size: nat, order: nat)
    ensures
        residual_spec(d, p, block_size, order) is Ok ==> residual_spec(
            d,
            p,
            block_size,
            order,
        )->Ok_0.0.len() + order == block_size,
{
    if p + 6 <= bit_len(d) && bits_value(d, p, 2) <= 1 {
        let parts = pow2(bits_value(d, p + 2, 4));
        lemma_pow2_pos(bits_value(d, p + 2, 4));
        if block_size % parts == 0 && block_size / parts >= order {
            let per = block_size / parts;
            lemma_fundamental_div_mod(block_size as int, parts as int);
            lemma_partitions_len(d, p + 6, bits_value(d, p, 2), per, order, 0, parts, Seq::empty());
            vstd::arithmetic::mul::lemma_mul_is_commutative(parts as int, per as int);
        }
    }
}

/// A decoded subframe holds one sample for each of the block.
pub proof fn lemma_subframe_len(d: Seq<u8>, p: int, block_size: nat, bits: nat)
    ensures
        subframe_spec(d, p, block_size, bits) is Ok ==> subframe_spec(
            d,
            p,
            block_size,
            bits,
        )->Ok_0.0.len() == block_size,
{
    reveal(subframe_spec);
    match header_spec(d, p) {
        Err(_) => {},
        Ok((h, p1)) => if h.wasted_bits < bits {
            let w = (bits - h.wasted_bits) as nat;
            match h.ty {
                Ty::Constant => {},
                Ty::Verbatim => {
                    lemma_values_len(d, p1, block_size, Coding::Signed(w as u32), Seq::empty());
                },
                Ty::Fixed(order) => {
                    lemma_values_len(d, p1, order as nat, Coding::Signed(w as u32), Seq::empty());
                    match values_spec(d, p1, order as nat, Coding::Signed(w as u32)) {
                        Err(_) => {},
                        Ok((warm, q)) => {
                            lemma_residual_len(d, q, block_size, order as nat);
                            match residual_spec(d, q, block_size, order as nat) {
                                Err(_) => {},
                                Ok((res, q2)) => {
                                    lemma_restore_len(
                                        warm,
                                        res,
                                        0,
                                        fixed_coefficients(order as nat),
                                        0,
                                        w,
                                    );
                                },
                            }
                        },
                    }
                },
                Ty::LPC(order) => {
                    lemma_values_len(d, p1, order as nat, Coding::Signed(w as u32), Seq::empty());
                    match lpc_header_spec(d, p1, order as nat, w) {
                        Err(_) => {},
                        Ok((warm, coefs, shift, q)) => {
                            lemma_residual_len(d, q, block_size, order as nat);
                            match residual_spec(d, q, block_size, order as nat) {
                                Err(_) => {},
                                Ok((res, q2)) => {
                                    lemma_restore_len(warm, res, 0, coefs, shift, w);
                                },
                            }
                        },
                    }
                },
            }
        },
    }
}

/// The zig-zag code of a signed residual: `2s` for `s >= 0`, `-2s - 1` below zero.
pub open spec fn zigzag_encode(s: int) -> nat {
    if s < 0 {
        (-2 * s - 1) as nat
    } else {
        (2 * s) as nat
    }
}

/// Residual zig-zag: decoding the zig-zag code of any integer gives it back.
pub proof fn law_zigzag_round_trip(s: int)
    ensures
        zigzag(zigzag_encode(s)) == s,
{
}

/// Each restored sample is its residual plus the prediction from the samples before
/// it, and the samples given first stay as they are.
proof fn lemma_restore_steps(s: Seq<i64>, res: Seq<i64>, i: nat, coefs: Seq<i64>, shift: nat, w: nat)
    requires
        1 <= w <= 64,
        i <= res.len(),
        restore_from(s, res, i, coefs, shift, w) is Ok,
    ensures
        ({
            let t = restore_from(s, res, i, coefs, shift, w)->Ok_0;
            &&& t.len() == s.len() + res.len() - i
            &&& t.take(s.len() as int) == s
            &&& forall|j: int|
                s.len() <= j < t.len() ==> #[trigger] t[j] == res[i + j - s.len()] + prediction(
                    t.take(j),
                    coefs,
                    shift,
                )
        }),
    decreases res.len() - i,
{
    if i < res.len() {
        let v = res[i as int] + prediction(s, coefs, shift);
        lemma2_to64();
        lemma2_to64_rest();
        if w - 1 < 63 {
            lemma_pow2_strictly_increases((w - 1) as nat, 63);
        }
        assert(v as i64 == v);
        let s2 = s.push(v as i64);
        lemma_restore_steps(s2, res, i + 1, coefs, shift, w);
        let t = restore_from(s, res, i, coefs, shift, w)->Ok_0;
        assert(t.take(s2.len() as int) == s2);
        assert(t.take(s.len() as int) =~= s) by {
            assert(t.take(s.len() as int) =~= s2.take(s.len() as int));
        }
        assert(t.take(s.len() as int) =~= s);
        assert(t[s.len() as int] == s2[s.len() as int]);
    } else {
        assert(s.take(s.len() as int) =~= s);
    }
}

/// The `k`-th backward difference of `s` at `i`.
pub open spec fn difference(s: Seq<i64>, k: nat, i: int) -> int
    decreases k,
{
    if k == 0 {
        s[i] as int
    } else {
        difference(s, (k - 1) as nat, i) - difference(s, (k - 1) as nat, i - 1)
    }
}

proof fn lemma_fixed_difference(s: Seq<i64>, order: nat, i: int)
    requires
        order <= 4,
        order <= i < s.len(),
        s[i] == prediction(s.take(i), fixed_coefficients(order), 0),
    ensures
        difference(s, order, i) == 0,
{
    let t = s.take(i);
    let c = fixed_coefficients(order);
    lemma2_to64();
    assert(prediction(t, c, 0) == lpc_sum(t, c, c.len()));
    reveal_with_fuel(lpc_sum, 5);
    reveal_with_fuel(difference, 5);
    if order == 0 {
        assert(lpc_sum(t, c, 0) == 0);
    } else if order == 1 {
        assert(c[0] == 1);
        assert(lpc_sum(t, c, 0) == 0);
        assert(c[0] * t[i - 1] == t[i - 1]) by (nonlinear_arith)
            requires
                c[0] == 1,
        ;
        assert(lpc_sum(t, c, 1) == t[i - 1]);
        assert(t[i - 1] == s[i - 1]);
    } else if order == 2 {
        assert(c[0] == 2 && c[1] == -1);
        assert(lpc_sum(t, c, 2) == 2 * t[i - 1] - t[i - 2]);
        assert(t[i - 1] == s[i - 1]);
        assert(t[i - 2] == s[i - 2]);
    } else if order == 3 {
        assert(c[0] == 3 && c[1] == -3 && c[2] == 1);
        assert(c[2] * t[i - 3] == t[i - 3]) by (nonlinear_arith)
            requires
                c[2] == 1,
        ;
        assert(lpc_sum(t, c, 1) == 3 * t[i - 1]);
        assert(lpc_sum(t, c, 2) == 3 * t[i - 1] - 3 * t[i - 2]);
        assert(lpc_sum(t, c, 3) == 3 * t[i - 1] - 3 * t[i - 2] + t[i - 3]);
        assert(t[i - 1] == s[i - 1]);
        assert(t[i - 2] == s[i - 2]);
        assert(t[i - 3] == s[i - 3]);
    } else {
        assert(c[0] == 4 && c[1] == -6 && c[2] == 4 && c[3] == -1);
        assert(lpc_sum(t, c, 4) == 4 * t[i - 1] - 6 * t[i - 2] + 4 * t[i - 3] - t[i - 4]);
        assert(t[i - 1] == s[i - 1]);
        assert(t[i - 2] == s[i - 2]);
        assert(t[i - 3] == s[i - 3]);
        assert(t[i - 4] == s[i - 4]);
    }
}

/// Fixed predictor linearity: with an all-zero residual, the fixed predictor of order
/// `k` continues its warm-up samples as a polynomial of degree below `k`: every `k`-th
/// difference past the warm-up is zero.
pub proof fn law_fixed_predictor_polynomial(warm: Seq<i64>, res: Seq<i64>, order: nat, w: nat)
    requires
        1 <= w <= 64,
        order <= 4,
        warm.len() == order,
        forall|i: int| 0 <= i < res.len() ==> res[i] == 0,
        restore_from(warm, res, 0, fixed_coefficients(order), 0, w) is Ok,
    ensures
        ({
            let s = restore_from(warm, res, 0, fixed_coefficients(order), 0, w)->Ok_0;
            forall|i: int| order <= i < s.len() ==> #[trigger] difference(s, order, i) == 0
        }),
{
    let coefs = fixed_coefficients(order);
    lemma_restore_steps(warm, res, 0, coefs, 0, w);
    let s = restore_from(warm, res, 0, coefs, 0, w)->Ok_0;
    assert forall|i: int| order <= i < s.len() implies #[trigger] difference(s, order, i) == 0 by {
        assert(s[i] == res[i - order] + prediction(s.take(i), coefs, 0));
        lemma_fixed_difference(s, order, i);
    }
}

/// Wasted bits: a subframe header whose flag is set and that is followed by `n` zero
/// bits and a one bit holds `n + 1` wasted bits and ends after that one bit.
pub proof fn law_wasted_bits(d: Seq<u8>, p: int, n: nat)
    requires
        0 <= p,
        p + 8 + n < bit_len(d),
        bit_len(d) <= u64::MAX,
        n + 1 <= 32,
        bits_value(d, p, 1) == 0,
        type_of(bits_value(d, p + 1, 6)) is Some,
        bits_value(d, p + 7, 1) == 1,
        forall|j: int| p + 8 <= j < p + 8 + n ==> !bit_at(d, j),
        bit_at(d, p + 8 + n),
    ensures
        header_spec(d, p) == Ok::<(Header, int), FlacError>(
            (
                Header {
                    ty: type_of(bits_value(d, p + 1, 6))->Some_0,
                    wasted_bits: (n + 1) as u8,
                },
                p + 9 + n,
            ),
        ),
{
    crate::bitstream::law_unary_round_trip(d, p + 8, n);
}

proof fn lemma_signed_values(d: Seq<u8>, p: int, n: nat, w: u32, acc: Seq<i64>)
    requires
        p + n * w <= bit_len(d),
    ensures
        values_from(d, p, n, Coding::Signed(w), acc) is Ok,
        ({
            let (xs, q) = values_from(d, p, n, Coding::Signed(w), acc)->Ok_0;
            &&& q == p + n * w
            &&& xs.len() == acc.len() + n
            &&& xs.take(acc.len() as int) == acc
            &&& forall|i: int|
                0 <= i < n ==> #[trigger] xs[acc.len() + i] == sign_extend(
                    bits_value(d, p + i * w, w as nat),
                    w as nat,
                ) as i64
        }),
    decreases n,
{
    if n == 0 {
        assert(acc.take(acc.len() as int) =~= acc);
    } else {
        assert((n - 1) * w + w == n * w) by (nonlinear_arith);
        assert(0 <= (n - 1) * w) by (nonlinear_arith)
            requires
                n >= 1,
        ;
        let v = sign_extend(bits_value(d, p, w as nat), w as nat) as i64;
        lemma_signed_values(d, p + w, (n - 1) as nat, w, acc.push(v));
        let xs = values_from(d, p, n, Coding::Signed(w), acc)->Ok_0.0;
        assert(xs.take(acc.len() as int) =~= acc) by {
            assert(xs.take(acc.len() as int + 1) == acc.push(v));
            assert(xs.take(acc.len() as int) =~= acc.push(v).take(acc.len() as int));
        }
        assert forall|i: int| 0 <= i < n implies #[trigger] xs[acc.len() + i] == sign_extend(
            bits_value(d, p + i * w, w as nat),
            w as nat,
        ) as i64 by {
            if i == 0 {
                assert(xs[acc.len() as int] == xs.take(acc.len() as int + 1)[acc.len() as int]);
            } else {
                let k = i - 1;
                assert(xs[(acc.len() + 1) + k] == sign_extend(
                    bits_value(d, (p + w) + k * w, w as nat),
                    w as nat,
                ) as i64);
                assert((p + w) + k * w == p + i * w) by (nonlinear_arith)
                    requires
                        k == i - 1,
                ;
            }
        }
    }
}

/// Verbatim samples are the successive `w`-bit two's complement reads: sample `i` is
/// the sign-extended value of bits `p + i w` to `p + (i + 1) w`, and the subframe body
/// ends after `n w` bits. Written back in `w` bits each, they give the input bits, as
/// the exactness of bit reads states.
pub proof fn law_verbatim_samples(d: Seq<u8>, p: int, n: nat, w: u32)
    requires
        p + n * w <= bit_len(d),
    ensures
        body_spec(d, p, Ty::Verbatim, n, w as nat) is Ok,
        ({
            let (xs, q) = body_spec(d, p, Ty::Verbatim, n, w as nat)->Ok_0;
            &&& q == p + n * w
            &&& xs.len() == n
            &&& forall|i: int|
                0 <= i < n ==> #[trigger] xs[i] == sign_extend(
                    bits_value(d, p + i * w, w as nat),
                    w as nat,
                ) as i64
        }),
{
    lemma_signed_values(d, p, n, w, Seq::empty());
    let xs = body_spec(d, p, Ty::Verbatim, n, w as nat)->Ok_0.0;
    assert forall|i: int| 0 <= i < n implies #[trigger] xs[i] == sign_extend(
        bits_value(d, p + i * w, w as nat),
        w as nat,
    ) as i64 by {
        assert(xs[0 + i] == xs[i]);
    }
}

} // verus!
