use vstd::prelude::*;
use vstd::slice::slice_subrange;
use vstd::arithmetic::power2::pow2;
use vstd::arithmetic::power2::lemma_pow2_adds;
use vstd::arithmetic::power2::lemma_pow2_pos;
use vstd::bits::lemma_u64_shl_is_mul;
use crate::incremental::Step;
use crate::incremental::Outcome;
use crate::incremental::Parsed;
use crate::incremental::feed;
use crate::incremental::lemma_split;
use crate::incremental::lemma_feed_one;
use crate::incremental::lemma_feed_snoc;
use crate::shl::shl64_in_range;
use crate::shl::shl64;
use crate::shl::safe_shl_u64;

verus! {

/// A varint continuation would shift a nonzero bit off the 64-bit
/// accumulator, or asks for a position beyond its capacity.
#[derive(Clone, Copy, Debug, PartialEq, Eq)]
pub struct Overflow;

/// Unsigned little-endian base-128 integer parser. Each input byte
/// contributes its low 7 bits at the current shift; a set high bit means a
/// further byte follows.
#[derive(Clone, Copy, Debug, PartialEq, Eq)]
pub struct Leb128 {
    pub shift: u8,
    pub value: u64,
}

impl Default for Leb128 {
    /// A fresh parser: no bits accumulated yet.
    fn default() -> (r: Leb128)
        ensures
            r == (Leb128 { shift: 0u8, value: 0u64 }),
    {
        Leb128 { shift: 0, value: 0 }
    }
}

impl Leb128 {
    /// Resume from a seeded state: `value` already holds bits below `shift`.
    pub fn new(shift: u8, value: u64) -> (r: Leb128)
        ensures
            r == (Leb128 { shift, value }),
    {
        Leb128 { shift, value }
    }

    /// One byte of LEB128: shift the low 7 bits to the current position and
    /// OR them in; fail if that would discard a nonzero bit; finish when
    /// the high bit is clear.
    pub open spec fn step(st: Leb128, b: u8) -> Step<Leb128, u64, Overflow> {
        let payload = (b & 0x7f) as u64;
        if !shl64_in_range(payload, st.shift as nat) {
            Step::Fail(Overflow)
        } else {
            let value = st.value | shl64(payload, st.shift as nat);
            if b & 0x80 == 0 {
                Step::Done(value)
            } else {
                Step::More(Leb128 { shift: (st.shift + 7) as u8, value })
            }
        }
    }

    pub open spec fn step_fn() -> spec_fn(Leb128, u8) -> Step<Leb128, u64, Overflow> {
        |st: Leb128, b: u8| Leb128::step(st, b)
    }

    /// One transition of the parser, as a step.
    pub fn step_exec(st: Leb128, b: u8) -> (r: Step<Leb128, u64, Overflow>)
        ensures
            r == Leb128::step(st, b),
    {
        match safe_shl_u64((b & 0x7f) as u64, st.shift as u32) {
            None => Step::Fail(Overflow),
            Some(v) => {
                let value = st.value | v;
                if b & 0x80 == 0 {
                    Step::Done(value)
                } else {
                    Step::More(Leb128 { shift: st.shift + 7, value })
                }
            }
        }
    }

    pub fn parse<'a>(self, buf: &'a [u8]) -> (r: Parsed<'a, Leb128, u64, Overflow>)
        ensures
            ({
                let o = feed(Leb128::step_fn(), self, buf@);
                match r {
                    Parsed::Incomplete(p) => o == Outcome::<Leb128, u64, Overflow>::Incomplete(p),
                    Parsed::Done(v, tail) => o == Outcome::<Leb128, u64, Overflow>::Done(v, tail@),
                    Parsed::Failed(e) => o == Outcome::<Leb128, u64, Overflow>::Fail(e),
                }
            }),
    {
        let ghost step = Leb128::step_fn();
        let mut st = self;
        let mut i: usize = 0;
        let n = buf.len();
        while i < n
            invariant
                i <= n,
                n == buf@.len(),
                feed(step, self, buf@.take(i as int)) == Outcome::<Leb128, u64, Overflow>::Incomplete(st),
                step == Leb128::step_fn(),
            decreases n - i,
        {
            let b = buf[i];
            proof {
                assert(buf@.take(i as int).push(b) =~= buf@.take(i + 1));
                lemma_feed_snoc(step, self, buf@.take(i as int), b);
                lemma_feed_one(step, st, b);
                lemma_split(step, self, buf@.take(i + 1), buf@.skip(i + 1));
                assert(buf@.take(i + 1) + buf@.skip(i + 1) =~= buf@);
            }
            match safe_shl_u64((b & 0x7f) as u64, st.shift as u32) {
                None => {
                    return Parsed::Failed(Overflow);
                }
                Some(v) => {
                    let value = st.value | v;
                    if b & 0x80 == 0 {
                        let tail = slice_subrange(buf, i + 1, n);
                        proof {
                            assert(Seq::<u8>::empty() + buf@.skip(i + 1) =~= buf@.skip(i + 1));
                            assert(tail@ =~= buf@.skip(i + 1));
                        }
                        return Parsed::Done(value, tail);
                    }
                    st = Leb128 { shift: st.shift + 7, value };
                    i = i + 1;
                }
            }
        }
        proof {
            assert(buf@.take(n as int) =~= buf@);
        }
        Parsed::Incomplete(st)
    }
}

/// Error type of parsers that cannot fail.
#[derive(Clone, Copy, Debug, PartialEq, Eq)]
pub struct NoError;

/// Fixed-width accumulator: consumes exactly `N` bytes and yields them.
#[derive(Clone, Copy, Debug, PartialEq, Eq)]
pub struct Bytes<const N: usize> {
    pub val: [u8; N],
    pub len: usize,
}

impl<const N: usize> Default for Bytes<N> {
    /// A fresh accumulator: no bytes gathered yet.
    fn default() -> (r: Bytes<N>)
        ensures
            r.partial() == Seq::<u8>::empty(),
            N > 0 ==> r.wf(),
    {
        let r = Bytes { val: [0u8; N], len: 0 };
        proof {
            assert(r.partial() =~= Seq::<u8>::empty());
        }
        r
    }
}

impl<const N: usize> Bytes<N> {
    /// The bytes gathered so far.
    pub open spec fn partial(self) -> Seq<u8> {
        self.val@.take(self.len as int)
    }

    /// A live accumulator still has room; a full one has already been
    /// surrendered through `Done`.
    pub open spec fn wf(self) -> bool {
        self.len < N
    }

    /// One byte of input is appended; the accumulator finishes when it
    /// holds `N` bytes.
    pub open spec fn step(acc: Seq<u8>, b: u8) -> Step<Seq<u8>, Seq<u8>, NoError> {
        let acc2 = acc.push(b);
        if acc2.len() == N {
            Step::Done(acc2)
        } else {
            Step::More(acc2)
        }
    }

    pub open spec fn step_fn() -> spec_fn(Seq<u8>, u8) -> Step<Seq<u8>, Seq<u8>, NoError> {
        |acc: Seq<u8>, b: u8| Bytes::<N>::step(acc, b)
    }

    pub fn parse<'a>(self, buf: &'a [u8]) -> (r: Parsed<'a, Bytes<N>, [u8; N], NoError>)
        requires
            self.wf(),
        ensures
            ({
                let o = feed(Bytes::<N>::step_fn(), self.partial(), buf@);
                match r {
                    Parsed::Incomplete(p) => p.wf() && o == Outcome::<Seq<u8>, Seq<u8>, NoError>::Incomplete(p.partial()),
                    Parsed::Done(v, tail) => o == Outcome::<Seq<u8>, Seq<u8>, NoError>::Done(v@, tail@),
                    Parsed::Failed(e) => o == Outcome::<Seq<u8>, Seq<u8>, NoError>::Fail(e),
                }
            }),
    {
        let ghost step = Bytes::<N>::step_fn();
        let ghost st0 = self.partial();
        let mut cur = self;
        let mut i: usize = 0;
        let n = buf.len();
        while i < n
            invariant
                i <= n,
                n == buf@.len(),
                cur.wf(),
                feed(step, st0, buf@.take(i as int)) == Outcome::<Seq<u8>, Seq<u8>, NoError>::Incomplete(cur.partial()),
                step == Bytes::<N>::step_fn(),
                st0 == self.partial(),
            decreases n - i,
        {
            let b = buf[i];
            let ghost prev = cur.partial();
            proof {
                assert(buf@.take(i as int).push(b) =~= buf@.take(i + 1));
                lemma_feed_snoc(step, st0, buf@.take(i as int), b);
                lemma_feed_one(step, prev, b);
                lemma_split(step, st0, buf@.take(i + 1), buf@.skip(i + 1));
                assert(buf@.take(i + 1) + buf@.skip(i + 1) =~= buf@);
            }
            cur.val[cur.len] = b;
            cur.len = cur.len + 1;
            proof {
                assert(cur.partial() =~= prev.push(b));
            }
            if cur.len == N {
                let tail = slice_subrange(buf, i + 1, n);
                proof {
                    assert(cur.partial() =~= cur.val@);
                    assert(Seq::<u8>::empty() + buf@.skip(i + 1) =~= buf@.skip(i + 1));
                    assert(tail@ =~= buf@.skip(i + 1));
                }
                return Parsed::Done(cur.val, tail);
            }
            i = i + 1;
        }
        proof {
            assert(buf@.take(n as int) =~= buf@);
        }
        Parsed::Incomplete(cur)
    }
}

/// An accumulator never fails, whatever it is fed.
pub proof fn lemma_bytes_no_fail<const N: usize>(acc: Seq<u8>, s: Seq<u8>)
    ensures
        !(feed(Bytes::<N>::step_fn(), acc, s) matches Outcome::Fail(_)),
    decreases s.len(),
{
    if s.len() > 0 {
        match Bytes::<N>::step(acc, s.first()) {
            Step::More(acc2) => {
                lemma_bytes_no_fail::<N>(acc2, s.drop_first());
            }
            Step::Done(_) => {}
            Step::Fail(_) => {}
        }
    }
}

/// The (unique, minimal) base-128 rendering of a natural number, least
/// significant 7 bits first, high bit of each byte marking continuation.
pub open spec fn leb128_encoding(w: nat) -> Seq<u8>
    decreases w,
{
    if w < 0x80 {
        seq![w as u8]
    } else {
        seq![(0x80 + w % 0x80) as u8] + leb128_encoding(w / 0x80)
    }
}

/// Encode a value in LEB128 form.
pub fn leb128_encode(v: u64) -> (r: Vec<u8>)
    ensures
        r@ == leb128_encoding(v as nat),
{
    let mut out: Vec<u8> = Vec::new();
    let mut rest: u64 = v;
    loop
        invariant
            out@ + leb128_encoding(rest as nat) == leb128_encoding(v as nat),
        decreases rest,
    {
        if rest < 0x80 {
            out.push(rest as u8);
            proof {
                assert(out@ =~= leb128_encoding(v as nat));
            }
            return out;
        } else {
            out.push((0x80 + rest % 0x80) as u8);
            proof {
                assert(out@ + leb128_encoding((rest / 0x80) as nat) =~= leb128_encoding(v as nat));
            }
            rest = rest / 0x80;
        }
    }
}

/// From a state whose accumulated bits all lie below `shift`, feeding the
/// encoding of `w` finishes with the accumulator plus `w` shifted into
/// place, provided that the sum fits in 64 bits.
proof fn lemma_leb128_decodes(st: Leb128, w: nat)
    requires
        st.shift < 64,
        (st.value as nat) < pow2(st.shift as nat),
        (st.value as nat) + w * pow2(st.shift as nat) <= u64::MAX as nat,
    ensures
        feed(Leb128::step_fn(), st, leb128_encoding(w)) == Outcome::<Leb128, u64, Overflow>::Done(
            ((st.value as nat) + w * pow2(st.shift as nat)) as u64,
            Seq::empty(),
        ),
    decreases w,
{
    let step = Leb128::step_fn();
    let shift = st.shift;
    let value = st.value;
    let p = pow2(shift as nat);
    lemma_pow2_pos(shift as nat);
    vstd::bits::lemma_u64_pow2_no_overflow(shift as nat);
    let r = w % 0x80;
    let r64: u64 = r as u64;
    vstd::arithmetic::div_mod::lemma_fundamental_div_mod(w as int, 0x80);
    assert(r * p <= w * p) by (nonlinear_arith)
        requires
            r <= w,
            p > 0,
    ;
    let rs: u64 = ((r * p) as u64);
    assert(shl64_in_range(r64, shift as nat));
    assert(shl64(r64, shift as nat) == rs);
    // the accumulated bits and the shifted payload occupy disjoint positions
    assert(rs == (r64 << (shift as u64)) && p == (1u64 << (shift as u64))) by {
        lemma_u64_shl_is_mul(r64, shift as u64);
        lemma_u64_shl_is_mul(1u64, shift as u64);
    }
    assert(value | (r64 << (shift as u64)) == value + (r64 << (shift as u64))) by (bit_vector)
        requires
            (shift as u64) < 64u64,
            value < (1u64 << (shift as u64)),
    ;
    assert(value | rs == value + rs);
    if w < 0x80 {
        let b: u8 = w as u8;
        assert(b & 0x7f == b && b & 0x80 == 0) by (bit_vector)
            requires
                b < 0x80u8,
        ;
        assert(r == w);
        assert(Leb128::step(st, b) == Step::<Leb128, u64, Overflow>::Done((value + rs) as u64));
        lemma_feed_one(step, st, b);
        assert(leb128_encoding(w) =~= seq![b]);
    } else {
        let b: u8 = (0x80 + r) as u8;
        assert(b & 0x7f == (r64 as u8) && b & 0x80 != 0) by (bit_vector)
            requires
                r64 < 0x80u64,
                b as u64 == 128u64 + r64,
        ;
        assert((b & 0x7f) as u64 == r64);
        let value2: u64 = (value + rs) as u64;
        let st2 = Leb128 { shift: (shift + 7) as u8, value: value2 };
        assert(Leb128::step(st, b) == Step::<Leb128, u64, Overflow>::More(st2));
        // w >= 0x80, so the rest of the value sits at and above shift + 7,
        // which must itself still be a valid shift amount
        let w2 = w / 0x80;
        let p7 = pow2((shift + 7) as nat);
        lemma_pow2_adds(shift as nat, 7);
        vstd::arithmetic::power2::lemma2_to64();
        assert(p7 == p * 0x80);
        assert(w == 0x80 * w2 + r);
        assert(w * p == w2 * p7 + r * p) by (nonlinear_arith)
            requires
                w == 0x80 * w2 + r,
                p7 == p * 0x80,
        ;
        assert(w2 * p7 >= p7) by (nonlinear_arith)
            requires
                w2 >= 1,
                p7 > 0,
        ;
        assert(shift + 7 < 64) by {
            if shift + 7 >= 64 {
                vstd::arithmetic::power2::lemma_pow2_strictly_increases(63, (shift + 7) as nat);
                vstd::arithmetic::power2::lemma2_to64_rest();
                assert(pow2(63) == 0x8000000000000000);
                assert(p7 > u64::MAX as nat);
            }
        }
        assert((value2 as nat) < p7) by (nonlinear_arith)
            requires
                value2 == value + rs,
                rs == r * p,
                (value as nat) < p,
                r < 0x80,
                p7 == p * 0x80,
                p > 0,
        ;
        lemma_leb128_decodes(st2, w2);
        assert(leb128_encoding(w) == seq![b] + leb128_encoding(w2));
        lemma_split(step, st, seq![b], leb128_encoding(w2));
        lemma_feed_one(step, st, b);
        assert(feed(step, st, leb128_encoding(w)) == feed(step, st2, leb128_encoding(w2)));
    }
}

/// LEB128 round trip: decoding the encoding of any 64-bit value, from a
/// fresh parser, yields exactly that value with nothing left over.
pub proof fn lemma_leb128_round_trip(v: u64)
    ensures
        feed(Leb128::step_fn(), Leb128 { shift: 0, value: 0 }, leb128_encoding(v as nat))
            == Outcome::<Leb128, u64, Overflow>::Done(v, Seq::empty()),
{
    vstd::arithmetic::power2::lemma2_to64();
    assert(pow2(0) == 1);
    assert((v as nat) * pow2(0) == v as nat) by (nonlinear_arith)
        requires
            pow2(0) == 1,
    ;
    lemma_leb128_decodes(Leb128 { shift: 0, value: 0 }, v as nat);
}

/// A parser whose shift has run past the 64-bit accumulator fails on the
/// next byte, whatever it is.
proof fn lemma_leb128_high_shift_fails(st: Leb128, s: Seq<u8>)
    requires
        st.shift >= 64,
        s.len() > 0,
    ensures
        feed(Leb128::step_fn(), st, s) == Outcome::<Leb128, u64, Overflow>::Fail(Overflow),
{
    assert(!shl64_in_range((s.first() & 0x7f) as u64, st.shift as nat));
}

/// Decoding the encoding of a value too large for the 64-bit accumulator
/// reports an overflow.
pub proof fn lemma_leb128_overflow(w: nat)
    requires
        w > u64::MAX as nat,
    ensures
        feed(Leb128::step_fn(), Leb128 { shift: 0, value: 0 }, leb128_encoding(w))
            == Outcome::<Leb128, u64, Overflow>::Fail(Overflow),
{
    vstd::arithmetic::power2::lemma2_to64();
    assert(pow2(0) == 1);
    assert(w * pow2(0) == w) by (nonlinear_arith)
        requires
            pow2(0) == 1,
    ;
    lemma_leb128_encoding_overflows(Leb128 { shift: 0, value: 0 }, w);
}

/// Generalisation of `lemma_leb128_overflow` to a parser in mid-flight.
proof fn lemma_leb128_encoding_overflows(st: Leb128, w: nat)
    requires
        st.shift < 64,
        (st.value as nat) < pow2(st.shift as nat),
        (st.value as nat) + w * pow2(st.shift as nat) > u64::MAX as nat,
    ensures
        feed(Leb128::step_fn(), st, leb128_encoding(w)) == Outcome::<Leb128, u64, Overflow>::Fail(
            Overflow,
        ),
    decreases w,
{
    let step = Leb128::step_fn();
    let shift = st.shift;
    let value = st.value;
    let p = pow2(shift as nat);
    lemma_pow2_pos(shift as nat);
    vstd::bits::lemma_u64_pow2_no_overflow(shift as nat);
    lemma_pow2_adds(shift as nat, (64 - shift) as nat);
    vstd::arithmetic::power2::lemma2_to64();
    let r = w % 0x80;
    let r64: u64 = r as u64;
    vstd::arithmetic::div_mod::lemma_fundamental_div_mod(w as int, 0x80);
    if w < 0x80 {
        let b: u8 = w as u8;
        assert(b & 0x7f == b && b & 0x80 == 0) by (bit_vector)
            requires
                b < 0x80u8,
        ;
        // were the shift in range, the total would fit after all
        assert(!shl64_in_range((w as u64), shift as nat)) by {
            if shl64_in_range((w as u64), shift as nat) {
                let q = pow2((64 - shift) as nat);
                vstd::arithmetic::power2::lemma2_to64_rest();
                assert((u64::MAX as nat) + 1 == pow2(64));
                assert(pow2(64) == p * q);
                assert(w < q) by (nonlinear_arith)
                    requires
                        w * p <= u64::MAX as nat,
                        (u64::MAX as nat) + 1 == p * q,
                        p > 0,
                ;
                assert(value + w * p < p * q) by (nonlinear_arith)
                    requires
                        (value as nat) < p,
                        w < q,
                        w >= 0,
                        p > 0,
                        q > 0,
                ;
            }
        }
        lemma_feed_one(step, st, b);
        assert(leb128_encoding(w) =~= seq![b]);
    } else {
        let b: u8 = (0x80 + r) as u8;
        assert(b & 0x7f == (r64 as u8) && b & 0x80 != 0) by (bit_vector)
            requires
                r64 < 0x80u64,
                b as u64 == 128u64 + r64,
        ;
        assert((b & 0x7f) as u64 == r64);
        assert(leb128_encoding(w) == seq![b] + leb128_encoding(w / 0x80));
        lemma_split(step, st, seq![b], leb128_encoding(w / 0x80));
        lemma_feed_one(step, st, b);
        if !shl64_in_range(r64, shift as nat) {
            // the continuation byte itself overflows the accumulator
        } else {
            let rs: u64 = ((r * p) as u64);
            assert(shl64(r64, shift as nat) == rs);
            assert(rs == (r64 << (shift as u64)) && p == (1u64 << (shift as u64))) by {
                lemma_u64_shl_is_mul(r64, shift as u64);
                lemma_u64_shl_is_mul(1u64, shift as u64);
            }
            assert(value | (r64 << (shift as u64)) == value + (r64 << (shift as u64))) by (bit_vector)
                requires
                    (shift as u64) < 64u64,
                    value < (1u64 << (shift as u64)),
            ;
            assert(value | rs == value + rs);
            let value2: u64 = (value + rs) as u64;
            let st2 = Leb128 { shift: (shift + 7) as u8, value: value2 };
            assert(Leb128::step(st, b) == Step::<Leb128, u64, Overflow>::More(st2));
            let w2 = w / 0x80;
            let p7 = pow2((shift + 7) as nat);
            lemma_pow2_adds(shift as nat, 7);
            assert(p7 == p * 0x80);
            assert(w == 0x80 * w2 + r);
            assert(w * p == w2 * p7 + r * p) by (nonlinear_arith)
                requires
                    w == 0x80 * w2 + r,
                    p7 == p * 0x80,
            ;
            assert((value2 as nat) < p7) by (nonlinear_arith)
                requires
                    value2 == value + rs,
                    rs == r * p,
                    (value as nat) < p,
                    r < 0x80,
                    p7 == p * 0x80,
                    p > 0,
            ;
            if shift + 7 >= 64 {
                assert(leb128_encoding(w2).len() > 0);
                lemma_leb128_high_shift_fails(st2, leb128_encoding(w2));
            } else {
                lemma_leb128_encoding_overflows(st2, w2);
            }
        }
    }
}

} // verus!
