//! Rolling checksums: the `RollingChecksum` interface and its Adler-32
//! implementation, where both sums wrap at 65536 instead of 65521.
use vstd::prelude::*;

verus! {

/// The modulus at which both Adler sums wrap.
pub open spec fn wrap16(x: int) -> u16 {
    (x % 0x1_0000) as u16
}

/// The pair of sums `(a, b)` after feeding `data` into a state `(a, b)`,
/// one byte at a time: `a += byte; b += a`, both modulo 65536.
pub open spec fn adler_feed(a: u16, b: u16, data: Seq<u8>) -> (u16, u16)
    decreases data.len(),
{
    if data.len() == 0 {
        (a, b)
    } else {
        let (a0, b0) = adler_feed(a, b, data.drop_last());
        let a1 = wrap16(a0 + data.last());
        (a1, wrap16(b0 + a1))
    }
}

/// The 32-bit value of a pair of sums: `b` in the high half, `a` in the low.
pub open spec fn adler_value(a: u16, b: u16) -> u32 {
    (b as int * 0x1_0000 + a as int) as u32
}

/// The checksum of a whole byte sequence, from the initial state `(1, 0)`.
pub open spec fn adler32_of(data: Seq<u8>) -> u32 {
    let (a, b) = adler_feed(1, 0, data);
    adler_value(a, b)
}

/// Sum of all bytes of a sequence.
pub open spec fn byte_sum(data: Seq<u8>) -> int
    decreases data.len(),
{
    if data.len() == 0 {
        0
    } else {
        byte_sum(data.drop_last()) + data.last()
    }
}

/// A checksum that is fed bytes incrementally and reports a `u32` value.
pub trait RollingChecksum: Sized {
    /// The state reached from `self` by feeding `data`.
    spec fn fed(self, data: Seq<u8>) -> Self;

    /// The value reported in a given state.
    spec fn reported(self) -> u32;

    /// The initial state, to which `reset` returns.
    spec fn initial() -> Self;

    /// Feed a slice of bytes into the checksum.
    fn update(&mut self, data: &[u8])
        ensures
            *final(self) == old(self).fed(data@),
    ;

    /// The current 32-bit checksum value.
    fn value(&self) -> (v: u32)
        ensures
            v == self.reported(),
    ;

    /// Return to the initial state (at a segment boundary).
    fn reset(&mut self)
        ensures
            *final(self) == Self::initial(),
    ;
}

/// Rolling Adler-32 accumulator (RFC 1950 with both sums wrapping at 65536).
pub struct Adler32 {
    pub a: u16,
    pub b: u16,
}

impl Adler32 {
    /// A fresh accumulator: `a == 1`, `b == 0`.
    pub fn new() -> (c: Self)
        ensures
            c.a == 1,
            c.b == 0,
    {
        Adler32 { a: 1, b: 0 }
    }
}

impl RollingChecksum for Adler32 {
    open spec fn fed(self, data: Seq<u8>) -> Self {
        let (a, b) = adler_feed(self.a, self.b, data);
        Adler32 { a, b }
    }

    open spec fn reported(self) -> u32 {
        adler_value(self.a, self.b)
    }

    open spec fn initial() -> Self {
        Adler32 { a: 1, b: 0 }
    }

    fn update(&mut self, data: &[u8])
        ensures
            final(self).a == wrap16(old(self).a + byte_sum(data@)),
            final(self).b == wrap16(old(self).b + data@.len() * old(self).a + weighted_sum(data@)),
    {
        let n = data.len();
        let mut i: usize = 0;
        while i < n
            invariant
                n == data@.len(),
                i <= n,
                (self.a, self.b) == adler_feed(old(self).a, old(self).b, data@.take(i as int)),
            decreases n - i,
        {
            let byte = data[i];
            proof {
                assert(data@.take(i + 1).drop_last() =~= data@.take(i as int));
            }
            self.a = self.a.wrapping_add(byte as u16);
            self.b = self.b.wrapping_add(self.a);
            i = i + 1;
        }
        proof {
            assert(data@.take(n as int) =~= data@);
            lemma_feed_low_sum(old(self).a, old(self).b, data@);
            lemma_feed_high_sum(old(self).a, old(self).b, data@);
        }
    }

    fn value(&self) -> (v: u32) {
        ((self.b as u32) * 0x1_0000) + (self.a as u32)
    }

    fn reset(&mut self) {
        *self = Adler32::new();
    }
}

/// Feeding two pieces one after the other is the same as feeding their
/// concatenation: the checksum rolls over any split of the input.
pub proof fn lemma_feed_concat(a: u16, b: u16, x: Seq<u8>, y: Seq<u8>)
    ensures
        ({
            let (a1, b1) = adler_feed(a, b, x);
            adler_feed(a1, b1, y)
        }) == adler_feed(a, b, x + y),
    decreases y.len(),
{
    if y.len() == 0 {
        assert(x + y =~= x);
    } else {
        lemma_feed_concat(a, b, x, y.drop_last());
        assert((x + y).drop_last() =~= x + y.drop_last());
    }
}

/// The low sum is the start value plus the sum of all bytes fed, modulo 65536.
pub proof fn lemma_feed_low_sum(a: u16, b: u16, data: Seq<u8>)
    ensures
        adler_feed(a, b, data).0 == wrap16(a + byte_sum(data)),
    decreases data.len(),
{
    if data.len() > 0 {
        lemma_feed_low_sum(a, b, data.drop_last());
        let s = a + byte_sum(data.drop_last());
        assert(((s % 0x1_0000) + data.last()) % 0x1_0000 == (s + data.last()) % 0x1_0000) by {
            vstd::arithmetic::div_mod::lemma_add_mod_noop(s, data.last() as int, 0x1_0000);
            vstd::arithmetic::div_mod::lemma_mod_twice(data.last() as int, 0x1_0000);
        }
    }
}

/// Sum of the bytes of a sequence, each weighted by how many bytes, itself
/// included, remain from it to the end: `sum of (len - i) * data[i]`.
pub open spec fn weighted_sum(data: Seq<u8>) -> int
    decreases data.len(),
{
    if data.len() == 0 {
        0
    } else {
        data.len() * data[0] + weighted_sum(data.drop_first())
    }
}

/// The byte sum splits off the first byte.
pub proof fn lemma_byte_sum_first(d: Seq<u8>)
    requires
        d.len() > 0,
    ensures
        byte_sum(d) == d[0] + byte_sum(d.drop_first()),
    decreases d.len(),
{
    if d.len() > 1 {
        lemma_byte_sum_first(d.drop_last());
        assert(d.drop_last().drop_first() =~= d.drop_first().drop_last());
        assert(d.drop_first().last() == d.last());
        assert(byte_sum(d.drop_first()) == byte_sum(d.drop_first().drop_last()) + d.drop_first().last());
    } else {
        assert(d.drop_first().len() == 0);
        assert(d.drop_last().len() == 0);
        assert(d.last() == d[0]);
        assert(byte_sum(d.drop_first()) == 0);
        assert(byte_sum(d.drop_last()) == 0);
    }
}

/// Appending a byte raises every weight by one: the weighted sum of a
/// sequence is that without its last byte plus its plain byte sum.
pub proof fn lemma_weighted_split(d: Seq<u8>)
    requires
        d.len() > 0,
    ensures
        weighted_sum(d) == weighted_sum(d.drop_last()) + byte_sum(d),
    decreases d.len(),
{
    lemma_byte_sum_first(d);
    if d.len() == 1 {
        assert(d.drop_first().len() == 0);
        assert(d.drop_last().len() == 0);
        assert(weighted_sum(d.drop_first()) == 0);
        assert(weighted_sum(d.drop_last()) == 0);
        assert(byte_sum(d.drop_first()) == 0);
    } else {
        let t = d.drop_first();
        lemma_weighted_split(t);
        assert(t.drop_last() =~= d.drop_last().drop_first());
        assert(d.drop_last()[0] == d[0]);
        let l = d.len() as int;
        assert(weighted_sum(d.drop_last()) == (l - 1) * d[0] + weighted_sum(d.drop_last().drop_first()));
        assert(l * d[0] == (l - 1) * d[0] + d[0]) by (nonlinear_arith);
    }
}

/// The high sum in closed form (RFC 1950 with sums modulo 65536): feeding
/// `data` into `(a, b)` adds `len * a` and the weighted byte sum to `b`.
pub proof fn lemma_feed_high_sum(a: u16, b: u16, data: Seq<u8>)
    ensures
        adler_feed(a, b, data).1 == wrap16(b + data.len() * a + weighted_sum(data)),
    decreases data.len(),
{
    if data.len() > 0 {
        let d = data.drop_last();
        lemma_feed_high_sum(a, b, d);
        lemma_feed_low_sum(a, b, data);
        lemma_weighted_split(data);
        let (a0, b0) = adler_feed(a, b, d);
        let a1 = adler_feed(a, b, data).0;
        let x = b + d.len() * a + weighted_sum(d);
        let y = a + byte_sum(data);
        assert(b0 == x % 0x1_0000);
        assert(a1 == y % 0x1_0000);
        vstd::arithmetic::div_mod::lemma_add_mod_noop(x, y, 0x1_0000);
        assert(x + y == b + data.len() * a + weighted_sum(data)) by (nonlinear_arith)
            requires
                x == b + d.len() * a + weighted_sum(d),
                y == a + byte_sum(data),
                d.len() + 1 == data.len(),
                weighted_sum(data) == weighted_sum(d) + byte_sum(data),
        ;
    }
}

/// A fresh or reset accumulator reports 1, the checksum of no data.
pub proof fn lemma_initial_value()
    ensures
        Adler32::initial().reported() == 1,
        adler32_of(Seq::empty()) == 1,
{
}

/// Feeding the bytes of a whole sequence in any two pieces into a fresh
/// accumulator reports the checksum of the whole sequence.
pub proof fn lemma_split_feed_reports_checksum(x: Seq<u8>, y: Seq<u8>)
    ensures
        Adler32::initial().fed(x).fed(y).reported() == adler32_of(x + y),
{
    lemma_feed_concat(1, 0, x, y);
}

} // verus!
