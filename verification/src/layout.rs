//! Stride classification and the segment layout of a traversed location.
use vstd::prelude::*;
use crate::checksum::RollingChecksum;

verus! {

/// The essence recorded for a stride that could not be read (a sentinel).
pub const BAD_ESSENCE: u32 = 0xDEADCEEB;

/// The word repeated in the destination in place of a stride that could not
/// be read.
pub const FILL_PATTERN: u32 = 0xDEAFBEEB;

/// Condition of a stretch of bytes:
/// `Good` (general readable data), `Bad` (broken read, from an I/O error),
/// `Ugly` (uniform: one 4-byte word repeated, such as 0x00000000).
#[derive(Clone, Copy, Debug, PartialEq, Eq, Structural)]
pub enum Status {
    Good,
    Bad,
    Ugly,
}

/// A buffer is uniform when it holds at least one whole 4-byte word and every
/// whole word equals the first one (bytes past the last whole word are ignored).
pub open spec fn is_uniform(buf: Seq<u8>) -> bool {
    &&& buf.len() >= 4
    &&& forall|i: int| 0 <= i < 4 * (buf.len() / 4) ==> #[trigger] buf[i] == buf[i % 4]
}

/// The status that the content of a buffer alone gives it (never `Bad`).
pub open spec fn classify(buf: Seq<u8>) -> Status {
    if is_uniform(buf) {
        Status::Ugly
    } else {
        Status::Good
    }
}

/// The little-endian 32-bit word formed by the first four bytes of `b`.
pub open spec fn le_word(b: Seq<u8>) -> u32 {
    (b[0] as int + b[1] as int * 0x100 + b[2] as int * 0x1_0000 + b[3] as int * 0x100_0000) as u32
}

/// Byte `k` (0 to 3) of the little-endian encoding of `w`.
pub open spec fn le_byte(w: u32, k: int) -> u8 {
    if k == 0 {
        (w % 0x100) as u8
    } else if k == 1 {
        ((w / 0x100) % 0x100) as u8
    } else if k == 2 {
        ((w / 0x1_0000) % 0x100) as u8
    } else {
        (w / 0x100_0000) as u8
    }
}

/// The essence of a stride of the given status whose bytes are `buf`, when
/// the segment checksum reports `sum`.
pub open spec fn essence_of(status: Status, buf: Seq<u8>, sum: u32) -> u32 {
    match status {
        Status::Good => sum,
        Status::Bad => BAD_ESSENCE,
        Status::Ugly => le_word(buf),
    }
}

/// The little-endian word of the first four bytes of a buffer.
pub fn first_word(buf: &[u8]) -> (w: u32)
    requires
        buf@.len() >= 4,
    ensures
        w == le_word(buf@),
{
    (buf[0] as u32) + (buf[1] as u32) * 0x100 + (buf[2] as u32) * 0x1_0000 + (buf[3] as u32)
        * 0x100_0000
}

impl Status {
    /// Classify a buffer: `Ugly` when all its whole 4-byte words are equal
    /// (and there is at least one), `Good` otherwise. Never `Bad`, which
    /// comes from an I/O error and not from content.
    pub fn classify(buf: &[u8]) -> (s: Status)
        ensures
            s == classify(buf@),
            s != Status::Bad,
    {
        let n = buf.len();
        if n < 4 {
            return Status::Good;
        }
        let end = 4 * (n / 4);
        let mut i: usize = 4;
        while i < end
            invariant
                n == buf@.len(),
                end == 4 * (n / 4),
                4 <= i <= end,
                forall|j: int| 0 <= j < i ==> #[trigger] buf@[j] == buf@[j % 4],
            decreases end - i,
        {
            if buf[i] != buf[i % 4] {
                return Status::Good;
            }
            i = i + 1;
        }
        Status::Ugly
    }

    /// The `u32` essence of a stride of this status: the segment checksum
    /// for `Good`, the sentinel 0xDEADCEEB for `Bad`, and the repeated
    /// word (the first four bytes of `buf`) for `Ugly`.
    pub fn hash<C: RollingChecksum>(&self, buf: &[u8], sum: &C) -> (h: u32)
        requires
            *self == Status::Ugly ==> buf@.len() >= 4,
        ensures
            h == essence_of(*self, buf@, sum.reported()),
    {
        match self {
            Status::Good => sum.value(),
            Status::Bad => BAD_ESSENCE,
            Status::Ugly => first_word(buf),
        }
    }
}

impl<'a> From<&'a [u8]> for Status {
    /// Classifies a buffer by its content (see `Status::classify`).
    fn from(buf: &'a [u8]) -> (s: Status)
        ensures
            s == classify(buf@),
    {
        Status::classify(buf)
    }
}

impl<'a> vstd::std_specs::convert::FromSpecImpl<&'a [u8]> for Status {
    open spec fn obeys_from_spec() -> bool {
        true
    }

    open spec fn from_spec(v: &'a [u8]) -> Status {
        classify(v@)
    }
}

/// Continuous stretch of a location tagged with one status.
#[derive(Clone, Copy, Debug)]
pub struct Segment {
    /// Byte offset in the source.
    pub offset: u64,
    /// Length in bytes.
    pub length: u64,
    /// Checksum (Good), placeholder (Bad) or repeated word (Ugly).
    pub essence: u32,
    pub status: Status,
}

/// Whether a stride of status `status` and essence `essence` extends the
/// segment `last` instead of starting a new one: Good joins Good, Bad joins
/// Bad, and Ugly joins Ugly with the same repeated word.
pub open spec fn mergeable(last: Segment, status: Status, essence: u32) -> bool {
    match (last.status, status) {
        (Status::Good, Status::Good) => true,
        (Status::Bad, Status::Bad) => true,
        (Status::Ugly, Status::Ugly) => last.essence == essence,
        _ => false,
    }
}

/// The end offset of a segment.
pub open spec fn seg_end(s: Segment) -> int {
    s.offset + s.length
}

/// Where a layout's segments end: the end of the last one, or 0.
pub open spec fn layout_end(segs: Seq<Segment>) -> int {
    if segs.len() == 0 {
        0
    } else {
        seg_end(segs.last())
    }
}

/// Segments follow each other without gap or overlap, starting at offset 0.
#[verifier::opaque]
pub open spec fn contiguous(segs: Seq<Segment>) -> bool {
    &&& segs.len() > 0 ==> segs[0].offset == 0
    &&& forall|k: int| 0 <= k < segs.len() - 1 ==> #[trigger] segs[k + 1].offset == seg_end(segs[k])
}

/// No two neighbouring segments could have been merged into one.
#[verifier::opaque]
pub open spec fn compact(segs: Seq<Segment>) -> bool {
    forall|k: int|
        0 <= k < segs.len() - 1 ==> !mergeable(#[trigger] segs[k], segs[k + 1].status, segs[k + 1].essence)
}

/// The segments that `Layout::push` leaves after pushing a stride.
pub open spec fn pushed(segs: Seq<Segment>, offset: u64, length: u64, status: Status, essence: u32) -> Seq<Segment> {
    if segs.len() > 0 && mergeable(segs.last(), status, essence) {
        let last = segs.last();
        segs.update(
            segs.len() - 1,
            Segment { length: (last.length + length) as u64, essence, ..last },
        )
    } else {
        segs.push(Segment { offset, length, essence, status })
    }
}

/// Index of the last segment that is not Ugly, or -1 when there is none.
pub open spec fn last_kept(segs: Seq<Segment>) -> int
    decreases segs.len(),
{
    if segs.len() == 0 {
        -1
    } else if segs.last().status != Status::Ugly {
        segs.len() - 1
    } else {
        last_kept(segs.drop_last())
    }
}

/// The part of a segment kept as the hint chunk: one stride of it, or all of
/// it when it is shorter.
pub open spec fn hint_length(s: Segment, stride: u64) -> int {
    if stride < s.length {
        stride as int
    } else {
        s.length as int
    }
}

/// Where an image truncated of its trailing Ugly segments stops: the end of
/// the last non-Ugly segment, plus the hint chunk (the first Ugly segment
/// after it, reduced to at most one stride) when Ugly segments follow it; 0
/// when every segment is Ugly or there is none.
pub open spec fn truncation_spec(segs: Seq<Segment>, stride: u64) -> int {
    let i = last_kept(segs);
    if i < 0 {
        0
    } else if i + 1 < segs.len() {
        seg_end(segs[i]) + hint_length(segs[i + 1], stride)
    } else {
        seg_end(segs[i])
    }
}

/// Everything after the last kept segment is Ugly, and the kept one is not.
pub proof fn lemma_last_kept(segs: Seq<Segment>)
    ensures
        -1 <= last_kept(segs) < segs.len(),
        last_kept(segs) >= 0 ==> segs[last_kept(segs)].status != Status::Ugly,
        forall|j: int| last_kept(segs) < j < segs.len() ==> #[trigger] segs[j].status == Status::Ugly,
    decreases segs.len(),
{
    if segs.len() > 0 && segs.last().status == Status::Ugly {
        lemma_last_kept(segs.drop_last());
        assert forall|j: int| last_kept(segs) < j < segs.len() implies #[trigger] segs[j].status
            == Status::Ugly by {
            if j < segs.len() - 1 {
                assert(segs[j] == segs.drop_last()[j]);
            }
        }
    }
}

/// Pushing a stride never leaves two neighbouring segments that could have
/// been merged: a compact layout stays compact.
pub proof fn lemma_push_keeps_compact(segs: Seq<Segment>, offset: u64, length: u64, status: Status, essence: u32)
    requires
        compact(segs),
    ensures
        compact(pushed(segs, offset, length, status, essence)),
{
    reveal(compact);
    let r = pushed(segs, offset, length, status, essence);
    assert forall|k: int| 0 <= k < r.len() - 1 implies !mergeable(#[trigger] r[k], r[k + 1].status, r[k + 1].essence) by {
        if k < segs.len() - 1 {
            assert(r[k] == segs[k]);
            if k + 1 < segs.len() - 1 || !(segs.len() > 0 && mergeable(segs.last(), status, essence)) {
                assert(r[k + 1] == segs[k + 1]);
            } else {
                assert(r[k + 1].status == segs[k + 1].status);
                assert(r[k + 1].essence == essence);
                assert(mergeable(segs.last(), status, essence));
            }
        }
    }
}

/// Pushing the stride that starts where a contiguous layout ends keeps it
/// contiguous, and the layout then ends `length` bytes further.
pub proof fn lemma_push_keeps_contiguous(segs: Seq<Segment>, offset: u64, length: u64, status: Status, essence: u32)
    requires
        contiguous(segs),
        offset == layout_end(segs),
        segs.len() > 0 && mergeable(segs.last(), status, essence) ==> segs.last().length + length <= u64::MAX,
    ensures
        contiguous(pushed(segs, offset, length, status, essence)),
        layout_end(pushed(segs, offset, length, status, essence)) == layout_end(segs) + length,
{
    reveal(contiguous);
    let r = pushed(segs, offset, length, status, essence);
    assert forall|k: int| 0 <= k < r.len() - 1 implies #[trigger] r[k + 1].offset == seg_end(r[k]) by {
        if k < segs.len() - 1 {
            assert(r[k] == segs[k]);
            assert(r[k + 1].offset == segs[k + 1].offset);
        }
    }
}

/// Dropping the last segment keeps a layout contiguous and compact; the
/// layout then ends where that segment started.
pub proof fn lemma_drop_last_keeps(segs: Seq<Segment>)
    requires
        segs.len() > 0,
        contiguous(segs),
        compact(segs),
    ensures
        contiguous(segs.drop_last()),
        compact(segs.drop_last()),
        layout_end(segs.drop_last()) == segs.last().offset,
        layout_end(segs.drop_last()) <= layout_end(segs),
{
    let d = segs.drop_last();
    assert(contiguous(d)) by {
        reveal(contiguous);
        assert forall|k: int| 0 <= k < d.len() - 1 implies #[trigger] d[k + 1].offset == seg_end(d[k]) by {
            assert(d[k] == segs[k]);
            assert(d[k + 1] == segs[k + 1]);
            assert(segs[k + 1].offset == seg_end(segs[k]));
        }
    }
    assert(compact(d)) by {
        reveal(compact);
        assert forall|k: int| 0 <= k < d.len() - 1 implies !mergeable(#[trigger] d[k], d[k + 1].status, d[k + 1].essence) by {
            assert(d[k] == segs[k]);
            assert(d[k + 1] == segs[k + 1]);
            assert(!mergeable(segs[k], segs[k + 1].status, segs[k + 1].essence));
        }
    }
    assert(layout_end(d) == segs.last().offset) by {
        reveal(contiguous);
        if segs.len() > 1 {
            let m = segs.len() - 2;
            assert(segs[m + 1].offset == seg_end(segs[m]));
        }
    }
}

/// Each segment starts where the previous one ends (wherever the first starts).
pub open spec fn seamless(segs: Seq<Segment>) -> bool {
    forall|k: int| 0 <= k < segs.len() - 1 ==> #[trigger] segs[k + 1].offset == seg_end(segs[k])
}

/// The sum of the segments' lengths.
pub open spec fn total_length(segs: Seq<Segment>) -> int
    decreases segs.len(),
{
    if segs.len() == 0 {
        0
    } else {
        total_length(segs.drop_last()) + segs.last().length
    }
}

/// The merge law of `Layout::push`, for any layout: pushing the stride that
/// starts where the last segment ends keeps neighbouring segments touching
/// and never mergeable, and the lengths then add up to `length` more.
pub proof fn lemma_push_law(segs: Seq<Segment>, offset: u64, length: u64, status: Status, essence: u32)
    requires
        seamless(segs),
        compact(segs),
        segs.len() > 0 ==> offset == layout_end(segs),
        segs.len() > 0 && mergeable(segs.last(), status, essence) ==> segs.last().length + length <= u64::MAX,
    ensures
        seamless(pushed(segs, offset, length, status, essence)),
        compact(pushed(segs, offset, length, status, essence)),
        total_length(pushed(segs, offset, length, status, essence)) == total_length(segs) + length,
{
    lemma_push_keeps_compact(segs, offset, length, status, essence);
    let r = pushed(segs, offset, length, status, essence);
    assert forall|k: int| 0 <= k < r.len() - 1 implies #[trigger] r[k + 1].offset == seg_end(r[k]) by {
        if k < segs.len() - 1 {
            assert(r[k] == segs[k]);
            assert(r[k + 1].offset == segs[k + 1].offset);
        }
    }
    if segs.len() > 0 && mergeable(segs.last(), status, essence) {
        assert(r.drop_last() =~= segs.drop_last());
    } else {
        assert(r.drop_last() =~= segs);
    }
}

/// In a contiguous layout a segment never ends after a later one.
pub proof fn lemma_ends_monotonic(segs: Seq<Segment>, k: int, j: int)
    requires
        contiguous(segs),
        0 <= k <= j < segs.len(),
    ensures
        seg_end(segs[k]) <= seg_end(segs[j]),
    decreases j - k,
{
    reveal(contiguous);
    if k < j {
        lemma_ends_monotonic(segs, k, j - 1);
        let m = j - 1;
        assert(segs[m + 1].offset == seg_end(segs[m]));
    }
}

/// Truncation never cuts readable or broken data: in a contiguous layout
/// every segment that is not Ugly ends at or before the truncation point.
pub proof fn lemma_truncation_keeps_data(segs: Seq<Segment>, stride: u64, k: int)
    requires
        contiguous(segs),
        0 <= k < segs.len(),
        segs[k].status != Status::Ugly,
    ensures
        seg_end(segs[k]) <= truncation_spec(segs, stride),
{
    lemma_last_kept(segs);
    let i = last_kept(segs);
    if i < k {
        assert(segs[k].status == Status::Ugly);
    }
    lemma_ends_monotonic(segs, k, i);
}

/// The truncation point of a contiguous layout never passes its end. Without
/// trailing Ugly segments it is where the layout ends; with them, it keeps at
/// most one stride past the last non-Ugly segment, and exactly one stride
/// when the first trailing Ugly segment is at least that long.
pub proof fn lemma_truncation_bounds(segs: Seq<Segment>, stride: u64)
    requires
        contiguous(segs),
    ensures
        truncation_spec(segs, stride) <= layout_end(segs),
        segs.len() > 0 && segs.last().status != Status::Ugly ==> truncation_spec(segs, stride)
            == layout_end(segs),
        last_kept(segs) >= 0 ==> truncation_spec(segs, stride) <= seg_end(segs[last_kept(segs)]) + stride,
        last_kept(segs) >= 0 && last_kept(segs) + 1 < segs.len() && segs[last_kept(segs) + 1].length
            >= stride ==> truncation_spec(segs, stride) == seg_end(segs[last_kept(segs)]) + stride,
        last_kept(segs) < 0 ==> truncation_spec(segs, stride) == 0,
{
    lemma_last_kept(segs);
    let i = last_kept(segs);
    if i >= 0 && i + 1 < segs.len() {
        reveal(contiguous);
        assert(segs[i + 1].offset == seg_end(segs[i]));
        lemma_ends_monotonic(segs, i + 1, segs.len() - 1);
    }
}

/// The four little-endian bytes of a word read back as a word give the word.
pub proof fn lemma_le_bytes_roundtrip(w: u32)
    ensures
        le_word(seq![le_byte(w, 0), le_byte(w, 1), le_byte(w, 2), le_byte(w, 3)]) == w,
{
    let b0 = w % 0x100;
    let b1 = (w / 0x100) % 0x100;
    let b2 = (w / 0x1_0000) % 0x100;
    let b3 = w / 0x100_0000;
    assert(b0 + b1 * 0x100 + b2 * 0x1_0000 + b3 * 0x100_0000 == w) by (nonlinear_arith)
        requires
            b0 == w % 0x100,
            b1 == (w / 0x100) % 0x100,
            b2 == (w / 0x1_0000) % 0x100,
            b3 == w / 0x100_0000,
            w < 0x1_0000_0000,
    ;
}

/// A buffer that repeats the little-endian bytes of a word is uniform, and
/// its essence as an Ugly stride is that word: what a pattern run writes is
/// read back as the same pattern.
pub proof fn lemma_repeated_word_is_uniform(w: u32, b: Seq<u8>)
    requires
        b.len() >= 4,
        forall|i: int| 0 <= i < b.len() ==> #[trigger] b[i] == le_byte(w, i % 4),
    ensures
        classify(b) == Status::Ugly,
        le_word(b) == w,
{
    lemma_le_bytes_roundtrip(w);
    assert(b[0] == le_byte(w, 0));
    assert(b[1] == le_byte(w, 1));
    assert(b[2] == le_byte(w, 2));
    assert(b[3] == le_byte(w, 3));
    assert forall|i: int| 0 <= i < 4 * (b.len() / 4) implies #[trigger] b[i] == b[i % 4] by {
        assert(b[i % 4] == le_byte(w, (i % 4) % 4));
    }
}

/// `n` bytes repeating the little-endian bytes of `w`.
pub open spec fn repeated(w: u32, n: int) -> Seq<u8> {
    Seq::new(n as nat, |i: int| le_byte(w, i % 4))
}

/// The first four bytes of a buffer are the little-endian bytes of the word
/// they form.
pub proof fn lemma_le_word_bytes(b: Seq<u8>)
    requires
        b.len() >= 4,
    ensures
        forall|k: int| 0 <= k < 4 ==> #[trigger] le_byte(le_word(b), k) == b[k],
{
    let b0 = b[0] as int;
    let b1 = b[1] as int;
    let b2 = b[2] as int;
    let b3 = b[3] as int;
    let w = b0 + b1 * 0x100 + b2 * 0x1_0000 + b3 * 0x100_0000;
    assert(0 <= w < 0x1_0000_0000);
    assert(le_word(b) == w);
    vstd::arithmetic::div_mod::lemma_fundamental_div_mod_converse(w, 0x100, b1 + b2 * 0x100 + b3 * 0x1_0000, b0);
    vstd::arithmetic::div_mod::lemma_fundamental_div_mod_converse(
        b1 + b2 * 0x100 + b3 * 0x1_0000,
        0x100,
        b2 + b3 * 0x100,
        b1,
    );
    vstd::arithmetic::div_mod::lemma_fundamental_div_mod_converse(w, 0x1_0000, b2 + b3 * 0x100, b0 + b1 * 0x100);
    vstd::arithmetic::div_mod::lemma_fundamental_div_mod_converse(b2 + b3 * 0x100, 0x100, b3, b2);
    vstd::arithmetic::div_mod::lemma_fundamental_div_mod_converse(
        w,
        0x100_0000,
        b3,
        b0 + b1 * 0x100 + b2 * 0x1_0000,
    );
}

/// A uniform buffer made of whole 4-byte words is the word it starts with,
/// repeated over its whole length.
pub proof fn lemma_uniform_is_repeated(b: Seq<u8>)
    requires
        is_uniform(b),
        b.len() % 4 == 0,
    ensures
        b == repeated(le_word(b), b.len() as int),
{
    lemma_le_word_bytes(b);
    let r = repeated(le_word(b), b.len() as int);
    assert(4 * (b.len() / 4) == b.len());
    assert forall|i: int| 0 <= i < b.len() implies b[i] == r[i] by {
        assert(b[i] == b[i % 4]);
        assert(le_byte(le_word(b), i % 4) == b[i % 4]);
    }
    assert(b =~= r);
}

/// A repetition of whole words followed by more of the same pattern is one
/// longer repetition.
pub proof fn lemma_repeated_concat(w: u32, n: int, m: int)
    requires
        n >= 0,
        m >= 0,
        n % 4 == 0,
    ensures
        repeated(w, n) + repeated(w, m) == repeated(w, n + m),
{
    let s = repeated(w, n) + repeated(w, m);
    let r = repeated(w, n + m);
    assert forall|i: int| n <= i < n + m implies s[i] == r[i] by {
        let j = i - n;
        vstd::arithmetic::div_mod::lemma_fundamental_div_mod(j, 4);
        vstd::arithmetic::div_mod::lemma_fundamental_div_mod_converse(i, 4, j / 4 + n / 4, j % 4);
    }
    assert(s =~= r);
}

/// Ordered sequence of segments mapping a location at `stride` granularity.
pub struct Layout {
    pub stride: u64,
    /// Checksum of every byte read from the whole location.
    pub essence: u32,
    pub segments: Vec<Segment>,
}

impl Layout {
    /// An empty layout at the given stride, with essence 0.
    pub fn new(stride: u64) -> (l: Self)
        ensures
            l.stride == stride,
            l.essence == 0,
            l.segments@ == Seq::<Segment>::empty(),
    {
        Layout { stride, essence: 0x00000000u32, segments: Vec::new() }
    }

    /// Append a stride as a segment, or merge it into the last segment when
    /// the statuses match (for Ugly the repeated word must match too); a
    /// merged segment grows by `length` and takes the new essence.
    pub fn push(&mut self, offset: u64, length: u64, state: Status, essence: u32)
        requires
            old(self).segments@.len() > 0 && mergeable(old(self).segments@.last(), state, essence)
                ==> old(self).segments@.last().length + length <= u64::MAX,
        ensures
            final(self).stride == old(self).stride,
            final(self).essence == old(self).essence,
            final(self).segments@ == pushed(old(self).segments@, offset, length, state, essence),
    {
        let n = self.segments.len();
        if n > 0 {
            let last = self.segments[n - 1];
            let can_merge = match (last.status, state) {
                (Status::Good, Status::Good) => true,
                (Status::Bad, Status::Bad) => true,
                (Status::Ugly, Status::Ugly) => last.essence == essence,
                _ => false,
            };
            if can_merge {
                self.segments.set(
                    n - 1,
                    Segment {
                        offset: last.offset,
                        length: last.length + length,
                        essence,
                        status: last.status,
                    },
                );
                return ;
            }
        }
        self.segments.push(Segment { offset, length, essence, status: state });
    }

    /// The segments currently marked Bad, in order (for a recovery pass).
    pub fn broken_segments(&self) -> (v: Vec<Segment>)
        ensures
            v@ == self.segments@.filter(|s: Segment| s.status == Status::Bad),
    {
        let mut v: Vec<Segment> = Vec::new();
        let n = self.segments.len();
        let ghost segs = self.segments@;
        let ghost pred = |s: Segment| s.status == Status::Bad;
        let mut i: usize = 0;
        while i < n
            invariant
                n == segs.len(),
                segs == self.segments@,
                pred == (|s: Segment| s.status == Status::Bad),
                i <= n,
                v@ == segs.take(i as int).filter(pred),
            decreases n - i,
        {
            let s = self.segments[i];
            proof {
                reveal(Seq::filter);
                let t = segs.take(i + 1);
                assert(t.drop_last() =~= segs.take(i as int));
                assert(t.last() == s);
                assert(pred(s) == (s.status == Status::Bad));
                assert(t.filter(pred) == (if pred(s) {
                    segs.take(i as int).filter(pred).push(s)
                } else {
                    segs.take(i as int).filter(pred)
                }));
            }
            if s.status == Status::Bad {
                v.push(s);
            }
            i = i + 1;
        }
        proof {
            assert(segs.take(n as int) =~= segs);
        }
        v
    }

    /// The offset at which a truncated image stops: the end of the last
    /// non-Ugly segment, plus the first Ugly segment after it, reduced to at
    /// most one stride, kept as a hint of intentional truncation; 0 if all
    /// segments are Ugly.
    pub fn truncation_point(&self) -> (p: u64)
        requires
            truncation_spec(self.segments@, self.stride) <= u64::MAX,
        ensures
            p == truncation_spec(self.segments@, self.stride),
    {
        let n = self.segments.len();
        if n == 0 {
            return 0;
        }
        let mut k: usize = n;
        proof {
            assert(self.segments@.take(n as int) =~= self.segments@);
        }
        while k > 0
            invariant
                n == self.segments@.len(),
                k <= n,
                truncation_spec(self.segments@, self.stride) <= u64::MAX,
                last_kept(self.segments@) == last_kept(self.segments@.take(k as int)),
            decreases k,
        {
            let seg = self.segments[k - 1];
            proof {
                assert(self.segments@.take(k as int).last() == seg);
                assert(self.segments@.take(k as int).drop_last() =~= self.segments@.take(k - 1));
            }
            if seg.status != Status::Ugly {
                let i = k - 1;
                assert(last_kept(self.segments@) == i);
                let stop = seg.offset + seg.length;
                if i + 1 < n {
                    let next = self.segments[i + 1];
                    let hint = if self.stride < next.length {
                        self.stride
                    } else {
                        next.length
                    };
                    return stop + hint;
                } else {
                    return stop;
                }
            }
            k = k - 1;
        }
        proof {
            assert(self.segments@.take(0) =~= Seq::<Segment>::empty());
        }
        0
    }

    /// The end offset of the last segment (0 for an empty layout).
    pub fn total(&self) -> (t: u64)
        requires
            layout_end(self.segments@) <= u64::MAX,
        ensures
            t == layout_end(self.segments@),
    {
        let n = self.segments.len();
        if n == 0 {
            0
        } else {
            self.segments[n - 1].offset + self.segments[n - 1].length
        }
    }
}

/// Accumulator of consecutive Ugly strides with one repeated word, whose
/// writing is deferred until the run ends.
#[derive(Clone, Copy, Debug)]
pub struct PatternRun {
    pub pattern: u32,
    pub start: u64,
    pub length: u64,
}

/// How many bytes of a run are written when it is flushed: one stride at most
/// (the hint chunk) for the final run of a truncated image, all of it otherwise.
pub open spec fn flush_length(run: PatternRun, stride: u64, truncate: bool, finalize: bool) -> u64 {
    if finalize && truncate {
        if stride < run.length {
            stride
        } else {
            run.length
        }
    } else {
        run.length
    }
}

/// The final run of a truncated image is cut to the hint chunk: at most one
/// stride and at most the run, and one of the two, for every run length and
/// stride. Any other flush keeps the whole run.
pub proof fn lemma_flush_length(run: PatternRun, stride: u64, truncate: bool, finalize: bool)
    ensures
        truncate && finalize ==> {
            &&& flush_length(run, stride, truncate, finalize) <= stride
            &&& flush_length(run, stride, truncate, finalize) <= run.length
            &&& flush_length(run, stride, truncate, finalize) == stride || flush_length(run, stride, truncate, finalize) == run.length
        },
        !(truncate && finalize) ==> flush_length(run, stride, truncate, finalize) == run.length,
{
}

impl PatternRun {
    /// Ends the run: records it as an Ugly segment in `layout` and returns
    /// how many bytes of the pattern are to be written to the destination.
    pub fn flush(&self, layout: &mut Layout, stride: u64, truncate: bool, finalize: bool) -> (n: u64)
        requires
            old(layout).segments@.len() > 0 && mergeable(old(layout).segments@.last(), Status::Ugly, self.pattern)
                ==> old(layout).segments@.last().length + flush_length(*self, stride, truncate, finalize) <= u64::MAX,
        ensures
            n == flush_length(*self, stride, truncate, finalize),
            final(layout).stride == old(layout).stride,
            final(layout).essence == old(layout).essence,
            final(layout).segments@ == pushed(old(layout).segments@, self.start, n, Status::Ugly, self.pattern),
    {
        let length = if finalize && truncate {
            if stride < self.length {
                stride
            } else {
                self.length
            }
        } else {
            self.length
        };
        layout.push(self.start, length, Status::Ugly, self.pattern);
        length
    }
}

/// Size of the block from which repeated patterns are written.
pub const BLOCK_SIZE: usize = 4096;

/// A 4096-byte block holding the little-endian bytes of `word` over and over.
pub fn pattern_block(word: u32) -> (b: Vec<u8>)
    ensures
        b@.len() == BLOCK_SIZE,
        forall|i: int| 0 <= i < BLOCK_SIZE ==> #[trigger] b@[i] == le_byte(word, i % 4),
{
    let bytes: [u8; 4] = [
        (word % 0x100) as u8,
        ((word / 0x100) % 0x100) as u8,
        ((word / 0x1_0000) % 0x100) as u8,
        (word / 0x100_0000) as u8,
    ];
    let mut b: Vec<u8> = Vec::new();
    let mut i: usize = 0;
    while i < BLOCK_SIZE
        invariant
            i <= BLOCK_SIZE,
            b@.len() == i,
            forall|k: int| 0 <= k < 4 ==> #[trigger] bytes@[k] == le_byte(word, k),
            forall|j: int| 0 <= j < i ==> #[trigger] b@[j] == le_byte(word, j % 4),
        decreases BLOCK_SIZE - i,
    {
        b.push(bytes[i % 4]);
        i = i + 1;
    }
    b
}

} // verus!
