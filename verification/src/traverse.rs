//! The traversal engine: heuristic end-of-media detection, the decision
//! taken on each stride read, and the state machine that turns a stream of
//! strides into a layout and a list of writes for the destination.
//!
//! The caller performs the reads, seeks and writes; every decision is here.
use vstd::prelude::*;
use crate::checksum::{adler32_of, Adler32, RollingChecksum};
use crate::layout::{
    classify, compact, contiguous, essence_of, flush_length, layout_end, le_word, mergeable, pushed,
    seg_end, lemma_drop_last_keeps, lemma_push_keeps_compact, lemma_push_keeps_contiguous, Layout,
    first_word, lemma_repeated_concat, lemma_uniform_is_repeated, repeated, PatternRun, Segment,
    Status, BAD_ESSENCE, FILL_PATTERN,
};

verus! {

/// Consecutive failed reads after which the end of the media is assumed.
pub const MAX_SATURATION: u32 = 8;

/// Heuristic end-of-media detector, for media whose size cannot be queried:
/// reading errors that repeat (same error code, or same offset: the drive is
/// stuck) saturate it; eight in a row mean the end has been reached.
#[derive(Clone, Copy, Debug)]
pub struct EofDetector {
    pub saturation: u32,
    pub last_code: Option<i32>,
    pub last_offset: u64,
}

/// Whether an error with `code` at `offset` repeats the previous one.
pub open spec fn repeats(d: EofDetector, code: Option<i32>, offset: u64) -> bool {
    d.last_code == code || offset == d.last_offset
}

/// The detector after recording a read error: a repeated error raises the
/// saturation, any other error restarts it at 1 and remembers code and offset.
pub open spec fn after_error(d: EofDetector, code: Option<i32>, offset: u64) -> EofDetector {
    if repeats(d, code, offset) {
        EofDetector { saturation: (d.saturation + 1) as u32, ..d }
    } else {
        EofDetector { saturation: 1, last_code: code, last_offset: offset }
    }
}

/// The detector after a successful read: saturation and code are cleared,
/// the offset of the last error is kept.
pub open spec fn after_success(d: EofDetector) -> EofDetector {
    EofDetector { saturation: 0, last_code: None, ..d }
}

impl EofDetector {
    /// A detector that has seen no error.
    pub fn new() -> (d: Self)
        ensures
            d.saturation == 0,
            d.last_code == None::<i32>,
            d.last_offset == 0,
    {
        EofDetector { saturation: 0, last_code: None, last_offset: 0 }
    }

    /// Record a read error with OS error code `code` at `offset`; returns
    /// false when the end of the media is detected (saturation reached 8).
    pub fn reading_error(&mut self, code: Option<i32>, offset: u64) -> (not_eof: bool)
        requires
            repeats(*old(self), code, offset) ==> old(self).saturation < u32::MAX,
        ensures
            *final(self) == after_error(*old(self), code, offset),
            not_eof == (final(self).saturation < MAX_SATURATION),
    {
        let same_code = match (self.last_code, code) {
            (Some(a), Some(b)) => a == b,
            (None, None) => true,
            _ => false,
        };
        let same_offset = offset == self.last_offset;
        if same_code || same_offset {
            self.saturation = self.saturation + 1;
        } else {
            self.saturation = 1;
            self.last_code = code;
            self.last_offset = offset;
        }
        self.saturation < MAX_SATURATION
    }

    /// Clear the saturation and the last code, keeping the last offset.
    pub fn reading_success(&mut self)
        ensures
            *final(self) == after_success(*old(self)),
    {
        self.saturation = 0;
        self.last_code = None;
    }

    /// How many repeated errors have been seen in a row.
    pub fn saturation_count(&self) -> (s: u32)
        ensures
            s == self.saturation,
    {
        self.saturation
    }
}

/// The detector after a sequence of errors with one code at given offsets.
pub open spec fn after_errors(d: EofDetector, code: Option<i32>, offsets: Seq<u64>) -> EofDetector
    decreases offsets.len(),
{
    if offsets.len() == 0 {
        d
    } else {
        after_error(after_errors(d, code, offsets.drop_last()), code, offsets.last())
    }
}

/// Errors that keep reporting the code of the previous error saturate the
/// detector one step each: starting from a detector whose last code is
/// `code`, `k` more such errors raise the saturation by `k`, so that eight
/// in a row from a cleared detector are reported as the end of the media.
pub proof fn lemma_repeated_errors_saturate(d: EofDetector, code: Option<i32>, offsets: Seq<u64>)
    requires
        d.last_code == code,
        d.saturation + offsets.len() <= u32::MAX,
    ensures
        after_errors(d, code, offsets).saturation == d.saturation + offsets.len(),
        after_errors(d, code, offsets).last_code == code,
    decreases offsets.len(),
{
    if offsets.len() > 0 {
        lemma_repeated_errors_saturate(d, code, offsets.drop_last());
    }
}

/// What a read of one stride gave: the whole buffer, only its first `n`
/// bytes before the end of the source (`n == 0`: nothing was left), or an
/// I/O error with its OS error code.
#[derive(Clone, Copy, Debug)]
pub enum ReadOutcome {
    Filled,
    Tail(usize),
    Failed(Option<i32>),
}

/// The verdict on a stride: stop the traversal (`None`), or its status, the
/// number of bytes it consumed and its essence.
pub open spec fn stride_verdict(buf: Seq<u8>, sum_after: u32, status_len: int) -> Option<(Status, u64, u32)> {
    let bytes = buf.take(status_len);
    let status = classify(bytes);
    Some((status, status_len as u64, essence_of(status, bytes, sum_after)))
}

/// Classify one stride from the outcome of reading it into `buf`.
///
/// Bytes that were read feed both checksums, and the stride is classified by
/// its content (Good or Ugly). A short tail is classified as far as the
/// caller reports it with `Tail(n)`; `Tail(0)` (nothing left) ends the
/// traversal. A whole buffer also clears the end-of-media
/// detector. A read error is recorded by the detector: when it saturates,
/// the traversal stops (`None`); otherwise the whole stride is Bad, and the
/// caller is to skip it in the source before going on.
pub fn read_stride<G: RollingChecksum, L: RollingChecksum>(
    buf: &[u8],
    outcome: ReadOutcome,
    offset: u64,
    eof: &mut EofDetector,
    global: &mut G,
    local: &mut L,
) -> (r: Option<(Status, u64, u32)>)
    requires
        outcome matches ReadOutcome::Tail(n) ==> n <= buf@.len(),
        outcome matches ReadOutcome::Failed(code) ==> (repeats(*old(eof), code, offset)
            ==> old(eof).saturation < u32::MAX),
    ensures
        match outcome {
            ReadOutcome::Filled => {
                &&& *final(eof) == after_success(*old(eof))
                &&& *final(global) == old(global).fed(buf@)
                &&& *final(local) == old(local).fed(buf@)
                &&& r == stride_verdict(buf@, final(local).reported(), buf@.len() as int)
            },
            ReadOutcome::Tail(n) => {
                &&& *final(eof) == *old(eof)
                &&& n == 0 ==> {
                    &&& r == None::<(Status, u64, u32)>
                    &&& *final(global) == *old(global)
                    &&& *final(local) == *old(local)
                }
                &&& n > 0 ==> {
                    &&& *final(global) == old(global).fed(buf@.take(n as int))
                    &&& *final(local) == old(local).fed(buf@.take(n as int))
                    &&& r == stride_verdict(buf@, final(local).reported(), n as int)
                }
            },
            ReadOutcome::Failed(code) => {
                &&& *final(eof) == after_error(*old(eof), code, offset)
                &&& *final(global) == *old(global)
                &&& *final(local) == *old(local)
                &&& r == if final(eof).saturation < MAX_SATURATION {
                    Some((Status::Bad, buf@.len() as u64, BAD_ESSENCE))
                } else {
                    None
                }
            },
        },
{
    let n = buf.len();
    match outcome {
        ReadOutcome::Filled => {
            eof.reading_success();
            global.update(buf);
            local.update(buf);
            let state = Status::classify(buf);
            let essence = state.hash(buf, local);
            proof {
                assert(buf@.take(n as int) =~= buf@);
            }
            Some((state, n as u64, essence))
        },
        ReadOutcome::Tail(tail) => {
            if tail == 0 {
                return None;
            }
            let bytes = vstd::slice::slice_subrange(buf, 0, tail);
            proof {
                assert(bytes@ =~= buf@.take(tail as int));
            }
            global.update(bytes);
            local.update(bytes);
            let state = Status::classify(bytes);
            let essence = state.hash(bytes, local);
            Some((state, tail as u64, essence))
        },
        ReadOutcome::Failed(code) => {
            if !eof.reading_error(code, offset) {
                return None;
            }
            Some((Status::Bad, n as u64, BAD_ESSENCE))
        },
    }
}

/// A write that the traversal asks of the destination, in order.
#[derive(Clone, Copy, Debug)]
pub enum Action {
    /// The first `length` bytes of the stride just read.
    Data { length: u64 },
    /// `length` bytes repeating the little-endian bytes of `pattern`.
    Run { pattern: u32, length: u64 },
    /// `length` bytes repeating the little-endian bytes of `FILL_PATTERN`, in
    /// place of a stride that could not be read.
    Fill { length: u64 },
}

/// Total number of bytes that a list of writes puts in the destination.
pub open spec fn written(acts: Seq<Action>) -> int
    decreases acts.len(),
{
    if acts.len() == 0 {
        0
    } else {
        written(acts.drop_last()) + match acts.last() {
            Action::Data { length } => length as int,
            Action::Run { length, .. } => length as int,
            Action::Fill { length } => length as int,
        }
    }
}

/// The bytes that one write puts in the destination, where `data` holds the
/// bytes of the stride just read.
pub open spec fn action_bytes(a: Action, data: Seq<u8>) -> Seq<u8> {
    match a {
        Action::Data { length } => data.take(length as int),
        Action::Run { pattern, length } => repeated(pattern, length as int),
        Action::Fill { length } => repeated(FILL_PATTERN, length as int),
    }
}

/// The bytes that a list of writes puts in the destination, one write after
/// the other.
pub open spec fn rendered(acts: Seq<Action>, data: Seq<u8>) -> Seq<u8>
    decreases acts.len(),
{
    if acts.len() == 0 {
        Seq::empty()
    } else {
        rendered(acts.drop_last(), data) + action_bytes(acts.last(), data)
    }
}

/// The bytes of a list of writes followed by one more.
pub proof fn lemma_rendered_push(acts: Seq<Action>, a: Action, data: Seq<u8>)
    ensures
        rendered(acts.push(a), data) == rendered(acts, data) + action_bytes(a, data),
{
    assert(acts.push(a).drop_last() =~= acts);
}

/// Ending a pending run whose bytes are its pattern repeated writes exactly
/// those bytes.
pub proof fn lemma_rendered_flush(stretch: Option<PatternRun>, run_bytes: Seq<u8>, data: Seq<u8>)
    requires
        stretch is None ==> run_bytes.len() == 0,
        stretch matches Some(run) ==> run_bytes == repeated(run.pattern, run.length as int),
    ensures
        rendered(flush_writes(stretch), data) == run_bytes,
{
    match stretch {
        Some(run) => {
            let a = Action::Run { pattern: run.pattern, length: run.length };
            lemma_rendered_push(Seq::empty(), a, data);
            assert(flush_writes(stretch) =~= Seq::<Action>::empty().push(a));
            assert(Seq::<u8>::empty() + repeated(run.pattern, run.length as int) =~= run_bytes);
        },
        None => {
            assert(run_bytes =~= Seq::<u8>::empty());
        },
    }
}

/// A uniform stride of whole words, read into `buf`, is the word that `buf`
/// starts with, repeated over the stride: writing that pattern in its place
/// reproduces it exactly.
pub proof fn lemma_uniform_stride(buf: Seq<u8>, bytes: Seq<u8>)
    requires
        classify(bytes) == Status::Ugly,
        bytes.len() % 4 == 0,
        bytes.is_prefix_of(buf),
    ensures
        buf.len() >= 4,
        le_word(buf) == le_word(bytes),
        bytes == repeated(le_word(buf), bytes.len() as int),
{
    assert(bytes[0] == buf[0] && bytes[1] == buf[1] && bytes[2] == buf[2] && bytes[3] == buf[3]);
    lemma_uniform_is_repeated(bytes);
}

/// Length of the bad segment that heuristic end-of-media detection leaves
/// at the end: the failed strides before the one that saturated the detector.
pub open spec fn noise_length(stride: u64) -> int {
    stride * (MAX_SATURATION - 1)
}

/// The bytes of a list of pieces, one piece after the other.
pub open spec fn joined(pieces: Seq<Seq<u8>>) -> Seq<u8>
    decreases pieces.len(),
{
    if pieces.len() == 0 {
        Seq::empty()
    } else {
        joined(pieces.drop_last()) + pieces.last()
    }
}

/// The bytes read for each segment after a stride with these `bytes` is
/// pushed: added to the last segment's bytes when it merges, or as a new
/// segment's bytes (see `pushed`).
pub open spec fn recorded(
    contents: Seq<Seq<u8>>,
    segs: Seq<Segment>,
    status: Status,
    essence: u32,
    bytes: Seq<u8>,
) -> Seq<Seq<u8>> {
    if segs.len() > 0 && mergeable(segs.last(), status, essence) {
        contents.update(contents.len() - 1, contents.last() + bytes)
    } else {
        contents.push(bytes)
    }
}

/// The bytes read for the segments agree with them: one piece per segment;
/// a Good segment is as long as its bytes and its essence is their Adler-32
/// checksum; a Bad segment had no bytes read.
pub open spec fn segments_hold(segs: Seq<Segment>, contents: Seq<Seq<u8>>) -> bool {
    &&& contents.len() == segs.len()
    &&& forall|k: int|
        0 <= k < segs.len() && (#[trigger] segs[k]).status == Status::Good ==> {
            &&& segs[k].essence == adler32_of(contents[k])
            &&& contents[k].len() == segs[k].length
        }
    &&& forall|k: int| 0 <= k < segs.len() && (#[trigger] segs[k]).status == Status::Bad ==> contents[k].len() == 0
}

/// The bytes of the Good segment that a Good stride would extend, if the
/// layout ends with one.
pub open spec fn prior_good(segs: Seq<Segment>, contents: Seq<Seq<u8>>) -> Seq<u8> {
    if segs.len() > 0 && segs.last().status == Status::Good {
        contents.last()
    } else {
        Seq::empty()
    }
}

/// Recording the bytes of a pushed stride keeps the segments and their bytes
/// in agreement, when a Good stride's essence is the checksum of the bytes
/// of the segment it lands in and a Bad stride had no bytes; all bytes read
/// stay in order.
pub proof fn lemma_record(
    segs: Seq<Segment>,
    contents: Seq<Seq<u8>>,
    offset: u64,
    length: u64,
    status: Status,
    essence: u32,
    bytes: Seq<u8>,
)
    requires
        segments_hold(segs, contents),
        status == Status::Bad ==> bytes.len() == 0,
        status == Status::Good ==> {
            &&& essence == adler32_of(prior_good(segs, contents) + bytes)
            &&& length == bytes.len()
        },
        segs.len() > 0 && mergeable(segs.last(), status, essence) ==> segs.last().length + length <= u64::MAX,
    ensures
        segments_hold(pushed(segs, offset, length, status, essence), recorded(contents, segs, status, essence, bytes)),
        joined(recorded(contents, segs, status, essence, bytes)) == joined(contents) + bytes,
        status == Status::Good ==> recorded(contents, segs, status, essence, bytes).last() == prior_good(segs, contents) + bytes,
{
    let r = pushed(segs, offset, length, status, essence);
    let c = recorded(contents, segs, status, essence, bytes);
    let merge = segs.len() > 0 && mergeable(segs.last(), status, essence);
    assert forall|k: int| 0 <= k < r.len() && (#[trigger] r[k]).status == Status::Good implies {
        &&& r[k].essence == adler32_of(c[k])
        &&& c[k].len() == r[k].length
    } by {
        if k < segs.len() - 1 || (k == segs.len() - 1 && !merge) {
            assert(r[k] == segs[k]);
            assert(c[k] == contents[k]);
        } else if k == segs.len() - 1 {
            assert(segs[k].status == Status::Good);
        } else {
            assert(Seq::<u8>::empty() + bytes =~= bytes);
        }
    }
    assert forall|k: int| 0 <= k < r.len() && (#[trigger] r[k]).status == Status::Bad implies c[k].len() == 0 by {
        if k < segs.len() - 1 || (k == segs.len() - 1 && !merge) {
            assert(r[k] == segs[k]);
            assert(c[k] == contents[k]);
        } else if k == segs.len() - 1 {
            assert(segs[k].status == Status::Bad);
        }
    }
    if merge {
        assert(c.drop_last() =~= contents.drop_last());
        assert(joined(c) =~= joined(contents) + bytes);
    } else {
        assert(c.drop_last() =~= contents);
        if status == Status::Good {
            assert(Seq::<u8>::empty() + bytes =~= bytes);
        }
    }
}

/// Dropping a last segment that had no bytes read keeps all bytes read.
pub proof fn lemma_joined_drop_empty(contents: Seq<Seq<u8>>)
    requires
        contents.len() > 0,
        contents.last().len() == 0,
    ensures
        joined(contents.drop_last()) == joined(contents),
{
    assert(joined(contents) =~= joined(contents.drop_last()));
}

/// Dropping the last segment, together with its bytes, keeps the segments
/// and their bytes in agreement.
pub proof fn lemma_hold_drop_last(segs: Seq<Segment>, contents: Seq<Seq<u8>>)
    requires
        segments_hold(segs, contents),
        segs.len() > 0,
    ensures
        segments_hold(segs.drop_last(), contents.drop_last()),
{
    let d = segs.drop_last();
    let c = contents.drop_last();
    assert forall|k: int| 0 <= k < d.len() && (#[trigger] d[k]).status == Status::Good implies {
        &&& d[k].essence == adler32_of(c[k])
        &&& c[k].len() == d[k].length
    } by {
        assert(d[k] == segs[k]);
        assert(c[k] == contents[k]);
    }
    assert forall|k: int| 0 <= k < d.len() && (#[trigger] d[k]).status == Status::Bad implies c[k].len() == 0 by {
        assert(d[k] == segs[k]);
        assert(c[k] == contents[k]);
    }
}

/// The state of a traversal of a source, stride by stride, optionally
/// copying it into a destination.
///
/// Two rolling checksums are kept: `local`, restarted at segment boundaries
/// so that it covers the bytes of the current Good segment and is recorded
/// as its essence, and `global`, fed with every byte read and recorded as
/// the layout's essence at the end.
pub struct Traversal {
    pub layout: Layout,
    /// Bytes of the source processed so far.
    pub offset: u64,
    pub eof: EofDetector,
    pub global: Adler32,
    pub local: Adler32,
    /// Uniform strides whose writing is deferred (copy mode only).
    pub stretch: Option<PatternRun>,
    /// Whether a destination is written (copy mode) or not (inspection).
    pub copying: bool,
    /// Stop after this many bytes, if given.
    pub limit: Option<u64>,
    /// Whether the final uniform run is reduced to one stride.
    pub truncate: bool,
    /// Every byte read from the source so far, in order.
    pub consumed: Ghost<Seq<u8>>,
    /// The bytes read for each segment of the layout.
    pub contents: Ghost<Seq<Seq<u8>>>,
    /// The bytes read for the pending run.
    pub run_bytes: Ghost<Seq<u8>>,
    /// The bytes of the stride read but not yet taken in.
    pub fresh: Ghost<Seq<u8>>,
    /// The verdict on the stride read but not yet taken in.
    pub pending: Ghost<Option<(Status, u64, u32)>>,
}

/// The layout's segments after ending a pending run (not the final one).
pub open spec fn flushed(segs: Seq<Segment>, stretch: Option<PatternRun>) -> Seq<Segment> {
    match stretch {
        Some(run) => pushed(segs, run.start, run.length, Status::Ugly, run.pattern),
        None => segs,
    }
}

/// The write that ending a pending run (not the final one) asks for.
pub open spec fn flush_writes(stretch: Option<PatternRun>) -> Seq<Action> {
    match stretch {
        Some(run) => seq![Action::Run { pattern: run.pattern, length: run.length }],
        None => Seq::empty(),
    }
}

/// Whether the segment checksum goes on accumulating after a stride: the
/// layout ends with a Good segment that the next Good stride would extend,
/// and no uniform run is pending.
pub open spec fn continues_good(segs: Seq<Segment>, stretch: Option<PatternRun>) -> bool {
    &&& stretch is None
    &&& segs.len() > 0
    &&& segs.last().status == Status::Good
}

/// The segments left once a trailing Bad segment of exactly the length of
/// the failed strides that preceded a heuristic end of media is dropped
/// as noise (only when the detector is saturated at all).
pub open spec fn stripped(segs: Seq<Segment>, saturation: u32, stride: u64) -> Seq<Segment> {
    if saturation > 0 && segs.len() > 0 && segs.last().status == Status::Bad && segs.last().length
        == noise_length(stride) {
        segs.drop_last()
    } else {
        segs
    }
}

impl Traversal {
    /// The traversal invariant: the segments are contiguous from offset 0
    /// and compact; they end where the pending run starts, or where the
    /// traversal stands when no run is pending; runs are only kept when copying.
    pub open spec fn wf(&self) -> bool {
        &&& contiguous(self.layout.segments@)
        &&& compact(self.layout.segments@)
        &&& self.global == Adler32::initial().fed(self.consumed@)
        &&& match self.stretch {
            Some(run) => {
                &&& self.copying
                &&& layout_end(self.layout.segments@) == run.start
                &&& run.start + run.length == self.offset
            },
            None => layout_end(self.layout.segments@) == self.offset,
        }
    }

    /// The bytes of the Good segment that the segment checksum covers: those
    /// of the last segment while it may still grow, none otherwise.
    pub open spec fn local_base(&self) -> Seq<u8> {
        if continues_good(self.layout.segments@, self.stretch) {
            self.contents@.last()
        } else {
            Seq::empty()
        }
    }

    /// The bookkeeping of the bytes read: every byte read belongs, in order,
    /// to a segment, to the pending run or to the stride not yet taken in;
    /// every Good segment's essence is the checksum of its bytes; the segment
    /// checksum covers the growing Good segment and the fresh stride; and a
    /// stride not yet taken in carries the verdict its bytes give.
    pub open spec fn accounted(&self) -> bool {
        &&& segments_hold(self.layout.segments@, self.contents@)
        &&& self.consumed@ == joined(self.contents@) + self.run_bytes@ + self.fresh@
        &&& self.stretch is None ==> self.run_bytes@.len() == 0
        &&& self.local == Adler32::initial().fed(self.local_base() + self.fresh@)
        &&& match self.pending@ {
            None => self.fresh@.len() == 0,
            Some((status, length, essence)) => {
                &&& status == Status::Bad ==> self.fresh@.len() == 0
                &&& status != Status::Bad ==> length == self.fresh@.len()
                &&& status != Status::Bad ==> status == classify(self.fresh@)
                &&& status == Status::Good ==> essence == adler32_of(self.local_base() + self.fresh@)
            },
        }
    }

    /// The pending run stands for the bytes read for it: they are its pattern
    /// repeated over its whole length, a whole number of words.
    pub open spec fn run_faithful(&self) -> bool {
        match self.stretch {
            Some(run) => {
                &&& run.length % 4 == 0
                &&& self.run_bytes@ == repeated(run.pattern, run.length as int)
            },
            None => true,
        }
    }

    /// A traversal at offset 0 with an empty layout at the given stride.
    pub fn new(stride: u64, copying: bool, limit: Option<u64>, truncate: bool) -> (t: Self)
        ensures
            t.wf(),
            t.layout.stride == stride,
            t.layout.essence == 0,
            t.layout.segments@ == Seq::<Segment>::empty(),
            t.offset == 0,
            t.eof == (EofDetector { saturation: 0, last_code: None, last_offset: 0 }),
            t.global == Adler32::initial(),
            t.local == Adler32::initial(),
            t.stretch == None::<PatternRun>,
            t.copying == copying,
            t.limit == limit,
            t.truncate == truncate,
            t.consumed@ == Seq::<u8>::empty(),
            t.accounted(),
            t.pending@ == None::<(Status, u64, u32)>,
    {
        proof {
            reveal(contiguous);
            reveal(compact);
        }
        Traversal {
            layout: Layout::new(stride),
            offset: 0,
            eof: EofDetector::new(),
            global: Adler32::new(),
            local: Adler32::new(),
            stretch: None,
            copying,
            limit,
            truncate,
            consumed: Ghost(Seq::empty()),
            contents: Ghost(Seq::empty()),
            run_bytes: Ghost(Seq::empty()),
            fresh: Ghost(Seq::empty()),
            pending: Ghost(None),
        }
    }

    /// How many bytes to read next: a stride, or what is left before the
    /// limit when that is less; `None` once the limit is reached.
    pub fn next_step(&self) -> (r: Option<u64>)
        ensures
            r == match self.limit {
                None => Some(self.layout.stride),
                Some(lim) => if lim <= self.offset {
                    None
                } else if lim - self.offset < self.layout.stride {
                    Some((lim - self.offset) as u64)
                } else {
                    Some(self.layout.stride)
                },
            },
    {
        match self.limit {
            None => Some(self.layout.stride),
            Some(lim) => {
                let remaining = lim.saturating_sub(self.offset);
                if remaining == 0 {
                    None
                } else if remaining < self.layout.stride {
                    Some(remaining)
                } else {
                    Some(self.layout.stride)
                }
            },
        }
    }

    /// Classify the stride just read into `buf` at the current offset (see
    /// `read_stride`), feeding both checksums and the end-of-media detector.
    pub fn read(&mut self, buf: &[u8], outcome: ReadOutcome) -> (r: Option<(Status, u64, u32)>)
        requires
            old(self).wf(),
            old(self).accounted(),
            old(self).pending@ == None::<(Status, u64, u32)>,
            outcome matches ReadOutcome::Tail(n) ==> n <= buf@.len(),
            outcome matches ReadOutcome::Failed(code) ==> (repeats(old(self).eof, code, old(self).offset)
                ==> old(self).eof.saturation < u32::MAX),
        ensures
            match outcome {
                ReadOutcome::Filled => {
                    &&& final(self).eof == after_success(old(self).eof)
                    &&& final(self).global == old(self).global.fed(buf@)
                    &&& final(self).local == old(self).local.fed(buf@)
                    &&& r == stride_verdict(buf@, final(self).local.reported(), buf@.len() as int)
                },
                ReadOutcome::Tail(n) => {
                    &&& final(self).eof == old(self).eof
                    &&& n == 0 ==> {
                        &&& r == None::<(Status, u64, u32)>
                        &&& final(self).global == old(self).global
                        &&& final(self).local == old(self).local
                    }
                    &&& n > 0 ==> {
                        &&& final(self).global == old(self).global.fed(buf@.take(n as int))
                        &&& final(self).local == old(self).local.fed(buf@.take(n as int))
                        &&& r == stride_verdict(buf@, final(self).local.reported(), n as int)
                    }
                },
                ReadOutcome::Failed(code) => {
                    &&& final(self).eof == after_error(old(self).eof, code, old(self).offset)
                    &&& final(self).global == old(self).global
                    &&& final(self).local == old(self).local
                    &&& r == if final(self).eof.saturation < MAX_SATURATION {
                        Some((Status::Bad, buf@.len() as u64, BAD_ESSENCE))
                    } else {
                        None
                    }
                },
            },
            final(self).layout == old(self).layout,
            final(self).offset == old(self).offset,
            final(self).stretch == old(self).stretch,
            final(self).copying == old(self).copying,
            final(self).limit == old(self).limit,
            final(self).truncate == old(self).truncate,
            final(self).wf(),
            final(self).accounted(),
            final(self).consumed@ == old(self).consumed@ + final(self).fresh@,
            final(self).fresh@ == match outcome {
                ReadOutcome::Filled => buf@,
                ReadOutcome::Tail(n) => buf@.take(n as int),
                ReadOutcome::Failed(_) => Seq::<u8>::empty(),
            },
            final(self).pending@ == r,
            final(self).contents == old(self).contents,
            final(self).run_bytes == old(self).run_bytes,
    {
        let offset = self.offset;
        let blen = buf.len();
        let ghost before = self.consumed@;
        let ghost bytes = match outcome {
            ReadOutcome::Filled => buf@,
            ReadOutcome::Tail(n) => buf@.take(n as int),
            ReadOutcome::Failed(_) => Seq::<u8>::empty(),
        };
        let r = read_stride(buf, outcome, offset, &mut self.eof, &mut self.global, &mut self.local);
        self.consumed = Ghost(before + bytes);
        proof {
            crate::checksum::lemma_feed_concat(1, 0, before, bytes);
            assert(before + Seq::<u8>::empty() =~= before);
            let base = self.local_base();
            assert(base + Seq::<u8>::empty() =~= base);
            crate::checksum::lemma_feed_concat(1, 0, base, bytes);
            assert(self.consumed@ =~= joined(self.contents@) + self.run_bytes@ + bytes);
        }
        self.fresh = Ghost(bytes);
        self.pending = Ghost(r);
        assert(buf@.take(buf@.len() as int) =~= buf@);
        assert(self.local.reported() == adler32_of(self.local_base() + self.fresh@));
        assert(buf@.len() == blen);
        r
    }
    /// End the pending run, if any, before a stride of another kind: it is
    /// recorded as an Ugly segment and written out whole.
    fn flush_pending(&mut self, acts: &mut Vec<Action>)
        requires
            old(self).wf(),
            segments_hold(old(self).layout.segments@, old(self).contents@),
            old(self).stretch is None ==> old(self).run_bytes@.len() == 0,
        ensures
            final(self).layout.segments@ == flushed(old(self).layout.segments@, old(self).stretch),
            final(self).layout.stride == old(self).layout.stride,
            final(self).layout.essence == old(self).layout.essence,
            final(self).local == old(self).local,
            final(self).stretch == None::<PatternRun>,
            final(self).offset == old(self).offset,
            final(self).eof == old(self).eof,
            final(self).global == old(self).global,
            final(self).copying == old(self).copying,
            final(self).limit == old(self).limit,
            final(self).truncate == old(self).truncate,
            final(self).consumed == old(self).consumed,
            final(acts)@ == old(acts)@ + flush_writes(old(self).stretch),
            contiguous(final(self).layout.segments@),
            compact(final(self).layout.segments@),
            layout_end(final(self).layout.segments@) == old(self).offset,
            final(self).contents@ == match old(self).stretch {
                Some(run) => recorded(old(self).contents@, old(self).layout.segments@, Status::Ugly, run.pattern, old(self).run_bytes@),
                None => old(self).contents@,
            },
            segments_hold(final(self).layout.segments@, final(self).contents@),
            joined(final(self).contents@) == joined(old(self).contents@) + old(self).run_bytes@,
            final(self).run_bytes@ == Seq::<u8>::empty(),
            final(self).fresh == old(self).fresh,
            final(self).pending == old(self).pending,
    {
        let pending = self.stretch;
        match pending {
            Some(run) => {
                let ghost segs = self.layout.segments@;
                proof {
                    if segs.len() > 0 {
                        assert(segs.last().length <= seg_end(segs.last()));
                    }
                    lemma_push_keeps_compact(segs, run.start, run.length, Status::Ugly, run.pattern);
                    lemma_push_keeps_contiguous(segs, run.start, run.length, Status::Ugly, run.pattern);
                }
                let stride = self.layout.stride;
                let ghost c0 = self.contents@;
                let ghost rb = self.run_bytes@;
                proof {
                    lemma_record(segs, c0, run.start, run.length, Status::Ugly, run.pattern, rb);
                }
                let n = run.flush(&mut self.layout, stride, false, false);
                self.stretch = None;
                self.contents = Ghost(recorded(c0, segs, Status::Ugly, run.pattern, rb));
                self.run_bytes = Ghost(Seq::empty());
                acts.push(Action::Run { pattern: run.pattern, length: n });
                proof {
                    assert(flush_writes(pending) =~= seq![Action::Run { pattern: run.pattern, length: run.length }]);
                }
            },
            None => {
                proof {
                    assert(old(acts)@ + flush_writes(pending) =~= old(acts)@);
                }
                self.run_bytes = Ghost(Seq::empty());
                proof {
                    assert(old(self).run_bytes@ =~= Seq::<u8>::empty());
                    assert(joined(old(self).contents@) + old(self).run_bytes@ =~= joined(old(self).contents@));
                }
            },
        }
    }

    /// Take in a stride of the given status, length and essence, read at the
    /// current offset into `buf`, and return the writes it calls for.
    ///
    /// Without a destination the stride is pushed into the layout. With one:
    /// a Good stride is written as is and a Bad one as a placeholder, each
    /// after ending any pending uniform run; a uniform stride extends the
    /// pending run when it repeats the same word, or else ends it and starts
    /// a new one, so that its writing is deferred.
    ///
    /// The segment checksum restarts at every segment boundary, so that the
    /// essence of a Good segment is the checksum of all of its bytes. The
    /// stride must be the one that `read` just classified, with its verdict.
    ///
    /// When copying a readable stride whose bytes `buf` starts with, and
    /// whose whole length is a number of 4-byte words if it is uniform, the
    /// writes put in the destination exactly the bytes that this step adds to
    /// the segments, and a pending run stays its pattern repeated: the image
    /// reproduces what was read.
    #[verifier::spinoff_prover]
    #[verifier::rlimit(40)]
    pub fn absorb(&mut self, buf: &[u8], status: Status, length: u64, essence: u32) -> (acts: Vec<Action>)
        requires
            old(self).wf(),
            old(self).accounted(),
            old(self).pending@ == Some((status, length, essence)),
            old(self).offset + length <= u64::MAX,
            old(self).copying && status == Status::Ugly ==> buf@.len() >= 4,
        ensures
            final(self).wf(),
            final(self).accounted(),
            final(self).pending@ == None::<(Status, u64, u32)>,
            final(self).offset == old(self).offset + length,
            final(self).eof == old(self).eof,
            final(self).global == old(self).global,
            final(self).copying == old(self).copying,
            final(self).limit == old(self).limit,
            final(self).truncate == old(self).truncate,
            final(self).layout.stride == old(self).layout.stride,
            final(self).layout.essence == old(self).layout.essence,
            final(self).consumed == old(self).consumed,
            !old(self).copying ==> {
                &&& final(self).layout.segments@ == pushed(old(self).layout.segments@, old(self).offset, length, status, essence)
                &&& final(self).stretch == old(self).stretch
                &&& acts@ == Seq::<Action>::empty()
            },
            old(self).copying && status == Status::Ugly ==> ({
                let pattern = le_word(buf@);
                let run = old(self).stretch->0;
                if old(self).stretch is Some && run.pattern == pattern {
                    &&& final(self).layout.segments@ == old(self).layout.segments@
                    &&& final(self).stretch == Some(PatternRun { length: (run.length + length) as u64, ..run })
                    &&& acts@ == Seq::<Action>::empty()
                } else {
                    &&& final(self).layout.segments@ == flushed(old(self).layout.segments@, old(self).stretch)
                    &&& final(self).stretch == Some(PatternRun { pattern, start: old(self).offset, length })
                    &&& acts@ == flush_writes(old(self).stretch)
                }
            }),
            old(self).copying && status != Status::Ugly ==> {
                &&& final(self).layout.segments@ == pushed(
                    flushed(old(self).layout.segments@, old(self).stretch),
                    old(self).offset,
                    length,
                    status,
                    essence,
                )
                &&& final(self).stretch == None::<PatternRun>
                &&& acts@ == flush_writes(old(self).stretch).push(
                    if status == Status::Good {
                        Action::Data { length }
                    } else {
                        Action::Fill { length }
                    },
                )
            },
            final(self).local == if continues_good(final(self).layout.segments@, final(self).stretch) {
                old(self).local
            } else {
                Adler32::initial()
            },
            old(self).copying ==> written(acts@) == layout_end(final(self).layout.segments@)
                - layout_end(old(self).layout.segments@),
            old(self).copying && status != Status::Bad && old(self).run_faithful()
                && old(self).fresh@.is_prefix_of(buf@) && (status == Status::Ugly
                ==> old(self).fresh@.len() % 4 == 0) ==> {
                &&& final(self).run_faithful()
                &&& joined(final(self).contents@) == joined(old(self).contents@) + rendered(
                    acts@,
                    old(self).fresh@,
                )
            },
    {
        let mut acts: Vec<Action> = Vec::new();
        let offset = self.offset;
        let ghost old_end = layout_end(self.layout.segments@);
        let ghost c0 = self.contents@;
        let ghost rb0 = self.run_bytes@;
        let ghost fresh0 = self.fresh@;
        let ghost stretch0 = self.stretch;
        let ghost faithful = self.copying && status != Status::Bad && self.run_faithful()
            && fresh0.is_prefix_of(buf@) && (status == Status::Ugly ==> fresh0.len() % 4 == 0);
        if self.copying {
            match status {
                Status::Ugly => {
                    let pattern = first_word(buf);
                    match self.stretch {
                        Some(run) => {
                            if run.pattern == pattern {
                                self.stretch = Some(PatternRun { pattern: run.pattern, start: run.start, length: run.length + length });
                                self.offset = offset + length;
                                self.local.reset();
                                self.run_bytes = Ghost(self.run_bytes@ + self.fresh@);
                                self.fresh = Ghost(Seq::empty());
                                self.pending = Ghost(None);
                                proof {
                                    assert(self.consumed@ =~= joined(self.contents@) + self.run_bytes@ + self.fresh@);
                                    assert(self.local_base() + self.fresh@ =~= Seq::<u8>::empty());
                                }
                                proof {
                                    assert(written(acts@) == 0);
                                    if faithful {
                                        lemma_uniform_stride(buf@, fresh0);
                                        lemma_repeated_concat(run.pattern, run.length as int, length as int);
                                        assert(acts@ =~= Seq::<Action>::empty());
                                        assert(joined(self.contents@) =~= joined(c0) + rendered(acts@, fresh0));
                                    }
                                }
                                return acts;
                            }
                        },
                        None => {},
                    }
                    self.flush_pending(&mut acts);
                    proof {
                        reveal_with_fuel(written, 2);
                    }
                    self.stretch = Some(PatternRun { pattern, start: offset, length });
                    self.offset = offset + length;
                    self.local.reset();
                    self.run_bytes = self.fresh;
                    self.fresh = Ghost(Seq::empty());
                    self.pending = Ghost(None);
                    proof {
                        assert(self.consumed@ =~= joined(self.contents@) + self.run_bytes@ + self.fresh@);
                        assert(self.local_base() + self.fresh@ =~= Seq::<u8>::empty());
                        if faithful {
                            lemma_uniform_stride(buf@, fresh0);
                            lemma_rendered_flush(stretch0, rb0, fresh0);
                            assert(acts@ =~= flush_writes(stretch0));
                        }
                    }
                    return acts;
                },
                Status::Good => {
                    self.flush_pending(&mut acts);
                    acts.push(Action::Data { length });
                },
                Status::Bad => {
                    self.flush_pending(&mut acts);
                    acts.push(Action::Fill { length });
                },
            }
        }
        let ghost segs = self.layout.segments@;
        let ghost c1 = self.contents@;
        let ghost bytes = self.fresh@;
        proof {
            if segs.len() > 0 {
                assert(segs.last().length <= seg_end(segs.last()));
            }
            lemma_push_keeps_compact(segs, offset, length, status, essence);
            lemma_push_keeps_contiguous(segs, offset, length, status, essence);
            reveal_with_fuel(written, 3);
            if status == Status::Good {
                assert(prior_good(segs, c1) == old(self).local_base());
            }
            lemma_record(segs, c1, offset, length, status, essence, bytes);
        }
        self.layout.push(offset, length, status, essence);
        self.contents = Ghost(recorded(c1, segs, status, essence, bytes));
        self.fresh = Ghost(Seq::empty());
        self.pending = Ghost(None);
        let ghost before_settle = self.local;
        self.settle_local();
        self.offset = offset + length;
        proof {
            assert(self.consumed@ =~= joined(self.contents@) + self.run_bytes@ + self.fresh@);
            if continues_good(self.layout.segments@, self.stretch) {
                assert(self.contents@.last() == prior_good(segs, c1) + bytes);
                assert(self.local_base() + self.fresh@ =~= self.contents@.last());
            } else {
                assert(self.local_base() + self.fresh@ =~= Seq::<u8>::empty());
            }
            if faithful {
                let fw = flush_writes(stretch0);
                let a = if status == Status::Good {
                    Action::Data { length }
                } else {
                    Action::Fill { length }
                };
                assert(acts@ == fw.push(a));
                lemma_rendered_push(fw, a, fresh0);
                lemma_rendered_flush(stretch0, rb0, fresh0);
                assert(fresh0.take(length as int) =~= fresh0);
                assert(joined(self.contents@) =~= joined(c0) + rendered(acts@, fresh0));
            }
        }
        acts
    }

    /// Restart the segment checksum at a segment boundary: unless the layout
    /// ends with a Good segment that the next stride may extend.
    fn settle_local(&mut self)
        ensures
            final(self).local == if continues_good(old(self).layout.segments@, old(self).stretch) {
                old(self).local
            } else {
                Adler32::initial()
            },
            final(self).layout == old(self).layout,
            final(self).stretch == old(self).stretch,
            final(self).offset == old(self).offset,
            final(self).eof == old(self).eof,
            final(self).global == old(self).global,
            final(self).copying == old(self).copying,
            final(self).limit == old(self).limit,
            final(self).truncate == old(self).truncate,
            final(self).consumed == old(self).consumed,
            final(self).contents == old(self).contents,
            final(self).run_bytes == old(self).run_bytes,
            final(self).fresh == old(self).fresh,
            final(self).pending == old(self).pending,
    {
        let n = self.layout.segments.len();
        let keep = match self.stretch {
            None => n > 0 && self.layout.segments[n - 1].status == Status::Good,
            Some(_) => false,
        };
        if !keep {
            self.local.reset();
        }
    }
    /// End the traversal: drop the trailing noise of a heuristic end of
    /// media, end the pending run (written as one stride only when
    /// truncating), and record the checksum of everything read as the
    /// layout's essence. Returns the writes still to be made.
    ///
    /// Then every byte read belongs, in order, to one segment; each Good
    /// segment's essence is the Adler-32 checksum of exactly its bytes; and
    /// the layout's essence is the checksum of all bytes read. Without
    /// truncation, the last run writes exactly the bytes read for it.
    pub fn finish(&mut self) -> (acts: Vec<Action>)
        requires
            old(self).wf(),
            old(self).accounted(),
            old(self).pending@ == None::<(Status, u64, u32)>,
            old(self).eof.saturation > 0 && old(self).layout.segments@.len() > 0
                ==> old(self).layout.stride * (MAX_SATURATION - 1) <= u64::MAX,
        ensures
            ({
                let segs1 = stripped(old(self).layout.segments@, old(self).eof.saturation, old(self).layout.stride);
                match old(self).stretch {
                    Some(run) => {
                        let n = flush_length(run, old(self).layout.stride, true, old(self).truncate);
                        &&& final(self).layout.segments@ == pushed(segs1, run.start, n, Status::Ugly, run.pattern)
                        &&& acts@ == seq![Action::Run { pattern: run.pattern, length: n }]
                    },
                    None => {
                        &&& final(self).layout.segments@ == segs1
                        &&& acts@ == Seq::<Action>::empty()
                    },
                }
            }),
            old(self).stretch matches Some(run) ==> acts@ == seq![
                Action::Run {
                    pattern: run.pattern,
                    length: if old(self).truncate && old(self).layout.stride < run.length {
                        old(self).layout.stride
                    } else {
                        run.length
                    },
                },
            ],
            old(self).truncate && old(self).stretch is Some ==> written(acts@) <= old(self).layout.stride,
            final(self).layout.essence == old(self).global.reported(),
            final(self).layout.essence == adler32_of(old(self).consumed@),
            segments_hold(final(self).layout.segments@, final(self).contents@),
            final(self).consumed@ == joined(final(self).contents@),
            final(self).consumed == old(self).consumed,
            final(self).layout.stride == old(self).layout.stride,
            final(self).stretch == None::<PatternRun>,
            final(self).offset == old(self).offset,
            final(self).eof == old(self).eof,
            final(self).global == old(self).global,
            final(self).local == old(self).local,
            final(self).copying == old(self).copying,
            final(self).limit == old(self).limit,
            final(self).truncate == old(self).truncate,
            compact(final(self).layout.segments@),
            old(self).copying && !old(self).truncate && old(self).run_faithful() ==> joined(
                final(self).contents@,
            ) == joined(old(self).contents@) + rendered(acts@, Seq::<u8>::empty()),
            !old(self).copying ==> {
                &&& contiguous(final(self).layout.segments@)
                &&& layout_end(final(self).layout.segments@) == layout_end(
                    stripped(old(self).layout.segments@, old(self).eof.saturation, old(self).layout.stride),
                )
            },
    {
        let mut acts: Vec<Action> = Vec::new();
        let ds = self.layout.stride;
        let ghost segs0 = self.layout.segments@;
        if self.eof.saturation_count() > 0 {
            let n = self.layout.segments.len();
            if n > 0 {
                let last = self.layout.segments[n - 1];
                let noise_len = ds * (MAX_SATURATION - 1) as u64;
                if last.status == Status::Bad && last.length == noise_len {
                    proof {
                        lemma_drop_last_keeps(segs0);
                        lemma_hold_drop_last(segs0, self.contents@);
                        lemma_joined_drop_empty(self.contents@);
                    }
                    self.layout.segments.pop();
                    self.contents = Ghost(self.contents@.drop_last());
                    proof {
                        assert(self.layout.segments@ =~= segs0.drop_last());
                    }
                }
            }
        }
        let ghost segs1 = self.layout.segments@;
        assert(segs1 == stripped(segs0, self.eof.saturation, ds));
        assert(contiguous(segs1) && compact(segs1) && layout_end(segs1) <= layout_end(segs0)) by {
            if segs1 != segs0 {
                lemma_drop_last_keeps(segs0);
            }
        }
        let pending = self.stretch;
        match pending {
            Some(run) => {
                proof {
                    if segs1.len() > 0 {
                        assert(segs1.last().length <= seg_end(segs1.last()));
                    }
                    lemma_push_keeps_compact(segs1, run.start, flush_length(run, ds, true, self.truncate), Status::Ugly, run.pattern);
                    lemma_record(segs1, self.contents@, run.start, flush_length(run, ds, true, self.truncate), Status::Ugly, run.pattern, self.run_bytes@);
                }
                let ghost c1 = self.contents@;
                let ghost rb = self.run_bytes@;
                let n = if self.copying {
                    run.flush(&mut self.layout, ds, true, self.truncate)
                } else {
                    self.layout.push(run.start, run.length, Status::Ugly, run.pattern);
                    run.length
                };
                acts.push(Action::Run { pattern: run.pattern, length: n });
                self.stretch = None;
                self.contents = Ghost(recorded(c1, segs1, Status::Ugly, run.pattern, rb));
                self.run_bytes = Ghost(Seq::empty());
                proof {
                    assert(self.consumed@ =~= joined(self.contents@));
                }
            },
            None => {
                proof {
                    assert(self.consumed@ =~= joined(self.contents@));
                }
            },
        }
        self.layout.essence = self.global.value();
        proof {
            reveal_with_fuel(written, 2);
            if old(self).copying && !old(self).truncate && old(self).run_faithful() {
                let e = Seq::<u8>::empty();
                match old(self).stretch {
                    Some(run) => {
                        let a = Action::Run { pattern: run.pattern, length: run.length };
                        lemma_rendered_push(Seq::empty(), a, e);
                        assert(acts@ =~= Seq::<Action>::empty().push(a));
                        assert(rendered(acts@, e) =~= old(self).run_bytes@);
                    },
                    None => {
                        assert(acts@ =~= Seq::<Action>::empty());
                        assert(old(self).run_bytes@ =~= e);
                    },
                }
                assert(old(self).fresh@ =~= e);
                assert(joined(self.contents@) =~= joined(old(self).contents@) + rendered(acts@, e));
            }
        }
        acts
    }
}

} // verus!
