//! Incremental UTF-8 stream decoding.
//!
//! Terminal output arrives as raw byte chunks whose boundaries need not
//! respect character boundaries. [`StreamDecoder`] accumulates undecodable
//! tail bytes between reads and, for every chunk fed in, returns all bytes
//! that can be decoded so far: well-formed scalar encodings are passed
//! through unchanged, definitely-invalid spans are replaced by the UTF-8
//! encoding of the replacement character, and an incomplete encoding at the
//! end of the buffer is withheld until more bytes arrive.

use vstd::prelude::*;
use vstd::utf8::{
    decode_utf8, is_continuation_byte, is_leading_byte_width_1, length_of_first_scalar,
    valid_first_scalar, valid_utf8, valid_utf8_concat,
};

verus! {

/// How a byte buffer begins: empty, with a complete scalar encoding of the
/// given length, with a definitely-invalid span of the given length, or with
/// an incomplete (possibly still extendable) scalar encoding.
pub enum HeadShape {
    Empty,
    Scalar(int),
    Invalid(int),
    Incomplete,
}

/// True when `b1` may follow the three-byte leading byte `b0`; the bounds for
/// `0xe0` and `0xed` exclude overlong encodings and surrogates.
pub open spec fn valid_second_byte_3(b0: u8, b1: u8) -> bool {
    if b0 == 0xe0 {
        0xa0 <= b1 <= 0xbf
    } else if b0 == 0xed {
        0x80 <= b1 <= 0x9f
    } else {
        is_continuation_byte(b1)
    }
}

/// True when `b1` may follow the four-byte leading byte `b0`; the bounds for
/// `0xf0` and `0xf4` exclude overlong encodings and values past the last
/// scalar.
pub open spec fn valid_second_byte_4(b0: u8, b1: u8) -> bool {
    if b0 == 0xf0 {
        0x90 <= b1 <= 0xbf
    } else if b0 == 0xf4 {
        0x80 <= b1 <= 0x8f
    } else {
        is_continuation_byte(b1)
    }
}

/// Classifies the start of a byte buffer. An invalid span is the maximal
/// prefix of bytes that can no longer begin a scalar encoding, so resuming
/// after it never drops a byte that could still decode.
pub open spec fn head_shape(s: Seq<u8>) -> HeadShape {
    if s.len() == 0 {
        HeadShape::Empty
    } else {
        let b0 = s[0];
        if is_leading_byte_width_1(b0) {
            HeadShape::Scalar(1)
        } else if 0xc2 <= b0 <= 0xdf {
            if s.len() < 2 {
                HeadShape::Incomplete
            } else if is_continuation_byte(s[1]) {
                HeadShape::Scalar(2)
            } else {
                HeadShape::Invalid(1)
            }
        } else if 0xe0 <= b0 <= 0xef {
            if s.len() >= 2 && !valid_second_byte_3(b0, s[1]) {
                HeadShape::Invalid(1)
            } else if s.len() < 3 {
                HeadShape::Incomplete
            } else if is_continuation_byte(s[2]) {
                HeadShape::Scalar(3)
            } else {
                HeadShape::Invalid(2)
            }
        } else if 0xf0 <= b0 <= 0xf4 {
            if s.len() >= 2 && !valid_second_byte_4(b0, s[1]) {
                HeadShape::Invalid(1)
            } else if s.len() >= 3 && !is_continuation_byte(s[2]) {
                HeadShape::Invalid(2)
            } else if s.len() < 4 {
                HeadShape::Incomplete
            } else if is_continuation_byte(s[3]) {
                HeadShape::Scalar(4)
            } else {
                HeadShape::Invalid(3)
            }
        } else {
            HeadShape::Invalid(1)
        }
    }
}

/// The UTF-8 encoding of the replacement character, emitted for each
/// definitely-invalid span.
pub open spec fn replacement() -> Seq<u8> {
    seq![0xefu8, 0xbfu8, 0xbdu8]
}

/// One pass of decoding over a buffer: the first component is everything
/// emitted (decoded spans and replacement markers, in byte order), the second
/// is the incomplete tail kept for the next read.
pub open spec fn drain(s: Seq<u8>) -> (Seq<u8>, Seq<u8>)
    decreases s.len(),
{
    match head_shape(s) {
        HeadShape::Empty => (Seq::empty(), Seq::empty()),
        HeadShape::Scalar(len) => {
            let rest = drain(s.skip(len));
            (s.take(len) + rest.0, rest.1)
        },
        HeadShape::Invalid(len) => {
            let rest = drain(s.skip(len));
            (replacement() + rest.0, rest.1)
        },
        HeadShape::Incomplete => (Seq::empty(), s),
    }
}

/// What a whole stream decodes to once no more bytes can arrive: everything
/// drained, plus one replacement marker if an incomplete tail was left over.
pub open spec fn lossy(s: Seq<u8>) -> Seq<u8> {
    drain(s).0 + if drain(s).1.len() == 0 {
        Seq::<u8>::empty()
    } else {
        replacement()
    }
}

/// A buffer the decoder may hold between reads: empty or one incomplete
/// scalar encoding.
pub open spec fn pending_ok(s: Seq<u8>) -> bool {
    s.len() == 0 || head_shape(s) is Incomplete
}

// The codepoint bounds behind `head_shape`'s byte ranges, checked at the bit
// level: each range admits exactly the non-overlong, non-surrogate scalars of
// its width.
proof fn bits_scalar_2(b0: u8, b1: u8)
    by (bit_vector)
    requires
        0xc2 <= b0 <= 0xdf,
        0x80 <= b1 <= 0xbf,
    ensures
        0x80 <= ((((b0 & 0x1f) as u32) << 6) | ((b1 & 0x3f) as u32)) <= 0x7ff,
{
}

proof fn bits_scalar_3(b0: u8, b1: u8, b2: u8)
    by (bit_vector)
    requires
        0xe0 <= b0 <= 0xef,
        b0 == 0xe0 ==> 0xa0 <= b1 <= 0xbf,
        b0 == 0xed ==> 0x80 <= b1 <= 0x9f,
        0x80 <= b1 <= 0xbf,
        0x80 <= b2 <= 0xbf,
    ensures
        0x800 <= ((((b0 & 0x0f) as u32) << 12) | (((b1 & 0x3f) as u32) << 6) | ((b2
            & 0x3f) as u32)) <= 0xffff,
        b0 != 0xed ==> !(0xd800 <= ((((b0 & 0x0f) as u32) << 12) | (((b1 & 0x3f) as u32) << 6) | ((
        b2 & 0x3f) as u32)) <= 0xdfff),
        b0 == 0xed ==> ((((b0 & 0x0f) as u32) << 12) | (((b1 & 0x3f) as u32) << 6) | ((b2
            & 0x3f) as u32)) < 0xd800,
{
}

proof fn bits_scalar_4(b0: u8, b1: u8, b2: u8, b3: u8)
    by (bit_vector)
    requires
        0xf0 <= b0 <= 0xf4,
        b0 == 0xf0 ==> 0x90 <= b1 <= 0xbf,
        b0 == 0xf4 ==> 0x80 <= b1 <= 0x8f,
        0x80 <= b1 <= 0xbf,
        0x80 <= b2 <= 0xbf,
        0x80 <= b3 <= 0xbf,
    ensures
        0x10000 <= ((((b0 & 0x07) as u32) << 18) | (((b1 & 0x3f) as u32) << 12) | (((b2
            & 0x3f) as u32) << 6) | ((b3 & 0x3f) as u32)) <= 0x10ffff,
{
}

/// A head classified as a scalar really is a well-formed scalar encoding of
/// that length, in the sense of vstd's UTF-8 specification.
pub proof fn lemma_head_scalar_valid(s: Seq<u8>)
    requires
        head_shape(s) is Scalar,
    ensures
        valid_first_scalar(s),
        head_shape(s) == HeadShape::Scalar(length_of_first_scalar(s)),
{
    let b0 = s[0];
    if is_leading_byte_width_1(b0) {
        assert((b0 & 0x7f) < 0xd800) by (bit_vector);
    } else if 0xc2 <= b0 <= 0xdf {
        bits_scalar_2(b0, s[1]);
    } else if 0xe0 <= b0 <= 0xef {
        bits_scalar_3(b0, s[1], s[2]);
    } else {
        bits_scalar_4(b0, s[1], s[2], s[3]);
    }
}

proof fn bits_ranges_2(b0: u8, b1: u8)
    by (bit_vector)
    requires
        0xc0 <= b0 <= 0xdf,
        0x80 <= b1 <= 0xbf,
        0x80 <= ((((b0 & 0x1f) as u32) << 6) | ((b1 & 0x3f) as u32)),
    ensures
        0xc2 <= b0,
{
}

/// A well-formed scalar encoding at the head of the buffer is always
/// classified as exactly that scalar: no valid text is ever replaced or
/// withheld.
pub proof fn lemma_valid_scalar_head(s: Seq<u8>)
    requires
        valid_first_scalar(s),
    ensures
        head_shape(s) == HeadShape::Scalar(length_of_first_scalar(s)),
{
    let b0 = s[0];
    if is_leading_byte_width_1(b0) {
    } else if vstd::utf8::is_leading_byte_width_2(b0) {
        let b1 = s[1];
        assert(0xc2 <= b0) by {
            bits_ranges_2(b0, b1);
        }
    } else if vstd::utf8::is_leading_byte_width_3(b0) {
        let b1 = s[1];
        let b2 = s[2];
        let cp = vstd::utf8::codepoint_width_3(b0, b1, b2);
        assert(valid_second_byte_3(b0, b1)) by {
            assert(((b2 & 0x3f) as u32) <= 0x3f) by (bit_vector);
            if b0 == 0xe0 {
                assert(0xa0 <= b1) by (bit_vector)
                    requires
                        b0 == 0xe0,
                        0x80 <= b1 <= 0xbf,
                        0x80 <= b2 <= 0xbf,
                        0x800 <= ((((b0 & 0x0f) as u32) << 12) | (((b1 & 0x3f) as u32) << 6) | ((b2
                            & 0x3f) as u32)),
                ;
            }
            if b0 == 0xed {
                assert(b1 <= 0x9f) by (bit_vector)
                    requires
                        b0 == 0xed,
                        0x80 <= b1 <= 0xbf,
                        0x80 <= b2 <= 0xbf,
                        !(0xd800 <= ((((b0 & 0x0f) as u32) << 12) | (((b1 & 0x3f) as u32) << 6) | ((
                        b2 & 0x3f) as u32)) <= 0xdfff),
                ;
            }
        }
    } else {
        let b1 = s[1];
        let b2 = s[2];
        let b3 = s[3];
        assert(b0 <= 0xf4 && valid_second_byte_4(b0, b1)) by (bit_vector)
            requires
                0xf0 <= b0 <= 0xf7,
                0x80 <= b1 <= 0xbf,
                0x80 <= b2 <= 0xbf,
                0x80 <= b3 <= 0xbf,
                0x10000 <= ((((b0 & 0x07) as u32) << 18) | (((b1 & 0x3f) as u32) << 12) | (((b2
                    & 0x3f) as u32) << 6) | ((b3 & 0x3f) as u32)) <= 0x10ffff,
                valid_second_byte_4(b0, b1) == (if b0 == 0xf0 {
                    0x90 <= b1 <= 0xbf
                } else if b0 == 0xf4 {
                    0x80 <= b1 <= 0x8f
                } else {
                    0x80 <= b1 <= 0xbf
                }),
        ;
    }
}

/// The bytes of a scalar head, taken on their own, are valid UTF-8.
pub proof fn lemma_take_head_valid(s: Seq<u8>)
    requires
        head_shape(s) is Scalar,
    ensures
        head_shape(s) matches HeadShape::Scalar(len) ==> valid_utf8(s.take(len)),
{
    lemma_head_scalar_valid(s);
    if let HeadShape::Scalar(len) = head_shape(s) {
        let t = s.take(len);
        assert(head_shape(t) == head_shape(s));
        lemma_head_scalar_valid(t);
        assert(valid_utf8(Seq::<u8>::empty()));
        assert(vstd::utf8::pop_first_scalar(t) =~= Seq::<u8>::empty());
        assert(valid_utf8(t));
    }
}

/// The replacement marker is itself valid UTF-8.
pub proof fn lemma_replacement_valid()
    ensures
        valid_utf8(replacement()),
        head_shape(replacement()) == HeadShape::Scalar(3),
{
    let r = replacement();
    assert(r.len() == 3);
    assert(r[0] == 0xefu8 && r[1] == 0xbfu8 && r[2] == 0xbdu8);
    lemma_head_scalar_valid(r);
    assert(valid_utf8(Seq::<u8>::empty()));
    assert(vstd::utf8::pop_first_scalar(r) =~= Seq::<u8>::empty());
}

/// Everything a drain emits is valid UTF-8.
pub proof fn lemma_drain_valid(s: Seq<u8>)
    ensures
        valid_utf8(drain(s).0),
        pending_ok(drain(s).1),
    decreases s.len(),
{
    match head_shape(s) {
        HeadShape::Empty => {},
        HeadShape::Scalar(len) => {
            lemma_take_head_valid(s);
            lemma_drain_valid(s.skip(len));
            valid_utf8_concat(s.take(len), drain(s.skip(len)).0);
        },
        HeadShape::Invalid(len) => {
            lemma_replacement_valid();
            lemma_drain_valid(s.skip(len));
            valid_utf8_concat(replacement(), drain(s.skip(len)).0);
        },
        HeadShape::Incomplete => {},
    }
}

/// A head already classified as complete (a scalar or an invalid span) keeps
/// that classification when more bytes arrive.
proof fn lemma_head_extend(p: Seq<u8>, d: Seq<u8>)
    requires
        p.len() > 0,
        !(head_shape(p) is Incomplete),
    ensures
        head_shape(p + d) == head_shape(p),
{
    assert(p.len() <= (p + d).len());
    assert forall|k: int| 0 <= k < p.len() implies (p + d)[k] == p[k] by {}
}

/// Draining distributes over arrival of new bytes: draining `p` and then the
/// leftover tail extended by `d` emits the same bytes, in the same order, as
/// draining `p + d` outright. This is why feeding a stream chunk by chunk,
/// with arbitrary chunk boundaries, loses, duplicates and reorders nothing.
pub proof fn lemma_drain_compose(p: Seq<u8>, d: Seq<u8>)
    ensures
        drain(p + d).0 == drain(p).0 + drain(drain(p).1 + d).0,
        drain(p + d).1 == drain(drain(p).1 + d).1,
    decreases p.len(),
{
    match head_shape(p) {
        HeadShape::Empty => {
            assert(p + d =~= d);
            assert(drain(p).1 + d =~= d);
            assert(drain(p).0 + drain(d).0 =~= drain(d).0);
        },
        HeadShape::Scalar(len) => {
            lemma_head_extend(p, d);
            assert((p + d).take(len) =~= p.take(len));
            assert((p + d).skip(len) =~= p.skip(len) + d);
            lemma_drain_compose(p.skip(len), d);
            assert(drain(p + d).0 =~= drain(p).0 + drain(drain(p).1 + d).0);
        },
        HeadShape::Invalid(len) => {
            lemma_head_extend(p, d);
            assert((p + d).skip(len) =~= p.skip(len) + d);
            lemma_drain_compose(p.skip(len), d);
            assert(drain(p + d).0 =~= drain(p).0 + drain(drain(p).1 + d).0);
        },
        HeadShape::Incomplete => {
            assert(drain(p).1 + d =~= p + d);
            assert(drain(p).0 + drain(p + d).0 =~= drain(p + d).0);
        },
    }
}

/// Draining pure ASCII emits it unchanged and keeps nothing back.
pub proof fn lemma_drain_ascii(s: Seq<u8>)
    requires
        forall|i: int| 0 <= i < s.len() ==> s[i] < 0x80,
    ensures
        drain(s).0 == s,
        drain(s).1 == Seq::<u8>::empty(),
    decreases s.len(),
{
    if s.len() > 0 {
        assert(head_shape(s) == HeadShape::Scalar(1));
        lemma_drain_ascii(s.skip(1));
        assert(s.take(1) + drain(s.skip(1)).0 =~= s);
    }
}

/// Outcome of classifying the head of the buffer at some offset.
pub enum HeadStep {
    Take(usize),
    Bad(usize),
    More,
    End,
}

fn is_cont(b: u8) -> (r: bool)
    ensures
        r == is_continuation_byte(b),
{
    0x80 <= b && b <= 0xbf
}

fn classify_at(buf: &Vec<u8>, i: usize) -> (r: HeadStep)
    requires
        i <= buf@.len(),
    ensures
        ({
            let s = buf@.skip(i as int);
            match r {
                HeadStep::Take(n) => head_shape(s) == HeadShape::Scalar(n as int) && 1 <= n <= 4
                    && i + n <= buf@.len(),
                HeadStep::Bad(n) => head_shape(s) == HeadShape::Invalid(n as int) && 1 <= n <= 3
                    && i + n <= buf@.len(),
                HeadStep::More => head_shape(s) is Incomplete,
                HeadStep::End => s.len() == 0,
            }
        }),
{
    let rem = buf.len() - i;
    if rem == 0 {
        return HeadStep::End;
    }
    let b0 = buf[i];
    if b0 < 0x80 {
        HeadStep::Take(1)
    } else if 0xc2 <= b0 && b0 <= 0xdf {
        if rem < 2 {
            HeadStep::More
        } else if is_cont(buf[i + 1]) {
            HeadStep::Take(2)
        } else {
            HeadStep::Bad(1)
        }
    } else if 0xe0 <= b0 && b0 <= 0xef {
        let second_ok = rem >= 2 && {
            let b1 = buf[i + 1];
            if b0 == 0xe0 {
                0xa0 <= b1 && b1 <= 0xbf
            } else if b0 == 0xed {
                0x80 <= b1 && b1 <= 0x9f
            } else {
                is_cont(b1)
            }
        };
        if rem >= 2 && !second_ok {
            HeadStep::Bad(1)
        } else if rem < 3 {
            HeadStep::More
        } else if is_cont(buf[i + 2]) {
            HeadStep::Take(3)
        } else {
            HeadStep::Bad(2)
        }
    } else if 0xf0 <= b0 && b0 <= 0xf4 {
        let second_ok = rem >= 2 && {
            let b1 = buf[i + 1];
            if b0 == 0xf0 {
                0x90 <= b1 && b1 <= 0xbf
            } else if b0 == 0xf4 {
                0x80 <= b1 && b1 <= 0x8f
            } else {
                is_cont(b1)
            }
        };
        if rem >= 2 && !second_ok {
            HeadStep::Bad(1)
        } else if rem >= 3 && !is_cont(buf[i + 2]) {
            HeadStep::Bad(2)
        } else if rem < 4 {
            HeadStep::More
        } else if is_cont(buf[i + 3]) {
            HeadStep::Take(4)
        } else {
            HeadStep::Bad(3)
        }
    } else {
        HeadStep::Bad(1)
    }
}

/// Per-session accumulator for bytes that could not be decoded yet: at most
/// one incomplete scalar encoding, kept between reads.
pub struct StreamDecoder {
    pending: Vec<u8>,
}

impl View for StreamDecoder {
    type V = Seq<u8>;

    closed spec fn view(&self) -> Seq<u8> {
        self.pending@
    }
}

impl StreamDecoder {
    /// The decoder never holds decodable bytes back: its buffer is empty or
    /// one incomplete scalar encoding.
    pub open spec fn wf(&self) -> bool {
        pending_ok(self@)
    }

    /// A fresh decoder with nothing buffered.
    pub fn new() -> (d: StreamDecoder)
        ensures
            d@ == Seq::<u8>::empty(),
            d.wf(),
    {
        StreamDecoder { pending: Vec::new() }
    }

    /// Decodes one read's worth of bytes. Returns every byte that the
    /// buffered tail extended by `input` now determines — decoded spans
    /// unchanged, each definitely-invalid span as one replacement marker —
    /// and keeps exactly the new incomplete tail.
    pub fn feed(&mut self, input: &[u8]) -> (out: Vec<u8>)
        requires
            old(self).wf(),
        ensures
            final(self).wf(),
            out@ == drain(old(self)@ + input@).0,
            final(self)@ == drain(old(self)@ + input@).1,
            valid_utf8(out@),
    {
        let mut j: usize = 0;
        while j < input.len()
            invariant
                j <= input@.len(),
                self.pending@ == old(self)@ + input@.take(j as int),
            decreases input@.len() - j,
        {
            self.pending.push(input[j]);
            proof {
                assert(old(self)@ + input@.take(j as int) + seq![input@[j as int]] =~= old(self)@
                    + input@.take(j as int + 1));
            }
            j = j + 1;
        }
        proof {
            assert(old(self)@ + input@.take(input@.len() as int) =~= old(self)@ + input@);
        }
        let ghost full: Seq<u8> = self.pending@;
        proof {
            lemma_drain_valid(full);
        }
        let buf_len = self.pending.len();
        let mut out: Vec<u8> = Vec::new();
        let mut i: usize = 0;
        let mut stop = false;
        proof {
            assert(full.skip(0int) =~= full);
            assert(out@ + drain(full).0 =~= drain(full).0);
        }
        while !stop
            invariant
                i <= buf_len,
                buf_len == full.len(),
                self.pending@ == full,
                drain(full).0 == out@ + drain(full.skip(i as int)).0,
                drain(full).1 == drain(full.skip(i as int)).1,
                valid_utf8(out@),
                stop ==> (head_shape(full.skip(i as int)) is Incomplete || full.skip(
                    i as int,
                ).len() == 0),
            decreases full.len() - i + (if stop {
                0int
            } else {
                1int
            }),
        {
            match classify_at(&self.pending, i) {
                HeadStep::Take(n) => {
                    let ghost s = full.skip(i as int);
                    proof {
                        lemma_take_head_valid(s);
                        assert(s.take(n as int) =~= full.subrange(i as int, i as int + n as int));
                        assert(s.skip(n as int) =~= full.skip(i as int + n as int));
                        valid_utf8_concat(out@, s.take(n as int));
                    }
                    let ghost out0 = out@;
                    let mut k: usize = 0;
                    while k < n
                        invariant
                            k <= n,
                            i + n <= buf_len,
                            buf_len == full.len(),
                            self.pending@ == full,
                            out@ == out0 + full.subrange(i as int, i as int + k as int),
                        decreases n - k,
                    {
                        out.push(self.pending[i + k]);
                        proof {
                            assert(out@ =~= out0 + full.subrange(i as int, i as int + k as int + 1));
                        }
                        k = k + 1;
                    }
                    proof {
                        assert(out@ =~= out0 + s.take(n as int));
                        assert(out@ + drain(full.skip(i as int + n as int)).0 =~= out0 + drain(
                            s,
                        ).0);
                    }
                    i = i + n;
                },
                HeadStep::Bad(n) => {
                    let ghost s = full.skip(i as int);
                    let ghost out0 = out@;
                    proof {
                        lemma_replacement_valid();
                        assert(s.skip(n as int) =~= full.skip(i as int + n as int));
                        valid_utf8_concat(out@, replacement());
                    }
                    out.push(0xef);
                    out.push(0xbf);
                    out.push(0xbd);
                    proof {
                        assert(out@ =~= out0 + replacement());
                        assert(out@ + drain(full.skip(i as int + n as int)).0 =~= out0 + drain(
                            s,
                        ).0);
                    }
                    i = i + n;
                },
                HeadStep::More => {
                    stop = true;
                },
                HeadStep::End => {
                    stop = true;
                },
            }
        }
        let tail = self.pending.split_off(i);
        self.pending = tail;
        proof {
            assert(self.pending@ =~= full.skip(i as int));
            if full.skip(i as int).len() == 0 {
                assert(drain(full.skip(i as int)).0 =~= Seq::<u8>::empty());
                assert(out@ =~= drain(full).0);
            } else {
                assert(out@ =~= drain(full).0);
            }
        }
        out
    }

    /// Surrenders the buffer at end of stream: an incomplete tail is never
    /// silently discarded but reported as one replacement marker.
    pub fn flush(&mut self) -> (out: Vec<u8>)
        requires
            old(self).wf(),
        ensures
            final(self)@ == Seq::<u8>::empty(),
            final(self).wf(),
            out@ == if old(self)@.len() == 0 {
                Seq::<u8>::empty()
            } else {
                replacement()
            },
            valid_utf8(out@),
    {
        let mut out: Vec<u8> = Vec::new();
        if self.pending.len() > 0 {
            out.push(0xef);
            out.push(0xbf);
            out.push(0xbd);
            proof {
                lemma_replacement_valid();
                assert(out@ =~= replacement());
            }
        }
        self.pending.clear();
        out
    }
}

/// Turns verified-valid UTF-8 bytes into the `String` they encode.
///
/// Relies on `String::from_utf8`: on bytes that are valid UTF-8 it returns
/// `Ok` with the string whose byte representation is exactly those bytes.
#[verifier::external_body]
pub(crate) fn into_text(bytes: Vec<u8>) -> (r: String)
    requires
        valid_utf8(bytes@),
    ensures
        r@ == decode_utf8(bytes@),
{
    String::from_utf8(bytes).unwrap_or_default()
}

/// Law: a three-byte character split as two bytes and then one across two
/// reads is withheld at the first read and comes out whole, as exactly the
/// one scalar's bytes, at the second — never split, never corrupted.
pub proof fn lemma_split_three_byte_scalar(b0: u8, b1: u8, b2: u8)
    requires
        head_shape(seq![b0, b1, b2]) == HeadShape::Scalar(3),
    ensures
        drain(seq![b0, b1]).0 == Seq::<u8>::empty(),
        drain(seq![b0, b1]).1 == seq![b0, b1],
        drain(seq![b0, b1] + seq![b2]).0 == seq![b0, b1, b2],
        drain(seq![b0, b1] + seq![b2]).1 == Seq::<u8>::empty(),
        valid_utf8(seq![b0, b1, b2]),
        decode_utf8(seq![b0, b1, b2]).len() == 1,
{
    let s3 = seq![b0, b1, b2];
    let s2 = seq![b0, b1];
    assert(head_shape(s2) is Incomplete);
    assert(s2 + seq![b2] =~= s3);
    lemma_take_head_valid(s3);
    assert(s3.take(3) =~= s3);
    assert(s3.skip(3) =~= Seq::<u8>::empty());
    assert(drain(Seq::<u8>::empty()) == (Seq::<u8>::empty(), Seq::<u8>::empty()));
    assert(drain(s3).0 =~= s3);
    lemma_head_scalar_valid(s3);
    assert(vstd::utf8::pop_first_scalar(s3) =~= Seq::<u8>::empty());
    assert(decode_utf8(Seq::<u8>::empty()) =~= Seq::<char>::empty());
    assert(decode_utf8(s3).len() == 1);
}

/// Law: a byte that cannot begin a character, followed in the same read by
/// ASCII text, yields one replacement marker and then that text, in order —
/// no byte is dropped.
pub proof fn lemma_invalid_byte_then_ascii(x: u8, t: Seq<u8>)
    requires
        x >= 0x80,
        t.len() > 0,
        forall|i: int| 0 <= i < t.len() ==> t[i] < 0x80,
    ensures
        drain(seq![x] + t).0 == replacement() + t,
        drain(seq![x] + t).1 == Seq::<u8>::empty(),
{
    let s = seq![x] + t;
    assert(s[0] == x && s[1] == t[0]);
    assert(!is_continuation_byte(s[1]));
    assert(!valid_second_byte_3(x, s[1]));
    assert(!valid_second_byte_4(x, s[1]));
    assert(head_shape(s) == HeadShape::Invalid(1));
    assert(s.skip(1) =~= t);
    lemma_drain_ascii(t);
}

} // verus!
