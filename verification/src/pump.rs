//! The output pump: the per-session worker that turns the raw byte stream
//! read from a PTY into ordered text events and a final exit event.
//!
//! The blocking read itself is the owner's job; the pump is the verified
//! state machine driven by read outcomes. It decodes every chunk through
//! [`crate::decode::StreamDecoder`], emits at most one text event per read,
//! and after the first end-of-stream or read error emits nothing further —
//! its driver observes exactly one exit per pump lifetime.

use crate::decode::{drain, into_text, replacement, StreamDecoder};
use vstd::prelude::*;
use vstd::utf8::decode_utf8;

verus! {

/// The outcome of one blocking read from the PTY's read handle.
pub enum ReadOutcome {
    Data(Vec<u8>),
    Eof,
    Failed,
}

/// The payload a read outcome delivers: its bytes for a data read, nothing
/// for end-of-stream or a read error.
pub open spec fn data_of(r: ReadOutcome) -> Seq<u8> {
    match r {
        ReadOutcome::Data(d) => d@,
        _ => Seq::empty(),
    }
}

/// The text chunks a pump emits over a whole run: each data read, taken in
/// order, contributes the bytes its arrival lets the decoder resolve; the
/// first terminal outcome (or the stream simply stopping) contributes the
/// flush of the leftover tail.
pub open spec fn run_chunks(pending: Seq<u8>, reads: Seq<ReadOutcome>) -> Seq<Seq<u8>>
    decreases reads.len(),
{
    if reads.len() == 0 || !(reads[0] is Data) {
        if pending.len() == 0 {
            seq![]
        } else {
            seq![replacement()]
        }
    } else {
        let merged = pending + data_of(reads[0]);
        let o = drain(merged).0;
        let tail = run_chunks(drain(merged).1, reads.drop_first());
        if o.len() == 0 {
            tail
        } else {
            seq![o] + tail
        }
    }
}

/// What one read outcome makes the pump do: publish a text event, and/or
/// publish the terminal exit event.
pub struct PumpStep {
    pub text: Option<String>,
    pub exit: bool,
}

/// An event as published to the session's sink.
pub enum PumpEvent {
    Output(String),
    Exit,
}

/// The decoding state of one session's pump.
pub struct OutputPump {
    decoder: StreamDecoder,
    finished: bool,
}

impl OutputPump {
    /// Bytes withheld from the last read because they may still complete a
    /// character.
    pub closed spec fn buffered(&self) -> Seq<u8> {
        self.decoder@
    }

    /// True once the exit event has been produced; a finished pump takes no
    /// further reads.
    pub closed spec fn done(&self) -> bool {
        self.finished
    }

    /// The buffer never holds decodable bytes back.
    pub closed spec fn wf(&self) -> bool {
        self.decoder.wf()
    }

    /// A pump for a fresh session: nothing buffered, exit not yet produced.
    pub fn new() -> (p: OutputPump)
        ensures
            p.buffered() == Seq::<u8>::empty(),
            !p.done(),
            p.wf(),
    {
        OutputPump { decoder: StreamDecoder::new(), finished: false }
    }

    /// Advances the pump by one read. Data is decoded and emitted in byte
    /// order, one event per read; end-of-stream and read errors both flush
    /// the remaining tail (as a replacement marker, never silently) and
    /// produce the exit signal — which therefore occurs exactly once, on the
    /// first terminal read.
    pub fn on_read(&mut self, r: &ReadOutcome) -> (step: PumpStep)
        requires
            old(self).wf(),
            !old(self).done(),
        ensures
            final(self).wf(),
            step.exit == !(r is Data),
            final(self).done() == step.exit,
            r is Data ==> ({
                let o = drain(old(self).buffered() + data_of(*r)).0;
                &&& final(self).buffered() == drain(old(self).buffered() + data_of(*r)).1
                &&& (o.len() == 0 ==> step.text is None)
                &&& (o.len() > 0 ==> (step.text matches Some(t) && t@ == decode_utf8(o)))
            }),
            !(r is Data) ==> ({
                &&& final(self).buffered().len() == 0
                &&& (old(self).buffered().len() == 0 ==> step.text is None)
                &&& (old(self).buffered().len() > 0 ==> (step.text matches Some(t) && t@
                    == decode_utf8(replacement())))
            }),
    {
        match r {
            ReadOutcome::Data(d) => {
                let out = self.decoder.feed(d.as_slice());
                let text = if out.len() == 0 {
                    None
                } else {
                    Some(into_text(out))
                };
                PumpStep { text, exit: false }
            },
            _ => {
                let out = self.decoder.flush();
                self.finished = true;
                let text = if out.len() == 0 {
                    None
                } else {
                    proof {
                        crate::decode::lemma_replacement_valid();
                    }
                    Some(into_text(out))
                };
                PumpStep { text, exit: true }
            },
        }
    }
}

/// Runs a whole pump lifetime over a recorded sequence of read outcomes:
/// reads are consumed in order up to and including the first end-of-stream
/// or error (a stream that simply stops is treated as end-of-stream).
///
/// Law: however the child terminates — clean end of stream, a read error, or
/// the stream just stopping — the events are the decoded text chunks in byte
/// order followed by exactly one exit event, always last, never repeated.
pub fn pump_run(reads: &Vec<ReadOutcome>) -> (events: Vec<PumpEvent>)
    ensures
        ({
            let chunks = run_chunks(Seq::<u8>::empty(), reads@);
            &&& events@.len() == chunks.len() + 1
            &&& (forall|j: int|
                0 <= j < chunks.len() ==> (#[trigger] events@[j] matches PumpEvent::Output(t) && t@
                    == decode_utf8(chunks[j])))
            &&& events@[chunks.len() as int] is Exit
        }),
{
    let mut pump = OutputPump::new();
    proof {
        assert(reads@.skip(0int) =~= reads@);
    }
    pump_run_from(&mut pump, reads, 0)
}

fn pump_run_from(pump: &mut OutputPump, reads: &Vec<ReadOutcome>, k: usize) -> (events: Vec<
    PumpEvent,
>)
    requires
        old(pump).wf(),
        !old(pump).done(),
        k <= reads@.len(),
    ensures
        ({
            let chunks = run_chunks(old(pump).buffered(), reads@.skip(k as int));
            &&& events@.len() == chunks.len() + 1
            &&& (forall|j: int|
                0 <= j < chunks.len() ==> (#[trigger] events@[j] matches PumpEvent::Output(t) && t@
                    == decode_utf8(chunks[j])))
            &&& events@[chunks.len() as int] is Exit
        }),
    decreases reads@.len() - k,
{
    let ghost chunks = run_chunks(old(pump).buffered(), reads@.skip(k as int));
    let terminal = k == reads.len() || !(matches!(&reads[k], ReadOutcome::Data(_)));
    if terminal {
        let step = if k == reads.len() {
            pump.on_read(&ReadOutcome::Eof)
        } else {
            pump.on_read(&reads[k])
        };
        let mut events: Vec<PumpEvent> = Vec::new();
        match step.text {
            Some(t) => {
                events.push(PumpEvent::Output(t));
            },
            None => {},
        }
        events.push(PumpEvent::Exit);
        proof {
            if old(pump).buffered().len() == 0 {
                assert(chunks =~= Seq::<Seq<u8>>::empty());
            } else {
                assert(chunks =~= seq![replacement()]);
            }
        }
        events
    } else {
        let step = pump.on_read(&reads[k]);
        let ghost merged = old(pump).buffered() + data_of(reads@[k as int]);
        let mut rest = pump_run_from(pump, reads, k + 1);
        proof {
            assert(reads@.skip(k as int).drop_first() =~= reads@.skip(k as int + 1));
            assert(reads@.skip(k as int)[0] == reads@[k as int]);
        }
        let ghost tail_chunks = run_chunks(drain(merged).1, reads@.skip(k as int + 1));
        let mut events: Vec<PumpEvent> = Vec::new();
        match step.text {
            Some(t) => {
                events.push(PumpEvent::Output(t));
                proof {
                    assert(chunks =~= seq![drain(merged).0] + tail_chunks);
                }
            },
            None => {
                proof {
                    assert(chunks =~= tail_chunks);
                }
            },
        }
        let ghost head_count: int = events@.len() as int;
        let ghost rest0 = rest@;
        events.append(&mut rest);
        proof {
            assert(chunks.len() == head_count + tail_chunks.len());
            assert forall|j: int| 0 <= j < chunks.len() implies (#[trigger] events@[j] matches
                PumpEvent::Output(t) && t@ == decode_utf8(chunks[j])) by {
                if j >= head_count {
                    assert(events@[j] == rest0[j - head_count]);
                    assert(chunks[j] == tail_chunks[j - head_count]);
                }
            }
            assert(events@[chunks.len() as int] == rest0[tail_chunks.len() as int]);
        }
        events
    }
}

/// The bytes the process wrote before the stream ended: the payloads of the
/// data reads up to the first terminal outcome, in order.
pub open spec fn taken_input(reads: Seq<ReadOutcome>) -> Seq<u8>
    decreases reads.len(),
{
    if reads.len() == 0 || !(reads[0] is Data) {
        Seq::empty()
    } else {
        data_of(reads[0]) + taken_input(reads.drop_first())
    }
}

/// Law: over a whole pump run, the concatenation of all emitted text chunks
/// is exactly the lossy decoding of every byte the process produced before
/// the stream ended — no byte lost, none duplicated, order preserved,
/// however the reads were chunked.
pub proof fn lemma_run_is_lossy_decoding(pending: Seq<u8>, reads: Seq<ReadOutcome>)
    requires
        crate::decode::pending_ok(pending),
    ensures
        run_chunks(pending, reads).flatten() == crate::decode::lossy(pending + taken_input(reads)),
    decreases reads.len(),
{
    if reads.len() == 0 || !(reads[0] is Data) {
        assert(pending + Seq::<u8>::empty() =~= pending);
        if pending.len() == 0 {
            assert(run_chunks(pending, reads).flatten() =~= Seq::<u8>::empty());
            assert(crate::decode::lossy(pending) =~= Seq::<u8>::empty());
        } else {
            let chunks = seq![replacement()];
            assert(chunks.drop_first() =~= Seq::<Seq<u8>>::empty());
            assert(Seq::<Seq<u8>>::empty().flatten() =~= Seq::<u8>::empty());
            assert(chunks.flatten() =~= replacement());
            assert(crate::decode::lossy(pending) =~= replacement());
        }
    } else {
        let d = data_of(reads[0]);
        let merged = pending + d;
        let rest = reads.drop_first();
        let t = taken_input(rest);
        let o = drain(merged).0;
        let keep = drain(merged).1;
        crate::decode::lemma_drain_valid(merged);
        lemma_run_is_lossy_decoding(keep, rest);
        crate::decode::lemma_drain_compose(merged, t);
        assert(pending + taken_input(reads) =~= merged + t);
        let tail = run_chunks(keep, rest);
        if o.len() == 0 {
            assert(run_chunks(pending, reads) == tail);
            assert(o + tail.flatten() =~= tail.flatten());
            assert(drain(merged + t).0 =~= drain(keep + t).0);
            assert(drain(merged + t).1 == drain(keep + t).1);
            assert(crate::decode::lossy(merged + t) =~= crate::decode::lossy(keep + t));
        } else {
            let chunks = seq![o] + tail;
            assert(run_chunks(pending, reads) == chunks);
            assert(chunks.drop_first() =~= tail);
            assert(chunks[0] == o);
            assert(chunks.flatten() =~= o + tail.flatten());
            assert(drain(merged + t).0 =~= o + drain(keep + t).0);
            assert(drain(merged + t).1 == drain(keep + t).1);
            assert(crate::decode::lossy(merged + t) =~= o + crate::decode::lossy(keep + t));
        }
    }
}

/// Law: a three-byte character split as two bytes then one across two
/// separate reads produces exactly one output event, containing the
/// complete character — never two events, never corruption.
pub proof fn lemma_split_char_one_event(a: Vec<u8>, b: Vec<u8>)
    requires
        a@.len() == 2,
        b@.len() == 1,
        crate::decode::head_shape(a@ + b@) == crate::decode::HeadShape::Scalar(3),
    ensures
        run_chunks(
            Seq::<u8>::empty(),
            seq![ReadOutcome::Data(a), ReadOutcome::Data(b), ReadOutcome::Eof],
        ) == seq![a@ + b@],
{
    let reads = seq![ReadOutcome::Data(a), ReadOutcome::Data(b), ReadOutcome::Eof];
    assert(a@ + b@ =~= seq![a@[0], a@[1], b@[0]]);
    assert(a@ =~= seq![a@[0], a@[1]]);
    assert(b@ =~= seq![b@[0]]);
    crate::decode::lemma_split_three_byte_scalar(a@[0], a@[1], b@[0]);
    assert(Seq::<u8>::empty() + a@ =~= a@);
    assert(reads.drop_first() =~= seq![ReadOutcome::Data(b), ReadOutcome::Eof]);
    assert(reads.drop_first().drop_first() =~= seq![ReadOutcome::Eof]);
    assert(run_chunks(Seq::<u8>::empty(), seq![ReadOutcome::Eof]) =~= Seq::<Seq<u8>>::empty());
    assert(drain(a@ + b@).0 =~= a@ + b@);
    assert(drain(a@ + b@).1 =~= Seq::<u8>::empty());
    assert(run_chunks(a@, seq![ReadOutcome::Data(b), ReadOutcome::Eof]) =~= seq![a@ + b@]);
    assert(run_chunks(Seq::<u8>::empty(), reads) =~= seq![a@ + b@]);
}

/// Law: a single byte that can begin no character, followed immediately by
/// ASCII text in the same read, produces one output event containing a
/// replacement marker for the invalid byte followed by that text — no byte
/// is silently dropped.
pub proof fn lemma_invalid_byte_one_event(d: Vec<u8>)
    requires
        d@.len() > 1,
        d@[0] >= 0x80,
        forall|i: int| 1 <= i < d@.len() ==> d@[i] < 0x80,
    ensures
        run_chunks(Seq::<u8>::empty(), seq![ReadOutcome::Data(d), ReadOutcome::Eof]) == seq![
            replacement() + d@.skip(1),
        ],
{
    let reads = seq![ReadOutcome::Data(d), ReadOutcome::Eof];
    let t = d@.skip(1);
    assert(seq![d@[0]] + t =~= d@);
    crate::decode::lemma_invalid_byte_then_ascii(d@[0], t);
    assert(Seq::<u8>::empty() + d@ =~= d@);
    assert(reads.drop_first() =~= seq![ReadOutcome::Eof]);
    assert(run_chunks(Seq::<u8>::empty(), seq![ReadOutcome::Eof]) =~= Seq::<Seq<u8>>::empty());
    assert(run_chunks(Seq::<u8>::empty(), reads) =~= seq![replacement() + t]);
}

/// Law: output events appear in the order the process produced the bytes —
/// two ASCII payloads arriving in two reads come out as two events, first
/// payload first, then the exit event.
pub proof fn lemma_reads_emitted_in_order(a: Vec<u8>, b: Vec<u8>)
    requires
        a@.len() > 0,
        b@.len() > 0,
        forall|i: int| 0 <= i < a@.len() ==> a@[i] < 0x80,
        forall|i: int| 0 <= i < b@.len() ==> b@[i] < 0x80,
    ensures
        run_chunks(
            Seq::<u8>::empty(),
            seq![ReadOutcome::Data(a), ReadOutcome::Data(b), ReadOutcome::Eof],
        ) == seq![a@, b@],
{
    let reads = seq![ReadOutcome::Data(a), ReadOutcome::Data(b), ReadOutcome::Eof];
    crate::decode::lemma_drain_ascii(a@);
    crate::decode::lemma_drain_ascii(b@);
    assert(Seq::<u8>::empty() + a@ =~= a@);
    assert(reads.drop_first() =~= seq![ReadOutcome::Data(b), ReadOutcome::Eof]);
    assert(Seq::<u8>::empty() + b@ =~= b@);
    assert(reads.drop_first().drop_first() =~= seq![ReadOutcome::Eof]);
    assert(run_chunks(Seq::<u8>::empty(), seq![ReadOutcome::Eof]) =~= Seq::<Seq<u8>>::empty());
    assert(run_chunks(Seq::<u8>::empty(), reads.drop_first()) =~= seq![b@]);
    assert(run_chunks(Seq::<u8>::empty(), reads) =~= seq![a@, b@]);
}

} // verus!
