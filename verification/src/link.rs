//! The reading side of an open serial port.

use vstd::prelude::*;

use crate::lines::{after_bytes, after_chunks, law_chunks_as_one_stream, open_line, Received};

verus! {

/// How long a port read blocks before it times out, in milliseconds. Short enough that the
/// reader notices a disconnect promptly; long enough not to busy-spin.
pub const READ_TIMEOUT_MS: u64 = 100;

/// Size of the buffer that the reader reads into.
pub const READ_BUF: usize = 1024;

/// What came of a read from the port.
pub enum ReadOutcome {
    /// These bytes came; none at all means that the device was closed.
    Bytes(Vec<u8>),
    /// No data yet.
    TimedOut,
    /// Any other error, typically a disconnect.
    Failed,
}

/// What the reader does next.
pub enum ReaderAction {
    /// Hand the chunk on.
    Forward(Vec<u8>),
    /// Read again.
    ReadAgain,
    /// End quietly.
    Stop,
    /// Report the error of the read, and end.
    ReportAndStop,
}

/// What a read means for the reader.
pub open spec fn reader_action(outcome: ReadOutcome) -> ReaderAction {
    match outcome {
        ReadOutcome::Bytes(chunk) => if chunk@.len() == 0 {
            ReaderAction::Stop
        } else {
            ReaderAction::Forward(chunk)
        },
        ReadOutcome::TimedOut => ReaderAction::ReadAgain,
        ReadOutcome::Failed => ReaderAction::ReportAndStop,
    }
}

/// The chunks that the reader hands on, for what comes of its reads, as long as the consumer
/// takes them.
pub open spec fn handed_on(outcomes: Seq<ReadOutcome>) -> Seq<Seq<u8>>
    decreases outcomes.len(),
{
    if outcomes.len() == 0 {
        Seq::empty()
    } else {
        match reader_action(outcomes.first()) {
            ReaderAction::Forward(chunk) => seq![chunk@] + handed_on(outcomes.drop_first()),
            ReaderAction::ReadAgain => handed_on(outcomes.drop_first()),
            _ => Seq::empty(),
        }
    }
}

/// The bytes that come in until the device closes or fails.
pub open spec fn stream(outcomes: Seq<ReadOutcome>) -> Seq<u8>
    decreases outcomes.len(),
{
    if outcomes.len() == 0 {
        Seq::empty()
    } else {
        match outcomes.first() {
            ReadOutcome::Bytes(chunk) => if chunk@.len() == 0 {
                Seq::empty()
            } else {
                chunk@ + stream(outcomes.drop_first())
            },
            ReadOutcome::TimedOut => stream(outcomes.drop_first()),
            ReadOutcome::Failed => Seq::empty(),
        }
    }
}

/// Decides what a read means for the reader: a chunk goes on to the consumer, a timeout is
/// normal, no bytes at all and any other error are the end.
pub fn after_read(outcome: ReadOutcome) -> (out: ReaderAction)
    ensures
        out == reader_action(outcome),
{
    match outcome {
        ReadOutcome::Bytes(chunk) => {
            if chunk.len() == 0 {
                ReaderAction::Stop
            } else {
                ReaderAction::Forward(chunk)
            }
        },
        ReadOutcome::TimedOut => ReaderAction::ReadAgain,
        ReadOutcome::Failed => ReaderAction::ReportAndStop,
    }
}

/// Decides how the reader goes on once a chunk was handed on, or could not be because the
/// consumer has hung up.
pub fn after_forward(delivered: bool) -> (out: ReaderAction)
    ensures
        if delivered {
            out is ReadAgain
        } else {
            out is Stop
        },
{
    if delivered {
        ReaderAction::ReadAgain
    } else {
        ReaderAction::Stop
    }
}

/// The reader hands on the whole stream, in its order.
proof fn lemma_whole_stream_is_handed_on(outcomes: Seq<ReadOutcome>)
    ensures
        handed_on(outcomes).flatten() == stream(outcomes),
    decreases outcomes.len(),
{
    if outcomes.len() > 0 {
        let rest = outcomes.drop_first();
        lemma_whole_stream_is_handed_on(rest);
        if let ReaderAction::Forward(chunk) = reader_action(outcomes.first()) {
            let chunks = handed_on(outcomes);
            assert(chunks.first() == chunk@);
            assert(chunks.drop_first() =~= handed_on(rest));
        }
    }
}

/// The lines that are shown are those of the stream that comes in until the device closes or
/// fails; timeouts, and where the reads happen to cut the stream, make no difference.
pub proof fn law_lines_are_those_of_the_stream(before: Received, outcomes: Seq<ReadOutcome>)
    requires
        open_line(before.partial),
    ensures
        after_chunks(before, handed_on(outcomes)) == after_bytes(before, stream(outcomes)),
{
    lemma_whole_stream_is_handed_on(outcomes);
    law_chunks_as_one_stream(before, handed_on(outcomes));
}

/// The stream of reads that bring bytes, or time out, is made of those bytes.
pub proof fn lemma_stream_of_chunks(outcomes: Seq<ReadOutcome>, chunks: Seq<Seq<u8>>)
    requires
        outcomes.len() == chunks.len(),
        forall|i: int|
            0 <= i < outcomes.len() ==> match #[trigger] outcomes[i] {
                ReadOutcome::Bytes(chunk) => chunks[i] == chunk@ && chunk@.len() > 0,
                ReadOutcome::TimedOut => chunks[i].len() == 0,
                ReadOutcome::Failed => false,
            },
    ensures
        stream(outcomes) == chunks.flatten(),
    decreases outcomes.len(),
{
    if outcomes.len() > 0 {
        let rest = outcomes.drop_first();
        let fewer = chunks.drop_first();
        assert forall|i: int| 0 <= i < rest.len() implies match #[trigger] rest[i] {
            ReadOutcome::Bytes(chunk) => fewer[i] == chunk@ && chunk@.len() > 0,
            ReadOutcome::TimedOut => fewer[i].len() == 0,
            ReadOutcome::Failed => false,
        } by {
            assert(rest[i] == outcomes[i + 1]);
        }
        lemma_stream_of_chunks(rest, fewer);
        assert(outcomes[0] == outcomes.first());
        assert(chunks[0] + fewer.flatten() =~= stream(outcomes));
    }
}

/// The reader hands on every chunk of bytes as it was read, in its order, and passes over
/// timeouts.
pub proof fn law_reader_hands_on_what_it_reads(outcomes: Seq<ReadOutcome>, chunks: Seq<Seq<u8>>)
    requires
        outcomes.len() == chunks.len(),
        forall|i: int|
            0 <= i < outcomes.len() ==> match #[trigger] outcomes[i] {
                ReadOutcome::Bytes(chunk) => chunks[i] == chunk@ && chunk@.len() > 0,
                ReadOutcome::TimedOut => chunks[i].len() == 0,
                ReadOutcome::Failed => false,
            },
    ensures
        handed_on(outcomes).flatten() == chunks.flatten(),
        forall|i: int| 0 <= i < handed_on(outcomes).len() ==> chunks.contains(
            #[trigger] handed_on(outcomes)[i],
        ),
    decreases outcomes.len(),
{
    lemma_whole_stream_is_handed_on(outcomes);
    lemma_stream_of_chunks(outcomes, chunks);
    if outcomes.len() > 0 {
        let rest = outcomes.drop_first();
        let fewer = chunks.drop_first();
        assert forall|i: int| 0 <= i < rest.len() implies match #[trigger] rest[i] {
            ReadOutcome::Bytes(chunk) => fewer[i] == chunk@ && chunk@.len() > 0,
            ReadOutcome::TimedOut => fewer[i].len() == 0,
            ReadOutcome::Failed => false,
        } by {
            assert(rest[i] == outcomes[i + 1]);
        }
        law_reader_hands_on_what_it_reads(rest, fewer);
        assert(outcomes[0] == outcomes.first());
        let all = handed_on(outcomes);
        let others = handed_on(rest);
        assert forall|i: int| 0 <= i < all.len() implies chunks.contains(#[trigger] all[i]) by {
            let k = i - (all.len() - others.len());
            if k >= 0 {
                assert(all[i] == others[k]);
                let j = choose|j: int| 0 <= j < fewer.len() && fewer[j] == others[k];
                assert(chunks[j + 1] == all[i]);
            } else {
                assert(chunks[0] == all[i]);
            }
        }
    }
}

/// The reader goes on as long as reads bring bytes or time out. It ends quietly when a read brings
/// none, and with a report when one fails; what would come after that is not handed on.
pub proof fn law_reader_ends_with_the_device(
    chunk: Vec<u8>,
    before: Seq<ReadOutcome>,
    end: ReadOutcome,
    after: Seq<ReadOutcome>,
)
    requires
        end is Failed || (end is Bytes && end->Bytes_0@.len() == 0),
    ensures
        chunk@.len() > 0 ==> reader_action(ReadOutcome::Bytes(chunk)) == ReaderAction::Forward(
            chunk,
        ),
        reader_action(ReadOutcome::TimedOut) is ReadAgain,
        end is Failed ==> reader_action(end) is ReportAndStop,
        end is Bytes ==> reader_action(end) is Stop,
        handed_on(before.push(end) + after) == handed_on(before),
    decreases before.len(),
{
    let all = before.push(end) + after;
    if before.len() == 0 {
        assert(all.first() == end);
    } else {
        let rest = before.drop_first();
        law_reader_ends_with_the_device(chunk, rest, end, after);
        assert(all.first() == before.first());
        assert(all.drop_first() =~= rest.push(end) + after);
    }
}

} // verus!
