//! Per-connection handler logic: the read/forward/disconnect state machine.

use crate::registry::contains_addr;
use crate::registry::PeerAddr;
use vstd::prelude::*;
use vstd::utf8::decode_utf8;
use vstd::utf8::valid_utf8;

verus! {

/// Which of the two relay variants a handler runs.
#[derive(Clone, Copy, Debug, PartialEq, Eq, Structural)]
pub enum HandlerMode {
    /// Received chunks are forwarded verbatim to every registered client.
    Broadcast,
    /// Received chunks are only logged; nothing is ever written back.
    LogOnly,
}

/// The diagnostic record for one received chunk: the raw bytes verbatim, and
/// a best-effort textual decode. A failed decode is not an error; the raw
/// bytes are logged either way.
pub struct ChunkLog {
    pub raw: Vec<u8>,
    pub decoded: Option<String>,
}

/// Relies on `String::from_utf8`: it returns the bytes as a string exactly
/// when they are valid UTF-8, and fails otherwise.
#[verifier::external_body]
fn decode_chunk_text(bytes: &Vec<u8>) -> (r: Option<String>)
    ensures
        r is Some <==> valid_utf8(bytes@),
        r matches Some(s) ==> s@ == decode_utf8(bytes@),
{
    String::from_utf8(bytes.clone()).ok()
}

/// Builds the diagnostic record for one received chunk: the raw bytes are
/// kept verbatim, and the decode succeeds exactly when the bytes are valid
/// UTF-8.
pub fn chunk_log(bytes: &Vec<u8>) -> (r: ChunkLog)
    ensures
        r.raw@ == bytes@,
        r.decoded is Some <==> valid_utf8(bytes@),
        r.decoded matches Some(s) ==> s@ == decode_utf8(bytes@),
{
    ChunkLog { raw: bytes.clone(), decoded: decode_chunk_text(bytes) }
}

/// What one bounded-size read yields, as the handler sees it: the bytes that
/// arrived when `n` of them were read into `buffer`, or `None` when the peer
/// closed its write side (a zero-byte read).
pub open spec fn read_outcome(buffer: Seq<u8>, n: int) -> Option<Seq<u8>> {
    if n == 0 {
        None
    } else {
        Some(buffer.subrange(0, n))
    }
}

/// Turns one bounded-size read into the handler's event: `None` for a
/// zero-byte read (the peer closed its write side), otherwise the `n` bytes
/// that arrived. A zero-length read is a disconnect, never an empty chunk.
pub fn chunk_from_read(buffer: &[u8], n: usize) -> (r: Option<Vec<u8>>)
    requires
        n <= buffer@.len(),
    ensures
        match r {
            Some(c) => Some(c@) == read_outcome(buffer@, n as int),
            None => read_outcome(buffer@, n as int) is None,
        },
        r is None <==> n == 0,
{
    if n == 0 {
        None
    } else {
        let mut chunk: Vec<u8> = Vec::new();
        let mut i: usize = 0;
        while i < n
            invariant
                i <= n,
                n <= buffer@.len(),
                chunk@ == buffer@.subrange(0, i as int),
            decreases n - i,
        {
            chunk.push(buffer[i]);
            proof {
                assert(chunk@ =~= buffer@.subrange(0, i + 1));
            }
            i = i + 1;
        }
        Some(chunk)
    }
}

/// What one turn of the handler loop decides.
pub struct StepOutcome {
    /// True exactly once, on read-stream-closed: the loop then exits.
    pub disconnected: bool,
    /// The diagnostic record to log, present for every received chunk.
    pub log: Option<ChunkLog>,
    /// The chunk to broadcast verbatim, present only in broadcast mode.
    pub forward: Option<Vec<u8>>,
}

/// One turn of the handler loop, deciding on one read result: a chunk is
/// logged and — in broadcast mode only — forwarded unmodified; a closed
/// stream (zero-byte read) disconnects, with nothing logged or forwarded.
pub fn handle_read(read: &Option<Vec<u8>>, mode: HandlerMode) -> (r: StepOutcome)
    ensures
        read is None ==> r.disconnected && r.log is None && r.forward is None,
        read matches Some(c) ==> {
            &&& !r.disconnected
            &&& r.log matches Some(l) && l.raw@ == c@ && (l.decoded is Some <==> valid_utf8(c@))
                && (l.decoded matches Some(s) ==> s@ == decode_utf8(c@))
            &&& mode is Broadcast ==> (r.forward matches Some(f) && f@ == c@)
            &&& mode is LogOnly ==> r.forward is None
        },
{
    match read {
        Some(chunk) => StepOutcome {
            disconnected: false,
            log: Some(chunk_log(chunk)),
            forward: match mode {
                HandlerMode::Broadcast => Some(chunk.clone()),
                HandlerMode::LogOnly => None,
            },
        },
        None => StepOutcome { disconnected: true, log: None, forward: None },
    }
}

/// What one connection's handler loop produced by the time it terminated.
pub struct SessionOutcome {
    /// The chunks that were fanned out, verbatim and in order.
    pub forwards: Vec<Vec<u8>>,
    /// Whether the loop exited because the peer closed its stream.
    pub disconnected: bool,
}

/// Replays one connection's handler loop over its read results, in order:
/// each chunk is forwarded (in broadcast mode) until the first end-of-stream
/// disconnects the handler; reads after that are never consumed. The
/// disconnected flag moves false to true exactly once.
pub fn run_session(reads: &Vec<Option<Vec<u8>>>, mode: HandlerMode) -> (r: SessionOutcome)
    ensures
        r.forwards.deep_view() == session_forwards(reads.deep_view(), mode),
        r.disconnected == session_disconnects(reads.deep_view()),
{
    let ghost s = reads.deep_view();
    let mut forwards: Vec<Vec<u8>> = Vec::new();
    let mut disconnected: bool = false;
    let mut i: usize = 0;
    proof {
        assert(s.skip(0) =~= s);
        assert(forwards.deep_view() =~= Seq::<Seq<u8>>::empty());
        assert(forwards.deep_view() + session_forwards(s, mode) =~= session_forwards(s, mode));
    }
    while !disconnected && i < reads.len()
        invariant
            i <= reads@.len(),
            s == reads.deep_view(),
            s.len() == reads@.len(),
            !disconnected ==> forwards.deep_view() + session_forwards(s.skip(i as int), mode)
                == session_forwards(s, mode),
            !disconnected ==> forall|j: int| 0 <= j < i ==> s[j] is Some,
            disconnected ==> forwards.deep_view() == session_forwards(s, mode)
                && session_disconnects(s),
        decreases reads@.len() - i,
    {
        proof {
            assert(s[i as int] == reads@[i as int].deep_view());
            assert(s.skip(i as int)[0] == s[i as int]);
            assert(s.skip(i as int).drop_first() =~= s.skip(i as int + 1));
        }
        let ghost pre = forwards.deep_view();
        let outcome = handle_read(&reads[i], mode);
        match outcome.forward {
            Some(f) => {
                forwards.push(f);
                proof {
                    let c = reads@[i as int]->Some_0;
                    let cd = s[i as int]->Some_0;
                    let rest = session_forwards(s.skip(i as int + 1), mode);
                    assert(f.deep_view() =~= f@);
                    assert(c.deep_view() =~= c@);
                    assert(forwards.deep_view() =~= pre.push(cd));
                    assert(pre.push(cd) + rest =~= pre + (seq![cd] + rest));
                }
            },
            None => {
                proof {
                    if reads@[i as int] is Some {
                        let rest = session_forwards(s.skip(i as int + 1), mode);
                        assert(session_forwards(s.skip(i as int), mode) == rest);
                    } else {
                        assert(session_forwards(s.skip(i as int), mode)
                            == Seq::<Seq<u8>>::empty());
                        assert(pre + Seq::<Seq<u8>>::empty() =~= pre);
                        assert(s[i as int] is None);
                    }
                }
            },
        }
        disconnected = outcome.disconnected;
        i = i + 1;
    }
    proof {
        if !disconnected {
            assert(s.skip(i as int) =~= Seq::<Option<Seq<u8>>>::empty());
            assert(forwards.deep_view() + Seq::<Seq<u8>>::empty() =~= forwards.deep_view());
        }
    }
    SessionOutcome { forwards, disconnected }
}

/// The chunks a handler forwards over one connection's lifetime, given the
/// connection's read results in order: every chunk read before the stream
/// closes, verbatim and in order, in broadcast mode; nothing in log-only
/// mode.
pub open spec fn session_forwards(reads: Seq<Option<Seq<u8>>>, mode: HandlerMode) -> Seq<Seq<u8>>
    decreases reads.len(),
{
    if reads.len() == 0 {
        Seq::empty()
    } else {
        match reads[0] {
            Some(c) => {
                let rest = session_forwards(reads.drop_first(), mode);
                if mode is Broadcast {
                    seq![c] + rest
                } else {
                    rest
                }
            },
            None => Seq::empty(),
        }
    }
}

/// True when the peer closes its stream somewhere in these read results.
pub open spec fn session_disconnects(reads: Seq<Option<Seq<u8>>>) -> bool {
    exists|i: int| 0 <= i < reads.len() && reads[i] is None
}

/// The byte stream the peer sent before closing: the concatenation of every
/// chunk read before the first end-of-stream.
pub open spec fn sender_stream(reads: Seq<Option<Seq<u8>>>) -> Seq<u8>
    decreases reads.len(),
{
    if reads.len() == 0 {
        Seq::empty()
    } else {
        match reads[0] {
            Some(c) => c + sender_stream(reads.drop_first()),
            None => Seq::empty(),
        }
    }
}

/// The concatenation of a sequence of chunks.
pub open spec fn concat_chunks(chunks: Seq<Seq<u8>>) -> Seq<u8>
    decreases chunks.len(),
{
    if chunks.len() == 0 {
        Seq::empty()
    } else {
        chunks[0] + concat_chunks(chunks.drop_first())
    }
}

/// Stream reconstruction under broadcast: the chunks a handler fans out
/// concatenate to exactly the byte stream its peer sent before closing —
/// chunk boundaries may differ from the sender's writes, the bytes never do.
pub proof fn lemma_broadcast_reconstructs_stream(reads: Seq<Option<Seq<u8>>>)
    ensures
        concat_chunks(session_forwards(reads, HandlerMode::Broadcast)) == sender_stream(reads),
    decreases reads.len(),
{
    if reads.len() > 0 {
        match reads[0] {
            Some(c) => {
                lemma_broadcast_reconstructs_stream(reads.drop_first());
                let rest = session_forwards(reads.drop_first(), HandlerMode::Broadcast);
                assert((seq![c] + rest).drop_first() =~= rest);
                assert((seq![c] + rest)[0] == c);
            },
            None => {},
        }
    }
}

/// Broadcast delivery: for a client connected throughout a sender's session,
/// every fan-out holds a write carrying the forwarded chunk to it verbatim,
/// and the forwarded chunks concatenate to exactly the bytes the sender sent
/// before closing — the client reconstructs the sender's stream, though its
/// chunk boundaries may differ from the sender's writes.
pub proof fn lemma_broadcast_delivers_the_stream(
    reads: Seq<Option<Seq<u8>>>,
    reg: Seq<PeerAddr>,
    plans: Seq<Seq<(PeerAddr, Seq<u8>)>>,
    b: PeerAddr,
)
    requires
        contains_addr(reg, b),
        plans.len() == session_forwards(reads, HandlerMode::Broadcast).len(),
        forall|k: int| 0 <= k < plans.len() ==> (#[trigger] plans[k]).len() == reg.len(),
        forall|k: int, i: int|
            0 <= k < plans.len() && 0 <= i < reg.len() ==> #[trigger] plans[k][i] == (
                reg[i],
                session_forwards(reads, HandlerMode::Broadcast)[k],
            ),
    ensures
        forall|k: int, i: int|
            0 <= k < plans.len() && 0 <= i < reg.len() && reg[i] == b ==> #[trigger] plans[k][i]
                == (b, session_forwards(reads, HandlerMode::Broadcast)[k]),
        concat_chunks(session_forwards(reads, HandlerMode::Broadcast)) == sender_stream(reads),
{
    lemma_broadcast_reconstructs_stream(reads);
}

/// In the log-only variant no bytes are ever written back to any client:
/// whatever a peer sends, its handler forwards nothing.
pub proof fn lemma_log_only_forwards_nothing(reads: Seq<Option<Seq<u8>>>)
    ensures
        session_forwards(reads, HandlerMode::LogOnly) == Seq::<Seq<u8>>::empty(),
    decreases reads.len(),
{
    if reads.len() > 0 {
        lemma_log_only_forwards_nothing(reads.drop_first());
    }
}

/// A zero-length read disconnects instead of forwarding an empty chunk: when
/// every chunk that was actually read carries at least one byte — which
/// `chunk_from_read` guarantees, a zero-byte read becoming `None` — no
/// forwarded chunk is ever empty, in either mode.
pub proof fn lemma_no_empty_chunk_forwarded(reads: Seq<Option<Seq<u8>>>, mode: HandlerMode)
    requires
        forall|i: int|
            0 <= i < reads.len() ==> (#[trigger] reads[i] matches Some(c) ==> c.len() > 0),
    ensures
        forall|k: int|
            0 <= k < session_forwards(reads, mode).len() ==> #[trigger] session_forwards(
                reads,
                mode,
            )[k].len() > 0,
    decreases reads.len(),
{
    if reads.len() > 0 {
        assert(forall|i: int|
            0 <= i < reads.drop_first().len() ==> (#[trigger] reads.drop_first()[i] matches Some(c)
                ==> c.len() > 0)) by {
            assert(forall|i: int|
                0 <= i < reads.drop_first().len() ==> #[trigger] reads.drop_first()[i] == reads[i
                    + 1]);
        }
        lemma_no_empty_chunk_forwarded(reads.drop_first(), mode);
        match reads[0] {
            Some(c) => {
                let rest = session_forwards(reads.drop_first(), mode);
                if mode is Broadcast {
                    assert(reads[0] matches Some(c0) ==> c0.len() > 0);
                    assert(forall|k: int|
                        0 <= k < (seq![c] + rest).len() ==> #[trigger] (seq![c] + rest)[k] == if k
                            == 0 {
                            c
                        } else {
                            rest[k - 1]
                        });
                }
            },
            None => {},
        }
    }
}

} // verus!
