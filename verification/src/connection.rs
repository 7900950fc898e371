//! One client connection: what to do next on it, given what has just happened.
//!
//! The connection itself performs no input or output. It is told what happened as an
//! [`Event`] and says what to do as an [`Action`]; every buffered frame is answered before
//! more bytes are asked for.

use crate::clock::Instant;
use crate::codec_laws::{frames, joined, law_outcome_is_final, leftover};
use crate::command::{
    after_request, dispatch, reply_to, request_of, served, RequestModel,
};
use crate::command_laws::replies;
use crate::model::StoreModel;
use crate::resp::{
    encode, encoding, lemma_frame_fits, parse, Outcome, ParseError, Parser, Value, ValueModel,
};
use crate::store::Store;
use std::sync::{Arc, Mutex};
use vstd::prelude::*;
use vstd::string::*;
use vstd::utf8::encode_utf8;

verus! {

/// What has just happened on a connection.
pub enum Event<'a> {
    /// The client connected.
    Opened,
    /// The bytes of the last action were sent.
    Sent,
    /// They could not be sent: the client went away.
    SendFailed,
    /// Bytes arrived. No bytes mean that the client closed its end.
    Received(&'a [u8]),
    /// Nothing could be received.
    ReceiveFailed,
}

/// The decision on what to do next, before a frame is answered.
pub enum Decision {
    /// Answer this frame.
    Answer(Value),
    /// Wait for more bytes.
    Receive,
    /// Send these bytes and close: the stream can no longer be followed.
    Refuse(Vec<u8>),
    /// Close.
    Close,
}

/// What to do next.
pub enum Action {
    /// Send these bytes.
    Send(Vec<u8>),
    /// Wait for more bytes.
    Receive,
    /// Send these bytes, whether or not that succeeds, and close.
    SendLast(Vec<u8>),
    /// Close.
    Close,
}

/// A connection as a mathematical object.
#[verifier::ext_equal]
pub struct ConnectionModel {
    /// The bytes that were received and not yet taken by a frame.
    pub buffered: Seq<u8>,
    /// Nothing more is to be done on the connection.
    pub closed: bool,
}

/// A decision as a mathematical object.
#[verifier::ext_equal]
pub enum DecisionModel {
    Answer(ValueModel),
    Receive,
    Refuse(Seq<u8>),
    Close,
}

impl Decision {
    /// The mathematical decision.
    pub open spec fn view(&self) -> DecisionModel {
        match self {
            Decision::Answer(frame) => DecisionModel::Answer(frame@),
            Decision::Receive => DecisionModel::Receive,
            Decision::Refuse(bytes) => DecisionModel::Refuse(bytes@),
            Decision::Close => DecisionModel::Close,
        }
    }
}

impl ConnectionModel {
    /// A connection on which nothing has happened yet.
    pub open spec fn fresh() -> ConnectionModel {
        ConnectionModel { buffered: Seq::empty(), closed: false }
    }

    /// The connection once it has taken note of an event.
    pub open spec fn noted(self, event: Event<'_>) -> ConnectionModel {
        match event {
            Event::Opened => self,
            Event::Sent => self,
            Event::SendFailed => ConnectionModel { closed: true, ..self },
            Event::ReceiveFailed => ConnectionModel { closed: true, ..self },
            Event::Received(bytes) => self.received(bytes@),
        }
    }

    /// The connection once bytes have arrived; no bytes mean that the client closed its end.
    pub open spec fn received(self, bytes: Seq<u8>) -> ConnectionModel {
        if bytes.len() == 0 {
            ConnectionModel { closed: true, ..self }
        } else {
            ConnectionModel { buffered: self.buffered + bytes, ..self }
        }
    }

    /// What is to be done next.
    pub open spec fn decision(self) -> DecisionModel {
        if self.closed {
            DecisionModel::Close
        } else {
            match parse(self.buffered) {
                Outcome::Frame(frame, _) => DecisionModel::Answer(frame),
                Outcome::Incomplete => DecisionModel::Receive,
                Outcome::Protocol(message) => DecisionModel::Refuse(
                    encoding(ValueModel::Error("ERR "@ + message)),
                ),
            }
        }
    }

    /// The connection once that is decided: a frame to answer is taken off, and after a
    /// refusal the connection is closed.
    pub open spec fn decided(self) -> ConnectionModel {
        if self.closed {
            self
        } else {
            match parse(self.buffered) {
                Outcome::Frame(_, used) => ConnectionModel {
                    buffered: self.buffered.skip(used as int),
                    ..self
                },
                Outcome::Incomplete => self,
                Outcome::Protocol(_) => ConnectionModel { closed: true, ..self },
            }
        }
    }

    /// The frames that are answered, in order, before anything else is decided, as long as
    /// every reply is sent.
    pub open spec fn answered(self) -> Seq<ValueModel>
        decreases self.buffered.len(),
    {
        match self.decision() {
            DecisionModel::Answer(frame) => if self.decided().buffered.len()
                < self.buffered.len() {
                seq![frame] + self.decided().answered()
            } else {
                seq![frame]
            },
            _ => Seq::empty(),
        }
    }

    /// The connection once these frames are answered.
    pub open spec fn drained(self) -> ConnectionModel
        decreases self.buffered.len(),
    {
        match self.decision() {
            DecisionModel::Answer(_) => if self.decided().buffered.len() < self.buffered.len() {
                self.decided().drained()
            } else {
                self.decided()
            },
            _ => self,
        }
    }

    /// All that is sent from now on, where `chunks` arrive one after the other whenever bytes
    /// are awaited, then the client closes its end, everything can be sent, and the frames
    /// are answered each at the next of `times`, on a store that nobody else uses meanwhile.
    pub open spec fn sent(
        self,
        store: StoreModel,
        chunks: Seq<Seq<u8>>,
        times: Seq<Instant>,
    ) -> Seq<u8>
        decreases chunks.len(), self.buffered.len(),
    {
        match self.decision() {
            DecisionModel::Answer(frame) => {
                proof {
                    lemma_frame_fits(self.buffered);
                }
                encoding(reply_to(store, request_of(frame), times[0])) + self.decided().sent(
                    after_request(store, request_of(frame), times[0]),
                    chunks,
                    times.drop_first(),
                )
            },
            DecisionModel::Receive => if chunks.len() == 0 {
                Seq::empty()
            } else {
                self.received(chunks[0]).sent(store, chunks.drop_first(), times)
            },
            DecisionModel::Refuse(bytes) => bytes,
            DecisionModel::Close => Seq::empty(),
        }
    }
}

/// The refusal that bytes which begin with no complete frame are answered with: one error
/// reply where they are at fault, nothing where they are only incomplete.
pub open spec fn refusal(rest: Seq<u8>) -> Seq<u8> {
    match parse(rest) {
        Outcome::Protocol(message) => encoding(ValueModel::Error("ERR "@ + message)),
        _ => Seq::empty(),
    }
}

/// One client connection.
pub struct Connection {
    parser: Parser,
    closed: bool,
}

impl View for Connection {
    type V = ConnectionModel;

    closed spec fn view(&self) -> ConnectionModel {
        ConnectionModel { buffered: self.parser@, closed: self.closed }
    }
}

impl Connection {
    /// A connection on which nothing has happened yet.
    pub fn new() -> (connection: Self)
        ensures
            connection@ == ConnectionModel::fresh(),
    {
        Connection { parser: Parser::new(), closed: false }
    }

    /// Takes note of an event and decides what to do next.
    pub fn advance(&mut self, event: Event<'_>) -> (decision: Decision)
        ensures
            decision@ == old(self)@.noted(event).decision(),
            final(self)@ == old(self)@.noted(event).decided(),
    {
        match event {
            Event::Opened | Event::Sent => {},
            Event::SendFailed | Event::ReceiveFailed => {
                self.closed = true;
            },
            Event::Received(bytes) => {
                if bytes.len() == 0 {
                    self.closed = true;
                } else {
                    self.parser.feed(bytes);
                }
            },
        }
        if self.closed {
            return Decision::Close;
        }
        match self.parser.try_parse() {
            Ok(frame) => Decision::Answer(frame),
            Err(ParseError::Incomplete) => Decision::Receive,
            Err(ParseError::Protocol(message)) => {
                self.closed = true;
                let text = "ERR ".to_owned().concat(message.as_str());
                Decision::Refuse(encode(&Value::Error(text)))
            },
        }
    }

    /// Takes note of an event and says what to do next. A frame is answered on the shared
    /// store, as [`dispatch`] says. Where there is no frame to answer the store is left
    /// alone, which no clause states.
    ///
    /// The calling thread must not hold a guard of the same store.
    pub fn step(&mut self, event: Event<'_>, store: &Arc<Mutex<Store>>) -> (action: Action)
        ensures
            final(self)@ == old(self)@.noted(event).decided(),
            match old(self)@.noted(event).decision() {
                DecisionModel::Answer(frame) => {
                    &&& action matches Action::Send(bytes)
                    &&& request_of(frame) matches RequestModel::Reply(known) ==> bytes@ == encoding(
                        known,
                    )
                    &&& !(request_of(frame) is Reply) ==> exists|reply: ValueModel|
                        #[trigger] served(store, request_of(frame), reply) && bytes@ == encoding(
                            reply,
                        )
                },
                DecisionModel::Receive => action is Receive,
                DecisionModel::Refuse(refusal) => action matches Action::SendLast(bytes) && bytes@
                    == refusal,
                DecisionModel::Close => action is Close,
            },
    {
        match self.advance(event) {
            Decision::Answer(frame) => Action::Send(encode(&dispatch(store, frame))),
            Decision::Receive => Action::Receive,
            Decision::Refuse(bytes) => Action::SendLast(bytes),
            Decision::Close => Action::Close,
        }
    }
}

/// Every complete frame that is buffered is answered, in order, before more bytes are
/// awaited or the connection is closed over a fault; only what is not a complete frame
/// stays in the buffer.
pub proof fn law_all_buffered_frames_are_answered(connection: ConnectionModel)
    requires
        !connection.closed,
    ensures
        connection.answered() == frames(connection.buffered),
        connection.drained().buffered == leftover(connection.buffered),
        !connection.drained().closed,
        !(connection.drained().decision() is Answer),
    decreases connection.buffered.len(),
{
    lemma_frame_fits(connection.buffered);
    if let DecisionModel::Answer(_) = connection.decision() {
        law_all_buffered_frames_are_answered(connection.decided());
    }
}

/// What is sent over a whole connection: the replies to the frames of the stream, each frame
/// answered once and in order, and then one refusal if what follows them is at fault. This
/// is so however the stream is cut into chunks.
pub proof fn law_whole_connection(store: StoreModel, chunks: Seq<Seq<u8>>, times: Seq<Instant>)
    requires
        forall|i: int| 0 <= i < chunks.len() ==> (#[trigger] chunks[i]).len() > 0,
    ensures
        ConnectionModel::fresh().sent(store, chunks, times) == replies(
            store,
            frames(joined(chunks)),
            times,
        ) + refusal(leftover(joined(chunks))),
{
    lemma_sent(ConnectionModel::fresh(), store, chunks, times);
    assert(Seq::<u8>::empty() + joined(chunks) =~= joined(chunks));
}

/// The same from any point of a connection on.
proof fn lemma_sent(
    connection: ConnectionModel,
    store: StoreModel,
    chunks: Seq<Seq<u8>>,
    times: Seq<Instant>,
)
    requires
        !connection.closed,
        forall|i: int| 0 <= i < chunks.len() ==> (#[trigger] chunks[i]).len() > 0,
    ensures
        ({
            let stream = connection.buffered + joined(chunks);
            connection.sent(store, chunks, times) == replies(store, frames(stream), times)
                + refusal(leftover(stream))
        }),
    decreases chunks.len(), connection.buffered.len(),
{
    let buf = connection.buffered;
    let stream = buf + joined(chunks);
    lemma_frame_fits(buf);
    law_outcome_is_final(buf, joined(chunks));
    match parse(buf) {
        Outcome::Frame(frame, used) => {
            let request = request_of(frame);
            let rest = connection.decided().buffered + joined(chunks);
            assert(stream.skip(used as int) =~= rest);
            assert((seq![frame] + frames(rest)).drop_first() =~= frames(rest));
            lemma_sent(
                connection.decided(),
                after_request(store, request, times[0]),
                chunks,
                times.drop_first(),
            );
            assert(connection.sent(store, chunks, times) =~= replies(store, frames(stream), times)
                + refusal(leftover(stream)));
        },
        Outcome::Incomplete => {
            if chunks.len() == 0 {
                assert(stream =~= buf);
                assert(connection.sent(store, chunks, times) =~= replies(
                    store,
                    frames(stream),
                    times,
                ) + refusal(leftover(stream)));
            } else {
                let tail = chunks.drop_first();
                assert(stream =~= (buf + chunks[0]) + joined(tail));
                assert(tail.len() > 0 ==> tail[0] == chunks[1]);
                lemma_sent(connection.received(chunks[0]), store, tail, times);
            }
        },
        Outcome::Protocol(_) => {
            assert(connection.sent(store, chunks, times) =~= replies(store, frames(stream), times)
                + refusal(leftover(stream)));
        },
    }
}

/// What an event does to a connection: all bytes that arrive are put behind those that wait,
/// the end of the stream and any failure close the connection, and nothing else changes
/// anything.
pub proof fn law_event_effect(connection: ConnectionModel, event: Event<'_>)
    ensures
        match event {
            Event::Opened => connection.noted(event) == connection,
            Event::Sent => connection.noted(event) == connection,
            Event::SendFailed => connection.noted(event).closed,
            Event::ReceiveFailed => connection.noted(event).closed,
            Event::Received(bytes) => {
                &&& bytes@.len() == 0 ==> connection.noted(event).closed
                &&& bytes@.len() > 0 ==> connection.noted(event).buffered == connection.buffered
                    + bytes@
                &&& bytes@.len() > 0 ==> connection.noted(event).closed == connection.closed
            },
        },
{
}

/// What is done next: on a closed connection nothing but to close it. On an open one the
/// frame at the front of the waiting bytes is answered and taken off. Without a whole frame
/// more bytes are awaited, and over a fault the client is sent `-ERR`, a space, what the
/// fault is and a line end, and the connection is closed.
pub proof fn law_decision(connection: ConnectionModel)
    ensures
        connection.closed ==> connection.decision() == DecisionModel::Close
            && connection.decided().closed,
        !connection.closed ==> match parse(connection.buffered) {
            Outcome::Frame(frame, used) => {
                &&& connection.decision() == DecisionModel::Answer(frame)
                &&& used <= connection.buffered.len()
                &&& connection.decided().buffered == connection.buffered.skip(used as int)
                &&& !connection.decided().closed
            },
            Outcome::Incomplete => {
                &&& connection.decision() == DecisionModel::Receive
                &&& connection.decided() == connection
            },
            Outcome::Protocol(message) => {
                &&& connection.decision() == DecisionModel::Refuse(
                    seq![0x2du8] + encode_utf8("ERR "@ + message) + seq![0x0du8, 0x0au8],
                )
                &&& connection.decided().closed
            },
        },
{
    lemma_frame_fits(connection.buffered);
    if let Outcome::Protocol(message) = parse(connection.buffered) {
        assert(encoding(ValueModel::Error("ERR "@ + message)) =~= seq![0x2du8] + encode_utf8(
            "ERR "@ + message,
        ) + seq![0x0du8, 0x0au8]);
    }
}

/// A new connection is open, and no bytes wait on it.
pub proof fn law_fresh_connection()
    ensures
        ConnectionModel::fresh().buffered.len() == 0,
        !ConnectionModel::fresh().closed,
{
}

/// The bytes of the chunks that a client sends.
pub open spec fn contents(chunks: Seq<&[u8]>) -> Seq<Seq<u8>> {
    Seq::new(chunks.len(), |i: int| chunks[i]@)
}

/// All that is sent on a connection, event by event: every action that asks to send is
/// followed by the event that it was sent, every one that asks to receive by the next of the
/// chunks, and the frames are answered each at the next of `times`, on a store that nobody
/// else uses meanwhile.
pub open spec fn transcript(
    connection: ConnectionModel,
    store: StoreModel,
    chunks: Seq<&[u8]>,
    times: Seq<Instant>,
) -> Seq<u8>
    decreases chunks.len(), connection.buffered.len(),
{
    match connection.decision() {
        DecisionModel::Answer(frame) => {
            proof {
                lemma_frame_fits(connection.buffered);
            }
            encoding(reply_to(store, request_of(frame), times[0])) + transcript(
                connection.decided().noted(Event::Sent),
                after_request(store, request_of(frame), times[0]),
                chunks,
                times.drop_first(),
            )
        },
        DecisionModel::Receive => if chunks.len() == 0 {
            Seq::empty()
        } else {
            transcript(
                connection.decided().noted(Event::Received(chunks[0])),
                store,
                chunks.drop_first(),
                times,
            )
        },
        DecisionModel::Refuse(bytes) => bytes,
        DecisionModel::Close => Seq::empty(),
    }
}

/// The events of a connection, from its opening on, add up to the same: the replies to the
/// frames of all bytes that arrived, in order, and one refusal if what follows is at fault.
pub proof fn law_whole_connection_by_events(
    store: StoreModel,
    chunks: Seq<&[u8]>,
    times: Seq<Instant>,
)
    requires
        forall|i: int| 0 <= i < chunks.len() ==> (#[trigger] chunks[i])@.len() > 0,
    ensures
        transcript(ConnectionModel::fresh().noted(Event::Opened), store, chunks, times) == replies(
            store,
            frames(joined(contents(chunks))),
            times,
        ) + refusal(leftover(joined(contents(chunks)))),
{
    lemma_transcript(ConnectionModel::fresh(), store, chunks, times);
    assert forall|i: int| 0 <= i < contents(chunks).len() implies (#[trigger] contents(
        chunks,
    )[i]).len() > 0 by {
        assert(chunks[i]@.len() > 0);
    }
    law_whole_connection(store, contents(chunks), times);
}

/// The events and the chunks amount to the same.
proof fn lemma_transcript(
    connection: ConnectionModel,
    store: StoreModel,
    chunks: Seq<&[u8]>,
    times: Seq<Instant>,
)
    ensures
        transcript(connection, store, chunks, times) == connection.sent(
            store,
            contents(chunks),
            times,
        ),
    decreases chunks.len(), connection.buffered.len(),
{
    lemma_frame_fits(connection.buffered);
    match connection.decision() {
        DecisionModel::Answer(frame) => {
            lemma_transcript(
                connection.decided().noted(Event::Sent),
                after_request(store, request_of(frame), times[0]),
                chunks,
                times.drop_first(),
            );
        },
        DecisionModel::Receive => {
            if chunks.len() > 0 {
                assert(contents(chunks).drop_first() =~= contents(chunks.drop_first()));
                lemma_transcript(
                    connection.decided().noted(Event::Received(chunks[0])),
                    store,
                    chunks.drop_first(),
                    times,
                );
            }
        },
        _ => {},
    }
}

/// What a decision stands for: the frame to answer, or the bytes of a refusal.
pub proof fn law_decision_contents(decision: Decision)
    ensures
        match decision {
            Decision::Answer(frame) => decision@ == DecisionModel::Answer(frame@),
            Decision::Receive => decision@ == DecisionModel::Receive,
            Decision::Refuse(bytes) => decision@ == DecisionModel::Refuse(bytes@),
            Decision::Close => decision@ == DecisionModel::Close,
        },
{
}

/// A closed connection stays closed, takes no frame, and has nothing to do but to close.
pub proof fn law_closed_is_final(connection: ConnectionModel, event: Event<'_>)
    requires
        connection.closed,
    ensures
        connection.noted(event).decision() == DecisionModel::Close,
        connection.noted(event).decided().closed,
{
}

/// After a violation of the framing nothing more of the stream is read: the client gets
/// one error reply that describes the fault, and the connection is closed.
pub proof fn law_fault_closes(connection: ConnectionModel, event: Event<'_>)
    requires
        !connection.closed,
        parse(connection.buffered) is Protocol,
    ensures
        connection.decision() == DecisionModel::Refuse(
            encoding(ValueModel::Error("ERR "@ + parse(connection.buffered)->Protocol_0)),
        ),
        connection.decided().noted(event).decision() == DecisionModel::Close,
{
}

/// A client that goes away in the middle of a frame leaves no trace: the part of a frame
/// that arrived is never answered.
pub proof fn law_half_frame_is_dropped(connection: ConnectionModel)
    requires
        !connection.closed,
        parse(connection.buffered) is Incomplete,
    ensures
        connection.answered() == Seq::<ValueModel>::empty(),
        connection.decision() == DecisionModel::Receive,
        forall|bytes: &[u8]|
            bytes@.len() == 0 ==> #[trigger] connection.noted(Event::Received(bytes)).decision()
                == DecisionModel::Close,
        connection.noted(Event::ReceiveFailed).decision() == DecisionModel::Close,
{
}

} // verus!
