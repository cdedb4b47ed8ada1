use vstd::prelude::*;
use crate::resp::{Resp, RespV};
use crate::encode::{encode_spec, resp_to_buf};
use crate::command::{CmdReplyReceiver, CmdReplySender, Command, CommandResult,
    new_command_task};

verus! {

broadcast use vstd::std_specs::vec::group_vec_axioms, vstd::seq::group_seq_axioms;

/// How a connection ended.
#[derive(Debug, PartialEq, Eq)]
pub enum SessionError {
    Io,
    InvalidProtocol,
    Canceled,
    Other,
}

/// The pluggable recipient of decoded commands: it takes the sender half of
/// the reply pair and decides how the reply is eventually produced.
pub trait RespHandler {
    fn handle_resp(&mut self, sender: CmdReplySender);
}

/// The trivial handler: answers every command at once with a fixed bulk
/// string.
pub struct Session {
}

impl Session {
    pub fn new() -> Session {
        Session {  }
    }
}

impl RespHandler for Session {
    fn handle_resp(&mut self, sender: CmdReplySender) {
        let reply = Resp::Bulk(crate::resp::BulkStr::Str(vec![100u8, 111u8, 110u8, 101u8]));
        let _ = sender.send(Ok(reply));
    }
}

/// Text of the reply written for a frame that broke the protocol.
pub open spec fn invalid_protocol_text() -> Seq<u8> {
    seq![
        69u8, 114u8, 114u8, 32u8, 105u8, 110u8, 118u8, 97u8, 108u8, 105u8, 100u8, 32u8, 112u8,
        114u8, 111u8, 116u8, 111u8, 99u8, 111u8, 108u8,
    ]
}

/// The error value answered for a malformed frame: `Err invalid protocol`.
pub fn invalid_protocol_reply() -> (r: Resp)
    ensures
        r@ == RespV::Error(invalid_protocol_text()),
{
    let text: Vec<u8> = vec![
        69u8, 114u8, 114u8, 32u8, 105u8, 110u8, 118u8, 97u8, 108u8, 105u8, 100u8, 32u8, 112u8,
        114u8, 111u8, 116u8, 111u8, 99u8, 111u8, 108u8,
    ];
    proof {
        assert(text@ =~= invalid_protocol_text());
    }
    Resp::Error(text)
}

/// What the read loop learned from its latest attempt to obtain a frame.
pub enum DecodeEvent {
    /// A complete frame was decoded.
    Frame(Resp),
    /// The peer sent bytes that can never form a frame.
    InvalidProtocol,
    /// The transport failed.
    IoError,
}

/// What the read loop must do next.
pub enum ReadAction {
    /// Push this receiver onto the handoff queue and keep reading.
    Dispatch(CmdReplyReceiver),
    /// Push this receiver — it already holds the protocol-error reply —
    /// and then stop reading: the connection is no longer trustworthy.
    DispatchThenStop(CmdReplyReceiver),
    /// Stop reading at once with this terminal state.
    Stop(SessionError),
}

/// One step of the read half: turns the decode outcome of one frame into
/// the action the loop takes, handing complete frames to the handler as a
/// fresh command paired with its reply channel.  A malformed frame yields
/// exactly one final receiver (carrying `Err invalid protocol`) before the
/// read half terminates; a transport failure terminates it at once.
pub fn handle_read_event<H: RespHandler>(handler: &mut H, event: DecodeEvent) -> (action:
    ReadAction)
    ensures
        (match event {
            DecodeEvent::Frame(_) => action is Dispatch,
            DecodeEvent::InvalidProtocol => action is DispatchThenStop,
            DecodeEvent::IoError => action == ReadAction::Stop(SessionError::Io),
        }),
{
    match event {
        DecodeEvent::Frame(resp) => {
            let (sender, receiver) = new_command_task(Command::new(resp));
            handler.handle_resp(sender);
            ReadAction::Dispatch(receiver)
        },
        DecodeEvent::InvalidProtocol => {
            let (sender, receiver) = new_command_task(Command::new(Resp::NilArray));
            let _ = sender.send(Ok(invalid_protocol_reply()));
            ReadAction::DispatchThenStop(receiver)
        },
        DecodeEvent::IoError => ReadAction::Stop(SessionError::Io),
    }
}

/// The bounded handoff queue between the read half and the write half: the
/// only state the two halves share.  Receivers leave in exactly the order
/// they entered, and a full queue refuses the next push, which is the
/// backpressure that stops a reader from outrunning a stalled writer.
pub struct HandoffQueue {
    items: Vec<CmdReplyReceiver>,
    cap: usize,
}

impl HandoffQueue {
    /// The configured bound.
    pub closed spec fn capacity(&self) -> nat {
        self.cap as nat
    }

    /// The receivers now queued, front first.
    pub closed spec fn contents(&self) -> Seq<CmdReplyReceiver> {
        self.items@
    }

    pub fn new(cap: usize) -> (q: HandoffQueue)
        requires
            cap >= 1,
        ensures
            q.capacity() == cap,
            q.contents() == Seq::<CmdReplyReceiver>::empty(),
    {
        HandoffQueue { items: Vec::new(), cap }
    }

    pub fn len(&self) -> (n: usize)
        ensures
            n == self.contents().len(),
    {
        self.items.len()
    }

    /// Appends while there is room: the push that fills the queue succeeds,
    /// the one after it is refused with the receiver handed back and the
    /// queue unchanged, so nothing is lost or reordered across a stall.
    pub fn push(&mut self, r: CmdReplyReceiver) -> (res: Result<(), CmdReplyReceiver>)
        ensures
            old(self).contents().len() < old(self).capacity() ==> res is Ok
                && final(self).contents() == old(self).contents().push(r),
            old(self).contents().len() >= old(self).capacity() ==> res is Err
                && *final(self) === *old(self),
            final(self).capacity() == old(self).capacity(),
    {
        if self.items.len() < self.cap {
            self.items.push(r);
            Ok(())
        } else {
            Err(r)
        }
    }

    /// Removes and returns the front receiver: the one whose request
    /// arrived earliest among those still queued.
    pub fn pop(&mut self) -> (res: Option<CmdReplyReceiver>)
        ensures
            old(self).contents().len() == 0 ==> res is None && *final(self) === *old(self),
            old(self).contents().len() > 0 ==> res == Some(old(self).contents()[0])
                && final(self).contents() == old(self).contents().drop_first(),
            final(self).capacity() == old(self).capacity(),
    {
        if self.items.len() == 0 {
            None
        } else {
            Some(self.items.remove(0))
        }
    }
}

/// The exact bytes the write half sends for one resolved reply: the wire
/// encoding of the value, or the generic `Err cmd error` frame when the
/// producer failed or vanished.
pub open spec fn reply_frame_spec(res: CommandResult) -> Seq<u8> {
    match res {
        Ok(resp) => encode_spec(resp@),
        Err(_) => encode_spec(RespV::Error(cmd_error_text())),
    }
}

/// Text of the generic failure frame.
pub open spec fn cmd_error_text() -> Seq<u8> {
    seq![69u8, 114u8, 114u8, 32u8, 99u8, 109u8, 100u8, 32u8, 101u8, 114u8, 114u8, 111u8, 114u8]
}

/// Encodes one resolved reply.
pub fn reply_frame_bytes(res: &CommandResult) -> (out: Vec<u8>)
    ensures
        out@ == reply_frame_spec(*res),
{
    match res {
        Ok(resp) => {
            let mut buf: Vec<u8> = Vec::new();
            resp_to_buf(&mut buf, resp);
            buf
        },
        Err(_) => {
            let text: Vec<u8> = vec![
                69u8, 114u8, 114u8, 32u8, 99u8, 109u8, 100u8, 32u8, 101u8, 114u8, 114u8, 111u8,
                114u8,
            ];
            proof {
                assert(text@ =~= cmd_error_text());
            }
            let err = Resp::Error(text);
            let mut buf: Vec<u8> = Vec::new();
            resp_to_buf(&mut buf, &err);
            buf
        },
    }
}

/// The bytes of a whole run of replies, in the order given.
pub open spec fn replies_bytes(rs: Seq<CommandResult>) -> Seq<u8>
    decreases rs.len(),
{
    if rs.len() == 0 {
        Seq::<u8>::empty()
    } else {
        reply_frame_spec(rs.first()) + replies_bytes(rs.drop_first())
    }
}

proof fn lemma_replies_bytes_snoc(rs: Seq<CommandResult>, r: CommandResult)
    ensures
        replies_bytes(rs.push(r)) == replies_bytes(rs) + reply_frame_spec(r),
    decreases rs.len(),
{
    if rs.len() == 0 {
        reveal_with_fuel(replies_bytes, 3);
        assert(rs.push(r).drop_first() =~= Seq::<CommandResult>::empty());
        assert(rs.push(r).first() == r);
        assert(replies_bytes(Seq::<CommandResult>::empty()) =~= Seq::<u8>::empty());
        assert(reply_frame_spec(r) + Seq::<u8>::empty() =~= reply_frame_spec(r));
        assert(replies_bytes(rs) =~= Seq::<u8>::empty());
        assert(Seq::<u8>::empty() + reply_frame_spec(r) =~= reply_frame_spec(r));
        assert(replies_bytes(rs.push(r)) =~= replies_bytes(rs) + reply_frame_spec(r));
    } else {
        lemma_replies_bytes_snoc(rs.drop_first(), r);
        assert(rs.push(r).drop_first() =~= rs.drop_first().push(r));
        assert(replies_bytes(rs.push(r)) =~= replies_bytes(rs) + reply_frame_spec(r));
    }
}

proof fn lemma_replies_bytes_app(a: Seq<CommandResult>, b: Seq<CommandResult>)
    ensures
        replies_bytes(a + b) == replies_bytes(a) + replies_bytes(b),
    decreases a,
{
    if a.len() == 0 {
        assert(a + b =~= b);
        assert(replies_bytes(a) + replies_bytes(b) =~= replies_bytes(b));
    } else {
        assert((a + b).drop_first() =~= a.drop_first() + b);
        lemma_replies_bytes_app(a.drop_first(), b);
        assert(replies_bytes(a + b) =~= replies_bytes(a) + replies_bytes(b));
    }
}

/// Ordering: for a run of pipelined requests, the write half emits the
/// reply frame of request `i` after every frame of the requests before it
/// and before every frame of those after it, however long each reply took
/// to resolve: the output splits at request `i` into the frames of the
/// earlier requests, its own frame, and the frames of the later ones.
pub proof fn lemma_replies_in_arrival_order(rs: Seq<CommandResult>, i: int)
    requires
        0 <= i < rs.len(),
    ensures
        replies_bytes(rs) == replies_bytes(rs.take(i)) + reply_frame_spec(rs[i]) + replies_bytes(
            rs.skip(i + 1),
        ),
{
    assert(rs =~= rs.take(i) + seq![rs[i]] + rs.skip(i + 1));
    lemma_replies_bytes_app(rs.take(i) + seq![rs[i]], rs.skip(i + 1));
    lemma_replies_bytes_app(rs.take(i), seq![rs[i]]);
    lemma_replies_bytes_snoc(Seq::<CommandResult>::empty(), rs[i]);
    assert(Seq::<CommandResult>::empty().push(rs[i]) =~= seq![rs[i]]);
    assert(replies_bytes(Seq::<CommandResult>::empty()) =~= Seq::<u8>::empty());
    assert(replies_bytes(seq![rs[i]]) =~= reply_frame_spec(rs[i]));
}

/// Encodes a run of resolved replies back to back, preserving their order:
/// the write half's output for replies resolved in this (arrival) order.
pub fn write_replies(replies: &Vec<CommandResult>) -> (out: Vec<u8>)
    ensures
        out@ == replies_bytes(replies@),
{
    let mut out: Vec<u8> = Vec::new();
    let mut i: usize = 0;
    while i < replies.len()
        invariant
            i <= replies.len(),
            out@ == replies_bytes(replies@.take(i as int)),
        decreases replies.len() - i,
    {
        let mut frame = reply_frame_bytes(&replies[i]);
        let mut k: usize = 0;
        let ghost frame0 = frame@;
        while k < frame.len()
            invariant
                k <= frame0.len(),
                frame@ == frame0,
                out@ == replies_bytes(replies@.take(i as int)) + frame0.subrange(0, k as int),
            decreases frame.len() - k,
        {
            out.push(frame[k]);
            assert(out@ =~= replies_bytes(replies@.take(i as int)) + frame0.subrange(0, k + 1));
            k = k + 1;
        }
        proof {
            lemma_replies_bytes_snoc(replies@.take(i as int), replies@[i as int]);
            assert(replies@.take(i + 1) =~= replies@.take(i as int).push(replies@[i as int]));
            assert(frame0.subrange(0, frame0.len() as int) =~= frame0);
            assert(out@ =~= replies_bytes(replies@.take(i + 1)));
        }
        i = i + 1;
    }
    proof {
        assert(replies@.take(replies@.len() as int) =~= replies@);
    }
    out
}

} // verus!
