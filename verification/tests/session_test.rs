use undermoon::resp::{BulkStr, Resp};
use undermoon::command::{new_command_task, Command, CommandError};
use undermoon::session::{
    handle_read_event, reply_frame_bytes, write_replies, DecodeEvent, HandoffQueue, ReadAction,
    RespHandler, Session, SessionError,
};

fn dummy_receiver() -> undermoon::command::CmdReplyReceiver {
    let (_sender, receiver) = new_command_task(Command::new(Resp::NilArray));
    receiver
}

#[test]
fn test_backpressure() {
    // With capacity two the second push fills the queue and the third is
    // refused; after one pop there is room again, and order is kept.
    let mut q = HandoffQueue::new(2);
    assert!(q.push(dummy_receiver()).is_ok());
    assert!(q.push(dummy_receiver()).is_ok());
    assert_eq!(q.len(), 2);
    let refused = q.push(dummy_receiver());
    assert!(refused.is_err());
    assert_eq!(q.len(), 2);
    assert!(q.pop().is_some());
    assert!(q.push(refused.unwrap_err()).is_ok());
    assert_eq!(q.len(), 2);
}

#[test]
fn test_ordering() {
    // Three pipelined commands; their replies resolve out of order, but the
    // write half pops receivers in arrival order and emits the frames in
    // that same order.
    let (s0, r0) = new_command_task(Command::new(Resp::NilArray));
    let (s1, r1) = new_command_task(Command::new(Resp::NilArray));
    let (s2, r2) = new_command_task(Command::new(Resp::NilArray));

    let mut q = HandoffQueue::new(16);
    assert!(q.push(r0).is_ok());
    assert!(q.push(r1).is_ok());
    assert!(q.push(r2).is_ok());

    // Replies arrive in a different order than the requests did.
    s2.send(Ok(Resp::Simple(b"two".to_vec()))).unwrap();
    s0.send(Ok(Resp::Simple(b"zero".to_vec()))).unwrap();
    s1.send(Ok(Resp::Simple(b"one".to_vec()))).unwrap();

    let mut replies = Vec::new();
    while let Some(receiver) = q.pop() {
        replies.push(receiver.wait_response());
    }
    let out = write_replies(&replies);
    assert_eq!(out, b"+zero\r\n+one\r\n+two\r\n".to_vec());
}

#[test]
fn test_cancellation() {
    // Dropping the sender before it answers resolves the receiver to
    // Canceled instead of hanging, and the write half turns that into the
    // generic error frame.
    let (sender, receiver) = new_command_task(Command::new(Resp::NilArray));
    drop(sender);
    let res = receiver.wait_response();
    assert_eq!(res, Err(CommandError::Canceled));
    assert_eq!(reply_frame_bytes(&res), b"-Err cmd error\r\n".to_vec());
}

#[test]
fn test_invalid_protocol_fail_fast() {
    // A malformed frame yields exactly one final receiver carrying the
    // protocol-error reply, and the read half stops.
    let mut handler = Session::new();
    match handle_read_event(&mut handler, DecodeEvent::InvalidProtocol) {
        ReadAction::DispatchThenStop(receiver) => {
            let res = receiver.wait_response();
            assert_eq!(res, Ok(Resp::Error(b"Err invalid protocol".to_vec())));
            assert_eq!(reply_frame_bytes(&res), b"-Err invalid protocol\r\n".to_vec());
        }
        other => panic!("unexpected pattern {:?}", name_of(&other)),
    }
}

#[test]
fn test_io_error_stops_read_half() {
    let mut handler = Session::new();
    match handle_read_event(&mut handler, DecodeEvent::IoError) {
        ReadAction::Stop(e) => assert_eq!(e, SessionError::Io),
        other => panic!("unexpected pattern {:?}", name_of(&other)),
    }
}

#[test]
fn test_session_handler_replies_done() {
    let mut handler = Session::new();
    let event = DecodeEvent::Frame(Resp::Simple(b"PING".to_vec()));
    match handle_read_event(&mut handler, event) {
        ReadAction::Dispatch(receiver) => {
            let res = receiver.wait_response();
            assert_eq!(res, Ok(Resp::Bulk(BulkStr::Str(b"done".to_vec()))));
        }
        other => panic!("unexpected pattern {:?}", name_of(&other)),
    }
}

fn name_of(action: &ReadAction) -> &'static str {
    match action {
        ReadAction::Dispatch(_) => "Dispatch",
        ReadAction::DispatchThenStop(_) => "DispatchThenStop",
        ReadAction::Stop(_) => "Stop",
    }
}

#[test]
fn test_write_replies_mixed() {
    let replies = vec![
        Ok(Resp::Integer(1)),
        Err(CommandError::Canceled),
        Ok(Resp::Bulk(BulkStr::Str(b"ab".to_vec()))),
    ];
    let out = write_replies(&replies);
    assert_eq!(out, b":1\r\n-Err cmd error\r\n$2\r\nab\r\n".to_vec());
}
