use vstd::prelude::*;
use crate::resp::Resp;

verus! {

/// Why a command produced no ordinary reply.
#[derive(Debug, PartialEq, Eq)]
pub enum CommandError {
    /// The reply producer went away without answering.
    Canceled,
    /// The backend could not serve the command.
    Backend,
    Other,
}

/// What the producer of a reply eventually hands back for one command.
pub type CommandResult = Result<Resp, CommandError>;

#[verifier::external_type_specification]
#[verifier::external_body]
#[verifier::reject_recursive_types(T)]
pub struct ExSyncSender<T>(std::sync::mpsc::SyncSender<T>);

#[verifier::external_type_specification]
#[verifier::external_body]
#[verifier::reject_recursive_types(T)]
pub struct ExReceiver<T>(std::sync::mpsc::Receiver<T>);

/// Relies on std::sync::mpsc::sync_channel: a fresh rendezvous pair with one
/// buffered slot, so the single send never blocks.
#[verifier::external_body]
fn oneshot_channel() -> (std::sync::mpsc::SyncSender<CommandResult>, std::sync::mpsc::Receiver<
    CommandResult,
>) {
    std::sync::mpsc::sync_channel(1)
}

/// Relies on std::sync::mpsc::SyncSender::try_send: with the one slot free,
/// the value is accepted unless the receiving half is already gone.
#[verifier::external_body]
fn channel_send(tx: std::sync::mpsc::SyncSender<CommandResult>, value: CommandResult) -> bool {
    match tx.try_send(value) {
        Ok(()) => true,
        Err(_) => false,
    }
}

/// Relies on std::sync::mpsc::Receiver::recv: blocks until a value arrives,
/// and fails exactly when every sender is gone with nothing sent.
#[verifier::external_body]
fn channel_recv(rx: std::sync::mpsc::Receiver<CommandResult>) -> Option<CommandResult> {
    match rx.recv() {
        Ok(v) => Some(v),
        Err(_) => None,
    }
}

/// One decoded request, immutable once constructed.
pub struct Command {
    pub resp: Resp,
}

impl Command {
    pub fn new(resp: Resp) -> (c: Command)
        ensures
            c.resp == resp,
    {
        Command { resp }
    }
}

/// The producing half of a command's reply pair: whoever ends up computing
/// the reply holds it, together with the command itself, and uses it exactly
/// once.
pub struct CmdReplySender {
    pub command: Command,
    tx: std::sync::mpsc::SyncSender<CommandResult>,
}

/// The consuming half: the write loop holds it and collects exactly one
/// reply, or learns that the producer vanished.
pub struct CmdReplyReceiver {
    rx: std::sync::mpsc::Receiver<CommandResult>,
}

/// Builds the reply pair for one command.  The sender carries the command to
/// its eventual executor; the receiver goes to the write loop, which drains
/// receivers in arrival order.
pub fn new_command_task(command: Command) -> (pair: (CmdReplySender, CmdReplyReceiver))
    ensures
        pair.0.cmd() == command,
{
    let (tx, rx) = oneshot_channel();
    (CmdReplySender { command, tx }, CmdReplyReceiver { rx })
}

impl CmdReplySender {
    /// The command this sender will eventually answer.
    pub closed spec fn cmd(&self) -> Command {
        self.command
    }

    /// Reads that command.
    pub fn command(&self) -> (c: &Command)
        ensures
            *c == self.cmd(),
    {
        &self.command
    }

    /// Hands the reply over, consuming the sender so a second reply for the
    /// same command cannot exist.  Fails only when the receiver was dropped
    /// first, which the caller may ignore or log: the connection is gone.
    pub fn send(self, res: CommandResult) -> (r: Result<(), CommandError>)
        ensures
            r is Err ==> r == Result::<(), CommandError>::Err(CommandError::Canceled),
    {
        if channel_send(self.tx, res) {
            Ok(())
        } else {
            Err(CommandError::Canceled)
        }
    }
}

impl CmdReplyReceiver {
    /// Waits for the paired reply.  Yields whatever the producer decided,
    /// or `Canceled` exactly when the sender was dropped without sending:
    /// a lost producer never hangs the write loop.
    pub fn wait_response(self) -> (r: CommandResult)
    {
        match channel_recv(self.rx) {
            Some(res) => res,
            None => Err(CommandError::Canceled),
        }
    }
}

} // verus!
