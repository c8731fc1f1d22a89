//! The decisions of the interactive node's runtime: which commands reach the
//! transfer worker, when the node stops, and which tasks it then waits for.
use vstd::prelude::*;

verus! {

/// The kinds of command the shell hands to the runtime.
#[derive(Clone, Copy, Debug, PartialEq, Eq, Structural)]
pub enum CommandKind {
    Shutdown,
    PublishLocalFiles,
    ListTrackerFiles,
    Download,
    MarkOffline,
}

/// What happened to the runtime's command loop.
#[derive(Clone, Copy, Debug, PartialEq, Eq, Structural)]
pub enum LoopEvent {
    /// A command arrived.
    Received(CommandKind),
    /// Every sender of commands is gone.
    ChannelClosed,
    /// The transfer worker no longer takes commands.
    ForwardFailed,
}

/// What the command loop does next.
#[derive(Clone, Copy, Debug, PartialEq, Eq, Structural)]
pub enum LoopAction {
    /// Hand the command to the transfer worker and wait for the next one.
    Forward,
    /// Tell every task to stop and leave the loop.
    Stop,
}

/// The long-running tasks of a node.
#[derive(Clone, Copy, Debug, PartialEq, Eq, Structural)]
pub enum NodeTask {
    Commands,
    PeerServer,
    TransferWorker,
    Shell,
}

/// The command loop forwards every command but `Shutdown`, and stops on
/// `Shutdown`, when the channel closes, or when forwarding fails.
pub open spec fn spec_loop_action(event: LoopEvent) -> LoopAction {
    match event {
        LoopEvent::Received(kind) => if kind == CommandKind::Shutdown {
            LoopAction::Stop
        } else {
            LoopAction::Forward
        },
        _ => LoopAction::Stop,
    }
}

/// The next step of the command loop after `event`.
pub fn command_loop_step(event: LoopEvent) -> (r: LoopAction)
    ensures
        r == spec_loop_action(event),
        r == LoopAction::Forward <==> (event matches LoopEvent::Received(kind) && kind
            != CommandKind::Shutdown),
{
    match event {
        LoopEvent::Received(kind) => match kind {
            CommandKind::Shutdown => LoopAction::Stop,
            _ => LoopAction::Forward,
        },
        LoopEvent::ChannelClosed => LoopAction::Stop,
        LoopEvent::ForwardFailed => LoopAction::Stop,
    }
}

/// Whether the transfer worker runs a command or stops: it stops on
/// `Shutdown` and runs every other command.
pub fn worker_runs(kind: CommandKind) -> (r: bool)
    ensures
        r <==> kind != CommandKind::Shutdown,
{
    match kind {
        CommandKind::Shutdown => false,
        _ => true,
    }
}

/// The tasks the node still waits for, briefly, once `finished` has ended:
/// the block server and the transfer worker, in that order, but for the one
/// that ended.
pub open spec fn spec_tasks_to_await(finished: NodeTask) -> Seq<NodeTask> {
    if finished == NodeTask::PeerServer {
        seq![NodeTask::TransferWorker]
    } else if finished == NodeTask::TransferWorker {
        seq![NodeTask::PeerServer]
    } else {
        seq![NodeTask::PeerServer, NodeTask::TransferWorker]
    }
}

/// The tasks to wait for once `finished` has ended.
pub fn tasks_to_await(finished: NodeTask) -> (r: Vec<NodeTask>)
    ensures
        r@ == spec_tasks_to_await(finished),
        r@.contains(NodeTask::PeerServer) <==> finished != NodeTask::PeerServer,
        r@.contains(NodeTask::TransferWorker) <==> finished != NodeTask::TransferWorker,
        !r@.contains(NodeTask::Commands) && !r@.contains(NodeTask::Shell),
        r@.no_duplicates(),
        r@.len() >= 2 ==> r@[0] == NodeTask::PeerServer,
{
    let mut r: Vec<NodeTask> = Vec::new();
    if finished != NodeTask::PeerServer {
        r.push(NodeTask::PeerServer);
    }
    if finished != NodeTask::TransferWorker {
        r.push(NodeTask::TransferWorker);
    }
    assert(r@ =~= spec_tasks_to_await(finished));
    proof {
        if finished == NodeTask::PeerServer {
            assert(r@[0] == NodeTask::TransferWorker);
        } else if finished == NodeTask::TransferWorker {
            assert(r@[0] == NodeTask::PeerServer);
        } else {
            assert(r@[0] == NodeTask::PeerServer && r@[1] == NodeTask::TransferWorker);
        }
    }
    r
}

} // verus!
