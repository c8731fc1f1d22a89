use resource_node::runtime::{
    command_loop_step, tasks_to_await, worker_runs, CommandKind, LoopAction, LoopEvent, NodeTask,
};
use resource_node::signal::{signal_for_key, BroadcastSignal, ViewKey};

#[test]
fn command_loop_forwards_until_shutdown() {
    assert_eq!(command_loop_step(LoopEvent::Received(CommandKind::Download)), LoopAction::Forward);
    assert_eq!(command_loop_step(LoopEvent::Received(CommandKind::PublishLocalFiles)), LoopAction::Forward);
    assert_eq!(command_loop_step(LoopEvent::Received(CommandKind::Shutdown)), LoopAction::Stop);
    assert_eq!(command_loop_step(LoopEvent::ChannelClosed), LoopAction::Stop);
    assert_eq!(command_loop_step(LoopEvent::ForwardFailed), LoopAction::Stop);
}

#[test]
fn worker_stops_only_on_shutdown() {
    assert!(!worker_runs(CommandKind::Shutdown));
    assert!(worker_runs(CommandKind::MarkOffline));
    assert!(worker_runs(CommandKind::ListTrackerFiles));
}

#[test]
fn remaining_tasks_are_awaited() {
    assert_eq!(tasks_to_await(NodeTask::PeerServer), vec![NodeTask::TransferWorker]);
    assert_eq!(tasks_to_await(NodeTask::TransferWorker), vec![NodeTask::PeerServer]);
    assert_eq!(tasks_to_await(NodeTask::Shell), vec![NodeTask::PeerServer, NodeTask::TransferWorker]);
    assert_eq!(tasks_to_await(NodeTask::Commands), vec![NodeTask::PeerServer, NodeTask::TransferWorker]);
}

#[test]
fn quit_keys_stop_the_node() {
    assert!(matches!(signal_for_key(ViewKey::Char('q')), Some(BroadcastSignal::Shutdown)));
    assert!(matches!(signal_for_key(ViewKey::Esc), Some(BroadcastSignal::Shutdown)));
    assert!(signal_for_key(ViewKey::Char('Q')).is_none());
    assert!(signal_for_key(ViewKey::Other).is_none());
}
