use tcp_reactor::connection::{Client, ClientState, Interest, ReadOutcome, WriteOutcome};
use tcp_reactor::server::{Followup, Route, Server, SERVER};

fn drain_reads(s: &mut Server, id: usize, outcomes: Vec<ReadOutcome>) -> (Vec<u8>, usize) {
    let mut acc = Vec::new();
    let mut steps = 0;
    for o in outcomes {
        steps += 1;
        if !s.read_step(id, &mut acc, o) {
            break;
        }
    }
    (acc, steps)
}

fn wire_of(s: &mut Server, id: usize) -> Vec<u8> {
    let mut wire = Vec::new();
    loop {
        let n = match s.front(id) {
            Some(b) => {
                wire.extend_from_slice(b);
                b.len()
            }
            None => break,
        };
        if !s.write_step(id, WriteOutcome::Written(n)) {
            break;
        }
    }
    wire
}

#[test]
fn capacity_enforced() {
    let mut s = Server::new(2);
    assert_eq!(s.capacity(), 2);
    assert_eq!(s.free_count(), 2);
    assert_eq!(s.accept(), Some(1));
    assert_eq!(s.accept(), Some(2));
    assert_eq!(s.accept(), None);
    assert_eq!(s.free_count(), 0);
    assert!(s.get(1).is_some());
    assert!(s.get(2).is_some());
}

#[test]
fn zero_capacity_accepts_nothing() {
    let mut s = Server::new(0);
    assert_eq!(s.accept(), None);
}

#[test]
fn removed_identifier_is_reused_first() {
    let mut s = Server::new(3);
    assert_eq!(s.accept(), Some(1));
    assert_eq!(s.accept(), Some(2));
    s.remove(1);
    assert!(s.get(1).is_none());
    assert_eq!(s.free_count(), 2);
    assert_eq!(s.accept(), Some(1));
    assert_eq!(s.accept(), Some(3));
    assert_eq!(s.accept(), None);
}

#[test]
fn removing_absent_identifier_is_noop() {
    let mut s = Server::new(2);
    assert_eq!(s.accept(), Some(1));
    s.remove(2);
    s.remove(0);
    s.remove(7);
    assert_eq!(s.free_count(), 1);
    assert_eq!(s.accept(), Some(2));
}

#[test]
fn fresh_connection_state() {
    let mut s = Server::new(1);
    let id = s.accept().unwrap();
    let c = s.get(id).unwrap();
    assert_eq!(c.token(), id);
    assert_eq!(c.state(), ClientState::Open);
    assert!(c.has_read());
    assert_eq!(c.queued(), 0);
    assert_eq!(c.event_set(), Interest::ReadWrite);
}

#[test]
fn reads_are_batched_into_one_buffer() {
    let mut s = Server::new(1);
    let id = s.accept().unwrap();
    let (acc, steps) = drain_reads(
        &mut s,
        id,
        vec![
            ReadOutcome::Read(b"AB".to_vec()),
            ReadOutcome::Read(b"CD".to_vec()),
            ReadOutcome::WouldBlock,
            ReadOutcome::Read(b"EF".to_vec()),
        ],
    );
    assert_eq!(acc, b"ABCD".to_vec());
    assert_eq!(steps, 3);
    assert_eq!(s.get(id).unwrap().state(), ClientState::Open);
    assert_eq!(s.finish_event(id), Followup::Rearm(Interest::ReadWrite));
}

#[test]
fn interrupted_read_is_retried() {
    let mut s = Server::new(1);
    let id = s.accept().unwrap();
    let (acc, steps) = drain_reads(
        &mut s,
        id,
        vec![
            ReadOutcome::Interrupted,
            ReadOutcome::Read(b"xy".to_vec()),
            ReadOutcome::WouldBlock,
        ],
    );
    assert_eq!(acc, b"xy".to_vec());
    assert_eq!(steps, 3);
}

#[test]
fn peer_close_disconnects_once_and_recycles() {
    let mut s = Server::new(2);
    let id = s.accept().unwrap();
    assert_eq!(s.accept(), Some(2));
    let (acc, steps) = drain_reads(
        &mut s,
        id,
        vec![ReadOutcome::Read(b"hi".to_vec()), ReadOutcome::Read(Vec::new()), ReadOutcome::WouldBlock],
    );
    assert_eq!(acc, b"hi".to_vec());
    assert_eq!(steps, 2);
    assert_eq!(s.get(id).unwrap().state(), ClientState::Closing);
    assert_eq!(s.finish_event(id), Followup::Disconnect);
    assert!(s.get(id).is_none());
    assert_eq!(s.finish_event(id), Followup::Ignore);
    assert!(!s.close(id));
    assert_eq!(s.accept(), Some(id));
}

#[test]
fn read_failure_closes() {
    let mut s = Server::new(1);
    let id = s.accept().unwrap();
    let mut acc = Vec::new();
    assert!(!s.read_step(id, &mut acc, ReadOutcome::Failed));
    assert_eq!(s.get(id).unwrap().state(), ClientState::Closing);
    assert_eq!(s.finish_event(id), Followup::Disconnect);
    assert_eq!(s.free_count(), 1);
}

#[test]
fn paused_reads_deliver_nothing() {
    let mut s = Server::new(1);
    let id = s.accept().unwrap();
    assert!(s.set_read_interest(id, false));
    assert_eq!(s.get(id).unwrap().event_set(), Interest::WriteOnly);
    let (acc, steps) = drain_reads(&mut s, id, vec![ReadOutcome::Read(b"later".to_vec())]);
    assert!(acc.is_empty());
    assert_eq!(steps, 1);
    assert_eq!(s.get(id).unwrap().state(), ClientState::Open);
    assert_eq!(s.finish_event(id), Followup::Rearm(Interest::WriteOnly));
    assert!(s.set_read_interest(id, true));
    let (acc, _) = drain_reads(
        &mut s,
        id,
        vec![ReadOutcome::Read(b"later".to_vec()), ReadOutcome::WouldBlock],
    );
    assert_eq!(acc, b"later".to_vec());
}

#[test]
fn sends_reach_the_wire_in_order() {
    let mut s = Server::new(1);
    let id = s.accept().unwrap();
    assert!(s.send(id, b"X".to_vec()));
    assert!(s.send(id, b"Y".to_vec()));
    assert_eq!(s.get(id).unwrap().queued(), 2);
    assert_eq!(wire_of(&mut s, id), b"XY".to_vec());
    assert_eq!(s.get(id).unwrap().queued(), 0);
    assert!(s.front(id).is_none());
}

#[test]
fn partial_write_keeps_the_remainder() {
    let mut s = Server::new(1);
    let id = s.accept().unwrap();
    assert!(s.send(id, b"hello".to_vec()));
    assert!(s.send(id, b"!".to_vec()));
    assert!(s.write_step(id, WriteOutcome::Written(2)));
    assert_eq!(s.front(id).unwrap().clone(), b"llo".to_vec());
    assert!(!s.write_step(id, WriteOutcome::WouldBlock));
    assert_eq!(s.front(id).unwrap().clone(), b"llo".to_vec());
    assert!(s.write_step(id, WriteOutcome::Interrupted));
    assert_eq!(wire_of(&mut s, id), b"llo!".to_vec());
}

#[test]
fn zero_write_closes() {
    let mut s = Server::new(1);
    let id = s.accept().unwrap();
    assert!(s.send(id, b"abc".to_vec()));
    assert!(!s.write_step(id, WriteOutcome::Written(0)));
    assert_eq!(s.get(id).unwrap().state(), ClientState::Closing);
    assert!(s.front(id).is_none());
}

#[test]
fn write_failure_closes() {
    let mut s = Server::new(1);
    let id = s.accept().unwrap();
    assert!(s.send(id, b"abc".to_vec()));
    assert!(!s.write_step(id, WriteOutcome::Failed));
    assert_eq!(s.get(id).unwrap().state(), ClientState::Closing);
}

#[test]
fn empty_queue_ends_write() {
    let mut s = Server::new(1);
    let id = s.accept().unwrap();
    assert!(s.send(id, Vec::new()));
    assert_eq!(s.get(id).unwrap().queued(), 0);
    assert!(!s.write_step(id, WriteOutcome::Written(4)));
    assert_eq!(s.get(id).unwrap().state(), ClientState::Open);
}

#[test]
fn unknown_identifier_requests_fail() {
    let mut s = Server::new(1);
    assert!(!s.send(1, b"x".to_vec()));
    assert!(!s.set_read_interest(1, false));
    assert!(!s.close(1));
    let mut acc = Vec::new();
    assert!(!s.read_step(1, &mut acc, ReadOutcome::Read(b"x".to_vec())));
    assert!(acc.is_empty());
    assert!(!s.write_step(1, WriteOutcome::Written(1)));
}

#[test]
fn close_notifies_once() {
    let mut s = Server::new(2);
    let id = s.accept().unwrap();
    assert!(s.close(id));
    assert!(s.get(id).is_none());
    assert!(!s.close(id));
    assert_eq!(s.free_count(), 2);
    assert_eq!(s.accept(), Some(id));
}

#[test]
fn client_close_is_idempotent() {
    let mut c = Client::new(5);
    assert!(c.send(b"q".to_vec()));
    assert!(c.close_socket());
    assert_eq!(c.state(), ClientState::Closed);
    assert!(!c.close_socket());
    assert_eq!(c.state(), ClientState::Closed);
    assert!(!c.send(b"r".to_vec()));
    let mut acc = Vec::new();
    assert!(!c.read_step(&mut acc, ReadOutcome::Read(b"z".to_vec())));
    assert!(acc.is_empty());
    assert!(!c.write_step(WriteOutcome::Written(1)));
    assert!(c.front().is_none());
    assert_eq!(c.state(), ClientState::Closed);
}

#[test]
fn events_are_routed() {
    let mut s = Server::new(2);
    let id = s.accept().unwrap();
    assert_eq!(s.route(SERVER), Route::Listener);
    assert_eq!(s.route(id), Route::Connection(id));
    assert_eq!(s.route(2), Route::Ignore);
    assert_eq!(s.route(9), Route::Ignore);
    s.remove(id);
    assert_eq!(s.route(id), Route::Ignore);
}
