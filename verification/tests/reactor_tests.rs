use event_loop::buffer::{from_slice, Buffer};
use event_loop::kernel::{EventIdentity, Interest};
use event_loop::queue::{Directory, Polled};
use event_loop::reactor::{
    accept_step, read_step, respond, write_step, AcceptOutcome, Reactor, ReadOutcome, ReadStep,
    WriteOutcome, WriteStep,
};
use event_loop::record::{Event, GeneralEvent, ListenerEvent};

fn dir() -> Directory {
    Directory { root: String::from("/srv/www") }
}

fn reactor() -> Reactor {
    Reactor::new(dir(), Ok(3), Ok(4), Ok(5)).unwrap()
}

fn listener() -> ListenerEvent {
    ListenerEvent::new(6, Buffer::new())
}

fn counts(reactor: &Reactor) -> (usize, usize, usize) {
    (reactor.incoming.events.len(), reactor.reading.events.len(), reactor.writing.events.len())
}

#[test]
fn reactor_owns_three_empty_queues() {
    let reactor = reactor();
    assert_eq!(reactor.incoming.fd, 3);
    assert_eq!(reactor.reading.fd, 4);
    assert_eq!(reactor.writing.fd, 5);
    assert_eq!(counts(&reactor), (0, 0, 0));
    assert_eq!(reactor.incoming.dir.root, "/srv/www");
    assert_eq!(reactor.reading.dir.root, "/srv/www");
    assert_eq!(reactor.writing.dir.root, "/srv/www");
    assert_eq!(reactor.kernel_queue(Interest::Read), 4);
    assert_eq!(reactor.kernel_queue(Interest::Write), 5);
}

#[test]
fn reactor_reports_the_first_queue_that_the_kernel_refused() {
    let first = Reactor::new(dir(), Err(String::from("a")), Err(String::from("b")), Ok(5));
    assert_eq!(first.err(), Some(String::from("a")));
    let second = Reactor::new(dir(), Ok(3), Err(String::from("b")), Err(String::from("c")));
    assert_eq!(second.err(), Some(String::from("b")));
    let third = Reactor::new(dir(), Ok(3), Ok(4), Err(String::from("c")));
    assert_eq!(third.err(), Some(String::from("c")));
}

#[test]
fn listen_registers_the_listener() {
    let mut reactor = reactor();
    assert_eq!(reactor.listen(listener(), Ok(())), Ok(()));
    assert_eq!(counts(&reactor), (1, 0, 0));
    assert_eq!(reactor.incoming.events[0].listener(), 6);
    let res = reactor.listen(listener(), Err(String::from("bad descriptor")));
    assert_eq!(res, Err(String::from("bad descriptor")));
    assert_eq!(counts(&reactor), (1, 0, 0));
}

#[test]
fn place_routes_a_record_by_its_interest() {
    let mut reactor = reactor();
    reactor.place(Event::new_read(10, Buffer::new()), Ok(())).unwrap();
    assert_eq!(counts(&reactor), (0, 1, 0));
    reactor.place(Event::new_write(11, Buffer::new()), Ok(())).unwrap();
    assert_eq!(counts(&reactor), (0, 1, 1));
    assert_eq!(reactor.reading.events[0].stream(), 10);
    assert_eq!(reactor.writing.events[0].stream(), 11);
    let res = reactor.place(Event::new_write(12, Buffer::new()), Err(String::from("closed")));
    assert_eq!(res, Err(String::from("closed")));
    assert_eq!(counts(&reactor), (0, 1, 1));
}

#[test]
fn an_accepted_connection_starts_reading_with_an_empty_buffer() {
    let step = accept_step(listener(), AcceptOutcome::Accepted(10));
    assert_eq!(step.listener.listener(), 6);
    let connection = step.connection.expect("a record for the new connection");
    assert_eq!(connection.stream(), 10);
    assert_eq!(connection.get_kevent(), EventIdentity::read(10));
    assert_eq!(connection.data().len(), 0);
    assert!(connection.data().as_array().iter().all(|b| *b == 0));
    assert_eq!(connection.written(), 0);
}

#[test]
fn an_accept_that_would_block_yields_no_connection_and_keeps_the_listener() {
    let step = accept_step(listener(), AcceptOutcome::WouldBlock);
    assert!(step.connection.is_none());
    assert_eq!(step.listener.listener(), 6);
    assert_eq!(step.listener.get_kevent(), EventIdentity::read(6));
}

#[test]
fn a_failed_accept_yields_no_connection_and_keeps_the_listener() {
    let step = accept_step(listener(), AcceptOutcome::Failed);
    assert!(step.connection.is_none());
    assert_eq!(step.listener.listener(), 6);
}

#[test]
fn a_read_that_would_block_hands_the_record_back() {
    let record = Event::new_read(10, from_slice(b"kept"));
    match read_step(record, ReadOutcome::WouldBlock) {
        ReadStep::Requeue(record) => {
            assert_eq!(record.stream(), 10);
            assert_eq!(record.get_kevent(), EventIdentity::read(10));
            assert_eq!(record.data().data(), b"kept");
        }
        _ => panic!("a read that would block must wait again"),
    }
}

#[test]
fn a_failed_read_closes_the_connection() {
    let record = Event::new_read(10, Buffer::new());
    match read_step(record, ReadOutcome::Failed) {
        ReadStep::Close(stream) => assert_eq!(stream, 10),
        _ => panic!("a failed read must close"),
    }
}

#[test]
fn a_read_stores_the_request() {
    let record = Event::new_read(10, Buffer::new());
    match read_step(record, ReadOutcome::Received(b"GET /\r\n\r\n".to_vec())) {
        ReadStep::Respond(record) => {
            assert_eq!(record.stream(), 10);
            assert_eq!(record.get_kevent(), EventIdentity::read(10));
            assert_eq!(record.data().data(), b"GET /\r\n\r\n");
            assert_eq!(&record.data().as_array()[..9], b"GET /\r\n\r\n");
            assert!(record.data().as_array()[9..].iter().all(|b| *b == 0));
        }
        _ => panic!("a read that returned must be answered"),
    }
}

#[test]
fn a_read_of_no_bytes_is_answered() {
    let record = Event::new_read(10, Buffer::new());
    match read_step(record, ReadOutcome::Received(Vec::new())) {
        ReadStep::Respond(record) => {
            assert_eq!(record.stream(), 10);
            assert_eq!(record.data().len(), 0);
            assert!(record.data().as_array().iter().all(|b| *b == 0));
        }
        ReadStep::Requeue(_) => panic!("a closed peer is no blocked read"),
        ReadStep::Close(_) => panic!("a closed peer is no failure"),
    }
}

#[test]
fn a_read_replaces_what_the_buffer_held() {
    let record = Event::new_read(10, from_slice(b"a longer leftover"));
    match read_step(record, ReadOutcome::Received(b"new".to_vec())) {
        ReadStep::Respond(record) => {
            assert_eq!(record.data().data(), b"new");
            assert!(record.data().as_array()[3..].iter().all(|b| *b == 0));
        }
        _ => panic!("a read that returned must be answered"),
    }
}

#[test]
fn respond_builds_the_write_record() {
    let record = Event::new_read(10, from_slice(b"GET /\r\n\r\n"));
    let record = respond(record, b"HTTP/1.1 404 Not Found\r\n\r\n");
    assert_eq!(record.stream(), 10);
    assert_eq!(record.get_kevent(), EventIdentity::write(10));
    assert_eq!(record.data().data(), b"HTTP/1.1 404 Not Found\r\n\r\n");
    assert_eq!(record.written(), 0);
    assert_eq!(record.unsent(), b"HTTP/1.1 404 Not Found\r\n\r\n");
}

#[test]
fn a_write_that_would_block_hands_the_record_back() {
    let record = Event::new_write(10, from_slice(b"response")).advanced(3);
    match write_step(record, WriteOutcome::WouldBlock) {
        WriteStep::Requeue(record) => {
            assert_eq!(record.stream(), 10);
            assert_eq!(record.get_kevent(), EventIdentity::write(10));
            assert_eq!(record.written(), 3);
            assert_eq!(record.unsent(), b"ponse");
        }
        _ => panic!("a write that would block must wait again"),
    }
}

#[test]
fn a_failed_write_closes_the_connection() {
    let record = Event::new_write(10, from_slice(b"response"));
    match write_step(record, WriteOutcome::Failed) {
        WriteStep::Close(stream) => assert_eq!(stream, 10),
        _ => panic!("a failed write must close"),
    }
}

#[test]
fn a_full_write_ends_the_connection() {
    let record = Event::new_write(10, from_slice(b"response"));
    match write_step(record, WriteOutcome::Written(8)) {
        WriteStep::Done(stream) => assert_eq!(stream, 10),
        _ => panic!("nothing is left to send"),
    }
}

#[test]
fn a_partial_write_is_retried_with_the_rest() {
    let record = Event::new_write(10, from_slice(b"response"));
    let record = match write_step(record, WriteOutcome::Written(3)) {
        WriteStep::Requeue(record) => record,
        _ => panic!("five bytes are left to send"),
    };
    assert_eq!(record.written(), 3);
    assert_eq!(record.unsent(), b"ponse");
    assert_eq!(record.get_kevent(), EventIdentity::write(10));
    let record = match write_step(record, WriteOutcome::Written(4)) {
        WriteStep::Requeue(record) => record,
        _ => panic!("one byte is left to send"),
    };
    assert_eq!(record.written(), 7);
    assert_eq!(record.unsent(), b"e");
    match write_step(record, WriteOutcome::Written(1)) {
        WriteStep::Done(stream) => assert_eq!(stream, 10),
        _ => panic!("nothing is left to send"),
    }
}

#[test]
fn a_write_of_no_bytes_is_retried() {
    let record = Event::new_write(10, from_slice(b"response"));
    match write_step(record, WriteOutcome::Written(0)) {
        WriteStep::Requeue(record) => {
            assert_eq!(record.written(), 0);
            assert_eq!(record.unsent(), b"response");
        }
        _ => panic!("all bytes are left to send"),
    }
}

#[test]
fn an_empty_response_is_done_at_once() {
    let record = respond(Event::new_read(10, Buffer::new()), b"");
    assert_eq!(record.unsent(), b"");
    match write_step(record, WriteOutcome::Written(0)) {
        WriteStep::Done(stream) => assert_eq!(stream, 10),
        _ => panic!("nothing was to be sent"),
    }
}

#[test]
fn a_count_beyond_the_rest_ends_the_connection() {
    let record = Event::new_write(10, from_slice(b"response")).advanced(5);
    match write_step(record, WriteOutcome::Written(usize::MAX)) {
        WriteStep::Done(stream) => assert_eq!(stream, 10),
        _ => panic!("nothing is left to send"),
    }
}

#[test]
fn a_request_is_read_answered_and_written() {
    let mut reactor = reactor();
    reactor.listen(listener(), Ok(())).unwrap();

    let mut listeners = match reactor.incoming.poll(Ok(vec![EventIdentity::read(6)])) {
        Ok(Polled::Ready(listeners)) => listeners,
        _ => panic!("the listener was ready"),
    };
    assert_eq!(counts(&reactor), (0, 0, 0));
    let step = accept_step(listeners.remove(0), AcceptOutcome::Accepted(10));
    reactor.place(step.connection.unwrap(), Ok(())).unwrap();
    reactor.listen(step.listener, Ok(())).unwrap();
    assert_eq!(counts(&reactor), (1, 1, 0));

    let mut readable = match reactor.reading.poll(Ok(vec![EventIdentity::read(10)])) {
        Ok(Polled::Ready(records)) => records,
        _ => panic!("the connection was readable"),
    };
    assert_eq!(counts(&reactor), (1, 0, 0));
    let record =
        match read_step(readable.remove(0), ReadOutcome::Received(b"GET /\r\n\r\n".to_vec())) {
            ReadStep::Respond(record) => record,
            _ => panic!("the request was read"),
        };
    assert_eq!(&record.data().as_array()[..9], b"GET /\r\n\r\n");
    let response = b"HTTP/1.1 200 OK\r\nContent-Length:0\r\n\r\n";
    assert_eq!(response.len(), 37);
    let record = respond(record, response);
    assert_eq!(&record.data().as_array()[..37], response);
    assert_eq!(record.data().as_array()[37..].len(), 2011);
    assert!(record.data().as_array()[37..].iter().all(|b| *b == 0));
    reactor.place(record, Ok(())).unwrap();
    assert_eq!(counts(&reactor), (1, 0, 1));

    let mut writable = match reactor.writing.poll(Ok(vec![EventIdentity::write(10)])) {
        Ok(Polled::Ready(records)) => records,
        _ => panic!("the connection was writable"),
    };
    assert_eq!(counts(&reactor), (1, 0, 0));
    let record = writable.remove(0);
    assert_eq!(record.unsent(), response);
    assert_eq!(record.unsent().len(), 37);
    match write_step(record, WriteOutcome::Written(37)) {
        WriteStep::Done(stream) => assert_eq!(stream, 10),
        _ => panic!("the whole response was written"),
    }
    assert_eq!(counts(&reactor), (1, 0, 0));

    let step = accept_step(
        match reactor.incoming.poll(Ok(vec![EventIdentity::read(6)])) {
            Ok(Polled::Ready(mut listeners)) => listeners.remove(0),
            _ => panic!("the listener was ready"),
        },
        AcceptOutcome::Accepted(11),
    );
    let next = step.connection.unwrap();
    assert_eq!(next.data().len(), 0);
    assert!(next.data().as_array().iter().all(|b| *b == 0));
}

#[test]
fn an_oversized_response_never_offers_more_than_the_capacity() {
    let mut response = Vec::new();
    for i in 0..5000usize {
        response.push((i % 200) as u8);
    }
    let mut record = respond(Event::new_read(10, Buffer::new()), &response);
    assert_eq!(record.unsent().len(), 2048);
    assert_eq!(record.unsent(), &response[..2048]);
    let mut offered = 0;
    loop {
        let rest = record.unsent().len();
        assert!(rest <= 2048);
        offered += 1;
        match write_step(record, WriteOutcome::Written(1000)) {
            WriteStep::Requeue(next) => {
                assert_eq!(next.unsent().len(), rest - 1000);
                record = next;
            }
            WriteStep::Done(stream) => {
                assert_eq!(stream, 10);
                break;
            }
            WriteStep::Close(_) => panic!("no write failed"),
        }
    }
    assert_eq!(offered, 3);
}

#[test]
fn a_peer_that_closes_at_once_is_answered() {
    let mut reactor = reactor();
    let step = accept_step(listener(), AcceptOutcome::Accepted(10));
    reactor.place(step.connection.unwrap(), Ok(())).unwrap();
    let mut readable = match reactor.reading.poll(Ok(vec![EventIdentity::read(10)])) {
        Ok(Polled::Ready(records)) => records,
        _ => panic!("the connection was readable"),
    };
    match read_step(readable.remove(0), ReadOutcome::Received(Vec::new())) {
        ReadStep::Respond(record) => {
            reactor.place(respond(record, b"HTTP/1.1 400 Bad Request\r\n\r\n"), Ok(())).unwrap();
        }
        _ => panic!("a read of no bytes is a read"),
    }
    assert_eq!(counts(&reactor), (0, 0, 1));
    assert_eq!(reactor.writing.events[0].stream(), 10);
}

#[test]
fn a_blocked_read_reappears_in_the_reading_queue() {
    let mut reactor = reactor();
    reactor.place(Event::new_read(10, Buffer::new()), Ok(())).unwrap();
    reactor.place(Event::new_read(11, Buffer::new()), Ok(())).unwrap();
    let mut readable = match reactor.reading.poll(Ok(vec![EventIdentity::read(10)])) {
        Ok(Polled::Ready(records)) => records,
        _ => panic!("the connection was readable"),
    };
    assert_eq!(counts(&reactor), (0, 1, 0));
    match read_step(readable.remove(0), ReadOutcome::WouldBlock) {
        ReadStep::Requeue(record) => reactor.place(record, Ok(())).unwrap(),
        _ => panic!("a read that would block must wait again"),
    }
    assert_eq!(counts(&reactor), (0, 2, 0));
    assert_eq!(reactor.reading.events[0].stream(), 11);
    assert_eq!(reactor.reading.events[1].stream(), 10);
}

#[test]
fn a_blocked_write_reappears_in_the_writing_queue() {
    let mut reactor = reactor();
    reactor.place(Event::new_write(10, from_slice(b"response")), Ok(())).unwrap();
    let mut writable = match reactor.writing.poll(Ok(vec![EventIdentity::write(10)])) {
        Ok(Polled::Ready(records)) => records,
        _ => panic!("the connection was writable"),
    };
    assert_eq!(counts(&reactor), (0, 0, 0));
    match write_step(writable.remove(0), WriteOutcome::WouldBlock) {
        WriteStep::Requeue(record) => reactor.place(record, Ok(())).unwrap(),
        _ => panic!("a write that would block must wait again"),
    }
    assert_eq!(counts(&reactor), (0, 0, 1));
    assert_eq!(reactor.writing.events[0].stream(), 10);
    assert_eq!(reactor.writing.events[0].unsent(), b"response");
}

#[test]
fn accepting_many_connections_keeps_the_listener_registered() {
    let mut reactor = reactor();
    reactor.listen(listener(), Ok(())).unwrap();
    for round in 0..50 {
        let mut listeners = match reactor.incoming.poll(Ok(vec![EventIdentity::read(6)])) {
            Ok(Polled::Ready(listeners)) => listeners,
            _ => panic!("the listener was ready"),
        };
        assert_eq!(listeners.len(), 1);
        let outcome = match round % 3 {
            0 => AcceptOutcome::Accepted(100 + round),
            1 => AcceptOutcome::WouldBlock,
            _ => AcceptOutcome::Failed,
        };
        let step = accept_step(listeners.remove(0), outcome);
        if let Some(connection) = step.connection {
            reactor.place(connection, Ok(())).unwrap();
        }
        reactor.listen(step.listener, Ok(())).unwrap();
        assert_eq!(reactor.incoming.events.len(), 1);
        assert_eq!(reactor.incoming.events[0].listener(), 6);
    }
    assert_eq!(counts(&reactor), (1, 17, 0));
}

#[test]
fn a_connection_is_in_one_queue_at_a_time() {
    let mut reactor = reactor();
    let holds = |reactor: &Reactor| {
        let reading = reactor.reading.events.iter().filter(|e| e.stream() == 10).count();
        let writing = reactor.writing.events.iter().filter(|e| e.stream() == 10).count();
        (reading, writing)
    };
    reactor.place(Event::new_read(10, Buffer::new()), Ok(())).unwrap();
    reactor.place(Event::new_read(11, Buffer::new()), Ok(())).unwrap();
    assert_eq!(holds(&reactor), (1, 0));
    let mut readable = match reactor.reading.poll(Ok(vec![EventIdentity::read(10)])) {
        Ok(Polled::Ready(records)) => records,
        _ => panic!("the connection was readable"),
    };
    assert_eq!(holds(&reactor), (0, 0));
    let record = match read_step(readable.remove(0), ReadOutcome::Received(b"x".to_vec())) {
        ReadStep::Respond(record) => respond(record, b"y"),
        _ => panic!("the request was read"),
    };
    reactor.place(record, Ok(())).unwrap();
    assert_eq!(holds(&reactor), (0, 1));
    let mut writable = match reactor.writing.poll(Ok(vec![EventIdentity::write(10)])) {
        Ok(Polled::Ready(records)) => records,
        _ => panic!("the connection was writable"),
    };
    assert_eq!(holds(&reactor), (0, 0));
    match write_step(writable.remove(0), WriteOutcome::Written(1)) {
        WriteStep::Done(stream) => assert_eq!(stream, 10),
        _ => panic!("the response was written"),
    }
    assert_eq!(holds(&reactor), (0, 0));
    assert_eq!(counts(&reactor), (0, 1, 0));
}
