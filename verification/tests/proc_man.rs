use stupid_fish::hack::proc_man::request::{Code, Request, UnknownRequest};
use stupid_fish::hack::proc_man::{status_request_message, ChannelServer, Message, Payload};
use std::collections::HashSet;

#[test]
fn tests_request() -> std::io::Result<()> {
    // Two requests exist.
    assert_eq!(Request::all().into_iter().collect::<HashSet<_>>().len(), 2);

    for (index, item) in Request::all().into_iter().enumerate() {
        assert_eq!(usize::try_from(item.id()).unwrap(), index);
    }

    Ok(())
}

#[test]
fn request_codes_round_trip() {
    for r in Request::all() {
        assert_eq!(Request::try_from(r.id()), Ok(r));
        assert_eq!(Code::from(r), r.id());
    }
    assert_eq!(Request::try_from(0), Ok(Request::ReportNewProcess));
    assert_eq!(Request::try_from(1), Ok(Request::WatchForProcesses));
    assert_eq!(Request::try_from(2), Err(UnknownRequest { code: 2 }));
    assert_eq!(Request::try_from(u64::MAX), Err(UnknownRequest { code: u64::MAX }));
}

#[test]
fn status_requests_become_messages() {
    match status_request_message(0, Some((Some(7), Some("vim".to_string()))), "addr") {
        Ok(Some(Message::NewProcess { id, exe })) => {
            assert_eq!(id, 7);
            assert_eq!(exe, "vim");
        },
        _ => panic!("expected a new process"),
    }
    assert!(matches!(status_request_message(0, Some((None, Some("vim".to_string()))), "addr"), Ok(None)));
    assert!(matches!(status_request_message(0, Some((Some(7), None)), "addr"), Ok(None)));
    assert!(matches!(status_request_message(0, None, "addr"), Ok(None)));
    assert!(matches!(status_request_message(1, None, "addr"), Ok(Some(Message::NewClient("addr")))));
    assert!(matches!(status_request_message(5, None, "addr"), Err(UnknownRequest { code: 5 })));
}

fn sorted(mut v: Vec<u64>) -> Vec<u64> {
    v.sort();
    v
}

#[test]
fn channel_server_broadcasts_to_registered_clients() {
    let mut server: ChannelServer<&str> = ChannelServer::new();
    assert!(server.handle(Message::NewClient("first")).is_none());
    assert!(server.handle(Message::NewClient("second")).is_none());
    assert_eq!(server.address(0), Some(&"first"));
    assert_eq!(server.address(1), Some(&"second"));
    assert_eq!(server.address(2), None);

    let b = server.handle(Message::NewProcess { id: 42, exe: "top".to_string() }).unwrap();
    assert_eq!(sorted(b.clients), vec![0, 1]);
    match b.payload {
        Payload::Process { id, exe } => {
            assert_eq!(id, 42);
            assert_eq!(exe, "top");
        },
        Payload::NoProcess => panic!("expected process news"),
    }

    // Another process finishing is not news.
    assert!(server.handle(Message::ProcessFinished(41)).is_none());

    assert!(server.handle(Message::RemoveClient(0)).is_none());
    assert_eq!(server.address(0), None);

    let b = server.handle(Message::ProcessFinished(42)).unwrap();
    assert_eq!(b.clients, vec![1]);
    assert!(matches!(b.payload, Payload::NoProcess));

    // Finishing it again is not news either.
    assert!(server.handle(Message::ProcessFinished(42)).is_none());
}

#[test]
fn channel_server_never_reuses_client_ids() {
    let mut server: ChannelServer<u8> = ChannelServer::new();
    server.handle(Message::NewClient(1));
    server.handle(Message::RemoveClient(0));
    server.handle(Message::NewClient(2));
    assert_eq!(server.address(0), None);
    assert_eq!(server.address(1), Some(&2));
    let b = server.handle(Message::NewProcess { id: 1, exe: String::new() }).unwrap();
    assert_eq!(b.clients, vec![1]);
}

#[test]
fn no_clients_means_empty_broadcast() {
    let mut server: ChannelServer<u8> = ChannelServer::new();
    let b = server.handle(Message::NewProcess { id: 3, exe: "sh".to_string() }).unwrap();
    assert!(b.clients.is_empty());
}

#[test]
fn kth_client_gets_id_k() {
    let mut server: ChannelServer<char> = ChannelServer::new();
    for (k, a) in ['a', 'b', 'c'].into_iter().enumerate() {
        assert_eq!(server.next_client_id(), k as u64);
        server.handle(Message::NewClient(a));
        assert_eq!(server.address(k as u64), Some(&a));
    }
    server.handle(Message::RemoveClient(1));
    server.handle(Message::ProcessFinished(9));
    assert_eq!(server.address(0), Some(&'a'));
    assert_eq!(server.address(1), None);
    assert_eq!(server.address(2), Some(&'c'));
    assert_eq!(server.next_client_id(), 3);
}

#[test]
fn unknown_request_message_names_the_code() {
    assert_eq!(UnknownRequest { code: 2 }.message(), "Unknown request: 2");
    assert_eq!(UnknownRequest { code: 1234 }.message(), "Unknown request: 1234");
    match Request::try_from(u64::MAX) {
        Err(e) => assert_eq!(e.message(), "Unknown request: 18446744073709551615"),
        Ok(_) => panic!("expected an unknown request"),
    }
}
