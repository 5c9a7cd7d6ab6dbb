use beaver::decode::{ConnectInfo, Decode, Message, Poll};
use beaver::router::Router;
use beaver::service::{Session, WriteBuffer};

fn one_message(bytes: &[u8]) -> Message {
    let mut decode = Decode::new(64);
    decode.set_buff(bytes);
    match decode.decode() {
        Ok(Poll::Ready(message)) => message,
        _ => panic!("message parse error"),
    }
}

#[test]
fn ping_gets_pong() {
    let mut router = Router::new();
    let mut session = Session::new(1, 512);
    let out = session.handle(&mut router, one_message(b"PING\r\n"));
    assert_eq!(out.reply, b"PONG\r\n".to_vec());
    assert!(out.deliveries.is_empty());
    assert!(!out.close);
}

#[test]
fn pong_gets_ping() {
    let mut router = Router::new();
    let mut session = Session::new(1, 512);
    let out = session.handle(&mut router, one_message(b"PONG\r\n"));
    assert_eq!(out.reply, b"PING\r\n".to_vec());
}

#[test]
fn subscribe_then_publish() {
    let mut router = Router::new();
    let mut c1 = Session::new(1, 512);
    let mut c2 = Session::new(2, 512);
    c1.handle(&mut router, one_message(b"SUB foo 9\r\n"));
    let out = c2.handle(&mut router, one_message(b"PUB foo 11\r\nHello NATS!\r\n"));
    assert_eq!(out.reply, b"+OK\r\n".to_vec());
    assert_eq!(out.deliveries.len(), 1);
    assert_eq!(out.deliveries[0].client, 1);
    assert_eq!(out.deliveries[0].frame, b"MSG foo 9 11\r\nHello NATS!\r\n".to_vec());
}

#[test]
fn reply_subject_is_carried() {
    let mut router = Router::new();
    let mut c1 = Session::new(1, 512);
    let mut c2 = Session::new(2, 512);
    c1.handle(&mut router, one_message(b"SUB foo 3\r\n"));
    let out = c2.handle(&mut router, one_message(b"PUB foo bar 5\r\nhello\r\n"));
    assert_eq!(out.deliveries.len(), 1);
    assert_eq!(out.deliveries[0].frame, b"MSG foo 3 bar 5\r\nhello\r\n".to_vec());
}

#[test]
fn unsub_with_max() {
    let mut router = Router::new();
    let mut c1 = Session::new(1, 512);
    let mut c2 = Session::new(2, 512);
    c1.handle(&mut router, one_message(b"SUB foo 1\r\n"));
    c1.handle(&mut router, one_message(b"UNSUB 1 2\r\n"));
    let first = c2.handle(&mut router, one_message(b"PUB foo 2\r\nhi\r\n"));
    let second = c2.handle(&mut router, one_message(b"PUB foo 2\r\nhi\r\n"));
    let third = c2.handle(&mut router, one_message(b"PUB foo 2\r\nhi\r\n"));
    assert_eq!(first.deliveries.len(), 1);
    assert_eq!(second.deliveries.len(), 1);
    assert_eq!(third.deliveries.len(), 0);
    assert_eq!(router.subscriptions_of(b"foo"), 0);
}

#[test]
fn unsub_without_max_stops_delivery() {
    let mut router = Router::new();
    let mut c1 = Session::new(1, 512);
    let mut c2 = Session::new(2, 512);
    c1.handle(&mut router, one_message(b"SUB foo 1\r\n"));
    c1.handle(&mut router, one_message(b"SUB foo 2\r\n"));
    c1.handle(&mut router, one_message(b"UNSUB 1\r\n"));
    let out = c2.handle(&mut router, one_message(b"PUB foo 2\r\nhi\r\n"));
    assert_eq!(out.deliveries.len(), 1);
    assert_eq!(out.deliveries[0].sid, b"2".to_vec());
}

#[test]
fn unsub_with_zero_max_removes_at_once() {
    let mut router = Router::new();
    let mut c1 = Session::new(1, 512);
    c1.handle(&mut router, one_message(b"SUB foo 1\r\n"));
    c1.handle(&mut router, one_message(b"UNSUB 1 0\r\n"));
    assert_eq!(router.subscriptions_of(b"foo"), 0);
}

#[test]
fn dotted_subjects() {
    let mut router = Router::new();
    let mut c1 = Session::new(1, 512);
    let mut c2 = Session::new(2, 512);
    c1.handle(&mut router, one_message(b"SUB a.b.c 7\r\n"));
    let hit = c2.handle(&mut router, one_message(b"PUB a.b.c 2\r\nhi\r\n"));
    let parent = c2.handle(&mut router, one_message(b"PUB a.b 2\r\nhi\r\n"));
    let sibling = c2.handle(&mut router, one_message(b"PUB a.b.d 2\r\nhi\r\n"));
    assert_eq!(hit.deliveries.len(), 1);
    assert_eq!(hit.deliveries[0].frame, b"MSG a.b.c 7 2\r\nhi\r\n".to_vec());
    assert_eq!(parent.deliveries.len(), 0);
    assert_eq!(sibling.deliveries.len(), 0);
}

#[test]
fn disconnect_cleanup() {
    let mut router = Router::new();
    let mut c1 = Session::new(1, 512);
    let mut c2 = Session::new(2, 512);
    c1.handle(&mut router, one_message(b"SUB x 1\r\n"));
    router.remove_client(1);
    let out = c2.handle(&mut router, one_message(b"PUB x 2\r\nhi\r\n"));
    assert_eq!(out.deliveries.len(), 0);
    assert!(!out.close);
    assert_eq!(out.reply, b"+OK\r\n".to_vec());
}

#[test]
fn publish_reaches_subscribers_in_order() {
    let mut router = Router::new();
    let mut c1 = Session::new(1, 512);
    let mut c2 = Session::new(2, 512);
    let mut c3 = Session::new(3, 512);
    c1.handle(&mut router, one_message(b"SUB s a\r\n"));
    c2.handle(&mut router, one_message(b"SUB s b\r\n"));
    c1.handle(&mut router, one_message(b"SUB s c\r\n"));
    let out = c3.handle(&mut router, one_message(b"PUB s 1\r\nx\r\n"));
    let got: Vec<(u64, Vec<u8>)> = out
        .deliveries
        .iter()
        .map(|d| (d.client, d.sid.clone()))
        .collect();
    assert_eq!(
        got,
        vec![(1, b"a".to_vec()), (2, b"b".to_vec()), (1, b"c".to_vec())]
    );
}

#[test]
fn connect_turns_off_acknowledgements() {
    let mut router = Router::new();
    let mut c1 = Session::new(1, 512);
    let out = c1.handle(
        &mut router,
        Message::Connect(ConnectInfo {
            json: b"{}".to_vec(),
            verbose: Some(false),
            ssl_require: Some(true),
        }),
    );
    assert!(out.reply.is_empty());
    assert!(!c1.verbose);
    assert!(c1.ssl_required);
    let out = c1.handle(&mut router, one_message(b"PUB foo 1\r\nx\r\n"));
    assert!(out.reply.is_empty());
}

#[test]
fn oversized_payload_closes() {
    let mut router = Router::new();
    let mut c1 = Session::new(1, 512);
    let mut c2 = Session::new(2, 4);
    c1.handle(&mut router, one_message(b"SUB foo 1\r\n"));
    let out = c2.handle(&mut router, one_message(b"PUB foo 5\r\nhello\r\n"));
    assert!(out.close);
    assert_eq!(out.reply, b"-ERR 'Maximum Payload Exceeded'\r\n".to_vec());
    assert!(out.deliveries.is_empty());
    let out = c2.handle(&mut router, one_message(b"PUB foo 4\r\nhell\r\n"));
    assert!(!out.close);
    assert_eq!(out.deliveries.len(), 1);
}

#[test]
fn write_buffer_batches() {
    let mut buffer = WriteBuffer::new(8);
    assert!(buffer.write(b"abc").is_empty());
    assert!(buffer.write(b"defgh").is_empty());
    assert_eq!(buffer.write(b"ij"), b"abcdefgh".to_vec());
    assert_eq!(buffer.flush(), b"ij".to_vec());
    assert!(buffer.flush().is_empty());
    assert!(buffer.write(b"0123456789").is_empty());
    assert_eq!(buffer.write(b"x"), b"0123456789".to_vec());
}

#[test]
fn protocol_error_closes() {
    let session = Session::new(1, 512);
    let out = session.protocol_error();
    assert_eq!(out.reply, b"-ERR 'Unknown Protocol Operation'\r\n".to_vec());
    assert!(out.close);
    assert!(out.deliveries.is_empty());
}

#[test]
fn close_removes_subscriptions() {
    let mut router = Router::new();
    let mut c1 = Session::new(1, 512);
    let mut c2 = Session::new(2, 512);
    c1.handle(&mut router, one_message(b"SUB x 1\r\n"));
    c2.handle(&mut router, one_message(b"SUB x 2\r\n"));
    c1.close(&mut router);
    assert_eq!(router.subscriptions_of(b"x"), 1);
}
