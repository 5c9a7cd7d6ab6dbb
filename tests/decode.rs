use beaver::decode::{Decode, Error, Message, Poll};

fn json(bytes: &[u8]) -> serde_json::Value {
    serde_json::from_slice::<serde_json::Value>(bytes).unwrap()
}

#[test]
fn decode_pong() {
    let mut decode = Decode::new(512);

    decode.set_buff(b"PONG\r\n");

    let result = decode.decode();
    if let Ok(Poll::Ready(message)) = result {
        assert_eq!(message, Message::Pong);
    } else {
        panic!("message parse error");
    }

    decode.reset();

    decode.set_buff(b"PONG\n");

    let result = decode.decode();
    if let Ok(Poll::Ready(message)) = result {
        assert_eq!(message, Message::Pong);
    } else {
        panic!("message parse error");
    }

    decode.reset();

    decode.set_buff(b"pong\r\n");
    assert_eq!(decode.decode().is_err(), true);
}

#[test]
fn decode_ping_linux() {
    let mut decode = Decode::new(512);

    decode.set_buff(b"PING\n");
    let result = decode.decode();
    if let Ok(Poll::Ready(message)) = result {
        assert_eq!(message, Message::Ping);
    } else {
        panic!("message parse error");
    }

    decode.reset();
}

#[test]
fn decode_ping_windows() {
    let mut decode = Decode::new(512);

    decode.set_buff(b"PING\r\n");
    let result = decode.decode();
    if let Ok(Poll::Ready(message)) = result {
        assert_eq!(message, Message::Ping);
    } else {
        panic!("message parse error");
    }

    decode.reset();
}

#[test]
fn decode_connect_windows() {
    let mut decode = Decode::new(512);
    decode.set_buff(b"CONNECT {\"name\":\"#rustlang\",\"pedantic\":false,\"verbose\":true}\r\n");

    let result = decode.decode();

    if let Ok(Poll::Ready(Message::Connect(message))) = result {
        assert_eq!(
            json(&message.json),
            serde_json::from_str::<serde_json::Value>(
                "{\"name\":\"#rustlang\",\"pedantic\":false,\"verbose\":true}"
            )
            .unwrap()
        );
    } else {
        panic!("message parse error");
    }

    decode.reset();
}

#[test]
fn decode_connect_linux() {
    let mut decode = Decode::new(512);
    decode.set_buff(b"CONNECT {\"name\":\"#rustlang\",\"pedantic\":false,\"verbose\":true}\n");

    let result = decode.decode();

    if let Ok(Poll::Ready(Message::Connect(message))) = result {
        assert_eq!(
            json(&message.json),
            serde_json::from_str::<serde_json::Value>(
                "{\"name\":\"#rustlang\",\"pedantic\":false,\"verbose\":true}"
            )
            .unwrap()
        );
    } else {
        panic!("message parse error");
    }

    decode.reset();
}

#[test]
fn decode_connect_chunks() {
    let mut decode = Decode::new(512);

    decode.set_buff(b"CONNE");
    let result = decode.decode();

    assert!(result.unwrap().is_pending());
    decode.set_buff(b"CT {\"name\":\"#rustlang\",\"pedantic\":false,\"verbose\":true}\r\n");
    let result = decode.decode();

    if let Ok(Poll::Ready(Message::Connect(message))) = result {
        assert_eq!(
            json(&message.json),
            serde_json::from_str::<serde_json::Value>(
                "{\"name\":\"#rustlang\",\"pedantic\":false,\"verbose\":true}"
            )
            .unwrap()
        );
    } else {
        panic!("message parse error");
    }

    decode.reset();

    decode.set_buff(b"CONN");
    assert!(decode.decode().unwrap().is_pending());
    decode.set_buff(b"ect asdfasd\r\n");
    assert!(decode.decode().is_err());

    decode.reset();
}

#[test]
#[should_panic]
fn decode_connect_error() {
    let mut decode = Decode::new(512);
    decode.set_buff(b"connect {\"name\":\"#rustlang\",\"pedantic\":false,\"verbose\":true}\r\n");

    let result = decode.decode();

    if let Ok(Poll::Ready(Message::Connect(message))) = result {
        assert_eq!(
            json(&message.json),
            serde_json::from_str::<serde_json::Value>(
                "{\"name\":\"#rustlang\",\"pedantic\":false,\"verbose\":true}"
            )
            .unwrap()
        );
    } else {
        panic!("message parse error");
    }

    decode.reset();
}

#[test]
fn decode_sub() {
    let mut decode = Decode::new(512);

    decode.set_buff(b"SUB asdfasd sdfaf\r\n");

    let result = decode.decode();

    if let Ok(Poll::Ready(Message::Sub(subject, group, sid))) = result {
        assert_eq!(subject, b"asdfasd".to_vec());
        assert!(group.is_none());
        assert_eq!(sid, b"sdfaf".to_vec());
    } else {
        panic!("message parse error");
    }

    decode.reset();

    decode.set_buff(b"SUB asdfasd sdfds sdfaf\r\n");

    let result = decode.decode();

    if let Ok(Poll::Ready(Message::Sub(subject, group, sid))) = result {
        assert_eq!(subject, b"asdfasd".to_vec());
        assert_eq!(group, Some(b"sdfds".to_vec()));
        assert_eq!(sid, b"sdfaf".to_vec());
    } else {
        panic!("message parse error");
    }

    decode.reset();
}

#[test]
fn decode_sub_linux() {
    let mut decode = Decode::new(512);

    decode.set_buff(b"SUB asdfasd sdfaf\n");

    let result = decode.decode();

    if let Ok(Poll::Ready(Message::Sub(subject, group, sid))) = result {
        assert_eq!(subject, b"asdfasd".to_vec());
        assert!(group.is_none());
        assert_eq!(sid, b"sdfaf".to_vec());
    } else {
        panic!("message parse error");
    }

    decode.reset();

    decode.set_buff(b"SUB asdfasd sdfds sdfaf\n");

    let result = decode.decode();

    if let Ok(Poll::Ready(Message::Sub(subject, group, sid))) = result {
        assert_eq!(subject, b"asdfasd".to_vec());
        assert_eq!(group, Some(b"sdfds".to_vec()));
        assert_eq!(sid, b"sdfaf".to_vec());
    } else {
        panic!("message parse error");
    }

    decode.reset();
}

#[test]
#[should_panic]
fn decode_sub_protocol_error() {
    let mut decode = Decode::new(512);
    decode.set_buff(b"sub asdfasd sdfds sdfaf\n");
    let result = decode.decode();
    result.unwrap();

    decode.reset();
}

#[test]
#[should_panic]
fn decode_sub_error() {
    let mut decode = Decode::new(512);
    decode.set_buff(b"SUB asdfasd asdfasdf sdfds sdfaf\n");
    let result = decode.decode();
    result.unwrap();

    decode.reset();
}

#[test]
fn decode_pub_message() {
    let mut decode = Decode::new(512);
    decode.set_buff(b"PUB FOO 11\r\nHello NATS!\r\n");
    let result = decode.decode();

    if let Ok(Poll::Ready(Message::Pub(subject, reply, content))) = result {
        assert_eq!(subject, b"FOO".to_vec());
        assert_eq!(reply, None);
        assert_eq!(content, b"Hello NATS!".to_vec());
    } else {
        panic!("message parse error");
    }

    decode.reset();

    decode.set_buff(b"PUB FOO sdfsa 11\r\nHello World\r\nPUB F= 12\r\nHello World!\r\n");
    let result = decode.decode();

    if let Ok(Poll::Ready(Message::Pub(subject, reply, content))) = result {
        assert_eq!(subject, b"FOO".to_vec());
        assert_eq!(reply, Some(b"sdfsa".to_vec()));
        assert_eq!(content, b"Hello World".to_vec());
    } else {
        panic!("message parse error");
    }

    decode.reset();

    let result = decode.decode();

    if let Ok(Poll::Ready(Message::Pub(subject, reply, content))) = result {
        assert_eq!(subject, b"F=".to_vec());
        assert_eq!(reply, None);
        assert_eq!(content, b"Hello World!".to_vec());
    } else {
        panic!("message parse error");
    }

    decode.reset();

    decode.set_buff(b"PUB FOO");
    decode.set_buff(b" 11\r\nHello NATS!\r\n");

    let result = decode.decode();

    if let Ok(Poll::Ready(Message::Pub(subject, reply, content))) = result {
        assert_eq!(subject, b"FOO".to_vec());
        assert_eq!(reply, None);
        assert_eq!(content, b"Hello NATS!".to_vec());
    } else {
        panic!("message parse error");
    }

    decode.reset();
}

#[test]
fn decode_unsub_message() {
    let mut decode = Decode::new(512);

    decode.set_buff(b"UNSUB hello\r\n");

    let result = decode.decode();

    if let Ok(Poll::Ready(Message::UnSub(sid, max_message))) = result {
        assert_eq!(sid, b"hello".to_vec());
        assert_eq!(max_message, None);
    } else {
        panic!("message parse error");
    }

    decode.reset();

    decode.set_buff(b"UNSUB hello 5\r\n");

    let result = decode.decode();

    if let Ok(Poll::Ready(Message::UnSub(sid, max_message))) = result {
        assert_eq!(sid, b"hello".to_vec());
        assert_eq!(max_message, Some(5));
    } else {
        panic!("message parse error");
    }

    decode.reset();
}

fn decode_all_at_once(bytes: &[u8]) -> Vec<Message> {
    let mut decode = Decode::new(16);
    decode.set_buff(bytes);
    let mut out = Vec::new();
    while let Ok(Poll::Ready(message)) = decode.decode() {
        out.push(message);
        decode.reset();
    }
    out
}

fn decode_in_chunks(bytes: &[u8], size: usize) -> Vec<Message> {
    let mut decode = Decode::new(16);
    let mut out = Vec::new();
    for chunk in bytes.chunks(size) {
        decode.set_buff(chunk);
        while let Ok(Poll::Ready(message)) = decode.decode() {
            out.push(message);
            decode.reset();
        }
    }
    out
}

#[test]
fn decode_is_chunk_invariant() {
    let stream: &[u8] = b"CONNECT {\"verbose\":false}\r\nSUB foo q 1\r\nPUB foo bar 5\r\nhello\r\nUNSUB 1 2\nPING\r\nPUB x 4\r\na\r\nb\nPONG\n";
    let whole = decode_all_at_once(stream);
    assert_eq!(whole.len(), 7);
    for size in 1..stream.len() + 1 {
        assert_eq!(decode_in_chunks(stream, size), whole);
    }
}

#[test]
fn decode_round_trip_of_each_frame() {
    let whole = decode_all_at_once(b"SUB a.b.c 7\r\n");
    assert_eq!(whole, vec![Message::Sub(b"a.b.c".to_vec(), None, b"7".to_vec())]);
    let whole = decode_all_at_once(b"PUB foo bar 5\r\nhello\r\n");
    assert_eq!(
        whole,
        vec![Message::Pub(b"foo".to_vec(), Some(b"bar".to_vec()), b"hello".to_vec())]
    );
    let whole = decode_all_at_once(b"PUB foo 0\r\n\r\n");
    assert_eq!(whole, vec![Message::Pub(b"foo".to_vec(), None, Vec::new())]);
}

#[test]
fn decode_pub_length_mismatch_fails() {
    let mut decode = Decode::new(512);
    decode.set_buff(b"PUB foo 5\r\nHello NATS!\r\n");
    assert_eq!(decode.decode(), Err(Error::Parse));

    let mut decode = Decode::new(512);
    decode.set_buff(b"PUB foo 2\r\nhello\r\n");
    assert_eq!(decode.decode(), Err(Error::Parse));

    let mut decode = Decode::new(512);
    decode.set_buff(b"PUB foo 2\r\nhi\rX");
    assert_eq!(decode.decode(), Err(Error::Parse));
}

#[test]
fn decode_pub_short_payload_waits() {
    let mut decode = Decode::new(512);
    decode.set_buff(b"PUB foo 5\r\nhi\r\n");
    assert_eq!(decode.decode(), Ok(Poll::Pending));
    decode.set_buff(b"X\r\n");
    assert_eq!(
        decode.decode(),
        Ok(Poll::Ready(Message::Pub(b"foo".to_vec(), None, b"hi\r\nX".to_vec())))
    );
}

#[test]
fn decode_pub_payload_holds_line_ends() {
    let mut decode = Decode::new(512);
    decode.set_buff(b"PUB foo 4\r\na\r\nb\r\n");
    assert_eq!(
        decode.decode(),
        Ok(Poll::Ready(Message::Pub(b"foo".to_vec(), None, b"a\r\nb".to_vec())))
    );
    let mut decode = Decode::new(512);
    decode.set_buff(b"PUB foo 5\nhello\n");
    assert_eq!(
        decode.decode(),
        Ok(Poll::Ready(Message::Pub(b"foo".to_vec(), None, b"hello".to_vec())))
    );
    let mut decode = Decode::new(512);
    decode.set_buff(b"PUB foo 3\r\na\nb\n");
    assert_eq!(
        decode.decode(),
        Ok(Poll::Ready(Message::Pub(b"foo".to_vec(), None, b"a\nb".to_vec())))
    );
}

#[test]
fn decode_limit_bounds_the_buffer() {
    let mut decode = Decode::with_limit(16, 8);
    decode.set_buff(b"PING PING");
    assert_eq!(decode.decode(), Err(Error::Parse));

    let mut decode = Decode::with_limit(16, 64);
    decode.set_buff(b"PING PING");
    assert_eq!(decode.decode(), Ok(Poll::Pending));

    let mut decode = Decode::with_limit(16, 20);
    decode.set_buff(b"PUB foo 100\r\n0123456789");
    assert_eq!(decode.decode(), Err(Error::Parse));

    let mut decode = Decode::with_limit(16, 20);
    decode.set_buff(b"PUB foo 2\r\nhi\r\n");
    assert_eq!(
        decode.decode(),
        Ok(Poll::Ready(Message::Pub(b"foo".to_vec(), None, b"hi".to_vec())))
    );
}

#[test]
fn decode_pub_waits_for_payload() {
    let mut decode = Decode::new(512);
    decode.set_buff(b"PUB foo 5\r\nhel");
    assert_eq!(decode.decode(), Ok(Poll::Pending));
    assert_eq!(decode.decode(), Ok(Poll::Pending));
    decode.set_buff(b"lo\r\n");
    assert_eq!(
        decode.decode(),
        Ok(Poll::Ready(Message::Pub(b"foo".to_vec(), None, b"hello".to_vec())))
    );
}

#[test]
fn decode_rejects_bad_lines() {
    for bad in [
        &b"PUB foo\r\n"[..],
        &b"PUB foo bar baz 5\r\n"[..],
        &b"PUB foo x\r\n"[..],
        &b"SUB foo\r\n"[..],
        &b"UNSUB\r\n"[..],
        &b"UNSUB a b c\r\n"[..],
        &b"UNSUB a 4294967296\r\n"[..],
        &b"UNSUB a -1\r\n"[..],
        &b"CONNECT {not json}\r\n"[..],
        &b"PIN\r\n"[..],
        &b"SUB \xff 9\r\n"[..],
        &b"SUB foo \x01\r\n"[..],
        &b"SUB f\xc3\xa9 9\r\n"[..],
        &b"UNSUB \x7f\r\n"[..],
        &b"PUB \xff 2\r\nhi\r\n"[..],
        &b"PUB foo \x80 2\r\nhi\r\n"[..],
        &b"HELLO\r\n"[..],
    ] {
        let mut decode = Decode::new(64);
        decode.set_buff(bad);
        assert_eq!(decode.decode(), Err(Error::Parse));
    }
}

#[test]
fn decode_unsub_largest_max() {
    let mut decode = Decode::new(64);
    decode.set_buff(b"UNSUB s 4294967295\r\n");
    assert_eq!(
        decode.decode(),
        Ok(Poll::Ready(Message::UnSub(b"s".to_vec(), Some(u32::MAX))))
    );
}

#[test]
fn decode_connect_flags() {
    let mut decode = Decode::new(64);
    decode.set_buff(b"CONNECT {\"verbose\":false,\"ssl_require\":true}\r\n");
    if let Ok(Poll::Ready(Message::Connect(info))) = decode.decode() {
        assert_eq!(info.verbose, Some(false));
        assert_eq!(info.ssl_require, Some(true));
    } else {
        panic!("message parse error");
    }
    let mut decode = Decode::new(64);
    decode.set_buff(b"CONNECT {\"verbose\":1}\r\n");
    if let Ok(Poll::Ready(Message::Connect(info))) = decode.decode() {
        assert_eq!(info.verbose, None);
        assert_eq!(info.ssl_require, None);
    } else {
        panic!("message parse error");
    }
}

#[test]
fn decode_empty_is_pending() {
    let mut decode = Decode::new(0);
    assert_eq!(decode.decode(), Ok(Poll::Pending));
    decode.reset();
    assert_eq!(decode.decode(), Ok(Poll::Pending));
}

#[test]
fn decode_vertical_tab_separates_words() {
    let mut decode = Decode::new(64);
    decode.set_buff(b"SUB foo\x0b9\r\n");
    assert_eq!(
        decode.decode(),
        Ok(Poll::Ready(Message::Sub(b"foo".to_vec(), None, b"9".to_vec())))
    );
}

#[test]
fn decode_bare_lf_frames() {
    let mut decode = Decode::new(64);
    decode.set_buff(b"PUB foo 5\nhello\nPUB foo 5\nhi\n");
    assert_eq!(
        decode.decode(),
        Ok(Poll::Ready(Message::Pub(b"foo".to_vec(), None, b"hello".to_vec())))
    );
    decode.reset();
    assert_eq!(decode.decode(), Ok(Poll::Pending));
    decode.set_buff(b"XY\n");
    assert_eq!(
        decode.decode(),
        Ok(Poll::Ready(Message::Pub(b"foo".to_vec(), None, b"hi\nXY".to_vec())))
    );
}
