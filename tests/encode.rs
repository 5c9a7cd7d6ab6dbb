use beaver::config::{Config, ServerConfig};
use beaver::encode::{Info, Msg, Ping, Pong, ResponseOk};

#[test]
fn constant_frames() {
    assert_eq!(Ping::format(), b"PING\r\n".to_vec());
    assert_eq!(Pong::format(), b"PONG\r\n".to_vec());
    assert_eq!(ResponseOk::format(), b"+OK\r\n".to_vec());
}

#[test]
fn msg_frames() {
    let msg = Msg::new(b"foo", None, b"Hello NATS!");
    assert_eq!(msg.format(b"9"), b"MSG foo 9 11\r\nHello NATS!\r\n".to_vec());
    let msg = Msg::new(b"foo", Some(b"bar"), b"hello");
    assert_eq!(msg.format(b"sid"), b"MSG foo sid bar 5\r\nhello\r\n".to_vec());
    let msg = Msg::new(b"foo", None, b"");
    assert_eq!(msg.format(b"1"), b"MSG foo 1 0\r\n\r\n".to_vec());
    let payload = vec![b'x'; 1234];
    let msg = Msg::new(b"a", None, &payload);
    let mut expected = b"MSG a 1 1234\r\n".to_vec();
    expected.extend_from_slice(&payload);
    expected.extend_from_slice(b"\r\n");
    assert_eq!(msg.format(b"1"), expected);
}

#[test]
fn info_frame_and_defaults() {
    assert_eq!(Info::format(b"{}"), b"INFO {}\r\n".to_vec());
    let info = Info::new();
    assert_eq!(info.host, "127.0.0.1");
    assert_eq!(info.port, 8090);
    assert_eq!(info.max_payload, 512);
    assert_eq!(info.proto, 1);
    let info = Info::new()
        .set_server_id("id".to_string())
        .set_server_name("name".to_string())
        .set_version("1.0".to_string())
        .set_host("0.0.0.0".to_string())
        .set_port(4222)
        .set_auth_required(true)
        .set_ssl_required(true)
        .set_max_payload(1024)
        .set_proto(2)
        .set_client_id(7)
        .set_client_ip("10.0.0.1".to_string());
    assert_eq!(info.server_id, "id");
    assert_eq!(info.server_name, "name");
    assert_eq!(info.version, "1.0");
    assert_eq!(info.host, "0.0.0.0");
    assert_eq!(info.port, 4222);
    assert!(info.auth_required);
    assert!(info.ssl_required);
    assert_eq!(info.max_payload, 1024);
    assert_eq!(info.proto, 2);
    assert_eq!(info.client_id, 7);
    assert_eq!(info.client_ip, "10.0.0.1");
}

#[test]
fn config_getters() {
    let config = Config {
        server: ServerConfig {
            server_id: "sid".to_string(),
            server_name: "beaver".to_string(),
            ip: "127.0.0.1".to_string(),
            port: 4222,
            version: "0.1".to_string(),
            auth_required: false,
            ssl_required: true,
            max_payload: 1048576,
            read_timeout: None,
            write_timeout: Some(3),
            connect_timeout: None,
            proto: 1,
        },
    };
    let server = config.get_server();
    assert_eq!(server.get_ip(), "127.0.0.1");
    assert_eq!(server.get_port(), 4222);
    assert_eq!(server.get_server_id(), "sid");
    assert_eq!(server.get_server_name(), "beaver");
    assert_eq!(server.get_version(), "0.1");
    assert!(!server.get_auth_required());
    assert!(server.get_ssl_required());
    assert_eq!(server.get_max_payload(), 1048576);
    assert_eq!(server.get_proto(), 1);
}
