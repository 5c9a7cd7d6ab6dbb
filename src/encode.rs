//! Frames sent by the broker: INFO, MSG, PING, PONG and +OK. Every frame
//! ends with CR LF.

use vstd::prelude::*;

verus! {

pub const CR: u8 = 0x0d;

pub const LF: u8 = 0x0a;

pub const SPACE: u8 = 0x20;

/// CR LF.
pub open spec fn crlf() -> Seq<u8> {
    seq![CR, LF]
}

/// `PING` CR LF.
pub open spec fn ping_frame() -> Seq<u8> {
    seq![0x50u8, 0x49u8, 0x4eu8, 0x47u8] + crlf()
}

/// `PONG` CR LF.
pub open spec fn pong_frame() -> Seq<u8> {
    seq![0x50u8, 0x4fu8, 0x4eu8, 0x47u8] + crlf()
}

/// `+OK` CR LF.
pub open spec fn ok_frame() -> Seq<u8> {
    seq![0x2bu8, 0x4fu8, 0x4bu8] + crlf()
}

/// `INFO ` followed by the server description and CR LF.
pub open spec fn info_frame(json: Seq<u8>) -> Seq<u8> {
    seq![0x49u8, 0x4eu8, 0x46u8, 0x4fu8, SPACE] + json + crlf()
}

/// The decimal digits of `n`, most significant first, without leading zeros.
pub open spec fn decimal(n: nat) -> Seq<u8>
    decreases n,
{
    if n < 10 {
        seq![(0x30 + n) as u8]
    } else {
        decimal(n / 10).push((0x30 + n % 10) as u8)
    }
}

/// `MSG <subject> <sid> [reply] <#bytes>` CR LF, the payload, CR LF.
pub open spec fn msg_frame(
    subject: Seq<u8>,
    sid: Seq<u8>,
    reply: Option<Seq<u8>>,
    payload: Seq<u8>,
) -> Seq<u8> {
    msg_front(subject) + sid + msg_after(reply, payload)
}

/// The part of a MSG frame before the sid.
pub open spec fn msg_front(subject: Seq<u8>) -> Seq<u8> {
    seq![0x4du8, 0x53u8, 0x47u8, SPACE] + subject + seq![SPACE]
}

/// The part of a MSG frame after the sid.
pub open spec fn msg_after(reply: Option<Seq<u8>>, payload: Seq<u8>) -> Seq<u8> {
    seq![SPACE] + match reply {
        Some(r) => r + seq![SPACE],
        None => Seq::empty(),
    } + decimal(payload.len()) + crlf() + payload + crlf()
}

/// Appends the bytes of `b` to `out`.
pub fn push_all(out: &mut Vec<u8>, b: &[u8])
    ensures
        final(out)@ == old(out)@ + b@,
{
    let mut i: usize = 0;
    while i < b.len()
        invariant
            0 <= i <= b@.len(),
            out@ == old(out)@ + b@.subrange(0, i as int),
        decreases b@.len() - i,
    {
        out.push(b[i]);
        i = i + 1;
        proof {
            assert(out@ =~= old(out)@ + b@.subrange(0, i as int));
        }
    }
    proof {
        assert(b@.subrange(0, b@.len() as int) =~= b@);
    }
}

/// Appends the decimal digits of `n` to `out`.
pub fn push_decimal(out: &mut Vec<u8>, n: usize)
    ensures
        final(out)@ == old(out)@ + decimal(n as nat),
    decreases n,
{
    if n >= 10 {
        push_decimal(out, n / 10);
    }
    out.push((0x30 + n % 10) as u8);
    proof {
        assert(out@ =~= old(out)@ + decimal(n as nat));
    }
}

fn push_crlf(out: &mut Vec<u8>)
    ensures
        final(out)@ == old(out)@ + crlf(),
{
    out.push(CR);
    out.push(LF);
    proof {
        assert(out@ =~= old(out)@ + crlf());
    }
}

/// The server's INFO frame, around its JSON description.
pub struct Info {
    pub server_id: String,
    pub server_name: String,
    pub version: String,
    pub host: String,
    pub port: u16,
    pub auth_required: bool,
    pub ssl_required: bool,
    pub max_payload: usize,
    pub proto: usize,
    pub client_id: usize,
    pub client_ip: String,
    pub git_commit: String,
    pub go: String,
}

impl Info {
    /// The description with its default values.
    pub fn new() -> (r: Self)
        ensures
            r.server_id@.len() == 0,
            r.server_name@.len() == 0,
            r.version@.len() == 0,
            r.host@ == "127.0.0.1"@,
            r.port == 8090,
            !r.auth_required,
            !r.ssl_required,
            r.max_payload == 512,
            r.proto == 1,
            r.client_id == 0,
            r.client_ip@ == "127.0.0.1"@,
            r.git_commit@ == "8c8d6f"@,
            r.go@ == "go1.13"@,
    {
        Self::default()
    }

    pub fn set_server_id(self, server_id: String) -> (r: Self)
        ensures
            r == (Info { server_id, ..self }),
    {
        Info { server_id, ..self }
    }

    pub fn set_server_name(self, server_name: String) -> (r: Self)
        ensures
            r == (Info { server_name, ..self }),
    {
        Info { server_name, ..self }
    }

    pub fn set_version(self, version: String) -> (r: Self)
        ensures
            r == (Info { version, ..self }),
    {
        Info { version, ..self }
    }

    pub fn set_host(self, host: String) -> (r: Self)
        ensures
            r == (Info { host, ..self }),
    {
        Info { host, ..self }
    }

    pub fn set_port(self, port: u16) -> (r: Self)
        ensures
            r == (Info { port, ..self }),
    {
        Info { port, ..self }
    }

    pub fn set_auth_required(self, auth_required: bool) -> (r: Self)
        ensures
            r == (Info { auth_required, ..self }),
    {
        Info { auth_required, ..self }
    }

    pub fn set_ssl_required(self, ssl_required: bool) -> (r: Self)
        ensures
            r == (Info { ssl_required, ..self }),
    {
        Info { ssl_required, ..self }
    }

    pub fn set_max_payload(self, max_payload: usize) -> (r: Self)
        ensures
            r == (Info { max_payload, ..self }),
    {
        Info { max_payload, ..self }
    }

    pub fn set_proto(self, proto: usize) -> (r: Self)
        ensures
            r == (Info { proto, ..self }),
    {
        Info { proto, ..self }
    }

    pub fn set_client_id(self, client_id: usize) -> (r: Self)
        ensures
            r == (Info { client_id, ..self }),
    {
        Info { client_id, ..self }
    }

    /// Sets the peer's address, written out as text.
    pub fn set_client_ip(self, client_ip: String) -> (r: Self)
        ensures
            r == (Info { client_ip, ..self }),
    {
        Info { client_ip, ..self }
    }

    /// Frames the JSON text of the description as an INFO line.
    pub fn format(json: &[u8]) -> (r: Vec<u8>)
        ensures
            r@ == info_frame(json@),
    {
        let mut out: Vec<u8> = vec![0x49u8, 0x4eu8, 0x46u8, 0x4fu8, SPACE];
        push_all(&mut out, json);
        push_crlf(&mut out);
        proof {
            assert(out@ =~= info_frame(json@));
        }
        out
    }
}

impl Default for Info {
    fn default() -> (r: Self)
        ensures
            r.server_id@.len() == 0,
            r.server_name@.len() == 0,
            r.version@.len() == 0,
            r.host@ == "127.0.0.1"@,
            r.port == 8090,
            !r.auth_required,
            !r.ssl_required,
            r.max_payload == 512,
            r.proto == 1,
            r.client_id == 0,
            r.client_ip@ == "127.0.0.1"@,
            r.git_commit@ == "8c8d6f"@,
            r.go@ == "go1.13"@,
    {
        Info {
            server_id: String::new(),
            server_name: String::new(),
            version: String::new(),
            host: "127.0.0.1".to_owned(),
            port: 8090,
            auth_required: false,
            ssl_required: false,
            max_payload: 512,
            proto: 1,
            client_id: 0,
            client_ip: "127.0.0.1".to_owned(),
            git_commit: "8c8d6f".to_owned(),
            go: "go1.13".to_owned(),
        }
    }
}

pub struct Ping;

impl Ping {
    pub fn format() -> (r: Vec<u8>)
        ensures
            r@ == ping_frame(),
    {
        let r: Vec<u8> = vec![0x50u8, 0x49u8, 0x4eu8, 0x47u8, CR, LF];
        proof {
            assert(r@ =~= ping_frame());
        }
        r
    }
}

pub struct Pong;

impl Pong {
    pub fn format() -> (r: Vec<u8>)
        ensures
            r@ == pong_frame(),
    {
        let r: Vec<u8> = vec![0x50u8, 0x4fu8, 0x4eu8, 0x47u8, CR, LF];
        proof {
            assert(r@ =~= pong_frame());
        }
        r
    }
}

pub struct ResponseOk;

impl ResponseOk {
    pub fn format() -> (r: Vec<u8>)
        ensures
            r@ == ok_frame(),
    {
        let r: Vec<u8> = vec![0x2bu8, 0x4fu8, 0x4bu8, CR, LF];
        proof {
            assert(r@ =~= ok_frame());
        }
        r
    }
}

/// A MSG frame built once per publish: the part before the sid and the part
/// after it, so that each delivery only splices its own sid in between.
pub struct Msg {
    front_chunk: Vec<u8>,
    after_chunk: Vec<u8>,
}

impl Msg {
    pub closed spec fn front(&self) -> Seq<u8> {
        self.front_chunk@
    }

    pub closed spec fn after(&self) -> Seq<u8> {
        self.after_chunk@
    }

    pub fn new(subject: &[u8], reply_to: Option<&[u8]>, content: &[u8]) -> (r: Self)
        ensures
            r.front() == msg_front(subject@),
            r.after() == msg_after(
                match reply_to {
                    Some(x) => Some(x@),
                    None => None,
                },
                content@,
            ),
    {
        let mut front_chunk: Vec<u8> = vec![0x4du8, 0x53u8, 0x47u8, SPACE];
        push_all(&mut front_chunk, subject);
        front_chunk.push(SPACE);
        let mut after_chunk: Vec<u8> = vec![SPACE];
        let ghost reply_part: Seq<u8> = Seq::empty();
        match reply_to {
            Some(reply) => {
                push_all(&mut after_chunk, reply);
                after_chunk.push(SPACE);
                proof {
                    reply_part = reply@ + seq![SPACE];
                }
            },
            None => {},
        }
        proof {
            assert(after_chunk@ =~= seq![SPACE] + reply_part);
        }
        push_decimal(&mut after_chunk, content.len());
        push_crlf(&mut after_chunk);
        push_all(&mut after_chunk, content);
        push_crlf(&mut after_chunk);
        proof {
            assert(front_chunk@ =~= msg_front(subject@));
            assert(after_chunk@ =~= msg_after(
                match reply_to {
                    Some(x) => Some(x@),
                    None => None,
                },
                content@,
            ));
        }
        Msg { front_chunk, after_chunk }
    }

    /// The whole frame for the subscription `sid`.
    pub fn format(&self, sid: &[u8]) -> (r: Vec<u8>)
        ensures
            r@ == self.front() + sid@ + self.after(),
    {
        let mut response: Vec<u8> = Vec::new();
        push_all(&mut response, self.front_chunk.as_slice());
        push_all(&mut response, sid);
        push_all(&mut response, self.after_chunk.as_slice());
        proof {
            assert(response@ =~= self.front() + sid@ + self.after());
        }
        response
    }
}

} // verus!
