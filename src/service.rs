//! The decisions of one connection: what each message from the client does
//! to the router, what goes back to the client, and what goes out to other
//! subscribers; and the batching of the bytes written to the client.

use crate::decode::{Frame, Message};
use crate::encode::{ok_frame, ping_frame, pong_frame, push_all, Ping, Pong, ResponseOk};
use crate::router::{
    client_removed_at, delivered, published_at, subscribed_at, unsubscribed_at, Delivery, Router,
};
use crate::sub_list::split_tokens;
use vstd::prelude::*;

verus! {

/// `-ERR 'Maximum Payload Exceeded'` CR LF.
pub open spec fn payload_too_big_frame() -> Seq<u8> {
    seq![
        0x2du8, 0x45u8, 0x52u8, 0x52u8, 0x20u8, 0x27u8, 0x4du8, 0x61u8, 0x78u8, 0x69u8, 0x6du8,
        0x75u8, 0x6du8, 0x20u8, 0x50u8, 0x61u8, 0x79u8, 0x6cu8, 0x6fu8, 0x61u8, 0x64u8, 0x20u8,
        0x45u8, 0x78u8, 0x63u8, 0x65u8, 0x65u8, 0x64u8, 0x65u8, 0x64u8, 0x27u8, 0x0du8, 0x0au8,
    ]
}

/// `-ERR 'Unknown Protocol Operation'` CR LF.
pub open spec fn unknown_operation_frame() -> Seq<u8> {
    seq![0x2du8, 0x45u8, 0x52u8, 0x52u8, 0x20u8, 0x27u8, 0x55u8, 0x6eu8, 0x6bu8, 0x6eu8, 0x6fu8, 0x77u8, 0x6eu8, 0x20u8, 0x50u8, 0x72u8, 0x6fu8, 0x74u8, 0x6fu8, 0x63u8, 0x6fu8, 0x6cu8, 0x20u8, 0x4fu8, 0x70u8, 0x65u8, 0x72u8, 0x61u8, 0x74u8, 0x69u8, 0x6fu8, 0x6eu8, 0x27u8, 0x0du8, 0x0au8]
}

/// What handling one message asks of the connection.
pub struct Outcome {
    /// Bytes for this connection's own write path.
    pub reply: Vec<u8>,
    /// MSG frames for the write paths of the subscribers.
    pub deliveries: Vec<Delivery>,
    /// The connection must be closed once `reply` is written.
    pub close: bool,
}

/// The state of one connection as the broker sees it.
pub struct Session {
    pub client_id: u64,
    pub verbose: bool,
    pub ssl_required: bool,
    pub max_payload: usize,
}

/// `+OK` where the client asked for acknowledgements, nothing otherwise.
pub open spec fn ack(verbose: bool) -> Seq<u8> {
    if verbose {
        ok_frame()
    } else {
        Seq::empty()
    }
}

impl Session {
    /// A new connection: acknowledgements are on until a CONNECT turns them
    /// off.
    pub fn new(client_id: u64, max_payload: usize) -> (r: Self)
        ensures
            r.client_id == client_id,
            r.max_payload == max_payload,
            r.verbose,
            !r.ssl_required,
    {
        Session { client_id, verbose: true, ssl_required: false, max_payload }
    }

    pub fn set_ssl(&mut self, ssl_required: bool)
        ensures
            *final(self) == (Session { ssl_required, ..*old(self) }),
    {
        self.ssl_required = ssl_required;
    }

    pub fn set_verbose(&mut self, verbose: bool)
        ensures
            *final(self) == (Session { verbose, ..*old(self) }),
    {
        self.verbose = verbose;
    }

    fn send_ok(&self) -> (r: Vec<u8>)
        ensures
            r@ == ack(self.verbose),
    {
        if self.verbose {
            ResponseOk::format()
        } else {
            Vec::new()
        }
    }

    /// The client sent bytes that are no message: the protocol offers no
    /// point to resynchronise at, so an error line goes back and the
    /// connection ends.
    pub fn protocol_error(&self) -> (r: Outcome)
        ensures
            r.reply@ == unknown_operation_frame(),
            r.deliveries@.len() == 0,
            r.close,
    {
        let err: Vec<u8> = vec![0x2du8, 0x45u8, 0x52u8, 0x52u8, 0x20u8, 0x27u8, 0x55u8, 0x6eu8, 0x6bu8, 0x6eu8, 0x6fu8, 0x77u8, 0x6eu8, 0x20u8, 0x50u8, 0x72u8, 0x6fu8, 0x74u8, 0x6fu8, 0x63u8, 0x6fu8, 0x6cu8, 0x20u8, 0x4fu8, 0x70u8, 0x65u8, 0x72u8, 0x61u8, 0x74u8, 0x69u8, 0x6fu8, 0x6eu8, 0x27u8, 0x0du8, 0x0au8];
        proof {
            assert(err@ =~= unknown_operation_frame());
        }
        Outcome { reply: err, deliveries: Vec::new(), close: true }
    }

    /// The connection has ended: none of its subscriptions stays in the
    /// router.
    pub fn close(&self, router: &mut Router)
        requires
            old(router).wf(),
        ensures
            client_removed_at(*old(router), *final(router), self.client_id),
    {
        router.remove_client(self.client_id);
    }

    /// Handles one message from the client.
    pub fn handle(&mut self, router: &mut Router, msg: Message) -> (r: Outcome)
        requires
            old(router).wf(),
        ensures
            final(router).wf(),
            final(self).client_id == old(self).client_id,
            final(self).max_payload == old(self).max_payload,
            match msg@ {
                Frame::Connect { json, verbose, ssl_require } => {
                    &&& final(self).verbose == match verbose {
                        Some(v) => v,
                        None => old(self).verbose,
                    }
                    &&& final(self).ssl_required == match ssl_require {
                        Some(v) => v,
                        None => old(self).ssl_required,
                    }
                    &&& r.reply@ == ack(final(self).verbose)
                    &&& r.deliveries@.len() == 0
                    &&& !r.close
                    &&& *final(router) == *old(router)
                },
                Frame::Sub { subject, queue, sid } => {
                    &&& *final(self) == *old(self)
                    &&& subscribed_at(*old(router), *final(router), old(self).client_id, subject, sid)
                    &&& r.reply@ == ack(old(self).verbose)
                    &&& r.deliveries@.len() == 0
                    &&& !r.close
                },
                Frame::UnSub { sid, max } => {
                    &&& *final(self) == *old(self)
                    &&& unsubscribed_at(*old(router), *final(router), old(self).client_id, sid, max)
                    &&& r.reply@ == ack(old(self).verbose)
                    &&& r.deliveries@.len() == 0
                    &&& !r.close
                },
                Frame::Pub { subject, reply, payload } => {
                    &&& *final(self) == *old(self)
                    &&& if payload.len() > old(self).max_payload {
                        &&& r.reply@ == payload_too_big_frame()
                        &&& r.deliveries@.len() == 0
                        &&& r.close
                        &&& *final(router) == *old(router)
                    } else {
                        let path = split_tokens(subject);
                        &&& published_at(*old(router), *final(router), path)
                        &&& delivered(*old(router), subject, reply, payload, r.deliveries@)
                        &&& r.reply@ == ack(old(self).verbose)
                        &&& !r.close
                    }
                },
                Frame::Ping => {
                    &&& *final(self) == *old(self)
                    &&& *final(router) == *old(router)
                    &&& r.reply@ == pong_frame()
                    &&& r.deliveries@.len() == 0
                    &&& !r.close
                },
                Frame::Pong => {
                    &&& *final(self) == *old(self)
                    &&& *final(router) == *old(router)
                    &&& r.reply@ == ping_frame()
                    &&& r.deliveries@.len() == 0
                    &&& !r.close
                },
            },
    {
        match msg {
            Message::Connect(info) => {
                if let Some(ssl_require) = info.ssl_require {
                    self.set_ssl(ssl_require);
                }
                if let Some(verbose) = info.verbose {
                    self.set_verbose(verbose);
                }
                Outcome { reply: self.send_ok(), deliveries: Vec::new(), close: false }
            },
            Message::Sub(subject, _queue, sid) => {
                router.subscribe(self.client_id, subject.as_slice(), sid);
                Outcome { reply: self.send_ok(), deliveries: Vec::new(), close: false }
            },
            Message::UnSub(sid, max) => {
                router.unsubscribe(self.client_id, sid.as_slice(), max);
                Outcome { reply: self.send_ok(), deliveries: Vec::new(), close: false }
            },
            Message::Pub(subject, reply, payload) => {
                if payload.len() > self.max_payload {
                    let err: Vec<u8> = vec![
                        0x2du8, 0x45u8, 0x52u8, 0x52u8, 0x20u8, 0x27u8, 0x4du8, 0x61u8, 0x78u8,
                        0x69u8, 0x6du8, 0x75u8, 0x6du8, 0x20u8, 0x50u8, 0x61u8, 0x79u8, 0x6cu8,
                        0x6fu8, 0x61u8, 0x64u8, 0x20u8, 0x45u8, 0x78u8, 0x63u8, 0x65u8, 0x65u8,
                        0x64u8, 0x65u8, 0x64u8, 0x27u8, 0x0du8, 0x0au8,
                    ];
                    proof {
                        assert(err@ =~= payload_too_big_frame());
                    }
                    return Outcome { reply: err, deliveries: Vec::new(), close: true };
                }
                let reply_slice: Option<&[u8]> = match &reply {
                    Some(x) => Some(x.as_slice()),
                    None => None,
                };
                let deliveries = router.publish(subject.as_slice(), reply_slice, payload.as_slice());
                Outcome { reply: self.send_ok(), deliveries, close: false }
            },
            Message::Ping => Outcome { reply: Pong::format(), deliveries: Vec::new(), close: false },
            Message::Pong => Outcome { reply: Ping::format(), deliveries: Vec::new(), close: false },
        }
    }
}

/// The bytes waiting to be written to a connection, sent out in batches of
/// about `capacity` bytes.
pub struct WriteBuffer {
    buffer: Vec<u8>,
    capacity: usize,
}

impl WriteBuffer {
    pub closed spec fn pending(&self) -> Seq<u8> {
        self.buffer@
    }

    pub closed spec fn capacity(&self) -> nat {
        self.capacity as nat
    }

    pub fn new(capacity: usize) -> (r: Self)
        ensures
            r.pending() == Seq::<u8>::empty(),
            r.capacity() == capacity,
    {
        WriteBuffer { buffer: Vec::new(), capacity }
    }

    /// Queues `bytes`. Where they would not fit, what was queued is handed
    /// back to be written out first; nothing is lost and the order is kept.
    pub fn write(&mut self, bytes: &[u8]) -> (r: Vec<u8>)
        ensures
            final(self).capacity() == old(self).capacity(),
            r@ + final(self).pending() == old(self).pending() + bytes@,
            if old(self).pending().len() + bytes@.len() <= old(self).capacity() {
                &&& r@.len() == 0
                &&& final(self).pending() == old(self).pending() + bytes@
            } else {
                &&& r@ == old(self).pending()
                &&& final(self).pending() == bytes@
            },
    {
        if self.buffer.len() as u128 + bytes.len() as u128 <= self.capacity as u128 {
            push_all(&mut self.buffer, bytes);
            proof {
                assert(Seq::<u8>::empty() + self.buffer@ =~= self.buffer@);
            }
            Vec::new()
        } else {
            let mut out: Vec<u8> = Vec::new();
            std::mem::swap(&mut out, &mut self.buffer);
            push_all(&mut self.buffer, bytes);
            proof {
                assert(self.buffer@ =~= bytes@);
            }
            out
        }
    }

    /// Hands back everything queued.
    pub fn flush(&mut self) -> (r: Vec<u8>)
        ensures
            r@ == old(self).pending(),
            final(self).pending() == Seq::<u8>::empty(),
            final(self).capacity() == old(self).capacity(),
    {
        let mut out: Vec<u8> = Vec::new();
        std::mem::swap(&mut out, &mut self.buffer);
        out
    }
}

} // verus!
