//! The router: the subject trie shared by all connections, holding one
//! subscription record per `SUB`, and the delivery rule of a publish.

use crate::encode::{msg_frame, push_all, Msg};
use crate::sub_list::{
    all_asked, kept_by, map_in_place, mapped_by, retain_by, same_lookups, split_tokens,
    subscribed, updated_at, SubList,
};
use crate::token::same_bytes;
use vstd::prelude::*;

verus! {

/// One client's interest in a subject: its connection, its sid and how many
/// deliveries are left before it ends (`None`: no limit).
pub struct Subscription {
    pub client: u64,
    pub sid: Vec<u8>,
    pub remaining: Option<u32>,
}

/// One MSG frame to be written to the connection `client`.
pub struct Delivery {
    pub client: u64,
    pub sid: Vec<u8>,
    pub frame: Vec<u8>,
}

/// Whether `x` is the subscription `sid` of the connection `client`.
pub open spec fn is_sub(x: Subscription, client: u64, sid: Seq<u8>) -> bool {
    x.client == client && x.sid@ == sid
}

/// `x` with one delivery used up.
pub open spec fn used_once(x: Subscription) -> Subscription {
    match x.remaining {
        Some(n) => Subscription { remaining: Some(if n > 0 { (n - 1) as u32 } else { 0 }), ..x },
        None => x,
    }
}

/// A list after a publish reached each of its subscriptions once: the
/// counters go down by one and the subscriptions left with none are gone.
pub open spec fn after_publish(s: Seq<Subscription>) -> Seq<Subscription> {
    s.map_values(|x: Subscription| used_once(x)).filter(|x: Subscription| x.remaining != Some(0u32))
}

/// `x` limited to `max` further deliveries where it is `sid` of `client`.
pub open spec fn limited(x: Subscription, client: u64, sid: Seq<u8>, max: u32) -> Subscription {
    if is_sub(x, client, sid) {
        Subscription { remaining: Some(max), ..x }
    } else {
        x
    }
}

/// What `UNSUB sid [max]` from `client` leaves in a list: without a max (or
/// with a max of zero) the subscription is gone, otherwise it is limited.
pub open spec fn unsubscribed_list(
    s: Seq<Subscription>,
    client: u64,
    sid: Seq<u8>,
    max: Option<u32>,
) -> Seq<Subscription> {
    if max is Some && max->0 > 0 {
        s.map_values(|x: Subscription| limited(x, client, sid, max->0))
    } else {
        s.filter(|x: Subscription| !is_sub(x, client, sid))
    }
}

/// `d` is the delivery of a publish on `subject` to `x`.
pub open spec fn delivers(
    d: Delivery,
    x: Subscription,
    subject: Seq<u8>,
    reply: Option<Seq<u8>>,
    payload: Seq<u8>,
) -> bool {
    &&& d.client == x.client
    &&& d.sid@ == x.sid@
    &&& d.frame@ == msg_frame(subject, x.sid@, reply, payload)
}

/// The view of an optional byte slice.
pub open spec fn opt_view(o: Option<&[u8]>) -> Option<Seq<u8>> {
    match o {
        Some(x) => Some(x@),
        None => None,
    }
}

/// What a removal by `f` keeps is the filter by `keep`, where `f` answers
/// `true` exactly where `keep` fails.
proof fn lemma_kept_is_filter<F: Fn(&Subscription) -> bool>(
    s: Seq<Subscription>,
    f: F,
    keep: spec_fn(Subscription) -> bool,
)
    requires
        all_asked(s, f),
        forall|x: Subscription, b: bool| f.ensures((&x,), b) ==> b == !keep(x),
    ensures
        kept_by(s, f) == s.filter(keep),
    decreases s.len(),
{
    reveal(Seq::filter);
    if s.len() > 0 {
        assert forall|i: int| 0 <= i < s.drop_last().len() implies f.ensures((&s.drop_last()[i],), true)
            || f.ensures((&s.drop_last()[i],), false) by {
            assert(s.drop_last()[i] == s[i]);
        }
        lemma_kept_is_filter(s.drop_last(), f, keep);
        assert(f.ensures((&s[s.len() - 1],), true) || f.ensures((&s[s.len() - 1],), false));
    }
}

/// Every element of a filter comes from the filtered sequence.
proof fn lemma_filter_from(s: Seq<Subscription>, keep: spec_fn(Subscription) -> bool, i: int)
    requires
        0 <= i < s.filter(keep).len(),
    ensures
        s.contains(s.filter(keep)[i]),
        keep(s.filter(keep)[i]),
{
    broadcast use vstd::seq_lib::group_filter_ensures;
    assert(s.filter(keep).contains(s.filter(keep)[i]));
    s.lemma_filter_contains_rev(keep, s.filter(keep)[i]);
}

/// `after` holds what `before` held, but at `path`, where a list was, the
/// list after a publish.
pub open spec fn published_at(before: Router, after: Router, path: Seq<Seq<u8>>) -> bool {
    forall|p: Seq<Seq<u8>>|
        #[trigger] after.lookup(p) == if p == path && before.lookup(p) is Some {
            Some(after_publish(before.lookup(p)->0))
        } else {
            before.lookup(p)
        }
}

/// `after` is `before` after `SUB subject sid` from `client`: a new
/// subscription, with no limit, ends the list of the subject; the nodes on
/// the way to it exist; nothing else changed.
pub open spec fn subscribed_at(before: Router, after: Router, client: u64, subject: Seq<u8>, sid: Seq<u8>) -> bool {
    let path = split_tokens(subject);
    let old_list = before.subs_at(path);
    &&& after.wf()
    &&& after.lookup(path) is Some
    &&& after.lookup(path)->0.len() == old_list.len() + 1
    &&& after.lookup(path)->0.drop_last() == old_list
    &&& after.lookup(path)->0.last().client == client
    &&& after.lookup(path)->0.last().sid@ == sid
    &&& after.lookup(path)->0.last().remaining is None
    &&& forall|p: Seq<Seq<u8>>|
        p != path ==> #[trigger] after.lookup(p) == if p.is_prefix_of(path) && before.lookup(p) is None {
            Some(Seq::<Subscription>::empty())
        } else {
            before.lookup(p)
        }
}

/// `after` is `before` after `UNSUB sid [max]` from `client`.
pub open spec fn unsubscribed_at(before: Router, after: Router, client: u64, sid: Seq<u8>, max: Option<u32>) -> bool {
    &&& after.wf()
    &&& forall|p: Seq<Seq<u8>>|
        #[trigger] after.lookup(p) == match before.lookup(p) {
            Some(s) => Some(unsubscribed_list(s, client, sid, max)),
            None => None,
        }
}

/// `ds` are the deliveries of a publish on `subject`: one for each
/// subscription `before` holds for the subject, in the order they were made.
pub open spec fn delivered(
    before: Router,
    subject: Seq<u8>,
    reply: Option<Seq<u8>>,
    payload: Seq<u8>,
    ds: Seq<Delivery>,
) -> bool {
    let subs = before.subs_at(split_tokens(subject));
    &&& ds.len() == subs.len()
    &&& forall|i: int| 0 <= i < ds.len() ==> delivers(#[trigger] ds[i], subs[i], subject, reply, payload)
}

/// `after` is `before` without any subscription of the connection `client`.
pub open spec fn client_removed_at(before: Router, after: Router, client: u64) -> bool {
    &&& after.wf()
    &&& forall|p: Seq<Seq<u8>>|
        #[trigger] after.lookup(p) == match before.lookup(p) {
            Some(s) => Some(s.filter(|x: Subscription| x.client != client)),
            None => None,
        }
}

/// No subscription of `r` satisfies `bad`.
pub open spec fn none_where(r: Router, bad: spec_fn(Subscription) -> bool) -> bool {
    forall|p: Seq<Seq<u8>>, i: int|
        #[trigger] r.lookup(p) is Some && 0 <= i < r.lookup(p)->0.len() ==> !bad(
            #[trigger] r.lookup(p)->0[i],
        )
}

/// `after` holds what `before` holds.
pub open spec fn same_router(before: Router, after: Router) -> bool {
    forall|p: Seq<Seq<u8>>| #[trigger] after.lookup(p) == before.lookup(p)
}

/// What a filter keeps passes the filter.
proof fn lemma_none_after_filter(
    before: Router,
    after: Router,
    keep: spec_fn(Subscription) -> bool,
    bad: spec_fn(Subscription) -> bool,
)
    requires
        forall|x: Subscription| #[trigger] keep(x) ==> !bad(x),
        forall|p: Seq<Seq<u8>>|
            #[trigger] after.lookup(p) == match before.lookup(p) {
                Some(s) => Some(s.filter(keep)),
                None => None,
            },
    ensures
        none_where(after, bad),
{
    assert forall|p: Seq<Seq<u8>>, i: int|
        #[trigger] after.lookup(p) is Some && 0 <= i < after.lookup(p)->0.len() implies !bad(
            #[trigger] after.lookup(p)->0[i],
        ) by {
        lemma_filter_from(before.lookup(p)->0, keep, i);
    }
}

/// After `UNSUB sid` without a max from `client`, the router holds no
/// subscription `sid` of `client`.
pub proof fn lemma_unsub_removes(r0: Router, r1: Router, client: u64, sid: Seq<u8>)
    requires
        unsubscribed_at(r0, r1, client, sid, None),
    ensures
        none_where(r1, |x: Subscription| is_sub(x, client, sid)),
{
    lemma_none_after_filter(
        r0,
        r1,
        |x: Subscription| !is_sub(x, client, sid),
        |x: Subscription| is_sub(x, client, sid),
    );
}

/// Once a router holds no subscription `sid` of `client`, a publish
/// delivers nothing to it, and after the publish there still is none.
pub proof fn lemma_absent_gets_nothing(
    r: Router,
    after: Router,
    client: u64,
    sid: Seq<u8>,
    subject: Seq<u8>,
    reply: Option<Seq<u8>>,
    payload: Seq<u8>,
    ds: Seq<Delivery>,
)
    requires
        none_where(r, |x: Subscription| is_sub(x, client, sid)),
        delivered(r, subject, reply, payload, ds),
        published_at(r, after, split_tokens(subject)),
    ensures
        forall|i: int| 0 <= i < ds.len() ==> !(ds[i].client == client && ds[i].sid@ == sid),
        none_where(after, |x: Subscription| is_sub(x, client, sid)),
{
    let path = split_tokens(subject);
    let bad = |x: Subscription| is_sub(x, client, sid);
    assert forall|i: int| 0 <= i < ds.len() implies !(ds[i].client == client && ds[i].sid@ == sid) by {
        assert(delivers(ds[i], r.subs_at(path)[i], subject, reply, payload));
        assert(r.lookup(path) is Some);
        assert(!bad(r.lookup(path)->0[i]));
    }
    assert forall|p: Seq<Seq<u8>>, i: int|
        #[trigger] after.lookup(p) is Some && 0 <= i < after.lookup(p)->0.len() implies !bad(
            #[trigger] after.lookup(p)->0[i],
        ) by {
        if p == path && r.lookup(p) is Some {
            let s = r.lookup(p)->0;
            let used = s.map_values(|x: Subscription| used_once(x));
            lemma_filter_from(used, |x: Subscription| x.remaining != Some(0u32), i);
            let j = choose|j: int| 0 <= j < used.len() && used[j] == used.filter(
                |x: Subscription| x.remaining != Some(0u32),
            )[i];
            assert(!bad(s[j]));
        } else {
            assert(after.lookup(p) == r.lookup(p));
        }
    }
}

/// After the connection `client` closed, no lookup yields a subscription
/// of it.
pub proof fn lemma_closed_connection_unreachable(r0: Router, r1: Router, client: u64)
    requires
        client_removed_at(r0, r1, client),
    ensures
        none_where(r1, |x: Subscription| x.client == client),
        forall|p: Seq<Seq<u8>>, i: int|
            0 <= i < r1.subs_at(p).len() ==> (#[trigger] r1.subs_at(p)[i]).client != client,
{
    lemma_none_after_filter(
        r0,
        r1,
        |x: Subscription| x.client != client,
        |x: Subscription| x.client == client,
    );
    assert forall|p: Seq<Seq<u8>>, i: int|
        0 <= i < r1.subs_at(p).len() implies (#[trigger] r1.subs_at(p)[i]).client != client by {
        assert(r1.lookup(p) is Some);
    }
}

pub struct Router {
    subs: SubList<Subscription>,
}

impl Router {
    /// The subscriptions stored under the tokens `path`, in the order they
    /// were made; `None` where no subscription ever led there.
    pub closed spec fn lookup(self, path: Seq<Seq<u8>>) -> Option<Seq<Subscription>> {
        self.subs.lookup(path)
    }

    /// The subscriptions of `path`.
    pub open spec fn subs_at(self, path: Seq<Seq<u8>>) -> Seq<Subscription> {
        match self.lookup(path) {
            Some(s) => s,
            None => Seq::empty(),
        }
    }

    /// The trie is well formed and no subscription is left with zero
    /// deliveries.
    pub closed spec fn wf(self) -> bool {
        &&& self.subs.wf()
        &&& forall|p: Seq<Seq<u8>>, i: int| #[trigger]
            self.lookup(p) is Some && 0 <= i < self.lookup(p)->0.len() ==> (#[trigger] self.lookup(
                p,
            )->0[i]).remaining != Some(0u32)
    }

    pub fn new() -> (r: Self)
        ensures
            r.wf(),
            forall|p: Seq<Seq<u8>>| #[trigger] r.subs_at(p).len() == 0,
    {
        let r = Router { subs: SubList::new() };
        proof {
            assert forall|p: Seq<Seq<u8>>| #[trigger] r.lookup(p) is Some implies r.lookup(p)->0.len() == 0 by {
                if p.len() == 0 {
                    assert(p =~= Seq::<Seq<u8>>::empty());
                }
            }
        }
        r
    }

    /// `UNSUB sid [max]` from `client`. Without a max, or with a max of
    /// zero, the subscription is removed at once; with a max it is limited to
    /// that many further deliveries.
    pub fn unsubscribe(&mut self, client: u64, sid: &[u8], max: Option<u32>)
        requires
            old(self).wf(),
        ensures
            unsubscribed_at(*old(self), *final(self), client, sid@, max),
    {
        if let Some(m) = max {
            if m > 0 {
                let limit = |x: Subscription| -> (y: Subscription)
                    ensures
                        y == limited(x, client, sid@, m),
                    {
                        if x.client == client && same_bytes(x.sid.as_slice(), sid) {
                            Subscription { remaining: Some(m), ..x }
                        } else {
                            x
                        }
                    };
                self.subs.update_subscription(limit);
                proof {
                    assert forall|p: Seq<Seq<u8>>|
                        #[trigger] self.lookup(p) == match old(self).lookup(p) {
                            Some(s) => Some(unsubscribed_list(s, client, sid@, max)),
                            None => None,
                        } by {
                        if old(self).lookup(p) is Some {
                            let s = old(self).lookup(p)->0;
                            assert(mapped_by(s, self.lookup(p)->0, limit));
                            assert(self.lookup(p)->0 =~= s.map_values(
                                |x: Subscription| limited(x, client, sid@, m),
                            ));
                        }
                    }
                }
                return;
            }
        }
        let is_it = |x: &Subscription| -> (b: bool)
            ensures
                b == is_sub(*x, client, sid@),
            { x.client == client && same_bytes(x.sid.as_slice(), sid) };
        self.subs.remove_subscription(is_it);
        proof {
            let keep = |x: Subscription| !is_sub(x, client, sid@);
            assert forall|p: Seq<Seq<u8>>|
                #[trigger] self.lookup(p) == match old(self).lookup(p) {
                    Some(s) => Some(unsubscribed_list(s, client, sid@, max)),
                    None => None,
                } by {
                if old(self).lookup(p) is Some {
                    let s = old(self).lookup(p)->0;
                    lemma_kept_is_filter(s, is_it, keep);
                }
            }
            self.lemma_wf_after_filter(*old(self), keep);
        }
    }

    /// A router whose lists are filtered lists of a well-formed router is
    /// well formed.
    proof fn lemma_wf_after_filter(self, before: Router, keep: spec_fn(Subscription) -> bool)
        requires
            before.wf(),
            self.subs.wf(),
            forall|p: Seq<Seq<u8>>|
                #[trigger] self.lookup(p) == match before.lookup(p) {
                    Some(s) => Some(s.filter(keep)),
                    None => None,
                },
        ensures
            self.wf(),
    {
        assert forall|p: Seq<Seq<u8>>, i: int| #[trigger]
            self.lookup(p) is Some && 0 <= i < self.lookup(p)->0.len() implies (#[trigger] self.lookup(
                p,
            )->0[i]).remaining != Some(0u32) by {
            let s = before.lookup(p)->0;
            lemma_filter_from(s, keep, i);
            let j = choose|j: int| 0 <= j < s.len() && s[j] == s.filter(keep)[i];
            assert(before.lookup(p)->0[j] == s[j]);
        }
    }

    /// The connection `client` is gone: all its subscriptions are removed.
    pub fn remove_client(&mut self, client: u64)
        requires
            old(self).wf(),
        ensures
            client_removed_at(*old(self), *final(self), client),
    {
        let owned = |x: &Subscription| -> (b: bool)
            ensures
                b == (x.client == client),
            { x.client == client };
        self.subs.remove_subscription(owned);
        proof {
            let keep = |x: Subscription| x.client != client;
            assert forall|p: Seq<Seq<u8>>|
                #[trigger] self.lookup(p) == match old(self).lookup(p) {
                    Some(s) => Some(s.filter(keep)),
                    None => None,
                } by {
                if old(self).lookup(p) is Some {
                    let s = old(self).lookup(p)->0;
                    lemma_kept_is_filter(s, owned, keep);
                }
            }
            self.lemma_wf_after_filter(*old(self), keep);
        }
    }

    /// What a publish leaves, seen through the trie's own contract.
    proof fn lemma_wf_after_publish(before: Router, path: Seq<Seq<u8>>)
        requires
            before.wf(),
        ensures
            before.lookup(path) is Some ==> forall|r: Router, v: Seq<Subscription>|
                v == after_publish(before.lookup(path)->0) && #[trigger] updated_at(
                    before.subs.entry(),
                    r.subs.entry(),
                    path,
                    v,
                ) ==> r.wf() && published_at(before, r, path),
            before.lookup(path) is None ==> forall|r: Router| #[trigger]
                same_lookups(before.subs.entry(), r.subs.entry()) ==> r.wf() && published_at(
                    before,
                    r,
                    path,
                ),
    {
        if before.lookup(path) is Some {
            assert forall|r: Router, v: Seq<Subscription>|
                v == after_publish(before.lookup(path)->0) && #[trigger] updated_at(
                    before.subs.entry(),
                    r.subs.entry(),
                    path,
                    v,
                ) implies r.wf() && published_at(before, r, path) by {
                assert forall|p: Seq<Seq<u8>>, i: int| #[trigger]
                    r.lookup(p) is Some && 0 <= i < r.lookup(p)->0.len() implies (#[trigger] r.lookup(
                        p,
                    )->0[i]).remaining != Some(0u32) by {
                    if p == path {
                        let used = before.lookup(p)->0.map_values(|x: Subscription| used_once(x));
                        lemma_filter_from(used, |x: Subscription| x.remaining != Some(0u32), i);
                    } else {
                        assert(r.lookup(p) == before.lookup(p));
                    }
                }
            }
        }
        assert forall|r: Router| before.lookup(path) is None && #[trigger]
            same_lookups(before.subs.entry(), r.subs.entry()) implies r.wf() && published_at(
                before,
                r,
                path,
            ) by {
            assert forall|p: Seq<Seq<u8>>, i: int| #[trigger]
                r.lookup(p) is Some && 0 <= i < r.lookup(p)->0.len() implies (#[trigger] r.lookup(
                    p,
                )->0[i]).remaining != Some(0u32) by {
                assert(r.lookup(p) == before.lookup(p));
            }
        }
    }

    /// A lookup that changes no list leaves a well-formed router.
    proof fn lemma_wf_after_lookup(before: Router, path: Seq<Seq<u8>>)
        requires
            before.wf(),
        ensures
            forall|r: Router| #[trigger]
                same_lookups(before.subs.entry(), r.subs.entry()) ==> r.wf() && same_router(before, r),
            before.lookup(path) is Some ==> forall|r: Router, v: Seq<Subscription>|
                v == before.lookup(path)->0 && #[trigger] updated_at(
                    before.subs.entry(),
                    r.subs.entry(),
                    path,
                    v,
                ) ==> r.wf() && same_router(before, r),
    {
        assert forall|r: Router| #[trigger]
            same_lookups(before.subs.entry(), r.subs.entry()) implies r.wf() && same_router(before, r) by {
            assert forall|p: Seq<Seq<u8>>, i: int| #[trigger]
                r.lookup(p) is Some && 0 <= i < r.lookup(p)->0.len() implies (#[trigger] r.lookup(
                    p,
                )->0[i]).remaining != Some(0u32) by {
                assert(r.lookup(p) == before.lookup(p));
            }
        }
        if before.lookup(path) is Some {
            assert forall|r: Router, v: Seq<Subscription>|
                v == before.lookup(path)->0 && #[trigger] updated_at(
                    before.subs.entry(),
                    r.subs.entry(),
                    path,
                    v,
                ) implies r.wf() && same_router(before, r) by {
                assert forall|p: Seq<Seq<u8>>| #[trigger] r.lookup(p) == before.lookup(p) by {
                    if p == path {
                        assert(r.lookup(p) == Some(v));
                    }
                }
                assert forall|p: Seq<Seq<u8>>, i: int| #[trigger]
                    r.lookup(p) is Some && 0 <= i < r.lookup(p)->0.len() implies (#[trigger] r.lookup(
                        p,
                    )->0[i]).remaining != Some(0u32) by {
                    assert(r.lookup(p) == before.lookup(p));
                }
            }
        }
    }

    /// How many subscriptions `subject` has.
    pub fn subscriptions_of(&mut self, subject: &[u8]) -> (r: usize)
        requires
            old(self).wf(),
        ensures
            final(self).wf(),
            r == old(self).subs_at(split_tokens(subject@)).len(),
            same_router(*old(self), *final(self)),
    {
        proof {
            Router::lemma_wf_after_lookup(*old(self), split_tokens(subject@));
        }
        match self.subs.get_subscribe_item(subject) {
            Some(list) => list.len(),
            None => 0,
        }
    }

    /// `PUB subject [reply] payload`: one MSG frame for each subscription of
    /// `subject`, in the order the subscriptions were made; each limited
    /// subscription uses up one delivery and ends when none are left.
    pub fn publish(&mut self, subject: &[u8], reply: Option<&[u8]>, payload: &[u8]) -> (r: Vec<Delivery>)
        requires
            old(self).wf(),
        ensures
            final(self).wf(),
            delivered(*old(self), subject@, opt_view(reply), payload@, r@),
            published_at(*old(self), *final(self), split_tokens(subject@)),
    {
        let ghost path = split_tokens(subject@);
        proof {
            Router::lemma_wf_after_publish(*old(self), path);
        }
        let msg = Msg::new(subject, reply, payload);
        let mut out: Vec<Delivery> = Vec::new();
        match self.subs.get_subscribe_item(subject) {
            None => {

            },
            Some(list) => {
                let ghost subs = list@;
                let mut i: usize = 0;
                while i < list.len()
                    invariant
                        list@ == subs,
                        0 <= i <= subs.len(),
                        out@.len() == i,
                        msg.front() == crate::encode::msg_front(subject@),
                        msg.after() == crate::encode::msg_after(opt_view(reply), payload@),
                        forall|j: int|
                            0 <= j < i ==> delivers(
                                #[trigger] out@[j],
                                subs[j],
                                subject@,
                                opt_view(reply),
                                payload@,
                            ),
                    decreases subs.len() - i,
                {
                    let frame = msg.format(list[i].sid.as_slice());
                    let mut sid: Vec<u8> = Vec::new();
                    push_all(&mut sid, list[i].sid.as_slice());
                    out.push(Delivery { client: list[i].client, sid, frame });
                    i = i + 1;
                }
                let use_once = |x: Subscription| -> (y: Subscription)
                    ensures
                        y == used_once(x),
                    {
                        match x.remaining {
                            Some(n) => Subscription { remaining: Some(if n > 0 { n - 1 } else { 0 }), ..x },
                            None => x,
                        }
                    };
                map_in_place(list, &use_once);
                let ghost used_now = list@;
                let spent = |x: &Subscription| -> (b: bool)
                    ensures
                        b == (x.remaining == Some(0u32)),
                    { x.remaining == Some(0u32) };
                retain_by(list, &spent);
                proof {
                    let used = subs.map_values(|x: Subscription| used_once(x));
                    let keep = |x: Subscription| x.remaining != Some(0u32);
                    assert(used_now =~= used);
                    lemma_kept_is_filter(used, spent, keep);
                    assert(list@ == after_publish(subs));
                    assert forall|j: int| 0 <= j < list@.len() implies (#[trigger] list@[j]).remaining != Some(0u32) by {
                        lemma_filter_from(used, keep, j);
                    }
                }
            },
        }
        out
    }

    /// `SUB subject sid` from `client`: the subscription goes at the end of
    /// the subject's list, with no limit.
    pub fn subscribe(&mut self, client: u64, subject: &[u8], sid: Vec<u8>)
        requires
            old(self).wf(),
        ensures
            final(self).wf(),
            forall|p: Seq<Seq<u8>>|
                #[trigger] final(self).lookup(p) == subscribed(
                    old(self).lookup(p),
                    p,
                    split_tokens(subject@),
                    Subscription { client, sid, remaining: None },
                ),
            subscribed_at(*old(self), *final(self), client, subject@, sid@),
    {
        let ghost sub = Subscription { client, sid, remaining: None };
        self.subs.subscribe(subject, Subscription { client, sid, remaining: None });
        proof {
            assert forall|p: Seq<Seq<u8>>, i: int| #[trigger]
                self.lookup(p) is Some && 0 <= i < self.lookup(p)->0.len() implies (#[trigger] self.lookup(
                    p,
                )->0[i]).remaining != Some(0u32) by {
                let path = split_tokens(subject@);
                if p == path {
                    match old(self).lookup(p) {
                        Some(s) => {
                            if i < s.len() {
                                assert(self.lookup(p)->0[i] == s[i]);
                            }
                        },
                        None => {},
                    }
                }
            }
            let path = split_tokens(subject@);
            assert(self.lookup(path)->0.drop_last() =~= old(self).subs_at(path));
        }
    }
}

} // verus!

verus! {

/// How many subscriptions of `l` are `sid` of `client`.
pub open spec fn cnt(l: Seq<Subscription>, client: u64, sid: Seq<u8>) -> nat
    decreases l.len(),
{
    if l.len() == 0 {
        0
    } else {
        cnt(l.drop_last(), client, sid) + if is_sub(l.last(), client, sid) {
            1nat
        } else {
            0nat
        }
    }
}

/// How many deliveries the subscriptions `sid` of `client` in `l` have left
/// (none counted for an unlimited one).
pub open spec fn bud(l: Seq<Subscription>, client: u64, sid: Seq<u8>) -> nat
    decreases l.len(),
{
    if l.len() == 0 {
        0
    } else {
        bud(l.drop_last(), client, sid) + if is_sub(l.last(), client, sid) {
            match l.last().remaining {
                Some(n) => n as nat,
                None => 0nat,
            }
        } else {
            0nat
        }
    }
}

/// Every subscription `sid` of `client` in `l` is limited, with deliveries
/// left.
pub open spec fn lim(l: Seq<Subscription>, client: u64, sid: Seq<u8>) -> bool {
    forall|i: int|
        0 <= i < l.len() && is_sub(#[trigger] l[i], client, sid) ==> l[i].remaining is Some
            && l[i].remaining->0 > 0
}

/// The router holds the subscription `sid` of `client` at most once: sids
/// are unique per connection.
pub open spec fn held_once(r: Router, client: u64, sid: Seq<u8>) -> bool {
    &&& forall|p: Seq<Seq<u8>>| #[trigger] cnt(r.subs_at(p), client, sid) <= 1
    &&& forall|pa: Seq<Seq<u8>>, pb: Seq<Seq<u8>>|
        #[trigger] cnt(r.subs_at(pa), client, sid) > 0 && #[trigger] cnt(r.subs_at(pb), client, sid)
            > 0 ==> pa == pb
}

/// The subscription `sid` of `client` is limited wherever it is held.
pub open spec fn limited_everywhere(r: Router, client: u64, sid: Seq<u8>) -> bool {
    forall|p: Seq<Seq<u8>>| #[trigger] lim(r.subs_at(p), client, sid)
}

/// How many deliveries the subscription `sid` of `client` has left.
pub open spec fn budget(r: Router, client: u64, sid: Seq<u8>) -> nat {
    if exists|p: Seq<Seq<u8>>| #[trigger] cnt(r.subs_at(p), client, sid) > 0 {
        bud(r.subs_at(choose|p: Seq<Seq<u8>>| #[trigger] cnt(r.subs_at(p), client, sid) > 0), client, sid)
    } else {
        0
    }
}

/// How many of `ds` go to the subscription `sid` of `client`.
pub open spec fn count_to(ds: Seq<Delivery>, client: u64, sid: Seq<u8>) -> nat
    decreases ds.len(),
{
    if ds.len() == 0 {
        0
    } else {
        count_to(ds.drop_last(), client, sid) + if ds.last().client == client && ds.last().sid@
            == sid {
            1nat
        } else {
            0nat
        }
    }
}

/// How many of all the deliveries `dss` go to the subscription `sid` of
/// `client`.
pub open spec fn total_to(dss: Seq<Seq<Delivery>>, client: u64, sid: Seq<u8>) -> nat
    decreases dss.len(),
{
    if dss.len() == 0 {
        0
    } else {
        total_to(dss.drop_last(), client, sid) + count_to(dss.last(), client, sid)
    }
}

proof fn lemma_cnt_zero(l: Seq<Subscription>, client: u64, sid: Seq<u8>)
    requires
        forall|i: int| 0 <= i < l.len() ==> !is_sub(#[trigger] l[i], client, sid),
    ensures
        cnt(l, client, sid) == 0,
        bud(l, client, sid) == 0,
    decreases l.len(),
{
    if l.len() > 0 {
        assert forall|i: int| 0 <= i < l.drop_last().len() implies !is_sub(
            #[trigger] l.drop_last()[i],
            client,
            sid,
        ) by {
            assert(l.drop_last()[i] == l[i]);
        }
        lemma_cnt_zero(l.drop_last(), client, sid);
        assert(!is_sub(l[l.len() - 1], client, sid));
    }
}

proof fn lemma_bud_of_none(l: Seq<Subscription>, client: u64, sid: Seq<u8>)
    requires
        cnt(l, client, sid) == 0,
    ensures
        bud(l, client, sid) == 0,
    decreases l.len(),
{
    if l.len() > 0 {
        lemma_bud_of_none(l.drop_last(), client, sid);
    }
}

/// Each subscription of `l` with one delivery used up.
pub open spec fn used_all(l: Seq<Subscription>) -> Seq<Subscription> {
    l.map_values(|x: Subscription| used_once(x))
}

/// A publish takes one delivery from each limited subscription of the list.
proof fn lemma_used(l: Seq<Subscription>, client: u64, sid: Seq<u8>)
    requires
        lim(l, client, sid),
    ensures
        cnt(l.map_values(|x: Subscription| used_once(x)), client, sid) == cnt(l, client, sid),
        bud(l.map_values(|x: Subscription| used_once(x)), client, sid) + cnt(l, client, sid) == bud(
            l,
            client,
            sid,
        ),
        forall|i: int|
            0 <= i < l.len() && is_sub(#[trigger] used_all(l)[i], client, sid) ==> used_all(l)[i].remaining is Some,
    decreases l.len(),
{
    let m = l.map_values(|x: Subscription| used_once(x));
    if l.len() > 0 {
        let d = l.drop_last();
        assert forall|i: int| 0 <= i < d.len() && is_sub(#[trigger] d[i], client, sid) implies d[i].remaining is Some
            && d[i].remaining->0 > 0 by {
            assert(d[i] == l[i]);
        }
        lemma_used(d, client, sid);
        assert(m.drop_last() =~= d.map_values(|x: Subscription| used_once(x)));
        assert(m.last() == used_once(l.last()));
        if is_sub(l.last(), client, sid) {
            assert(l[l.len() - 1] == l.last());
        }
    }
}

/// Dropping the subscriptions with no deliveries left keeps what the others
/// have left.
proof fn lemma_spent_dropped(m: Seq<Subscription>, client: u64, sid: Seq<u8>)
    requires
        forall|i: int| 0 <= i < m.len() && is_sub(#[trigger] m[i], client, sid) ==> m[i].remaining is Some,
    ensures
        cnt(m.filter(|x: Subscription| x.remaining != Some(0u32)), client, sid) <= cnt(m, client, sid),
        bud(m.filter(|x: Subscription| x.remaining != Some(0u32)), client, sid) == bud(m, client, sid),
        lim(m.filter(|x: Subscription| x.remaining != Some(0u32)), client, sid),
    decreases m.len(),
{
    reveal(Seq::filter);
    let keep = |x: Subscription| x.remaining != Some(0u32);
    let f = m.filter(keep);
    if m.len() > 0 {
        let d = m.drop_last();
        assert forall|i: int| 0 <= i < d.len() && is_sub(#[trigger] d[i], client, sid) implies d[i].remaining is Some by {
            assert(d[i] == m[i]);
        }
        lemma_spent_dropped(d, client, sid);
        let fd = d.filter(keep);
        if keep(m.last()) {
            assert(f == fd.push(m.last()));
            assert(f.drop_last() =~= fd);
            assert(f.last() == m.last());
            if is_sub(m.last(), client, sid) {
                assert(m[m.len() - 1] == m.last());
            }
            assert forall|i: int| 0 <= i < f.len() && is_sub(#[trigger] f[i], client, sid) implies f[i].remaining is Some
                && f[i].remaining->0 > 0 by {
                if i < fd.len() {
                    assert(f[i] == fd[i]);
                } else {
                    assert(f[i] == m.last());
                }
            }
        } else {
            assert(f == fd);
            if is_sub(m.last(), client, sid) {
                assert(m[m.len() - 1] == m.last());
            }
        }
    } else {
        assert(f =~= m);
    }
}

/// `UNSUB sid max` with a max limits every copy of the subscription to
/// `max` deliveries.
proof fn lemma_limited(l: Seq<Subscription>, client: u64, sid: Seq<u8>, max: u32)
    requires
        max > 0,
    ensures
        cnt(l.map_values(|x: Subscription| limited(x, client, sid, max)), client, sid) == cnt(
            l,
            client,
            sid,
        ),
        bud(l.map_values(|x: Subscription| limited(x, client, sid, max)), client, sid) == max
            * cnt(l, client, sid),
        lim(l.map_values(|x: Subscription| limited(x, client, sid, max)), client, sid),
    decreases l.len(),
{
    let m = l.map_values(|x: Subscription| limited(x, client, sid, max));
    if l.len() > 0 {
        let d = l.drop_last();
        lemma_limited(d, client, sid, max);
        assert(m.drop_last() =~= d.map_values(|x: Subscription| limited(x, client, sid, max)));
        assert(m.last() == limited(l.last(), client, sid, max));
        let c = cnt(d, client, sid);
        assert(max * c + max == max * (c + 1)) by (nonlinear_arith);
    }
}

/// The deliveries of a publish to the subscription are as many as its
/// copies in the subject's list.
proof fn lemma_count_to(
    ds: Seq<Delivery>,
    l: Seq<Subscription>,
    subject: Seq<u8>,
    reply: Option<Seq<u8>>,
    payload: Seq<u8>,
    client: u64,
    sid: Seq<u8>,
)
    requires
        ds.len() == l.len(),
        forall|i: int| 0 <= i < ds.len() ==> delivers(#[trigger] ds[i], l[i], subject, reply, payload),
    ensures
        count_to(ds, client, sid) == cnt(l, client, sid),
    decreases ds.len(),
{
    if ds.len() > 0 {
        assert forall|i: int| 0 <= i < ds.drop_last().len() implies delivers(
            #[trigger] ds.drop_last()[i],
            l.drop_last()[i],
            subject,
            reply,
            payload,
        ) by {
            assert(ds.drop_last()[i] == ds[i]);
            assert(l.drop_last()[i] == l[i]);
        }
        lemma_count_to(ds.drop_last(), l.drop_last(), subject, reply, payload, client, sid);
        assert(delivers(ds[ds.len() - 1], l[l.len() - 1], subject, reply, payload));
    }
}

proof fn lemma_budget_at(r: Router, p: Seq<Seq<u8>>, client: u64, sid: Seq<u8>)
    requires
        held_once(r, client, sid),
        cnt(r.subs_at(p), client, sid) > 0,
    ensures
        budget(r, client, sid) == bud(r.subs_at(p), client, sid),
{
    let q = choose|q: Seq<Seq<u8>>| #[trigger] cnt(r.subs_at(q), client, sid) > 0;
    assert(cnt(r.subs_at(q), client, sid) > 0);
}

/// One publish: what goes to the subscription plus what it has left after
/// is what it had left before.
proof fn lemma_publish_step(
    r: Router,
    r2: Router,
    subject: Seq<u8>,
    reply: Option<Seq<u8>>,
    payload: Seq<u8>,
    ds: Seq<Delivery>,
    client: u64,
    sid: Seq<u8>,
)
    requires
        held_once(r, client, sid),
        limited_everywhere(r, client, sid),
        delivered(r, subject, reply, payload, ds),
        published_at(r, r2, split_tokens(subject)),
    ensures
        held_once(r2, client, sid),
        limited_everywhere(r2, client, sid),
        count_to(ds, client, sid) + budget(r2, client, sid) == budget(r, client, sid),
{
    let path = split_tokens(subject);
    let l = r.subs_at(path);
    let used = l.map_values(|x: Subscription| used_once(x));
    let a = used.filter(|x: Subscription| x.remaining != Some(0u32));
    lemma_count_to(ds, l, subject, reply, payload, client, sid);
    assert(lim(l, client, sid));
    lemma_used(l, client, sid);
    lemma_spent_dropped(used, client, sid);
    if r.lookup(path) is Some {
        assert(r2.subs_at(path) == a);
    } else {
        assert(r2.subs_at(path) == l);
        lemma_cnt_zero(l, client, sid);
    }
    assert forall|p: Seq<Seq<u8>>| p != path implies #[trigger] r2.subs_at(p) == r.subs_at(p) by {
        assert(r2.lookup(p) == r.lookup(p));
    }
    assert(cnt(r2.subs_at(path), client, sid) <= cnt(l, client, sid));
    assert forall|p: Seq<Seq<u8>>| #[trigger] cnt(r2.subs_at(p), client, sid) <= 1 by {
        if p != path {
            assert(r2.subs_at(p) == r.subs_at(p));
        }
        assert(cnt(r.subs_at(p), client, sid) <= 1);
    }
    assert forall|pa: Seq<Seq<u8>>, pb: Seq<Seq<u8>>|
        #[trigger] cnt(r2.subs_at(pa), client, sid) > 0 && #[trigger] cnt(r2.subs_at(pb), client, sid)
            > 0 implies pa == pb by {
        if pa != path {
            assert(r2.subs_at(pa) == r.subs_at(pa));
        }
        if pb != path {
            assert(r2.subs_at(pb) == r.subs_at(pb));
        }
        assert(cnt(r.subs_at(pa), client, sid) > 0);
        assert(cnt(r.subs_at(pb), client, sid) > 0);
    }
    assert forall|p: Seq<Seq<u8>>| #[trigger] lim(r2.subs_at(p), client, sid) by {
        if p != path {
            assert(r2.subs_at(p) == r.subs_at(p));
        }
    }
    if cnt(l, client, sid) == 0 {
        lemma_bud_of_none(l, client, sid);
        if exists|p: Seq<Seq<u8>>| #[trigger] cnt(r.subs_at(p), client, sid) > 0 {
            let q = choose|p: Seq<Seq<u8>>| #[trigger] cnt(r.subs_at(p), client, sid) > 0;
            assert(q != path);
            assert(r2.subs_at(q) == r.subs_at(q));
            lemma_budget_at(r, q, client, sid);
            lemma_budget_at(r2, q, client, sid);
        } else {
            assert forall|p: Seq<Seq<u8>>| !(#[trigger] cnt(r2.subs_at(p), client, sid) > 0) by {
                if p != path {
                    assert(r2.subs_at(p) == r.subs_at(p));
                }
            }
        }
    } else {
        lemma_budget_at(r, path, client, sid);
        if cnt(r2.subs_at(path), client, sid) > 0 {
            lemma_budget_at(r2, path, client, sid);
        } else {
            lemma_bud_of_none(r2.subs_at(path), client, sid);
            assert forall|p: Seq<Seq<u8>>| !(#[trigger] cnt(r2.subs_at(p), client, sid) > 0) by {
                if p != path {
                    assert(r2.subs_at(p) == r.subs_at(p));
                    if cnt(r.subs_at(p), client, sid) > 0 {
                        assert(cnt(r.subs_at(path), client, sid) > 0);
                    }
                }
            }
        }
    }
}

/// After `UNSUB sid max`, the subscription has at most `max` deliveries
/// left, and every copy of it is limited.
proof fn lemma_unsub_budget(r0: Router, r1: Router, client: u64, sid: Seq<u8>, max: u32)
    requires
        held_once(r0, client, sid),
        unsubscribed_at(r0, r1, client, sid, Some(max)),
    ensures
        held_once(r1, client, sid),
        limited_everywhere(r1, client, sid),
        budget(r1, client, sid) <= max,
{
    if max > 0 {
        assert forall|p: Seq<Seq<u8>>|
            #[trigger] r1.subs_at(p) == r0.subs_at(p).map_values(
                |x: Subscription| limited(x, client, sid, max),
            ) by {
            if r0.lookup(p) is None {
                assert(r1.subs_at(p) =~= r0.subs_at(p).map_values(
                    |x: Subscription| limited(x, client, sid, max),
                ));
            }
            lemma_limited(r0.subs_at(p), client, sid, max);
        }
        assert forall|p: Seq<Seq<u8>>|
            #[trigger] cnt(r1.subs_at(p), client, sid) == cnt(r0.subs_at(p), client, sid) by {
            lemma_limited(r0.subs_at(p), client, sid, max);
        }
        assert forall|p: Seq<Seq<u8>>| #[trigger] lim(r1.subs_at(p), client, sid) by {
            lemma_limited(r0.subs_at(p), client, sid, max);
        }
        assert(held_once(r1, client, sid)) by {
            assert forall|pa: Seq<Seq<u8>>, pb: Seq<Seq<u8>>|
                #[trigger] cnt(r1.subs_at(pa), client, sid) > 0 && #[trigger] cnt(
                    r1.subs_at(pb),
                    client,
                    sid,
                ) > 0 implies pa == pb by {
                assert(cnt(r0.subs_at(pa), client, sid) > 0);
                assert(cnt(r0.subs_at(pb), client, sid) > 0);
            }
            assert forall|p: Seq<Seq<u8>>| #[trigger] cnt(r1.subs_at(p), client, sid) <= 1 by {
                assert(cnt(r0.subs_at(p), client, sid) <= 1);
            }
        }
        if exists|p: Seq<Seq<u8>>| #[trigger] cnt(r1.subs_at(p), client, sid) > 0 {
            let q = choose|p: Seq<Seq<u8>>| #[trigger] cnt(r1.subs_at(p), client, sid) > 0;
            lemma_budget_at(r1, q, client, sid);
            lemma_limited(r0.subs_at(q), client, sid, max);
            assert(cnt(r0.subs_at(q), client, sid) <= 1);
            assert(max * cnt(r0.subs_at(q), client, sid) <= max) by (nonlinear_arith)
                requires
                    cnt(r0.subs_at(q), client, sid) <= 1,
            ;
        }
    } else {
        let keep = |x: Subscription| !is_sub(x, client, sid);
        assert forall|p: Seq<Seq<u8>>|
            #[trigger] cnt(r1.subs_at(p), client, sid) == 0 && lim(r1.subs_at(p), client, sid) by {
            let l1 = r1.subs_at(p);
            assert forall|i: int| 0 <= i < l1.len() implies !is_sub(#[trigger] l1[i], client, sid) by {
                lemma_filter_from(r0.subs_at(p), keep, i);
            }
            lemma_cnt_zero(l1, client, sid);
        }
    }
}

/// After `UNSUB sid max` from `client`, the publishes that follow deliver
/// at most `max` MSG frames to that subscription (sids being unique per
/// connection).
pub proof fn lemma_unsub_max_bounds_deliveries(
    r0: Router,
    rs: Seq<Router>,
    client: u64,
    sid: Seq<u8>,
    max: u32,
    subjects: Seq<Seq<u8>>,
    replies: Seq<Option<Seq<u8>>>,
    payloads: Seq<Seq<u8>>,
    dss: Seq<Seq<Delivery>>,
)
    requires
        held_once(r0, client, sid),
        rs.len() == dss.len() + 1,
        subjects.len() == dss.len(),
        replies.len() == dss.len(),
        payloads.len() == dss.len(),
        unsubscribed_at(r0, rs[0], client, sid, Some(max)),
        forall|k: int|
            0 <= k < dss.len() ==> delivered(rs[k], subjects[k], replies[k], payloads[k], #[trigger] dss[k])
                && published_at(rs[k], rs[k + 1], split_tokens(subjects[k])),
    ensures
        total_to(dss, client, sid) <= max,
{
    lemma_unsub_budget(r0, rs[0], client, sid, max);
    lemma_publishes_bounded(rs, client, sid, subjects, replies, payloads, dss);
}

proof fn lemma_bud_positive(l: Seq<Subscription>, client: u64, sid: Seq<u8>)
    requires
        lim(l, client, sid),
        cnt(l, client, sid) > 0,
    ensures
        bud(l, client, sid) > 0,
    decreases l.len(),
{
    let d = l.drop_last();
    if is_sub(l.last(), client, sid) {
        assert(l[l.len() - 1] == l.last());
    } else {
        assert forall|i: int| 0 <= i < d.len() && is_sub(#[trigger] d[i], client, sid) implies d[i].remaining is Some
            && d[i].remaining->0 > 0 by {
            assert(d[i] == l[i]);
        }
        lemma_bud_positive(d, client, sid);
    }
}

/// After `UNSUB sid max` from `client`, once the publishes that follow have
/// delivered `max` MSG frames to that subscription, the router holds it no
/// more (sids being unique per connection).
pub proof fn lemma_unsub_max_exhausted(
    r0: Router,
    rs: Seq<Router>,
    client: u64,
    sid: Seq<u8>,
    max: u32,
    subjects: Seq<Seq<u8>>,
    replies: Seq<Option<Seq<u8>>>,
    payloads: Seq<Seq<u8>>,
    dss: Seq<Seq<Delivery>>,
)
    requires
        held_once(r0, client, sid),
        rs.len() == dss.len() + 1,
        subjects.len() == dss.len(),
        replies.len() == dss.len(),
        payloads.len() == dss.len(),
        unsubscribed_at(r0, rs[0], client, sid, Some(max)),
        forall|k: int|
            0 <= k < dss.len() ==> delivered(rs[k], subjects[k], replies[k], payloads[k], #[trigger] dss[k])
                && published_at(rs[k], rs[k + 1], split_tokens(subjects[k])),
        total_to(dss, client, sid) == max,
    ensures
        forall|p: Seq<Seq<u8>>| #[trigger] cnt(rs[dss.len() as int].subs_at(p), client, sid) == 0,
{
    lemma_unsub_budget(r0, rs[0], client, sid, max);
    lemma_publishes_bounded(rs, client, sid, subjects, replies, payloads, dss);
    let last = rs[dss.len() as int];
    assert forall|p: Seq<Seq<u8>>| #[trigger] cnt(last.subs_at(p), client, sid) == 0 by {
        if cnt(last.subs_at(p), client, sid) > 0 {
            lemma_budget_at(last, p, client, sid);
            assert(lim(last.subs_at(p), client, sid));
            lemma_bud_positive(last.subs_at(p), client, sid);
        }
    }
}

proof fn lemma_publishes_bounded(
    rs: Seq<Router>,
    client: u64,
    sid: Seq<u8>,
    subjects: Seq<Seq<u8>>,
    replies: Seq<Option<Seq<u8>>>,
    payloads: Seq<Seq<u8>>,
    dss: Seq<Seq<Delivery>>,
)
    requires
        held_once(rs[0], client, sid),
        limited_everywhere(rs[0], client, sid),
        rs.len() == dss.len() + 1,
        subjects.len() == dss.len(),
        replies.len() == dss.len(),
        payloads.len() == dss.len(),
        forall|k: int|
            0 <= k < dss.len() ==> delivered(rs[k], subjects[k], replies[k], payloads[k], #[trigger] dss[k])
                && published_at(rs[k], rs[k + 1], split_tokens(subjects[k])),
    ensures
        total_to(dss, client, sid) + budget(rs[dss.len() as int], client, sid) <= budget(rs[0], client, sid),
        held_once(rs[dss.len() as int], client, sid),
        limited_everywhere(rs[dss.len() as int], client, sid),
    decreases dss.len(),
{
    if dss.len() > 0 {
        let n = dss.len() - 1;
        lemma_publishes_bounded(
            rs.drop_last(),
            client,
            sid,
            subjects.drop_last(),
            replies.drop_last(),
            payloads.drop_last(),
            dss.drop_last(),
        );
        assert(rs.drop_last()[n] == rs[n]);
        assert(dss[n] == dss.last());
        lemma_publish_step(rs[n], rs[n + 1], subjects[n], replies[n], payloads[n], dss[n], client, sid);
    }
}

} // verus!
