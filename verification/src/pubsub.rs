//! Generic publish/subscribe: a shared map from channel name to a fanout
//! of opaque string payloads, with reference-counted channel lifecycle —
//! a channel exists exactly while it has at least one live subscriber —
//! and the multiplexer session that merges a changing set of
//! subscriptions into one outbound stream.

use vstd::prelude::*;

use crate::codec::{channel_key, json_string, kq, parse_control, parse_control_ex, write_json_string, write_kq};
use crate::error::CoreError;
use crate::fanout::{live_count, Fanout, Recv};
use crate::table::{find_entry, lemma_find_key_push, lemma_find_key_same_keys};

verus! {

/// The channel registry. Its well-formedness carries the lifecycle law:
/// an entry exists only while its fanout has at least one live
/// subscriber (and conversely, a subscriber only exists on an entry).
pub struct PubSub {
    pub channels: Vec<(Vec<u8>, Fanout)>,
}

impl PubSub {
    pub open spec fn wf(self) -> bool {
        &&& forall|i: int, j: int|
            0 <= i < j < self.channels.len() ==> (#[trigger] self.channels[i]).0@ != (
            #[trigger] self.channels[j]).0@
        &&& forall|i: int| 0 <= i < self.channels.len() ==> (#[trigger] self.channels[i]).1.wf()
        &&& forall|i: int|
            0 <= i < self.channels.len() ==> live_count((#[trigger] self.channels[i]).1.cursors@)
                >= 1
    }

    pub open spec fn chan_idx(self, name: Seq<u8>) -> int {
        crate::table::find_key(self.channels@, name)
    }

    pub open spec fn has_chan(self, name: Seq<u8>) -> bool {
        self.chan_idx(name) != -1
    }

    pub open spec fn chan(self, name: Seq<u8>) -> Fanout {
        self.channels@[self.chan_idx(name)].1
    }

    /// An empty registry.
    pub fn new() -> (r: PubSub)
        ensures
            r.wf(),
            r.channels@.len() == 0,
    {
        PubSub { channels: Vec::new() }
    }
}

/// A live receiver handle bound to one channel; releasing it may tear
/// the channel down.
pub struct Subscription {
    pub channel_name: Vec<u8>,
    pub rid: usize,
}

/// The subscription points at a live cursor of an existing channel.
pub open spec fn sub_valid(reg: PubSub, name: Seq<u8>, rid: int) -> bool {
    &&& reg.has_chan(name)
    &&& 0 <= rid < reg.chan(name).cursors@.len()
    &&& reg.chan(name).cursors@[rid] is Some
}

/// What subscribing to `name` does to the registry: get-or-create the
/// channel — created fresh, with no memory of prior payloads — and add
/// one subscriber positioned at the end of its log.
pub open spec fn subscribe_post(pre: PubSub, post: PubSub, name: Seq<u8>, rid: int) -> bool {
    &&& post.has_chan(name)
    &&& pre.has_chan(name) ==> {
        &&& post.channels@.len() == pre.channels@.len()
        &&& post.chan_idx(name) == pre.chan_idx(name)
        &&& rid == pre.chan(name).cursors@.len()
        &&& post.chan(name).log@ == pre.chan(name).log@
        &&& post.chan(name).start == pre.chan(name).start
        &&& post.chan(name).cursors@ == pre.chan(name).cursors@.push(
            Some(pre.chan(name).log@.len() as usize),
        )
        &&& live_count(post.chan(name).cursors@) == live_count(pre.chan(name).cursors@) + 1
    }
    &&& !pre.has_chan(name) ==> {
        &&& post.channels@.len() == pre.channels@.len() + 1
        &&& post.chan_idx(name) == pre.channels@.len()
        &&& rid == 0
        &&& post.chan(name).log@ == Seq::<Seq<u8>>::empty()
        &&& post.chan(name).start == 0
        &&& post.chan(name).cursors@ == Seq::<Option<usize>>::empty().push(Some(0usize))
    }
    &&& forall|j: int|
        0 <= j < pre.channels@.len() && j != post.chan_idx(name) ==> #[trigger] post.channels@[j]
            == pre.channels@[j]
    &&& post.channels@[post.chan_idx(name)].0@ == name
}

/// What releasing subscriber `rid` of channel `name` does: the cursor is
/// dropped, and the channel entry is removed exactly when it was the
/// last live subscriber.
pub open spec fn unsubscribe_post(pre: PubSub, post: PubSub, name: Seq<u8>, rid: int) -> bool {
    let idx = pre.chan_idx(name);
    if live_count(pre.chan(name).cursors@) == 1 {
        &&& post.channels@ == pre.channels@.remove(idx)
        &&& !post.has_chan(name)
    } else {
        &&& post.channels@.len() == pre.channels@.len()
        &&& post.chan_idx(name) == idx
        &&& post.chan(name).log@ == pre.chan(name).log@
        &&& post.chan(name).start == pre.chan(name).start
        &&& post.chan(name).cursors@ == pre.chan(name).cursors@.update(rid, None)
        &&& live_count(post.chan(name).cursors@) + 1 == live_count(pre.chan(name).cursors@)
        &&& forall|j: int|
            0 <= j < pre.channels@.len() && j != idx ==> #[trigger] post.channels@[j]
                == pre.channels@[j]
        &&& post.channels@[idx].0@ == name
    }
}

/// After an entry update with an unchanged key, every lookup lands where
/// it did before.
proof fn lemma_pubsub_update(pre: PubSub, post: PubSub, idx: int)
    requires
        0 <= idx < pre.channels@.len(),
        post.channels@.len() == pre.channels@.len(),
        forall|j: int|
            0 <= j < pre.channels@.len() && j != idx ==> post.channels@[j] == pre.channels@[j],
        post.channels@[idx].0 == pre.channels@[idx].0,
    ensures
        forall|n: Seq<u8>| #[trigger] post.chan_idx(n) == pre.chan_idx(n),
{
    assert forall|n: Seq<u8>| #[trigger] post.chan_idx(n) == pre.chan_idx(n) by {
        lemma_find_key_same_keys(pre.channels@, post.channels@, n);
    }
}

impl PubSub {
    /// Take a new subscription on the named channel, creating the
    /// channel on first subscribe.
    pub fn subscribe(&mut self, channel_name: &Vec<u8>) -> (s: Subscription)
        requires
            old(self).wf(),
            old(self).channels.len() < usize::MAX,
            old(self).has_chan(channel_name@) ==> old(self).chan(
                channel_name@,
            ).cursors@.len() < usize::MAX,
        ensures
            final(self).wf(),
            s.channel_name@ == channel_name@,
            sub_valid(*final(self), channel_name@, s.rid as int),
            subscribe_post(*old(self), *final(self), channel_name@, s.rid as int),
    {
        match find_entry(&self.channels, channel_name) {
            Some(i) => {
                let ghost mid = *self;
                let rid = self.channels[i].1.subscribe();
                proof {
                    lemma_pubsub_update(mid, *final(self), i as int);
                }
                Subscription { channel_name: crate::fanout::clone_bytes(channel_name), rid }
            },
            None => {
                let i = self.channels.len();
                let ghost pre = self.channels@;
                let entry = (crate::fanout::clone_bytes(channel_name), Fanout::new(
                    crate::chat::FANOUT_CAP,
                ));
                let ghost e = entry;
                self.channels.push(entry);
                proof {
                    lemma_find_key_push(pre, e, channel_name@);
                    assert forall|a: int, b: int|
                        0 <= a < b < self.channels.len() implies (#[trigger] self.channels@[a]).0@
                        != (#[trigger] self.channels@[b]).0@ by {
                        if b == pre.len() {
                            crate::table::lemma_find_key(pre, channel_name@);
                        }
                    }
                }
                let ghost mid = *self;
                let rid = self.channels[i].1.subscribe();
                proof {
                    lemma_pubsub_update(mid, *final(self), i as int);
                    assert(final(self).chan(channel_name@).cursors@ =~= Seq::<
                        Option<usize>,
                    >::empty().push(Some(0usize)));
                }
                Subscription { channel_name: crate::fanout::clone_bytes(channel_name), rid }
            },
        }
    }

    /// Publish a payload on the named channel; if there is no such
    /// channel (nobody subscribed), the publish is a silent no-op and no
    /// channel is created.
    pub fn send(&mut self, channel: &Vec<u8>, msg: Vec<u8>)
        requires
            old(self).wf(),
            old(self).has_chan(channel@) ==> old(self).chan(channel@).log@.len() < usize::MAX,
        ensures
            final(self).wf(),
            !old(self).has_chan(channel@) ==> final(self).channels@ == old(self).channels@,
            old(self).has_chan(channel@) ==> {
                &&& final(self).channels@.len() == old(self).channels@.len()
                &&& final(self).chan_idx(channel@) == old(self).chan_idx(channel@)
                &&& final(self).chan(channel@).log@ == old(self).chan(channel@).log@.push(msg@)
                &&& final(self).chan(channel@).start == crate::fanout::next_start(
                    old(self).chan(channel@),
                )
                &&& final(self).chan(channel@).cursors@ == old(self).chan(channel@).cursors@
                &&& forall|j: int|
                    0 <= j < old(self).channels@.len() && j != old(self).chan_idx(channel@)
                        ==> #[trigger] final(self).channels@[j] == old(self).channels@[j]
            },
    {
        match find_entry(&self.channels, channel) {
            None => {},
            Some(i) => {
                let ghost mid = *self;
                self.channels[i].1.publish(msg);
                proof {
                    lemma_pubsub_update(mid, *final(self), i as int);
                }
            },
        }
    }
}

impl Subscription {
    /// Release the subscription: drop the receiver, then — atomically
    /// with respect to subscribes to the same name — remove the channel
    /// entry if it now has no live subscriber.
    pub fn unsubscribe(self, pubsub: &mut PubSub) -> (r: Result<(), CoreError>)
        requires
            old(pubsub).wf(),
        ensures
            final(pubsub).wf(),
            match r {
                Ok(_) => sub_valid(*old(pubsub), self.channel_name@, self.rid as int)
                    && unsubscribe_post(
                    *old(pubsub),
                    *final(pubsub),
                    self.channel_name@,
                    self.rid as int,
                ),
                Err(e) => e == CoreError::EntryMissing && !sub_valid(
                    *old(pubsub),
                    self.channel_name@,
                    self.rid as int,
                ) && final(pubsub).channels@ == old(pubsub).channels@,
            },
    {
        match find_entry(&pubsub.channels, &self.channel_name) {
            None => Err(CoreError::EntryMissing),
            Some(i) => {
                if !(self.rid < pubsub.channels[i].1.cursors.len()) {
                    return Err(CoreError::EntryMissing);
                }
                if pubsub.channels[i].1.cursors[self.rid].is_none() {
                    return Err(CoreError::EntryMissing);
                }
                let ghost mid = *pubsub;
                self.drop_and_sweep(pubsub, i)
            },
        }
    }

    /// The receiver drop plus the emptiness check and removal.
    fn drop_and_sweep(&self, pubsub: &mut PubSub, i: usize) -> (r: Result<(), CoreError>)
        requires
            old(pubsub).wf(),
            i as int == old(pubsub).chan_idx(self.channel_name@),
            sub_valid(*old(pubsub), self.channel_name@, self.rid as int),
        ensures
            final(pubsub).wf(),
            r is Ok,
            unsubscribe_post(*old(pubsub), *final(pubsub), self.channel_name@, self.rid as int),
    {
        proof {
            crate::table::lemma_find_key(old(pubsub).channels@, self.channel_name@);
        }
        let ghost name = self.channel_name@;
        self.drop_cursor(pubsub, i);
        let ghost mid = *pubsub;
        let n = self.count_receivers(pubsub, i);
        if n == 0 {
            let ghost pre = pubsub.channels@;
            pubsub.channels.remove(i);
            proof {
                let post = pubsub.channels@;
                assert(post =~= pre.remove(i as int));
                assert forall|j: int| 0 <= j < post.len() implies (#[trigger] post[j]).0@
                    != name by {
                    if j < i {
                        assert(post[j] == pre[j]);
                    } else {
                        assert(post[j] == pre[j + 1]);
                    }
                }
                crate::table::lemma_find_key(post, name);
                if crate::table::find_key(post, name) != -1 {
                    assert(post[crate::table::find_key(post, name)].0@ == name);
                }
                assert(post =~= old(pubsub).channels@.remove(i as int));
                assert forall|a: int, b: int|
                    0 <= a < b < post.len() implies (#[trigger] post[a]).0@ != (
                #[trigger] post[b]).0@ by {
                    let a0 = if a < i {
                        a
                    } else {
                        a + 1
                    };
                    let b0 = if b < i {
                        b
                    } else {
                        b + 1
                    };
                    assert(post[a] == pre[a0]);
                    assert(post[b] == pre[b0]);
                }
            }
            Ok(())
        } else {
            Ok(())
        }
    }

    /// Drop this subscription's cursor on channel `i`.
    fn drop_cursor(&self, pubsub: &mut PubSub, i: usize)
        requires
            old(pubsub).wf(),
            i as int == old(pubsub).chan_idx(self.channel_name@),
            sub_valid(*old(pubsub), self.channel_name@, self.rid as int),
        ensures
            final(pubsub).channels@.len() == old(pubsub).channels@.len(),
            forall|j: int|
                0 <= j < old(pubsub).channels@.len() && j != i ==> #[trigger] final(pubsub).channels@[j] == old(pubsub).channels@[j],
            final(pubsub).channels@[i as int].0 == old(pubsub).channels@[i as int].0,
            final(pubsub).chan_idx(self.channel_name@) == i,
            final(pubsub).channels@[i as int].1.log@ == old(pubsub).channels@[i as int].1.log@,
            final(pubsub).channels@[i as int].1.start == old(pubsub).channels@[i as int].1.start,
            final(pubsub).channels@[i as int].1.wf(),
            final(pubsub).channels@[i as int].1.cursors@ == old(pubsub).channels@[i as int].1.cursors@.update(self.rid as int, None),
            live_count(final(pubsub).channels@[i as int].1.cursors@) + 1 == live_count(
                old(pubsub).channels@[i as int].1.cursors@,
            ),
            forall|a: int, b: int|
                0 <= a < b < final(pubsub).channels@.len() ==> (#[trigger] final(pubsub).channels@[a]).0@ != (#[trigger] final(pubsub).channels@[b]).0@,
            forall|j: int|
                0 <= j < final(pubsub).channels@.len() ==> (#[trigger] final(pubsub).channels@[j]).1.wf(),
    {
        proof {
            crate::table::lemma_find_key(old(pubsub).channels@, self.channel_name@);
        }
        let ghost mid = *pubsub;
        pubsub.channels[i].1.drop_receiver(self.rid);
        proof {
            lemma_pubsub_update(mid, *final(pubsub), i as int);
        }
    }

    /// Live receivers left on channel `i`.
    fn count_receivers(&self, pubsub: &PubSub, i: usize) -> (n: usize)
        requires
            i < pubsub.channels.len(),
        ensures
            n == live_count(pubsub.channels@[i as int].1.cursors@),
    {
        pubsub.channels[i].1.receiver_count()
    }
}

// ---------------------------------------------------------------------
// The multiplexer session
// ---------------------------------------------------------------------
/// One connection's dynamic set of subscriptions: channel name to
/// subscriber id, one entry per channel.
pub struct MuxSession {
    pub subs: Vec<(Vec<u8>, usize)>,
}

/// Every entry of the session points at a live subscription, one per
/// channel name.
pub open spec fn session_valid(reg: PubSub, s: MuxSession) -> bool {
    &&& forall|a: int, b: int|
        0 <= a < b < s.subs@.len() ==> (#[trigger] s.subs@[a]).0@ != (#[trigger] s.subs@[b]).0@
    &&& forall|k: int|
        0 <= k < s.subs@.len() ==> sub_valid(
            reg,
            (#[trigger] s.subs@[k]).0@,
            s.subs@[k].1 as int,
        )
}

/// Whether the session holds a subscription to `n`.
pub open spec fn session_has(s: MuxSession, n: Seq<u8>) -> bool {
    crate::table::find_key(s.subs@, n) != -1
}

/// The channel subscription `k` points at.
pub open spec fn sub_chan(reg: PubSub, s: MuxSession, k: int) -> Fanout {
    reg.chan(s.subs@[k].0@)
}

/// The log position subscription `k` stands at.
pub open spec fn sub_pos(reg: PubSub, s: MuxSession, k: int) -> int {
    sub_chan(reg, s, k).cursors@[s.subs@[k].1 as int]->Some_0 as int
}

/// Subscription `k` has seen everything published on its channel.
pub open spec fn sub_empty(reg: PubSub, s: MuxSession, k: int) -> bool {
    sub_pos(reg, s, k) == sub_chan(reg, s, k).log@.len()
}

pub open spec fn msg_key() -> Seq<u8> {
    seq![109u8, 115u8, 103u8]
}

/// The frame the multiplexer writes for one payload: the channel it came
/// from and the payload itself.
pub open spec fn mux_json(name: Seq<u8>, payload: Seq<u8>) -> Seq<u8> {
    seq![123u8] + kq(channel_key()) + json_string(name) + seq![44u8] + kq(msg_key())
        + json_string(payload) + seq![125u8]
}

fn msg_key_vec() -> (r: Vec<u8>)
    ensures
        r@ == msg_key(),
{
    let mut v: Vec<u8> = Vec::new();
    v.push(109);
    v.push(115);
    v.push(103);
    proof {
        assert(v@ =~= msg_key());
    }
    v
}

/// The exact outbound frame for one payload of one channel.
pub fn encode_mux_frame(name: &Vec<u8>, payload: &Vec<u8>) -> (r: Vec<u8>)
    ensures
        r@ == mux_json(name@, payload@),
{
    let mut out: Vec<u8> = Vec::new();
    out.push(123);
    write_kq(&mut out, &crate::codec::channel_key_vec());
    write_json_string(&mut out, name);
    out.push(44);
    write_kq(&mut out, &msg_key_vec());
    write_json_string(&mut out, payload);
    out.push(125);
    proof {
        assert(out@ =~= mux_json(name@, payload@));
    }
    out
}

/// One result of polling the merged stream.
pub enum MergeStep {
    /// No subscription has anything pending.
    Idle,
    /// The tagged frame for the first pending payload, in subscription
    /// order.
    Frame(Vec<u8>),
    /// The first non-idle subscription had lagged; its cursor skipped
    /// ahead and nothing is emitted.
    Lagged,
}

impl MuxSession {
    /// A session with no subscriptions.
    pub fn new() -> (s: MuxSession)
        ensures
            s.subs@.len() == 0,
    {
        MuxSession { subs: Vec::new() }
    }

    /// Handle one inbound control frame: `Subscribe` registers a new
    /// subscription unless the channel is already held; `Unsubscribe`
    /// releases the held one, if any. A frame outside the grammar ends
    /// the inbound direction.
    pub fn handle_control(&mut self, reg: &mut PubSub, frame: &Vec<u8>) -> (r: Result<
        (),
        CoreError,
    >)
        requires
            old(reg).wf(),
            session_valid(*old(reg), *old(self)),
            old(reg).channels.len() < usize::MAX,
            old(self).subs.len() < usize::MAX,
            forall|i: int|
                0 <= i < old(reg).channels@.len() ==> (#[trigger] old(reg).channels@[i]).1.cursors@.len() < usize::MAX,
        ensures
            final(reg).wf(),
            session_valid(*final(reg), *final(self)),
            match parse_control(frame@) {
                None => r == Result::<(), CoreError>::Err(CoreError::MalformedFrame) && final(reg).channels@ == old(reg).channels@ && final(self).subs@ == old(self).subs@,
                Some((sub, n)) => r is Ok && if sub {
                    if session_has(*old(self), n) {
                        final(reg).channels@ == old(reg).channels@ && final(self).subs@ == old(self).subs@
                    } else {
                        exists|rid: int|
                            {
                                &&& #[trigger] subscribe_post(*old(reg), *final(reg), n, rid)
                                &&& final(self).subs@.len() == old(self).subs@.len() + 1
                                &&& forall|j: int|
                                    0 <= j < old(self).subs@.len() ==> #[trigger] final(self).subs@[j] == old(self).subs@[j]
                                &&& final(self).subs@.last().0@ == n
                                &&& final(self).subs@.last().1 as int == rid
                            }
                    }
                } else {
                    if session_has(*old(self), n) {
                        final(self).subs@ == old(self).subs@.remove(
                            crate::table::find_key(old(self).subs@, n),
                        ) && unsubscribe_post(
                            *old(reg),
                            *final(reg),
                            n,
                            old(self).subs@[crate::table::find_key(old(self).subs@, n)].1 as int,
                        )
                    } else {
                        final(reg).channels@ == old(reg).channels@ && final(self).subs@ == old(self).subs@
                    }
                },
            },
    {
        match parse_control_ex(frame) {
            None => Err(CoreError::MalformedFrame),
            Some((sub, name)) => {
                if sub {
                    match find_entry(&self.subs, &name) {
                        Some(_) => Ok(()),
                        None => {
                            proof {
                                crate::table::lemma_find_key(reg.channels@, name@);
                            }
                            let s = reg.subscribe(&name);
                            let ghost rid = s.rid as int;
                            self.subs.push((s.channel_name, s.rid));
                            proof {
                                assert forall|k: int|
                                    0 <= k < self.subs@.len() implies sub_valid(
                                    *final(reg),
                                    (#[trigger] self.subs@[k]).0@,
                                    self.subs@[k].1 as int,
                                ) by {
                                    if k < old(self).subs@.len() {
                                        lemma_sub_valid_after_subscribe(
                                            *old(reg),
                                            *final(reg),
                                            name@,
                                            rid,
                                            old(self).subs@[k].0@,
                                            old(self).subs@[k].1 as int,
                                        );
                                    }
                                }
                                assert forall|a: int, b: int|
                                    0 <= a < b < self.subs@.len() implies (
                                #[trigger] self.subs@[a]).0@ != (#[trigger] self.subs@[b]).0@ by {
                                    if b == old(self).subs@.len() {
                                        crate::table::lemma_find_key(old(self).subs@, name@);
                                    }
                                }
                            }
                            Ok(())
                        },
                    }
                } else {
                    match find_entry(&self.subs, &name) {
                        None => Ok(()),
                        Some(k) => {
                            let ghost pre_subs = self.subs@;
                            let ghost pre_reg = *reg;
                            let entry = self.subs.remove(k);
                            let s = Subscription { channel_name: entry.0, rid: entry.1 };
                            let res = s.unsubscribe(reg);
                            proof {
                                assert(self.subs@ =~= pre_subs.remove(k as int));
                                if res is Err {
                                    assert(false);
                                }
                                assert forall|k2: int|
                                    0 <= k2 < self.subs@.len() implies sub_valid(
                                    *final(reg),
                                    (#[trigger] self.subs@[k2]).0@,
                                    self.subs@[k2].1 as int,
                                ) by {
                                    let k0 = if k2 < k {
                                        k2
                                    } else {
                                        k2 + 1
                                    };
                                    assert(self.subs@[k2] == pre_subs[k0]);
                                    lemma_sub_valid_after_unsubscribe(
                                        pre_reg,
                                        *final(reg),
                                        name@,
                                        pre_subs[k as int].1 as int,
                                        pre_subs[k0].0@,
                                        pre_subs[k0].1 as int,
                                    );
                                }
                                assert forall|a: int, b: int|
                                    0 <= a < b < self.subs@.len() implies (
                                #[trigger] self.subs@[a]).0@ != (#[trigger] self.subs@[b]).0@ by {
                                    let a0 = if a < k {
                                        a
                                    } else {
                                        a + 1
                                    };
                                    let b0 = if b < k {
                                        b
                                    } else {
                                        b + 1
                                    };
                                    assert(self.subs@[a] == pre_subs[a0]);
                                    assert(self.subs@[b] == pre_subs[b0]);
                                }
                            }
                            Ok(())
                        },
                    }
                }
            },
        }
    }
}

/// A subscription to another channel survives a subscribe to `n`.
proof fn lemma_sub_valid_after_subscribe(
    pre: PubSub,
    post: PubSub,
    n: Seq<u8>,
    rid: int,
    n2: Seq<u8>,
    rid2: int,
)
    requires
        pre.wf(),
        subscribe_post(pre, post, n, rid),
        sub_valid(pre, n2, rid2),
    ensures
        n2 != n ==> sub_valid(post, n2, rid2) && post.chan(n2) == pre.chan(n2),
        n2 == n ==> sub_valid(post, n2, rid2),
{
    crate::table::lemma_find_key(pre.channels@, n2);
    crate::table::lemma_find_key(pre.channels@, n);
    crate::table::lemma_find_key(post.channels@, n2);
    if n2 != n {
        let i2 = pre.chan_idx(n2);
        assert(post.channels@[i2] == pre.channels@[i2]);
        crate::table::lemma_find_key_first(post.channels@, n2, i2);
    }
}

/// A subscription to another channel survives an unsubscribe from `n`.
proof fn lemma_sub_valid_after_unsubscribe(
    pre: PubSub,
    post: PubSub,
    n: Seq<u8>,
    rid: int,
    n2: Seq<u8>,
    rid2: int,
)
    requires
        pre.wf(),
        pre.has_chan(n),
        unsubscribe_post(pre, post, n, rid),
        sub_valid(pre, n2, rid2),
        n2 != n,
    ensures
        sub_valid(post, n2, rid2) && post.chan(n2) == pre.chan(n2),
{
    crate::table::lemma_find_key(pre.channels@, n2);
    crate::table::lemma_find_key(pre.channels@, n);
    let i = pre.chan_idx(n);
    let i2 = pre.chan_idx(n2);
    if live_count(pre.chan(n).cursors@) == 1 {
        crate::table::lemma_find_key_remove(pre.channels@, post.channels@, i, n2);
    } else {
        assert(post.channels@[i2] == pre.channels@[i2]);
        crate::table::lemma_find_key_first(post.channels@, n2, i2);
    }
}

/// Two channel tables with the same names and the same observable
/// channel state (log, window, cursors), entry by entry.
pub open spec fn chans_eq(a: Seq<(Vec<u8>, Fanout)>, b: Seq<(Vec<u8>, Fanout)>) -> bool {
    &&& a.len() == b.len()
    &&& forall|j: int|
        0 <= j < a.len() ==> {
            &&& (#[trigger] a[j]).0@ == (#[trigger] b[j]).0@
            &&& a[j].1.log@ == b[j].1.log@
            &&& a[j].1.buf@ == b[j].1.buf@
            &&& a[j].1.start == b[j].1.start
            &&& a[j].1.cap == b[j].1.cap
            &&& a[j].1.cursors@ == b[j].1.cursors@
        }
}

/// Under equal channel tables, lookups, validity and positions agree.
proof fn lemma_chans_eq_session(rega: PubSub, regb: PubSub, s: MuxSession)
    requires
        chans_eq(rega.channels@, regb.channels@),
        session_valid(rega, s),
    ensures
        session_valid(regb, s),
        forall|n: Seq<u8>| #[trigger] regb.chan_idx(n) == rega.chan_idx(n),
        forall|k: int|
            0 <= k < s.subs@.len() ==> #[trigger] sub_pos(regb, s, k) == sub_pos(rega, s, k)
                && sub_chan(regb, s, k).log@ == sub_chan(rega, s, k).log@ && sub_chan(
                regb,
                s,
                k,
            ).start == sub_chan(rega, s, k).start,
{
    assert forall|n: Seq<u8>| #[trigger] regb.chan_idx(n) == rega.chan_idx(n) by {
        lemma_find_key_same_keys(rega.channels@, regb.channels@, n);
    }
    assert forall|k: int| 0 <= k < s.subs@.len() implies sub_valid(
        regb,
        (#[trigger] s.subs@[k]).0@,
        s.subs@[k].1 as int,
    ) by {
        assert(sub_valid(rega, s.subs@[k].0@, s.subs@[k].1 as int));
        crate::table::lemma_find_key(rega.channels@, s.subs@[k].0@);
    }
    assert forall|k: int| 0 <= k < s.subs@.len() implies #[trigger] sub_pos(regb, s, k) == sub_pos(
        rega,
        s,
        k,
    ) && sub_chan(regb, s, k).log@ == sub_chan(rega, s, k).log@ && sub_chan(regb, s, k).start
        == sub_chan(rega, s, k).start by {
        assert(sub_valid(rega, s.subs@[k].0@, s.subs@[k].1 as int));
        crate::table::lemma_find_key(rega.channels@, s.subs@[k].0@);
    }
}

/// What one merge poll does: nothing when every subscription is idle;
/// otherwise it acts on the first subscription with something pending —
/// emitting its next payload as a tagged frame and advancing its cursor,
/// or, if it fell behind the retained window, snapping its cursor ahead
/// and emitting nothing. All other cursors, and every log, stay put.
pub open spec fn merge_post(pre: PubSub, post: PubSub, s: MuxSession, r: MergeStep) -> bool {
    match r {
        MergeStep::Idle => chans_eq(post.channels@, pre.channels@) && forall|k: int|
            0 <= k < s.subs@.len() ==> #[trigger] sub_empty(pre, s, k),
        MergeStep::Frame(f) => exists|k: int|
            #![auto]
            {
                &&& 0 <= k < s.subs@.len()
                &&& forall|j: int| 0 <= j < k ==> sub_empty(pre, s, j)
                &&& sub_chan(pre, s, k).start <= sub_pos(pre, s, k) < sub_chan(
                    pre,
                    s,
                    k,
                ).log@.len()
                &&& f@ == mux_json(s.subs@[k].0@, sub_chan(pre, s, k).log@[sub_pos(pre, s, k)])
                &&& sub_pos(post, s, k) == sub_pos(pre, s, k) + 1
                &&& forall|k2: int|
                    0 <= k2 < s.subs@.len() && k2 != k ==> sub_pos(post, s, k2) == sub_pos(
                        pre,
                        s,
                        k2,
                    )
            },
        MergeStep::Lagged => exists|k: int|
            #![auto]
            {
                &&& 0 <= k < s.subs@.len()
                &&& forall|j: int| 0 <= j < k ==> sub_empty(pre, s, j)
                &&& sub_pos(pre, s, k) < sub_chan(pre, s, k).start
                &&& sub_pos(post, s, k) == sub_chan(pre, s, k).start
                &&& forall|k2: int|
                    0 <= k2 < s.subs@.len() && k2 != k ==> sub_pos(post, s, k2) == sub_pos(
                        pre,
                        s,
                        k2,
                    )
            },
    }
}

impl MuxSession {
    /// One poll of the merged stream: scan the subscriptions in order
    /// and act on the first one with something pending. Publish order is
    /// kept per channel; across channels the order is a property of the
    /// scan, not of the channels.
    pub fn merge_step(&self, reg: &mut PubSub) -> (r: MergeStep)
        requires
            old(reg).wf(),
            session_valid(*old(reg), *self),
        ensures
            final(reg).wf(),
            session_valid(*final(reg), *self),
            final(reg).channels@.len() == old(reg).channels@.len(),
            forall|j: int|
                0 <= j < old(reg).channels@.len() ==> (#[trigger] final(reg).channels@[j]).0@
                    == old(reg).channels@[j].0@ && final(reg).channels@[j].1.log@ == old(
                    reg,
                ).channels@[j].1.log@ && final(reg).channels@[j].1.start == old(
                    reg,
                ).channels@[j].1.start,
            merge_post(*old(reg), *final(reg), *self, r),
    {
        let mut k: usize = 0;
        #[verifier::loop_isolation(false)]
        while k < self.subs.len()
            invariant
                k <= self.subs@.len(),
                reg.wf(),
                chans_eq(reg.channels@, old(reg).channels@),
                session_valid(*reg, *self),
                forall|j: int| 0 <= j < k ==> #[trigger] sub_empty(*old(reg), *self, j),
            decreases self.subs@.len() - k,
        {
            proof {
                lemma_chans_eq_session(*reg, *old(reg), *self);
                lemma_chans_eq_session(*old(reg), *reg, *self);
            }
            let name = &self.subs[k].0;
            let rid = self.subs[k].1;
            let ci = match find_entry(&reg.channels, name) {
                Some(ci) => ci,
                None => {
                    proof {
                        assert(sub_valid(*reg, self.subs@[k as int].0@, rid as int));
                        assert(false);
                    }
                    0
                },
            };
            proof {
                assert(sub_valid(*reg, self.subs@[k as int].0@, rid as int));
            }
            let ghost mid = *reg;
            let rv = reg.channels[ci].1.recv(rid);
            proof {
                lemma_pubsub_update(mid, *reg, ci as int);
            }
            match rv {
                Recv::Empty => {
                    proof {
                        lemma_merge_touch(mid, *reg, *self, ci as int, rid as int);
                        assert(sub_empty(mid, *self, k as int));
                        assert(sub_empty(*old(reg), *self, k as int));
                        assert(chans_eq(reg.channels@, mid.channels@));
                    }
                    k = k + 1;
                },
                Recv::Lagged => {
                    proof {
                        crate::fanout::lemma_live_count_update_some(
                            mid.channels@[ci as int].1.cursors@,
                            rid as int,
                            mid.channels@[ci as int].1.start,
                        );
                        lemma_merge_touch(mid, *reg, *self, ci as int, rid as int);
                        lemma_other_subs_positions(mid, *reg, *self, k as int, ci as int);
                        lemma_pubsub_update(mid, *reg, ci as int);
                        assert(reg.chan_idx(self.subs@[k as int].0@) == ci);
                        assert(sub_pos(*reg, *self, k as int) == mid.channels@[ci as int].1.start);
                        assert(sub_pos(*old(reg), *self, k as int) < sub_chan(
                            *old(reg),
                            *self,
                            k as int,
                        ).start);
                    }
                    return MergeStep::Lagged;
                },
                Recv::Value(v) => {
                    let f = encode_mux_frame(name, &v);
                    proof {
                        crate::fanout::lemma_live_count_update_some(
                            mid.channels@[ci as int].1.cursors@,
                            rid as int,
                            (mid.channels@[ci as int].1.cursors@[rid as int]->Some_0 + 1) as usize,
                        );
                        lemma_merge_touch(mid, *reg, *self, ci as int, rid as int);
                        lemma_other_subs_positions(mid, *reg, *self, k as int, ci as int);
                        lemma_pubsub_update(mid, *reg, ci as int);
                        assert(reg.chan_idx(self.subs@[k as int].0@) == ci);
                        assert(sub_pos(*reg, *self, k as int) == sub_pos(mid, *self, k as int) + 1);
                        assert(f@ == mux_json(
                            self.subs@[k as int].0@,
                            sub_chan(*old(reg), *self, k as int).log@[sub_pos(
                                *old(reg),
                                *self,
                                k as int,
                            )],
                        ));
                    }
                    return MergeStep::Frame(f);
                },
            }
        }
        proof {
            lemma_chans_eq_session(*reg, *old(reg), *self);
        }
        MergeStep::Idle
    }
}

/// After one receive attempt on subscription `k`'s channel, every other
/// subscription of the session stands where it stood.
proof fn lemma_other_subs_positions(pre: PubSub, post: PubSub, s: MuxSession, k: int, ci: int)
    requires
        session_valid(pre, s),
        session_valid(post, s),
        0 <= k < s.subs@.len(),
        0 <= ci < pre.channels@.len(),
        ci == pre.chan_idx(s.subs@[k].0@),
        pre.channels@.len() == post.channels@.len(),
        forall|j: int|
            0 <= j < pre.channels@.len() && j != ci ==> post.channels@[j] == pre.channels@[j],
        post.channels@[ci].0 == pre.channels@[ci].0,
        post.channels@[ci].1.cursors@.len() == pre.channels@[ci].1.cursors@.len(),
    ensures
        forall|k2: int|
            0 <= k2 < s.subs@.len() && k2 != k ==> #[trigger] sub_pos(post, s, k2) == sub_pos(
                pre,
                s,
                k2,
            ),
{
    assert forall|n: Seq<u8>| #[trigger] post.chan_idx(n) == pre.chan_idx(n) by {
        lemma_find_key_same_keys(pre.channels@, post.channels@, n);
    }
    assert forall|k2: int| 0 <= k2 < s.subs@.len() && k2 != k implies #[trigger] sub_pos(
        post,
        s,
        k2,
    ) == sub_pos(pre, s, k2) by {
        let n2 = s.subs@[k2].0@;
        assert(sub_valid(pre, n2, s.subs@[k2].1 as int));
        crate::table::lemma_find_key(pre.channels@, n2);
        crate::table::lemma_find_key(pre.channels@, s.subs@[k].0@);
        if pre.chan_idx(n2) != ci {
            assert(post.channels@[pre.chan_idx(n2)] == pre.channels@[pre.chan_idx(n2)]);
        }
    }
}

/// A session stays valid when one receive attempt moves one cursor of
/// one channel in place.
proof fn lemma_merge_touch(pre: PubSub, post: PubSub, s: MuxSession, ci: int, rid: int)
    requires
        session_valid(pre, s),
        pre.channels@.len() == post.channels@.len(),
        0 <= ci < pre.channels@.len(),
        forall|j: int|
            0 <= j < pre.channels@.len() && j != ci ==> post.channels@[j] == pre.channels@[j],
        post.channels@[ci].0 == pre.channels@[ci].0,
        post.channels@[ci].1.cursors@.len() == pre.channels@[ci].1.cursors@.len(),
        post.channels@[ci].1.cursors@ == pre.channels@[ci].1.cursors@ || (0 <= rid
            < pre.channels@[ci].1.cursors@.len() && exists|p: usize|
            post.channels@[ci].1.cursors@ == pre.channels@[ci].1.cursors@.update(
                rid,
                Some(p),
            )),
    ensures
        session_valid(post, s),
{
    assert forall|n: Seq<u8>| #[trigger] post.chan_idx(n) == pre.chan_idx(n) by {
        lemma_find_key_same_keys(pre.channels@, post.channels@, n);
    }
    assert forall|k: int| 0 <= k < s.subs@.len() implies sub_valid(
        post,
        (#[trigger] s.subs@[k]).0@,
        s.subs@[k].1 as int,
    ) by {
        let n = s.subs@[k].0@;
        let r2 = s.subs@[k].1 as int;
        assert(sub_valid(pre, n, r2));
        crate::table::lemma_find_key(pre.channels@, n);
        if pre.chan_idx(n) == ci {
            assert(post.channels@[ci].1.cursors@[r2] is Some);
        } else {
            assert(post.channels@[pre.chan_idx(n)] == pre.channels@[pre.chan_idx(n)]);
        }
    }
}

/// What the teardown owes each held subscription, relative to the
/// registry at the start of the teardown: the subscription was released
/// — its channel removed if it was the last live subscriber there, its
/// cursor dropped otherwise, with the channel's log and window intact.
pub open spec fn released(pre: PubSub, post: PubSub, n: Seq<u8>, rid: int) -> bool {
    if live_count(pre.chan(n).cursors@) == 1 {
        !post.has_chan(n)
    } else {
        &&& post.has_chan(n)
        &&& post.chan(n).log@ == pre.chan(n).log@
        &&& post.chan(n).start == pre.chan(n).start
        &&& post.chan(n).cursors@ == pre.chan(n).cursors@.update(rid, None)
    }
}

/// Tear a session down: release every still-held subscription, so
/// now-empty channels are reclaimed; channels the session does not hold
/// are untouched.
pub fn close_session(reg: &mut PubSub, s: MuxSession)
    requires
        old(reg).wf(),
        session_valid(*old(reg), s),
    ensures
        final(reg).wf(),
        forall|k: int|
            0 <= k < s.subs@.len() ==> #[trigger] released(
                *old(reg),
                *final(reg),
                s.subs@[k].0@,
                s.subs@[k].1 as int,
            ),
        forall|n: Seq<u8>|
            !session_has(s, n) ==> old(reg).has_chan(n) == #[trigger] final(reg).has_chan(n) && (
            old(reg).has_chan(n) ==> final(reg).chan(n) == old(reg).chan(n)),
{
    let mut rest = s;
    let ghost all = rest.subs@;
    proof {
        assert(rest.subs@ =~= all.subrange(0, rest.subs@.len() as int));
    }
    #[verifier::loop_isolation(false)]
    while rest.subs.len() > 0
        invariant
            reg.wf(),
            session_valid(*reg, rest),
            rest.subs@.len() <= all.len(),
            rest.subs@ == all.subrange(0, rest.subs@.len() as int),
            forall|k2: int|
                0 <= k2 < rest.subs@.len() ==> reg.has_chan((#[trigger] rest.subs@[k2]).0@)
                    && reg.chan(rest.subs@[k2].0@) == old(reg).chan(rest.subs@[k2].0@),
            forall|k2: int|
                rest.subs@.len() <= k2 < all.len() ==> #[trigger] released(
                    *old(reg),
                    *reg,
                    all[k2].0@,
                    all[k2].1 as int,
                ),
            forall|n: Seq<u8>|
                !session_has(s, n) ==> old(reg).has_chan(n) == #[trigger] reg.has_chan(n) && (old(
                    reg,
                ).has_chan(n) ==> reg.chan(n) == old(reg).chan(n)),
        decreases rest.subs@.len(),
    {
        let ghost pre_subs = rest.subs@;
        let ghost pre_reg = *reg;
        let entry = match rest.subs.pop() {
            Some(e) => e,
            None => {
                proof {
                    assert(false);
                }
                return ;
            },
        };
        let sub = Subscription { channel_name: entry.0, rid: entry.1 };
        let ghost name = sub.channel_name@;
        let ghost rid = sub.rid as int;
        let res = sub.unsubscribe(reg);
        proof {
            let k = pre_subs.len() - 1;
            assert(rest.subs@ =~= pre_subs.remove(k));
            assert(rest.subs@ =~= all.subrange(0, rest.subs@.len() as int));
            if res is Err {
                assert(false);
            }
            // The suffix entry just handled: its release, relative to the
            // teardown's starting state.
            assert(pre_reg.chan(name) == old(reg).chan(name));
            assert(released(*old(reg), *reg, name, rid));
            // Entries still to do keep their channels, by name uniqueness.
            assert forall|k2: int|
                0 <= k2 < rest.subs@.len() implies reg.has_chan((#[trigger] rest.subs@[k2]).0@)
                && reg.chan(rest.subs@[k2].0@) == old(reg).chan(rest.subs@[k2].0@) by {
                assert(rest.subs@[k2] == pre_subs[k2]);
                lemma_chan_preserved_by_unsubscribe(pre_reg, *reg, name, rid, pre_subs[k2].0@);
            }
            assert forall|k2: int|
                0 <= k2 < rest.subs@.len() implies sub_valid(
                *reg,
                (#[trigger] rest.subs@[k2]).0@,
                rest.subs@[k2].1 as int,
            ) by {
                assert(rest.subs@[k2] == pre_subs[k2]);
                lemma_sub_valid_after_unsubscribe(
                    pre_reg,
                    *reg,
                    name,
                    rid,
                    pre_subs[k2].0@,
                    pre_subs[k2].1 as int,
                );
            }
            // Entries already released stay released.
            assert(all.subrange(0, all.len() as int) =~= all);
            assert forall|k2: int|
                rest.subs@.len() <= k2 < all.len() implies #[trigger] released(
                *old(reg),
                *reg,
                all[k2].0@,
                all[k2].1 as int,
            ) by {
                if k2 != k {
                    let n2 = all[k2].0@;
                    let rid2 = all[k2].1 as int;
                    assert(released(*old(reg), pre_reg, n2, rid2));
                    assert(s.subs@[k] == pre_subs[k]);
                    assert(s.subs@[k2] == all[k2]);
                    assert(n2 != name);
                    if live_count(old(reg).chan(n2).cursors@) == 1 {
                        lemma_chan_absent_preserved(pre_reg, *reg, name, rid, n2);
                    } else {
                        lemma_chan_preserved_by_unsubscribe(pre_reg, *reg, name, rid, n2);
                    }
                }
            }
            // Channels outside the session stay untouched.
            assert forall|n2: Seq<u8>| !session_has(s, n2) implies old(reg).has_chan(n2)
                == #[trigger] reg.has_chan(n2) && (old(reg).has_chan(n2) ==> reg.chan(n2) == old(
                reg,
            ).chan(n2)) by {
                let at_loop_head = pre_reg.has_chan(n2);
                crate::table::lemma_find_key(s.subs@, n2);
                crate::table::lemma_find_key(s.subs@, name);
                assert(s.subs@[k] == pre_subs[k]);
                assert(n2 != name);
                crate::table::lemma_find_key(pre_reg.channels@, n2);
                if pre_reg.has_chan(n2) {
                    lemma_chan_preserved_by_unsubscribe(pre_reg, *reg, name, rid, n2);
                } else {
                    lemma_chan_absent_preserved(pre_reg, *reg, name, rid, n2);
                }
            }
        }
    }
    proof {
        assert forall|k: int| 0 <= k < s.subs@.len() implies #[trigger] released(
            *old(reg),
            *reg,
            s.subs@[k].0@,
            s.subs@[k].1 as int,
        ) by {
            assert(all.subrange(0, all.len() as int) =~= all);
            assert(s.subs@[k] == all[k]);
        }
    }
}

/// An existing other channel survives an unsubscribe unchanged.
proof fn lemma_chan_preserved_by_unsubscribe(
    pre: PubSub,
    post: PubSub,
    n: Seq<u8>,
    rid: int,
    n2: Seq<u8>,
)
    requires
        pre.wf(),
        pre.has_chan(n),
        unsubscribe_post(pre, post, n, rid),
        pre.has_chan(n2),
        n2 != n,
    ensures
        post.has_chan(n2),
        post.chan(n2) == pre.chan(n2),
{
    crate::table::lemma_find_key(pre.channels@, n2);
    crate::table::lemma_find_key(pre.channels@, n);
    let i = pre.chan_idx(n);
    let i2 = pre.chan_idx(n2);
    if live_count(pre.chan(n).cursors@) == 1 {
        crate::table::lemma_find_key_remove(pre.channels@, post.channels@, i, n2);
    } else {
        assert(post.channels@[i2] == pre.channels@[i2]);
        crate::table::lemma_find_key_first(post.channels@, n2, i2);
    }
}

/// A name with no channel still has none after an unsubscribe from a
/// different name.
proof fn lemma_chan_absent_preserved(pre: PubSub, post: PubSub, n: Seq<u8>, rid: int, n2: Seq<u8>)
    requires
        pre.wf(),
        pre.has_chan(n),
        unsubscribe_post(pre, post, n, rid),
        !pre.has_chan(n2),
        n2 != n,
    ensures
        !post.has_chan(n2),
{
    crate::table::lemma_find_key(pre.channels@, n);
    crate::table::lemma_find_key(pre.channels@, n2);
    let i = pre.chan_idx(n);
    if live_count(pre.chan(n).cursors@) == 1 {
        crate::table::lemma_find_key_remove(pre.channels@, post.channels@, i, n2);
    } else {
        assert forall|j: int| 0 <= j < post.channels@.len() implies (
        #[trigger] post.channels@[j]).0@ != n2 by {
            if j != i {
                assert(post.channels@[j] == pre.channels@[j]);
            }
        }
        crate::table::lemma_find_key(post.channels@, n2);
        if post.chan_idx(n2) != -1 {
            assert(post.channels@[post.chan_idx(n2)].0@ == n2);
        }
    }
}

/// Law: when a session's only subscription stands at the end of its
/// channel's log as a payload is published, the next merge poll emits
/// exactly that payload's tagged frame — it is neither skipped as idle
/// nor dropped as lagged.
pub proof fn lemma_sent_then_emitted(
    pre: PubSub,
    mid: PubSub,
    post: PubSub,
    s: MuxSession,
    name: Seq<u8>,
    payload: Seq<u8>,
    r: MergeStep,
)
    requires
        pre.wf(),
        s.subs@.len() == 1,
        s.subs@[0].0@ == name,
        sub_valid(pre, name, s.subs@[0].1 as int),
        sub_pos(pre, s, 0) == pre.chan(name).log@.len(),
        mid.channels@.len() == pre.channels@.len(),
        mid.chan_idx(name) == pre.chan_idx(name),
        mid.chan(name).log@ == pre.chan(name).log@.push(payload),
        mid.chan(name).start == crate::fanout::next_start(pre.chan(name)),
        mid.chan(name).cursors@ == pre.chan(name).cursors@,
        merge_post(mid, post, s, r),
    ensures
        r matches MergeStep::Frame(f) && f@ == mux_json(name, payload),
{
    crate::table::lemma_find_key(pre.channels@, name);
    assert(pre.chan(name).wf());
    let c = sub_pos(mid, s, 0);
    assert(c == pre.chan(name).log@.len());
    assert(mid.chan(name).start <= c < mid.chan(name).log@.len());
    match r {
        MergeStep::Idle => {
            assert(sub_empty(mid, s, 0));
            assert(false);
        },
        MergeStep::Lagged => {
            assert(false);
        },
        MergeStep::Frame(f) => {
            assert(mid.chan(name).log@[c as int] == payload);
        },
    }
}

// ---------------------------------------------------------------------
// Laws of the channel lifecycle
// ---------------------------------------------------------------------
/// Law: a channel exists in a well-formed registry only while it has at
/// least one live subscriber — and a subscriber count is only spoken of
/// for channels that exist, so existence and a positive count coincide.
pub proof fn lemma_channel_iff_subscribed(reg: PubSub, name: Seq<u8>)
    requires
        reg.wf(),
    ensures
        reg.has_chan(name) ==> live_count(reg.chan(name).cursors@) >= 1,
{
    if reg.has_chan(name) {
        crate::table::lemma_find_key(reg.channels@, name);
    }
}

/// Law: two subscribers positioned at `c1` and `c2` on one channel both
/// have every payload published after both subscribed in their pending
/// streams, at the positions that keep publish order.
pub proof fn lemma_both_subscribers_receive(log: Seq<Seq<u8>>, c1: int, c2: int, j: int)
    requires
        0 <= c1 <= log.len(),
        0 <= c2 <= log.len(),
        c1 <= j < log.len(),
        c2 <= j < log.len(),
    ensures
        log.subrange(c1, log.len() as int)[j - c1] == log[j],
        log.subrange(c2, log.len() as int)[j - c2] == log[j],
{
}

} // verus!
