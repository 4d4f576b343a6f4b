//! Per-room chat: message and envelope types with their exact wire
//! encoding, the room registry with presence counts and bounded history
//! replay, and the per-connection session steps.

use vstd::prelude::*;

use crate::codec::{
    content_key, json_string, kq, parse_incoming, parse_incoming_ex, reply_key, ulid_bytes,
    ulid_to_bytes, write_json_string, write_kq,
};
use crate::error::CoreError;
use crate::fanout::{views, Fanout, Recv};
use crate::table::{find_entry, lemma_find_key_push, lemma_find_key_same_keys};

verus! {

/// One chat message, immutable once created. Ids are 128-bit values
/// rendered as 26-character strings on the wire; the timestamp is
/// carried as the text it is rendered as.
pub struct ChatMessage {
    pub message_id: u128,
    pub content: Vec<u8>,
    pub author: Vec<u8>,
    pub timestamp: Vec<u8>,
    pub reply_to: Option<u128>,
}

/// Mathematical image of a [`ChatMessage`].
pub struct ChatMessageView {
    pub message_id: u128,
    pub content: Seq<u8>,
    pub author: Seq<u8>,
    pub timestamp: Seq<u8>,
    pub reply_to: Option<u128>,
}

impl View for ChatMessage {
    type V = ChatMessageView;

    open spec fn view(&self) -> ChatMessageView {
        ChatMessageView {
            message_id: self.message_id,
            content: self.content@,
            author: self.author@,
            timestamp: self.timestamp@,
            reply_to: self.reply_to,
        }
    }
}

/// A copy of a message, equal to it in the model.
pub fn clone_message(m: &ChatMessage) -> (r: ChatMessage)
    ensures
        r@ == m@,
{
    ChatMessage {
        message_id: m.message_id,
        content: crate::fanout::clone_bytes(&m.content),
        author: crate::fanout::clone_bytes(&m.author),
        timestamp: crate::fanout::clone_bytes(&m.timestamp),
        reply_to: m.reply_to,
    }
}

/// What a room broadcasts to its subscribers.
pub enum ChatEnvelope {
    /// A user's first live connection joined the room.
    Join(Vec<u8>),
    /// A user's last live connection left the room.
    Leave(Vec<u8>),
    /// A chat message was published to the room.
    Msg(ChatMessage),
    /// Initial snapshot: the users present at connect time.
    Connect(Vec<Vec<u8>>),
}

/// Mathematical image of a [`ChatEnvelope`].
pub enum EnvelopeView {
    Join(Seq<u8>),
    Leave(Seq<u8>),
    Msg(ChatMessageView),
    Connect(Seq<Seq<u8>>),
}

impl View for ChatEnvelope {
    type V = EnvelopeView;

    open spec fn view(&self) -> EnvelopeView {
        match self {
            ChatEnvelope::Join(u) => EnvelopeView::Join(u@),
            ChatEnvelope::Leave(u) => EnvelopeView::Leave(u@),
            ChatEnvelope::Msg(m) => EnvelopeView::Msg(m@),
            ChatEnvelope::Connect(us) => EnvelopeView::Connect(views(us@)),
        }
    }
}

// ---------------------------------------------------------------------
// Envelope wire encoding
// ---------------------------------------------------------------------
pub open spec fn message_id_key() -> Seq<u8> {
    seq![109u8, 101u8, 115u8, 115u8, 97u8, 103u8, 101u8, 95u8, 105u8, 100u8]
}

pub open spec fn author_key() -> Seq<u8> {
    seq![97u8, 117u8, 116u8, 104u8, 111u8, 114u8]
}

pub open spec fn timestamp_key() -> Seq<u8> {
    seq![116u8, 105u8, 109u8, 101u8, 115u8, 116u8, 97u8, 109u8, 112u8]
}

pub open spec fn null_lit() -> Seq<u8> {
    seq![110u8, 117u8, 108u8, 108u8]
}

/// An id rendered as a JSON string: base32 characters need no escaping.
pub open spec fn ulid_json(x: u128) -> Seq<u8> {
    seq![34u8] + ulid_bytes(x) + seq![34u8]
}

/// `{"type":"<tag>","data":` — the envelope frame up to its payload.
pub open spec fn env_prefix(tag: Seq<u8>) -> Seq<u8> {
    seq![123u8, 34u8, 116u8, 121u8, 112u8, 101u8, 34u8, 58u8, 34u8] + tag + seq![
        34u8,
        44u8,
        34u8,
        100u8,
        97u8,
        116u8,
        97u8,
        34u8,
        58u8,
    ]
}

pub open spec fn tag_join() -> Seq<u8> {
    seq![106u8, 111u8, 105u8, 110u8]
}

pub open spec fn tag_leave() -> Seq<u8> {
    seq![108u8, 101u8, 97u8, 118u8, 101u8]
}

pub open spec fn tag_msg() -> Seq<u8> {
    seq![109u8, 115u8, 103u8]
}

pub open spec fn tag_connect() -> Seq<u8> {
    seq![99u8, 111u8, 110u8, 110u8, 101u8, 99u8, 116u8]
}

/// The object a message is written as: fields in fixed order.
pub open spec fn msg_json(m: ChatMessageView) -> Seq<u8> {
    seq![123u8] + kq(message_id_key()) + ulid_json(m.message_id) + seq![44u8] + kq(content_key())
        + json_string(m.content) + seq![44u8] + kq(author_key()) + json_string(m.author)
        + seq![44u8] + kq(timestamp_key()) + json_string(m.timestamp) + seq![44u8] + kq(reply_key())
        + (match m.reply_to {
        Some(u) => ulid_json(u),
        None => null_lit(),
    }) + seq![125u8]
}

/// Comma-separated JSON strings.
pub open spec fn joined_strings(us: Seq<Seq<u8>>) -> Seq<u8>
    decreases us.len(),
{
    if us.len() == 0 {
        Seq::empty()
    } else if us.len() == 1 {
        json_string(us[0])
    } else {
        joined_strings(us.drop_last()) + seq![44u8] + json_string(us.last())
    }
}

/// A JSON array of strings.
pub open spec fn json_string_array(us: Seq<Seq<u8>>) -> Seq<u8> {
    seq![91u8] + joined_strings(us) + seq![93u8]
}

/// The exact frame an envelope is written as.
pub open spec fn envelope_json(e: EnvelopeView) -> Seq<u8> {
    match e {
        EnvelopeView::Join(u) => env_prefix(tag_join()) + json_string(u) + seq![125u8],
        EnvelopeView::Leave(u) => env_prefix(tag_leave()) + json_string(u) + seq![125u8],
        EnvelopeView::Msg(m) => env_prefix(tag_msg()) + msg_json(m) + seq![125u8],
        EnvelopeView::Connect(us) => env_prefix(tag_connect()) + json_string_array(us)
            + seq![125u8],
    }
}

/// Append `{"type":"<tag>","data":` to `out`.
fn write_env_prefix(out: &mut Vec<u8>, tag: &Vec<u8>)
    ensures
        final(out)@ == old(out)@ + env_prefix(tag@),
{
    out.push(123);
    out.push(34);
    out.push(116);
    out.push(121);
    out.push(112);
    out.push(101);
    out.push(34);
    out.push(58);
    out.push(34);
    let mut i: usize = 0;
    let ghost mid = out@;
    #[verifier::loop_isolation(false)]
    while i < tag.len()
        invariant
            i <= tag.len(),
            out@ == mid + tag@.subrange(0, i as int),
        decreases tag.len() - i,
    {
        out.push(tag[i]);
        proof {
            assert(tag@.subrange(0, i + 1) =~= tag@.subrange(0, i as int).push(tag@[i as int]));
            assert(out@ =~= mid + tag@.subrange(0, i + 1));
        }
        i = i + 1;
    }
    out.push(34);
    out.push(44);
    out.push(34);
    out.push(100);
    out.push(97);
    out.push(116);
    out.push(97);
    out.push(34);
    out.push(58);
    proof {
        assert(tag@.subrange(0, tag@.len() as int) =~= tag@);
        assert(out@ =~= old(out)@ + env_prefix(tag@));
    }
}

/// Append `"<id>"` to `out`.
fn write_ulid_json(out: &mut Vec<u8>, x: u128)
    ensures
        final(out)@ == old(out)@ + ulid_json(x),
{
    out.push(34);
    let mut b = ulid_to_bytes(x);
    out.append(&mut b);
    out.push(34);
    proof {
        assert(out@ =~= old(out)@ + ulid_json(x));
    }
}

fn message_id_key_vec() -> (r: Vec<u8>)
    ensures
        r@ == message_id_key(),
{
    let mut v: Vec<u8> = Vec::new();
    v.push(109);
    v.push(101);
    v.push(115);
    v.push(115);
    v.push(97);
    v.push(103);
    v.push(101);
    v.push(95);
    v.push(105);
    v.push(100);
    proof {
        assert(v@ =~= message_id_key());
    }
    v
}

fn author_key_vec() -> (r: Vec<u8>)
    ensures
        r@ == author_key(),
{
    let mut v: Vec<u8> = Vec::new();
    v.push(97);
    v.push(117);
    v.push(116);
    v.push(104);
    v.push(111);
    v.push(114);
    proof {
        assert(v@ =~= author_key());
    }
    v
}

fn timestamp_key_vec() -> (r: Vec<u8>)
    ensures
        r@ == timestamp_key(),
{
    let mut v: Vec<u8> = Vec::new();
    v.push(116);
    v.push(105);
    v.push(109);
    v.push(101);
    v.push(115);
    v.push(116);
    v.push(97);
    v.push(109);
    v.push(112);
    proof {
        assert(v@ =~= timestamp_key());
    }
    v
}

fn tag_join_vec() -> (r: Vec<u8>)
    ensures
        r@ == tag_join(),
{
    let mut v: Vec<u8> = Vec::new();
    v.push(106);
    v.push(111);
    v.push(105);
    v.push(110);
    proof {
        assert(v@ =~= tag_join());
    }
    v
}

fn tag_leave_vec() -> (r: Vec<u8>)
    ensures
        r@ == tag_leave(),
{
    let mut v: Vec<u8> = Vec::new();
    v.push(108);
    v.push(101);
    v.push(97);
    v.push(118);
    v.push(101);
    proof {
        assert(v@ =~= tag_leave());
    }
    v
}

fn tag_msg_vec() -> (r: Vec<u8>)
    ensures
        r@ == tag_msg(),
{
    let mut v: Vec<u8> = Vec::new();
    v.push(109);
    v.push(115);
    v.push(103);
    proof {
        assert(v@ =~= tag_msg());
    }
    v
}

fn tag_connect_vec() -> (r: Vec<u8>)
    ensures
        r@ == tag_connect(),
{
    let mut v: Vec<u8> = Vec::new();
    v.push(99);
    v.push(111);
    v.push(110);
    v.push(110);
    v.push(101);
    v.push(99);
    v.push(116);
    proof {
        assert(v@ =~= tag_connect());
    }
    v
}

/// Append a message's object to `out`.
#[verifier::rlimit(50)]
fn write_msg_json(out: &mut Vec<u8>, m: &ChatMessage)
    ensures
        final(out)@ == old(out)@ + msg_json(m@),
{
    out.push(123);
    write_kq(out, &message_id_key_vec());
    write_ulid_json(out, m.message_id);
    out.push(44);
    write_kq(out, &crate::codec::content_key_vec());
    write_json_string(out, &m.content);
    out.push(44);
    write_kq(out, &author_key_vec());
    write_json_string(out, &m.author);
    out.push(44);
    write_kq(out, &timestamp_key_vec());
    write_json_string(out, &m.timestamp);
    out.push(44);
    write_kq(out, &crate::codec::reply_key_vec());
    match m.reply_to {
        Some(u) => {
            write_ulid_json(out, u);
        },
        None => {
            out.push(110);
            out.push(117);
            out.push(108);
            out.push(108);
        },
    }
    out.push(125);
    proof {
        assert(out@ =~= old(out)@ + msg_json(m@));
    }
}

/// The exact frame for an envelope.
pub fn encode_envelope(e: &ChatEnvelope) -> (r: Vec<u8>)
    ensures
        r@ == envelope_json(e@),
{
    let mut out: Vec<u8> = Vec::new();
    match e {
        ChatEnvelope::Join(u) => {
            write_env_prefix(&mut out, &tag_join_vec());
            write_json_string(&mut out, u);
            out.push(125);
        },
        ChatEnvelope::Leave(u) => {
            write_env_prefix(&mut out, &tag_leave_vec());
            write_json_string(&mut out, u);
            out.push(125);
        },
        ChatEnvelope::Msg(m) => {
            write_env_prefix(&mut out, &tag_msg_vec());
            write_msg_json(&mut out, m);
            out.push(125);
        },
        ChatEnvelope::Connect(us) => {
            write_env_prefix(&mut out, &tag_connect_vec());
            out.push(91);
            let ghost mid = out@;
            let mut i: usize = 0;
            #[verifier::loop_isolation(false)]
            while i < us.len()
                invariant
                    i <= us.len(),
                    out@ == mid + joined_strings(views(us@).subrange(0, i as int)),
                decreases us.len() - i,
            {
                if i > 0 {
                    out.push(44);
                }
                write_json_string(&mut out, &us[i]);
                proof {
                    let pre = views(us@).subrange(0, i as int);
                    let post = views(us@).subrange(0, i + 1);
                    assert(post.drop_last() =~= pre);
                    assert(post.last() == us@[i as int]@);
                    if i == 0 {
                        assert(out@ =~= mid + joined_strings(post));
                    } else {
                        assert(out@ =~= mid + joined_strings(post));
                    }
                }
                i = i + 1;
            }
            proof {
                assert(views(us@).subrange(0, us@.len() as int) =~= views(us@));
            }
            out.push(93);
            out.push(125);
        },
    }
    proof {
        assert(out@ =~= envelope_json(e@));
    }
    out
}

// ---------------------------------------------------------------------
// Rooms
// ---------------------------------------------------------------------
/// Capacity of a room's history ring buffer.
pub const HISTORY_CAP: usize = 50;

/// Internal capacity of every fanout channel.
pub const FANOUT_CAP: usize = 100;

/// Message sequences as their views.
pub open spec fn msg_views(s: Seq<ChatMessage>) -> Seq<ChatMessageView> {
    s.map_values(|m: ChatMessage| m@)
}

/// Bounded history: append, evicting the oldest entry at capacity.
pub open spec fn window_push<M>(h: Seq<M>, m: M) -> Seq<M> {
    if h.len() < HISTORY_CAP {
        h.push(m)
    } else {
        h.drop_first().push(m)
    }
}

/// One chat room: per-user live-connection counts, the most recent
/// messages, and the fanout its sessions subscribe to. The fanout
/// carries envelopes already encoded as frames.
pub struct Room {
    /// Username to number of currently open connections (always >= 1).
    pub presence: Vec<(Vec<u8>, u64)>,
    /// The most recent messages, oldest first, at most [`HISTORY_CAP`].
    pub history: Vec<ChatMessage>,
    /// Broadcast of encoded envelopes to the room's live sessions.
    pub fanout: Fanout,
}

impl Room {
    pub open spec fn wf(self) -> bool {
        &&& self.fanout.wf()
        &&& self.fanout.cap == FANOUT_CAP
        &&& self.history.len() <= HISTORY_CAP
        &&& forall|i: int, j: int|
            0 <= i < j < self.presence.len() ==> (#[trigger] self.presence[i]).0@ != (
            #[trigger] self.presence[j]).0@
        &&& forall|i: int| 0 <= i < self.presence.len() ==> (#[trigger] self.presence[i]).1 >= 1
    }

    /// Number of open connections of `user`.
    pub open spec fn count_of(self, user: Seq<u8>) -> nat {
        let i = crate::table::find_key(self.presence@, user);
        if i == -1 {
            0
        } else {
            self.presence@[i].1 as nat
        }
    }

    /// The users present, in order of first connecting.
    pub open spec fn names(self) -> Seq<Seq<u8>> {
        self.presence@.map_values(|p: (Vec<u8>, u64)| p.0@)
    }

    /// A fresh room: nobody present, no history, a new fanout.
    pub fn new() -> (r: Room)
        ensures
            r.wf(),
            r.presence@ == Seq::<(Vec<u8>, u64)>::empty(),
            r.history@ == Seq::<ChatMessage>::empty(),
            r.fanout.log@ == Seq::<Seq<u8>>::empty(),
            r.fanout.cursors@ == Seq::<Option<usize>>::empty(),
            r.fanout.start == 0,
    {
        Room { presence: Vec::new(), history: Vec::new(), fanout: Fanout::new(FANOUT_CAP) }
    }
}

/// One more connection of `u` is open: its count went up by one, every
/// other count is unchanged, and `u` was appended to the user list if
/// this is its first connection.
pub open spec fn presence_after_join(pre: Room, post: Room, u: Seq<u8>) -> bool {
    &&& post.count_of(u) == pre.count_of(u) + 1
    &&& forall|w: Seq<u8>| w != u ==> post.count_of(w) == pre.count_of(w)
    &&& post.names() == if pre.count_of(u) == 0 {
        pre.names().push(u)
    } else {
        pre.names()
    }
}

/// One connection of `u` closed: its count went down by one, every other
/// count is unchanged, and `u` left the user list if it was the last.
pub open spec fn presence_after_leave(pre: Room, post: Room, u: Seq<u8>) -> bool {
    &&& pre.count_of(u) >= 1
    &&& post.count_of(u) == pre.count_of(u) - 1
    &&& forall|w: Seq<u8>| w != u ==> post.count_of(w) == pre.count_of(w)
    &&& post.names() == if pre.count_of(u) == 1 {
        pre.names().remove(crate::table::find_key(pre.presence@, u))
    } else {
        pre.names()
    }
}

impl Room {
    /// Record one more open connection of `u`; returns its new count.
    fn bump_presence(&mut self, u: &Vec<u8>) -> (c: u64)
        requires
            old(self).wf(),
            old(self).count_of(u@) < u64::MAX,
            old(self).presence.len() < usize::MAX,
        ensures
            final(self).wf(),
            presence_after_join(*old(self), *final(self), u@),
            c == final(self).count_of(u@),
            final(self).history@ == old(self).history@,
            final(self).fanout == old(self).fanout,
    {
        match find_entry(&self.presence, u) {
            Some(i) => {
                let ghost pre = self.presence@;
                let c = self.presence[i].1 + 1;
                self.presence[i].1 = c;
                proof {
                    let post = self.presence@;
                    assert(post =~= pre.update(i as int, (pre[i as int].0, c)));
                    lemma_find_key_same_keys(pre, post, u@);
                    assert forall|w: Seq<u8>| w != u@ implies final(self).count_of(w) == old(self).count_of(w) by {
                        lemma_find_key_same_keys(pre, post, w);
                        crate::table::lemma_find_key(pre, w);
                    }
                    assert(final(self).names() =~= old(self).names());
                }
                c
            },
            None => {
                let ghost pre = self.presence@;
                let entry = (crate::fanout::clone_bytes(u), 1u64);
                let ghost e = entry;
                self.presence.push(entry);
                proof {
                    let post = self.presence@;
                    crate::table::lemma_find_key(pre, u@);
                    lemma_find_key_push(pre, e, u@);
                    assert forall|w: Seq<u8>| w != u@ implies final(self).count_of(w) == old(self).count_of(w) by {
                        lemma_find_key_push(pre, e, w);
                        crate::table::lemma_find_key(pre, w);
                    }
                    assert(final(self).names() =~= old(self).names().push(u@));
                }
                1
            },
        }
    }

    /// Record that one connection of `u` closed; returns whether it was
    /// the last one.
    fn drop_presence(&mut self, u: &Vec<u8>) -> (r: Result<bool, CoreError>)
        requires
            old(self).wf(),
        ensures
            final(self).wf(),
            final(self).history@ == old(self).history@,
            final(self).fanout == old(self).fanout,
            match r {
                Ok(left) => old(self).count_of(u@) >= 1 && presence_after_leave(
                    *old(self),
                    *final(self),
                    u@,
                ) && left == (old(self).count_of(u@) == 1),
                Err(e) => e == CoreError::UserMissing && old(self).count_of(u@) == 0
                    && *final(self) == *old(self),
            },
    {
        match find_entry(&self.presence, u) {
            None => {
                proof {
                    crate::table::lemma_find_key(self.presence@, u@);
                }
                Err(CoreError::UserMissing)
            },
            Some(i) => {
                let ghost pre = self.presence@;
                let c = self.presence[i].1;
                if c == 1 {
                    self.presence.remove(i);
                    proof {
                        let post = self.presence@;
                        assert(post =~= pre.remove(i as int));
                        assert forall|j: int| 0 <= j < post.len() implies (#[trigger] post[j]).0@
                            != u@ by {
                            if j < i {
                                assert(post[j] == pre[j]);
                            } else {
                                assert(post[j] == pre[j + 1]);
                            }
                        }
                        crate::table::lemma_find_key(post, u@);
                        if crate::table::find_key(post, u@) != -1 {
                            assert(post[crate::table::find_key(post, u@)].0@ == u@);
                        }
                        assert(final(self).count_of(u@) == 0);
                        assert forall|w: Seq<u8>| w != u@ implies final(self).count_of(w) == old(self).count_of(w) by {
                            lemma_count_after_remove(pre, post, i as int, w);
                        }
                        assert(final(self).names() =~= old(self).names().remove(i as int));
                    }
                    Ok(true)
                } else {
                    let c2 = c - 1;
                    self.presence[i].1 = c2;
                    proof {
                        let post = self.presence@;
                        assert(post =~= pre.update(i as int, (pre[i as int].0, c2)));
                        lemma_find_key_same_keys(pre, post, u@);
                        assert forall|w: Seq<u8>| w != u@ implies final(self).count_of(w) == old(self).count_of(w) by {
                            lemma_find_key_same_keys(pre, post, w);
                            crate::table::lemma_find_key(pre, w);
                        }
                        assert(final(self).names() =~= old(self).names());
                    }
                    Ok(false)
                }
            },
        }
    }
}

/// Removing entry `i` leaves every other name's count intact.
proof fn lemma_count_after_remove(pre: Seq<(Vec<u8>, u64)>, post: Seq<(Vec<u8>, u64)>, i: int, w: Seq<u8>)
    requires
        0 <= i < pre.len(),
        post == pre.remove(i),
        pre[i].0@ != w,
        forall|a: int, b: int|
            0 <= a < b < pre.len() ==> (#[trigger] pre[a]).0@ != (#[trigger] pre[b]).0@,
    ensures
        ({
            let fpre = crate::table::find_key(pre, w);
            let fpost = crate::table::find_key(post, w);
            (fpre == -1 ==> fpost == -1) && (fpre != -1 ==> fpost != -1 && post[fpost].1
                == pre[fpre].1)
        }),
{
    crate::table::lemma_find_key_remove(pre, post, i, w);
}

/// What a freshly connected session gets, all captured in one step: a
/// subscriber id on the room's fanout, copies of the history and of the
/// user list as they were at that instant, and — for an authenticated
/// user — its new connection count.
pub struct RoomConnect {
    pub rid: usize,
    pub history: Vec<ChatMessage>,
    pub users: Vec<Vec<u8>>,
    pub join_count: Option<u64>,
}

/// Copies of the users present, in order.
fn snapshot_names(p: &Vec<(Vec<u8>, u64)>) -> (r: Vec<Vec<u8>>)
    ensures
        r@.len() == p@.len(),
        forall|j: int| 0 <= j < p@.len() ==> (#[trigger] r@[j])@ == p@[j].0@,
{
    let mut r: Vec<Vec<u8>> = Vec::new();
    let mut i: usize = 0;
    #[verifier::loop_isolation(false)]
    while i < p.len()
        invariant
            i <= p.len(),
            r@.len() == i,
            forall|j: int| 0 <= j < i ==> (#[trigger] r@[j])@ == p@[j].0@,
        decreases p.len() - i,
    {
        r.push(crate::fanout::clone_bytes(&p[i].0));
        i = i + 1;
    }
    r
}

/// Copies of the history, oldest first.
fn snapshot_history(h: &Vec<ChatMessage>) -> (r: Vec<ChatMessage>)
    ensures
        r@.len() == h@.len(),
        forall|j: int| 0 <= j < h@.len() ==> (#[trigger] r@[j])@ == h@[j]@,
{
    let mut r: Vec<ChatMessage> = Vec::new();
    let mut i: usize = 0;
    #[verifier::loop_isolation(false)]
    while i < h.len()
        invariant
            i <= h.len(),
            r@.len() == i,
            forall|j: int| 0 <= j < i ==> (#[trigger] r@[j])@ == h@[j]@,
        decreases h.len() - i,
    {
        r.push(clone_message(&h[i]));
        i = i + 1;
    }
    r
}

impl Room {
    /// The atomic connect step (performed under the registry lock): read
    /// the user list and history as they stand, subscribe to the fanout,
    /// and count the new connection in. The snapshot excludes the
    /// connecting user itself; the new subscriber observes exactly the
    /// envelopes published after this step.
    pub fn connect(&mut self, user: Option<&Vec<u8>>) -> (info: RoomConnect)
        requires
            old(self).wf(),
            old(self).fanout.cursors.len() < usize::MAX,
            old(self).presence.len() < usize::MAX,
            match user {
                Some(u) => old(self).count_of(u@) < u64::MAX,
                None => true,
            },
        ensures
            final(self).wf(),
            views(info.users@) == old(self).names(),
            msg_views(info.history@) == msg_views(old(self).history@),
            final(self).history@ == old(self).history@,
            final(self).fanout.log@ == old(self).fanout.log@,
            final(self).fanout.start == old(self).fanout.start,
            final(self).fanout.cursors@ == old(self).fanout.cursors@.push(
                Some(old(self).fanout.log@.len() as usize),
            ),
            info.rid == old(self).fanout.cursors@.len(),
            match user {
                None => final(self).presence@ == old(self).presence@ && info.join_count is None
                    && final(self).names() == old(self).names(),
                Some(u) => presence_after_join(*old(self), *final(self), u@) && info.join_count
                    == Some((old(self).count_of(u@) + 1) as u64),
            },
    {
        let users = snapshot_names(&self.presence);
        let history = snapshot_history(&self.history);
        let join_count = match user {
            Some(u) => Some(self.bump_presence(u)),
            None => None,
        };
        let rid = self.fanout.subscribe();
        proof {
            assert(views(users@) =~= old(self).names());
            assert(msg_views(history@) =~= msg_views(old(self).history@));
        }
        RoomConnect { rid, history, users, join_count }
    }

    /// Append a message to the history (evicting the oldest entry at
    /// capacity) and broadcast its envelope, atomically.
    pub fn publish(&mut self, m: ChatMessage)
        requires
            old(self).wf(),
            old(self).fanout.log@.len() < usize::MAX,
        ensures
            final(self).wf(),
            final(self).presence@ == old(self).presence@,
            final(self).names() == old(self).names(),
            final(self).fanout.cursors@ == old(self).fanout.cursors@,
            final(self).history@ == window_push(old(self).history@, m),
            final(self).fanout.log@ == old(self).fanout.log@.push(
                envelope_json(EnvelopeView::Msg(m@)),
            ),
            final(self).fanout.start == crate::fanout::next_start(old(self).fanout),
    {
        let mut frame: Vec<u8> = Vec::new();
        write_env_prefix(&mut frame, &tag_msg_vec());
        write_msg_json(&mut frame, &m);
        frame.push(125);
        proof {
            assert(frame@ =~= envelope_json(EnvelopeView::Msg(m@)));
        }
        if self.history.len() == HISTORY_CAP {
            self.history.remove(0);
        }
        self.history.push(m);
        self.fanout.publish(frame);
    }

    /// Broadcast a `join` envelope if this is the user's only open
    /// connection (a second tab joins silently).
    pub fn announce_join(&mut self, u: &Vec<u8>)
        requires
            old(self).wf(),
            old(self).fanout.log@.len() < usize::MAX,
        ensures
            final(self).wf(),
            final(self).presence@ == old(self).presence@,
            final(self).history@ == old(self).history@,
            final(self).fanout.cursors@ == old(self).fanout.cursors@,
            final(self).fanout.log@ == if old(self).count_of(u@) == 1 {
                old(self).fanout.log@.push(envelope_json(EnvelopeView::Join(u@)))
            } else {
                old(self).fanout.log@
            },
            final(self).fanout.start == if old(self).count_of(u@) == 1 {
                crate::fanout::next_start(old(self).fanout)
            } else {
                old(self).fanout.start as int
            },
    {
        let publish_it = match find_entry(&self.presence, u) {
            Some(i) => self.presence[i].1 == 1,
            None => {
                proof {
                    crate::table::lemma_find_key(self.presence@, u@);
                }
                false
            },
        };
        if publish_it {
            let frame = encode_envelope(&ChatEnvelope::Join(crate::fanout::clone_bytes(u)));
            self.fanout.publish(frame);
        }
    }

    /// Close an anonymous session's subscription.
    pub fn release(&mut self, rid: usize)
        requires
            old(self).wf(),
            rid < old(self).fanout.cursors.len(),
            old(self).fanout.cursors[rid as int] is Some,
        ensures
            final(self).wf(),
            final(self).presence@ == old(self).presence@,
            final(self).history@ == old(self).history@,
            final(self).fanout.log@ == old(self).fanout.log@,
            final(self).fanout.start == old(self).fanout.start,
            final(self).fanout.cursors@ == old(self).fanout.cursors@.update(rid as int, None),
    {
        self.fanout.drop_receiver(rid);
    }

    /// Close an authenticated session: drop its subscription, count the
    /// connection out, and broadcast `leave` if it was the user's last.
    pub fn leave(&mut self, u: &Vec<u8>, rid: usize) -> (r: Result<bool, CoreError>)
        requires
            old(self).wf(),
            rid < old(self).fanout.cursors.len(),
            old(self).fanout.cursors[rid as int] is Some,
            old(self).fanout.log@.len() < usize::MAX,
        ensures
            final(self).wf(),
            final(self).history@ == old(self).history@,
            match r {
                Ok(left) => {
                    &&& presence_after_leave(*old(self), *final(self), u@)
                    &&& left == (old(self).count_of(u@) == 1)
                    &&& final(self).fanout.cursors@ == old(self).fanout.cursors@.update(
                        rid as int,
                        None,
                    )
                    &&& final(self).fanout.log@ == if left {
                        old(self).fanout.log@.push(envelope_json(EnvelopeView::Leave(u@)))
                    } else {
                        old(self).fanout.log@
                    }
                    &&& final(self).fanout.start == if left {
                        crate::fanout::next_start(old(self).fanout)
                    } else {
                        old(self).fanout.start as int
                    }
                },
                Err(e) => e == CoreError::UserMissing && old(self).count_of(u@) == 0 && *final(self)
                    == *old(self),
            },
    {
        let ghost pre = *self;
        match self.drop_presence(u) {
            Err(e) => Err(e),
            Ok(left) => {
                self.fanout.drop_receiver(rid);
                if left {
                    let frame = encode_envelope(&ChatEnvelope::Leave(crate::fanout::clone_bytes(u)));
                    self.fanout.publish(frame);
                }
                Ok(left)
            },
        }
    }

    /// Roll a connect back after the initial snapshot could not be sent:
    /// the subscription is dropped and the presence increment undone; no
    /// envelope is broadcast.
    pub fn abort_connect(&mut self, user: Option<&Vec<u8>>, rid: usize) -> (r: Result<
        (),
        CoreError,
    >)
        requires
            old(self).wf(),
            rid < old(self).fanout.cursors.len(),
            old(self).fanout.cursors[rid as int] is Some,
        ensures
            final(self).wf(),
            final(self).history@ == old(self).history@,
            final(self).fanout.log@ == old(self).fanout.log@,
            final(self).fanout.start == old(self).fanout.start,
            match r {
                Ok(_) => {
                    &&& final(self).fanout.cursors@ == old(self).fanout.cursors@.update(
                        rid as int,
                        None,
                    )
                    &&& match user {
                        None => final(self).presence@ == old(self).presence@,
                        Some(u) => presence_after_leave(*old(self), *final(self), u@),
                    }
                },
                Err(e) => e == CoreError::UserMissing && *final(self) == *old(self) && (match user {
                    Some(u) => old(self).count_of(u@) == 0,
                    None => false,
                }),
            },
    {
        match user {
            None => {
                self.fanout.drop_receiver(rid);
                Ok(())
            },
            Some(u) => {
                match self.drop_presence(u) {
                    Err(e) => Err(e),
                    Ok(_) => {
                        self.fanout.drop_receiver(rid);
                        Ok(())
                    },
                }
            },
        }
    }
}

// ---------------------------------------------------------------------
// The room registry
// ---------------------------------------------------------------------
/// The shared map from room name to room, guarded in the surrounding
/// server by one lock; rooms are created lazily on first connect and
/// persist once created.
pub struct ChatRegistry {
    pub rooms: Vec<(Vec<u8>, Room)>,
}

impl ChatRegistry {
    pub open spec fn wf(self) -> bool {
        &&& forall|i: int, j: int|
            0 <= i < j < self.rooms.len() ==> (#[trigger] self.rooms[i]).0@ != (
            #[trigger] self.rooms[j]).0@
        &&& forall|i: int| 0 <= i < self.rooms.len() ==> (#[trigger] self.rooms[i]).1.wf()
    }

    pub open spec fn room_idx(self, name: Seq<u8>) -> int {
        crate::table::find_key(self.rooms@, name)
    }

    pub open spec fn has_room(self, name: Seq<u8>) -> bool {
        self.room_idx(name) != -1
    }

    pub open spec fn room(self, name: Seq<u8>) -> Room {
        self.rooms@[self.room_idx(name)].1
    }

    /// Connection count of `u` in the named room (0 if no such room).
    pub open spec fn count_in(self, name: Seq<u8>, u: Seq<u8>) -> nat {
        if self.has_room(name) {
            self.room(name).count_of(u)
        } else {
            0
        }
    }

    /// Users present in the named room (empty if no such room).
    pub open spec fn names_in(self, name: Seq<u8>) -> Seq<Seq<u8>> {
        if self.has_room(name) {
            self.room(name).names()
        } else {
            Seq::empty()
        }
    }

    /// History of the named room (empty if no such room).
    pub open spec fn history_in(self, name: Seq<u8>) -> Seq<ChatMessage> {
        if self.has_room(name) {
            self.room(name).history@
        } else {
            Seq::empty()
        }
    }

    /// Envelope log of the named room's fanout (empty if no such room).
    pub open spec fn log_in(self, name: Seq<u8>) -> Seq<Seq<u8>> {
        if self.has_room(name) {
            self.room(name).fanout.log@
        } else {
            Seq::empty()
        }
    }

    /// Where the retained window of the named room's fanout starts
    /// (0 if no such room).
    pub open spec fn start_in(self, name: Seq<u8>) -> int {
        if self.has_room(name) {
            self.room(name).fanout.start as int
        } else {
            0
        }
    }

    /// Subscriber cursors of the named room's fanout.
    pub open spec fn subs_in(self, name: Seq<u8>) -> Seq<Option<usize>> {
        if self.has_room(name) {
            self.room(name).fanout.cursors@
        } else {
            Seq::empty()
        }
    }

    /// An empty registry.
    pub fn new() -> (r: ChatRegistry)
        ensures
            r.wf(),
            r.rooms@.len() == 0,
    {
        ChatRegistry { rooms: Vec::new() }
    }
}

/// The registry after an operation on the named room: that room changed
/// (or was created at the end), every other entry is untouched.
pub open spec fn rooms_updated_at(pre: ChatRegistry, post: ChatRegistry, name: Seq<u8>) -> bool {
    &&& post.has_room(name)
    &&& pre.has_room(name) ==> post.rooms@.len() == pre.rooms@.len() && post.room_idx(name)
        == pre.room_idx(name)
    &&& !pre.has_room(name) ==> post.rooms@.len() == pre.rooms@.len() + 1 && post.room_idx(name)
        == pre.rooms@.len()
    &&& forall|j: int|
        0 <= j < pre.rooms@.len() && j != post.room_idx(name) ==> #[trigger] post.rooms@[j]
            == pre.rooms@[j]
    &&& post.rooms@[post.room_idx(name)].0@ == name
}

/// After an entry update with an unchanged key, every lookup lands where
/// it did before.
proof fn lemma_registry_update(pre: ChatRegistry, post: ChatRegistry, idx: int)
    requires
        0 <= idx < pre.rooms@.len(),
        post.rooms@.len() == pre.rooms@.len(),
        forall|j: int| 0 <= j < pre.rooms@.len() && j != idx ==> post.rooms@[j] == pre.rooms@[j],
        post.rooms@[idx].0 == pre.rooms@[idx].0,
    ensures
        forall|n: Seq<u8>| #[trigger] post.room_idx(n) == pre.room_idx(n),
{
    assert forall|n: Seq<u8>| #[trigger] post.room_idx(n) == pre.room_idx(n) by {
        lemma_find_key_same_keys(pre.rooms@, post.rooms@, n);
    }
}

impl ChatRegistry {
    /// Index of the named room, creating it if absent.
    fn get_or_create(&mut self, name: &Vec<u8>) -> (idx: usize)
        requires
            old(self).wf(),
            old(self).rooms.len() < usize::MAX,
        ensures
            final(self).wf(),
            final(self).has_room(name@),
            idx as int == final(self).room_idx(name@),
            final(self).rooms@[idx as int].0@ == name@,
            old(self).has_room(name@) ==> *final(self) == *old(self) && idx as int == old(self).room_idx(name@),
            !old(self).has_room(name@) ==> final(self).rooms@.len() == old(self).rooms@.len() + 1
                && idx == old(self).rooms@.len() && forall|j: int|
                0 <= j < old(self).rooms@.len() ==> #[trigger] final(self).rooms@[j] == old(self).rooms@[j],
            !old(self).has_room(name@) ==> final(self).room(name@).presence@ == Seq::<
                (Vec<u8>, u64),
            >::empty() && final(self).room(name@).history@ == Seq::<ChatMessage>::empty() && final(self).room(name@).fanout.log@ == Seq::<Seq<u8>>::empty() && final(self).room(name@).fanout.cursors@ == Seq::<Option<usize>>::empty(),
    {
        match find_entry(&self.rooms, name) {
            Some(i) => i,
            None => {
                let i = self.rooms.len();
                let ghost pre = self.rooms@;
                let entry = (crate::fanout::clone_bytes(name), Room::new());
                let ghost e = entry;
                self.rooms.push(entry);
                proof {
                    lemma_find_key_push(pre, e, name@);
                    assert forall|a: int, b: int|
                        0 <= a < b < self.rooms.len() implies (#[trigger] self.rooms@[a]).0@ != (
                    #[trigger] self.rooms@[b]).0@ by {
                        if b == pre.len() {
                            crate::table::lemma_find_key(pre, name@);
                        }
                    }
                }
                i
            },
        }
    }

    /// The atomic connect step of §4.2, by room name; creates the room
    /// lazily. See [`Room::connect`] for the captured snapshot.
    pub fn connect(&mut self, name: &Vec<u8>, user: Option<&Vec<u8>>) -> (info: RoomConnect)
        requires
            old(self).wf(),
            old(self).rooms.len() < usize::MAX,
            old(self).subs_in(name@).len() < usize::MAX,
            old(self).has_room(name@) ==> old(self).room(name@).presence.len() < usize::MAX,
            match user {
                Some(u) => old(self).count_in(name@, u@) < u64::MAX,
                None => true,
            },
        ensures
            final(self).wf(),
            rooms_updated_at(*old(self), *final(self), name@),
            views(info.users@) == old(self).names_in(name@),
            msg_views(info.history@) == msg_views(old(self).history_in(name@)),
            final(self).history_in(name@) == old(self).history_in(name@),
            final(self).log_in(name@) == old(self).log_in(name@),
            final(self).start_in(name@) == old(self).start_in(name@),
            final(self).subs_in(name@) == old(self).subs_in(name@).push(
                Some(old(self).log_in(name@).len() as usize),
            ),
            info.rid == old(self).subs_in(name@).len(),
            match user {
                None => final(self).names_in(name@) == old(self).names_in(name@) && info.join_count
                    is None && forall|w: Seq<u8>| #[trigger]
                    final(self).count_in(name@, w) == old(self).count_in(name@, w),
                Some(u) => {
                    &&& final(self).count_in(name@, u@) == old(self).count_in(name@, u@) + 1
                    &&& forall|w: Seq<u8>|
                        w != u@ ==> #[trigger] final(self).count_in(name@, w) == old(self).count_in(name@, w)
                    &&& final(self).names_in(name@) == if old(self).count_in(name@, u@) == 0 {
                        old(self).names_in(name@).push(u@)
                    } else {
                        old(self).names_in(name@)
                    }
                    &&& info.join_count == Some((old(self).count_in(name@, u@) + 1) as u64)
                },
            },
    {
        let idx = self.get_or_create(name);
        let ghost mid = *self;
        proof {
            crate::table::lemma_find_key(mid.rooms@, name@);
            if !old(self).has_room(name@) {
                match user {
                    Some(u) => {
                        assert(crate::table::find_key(mid.room(name@).presence@, u@) == -1);
                    },
                    None => {},
                }
            }
        }
        let info = self.rooms[idx].1.connect(user);
        proof {
            lemma_registry_update(mid, *final(self), idx as int);
            if !old(self).has_room(name@) {
                assert(mid.room(name@).names() =~= Seq::<Seq<u8>>::empty());
                assert(msg_views(mid.room(name@).history@) =~= msg_views(
                    old(self).history_in(name@),
                ));
                assert forall|w: Seq<u8>| #[trigger] mid.room(name@).count_of(w) == 0 by {
                    assert(crate::table::find_key(mid.room(name@).presence@, w) == -1);
                }
            }
        }
        info
    }
}

/// The registry after an operation on an existing room: same names in
/// the same places, only that room's state changed.
pub open spec fn rooms_same_except(pre: ChatRegistry, post: ChatRegistry, name: Seq<u8>) -> bool {
    &&& pre.has_room(name)
    &&& post.has_room(name)
    &&& post.rooms@.len() == pre.rooms@.len()
    &&& post.room_idx(name) == pre.room_idx(name)
    &&& forall|j: int|
        0 <= j < pre.rooms@.len() && j != pre.room_idx(name) ==> #[trigger] post.rooms@[j]
            == pre.rooms@[j]
    &&& post.rooms@[post.room_idx(name)].0@ == name
}

impl ChatRegistry {
    /// Publish a message to the named room: append it to the history
    /// (evicting the oldest entry at capacity) and broadcast its `msg`
    /// envelope. A missing room is an internal error, reported as a
    /// value.
    pub fn publish_message(&mut self, name: &Vec<u8>, m: ChatMessage) -> (r: Result<(), CoreError>)
        requires
            old(self).wf(),
            old(self).log_in(name@).len() < usize::MAX,
        ensures
            final(self).wf(),
            match r {
                Ok(_) => {
                    &&& rooms_same_except(*old(self), *final(self), name@)
                    &&& final(self).history_in(name@) == window_push(
                        old(self).history_in(name@),
                        m,
                    )
                    &&& final(self).log_in(name@) == old(self).log_in(name@).push(
                        envelope_json(EnvelopeView::Msg(m@)),
                    )
                    &&& final(self).start_in(name@) == crate::fanout::next_start(
                        old(self).room(name@).fanout,
                    )
                    &&& final(self).subs_in(name@) == old(self).subs_in(name@)
                    &&& final(self).names_in(name@) == old(self).names_in(name@)
                    &&& forall|w: Seq<u8>| #[trigger]
                        final(self).count_in(name@, w) == old(self).count_in(name@, w)
                },
                Err(e) => e == CoreError::EntryMissing && !old(self).has_room(name@) && *final(self)
                    == *old(self),
            },
    {
        match find_entry(&self.rooms, name) {
            None => Err(CoreError::EntryMissing),
            Some(idx) => {
                let ghost mid = *self;
                self.rooms[idx].1.publish(m);
                proof {
                    lemma_registry_update(mid, *final(self), idx as int);
                }
                Ok(())
            },
        }
    }

    /// Broadcast a `join` envelope on the named room if this is the
    /// user's only open connection.
    pub fn announce_join(&mut self, name: &Vec<u8>, u: &Vec<u8>) -> (r: Result<(), CoreError>)
        requires
            old(self).wf(),
            old(self).log_in(name@).len() < usize::MAX,
        ensures
            final(self).wf(),
            match r {
                Ok(_) => {
                    &&& rooms_same_except(*old(self), *final(self), name@)
                    &&& final(self).history_in(name@) == old(self).history_in(name@)
                    &&& final(self).subs_in(name@) == old(self).subs_in(name@)
                    &&& final(self).names_in(name@) == old(self).names_in(name@)
                    &&& forall|w: Seq<u8>| #[trigger]
                        final(self).count_in(name@, w) == old(self).count_in(name@, w)
                    &&& final(self).log_in(name@) == if old(self).count_in(name@, u@) == 1 {
                        old(self).log_in(name@).push(envelope_json(EnvelopeView::Join(u@)))
                    } else {
                        old(self).log_in(name@)
                    }
                    &&& final(self).start_in(name@) == if old(self).count_in(name@, u@) == 1 {
                        crate::fanout::next_start(old(self).room(name@).fanout)
                    } else {
                        old(self).start_in(name@)
                    }
                },
                Err(e) => e == CoreError::EntryMissing && !old(self).has_room(name@) && *final(self)
                    == *old(self),
            },
    {
        match find_entry(&self.rooms, name) {
            None => Err(CoreError::EntryMissing),
            Some(idx) => {
                let ghost mid = *self;
                self.rooms[idx].1.announce_join(u);
                proof {
                    lemma_registry_update(mid, *final(self), idx as int);
                }
                Ok(())
            },
        }
    }

    /// One receive attempt for subscriber `rid` of the named room; the
    /// outbound task forwards `Value` frames to the client and treats
    /// `Lagged` as fatal for the session.
    pub fn outbound_step(&mut self, name: &Vec<u8>, rid: usize) -> (r: Result<Recv, CoreError>)
        requires
            old(self).wf(),
            old(self).has_room(name@) ==> rid < old(self).subs_in(name@).len() && old(self).subs_in(
                name@,
            )[rid as int] is Some,
        ensures
            final(self).wf(),
            match r {
                Ok(rv) => {
                    &&& rooms_same_except(*old(self), *final(self), name@)
                    &&& final(self).history_in(name@) == old(self).history_in(name@)
                    &&& final(self).log_in(name@) == old(self).log_in(name@)
                    &&& final(self).start_in(name@) == old(self).start_in(name@)
                    &&& final(self).names_in(name@) == old(self).names_in(name@)
                    &&& forall|w: Seq<u8>| #[trigger]
                        final(self).count_in(name@, w) == old(self).count_in(name@, w)
                    &&& crate::fanout::recv_cases(
                        old(self).room(name@).fanout,
                        final(self).room(name@).fanout,
                        rid as int,
                        rv,
                    )
                },
                Err(e) => e == CoreError::EntryMissing && !old(self).has_room(name@) && *final(self)
                    == *old(self),
            },
    {
        match find_entry(&self.rooms, name) {
            None => Err(CoreError::EntryMissing),
            Some(idx) => {
                let ghost mid = *self;
                let rv = self.rooms[idx].1.fanout.recv(rid);
                proof {
                    lemma_registry_update(mid, *final(self), idx as int);
                    assert(final(self).room(name@).names() =~= old(self).room(name@).names());
                }
                Ok(rv)
            },
        }
    }

    /// The cleanup step, run exactly once per session: drop the
    /// subscription; for an authenticated user, count the connection out
    /// and broadcast `leave` if it was the last. Returns whether a
    /// `leave` was broadcast.
    pub fn disconnect(&mut self, name: &Vec<u8>, user: Option<&Vec<u8>>, rid: usize) -> (r: Result<
        bool,
        CoreError,
    >)
        requires
            old(self).wf(),
            old(self).log_in(name@).len() < usize::MAX,
            old(self).has_room(name@) ==> rid < old(self).subs_in(name@).len() && old(self).subs_in(
                name@,
            )[rid as int] is Some,
        ensures
            final(self).wf(),
            match r {
                Ok(left) => {
                    &&& rooms_same_except(*old(self), *final(self), name@)
                    &&& final(self).history_in(name@) == old(self).history_in(name@)
                    &&& final(self).subs_in(name@) == old(self).subs_in(name@).update(
                        rid as int,
                        None,
                    )
                    &&& match user {
                        None => left == false && final(self).names_in(name@) == old(self).names_in(
                            name@,
                        ) && final(self).log_in(name@) == old(self).log_in(name@) && final(self).start_in(name@) == old(self).start_in(name@) && forall|w: Seq<u8>| #[trigger]
                            final(self).count_in(name@, w) == old(self).count_in(name@, w),
                        Some(u) => {
                            &&& old(self).count_in(name@, u@) >= 1
                            &&& left == (old(self).count_in(name@, u@) == 1)
                            &&& presence_after_leave(
                                old(self).room(name@),
                                final(self).room(name@),
                                u@,
                            )
                            &&& final(self).count_in(name@, u@) == old(self).count_in(name@, u@)
                                - 1
                            &&& forall|w: Seq<u8>|
                                w != u@ ==> #[trigger] final(self).count_in(name@, w) == old(self).count_in(name@, w)
                            &&& final(self).log_in(name@) == if left {
                                old(self).log_in(name@).push(
                                    envelope_json(EnvelopeView::Leave(u@)),
                                )
                            } else {
                                old(self).log_in(name@)
                            }
                            &&& final(self).start_in(name@) == if left {
                                crate::fanout::next_start(old(self).room(name@).fanout)
                            } else {
                                old(self).start_in(name@)
                            }
                        },
                    }
                },
                Err(e) => *final(self) == *old(self) && (e == CoreError::EntryMissing && !old(self).has_room(name@) || e == CoreError::UserMissing && old(self).has_room(name@)
                    && (match user {
                    Some(u) => old(self).count_in(name@, u@) == 0,
                    None => false,
                })),
            },
    {
        match find_entry(&self.rooms, name) {
            None => Err(CoreError::EntryMissing),
            Some(idx) => {
                let ghost mid = *self;
                match user {
                    None => {
                        self.rooms[idx].1.release(rid);
                        proof {
                            lemma_registry_update(mid, *final(self), idx as int);
                            assert(final(self).room(name@).names() =~= old(self).room(name@).names());
                        }
                        Ok(false)
                    },
                    Some(u) => {
                        if find_entry(&self.rooms[idx].1.presence, u).is_none() {
                            proof {
                                crate::table::lemma_find_key(
                                    self.rooms@[idx as int].1.presence@,
                                    u@,
                                );
                            }
                            return Err(CoreError::UserMissing);
                        }
                        let res = self.rooms[idx].1.leave(u, rid);
                        proof {
                            lemma_registry_update(mid, *final(self), idx as int);
                        }
                        match res {
                            Ok(left) => Ok(left),
                            Err(_) => {
                                proof {
                                    assert(false);
                                }
                                Err(CoreError::UserMissing)
                            },
                        }
                    },
                }
            },
        }
    }

    /// Roll back a connect whose initial snapshot could not be sent.
    pub fn abort_connect(&mut self, name: &Vec<u8>, user: Option<&Vec<u8>>, rid: usize) -> (r:
        Result<(), CoreError>)
        requires
            old(self).wf(),
            old(self).has_room(name@) ==> rid < old(self).subs_in(name@).len() && old(self).subs_in(
                name@,
            )[rid as int] is Some,
        ensures
            final(self).wf(),
            match r {
                Ok(_) => {
                    &&& rooms_same_except(*old(self), *final(self), name@)
                    &&& final(self).history_in(name@) == old(self).history_in(name@)
                    &&& final(self).log_in(name@) == old(self).log_in(name@)
                    &&& final(self).start_in(name@) == old(self).start_in(name@)
                    &&& final(self).subs_in(name@) == old(self).subs_in(name@).update(
                        rid as int,
                        None,
                    )
                    &&& match user {
                        None => final(self).names_in(name@) == old(self).names_in(name@) && forall|
                            w: Seq<u8>,
                        | #[trigger]
                            final(self).count_in(name@, w) == old(self).count_in(name@, w),
                        Some(u) => {
                            &&& old(self).count_in(name@, u@) >= 1
                            &&& presence_after_leave(
                                old(self).room(name@),
                                final(self).room(name@),
                                u@,
                            )
                            &&& final(self).count_in(name@, u@) == old(self).count_in(name@, u@)
                                - 1
                            &&& forall|w: Seq<u8>|
                                w != u@ ==> #[trigger] final(self).count_in(name@, w) == old(
                                    self,
                                ).count_in(name@, w)
                        },
                    }
                },
                Err(e) => *final(self) == *old(self) && (e == CoreError::EntryMissing && !old(
                    self,
                ).has_room(name@) || e == CoreError::UserMissing && old(self).has_room(name@)
                    && (match user {
                    Some(u) => old(self).count_in(name@, u@) == 0,
                    None => false,
                })),
            },
    {
        match find_entry(&self.rooms, name) {
            None => Err(CoreError::EntryMissing),
            Some(idx) => {
                let ghost mid = *self;
                match user {
                    Some(u) => {
                        if find_entry(&self.rooms[idx].1.presence, u).is_none() {
                            proof {
                                crate::table::lemma_find_key(
                                    self.rooms@[idx as int].1.presence@,
                                    u@,
                                );
                            }
                            return Err(CoreError::UserMissing);
                        }
                    },
                    None => {},
                }
                let res = self.rooms[idx].1.abort_connect(user, rid);
                proof {
                    lemma_registry_update(mid, *final(self), idx as int);
                    if res is Ok && user is None {
                        assert(final(self).room(name@).names() =~= old(self).room(name@).names());
                    }
                }
                match res {
                    Ok(_) => Ok(()),
                    Err(_) => {
                        proof {
                            assert(false);
                        }
                        Err(CoreError::UserMissing)
                    },
                }
            },
        }
    }
}

// ---------------------------------------------------------------------
// Session steps around the registry
// ---------------------------------------------------------------------
/// Relies on ulid::Ulid::generate: a fresh 128-bit id drawn from the
/// clock and a random source. Its value depends on both, so nothing is
/// promised of it.
#[verifier::external_body]
fn new_ulid() -> (r: u128) {
    ulid::Ulid::generate().0
}

/// Relies on chrono::Utc::now and chrono::DateTime::to_rfc3339_opts: the
/// current instant rendered as RFC 3339 text, as it appears on the wire.
/// The value depends on the clock, so nothing is promised of it.
#[verifier::external_body]
fn now_timestamp() -> (r: Vec<u8>) {
    chrono::Utc::now().to_rfc3339_opts(chrono::SecondsFormat::AutoSi, true).into_bytes()
}

/// What handling one inbound chat frame does, given the id and timestamp
/// the message was stamped with: a frame outside the grammar ends the
/// inbound direction with `MalformedFrame` and changes nothing; a
/// well-formed frame becomes a message published to the room.
pub open spec fn inbound_post(
    pre: ChatRegistry,
    post: ChatRegistry,
    name: Seq<u8>,
    author: Seq<u8>,
    frame: Seq<u8>,
    id: u128,
    ts: Seq<u8>,
    r: Result<(), CoreError>,
) -> bool {
    match parse_incoming(frame) {
        None => r == Result::<(), CoreError>::Err(CoreError::MalformedFrame) && post == pre,
        Some((content, reply)) => {
            let m = ChatMessageView {
                message_id: id,
                content: content,
                author: author,
                timestamp: ts,
                reply_to: reply,
            };
            if pre.has_room(name) {
                &&& r is Ok
                &&& rooms_same_except(pre, post, name)
                &&& msg_views(post.history_in(name)) == window_push(
                    msg_views(pre.history_in(name)),
                    m,
                )
                &&& post.log_in(name) == pre.log_in(name).push(envelope_json(EnvelopeView::Msg(m)))
                &&& post.subs_in(name) == pre.subs_in(name)
                &&& post.names_in(name) == pre.names_in(name)
                &&& forall|w: Seq<u8>| #[trigger] post.count_in(name, w) == pre.count_in(name, w)
            } else {
                r == Result::<(), CoreError>::Err(CoreError::EntryMissing) && post == pre
            }
        },
    }
}

impl ChatRegistry {
    /// Handle one inbound text frame from `author`'s session on the
    /// named room, stamping the message with the given id and timestamp.
    pub fn handle_inbound_frame(
        &mut self,
        name: &Vec<u8>,
        author: &Vec<u8>,
        frame: &Vec<u8>,
        id: u128,
        ts: Vec<u8>,
    ) -> (r: Result<(), CoreError>)
        requires
            old(self).wf(),
            old(self).log_in(name@).len() < usize::MAX,
        ensures
            final(self).wf(),
            inbound_post(*old(self), *final(self), name@, author@, frame@, id, ts@, r),
    {
        let ghost gts = ts@;
        match parse_incoming_ex(frame) {
            None => Err(CoreError::MalformedFrame),
            Some((content, reply)) => {
                let m = ChatMessage {
                    message_id: id,
                    content,
                    author: crate::fanout::clone_bytes(author),
                    timestamp: ts,
                    reply_to: reply,
                };
                let ghost mv = m@;
                let res = self.publish_message(name, m);
                proof {
                    if old(self).has_room(name@) {
                        assert(msg_views(final(self).history_in(name@)) =~= window_push(
                            msg_views(old(self).history_in(name@)),
                            mv,
                        ));
                    }
                }
                res
            },
        }
    }

    /// Handle one inbound text frame, stamping the message with a fresh
    /// id and the current time.
    pub fn inbound_message(&mut self, name: &Vec<u8>, author: &Vec<u8>, frame: &Vec<u8>) -> (r:
        Result<(), CoreError>)
        requires
            old(self).wf(),
            old(self).log_in(name@).len() < usize::MAX,
        ensures
            final(self).wf(),
            exists|id: u128, ts: Seq<u8>|
                inbound_post(*old(self), *final(self), name@, author@, frame@, id, ts, r),
    {
        let id = new_ulid();
        let ts = now_timestamp();
        let ghost gid = id;
        let ghost gts = ts@;
        let r = self.handle_inbound_frame(name, author, frame, id, ts);
        proof {
            assert(inbound_post(*old(self), *final(self), name@, author@, frame@, gid, gts, r));
        }
        r
    }
}

/// The frames a just-connected session is sent, in order: the `connect`
/// snapshot of the users present, then each retained message as a `msg`
/// envelope, oldest first.
pub fn snapshot_frames(info: &RoomConnect) -> (r: Vec<Vec<u8>>)
    ensures
        r@.len() == 1 + info.history@.len(),
        r@[0]@ == envelope_json(EnvelopeView::Connect(views(info.users@))),
        forall|i: int|
            0 <= i < info.history@.len() ==> (#[trigger] r@[i + 1])@ == envelope_json(
                EnvelopeView::Msg(info.history@[i]@),
            ),
{
    let mut r: Vec<Vec<u8>> = Vec::new();
    let mut head: Vec<u8> = Vec::new();
    write_env_prefix(&mut head, &tag_connect_vec());
    head.push(91);
    let mut i: usize = 0;
    let ghost mid = head@;
    #[verifier::loop_isolation(false)]
    while i < info.users.len()
        invariant
            i <= info.users.len(),
            head@ == mid + joined_strings(views(info.users@).subrange(0, i as int)),
        decreases info.users.len() - i,
    {
        if i > 0 {
            head.push(44);
        }
        write_json_string(&mut head, &info.users[i]);
        proof {
            let pre = views(info.users@).subrange(0, i as int);
            let post = views(info.users@).subrange(0, i + 1);
            assert(post.drop_last() =~= pre);
            assert(post.last() == info.users@[i as int]@);
            assert(head@ =~= mid + joined_strings(post));
        }
        i = i + 1;
    }
    head.push(93);
    head.push(125);
    proof {
        assert(views(info.users@).subrange(0, info.users@.len() as int) =~= views(info.users@));
        assert(head@ =~= envelope_json(EnvelopeView::Connect(views(info.users@))));
    }
    r.push(head);
    let mut j: usize = 0;
    #[verifier::loop_isolation(false)]
    while j < info.history.len()
        invariant
            j <= info.history.len(),
            r@.len() == 1 + j,
            r@[0]@ == envelope_json(EnvelopeView::Connect(views(info.users@))),
            forall|i2: int|
                0 <= i2 < j ==> (#[trigger] r@[i2 + 1])@ == envelope_json(
                    EnvelopeView::Msg(info.history@[i2]@),
                ),
        decreases info.history.len() - j,
    {
        let mut frame: Vec<u8> = Vec::new();
        write_env_prefix(&mut frame, &tag_msg_vec());
        write_msg_json(&mut frame, &info.history[j]);
        frame.push(125);
        proof {
            assert(frame@ =~= envelope_json(EnvelopeView::Msg(info.history@[j as int]@)));
        }
        r.push(frame);
        j = j + 1;
    }
    r
}

// ---------------------------------------------------------------------
// Laws
// ---------------------------------------------------------------------
/// Number of open connections to `room` authenticated as `user`, in an
/// abstract list of the connections currently open (room name and
/// identity of each).
pub open spec fn conn_count(
    conns: Seq<(Seq<u8>, Option<Seq<u8>>)>,
    room: Seq<u8>,
    user: Seq<u8>,
) -> nat
    decreases conns.len(),
{
    if conns.len() == 0 {
        0
    } else {
        conn_count(conns.drop_last(), room, user) + if conns.last() == (room, Some(user)) {
            1nat
        } else {
            0nat
        }
    }
}

/// In every room, the presence count of every username equals the number
/// of currently open connections authenticated as that username.
pub open spec fn presence_matches(
    reg: ChatRegistry,
    conns: Seq<(Seq<u8>, Option<Seq<u8>>)>,
) -> bool {
    forall|room: Seq<u8>, user: Seq<u8>| #[trigger]
        reg.count_in(room, user) == conn_count(conns, room, user)
}

proof fn lemma_conn_count_push(
    conns: Seq<(Seq<u8>, Option<Seq<u8>>)>,
    e: (Seq<u8>, Option<Seq<u8>>),
    room: Seq<u8>,
    user: Seq<u8>,
)
    ensures
        conn_count(conns.push(e), room, user) == conn_count(conns, room, user) + if e == (
            room,
            Some(user),
        ) {
            1nat
        } else {
            0nat
        },
{
    assert(conns.push(e).drop_last() =~= conns);
}

/// An operation that touches only the named room leaves every other
/// room's counts alone.
proof fn lemma_other_rooms_counts(pre: ChatRegistry, post: ChatRegistry, name: Seq<u8>)
    requires
        rooms_updated_at(pre, post, name),
    ensures
        forall|n2: Seq<u8>, w: Seq<u8>|
            n2 != name ==> #[trigger] post.count_in(n2, w) == pre.count_in(n2, w),
{
    assert forall|n2: Seq<u8>, w: Seq<u8>| n2 != name implies #[trigger] post.count_in(n2, w)
        == pre.count_in(n2, w) by {
        if pre.has_room(name) {
            crate::table::lemma_find_key(pre.rooms@, name);
            assert forall|i: int|
                0 <= i < pre.rooms@.len() implies (#[trigger] pre.rooms@[i]).0@ == (
            #[trigger] post.rooms@[i]).0@ by {}
            lemma_find_key_same_keys(pre.rooms@, post.rooms@, n2);
            crate::table::lemma_find_key(pre.rooms@, n2);
        } else {
            assert(post.rooms@ =~= pre.rooms@.push(post.rooms@[pre.rooms@.len() as int]));
            lemma_find_key_push(pre.rooms@, post.rooms@[pre.rooms@.len() as int], n2);
            crate::table::lemma_find_key(pre.rooms@, n2);
        }
    }
}

/// Law: a connect with identity `user` keeps presence counting the open
/// connections — with the new connection recorded, every count matches
/// again.
pub proof fn lemma_connect_tracks_presence(
    pre: ChatRegistry,
    post: ChatRegistry,
    name: Seq<u8>,
    user: Seq<u8>,
    conns: Seq<(Seq<u8>, Option<Seq<u8>>)>,
)
    requires
        presence_matches(pre, conns),
        rooms_updated_at(pre, post, name),
        post.count_in(name, user) == pre.count_in(name, user) + 1,
        forall|w: Seq<u8>| w != user ==> #[trigger] post.count_in(name, w) == pre.count_in(name, w),
    ensures
        presence_matches(post, conns.push((name, Some(user)))),
{
    lemma_other_rooms_counts(pre, post, name);
    assert forall|r: Seq<u8>, u: Seq<u8>| #[trigger]
        post.count_in(r, u) == conn_count(conns.push((name, Some(user))), r, u) by {
        lemma_conn_count_push(conns, (name, Some(user)), r, u);
        assert(pre.count_in(r, u) == conn_count(conns, r, u));
    }
}

/// Law: a disconnect (or an aborted connect) with identity `user` keeps
/// presence counting the open connections — with that connection removed
/// from the list, every count matches again.
pub proof fn lemma_disconnect_tracks_presence(
    pre: ChatRegistry,
    post: ChatRegistry,
    name: Seq<u8>,
    user: Seq<u8>,
    conns: Seq<(Seq<u8>, Option<Seq<u8>>)>,
)
    requires
        presence_matches(pre, conns),
        conns.len() >= 1,
        conns.last() == (name, Some(user)),
        rooms_updated_at(pre, post, name),
        post.count_in(name, user) == pre.count_in(name, user) - 1,
        pre.count_in(name, user) >= 1,
        forall|w: Seq<u8>| w != user ==> #[trigger] post.count_in(name, w) == pre.count_in(name, w),
    ensures
        presence_matches(post, conns.drop_last()),
{
    lemma_other_rooms_counts(pre, post, name);
    assert forall|r: Seq<u8>, u: Seq<u8>| #[trigger]
        post.count_in(r, u) == conn_count(conns.drop_last(), r, u) by {
        assert(conn_count(conns, r, u) == conn_count(conns.drop_last(), r, u) + if conns.last()
            == (r, Some(u)) {
            1nat
        } else {
            0nat
        });
        assert(pre.count_in(r, u) == conn_count(conns, r, u));
    }
}

/// Law: an operation that changes no presence count — publishing,
/// receiving, announcing a join — keeps presence counting the open
/// connections.
pub proof fn lemma_neutral_tracks_presence(
    pre: ChatRegistry,
    post: ChatRegistry,
    name: Seq<u8>,
    conns: Seq<(Seq<u8>, Option<Seq<u8>>)>,
)
    requires
        presence_matches(pre, conns),
        rooms_updated_at(pre, post, name),
        forall|w: Seq<u8>| #[trigger] post.count_in(name, w) == pre.count_in(name, w),
    ensures
        presence_matches(post, conns),
{
    lemma_other_rooms_counts(pre, post, name);
    assert forall|r: Seq<u8>, u: Seq<u8>| #[trigger]
        post.count_in(r, u) == conn_count(conns, r, u) by {
        assert(pre.count_in(r, u) == conn_count(conns, r, u));
    }
}

/// Law: an envelope published to a room reaches a subscriber that stood
/// at the end of the log when it was published: the subscriber's next
/// receive attempt yields exactly that envelope — never silence, never a
/// lag. With the connect step placing each new subscriber at the log's
/// end, a viewer misses nothing published after its snapshot.
pub proof fn lemma_published_then_delivered(
    pre: ChatRegistry,
    mid: ChatRegistry,
    post: ChatRegistry,
    name: Seq<u8>,
    rid: int,
    env: Seq<u8>,
    rv: Recv,
)
    requires
        pre.wf(),
        pre.has_room(name),
        0 <= rid < pre.subs_in(name).len(),
        pre.subs_in(name)[rid] == Some(pre.log_in(name).len() as usize),
        mid.has_room(name),
        mid.log_in(name) == pre.log_in(name).push(env),
        mid.start_in(name) == crate::fanout::next_start(pre.room(name).fanout),
        mid.subs_in(name) == pre.subs_in(name),
        crate::fanout::recv_cases(mid.room(name).fanout, post.room(name).fanout, rid, rv),
    ensures
        rv matches Recv::Value(f) && f@ == env,
{
    crate::table::lemma_find_key(pre.rooms@, name);
    assert(pre.room(name).fanout.wf());
    let c = pre.log_in(name).len() as int;
    assert(mid.room(name).fanout.cursors@[rid]->Some_0 == c);
    assert(mid.room(name).fanout.start <= c < mid.room(name).fanout.log@.len());
    assert(mid.room(name).fanout.log@[c] == env);
}

/// The history after a sequence of publishes, starting empty.
pub open spec fn window_fold<M>(ms: Seq<M>) -> Seq<M>
    decreases ms.len(),
{
    if ms.len() == 0 {
        Seq::empty()
    } else {
        window_push(window_fold(ms.drop_last()), ms.last())
    }
}

/// Law: the history never exceeds its capacity, and after any sequence
/// of publishes it holds exactly the most recent messages — the last
/// `HISTORY_CAP` of them once more than that many were published — in
/// publish order.
pub proof fn lemma_history_window<M>(ms: Seq<M>)
    ensures
        window_fold(ms).len() <= HISTORY_CAP,
        window_fold(ms) == ms.subrange(
            if ms.len() <= HISTORY_CAP {
                0
            } else {
                ms.len() - HISTORY_CAP
            },
            ms.len() as int,
        ),
    decreases ms.len(),
{
    if ms.len() == 0 {
        assert(window_fold(ms) =~= ms.subrange(0, 0));
    } else {
        lemma_history_window(ms.drop_last());
        let d = ms.drop_last();
        let lo: int = if ms.len() <= HISTORY_CAP {
            0
        } else {
            ms.len() - HISTORY_CAP
        };
        assert forall|j: int| 0 <= j < d.len() implies d[j] == ms[j] by {}
        assert(window_fold(ms) =~= ms.subrange(lo, ms.len() as int));
    }
}

/// Law: a just-connected subscriber misses nothing and repeats nothing.
/// Its snapshot covers the log up to the connect instant; its stream is
/// exactly what is published strictly after, in publish order; together
/// they cover the log exactly once.
pub proof fn lemma_snapshot_no_gap_no_dup(log_at_connect: Seq<Seq<u8>>, log_later: Seq<Seq<u8>>)
    requires
        log_at_connect.len() <= log_later.len(),
        log_at_connect == log_later.subrange(0, log_at_connect.len() as int),
    ensures
        ({
            let c = log_at_connect.len() as int;
            let stream = log_later.subrange(c, log_later.len() as int);
            &&& stream.len() == log_later.len() - c
            &&& forall|j: int| c <= j < log_later.len() ==> stream[j - c] == log_later[j]
            &&& log_at_connect + stream == log_later
        }),
{
    let c = log_at_connect.len() as int;
    let stream = log_later.subrange(c, log_later.len() as int);
    assert(log_at_connect + stream =~= log_later);
}

} // verus!
