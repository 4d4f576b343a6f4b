//! Multi-producer/multi-consumer broadcast primitive with bounded
//! internal capacity.
//!
//! Every value ever published forms an abstract log (kept as a ghost
//! sequence); only the most recent `cap` values are retained for
//! delivery. Each subscriber holds a cursor into the log. A subscriber
//! whose cursor falls behind the retained window has lagged: it is told
//! so and its cursor skips ahead to the oldest retained value, and the
//! owning session may treat the condition as fatal or continue.

use vstd::prelude::*;

verus! {

/// Outcome of one receive attempt by a subscriber.
pub enum Recv {
    /// The subscriber has already seen every published value.
    Empty,
    /// The subscriber fell more than the channel capacity behind; its
    /// cursor has been moved forward to the oldest retained value.
    Lagged,
    /// The next value of the log, in publish order.
    Value(Vec<u8>),
}

/// The contents of a sequence of byte vectors.
pub open spec fn views(s: Seq<Vec<u8>>) -> Seq<Seq<u8>> {
    s.map_values(|v: Vec<u8>| v@)
}

/// Number of live (not yet dropped) subscriber cursors.
pub open spec fn live_count(cs: Seq<Option<usize>>) -> nat
    decreases cs.len(),
{
    if cs.len() == 0 {
        0
    } else {
        live_count(cs.drop_last()) + if cs.last() is Some {
            1nat
        } else {
            0nat
        }
    }
}

/// A live cursor never points past the end of the log.
pub open spec fn cursor_ok(c: Option<usize>, len: int) -> bool {
    match c {
        Some(p) => p <= len,
        None => true,
    }
}

/// Where the retained window starts after one more publish: it advances
/// exactly when the window is full.
pub open spec fn next_start(f: Fanout) -> int {
    if f.log@.len() - f.start == f.cap {
        f.start + 1
    } else {
        f.start as int
    }
}

/// What one receive attempt does, depending on where the subscriber's
/// cursor stands: nothing past it (`Empty`, cursor kept), behind the
/// retained window (`Lagged`, cursor snapped to the oldest retained
/// value), or within it (the value at the cursor, cursor advanced).
pub open spec fn recv_cases(pre: Fanout, post: Fanout, rid: int, r: Recv) -> bool {
    let c = pre.cursors[rid]->Some_0;
    &&& c == pre.log@.len() ==> r is Empty && post.cursors@ == pre.cursors@
    &&& c < pre.start ==> r is Lagged && post.cursors@ == pre.cursors@.update(
        rid,
        Some(pre.start),
    )
    &&& pre.start <= c < pre.log@.len() ==> (r matches Recv::Value(v) && v@ == pre.log@[c as int]
        && post.cursors@ == pre.cursors@.update(rid, Some((c + 1) as usize)))
}

/// Broadcast channel: a bounded window over an ever-growing publish log,
/// plus one cursor per subscriber. Callers must preserve `wf`, which
/// every method here requires and ensures.
pub struct Fanout {
    /// Retained tail of the log; `buf[i]` is log entry `start + i`.
    pub buf: Vec<Vec<u8>>,
    /// Number of values evicted from the window so far.
    pub start: usize,
    /// Bound on the retained window (at least 1).
    pub cap: usize,
    /// One entry per handle ever subscribed: `Some(position)` while the
    /// subscriber is live, `None` once dropped.
    pub cursors: Vec<Option<usize>>,
    /// The full abstract log of all values ever published.
    pub log: Ghost<Seq<Seq<u8>>>,
}

impl Fanout {
    /// Well-formedness: the window mirrors the tail of the ghost log and
    /// all cursors are in range.
    pub open spec fn wf(self) -> bool {
        &&& self.cap >= 1
        &&& self.buf.len() <= self.cap
        &&& self.start + self.buf.len() == self.log@.len()
        &&& self.log@.len() <= usize::MAX
        &&& forall|i: int|
            0 <= i < self.buf.len() ==> #[trigger] self.buf[i]@ == self.log@[self.start + i]
        &&& forall|r: int|
            0 <= r < self.cursors.len() ==> cursor_ok(
                #[trigger] self.cursors[r],
                self.log@.len() as int,
            )
    }

    /// A fresh channel with no history and no subscribers.
    pub fn new(cap: usize) -> (r: Fanout)
        requires
            cap >= 1,
        ensures
            r.wf(),
            r.log@ == Seq::<Seq<u8>>::empty(),
            r.cursors@ == Seq::<Option<usize>>::empty(),
            r.cap == cap,
            r.start == 0,
    {
        Fanout {
            buf: Vec::new(),
            start: 0,
            cap,
            cursors: Vec::new(),
            log: Ghost(Seq::empty()),
        }
    }

    /// Register a new subscriber; it observes exactly the values
    /// published after this call.
    pub fn subscribe(&mut self) -> (rid: usize)
        requires
            old(self).wf(),
            old(self).cursors.len() < usize::MAX,
        ensures
            final(self).wf(),
            rid == old(self).cursors@.len(),
            final(self).cursors@ == old(self).cursors@.push(Some(old(self).log@.len() as usize)),
            final(self).log@ == old(self).log@,
            final(self).buf@ == old(self).buf@,
            final(self).start == old(self).start,
            final(self).cap == old(self).cap,
            live_count(final(self).cursors@) == live_count(old(self).cursors@) + 1,
    {
        let rid = self.cursors.len();
        let pos = self.start + self.buf.len();
        self.cursors.push(Some(pos));
        proof {
            lemma_live_count_push(old(self).cursors@, Some(pos));
        }
        rid
    }

    /// Deliver `v` to every live subscriber: append it to the log,
    /// evicting the oldest retained value if the window is full.
    pub fn publish(&mut self, v: Vec<u8>)
        requires
            old(self).wf(),
            old(self).log@.len() < usize::MAX,
        ensures
            final(self).wf(),
            final(self).log@ == old(self).log@.push(v@),
            final(self).cursors@ == old(self).cursors@,
            final(self).cap == old(self).cap,
            final(self).start == next_start(*old(self)),
    {
        let ghost v_view = v@;
        if self.buf.len() == self.cap {
            self.buf.remove(0);
            self.start = self.start + 1;
        }
        self.buf.push(v);
        self.log = Ghost(self.log@.push(v_view));
    }

    /// One receive attempt by subscriber `rid`.
    pub fn recv(&mut self, rid: usize) -> (r: Recv)
        requires
            old(self).wf(),
            rid < old(self).cursors.len(),
            old(self).cursors[rid as int] is Some,
        ensures
            final(self).wf(),
            final(self).log@ == old(self).log@,
            final(self).buf@ == old(self).buf@,
            final(self).start == old(self).start,
            final(self).cap == old(self).cap,
            final(self).cursors@.len() == old(self).cursors@.len(),
            recv_cases(*old(self), *final(self), rid as int, r),
    {
        let c = self.cursors[rid].unwrap();
        if c == self.start + self.buf.len() {
            Recv::Empty
        } else if c < self.start {
            let s = self.start;
            self.cursors[rid] = Some(s);
            Recv::Lagged
        } else {
            let v = clone_bytes(&self.buf[c - self.start]);
            self.cursors[rid] = Some(c + 1);
            Recv::Value(v)
        }
    }

    /// Number of live subscribers.
    pub fn receiver_count(&self) -> (n: usize)
        ensures
            n == live_count(self.cursors@),
    {
        let mut n: usize = 0;
        let mut i: usize = 0;
        proof {
            assert(self.cursors@.subrange(0, 0) =~= Seq::<Option<usize>>::empty());
        }
        while i < self.cursors.len()
            invariant
                i <= self.cursors.len(),
                n == live_count(self.cursors@.subrange(0, i as int)),
                n <= i,
            decreases self.cursors.len() - i,
        {
            proof {
                assert(self.cursors@.subrange(0, i + 1).drop_last() =~= self.cursors@.subrange(
                    0,
                    i as int,
                ));
                assert(self.cursors@.subrange(0, i + 1).last() == self.cursors@[i as int]);
            }
            if self.cursors[i].is_some() {
                n = n + 1;
            }
            i = i + 1;
        }
        proof {
            assert(self.cursors@.subrange(0, self.cursors@.len() as int) =~= self.cursors@);
        }
        n
    }

    /// Drop subscriber `rid`: its cursor is cleared and the live count
    /// decreases by one.
    pub fn drop_receiver(&mut self, rid: usize)
        requires
            old(self).wf(),
            rid < old(self).cursors.len(),
            old(self).cursors[rid as int] is Some,
        ensures
            final(self).wf(),
            final(self).log@ == old(self).log@,
            final(self).buf@ == old(self).buf@,
            final(self).start == old(self).start,
            final(self).cap == old(self).cap,
            final(self).cursors@ == old(self).cursors@.update(rid as int, None),
            live_count(final(self).cursors@) + 1 == live_count(old(self).cursors@),
    {
        self.cursors[rid] = None;
        proof {
            lemma_live_count_update_to_none(old(self).cursors@, rid as int);
        }
    }

    /// Whether subscriber `rid` still has published values it has not
    /// received.
    pub fn has_pending(&self, rid: usize) -> (b: bool)
        requires
            self.wf(),
            rid < self.cursors.len(),
            self.cursors[rid as int] is Some,
        ensures
            b == (self.cursors[rid as int]->Some_0 < self.log@.len()),
    {
        let c = self.cursors[rid].unwrap();
        c < self.start + self.buf.len()
    }

    /// Receive everything still pending for subscriber `rid`, in publish
    /// order. Requires the subscriber not to have lagged: the result is
    /// then exactly the log past its cursor — no value missed, none
    /// repeated.
    #[verifier::loop_isolation(false)]
    pub fn recv_all(&mut self, rid: usize) -> (out: Vec<Vec<u8>>)
        requires
            old(self).wf(),
            rid < old(self).cursors.len(),
            old(self).cursors[rid as int] is Some,
            old(self).cursors[rid as int]->Some_0 >= old(self).start,
        ensures
            final(self).wf(),
            final(self).log@ == old(self).log@,
            final(self).buf@ == old(self).buf@,
            final(self).start == old(self).start,
            final(self).cap == old(self).cap,
            final(self).cursors@ == old(self).cursors@.update(
                rid as int,
                Some(old(self).log@.len() as usize),
            ),
            views(out@) == old(self).log@.subrange(
                old(self).cursors[rid as int]->Some_0 as int,
                old(self).log@.len() as int,
            ),
    {
        let ghost init = *self;
        let ghost c0 = init.cursors[rid as int]->Some_0 as int;
        let mut out: Vec<Vec<u8>> = Vec::new();
        proof {
            assert(views(out@) =~= init.log@.subrange(c0, c0));
            assert(self.cursors@ =~= init.cursors@.update(rid as int, init.cursors@[rid as int]));
        }
        while self.has_pending(rid)
            invariant
                self.wf(),
                rid < self.cursors.len(),
                self.log@ == init.log@,
                self.buf@ == init.buf@,
                self.start == init.start,
                self.cap == init.cap,
                self.cursors@.len() == init.cursors@.len(),
                self.cursors[rid as int] is Some,
                self.cursors[rid as int]->Some_0 >= init.start,
                c0 <= self.cursors[rid as int]->Some_0 <= self.log@.len(),
                self.cursors[rid as int]->Some_0 == c0 + out.len(),
                self.cursors@ == init.cursors@.update(rid as int, self.cursors@[rid as int]),
                views(out@) == init.log@.subrange(c0, self.cursors[rid as int]->Some_0 as int),
            decreases self.log@.len() - self.cursors[rid as int]->Some_0,
        {
            let ghost pre = *self;
            let ghost c = pre.cursors[rid as int]->Some_0 as int;
            let r = self.recv(rid);
            match r {
                Recv::Value(v) => {
                    let ghost pre_out = out@;
                    out.push(v);
                    proof {
                        assert(out@ == pre_out.push(r->Value_0));
                        assert(r->Value_0@ == init.log@[c]);
                        assert(pre_out.len() == c - c0);
                        assert forall|k: int| 0 <= k < out@.len() implies views(out@)[k]
                            == init.log@.subrange(c0, c + 1)[k] by {
                            if k < pre_out.len() {
                                assert(views(pre_out)[k] == init.log@.subrange(c0, c)[k]);
                                assert(out@[k] == pre_out[k]);
                            } else {
                                assert(out@[k] == r->Value_0);
                                assert(init.log@.subrange(c0, c + 1)[k] == init.log@[c]);
                            }
                        }
                        assert(views(out@) =~= init.log@.subrange(c0, c + 1));
                        assert(self.cursors@ =~= init.cursors@.update(
                            rid as int,
                            self.cursors@[rid as int],
                        ));
                    }
                },
                Recv::Empty => {
                    proof {
                        assert(false);
                    }
                },
                Recv::Lagged => {
                    proof {
                        assert(false);
                    }
                },
            }
        }
        proof {
            assert(self.cursors@ =~= init.cursors@.update(
                rid as int,
                Some(init.log@.len() as usize),
            ));
        }
        out
    }
}

/// Pushing a live cursor raises the live count by one; pushing a dropped
/// one keeps it.
pub proof fn lemma_live_count_push(cs: Seq<Option<usize>>, c: Option<usize>)
    ensures
        live_count(cs.push(c)) == live_count(cs) + if c is Some {
            1nat
        } else {
            0nat
        },
{
    assert(cs.push(c).drop_last() =~= cs);
}

/// Clearing a live cursor lowers the live count by exactly one.
pub proof fn lemma_live_count_update_to_none(cs: Seq<Option<usize>>, i: int)
    requires
        0 <= i < cs.len(),
        cs[i] is Some,
    ensures
        live_count(cs.update(i, None)) + 1 == live_count(cs),
    decreases cs.len(),
{
    if i == cs.len() - 1 {
        assert(cs.update(i, None).drop_last() =~= cs.drop_last());
    } else {
        assert(cs.update(i, None).drop_last() =~= cs.drop_last().update(i, None));
        lemma_live_count_update_to_none(cs.drop_last(), i);
    }
}

/// Moving a live cursor to another live position keeps the live count.
pub proof fn lemma_live_count_update_some(cs: Seq<Option<usize>>, i: int, p: usize)
    requires
        0 <= i < cs.len(),
        cs[i] is Some,
    ensures
        live_count(cs.update(i, Some(p))) == live_count(cs),
    decreases cs.len(),
{
    if i == cs.len() - 1 {
        assert(cs.update(i, Some(p)).drop_last() =~= cs.drop_last());
    } else {
        assert(cs.update(i, Some(p)).drop_last() =~= cs.drop_last().update(i, Some(p)));
        lemma_live_count_update_some(cs.drop_last(), i, p);
    }
}

/// A copy of a byte vector has the same contents.
pub fn clone_bytes(v: &Vec<u8>) -> (r: Vec<u8>)
    ensures
        r@ == v@,
{
    let r = v.clone();
    proof {
        assert(r@ =~= v@);
    }
    r
}

} // verus!
