//! The broker: subscription registry, publish dispatch, and per-subscriber
//! message queues.
//!
//! A [`Broker`] owns three associations: which subscribers belong to which
//! topic, which subscribers registered a push callback, and which subscribers
//! hold a pull queue of pending messages.  A subscriber that registers with a
//! callback value is served by push delivery: `publish` reports the owed
//! deliveries to the caller, who invokes the callbacks.  A subscriber that
//! registers without one is served by pull delivery: `publish` appends to its
//! queue, and the subscriber polls with `get_next_message` / `has_messages`.
//!
//! The broker is a plain value with no internal locking; a host that shares
//! one broker between threads serializes access around it.

use vstd::prelude::*;

verus! {

/// One queued or delivered message: the topic it was published to and the
/// payload, which the broker never interprets.
pub struct Message {
    pub topic: String,
    pub payload: String,
}

impl View for Message {
    type V = (Seq<char>, Seq<char>);

    open spec fn view(&self) -> (Seq<char>, Seq<char>) {
        (self.topic@, self.payload@)
    }
}

/// One push delivery owed after a publish: the subscriber the message goes to
/// and the registration value it subscribed with.
pub struct PushDelivery<C> {
    pub subscriber: String,
    pub context: C,
}

struct Member {
    topic: String,
    sub: String,
}

struct CallbackEntry<C> {
    sub: String,
    context: C,
}

struct QueueEntry {
    sub: String,
    messages: Vec<Message>,
}

/// An in-process publish/subscribe broker.
///
/// `C` is the opaque callback registration value a push subscriber hands to
/// `subscribe` and gets back on every delivery; the broker stores it and
/// never interprets it.
pub struct Broker<C> {
    topic_names: Vec<String>,
    members: Vec<Member>,
    callbacks: Vec<CallbackEntry<C>>,
    queues: Vec<QueueEntry>,
}

// ===================== the mathematical model ==============================

spec fn tn_has(s: Seq<String>, t: Seq<char>) -> bool {
    exists|i: int| 0 <= i < s.len() && s[i]@ == t
}

spec fn mem_has(s: Seq<Member>, t: Seq<char>, id: Seq<char>) -> bool {
    exists|i: int| 0 <= i < s.len() && s[i].topic@ == t && s[i].sub@ == id
}

spec fn cb_has<C>(s: Seq<CallbackEntry<C>>, id: Seq<char>) -> bool {
    exists|i: int| 0 <= i < s.len() && s[i].sub@ == id
}

spec fn cb_index<C>(s: Seq<CallbackEntry<C>>, id: Seq<char>) -> int {
    choose|i: int| 0 <= i < s.len() && s[i].sub@ == id
}

spec fn cb_at<C>(s: Seq<CallbackEntry<C>>, id: Seq<char>) -> C {
    s[cb_index(s, id)].context
}

spec fn q_has(s: Seq<QueueEntry>, id: Seq<char>) -> bool {
    exists|i: int| 0 <= i < s.len() && s[i].sub@ == id
}

spec fn q_index(s: Seq<QueueEntry>, id: Seq<char>) -> int {
    choose|i: int| 0 <= i < s.len() && s[i].sub@ == id
}

spec fn q_view(ms: Seq<Message>) -> Seq<(Seq<char>, Seq<char>)> {
    ms.map_values(|m: Message| m@)
}

spec fn q_at(s: Seq<QueueEntry>, id: Seq<char>) -> Seq<(Seq<char>, Seq<char>)> {
    q_view(s[q_index(s, id)].messages@)
}

spec fn uniq_tn(s: Seq<String>) -> bool {
    forall|i: int, j: int| 0 <= i < j < s.len() ==> s[i]@ != s[j]@
}

spec fn uniq_mem(s: Seq<Member>) -> bool {
    forall|i: int, j: int|
        0 <= i < j < s.len() ==> !(s[i].topic@ == s[j].topic@ && s[i].sub@ == s[j].sub@)
}

spec fn uniq_cb<C>(s: Seq<CallbackEntry<C>>) -> bool {
    forall|i: int, j: int| 0 <= i < j < s.len() ==> s[i].sub@ != s[j].sub@
}

spec fn uniq_q(s: Seq<QueueEntry>) -> bool {
    forall|i: int, j: int| 0 <= i < j < s.len() ==> s[i].sub@ != s[j].sub@
}

impl<C> Broker<C> {
    /// Internal consistency: every association is keyed at most once.
    pub closed spec fn wf(self) -> bool {
        &&& uniq_tn(self.topic_names@)
        &&& uniq_mem(self.members@)
        &&& uniq_cb(self.callbacks@)
        &&& uniq_q(self.queues@)
    }

    /// A topic exists once any subscriber has ever registered to it; it is
    /// retained even after its subscriber set becomes empty.
    pub closed spec fn has_topic(self, topic: Seq<char>) -> bool {
        tn_has(self.topic_names@, topic)
    }

    /// Whether `id` currently belongs to the subscriber set of `topic`.
    pub closed spec fn is_member(self, topic: Seq<char>, id: Seq<char>) -> bool {
        mem_has(self.members@, topic, id)
    }

    /// Whether `id` currently holds a push callback registration.
    pub closed spec fn has_callback(self, id: Seq<char>) -> bool {
        cb_has(self.callbacks@, id)
    }

    /// The registration value `id` subscribed with (meaningful only when
    /// `has_callback(id)`).
    pub closed spec fn callback_context(self, id: Seq<char>) -> C {
        cb_at(self.callbacks@, id)
    }

    /// Whether `id` currently holds a pull queue.
    pub closed spec fn has_queue(self, id: Seq<char>) -> bool {
        q_has(self.queues@, id)
    }

    /// The pending (topic, payload) pairs of `id`'s pull queue, oldest first
    /// (meaningful only when `has_queue(id)`).
    pub closed spec fn queue_of(self, id: Seq<char>) -> Seq<(Seq<char>, Seq<char>)> {
        q_at(self.queues@, id)
    }

    /// What `has_messages` reports: whether `id` has a queue holding at least
    /// one message, or, with a topic filter, one matching message.
    pub open spec fn pending(self, id: Seq<char>, filter: Option<Seq<char>>) -> bool {
        self.has_queue(id) && match filter {
            None => self.queue_of(id).len() > 0,
            Some(t) => has_match(self.queue_of(id), t),
        }
    }
}

/// Whether some entry of the queue `q` was published to topic `t`.
pub open spec fn has_match(q: Seq<(Seq<char>, Seq<char>)>, t: Seq<char>) -> bool {
    exists|k: int| 0 <= k < q.len() && q[k].0 == t
}

/// `k` is the position of the oldest entry of `q` published to topic `t`.
pub open spec fn is_first_match(q: Seq<(Seq<char>, Seq<char>)>, t: Seq<char>, k: int) -> bool {
    &&& 0 <= k < q.len()
    &&& q[k].0 == t
    &&& forall|j: int| 0 <= j < k ==> q[j].0 != t
}

/// The view of an optional topic filter argument.
pub open spec fn opt_str_view(t: Option<&str>) -> Option<Seq<char>> {
    match t {
        Some(s) => Some(s@),
        None => None,
    }
}

/// The view of an optional retrieved message.
pub open spec fn opt_msg_view(m: Option<Message>) -> Option<(Seq<char>, Seq<char>)> {
    match m {
        Some(msg) => Some(msg@),
        None => None,
    }
}

/// The views of a batch of push deliveries.
pub open spec fn deliveries_view<C>(v: Seq<PushDelivery<C>>) -> Seq<(Seq<char>, C)> {
    v.map_values(|p: PushDelivery<C>| (p.subscriber@, p.context))
}

// ===================== postcondition relations =============================

/// The push-callback registrations of `pre` and `post` agree everywhere.
pub open spec fn callbacks_unchanged<C>(pre: Broker<C>, post: Broker<C>) -> bool {
    &&& forall|id2: Seq<char>|
        #![trigger post.has_callback(id2)]
        #![trigger pre.has_callback(id2)]
        post.has_callback(id2) <==> pre.has_callback(id2)
    &&& forall|id2: Seq<char>|
        #![trigger post.callback_context(id2)]
        #![trigger pre.callback_context(id2)]
        pre.has_callback(id2) ==> post.callback_context(id2) == pre.callback_context(id2)
}

/// The pull queues of `pre` and `post` agree everywhere.
pub open spec fn queues_unchanged<C>(pre: Broker<C>, post: Broker<C>) -> bool {
    &&& forall|id2: Seq<char>|
        #![trigger post.has_queue(id2)]
        #![trigger pre.has_queue(id2)]
        post.has_queue(id2) <==> pre.has_queue(id2)
    &&& forall|id2: Seq<char>|
        #![trigger post.queue_of(id2)]
        #![trigger pre.queue_of(id2)]
        pre.has_queue(id2) ==> post.queue_of(id2) == pre.queue_of(id2)
}

/// The topic registry and every subscriber set of `pre` and `post` agree.
pub open spec fn memberships_unchanged<C>(pre: Broker<C>, post: Broker<C>) -> bool {
    &&& forall|t2: Seq<char>|
        #![trigger post.has_topic(t2)]
        #![trigger pre.has_topic(t2)]
        post.has_topic(t2) <==> pre.has_topic(t2)
    &&& forall|t2: Seq<char>, id2: Seq<char>|
        #![trigger post.is_member(t2, id2)]
        #![trigger pre.is_member(t2, id2)]
        post.is_member(t2, id2) <==> pre.is_member(t2, id2)
}

/// What `subscribe(id, topic, callback)` does and when it succeeds.
pub open spec fn subscribe_post<C>(
    pre: Broker<C>,
    post: Broker<C>,
    id: Seq<char>,
    topic: Seq<char>,
    callback: Option<C>,
    r: bool,
) -> bool {
    &&& r == (id.len() > 0 && topic.len() > 0)
    &&& !r ==> post == pre
    &&& r ==> {
        &&& post.has_topic(topic)
        &&& post.is_member(topic, id)
        &&& forall|t2: Seq<char>|
            #![trigger post.has_topic(t2)]
            #![trigger pre.has_topic(t2)]
            t2 != topic ==> (post.has_topic(t2) <==> pre.has_topic(t2))
        &&& forall|t2: Seq<char>, id2: Seq<char>|
            #![trigger post.is_member(t2, id2)]
            #![trigger pre.is_member(t2, id2)]
            !(t2 == topic && id2 == id) ==> (post.is_member(t2, id2) <==> pre.is_member(t2, id2))
        &&& match callback {
            Some(c) => {
                &&& post.has_callback(id)
                &&& post.callback_context(id) == c
                &&& forall|id2: Seq<char>|
                    #![trigger post.has_callback(id2)]
                    #![trigger pre.has_callback(id2)]
                    id2 != id ==> (post.has_callback(id2) <==> pre.has_callback(id2))
                &&& forall|id2: Seq<char>|
                    #![trigger post.callback_context(id2)]
                    #![trigger pre.callback_context(id2)]
                    id2 != id && pre.has_callback(id2) ==> post.callback_context(id2)
                        == pre.callback_context(id2)
                &&& queues_unchanged(pre, post)
            },
            None => {
                &&& post.has_queue(id)
                &&& post.queue_of(id) == if pre.has_queue(id) {
                    pre.queue_of(id)
                } else {
                    Seq::<(Seq<char>, Seq<char>)>::empty()
                }
                &&& forall|id2: Seq<char>|
                    #![trigger post.has_queue(id2)]
                    #![trigger pre.has_queue(id2)]
                    id2 != id ==> (post.has_queue(id2) <==> pre.has_queue(id2))
                &&& forall|id2: Seq<char>|
                    #![trigger post.queue_of(id2)]
                    #![trigger pre.queue_of(id2)]
                    id2 != id && pre.has_queue(id2) ==> post.queue_of(id2) == pre.queue_of(id2)
                &&& callbacks_unchanged(pre, post)
            },
        }
    }
}

/// What `unsubscribe(id, topic)` does and when it succeeds.  With a topic the
/// membership in that one topic is dropped and nothing else changes; without
/// one the subscriber is torn down entirely: every membership, its callback
/// registration, and its queue.
pub open spec fn unsubscribe_post<C>(
    pre: Broker<C>,
    post: Broker<C>,
    id: Seq<char>,
    filter: Option<Seq<char>>,
    r: bool,
) -> bool {
    &&& r == (id.len() > 0)
    &&& !r ==> post == pre
    &&& r ==> match filter {
        Some(t) => {
            &&& !post.is_member(t, id)
            &&& forall|t2: Seq<char>, id2: Seq<char>|
                #![trigger post.is_member(t2, id2)]
                #![trigger pre.is_member(t2, id2)]
                !(t2 == t && id2 == id) ==> (post.is_member(t2, id2) <==> pre.is_member(t2, id2))
            &&& forall|t2: Seq<char>|
                #![trigger post.has_topic(t2)]
                #![trigger pre.has_topic(t2)]
                post.has_topic(t2) <==> pre.has_topic(t2)
            &&& callbacks_unchanged(pre, post)
            &&& queues_unchanged(pre, post)
        },
        None => {
            &&& forall|t2: Seq<char>| !(#[trigger] post.is_member(t2, id))
            &&& forall|t2: Seq<char>, id2: Seq<char>|
                #![trigger post.is_member(t2, id2)]
                #![trigger pre.is_member(t2, id2)]
                id2 != id ==> (post.is_member(t2, id2) <==> pre.is_member(t2, id2))
            &&& forall|t2: Seq<char>|
                #![trigger post.has_topic(t2)]
                #![trigger pre.has_topic(t2)]
                post.has_topic(t2) <==> pre.has_topic(t2)
            &&& !post.has_callback(id)
            &&& forall|id2: Seq<char>|
                #![trigger post.has_callback(id2)]
                #![trigger pre.has_callback(id2)]
                id2 != id ==> (post.has_callback(id2) <==> pre.has_callback(id2))
            &&& forall|id2: Seq<char>|
                #![trigger post.callback_context(id2)]
                #![trigger pre.callback_context(id2)]
                id2 != id && pre.has_callback(id2) ==> post.callback_context(id2)
                    == pre.callback_context(id2)
            &&& !post.has_queue(id)
            &&& forall|id2: Seq<char>|
                #![trigger post.has_queue(id2)]
                #![trigger pre.has_queue(id2)]
                id2 != id ==> (post.has_queue(id2) <==> pre.has_queue(id2))
            &&& forall|id2: Seq<char>|
                #![trigger post.queue_of(id2)]
                #![trigger pre.queue_of(id2)]
                id2 != id && pre.has_queue(id2) ==> post.queue_of(id2) == pre.queue_of(id2)
        },
    }
}

/// What `publish(topic, payload)` does and when it reports delivery.  Every
/// current member of the topic with a callback registration appears exactly
/// once among the owed push deliveries (in no promised order); every current
/// member without one but with a queue gets the message appended; everything
/// else is untouched.
pub open spec fn publish_post<C>(
    pre: Broker<C>,
    post: Broker<C>,
    topic: Seq<char>,
    payload: Seq<char>,
    r: bool,
    pushes: Seq<(Seq<char>, C)>,
) -> bool {
    &&& r == (topic.len() > 0 && pre.has_topic(topic))
    &&& !r ==> post == pre && pushes.len() == 0
    &&& r ==> {
        &&& memberships_unchanged(pre, post)
        &&& callbacks_unchanged(pre, post)
        &&& forall|id2: Seq<char>|
            #![trigger post.has_queue(id2)]
            #![trigger pre.has_queue(id2)]
            post.has_queue(id2) <==> pre.has_queue(id2)
        &&& forall|id2: Seq<char>|
            #![trigger post.queue_of(id2)]
            #![trigger pre.queue_of(id2)]
            pre.has_queue(id2) ==> post.queue_of(id2) == if pre.is_member(topic, id2)
                && !pre.has_callback(id2) {
                pre.queue_of(id2).push((topic, payload))
            } else {
                pre.queue_of(id2)
            }
        &&& forall|k: int| 0 <= k < pushes.len() ==> {
            &&& pre.is_member(topic, (#[trigger] pushes[k]).0)
            &&& pre.has_callback(pushes[k].0)
            &&& pushes[k].1 == pre.callback_context(pushes[k].0)
        }
        &&& forall|id2: Seq<char>|
            pre.is_member(topic, id2) && #[trigger] pre.has_callback(id2) ==> exists|k: int|
                0 <= k < pushes.len() && (#[trigger] pushes[k]).0 == id2
        &&& forall|k1: int, k2: int|
            0 <= k1 < k2 < pushes.len() ==> (#[trigger] pushes[k1]).0 != (#[trigger] pushes[k2]).0
    }
}

/// Everything but `id`'s own queue content agrees between `pre` and `post`.
pub open spec fn only_queue_changed<C>(pre: Broker<C>, post: Broker<C>, id: Seq<char>) -> bool {
    &&& memberships_unchanged(pre, post)
    &&& callbacks_unchanged(pre, post)
    &&& forall|id2: Seq<char>|
        #![trigger post.has_queue(id2)]
        #![trigger pre.has_queue(id2)]
        post.has_queue(id2) <==> pre.has_queue(id2)
    &&& forall|id2: Seq<char>|
        #![trigger post.queue_of(id2)]
        #![trigger pre.queue_of(id2)]
        id2 != id && pre.has_queue(id2) ==> post.queue_of(id2) == pre.queue_of(id2)
}

/// What `get_next_message(id, filter)` returns and removes.  Without a filter
/// it pops the queue head; with one it removes exactly the oldest entry of
/// the filtered topic and leaves the rest of the queue in order.
pub open spec fn get_next_post<C>(
    pre: Broker<C>,
    post: Broker<C>,
    id: Seq<char>,
    filter: Option<Seq<char>>,
    ret: Option<(Seq<char>, Seq<char>)>,
) -> bool {
    if pre.pending(id, filter) {
        &&& only_queue_changed(pre, post, id)
        &&& match filter {
            None => {
                &&& ret == Some(pre.queue_of(id)[0])
                &&& post.queue_of(id) == pre.queue_of(id).drop_first()
            },
            Some(t) => exists|k: int|
                {
                    &&& #[trigger] is_first_match(pre.queue_of(id), t, k)
                    &&& ret == Some(pre.queue_of(id)[k])
                    &&& post.queue_of(id) == pre.queue_of(id).remove(k)
                },
        }
    } else {
        &&& ret is None
        &&& post == pre
    }
}

// ===================== lemmas about the model ==============================

/// The callback entry at a concrete index is the one the lookup sees.
proof fn lemma_cb_at<C>(s: Seq<CallbackEntry<C>>, i: int)
    requires
        uniq_cb(s),
        0 <= i < s.len(),
    ensures
        cb_has(s, s[i].sub@),
        cb_index(s, s[i].sub@) == i,
        cb_at(s, s[i].sub@) == s[i].context,
{
    assert(cb_has(s, s[i].sub@));
    let j = cb_index(s, s[i].sub@);
    assert(0 <= j < s.len() && s[j].sub@ == s[i].sub@);
    if i < j {
        assert(s[i].sub@ != s[j].sub@);
    }
    if j < i {
        assert(s[j].sub@ != s[i].sub@);
    }
}

/// The queue entry at a concrete index is the one the lookup sees.
proof fn lemma_q_at(s: Seq<QueueEntry>, i: int)
    requires
        uniq_q(s),
        0 <= i < s.len(),
    ensures
        q_has(s, s[i].sub@),
        q_index(s, s[i].sub@) == i,
        q_at(s, s[i].sub@) == q_view(s[i].messages@),
{
    assert(q_has(s, s[i].sub@));
    let j = q_index(s, s[i].sub@);
    assert(0 <= j < s.len() && s[j].sub@ == s[i].sub@);
    if i < j {
        assert(s[i].sub@ != s[j].sub@);
    }
    if j < i {
        assert(s[j].sub@ != s[i].sub@);
    }
}

proof fn lemma_tn_push(s: Seq<String>, x: String)
    requires
        uniq_tn(s),
        !tn_has(s, x@),
    ensures
        uniq_tn(s.push(x)),
        tn_has(s.push(x), x@),
        forall|t2: Seq<char>|
            #![trigger tn_has(s.push(x), t2)]
            #![trigger tn_has(s, t2)]
            t2 != x@ ==> (tn_has(s.push(x), t2) <==> tn_has(s, t2)),
{
    let s2 = s.push(x);
    assert(s2[s.len() as int] == x);
    assert forall|i: int, j: int| 0 <= i < j < s2.len() implies s2[i]@ != s2[j]@ by {
        if j == s.len() {
            assert(s2[i] == s[i]);
            if s2[i]@ == x@ {
                assert(tn_has(s, x@));
            }
        }
    }
    assert forall|t2: Seq<char>| t2 != x@ implies (tn_has(s2, t2) <==> tn_has(s, t2)) by {
        if tn_has(s2, t2) {
            let i = choose|i: int| 0 <= i < s2.len() && s2[i]@ == t2;
            assert(i < s.len());
            assert(s[i]@ == t2);
            assert(tn_has(s, t2));
        }
        if tn_has(s, t2) {
            let i = choose|i: int| 0 <= i < s.len() && s[i]@ == t2;
            assert(s2[i]@ == t2);
            assert(tn_has(s2, t2));
        }
    }
}

proof fn lemma_mem_push(s: Seq<Member>, m: Member)
    requires
        uniq_mem(s),
        !mem_has(s, m.topic@, m.sub@),
    ensures
        uniq_mem(s.push(m)),
        mem_has(s.push(m), m.topic@, m.sub@),
        forall|t2: Seq<char>, id2: Seq<char>|
            #![trigger mem_has(s.push(m), t2, id2)]
            #![trigger mem_has(s, t2, id2)]
            !(t2 == m.topic@ && id2 == m.sub@) ==> (mem_has(s.push(m), t2, id2) <==> mem_has(
                s,
                t2,
                id2,
            )),
{
    let s2 = s.push(m);
    assert(s2[s.len() as int] == m);
    assert forall|i: int, j: int| 0 <= i < j < s2.len() implies !(s2[i].topic@ == s2[j].topic@
        && s2[i].sub@ == s2[j].sub@) by {
        if j == s.len() {
            assert(s2[i] == s[i]);
            if s2[i].topic@ == m.topic@ && s2[i].sub@ == m.sub@ {
                assert(mem_has(s, m.topic@, m.sub@));
            }
        }
    }
    assert forall|t2: Seq<char>, id2: Seq<char>| !(t2 == m.topic@ && id2 == m.sub@) implies (
    mem_has(s2, t2, id2) <==> mem_has(s, t2, id2)) by {
        if mem_has(s2, t2, id2) {
            let i = choose|i: int| 0 <= i < s2.len() && s2[i].topic@ == t2 && s2[i].sub@ == id2;
            assert(i < s.len());
            assert(mem_has(s, t2, id2));
        }
        if mem_has(s, t2, id2) {
            let i = choose|i: int| 0 <= i < s.len() && s[i].topic@ == t2 && s[i].sub@ == id2;
            assert(s2[i] == s[i]);
            assert(mem_has(s2, t2, id2));
        }
    }
}

proof fn lemma_mem_remove(s: Seq<Member>, i: int)
    requires
        uniq_mem(s),
        0 <= i < s.len(),
    ensures
        uniq_mem(s.remove(i)),
        !mem_has(s.remove(i), s[i].topic@, s[i].sub@),
        forall|t2: Seq<char>, id2: Seq<char>|
            #![trigger mem_has(s.remove(i), t2, id2)]
            #![trigger mem_has(s, t2, id2)]
            !(t2 == s[i].topic@ && id2 == s[i].sub@) ==> (mem_has(s.remove(i), t2, id2)
                <==> mem_has(s, t2, id2)),
{
    let s2 = s.remove(i);
    assert forall|j: int| 0 <= j < s2.len() implies s2[j] == (if j < i {
        s[j]
    } else {
        s[j + 1]
    }) by {}
    if mem_has(s2, s[i].topic@, s[i].sub@) {
        let j = choose|j: int|
            0 <= j < s2.len() && s2[j].topic@ == s[i].topic@ && s2[j].sub@ == s[i].sub@;
        if j < i {
            assert(!(s[j].topic@ == s[i].topic@ && s[j].sub@ == s[i].sub@));
        } else {
            assert(!(s[i].topic@ == s[j + 1].topic@ && s[i].sub@ == s[j + 1].sub@));
        }
    }
    assert forall|t2: Seq<char>, id2: Seq<char>| !(t2 == s[i].topic@ && id2 == s[i].sub@) implies (
    mem_has(s2, t2, id2) <==> mem_has(s, t2, id2)) by {
        if mem_has(s2, t2, id2) {
            let j = choose|j: int| 0 <= j < s2.len() && s2[j].topic@ == t2 && s2[j].sub@ == id2;
            if j < i {
                assert(s[j].topic@ == t2 && s[j].sub@ == id2);
            } else {
                assert(s[j + 1].topic@ == t2 && s[j + 1].sub@ == id2);
            }
            assert(mem_has(s, t2, id2));
        }
        if mem_has(s, t2, id2) {
            let j = choose|j: int| 0 <= j < s.len() && s[j].topic@ == t2 && s[j].sub@ == id2;
            assert(j != i);
            if j < i {
                assert(s2[j] == s[j]);
            } else {
                assert(s2[j - 1] == s[j]);
            }
            assert(mem_has(s2, t2, id2));
        }
    }
}

proof fn lemma_cb_push<C>(s: Seq<CallbackEntry<C>>, e: CallbackEntry<C>)
    requires
        uniq_cb(s),
        !cb_has(s, e.sub@),
    ensures
        uniq_cb(s.push(e)),
        cb_has(s.push(e), e.sub@),
        cb_at(s.push(e), e.sub@) == e.context,
        forall|id2: Seq<char>|
            #![trigger cb_has(s.push(e), id2)]
            #![trigger cb_has(s, id2)]
            id2 != e.sub@ ==> (cb_has(s.push(e), id2) <==> cb_has(s, id2)),
        forall|id2: Seq<char>|
            #![trigger cb_at(s.push(e), id2)]
            #![trigger cb_at(s, id2)]
            id2 != e.sub@ && cb_has(s, id2) ==> cb_at(s.push(e), id2) == cb_at(s, id2),
{
    let s2 = s.push(e);
    assert(s2[s.len() as int] == e);
    assert forall|i: int, j: int| 0 <= i < j < s2.len() implies s2[i].sub@ != s2[j].sub@ by {
        if j == s.len() {
            assert(s2[i] == s[i]);
            if s2[i].sub@ == e.sub@ {
                assert(cb_has(s, e.sub@));
            }
        }
    }
    lemma_cb_at(s2, s.len() as int);
    assert forall|id2: Seq<char>| id2 != e.sub@ implies (cb_has(s2, id2) <==> cb_has(s, id2)) by {
        if cb_has(s2, id2) {
            let i = choose|i: int| 0 <= i < s2.len() && s2[i].sub@ == id2;
            assert(i < s.len());
            assert(cb_has(s, id2));
        }
        if cb_has(s, id2) {
            let i = choose|i: int| 0 <= i < s.len() && s[i].sub@ == id2;
            assert(s2[i] == s[i]);
            assert(cb_has(s2, id2));
        }
    }
    assert forall|id2: Seq<char>| id2 != e.sub@ && cb_has(s, id2) implies cb_at(s2, id2) == cb_at(
        s,
        id2,
    ) by {
        let i = choose|i: int| 0 <= i < s.len() && s[i].sub@ == id2;
        lemma_cb_at(s, i);
        assert(s2[i] == s[i]);
        lemma_cb_at(s2, i);
    }
}

proof fn lemma_cb_remove<C>(s: Seq<CallbackEntry<C>>, i: int)
    requires
        uniq_cb(s),
        0 <= i < s.len(),
    ensures
        uniq_cb(s.remove(i)),
        !cb_has(s.remove(i), s[i].sub@),
        forall|id2: Seq<char>|
            #![trigger cb_has(s.remove(i), id2)]
            #![trigger cb_has(s, id2)]
            id2 != s[i].sub@ ==> (cb_has(s.remove(i), id2) <==> cb_has(s, id2)),
        forall|id2: Seq<char>|
            #![trigger cb_at(s.remove(i), id2)]
            #![trigger cb_at(s, id2)]
            id2 != s[i].sub@ && cb_has(s, id2) ==> cb_at(s.remove(i), id2) == cb_at(s, id2),
{
    let s2 = s.remove(i);
    if cb_has(s2, s[i].sub@) {
        let j = choose|j: int| 0 <= j < s2.len() && s2[j].sub@ == s[i].sub@;
        if j < i {
            assert(s[j].sub@ != s[i].sub@);
        } else {
            assert(s[i].sub@ != s[j + 1].sub@);
        }
    }
    assert forall|id2: Seq<char>| id2 != s[i].sub@ implies (cb_has(s2, id2) <==> cb_has(
        s,
        id2,
    )) by {
        if cb_has(s2, id2) {
            let j = choose|j: int| 0 <= j < s2.len() && s2[j].sub@ == id2;
            if j < i {
                assert(s[j].sub@ == id2);
            } else {
                assert(s[j + 1].sub@ == id2);
            }
            assert(cb_has(s, id2));
        }
        if cb_has(s, id2) {
            let j = choose|j: int| 0 <= j < s.len() && s[j].sub@ == id2;
            assert(j != i);
            if j < i {
                assert(s2[j] == s[j]);
            } else {
                assert(s2[j - 1] == s[j]);
            }
            assert(cb_has(s2, id2));
        }
    }
    assert forall|id2: Seq<char>| id2 != s[i].sub@ && cb_has(s, id2) implies cb_at(s2, id2)
        == cb_at(s, id2) by {
        let j = choose|j: int| 0 <= j < s.len() && s[j].sub@ == id2;
        lemma_cb_at(s, j);
        assert(j != i);
        if j < i {
            assert(s2[j] == s[j]);
            lemma_cb_at(s2, j);
        } else {
            assert(s2[j - 1] == s[j]);
            lemma_cb_at(s2, j - 1);
        }
    }
}

proof fn lemma_q_push(s: Seq<QueueEntry>, e: QueueEntry)
    requires
        uniq_q(s),
        !q_has(s, e.sub@),
    ensures
        uniq_q(s.push(e)),
        q_has(s.push(e), e.sub@),
        q_at(s.push(e), e.sub@) == q_view(e.messages@),
        forall|id2: Seq<char>|
            #![trigger q_has(s.push(e), id2)]
            #![trigger q_has(s, id2)]
            id2 != e.sub@ ==> (q_has(s.push(e), id2) <==> q_has(s, id2)),
        forall|id2: Seq<char>|
            #![trigger q_at(s.push(e), id2)]
            #![trigger q_at(s, id2)]
            id2 != e.sub@ && q_has(s, id2) ==> q_at(s.push(e), id2) == q_at(s, id2),
{
    let s2 = s.push(e);
    assert(s2[s.len() as int] == e);
    assert forall|i: int, j: int| 0 <= i < j < s2.len() implies s2[i].sub@ != s2[j].sub@ by {
        if j == s.len() {
            assert(s2[i] == s[i]);
            if s2[i].sub@ == e.sub@ {
                assert(q_has(s, e.sub@));
            }
        }
    }
    lemma_q_at(s2, s.len() as int);
    assert forall|id2: Seq<char>| id2 != e.sub@ implies (q_has(s2, id2) <==> q_has(s, id2)) by {
        if q_has(s2, id2) {
            let i = choose|i: int| 0 <= i < s2.len() && s2[i].sub@ == id2;
            assert(i < s.len());
            assert(q_has(s, id2));
        }
        if q_has(s, id2) {
            let i = choose|i: int| 0 <= i < s.len() && s[i].sub@ == id2;
            assert(s2[i] == s[i]);
            assert(q_has(s2, id2));
        }
    }
    assert forall|id2: Seq<char>| id2 != e.sub@ && q_has(s, id2) implies q_at(s2, id2) == q_at(
        s,
        id2,
    ) by {
        let i = choose|i: int| 0 <= i < s.len() && s[i].sub@ == id2;
        lemma_q_at(s, i);
        assert(s2[i] == s[i]);
        lemma_q_at(s2, i);
    }
}

proof fn lemma_q_remove(s: Seq<QueueEntry>, i: int)
    requires
        uniq_q(s),
        0 <= i < s.len(),
    ensures
        uniq_q(s.remove(i)),
        !q_has(s.remove(i), s[i].sub@),
        forall|id2: Seq<char>|
            #![trigger q_has(s.remove(i), id2)]
            #![trigger q_has(s, id2)]
            id2 != s[i].sub@ ==> (q_has(s.remove(i), id2) <==> q_has(s, id2)),
        forall|id2: Seq<char>|
            #![trigger q_at(s.remove(i), id2)]
            #![trigger q_at(s, id2)]
            id2 != s[i].sub@ && q_has(s, id2) ==> q_at(s.remove(i), id2) == q_at(s, id2),
{
    let s2 = s.remove(i);
    if q_has(s2, s[i].sub@) {
        let j = choose|j: int| 0 <= j < s2.len() && s2[j].sub@ == s[i].sub@;
        if j < i {
            assert(s[j].sub@ != s[i].sub@);
        } else {
            assert(s[i].sub@ != s[j + 1].sub@);
        }
    }
    assert forall|id2: Seq<char>| id2 != s[i].sub@ implies (q_has(s2, id2) <==> q_has(s, id2)) by {
        if q_has(s2, id2) {
            let j = choose|j: int| 0 <= j < s2.len() && s2[j].sub@ == id2;
            if j < i {
                assert(s[j].sub@ == id2);
            } else {
                assert(s[j + 1].sub@ == id2);
            }
            assert(q_has(s, id2));
        }
        if q_has(s, id2) {
            let j = choose|j: int| 0 <= j < s.len() && s[j].sub@ == id2;
            assert(j != i);
            if j < i {
                assert(s2[j] == s[j]);
            } else {
                assert(s2[j - 1] == s[j]);
            }
            assert(q_has(s2, id2));
        }
    }
    assert forall|id2: Seq<char>| id2 != s[i].sub@ && q_has(s, id2) implies q_at(s2, id2) == q_at(
        s,
        id2,
    ) by {
        let j = choose|j: int| 0 <= j < s.len() && s[j].sub@ == id2;
        lemma_q_at(s, j);
        assert(j != i);
        if j < i {
            assert(s2[j] == s[j]);
            lemma_q_at(s2, j);
        } else {
            assert(s2[j - 1] == s[j]);
            lemma_q_at(s2, j - 1);
        }
    }
}

/// Replacing the messages of the entry at index `i`, keeping its subscriber.
proof fn lemma_q_update(s: Seq<QueueEntry>, i: int, e: QueueEntry)
    requires
        uniq_q(s),
        0 <= i < s.len(),
        e.sub@ == s[i].sub@,
    ensures
        uniq_q(s.update(i, e)),
        q_has(s.update(i, e), e.sub@),
        q_at(s.update(i, e), e.sub@) == q_view(e.messages@),
        forall|id2: Seq<char>|
            #![trigger q_has(s.update(i, e), id2)]
            #![trigger q_has(s, id2)]
            q_has(s.update(i, e), id2) <==> q_has(s, id2),
        forall|id2: Seq<char>|
            #![trigger q_at(s.update(i, e), id2)]
            #![trigger q_at(s, id2)]
            id2 != e.sub@ && q_has(s, id2) ==> q_at(s.update(i, e), id2) == q_at(s, id2),
{
    let s2 = s.update(i, e);
    assert(s2[i] == e);
    assert forall|k: int, j: int| 0 <= k < j < s2.len() implies s2[k].sub@ != s2[j].sub@ by {
        assert(s[k].sub@ != s[j].sub@);
    }
    lemma_q_at(s2, i);
    assert forall|id2: Seq<char>| (q_has(s2, id2) <==> q_has(s, id2)) by {
        if q_has(s2, id2) {
            let j = choose|j: int| 0 <= j < s2.len() && s2[j].sub@ == id2;
            assert(s[j].sub@ == id2);
            assert(q_has(s, id2));
        }
        if q_has(s, id2) {
            let j = choose|j: int| 0 <= j < s.len() && s[j].sub@ == id2;
            assert(s2[j].sub@ == id2);
            assert(q_has(s2, id2));
        }
    }
    assert forall|id2: Seq<char>| id2 != e.sub@ && q_has(s, id2) implies q_at(s2, id2) == q_at(
        s,
        id2,
    ) by {
        let j = choose|j: int| 0 <= j < s.len() && s[j].sub@ == id2;
        lemma_q_at(s, j);
        assert(j != i);
        assert(s2[j] == s[j]);
        lemma_q_at(s2, j);
    }
}

proof fn lemma_q_view_push(ms: Seq<Message>, m: Message)
    ensures
        q_view(ms.push(m)) == q_view(ms).push(m@),
{
    assert(q_view(ms.push(m)) =~= q_view(ms).push(m@));
}

proof fn lemma_q_view_remove(ms: Seq<Message>, k: int)
    requires
        0 <= k < ms.len(),
    ensures
        q_view(ms.remove(k)) == q_view(ms).remove(k),
{
    assert(q_view(ms.remove(k)) =~= q_view(ms).remove(k));
}

// ===================== the operations ======================================

impl<C: Copy> Broker<C> {
    /// A broker with no topics, no subscribers, no callbacks and no queues.
    pub fn new() -> (b: Broker<C>)
        ensures
            b.wf(),
            forall|t: Seq<char>| !(#[trigger] b.has_topic(t)),
            forall|t: Seq<char>, id: Seq<char>| !(#[trigger] b.is_member(t, id)),
            forall|id: Seq<char>| !(#[trigger] b.has_callback(id)),
            forall|id: Seq<char>| !(#[trigger] b.has_queue(id)),
    {
        Broker {
            topic_names: Vec::new(),
            members: Vec::new(),
            callbacks: Vec::new(),
            queues: Vec::new(),
        }
    }

    fn topic_registered(&self, topic: &String) -> (r: bool)
        ensures
            r == self.has_topic(topic@),
    {
        let mut i: usize = 0;
        #[verifier::loop_isolation(false)]
        while i < self.topic_names.len()
            invariant
                i <= self.topic_names@.len(),
                forall|k: int| 0 <= k < i ==> self.topic_names@[k]@ != topic@,
            decreases self.topic_names@.len() - i,
        {
            if self.topic_names[i] == *topic {
                assert(tn_has(self.topic_names@, topic@));
                return true;
            }
            i += 1;
        }
        assert forall|k: int| 0 <= k < self.topic_names@.len() implies self.topic_names@[k]@
            != topic@ by {}
        false
    }

    fn find_member(&self, topic: &String, id: &String) -> (r: Option<usize>)
        ensures
            match r {
                Some(i) => i < self.members@.len() && self.members@[i as int].topic@ == topic@
                    && self.members@[i as int].sub@ == id@ && self.is_member(topic@, id@),
                None => !self.is_member(topic@, id@),
            },
    {
        let mut i: usize = 0;
        #[verifier::loop_isolation(false)]
        while i < self.members.len()
            invariant
                i <= self.members@.len(),
                forall|k: int|
                    0 <= k < i ==> !(self.members@[k].topic@ == topic@ && self.members@[k].sub@
                        == id@),
            decreases self.members@.len() - i,
        {
            if self.members[i].topic == *topic && self.members[i].sub == *id {
                assert(mem_has(self.members@, topic@, id@));
                return Some(i);
            }
            i += 1;
        }
        None
    }

    fn find_callback(&self, id: &String) -> (r: Option<usize>)
        ensures
            match r {
                Some(i) => i < self.callbacks@.len() && self.callbacks@[i as int].sub@ == id@
                    && self.has_callback(id@),
                None => !self.has_callback(id@),
            },
    {
        let mut i: usize = 0;
        #[verifier::loop_isolation(false)]
        while i < self.callbacks.len()
            invariant
                i <= self.callbacks@.len(),
                forall|k: int| 0 <= k < i ==> self.callbacks@[k].sub@ != id@,
            decreases self.callbacks@.len() - i,
        {
            if self.callbacks[i].sub == *id {
                assert(cb_has(self.callbacks@, id@));
                return Some(i);
            }
            i += 1;
        }
        None
    }

    fn find_queue(&self, id: &String) -> (r: Option<usize>)
        ensures
            match r {
                Some(i) => i < self.queues@.len() && self.queues@[i as int].sub@ == id@
                    && self.has_queue(id@),
                None => !self.has_queue(id@),
            },
    {
        let mut i: usize = 0;
        #[verifier::loop_isolation(false)]
        while i < self.queues.len()
            invariant
                i <= self.queues@.len(),
                forall|k: int| 0 <= k < i ==> self.queues@[k].sub@ != id@,
            decreases self.queues@.len() - i,
        {
            if self.queues[i].sub == *id {
                assert(q_has(self.queues@, id@));
                return Some(i);
            }
            i += 1;
        }
        None
    }

    /// Register `subscriber_id` to `topic`.  With a callback value the
    /// subscriber is put (or kept) in push mode, the new value replacing any
    /// earlier one; without one it is given a pull queue if it has none yet.
    /// Re-subscribing to a topic it already belongs to changes nothing there.
    #[verifier::spinoff_prover]
    pub fn subscribe(&mut self, subscriber_id: &str, topic: &str, callback: Option<C>) -> (r: bool)
        requires
            old(self).wf(),
        ensures
            final(self).wf(),
            subscribe_post(*old(self), *final(self), subscriber_id@, topic@, callback, r),
    {
        if subscriber_id.is_empty() || topic.is_empty() {
            return false;
        }
        let id_s = String::from_str(subscriber_id);
        let topic_s = String::from_str(topic);

        // The topic exists from the first subscription to it onward.
        if !self.topic_registered(&topic_s) {
            let ghost tn0 = self.topic_names@;
            self.topic_names.push(topic_s.clone());
            proof {
                lemma_tn_push(tn0, self.topic_names@[tn0.len() as int]);
            }
        }

        // Membership is idempotent: only a new (topic, subscriber) pair is added.
        if self.find_member(&topic_s, &id_s).is_none() {
            let ghost ms0 = self.members@;
            self.members.push(Member { topic: topic_s.clone(), sub: id_s.clone() });
            proof {
                lemma_mem_push(ms0, self.members@[ms0.len() as int]);
            }
        }

        match callback {
            Some(c) => {
                // Last write wins: drop any earlier registration, then record
                // the new value.  An existing pull queue is left in place.
                match self.find_callback(&id_s) {
                    Some(ci) => {
                        proof {
                            lemma_cb_remove(self.callbacks@, ci as int);
                        }
                        self.callbacks.remove(ci);
                    },
                    None => {},
                }
                let ghost cbs0 = self.callbacks@;
                self.callbacks.push(CallbackEntry { sub: id_s.clone(), context: c });
                proof {
                    lemma_cb_push(cbs0, self.callbacks@[cbs0.len() as int]);
                }
            },
            None => {
                // Pull mode: make sure a queue exists, keeping any pending
                // messages an existing one holds.
                if self.find_queue(&id_s).is_none() {
                    let ghost qs0 = self.queues@;
                    self.queues.push(QueueEntry { sub: id_s.clone(), messages: Vec::new() });
                    proof {
                        lemma_q_push(qs0, self.queues@[qs0.len() as int]);
                        assert(q_view(Seq::<Message>::empty())
                            =~= Seq::<(Seq<char>, Seq<char>)>::empty());
                    }
                }
            },
        }
        true
    }

    /// Drop `subscriber_id`'s membership in `topic`, or, without a topic,
    /// tear the subscriber down entirely: every membership, its callback
    /// registration, and its queue.  Unsubscribing from a topic never joined
    /// is a silent no-op, not a failure.
    #[verifier::spinoff_prover]
    pub fn unsubscribe(&mut self, subscriber_id: &str, topic: Option<&str>) -> (r: bool)
        requires
            old(self).wf(),
        ensures
            final(self).wf(),
            unsubscribe_post(*old(self), *final(self), subscriber_id@, opt_str_view(topic), r),
    {
        if subscriber_id.is_empty() {
            return false;
        }
        let id_s = String::from_str(subscriber_id);

        match topic {
            Some(t) => {
                let topic_s = String::from_str(t);
                match self.find_member(&topic_s, &id_s) {
                    Some(mi) => {
                        proof {
                            lemma_mem_remove(self.members@, mi as int);
                        }
                        self.members.remove(mi);
                    },
                    None => {},
                }
            },
            None => {
                // Leave every topic's subscriber set.
                let mut i: usize = 0;
                #[verifier::loop_isolation(false)]
                while i < self.members.len()
                    invariant
                        i <= self.members@.len(),
                        uniq_mem(self.members@),
                        self.topic_names == old(self).topic_names,
                        self.callbacks == old(self).callbacks,
                        self.queues == old(self).queues,
                        forall|k: int| 0 <= k < i ==> self.members@[k].sub@ != id_s@,
                        forall|t2: Seq<char>, id2: Seq<char>|
                            #![trigger mem_has(self.members@, t2, id2)]
                            #![trigger mem_has(old(self).members@, t2, id2)]
                            id2 != id_s@ ==> (mem_has(self.members@, t2, id2) <==> mem_has(
                                old(self).members@,
                                t2,
                                id2,
                            )),
                    decreases self.members@.len() - i,
                {
                    if self.members[i].sub == id_s {
                        proof {
                            lemma_mem_remove(self.members@, i as int);
                        }
                        self.members.remove(i);
                    } else {
                        i += 1;
                    }
                }
                assert forall|t2: Seq<char>| !(#[trigger] mem_has(self.members@, t2, id_s@)) by {
                    if mem_has(self.members@, t2, id_s@) {
                        let k = choose|k: int|
                            0 <= k < self.members@.len() && self.members@[k].topic@ == t2
                                && self.members@[k].sub@ == id_s@;
                    }
                }

                // Drop the callback registration, if any.
                match self.find_callback(&id_s) {
                    Some(ci) => {
                        proof {
                            lemma_cb_remove(self.callbacks@, ci as int);
                        }
                        self.callbacks.remove(ci);
                    },
                    None => {},
                }

                // Drop the queue, pending messages included.
                match self.find_queue(&id_s) {
                    Some(qi) => {
                        proof {
                            lemma_q_remove(self.queues@, qi as int);
                        }
                        self.queues.remove(qi);
                    },
                    None => {},
                }
            },
        }
        true
    }

    /// The current subscriber set of `topic`, each member once.
    #[verifier::spinoff_prover]
    fn collect_members(&self, topic: &String) -> (r: Vec<String>)
        requires
            self.wf(),
        ensures
            forall|j: int|
                0 <= j < r@.len() ==> mem_has(self.members@, topic@, #[trigger] r@[j]@),
            forall|j1: int, j2: int| 0 <= j1 < j2 < r@.len() ==> r@[j1]@ != r@[j2]@,
            forall|id2: Seq<char>| #[trigger]
                mem_has(self.members@, topic@, id2) ==> exists|j: int|
                    0 <= j < r@.len() && (#[trigger] r@[j]@) == id2,
    {
        let mut snapshot: Vec<String> = Vec::new();
        let ghost mut wit: Seq<int> = Seq::empty();
        let mut i: usize = 0;
        #[verifier::loop_isolation(false)]
        while i < self.members.len()
            invariant
                i <= self.members@.len(),
                wit.len() == snapshot@.len(),
                forall|j: int|
                    #![trigger wit[j]]
                    #![trigger snapshot@[j]@]
                    0 <= j < wit.len() ==> 0 <= wit[j] < i
                        && self.members@[wit[j]].topic@ == topic@ && self.members@[wit[j]].sub@
                        == snapshot@[j]@,
                forall|j1: int, j2: int| 0 <= j1 < j2 < wit.len() ==> wit[j1] < wit[j2],
                forall|k: int|
                    0 <= k < i && (#[trigger] self.members@[k].topic@) == topic@ ==> exists|j: int|
                        0 <= j < snapshot@.len() && (#[trigger] snapshot@[j]@)
                            == self.members@[k].sub@,
            decreases self.members@.len() - i,
        {
            if self.members[i].topic == *topic {
                let ghost snap0 = snapshot@;
                let ghost w0 = wit;
                snapshot.push(self.members[i].sub.clone());
                proof {
                    wit = wit.push(i as int);
                    assert(snapshot@[snap0.len() as int]@ == self.members@[i as int].sub@);
                    assert forall|j: int|
                        #![trigger wit[j]]
                        #![trigger snapshot@[j]@]
                        0 <= j < wit.len() implies 0 <= wit[j] < i + 1
                        && self.members@[wit[j]].topic@ == topic@ && self.members@[wit[j]].sub@
                        == snapshot@[j]@ by {
                        if j < snap0.len() {
                            assert(wit[j] == w0[j]);
                            assert(snapshot@[j] == snap0[j]);
                            assert(0 <= w0[j] < i && self.members@[w0[j]].topic@ == topic@
                                && self.members@[w0[j]].sub@ == snap0[j]@);
                        } else {
                            assert(wit[j] == i as int);
                        }
                    }
                    assert forall|k: int| 0 <= k < i + 1 && (#[trigger] self.members@[k].topic@)
                        == topic@ implies exists|j: int|
                        0 <= j < snapshot@.len() && (#[trigger] snapshot@[j]@)
                            == self.members@[k].sub@ by {
                        if k < i {
                            let j0 = choose|j0: int|
                                0 <= j0 < snap0.len() && (#[trigger] snap0[j0]@)
                                    == self.members@[k].sub@;
                            assert(snapshot@[j0]@ == self.members@[k].sub@);
                        } else {
                            assert(snapshot@[snap0.len() as int]@ == self.members@[k].sub@);
                        }
                    }
                }
            }
            i += 1;
        }
        proof {
            assert forall|j: int| 0 <= j < snapshot@.len() implies mem_has(
                self.members@,
                topic@,
                #[trigger] snapshot@[j]@,
            ) by {
                assert(0 <= wit[j] < self.members@.len() && self.members@[wit[j]].topic@ == topic@
                    && self.members@[wit[j]].sub@ == snapshot@[j]@);
            }
            assert forall|j1: int, j2: int| 0 <= j1 < j2 < snapshot@.len() implies snapshot@[j1]@
                != snapshot@[j2]@ by {
                if snapshot@[j1]@ == snapshot@[j2]@ {
                    assert(wit[j1] < wit[j2]);
                    assert(!(self.members@[wit[j1]].topic@ == self.members@[wit[j2]].topic@
                        && self.members@[wit[j1]].sub@ == self.members@[wit[j2]].sub@));
                }
            }
            assert forall|id2: Seq<char>| #[trigger]
                mem_has(self.members@, topic@, id2) implies exists|j: int|
                0 <= j < snapshot@.len() && (#[trigger] snapshot@[j]@) == id2 by {
                let k = choose|k: int|
                    0 <= k < self.members@.len() && self.members@[k].topic@ == topic@
                        && self.members@[k].sub@ == id2;
            }
        }
        snapshot
    }

    /// Deliver one published message to one subscriber: a callback holder is
    /// owed a push delivery, anyone else with a queue gets the message
    /// appended, and a subscriber with neither is skipped.
    #[verifier::spinoff_prover]
    fn deliver_one(&mut self, sub: &String, topic_s: &String, payload_s: &String) -> (r: Option<
        PushDelivery<C>,
    >)
        requires
            old(self).wf(),
        ensures
            final(self).wf(),
            final(self).topic_names == old(self).topic_names,
            final(self).members == old(self).members,
            final(self).callbacks == old(self).callbacks,
            match r {
                Some(p) => {
                    &&& cb_has(old(self).callbacks@, sub@)
                    &&& p.subscriber@ == sub@
                    &&& p.context == cb_at(old(self).callbacks@, sub@)
                    &&& final(self).queues == old(self).queues
                },
                None => {
                    &&& !cb_has(old(self).callbacks@, sub@)
                    &&& forall|id2: Seq<char>|
                        #![trigger q_has(final(self).queues@, id2)]
                        #![trigger q_has(old(self).queues@, id2)]
                        q_has(final(self).queues@, id2) <==> q_has(old(self).queues@, id2)
                    &&& forall|id2: Seq<char>|
                        #![trigger q_at(final(self).queues@, id2)]
                        #![trigger q_at(old(self).queues@, id2)]
                        q_has(old(self).queues@, id2) ==> q_at(final(self).queues@, id2) == if id2
                            == sub@ {
                            q_at(old(self).queues@, id2).push((topic_s@, payload_s@))
                        } else {
                            q_at(old(self).queues@, id2)
                        }
                },
            },
    {
        match self.find_callback(sub) {
            Some(ci) => {
                proof {
                    lemma_cb_at(self.callbacks@, ci as int);
                }
                let context = self.callbacks[ci].context;
                Some(PushDelivery { subscriber: sub.clone(), context })
            },
            None => {
                match self.find_queue(sub) {
                    Some(qi) => {
                        let ghost qs0 = self.queues@;
                        let ghost ms0 = self.queues@[qi as int].messages@;
                        proof {
                            lemma_q_at(qs0, qi as int);
                        }
                        self.queues[qi].messages.push(
                            Message { topic: topic_s.clone(), payload: payload_s.clone() },
                        );
                        proof {
                            let e = self.queues@[qi as int];
                            assert(self.queues@ == qs0.update(qi as int, e));
                            lemma_q_update(qs0, qi as int, e);
                            lemma_q_view_push(ms0, e.messages@[ms0.len() as int]);
                        }
                    },
                    None => {},
                }
                None
            },
        }
    }

    /// Broadcast `payload` on `topic`.  Reports failure for an empty topic
    /// name or one never subscribed to, with no state change.  Otherwise every
    /// current member with a callback registration is owed one push delivery,
    /// returned to the caller to invoke, and every other member with a queue
    /// gets the message appended; a member with neither is skipped.
    #[verifier::spinoff_prover]
    #[verifier::rlimit(100)]
    pub fn publish(&mut self, topic: &str, payload: &str) -> (r: (bool, Vec<PushDelivery<C>>))
        requires
            old(self).wf(),
        ensures
            final(self).wf(),
            publish_post(
                *old(self),
                *final(self),
                topic@,
                payload@,
                r.0,
                deliveries_view(r.1@),
            ),
    {
        let ghost pre = *old(self);
        if topic.is_empty() {
            let r = (false, Vec::new());
            assert(deliveries_view(r.1@) =~= Seq::<(Seq<char>, C)>::empty());
            return r;
        }
        let topic_s = String::from_str(topic);
        let payload_s = String::from_str(payload);
        if !self.topic_registered(&topic_s) {
            let r = (false, Vec::new());
            assert(deliveries_view(r.1@) =~= Seq::<(Seq<char>, C)>::empty());
            return r;
        }

        // Snapshot the topic's current subscriber set, then fan the message
        // out to each member once.
        let snapshot = self.collect_members(&topic_s);
        let mut pushes: Vec<PushDelivery<C>> = Vec::new();
        let mut si: usize = 0;
        #[verifier::loop_isolation(false)]
        while si < snapshot.len()
            invariant
                si <= snapshot@.len(),
                self.topic_names == pre.topic_names,
                self.members == pre.members,
                self.callbacks == pre.callbacks,
                self.wf(),
                forall|id2: Seq<char>|
                    #![trigger q_has(self.queues@, id2)]
                    #![trigger q_has(pre.queues@, id2)]
                    q_has(self.queues@, id2) <==> q_has(pre.queues@, id2),
                forall|id2: Seq<char>|
                    #![trigger q_at(self.queues@, id2)]
                    #![trigger q_at(pre.queues@, id2)]
                    q_has(pre.queues@, id2) ==> q_at(self.queues@, id2) == if (exists|j: int|
                        0 <= j < si && (#[trigger] snapshot@[j]@) == id2) && !cb_has(
                        pre.callbacks@,
                        id2,
                    ) {
                        q_at(pre.queues@, id2).push((topic@, payload@))
                    } else {
                        q_at(pre.queues@, id2)
                    },
                forall|k: int| 0 <= k < pushes@.len() ==> {
                    &&& mem_has(pre.members@, topic@, (#[trigger] pushes@[k]).subscriber@)
                    &&& cb_has(pre.callbacks@, pushes@[k].subscriber@)
                    &&& pushes@[k].context == cb_at(pre.callbacks@, pushes@[k].subscriber@)
                },
                forall|k1: int, k2: int|
                    0 <= k1 < k2 < pushes@.len() ==> (#[trigger] pushes@[k1]).subscriber@ != (
                    #[trigger] pushes@[k2]).subscriber@,
                forall|k: int|
                    0 <= k < pushes@.len() ==> exists|j: int|
                        0 <= j < si && (#[trigger] snapshot@[j]@) == (
                        #[trigger] pushes@[k]).subscriber@,
                forall|j: int|
                    0 <= j < si && cb_has(pre.callbacks@, #[trigger] snapshot@[j]@) ==> exists|
                        k: int,
                    |
                        0 <= k < pushes@.len() && (#[trigger] pushes@[k]).subscriber@
                            == snapshot@[j]@,
            decreases snapshot@.len() - si,
        {
            let ghost sv = snapshot@[si as int]@;
            proof {
                assert(!(exists|j: int| 0 <= j < si && (#[trigger] snapshot@[j]@) == sv));
            }
            match self.deliver_one(&snapshot[si], &topic_s, &payload_s) {
                Some(p) => {
                    let ghost ps0 = pushes@;
                    proof {
                        assert(mem_has(pre.members@, topic@, sv));
                        assert forall|k: int| 0 <= k < ps0.len() implies (
                        #[trigger] ps0[k]).subscriber@ != sv by {
                            let j = choose|j: int|
                                0 <= j < si && snapshot@[j]@ == ps0[k].subscriber@;
                        }
                    }
                    pushes.push(p);
                    proof {
                        let ps1 = pushes@;
                        assert(ps1[ps0.len() as int].subscriber@ == sv);
                        assert forall|k: int| 0 <= k < ps1.len() implies exists|j: int|
                            0 <= j < si + 1 && (#[trigger] snapshot@[j]@) == (
                            #[trigger] ps1[k]).subscriber@ by {
                            if k < ps0.len() {
                                assert(ps1[k] == ps0[k]);
                                let j0 = choose|j0: int|
                                    0 <= j0 < si && snapshot@[j0]@ == ps0[k].subscriber@;
                                assert(0 <= j0 < si + 1 && snapshot@[j0]@ == ps1[k].subscriber@);
                            } else {
                                assert(0 <= si < si + 1 && snapshot@[si as int]@
                                    == ps1[k].subscriber@);
                            }
                        }
                        assert forall|j: int| 0 <= j < si + 1 && cb_has(
                            pre.callbacks@,
                            #[trigger] snapshot@[j]@,
                        ) implies exists|k: int|
                            0 <= k < ps1.len() && (#[trigger] ps1[k]).subscriber@
                                == snapshot@[j]@ by {
                            if j < si {
                                let k0 = choose|k0: int|
                                    0 <= k0 < ps0.len() && ps0[k0].subscriber@ == snapshot@[j]@;
                                assert(ps1[k0] == ps0[k0]);
                                assert(ps1[k0].subscriber@ == snapshot@[j]@);
                            } else {
                                assert(ps1[ps0.len() as int].subscriber@ == snapshot@[j]@);
                            }
                        }
                    }
                },
                None => {},
            }
            si += 1;
        }
        proof {
            // A subscriber is in the snapshot exactly when it is a member.
            assert forall|id2: Seq<char>| #[trigger]
                q_has(pre.queues@, id2) implies q_at(self.queues@, id2) == (
            if mem_has(pre.members@, topic@, id2) && !cb_has(pre.callbacks@, id2) {
                q_at(pre.queues@, id2).push((topic@, payload@))
            } else {
                q_at(pre.queues@, id2)
            }) by {
                if mem_has(pre.members@, topic@, id2) {
                    let j = choose|j: int| 0 <= j < snapshot@.len() && snapshot@[j]@ == id2;
                    assert(exists|j2: int|
                        0 <= j2 < snapshot@.len() && (#[trigger] snapshot@[j2]@) == id2);
                } else {
                    if exists|j: int| 0 <= j < snapshot@.len() && (#[trigger] snapshot@[j]@)
                        == id2 {
                        let j = choose|j: int| 0 <= j < snapshot@.len() && snapshot@[j]@ == id2;
                        assert(mem_has(pre.members@, topic@, snapshot@[j]@));
                    }
                }
            }
            assert forall|k: int| 0 <= k < deliveries_view(pushes@).len() implies (
            #[trigger] deliveries_view(pushes@)[k]) == (
                pushes@[k].subscriber@,
                pushes@[k].context,
            ) by {}
            assert forall|id2: Seq<char>|
                mem_has(pre.members@, topic@, id2) && #[trigger] cb_has(
                    pre.callbacks@,
                    id2,
                ) implies exists|k: int|
                0 <= k < deliveries_view(pushes@).len() && (#[trigger] deliveries_view(
                    pushes@,
                )[k]).0 == id2 by {
                let j = choose|j: int| 0 <= j < snapshot@.len() && snapshot@[j]@ == id2;
                let k0 = choose|k0: int|
                    0 <= k0 < pushes@.len() && pushes@[k0].subscriber@ == snapshot@[j]@;
                assert(deliveries_view(pushes@)[k0].0 == id2);
            }
            assert forall|k1: int, k2: int|
                0 <= k1 < k2 < deliveries_view(pushes@).len() implies (
            #[trigger] deliveries_view(pushes@)[k1]).0 != (#[trigger] deliveries_view(
                pushes@,
            )[k2]).0 by {
                assert(pushes@[k1].subscriber@ != pushes@[k2].subscriber@);
            }
        }
        (true, pushes)
    }

    /// Retrieve and remove one pending message of `subscriber_id`'s queue:
    /// the head, or, with a topic filter, the oldest entry of that topic,
    /// leaving the rest of the queue in order.  Yields nothing when the
    /// subscriber has no queue or no (matching) pending message.
    #[verifier::spinoff_prover]
    pub fn get_next_message(&mut self, subscriber_id: &str, topic: Option<&str>) -> (r: Option<
        Message,
    >)
        requires
            old(self).wf(),
        ensures
            final(self).wf(),
            get_next_post(
                *old(self),
                *final(self),
                subscriber_id@,
                opt_str_view(topic),
                opt_msg_view(r),
            ),
    {
        let id_s = String::from_str(subscriber_id);
        let qi = match self.find_queue(&id_s) {
            Some(qi) => qi,
            None => {
                return None;
            },
        };
        proof {
            lemma_q_at(self.queues@, qi as int);
        }
        match topic {
            None => {
                if self.queues[qi].messages.len() == 0 {
                    return None;
                }
                let ghost qs0 = self.queues@;
                let ghost ms0 = self.queues@[qi as int].messages@;
                let m = self.queues[qi].messages.remove(0);
                proof {
                    let e = self.queues@[qi as int];
                    assert(self.queues@ == qs0.update(qi as int, e));
                    lemma_q_update(qs0, qi as int, e);
                    lemma_q_view_remove(ms0, 0);
                    assert(q_view(ms0).remove(0) =~= q_view(ms0).drop_first());
                }
                Some(m)
            },
            Some(t) => {
                let topic_s = String::from_str(t);
                let n = self.queues[qi].messages.len();
                let mut k: usize = 0;
                #[verifier::loop_isolation(false)]
                while k < n
                    invariant
                        k <= n,
                        *self == *old(self),
                        qi < self.queues@.len(),
                        self.queues@[qi as int].sub@ == subscriber_id@,
                        n == self.queues@[qi as int].messages@.len(),
                        forall|j: int|
                            0 <= j < k ==> (#[trigger] self.queues@[qi as int].messages@[j]).topic@
                                != topic_s@,
                    decreases n - k,
                {
                    if self.queues[qi].messages[k].topic == topic_s {
                        let ghost qs0 = self.queues@;
                        let ghost ms0 = self.queues@[qi as int].messages@;
                        proof {
                            assert(is_first_match(q_view(ms0), topic_s@, k as int));
                        }
                        let m = self.queues[qi].messages.remove(k);
                        proof {
                            let e = self.queues@[qi as int];
                            assert(self.queues@ == qs0.update(qi as int, e));
                            lemma_q_update(qs0, qi as int, e);
                            lemma_q_view_remove(ms0, k as int);
                        }
                        return Some(m);
                    }
                    k += 1;
                }
                proof {
                    assert forall|j: int| 0 <= j < q_view(
                        self.queues@[qi as int].messages@,
                    ).len() implies (#[trigger] q_view(self.queues@[qi as int].messages@)[j]).0
                        != topic_s@ by {}
                    assert(!has_match(q_view(self.queues@[qi as int].messages@), topic_s@));
                }
                None
            },
        }
    }

    /// Report whether `subscriber_id` has any pending message, or, with a
    /// topic filter, any pending message of that topic.  Non-destructive: the
    /// queue is not changed.  A subscriber without a queue has none.
    #[verifier::spinoff_prover]
    pub fn has_messages(&self, subscriber_id: &str, topic: Option<&str>) -> (r: bool)
        requires
            self.wf(),
        ensures
            r == self.pending(subscriber_id@, opt_str_view(topic)),
    {
        let id_s = String::from_str(subscriber_id);
        let qi = match self.find_queue(&id_s) {
            Some(qi) => qi,
            None => {
                return false;
            },
        };
        proof {
            lemma_q_at(self.queues@, qi as int);
        }
        match topic {
            None => self.queues[qi].messages.len() > 0,
            Some(t) => {
                let topic_s = String::from_str(t);
                let n = self.queues[qi].messages.len();
                let mut k: usize = 0;
                #[verifier::loop_isolation(false)]
                while k < n
                    invariant
                        k <= n,
                        forall|j: int|
                            0 <= j < k ==> (#[trigger] self.queues@[qi as int].messages@[j]).topic@
                                != topic_s@,
                    decreases n - k,
                {
                    if self.queues[qi].messages[k].topic == topic_s {
                        assert(q_view(self.queues@[qi as int].messages@)[k as int].0 == topic_s@);
                        return true;
                    }
                    k += 1;
                }
                proof {
                    assert forall|j: int| 0 <= j < q_view(
                        self.queues@[qi as int].messages@,
                    ).len() implies (#[trigger] q_view(self.queues@[qi as int].messages@)[j]).0
                        != topic_s@ by {}
                }
                false
            },
        }
    }
}

} // verus!
