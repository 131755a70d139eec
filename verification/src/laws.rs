//! Laws the broker obeys, stated over the operations' postcondition
//! relations and proved once for every broker state they admit.

use vstd::prelude::*;
use crate::broker::{
    Broker, get_next_post, has_match, is_first_match, publish_post, subscribe_post,
    unsubscribe_post,
};

verus! {

/// A subscriber that starts with no queue and no callback and subscribes to a
/// topic in pull mode has nothing pending for that topic; after one publish
/// to the topic it has exactly that message pending, and a filtered retrieval
/// returns exactly it once, after which nothing is pending again.
pub proof fn law_fresh_pull_subscriber_round_trip<C>(
    b0: Broker<C>,
    b1: Broker<C>,
    b2: Broker<C>,
    b3: Broker<C>,
    id: Seq<char>,
    topic: Seq<char>,
    payload: Seq<char>,
    pushes: Seq<(Seq<char>, C)>,
    ret: Option<(Seq<char>, Seq<char>)>,
)
    requires
        !b0.has_queue(id),
        !b0.has_callback(id),
        subscribe_post(b0, b1, id, topic, Option::<C>::None, true),
        publish_post(b1, b2, topic, payload, true, pushes),
        get_next_post(b2, b3, id, Some(topic), ret),
    ensures
        !b1.pending(id, Some(topic)),
        b2.pending(id, Some(topic)),
        b2.queue_of(id) == Seq::<(Seq<char>, Seq<char>)>::empty().push((topic, payload)),
        ret == Some((topic, payload)),
        !b3.pending(id, Some(topic)),
{
    assert(b1.queue_of(id) == Seq::<(Seq<char>, Seq<char>)>::empty());
    assert(!b1.has_callback(id));
    assert(b1.has_queue(id));
    assert(b1.is_member(topic, id));
    let q = b2.queue_of(id);
    assert(q == b1.queue_of(id).push((topic, payload)));
    assert(q.len() == 1);
    assert(q[0] == (topic, payload));
    assert(has_match(q, topic));
    assert(b2.pending(id, Some(topic)));
    let k = choose|k: int|
        {
            &&& #[trigger] is_first_match(b2.queue_of(id), topic, k)
            &&& ret == Some(b2.queue_of(id)[k])
            &&& b3.queue_of(id) == b2.queue_of(id).remove(k)
        };
    assert(k == 0);
    assert(ret == Some((topic, payload)));
    assert(b3.queue_of(id).len() == 0);
    assert(!has_match(b3.queue_of(id), topic));
}

/// Two publishes to the same topic reach a queue-mode member of that topic
/// in publish order: the queue grows by the first message, then the second.
pub proof fn law_fifo_per_topic<C>(
    b0: Broker<C>,
    b1: Broker<C>,
    b2: Broker<C>,
    topic: Seq<char>,
    m1: Seq<char>,
    m2: Seq<char>,
    id: Seq<char>,
    p1: Seq<(Seq<char>, C)>,
    p2: Seq<(Seq<char>, C)>,
)
    requires
        b0.is_member(topic, id),
        !b0.has_callback(id),
        b0.has_queue(id),
        publish_post(b0, b1, topic, m1, true, p1),
        publish_post(b1, b2, topic, m2, true, p2),
    ensures
        b2.queue_of(id) == b0.queue_of(id).push((topic, m1)).push((topic, m2)),
{
    assert(b1.is_member(topic, id));
    assert(!b1.has_callback(id));
    assert(b1.has_queue(id));
    assert(b1.queue_of(id) == b0.queue_of(id).push((topic, m1)));
}

/// A filtered retrieval removes exactly the oldest entry of the filtered
/// topic and leaves the remaining entries in their relative order.
pub proof fn law_filtered_retrieval_keeps_order<C>(
    b0: Broker<C>,
    b1: Broker<C>,
    id: Seq<char>,
    t: Seq<char>,
    qa: Seq<(Seq<char>, Seq<char>)>,
    qb: Seq<(Seq<char>, Seq<char>)>,
    m: (Seq<char>, Seq<char>),
    ret: Option<(Seq<char>, Seq<char>)>,
)
    requires
        b0.has_queue(id),
        b0.queue_of(id) == qa.push(m) + qb,
        forall|j: int| 0 <= j < qa.len() ==> (#[trigger] qa[j]).0 != t,
        m.0 == t,
        get_next_post(b0, b1, id, Some(t), ret),
    ensures
        ret == Some(m),
        b1.queue_of(id) == qa + qb,
{
    let q = b0.queue_of(id);
    assert(q[qa.len() as int] == m);
    assert(has_match(q, t));
    assert(b0.pending(id, Some(t)));
    let k = choose|k: int|
        {
            &&& #[trigger] is_first_match(b0.queue_of(id), t, k)
            &&& ret == Some(b0.queue_of(id)[k])
            &&& b1.queue_of(id) == b0.queue_of(id).remove(k)
        };
    if k < qa.len() {
        assert(q[k] == qa[k]);
        assert(false);
    }
    if k > qa.len() {
        assert(q[qa.len() as int].0 != t);
        assert(false);
    }
    assert(k == qa.len());
    assert(q.remove(qa.len() as int) =~= qa + qb);
}

/// Unsubscribing from one topic leaves membership in every other topic, and
/// with it delivery, untouched: a later publish to the other topic still
/// reaches the subscriber's queue, one to the dropped topic no longer does.
pub proof fn law_partial_unsubscribe_keeps_other_topics<C>(
    b0: Broker<C>,
    b1: Broker<C>,
    id: Seq<char>,
    t1: Seq<char>,
    t2: Seq<char>,
    m: Seq<char>,
    b2a: Broker<C>,
    pa: Seq<(Seq<char>, C)>,
    b2b: Broker<C>,
    pb: Seq<(Seq<char>, C)>,
)
    requires
        unsubscribe_post(b0, b1, id, Some(t1), true),
        t1 != t2,
        b0.is_member(t2, id),
        !b0.has_callback(id),
        b0.has_queue(id),
        publish_post(b1, b2a, t2, m, true, pa),
        publish_post(b1, b2b, t1, m, true, pb),
    ensures
        b1.is_member(t2, id),
        !b1.is_member(t1, id),
        b2a.queue_of(id) == b1.queue_of(id).push((t2, m)),
        b2b.queue_of(id) == b1.queue_of(id),
{
    assert(!b1.has_callback(id));
    assert(b1.has_queue(id));
}

/// A full unsubscribe removes the subscriber from every topic and drops its
/// queue: nothing is pending afterwards, and a later publish neither queues
/// for it nor owes it a push delivery.
pub proof fn law_full_unsubscribe_clears_subscriber<C>(
    b0: Broker<C>,
    b1: Broker<C>,
    id: Seq<char>,
    t: Seq<char>,
    m: Seq<char>,
    r2: bool,
    b2: Broker<C>,
    pushes: Seq<(Seq<char>, C)>,
)
    requires
        unsubscribe_post(b0, b1, id, Option::<Seq<char>>::None, true),
        publish_post(b1, b2, t, m, r2, pushes),
    ensures
        forall|t2: Seq<char>| !(#[trigger] b1.is_member(t2, id)),
        !b1.has_queue(id),
        !b1.pending(id, Option::<Seq<char>>::None),
        !b2.has_queue(id),
        forall|k: int| 0 <= k < pushes.len() ==> (#[trigger] pushes[k]).0 != id,
{
    if r2 {
        assert forall|k: int| 0 <= k < pushes.len() implies (#[trigger] pushes[k]).0 != id by {
            assert(b1.is_member(t, pushes[k].0));
        }
    }
}

/// Publishing to a topic no subscriber ever registered to reports failure
/// and changes nothing.
pub proof fn law_publish_unknown_topic_no_effect<C>(
    b0: Broker<C>,
    b1: Broker<C>,
    t: Seq<char>,
    m: Seq<char>,
    r: bool,
    pushes: Seq<(Seq<char>, C)>,
)
    requires
        publish_post(b0, b1, t, m, r, pushes),
        !b0.has_topic(t),
    ensures
        !r,
        b1 == b0,
        pushes.len() == 0,
{
}

/// Serialized publishes to two distinct topics, observed by two queue-mode
/// subscribers each belonging to one of them, land exactly one message in
/// each observer's queue and touch no bystander's queue: nothing is lost,
/// duplicated or misdelivered.
pub proof fn law_disjoint_publishes_do_not_interfere<C>(
    b0: Broker<C>,
    b1: Broker<C>,
    b2: Broker<C>,
    t1: Seq<char>,
    m1: Seq<char>,
    p1: Seq<(Seq<char>, C)>,
    t2: Seq<char>,
    m2: Seq<char>,
    p2: Seq<(Seq<char>, C)>,
    id1: Seq<char>,
    id2: Seq<char>,
)
    requires
        publish_post(b0, b1, t1, m1, true, p1),
        publish_post(b1, b2, t2, m2, true, p2),
        b0.is_member(t1, id1),
        !b0.is_member(t2, id1),
        !b0.has_callback(id1),
        b0.has_queue(id1),
        b0.is_member(t2, id2),
        !b0.is_member(t1, id2),
        !b0.has_callback(id2),
        b0.has_queue(id2),
    ensures
        b2.queue_of(id1) == b0.queue_of(id1).push((t1, m1)),
        b2.queue_of(id2) == b0.queue_of(id2).push((t2, m2)),
        forall|id3: Seq<char>|
            b0.has_queue(id3) && !b0.is_member(t1, id3) && !b0.is_member(t2, id3)
                ==> #[trigger] b2.queue_of(id3) == b0.queue_of(id3),
{
    assert(b1.queue_of(id1) == b0.queue_of(id1).push((t1, m1)));
    assert(b1.queue_of(id2) == b0.queue_of(id2));
    assert(b1.is_member(t2, id2));
    assert(!b1.has_callback(id2));
    assert(b1.has_queue(id2));
    assert(!b1.is_member(t2, id1));
    assert(b1.has_queue(id1));
    assert(b2.queue_of(id1) == b1.queue_of(id1));
    assert forall|id3: Seq<char>|
        b0.has_queue(id3) && !b0.is_member(t1, id3) && !b0.is_member(t2, id3) implies #[trigger]
        b2.queue_of(id3) == b0.queue_of(id3) by {
        assert(b1.has_queue(id3));
        assert(b1.queue_of(id3) == b0.queue_of(id3));
        assert(!b1.is_member(t2, id3));
        assert(b2.queue_of(id3) == b1.queue_of(id3));
    }
}

} // verus!
