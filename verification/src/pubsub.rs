//! The pub/sub relay: a subscriber registry with topic routing and
//! per-subscriber in-memory queues.
//!
//! Delivery is at most once per subscriber and topic, in publish order; a
//! subscriber of two matching topics receives two messages carrying the same
//! payload under different topics. Database-namespaced topics are formed as
//! `database_name || 0x00 || topic`.

use vstd::prelude::*;

use crate::byteorder::{bytes_clone, bytes_eq};
use crate::storage::keys_view;
use vstd::string::StringSliceAdditionalSpecFns;

verus! {

/// One delivered pub/sub message.
#[derive(Debug)]
pub struct Message {
    pub topic: Vec<u8>,
    pub payload: Vec<u8>,
}

/// The mathematical value of a `Message`.
#[verifier::ext_equal]
pub struct MessageV {
    pub topic: Seq<u8>,
    pub payload: Seq<u8>,
}

impl View for Message {
    type V = MessageV;

    open spec fn view(&self) -> MessageV {
        MessageV { topic: self.topic@, payload: self.payload@ }
    }
}

impl Clone for Message {
    fn clone(&self) -> (r: Self)
        ensures
            r@ == self@,
    {
        Message { topic: bytes_clone(&self.topic), payload: bytes_clone(&self.payload) }
    }
}

/// One registered subscriber: its id, the topics it subscribed to, and its
/// queue of undelivered messages.
#[derive(Debug)]
pub struct SubscriberState {
    pub id: u64,
    pub topics: Vec<Vec<u8>>,
    pub queue: Vec<Message>,
}

/// The mathematical value of a subscriber: id, subscribed topics, queue.
#[verifier::ext_equal]
pub struct SubscriberV {
    pub id: u64,
    pub topics: Seq<Seq<u8>>,
    pub queue: Seq<MessageV>,
}

impl View for SubscriberState {
    type V = SubscriberV;

    open spec fn view(&self) -> SubscriberV {
        SubscriberV {
            id: self.id,
            topics: keys_view(self.topics@),
            queue: self.queue@.map_values(|m: Message| m@),
        }
    }
}

/// The relay: all live subscribers.
#[derive(Debug)]
pub struct Relay {
    pub subscribers: Vec<SubscriberState>,
    pub next_id: u64,
}

/// The views of the subscriber list.
pub open spec fn subscribers_view(s: Seq<SubscriberState>) -> Seq<SubscriberV> {
    s.map_values(|x: SubscriberState| x@)
}

/// The subscriber with this id, if registered: the first carrying the id.
pub open spec fn find_subscriber(s: Seq<SubscriberV>, id: u64) -> Option<SubscriberV>
    decreases s.len(),
{
    if s.len() == 0 {
        None
    } else if s[0].id == id {
        Some(s[0])
    } else {
        find_subscriber(s.drop_first(), id)
    }
}

impl View for Relay {
    type V = Seq<SubscriberV>;

    open spec fn view(&self) -> Seq<SubscriberV> {
        subscribers_view(self.subscribers@)
    }
}

/// When no subscriber carries the id, the lookup comes back empty.
proof fn lemma_find_subscriber_none(s: Seq<SubscriberV>, id: u64)
    requires
        forall|j: int| 0 <= j < s.len() ==> (#[trigger] s[j].id) != id,
    ensures
        find_subscriber(s, id) is None,
    decreases s.len(),
{
    if s.len() > 0 {
        assert(forall|j: int|
            0 <= j < s.drop_first().len() ==> (#[trigger] s.drop_first()[j].id) != id);
        lemma_find_subscriber_none(s.drop_first(), id);
    }
}

/// When position `i` holds the first subscriber carrying the id, the lookup
/// returns it.
proof fn lemma_find_subscriber_at(s: Seq<SubscriberV>, id: u64, i: int)
    requires
        0 <= i < s.len(),
        s[i].id == id,
        forall|j: int| 0 <= j < i ==> (#[trigger] s[j].id) != id,
    ensures
        find_subscriber(s, id) == Some(s[i]),
    decreases i,
{
    if i > 0 {
        assert(forall|j: int| 0 <= j < i - 1 ==> (#[trigger] s.drop_first()[j].id) == s[j + 1].id);
        lemma_find_subscriber_at(s.drop_first(), id, i - 1);
    }
}

/// The queue after a payload is delivered once per topic of `topics` that
/// `subscribed` holds, in the order the topics are given.
pub open spec fn queue_after_publishes(
    q: Seq<MessageV>,
    subscribed: Seq<Seq<u8>>,
    topics: Seq<Seq<u8>>,
    payload: Seq<u8>,
) -> Seq<MessageV>
    decreases topics.len(),
{
    if topics.len() == 0 {
        q
    } else {
        let prev = queue_after_publishes(q, subscribed, topics.drop_last(), payload);
        if subscribed.contains(topics.last()) {
            prev.push(MessageV { topic: topics.last(), payload })
        } else {
            prev
        }
    }
}

impl Relay {
    /// Subscriber ids are distinct and below the generator.
    pub open spec fn wf(&self) -> bool {
        &&& forall|i: int, j: int| 0 <= i < j < self@.len() ==> self@[i].id != self@[j].id
        &&& forall|i: int| 0 <= i < self@.len() ==> (#[trigger] self@[i].id) < self.next_id
    }

    /// Creates an empty relay.
    pub fn new() -> (r: Self)
        ensures
            r.wf(),
            r@ =~= Seq::<SubscriberV>::empty(),
            r.next_id == 0,
    {
        let r = Relay { subscribers: Vec::new(), next_id: 0 };
        proof {
            assert(r@ =~= Seq::<SubscriberV>::empty());
        }
        r
    }

    /// The position of the subscriber with this id, if registered.
    fn index_of(&self, id: u64) -> (r: Option<usize>)
        ensures
            match r {
                Some(i) => 0 <= i < self@.len() && self@[i as int].id == id && find_subscriber(
                    self@,
                    id,
                ) == Some(self@[i as int]),
                None => find_subscriber(self@, id) is None,
            },
    {
        let mut i: usize = 0;
        let n: usize = self.subscribers.len();
        proof {
            assert(self@.len() == self.subscribers@.len());
        }
        while i < n
            invariant
                0 <= i <= n,
                n == self@.len(),
                self@.len() == self.subscribers@.len(),
                forall|j: int| 0 <= j < i ==> (#[trigger] self@[j].id) != id,
            decreases n - i,
        {
            proof {
                assert(self@[i as int] == self.subscribers@[i as int]@);
            }
            if self.subscribers[i].id == id {
                proof {
                    lemma_find_subscriber_at(self@, id, i as int);
                }
                return Some(i);
            }
            i += 1;
        }
        proof {
            lemma_find_subscriber_none(self@, id);
        }
        None
    }

    /// Registers a new subscriber with no topics and an empty queue, and
    /// hands its id out. Fails only when the id space is exhausted.
    pub fn create_subscriber(&mut self) -> (r: Result<u64, crate::error::Error>)
        requires
            old(self).wf(),
        ensures
            final(self).wf(),
            match r {
                Ok(id) => {
                    &&& id == old(self).next_id
                    &&& final(self)@ =~= old(self)@.push(
                        SubscriberV { id, topics: Seq::empty(), queue: Seq::empty() },
                    )
                },
                Err(e) => old(self).next_id == u64::MAX && final(self)@ == old(self)@
                    && e is Storage,
            },
    {
        if self.next_id == u64::MAX {
            return Err(crate::error::Error::Storage("subscriber id space exhausted".to_owned()));
        }
        let id = self.next_id;
        self.next_id = self.next_id + 1;
        let sub = SubscriberState { id, topics: Vec::new(), queue: Vec::new() };
        proof {
            assert(sub@ =~= (SubscriberV { id, topics: Seq::empty(), queue: Seq::empty() }));
        }
        self.subscribers.push(sub);
        proof {
            assert(self@ =~= old(self)@.push(
                SubscriberV { id, topics: Seq::empty(), queue: Seq::empty() },
            ));
        }
        Ok(id)
    }

    /// Subscribes `id` to `topic`; idempotent, and a no-op for an
    /// unregistered id.
    pub fn subscribe_to_bytes(&mut self, id: u64, topic: Vec<u8>)
        requires
            old(self).wf(),
        ensures
            final(self).wf(),
            final(self)@.len() == old(self)@.len(),
            forall|j: int|
                0 <= j < old(self)@.len() && (#[trigger] old(self)@[j].id) != id ==> final(self)@[j]
                    == old(self)@[j],
            forall|j: int|
                0 <= j < old(self)@.len() && (#[trigger] old(self)@[j].id) == id ==> final(self)@[j].id == id && final(self)@[j].queue == old(self)@[j].queue && (forall|t: Seq<u8>|
                    #[trigger] final(self)@[j].topics.contains(t) == (old(self)@[j].topics.contains(t) || t == topic@)),
    {
        let ghost old_view = self@;
        match self.index_of(id) {
            Some(i) => {
                let present = topics_contain(&self.subscribers[i].topics, &topic);
                if !present {
                    let ghost old_sub = self@[i as int];
                    let ghost tv = topic@;
                    let sub = &mut self.subscribers[i];
                    sub.topics.push(topic);
                    proof {
                        assert(self@.len() == old_view.len());
                        assert forall|j: int|
                            0 <= j < old_view.len() && j != i implies self@[j] == old_view[j] by {
                            assert(self@[j] == self.subscribers@[j]@);
                        }
                        let nt = self@[i as int].topics;
                        let ot = old_sub.topics;
                        assert(nt =~= ot.push(tv));
                        assert(self@[i as int].queue =~= old_sub.queue);
                        assert(self@[i as int].id == old_sub.id);
                        assert forall|t: Seq<u8>| #[trigger]
                            nt.contains(t) == (ot.contains(t) || t == tv) by {
                            if nt.contains(t) {
                                let j = choose|j: int| 0 <= j < nt.len() && nt[j] == t;
                                if j < ot.len() {
                                    assert(ot[j] == t);
                                }
                            }
                            if ot.contains(t) {
                                let j = choose|j: int| 0 <= j < ot.len() && ot[j] == t;
                                assert(nt[j] == t);
                            }
                            if t == tv {
                                assert(nt[nt.len() - 1] == t);
                            }
                        }
                        assert(self.wf()) by {
                            assert(forall|j: int|
                                0 <= j < self@.len() ==> (#[trigger] self@[j].id)
                                    == old_view[j].id);
                        }
                    }
                }
            },
            None => {
                proof {
                    assert forall|j: int|
                        0 <= j < old_view.len() && (#[trigger] old_view[j].id) == id implies false by {
                        lemma_find_subscriber_present(old_view, id, j);
                    }
                }
            },
        }
    }

    /// Removes the subscription of `id` to `topic`; a no-op when absent.
    pub fn unsubscribe_from_bytes(&mut self, id: u64, topic: &Vec<u8>)
        requires
            old(self).wf(),
        ensures
            final(self).wf(),
            final(self)@.len() == old(self)@.len(),
            forall|j: int|
                0 <= j < old(self)@.len() && (#[trigger] old(self)@[j].id) != id ==> final(self)@[j]
                    == old(self)@[j],
            forall|j: int|
                0 <= j < old(self)@.len() && (#[trigger] old(self)@[j].id) == id ==> final(self)@[j].id == id && final(self)@[j].queue == old(self)@[j].queue && (forall|t: Seq<u8>|
                    #[trigger] final(self)@[j].topics.contains(t) == (old(self)@[j].topics.contains(t) && t != topic@)),
    {
        let ghost old_view = self@;
        match self.index_of(id) {
            Some(i) => {
                let ghost old_sub = self@[i as int];
                let filtered = topics_without(&self.subscribers[i].topics, topic);
                let sub = &mut self.subscribers[i];
                sub.topics = filtered;
                proof {
                    assert(self@.len() == old_view.len());
                    assert forall|j: int|
                        0 <= j < old_view.len() && j != i implies self@[j] == old_view[j] by {
                        assert(self@[j] == self.subscribers@[j]@);
                    }
                    assert(self@[i as int].queue =~= old_sub.queue);
                    assert(self@[i as int].id == old_sub.id);
                    assert(self.wf()) by {
                        assert(forall|j: int|
                            0 <= j < self@.len() ==> (#[trigger] self@[j].id) == old_view[j].id);
                    }
                }
            },
            None => {
                proof {
                    assert forall|j: int|
                        0 <= j < old_view.len() && (#[trigger] old_view[j].id) == id implies false by {
                        lemma_find_subscriber_present(old_view, id, j);
                    }
                }
            },
        }
    }

    /// Drops the subscriber and its queue; a no-op for an unregistered id.
    pub fn unregister(&mut self, id: u64)
        requires
            old(self).wf(),
        ensures
            final(self).wf(),
            forall|x: u64|
                x != id ==> #[trigger] find_subscriber(final(self)@, x) == find_subscriber(
                    old(self)@,
                    x,
                ),
            find_subscriber(final(self)@, id) is None,
    {
        let ghost old_view = self@;
        match self.index_of(id) {
            Some(i) => {
                self.subscribers.remove(i);
                proof {
                    let s = self@;
                    assert(s =~= old_view.take(i as int) + old_view.skip(i as int + 1));
                    assert(self.wf()) by {
                        assert forall|a: int, b: int| 0 <= a < b < s.len() implies s[a].id
                            != s[b].id by {
                            let oa = if a < i {
                                a
                            } else {
                                a + 1
                            };
                            let ob = if b < i {
                                b
                            } else {
                                b + 1
                            };
                            assert(s[a] == old_view[oa] && s[b] == old_view[ob]);
                        }
                        assert forall|a: int| 0 <= a < s.len() implies (#[trigger] s[a].id)
                            < self.next_id by {
                            let oa = if a < i {
                                a
                            } else {
                                a + 1
                            };
                            assert(s[a] == old_view[oa]);
                        }
                    }
                    assert forall|j: int| 0 <= j < s.len() implies (#[trigger] s[j].id) != id by {
                        let oj = if j < i {
                            j
                        } else {
                            j + 1
                        };
                        assert(s[j] == old_view[oj]);
                    }
                    lemma_find_subscriber_none(s, id);
                    assert forall|x: u64| x != id implies #[trigger] find_subscriber(s, x)
                        == find_subscriber(old_view, x) by {
                        lemma_find_subscriber_removed(s, old_view, x, i as int);
                    }
                }
            },
            None => {
                proof {
                    assert(forall|x: u64| #[trigger]
                        find_subscriber(self@, x) == find_subscriber(old_view, x));
                }
            },
        }
    }

    /// Delivers `payload` under `topic`: every subscriber of the topic gets
    /// one message appended to its queue; everyone else is untouched.
    pub fn publish_bytes(&mut self, topic: &Vec<u8>, payload: &Vec<u8>)
        requires
            old(self).wf(),
        ensures
            final(self).wf(),
            final(self)@.len() == old(self)@.len(),
            forall|j: int|
                0 <= j < old(self)@.len() ==> (#[trigger] final(self)@[j]) == (SubscriberV {
                    id: old(self)@[j].id,
                    topics: old(self)@[j].topics,
                    queue: if old(self)@[j].topics.contains(topic@) {
                        old(self)@[j].queue.push(MessageV { topic: topic@, payload: payload@ })
                    } else {
                        old(self)@[j].queue
                    },
                }),
    {
        let ghost old_view = self@;
        let mut i: usize = 0;
        let n: usize = self.subscribers.len();
        proof {
            assert(self@.len() == self.subscribers@.len());
        }
        while i < n
            invariant
                0 <= i <= n,
                n == old_view.len(),
                self@.len() == old_view.len(),
                self@.len() == self.subscribers@.len(),
                self.next_id == old(self).next_id,
                forall|j: int| i <= j < old_view.len() ==> (#[trigger] self@[j]) == old_view[j],
                forall|j: int|
                    0 <= j < i ==> (#[trigger] self@[j]) == (SubscriberV {
                        id: old_view[j].id,
                        topics: old_view[j].topics,
                        queue: if old_view[j].topics.contains(topic@) {
                            old_view[j].queue.push(MessageV { topic: topic@, payload: payload@ })
                        } else {
                            old_view[j].queue
                        },
                    }),
            decreases n - i,
        {
            proof {
                assert(self@[i as int] == self.subscribers@[i as int]@);
            }
            let ghost pre = self@;
            let subscribed = topics_contain(&self.subscribers[i].topics, topic);
            proof {
                assert(subscribed == old_view[i as int].topics.contains(topic@));
            }
            if subscribed {
                let msg = Message { topic: bytes_clone(topic), payload: bytes_clone(payload) };
                let sub = &mut self.subscribers[i];
                sub.queue.push(msg);
                proof {
                    assert(self@.len() == pre.len());
                    assert forall|j: int|
                        0 <= j < pre.len() && j != i implies self@[j] == pre[j] by {
                        assert(self@[j] == self.subscribers@[j]@);
                    }
                    assert(self@[i as int].queue =~= pre[i as int].queue.push(
                        MessageV { topic: topic@, payload: payload@ },
                    ));
                    assert(self@[i as int].topics =~= pre[i as int].topics);
                    assert(self@[i as int].id == pre[i as int].id);
                    assert(self@[i as int] =~= (SubscriberV {
                        id: old_view[i as int].id,
                        topics: old_view[i as int].topics,
                        queue: old_view[i as int].queue.push(
                            MessageV { topic: topic@, payload: payload@ },
                        ),
                    }));
                }
            } else {
                proof {
                    assert(self@[i as int] =~= (SubscriberV {
                        id: old_view[i as int].id,
                        topics: old_view[i as int].topics,
                        queue: old_view[i as int].queue,
                    }));
                }
            }
            proof {
                assert forall|j: int| i + 1 <= j < old_view.len() implies (#[trigger] self@[j])
                    == old_view[j] by {
                    assert(self@[j] == pre[j]);
                    assert(pre[j] == old_view[j]);
                }
                assert forall|j: int| 0 <= j < i + 1 implies (#[trigger] self@[j]) == (SubscriberV {
                    id: old_view[j].id,
                    topics: old_view[j].topics,
                    queue: if old_view[j].topics.contains(topic@) {
                        old_view[j].queue.push(MessageV { topic: topic@, payload: payload@ })
                    } else {
                        old_view[j].queue
                    },
                }) by {
                    if j < i {
                        assert(self@[j] == pre[j]);
                    }
                }
            }
            i += 1;
        }
        proof {
            assert(self.wf()) by {
                assert(forall|j: int|
                    0 <= j < self@.len() ==> (#[trigger] self@[j].id) == old_view[j].id);
            }
        }
    }

    /// Delivers `payload` once per subscriber and matching topic, in the
    /// order the topics are given: each subscriber's queue is extended by
    /// one message per given topic it holds.
    pub fn publish_bytes_to_all(&mut self, topics: &Vec<Vec<u8>>, payload: &Vec<u8>)
        requires
            old(self).wf(),
        ensures
            final(self).wf(),
            final(self)@.len() == old(self)@.len(),
            forall|j: int|
                0 <= j < old(self)@.len() ==> (#[trigger] final(self)@[j]) == (SubscriberV {
                    id: old(self)@[j].id,
                    topics: old(self)@[j].topics,
                    queue: queue_after_publishes(
                        old(self)@[j].queue,
                        old(self)@[j].topics,
                        keys_view(topics@),
                        payload@,
                    ),
                }),
    {
        let ghost kv = keys_view(topics@);
        let mut t: usize = 0;
        proof {
            assert forall|j: int| 0 <= j < old(self)@.len() implies (#[trigger] self@[j])
                == (SubscriberV {
                id: old(self)@[j].id,
                topics: old(self)@[j].topics,
                queue: queue_after_publishes(
                    old(self)@[j].queue,
                    old(self)@[j].topics,
                    kv.take(0),
                    payload@,
                ),
            }) by {
                assert(kv.take(0).len() == 0);
                assert(self@[j] =~= (SubscriberV {
                    id: old(self)@[j].id,
                    topics: old(self)@[j].topics,
                    queue: old(self)@[j].queue,
                }));
            }
        }
        while t < topics.len()
            invariant
                self.wf(),
                kv == keys_view(topics@),
                kv.len() == topics@.len(),
                0 <= t <= topics@.len(),
                self@.len() == old(self)@.len(),
                forall|j: int|
                    0 <= j < old(self)@.len() ==> (#[trigger] self@[j]) == (SubscriberV {
                        id: old(self)@[j].id,
                        topics: old(self)@[j].topics,
                        queue: queue_after_publishes(
                            old(self)@[j].queue,
                            old(self)@[j].topics,
                            kv.take(t as int),
                            payload@,
                        ),
                    }),
            decreases topics@.len() - t,
        {
            let ghost pre = self@;
            proof {
                assert(kv[t as int] == topics@[t as int]@);
                assert(kv.take(t + 1 as int).drop_last() =~= kv.take(t as int));
                assert(kv.take(t + 1 as int).last() == kv[t as int]);
            }
            self.publish_bytes(&topics[t], payload);
            proof {
                assert forall|j: int| 0 <= j < old(self)@.len() implies (#[trigger] self@[j])
                    == (SubscriberV {
                    id: old(self)@[j].id,
                    topics: old(self)@[j].topics,
                    queue: queue_after_publishes(
                        old(self)@[j].queue,
                        old(self)@[j].topics,
                        kv.take(t + 1 as int),
                        payload@,
                    ),
                }) by {
                    assert(self@[j] == (SubscriberV {
                        id: pre[j].id,
                        topics: pre[j].topics,
                        queue: if pre[j].topics.contains(kv[t as int]) {
                            pre[j].queue.push(
                                MessageV { topic: kv[t as int], payload: payload@ },
                            )
                        } else {
                            pre[j].queue
                        },
                    }));
                }
            }
            t += 1;
        }
        proof {
            assert(kv.take(topics@.len() as int) =~= kv);
        }
    }

    /// Pops the oldest undelivered message of subscriber `id`.
    pub fn try_receive(&mut self, id: u64) -> (r: Option<Message>)
        requires
            old(self).wf(),
        ensures
            final(self).wf(),
            final(self)@.len() == old(self)@.len(),
            forall|j: int|
                0 <= j < old(self)@.len() && (#[trigger] old(self)@[j].id) != id ==> final(self)@[j]
                    == old(self)@[j],
            forall|j: int|
                0 <= j < old(self)@.len() && (#[trigger] old(self)@[j].id) == id ==> match r {
                    Some(m) => old(self)@[j].queue.len() > 0 && m@ == old(self)@[j].queue[0]
                        && final(self)@[j] == (SubscriberV {
                        id: old(self)@[j].id,
                        topics: old(self)@[j].topics,
                        queue: old(self)@[j].queue.drop_first(),
                    }),
                    None => old(self)@[j].queue.len() == 0 && final(self)@[j] == old(self)@[j],
                },
            r is Some ==> exists|j: int|
                0 <= j < old(self)@.len() && (#[trigger] old(self)@[j].id) == id,
    {
        let ghost old_view = self@;
        match self.index_of(id) {
            Some(i) => {
                if self.subscribers[i].queue.len() == 0 {
                    proof {
                        assert forall|j: int|
                            0 <= j < old_view.len() && (#[trigger] old_view[j].id) == id implies j
                            == i by {
                            if j != i {
                                assert(old_view[i as int].id == old_view[j].id);
                            }
                        }
                    }
                    return None;
                }
                let ghost before = self@[i as int];
                let sub = &mut self.subscribers[i];
                let first = sub.queue.remove(0);
                proof {
                    assert(self@.len() == old_view.len());
                    assert forall|j: int|
                        0 <= j < old_view.len() && j != i implies self@[j] == old_view[j] by {
                        assert(self@[j] == self.subscribers@[j]@);
                    }
                    assert(self@[i as int].queue =~= before.queue.drop_first());
                    assert(self@[i as int] =~= (SubscriberV {
                        id: before.id,
                        topics: before.topics,
                        queue: before.queue.drop_first(),
                    }));
                    assert forall|j: int|
                        0 <= j < old_view.len() && (#[trigger] old_view[j].id) == id implies j
                        == i by {
                        if j != i {
                            assert(old_view[i as int].id == old_view[j].id);
                        }
                    }
                    assert(self.wf()) by {
                        assert(forall|j: int|
                            0 <= j < self@.len() ==> (#[trigger] self@[j].id) == old_view[j].id);
                    }
                }
                Some(first)
            },
            None => {
                proof {
                    assert forall|j: int|
                        0 <= j < old_view.len() && (#[trigger] old_view[j].id) == id implies false by {
                        lemma_find_subscriber_present(old_view, id, j);
                    }
                }
                None
            },
        }
    }
}

/// A position carrying the id means the lookup succeeds.
proof fn lemma_find_subscriber_present(s: Seq<SubscriberV>, id: u64, i: int)
    requires
        0 <= i < s.len(),
        s[i].id == id,
    ensures
        find_subscriber(s, id) is Some,
    decreases i,
{
    if i > 0 && s[0].id != id {
        assert(s.drop_first()[i - 1].id == id);
        lemma_find_subscriber_present(s.drop_first(), id, i - 1);
    }
}

/// Removing the subscriber at one position, whose id is not `x`, does not
/// change the lookup of `x`.
proof fn lemma_find_subscriber_removed(s: Seq<SubscriberV>, old_view: Seq<SubscriberV>, x: u64, i: int)
    requires
        0 <= i < old_view.len(),
        old_view[i].id != x,
        s =~= old_view.take(i) + old_view.skip(i + 1),
    ensures
        find_subscriber(s, x) == find_subscriber(old_view, x),
{
    lemma_find_subscriber_append(old_view.take(i), old_view.skip(i + 1), x);
    lemma_find_subscriber_append(old_view.take(i), old_view.skip(i), x);
    assert(old_view.take(i) + old_view.skip(i) =~= old_view);
    assert(old_view.skip(i).drop_first() =~= old_view.skip(i + 1));
    assert(old_view.skip(i)[0] == old_view[i]);
}

/// Looking an id up in a concatenation looks it up on the left first.
proof fn lemma_find_subscriber_append(a: Seq<SubscriberV>, b: Seq<SubscriberV>, id: u64)
    ensures
        find_subscriber(a + b, id) == match find_subscriber(a, id) {
            Some(x) => Some(x),
            None => find_subscriber(b, id),
        },
    decreases a.len(),
{
    if a.len() == 0 {
        assert(a + b =~= b);
    } else {
        assert((a + b).drop_first() =~= a.drop_first() + b);
        lemma_find_subscriber_append(a.drop_first(), b, id);
    }
}

/// Checks whether a topic list holds `topic`.
fn topics_contain(topics: &Vec<Vec<u8>>, topic: &Vec<u8>) -> (r: bool)
    ensures
        r == keys_view(topics@).contains(topic@),
{
    let ghost tv = keys_view(topics@);
    let mut i: usize = 0;
    while i < topics.len()
        invariant
            0 <= i <= topics@.len(),
            tv == keys_view(topics@),
            tv.len() == topics@.len(),
            forall|j: int| 0 <= j < i ==> (#[trigger] tv[j]) != topic@,
        decreases topics@.len() - i,
    {
        proof {
            assert(tv[i as int] == topics@[i as int]@);
        }
        if bytes_eq(&topics[i], topic) {
            return true;
        }
        i += 1;
    }
    false
}

/// Copies a topic list without every occurrence of `topic`.
fn topics_without(topics: &Vec<Vec<u8>>, topic: &Vec<u8>) -> (r: Vec<Vec<u8>>)
    ensures
        forall|t: Seq<u8>| #[trigger]
            keys_view(r@).contains(t) == (keys_view(topics@).contains(t) && t != topic@),
{
    let ghost tv = keys_view(topics@);
    let mut r: Vec<Vec<u8>> = Vec::new();
    let mut i: usize = 0;
    while i < topics.len()
        invariant
            0 <= i <= topics@.len(),
            tv == keys_view(topics@),
            tv.len() == topics@.len(),
            forall|t: Seq<u8>| #[trigger]
                keys_view(r@).contains(t) == (tv.take(i as int).contains(t) && t != topic@),
        decreases topics@.len() - i,
    {
        proof {
            assert(tv[i as int] == topics@[i as int]@);
        }
        let keep = !bytes_eq(&topics[i], topic);
        let ghost old_rv = keys_view(r@);
        if keep {
            r.push(bytes_clone(&topics[i]));
        }
        proof {
            let rv = keys_view(r@);
            if keep {
                assert(rv =~= old_rv.push(tv[i as int]));
            } else {
                assert(rv =~= old_rv);
            }
            assert forall|t: Seq<u8>| #[trigger]
                rv.contains(t) == (tv.take(i + 1 as int).contains(t) && t != topic@) by {
                if rv.contains(t) {
                    let j = choose|j: int| 0 <= j < rv.len() && rv[j] == t;
                    if j < old_rv.len() {
                        assert(old_rv[j] == t);
                        assert(old_rv.contains(t));
                        let w = choose|w: int|
                            0 <= w < i && (#[trigger] tv.take(i as int)[w]) == t;
                        assert(tv.take(i + 1 as int)[w] == t);
                    } else {
                        assert(t == tv[i as int]);
                        assert(tv.take(i + 1 as int)[i as int] == t);
                    }
                }
                if tv.take(i + 1 as int).contains(t) && t != topic@ {
                    let w = choose|w: int| 0 <= w <= i && (#[trigger] tv.take(i + 1 as int)[w]) == t;
                    if w < i {
                        assert(tv.take(i as int)[w] == t);
                        assert(tv.take(i as int).contains(t));
                        assert(old_rv.contains(t));
                        let j = choose|j: int| 0 <= j < old_rv.len() && old_rv[j] == t;
                        assert(rv[j] == t);
                    } else {
                        assert(t == tv[i as int]);
                        assert(keep);
                        assert(rv[rv.len() - 1] == t);
                    }
                }
            }
        }
        i += 1;
    }
    proof {
        assert(tv.take(topics@.len() as int) =~= tv);
    }
    r
}

/// Builds a server-side topic: the database name, a zero byte, then the
/// caller's topic bytes. Clients observe message topics carrying this
/// prefix.
pub fn database_topic(database: &str, topic: &[u8]) -> (r: Vec<u8>)
    ensures
        r@ == database.spec_bytes() + seq![0u8] + topic@,
{
    let name_bytes = database.as_bytes();
    let mut r: Vec<u8> = Vec::new();
    let mut i: usize = 0;
    while i < name_bytes.len()
        invariant
            0 <= i <= name_bytes@.len(),
            name_bytes@ == database.spec_bytes(),
            r@ =~= name_bytes@.subrange(0, i as int),
        decreases name_bytes@.len() - i,
    {
        r.push(name_bytes[i]);
        proof {
            assert(r@ =~= name_bytes@.subrange(0, i + 1 as int));
        }
        i += 1;
    }
    proof {
        assert(r@ =~= name_bytes@);
    }
    r.push(0u8);
    let mut j: usize = 0;
    while j < topic.len()
        invariant
            0 <= j <= topic@.len(),
            name_bytes@ == database.spec_bytes(),
            r@ =~= name_bytes@ + seq![0u8] + topic@.subrange(0, j as int),
        decreases topic@.len() - j,
    {
        r.push(topic[j]);
        proof {
            assert(r@ =~= name_bytes@ + seq![0u8] + topic@.subrange(0, j + 1 as int));
        }
        j += 1;
    }
    proof {
        assert(r@ =~= name_bytes@ + seq![0u8] + topic@);
    }
    r
}

} // verus!
