//! The per-connection client record the broker keeps: identity, queued
//! outbound frames, subscriptions, unacknowledged QoS-1 publishes, and the
//! session flags.

use vstd::prelude::*;
use crate::server::wildcard::{compare_topic, topic_matches};

verus! {

/// A subscription: a topic filter with its granted QoS level.
pub struct Subscription {
    pub topic: String,
    pub qos: u8,
}

/// The mathematical value of a subscription.
#[verifier::ext_equal]
pub struct SubscriptionV {
    pub topic: Seq<char>,
    pub qos: u8,
}

impl View for Subscription {
    type V = SubscriptionV;

    open spec fn view(&self) -> SubscriptionV {
        SubscriptionV { topic: self.topic@, qos: self.qos }
    }
}

/// One client of the broker.  `outbound` holds the frames queued for the
/// connection's writer; `publishes_received` holds the QoS-1 publishes not
/// yet acknowledged by this client, kept for redelivery.
pub struct Client {
    pub thread_id: usize,
    pub client_id: String,
    pub outbound: Vec<Vec<u8>>,
    pub topics: Vec<Subscription>,
    pub publishes_received: Vec<Vec<u8>>,
    pub clean_session: u8,
    pub lastwill_topic: Option<String>,
    pub lastwill_message: Option<String>,
    pub lastwill_qos: u8,
    pub lastwill_retained: bool,
    pub disconnected: bool,
}

/// The mathematical value of a client record.
#[verifier::ext_equal]
pub struct ClientV {
    pub thread_id: nat,
    pub client_id: Seq<char>,
    pub outbound: Seq<Seq<u8>>,
    pub topics: Seq<SubscriptionV>,
    pub publishes_received: Seq<Seq<u8>>,
    pub clean_session: u8,
    pub lastwill_topic: Option<Seq<char>>,
    pub lastwill_message: Option<Seq<char>>,
    pub lastwill_qos: u8,
    pub lastwill_retained: bool,
    pub disconnected: bool,
}

impl View for Client {
    type V = ClientV;

    open spec fn view(&self) -> ClientV {
        ClientV {
            thread_id: self.thread_id as nat,
            client_id: self.client_id@,
            outbound: self.outbound@.map_values(|frame: Vec<u8>| frame@),
            topics: self.topics@.map_values(|s: Subscription| s@),
            publishes_received: self.publishes_received@.map_values(|frame: Vec<u8>| frame@),
            clean_session: self.clean_session,
            lastwill_topic: match self.lastwill_topic {
                Some(t) => Some(t@),
                None => None,
            },
            lastwill_message: match self.lastwill_message {
                Some(m) => Some(m@),
                None => None,
            },
            lastwill_qos: self.lastwill_qos,
            lastwill_retained: self.lastwill_retained,
            disconnected: self.disconnected,
        }
    }
}

/// Whether the client holds a filter covering `topic`.
pub open spec fn is_subscribed(c: ClientV, topic: Seq<char>) -> bool {
    exists|i: int| 0 <= i < c.topics.len() && topic_matches(topic, c.topics[i].topic)
}

/// Whether the client holds a QoS-1 filter covering `topic`.
pub open spec fn is_subscribed_qos1(c: ClientV, topic: Seq<char>) -> bool {
    exists|i: int|
        0 <= i < c.topics.len() && c.topics[i].qos == 1 && topic_matches(
            topic,
            c.topics[i].topic,
        )
}

/// Index of the first subscription whose filter is exactly `topic`, or -1.
pub open spec fn sub_index_of(topics: Seq<SubscriptionV>, topic: Seq<char>) -> int
    decreases topics.len(),
{
    if topics.len() == 0 {
        -1
    } else if topics[0].topic == topic {
        0
    } else {
        let rest = sub_index_of(topics.skip(1), topic);
        if rest == -1 {
            -1
        } else {
            1 + rest
        }
    }
}

/// The subscriptions after removing the first entry whose filter is exactly
/// `topic`; no entry is touched when none is exactly equal.
pub open spec fn remove_first_subscription(
    topics: Seq<SubscriptionV>,
    topic: Seq<char>,
) -> Seq<SubscriptionV> {
    let i = sub_index_of(topics, topic);
    if i == -1 {
        topics
    } else {
        topics.remove(i)
    }
}

/// `sub_index_of` is the least exactly-equal index, or -1 when there is none.
pub proof fn lemma_sub_index_of(topics: Seq<SubscriptionV>, topic: Seq<char>)
    ensures
        sub_index_of(topics, topic) == -1 ==> forall|i: int|
            0 <= i < topics.len() ==> topics[i].topic != topic,
        sub_index_of(topics, topic) != -1 ==> {
            let k = sub_index_of(topics, topic);
            &&& 0 <= k < topics.len()
            &&& topics[k].topic == topic
            &&& forall|i: int| 0 <= i < k ==> topics[i].topic != topic
        },
    decreases topics.len(),
{
    if topics.len() > 0 && topics[0].topic != topic {
        lemma_sub_index_of(topics.skip(1), topic);
        if sub_index_of(topics, topic) == -1 {
            assert forall|i: int| 0 <= i < topics.len() implies topics[i].topic != topic by {
                if i > 0 {
                    assert(topics.skip(1)[i - 1].topic != topic);
                }
            }
        } else {
            let k = sub_index_of(topics, topic);
            assert(topics.skip(1)[k - 1].topic == topic);
            assert forall|i: int| 0 <= i < k implies topics[i].topic != topic by {
                if i > 0 {
                    assert(topics.skip(1)[i - 1].topic != topic);
                }
            }
        }
    }
}

/// Any index with the least-exactly-equal property is `sub_index_of`.
pub proof fn lemma_sub_index_of_is(topics: Seq<SubscriptionV>, topic: Seq<char>, k: int)
    requires
        0 <= k < topics.len(),
        topics[k].topic == topic,
        forall|j: int| 0 <= j < k ==> topics[j].topic != topic,
    ensures
        sub_index_of(topics, topic) == k,
    decreases topics.len(),
{
    if topics[0].topic == topic {
        assert(k == 0);
    } else {
        assert(k >= 1);
        lemma_sub_index_of_is(topics.skip(1), topic, k - 1);
    }
}

/// Subscribing to a fresh filter and unsubscribing from it restores the
/// subscription list: the round-trip law of the subscription operations.
pub proof fn lemma_subscribe_then_unsubscribe(
    topics: Seq<SubscriptionV>,
    topic: Seq<char>,
    qos: u8,
)
    requires
        forall|i: int| 0 <= i < topics.len() ==> topics[i].topic != topic,
    ensures
        remove_first_subscription(topics.push(SubscriptionV { topic, qos }), topic) == topics,
{
    let pushed = topics.push(SubscriptionV { topic, qos });
    lemma_sub_index_of(pushed, topic);
    let k = sub_index_of(pushed, topic);
    assert(pushed[topics.len() as int].topic == topic);
    assert(k != -1);
    assert(k == topics.len() as int) by {
        if k < topics.len() as int {
            assert(topics[k].topic == pushed[k].topic);
        }
    }
    assert(pushed.remove(k) =~= topics);
}

impl Client {
    /// A freshly accepted connection: no identity, no state, not yet online.
    pub fn new(thread_id: usize) -> (client: Client)
        ensures
            client@ == (ClientV {
                thread_id: thread_id as nat,
                client_id: Seq::<char>::empty(),
                outbound: Seq::<Seq<u8>>::empty(),
                topics: Seq::<SubscriptionV>::empty(),
                publishes_received: Seq::<Seq<u8>>::empty(),
                clean_session: 0u8,
                lastwill_topic: None::<Seq<char>>,
                lastwill_message: None::<Seq<char>>,
                lastwill_qos: 0u8,
                lastwill_retained: false,
                disconnected: true,
            }),
    {
        let client = Client {
            thread_id,
            client_id: String::new(),
            outbound: Vec::new(),
            topics: Vec::new(),
            publishes_received: Vec::new(),
            clean_session: 0,
            lastwill_topic: None,
            lastwill_message: None,
            lastwill_qos: 0,
            lastwill_retained: false,
            disconnected: true,
        };
        proof {
            assert(client@.outbound =~= Seq::<Seq<u8>>::empty());
            assert(client@.topics =~= Seq::<SubscriptionV>::empty());
            assert(client@.publishes_received =~= Seq::<Seq<u8>>::empty());
        }
        client
    }

    /// Subscribe the client to `topic` with `qos` level.
    pub fn subscribe(&mut self, topic: String, qos: u8)
        ensures
            final(self)@ == (ClientV {
                topics: old(self)@.topics.push(SubscriptionV { topic: topic@, qos }),
                ..old(self)@
            }),
    {
        let new_subscription = Subscription { topic, qos };
        self.topics.push(new_subscription);
        proof {
            assert(self@.topics =~= old(self)@.topics.push(
                SubscriptionV { topic: topic@, qos },
            ));
        }
    }

    /// Unsubscribe the client from `topic`: the first exactly-equal filter
    /// is dropped; wildcard overlap does not count.
    pub fn unsubscribe(&mut self, topic: String)
        ensures
            final(self)@ == (ClientV {
                topics: remove_first_subscription(old(self)@.topics, topic@),
                ..old(self)@
            }),
    {
        proof {
            lemma_sub_index_of(old(self)@.topics, topic@);
        }
        let mut i: usize = 0;

        #[verifier::loop_isolation(false)]
        while i < self.topics.len()
            invariant
                i <= self@.topics.len(),
                self == old(self),
                forall|j: int| 0 <= j < i ==> old(self)@.topics[j].topic != topic@,
            decreases self@.topics.len() - i,
        {
            if self.topics[i].topic == topic {
                proof {
                    lemma_sub_index_of_is(old(self)@.topics, topic@, i as int);
                }
                self.topics.remove(i);
                proof {
                    assert(self@.topics =~= old(self)@.topics.remove(i as int));
                }
                return ;
            }
            i = i + 1;
        }
        proof {
            assert(sub_index_of(old(self)@.topics, topic@) == -1);
        }
    }

    /// Whether the client is subscribed to `topic` with QoS 1.
    pub fn is_subscribed_to_qos1(&self, topic: &str) -> (subscribed: bool)
        ensures
            subscribed == is_subscribed_qos1(self@, topic@),
    {
        let mut subscribed = false;
        let mut i: usize = 0;

        #[verifier::loop_isolation(false)]
        while i < self.topics.len()
            invariant
                i <= self@.topics.len(),
                subscribed == exists|j: int|
                    0 <= j < i && self@.topics[j].qos == 1 && topic_matches(
                        topic@,
                        self@.topics[j].topic,
                    ),
            decreases self@.topics.len() - i,
        {
            let hit = self.topics[i].qos == 1 && compare_topic(
                topic,
                self.topics[i].topic.as_str(),
            );
            if hit {
                subscribed = true;
            }
            i = i + 1;
            proof {
                if hit {
                    assert(0 <= i - 1 < i && self@.topics[i - 1].qos == 1 && topic_matches(
                        topic@,
                        self@.topics[i - 1].topic,
                    ));
                }
            }
        }
        subscribed
    }

    /// Whether the client is subscribed to `topic`.
    pub fn is_subscribed_to(&self, topic: &str) -> (subscribed: bool)
        ensures
            subscribed == is_subscribed(self@, topic@),
    {
        let mut subscribed = false;
        let mut i: usize = 0;

        #[verifier::loop_isolation(false)]
        while i < self.topics.len()
            invariant
                i <= self@.topics.len(),
                subscribed == exists|j: int|
                    0 <= j < i && topic_matches(topic@, self@.topics[j].topic),
            decreases self@.topics.len() - i,
        {
            let hit = compare_topic(topic, self.topics[i].topic.as_str());
            if hit {
                subscribed = true;
            }
            i = i + 1;
            proof {
                if hit {
                    assert(0 <= i - 1 < i && topic_matches(topic@, self@.topics[i - 1].topic));
                }
            }
        }
        subscribed
    }

    /// Clear the subscription list and the redelivery queue.
    pub fn remove_subscriptions_and_queue(&mut self)
        ensures
            final(self)@ == (ClientV {
                topics: Seq::<SubscriptionV>::empty(),
                publishes_received: Seq::<Seq<u8>>::empty(),
                ..old(self)@
            }),
    {
        self.topics = Vec::new();
        self.publishes_received = Vec::new();
        proof {
            assert(self@.topics =~= Seq::<SubscriptionV>::empty());
            assert(self@.publishes_received =~= Seq::<Seq<u8>>::empty());
        }
    }
}

} // verus!
