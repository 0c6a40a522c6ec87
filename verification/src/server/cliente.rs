//! An older, smaller client record kept alongside the current one: an id
//! and a bare list of topic filters.

use vstd::prelude::*;
use crate::server::wildcard::{compare_topic, topic_matches};

verus! {

/// The older client record: an id and its subscribed filters.
pub struct Client {
    pub id: usize,
    pub topics: Vec<String>,
}

impl Client {
    /// A record with no subscriptions.
    pub fn new(id: usize) -> (client: Client)
        ensures
            client.id == id,
            client.topics@.len() == 0,
    {
        Client { id, topics: Vec::new() }
    }

    /// Subscribe to `topic`.
    pub fn subscribe(&mut self, topic: String)
        ensures
            final(self).id == old(self).id,
            final(self).topics@ == old(self).topics@.push(topic),
    {
        self.topics.push(topic);
    }

    /// Unsubscribe from `topic`: the first exactly-equal filter is
    /// dropped.
    pub fn unsubscribe(&mut self, topic: String)
        ensures
            final(self).id == old(self).id,
            final(self).topics@.map_values(|t: String| t@) == remove_first_topic(
                old(self).topics@.map_values(|t: String| t@),
                topic@,
            ),
    {
        let ghost topics_v = self.topics@.map_values(|t: String| t@);
        proof {
            lemma_topic_index_of(topics_v, topic@);
        }
        let mut i: usize = 0;

        #[verifier::loop_isolation(false)]
        while i < self.topics.len()
            invariant
                i <= self.topics@.len(),
                self == old(self),
                forall|j: int| 0 <= j < i ==> topics_v[j] != topic@,
            decreases self.topics@.len() - i,
        {
            if self.topics[i] == topic {
                proof {
                    lemma_topic_index_of_is(topics_v, topic@, i as int);
                }
                self.topics.remove(i);
                proof {
                    assert(self.topics@.map_values(|t: String| t@) =~= topics_v.remove(i as int));
                }
                return ;
            }
            i = i + 1;
        }
        proof {
            assert(topic_index_of(topics_v, topic@) == -1) by {
                lemma_topic_index_of_is_none(topics_v, topic@);
            }
        }
    }

    /// Whether the client is subscribed to `topic`, by equality or by a
    /// wildcard filter.
    pub fn is_subscribed_to(&self, topic: &str) -> (subscribed: bool)
        ensures
            subscribed == exists|i: int|
                0 <= i < self.topics@.len() && topic_matches(
                    topic@,
                    #[trigger] self.topics@[i]@,
                ),
    {
        let mut subscribed = false;
        let mut i: usize = 0;

        #[verifier::loop_isolation(false)]
        while i < self.topics.len()
            invariant
                i <= self.topics@.len(),
                subscribed == exists|j: int|
                    0 <= j < i && topic_matches(topic@, #[trigger] self.topics@[j]@),
            decreases self.topics@.len() - i,
        {
            let hit = compare_topic(topic, self.topics[i].as_str());
            if hit {
                subscribed = true;
            }
            i = i + 1;
            proof {
                if hit {
                    assert(0 <= i - 1 < i && topic_matches(topic@, self.topics@[i - 1]@));
                }
            }
        }
        subscribed
    }
}

/// Index of the first exactly-equal topic, or -1.
pub open spec fn topic_index_of(topics: Seq<Seq<char>>, topic: Seq<char>) -> int
    decreases topics.len(),
{
    if topics.len() == 0 {
        -1
    } else if topics[0] == topic {
        0
    } else {
        let rest = topic_index_of(topics.skip(1), topic);
        if rest == -1 {
            -1
        } else {
            1 + rest
        }
    }
}

/// The topics after dropping the first exactly-equal entry, if any.
pub open spec fn remove_first_topic(topics: Seq<Seq<char>>, topic: Seq<char>) -> Seq<Seq<char>> {
    let i = topic_index_of(topics, topic);
    if i == -1 {
        topics
    } else {
        topics.remove(i)
    }
}

/// `topic_index_of` stays in bounds.
proof fn lemma_topic_index_of(topics: Seq<Seq<char>>, topic: Seq<char>)
    ensures
        topic_index_of(topics, topic) == -1 || 0 <= topic_index_of(topics, topic)
            < topics.len(),
    decreases topics.len(),
{
    if topics.len() > 0 && topics[0] != topic {
        lemma_topic_index_of(topics.skip(1), topic);
    }
}

/// Any index with the least-equal property is `topic_index_of`.
proof fn lemma_topic_index_of_is(topics: Seq<Seq<char>>, topic: Seq<char>, k: int)
    requires
        0 <= k < topics.len(),
        topics[k] == topic,
        forall|j: int| 0 <= j < k ==> topics[j] != topic,
    ensures
        topic_index_of(topics, topic) == k,
    decreases topics.len(),
{
    if topics[0] == topic {
        assert(k == 0);
    } else {
        assert(k >= 1);
        lemma_topic_index_of_is(topics.skip(1), topic, k - 1);
    }
}

/// When no topic is exactly equal, `topic_index_of` is -1.
proof fn lemma_topic_index_of_is_none(topics: Seq<Seq<char>>, topic: Seq<char>)
    requires
        forall|j: int| 0 <= j < topics.len() ==> topics[j] != topic,
    ensures
        topic_index_of(topics, topic) == -1,
    decreases topics.len(),
{
    if topics.len() > 0 {
        lemma_topic_index_of_is_none(topics.skip(1), topic);
    }
}

} // verus!
