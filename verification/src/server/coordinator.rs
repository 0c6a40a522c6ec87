//! The coordinator: the one owner of the broker-wide state.  It holds the
//! client table and the retained-message store and consumes command
//! envelopes in arrival order; every state change of the broker is one of
//! the step functions below applied to the current state.

use vstd::prelude::*;
use vstd::utf8::encode_utf8;
use vstd::string::StringSliceAdditionalSpecFns;
use crate::server::client::{
    Client, ClientV, Subscription, SubscriptionV, is_subscribed, is_subscribed_qos1,
    remove_first_subscription,
};
use crate::server::packet::{
    be16, lemma_queued_publish_frame, parse_connect_cmd, publish_cmd_topic, publish_cmd_wf, publish_frame_of_cmd,
    qos_bit_set, queued_publish_pid, queued_publish_wf, read_queued_pid, retain_bit_set, subscribe_entries,
    unsubscribe_entries, with_dup, Packet, PacketThings, PacketThingsV,
};
use crate::server::utils::remaining_length_bytes;
use crate::server::wildcard::{compare_topic, topic_matches};

verus! {

/// Relies on `rand::random`: a value drawn from the thread-local generator.
/// Nothing is promised of the result; every caller must cope with any value.
pub assume_specification<T>[ rand::random::<T> ]() -> (r: T)
    where
        rand::distributions::Standard: rand::distributions::Distribution<T>,
;

/// One entry of the retained-message store: the last retained PUBLISH
/// frame seen on a topic.
pub struct RetainedMessage {
    pub topic: String,
    pub frame: Vec<u8>,
}

/// The mathematical value of a retained entry.
#[verifier::ext_equal]
pub struct RetainedV {
    pub topic: Seq<char>,
    pub frame: Seq<u8>,
}

impl View for RetainedMessage {
    type V = RetainedV;

    open spec fn view(&self) -> RetainedV {
        RetainedV { topic: self.topic@, frame: self.frame@ }
    }
}

/// The broker-wide state: the client table and the retained store.
pub struct Coordinator {
    pub clients: Vec<Client>,
    pub retained_messages: Vec<RetainedMessage>,
}

/// The mathematical value of the broker-wide state.
#[verifier::ext_equal]
pub struct CoordinatorV {
    pub clients: Seq<ClientV>,
    pub retained: Seq<RetainedV>,
}

impl View for Coordinator {
    type V = CoordinatorV;

    open spec fn view(&self) -> CoordinatorV {
        CoordinatorV {
            clients: self.clients@.map_values(|c: Client| c@),
            retained: self.retained_messages@.map_values(|r: RetainedMessage| r@),
        }
    }
}

/// Every frame kept for redelivery is a queued QoS-1 PUBLISH.
pub open spec fn pending_wf(pending: Seq<Seq<u8>>) -> bool {
    forall|k: int| 0 <= k < pending.len() ==> queued_publish_wf(#[trigger] pending[k])
}

/// The invariants of the client table: connection ids are unique, at most
/// one record carries a given non-empty client id, and every frame held
/// for redelivery is a queued QoS-1 PUBLISH.
pub open spec fn client_table_wf(clients: Seq<ClientV>) -> bool {
    &&& forall|i: int, j: int|
        0 <= i < clients.len() && 0 <= j < clients.len() && i != j
            ==> #[trigger] clients[i].thread_id != #[trigger] clients[j].thread_id
    &&& forall|i: int, j: int|
        0 <= i < clients.len() && 0 <= j < clients.len() && i != j && clients[i].client_id.len()
            > 0 ==> #[trigger] clients[i].client_id != #[trigger] clients[j].client_id
    &&& forall|i: int| 0 <= i < clients.len() ==> pending_wf(#[trigger] clients[i].publishes_received)
}

/// The retained store maps each topic to at most one frame.
pub open spec fn retained_wf(retained: Seq<RetainedV>) -> bool {
    forall|i: int, j: int|
        0 <= i < retained.len() && 0 <= j < retained.len() && i != j
            ==> #[trigger] retained[i].topic != #[trigger] retained[j].topic
}

/// The well-formedness of the whole broker state.
pub open spec fn coordinator_wf(s: CoordinatorV) -> bool {
    client_table_wf(s.clients) && retained_wf(s.retained)
}

/// Index of the first client with this connection id, or -1.
pub open spec fn find_client(clients: Seq<ClientV>, thread_id: nat) -> int
    decreases clients.len(),
{
    if clients.len() == 0 {
        -1
    } else if clients[0].thread_id == thread_id {
        0
    } else {
        let rest = find_client(clients.skip(1), thread_id);
        if rest == -1 {
            -1
        } else {
            1 + rest
        }
    }
}

/// Any index with the least-match property is `find_client`.
pub proof fn lemma_find_client_is(clients: Seq<ClientV>, thread_id: nat, k: int)
    requires
        0 <= k < clients.len(),
        clients[k].thread_id == thread_id,
        forall|j: int| 0 <= j < k ==> clients[j].thread_id != thread_id,
    ensures
        find_client(clients, thread_id) == k,
    decreases clients.len(),
{
    if clients[0].thread_id == thread_id {
        assert(k == 0);
    } else {
        assert(k >= 1);
        lemma_find_client_is(clients.skip(1), thread_id, k - 1);
    }
}

/// When no client carries the id, `find_client` is -1.
pub proof fn lemma_find_client_none(clients: Seq<ClientV>, thread_id: nat)
    requires
        forall|j: int| 0 <= j < clients.len() ==> clients[j].thread_id != thread_id,
    ensures
        find_client(clients, thread_id) == -1,
    decreases clients.len(),
{
    if clients.len() > 0 {
        lemma_find_client_none(clients.skip(1), thread_id);
    }
}

/// What `find_client` returns: the least matching index, or -1 when no
/// record matches.
pub proof fn lemma_find_client_props(clients: Seq<ClientV>, thread_id: nat)
    ensures
        find_client(clients, thread_id) == -1 ==> forall|j: int|
            0 <= j < clients.len() ==> clients[j].thread_id != thread_id,
        find_client(clients, thread_id) != -1 ==> {
            let k = find_client(clients, thread_id);
            &&& 0 <= k < clients.len()
            &&& clients[k].thread_id == thread_id
            &&& forall|j: int| 0 <= j < k ==> clients[j].thread_id != thread_id
        },
    decreases clients.len(),
{
    if clients.len() > 0 && clients[0].thread_id != thread_id {
        lemma_find_client_props(clients.skip(1), thread_id);
        if find_client(clients, thread_id) == -1 {
            assert forall|j: int| 0 <= j < clients.len() implies clients[j].thread_id != thread_id by {
                if j > 0 {
                    assert(clients.skip(1)[j - 1].thread_id != thread_id);
                }
            }
        } else {
            let k = find_client(clients, thread_id);
            assert(clients.skip(1)[k - 1].thread_id == thread_id);
            assert forall|j: int| 0 <= j < k implies clients[j].thread_id != thread_id by {
                if j > 0 {
                    assert(clients.skip(1)[j - 1].thread_id != thread_id);
                }
            }
        }
    }
}

/// Replacing a record with one of the same connection id, an unchanged or
/// empty client id, and a well-formed redelivery queue keeps the table
/// well formed.
pub proof fn lemma_table_wf_update(clients: Seq<ClientV>, k: int, c1: ClientV)
    requires
        client_table_wf(clients),
        0 <= k < clients.len(),
        c1.thread_id == clients[k].thread_id,
        c1.client_id == clients[k].client_id || c1.client_id.len() == 0,
        pending_wf(c1.publishes_received),
    ensures
        client_table_wf(clients.update(k, c1)),
{
    let cs = clients.update(k, c1);
    assert forall|i: int, j: int|
        0 <= i < cs.len() && 0 <= j < cs.len() && i != j implies #[trigger] cs[i].thread_id
        != #[trigger] cs[j].thread_id by {
        assert(clients[i].thread_id != clients[j].thread_id);
    }
    assert forall|i: int, j: int|
        0 <= i < cs.len() && 0 <= j < cs.len() && i != j && cs[i].client_id.len() > 0 implies #[
        trigger] cs[i].client_id != #[trigger] cs[j].client_id by {
        if clients[i].client_id.len() > 0 {
            assert(clients[i].client_id != clients[j].client_id);
        }
    }
    assert forall|i: int| 0 <= i < cs.len() implies pending_wf(
        #[trigger] cs[i].publishes_received,
    ) by {
        if i != k {
            assert(pending_wf(clients[i].publishes_received));
        }
    }
}

/// Appending a fresh record under an unused connection id keeps the table
/// well formed.
pub proof fn lemma_table_wf_push_fresh(clients: Seq<ClientV>, thread_id: nat)
    requires
        client_table_wf(clients),
        forall|j: int| 0 <= j < clients.len() ==> clients[j].thread_id != thread_id,
    ensures
        client_table_wf(clients.push(fresh_client(thread_id))),
{
    let cs = clients.push(fresh_client(thread_id));
    let n = clients.len() as int;
    assert forall|i: int, j: int|
        0 <= i < cs.len() && 0 <= j < cs.len() && i != j implies #[trigger] cs[i].thread_id
        != #[trigger] cs[j].thread_id by {
        if i < n && j < n {
            assert(clients[i].thread_id != clients[j].thread_id);
        } else if i == n {
            assert(clients[j].thread_id != thread_id);
        } else {
            assert(clients[i].thread_id != thread_id);
        }
    }
    assert forall|i: int, j: int|
        0 <= i < cs.len() && 0 <= j < cs.len() && i != j && cs[i].client_id.len() > 0 implies #[
        trigger] cs[i].client_id != #[trigger] cs[j].client_id by {
        assert(i != n);
        if j < n {
            assert(clients[i].client_id != clients[j].client_id);
        }
    }
    assert forall|i: int| 0 <= i < cs.len() implies pending_wf(
        #[trigger] cs[i].publishes_received,
    ) by {
        if i < n {
            assert(pending_wf(clients[i].publishes_received));
        }
    }
}

/// Index of the first client with this client id, or -1.
pub open spec fn find_client_by_id(clients: Seq<ClientV>, client_id: Seq<char>) -> int
    decreases clients.len(),
{
    if clients.len() == 0 {
        -1
    } else if clients[0].client_id == client_id {
        0
    } else {
        let rest = find_client_by_id(clients.skip(1), client_id);
        if rest == -1 {
            -1
        } else {
            1 + rest
        }
    }
}

/// The characterization of `find_client_by_id`.
pub proof fn lemma_find_client_by_id_is(clients: Seq<ClientV>, client_id: Seq<char>, k: int)
    requires
        0 <= k < clients.len(),
        clients[k].client_id == client_id,
        forall|j: int| 0 <= j < k ==> clients[j].client_id != client_id,
    ensures
        find_client_by_id(clients, client_id) == k,
    decreases clients.len(),
{
    if clients[0].client_id == client_id {
        assert(k == 0);
    } else {
        assert(k >= 1);
        lemma_find_client_by_id_is(clients.skip(1), client_id, k - 1);
    }
}

/// When no client carries the id, `find_client_by_id` is -1.
pub proof fn lemma_find_client_by_id_none(clients: Seq<ClientV>, client_id: Seq<char>)
    requires
        forall|j: int| 0 <= j < clients.len() ==> clients[j].client_id != client_id,
    ensures
        find_client_by_id(clients, client_id) == -1,
    decreases clients.len(),
{
    if clients.len() > 0 {
        lemma_find_client_by_id_none(clients.skip(1), client_id);
    }
}

/// What `find_client_by_id` returns: the least matching index, or -1 when
/// no record matches.
pub proof fn lemma_find_client_by_id_props(clients: Seq<ClientV>, client_id: Seq<char>)
    ensures
        find_client_by_id(clients, client_id) == -1 ==> forall|j: int|
            0 <= j < clients.len() ==> clients[j].client_id != client_id,
        find_client_by_id(clients, client_id) != -1 ==> {
            let k = find_client_by_id(clients, client_id);
            &&& 0 <= k < clients.len()
            &&& clients[k].client_id == client_id
            &&& forall|j: int| 0 <= j < k ==> clients[j].client_id != client_id
        },
    decreases clients.len(),
{
    if clients.len() > 0 && clients[0].client_id != client_id {
        lemma_find_client_by_id_props(clients.skip(1), client_id);
        if find_client_by_id(clients, client_id) == -1 {
            assert forall|j: int| 0 <= j < clients.len() implies clients[j].client_id != client_id by {
                if j > 0 {
                    assert(clients.skip(1)[j - 1].client_id != client_id);
                }
            }
        } else {
            let k = find_client_by_id(clients, client_id);
            assert(clients.skip(1)[k - 1].client_id == client_id);
            assert forall|j: int| 0 <= j < k implies clients[j].client_id != client_id by {
                if j > 0 {
                    assert(clients.skip(1)[j - 1].client_id != client_id);
                }
            }
        }
    }
}

/// Dropping a record keeps the table well formed.
pub proof fn lemma_table_wf_remove(clients: Seq<ClientV>, j: int)
    requires
        client_table_wf(clients),
        0 <= j < clients.len(),
    ensures
        client_table_wf(clients.remove(j)),
{
    let cs = clients.remove(j);
    assert forall|x: int, y: int|
        0 <= x < cs.len() && 0 <= y < cs.len() && x != y implies #[trigger] cs[x].thread_id
        != #[trigger] cs[y].thread_id by {
        let ox = if x < j {
            x
        } else {
            x + 1
        };
        let oy = if y < j {
            y
        } else {
            y + 1
        };
        assert(cs[x] == clients[ox] && cs[y] == clients[oy]);
        assert(clients[ox].thread_id != clients[oy].thread_id);
    }
    assert forall|x: int, y: int|
        0 <= x < cs.len() && 0 <= y < cs.len() && x != y && cs[x].client_id.len() > 0 implies #[
        trigger] cs[x].client_id != #[trigger] cs[y].client_id by {
        let ox = if x < j {
            x
        } else {
            x + 1
        };
        let oy = if y < j {
            y
        } else {
            y + 1
        };
        assert(cs[x] == clients[ox] && cs[y] == clients[oy]);
        assert(clients[ox].client_id != clients[oy].client_id);
    }
    assert forall|x: int| 0 <= x < cs.len() implies pending_wf(
        #[trigger] cs[x].publishes_received,
    ) by {
        let ox = if x < j {
            x
        } else {
            x + 1
        };
        assert(cs[x] == clients[ox]);
        assert(pending_wf(clients[ox].publishes_received));
    }
}

/// Replacing a record with one under a client id no other record carries
/// keeps the table well formed.
pub proof fn lemma_table_wf_update_new_id(clients: Seq<ClientV>, k: int, c1: ClientV)
    requires
        client_table_wf(clients),
        0 <= k < clients.len(),
        c1.thread_id == clients[k].thread_id,
        pending_wf(c1.publishes_received),
        forall|x: int| 0 <= x < clients.len() && x != k ==> clients[x].client_id != c1.client_id,
    ensures
        client_table_wf(clients.update(k, c1)),
{
    let cs = clients.update(k, c1);
    assert forall|i: int, j: int|
        0 <= i < cs.len() && 0 <= j < cs.len() && i != j implies #[trigger] cs[i].thread_id
        != #[trigger] cs[j].thread_id by {
        assert(clients[i].thread_id != clients[j].thread_id);
    }
    assert forall|i: int, j: int|
        0 <= i < cs.len() && 0 <= j < cs.len() && i != j && cs[i].client_id.len() > 0 implies #[
        trigger] cs[i].client_id != #[trigger] cs[j].client_id by {
        if i == k {
            assert(clients[j].client_id != c1.client_id);
        } else if j == k {
            assert(clients[i].client_id != c1.client_id);
        } else {
            assert(clients[i].client_id != clients[j].client_id);
        }
    }
    assert forall|i: int| 0 <= i < cs.len() implies pending_wf(
        #[trigger] cs[i].publishes_received,
    ) by {
        if i != k {
            assert(pending_wf(clients[i].publishes_received));
        }
    }
}

/// Index of the retained entry for exactly this topic, or -1.
pub open spec fn find_retained(retained: Seq<RetainedV>, topic: Seq<char>) -> int
    decreases retained.len(),
{
    if retained.len() == 0 {
        -1
    } else if retained[0].topic == topic {
        0
    } else {
        let rest = find_retained(retained.skip(1), topic);
        if rest == -1 {
            -1
        } else {
            1 + rest
        }
    }
}

/// The characterization of `find_retained`.
pub proof fn lemma_find_retained_is(retained: Seq<RetainedV>, topic: Seq<char>, k: int)
    requires
        0 <= k < retained.len(),
        retained[k].topic == topic,
        forall|j: int| 0 <= j < k ==> retained[j].topic != topic,
    ensures
        find_retained(retained, topic) == k,
    decreases retained.len(),
{
    if retained[0].topic == topic {
        assert(k == 0);
    } else {
        assert(k >= 1);
        lemma_find_retained_is(retained.skip(1), topic, k - 1);
    }
}

/// When no entry carries the topic, `find_retained` is -1.
pub proof fn lemma_find_retained_none(retained: Seq<RetainedV>, topic: Seq<char>)
    requires
        forall|j: int| 0 <= j < retained.len() ==> retained[j].topic != topic,
    ensures
        find_retained(retained, topic) == -1,
    decreases retained.len(),
{
    if retained.len() > 0 {
        lemma_find_retained_none(retained.skip(1), topic);
    }
}

/// The retained store after a retained PUBLISH on `topic`: the entry for
/// the topic is replaced, or appended when the topic is new.
pub open spec fn retained_insert(
    retained: Seq<RetainedV>,
    topic: Seq<char>,
    frame: Seq<u8>,
) -> Seq<RetainedV> {
    let i = find_retained(retained, topic);
    if i == -1 {
        retained.push(RetainedV { topic, frame })
    } else {
        retained.update(i, RetainedV { topic, frame })
    }
}

/// The retained store after a zero-payload retained PUBLISH on `topic`:
/// the entry for the topic is dropped.
pub open spec fn retained_remove(retained: Seq<RetainedV>, topic: Seq<char>) -> Seq<RetainedV> {
    let i = find_retained(retained, topic);
    if i == -1 {
        retained
    } else {
        retained.remove(i)
    }
}

/// The retained frames matching one filter, in store order.
pub open spec fn retained_frames_for_filter(
    retained: Seq<RetainedV>,
    filter: Seq<char>,
) -> Seq<Seq<u8>>
    decreases retained.len(),
{
    if retained.len() == 0 {
        seq![]
    } else {
        let head: Seq<Seq<u8>> = if topic_matches(retained[0].topic, filter) {
            seq![retained[0].frame]
        } else {
            seq![]
        };
        head + retained_frames_for_filter(retained.skip(1), filter)
    }
}

/// The retained frames delivered for a list of new filters: the matches of
/// each filter in turn, each in store order.
pub open spec fn retained_frames_for_filters(
    retained: Seq<RetainedV>,
    filters: Seq<Seq<char>>,
) -> Seq<Seq<u8>>
    decreases filters.len(),
{
    if filters.len() == 0 {
        seq![]
    } else {
        retained_frames_for_filter(retained, filters[0]) + retained_frames_for_filters(
            retained,
            filters.skip(1),
        )
    }
}

/// Index of the first redelivery frame carrying this packet id, or -1.
pub open spec fn find_pending_pid(pending: Seq<Seq<u8>>, pid: nat) -> int
    decreases pending.len(),
{
    if pending.len() == 0 {
        -1
    } else if queued_publish_pid(pending[0]) == pid {
        0
    } else {
        let rest = find_pending_pid(pending.skip(1), pid);
        if rest == -1 {
            -1
        } else {
            1 + rest
        }
    }
}

/// The characterization of `find_pending_pid`.
pub proof fn lemma_find_pending_pid_is(pending: Seq<Seq<u8>>, pid: nat, k: int)
    requires
        0 <= k < pending.len(),
        queued_publish_pid(pending[k]) == pid,
        forall|j: int| 0 <= j < k ==> queued_publish_pid(#[trigger] pending[j]) != pid,
    ensures
        find_pending_pid(pending, pid) == k,
    decreases pending.len(),
{
    if queued_publish_pid(pending[0]) == pid {
        assert(k == 0);
    } else {
        assert(k >= 1);
        lemma_find_pending_pid_is(pending.skip(1), pid, k - 1);
    }
}

/// When no frame carries the id, `find_pending_pid` is -1.
pub proof fn lemma_find_pending_pid_none(pending: Seq<Seq<u8>>, pid: nat)
    requires
        forall|j: int| 0 <= j < pending.len() ==> queued_publish_pid(#[trigger] pending[j]) != pid,
    ensures
        find_pending_pid(pending, pid) == -1,
    decreases pending.len(),
{
    if pending.len() > 0 {
        lemma_find_pending_pid_none(pending.skip(1), pid);
    }
}

/// The subscriptions left after removing each filter of the list in turn.
pub open spec fn remove_all_subscriptions(
    topics: Seq<SubscriptionV>,
    filters: Seq<Seq<char>>,
) -> Seq<SubscriptionV>
    decreases filters.len(),
{
    if filters.len() == 0 {
        topics
    } else {
        remove_all_subscriptions(remove_first_subscription(topics, filters[0]), filters.skip(1))
    }
}

/// Removing the filters of a list and then one more is one more removal.
pub proof fn lemma_remove_all_snoc(
    topics: Seq<SubscriptionV>,
    filters: Seq<Seq<char>>,
    filter: Seq<char>,
)
    ensures
        remove_all_subscriptions(topics, filters.push(filter)) == remove_first_subscription(
            remove_all_subscriptions(topics, filters),
            filter,
        ),
    decreases filters.len(),
{
    if filters.len() == 0 {
        assert(filters.push(filter)[0] == filter);
        assert(filters.push(filter).skip(1) =~= Seq::<Seq<char>>::empty());
        let t1 = remove_first_subscription(topics, filter);
        assert(remove_all_subscriptions(topics, filters.push(filter))
            == remove_all_subscriptions(t1, filters.push(filter).skip(1)));
        assert(remove_all_subscriptions(t1, Seq::<Seq<char>>::empty()) == t1);
        assert(remove_all_subscriptions(topics, filters) == topics);
    } else {
        assert(filters.push(filter)[0] == filters[0]);
        assert(filters.push(filter).skip(1) =~= filters.skip(1).push(filter));
        let t1 = remove_first_subscription(topics, filters[0]);
        assert(remove_all_subscriptions(topics, filters.push(filter))
            == remove_all_subscriptions(t1, filters.skip(1).push(filter)));
        assert(remove_all_subscriptions(topics, filters) == remove_all_subscriptions(
            t1,
            filters.skip(1),
        ));
        lemma_remove_all_snoc(t1, filters.skip(1), filter);
    }
}

/// The retained frames matching the filters of a subscription list, in
/// filter order and then store order.
fn collect_retained(
    retained: &Vec<RetainedMessage>,
    filters: &Vec<Subscription>,
) -> (frames: Vec<Vec<u8>>)
    ensures
        frames@.map_values(|f: Vec<u8>| f@) == retained_frames_for_filters(
            retained@.map_values(|r: RetainedMessage| r@),
            filters@.map_values(|s: Subscription| s@.topic),
        ),
{
    let ghost rv = retained@.map_values(|r: RetainedMessage| r@);
    let ghost fv = filters@.map_values(|s: Subscription| s@.topic);
    let mut frames = Vec::<Vec<u8>>::new();
    let mut i: usize = 0;

    proof {
        assert(fv.skip(0) =~= fv);
        assert(frames@.map_values(|f: Vec<u8>| f@) + retained_frames_for_filters(rv, fv)
            =~= retained_frames_for_filters(rv, fv));
    }
    #[verifier::loop_isolation(false)]
    while i < filters.len()
        invariant
            i <= filters@.len(),
            retained_frames_for_filters(rv, fv) == frames@.map_values(|f: Vec<u8>| f@)
                + retained_frames_for_filters(rv, fv.skip(i as int)),
        decreases filters@.len() - i,
    {
        let ghost filter = fv[i as int];
        proof {
            assert(fv.skip(i as int)[0] == filter);
            assert(fv.skip(i as int).skip(1) =~= fv.skip(i as int + 1));
            assert(rv.skip(0) =~= rv);
        }
        let mut j: usize = 0;

        #[verifier::loop_isolation(false)]
        while j < retained.len()
            invariant
                j <= retained@.len(),
                i < filters@.len(),
                fv[i as int] == filter,
                retained_frames_for_filters(rv, fv) == frames@.map_values(|f: Vec<u8>| f@)
                    + retained_frames_for_filter(rv.skip(j as int), filter)
                    + retained_frames_for_filters(rv, fv.skip(i as int + 1)),
            decreases retained@.len() - j,
        {
            proof {
                assert(rv.skip(j as int)[0] == rv[j as int]);
                assert(rv.skip(j as int).skip(1) =~= rv.skip(j as int + 1));
            }
            if compare_topic(retained[j].topic.as_str(), filters[i].topic.as_str()) {
                let frame = crate::text::sub_vec(&retained[j].frame, 0, retained[j].frame.len());
                proof {
                    assert(frame@ =~= rv[j as int].frame);
                }
                let ghost before = frames@.map_values(|f: Vec<u8>| f@);
                frames.push(frame);
                proof {
                    assert(frames@.map_values(|f: Vec<u8>| f@) =~= before.push(
                        rv[j as int].frame,
                    ));
                    assert(before.push(rv[j as int].frame) + retained_frames_for_filter(
                        rv.skip(j as int + 1),
                        filter,
                    ) =~= before + (seq![rv[j as int].frame] + retained_frames_for_filter(
                        rv.skip(j as int + 1),
                        filter,
                    )));
                }
            }
            j = j + 1;
        }
        proof {
            assert(rv.skip(retained@.len() as int) =~= Seq::<RetainedV>::empty());
        }
        i = i + 1;
    }
    proof {
        assert(fv.skip(filters@.len() as int) =~= Seq::<Seq<char>>::empty());
        assert(frames@.map_values(|f: Vec<u8>| f@) + Seq::<Seq<u8>>::empty()
            =~= frames@.map_values(|f: Vec<u8>| f@));
    }
    frames
}

/// The shutdown sentinel handed to a connection's writer.
pub open spec fn sentinel_frame() -> Seq<u8> {
    seq![255u8]
}

/// A CONNACK frame.
pub open spec fn connack_frame(session_present: u8, return_code: u8) -> Seq<u8> {
    seq![0x20u8, 0x02u8, session_present, return_code]
}

/// The SUBACK frame answering a SUBSCRIBE: the echoed packet id and one
/// granted-QoS code per topic.
pub open spec fn suback_frame(pid_hi: u8, pid_lo: u8, codes: Seq<u8>) -> Seq<u8> {
    seq![0x90u8] + remaining_length_bytes((codes.len() + 2) as nat) + seq![pid_hi, pid_lo] + codes
}

/// The UNSUBACK frame answering an UNSUBSCRIBE.
pub open spec fn unsuback_frame(pid_hi: u8, pid_lo: u8) -> Seq<u8> {
    seq![0xB0u8, 0x02u8, pid_hi, pid_lo]
}

/// One client after a publication on `topic` reaches it: a subscriber gets
/// the frame on its outbound queue while connected, and a QoS-1 frame is
/// also held for redelivery, with DUP set, while the subscriber holds a
/// matching QoS-1 filter and its session survives.
pub open spec fn publish_to_client(
    c: ClientV,
    topic: Seq<char>,
    frame: Seq<u8>,
    qos1: bool,
) -> ClientV {
    if is_subscribed(c, topic) {
        ClientV {
            publishes_received: if (!c.disconnected || c.clean_session == 0) && qos1
                && is_subscribed_qos1(c, topic) {
                c.publishes_received.push(with_dup(frame))
            } else {
                c.publishes_received
            },
            outbound: if !c.disconnected {
                c.outbound.push(frame)
            } else {
                c.outbound
            },
            ..c
        }
    } else {
        c
    }
}

/// The payload length of a PUBLISH command.
pub open spec fn publish_cmd_payload_len(bytes: Seq<u8>) -> int {
    bytes.len() - 3 - be16(bytes[1], bytes[2]) - if qos_bit_set(bytes[0]) {
        2int
    } else {
        0int
    }
}

/// The state after a PUBLISH command: the re-framed publication reaches
/// every subscriber, and when its RETAIN bit is set the store entry for
/// the topic is replaced — or dropped, when the payload is empty.  A
/// malformed command, or one whose topic is empty or not UTF-8, changes
/// nothing.
pub open spec fn publish_step(s: CoordinatorV, bytes: Seq<u8>) -> CoordinatorV {
    let topic = publish_cmd_topic(bytes);
    if topic.len() == 0 {
        s
    } else {
        let frame = publish_frame_of_cmd(bytes);
        let qos1 = qos_bit_set(bytes[0]);
        CoordinatorV {
            clients: s.clients.map_values(|c: ClientV| publish_to_client(c, topic, frame, qos1)),
            retained: if retain_bit_set(bytes[0]) {
                if publish_cmd_payload_len(bytes) == 0 {
                    retained_remove(s.retained, topic)
                } else {
                    retained_insert(s.retained, topic, frame)
                }
            } else {
                s.retained
            },
        }
    }
}

/// The state after a CONNECT command.  A record holding the same client id
/// is merged into this connection's record and dropped from the table: the
/// session takeover.  The record gets the connection fields, a CONNACK
/// with session-present flagging the takeover, and on takeover the
/// retained frames matching the inherited filters.
pub open spec fn connect_step(s: CoordinatorV, thread_id: nat, bytes: Seq<u8>) -> CoordinatorV {
    match parse_connect_cmd(bytes) {
        None => s,
        Some(cmd) => {
            let j = find_client_by_id(s.clients, cmd.client_id);
            if j == -1 {
                let k = find_client(s.clients, thread_id);
                if k == -1 {
                    s
                } else {
                    let c = s.clients[k];
                    CoordinatorV {
                        clients: s.clients.update(
                            k,
                            ClientV {
                                client_id: cmd.client_id,
                                clean_session: cmd.clean_session,
                                lastwill_topic: cmd.will_topic,
                                lastwill_message: cmd.will_message,
                                lastwill_qos: cmd.will_qos,
                                lastwill_retained: cmd.will_retained,
                                disconnected: false,
                                outbound: c.outbound.push(connack_frame(0, 0)),
                                ..c
                            },
                        ),
                        ..s
                    }
                }
            } else {
                let moved_topics = s.clients[j].topics;
                let moved_pending = s.clients[j].publishes_received;
                let clients1 = s.clients.remove(j);
                let k = find_client(clients1, thread_id);
                if k == -1 {
                    CoordinatorV { clients: clients1, ..s }
                } else {
                    let c = clients1[k];
                    let topics1 = c.topics + moved_topics;
                    CoordinatorV {
                        clients: clients1.update(
                            k,
                            ClientV {
                                client_id: cmd.client_id,
                                clean_session: cmd.clean_session,
                                topics: topics1,
                                publishes_received: c.publishes_received + moved_pending,
                                lastwill_topic: cmd.will_topic,
                                lastwill_message: cmd.will_message,
                                lastwill_qos: cmd.will_qos,
                                lastwill_retained: cmd.will_retained,
                                disconnected: false,
                                outbound: c.outbound.push(connack_frame(1, 0))
                                    + retained_frames_for_filters(
                                    s.retained,
                                    topics1.map_values(|t: SubscriptionV| t.topic),
                                ),
                                ..c
                            },
                        ),
                        ..s
                    }
                }
            }
        },
    }
}

/// The state after a SUBSCRIBE command: the filters are appended to the
/// client's subscriptions, a SUBACK echoing the packet id grants each
/// requested QoS capped at 1, and the retained frames matching each new
/// filter follow it onto the outbound queue.
pub open spec fn subscribe_step(s: CoordinatorV, thread_id: nat, bytes: Seq<u8>) -> CoordinatorV {
    if bytes.len() < 2 {
        s
    } else {
        match subscribe_entries(bytes, 2) {
            None => s,
            Some(entries) => {
                let k = find_client(s.clients, thread_id);
                if k == -1 {
                    s
                } else {
                    let c = s.clients[k];
                    CoordinatorV {
                        clients: s.clients.update(
                            k,
                            ClientV {
                                topics: c.topics + entries,
                                outbound: c.outbound.push(
                                    suback_frame(
                                        bytes[0],
                                        bytes[1],
                                        entries.map_values(|e: SubscriptionV| e.qos),
                                    ),
                                ) + retained_frames_for_filters(
                                    s.retained,
                                    entries.map_values(|e: SubscriptionV| e.topic),
                                ),
                                ..c
                            },
                        ),
                        ..s
                    }
                }
            },
        }
    }
}

/// The state after an UNSUBSCRIBE command: for each named filter the first
/// exactly-equal subscription is dropped, and an UNSUBACK echoes the
/// packet id.
pub open spec fn unsubscribe_step(s: CoordinatorV, thread_id: nat, bytes: Seq<u8>) -> CoordinatorV {
    if bytes.len() < 2 {
        s
    } else {
        match unsubscribe_entries(bytes, 2) {
            None => s,
            Some(filters) => {
                let k = find_client(s.clients, thread_id);
                if k == -1 {
                    s
                } else {
                    let c = s.clients[k];
                    CoordinatorV {
                        clients: s.clients.update(
                            k,
                            ClientV {
                                topics: remove_all_subscriptions(c.topics, filters),
                                outbound: c.outbound.push(unsuback_frame(bytes[0], bytes[1])),
                                ..c
                            },
                        ),
                        ..s
                    }
                }
            },
        }
    }
}

/// The state after a PUBACK: the first redelivery frame carrying the
/// acknowledged packet id leaves the client's queue.
pub open spec fn puback_step(s: CoordinatorV, thread_id: nat, bytes: Seq<u8>) -> CoordinatorV {
    if bytes.len() < 2 {
        s
    } else {
        let k = find_client(s.clients, thread_id);
        if k == -1 {
            s
        } else {
            let c = s.clients[k];
            let i = find_pending_pid(c.publishes_received, be16(bytes[0], bytes[1]));
            if i == -1 {
                s
            } else {
                CoordinatorV {
                    clients: s.clients.update(
                        k,
                        ClientV { publishes_received: c.publishes_received.remove(i), ..c },
                    ),
                    ..s
                }
            }
        }
    }
}

/// The state after a clean DISCONNECT: the writer gets the shutdown
/// sentinel, a clean session loses its subscriptions and queued frames,
/// the record is marked disconnected, and the will is discarded unused.
pub open spec fn close_step(s: CoordinatorV, thread_id: nat) -> CoordinatorV {
    let k = find_client(s.clients, thread_id);
    if k == -1 {
        s
    } else {
        let c = s.clients[k];
        CoordinatorV {
            clients: s.clients.update(
                k,
                ClientV {
                    outbound: c.outbound.push(sentinel_frame()),
                    topics: if c.clean_session == 1 {
                        Seq::<SubscriptionV>::empty()
                    } else {
                        c.topics
                    },
                    publishes_received: if c.clean_session == 1 {
                        Seq::<Seq<u8>>::empty()
                    } else {
                        c.publishes_received
                    },
                    disconnected: true,
                    lastwill_topic: None,
                    lastwill_message: None,
                    ..c
                },
            ),
            ..s
        }
    }
}

/// The PUBLISH command synthesized for a will, carrying the given packet
/// id when the will asks for QoS 1.
pub open spec fn will_cmd_bytes(c: ClientV, pid: u16) -> Seq<u8> {
    let topic_bytes = encode_utf8(c.lastwill_topic.unwrap());
    let message_bytes = encode_utf8(c.lastwill_message.unwrap());
    let byte_0: u8 = 0x30 | (if c.lastwill_qos == 1 {
        0x02u8
    } else {
        0x00u8
    }) | (if c.lastwill_retained {
        0x01u8
    } else {
        0x00u8
    });
    seq![byte_0, (topic_bytes.len() / 256) as u8, (topic_bytes.len() % 256) as u8] + topic_bytes
        + (if c.lastwill_qos == 1 {
        seq![(pid / 256) as u8, (pid % 256) as u8]
    } else {
        seq![]
    }) + message_bytes
}

/// Whether a will can be synthesized at all: both fields present and the
/// topic short enough for its two-byte length field.
pub open spec fn will_fires(c: ClientV) -> bool {
    &&& c.lastwill_topic is Some
    &&& c.lastwill_message is Some
    &&& encode_utf8(c.lastwill_topic.unwrap()).len() <= 65535
}

/// The state after an ungraceful disconnect: a still-connected record is
/// closed as by a clean DISCONNECT, and then the will, if the client left
/// one, is processed as an ordinary publication under the fresh packet id.
pub open spec fn disgrace_step(s: CoordinatorV, thread_id: nat, pid: u16) -> CoordinatorV {
    will_part(disgrace_close(s, thread_id), thread_id, pid)
}

/// The will half of an ungraceful disconnect: when the record left a will,
/// it is processed as an ordinary publication under the drawn packet id.
pub open spec fn will_part(s: CoordinatorV, thread_id: nat, pid: u16) -> CoordinatorV {
    let k = find_client(s.clients, thread_id);
    if k == -1 {
        s
    } else {
        let c = s.clients[k];
        if will_fires(c) {
            publish_step(s, will_cmd_bytes(c, pid))
        } else {
            s
        }
    }
}

/// The state after one redelivery pass: every connected client finds its
/// whole redelivery queue appended to its outbound queue again.  PUBACK is
/// the only thing that empties the queue, so delivery is at least once.
pub open spec fn redelivery_step(s: CoordinatorV) -> CoordinatorV {
    CoordinatorV {
        clients: s.clients.map_values(
            |c: ClientV|
                if !c.disconnected {
                    ClientV { outbound: c.outbound + c.publishes_received, ..c }
                } else {
                    c
                },
        ),
        ..s
    }
}

/// The state after one command envelope; `pid` is the packet id drawn for
/// a will publication, and commands of any other kind ignore it.
pub open spec fn coordinator_step(s: CoordinatorV, cmd: PacketThingsV, pid: u16) -> CoordinatorV {
    match cmd.packet_type {
        Packet::Connect => connect_step(s, cmd.thread_id, cmd.bytes),
        Packet::Subscribe => subscribe_step(s, cmd.thread_id, cmd.bytes),
        Packet::Unsubscribe => unsubscribe_step(s, cmd.thread_id, cmd.bytes),
        Packet::Publish => publish_step(s, cmd.bytes),
        Packet::PubAck => puback_step(s, cmd.thread_id, cmd.bytes),
        Packet::Disconnect => close_step(s, cmd.thread_id),
        Packet::Disgrace => disgrace_step(s, cmd.thread_id, pid),
        _ => s,
    }
}

/// The state after a sequence of commands, processed one at a time in
/// arrival order; `pids` holds the packet id drawn for each command.
pub open spec fn coordinator_run(
    s: CoordinatorV,
    cmds: Seq<PacketThingsV>,
    pids: Seq<u16>,
) -> CoordinatorV
    decreases cmds.len(),
{
    if cmds.len() == 0 {
        s
    } else {
        coordinator_run(coordinator_step(s, cmds[0], pids[0]), cmds.skip(1), pids.skip(1))
    }
}

/// A freshly accepted connection's record, before its CONNECT.
pub open spec fn fresh_client(thread_id: nat) -> ClientV {
    ClientV {
        thread_id,
        client_id: Seq::<char>::empty(),
        outbound: Seq::<Seq<u8>>::empty(),
        topics: Seq::<SubscriptionV>::empty(),
        publishes_received: Seq::<Seq<u8>>::empty(),
        clean_session: 0u8,
        lastwill_topic: None,
        lastwill_message: None,
        lastwill_qos: 0u8,
        lastwill_retained: false,
        disconnected: true,
    }
}

/// The state after the listener accepts a connection: a fresh record under
/// its connection id, replacing any record that already carried that id.
pub open spec fn add_client_step(s: CoordinatorV, thread_id: nat) -> CoordinatorV {
    let k = find_client(s.clients, thread_id);
    if k == -1 {
        CoordinatorV { clients: s.clients.push(fresh_client(thread_id)), ..s }
    } else {
        CoordinatorV { clients: s.clients.update(k, fresh_client(thread_id)), ..s }
    }
}

/// Index of the client record for a connection id.
fn find_client_index(clients: &Vec<Client>, thread_id: usize) -> (index: Option<usize>)
    ensures
        match index {
            Some(k) => {
                &&& k < clients@.len()
                &&& find_client(clients@.map_values(|c: Client| c@), thread_id as nat) == k as int
            },
            None => find_client(clients@.map_values(|c: Client| c@), thread_id as nat) == -1,
        },
{
    let ghost views = clients@.map_values(|c: Client| c@);
    let mut i: usize = 0;

    #[verifier::loop_isolation(false)]
    while i < clients.len()
        invariant
            i <= clients@.len(),
            forall|j: int| 0 <= j < i ==> views[j].thread_id != thread_id as nat,
        decreases clients@.len() - i,
    {
        if clients[i].thread_id == thread_id {
            proof {
                lemma_find_client_is(views, thread_id as nat, i as int);
            }
            return Some(i);
        }
        i = i + 1;
    }
    proof {
        lemma_find_client_none(views, thread_id as nat);
    }
    None
}

impl Coordinator {
    /// A broker with no clients and nothing retained.
    pub fn new() -> (coordinator: Coordinator)
        ensures
            coordinator@ == (CoordinatorV {
                clients: Seq::<ClientV>::empty(),
                retained: Seq::<RetainedV>::empty(),
            }),
            coordinator_wf(coordinator@),
    {
        let coordinator = Coordinator { clients: Vec::new(), retained_messages: Vec::new() };
        proof {
            assert(coordinator@.clients =~= Seq::<ClientV>::empty());
            assert(coordinator@.retained =~= Seq::<RetainedV>::empty());
        }
        coordinator
    }

    /// Insert the record for a freshly accepted connection.
    pub fn add_client(&mut self, thread_id: usize)
        requires
            coordinator_wf(old(self)@),
        ensures
            final(self)@ == add_client_step(old(self)@, thread_id as nat),
            coordinator_wf(final(self)@),
    {
        let index = find_client_index(&self.clients, thread_id);
        let fresh = Client::new(thread_id);
        match index {
            None => {
                self.clients.push(fresh);
                proof {
                    lemma_find_client_props(old(self)@.clients, thread_id as nat);
                    assert(self@.clients =~~= old(self)@.clients.push(fresh_client(
                        thread_id as nat,
                    )));
                    lemma_table_wf_push_fresh(old(self)@.clients, thread_id as nat);
                }
            },
            Some(k) => {
                let slot = &mut self.clients[k];
                *slot = fresh;
                proof {
                    lemma_find_client_props(old(self)@.clients, thread_id as nat);
                    assert(self@.clients =~~= old(self)@.clients.update(
                        k as int,
                        fresh_client(thread_id as nat),
                    ));
                    lemma_table_wf_update(
                        old(self)@.clients,
                        k as int,
                        fresh_client(thread_id as nat),
                    );
                }
            },
        }
    }

    /// Mark a cleanly disconnecting client: hand its writer the shutdown
    /// sentinel, clear a clean session, and discard the will unused.
    pub fn close_process(&mut self, packet: &PacketThings)
        requires
            coordinator_wf(old(self)@),
        ensures
            final(self)@ == close_step(old(self)@, packet.thread_id as nat),
            coordinator_wf(final(self)@),
    {
        let index = find_client_index(&self.clients, packet.thread_id);
        let k = match index {
            Some(k) => k,
            None => {
                return ;
            },
        };
        let sentinel = vec![255u8];
        proof {
            assert(sentinel@ =~= sentinel_frame());
        }
        let c = &mut self.clients[k];
        c.outbound.push(sentinel);
        if c.clean_session == 1 {
            c.topics = Vec::new();
            c.publishes_received = Vec::new();
        }
        c.disconnected = true;
        c.lastwill_topic = None;
        c.lastwill_message = None;
        proof {
            let ghost cv = old(self)@.clients[k as int];
            assert(self@.clients =~~= old(self)@.clients.update(
                k as int,
                ClientV {
                    outbound: cv.outbound.push(sentinel_frame()),
                    topics: if cv.clean_session == 1 {
                        Seq::<SubscriptionV>::empty()
                    } else {
                        cv.topics
                    },
                    publishes_received: if cv.clean_session == 1 {
                        Seq::<Seq<u8>>::empty()
                    } else {
                        cv.publishes_received
                    },
                    disconnected: true,
                    lastwill_topic: None,
                    lastwill_message: None,
                    ..cv
                },
            ));
            assert(pending_wf(cv.publishes_received));
            lemma_table_wf_update(old(self)@.clients, k as int, self@.clients[k as int]);
        }
    }

    /// Apply a SUBSCRIBE command: append the requested filters to the
    /// client's subscriptions, answer with a SUBACK granting each QoS
    /// capped at 1, and deliver the retained frames the new filters match.
    pub fn process_subscribe(&mut self, packet: &PacketThings)
        requires
            coordinator_wf(old(self)@),
        ensures
            final(self)@ == subscribe_step(old(self)@, packet.thread_id as nat, packet.bytes@),
            coordinator_wf(final(self)@),
    {
        let entries = match crate::server::packet::parse_subscribe_topics(&packet.bytes) {
            Some(entries) => entries,
            None => {
                return ;
            },
        };
        let index = find_client_index(&self.clients, packet.thread_id);
        let k = match index {
            Some(k) => k,
            None => {
                return ;
            },
        };
        let ghost entries_v = entries@.map_values(|s: Subscription| s@);
        let mut codes = Vec::<u8>::new();
        let mut i: usize = 0;

        #[verifier::loop_isolation(false)]
        while i < entries.len()
            invariant
                i <= entries@.len(),
                codes@ == entries_v.map_values(|e: SubscriptionV| e.qos).take(i as int),
            decreases entries@.len() - i,
        {
            codes.push(entries[i].qos);
            i = i + 1;
            proof {
                assert(codes@ =~= entries_v.map_values(|e: SubscriptionV| e.qos).take(i as int));
            }
        }
        proof {
            assert(codes@ =~= entries_v.map_values(|e: SubscriptionV| e.qos));
        }
        let total_len = packet.bytes.len();
        let n_codes = codes.len();
        proof {
            assert(n_codes * 3 + 2 <= total_len);
        }
        let mut suback = Vec::<u8>::new();
        suback.push(0x90);
        let mut length_field = crate::server::utils::remaining_length_encode(n_codes + 2);
        suback.append(&mut length_field);
        suback.push(packet.bytes[0]);
        suback.push(packet.bytes[1]);
        let ghost code_views = codes@;
        suback.append(&mut codes);
        proof {
            assert(suback@ =~= suback_frame(packet.bytes@[0], packet.bytes@[1], code_views));
        }
        let retained_list = collect_retained(&self.retained_messages, &entries);
        let ghost retained_views = retained_list@.map_values(|f: Vec<u8>| f@);
        proof {
            assert(entries@.map_values(|s: Subscription| s@.topic) =~= entries_v.map_values(
                |e: SubscriptionV| e.topic,
            ));
        }
        let mut entries_vec = entries;
        let mut retained_vec = retained_list;
        let c = &mut self.clients[k];
        c.topics.append(&mut entries_vec);
        c.outbound.push(suback);
        c.outbound.append(&mut retained_vec);
        proof {
            let ghost cv = old(self)@.clients[k as int];
            assert(self@.clients =~~= old(self)@.clients.update(
                k as int,
                ClientV {
                    topics: cv.topics + entries_v,
                    outbound: cv.outbound.push(
                        suback_frame(packet.bytes@[0], packet.bytes@[1], code_views),
                    ) + retained_views,
                    ..cv
                },
            ));
            assert(pending_wf(cv.publishes_received));
            lemma_table_wf_update(old(self)@.clients, k as int, self@.clients[k as int]);
        }
    }

    /// Apply an UNSUBSCRIBE command: drop the first exactly-equal
    /// subscription for each named filter and answer with an UNSUBACK.
    pub fn unsubscribe_process(&mut self, packet: &PacketThings)
        requires
            coordinator_wf(old(self)@),
        ensures
            final(self)@ == unsubscribe_step(old(self)@, packet.thread_id as nat, packet.bytes@),
            coordinator_wf(final(self)@),
    {
        let filters = match crate::server::packet::parse_unsubscribe_topics(&packet.bytes) {
            Some(filters) => filters,
            None => {
                return ;
            },
        };
        let index = find_client_index(&self.clients, packet.thread_id);
        let k = match index {
            Some(k) => k,
            None => {
                return ;
            },
        };
        let ghost filters_v = filters@.map_values(|t: String| t@);
        let unsuback = vec![0xB0u8, 0x02u8, packet.bytes[0], packet.bytes[1]];
        proof {
            assert(unsuback@ =~= unsuback_frame(packet.bytes@[0], packet.bytes@[1]));
        }
        let c = &mut self.clients[k];
        let ghost c0 = c@;
        let mut i: usize = 0;

        #[verifier::loop_isolation(false)]
        while i < filters.len()
            invariant
                i <= filters@.len(),
                c@ == (ClientV {
                    topics: remove_all_subscriptions(c0.topics, filters_v.take(i as int)),
                    ..c0
                }),
            decreases filters@.len() - i,
        {
            proof {
                assert(filters_v.take(i as int + 1) =~= filters_v.take(i as int).push(
                    filters_v[i as int],
                ));
                lemma_remove_all_snoc(c0.topics, filters_v.take(i as int), filters_v[i as int]);
            }
            c.unsubscribe(filters[i].clone());
            i = i + 1;
        }
        proof {
            assert(filters_v.take(filters@.len() as int) =~= filters_v);
        }
        c.outbound.push(unsuback);
        proof {
            let ghost cv = old(self)@.clients[k as int];
            assert(self@.clients =~~= old(self)@.clients.update(
                k as int,
                ClientV {
                    topics: remove_all_subscriptions(cv.topics, filters_v),
                    outbound: cv.outbound.push(
                        unsuback_frame(packet.bytes@[0], packet.bytes@[1]),
                    ),
                    ..cv
                },
            ));
            assert(pending_wf(cv.publishes_received));
            lemma_table_wf_update(old(self)@.clients, k as int, self@.clients[k as int]);
        }
    }

    /// Fan a publication out: every subscriber to `topic_name` gets the
    /// re-framed publication on its outbound queue while connected, and a
    /// QoS-1 publication is also queued for redelivery, with DUP set, for
    /// subscribers holding a matching QoS-1 filter whose session survives.
    /// Returns the frame that was fanned out.
    pub fn send_publish_to_customer(&mut self, packet: &PacketThings, topic_name: &String) -> (frame:
        Vec<u8>)
        requires
            coordinator_wf(old(self)@),
            topic_name@ == publish_cmd_topic(packet.bytes@),
            topic_name@.len() > 0,
        ensures
            frame@ == publish_frame_of_cmd(packet.bytes@),
            final(self)@.clients == old(self)@.clients.map_values(
                |c: ClientV|
                    publish_to_client(
                        c,
                        publish_cmd_topic(packet.bytes@),
                        publish_frame_of_cmd(packet.bytes@),
                        qos_bit_set(packet.bytes@[0]),
                    ),
            ),
            final(self)@.retained == old(self)@.retained,
            coordinator_wf(final(self)@),
    {
        let ghost topic = publish_cmd_topic(packet.bytes@);
        let ghost frame_v = publish_frame_of_cmd(packet.bytes@);
        let ghost qos1_g = qos_bit_set(packet.bytes@[0]);
        proof {
            assert(publish_cmd_wf(packet.bytes@));
        }
        let body = crate::text::sub_vec(&packet.bytes, 1, packet.bytes.len());
        let mut frame = Vec::<u8>::new();
        frame.push(0x30 | (packet.bytes[0] & 0x02));
        let mut length_field = crate::server::utils::remaining_length_encode(body.len());
        frame.append(&mut length_field);
        let mut body_vec = body;
        frame.append(&mut body_vec);
        proof {
            assert(packet.bytes@.subrange(1, packet.bytes@.len() as int) =~= packet.bytes@.skip(
                1,
            ));
            assert(frame@ =~= frame_v);
        }
        let qos1 = (packet.bytes[0] & 0x02) == 2;
        let n = self.clients.len();
        let mut i: usize = 0;

        #[verifier::loop_isolation(false)]
        while i < n
            invariant
                i <= n,
                n == old(self)@.clients.len(),
                self@.clients.len() == n,
                self@.retained == old(self)@.retained,
                frame@ == frame_v,
                forall|j: int| i <= j < n ==> self@.clients[j] == old(self)@.clients[j],
                forall|j: int|
                    0 <= j < i ==> self@.clients[j] == publish_to_client(
                        #[trigger] old(self)@.clients[j],
                        topic,
                        frame_v,
                        qos1_g,
                    ),
            decreases n - i,
        {
            let ghost cv = old(self)@.clients[i as int];
            let subscribed = self.clients[i].is_subscribed_to(topic_name.as_str());
            if subscribed {
                let qos1_sub = if qos1 {
                    self.clients[i].is_subscribed_to_qos1(topic_name.as_str())
                } else {
                    false
                };
                let frame_copy = crate::text::sub_vec(&frame, 0, frame.len());
                let c = &mut self.clients[i];
                if (!c.disconnected || c.clean_session == 0) && qos1 && qos1_sub {
                    let mut dup_copy = crate::text::sub_vec(&frame_copy, 0, frame_copy.len());
                    let first = dup_copy[0];
                    let slot = &mut dup_copy[0];
                    *slot = first | 0x08;
                    proof {
                        assert(dup_copy@ =~= with_dup(frame_v));
                    }
                    c.publishes_received.push(dup_copy);
                }
                if !c.disconnected {
                    c.outbound.push(frame_copy);
                }
                proof {
                    assert(frame_copy@ == frame_v);
                    assert(self@.clients[i as int] =~~= publish_to_client(
                        cv,
                        topic,
                        frame_v,
                        qos1_g,
                    ));
                }
            } else {
                proof {
                    assert(self@.clients[i as int] =~~= publish_to_client(
                        cv,
                        topic,
                        frame_v,
                        qos1_g,
                    ));
                }
            }
            i = i + 1;
        }
        proof {
            assert(self@.clients =~~= old(self)@.clients.map_values(
                |c: ClientV| publish_to_client(c, topic, frame_v, qos1_g),
            ));
            if qos1_g {
                lemma_queued_publish_frame(packet.bytes@);
            }
            let cs = self@.clients;
            let os = old(self)@.clients;
            assert forall|x: int, y: int|
                0 <= x < cs.len() && 0 <= y < cs.len() && x != y implies #[trigger] cs[x].thread_id
                != #[trigger] cs[y].thread_id by {
                assert(os[x].thread_id != os[y].thread_id);
            }
            assert forall|x: int, y: int|
                0 <= x < cs.len() && 0 <= y < cs.len() && x != y && cs[x].client_id.len()
                > 0 implies #[trigger] cs[x].client_id != #[trigger] cs[y].client_id by {
                assert(os[x].client_id != os[y].client_id);
            }
            assert forall|x: int| 0 <= x < cs.len() implies pending_wf(
                #[trigger] cs[x].publishes_received,
            ) by {
                assert(pending_wf(os[x].publishes_received));
                let pending1 = cs[x].publishes_received;
                assert forall|j: int| 0 <= j < pending1.len() implies queued_publish_wf(
                    #[trigger] pending1[j],
                ) by {
                    if j < os[x].publishes_received.len() {
                        assert(pending1[j] == os[x].publishes_received[j]);
                    } else {
                        assert(pending1[j] == with_dup(frame_v));
                    }
                }
            }
        }
        frame
    }

    /// Replace or, for an empty payload, drop the retained entry for a
    /// topic.
    fn store_retained(&mut self, topic_name: String, frame: Vec<u8>, delete: bool)
        requires
            coordinator_wf(old(self)@),
        ensures
            final(self)@.clients == old(self)@.clients,
            final(self)@.retained == if delete {
                retained_remove(old(self)@.retained, topic_name@)
            } else {
                retained_insert(old(self)@.retained, topic_name@, frame@)
            },
            coordinator_wf(final(self)@),
    {
        let ghost rv = old(self)@.retained;
        let n = self.retained_messages.len();
        let mut found = n;
        let mut i: usize = 0;

        #[verifier::loop_isolation(false)]
        while i < n
            invariant
                i <= n,
                n == rv.len(),
                found <= n,
                self == old(self),
                found == n ==> forall|j: int| 0 <= j < i ==> rv[j].topic != topic_name@,
                found < n ==> {
                    &&& found < i
                    &&& rv[found as int].topic == topic_name@
                    &&& forall|j: int| 0 <= j < found ==> rv[j].topic != topic_name@
                },
            decreases n - i,
        {
            if found == n {
                if self.retained_messages[i].topic == topic_name {
                    found = i;
                }
            }
            i = i + 1;
        }
        proof {
            if found == n {
                lemma_find_retained_none(rv, topic_name@);
            } else {
                lemma_find_retained_is(rv, topic_name@, found as int);
            }
        }
        if delete {
            if found < n {
                self.retained_messages.remove(found);
                proof {
                    assert(self@.retained =~~= rv.remove(found as int));
                    let rs = self@.retained;
                    assert forall|x: int, y: int|
                        0 <= x < rs.len() && 0 <= y < rs.len() && x != y implies #[trigger] rs[x].topic
                        != #[trigger] rs[y].topic by {
                        let ox = if x < found { x } else { x + 1 };
                        let oy = if y < found { y } else { y + 1 };
                        assert(rs[x] == rv[ox] && rs[y] == rv[oy]);
                        assert(rv[ox].topic != rv[oy].topic);
                    }
                }
            }
        } else {
            if found < n {
                let slot = &mut self.retained_messages[found];
                slot.frame = frame;
                proof {
                    assert(self@.retained =~~= rv.update(
                        found as int,
                        RetainedV { topic: topic_name@, frame: frame@ },
                    ));
                    let rs = self@.retained;
                    assert forall|x: int, y: int|
                        0 <= x < rs.len() && 0 <= y < rs.len() && x != y implies #[trigger] rs[x].topic
                        != #[trigger] rs[y].topic by {
                        assert(rv[x].topic != rv[y].topic);
                    }
                }
            } else {
                self.retained_messages.push(RetainedMessage { topic: topic_name, frame });
                proof {
                    assert(self@.retained =~~= rv.push(
                        RetainedV { topic: topic_name@, frame: frame@ },
                    ));
                    let rs = self@.retained;
                    assert forall|x: int, y: int|
                        0 <= x < rs.len() && 0 <= y < rs.len() && x != y implies #[trigger] rs[x].topic
                        != #[trigger] rs[y].topic by {
                        if x < rv.len() && y < rv.len() {
                            assert(rv[x].topic != rv[y].topic);
                        } else if x == rv.len() as int {
                            assert(rv[y].topic != topic_name@);
                        } else {
                            assert(rv[x].topic != topic_name@);
                        }
                    }
                }
            }
        }
    }

    /// Apply a PUBLISH command: fan the publication out to the subscribers
    /// and, when its RETAIN bit is set, update the retained store — a
    /// publication with an empty payload deletes the entry for its topic.
    pub fn apply_publish(&mut self, packet: &PacketThings)
        requires
            coordinator_wf(old(self)@),
        ensures
            final(self)@ == publish_step(old(self)@, packet.bytes@),
            coordinator_wf(final(self)@),
    {
        let topic_name = crate::server::packet::process_publish(packet);
        if topic_name.as_str().is_empty() {
            return ;
        }
        proof {
            assert(publish_cmd_wf(packet.bytes@));
        }
        let frame = self.send_publish_to_customer(packet, &topic_name);
        if crate::server::packet::is_to_retained(packet) {
            let topic_size: usize = (packet.bytes[1] as usize) * 256 + packet.bytes[2] as usize;
            let used: usize = if packet.bytes[0] & 0x02 == 2 {
                topic_size + 5
            } else {
                topic_size + 3
            };
            let delete = packet.bytes.len() == used;
            proof {
                assert(delete == (publish_cmd_payload_len(packet.bytes@) == 0));
            }
            self.store_retained(topic_name, frame, delete);
        }
        proof {
            assert(self@ =~~= publish_step(old(self)@, packet.bytes@));
        }
    }

    /// Drop the first queued QoS-1 frame carrying the packet id a PUBACK
    /// acknowledged: the only way a frame ever leaves the redelivery queue.
    pub fn remove_publishes(&mut self, packet: &PacketThings)
        requires
            coordinator_wf(old(self)@),
        ensures
            final(self)@ == puback_step(old(self)@, packet.thread_id as nat, packet.bytes@),
            coordinator_wf(final(self)@),
    {
        if packet.bytes.len() < 2 {
            return ;
        }
        let index = find_client_index(&self.clients, packet.thread_id);
        let k = match index {
            Some(k) => k,
            None => {
                return ;
            },
        };
        let pid: u16 = (packet.bytes[0] as u16) * 256 + packet.bytes[1] as u16;
        let ghost pending = old(self)@.clients[k as int].publishes_received;
        proof {
            assert(pending_wf(pending));
        }
        let pending_len = self.clients[k].publishes_received.len();
        let mut found = pending_len;
        let mut i: usize = 0;

        #[verifier::loop_isolation(false)]
        while i < pending_len
            invariant
                i <= pending_len,
                found <= pending_len,
                found == pending_len ==> forall|j: int|
                    0 <= j < i ==> queued_publish_pid(#[trigger] pending[j]) != pid as nat,
                found < pending_len ==> {
                    &&& found < i
                    &&& queued_publish_pid(pending[found as int]) == pid as nat
                    &&& forall|j: int|
                        0 <= j < found ==> queued_publish_pid(#[trigger] pending[j]) != pid as nat
                },
            decreases pending_len - i,
        {
            if found == pending_len {
                let frame_ref = &self.clients[k].publishes_received[i];
                proof {
                    let ghost ci = i as int;
                    assert(pending[ci] == self.clients@[k as int]@.publishes_received[ci]);
                    assert(frame_ref@ == pending[ci]);
                    assert(queued_publish_wf(pending[ci]));
                }
                let frame_pid = read_queued_pid(frame_ref);
                if frame_pid == pid {
                    found = i;
                }
            }
            i = i + 1;
        }
        if found == pending_len {
            proof {
                lemma_find_pending_pid_none(pending, pid as nat);
            }
            return ;
        }
        proof {
            lemma_find_pending_pid_is(pending, pid as nat, found as int);
        }
        let c = &mut self.clients[k];
        c.publishes_received.remove(found);
        proof {
            let ghost cv = old(self)@.clients[k as int];
            assert(self@.clients =~~= old(self)@.clients.update(
                k as int,
                ClientV { publishes_received: cv.publishes_received.remove(found as int), ..cv },
            ));
            assert forall|j: int|
                0 <= j < pending.remove(found as int).len() implies queued_publish_wf(
                #[trigger] pending.remove(found as int)[j],
            ) by {
                if j < found {
                    assert(pending.remove(found as int)[j] == pending[j]);
                } else {
                    assert(pending.remove(found as int)[j] == pending[j + 1]);
                }
            }
            lemma_table_wf_update(old(self)@.clients, k as int, self@.clients[k as int]);
        }
    }

    /// Apply a CONNECT command: give the record its identity, session
    /// flags and will, and answer with a CONNACK.  A record already
    /// holding the same client id is merged into this one and dropped —
    /// the session takeover — in which case the CONNACK flags the session
    /// as present, the inherited filters' retained frames are delivered,
    /// and the dropped record's connection id is returned so its writer
    /// can be told to shut down.
    pub fn process_client_id_and_info(&mut self, packet: &PacketThings) -> (removed: Option<
        usize,
    >)
        requires
            coordinator_wf(old(self)@),
        ensures
            final(self)@ == connect_step(old(self)@, packet.thread_id as nat, packet.bytes@),
            coordinator_wf(final(self)@),
            match parse_connect_cmd(packet.bytes@) {
                Some(cmd) => {
                    let j = find_client_by_id(old(self)@.clients, cmd.client_id);
                    if j == -1 {
                        removed is None
                    } else {
                        removed matches Some(t) && t as nat == old(self)@.clients[j].thread_id
                    }
                },
                None => removed is None,
            },
    {
        let ghost cs = old(self)@.clients;
        let cmd = match crate::server::packet::read_connect_cmd(&packet.bytes) {
            Some(cmd) => cmd,
            None => {
                return None;
            },
        };
        proof {
            crate::server::packet::lemma_connect_cmd_id_nonempty(packet.bytes@);
        }
        let n = self.clients.len();
        let mut j = n;
        let mut i: usize = 0;

        #[verifier::loop_isolation(false)]
        while i < n
            invariant
                i <= n,
                n == cs.len(),
                j <= n,
                j == n ==> forall|x: int| 0 <= x < i ==> cs[x].client_id != cmd@.client_id,
                j < n ==> {
                    &&& j < i
                    &&& cs[j as int].client_id == cmd@.client_id
                    &&& forall|x: int| 0 <= x < j ==> cs[x].client_id != cmd@.client_id
                },
            decreases n - i,
        {
            if j == n {
                if self.clients[i].client_id == cmd.client_id {
                    j = i;
                }
            }
            i = i + 1;
        }
        if j == n {
            proof {
                lemma_find_client_by_id_none(cs, cmd@.client_id);
            }
            let index = find_client_index(&self.clients, packet.thread_id);
            let k = match index {
                Some(k) => k,
                None => {
                    return None;
                },
            };
            let connack = crate::server::packet::build_connack(
                0,
                crate::server::packet::SUCCESSFUL_CONNECTION,
            );
            proof {
                assert(connack@ =~= connack_frame(0, 0));
            }
            let c = &mut self.clients[k];
            c.client_id = cmd.client_id;
            c.clean_session = cmd.clean_session;
            c.lastwill_topic = cmd.will_topic;
            c.lastwill_message = cmd.will_message;
            c.lastwill_qos = cmd.will_qos;
            c.lastwill_retained = cmd.will_retained;
            c.disconnected = false;
            c.outbound.push(connack);
            proof {
                let ghost cv = cs[k as int];
                assert(self@.clients =~~= cs.update(
                    k as int,
                    ClientV {
                        client_id: cmd@.client_id,
                        clean_session: cmd@.clean_session,
                        lastwill_topic: cmd@.will_topic,
                        lastwill_message: cmd@.will_message,
                        lastwill_qos: cmd@.will_qos,
                        lastwill_retained: cmd@.will_retained,
                        disconnected: false,
                        outbound: cv.outbound.push(connack_frame(0, 0)),
                        ..cv
                    },
                ));
                assert(pending_wf(cv.publishes_received));
                lemma_table_wf_update_new_id(cs, k as int, self@.clients[k as int]);
            }
            return None;
        }
        proof {
            lemma_find_client_by_id_is(cs, cmd@.client_id, j as int);
        }
        let removed_client = self.clients.remove(j);
        let removed_tid = removed_client.thread_id;
        let mut moved_topics = removed_client.topics;
        let mut moved_pending = removed_client.publishes_received;
        let ghost cs1 = cs.remove(j as int);
        proof {
            assert(self@.clients =~~= cs1);
            lemma_table_wf_remove(cs, j as int);
        }
        let index = find_client_index(&self.clients, packet.thread_id);
        let k = match index {
            Some(k) => k,
            None => {
                return Some(removed_tid);
            },
        };
        let connack = crate::server::packet::build_connack(
            1,
            crate::server::packet::SUCCESSFUL_CONNECTION,
        );
        proof {
            assert(connack@ =~= connack_frame(1, 0));
        }
        let ghost cv = cs1[k as int];
        let ghost moved_topics_v = cv.topics + cs[j as int].topics;
        let c = &mut self.clients[k];
        c.client_id = cmd.client_id;
        c.clean_session = cmd.clean_session;
        c.topics.append(&mut moved_topics);
        c.publishes_received.append(&mut moved_pending);
        c.lastwill_topic = cmd.will_topic;
        c.lastwill_message = cmd.will_message;
        c.lastwill_qos = cmd.will_qos;
        c.lastwill_retained = cmd.will_retained;
        c.disconnected = false;
        c.outbound.push(connack);
        proof {
            assert(self.clients@[k as int]@.topics =~= moved_topics_v);
        }
        let retained_list = collect_retained(&self.retained_messages, &self.clients[k].topics);
        let ghost retained_views = retained_list@.map_values(|f: Vec<u8>| f@);
        proof {
            assert(self.clients@[k as int].topics@.map_values(|s: Subscription| s@.topic)
                =~= moved_topics_v.map_values(|t: SubscriptionV| t.topic));
            assert(retained_views == retained_frames_for_filters(
                old(self)@.retained,
                moved_topics_v.map_values(|t: SubscriptionV| t.topic),
            ));
        }
        let mut retained_vec = retained_list;
        let c2 = &mut self.clients[k];
        c2.outbound.append(&mut retained_vec);
        proof {
            assert(self@.clients =~~= cs1.update(
                k as int,
                ClientV {
                    client_id: cmd@.client_id,
                    clean_session: cmd@.clean_session,
                    topics: moved_topics_v,
                    publishes_received: cv.publishes_received + cs[j as int].publishes_received,
                    lastwill_topic: cmd@.will_topic,
                    lastwill_message: cmd@.will_message,
                    lastwill_qos: cmd@.will_qos,
                    lastwill_retained: cmd@.will_retained,
                    disconnected: false,
                    outbound: cv.outbound.push(connack_frame(1, 0)) + retained_views,
                    ..cv
                },
            ));
            let c1 = self@.clients[k as int];
            assert forall|x: int| 0 <= x < cs1.len() && x != k implies cs1[x].client_id
                != c1.client_id by {
                let ox = if x < j {
                    x
                } else {
                    x + 1
                };
                assert(cs1[x] == cs[ox]);
                if cs[ox].client_id == cmd@.client_id {
                    assert(cs[ox].client_id == cs[j as int].client_id);
                    assert(cs[ox].client_id.len() > 0);
                    assert(ox != j);
                    assert(false);
                }
            }
            assert forall|y: int|
                0 <= y < c1.publishes_received.len() implies queued_publish_wf(
                #[trigger] c1.publishes_received[y],
            ) by {
                assert(pending_wf(cv.publishes_received));
                assert(pending_wf(cs[j as int].publishes_received));
                if y < cv.publishes_received.len() {
                    assert(c1.publishes_received[y] == cv.publishes_received[y]);
                } else {
                    assert(c1.publishes_received[y] == cs[j as int].publishes_received[y
                        - cv.publishes_received.len()]);
                }
            }
            lemma_table_wf_update_new_id(cs1, k as int, c1);
        }
        Some(removed_tid)
    }

    /// Publish the will a vanished client left, if any, as an ordinary
    /// publication under a freshly drawn packet id.
    pub fn send_lastwill(&mut self, packet: &PacketThings)
        requires
            coordinator_wf(old(self)@),
        ensures
            exists|pid: u16|
                final(self)@ == will_part(old(self)@, packet.thread_id as nat, pid),
            coordinator_wf(final(self)@),
    {
        let ghost tid = packet.thread_id as nat;
        let index = find_client_index(&self.clients, packet.thread_id);
        let k = match index {
            Some(k) => k,
            None => {
                proof {
                    assert(self@ == will_part(old(self)@, tid, 0u16));
                }
                return ;
            },
        };
        let ghost cv = old(self)@.clients[k as int];
        proof {
            assert(cv == self.clients@[k as int]@);
        }
        let topic = match &self.clients[k].lastwill_topic {
            Some(topic) => topic.clone(),
            None => {
                proof {
                    assert(self@ == will_part(old(self)@, tid, 0u16));
                }
                return ;
            },
        };
        let message = match &self.clients[k].lastwill_message {
            Some(message) => message.clone(),
            None => {
                proof {
                    assert(self@ == will_part(old(self)@, tid, 0u16));
                }
                return ;
            },
        };
        proof {
            assert(cv.lastwill_topic == Some(topic@));
            assert(cv.lastwill_message == Some(message@));
        }
        let topic_byte_slice = topic.as_str().as_bytes();
        let topic_len = topic_byte_slice.len();
        proof {
            assert(topic_byte_slice@ == encode_utf8(topic@));
            assert(topic_len == encode_utf8(topic@).len());
        }
        if topic_len > 65535 {
            proof {
                assert(!will_fires(cv));
                assert(self@ == will_part(old(self)@, tid, 0u16));
            }
            return ;
        }
        let pid: u16 = rand::random::<u16>();
        let qos1 = self.clients[k].lastwill_qos == 1;
        let retain = self.clients[k].lastwill_retained;
        let byte_0: u8 = 0x30 | (if qos1 {
            0x02u8
        } else {
            0x00u8
        }) | (if retain {
            0x01u8
        } else {
            0x00u8
        });
        let mut cmd_bytes = Vec::<u8>::new();
        cmd_bytes.push(byte_0);
        cmd_bytes.push((topic_len / 256) as u8);
        cmd_bytes.push((topic_len % 256) as u8);
        crate::server::packet::push_bytes(&mut cmd_bytes, topic_byte_slice);
        if qos1 {
            cmd_bytes.push((pid / 256) as u8);
            cmd_bytes.push((pid % 256) as u8);
        }
        crate::server::packet::push_bytes(&mut cmd_bytes, message.as_str().as_bytes());
        proof {
            assert(will_fires(cv));
            assert(cmd_bytes@ =~= will_cmd_bytes(cv, pid));
        }
        let synthesized = PacketThings {
            thread_id: packet.thread_id,
            packet_type: Packet::Publish,
            bytes: cmd_bytes,
        };
        self.apply_publish(&synthesized);
        proof {
            assert(self@ == will_part(old(self)@, tid, pid));
        }
    }

    /// Mark an ungracefully closed client, unless its record was already
    /// offline; the will stays for `send_lastwill`.
    pub fn close_disgraceful(&mut self, packet: &PacketThings)
        requires
            coordinator_wf(old(self)@),
        ensures
            final(self)@ == disgrace_close(old(self)@, packet.thread_id as nat),
            coordinator_wf(final(self)@),
    {
        let index = find_client_index(&self.clients, packet.thread_id);
        let k = match index {
            Some(k) => k,
            None => {
                return ;
            },
        };
        if self.clients[k].disconnected {
            proof {
                assert(self@.clients =~~= old(self)@.clients.update(
                    k as int,
                    old(self)@.clients[k as int],
                ));
            }
            return ;
        }
        let sentinel = vec![255u8];
        proof {
            assert(sentinel@ =~= sentinel_frame());
        }
        let c = &mut self.clients[k];
        c.outbound.push(sentinel);
        if c.clean_session == 1 {
            c.topics = Vec::new();
            c.publishes_received = Vec::new();
        }
        c.disconnected = true;
        proof {
            let ghost cv = old(self)@.clients[k as int];
            assert(self@.clients =~~= old(self)@.clients.update(
                k as int,
                ClientV {
                    outbound: cv.outbound.push(sentinel_frame()),
                    topics: if cv.clean_session == 1 {
                        Seq::<SubscriptionV>::empty()
                    } else {
                        cv.topics
                    },
                    publishes_received: if cv.clean_session == 1 {
                        Seq::<Seq<u8>>::empty()
                    } else {
                        cv.publishes_received
                    },
                    disconnected: true,
                    ..cv
                },
            ));
            assert(pending_wf(cv.publishes_received));
            lemma_table_wf_update(old(self)@.clients, k as int, self@.clients[k as int]);
        }
    }
}

impl Coordinator {
    /// Apply one command envelope.  The drawn packet id the step is taken
    /// under exists rather than being named, because only a will
    /// publication draws one, at random.  Returns the connection id of a
    /// record a session takeover dropped, so its writer can be shut down.
    pub fn process_command(&mut self, packet: &PacketThings) -> (removed: Option<usize>)
        requires
            coordinator_wf(old(self)@),
        ensures
            exists|pid: u16| final(self)@ == coordinator_step(old(self)@, packet@, pid),
            coordinator_wf(final(self)@),
            match packet.packet_type {
                Packet::Connect => match parse_connect_cmd(packet.bytes@) {
                    Some(cmd) => {
                        let j = find_client_by_id(old(self)@.clients, cmd.client_id);
                        if j == -1 {
                            removed is None
                        } else {
                            removed matches Some(t) && t as nat == old(self)@.clients[j].thread_id
                        }
                    },
                    None => removed is None,
                },
                _ => removed is None,
            },
    {
        match &packet.packet_type {
            Packet::Connect => {
                let removed = self.process_client_id_and_info(packet);
                proof {
                    assert(self@ == coordinator_step(old(self)@, packet@, 0u16));
                }
                removed
            },
            Packet::Subscribe => {
                self.process_subscribe(packet);
                proof {
                    assert(self@ == coordinator_step(old(self)@, packet@, 0u16));
                }
                None
            },
            Packet::Unsubscribe => {
                self.unsubscribe_process(packet);
                proof {
                    assert(self@ == coordinator_step(old(self)@, packet@, 0u16));
                }
                None
            },
            Packet::Publish => {
                self.apply_publish(packet);
                proof {
                    assert(self@ == coordinator_step(old(self)@, packet@, 0u16));
                }
                None
            },
            Packet::PubAck => {
                self.remove_publishes(packet);
                proof {
                    assert(self@ == coordinator_step(old(self)@, packet@, 0u16));
                }
                None
            },
            Packet::Disconnect => {
                self.close_process(packet);
                proof {
                    assert(self@ == coordinator_step(old(self)@, packet@, 0u16));
                }
                None
            },
            Packet::Disgrace => {
                let ghost tid = packet.thread_id as nat;
                self.close_disgraceful(packet);
                let ghost mid = self@;
                self.send_lastwill(packet);
                proof {
                    let pid = choose|p: u16| self@ == will_part(mid, tid, p);
                    assert(self@ == coordinator_step(old(self)@, packet@, pid));
                }
                None
            },
            _ => {
                proof {
                    assert(self@ == coordinator_step(old(self)@, packet@, 0u16));
                }
                None
            },
        }
    }

    /// One pass of the redelivery loop: every connected client gets its
    /// whole redelivery queue enqueued again.  Only a PUBACK removes a
    /// frame from the queue, so an unacknowledged QoS-1 publication is
    /// sent again and again: delivery at least once.
    pub fn resend_stacked_messages(&mut self)
        requires
            coordinator_wf(old(self)@),
        ensures
            final(self)@ == redelivery_step(old(self)@),
            coordinator_wf(final(self)@),
    {
        let n = self.clients.len();
        let mut i: usize = 0;

        #[verifier::loop_isolation(false)]
        while i < n
            invariant
                i <= n,
                n == old(self)@.clients.len(),
                self@.clients.len() == n,
                self@.retained == old(self)@.retained,
                forall|x: int| i <= x < n ==> self@.clients[x] == old(self)@.clients[x],
                forall|x: int|
                    0 <= x < i ==> self@.clients[x] == (if !old(self)@.clients[x].disconnected {
                        ClientV {
                            outbound: #[trigger] old(self)@.clients[x].outbound + old(
                                self,
                            )@.clients[x].publishes_received,
                            ..old(self)@.clients[x]
                        }
                    } else {
                        old(self)@.clients[x]
                    }),
            decreases n - i,
        {
            let ghost cv = old(self)@.clients[i as int];
            if !self.clients[i].disconnected {
                let c = &mut self.clients[i];
                let ghost c0 = c@;
                let m = c.publishes_received.len();
                let mut j: usize = 0;

                #[verifier::loop_isolation(false)]
                while j < m
                    invariant
                        j <= m,
                        m == c0.publishes_received.len(),
                        c@ == (ClientV {
                            outbound: c0.outbound + c0.publishes_received.take(j as int),
                            ..c0
                        }),
                    decreases m - j,
                {
                    let frame_len = c.publishes_received[j].len();
                    let copy = crate::text::sub_vec(&c.publishes_received[j], 0, frame_len);
                    proof {
                        assert(copy@ =~= c0.publishes_received[j as int]);
                    }
                    c.outbound.push(copy);
                    proof {
                        assert(c0.publishes_received.take(j as int + 1)
                            =~= c0.publishes_received.take(j as int).push(
                            c0.publishes_received[j as int],
                        ));
                        assert(c@.outbound =~= (c0.outbound + c0.publishes_received.take(
                            j as int,
                        )).push(copy@));
                        assert(c@.outbound =~= c0.outbound + c0.publishes_received.take(
                            j as int + 1,
                        ));
                        assert(c@ =~~= (ClientV {
                            outbound: c0.outbound + c0.publishes_received.take(j as int + 1),
                            ..c0
                        }));
                    }
                    j = j + 1;
                }
                proof {
                    assert(c0.publishes_received.take(m as int) =~= c0.publishes_received);
                    assert(c@ =~~= (ClientV { outbound: c0.outbound + c0.publishes_received, ..c0 }));
                }
            }
            i = i + 1;
        }
        proof {
            assert(self@.clients =~~= old(self)@.clients.map_values(
                |c: ClientV|
                    if !c.disconnected {
                        ClientV { outbound: c.outbound + c.publishes_received, ..c }
                    } else {
                        c
                    },
            ));
            assert(self@ =~~= redelivery_step(old(self)@));
            let cs = self@.clients;
            let os = old(self)@.clients;
            assert forall|x: int, y: int|
                0 <= x < cs.len() && 0 <= y < cs.len() && x != y implies #[trigger] cs[x].thread_id
                != #[trigger] cs[y].thread_id by {
                assert(os[x].thread_id != os[y].thread_id);
            }
            assert forall|x: int, y: int|
                0 <= x < cs.len() && 0 <= y < cs.len() && x != y && cs[x].client_id.len()
                > 0 implies #[trigger] cs[x].client_id != #[trigger] cs[y].client_id by {
                assert(os[x].client_id != os[y].client_id);
            }
            assert forall|x: int| 0 <= x < cs.len() implies pending_wf(
                #[trigger] cs[x].publishes_received,
            ) by {
                assert(pending_wf(os[x].publishes_received));
            }
        }
    }
}

/// Process a batch of command envelopes, strictly in arrival order.
pub fn run_coordinator(coordinator: &mut Coordinator, commands: Vec<PacketThings>)
    requires
        coordinator_wf(old(coordinator)@),
    ensures
        exists|pids: Seq<u16>|
            #[trigger] pids.len() == commands@.len() && final(coordinator)@ == coordinator_run(
                old(coordinator)@,
                commands@.map_values(|p: PacketThings| p@),
                pids,
            ),
        coordinator_wf(final(coordinator)@),
{
    let ghost cmds = commands@.map_values(|p: PacketThings| p@);
    let ghost mut pids: Seq<u16> = Seq::<u16>::empty();
    let mut i: usize = 0;

    proof {
        assert(cmds.take(0) =~= Seq::<PacketThingsV>::empty());
    }
    #[verifier::loop_isolation(false)]
    while i < commands.len()
        invariant
            i <= commands@.len(),
            pids.len() == i,
            coordinator_wf(coordinator@),
            coordinator@ == coordinator_run(old(coordinator)@, cmds.take(i as int), pids),
        decreases commands@.len() - i,
    {
        let ghost prev = coordinator@;
        let _ = coordinator.process_command(&commands[i]);
        proof {
            let pid = choose|p: u16| coordinator@ == coordinator_step(prev, commands@[i as int]@, p);
            assert(coordinator@ == coordinator_step(prev, cmds[i as int], pid));
            lemma_coordinator_run_snoc(
                old(coordinator)@,
                cmds.take(i as int),
                pids,
                cmds[i as int],
                pid,
            );
            assert(cmds.take(i as int + 1) =~= cmds.take(i as int).push(cmds[i as int]));
            pids = pids.push(pid);
        }
        i = i + 1;
    }
    proof {
        assert(cmds.take(commands@.len() as int) =~= cmds);
    }
}

/// A session takeover preserves the uniqueness of client ids: after a
/// CONNECT for a connection that is in the table, carrying an id whose
/// present holder — if any — is another connection, exactly one record
/// carries that id.  A CONNECT that reuses the connection's own current id
/// is excluded: there the broker, like its table, treats the connection as
/// its own supplanter and drops the record, leaving no holder at all.
pub proof fn lemma_connect_takeover_unique(s: CoordinatorV, thread_id: nat, bytes: Seq<u8>)
    requires
        coordinator_wf(s),
        parse_connect_cmd(bytes) is Some,
        find_client(s.clients, thread_id) != -1,
        ({
            let j = find_client_by_id(s.clients, parse_connect_cmd(bytes).unwrap().client_id);
            j != -1 ==> s.clients[j].thread_id != thread_id
        }),
    ensures
        ({
            let key = parse_connect_cmd(bytes).unwrap().client_id;
            let s1 = connect_step(s, thread_id, bytes);
            &&& exists|i: int|
                0 <= i < s1.clients.len() && (#[trigger] s1.clients[i].client_id) == key
            &&& forall|i: int, x: int|
                0 <= i < s1.clients.len() && 0 <= x < s1.clients.len() && i != x && (
                #[trigger] s1.clients[i].client_id) == key ==> (#[trigger] s1.clients[x].client_id)
                    != key
        }),
{
    let cmd = parse_connect_cmd(bytes).unwrap();
    let key = cmd.client_id;
    let s1 = connect_step(s, thread_id, bytes);
    crate::server::packet::lemma_connect_cmd_id_nonempty(bytes);
    lemma_find_client_by_id_props(s.clients, key);
    lemma_find_client_props(s.clients, thread_id);
    let j = find_client_by_id(s.clients, key);
    let k0 = find_client(s.clients, thread_id);
    if j == -1 {
        assert(s1.clients == s.clients.update(k0, s1.clients[k0]));
        assert(s1.clients[k0].client_id == key);
        assert forall|i: int, x: int|
            0 <= i < s1.clients.len() && 0 <= x < s1.clients.len() && i != x && (
            #[trigger] s1.clients[i].client_id) == key implies (#[trigger] s1.clients[x].client_id)
            != key by {
            if i != k0 {
                assert(s1.clients[i] == s.clients[i]);
                assert(s.clients[i].client_id != key);
            } else {
                if x != k0 {
                    assert(s1.clients[x] == s.clients[x]);
                    assert(s.clients[x].client_id != key);
                }
            }
        }
    } else {
        assert(s.clients[j].client_id == key);
        assert(s.clients[k0].thread_id == thread_id);
        assert(k0 != j);
        let clients1 = s.clients.remove(j);
        let k0_after: int = if k0 < j {
            k0
        } else {
            k0 - 1
        };
        assert(clients1[k0_after] == s.clients[k0]);
        let k = find_client(clients1, thread_id);
        lemma_find_client_props(clients1, thread_id);
        assert(k != -1) by {
            if k == -1 {
                assert(clients1[k0_after].thread_id != thread_id);
            }
        }
        assert(s1.clients == clients1.update(k, s1.clients[k]));
        assert(s1.clients[k].client_id == key);
        assert forall|y: int|
            0 <= y < s1.clients.len() && y != k implies (#[trigger] s1.clients[y].client_id)
            != key by {
            let oy: int = if y < j {
                y
            } else {
                y + 1
            };
            assert(s1.clients[y] == clients1[y]);
            assert(clients1[y] == s.clients[oy]);
            if s.clients[oy].client_id == key {
                assert(oy != j);
                assert(s.clients[oy].client_id != s.clients[j].client_id);
                assert(false);
            }
        }
    }
}

/// In a well-formed broker state no two records carry the same non-empty
/// client id: the uniqueness invariant of the client table.
pub proof fn lemma_client_ids_unique(s: CoordinatorV, i: int, j: int)
    requires
        coordinator_wf(s),
        0 <= i < s.clients.len(),
        0 <= j < s.clients.len(),
        i != j,
        s.clients[i].client_id.len() > 0,
    ensures
        s.clients[i].client_id != s.clients[j].client_id,
{
}

/// In a well-formed broker state every frame held for redelivery is a
/// PUBLISH whose first byte carries the QoS-1 and DUP bits: the invariant
/// of the redelivery queues.
pub proof fn lemma_pending_frames_flagged(s: CoordinatorV, i: int, j: int)
    requires
        coordinator_wf(s),
        0 <= i < s.clients.len(),
        0 <= j < s.clients[i].publishes_received.len(),
    ensures
        s.clients[i].publishes_received[j].len() > 0,
        s.clients[i].publishes_received[j][0] & 0xF0 == 0x30,
        s.clients[i].publishes_received[j][0] & 0x02 == 0x02,
        s.clients[i].publishes_received[j][0] & 0x08 == 0x08,
{
    assert(pending_wf(s.clients[i].publishes_received));
    assert(queued_publish_wf(s.clients[i].publishes_received[j]));
    assert(0x3Au8 & 0xF0 == 0x30) by (bit_vector);
    assert(0x3Au8 & 0x02 == 0x02) by (bit_vector);
    assert(0x3Au8 & 0x08 == 0x08) by (bit_vector);
}

/// Every frame a redelivery pass appends to an outbound queue bears the
/// DUP and QoS-1 bits: redelivery is idempotent from the subscriber's
/// viewpoint, up to DUP.
pub proof fn lemma_redelivered_frames_dup(s: CoordinatorV, i: int, j: int)
    requires
        coordinator_wf(s),
        0 <= i < s.clients.len(),
        !s.clients[i].disconnected,
        s.clients[i].outbound.len() <= j < redelivery_step(s).clients[i].outbound.len(),
    ensures
        redelivery_step(s).clients[i].outbound[j][0] & 0x08 == 0x08,
        redelivery_step(s).clients[i].outbound[j][0] & 0x02 == 0x02,
{
    let c = s.clients[i];
    let appended = j - c.outbound.len();
    assert(redelivery_step(s).clients[i].outbound[j] == c.publishes_received[appended]);
    lemma_pending_frames_flagged(s, i, appended);
}

/// The closing half of an ungraceful disconnect, before the will fires.
pub open spec fn disgrace_close(s: CoordinatorV, thread_id: nat) -> CoordinatorV {
    let k = find_client(s.clients, thread_id);
    if k == -1 {
        s
    } else {
        let c = s.clients[k];
        let c1 = if !c.disconnected {
            ClientV {
                outbound: c.outbound.push(sentinel_frame()),
                topics: if c.clean_session == 1 {
                    Seq::<SubscriptionV>::empty()
                } else {
                    c.topics
                },
                publishes_received: if c.clean_session == 1 {
                    Seq::<Seq<u8>>::empty()
                } else {
                    c.publishes_received
                },
                disconnected: true,
                ..c
            }
        } else {
            c
        };
        CoordinatorV { clients: s.clients.update(k, c1), ..s }
    }
}

/// Running a sequence and then one more command is one more step: the
/// commands take effect strictly in arrival order.
pub proof fn lemma_coordinator_run_snoc(
    s: CoordinatorV,
    cmds: Seq<PacketThingsV>,
    pids: Seq<u16>,
    cmd: PacketThingsV,
    pid: u16,
)
    requires
        pids.len() == cmds.len(),
    ensures
        coordinator_run(s, cmds.push(cmd), pids.push(pid)) == coordinator_step(
            coordinator_run(s, cmds, pids),
            cmd,
            pid,
        ),
    decreases cmds.len(),
{
    if cmds.len() == 0 {
        assert(cmds.push(cmd)[0] == cmd);
        assert(pids.push(pid)[0] == pid);
        assert(cmds.push(cmd).skip(1) =~= Seq::<PacketThingsV>::empty());
        assert(pids.push(pid).skip(1) =~= Seq::<u16>::empty());
        let stepped = coordinator_step(s, cmd, pid);
        assert(coordinator_run(s, cmds.push(cmd), pids.push(pid)) == coordinator_run(
            stepped,
            cmds.push(cmd).skip(1),
            pids.push(pid).skip(1),
        ));
        assert(coordinator_run(stepped, Seq::<PacketThingsV>::empty(), Seq::<u16>::empty())
            == stepped);
        assert(coordinator_run(s, cmds, pids) == s);
    } else {
        assert(cmds.push(cmd)[0] == cmds[0]);
        assert(pids.push(pid)[0] == pids[0]);
        assert(cmds.push(cmd).skip(1) =~= cmds.skip(1).push(cmd));
        assert(pids.push(pid).skip(1) =~= pids.skip(1).push(pid));
        let stepped = coordinator_step(s, cmds[0], pids[0]);
        assert(coordinator_run(s, cmds.push(cmd), pids.push(pid)) == coordinator_run(
            stepped,
            cmds.skip(1).push(cmd),
            pids.skip(1).push(pid),
        ));
        assert(coordinator_run(s, cmds, pids) == coordinator_run(
            stepped,
            cmds.skip(1),
            pids.skip(1),
        ));
        lemma_coordinator_run_snoc(stepped, cmds.skip(1), pids.skip(1), cmd, pid);
    }
}

/// Processing two batches in a row is processing their concatenation: the
/// serialization law of the coordinator.  For any sequence of commands,
/// the resulting state is the one reached by taking the steps one at a
/// time in arrival order, however the sequence is split into batches.
pub proof fn lemma_coordinator_run_append(
    s: CoordinatorV,
    cmds_a: Seq<PacketThingsV>,
    pids_a: Seq<u16>,
    cmds_b: Seq<PacketThingsV>,
    pids_b: Seq<u16>,
)
    requires
        pids_a.len() == cmds_a.len(),
        pids_b.len() == cmds_b.len(),
    ensures
        coordinator_run(s, cmds_a + cmds_b, pids_a + pids_b) == coordinator_run(
            coordinator_run(s, cmds_a, pids_a),
            cmds_b,
            pids_b,
        ),
    decreases cmds_a.len(),
{
    if cmds_a.len() == 0 {
        assert(cmds_a + cmds_b =~= cmds_b);
        assert(pids_a + pids_b =~= pids_b);
    } else {
        assert((cmds_a + cmds_b)[0] == cmds_a[0]);
        assert((cmds_a + cmds_b).skip(1) =~= cmds_a.skip(1) + cmds_b);
        assert((pids_a + pids_b).skip(1) =~= pids_a.skip(1) + pids_b);
        lemma_coordinator_run_append(
            coordinator_step(s, cmds_a[0], pids_a[0]),
            cmds_a.skip(1),
            pids_a.skip(1),
            cmds_b,
            pids_b,
        );
    }
}

} // verus!
