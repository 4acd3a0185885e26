//! The master server: clients connect to it, and it routes each client's
//! events to the instance the client has joined.

use vstd::prelude::*;
use std::collections::HashMap;
use std::collections::hash_map::Entry;
use std::marker::PhantomData;
use crate::common::SerializableMessage;
use crate::server::ClientId;
use crate::server::Event;

verus! {

broadcast use vstd::std_specs::hash::group_hash_axioms;

pub enum InstanceEvent<T> {
    ClientJoinedInstance { client_id: ClientId },
    ClientLeftInstance { client_id: ClientId },
    Message { client_id: ClientId, msg: T },
}

pub enum MasterEvent<T> {
    ClientConnected { client_id: ClientId },
    ClientDisconnected { client_id: ClientId },
    ClientJoinedInstance { client_id: ClientId, instance_id: InstanceId },
    ClientLeftInstance { client_id: ClientId, instance_id: InstanceId },
    Message { client_id: ClientId, msg: T },
}

#[derive(Clone, Copy, PartialEq, PartialOrd, Hash, Eq, Structural, Debug)]
pub struct InstanceId(u64);

impl View for InstanceId {
    type V = u64;

    closed spec fn view(&self) -> u64 {
        self.0
    }
}

impl InstanceId {
    /// The number the instances are keyed by.
    fn key(&self) -> (r: u64)
        ensures
            r == self@,
    {
        self.0
    }
}

pub trait Instance<T: SerializableMessage> {
    /// send `Event` into the instance
    fn tx(&mut self, t: Event<T>);

    /// poll the `Instance`, producing x number of events that needs to be processed
    fn poll(&mut self) -> Vec<InstanceEvent<T>>;
}

/// The client a server event is about.
pub open spec fn client_of<T>(e: Event<T>) -> ClientId {
    match e {
        Event::ClientConnected { client_id } => client_id,
        Event::ClientDisconnected { client_id } => client_id,
        Event::Message { client_id, .. } => client_id,
    }
}

/// The master event for a server event about a client in no instance.
pub open spec fn to_master<T>(e: Event<T>) -> MasterEvent<T> {
    match e {
        Event::ClientConnected { client_id } => MasterEvent::ClientConnected { client_id },
        Event::ClientDisconnected { client_id } => MasterEvent::ClientDisconnected { client_id },
        Event::Message { client_id, msg } => MasterEvent::Message { client_id, msg },
    }
}

/// The client-to-instance map, the master events, and the messages to send,
/// after one more event reported by an instance: a message is sent to its
/// client, and a client that left its instance is taken out of the map and
/// reported.
pub open spec fn instance_step<T>(
    acc: (Map<u64, InstanceId>, Seq<MasterEvent<T>>, Seq<(ClientId, T)>),
    e: InstanceEvent<T>,
) -> (Map<u64, InstanceId>, Seq<MasterEvent<T>>, Seq<(ClientId, T)>) {
    match e {
        InstanceEvent::Message { client_id, msg } => (acc.0, acc.1, acc.2.push((client_id, msg))),
        InstanceEvent::ClientLeftInstance { client_id } => if acc.0.contains_key(client_id@) {
            (
                acc.0.remove(client_id@),
                acc.1.push(
                    MasterEvent::ClientLeftInstance { client_id, instance_id: acc.0[client_id@] },
                ),
                acc.2,
            )
        } else {
            acc
        },
        InstanceEvent::ClientJoinedInstance { .. } => acc,
    }
}

/// [`instance_step`] over `evs`, in order.
pub open spec fn instance_phase<T>(
    acc: (Map<u64, InstanceId>, Seq<MasterEvent<T>>, Seq<(ClientId, T)>),
    evs: Seq<InstanceEvent<T>>,
) -> (Map<u64, InstanceId>, Seq<MasterEvent<T>>, Seq<(ClientId, T)>)
    decreases evs.len(),
{
    if evs.len() == 0 {
        acc
    } else {
        instance_step(instance_phase(acc, evs.drop_last()), evs.last())
    }
}

/// The master events and the deliveries to instances after one more server
/// event: an event about a client in an instance goes to that instance (and
/// nowhere if the instance is gone), any other becomes a master event.
pub open spec fn server_step<T>(
    client_instances: Map<u64, InstanceId>,
    ids: Set<u64>,
    acc: (Seq<MasterEvent<T>>, Seq<(InstanceId, Event<T>)>),
    e: Event<T>,
) -> (Seq<MasterEvent<T>>, Seq<(InstanceId, Event<T>)>) {
    let c = client_of(e)@;
    if client_instances.contains_key(c) {
        if ids.contains(client_instances[c]@) {
            (acc.0, acc.1.push((client_instances[c], e)))
        } else {
            acc
        }
    } else {
        (acc.0.push(to_master(e)), acc.1)
    }
}

/// [`server_step`] over `evs`, in order.
pub open spec fn server_phase<T>(
    client_instances: Map<u64, InstanceId>,
    ids: Set<u64>,
    acc: (Seq<MasterEvent<T>>, Seq<(InstanceId, Event<T>)>),
    evs: Seq<Event<T>>,
) -> (Seq<MasterEvent<T>>, Seq<(InstanceId, Event<T>)>)
    decreases evs.len(),
{
    if evs.len() == 0 {
        acc
    } else {
        server_step(
            client_instances,
            ids,
            server_phase(client_instances, ids, acc, evs.drop_last()),
            evs.last(),
        )
    }
}

/// The events of clients that belong to no instance reach the application
/// unchanged and in order, and nothing is delivered to an instance for them.
pub proof fn lemma_unrouted_events_pass_through<T>(
    client_instances: Map<u64, InstanceId>,
    ids: Set<u64>,
    evs: Seq<Event<T>>,
)
    requires
        forall|i: int| 0 <= i < evs.len() ==> !client_instances.contains_key(#[trigger] client_of(evs[i])@),
    ensures
        server_phase(client_instances, ids, (Seq::empty(), Seq::empty()), evs).0 == evs.map_values(
            |e: Event<T>| to_master(e),
        ),
        server_phase(client_instances, ids, (Seq::empty(), Seq::empty()), evs).1 == Seq::<
            (InstanceId, Event<T>),
        >::empty(),
    decreases evs.len(),
{
    if evs.len() > 0 {
        lemma_unrouted_events_pass_through(client_instances, ids, evs.drop_last());
        assert(client_of(evs[evs.len() - 1]) == client_of(evs.last()));
        assert(evs.map_values(|e: Event<T>| to_master(e)) =~= evs.drop_last().map_values(
            |e: Event<T>| to_master(e),
        ).push(to_master(evs.last())));
    } else {
        assert(evs.map_values(|e: Event<T>| to_master(e)) =~= Seq::<MasterEvent<T>>::empty());
    }
}

/// Some event in `reported` says that the client with id `d` left its instance.
pub open spec fn leaves<T>(reported: Seq<InstanceEvent<T>>, d: u64) -> bool {
    exists|i: int|
        0 <= i < reported.len() && (#[trigger] reported[i] matches InstanceEvent::ClientLeftInstance {
            client_id,
        } && client_id@ == d)
}

/// Whether `e` says that the client with id `d` left its instance.
pub open spec fn leaves_one<T>(e: InstanceEvent<T>, d: u64) -> bool {
    e matches InstanceEvent::ClientLeftInstance { client_id } && client_id@ == d
}

proof fn lemma_leaves_last<T>(evs: Seq<InstanceEvent<T>>, d: u64)
    requires
        evs.len() > 0,
    ensures
        leaves(evs, d) <==> (leaves(evs.drop_last(), d) || leaves_one(evs.last(), d)),
{
    let init = evs.drop_last();
    if leaves(init, d) {
        let i = choose|i: int|
            0 <= i < init.len() && (#[trigger] init[i] matches InstanceEvent::ClientLeftInstance {
                client_id,
            } && client_id@ == d);
        assert(evs[i] == init[i]);
    }
    if leaves_one(evs.last(), d) {
        assert(evs[evs.len() - 1] == evs.last());
    }
    if leaves(evs, d) {
        let i = choose|i: int|
            0 <= i < evs.len() && (#[trigger] evs[i] matches InstanceEvent::ClientLeftInstance {
                client_id,
            } && client_id@ == d);
        if i < init.len() {
            assert(init[i] == evs[i]);
        }
    }
}

/// A client keeps its instance exactly when no instance event says it left.
pub proof fn lemma_instance_phase_members<T>(
    acc: (Map<u64, InstanceId>, Seq<MasterEvent<T>>, Seq<(ClientId, T)>),
    evs: Seq<InstanceEvent<T>>,
)
    ensures
        forall|d: u64|
            #[trigger] instance_phase(acc, evs).0.contains_key(d) <==> (acc.0.contains_key(d)
                && !leaves(evs, d)),
    decreases evs.len(),
{
    if evs.len() > 0 {
        let init = evs.drop_last();
        lemma_instance_phase_members(acc, init);
        assert forall|d: u64| #[trigger] instance_phase(acc, evs).0.contains_key(d) <==> (
            acc.0.contains_key(d) && !leaves(evs, d)) by {
            lemma_leaves_last(evs, d);
            let prev = instance_phase(acc, init);
            let cur = instance_phase(acc, evs);
            assert(cur == instance_step(prev, evs.last()));
            assert(prev.0.contains_key(d) <==> (acc.0.contains_key(d) && !leaves(init, d)));
            match evs.last() {
                InstanceEvent::ClientLeftInstance { client_id } => {
                    if client_id@ == d {
                        assert(!cur.0.contains_key(d));
                    } else {
                        assert(cur.0.contains_key(d) == prev.0.contains_key(d));
                    }
                },
                _ => {
                    assert(cur.0 == prev.0);
                },
            }
        }
    }
}

/// Taking in instance events only ever takes clients out of instances.
proof fn lemma_instance_phase_submap<T>(
    acc: (Map<u64, InstanceId>, Seq<MasterEvent<T>>, Seq<(ClientId, T)>),
    evs: Seq<InstanceEvent<T>>,
)
    ensures
        instance_phase(acc, evs).0.submap_of(acc.0),
    decreases evs.len(),
{
    if evs.len() > 0 {
        lemma_instance_phase_submap(acc, evs.drop_last());
        let prev = instance_phase(acc, evs.drop_last()).0;
        let next = instance_phase(acc, evs).0;
        assert forall|k: u64| #[trigger] next.contains_key(k) implies acc.0.contains_key(k)
            && next[k] == acc.0[k] by {
            assert(prev.contains_key(k) && next[k] == prev[k]);
        }
    }
}

/// Hosts a single `server` acting as master for instances.
///
/// A client initially connects to the master and then through the master is directed to an instance.
pub struct MasterServer<T: SerializableMessage, I: Instance<T>> {
    instances: HashMap<u64, I>,
    client_instances: HashMap<u64, InstanceId>,
    phantom: PhantomData<T>,
}

impl<T: SerializableMessage, I: Instance<T>> MasterServer<T, I> {
    /// The ids of the instances.
    pub closed spec fn instance_ids(&self) -> Set<u64> {
        self.instances@.dom()
    }

    /// The instance each client belongs to, by client id.
    pub closed spec fn memberships(&self) -> Map<u64, InstanceId> {
        self.client_instances@
    }

    pub fn new() -> (r: Self)
        ensures
            r.instance_ids() == Set::<u64>::empty(),
            r.memberships() == Map::<u64, InstanceId>::empty(),
    {
        MasterServer { instances: HashMap::new(), client_instances: HashMap::new(), phantom: PhantomData }
    }

    /// Returns the `InstanceId`, if any, that the client with the given `ClientId` belongs.
    pub fn client_instance(&self, client_id: ClientId) -> (r: Option<InstanceId>)
        ensures
            r == (if self.memberships().contains_key(client_id@) {
                Some(self.memberships()[client_id@])
            } else {
                None
            }),
    {
        let key = u64::from(client_id);
        match self.client_instances.get(&key) {
            Some(instance_id) => Some(*instance_id),
            None => None,
        }
    }

    /// Removes the client from the `Instance`, if any
    ///
    /// Returns the `InstanceId` of the instance the client had joined
    pub fn leave_instance(&mut self, client_id: ClientId) -> (r: Option<InstanceId>)
        ensures
            r == (if old(self).memberships().contains_key(client_id@) {
                Some(old(self).memberships()[client_id@])
            } else {
                None
            }),
            final(self).memberships() == old(self).memberships().remove(client_id@),
            final(self).instance_ids() == old(self).instance_ids(),
    {
        let key = u64::from(client_id);
        self.client_instances.remove(&key)
    }

    /// Directs the client to the instance: from now on its events go to that
    /// instance. A client belongs to one instance at a time, so this replaces
    /// any instance it belonged to before.
    pub fn join_instance(&mut self, client_id: ClientId, instance_id: InstanceId)
        ensures
            final(self).memberships() == old(self).memberships().insert(client_id@, instance_id),
            final(self).instance_ids() == old(self).instance_ids(),
    {
        let key = u64::from(client_id);
        self.client_instances.insert(key, instance_id);
    }

    /// Takes in the events the instances reported, in order: a client that
    /// left its instance stops belonging to it and is reported. Returns the
    /// master events and the messages to send to clients, in order.
    pub fn apply_instance_events(&mut self, evs: Vec<InstanceEvent<T>>) -> (r: (
        Vec<MasterEvent<T>>,
        Vec<(ClientId, T)>,
    ))
        ensures
            (final(self).memberships(), r.0@, r.1@) == instance_phase(
                (old(self).memberships(), Seq::empty(), Seq::empty()),
                evs@,
            ),
            final(self).instance_ids() == old(self).instance_ids(),
    {
        let mut master: Vec<MasterEvent<T>> = Vec::new();
        let mut outgoing: Vec<(ClientId, T)> = Vec::new();
        let ghost all = evs@;
        let ghost start = (self.client_instances@, Seq::<MasterEvent<T>>::empty(), Seq::<(ClientId, T)>::empty());
        let ghost ids = self.instance_ids();
        for e in it: evs
            invariant
                it.seq() == all,
                (self.client_instances@, master@, outgoing@) == instance_phase(
                    start,
                    all.take(it.index() as int),
                ),
                self.instance_ids() == ids,
        {
            let ghost i = it.index() as int;
            assert(all.take(i + 1).drop_last() =~= all.take(i));
            assert(all.take(i + 1).last() == e);
            match e {
                InstanceEvent::Message { client_id, msg } => {
                    outgoing.push((client_id, msg));
                },
                InstanceEvent::ClientLeftInstance { client_id } => {
                    if let Some(iid) = self.leave_instance(client_id) {
                        master.push(MasterEvent::ClientLeftInstance { client_id: client_id, instance_id: iid });
                    }
                },
                InstanceEvent::ClientJoinedInstance { .. } => {},
            }
        }
        assert(all.take(all.len() as int) =~= all);
        (master, outgoing)
    }

    /// Routes the server's events, in order: an event about a client that
    /// belongs to an instance goes to that instance (and nowhere if the
    /// instance is gone), and any other event becomes a master event. Returns
    /// the master events and the deliveries, in order.
    pub fn route_server_events(&self, evs: Vec<Event<T>>) -> (r: (
        Vec<MasterEvent<T>>,
        Vec<(InstanceId, Event<T>)>,
    ))
        ensures
            (r.0@, r.1@) == server_phase(
                self.memberships(),
                self.instance_ids(),
                (Seq::empty(), Seq::empty()),
                evs@,
            ),
    {
        let mut master: Vec<MasterEvent<T>> = Vec::new();
        let mut deliveries: Vec<(InstanceId, Event<T>)> = Vec::new();
        let ghost all = evs@;
        let ghost cis = self.memberships();
        let ghost ids = self.instance_ids();
        let ghost start = (Seq::<MasterEvent<T>>::empty(), Seq::<(InstanceId, Event<T>)>::empty());
        for e in it: evs
            invariant
                it.seq() == all,
                cis == self.memberships(),
                ids == self.instance_ids(),
                (master@, deliveries@) == server_phase(cis, ids, start, all.take(it.index() as int)),
        {
            let ghost i = it.index() as int;
            assert(all.take(i + 1).drop_last() =~= all.take(i));
            assert(all.take(i + 1).last() == e);
            let client_id = match &e {
                Event::ClientConnected { client_id } => *client_id,
                Event::ClientDisconnected { client_id } => *client_id,
                Event::Message { client_id, .. } => *client_id,
            };
            match self.client_instance(client_id) {
                Some(instance_id) => {
                    if self.instances.contains_key(&instance_id.key()) {
                        deliveries.push((instance_id, e));
                    }
                },
                None => {
                    let m = match e {
                        Event::ClientConnected { client_id } => MasterEvent::ClientConnected { client_id },
                        Event::ClientDisconnected { client_id } => MasterEvent::ClientDisconnected { client_id },
                        Event::Message { client_id, msg } => MasterEvent::Message { client_id, msg },
                    };
                    master.push(m);
                },
            }
        }
        assert(all.take(all.len() as int) =~= all);
        (master, deliveries)
    }

    /// Poll the master server, which ensures events will be propergated to and from the respective instances.
    ///
    /// `server_events` are what the server reported in its latest poll. Each
    /// instance is polled: the messages it reports are to be sent to their
    /// clients, and clients that left it are reported. Then the server events
    /// about clients in an instance go to that instance.
    ///
    /// Returns events that were not processed in an `instance` i.e. which belongs to the master server itself.
    /// These events needs to be processed by the underlying application.
    /// Returns too the messages the instances reported, in order, each with
    /// the client to send it to through the server.
    pub fn poll(&mut self, server_events: Vec<Event<T>>) -> (r: (Vec<MasterEvent<T>>, Vec<(ClientId, T)>))
        ensures
            exists|reported: Seq<InstanceEvent<T>>|
                #![trigger instance_phase((old(self).memberships(), Seq::empty(), Seq::empty()), reported)]
                {
                    let a = instance_phase(
                        (old(self).memberships(), Seq::empty(), Seq::empty()),
                        reported,
                    );
                    let b = server_phase(
                        a.0,
                        old(self).instance_ids(),
                        (Seq::empty(), Seq::empty()),
                        server_events@,
                    );
                    &&& old(self).instance_ids().len() == 0 ==> reported.len() == 0
                    &&& final(self).memberships() == a.0
                    &&& r.0@ == a.1 + b.0
                    &&& r.1@ == a.2
                    &&& forall|d: u64|
                        #[trigger] final(self).memberships().contains_key(d) <==> (old(
                            self,
                        ).memberships().contains_key(d) && !leaves(reported, d))
                },
            final(self).instance_ids() == old(self).instance_ids(),
            final(self).memberships().submap_of(old(self).memberships()),
    {
        let ghost ids0 = self.instance_ids();
        let ghost cis0 = self.client_instances@;
        let mut keys: Vec<u64> = Vec::new();
        for key in it: self.instances.keys()
            invariant
                keys@.len() == it.index(),
        {
            keys.push(*key);
        }
        assert(keys@.len() == ids0.len());
        let mut reported: Vec<InstanceEvent<T>> = Vec::new();
        for key in it: keys
            invariant
                self.instance_ids() == ids0,
                self.client_instances@ == cis0,
                it.seq().len() == 0 ==> reported@.len() == 0,
        {
            self.poll_instance(key, &mut reported);
        }
        let ghost ie = reported@;
        proof {
            lemma_instance_phase_submap((self.memberships(), Seq::<MasterEvent<T>>::empty(), Seq::<(ClientId, T)>::empty()), ie);
            lemma_instance_phase_members((self.memberships(), Seq::<MasterEvent<T>>::empty(), Seq::<(ClientId, T)>::empty()), ie);
        }
        let (mut master, outgoing) = self.apply_instance_events(reported);
        let (mut routed, deliveries) = self.route_server_events(server_events);
        master.append(&mut routed);
        let ghost ids1 = self.instance_ids();
        let ghost cis1 = self.client_instances@;
        for delivery in it: deliveries
            invariant
                self.instance_ids() == ids1,
                self.client_instances@ == cis1,
        {
            let (instance_id, e) = delivery;
            self.deliver(instance_id, e);
        }
        (master, outgoing)
    }

    /// Polls the instance with id `key`, if there is one, and appends what it
    /// reports to `reported`.
    fn poll_instance(&mut self, key: u64, reported: &mut Vec<InstanceEvent<T>>)
        ensures
            final(self).instance_ids() == old(self).instance_ids(),
            final(self).client_instances@ == old(self).client_instances@,
    {
        match self.instances.entry(key) {
            Entry::Occupied(entry) => {
                let instance = entry.into_mut();
                let mut evs = instance.poll();
                reported.append(&mut evs);
            },
            Entry::Vacant(_) => {},
        }
    }

    /// Hands `e` to the instance with id `instance_id`, if there is one.
    fn deliver(&mut self, instance_id: InstanceId, e: Event<T>)
        ensures
            final(self).instance_ids() == old(self).instance_ids(),
            final(self).client_instances@ == old(self).client_instances@,
    {
        match self.instances.entry(instance_id.key()) {
            Entry::Occupied(entry) => {
                let instance = entry.into_mut();
                instance.tx(e);
            },
            Entry::Vacant(_) => {},
        }
    }
}

} // verus!
