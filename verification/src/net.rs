//! The virtual network: the registry of validators, the queue of scheduled
//! deliveries and the delivery strategy.
//!
//! The network only transports and schedules. A driver pops the next due
//! message, feeds it to the consensus instance of the recipient, and hands
//! what that produces back to the network for dispatch.

use crate::message::{Message, Target, TargetedMessage};
use crate::queue::{
    after_pop, first_due, in_delivery_order, lemma_pushes_leave_in_delivery_order, pushed,
    pushed_all, Queue, QueueEntry,
};
use crate::registry::{ascending, lemma_ascending, lemma_ascending_unique, lists_ascending};
use crate::strategy::{DeliverySchedule, NoOpDelay, RandomSource, Strategy};
use crate::types::{Timestamp, ValidatorId};
use crate::validator::Validator;
use std::collections::BTreeMap;
use std::fmt::Debug;
use vstd::prelude::*;
use vstd::std_specs::btree::*;
use vstd::std_specs::cmp::OrdSpec;
use vstd::std_specs::iter::IteratorSpec;

verus! {

broadcast use {vstd::std_specs::btree::group_btree_axioms, vstd::laws_cmp::group_laws_cmp};

/// `BTreeMap::get_mut` of std: a mutable reference to the value under `key`,
/// if the map holds one. The map afterwards is the map before with whatever
/// the caller leaves behind the reference under `key`; without the key the
/// map stays as it was.
#[verifier::external_body]
fn lookup_mut<V>(map: &mut BTreeMap<u64, V>, key: u64) -> (found: Option<&mut V>)
    ensures
        found is Some <==> old(map)@.contains_key(key),
        found is Some ==> *found.unwrap() == old(map)@[key] && final(map)@ == old(map)@.insert(
            key,
            *final(found.unwrap()),
        ),
        found is None ==> final(map)@ == old(map)@,
{
    map.get_mut(&key)
}

/// A map keyed by raw identifiers, read as a map keyed by validators.
spec fn by_id<V>(m: Map<u64, V>) -> Map<ValidatorId, V> {
    Map::new(|id: ValidatorId| m.contains_key(id.0), |id: ValidatorId| m[id.0])
}

proof fn lemma_by_id_insert<V>(m: Map<u64, V>, id: ValidatorId, v: V)
    ensures
        by_id(m.insert(id.0, v)) == by_id(m).insert(id, v),
{
    assert(by_id(m.insert(id.0, v)) =~= by_id(m).insert(id, v));
}

proof fn lemma_by_id_finite<V>(m: Map<u64, V>)
    requires
        m.dom().finite(),
    ensures
        by_id(m).dom().finite(),
        by_id(m).dom().len() == m.dom().len(),
{
    let wrap = |k: u64| ValidatorId(k);
    m.dom().lemma_map_finite(wrap);
    assert(by_id(m).dom() =~= m.dom().map(wrap)) by {
        assert forall|id: ValidatorId| by_id(m).dom().contains(id) implies m.dom().map(
            wrap,
        ).contains(id) by {
            assert(m.dom().contains(id.0) && wrap(id.0) == id);
        }
    }
    assert(vstd::relations::injective(wrap));
    vstd::set_lib::lemma_map_size(m.dom(), by_id(m).dom(), wrap);
}

/// Raw identifiers that a map of std hands out in increasing order are the
/// ascending listing of the validators that the map holds.
proof fn lemma_keys_ascending<V>(m: Map<u64, V>, keys: Seq<u64>, ids: Seq<ValidatorId>)
    requires
        m.dom().finite(),
        increasing_seq(keys),
        forall|k: u64| keys.contains(k) <==> m.contains_key(k),
        ids.len() == keys.len(),
        forall|i: int| 0 <= i < ids.len() ==> (#[trigger] ids[i]).0 == keys[i],
    ensures
        ids == ascending(by_id(m).dom()),
{
    assert(vstd::laws_cmp::obeys_cmp::<u64>());
    axiom_increasing_seq_meaning(keys);
    assert forall|i: int, j: int| 0 <= i < j < ids.len() implies ids[i].0 < ids[j].0 by {
        assert(keys[i].cmp_spec(&keys[j]) is Less);
    }
    assert forall|id: ValidatorId| ids.contains(id) <==> by_id(m).dom().contains(id) by {
        if ids.contains(id) {
            let i = choose|i: int| 0 <= i < ids.len() && ids[i] == id;
            assert(keys.contains(keys[i]));
        }
        if by_id(m).dom().contains(id) {
            assert(keys.contains(id.0));
            let i = choose|i: int| 0 <= i < keys.len() && keys[i] == id.0;
            assert(ids[i] == id);
        }
    }
    lemma_by_id_finite(m);
    lemma_ascending_unique(ids, by_id(m).dom());
}

/// The registry that results from registering `validators` one after
/// another, each under its own identifier: of two validators with the same
/// identifier the later one stays.
pub open spec fn registry_of<C, M: Clone + Debug, D>(
    validators: Seq<Validator<C, M, D>>,
) -> Map<ValidatorId, Validator<C, M, D>>
    decreases validators.len(),
{
    if validators.len() == 0 {
        Map::empty()
    } else {
        registry_of(validators.drop_last()).insert(validators.last()@.id, validators.last())
    }
}

/// A registry made of `validators` holds finitely many validators: exactly
/// one for each identifier that occurs among them, registered under that
/// identifier.
pub proof fn lemma_registry_of<C, M: Clone + Debug, D>(validators: Seq<Validator<C, M, D>>)
    ensures
        registry_of(validators).dom().finite(),
        forall|id: ValidatorId|
            registry_of(validators).contains_key(id) <==> exists|i: int|
                0 <= i < validators.len() && (#[trigger] validators[i])@.id == id,
        forall|id: ValidatorId|
            registry_of(validators).contains_key(id) ==> (#[trigger] registry_of(
                validators,
            )[id])@.id == id,
    decreases validators.len(),
{
    if validators.len() > 0 {
        let front = validators.drop_last();
        lemma_registry_of(front);
        assert forall|id: ValidatorId| registry_of(validators).contains_key(id) implies exists|
            i: int,
        | 0 <= i < validators.len() && (#[trigger] validators[i])@.id == id by {
            if id == validators.last()@.id {
                assert(validators[validators.len() - 1]@.id == id);
            } else {
                let i = choose|i: int| 0 <= i < front.len() && (#[trigger] front[i])@.id == id;
                assert(validators[i]@.id == id);
            }
        }
        assert forall|id: ValidatorId|
            (exists|i: int| 0 <= i < validators.len() && (#[trigger] validators[i])@.id == id)
            implies registry_of(validators).contains_key(id) by {
            let i = choose|i: int| 0 <= i < validators.len() && (#[trigger] validators[i])@.id == id;
            if i < front.len() {
                assert(front[i]@.id == id);
            }
        }
    }
}

/// The validators that a message addressed to `target` goes to while the
/// validators `ids` are registered.
pub open spec fn recipients_of(ids: Seq<ValidatorId>, target: Target) -> Seq<ValidatorId> {
    match target {
        Target::All => ids,
        Target::SingleValidator(id) => seq![id],
    }
}

/// One sending of `message` to each of `recipients`, in their order.
pub open spec fn to_each<M: Clone + Debug>(recipients: Seq<ValidatorId>, message: Message<M>) -> Seq<
    (ValidatorId, Message<M>),
> {
    recipients.map_values(|recipient: ValidatorId| (recipient, message))
}

/// The sendings that `messages` ask for while the validators `ids` are
/// registered: message after message, and for each message recipient after
/// recipient.
pub open spec fn addressed<M: Clone + Debug>(
    ids: Seq<ValidatorId>,
    messages: Seq<TargetedMessage<M>>,
) -> Seq<(ValidatorId, Message<M>)>
    decreases messages.len(),
{
    if messages.len() == 0 {
        Seq::empty()
    } else {
        addressed(ids, messages.drop_last()) + to_each(
            recipients_of(ids, messages.last().target),
            messages.last().message,
        )
    }
}

/// The schedule that `attempt` stands for: a dropped message leaves no
/// entry, a scheduled one leaves an entry with its delivery time.
pub open spec fn outcome_of<M: Clone + Debug>(attempt: Option<QueueEntry<M>>) -> DeliverySchedule {
    match attempt {
        None => DeliverySchedule::Drop,
        Some(entry) => DeliverySchedule::AtInstant(entry.delivery_time),
    }
}

/// Whether `attempt`, if it left an entry, left one for `recipient` with a
/// copy of `message`.
pub open spec fn carries<M: Clone + Debug>(
    attempt: Option<QueueEntry<M>>,
    recipient: ValidatorId,
    message: Message<M>,
) -> bool {
    match attempt {
        None => true,
        Some(entry) => entry.recipient == recipient && entry.message.is_copy_of(message),
    }
}

/// Whether `attempt` may be what comes of sending `message` to `recipient`
/// under `strategy`, with `base` as the proposed delivery time: either the
/// message is dropped, or an entry for that recipient with a copy of the
/// message is scheduled for an instant; and the strategy allows that
/// outcome.
pub open spec fn may_come_of_one<M: Clone + Debug, DS: Strategy<DeliverySchedule>>(
    strategy: DS,
    base: Timestamp,
    recipient: ValidatorId,
    message: Message<M>,
    attempt: Option<QueueEntry<M>>,
) -> bool {
    &&& strategy.allows(DeliverySchedule::AtInstant(base), outcome_of(attempt))
    &&& carries(attempt, recipient, message)
}

/// Whether `attempts` may be what comes of the sendings `plan`, one attempt
/// for each sending.
pub open spec fn may_come_of<M: Clone + Debug, DS: Strategy<DeliverySchedule>>(
    strategy: DS,
    base: Timestamp,
    plan: Seq<(ValidatorId, Message<M>)>,
    attempts: Seq<Option<QueueEntry<M>>>,
) -> bool {
    &&& attempts.len() == plan.len()
    &&& forall|i: int|
        0 <= i < plan.len() ==> may_come_of_one(
            strategy,
            base,
            (#[trigger] plan[i]).0,
            plan[i].1,
            attempts[i],
        )
}

/// The pending entries after `attempt`: a scheduled entry is pushed, a
/// dropped message leaves no trace.
pub open spec fn settled<M: Clone + Debug>(
    pending: Seq<QueueEntry<M>>,
    attempt: Option<QueueEntry<M>>,
) -> Seq<QueueEntry<M>> {
    match attempt {
        None => pending,
        Some(entry) => pushed(pending, entry),
    }
}

/// The pending entries after `attempts`, one after another.
pub open spec fn delivered<M: Clone + Debug>(
    pending: Seq<QueueEntry<M>>,
    attempts: Seq<Option<QueueEntry<M>>>,
) -> Seq<QueueEntry<M>>
    decreases attempts.len(),
{
    if attempts.len() == 0 {
        pending
    } else {
        settled(delivered(pending, attempts.drop_last()), attempts.last())
    }
}

/// Attempts made one batch after another settle as the batches joined.
pub proof fn lemma_delivered_in_batches<M: Clone + Debug>(
    pending: Seq<QueueEntry<M>>,
    first: Seq<Option<QueueEntry<M>>>,
    second: Seq<Option<QueueEntry<M>>>,
)
    ensures
        delivered(delivered(pending, first), second) == delivered(pending, first + second),
    decreases second.len(),
{
    if second.len() == 0 {
        assert(first + second =~= first);
    } else {
        lemma_delivered_in_batches(pending, first, second.drop_last());
        assert((first + second).drop_last() =~= first + second.drop_last());
    }
}

/// The entries that `attempts` scheduled, in their order.
pub open spec fn scheduled_by<M: Clone + Debug>(attempts: Seq<Option<QueueEntry<M>>>) -> Seq<
    QueueEntry<M>,
>
    decreases attempts.len(),
{
    if attempts.len() == 0 {
        Seq::empty()
    } else {
        match attempts.last() {
            None => scheduled_by(attempts.drop_last()),
            Some(entry) => scheduled_by(attempts.drop_last()).push(entry),
        }
    }
}

/// Attempts change the pending entries by pushing what they scheduled, and
/// in no other way: what is pending afterwards still stands in delivery
/// order, and holds what was pending before and each scheduled entry once.
pub proof fn lemma_delivered_is_pushed<M: Clone + Debug>(
    pending: Seq<QueueEntry<M>>,
    attempts: Seq<Option<QueueEntry<M>>>,
)
    requires
        in_delivery_order(pending),
    ensures
        delivered(pending, attempts) == pushed_all(pending, scheduled_by(attempts)),
        in_delivery_order(delivered(pending, attempts)),
        delivered(pending, attempts).to_multiset() == pending.to_multiset().add(
            scheduled_by(attempts).to_multiset(),
        ),
    decreases attempts.len(),
{
    if attempts.len() > 0 {
        lemma_delivered_is_pushed(pending, attempts.drop_last());
        if let Some(entry) = attempts.last() {
            let front = scheduled_by(attempts.drop_last());
            assert(front.push(entry).drop_last() =~= front);
        }
    }
    lemma_pushes_leave_in_delivery_order(pending, scheduled_by(attempts));
}

/// Under a strategy that allows no delivery, nothing that is dispatched
/// ever appears among the pending entries.
pub proof fn lemma_all_dropped<M: Clone + Debug, DS: Strategy<DeliverySchedule>>(
    strategy: DS,
    base: Timestamp,
    plan: Seq<(ValidatorId, Message<M>)>,
    attempts: Seq<Option<QueueEntry<M>>>,
    pending: Seq<QueueEntry<M>>,
)
    requires
        forall|instant: Timestamp|
            !(#[trigger] strategy.allows(
                DeliverySchedule::AtInstant(base),
                DeliverySchedule::AtInstant(instant),
            )),
        may_come_of(strategy, base, plan, attempts),
    ensures
        delivered(pending, attempts) == pending,
    decreases attempts.len(),
{
    if attempts.len() > 0 {
        let last = attempts.len() - 1;
        assert(may_come_of_one(strategy, base, plan[last].0, plan[last].1, attempts[last]));
        assert(attempts.last() is None);
        assert forall|i: int| 0 <= i < plan.drop_last().len() implies may_come_of_one(
            strategy,
            base,
            (#[trigger] plan.drop_last()[i]).0,
            plan.drop_last()[i].1,
            attempts.drop_last()[i],
        ) by {
            assert(may_come_of_one(strategy, base, plan[i].0, plan[i].1, attempts[i]));
        }
        lemma_all_dropped(strategy, base, plan.drop_last(), attempts.drop_last(), pending);
    }
}

/// Under the strategy that changes nothing, a message addressed to all
/// reaches every registered validator: for each of them, the smallest
/// identifier first, exactly one entry with a copy of the message is
/// scheduled, at the proposed delivery time. Afterwards the pending entries
/// are what was pending before together with these entries, in delivery
/// order.
pub proof fn lemma_broadcast_reaches_every_validator<M: Clone + Debug>(
    ids: Set<ValidatorId>,
    base: Timestamp,
    message: Message<M>,
    attempts: Seq<Option<QueueEntry<M>>>,
    pending: Seq<QueueEntry<M>>,
)
    requires
        ids.finite(),
        in_delivery_order(pending),
        may_come_of(
            NoOpDelay,
            base,
            addressed(ascending(ids), seq![(TargetedMessage { message, target: Target::All })]),
            attempts,
        ),
    ensures
        attempts.len() == ids.len(),
        scheduled_by(attempts).len() == ids.len(),
        forall|i: int|
            0 <= i < ids.len() ==> {
                let entry = #[trigger] scheduled_by(attempts)[i];
                &&& entry.recipient == ascending(ids)[i]
                &&& entry.delivery_time == base
                &&& entry.message.is_copy_of(message)
            },
        in_delivery_order(delivered(pending, attempts)),
        delivered(pending, attempts).to_multiset() == pending.to_multiset().add(
            scheduled_by(attempts).to_multiset(),
        ),
{
    let all = seq![(TargetedMessage { message, target: Target::All })];
    let listing = ascending(ids);
    let plan = addressed(listing, all);
    lemma_ascending(ids);
    assert(addressed(listing, all.drop_last()) =~= Seq::<(ValidatorId, Message<M>)>::empty());
    assert(plan =~= to_each(listing, message));
    lemma_delivered_is_pushed(pending, attempts);
    lemma_kept_attempts(base, plan, attempts);
}

/// Under the strategy that changes nothing, every attempt schedules an
/// entry, at the proposed delivery time.
proof fn lemma_kept_attempts<M: Clone + Debug>(
    base: Timestamp,
    plan: Seq<(ValidatorId, Message<M>)>,
    attempts: Seq<Option<QueueEntry<M>>>,
)
    requires
        may_come_of(NoOpDelay, base, plan, attempts),
    ensures
        scheduled_by(attempts).len() == plan.len(),
        forall|i: int|
            0 <= i < plan.len() ==> {
                let entry = #[trigger] scheduled_by(attempts)[i];
                &&& entry.recipient == plan[i].0
                &&& entry.delivery_time == base
                &&& entry.message.is_copy_of(plan[i].1)
            },
    decreases attempts.len(),
{
    if attempts.len() > 0 {
        let last = attempts.len() - 1;
        assert(may_come_of_one(NoOpDelay, base, plan[last].0, plan[last].1, attempts[last]));
        assert forall|i: int| 0 <= i < plan.drop_last().len() implies may_come_of_one(
            NoOpDelay,
            base,
            (#[trigger] plan.drop_last()[i]).0,
            plan.drop_last()[i].1,
            attempts.drop_last()[i],
        ) by {
            assert(may_come_of_one(NoOpDelay, base, plan[i].0, plan[i].1, attempts[i]));
        }
        lemma_kept_attempts(base, plan.drop_last(), attempts.drop_last());
        assert forall|i: int| 0 <= i < plan.len() implies {
            let entry = #[trigger] scheduled_by(attempts)[i];
            &&& entry.recipient == plan[i].0
            &&& entry.delivery_time == base
            &&& entry.message.is_copy_of(plan[i].1)
        } by {
            if i < last {
                assert(scheduled_by(attempts)[i] == scheduled_by(attempts.drop_last())[i]);
                assert(plan.drop_last()[i] == plan[i]);
            }
        }
    }
}

/// Once every scheduled delivery was discarded, the next pop finds nothing,
/// whatever was pending before.
pub proof fn lemma_nothing_due_after_emptying<M: Clone + Debug>()
    ensures
        first_due(Seq::<QueueEntry<M>>::empty()) is None,
        after_pop(Seq::<QueueEntry<M>>::empty()) == Seq::<QueueEntry<M>>::empty(),
{
}

/// A change to one registered validator, such as an addition to one of its
/// histories, changes no other validator: the same validators stay
/// registered, and each of the others is as it was, its histories included.
pub proof fn lemma_validators_are_isolated<C, M: Clone + Debug, D>(
    registry: Map<ValidatorId, Validator<C, M, D>>,
    id: ValidatorId,
    changed: Validator<C, M, D>,
    other: ValidatorId,
)
    requires
        registry.contains_key(id),
        registry.contains_key(other),
        other != id,
    ensures
        registry.insert(id, changed).dom() == registry.dom(),
        registry.insert(id, changed)[other] == registry[other],
        registry.insert(id, changed)[id] == changed,
{
    assert(registry.insert(id, changed).dom() =~= registry.dom());
}

/// A network of validators with the messages that are on their way.
pub struct VirtualNet<C, D, M: Clone + Debug, DS: Strategy<DeliverySchedule>> {
    /// The validators, each under its raw identifier.
    validators_map: BTreeMap<u64, Validator<C, M, D>>,
    /// The messages that are queued up for delivery.
    msg_queue: Queue<M>,
    /// The strategy that may change delivery times or drop messages.
    delivery_time_strategy: DS,
}

impl<C, D, M: Clone + Debug, DS: Strategy<DeliverySchedule>> VirtualNet<C, D, M, DS> {
    /// The registered validators, each under its identifier.
    pub closed spec fn registry(&self) -> Map<ValidatorId, Validator<C, M, D>> {
        by_id(self.validators_map@)
    }

    /// The scheduled deliveries, in the order in which they will be popped.
    pub closed spec fn pending(&self) -> Seq<QueueEntry<M>> {
        self.msg_queue@
    }

    /// The delivery strategy.
    pub closed spec fn strategy(&self) -> DS {
        self.delivery_time_strategy
    }

    /// The invariant of the network.
    pub closed spec fn wf(&self) -> bool {
        self.msg_queue.wf()
    }

    /// Only finitely many validators are registered.
    pub proof fn lemma_registry_is_finite(&self)
        ensures
            self.registry().dom().finite(),
    {
        lemma_by_id_finite(self.validators_map@);
    }

    /// The scheduled deliveries of a well-formed network stand in delivery
    /// order, and so with delivery times that never decrease.
    pub proof fn lemma_pending_in_delivery_order(&self)
        requires
            self.wf(),
        ensures
            in_delivery_order(self.pending()),
    {
        self.msg_queue.lemma_in_delivery_order();
    }

    /// A network of `validators`, each registered under its identifier, in
    /// which the entries of `init_messages` are already scheduled.
    pub fn new(
        validators: Vec<Validator<C, M, D>>,
        delivery_time_strategy: DS,
        init_messages: Vec<QueueEntry<M>>,
    ) -> (net: Self)
        ensures
            net.wf(),
            net.registry() == registry_of(validators@),
            net.pending() == pushed_all(Seq::empty(), init_messages@),
            net.strategy() == delivery_time_strategy,
    {
        let ghost all = validators@;
        let mut validators_map: BTreeMap<u64, Validator<C, M, D>> = BTreeMap::new();
        proof {
            assert(by_id(validators_map@) =~= registry_of(all.take(0)));
        }
        for validator in it: validators
            invariant
                it.seq() == all,
                by_id(validators_map@) == registry_of(all.take(it.index())),
        {
            let ghost k = it.index();
            let id = validator.validator_id();
            proof {
                lemma_by_id_insert(validators_map@, id, validator);
                assert(all.take(k + 1).drop_last() =~= all.take(k));
            }
            validators_map.insert(id.0, validator);
        }
        assert(all.take(all.len() as int) =~= all);
        let ghost batch = init_messages@;
        let mut q: Queue<M> = Queue::default();
        assert(batch.take(0) =~= Seq::<QueueEntry<M>>::empty());
        for m in it: init_messages
            invariant
                it.seq() == batch,
                q.wf(),
                q@ == pushed_all(Seq::empty(), batch.take(it.index())),
        {
            let ghost k = it.index();
            assert(batch.take(k + 1).drop_last() =~= batch.take(k));
            q.push(m);
        }
        assert(batch.take(batch.len() as int) =~= batch);
        VirtualNet { validators_map, msg_queue: q, delivery_time_strategy }
    }
    /// The validator registered under `validator`, if there is one.
    pub fn get_validator(&self, validator: ValidatorId) -> (found: Option<&Validator<C, M, D>>)
        ensures
            match found {
                Some(v) => self.registry().contains_key(validator) && *v == self.registry()[validator],
                None => !self.registry().contains_key(validator),
            },
    {
        self.validators_map.get(&validator.0)
    }

    /// The validator registered under `validator_id`, if there is one.
    pub fn validator(&self, validator_id: &ValidatorId) -> (found: Option<&Validator<C, M, D>>)
        ensures
            match found {
                Some(v) => self.registry().contains_key(*validator_id) && *v
                    == self.registry()[*validator_id],
                None => !self.registry().contains_key(*validator_id),
            },
    {
        self.validators_map.get(&validator_id.0)
    }

    /// The validator registered under `validator_id`, if there is one, to be
    /// changed in place. Whatever the caller does with it, every other
    /// validator, the scheduled deliveries and the strategy stay as they
    /// are.
    pub fn get_validator_mut(&mut self, validator_id: &ValidatorId) -> (found: Option<
        &mut Validator<C, M, D>,
    >)
        ensures
            found is Some <==> old(self).registry().contains_key(*validator_id),
            found is Some ==> *found.unwrap() == old(self).registry()[*validator_id],
            found is Some ==> final(self).registry() == old(self).registry().insert(
                *validator_id,
                *final(found.unwrap()),
            ),
            found is None ==> final(self).registry() == old(self).registry(),
            final(self).pending() == old(self).pending(),
            final(self).strategy() == old(self).strategy(),
            old(self).wf() ==> final(self).wf(),
    {
        proof {
            assert forall|v: Validator<C, M, D>|
                by_id(self.validators_map@.insert(validator_id.0, v)) == by_id(
                    self.validators_map@,
                ).insert(*validator_id, v) by {
                lemma_by_id_insert(self.validators_map@, *validator_id, v);
            }
        }
        lookup_mut(&mut self.validators_map, validator_id.0)
    }
    /// The identifiers of the registered validators, the smallest first.
    pub fn validators_ids(&self) -> (ids: Vec<ValidatorId>)
        ensures
            ids@ == ascending(self.registry().dom()),
            lists_ascending(ids@, self.registry().dom()),
    {
        let mut ids: Vec<ValidatorId> = Vec::new();
        let ghost all = self.validators_map.iter().remaining();
        for kv in it: self.validators_map.iter()
            invariant
                it.seq() == all,
                ids@.len() == it.index(),
                forall|i: int| 0 <= i < ids@.len() ==> (#[trigger] ids@[i]).0 == *all[i].0,
        {
            ids.push(ValidatorId(*kv.0));
        }
        proof {
            let keys = all.map_values(|kv: (&u64, &Validator<C, M, D>)| *kv.0);
            assert forall|k: u64| keys.contains(k) <==> self.validators_map@.contains_key(k) by {
                if keys.contains(k) {
                    let i = choose|i: int| 0 <= i < keys.len() && keys[i] == k;
                    assert(self.validators_map@.contains_key(*all[i].0));
                }
                if self.validators_map@.contains_key(k) {
                    assert(all.contains((&k, &self.validators_map@[k])));
                    let i = choose|i: int|
                        0 <= i < all.len() && all[i] == (&k, &self.validators_map@[k]);
                    assert(keys[i] == k);
                }
            }
            lemma_keys_ascending(self.validators_map@, keys, ids@);
            lemma_by_id_finite(self.validators_map@);
            lemma_ascending(self.registry().dom());
        }
        ids
    }

    /// The registered validators, in the order of their identifiers.
    pub fn validators(&self) -> (all: Vec<&Validator<C, M, D>>)
        ensures
            all@.len() == ascending(self.registry().dom()).len(),
            forall|i: int|
                0 <= i < all@.len() ==> *(#[trigger] all@[i]) == self.registry()[ascending(
                    self.registry().dom(),
                )[i]],
    {
        let mut found: Vec<&Validator<C, M, D>> = Vec::new();
        let ghost ids = Seq::<ValidatorId>::empty();
        let ghost all = self.validators_map.iter().remaining();
        for kv in it: self.validators_map.iter()
            invariant
                it.seq() == all,
                found@.len() == it.index(),
                ids.len() == it.index(),
                forall|i: int| 0 <= i < ids.len() ==> (#[trigger] ids[i]).0 == *all[i].0,
                forall|i: int| 0 <= i < found@.len() ==> *(#[trigger] found@[i]) == *all[i].1,
        {
            proof {
                ids = ids.push(ValidatorId(*kv.0));
            }
            found.push(kv.1);
        }
        proof {
            let keys = all.map_values(|kv: (&u64, &Validator<C, M, D>)| *kv.0);
            assert forall|k: u64| keys.contains(k) <==> self.validators_map@.contains_key(k) by {
                if keys.contains(k) {
                    let i = choose|i: int| 0 <= i < keys.len() && keys[i] == k;
                    assert(self.validators_map@.contains_key(*all[i].0));
                }
                if self.validators_map@.contains_key(k) {
                    assert(all.contains((&k, &self.validators_map@[k])));
                    let i = choose|i: int|
                        0 <= i < all.len() && all[i] == (&k, &self.validators_map@[k]);
                    assert(keys[i] == k);
                }
            }
            lemma_keys_ascending(self.validators_map@, keys, ids);
            assert forall|i: int| 0 <= i < found@.len() implies *(#[trigger] found@[i])
                == self.registry()[ids[i]] by {
                assert(self.validators_map@.contains_key(*all[i].0));
            }
        }
        found
    }

    /// Schedules `message` to be delivered to `recipient` at `delivery_time`.
    pub fn schedule_message(
        &mut self,
        delivery_time: Timestamp,
        recipient: ValidatorId,
        message: Message<M>,
    )
        requires
            old(self).wf(),
        ensures
            final(self).wf(),
            final(self).pending() == pushed(
                old(self).pending(),
                (QueueEntry { delivery_time, recipient, message }),
            ),
            final(self).registry() == old(self).registry(),
            final(self).strategy() == old(self).strategy(),
    {
        let qe = QueueEntry::new(delivery_time, recipient, message);
        self.msg_queue.push(qe);
    }

    /// Pops the scheduled delivery that is due first, if there is one.
    /// Nothing but the queue changes.
    pub fn pop_message(&mut self) -> (next: Option<QueueEntry<M>>)
        requires
            old(self).wf(),
        ensures
            final(self).wf(),
            next == first_due(old(self).pending()),
            final(self).pending() == after_pop(old(self).pending()),
            final(self).registry() == old(self).registry(),
            final(self).strategy() == old(self).strategy(),
    {
        self.msg_queue.pop()
    }

    /// Discards every scheduled delivery. Messages that were in flight are
    /// lost without a trace, so this is for use between rounds or at the end
    /// of a scenario only.
    pub fn empty_queue(&mut self)
        ensures
            final(self).wf(),
            final(self).pending() == Seq::<QueueEntry<M>>::empty(),
            final(self).registry() == old(self).registry(),
            final(self).strategy() == old(self).strategy(),
    {
        self.msg_queue.clear();
    }

    /// Carries out what was decided for `message` on its way to `recipient`:
    /// on `Drop` nothing happens, on `AtInstant` a copy of the message is
    /// scheduled for that instant.
    pub fn apply_schedule(
        &mut self,
        schedule: DeliverySchedule,
        recipient: ValidatorId,
        message: &Message<M>,
    )
        requires
            old(self).wf(),
        ensures
            final(self).wf(),
            final(self).registry() == old(self).registry(),
            final(self).strategy() == old(self).strategy(),
            schedule is Drop ==> final(self).pending() == old(self).pending(),
            exists|attempt: Option<QueueEntry<M>>|
                #[trigger] carries(attempt, recipient, *message) && outcome_of(attempt) == schedule
                    && final(self).pending() == settled(old(self).pending(), attempt),
    {
        match schedule {
            // Simulates dropping of the message.
            DeliverySchedule::Drop => {
                assert(carries(None::<QueueEntry<M>>, recipient, *message));
            },
            DeliverySchedule::AtInstant(dt) => {
                let copy = message.clone();
                assert(carries(
                    Some(QueueEntry { delivery_time: dt, recipient, message: copy }),
                    recipient,
                    *message,
                ));
                self.schedule_message(dt, recipient, copy)
            },
        }
    }

    /// Sends `message` to each of `recipients`: the strategy decides for
    /// each recipient on its own whether the message is dropped or when a
    /// copy of it is delivered.
    fn send_messages<R: RandomSource>(
        &mut self,
        rand: &mut R,
        recipients: Vec<ValidatorId>,
        message: Message<M>,
        base_delivery_time: Timestamp,
    )
        requires
            old(self).wf(),
        ensures
            final(self).wf(),
            final(self).registry() == old(self).registry(),
            final(self).strategy() == old(self).strategy(),
            exists|attempts: Seq<Option<QueueEntry<M>>>|
                #[trigger] may_come_of(
                    old(self).strategy(),
                    base_delivery_time,
                    to_each(recipients@, message),
                    attempts,
                ) && final(self).pending() == delivered(old(self).pending(), attempts),
    {
        let ghost attempts = Seq::<Option<QueueEntry<M>>>::empty();
        let mut i: usize = 0;
        while i < recipients.len()
            invariant
                i <= recipients@.len(),
                self.wf(),
                self.registry() == old(self).registry(),
                self.strategy() == old(self).strategy(),
                may_come_of(
                    old(self).strategy(),
                    base_delivery_time,
                    to_each(recipients@.take(i as int), message),
                    attempts,
                ),
                self.pending() == delivered(old(self).pending(), attempts),
            decreases recipients@.len() - i,
        {
            let validator_id = recipients[i];
            let ghost before = attempts;
            let ghost plan = to_each(recipients@.take(i as int), message);
            let ghost pending = self.pending();
            let tampered_delivery_time = self.delivery_time_strategy.map(
                rand,
                DeliverySchedule::from(base_delivery_time),
            );
            self.apply_schedule(tampered_delivery_time, validator_id, &message);
            proof {
                let attempt = choose|attempt: Option<QueueEntry<M>>|
                    #[trigger] carries(attempt, validator_id, message) && outcome_of(attempt)
                        == tampered_delivery_time && self.pending() == settled(pending, attempt);
                attempts = before.push(attempt);
                let next = to_each(recipients@.take(i + 1), message);
                assert(attempts.drop_last() =~= before);
                assert forall|k: int| 0 <= k < next.len() implies may_come_of_one(
                    old(self).strategy(),
                    base_delivery_time,
                    (#[trigger] next[k]).0,
                    next[k].1,
                    attempts[k],
                ) by {
                    if k < i {
                        assert(plan[k] == next[k]);
                    }
                }
            }
            i = i + 1;
        }
        assert(recipients@.take(i as int) =~= recipients@);
    }

    /// Dispatches `messages` to their recipients: each message to the one
    /// validator it names, or to every validator registered now, the
    /// smallest identifier first. The strategy decides for each recipient
    /// on its own, with `delivery_time` as the proposed delivery time.
    pub fn dispatch_messages<R: RandomSource>(
        &mut self,
        rand: &mut R,
        delivery_time: Timestamp,
        messages: Vec<TargetedMessage<M>>,
    )
        requires
            old(self).wf(),
        ensures
            final(self).wf(),
            final(self).registry() == old(self).registry(),
            final(self).strategy() == old(self).strategy(),
            exists|attempts: Seq<Option<QueueEntry<M>>>|
                #[trigger] may_come_of(
                    old(self).strategy(),
                    delivery_time,
                    addressed(ascending(old(self).registry().dom()), messages@),
                    attempts,
                ) && final(self).pending() == delivered(old(self).pending(), attempts),
    {
        let ghost all = messages@;
        let ghost ids = ascending(self.registry().dom());
        let ghost attempts = Seq::<Option<QueueEntry<M>>>::empty();
        proof {
            assert(all.take(0) =~= Seq::<TargetedMessage<M>>::empty());
        }
        for targeted in it: messages
            invariant
                it.seq() == all,
                self.wf(),
                self.registry() == old(self).registry(),
                self.strategy() == old(self).strategy(),
                ids == ascending(old(self).registry().dom()),
                may_come_of(
                    old(self).strategy(),
                    delivery_time,
                    addressed(ids, all.take(it.index())),
                    attempts,
                ),
                self.pending() == delivered(old(self).pending(), attempts),
        {
            let ghost k = it.index();
            let ghost before = attempts;
            let ghost pending = self.pending();
            let TargetedMessage { message, target } = targeted;
            let recipients = match target {
                Target::All => self.validators_ids(),
                Target::SingleValidator(recipient_id) => vec![recipient_id],
            };
            assert(recipients@ =~= recipients_of(ids, target));
            self.send_messages(rand, recipients, message, delivery_time);
            proof {
                let sent = to_each(recipients@, message);
                let made = choose|made: Seq<Option<QueueEntry<M>>>|
                    #[trigger] may_come_of(old(self).strategy(), delivery_time, sent, made)
                        && self.pending() == delivered(pending, made);
                attempts = before + made;
                lemma_delivered_in_batches(old(self).pending(), before, made);
                assert(all.take(k + 1).drop_last() =~= all.take(k));
                let plan = addressed(ids, all.take(k));
                let next = addressed(ids, all.take(k + 1));
                assert(next == plan + sent);
                assert forall|j: int| 0 <= j < next.len() implies may_come_of_one(
                    old(self).strategy(),
                    delivery_time,
                    (#[trigger] next[j]).0,
                    next[j].1,
                    attempts[j],
                ) by {
                    if j < plan.len() {
                        assert(plan[j] == next[j]);
                    } else {
                        assert(sent[j - plan.len()] == next[j]);
                    }
                }
            }
        }
        assert(all.take(all.len() as int) =~= all);
    }
}

} // verus!
