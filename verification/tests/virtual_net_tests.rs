use rand_core::{RngCore, SeedableRng};
use rand_xorshift::XorShiftRng;
use virtual_net::message::{Message, Target, TargetedMessage};
use virtual_net::net::VirtualNet;
use virtual_net::queue::QueueEntry;
use virtual_net::strategy::{DeliverySchedule, NoOpDelay, RandomSource, Strategy};
use virtual_net::types::{Timestamp, ValidatorId};
use virtual_net::validator::Validator;

type M = u64;
type C = u64;

struct NoOpConsensus;

/// A seeded generator as the random source of the network.
struct Seeded(XorShiftRng);

impl RandomSource for Seeded {
    fn next_u64(&mut self) -> u64 {
        self.0.next_u64()
    }
}

/// Loses every message.
struct DropAll;

impl Strategy<DeliverySchedule> for DropAll {
    fn map<R: RandomSource>(&self, _rng: &mut R, i: DeliverySchedule) -> DeliverySchedule {
        match i {
            DeliverySchedule::AtInstant(instant) => DeliverySchedule::drop(instant),
            DeliverySchedule::Drop => DeliverySchedule::Drop,
        }
    }
}

/// Delays every message by a fixed number of milliseconds.
struct Delay(u64);

impl Strategy<DeliverySchedule> for Delay {
    fn map<R: RandomSource>(&self, _rng: &mut R, i: DeliverySchedule) -> DeliverySchedule {
        match i {
            DeliverySchedule::AtInstant(instant) => {
                DeliverySchedule::at(Timestamp(instant.millis() + self.0))
            }
            DeliverySchedule::Drop => DeliverySchedule::Drop,
        }
    }
}

/// Loses a message whenever the random source gives an odd number.
struct DropOdd;

impl Strategy<DeliverySchedule> for DropOdd {
    fn map<R: RandomSource>(&self, rng: &mut R, i: DeliverySchedule) -> DeliverySchedule {
        if rng.next_u64() % 2 == 1 {
            DeliverySchedule::Drop
        } else {
            i
        }
    }
}

/// Counts up from the number it was made with.
struct Counting(u64);

impl RandomSource for Counting {
    fn next_u64(&mut self) -> u64 {
        self.0 += 1;
        self.0
    }
}

fn seeded() -> Seeded {
    Seeded(XorShiftRng::from_seed(rand::random()))
}

fn validator(id: u64) -> Validator<C, M, NoOpConsensus> {
    Validator::new(ValidatorId(id), false, NoOpConsensus)
}

fn drain<D, DS: Strategy<DeliverySchedule>>(
    net: &mut VirtualNet<C, D, M, DS>,
) -> Vec<(Timestamp, ValidatorId, Message<M>)> {
    std::iter::successors(net.pop_message(), |_| net.pop_message())
        .map(|qe| (qe.delivery_time, qe.recipient, qe.message))
        .collect()
}

#[test]
fn messages_are_enqueued_in_order() {
    let validator_id = ValidatorId(1u64);
    let single_validator: Validator<C, u64, NoOpConsensus> =
        Validator::new(validator_id, false, NoOpConsensus);
    let mut virtual_net = VirtualNet::new(vec![single_validator], NoOpDelay, vec![]);

    let messages_num = 10;
    // We want to enqueue messages from the latest delivery time to the earliest.
    let messages: Vec<(Timestamp, Message<u64>)> = (0..messages_num)
        .map(|i| ((messages_num - i).into(), Message::new(validator_id, i)))
        .collect();

    messages.clone().into_iter().for_each(|(instant, message)| {
        virtual_net.schedule_message(instant, validator_id, message)
    });

    let queued_messages =
        std::iter::successors(virtual_net.pop_message(), |_| virtual_net.pop_message())
            .map(|qe| qe.message);

    // Since we enqueued in the order from the latest delivery time,
    // we expect that the actual delivery will be a reverse.
    let expected_order = messages.into_iter().map(|(_, msg)| msg).rev();

    assert!(
        queued_messages.eq(expected_order),
        "Messages were not delivered in the expected order."
    );
}

#[test]
fn messages_are_dispatched() {
    let validator_id = ValidatorId(1u64);
    let first_validator: Validator<C, M, NoOpConsensus> =
        Validator::new(validator_id, false, NoOpConsensus);
    let second_validator: Validator<C, M, NoOpConsensus> =
        Validator::new(ValidatorId(2u64), false, NoOpConsensus);

    let mut virtual_net =
        VirtualNet::new(vec![first_validator, second_validator], NoOpDelay, vec![]);
    let mut rand = Seeded(XorShiftRng::from_seed(rand::random()));

    let message = Message::new(validator_id, 1u64);
    let targeted_message = TargetedMessage::new(message.clone(), Target::All);

    virtual_net.dispatch_messages(&mut rand, 2.into(), vec![targeted_message]);

    let queued_msgs =
        std::iter::successors(virtual_net.pop_message(), |_| virtual_net.pop_message())
            .map(|qe| (qe.recipient, qe.message))
            .collect::<Vec<_>>();

    assert_eq!(
        queued_msgs,
        vec![(ValidatorId(2), message.clone()), (ValidatorId(1), message)],
        "A broadcast message should be delivered to every node."
    );
}

#[test]
fn timestamps_come_out_in_ascending_order() {
    let recipient = ValidatorId(1);
    let mut net = VirtualNet::new(vec![validator(1)], NoOpDelay, vec![]);
    for i in 0..10u64 {
        net.schedule_message(Timestamp(10 - i), recipient, Message::new(recipient, i));
    }
    let popped = drain(&mut net);
    let times: Vec<u64> = popped.iter().map(|(t, _, _)| t.millis()).collect();
    let payloads: Vec<u64> = popped.iter().map(|(_, _, m)| *m.payload()).collect();
    assert_eq!(times, vec![1, 2, 3, 4, 5, 6, 7, 8, 9, 10]);
    assert_eq!(payloads, vec![9, 8, 7, 6, 5, 4, 3, 2, 1, 0]);
}

#[test]
fn broadcast_reaches_every_validator_once() {
    let mut net = VirtualNet::new(vec![validator(7), validator(3), validator(5)], NoOpDelay, vec![]);
    let mut rand = seeded();
    let message = Message::new(ValidatorId(3), 42u64);
    net.dispatch_messages(
        &mut rand,
        Timestamp(9),
        vec![TargetedMessage::new(message.clone(), Target::All)],
    );
    let mut popped = drain(&mut net);
    popped.sort_by_key(|(_, recipient, _)| recipient.0);
    assert_eq!(
        popped,
        vec![
            (Timestamp(9), ValidatorId(3), message.clone()),
            (Timestamp(9), ValidatorId(5), message.clone()),
            (Timestamp(9), ValidatorId(7), message),
        ]
    );
}

#[test]
fn single_target_reaches_only_that_validator() {
    let mut net = VirtualNet::new(vec![validator(1), validator(2)], NoOpDelay, vec![]);
    let mut rand = seeded();
    let message = Message::new(ValidatorId(1), 5u64);
    net.dispatch_messages(
        &mut rand,
        Timestamp(4),
        vec![TargetedMessage::new(message.clone(), Target::SingleValidator(ValidatorId(2)))],
    );
    assert_eq!(drain(&mut net), vec![(Timestamp(4), ValidatorId(2), message)]);
}

#[test]
fn a_message_to_an_unregistered_validator_is_still_scheduled() {
    let mut net = VirtualNet::new(vec![validator(1)], NoOpDelay, vec![]);
    let mut rand = seeded();
    let message = Message::new(ValidatorId(1), 5u64);
    net.dispatch_messages(
        &mut rand,
        Timestamp(4),
        vec![TargetedMessage::new(message.clone(), Target::SingleValidator(ValidatorId(99)))],
    );
    assert_eq!(drain(&mut net), vec![(Timestamp(4), ValidatorId(99), message)]);
}

#[test]
fn several_messages_are_dispatched_in_one_call() {
    let mut net = VirtualNet::new(vec![validator(1), validator(2)], NoOpDelay, vec![]);
    let mut rand = seeded();
    let first = Message::new(ValidatorId(1), 10u64);
    let second = Message::new(ValidatorId(2), 20u64);
    net.dispatch_messages(
        &mut rand,
        Timestamp(3),
        vec![
            TargetedMessage::new(first.clone(), Target::All),
            TargetedMessage::new(second.clone(), Target::SingleValidator(ValidatorId(2))),
        ],
    );
    // Equal times: the greater identifier first, and for one validator the
    // message that was dispatched first.
    assert_eq!(
        drain(&mut net),
        vec![
            (Timestamp(3), ValidatorId(2), first.clone()),
            (Timestamp(3), ValidatorId(2), second),
            (Timestamp(3), ValidatorId(1), first),
        ]
    );
}

#[test]
fn dispatching_nothing_schedules_nothing() {
    let mut net = VirtualNet::new(vec![validator(1)], NoOpDelay, vec![]);
    let mut rand = seeded();
    net.dispatch_messages(&mut rand, Timestamp(3), vec![]);
    assert!(net.pop_message().is_none());
}

#[test]
fn broadcast_into_an_empty_registry_schedules_nothing() {
    let nobody: Vec<Validator<C, M, NoOpConsensus>> = vec![];
    let mut net = VirtualNet::new(nobody, NoOpDelay, vec![]);
    let mut rand = seeded();
    let message = Message::new(ValidatorId(1), 5u64);
    net.dispatch_messages(&mut rand, Timestamp(3), vec![TargetedMessage::new(message, Target::All)]);
    assert!(net.pop_message().is_none());
}

#[test]
fn dropped_messages_never_appear() {
    let mut net = VirtualNet::new(vec![validator(1), validator(2)], DropAll, vec![]);
    let mut rand = seeded();
    let message = Message::new(ValidatorId(1), 1u64);
    net.dispatch_messages(
        &mut rand,
        Timestamp(2),
        vec![
            TargetedMessage::new(message.clone(), Target::All),
            TargetedMessage::new(message, Target::SingleValidator(ValidatorId(1))),
        ],
    );
    assert!(net.pop_message().is_none());
}

#[test]
fn dropping_leaves_earlier_entries_alone() {
    let mut net = VirtualNet::new(vec![validator(1)], DropAll, vec![]);
    let mut rand = seeded();
    let kept = Message::new(ValidatorId(1), 8u64);
    net.schedule_message(Timestamp(6), ValidatorId(1), kept.clone());
    net.dispatch_messages(
        &mut rand,
        Timestamp(2),
        vec![TargetedMessage::new(Message::new(ValidatorId(1), 1u64), Target::All)],
    );
    assert_eq!(drain(&mut net), vec![(Timestamp(6), ValidatorId(1), kept)]);
}

#[test]
fn delayed_messages_arrive_later() {
    let mut net = VirtualNet::new(vec![validator(1), validator(2)], Delay(5), vec![]);
    let mut rand = seeded();
    let message = Message::new(ValidatorId(1), 1u64);
    net.dispatch_messages(
        &mut rand,
        Timestamp(2),
        vec![TargetedMessage::new(message.clone(), Target::All)],
    );
    assert_eq!(
        drain(&mut net),
        vec![(Timestamp(7), ValidatorId(2), message.clone()), (Timestamp(7), ValidatorId(1), message)]
    );
}

#[test]
fn the_strategy_decides_for_each_recipient_on_its_own() {
    let mut net =
        VirtualNet::new(vec![validator(1), validator(2), validator(3)], DropOdd, vec![]);
    // The source gives 1, 2, 3: the first and the third recipient lose the message.
    let mut rand = Counting(0);
    let message = Message::new(ValidatorId(1), 1u64);
    net.dispatch_messages(
        &mut rand,
        Timestamp(2),
        vec![TargetedMessage::new(message.clone(), Target::All)],
    );
    assert_eq!(drain(&mut net), vec![(Timestamp(2), ValidatorId(2), message)]);
}

#[test]
fn the_same_seed_gives_the_same_run() {
    let run = |seed: u64| {
        let mut net =
            VirtualNet::new(vec![validator(1), validator(2), validator(3)], DropOdd, vec![]);
        let mut rand = Seeded(XorShiftRng::seed_from_u64(seed));
        for round in 0..20u64 {
            let message = Message::new(ValidatorId(1), round);
            net.dispatch_messages(
                &mut rand,
                Timestamp(round % 4),
                vec![TargetedMessage::new(message, Target::All)],
            );
        }
        drain(&mut net)
    };
    assert_eq!(run(17), run(17));
}

#[test]
fn nothing_is_due_after_the_queue_was_emptied() {
    let mut net = VirtualNet::new(vec![validator(1)], NoOpDelay, vec![]);
    net.schedule_message(Timestamp(1), ValidatorId(1), Message::new(ValidatorId(1), 1u64));
    net.schedule_message(Timestamp(2), ValidatorId(1), Message::new(ValidatorId(1), 2u64));
    net.empty_queue();
    assert!(net.pop_message().is_none());
    // The queue is usable again afterwards.
    let message = Message::new(ValidatorId(1), 3u64);
    net.schedule_message(Timestamp(3), ValidatorId(1), message.clone());
    assert_eq!(drain(&mut net), vec![(Timestamp(3), ValidatorId(1), message)]);
}

#[test]
fn emptying_an_empty_queue_changes_nothing() {
    let mut net = VirtualNet::new(vec![validator(1)], NoOpDelay, vec![]);
    net.empty_queue();
    assert!(net.pop_message().is_none());
}

#[test]
fn initial_messages_are_scheduled() {
    let first = Message::new(ValidatorId(1), 1u64);
    let second = Message::new(ValidatorId(1), 2u64);
    let mut net = VirtualNet::new(
        vec![validator(1)],
        NoOpDelay,
        vec![
            QueueEntry::new(Timestamp(8), ValidatorId(1), second.clone()),
            QueueEntry::new(Timestamp(4), ValidatorId(1), first.clone()),
        ],
    );
    assert_eq!(
        drain(&mut net),
        vec![(Timestamp(4), ValidatorId(1), first), (Timestamp(8), ValidatorId(1), second)]
    );
}

#[test]
fn validators_are_listed_by_ascending_identifier() {
    let net = VirtualNet::new(vec![validator(7), validator(3), validator(5)], NoOpDelay, vec![]);
    assert_eq!(net.validators_ids(), vec![ValidatorId(3), ValidatorId(5), ValidatorId(7)]);
    let ids: Vec<ValidatorId> = net.validators().iter().map(|v| v.validator_id()).collect();
    assert_eq!(ids, vec![ValidatorId(3), ValidatorId(5), ValidatorId(7)]);
}

#[test]
fn an_unknown_validator_is_absent() {
    let mut net = VirtualNet::new(vec![validator(1)], NoOpDelay, vec![]);
    assert!(net.get_validator(ValidatorId(2)).is_none());
    assert!(net.validator(&ValidatorId(2)).is_none());
    assert!(net.get_validator_mut(&ValidatorId(2)).is_none());
    assert_eq!(net.validators_ids(), vec![ValidatorId(1)]);
}

#[test]
fn a_registered_validator_is_found() {
    let faulty: Validator<C, M, NoOpConsensus> = Validator::new(ValidatorId(2), true, NoOpConsensus);
    let net = VirtualNet::new(vec![validator(1), faulty], NoOpDelay, vec![]);
    let found = net.get_validator(ValidatorId(2)).unwrap();
    assert_eq!(found.validator_id(), ValidatorId(2));
    assert!(found.is_faulty());
    let other = net.validator(&ValidatorId(1)).unwrap();
    assert_eq!(other.validator_id(), ValidatorId(1));
    assert!(!other.is_faulty());
}

#[test]
fn of_two_validators_with_one_identifier_the_later_stays() {
    let earlier: Validator<C, M, NoOpConsensus> = Validator::new(ValidatorId(1), false, NoOpConsensus);
    let later: Validator<C, M, NoOpConsensus> = Validator::new(ValidatorId(1), true, NoOpConsensus);
    let net = VirtualNet::new(vec![earlier, later], NoOpDelay, vec![]);
    assert_eq!(net.validators_ids(), vec![ValidatorId(1)]);
    assert!(net.get_validator(ValidatorId(1)).unwrap().is_faulty());
}

#[test]
fn histories_of_validators_are_isolated() {
    let mut net = VirtualNet::new(vec![validator(1), validator(2)], NoOpDelay, vec![]);
    let received = Message::new(ValidatorId(2), 11u64);
    {
        let first = net.get_validator_mut(&ValidatorId(1)).unwrap();
        first.push_finalized(vec![1, 2]);
        first.push_messages_received(vec![received.clone()]);
        first.push_messages_produced(vec![21]);
    }
    {
        let first = net.get_validator_mut(&ValidatorId(1)).unwrap();
        first.push_finalized(vec![2, 1]);
    }
    let first = net.get_validator(ValidatorId(1)).unwrap();
    assert_eq!(first.finalized_values(), &vec![1, 2, 2, 1]);
    assert_eq!(first.messages_received(), &vec![received]);
    assert_eq!(first.messages_produced(), &vec![21]);
    assert_eq!(first.finalized_count(), 4);
    let second = net.get_validator(ValidatorId(2)).unwrap();
    assert!(second.finalized_values().is_empty());
    assert!(second.messages_received().is_empty());
    assert!(second.messages_produced().is_empty());
    assert_eq!(second.finalized_count(), 0);
}

#[test]
fn changing_a_validator_leaves_the_queue_alone() {
    let mut net = VirtualNet::new(vec![validator(1)], NoOpDelay, vec![]);
    let message = Message::new(ValidatorId(1), 3u64);
    net.schedule_message(Timestamp(3), ValidatorId(1), message.clone());
    net.get_validator_mut(&ValidatorId(1)).unwrap().push_finalized(vec![5]);
    assert_eq!(drain(&mut net), vec![(Timestamp(3), ValidatorId(1), message)]);
}

#[test]
fn a_drop_schedules_nothing() {
    let mut net = VirtualNet::new(vec![validator(1)], NoOpDelay, vec![]);
    let message = Message::new(ValidatorId(1), 3u64);
    net.apply_schedule(DeliverySchedule::Drop, ValidatorId(1), &message);
    assert!(net.pop_message().is_none());
}

#[test]
fn an_instant_schedules_a_copy() {
    let mut net = VirtualNet::new(vec![validator(1)], NoOpDelay, vec![]);
    let message = Message::new(ValidatorId(1), 3u64);
    net.apply_schedule(DeliverySchedule::AtInstant(Timestamp(8)), ValidatorId(1), &message);
    net.apply_schedule(DeliverySchedule::Drop, ValidatorId(1), &message);
    net.apply_schedule(DeliverySchedule::AtInstant(Timestamp(6)), ValidatorId(2), &message);
    assert_eq!(
        drain(&mut net),
        vec![(Timestamp(6), ValidatorId(2), message.clone()), (Timestamp(8), ValidatorId(1), message)]
    );
}
