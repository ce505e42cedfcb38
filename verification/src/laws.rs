//! What holds of every transition, and of every run of an instance.

use vstd::prelude::*;
use crate::bin_values::BinValues;
use crate::message::{AgreementContent, AgreementMessage, Error};
use crate::model::{
    accepts_input, add_bin_value, adopt, advances, bvals_of, coin, conf_values, consistent,
    count_aux, count_bval, count_conf, done, each_step, enqueue, follows, handle_aux,
    handle_bval, handle_conf, handle_message, holding, initial, invoke_coin, message_now,
    recorded, replay, room, run, send_aux, send_bval, send_conf, set_input, settled,
    start_next_epoch, step, truthful, try_finish_conf_round, Event, Outcome, State, Status,
    LAST_EPOCH,
};
use crate::netinfo::NodeUid;
use crate::tally::{lemma_tally_empty, lemma_tally_sender};

verus! {

/// A `BVal` adds one to the count of its value if it is the sender's first
/// for that value in the epoch, and nothing otherwise; the count of the
/// other value stays.
pub proof fn lemma_bval_counted(s: State, sender: NodeUid, b: bool)
    requires
        consistent(s),
    ensures
        count_bval(recorded(s, sender, b), b) == count_bval(s, b) + if bvals_of(s, sender).has(
            b,
        ) {
            0nat
        } else {
            1nat
        },
        count_bval(recorded(s, sender, b), !b) == count_bval(s, !b),
{
    let m = s.received_bval;
    let n = recorded(s, sender, b).received_bval;
    assert(n.remove(sender) == m.remove(sender));
    lemma_tally_sender(m, sender, holding(b));
    lemma_tally_sender(n, sender, holding(b));
    lemma_tally_sender(m, sender, holding(!b));
    lemma_tally_sender(n, sender, holding(!b));
}

/// `handle_message` keeps the state consistent; the state after it advances
/// the state before it; and it refuses the message exactly where the
/// instance had terminated before, and leaves the state as it is then.
pub proof fn lemma_handle_message(s: State, sender: NodeUid, msg: AgreementMessage)
    requires
        consistent(s),
    ensures
        consistent(handle_message(s, sender, msg).state),
        advances(s, handle_message(s, sender, msg).state),
        truthful(s, handle_message(s, sender, msg)),
        handle_message(s, sender, msg).status is Failed <==> s.terminated,
    decreases room(s.epoch), 60nat,
{
    if s.terminated {
    } else if msg.epoch < s.epoch {
    } else if msg.epoch > s.epoch {
    } else {
        match msg.content {
            AgreementContent::BVal(b) => lemma_handle_bval(s, sender, b),
            AgreementContent::Aux(b) => lemma_handle_aux(s, sender, b),
            AgreementContent::Conf(v) => lemma_handle_conf(s, sender, v),
        }
    }
}

/// A state that advances one that advances a third, advances the third.
pub proof fn lemma_advances_chain(a: State, b: State, c: State)
    requires
        advances(a, b),
        advances(b, c),
    ensures
        advances(a, c),
{
    if a.epoch == c.epoch {
        assert forall|k: NodeUid| #[trigger] a.received_bval.contains_key(k) implies
            c.received_bval.contains_key(k) && a.received_bval[k].within(c.received_bval[k]) by {
            assert(b.received_bval.contains_key(k));
        }
    }
    assert forall|i: int| 0 <= i < a.messages.len() implies #[trigger] c.messages[i]
        == a.messages[i] by {
        assert(b.messages[i] == a.messages[i]);
    }
}

/// A state that follows one that follows a third, follows the third.
pub proof fn lemma_follows_chain(a: State, b: State, c: State)
    requires
        follows(a, b),
        follows(b, c),
    ensures
        follows(a, c),
{
    if a.epoch == c.epoch {
        assert forall|k: NodeUid| #[trigger] a.received_bval.contains_key(k) implies
            c.received_bval.contains_key(k) && a.received_bval[k].within(c.received_bval[k]) by {
            assert(b.received_bval.contains_key(k));
        }
    }
}

/// Recording a `BVal` keeps the state consistent, and the state after it
/// advances the state before it.
proof fn lemma_recorded(s: State, sender: NodeUid, b: bool)
    requires
        consistent(s),
    ensures
        consistent(recorded(s, sender, b)),
        advances(s, recorded(s, sender, b)),
{
}

/// `handle_bval` keeps the state consistent; the state after it advances the state
/// before it; and it refuses nothing, and leaves the last epoch only where it says so.
pub proof fn lemma_handle_bval(s: State, sender: NodeUid, b: bool)
    requires
        consistent(s),
    ensures
        consistent(handle_bval(s, sender, b).state),
        advances(s, handle_bval(s, sender, b).state),
        settled(handle_bval(s, sender, b)),
    decreases room(s.epoch), 42 + 4 * s.sent_bval.missing(),
{
    let s1 = recorded(s, sender, b);
    lemma_recorded(s, sender, b);
    lemma_handle_bval_recorded(s, sender, b);
    lemma_advances_chain(s, s1, handle_bval(s, sender, b).state);
}

/// The state after `handle_bval` is consistent and advances the state in
/// which the `BVal` is recorded; and how it ends tells the truth about the
/// state.
pub proof fn lemma_handle_bval_recorded(s: State, sender: NodeUid, b: bool)
    requires
        consistent(s),
    ensures
        consistent(handle_bval(s, sender, b).state),
        advances(recorded(s, sender, b), handle_bval(s, sender, b).state),
        settled(handle_bval(s, sender, b)),
    decreases room(s.epoch), 41 + 4 * s.sent_bval.missing(),
{
    let s1 = recorded(s, sender, b);
    lemma_recorded(s, sender, b);
    let count = count_bval(s1, b);
    let echo = count == s.num_faulty + 1 && !s.sent_bval.has(b);
    if echo {
        lemma_send_bval(s1, b);
    }
    let echoed = if echo {
        send_bval(s1, b)
    } else {
        done(s1)
    };
    if echoed.status == Status::Done && count == 2 * s.num_faulty + 1 {
        lemma_add_bin_value(echoed.state, b);
        lemma_advances_chain(s1, echoed.state, add_bin_value(echoed.state, b).state);
    }
}

/// `add_bin_value` keeps the state consistent; the state after it advances the state
/// before it; and it refuses nothing, and leaves the last epoch only where it says so.
pub proof fn lemma_add_bin_value(s: State, b: bool)
    requires
        consistent(s),
    ensures
        consistent(add_bin_value(s, b).state),
        advances(s, add_bin_value(s, b).state),
        settled(add_bin_value(s, b)),
    decreases room(s.epoch), 11nat,
{
    let s1 = State { bin_values: s.bin_values.with(b), ..s };
    assert(consistent(s1));
    assert(advances(s, s1));
    if s.bin_values == BinValues::Neither {
        lemma_send_aux(s1, b);
        lemma_advances_chain(s, s1, send_aux(s1, b).state);
    } else if s1.bin_values != s.bin_values {
        lemma_try_finish_conf_round(s1);
        lemma_advances_chain(s, s1, try_finish_conf_round(s1).state);
    }
}

/// `send_bval` keeps the state consistent; the state after it advances the state
/// before it; and it refuses nothing, and leaves the last epoch only where it says so.
pub proof fn lemma_send_bval(s: State, b: bool)
    requires
        consistent(s),
    ensures
        consistent(send_bval(s, b).state),
        advances(s, send_bval(s, b).state),
        settled(send_bval(s, b)),
    decreases room(s.epoch), 44 + 4 * s.sent_bval.with(b).missing(),
{
    let s1 = enqueue(
        State { sent_bval: s.sent_bval.with(b), ..s },
        message_now(s, AgreementContent::BVal(b)),
    );
    assert(advances(s, s1));
    lemma_handle_bval(s1, s.our_id, b);
}

/// `send_aux` keeps the state consistent; the state after it advances the state
/// before it; and it refuses nothing, and leaves the last epoch only where it says so.
pub proof fn lemma_send_aux(s: State, b: bool)
    requires
        consistent(s),
    ensures
        consistent(send_aux(s, b).state),
        advances(s, send_aux(s, b).state),
        settled(send_aux(s, b)),
    decreases room(s.epoch), 10nat,
{
    let s1 = enqueue(s, message_now(s, AgreementContent::Aux(b)));
    assert(advances(s, s1));
    lemma_handle_aux(s1, s.our_id, b);
}

/// `handle_aux` keeps the state consistent; the state after it advances the state
/// before it; and it refuses nothing, and leaves the last epoch only where it says so.
pub proof fn lemma_handle_aux(s: State, sender: NodeUid, b: bool)
    requires
        consistent(s),
    ensures
        consistent(handle_aux(s, sender, b).state),
        advances(s, handle_aux(s, sender, b).state),
        settled(handle_aux(s, sender, b)),
    decreases room(s.epoch), 9nat,
{
    if !s.conf_round {
        let s1 = State { received_aux: s.received_aux.insert(sender, b), ..s };
        assert(advances(s, s1));
        if s.bin_values != BinValues::Neither && !(count_aux(s1) < s.num_nodes - s.num_faulty) {
            lemma_send_conf(s1);
        }
    }
}

/// `send_conf` keeps the state consistent; the state after it advances the state
/// before it; and it refuses nothing, and leaves the last epoch only where it says so.
pub proof fn lemma_send_conf(s: State)
    requires
        consistent(s),
    ensures
        consistent(send_conf(s).state),
        advances(s, send_conf(s).state),
        settled(send_conf(s)),
    decreases room(s.epoch), 8nat,
{
    if !s.conf_round {
        let s1 = State {
            conf_round: true,
            ..enqueue(s, message_now(s, AgreementContent::Conf(s.bin_values)))
        };
        assert(advances(s, s1));
        lemma_handle_conf(s1, s.our_id, s.bin_values);
    }
}

/// `handle_conf` keeps the state consistent; the state after it advances the state
/// before it; and it refuses nothing, and leaves the last epoch only where it says so.
pub proof fn lemma_handle_conf(s: State, sender: NodeUid, v: BinValues)
    requires
        consistent(s),
    ensures
        consistent(handle_conf(s, sender, v).state),
        advances(s, handle_conf(s, sender, v).state),
        settled(handle_conf(s, sender, v)),
    decreases room(s.epoch), 7nat,
{
    let s1 = State { received_conf: s.received_conf.insert(sender, v), ..s };
    assert(advances(s, s1));
    lemma_try_finish_conf_round(s1);
}

/// `try_finish_conf_round` keeps the state consistent; the state after it advances the state
/// before it; and it refuses nothing, and leaves the last epoch only where it says so.
pub proof fn lemma_try_finish_conf_round(s: State)
    requires
        consistent(s),
    ensures
        consistent(try_finish_conf_round(s).state),
        advances(s, try_finish_conf_round(s).state),
        settled(try_finish_conf_round(s)),
    decreases room(s.epoch), 6nat,
{
    if s.conf_round && !(count_conf(s) < s.num_nodes - s.num_faulty) {
        lemma_invoke_coin(s, conf_values(s));
    }
}

/// The start of the next epoch keeps the state consistent, and the state
/// after it advances the state before it.
pub proof fn lemma_next_epoch(s: State, vals: BinValues)
    requires
        consistent(s),
        !s.terminated,
        s.decision != Some(coin(s.epoch)),
        s.epoch < LAST_EPOCH,
    ensures
        consistent(adopt(start_next_epoch(s), vals, coin(s.epoch))),
        advances(s, adopt(start_next_epoch(s), vals, coin(s.epoch))),
        adopt(start_next_epoch(s), vals, coin(s.epoch)).estimated is Some,
{
}

/// Forgetting the messages that wait keeps the state consistent, and the
/// state after it advances the state before it.
proof fn lemma_queue_taken(s: State)
    requires
        consistent(s),
    ensures
        consistent(State { incoming_queue: Seq::empty(), ..s }),
        advances(s, State { incoming_queue: Seq::empty(), ..s }),
{
}

/// `invoke_coin` keeps the state consistent; the state after it advances the state
/// before it; and it refuses nothing, and leaves the last epoch only where it says so.
pub proof fn lemma_invoke_coin(s: State, vals: BinValues)
    requires
        consistent(s),
    ensures
        consistent(invoke_coin(s, vals).state),
        advances(s, invoke_coin(s, vals).state),
        settled(invoke_coin(s, vals)),
    decreases room(s.epoch), 5nat,
{
    let coin = coin(s.epoch);
    if s.terminated || s.decision == Some(coin) {
    } else if s.epoch >= LAST_EPOCH {
    } else {
        let s1 = adopt(start_next_epoch(s), vals, coin);
        lemma_next_epoch(s, vals);
        lemma_send_bval(s1, s1.estimated->0);
        let sent = send_bval(s1, s1.estimated->0);
        lemma_advances_chain(s, s1, sent.state);
        if sent.status == Status::Done {
            let s2 = State { incoming_queue: Seq::empty(), ..sent.state };
            lemma_queue_taken(sent.state);
            lemma_advances_chain(s, sent.state, s2);
            lemma_replay(s2, sent.state.incoming_queue, s1.epoch);
            lemma_advances_chain(s, s2, replay(s2, sent.state.incoming_queue, s1.epoch).state);
        }
    }
}

/// `replay` keeps the state consistent; the state after it advances the state
/// before it; and it refuses nothing, and leaves the last epoch only where it says so.
pub proof fn lemma_replay(s: State, msgs: Seq<(NodeUid, AgreementMessage)>, floor: nat)
    requires
        consistent(s),
        floor <= s.epoch,
    ensures
        consistent(replay(s, msgs, floor).state),
        advances(s, replay(s, msgs, floor).state),
        settled(replay(s, msgs, floor)),
    decreases room(floor), 100 + msgs.len(),
{
    if msgs.len() > 0 {
        lemma_handle_message(s, msgs[0].0, msgs[0].1);
        let first = handle_message(s, msgs[0].0, msgs[0].1);
        if first.status == Status::Done {
            lemma_replay(first.state, msgs.drop_first(), s.epoch);
        }
    }
}

/// `set_input` keeps the state consistent; the state after it advances the
/// state before it; and it refuses the input exactly where none is
/// accepted, and leaves the state as it is then.
pub proof fn lemma_set_input(s: State, input: bool)
    requires
        consistent(s),
    ensures
        consistent(set_input(s, input).state),
        advances(s, set_input(s, input).state),
        truthful(s, set_input(s, input)),
        set_input(s, input).status is Failed <==> !accepts_input(s),
{
    if accepts_input(s) && s.num_nodes != 1 {
        let s1 = State { estimated: Some(input), ..s };
        assert(advances(s, s1));
        lemma_send_bval(s1, input);
    }
}

/// The state of a new instance is consistent.
pub proof fn lemma_initial(our_id: NodeUid, num_nodes: nat, num_faulty: nat)
    requires
        3 * num_faulty + 1 <= num_nodes,
    ensures
        consistent(initial(our_id, num_nodes, num_faulty)),
{
}

/// Every event keeps the state consistent, and the state after it follows
/// the state before it; after an input or a message it advances it.
pub proof fn lemma_step(s: State, e: Event)
    requires
        consistent(s),
    ensures
        consistent(step(s, e)),
        follows(s, step(s, e)),
        e is Input || e is Message ==> advances(s, step(s, e)),
{
    match e {
        Event::Input(b) => lemma_set_input(s, b),
        Event::Message(sender, msg) => lemma_handle_message(s, sender, msg),
        Event::NextMessage => {},
        Event::NextOutput => {},
    }
}

/// Every run keeps the state consistent, and the state after it follows the
/// state before it.
pub proof fn lemma_run(s: State, events: Seq<Event>)
    requires
        consistent(s),
    ensures
        consistent(run(s, events)),
        follows(s, run(s, events)),
    decreases events.len(),
{
    if events.len() > 0 {
        let before = run(s, events.drop_last());
        lemma_run(s, events.drop_last());
        lemma_step(before, events.last());
        lemma_follows_chain(s, before, step(before, events.last()));
    }
}

/// A decision is made at most once: whatever happens to an instance that
/// has decided, its decision stays what it is.
pub proof fn lemma_decision_stays(s: State, events: Seq<Event>)
    requires
        consistent(s),
        s.decision is Some,
    ensures
        run(s, events).decision == s.decision,
{
    lemma_run(s, events);
}

/// Where an event sets the output, the instance had not decided before, and
/// the event makes the output its decision.
pub proof fn lemma_output_is_decision(s: State, e: Event)
    requires
        consistent(s),
        s.output is None,
        step(s, e).output is Some,
    ensures
        s.decision is None,
        step(s, e).decision == step(s, e).output,
{
    lemma_step(s, e);
}

/// The epoch never decreases.
pub proof fn lemma_epoch_grows(s: State, events: Seq<Event>)
    requires
        consistent(s),
    ensures
        s.epoch <= run(s, events).epoch,
{
    lemma_run(s, events);
}

/// While the epoch is the same, `bin_values` only gains members.
pub proof fn lemma_bin_values_grow(s: State, events: Seq<Event>)
    requires
        consistent(s),
        run(s, events).epoch == s.epoch,
    ensures
        s.bin_values.within(run(s, events).bin_values),
        s.bin_values@.subset_of(run(s, events).bin_values@),
{
    lemma_run(s, events);
    s.bin_values.lemma_view(run(s, events).bin_values, true);
}

/// Once an instance has terminated, it refuses every message, whatever
/// happened in between, and the message changes nothing.
pub proof fn lemma_terminated_refuses(
    s: State,
    events: Seq<Event>,
    sender: NodeUid,
    msg: AgreementMessage,
)
    requires
        consistent(s),
        s.terminated,
    ensures
        run(s, events).terminated,
        handle_message(run(s, events), sender, msg) == (Outcome {
            state: run(s, events),
            status: Status::Failed(Error::Terminated),
        }),
        forall|input: bool|
            #[trigger] set_input(run(s, events), input) == (Outcome {
                state: run(s, events),
                status: Status::Failed(Error::InputNotAccepted),
            }),
{
    lemma_run(s, events);
}

/// Once the host has taken the output of an instance, there is no output
/// again, whatever happens.
pub proof fn lemma_output_taken_once(s: State, events: Seq<Event>)
    requires
        consistent(s),
        s.decision is Some,
        s.output is None,
    ensures
        run(s, events).output is None,
    decreases events.len(),
{
    if events.len() > 0 {
        let front = events.drop_last();
        lemma_output_taken_once(s, front);
        lemma_run(s, front);
        lemma_step(run(s, front), events.last());
    }
}

/// The epoch that bounds the handling of the messages that waited has no
/// part in its result, as long as the instance has reached it.
pub proof fn lemma_replay_floor(
    s: State,
    msgs: Seq<(NodeUid, AgreementMessage)>,
    floor: nat,
    other: nat,
)
    requires
        floor <= s.epoch,
        other <= s.epoch,
    ensures
        replay(s, msgs, floor) == replay(s, msgs, other),
{
}

/// A message of an epoch that is over changes nothing, and so puts no
/// message into the outgoing queue.
pub proof fn lemma_obsolete_dropped(s: State, sender: NodeUid, msg: AgreementMessage)
    requires
        msg.epoch < s.epoch,
    ensures
        handle_message(s, sender, msg).state == s,
        !s.terminated ==> handle_message(s, sender, msg) == done(s),
{
}

/// Where the end of an epoch leaves the instance in its epoch, it has at
/// most terminated it.
pub proof fn lemma_invoke_coin_stays(s: State, vals: BinValues)
    requires
        consistent(s),
    ensures
        ({
            let after = invoke_coin(s, vals).state;
            after.epoch == s.epoch ==> after == (State { terminated: after.terminated, ..s })
        }),
{
    let coin = coin(s.epoch);
    if s.terminated || s.decision == Some(coin) {
    } else if s.epoch >= LAST_EPOCH {
    } else {
        let s1 = adopt(start_next_epoch(s), vals, coin);
        lemma_send_bval(s1, s1.estimated->0);
        let sent = send_bval(s1, s1.estimated->0);
        if sent.status == Status::Done {
            let s2 = State { incoming_queue: Seq::empty(), ..sent.state };
            lemma_replay(s2, sent.state.incoming_queue, s1.epoch);
        }
    }
}

/// After the local node has sent its `Conf`, unless the epoch has ended with
/// it, the `Conf` round has begun and the node's own values are among those
/// received.
pub proof fn lemma_send_conf_delivered(s: State)
    requires
        consistent(s),
        !s.conf_round,
        send_conf(s).state.epoch == s.epoch,
    ensures
        ({
            let after = send_conf(s).state;
            &&& after.conf_round
            &&& after.received_conf == s.received_conf.insert(s.our_id, s.bin_values)
            &&& after.received_aux == s.received_aux
            &&& after.messages == s.messages.push(
                message_now(s, AgreementContent::Conf(s.bin_values)),
            )
        }),
{
    let s1 = State {
        conf_round: true,
        ..enqueue(s, message_now(s, AgreementContent::Conf(s.bin_values)))
    };
    let s2 = State { received_conf: s1.received_conf.insert(s.our_id, s.bin_values), ..s1 };
    if s2.conf_round && !(count_conf(s2) < s2.num_nodes - s2.num_faulty) {
        lemma_invoke_coin_stays(s2, conf_values(s2));
    }
}

/// After the local node has sent an `Aux` before the `Conf` round, unless
/// the epoch has ended with it, the node's own value is among those received.
pub proof fn lemma_send_aux_delivered(s: State, b: bool)
    requires
        consistent(s),
        !s.conf_round,
        send_aux(s, b).state.epoch == s.epoch,
    ensures
        ({
            let after = send_aux(s, b).state;
            &&& after.received_aux == s.received_aux.insert(s.our_id, b)
            &&& after.messages.len() > s.messages.len()
            &&& after.messages[s.messages.len() as int] == message_now(
                s,
                AgreementContent::Aux(b),
            )
        }),
{
    let s1 = enqueue(s, message_now(s, AgreementContent::Aux(b)));
    let s2 = State { received_aux: s1.received_aux.insert(s.our_id, b), ..s1 };
    if s1.bin_values != BinValues::Neither && !(count_aux(s2) < s.num_nodes - s.num_faulty) {
        lemma_send_conf_delivered(s2);
    }
}

/// After the local node has sent a `BVal`, unless the epoch has ended with
/// it, the value is recorded as sent and is among the node's own received
/// values.
pub proof fn lemma_send_bval_delivered(s: State, b: bool)
    requires
        consistent(s),
        send_bval(s, b).state.epoch == s.epoch,
    ensures
        ({
            let after = send_bval(s, b).state;
            &&& after.sent_bval.has(b)
            &&& after.received_bval.contains_key(s.our_id)
            &&& after.received_bval[s.our_id].has(b)
            &&& after.messages.len() > s.messages.len()
            &&& after.messages[s.messages.len() as int] == message_now(
                s,
                AgreementContent::BVal(b),
            )
        }),
{
    let s0 = enqueue(
        State { sent_bval: s.sent_bval.with(b), ..s },
        message_now(s, AgreementContent::BVal(b)),
    );
    let s1 = State {
        received_bval: s0.received_bval.insert(s.our_id, bvals_of(s0, s.our_id).with(b)),
        ..s0
    };
    lemma_handle_bval_recorded(s0, s.our_id, b);
    let after = send_bval(s, b).state;
    assert(after == handle_bval(s0, s.our_id, b).state);
    assert(advances(s1, after));
    assert(s1.received_bval.contains_key(s.our_id));
    assert(s1.received_bval[s.our_id].has(b));
    assert(s1.sent_bval.has(b));
    assert(s1.messages[s.messages.len() as int] == message_now(s, AgreementContent::BVal(b)));
    assert(after.messages[s.messages.len() as int] == s1.messages[s.messages.len() as int]);
}

/// What holds of every event of a run holds of every event of the run
/// without its last event, and of the last event.
pub proof fn lemma_each_step_front(
    s: State,
    events: Seq<Event>,
    ok: spec_fn(State, Event) -> bool,
)
    requires
        each_step(s, events, ok),
        events.len() > 0,
    ensures
        each_step(s, events.drop_last(), ok),
        ok(run(s, events.drop_last()), events.last()),
{
    reveal(each_step);
    let front = events.drop_last();
    assert forall|i: int| 0 <= i < front.len() implies ok(
        #[trigger] run(s, front.take(i)),
        front[i],
    ) by {
        assert(front.take(i) == events.take(i));
        assert(ok(run(s, events.take(i)), events[i]));
    }
    assert(events.take(events.len() - 1) == front);
    assert(ok(run(s, events.take(events.len() - 1)), events[events.len() - 1]));
}

/// A message makes the epoch grow only if it is of the instance's epoch,
/// the instance has not terminated, and the coin of the epoch is not its
/// decision.
pub proof fn lemma_epoch_grows_when(s: State, sender: NodeUid, msg: AgreementMessage)
    requires
        consistent(s),
        handle_message(s, sender, msg).state.epoch > s.epoch,
    ensures
        !s.terminated,
        msg.epoch == s.epoch,
        s.decision != Some(coin(s.epoch)),
{
    lemma_handle_message(s, sender, msg);
}

/// Where an epoch ends for an instance that has not decided, on which no
/// message waits and which can tolerate a faulty node, the next epoch
/// begins, and nothing more happens than that the node sends its `BVal`.
/// The estimate is the single value of the `Conf` round, or the coin where
/// there is none. The instance decides exactly if the single value is the
/// coin, and that is its decision and its output.
pub proof fn lemma_invoke_coin_decides(s: State, vals: BinValues)
    requires
        consistent(s),
        !s.terminated,
        s.decision is None,
        s.incoming_queue.len() == 0,
        s.num_faulty >= 1,
        s.epoch < LAST_EPOCH,
    ensures
        ({
            let after = invoke_coin(s, vals).state;
            let c = coin(s.epoch);
            &&& invoke_coin(s, vals).status == Status::Done
            &&& after.epoch == s.epoch + 1
            &&& after.estimated == Some(
                match vals.sole() {
                    Some(b) => b,
                    None => c,
                },
            )
            &&& (vals.sole() == Some(c) ==> after.decision == Some(c) && after.output == Some(c))
            &&& (vals.sole() != Some(c) ==> after.decision is None && after.output == s.output)
            &&& after.messages == s.messages.push(
                AgreementMessage {
                    epoch: after.epoch as u32,
                    content: AgreementContent::BVal(after.estimated->0),
                },
            )
        }),
{
    let c = coin(s.epoch);
    let s1 = adopt(start_next_epoch(s), vals, c);
    let b = s1.estimated->0;
    let s2 = enqueue(
        State { sent_bval: s1.sent_bval.with(b), ..s1 },
        message_now(s1, AgreementContent::BVal(b)),
    );
    assert(consistent(s2));
    lemma_bval_counted(s2, s.our_id, b);
    lemma_tally_empty(holding(b));
    let r = recorded(s2, s.our_id, b);
    assert(count_bval(r, b) == 1);
    assert(handle_bval(s2, s.our_id, b) == done(r));
    assert(send_bval(s1, b) == done(r));
    assert(r.incoming_queue == s.incoming_queue);
    assert(s.incoming_queue == Seq::<(NodeUid, AgreementMessage)>::empty());
    assert((State { incoming_queue: Seq::empty(), ..r }) == r);
    assert(replay(r, r.incoming_queue, s1.epoch) == done(r));
}

} // verus!
