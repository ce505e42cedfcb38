//! The messages that come before their epoch are handled when it begins, as
//! if they had come then.

use vstd::prelude::*;
use crate::bin_values::BinValues;
use crate::laws::{
    lemma_add_bin_value, lemma_bval_counted, lemma_each_step_front, lemma_handle_bval_recorded,
    lemma_handle_message, lemma_invoke_coin, lemma_invoke_coin_stays, lemma_next_epoch,
    lemma_replay, lemma_run, lemma_send_bval,
};
use crate::message::{AgreementContent, AgreementMessage};
use crate::model::{
    accepts_input, add_bin_value, adopt, coin, conf_values, consistent, count_aux, count_bval,
    count_conf, done, each_step, enqueue, handle_aux, handle_bval, handle_conf, handle_message,
    holding, initial, invoke_coin, member_of, message_now, recorded, replay, room, run,
    send_aux, send_bval, send_conf, start_next_epoch, step, try_finish_conf_round,
    within_epochs, Event, Outcome, State, Status, LAST_EPOCH,
};
use crate::netinfo::NodeUid;
use crate::tally::{lemma_tally_empty, lemma_tally_sender};

verus! {

/// The state with `q` as the messages that wait.
pub open spec fn with_queue(s: State, q: Seq<(NodeUid, AgreementMessage)>) -> State {
    State { incoming_queue: q, ..s }
}

/// The transition `o` of an instance with `q` as the messages that wait.
pub open spec fn carrying(o: Outcome, q: Seq<(NodeUid, AgreementMessage)>) -> Outcome {
    Outcome { state: with_queue(o.state, q), status: o.status }
}

/// Where `handle_bval` leaves the instance in its epoch, the messages that wait
/// have no part in it, and stay.
proof fn lemma_handle_bval_carries(
    s: State,
    sender: NodeUid,
    b: bool,
    q: Seq<(NodeUid, AgreementMessage)>,
)
    requires
        consistent(s),
        handle_bval(s, sender, b).state.epoch == s.epoch,
    ensures
        handle_bval(with_queue(s, q), sender, b) == carrying(handle_bval(s, sender, b), q),
    decreases room(s.epoch), 21 + 2 * s.sent_bval.missing(),
{
    let s1 = recorded(s, sender, b);
    let t = with_queue(s, q);
    assert(recorded(t, sender, b) == with_queue(s1, q));
    assert(count_bval(with_queue(s1, q), b) == count_bval(s1, b));
    lemma_handle_bval_recorded(s, sender, b);
    let count = count_bval(s1, b);
    let echo = count == s.num_faulty + 1 && !s.sent_bval.has(b);
    let echoed = if echo {
        send_bval(s1, b)
    } else {
        done(s1)
    };
    let both = echoed.status == Status::Done && count == 2 * s.num_faulty + 1;
    if echo {
        lemma_send_bval(s1, b);
    }
    if both {
        lemma_add_bin_value(echoed.state, b);
    }
    assert(echoed.state.epoch == s.epoch);
    if echo {
        lemma_send_bval_carries(s1, b, q);
    }
    if both {
        lemma_add_bin_value_carries(echoed.state, b, q);
    }
}

/// Where `add_bin_value` leaves the instance in its epoch, the messages that wait
/// have no part in it, and stay.
proof fn lemma_add_bin_value_carries(s: State, b: bool, q: Seq<(NodeUid, AgreementMessage)>)
    requires
        consistent(s),
        add_bin_value(s, b).state.epoch == s.epoch,
    ensures
        add_bin_value(with_queue(s, q), b) == carrying(add_bin_value(s, b), q),
    decreases room(s.epoch), 11nat,
{
    let s1 = State { bin_values: s.bin_values.with(b), ..s };
    let t = with_queue(s, q);
    assert((State { bin_values: t.bin_values.with(b), ..t }) == with_queue(s1, q));
    if s.bin_values == BinValues::Neither {
        lemma_send_aux_carries(s1, b, q);
    } else if s1.bin_values != s.bin_values {
        lemma_try_finish_conf_round_carries(s1, q);
    }
}

/// Where `send_bval` leaves the instance in its epoch, the messages that wait
/// have no part in it, and stay.
proof fn lemma_send_bval_carries(s: State, b: bool, q: Seq<(NodeUid, AgreementMessage)>)
    requires
        consistent(s),
        send_bval(s, b).state.epoch == s.epoch,
    ensures
        send_bval(with_queue(s, q), b) == carrying(send_bval(s, b), q),
    decreases room(s.epoch), 22 + 2 * s.sent_bval.with(b).missing(),
{
    let m = message_now(s, AgreementContent::BVal(b));
    let s1 = enqueue(State { sent_bval: s.sent_bval.with(b), ..s }, m);
    let t1 = enqueue(State { sent_bval: s.sent_bval.with(b), ..with_queue(s, q) }, m);
    assert(t1 == with_queue(s1, q));
    lemma_handle_bval_carries(s1, s.our_id, b, q);
}

/// Where `send_aux` leaves the instance in its epoch, the messages that wait
/// have no part in it, and stay.
proof fn lemma_send_aux_carries(s: State, b: bool, q: Seq<(NodeUid, AgreementMessage)>)
    requires
        consistent(s),
        send_aux(s, b).state.epoch == s.epoch,
    ensures
        send_aux(with_queue(s, q), b) == carrying(send_aux(s, b), q),
    decreases room(s.epoch), 10nat,
{
    let m = message_now(s, AgreementContent::Aux(b));
    assert(enqueue(with_queue(s, q), m) == with_queue(enqueue(s, m), q));
    lemma_handle_aux_carries(enqueue(s, m), s.our_id, b, q);
}

/// Where `handle_aux` leaves the instance in its epoch, the messages that wait
/// have no part in it, and stay.
proof fn lemma_handle_aux_carries(
    s: State,
    sender: NodeUid,
    b: bool,
    q: Seq<(NodeUid, AgreementMessage)>,
)
    requires
        consistent(s),
        handle_aux(s, sender, b).state.epoch == s.epoch,
    ensures
        handle_aux(with_queue(s, q), sender, b) == carrying(handle_aux(s, sender, b), q),
    decreases room(s.epoch), 9nat,
{
    if !s.conf_round {
        let s1 = State { received_aux: s.received_aux.insert(sender, b), ..s };
        let t1 = State { received_aux: s.received_aux.insert(sender, b), ..with_queue(s, q) };
        assert(t1 == with_queue(s1, q));
        assert(count_aux(t1) == count_aux(s1));
        if s.bin_values != BinValues::Neither && !(count_aux(s1) < s.num_nodes - s.num_faulty) {
            lemma_send_conf_carries(s1, q);
        }
    }
}

/// Where `send_conf` leaves the instance in its epoch, the messages that wait
/// have no part in it, and stay.
proof fn lemma_send_conf_carries(s: State, q: Seq<(NodeUid, AgreementMessage)>)
    requires
        consistent(s),
        send_conf(s).state.epoch == s.epoch,
    ensures
        send_conf(with_queue(s, q)) == carrying(send_conf(s), q),
    decreases room(s.epoch), 8nat,
{
    if !s.conf_round {
        let m = message_now(s, AgreementContent::Conf(s.bin_values));
        let s1 = State { conf_round: true, ..enqueue(s, m) };
        let t1 = State { conf_round: true, ..enqueue(with_queue(s, q), m) };
        assert(t1 == with_queue(s1, q));
        lemma_handle_conf_carries(s1, s.our_id, s.bin_values, q);
    }
}

/// Where `handle_conf` leaves the instance in its epoch, the messages that wait
/// have no part in it, and stay.
proof fn lemma_handle_conf_carries(
    s: State,
    sender: NodeUid,
    v: BinValues,
    q: Seq<(NodeUid, AgreementMessage)>,
)
    requires
        consistent(s),
        handle_conf(s, sender, v).state.epoch == s.epoch,
    ensures
        handle_conf(with_queue(s, q), sender, v) == carrying(handle_conf(s, sender, v), q),
    decreases room(s.epoch), 7nat,
{
    let s1 = State { received_conf: s.received_conf.insert(sender, v), ..s };
    let t1 = State { received_conf: s.received_conf.insert(sender, v), ..with_queue(s, q) };
    assert(t1 == with_queue(s1, q));
    lemma_try_finish_conf_round_carries(s1, q);
}

/// Where `try_finish_conf_round` leaves the instance in its epoch, the messages that wait
/// have no part in it, and stay.
proof fn lemma_try_finish_conf_round_carries(s: State, q: Seq<(NodeUid, AgreementMessage)>)
    requires
        consistent(s),
        try_finish_conf_round(s).state.epoch == s.epoch,
    ensures
        try_finish_conf_round(with_queue(s, q)) == carrying(try_finish_conf_round(s), q),
    decreases room(s.epoch), 6nat,
{
    let t = with_queue(s, q);
    assert(count_conf(t) == count_conf(s));
    assert(conf_values(t) == conf_values(s));
    if s.conf_round && !(count_conf(s) < s.num_nodes - s.num_faulty) {
        let vals = conf_values(s);
        lemma_invoke_coin_stays(s, vals);
        lemma_invoke_coin_stays(t, vals);
        let coin = coin(s.epoch);
        if s.terminated || s.decision == Some(coin) {
        } else if s.epoch >= LAST_EPOCH {
        } else {
            // The epoch would have changed.
            lemma_invoke_coin_advances(s, vals);
        }
    }
}

/// Where the end of an epoch neither terminates the instance nor finds it
/// in the last epoch, the epoch grows.
pub proof fn lemma_invoke_coin_advances(s: State, vals: BinValues)
    requires
        consistent(s),
        !s.terminated,
        s.decision != Some(coin(s.epoch)),
        s.epoch < LAST_EPOCH,
    ensures
        invoke_coin(s, vals).state.epoch > s.epoch,
{
    let s1 = adopt(start_next_epoch(s), vals, coin(s.epoch));
    lemma_send_bval(s1, s1.estimated->0);
    let sent = send_bval(s1, s1.estimated->0);
    if sent.status == Status::Done {
        let s2 = State { incoming_queue: Seq::empty(), ..sent.state };
        lemma_replay(s2, sent.state.incoming_queue, s1.epoch);
    }
}

/// Where an epoch ends for an instance on which no message waits, and the
/// next begins without ending at once, the instance is left as the sending
/// of its first `BVal` of the next epoch leaves it, and no message waits.
proof fn lemma_clean_start(s: State, vals: BinValues)
    requires
        consistent(s),
        s.incoming_queue == Seq::<(NodeUid, AgreementMessage)>::empty(),
        invoke_coin(s, vals).status == Status::Done,
        invoke_coin(s, vals).state.epoch == s.epoch + 1,
    ensures
        !s.terminated,
        s.decision != Some(coin(s.epoch)),
        s.epoch < LAST_EPOCH,
        ({
            let s1 = adopt(start_next_epoch(s), vals, coin(s.epoch));
            let sent = send_bval(s1, s1.estimated->0);
            &&& sent == invoke_coin(s, vals)
            &&& sent.state.epoch == s1.epoch
            &&& sent.state.incoming_queue == s.incoming_queue
        }),
{
    let none = Seq::<(NodeUid, AgreementMessage)>::empty();
    lemma_invoke_coin_stays(s, vals);
    let s1 = adopt(start_next_epoch(s), vals, coin(s.epoch));
    let b = s1.estimated->0;
    let sent = send_bval(s1, b);
    lemma_send_bval(s1, b);
    let s2 = with_queue(sent.state, none);
    lemma_replay(s2, sent.state.incoming_queue, s1.epoch);
    lemma_send_bval_carries(s1, b, none);
    assert(with_queue(s1, none) == s1);
    assert(sent.state.incoming_queue == none);
    assert(s2 == sent.state);
}

/// Where an epoch ends and the next begins without ending at once, the
/// messages that waited are handled, in their order, from the state with
/// which the next epoch begins for an instance on which no message waited: as
/// they would be if they came then.
pub proof fn lemma_buffer_replayed(s: State, vals: BinValues)
    requires
        consistent(s),
        invoke_coin(with_queue(s, Seq::empty()), vals).status == Status::Done,
        invoke_coin(with_queue(s, Seq::empty()), vals).state.epoch == s.epoch + 1,
    ensures
        invoke_coin(s, vals) == replay(
            invoke_coin(with_queue(s, Seq::empty()), vals).state,
            s.incoming_queue,
            s.epoch + 1,
        ),
{
    let none = Seq::<(NodeUid, AgreementMessage)>::empty();
    let clean = with_queue(s, none);
    lemma_clean_start(clean, vals);
    let c1 = adopt(start_next_epoch(clean), vals, coin(s.epoch));
    let s1 = adopt(start_next_epoch(s), vals, coin(s.epoch));
    assert(s1 == with_queue(c1, s.incoming_queue));
    let b = s1.estimated->0;
    lemma_send_bval_carries(c1, b, s.incoming_queue);
    let sent = send_bval(s1, b);
    assert(sent == carrying(send_bval(c1, b), s.incoming_queue));
    assert(with_queue(sent.state, none) == send_bval(c1, b).state);
}

/// The last of the messages that waited is handled from the state in which
/// the others have left the instance, unless the instance has terminated
/// or had to leave the last epoch before.
proof fn lemma_replay_last(
    s: State,
    msgs: Seq<(NodeUid, AgreementMessage)>,
    sender: NodeUid,
    msg: AgreementMessage,
    floor: nat,
)
    requires
        consistent(s),
        floor <= s.epoch,
    ensures
        replay(s, msgs.push((sender, msg)), floor) == if replay(s, msgs, floor).status
            != Status::Done || replay(s, msgs, floor).state.terminated {
            replay(s, msgs, floor)
        } else {
            handle_message(replay(s, msgs, floor).state, sender, msg)
        },
    decreases msgs.len(),
{
    let all = msgs.push((sender, msg));
    let none = Seq::<(NodeUid, AgreementMessage)>::empty();
    if s.terminated {
        assert(replay(s, all, floor) == done(s));
        assert(replay(s, msgs, floor) == done(s));
    } else {
        lemma_handle_message(s, all[0].0, all[0].1);
        let first = handle_message(s, all[0].0, all[0].1);
        assert(replay(s, all, floor) == if first.status != Status::Done {
            first
        } else {
            replay(first.state, all.drop_first(), s.epoch)
        });
        if msgs.len() == 0 {
            assert(all.drop_first() == none);
            assert(all[0] == (sender, msg));
            assert(replay(s, msgs, floor) == done(s));
            assert(replay(first.state, none, s.epoch) == done(first.state));
        } else {
            assert(all[0] == msgs[0]);
            assert(all.drop_first() == msgs.drop_first().push((sender, msg)));
            assert(replay(s, msgs, floor) == if first.status != Status::Done {
                first
            } else {
                replay(first.state, msgs.drop_first(), s.epoch)
            });
            if first.status == Status::Done {
                lemma_replay_last(first.state, msgs.drop_first(), sender, msg, s.epoch);
            }
        }
    }
}

/// A message that waits for its epoch when an epoch ends, and the next
/// begins without ending at once, leaves the instance as it would if it
/// came when the instance has handled the end of the epoch and the messages
/// that waited before it. It is handled as it would be then, unless the
/// instance has terminated: then it is dropped, where it would be refused.
pub proof fn lemma_future_message_replayed(
    s: State,
    sender: NodeUid,
    msg: AgreementMessage,
    vals: BinValues,
)
    requires
        consistent(s),
        invoke_coin(with_queue(s, Seq::empty()), vals).status == Status::Done,
        invoke_coin(with_queue(s, Seq::empty()), vals).state.epoch == s.epoch + 1,
        invoke_coin(s, vals).status == Status::Done,
    ensures
        !s.terminated && msg.epoch > s.epoch ==> handle_message(s, sender, msg).state
            == with_queue(s, s.incoming_queue.push((sender, msg))),
        invoke_coin(with_queue(s, s.incoming_queue.push((sender, msg))), vals).state
            == handle_message(invoke_coin(s, vals).state, sender, msg).state,
        !invoke_coin(s, vals).state.terminated ==> invoke_coin(
            with_queue(s, s.incoming_queue.push((sender, msg))),
            vals,
        ) == handle_message(invoke_coin(s, vals).state, sender, msg),
        invoke_coin(s, vals).state.terminated ==> invoke_coin(
            with_queue(s, s.incoming_queue.push((sender, msg))),
            vals,
        ) == invoke_coin(s, vals),
{
    let none = Seq::<(NodeUid, AgreementMessage)>::empty();
    let t = with_queue(s, s.incoming_queue.push((sender, msg)));
    assert(with_queue(t, none) == with_queue(s, none));
    lemma_buffer_replayed(s, vals);
    lemma_buffer_replayed(t, vals);
    let base = invoke_coin(with_queue(s, none), vals);
    lemma_invoke_coin(with_queue(s, none), vals);
    lemma_replay_last(base.state, s.incoming_queue, sender, msg, s.epoch + 1);
}

/// Where an epoch ends, in a network in which an epoch needs the `Conf` of
/// two nodes to end, for an instance on which no message waits, the next
/// epoch begins and does not end at once.
pub proof fn lemma_next_epoch_stays(s: State, vals: BinValues)
    requires
        consistent(s),
        !s.terminated,
        s.decision != Some(coin(s.epoch)),
        s.epoch < LAST_EPOCH,
        s.num_nodes - s.num_faulty >= 2,
        s.incoming_queue == Seq::<(NodeUid, AgreementMessage)>::empty(),
    ensures
        invoke_coin(s, vals).status == Status::Done,
        invoke_coin(s, vals).state.epoch == s.epoch + 1,
{
    let s1 = adopt(start_next_epoch(s), vals, coin(s.epoch));
    lemma_next_epoch(s, vals);
    let b = s1.estimated->0;
    let s2 = enqueue(
        State { sent_bval: s1.sent_bval.with(b), ..s1 },
        message_now(s1, AgreementContent::BVal(b)),
    );
    assert(consistent(s2));
    lemma_bval_counted(s2, s.our_id, b);
    lemma_tally_empty(holding(b));
    let r = recorded(s2, s.our_id, b);
    assert(count_bval(r, b) == 1);
    let sent = send_bval(s1, b);
    assert(sent == handle_bval(s2, s.our_id, b));
    if s.num_faulty == 0 {
        let r1 = State { bin_values: r.bin_values.with(b), ..r };
        let r2 = enqueue(r1, message_now(r1, AgreementContent::Aux(b)));
        let r3 = State { received_aux: r2.received_aux.insert(s.our_id, b), ..r2 };
        lemma_tally_sender(r3.received_aux, s.our_id, member_of(r3.bin_values));
        assert(r3.received_aux.remove(s.our_id) == Map::<NodeUid, bool>::empty());
        lemma_tally_empty(member_of(r3.bin_values));
        assert(count_aux(r3) == 1);
        assert(handle_aux(r2, s.our_id, b) == done(r3));
        assert(add_bin_value(r, b) == done(r3));
        assert(sent == done(r3));
    } else {
        assert(sent == done(r));
    }
    assert(sent.state.incoming_queue == s.incoming_queue);
    assert((State { incoming_queue: Seq::empty(), ..sent.state }) == sent.state);
    assert(replay(sent.state, sent.state.incoming_queue, s1.epoch) == done(sent.state));
}

/// In a network in which an epoch needs the `Conf` of two nodes to end, the
/// messages that waited when an epoch ends are handled from the state with
/// which the next epoch begins for an instance on which no message waited.
proof fn lemma_replayed_from_start(
    s: State,
    q: Seq<(NodeUid, AgreementMessage)>,
    vals: BinValues,
)
    requires
        consistent(s),
        !s.terminated,
        s.decision != Some(coin(s.epoch)),
        s.epoch < LAST_EPOCH,
        s.num_nodes - s.num_faulty >= 2,
    ensures
        consistent(invoke_coin(with_queue(s, Seq::empty()), vals).state),
        invoke_coin(with_queue(s, Seq::empty()), vals).state.epoch == s.epoch + 1,
        invoke_coin(with_queue(s, q), vals) == replay(
            invoke_coin(with_queue(s, Seq::empty()), vals).state,
            q,
            s.epoch + 1,
        ),
{
    let none = Seq::<(NodeUid, AgreementMessage)>::empty();
    let clean = with_queue(s, none);
    let t = with_queue(s, q);
    assert(with_queue(t, none) == clean);
    lemma_next_epoch_stays(clean, vals);
    lemma_invoke_coin(clean, vals);
    lemma_buffer_replayed(t, vals);
}

/// In a network in which an epoch needs the `Conf` of two nodes to end, a
/// message that waits for its epoch when an epoch ends leaves the instance
/// as it would if it came when the instance has handled the end of the
/// epoch and the messages that waited before it. It is handled as it would
/// be then, unless the instance has terminated: then it is dropped, where
/// it would be refused.
pub proof fn lemma_waiting_message_replayed(
    s: State,
    sender: NodeUid,
    msg: AgreementMessage,
    vals: BinValues,
)
    requires
        consistent(s),
        !s.terminated,
        s.decision != Some(coin(s.epoch)),
        s.epoch < LAST_EPOCH,
        s.num_nodes - s.num_faulty >= 2,
        !(invoke_coin(s, vals).status is Exhausted),
    ensures
        invoke_coin(with_queue(s, s.incoming_queue.push((sender, msg))), vals).state
            == handle_message(invoke_coin(s, vals).state, sender, msg).state,
        !invoke_coin(s, vals).state.terminated ==> invoke_coin(
            with_queue(s, s.incoming_queue.push((sender, msg))),
            vals,
        ) == handle_message(invoke_coin(s, vals).state, sender, msg),
        invoke_coin(s, vals).state.terminated ==> invoke_coin(
            with_queue(s, s.incoming_queue.push((sender, msg))),
            vals,
        ) == invoke_coin(s, vals),
{
    let none = Seq::<(NodeUid, AgreementMessage)>::empty();
    let base = invoke_coin(with_queue(s, none), vals);
    let q = s.incoming_queue;
    let after = invoke_coin(s, vals);
    assert(with_queue(s, q) == s);
    lemma_replayed_from_start(s, q, vals);
    lemma_replayed_from_start(s, q.push((sender, msg)), vals);
    lemma_invoke_coin(s, vals);
    lemma_replay_last(base.state, q, sender, msg, s.epoch + 1);
    assert(after == replay(base.state, q, s.epoch + 1));
    assert(after.status == Status::Done);
    if after.state.terminated {
        assert(handle_message(after.state, sender, msg).state == after.state);
    }
}

/// Every message of `q` is of an epoch after `epoch`.
pub open spec fn all_later(q: Seq<(NodeUid, AgreementMessage)>, epoch: nat) -> bool {
    forall|i: int| 0 <= i < q.len() ==> (#[trigger] q[i]).1.epoch > epoch
}

/// Every message that waits is of a later epoch than the instance's.
pub open spec fn waiting_later(s: State) -> bool {
    all_later(s.incoming_queue, s.epoch)
}

/// What a transition `o` from the state `s` does to the messages that wait:
/// it leaves them as they are if it leaves the epoch as it is; if it does
/// not, those that wait after it are of a later epoch, unless the instance
/// had to leave the last epoch.
pub open spec fn waits_well(s: State, o: Outcome) -> bool {
    &&& (o.state.epoch == s.epoch ==> o.state.incoming_queue == s.incoming_queue)
    &&& (o.state.epoch > s.epoch && !(o.status is Exhausted) ==> waiting_later(o.state))
}

/// `handle_message` leaves only messages of later epochs waiting.
proof fn lemma_handle_message_waits(s: State, sender: NodeUid, msg: AgreementMessage)
    requires
        consistent(s),
        waiting_later(s),
    ensures
        !(handle_message(s, sender, msg).status is Exhausted) ==> waiting_later(
            handle_message(s, sender, msg).state,
        ),
    decreases room(s.epoch), 50nat,
{
    lemma_handle_message(s, sender, msg);
    if s.terminated {
    } else if msg.epoch < s.epoch {
    } else if msg.epoch > s.epoch {
        let q = s.incoming_queue.push((sender, msg));
        assert forall|i: int| 0 <= i < q.len() implies (#[trigger] q[i]).1.epoch > s.epoch by {
            if i < s.incoming_queue.len() {
                assert(q[i] == s.incoming_queue[i]);
            }
        }
    } else {
        match msg.content {
            AgreementContent::BVal(b) => lemma_handle_bval_waits(s, sender, b),
            AgreementContent::Aux(b) => lemma_handle_aux_waits(s, sender, b),
            AgreementContent::Conf(v) => lemma_handle_conf_waits(s, sender, v),
        }
    }
}

/// `handle_bval` treats the messages that wait well.
proof fn lemma_handle_bval_waits(s: State, sender: NodeUid, b: bool)
    requires
        consistent(s),
    ensures
        waits_well(s, handle_bval(s, sender, b)),
    decreases room(s.epoch), 21 + 2 * s.sent_bval.missing(),
{
    let s1 = recorded(s, sender, b);
    let count = count_bval(s1, b);
    let echo = count == s.num_faulty + 1 && !s.sent_bval.has(b);
    if echo {
        lemma_send_bval(s1, b);
        lemma_send_bval_waits(s1, b);
    }
    let echoed = if echo {
        send_bval(s1, b)
    } else {
        done(s1)
    };
    if echoed.status == Status::Done && count == 2 * s.num_faulty + 1 {
        lemma_add_bin_value(echoed.state, b);
        lemma_add_bin_value_waits(echoed.state, b);
    }
}

/// `add_bin_value` treats the messages that wait well.
proof fn lemma_add_bin_value_waits(s: State, b: bool)
    requires
        consistent(s),
    ensures
        waits_well(s, add_bin_value(s, b)),
    decreases room(s.epoch), 11nat,
{
    let s1 = State { bin_values: s.bin_values.with(b), ..s };
    if s.bin_values == BinValues::Neither {
        lemma_send_aux_waits(s1, b);
    } else if s1.bin_values != s.bin_values {
        lemma_try_finish_conf_round_waits(s1);
    }
}

/// `send_bval` treats the messages that wait well.
proof fn lemma_send_bval_waits(s: State, b: bool)
    requires
        consistent(s),
    ensures
        waits_well(s, send_bval(s, b)),
    decreases room(s.epoch), 22 + 2 * s.sent_bval.with(b).missing(),
{
    let s1 = enqueue(
        State { sent_bval: s.sent_bval.with(b), ..s },
        message_now(s, AgreementContent::BVal(b)),
    );
    lemma_handle_bval_waits(s1, s.our_id, b);
}

/// `send_aux` treats the messages that wait well.
proof fn lemma_send_aux_waits(s: State, b: bool)
    requires
        consistent(s),
    ensures
        waits_well(s, send_aux(s, b)),
    decreases room(s.epoch), 10nat,
{
    lemma_handle_aux_waits(enqueue(s, message_now(s, AgreementContent::Aux(b))), s.our_id, b);
}

/// `handle_aux` treats the messages that wait well.
proof fn lemma_handle_aux_waits(s: State, sender: NodeUid, b: bool)
    requires
        consistent(s),
    ensures
        waits_well(s, handle_aux(s, sender, b)),
    decreases room(s.epoch), 9nat,
{
    if !s.conf_round {
        let s1 = State { received_aux: s.received_aux.insert(sender, b), ..s };
        if s.bin_values != BinValues::Neither && !(count_aux(s1) < s.num_nodes - s.num_faulty) {
            lemma_send_conf_waits(s1);
        }
    }
}

/// `send_conf` treats the messages that wait well.
proof fn lemma_send_conf_waits(s: State)
    requires
        consistent(s),
    ensures
        waits_well(s, send_conf(s)),
    decreases room(s.epoch), 8nat,
{
    if !s.conf_round {
        let s1 = State {
            conf_round: true,
            ..enqueue(s, message_now(s, AgreementContent::Conf(s.bin_values)))
        };
        lemma_handle_conf_waits(s1, s.our_id, s.bin_values);
    }
}

/// `handle_conf` treats the messages that wait well.
proof fn lemma_handle_conf_waits(s: State, sender: NodeUid, v: BinValues)
    requires
        consistent(s),
    ensures
        waits_well(s, handle_conf(s, sender, v)),
    decreases room(s.epoch), 7nat,
{
    lemma_try_finish_conf_round_waits(
        State { received_conf: s.received_conf.insert(sender, v), ..s },
    );
}

/// `try_finish_conf_round` treats the messages that wait well.
proof fn lemma_try_finish_conf_round_waits(s: State)
    requires
        consistent(s),
    ensures
        waits_well(s, try_finish_conf_round(s)),
    decreases room(s.epoch), 6nat,
{
    if s.conf_round && !(count_conf(s) < s.num_nodes - s.num_faulty) {
        lemma_invoke_coin_waits(s, conf_values(s));
    }
}

/// `invoke_coin` treats the messages that wait well.
proof fn lemma_invoke_coin_waits(s: State, vals: BinValues)
    requires
        consistent(s),
    ensures
        waits_well(s, invoke_coin(s, vals)),
    decreases room(s.epoch), 5nat,
{
    let coin = coin(s.epoch);
    if s.terminated || s.decision == Some(coin) {
    } else if s.epoch >= LAST_EPOCH {
    } else {
        let s1 = adopt(start_next_epoch(s), vals, coin);
        lemma_send_bval(s1, s1.estimated->0);
        lemma_send_bval_waits(s1, s1.estimated->0);
        let sent = send_bval(s1, s1.estimated->0);
        if sent.status == Status::Done {
            let s2 = State { incoming_queue: Seq::empty(), ..sent.state };
            assert(waiting_later(s2));
            lemma_replay(s2, sent.state.incoming_queue, s1.epoch);
            lemma_replay_waits(s2, sent.state.incoming_queue, s1.epoch);
        }
    }
}

/// `replay` leaves only messages of later epochs waiting.
proof fn lemma_replay_waits(s: State, msgs: Seq<(NodeUid, AgreementMessage)>, floor: nat)
    requires
        consistent(s),
        waiting_later(s),
        floor <= s.epoch,
    ensures
        !(replay(s, msgs, floor).status is Exhausted) ==> waiting_later(
            replay(s, msgs, floor).state,
        ),
    decreases room(floor), 100 + msgs.len(),
{
    if msgs.len() > 0 {
        lemma_handle_message(s, msgs[0].0, msgs[0].1);
        lemma_handle_message_waits(s, msgs[0].0, msgs[0].1);
        let first = handle_message(s, msgs[0].0, msgs[0].1);
        if first.status == Status::Done {
            lemma_replay_waits(first.state, msgs.drop_first(), s.epoch);
        }
    }
}

/// An event that does not make the instance leave the last epoch leaves
/// only messages of later epochs waiting, if only such waited before.
pub proof fn lemma_step_waits(s: State, e: Event)
    requires
        consistent(s),
        waiting_later(s),
        within_epochs()(s, e),
    ensures
        waiting_later(step(s, e)),
{
    match e {
        Event::Input(b) => {
            if accepts_input(s) && s.num_nodes != 1 {
                let s1 = State { estimated: Some(b), ..s };
                lemma_send_bval_waits(s1, b);
            }
        },
        Event::Message(sender, msg) => lemma_handle_message_waits(s, sender, msg),
        Event::NextMessage => {},
        Event::NextOutput => {},
    }
}

/// Whatever happens to a new instance, every message that waits is of a
/// later epoch than the instance's, as long as the instance does not have to
/// leave the last epoch.
pub proof fn lemma_waiting_later(
    our_id: NodeUid,
    num_nodes: nat,
    num_faulty: nat,
    events: Seq<Event>,
)
    requires
        3 * num_faulty + 1 <= num_nodes,
        each_step(initial(our_id, num_nodes, num_faulty), events, within_epochs()),
    ensures
        waiting_later(run(initial(our_id, num_nodes, num_faulty), events)),
    decreases events.len(),
{
    let s = initial(our_id, num_nodes, num_faulty);
    if events.len() > 0 {
        let front = events.drop_last();
        lemma_each_step_front(s, events, within_epochs());
        lemma_waiting_later(our_id, num_nodes, num_faulty, front);
        lemma_run(s, front);
        lemma_step_waits(run(s, front), events.last());
    }
}

} // verus!
