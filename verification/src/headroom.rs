//! When an instance cannot run out of epochs.

use vstd::prelude::*;
use crate::bin_values::BinValues;
use crate::laws::{lemma_handle_message, lemma_send_bval};
use crate::message::{AgreementContent, AgreementMessage};
use crate::model::{
    accepts_input, add_bin_value, adopt, coin, conf_values, consistent, count_aux, count_bval,
    count_conf, done, enqueue, handle_aux, handle_bval, handle_conf, handle_message, initial,
    inside, invoke_coin, message_now, recorded, replay, room, send_aux, send_bval, send_conf,
    set_input, start_next_epoch, step, try_finish_conf_round, Event, State, Status, LAST_EPOCH,
};
use crate::netinfo::NodeUid;
use crate::tally::lemma_tally_single;

verus! {

/// Every message of `msgs` is of an epoch before the last.
pub open spec fn before_last(msgs: Seq<(NodeUid, AgreementMessage)>) -> bool {
    forall|i: int| 0 <= i < msgs.len() ==> (#[trigger] msgs[i]).1.epoch < LAST_EPOCH
}

/// The instance cannot run out of epochs: an epoch needs the `Conf` of two
/// nodes to end, no message of the last epoch is waiting, and in the last
/// epoch no `Conf` but the local node's has come.
pub open spec fn roomy(s: State) -> bool {
    &&& s.num_nodes - s.num_faulty >= 2
    &&& before_last(s.incoming_queue)
    &&& (s.epoch >= LAST_EPOCH ==> forall|k: NodeUid| #[trigger]
        s.received_conf.contains_key(k) ==> k == s.our_id)
}

/// `handle_message` keeps an instance that cannot run out of epochs so, and does not
/// have to leave the last epoch.
proof fn lemma_handle_message_room(s: State, sender: NodeUid, msg: AgreementMessage)
    requires
        consistent(s),
        roomy(s),
        msg.epoch < LAST_EPOCH,
    ensures
        roomy(handle_message(s, sender, msg).state),
        !(handle_message(s, sender, msg).status is Exhausted),
    decreases room(s.epoch), 50nat,
{
    if s.terminated {
    } else if msg.epoch < s.epoch {
    } else if msg.epoch > s.epoch {
        let q = s.incoming_queue.push((sender, msg));
        assert forall|i: int| 0 <= i < q.len() implies (#[trigger] q[i]).1.epoch < LAST_EPOCH by {
            if i < s.incoming_queue.len() {
                assert(q[i] == s.incoming_queue[i]);
            }
        }
    } else {
        match msg.content {
            AgreementContent::BVal(b) => lemma_handle_bval_room(s, sender, b),
            AgreementContent::Aux(b) => lemma_handle_aux_room(s, sender, b),
            AgreementContent::Conf(v) => lemma_handle_conf_room(s, sender, v),
        }
    }
}

/// `handle_bval` keeps an instance that cannot run out of epochs so, and does not
/// have to leave the last epoch.
proof fn lemma_handle_bval_room(s: State, sender: NodeUid, b: bool)
    requires
        consistent(s),
        roomy(s),
    ensures
        roomy(handle_bval(s, sender, b).state),
        !(handle_bval(s, sender, b).status is Exhausted),
    decreases room(s.epoch), 21 + 2 * s.sent_bval.missing(),
{
    let s1 = recorded(s, sender, b);
    let count = count_bval(s1, b);
    let echo = count == s.num_faulty + 1 && !s.sent_bval.has(b);
    if echo {
        lemma_send_bval(s1, b);
        lemma_send_bval_room(s1, b);
    }
    let echoed = if echo {
        send_bval(s1, b)
    } else {
        done(s1)
    };
    if echoed.status == Status::Done && count == 2 * s.num_faulty + 1 {
        lemma_add_bin_value_room(echoed.state, b);
    }
}

/// `add_bin_value` keeps an instance that cannot run out of epochs so, and does not
/// have to leave the last epoch.
proof fn lemma_add_bin_value_room(s: State, b: bool)
    requires
        consistent(s),
        roomy(s),
    ensures
        roomy(add_bin_value(s, b).state),
        !(add_bin_value(s, b).status is Exhausted),
    decreases room(s.epoch), 11nat,
{
    let s1 = State { bin_values: s.bin_values.with(b), ..s };
    if s.bin_values == BinValues::Neither {
        lemma_send_aux_room(s1, b);
    } else if s1.bin_values != s.bin_values {
        lemma_try_finish_conf_round_room(s1);
    }
}

/// `send_bval` keeps an instance that cannot run out of epochs so, and does not
/// have to leave the last epoch.
proof fn lemma_send_bval_room(s: State, b: bool)
    requires
        consistent(s),
        roomy(s),
    ensures
        roomy(send_bval(s, b).state),
        !(send_bval(s, b).status is Exhausted),
    decreases room(s.epoch), 22 + 2 * s.sent_bval.with(b).missing(),
{
    let s1 = enqueue(
        State { sent_bval: s.sent_bval.with(b), ..s },
        message_now(s, AgreementContent::BVal(b)),
    );
    lemma_handle_bval_room(s1, s.our_id, b);
}

/// `send_aux` keeps an instance that cannot run out of epochs so, and does not
/// have to leave the last epoch.
proof fn lemma_send_aux_room(s: State, b: bool)
    requires
        consistent(s),
        roomy(s),
    ensures
        roomy(send_aux(s, b).state),
        !(send_aux(s, b).status is Exhausted),
    decreases room(s.epoch), 10nat,
{
    lemma_handle_aux_room(enqueue(s, message_now(s, AgreementContent::Aux(b))), s.our_id, b);
}

/// `handle_aux` keeps an instance that cannot run out of epochs so, and does not
/// have to leave the last epoch.
proof fn lemma_handle_aux_room(s: State, sender: NodeUid, b: bool)
    requires
        consistent(s),
        roomy(s),
    ensures
        roomy(handle_aux(s, sender, b).state),
        !(handle_aux(s, sender, b).status is Exhausted),
    decreases room(s.epoch), 9nat,
{
    if !s.conf_round {
        let s1 = State { received_aux: s.received_aux.insert(sender, b), ..s };
        if s.bin_values != BinValues::Neither && !(count_aux(s1) < s.num_nodes - s.num_faulty) {
            lemma_send_conf_room(s1);
        }
    }
}

/// `send_conf` keeps an instance that cannot run out of epochs so, and does not
/// have to leave the last epoch.
proof fn lemma_send_conf_room(s: State)
    requires
        consistent(s),
        roomy(s),
    ensures
        roomy(send_conf(s).state),
        !(send_conf(s).status is Exhausted),
    decreases room(s.epoch), 8nat,
{
    if !s.conf_round {
        let s1 = State {
            conf_round: true,
            ..enqueue(s, message_now(s, AgreementContent::Conf(s.bin_values)))
        };
        lemma_handle_conf_room(s1, s.our_id, s.bin_values);
    }
}

/// `handle_conf` keeps an instance that cannot run out of epochs so, and does not
/// have to leave the last epoch.
proof fn lemma_handle_conf_room(s: State, sender: NodeUid, v: BinValues)
    requires
        consistent(s),
        roomy(s),
        s.epoch < LAST_EPOCH || sender == s.our_id,
    ensures
        roomy(handle_conf(s, sender, v).state),
        !(handle_conf(s, sender, v).status is Exhausted),
    decreases room(s.epoch), 7nat,
{
    let s1 = State { received_conf: s.received_conf.insert(sender, v), ..s };
    assert(roomy(s1));
    lemma_try_finish_conf_round_room(s1);
}

/// `try_finish_conf_round` keeps an instance that cannot run out of epochs so, and does not
/// have to leave the last epoch.
proof fn lemma_try_finish_conf_round_room(s: State)
    requires
        consistent(s),
        roomy(s),
    ensures
        roomy(try_finish_conf_round(s).state),
        !(try_finish_conf_round(s).status is Exhausted),
    decreases room(s.epoch), 6nat,
{
    if s.epoch >= LAST_EPOCH {
        lemma_tally_single(s.received_conf, inside(s.bin_values), s.our_id);
    } else if s.conf_round && !(count_conf(s) < s.num_nodes - s.num_faulty) {
        lemma_invoke_coin_room(s, conf_values(s));
    }
}

/// `invoke_coin` keeps an instance that cannot run out of epochs so, and does not
/// have to leave the last epoch.
proof fn lemma_invoke_coin_room(s: State, vals: BinValues)
    requires
        consistent(s),
        roomy(s),
        s.epoch < LAST_EPOCH,
    ensures
        roomy(invoke_coin(s, vals).state),
        !(invoke_coin(s, vals).status is Exhausted),
    decreases room(s.epoch), 5nat,
{
    let coin = coin(s.epoch);
    if s.terminated || s.decision == Some(coin) {
        assert(roomy(State { terminated: true, ..s }));
    } else {
        let s1 = adopt(start_next_epoch(s), vals, coin);
        assert(roomy(s1));
        lemma_send_bval(s1, s1.estimated->0);
        lemma_send_bval_room(s1, s1.estimated->0);
        let sent = send_bval(s1, s1.estimated->0);
        if sent.status == Status::Done {
            let s2 = State { incoming_queue: Seq::empty(), ..sent.state };
            assert(roomy(s2));
            lemma_replay_room(s2, sent.state.incoming_queue, s1.epoch);
        }
    }
}

/// `replay` keeps an instance that cannot run out of epochs so, and does not
/// have to leave the last epoch.
proof fn lemma_replay_room(s: State, msgs: Seq<(NodeUid, AgreementMessage)>, floor: nat)
    requires
        consistent(s),
        roomy(s),
        before_last(msgs),
        floor <= s.epoch,
    ensures
        roomy(replay(s, msgs, floor).state),
        !(replay(s, msgs, floor).status is Exhausted),
    decreases room(floor), 100 + msgs.len(),
{
    if msgs.len() > 0 {
        assert(msgs[0].1.epoch < LAST_EPOCH);
        lemma_handle_message(s, msgs[0].0, msgs[0].1);
        lemma_handle_message_room(s, msgs[0].0, msgs[0].1);
        let first = handle_message(s, msgs[0].0, msgs[0].1);
        if first.status == Status::Done {
            let rest = msgs.drop_first();
            assert forall|i: int| 0 <= i < rest.len() implies (#[trigger] rest[i]).1.epoch
                < LAST_EPOCH by {
                assert(rest[i] == msgs[i + 1]);
            }
            lemma_replay_room(first.state, rest, s.epoch);
        }
    }
}

/// A new instance of a network in which an epoch needs the `Conf` of two
/// nodes to end cannot run out of epochs.
pub proof fn lemma_initial_room(our_id: NodeUid, num_nodes: nat, num_faulty: nat)
    requires
        num_nodes - num_faulty >= 2,
    ensures
        roomy(initial(our_id, num_nodes, num_faulty)),
{
}

/// An instance that cannot run out of epochs handles every message of an
/// epoch before the last without leaving the last epoch, and cannot run out
/// of epochs after it.
pub proof fn lemma_message_room(s: State, sender: NodeUid, msg: AgreementMessage)
    requires
        consistent(s),
        roomy(s),
        msg.epoch < LAST_EPOCH,
    ensures
        roomy(handle_message(s, sender, msg).state),
        !(handle_message(s, sender, msg).status is Exhausted),
{
    lemma_handle_message_room(s, sender, msg);
}

/// An instance that cannot run out of epochs takes an input without leaving
/// the last epoch, and cannot run out of epochs after it. An instance whose
/// node is alone takes an input without leaving the last epoch.
pub proof fn lemma_input_room(s: State, input: bool)
    requires
        consistent(s),
        roomy(s) || s.num_nodes == 1,
    ensures
        !(set_input(s, input).status is Exhausted),
        roomy(s) ==> roomy(set_input(s, input).state),
{
    if accepts_input(s) && s.num_nodes != 1 {
        lemma_send_bval_room(State { estimated: Some(input), ..s }, input);
    }
}

/// No event makes an instance that cannot run out of epochs one that can,
/// unless it is a message of the last epoch.
pub proof fn lemma_step_room(s: State, e: Event)
    requires
        consistent(s),
        roomy(s),
        e matches Event::Message(_, msg) ==> msg.epoch < LAST_EPOCH,
    ensures
        roomy(step(s, e)),
{
    match e {
        Event::Input(b) => lemma_input_room(s, b),
        Event::Message(sender, msg) => lemma_handle_message_room(s, sender, msg),
        Event::NextMessage => {},
        Event::NextOutput => {},
    }
}

} // verus!
