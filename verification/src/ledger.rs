//! No message is sent twice: of each epoch the local node puts at most one
//! `BVal` for each value, one `Aux` and one `Conf` into its outgoing queue.

use vstd::prelude::*;
use crate::bin_values::BinValues;
use crate::laws::{
    lemma_add_bin_value, lemma_advances_chain, lemma_handle_aux, lemma_handle_bval,
    lemma_handle_conf, lemma_handle_message, lemma_next_epoch, lemma_replay, lemma_run,
    lemma_send_bval,
};
use crate::message::{AgreementContent, AgreementMessage};
use crate::model::{
    accepts_input, add_bin_value, adopt, advances, coin, conf_values, consistent, count_aux,
    count_bval, count_conf, done, enqueue, handle_aux, handle_bval, handle_conf,
    handle_message, initial, invoke_coin, message_now, recorded, replay, room, run, send_aux,
    send_bval, send_conf, set_input, start_next_epoch, step, try_finish_conf_round, Event,
    State, Status, LAST_EPOCH,
};
use crate::netinfo::NodeUid;

verus! {

/// Whether two messages are of the same epoch and kind and, where they are
/// `BVal` messages, for the same value.
pub open spec fn same_slot(a: AgreementMessage, b: AgreementMessage) -> bool {
    a.epoch == b.epoch && match a.content {
        AgreementContent::BVal(x) => b.content == AgreementContent::BVal(x),
        AgreementContent::Aux(_) => b.content is Aux,
        AgreementContent::Conf(_) => b.content is Conf,
    }
}

/// No two messages of `log` are of the same epoch and kind and, for `BVal`
/// messages, value.
pub open spec fn issued_once(log: Seq<AgreementMessage>) -> bool {
    forall|i: int, j: int|
        0 <= i < j < log.len() ==> !same_slot(#[trigger] log[i], #[trigger] log[j])
}

/// Whether the state remembers that `m` was sent: `m` is of no later epoch,
/// and if it is of the current one, then its value is among the sent `BVal`
/// values, or `bin_values` is not empty, or the `Conf` round has begun.
pub open spec fn covered(s: State, m: AgreementMessage) -> bool {
    m.epoch <= s.epoch && (m.epoch == s.epoch ==> match m.content {
        AgreementContent::BVal(b) => s.sent_bval.has(b),
        AgreementContent::Aux(_) => s.bin_values != BinValues::Neither,
        AgreementContent::Conf(_) => s.conf_round,
    })
}

/// No `Aux` of the current epoch was sent.
pub open spec fn no_aux(s: State) -> bool {
    forall|i: int|
        0 <= i < s.issued.len() ==> !((#[trigger] s.issued[i]).epoch == s.epoch
            && s.issued[i].content is Aux)
}

/// The record of the sent messages is in order: none was sent twice, the
/// state remembers each, and the outgoing queue holds the last of them.
pub open spec fn ledger(s: State) -> bool {
    &&& issued_once(s.issued)
    &&& forall|i: int| 0 <= i < s.issued.len() ==> covered(s, #[trigger] s.issued[i])
    &&& s.messages.len() <= s.issued.len()
    &&& forall|i: int|
        0 <= i < s.messages.len() ==> #[trigger] s.messages[i] == s.issued[s.issued.len()
            - s.messages.len() + i]
}

/// The record stays in order when a message is sent that was not sent before.
proof fn lemma_enqueue(s: State, t: State, m: AgreementMessage)
    requires
        ledger(s),
        t.issued == s.issued.push(m),
        t.messages == s.messages.push(m),
        covered(t, m),
        forall|i: int| 0 <= i < s.issued.len() ==> covered(t, #[trigger] s.issued[i]),
        forall|i: int| 0 <= i < s.issued.len() ==> !same_slot(#[trigger] s.issued[i], m),
    ensures
        ledger(t),
{
    assert forall|i: int, j: int| 0 <= i < j < t.issued.len() implies !same_slot(
        #[trigger] t.issued[i],
        #[trigger] t.issued[j],
    ) by {
        assert(t.issued[i] == s.issued[i]);
        if j < s.issued.len() {
            assert(t.issued[j] == s.issued[j]);
        }
    }
    assert forall|i: int| 0 <= i < t.issued.len() implies covered(t, #[trigger] t.issued[i]) by {
        if i < s.issued.len() {
            assert(t.issued[i] == s.issued[i]);
        }
    }
    assert forall|i: int| 0 <= i < t.messages.len() implies #[trigger] t.messages[i]
        == t.issued[t.issued.len() - t.messages.len() + i] by {
        if i < s.messages.len() {
            assert(t.messages[i] == s.messages[i]);
            assert(t.issued[t.issued.len() - t.messages.len() + i] == s.issued[s.issued.len()
                - s.messages.len() + i]);
        }
    }
}

/// `handle_message` keeps the record of the sent messages in order.
proof fn lemma_handle_message_ledger(s: State, sender: NodeUid, msg: AgreementMessage)
    requires
        consistent(s),
        ledger(s),
    ensures
        ledger(handle_message(s, sender, msg).state),
    decreases room(s.epoch), 50nat,
{
    if s.terminated {
    } else if msg.epoch < s.epoch {
    } else if msg.epoch > s.epoch {
        let t = State { incoming_queue: s.incoming_queue.push((sender, msg)), ..s };
        assert(forall|i: int| 0 <= i < s.issued.len() ==> covered(s, #[trigger] s.issued[i]));
        assert(ledger(t));
    } else {
        match msg.content {
            AgreementContent::BVal(b) => lemma_handle_bval_ledger(s, sender, b),
            AgreementContent::Aux(b) => lemma_handle_aux_ledger(s, sender, b),
            AgreementContent::Conf(v) => lemma_handle_conf_ledger(s, sender, v),
        }
    }
}

/// `handle_bval` keeps the record of the sent messages in order.
proof fn lemma_handle_bval_ledger(s: State, sender: NodeUid, b: bool)
    requires
        consistent(s),
        ledger(s),
    ensures
        ledger(handle_bval(s, sender, b).state),
    decreases room(s.epoch), 21 + 2 * s.sent_bval.missing(),
{
    let s1 = recorded(s, sender, b);
    assert(forall|i: int| 0 <= i < s.issued.len() ==> covered(s, #[trigger] s.issued[i]));
    assert(ledger(s1));
    let count = count_bval(s1, b);
    let echo = count == s.num_faulty + 1 && !s.sent_bval.has(b);
    if echo {
        lemma_send_bval(s1, b);
        lemma_send_bval_ledger(s1, b);
    }
    let echoed = if echo {
        send_bval(s1, b)
    } else {
        done(s1)
    };
    if echoed.status == Status::Done && count == 2 * s.num_faulty + 1 {
        lemma_add_bin_value_ledger(echoed.state, b);
    }
}

/// `add_bin_value` keeps the record of the sent messages in order.
proof fn lemma_add_bin_value_ledger(s: State, b: bool)
    requires
        consistent(s),
        ledger(s),
    ensures
        ledger(add_bin_value(s, b).state),
    decreases room(s.epoch), 11nat,
{
    let s1 = State { bin_values: s.bin_values.with(b), ..s };
    assert forall|i: int| 0 <= i < s1.issued.len() implies covered(s1, #[trigger] s1.issued[i]) by {
        assert(covered(s, s.issued[i]));
    }
    assert(ledger(s1));
    if s.bin_values == BinValues::Neither {
        assert forall|i: int| 0 <= i < s1.issued.len() implies !((#[trigger] s1.issued[i]).epoch
            == s1.epoch && s1.issued[i].content is Aux) by {
            assert(covered(s, s.issued[i]));
        }
        lemma_send_aux_ledger(s1, b);
    } else if s1.bin_values != s.bin_values {
        lemma_try_finish_conf_round_ledger(s1);
    }
}

/// `send_bval` keeps the record of the sent messages in order.
proof fn lemma_send_bval_ledger(s: State, b: bool)
    requires
        consistent(s),
        ledger(s),
        !s.sent_bval.has(b),
    ensures
        ledger(send_bval(s, b).state),
    decreases room(s.epoch), 22 + 2 * s.sent_bval.with(b).missing(),
{
    let m = message_now(s, AgreementContent::BVal(b));
    let t = enqueue(State { sent_bval: s.sent_bval.with(b), ..s }, m);
    assert forall|i: int| 0 <= i < s.issued.len() implies covered(t, #[trigger] s.issued[i])
        && !same_slot(s.issued[i], m) by {
        assert(covered(s, s.issued[i]));
    }
    lemma_enqueue(s, t, m);
    lemma_handle_bval_ledger(t, s.our_id, b);
}

/// `send_aux` keeps the record of the sent messages in order.
proof fn lemma_send_aux_ledger(s: State, b: bool)
    requires
        consistent(s),
        ledger(s),
        no_aux(s),
        s.bin_values != BinValues::Neither,
    ensures
        ledger(send_aux(s, b).state),
    decreases room(s.epoch), 10nat,
{
    let m = message_now(s, AgreementContent::Aux(b));
    let t = enqueue(s, m);
    assert forall|i: int| 0 <= i < s.issued.len() implies covered(t, #[trigger] s.issued[i])
        && !same_slot(s.issued[i], m) by {
        assert(covered(s, s.issued[i]));
    }
    lemma_enqueue(s, t, m);
    lemma_handle_aux_ledger(t, s.our_id, b);
}

/// `handle_aux` keeps the record of the sent messages in order.
proof fn lemma_handle_aux_ledger(s: State, sender: NodeUid, b: bool)
    requires
        consistent(s),
        ledger(s),
    ensures
        ledger(handle_aux(s, sender, b).state),
    decreases room(s.epoch), 9nat,
{
    if !s.conf_round {
        let s1 = State { received_aux: s.received_aux.insert(sender, b), ..s };
        assert(forall|i: int| 0 <= i < s.issued.len() ==> covered(s, #[trigger] s.issued[i]));
        assert(ledger(s1));
        if s.bin_values != BinValues::Neither && !(count_aux(s1) < s.num_nodes - s.num_faulty) {
            lemma_send_conf_ledger(s1);
        }
    }
}

/// `send_conf` keeps the record of the sent messages in order.
proof fn lemma_send_conf_ledger(s: State)
    requires
        consistent(s),
        ledger(s),
    ensures
        ledger(send_conf(s).state),
    decreases room(s.epoch), 8nat,
{
    if !s.conf_round {
        let m = message_now(s, AgreementContent::Conf(s.bin_values));
        let t = State { conf_round: true, ..enqueue(s, m) };
        assert forall|i: int| 0 <= i < s.issued.len() implies covered(t, #[trigger] s.issued[i])
            && !same_slot(s.issued[i], m) by {
            assert(covered(s, s.issued[i]));
        }
        lemma_enqueue(s, t, m);
        lemma_handle_conf_ledger(t, s.our_id, s.bin_values);
    }
}

/// `handle_conf` keeps the record of the sent messages in order.
proof fn lemma_handle_conf_ledger(s: State, sender: NodeUid, v: BinValues)
    requires
        consistent(s),
        ledger(s),
    ensures
        ledger(handle_conf(s, sender, v).state),
    decreases room(s.epoch), 7nat,
{
    let s1 = State { received_conf: s.received_conf.insert(sender, v), ..s };
    assert(forall|i: int| 0 <= i < s.issued.len() ==> covered(s, #[trigger] s.issued[i]));
    assert(ledger(s1));
    lemma_try_finish_conf_round_ledger(s1);
}

/// `try_finish_conf_round` keeps the record of the sent messages in order.
proof fn lemma_try_finish_conf_round_ledger(s: State)
    requires
        consistent(s),
        ledger(s),
    ensures
        ledger(try_finish_conf_round(s).state),
    decreases room(s.epoch), 6nat,
{
    if s.conf_round && !(count_conf(s) < s.num_nodes - s.num_faulty) {
        lemma_invoke_coin_ledger(s, conf_values(s));
    }
}

/// `invoke_coin` keeps the record of the sent messages in order.
proof fn lemma_invoke_coin_ledger(s: State, vals: BinValues)
    requires
        consistent(s),
        ledger(s),
    ensures
        ledger(invoke_coin(s, vals).state),
    decreases room(s.epoch), 5nat,
{
    let coin = coin(s.epoch);
    assert(forall|i: int| 0 <= i < s.issued.len() ==> covered(s, #[trigger] s.issued[i]));
    if s.terminated || s.decision == Some(coin) {
        assert(ledger(State { terminated: true, ..s }));
    } else if s.epoch >= LAST_EPOCH {
    } else {
        let s1 = adopt(start_next_epoch(s), vals, coin);
        assert forall|i: int| 0 <= i < s1.issued.len() implies covered(
            s1,
            #[trigger] s1.issued[i],
        ) by {
            assert(covered(s, s.issued[i]));
        }
        assert(ledger(s1));
        lemma_send_bval(s1, s1.estimated->0);
        lemma_send_bval_ledger(s1, s1.estimated->0);
        let sent = send_bval(s1, s1.estimated->0);
        if sent.status == Status::Done {
            let s2 = State { incoming_queue: Seq::empty(), ..sent.state };
            assert(forall|i: int|
                0 <= i < sent.state.issued.len() ==> covered(
                    sent.state,
                    #[trigger] sent.state.issued[i],
                ));
            assert(ledger(s2));
            lemma_replay_ledger(s2, sent.state.incoming_queue, s1.epoch);
        }
    }
}

/// `replay` keeps the record of the sent messages in order.
proof fn lemma_replay_ledger(s: State, msgs: Seq<(NodeUid, AgreementMessage)>, floor: nat)
    requires
        consistent(s),
        ledger(s),
        floor <= s.epoch,
    ensures
        ledger(replay(s, msgs, floor).state),
    decreases room(floor), 100 + msgs.len(),
{
    if msgs.len() > 0 {
        lemma_handle_message(s, msgs[0].0, msgs[0].1);
        lemma_handle_message_ledger(s, msgs[0].0, msgs[0].1);
        let first = handle_message(s, msgs[0].0, msgs[0].1);
        if first.status == Status::Done {
            lemma_replay_ledger(first.state, msgs.drop_first(), s.epoch);
        }
    }
}

/// Whether the event is an input that is accepted although the local node
/// has already sent a `BVal` for its value.
pub open spec fn late_input(s: State, e: Event) -> bool {
    e matches Event::Input(b) && accepts_input(s) && s.num_nodes != 1 && s.sent_bval.has(b)
}

/// A new instance has sent nothing.
pub proof fn lemma_initial_ledger(our_id: NodeUid, num_nodes: nat, num_faulty: nat)
    ensures
        ledger(initial(our_id, num_nodes, num_faulty)),
{
}

/// No event makes the instance send a message twice, but for an input whose
/// value the node has already echoed.
pub proof fn lemma_step_ledger(s: State, e: Event)
    requires
        consistent(s),
        ledger(s),
        !late_input(s, e),
    ensures
        ledger(step(s, e)),
        issued_once(step(s, e).issued),
{
    assert(forall|i: int| 0 <= i < s.issued.len() ==> covered(s, #[trigger] s.issued[i]));
    match e {
        Event::Input(b) => {
            if accepts_input(s) {
                if s.num_nodes == 1 {
                    assert(ledger(set_input(s, b).state));
                } else {
                    let s1 = State { estimated: Some(b), ..s };
                    assert(ledger(s1));
                    lemma_send_bval_ledger(s1, b);
                }
            }
        },
        Event::Message(sender, msg) => lemma_handle_message_ledger(s, sender, msg),
        Event::NextMessage => {
            if s.messages.len() > 0 {
                let t = State { messages: s.messages.drop_first(), ..s };
                assert forall|i: int| 0 <= i < t.messages.len() implies #[trigger] t.messages[i]
                    == t.issued[t.issued.len() - t.messages.len() + i] by {
                    assert(t.messages[i] == s.messages[i + 1]);
                }
                assert(ledger(t));
            }
        },
        Event::NextOutput => {
            assert(ledger(State { output: None, ..s }));
        },
    }
}

/// No input of the run is accepted although the local node has already sent
/// a `BVal` for its value.
#[verifier::opaque]
pub open spec fn orderly(s: State, events: Seq<Event>) -> bool {
    forall|i: int|
        0 <= i < events.len() ==> !late_input(#[trigger] run(s, events.take(i)), events[i])
}

/// A run without a late input begins with such a run and ends with an event
/// that is no late input.
proof fn lemma_orderly_front(s: State, events: Seq<Event>)
    requires
        orderly(s, events),
        events.len() > 0,
    ensures
        orderly(s, events.drop_last()),
        !late_input(run(s, events.drop_last()), events.last()),
{
    reveal(orderly);
    let front = events.drop_last();
    assert forall|i: int| 0 <= i < front.len() implies !late_input(
        #[trigger] run(s, front.take(i)),
        front[i],
    ) by {
        assert(front.take(i) == events.take(i));
        assert(!late_input(run(s, events.take(i)), events[i]));
    }
    assert(events.take(events.len() - 1) == front);
    assert(!late_input(run(s, events.take(events.len() - 1)), events[events.len() - 1]));
}

/// Whatever happens to an instance, it sends no message twice, unless it
/// accepts an input whose value it has already echoed.
pub proof fn lemma_run_ledger(s: State, events: Seq<Event>)
    requires
        consistent(s),
        ledger(s),
        orderly(s, events),
    ensures
        ledger(run(s, events)),
    decreases events.len(),
{
    if events.len() > 0 {
        let front = events.drop_last();
        lemma_orderly_front(s, events);
        lemma_run_ledger(s, front);
        lemma_run(s, front);
        lemma_step_ledger(run(s, front), events.last());
    }
}

/// Whatever happens to a new instance, it sends no message twice, unless it
/// accepts an input whose value it has already echoed.
pub proof fn lemma_sent_once(
    our_id: NodeUid,
    num_nodes: nat,
    num_faulty: nat,
    events: Seq<Event>,
)
    requires
        3 * num_faulty + 1 <= num_nodes,
        orderly(initial(our_id, num_nodes, num_faulty), events),
    ensures
        issued_once(run(initial(our_id, num_nodes, num_faulty), events).issued),
{
    lemma_run_ledger(initial(our_id, num_nodes, num_faulty), events);
}

/// Whether the message `m` may be sent by a transition from the state `a`
/// that handles, where it handles a `BVal`, one for `allowed`: `m` is of no
/// earlier epoch, and if it is of the epoch of `a`, then as a `BVal` it is
/// for `allowed` and the local node had sent none for that value; as an
/// `Aux`, `bin_values` was empty; as a `Conf`, the `Conf` round had not
/// begun.
pub open spec fn unsent(a: State, m: AgreementMessage, allowed: Option<bool>) -> bool {
    &&& m.epoch >= a.epoch
    &&& (m.epoch == a.epoch ==> match m.content {
        AgreementContent::BVal(b) => !a.sent_bval.has(b) && allowed == Some(b),
        AgreementContent::Aux(_) => a.bin_values == BinValues::Neither,
        AgreementContent::Conf(_) => !a.conf_round,
    })
}

/// Every message of the outgoing queue of `t` from the position `from` on
/// may be sent by a transition from the state `a`.
pub open spec fn sent_anew(a: State, from: nat, t: State, allowed: Option<bool>) -> bool {
    forall|i: int| from <= i < t.messages.len() ==> unsent(a, #[trigger] t.messages[i], allowed)
}

/// What is sent anew up to a state, and from that state on, is sent anew.
proof fn lemma_anew_chain(a: State, from: nat, t: State, u: State, allowed: Option<bool>)
    requires
        sent_anew(a, from, t, allowed),
        sent_anew(a, t.messages.len(), u, allowed),
        advances(t, u),
    ensures
        sent_anew(a, from, u, allowed),
{
    assert forall|i: int| from <= i < u.messages.len() implies unsent(
        a,
        #[trigger] u.messages[i],
        allowed,
    ) by {
        if i < t.messages.len() {
            assert(u.messages[i] == t.messages[i]);
        }
    }
}

/// A message put into the queue and what is sent anew after it are sent anew.
proof fn lemma_anew_push(a: State, s: State, t: State, u: State, allowed: Option<bool>)
    requires
        t.messages == s.messages.push(t.messages[s.messages.len() as int]),
        unsent(a, t.messages[s.messages.len() as int], allowed),
        sent_anew(a, t.messages.len(), u, allowed),
        advances(t, u),
    ensures
        sent_anew(a, s.messages.len(), u, allowed),
{
    assert forall|i: int| s.messages.len() <= i < u.messages.len() implies unsent(
        a,
        #[trigger] u.messages[i],
        allowed,
    ) by {
        if i < t.messages.len() {
            assert(u.messages[i] == t.messages[i]);
        }
    }
}

/// `handle_message` sends anew.
proof fn lemma_handle_message_anew(
    a: State,
    allowed: Option<bool>,
    s: State,
    sender: NodeUid,
    msg: AgreementMessage,
)
    requires
        consistent(s),
        advances(a, s),
        s.epoch == a.epoch ==> (msg.content matches AgreementContent::BVal(b) ==> allowed == Some(
            b,
        )),
    ensures
        sent_anew(a, s.messages.len(), handle_message(s, sender, msg).state, allowed),
    decreases room(s.epoch), 50nat,
{
    if s.terminated {
    } else if msg.epoch < s.epoch {
    } else if msg.epoch > s.epoch {
    } else {
        match msg.content {
            AgreementContent::BVal(b) => lemma_handle_bval_anew(a, allowed, s, sender, b),
            AgreementContent::Aux(b) => lemma_handle_aux_anew(a, allowed, s, sender, b),
            AgreementContent::Conf(v) => lemma_handle_conf_anew(a, allowed, s, sender, v),
        }
    }
}

/// `handle_bval` sends anew.
proof fn lemma_handle_bval_anew(
    a: State,
    allowed: Option<bool>,
    s: State,
    sender: NodeUid,
    b: bool,
)
    requires
        consistent(s),
        advances(a, s),
        s.epoch == a.epoch ==> allowed == Some(b),
    ensures
        sent_anew(a, s.messages.len(), handle_bval(s, sender, b).state, allowed),
    decreases room(s.epoch), 21 + 2 * s.sent_bval.missing(),
{
    let s1 = recorded(s, sender, b);
    assert(consistent(s1));
    assert(advances(s, s1));
    lemma_advances_chain(a, s, s1);
    let count = count_bval(s1, b);
    let echo = count == s.num_faulty + 1 && !s.sent_bval.has(b);
    if echo {
        lemma_send_bval(s1, b);
        lemma_send_bval_anew(a, allowed, s1, b);
    }
    let echoed = if echo {
        send_bval(s1, b)
    } else {
        done(s1)
    };
    if echoed.status == Status::Done && count == 2 * s.num_faulty + 1 {
        lemma_advances_chain(a, s1, echoed.state);
        lemma_add_bin_value(echoed.state, b);
        lemma_add_bin_value_anew(a, allowed, echoed.state, b);
        lemma_anew_chain(
            a,
            s.messages.len(),
            echoed.state,
            add_bin_value(echoed.state, b).state,
            allowed,
        );
    }
}

/// `add_bin_value` sends anew.
proof fn lemma_add_bin_value_anew(a: State, allowed: Option<bool>, s: State, b: bool)
    requires
        consistent(s),
        advances(a, s),
    ensures
        sent_anew(a, s.messages.len(), add_bin_value(s, b).state, allowed),
    decreases room(s.epoch), 11nat,
{
    let s1 = State { bin_values: s.bin_values.with(b), ..s };
    assert(consistent(s1));
    assert(advances(s, s1));
    lemma_advances_chain(a, s, s1);
    if s.bin_values == BinValues::Neither {
        lemma_send_aux_anew(a, allowed, s1, b);
    } else if s1.bin_values != s.bin_values {
        lemma_try_finish_conf_round_anew(a, allowed, s1);
    }
}

/// `send_bval` sends anew, where the local node has sent no `BVal` for the
/// value.
proof fn lemma_send_bval_anew(a: State, allowed: Option<bool>, s: State, b: bool)
    requires
        consistent(s),
        advances(a, s),
        !s.sent_bval.has(b),
        s.epoch == a.epoch ==> allowed == Some(b),
    ensures
        sent_anew(a, s.messages.len(), send_bval(s, b).state, allowed),
    decreases room(s.epoch), 22 + 2 * s.sent_bval.with(b).missing(),
{
    let m = message_now(s, AgreementContent::BVal(b));
    let s1 = enqueue(State { sent_bval: s.sent_bval.with(b), ..s }, m);
    assert(consistent(s1));
    assert(advances(s, s1));
    lemma_advances_chain(a, s, s1);
    assert(unsent(a, m, allowed));
    assert(s1.messages[s.messages.len() as int] == m);
    lemma_handle_bval(s1, s.our_id, b);
    lemma_handle_bval_anew(a, allowed, s1, s.our_id, b);
    lemma_anew_push(a, s, s1, handle_bval(s1, s.our_id, b).state, allowed);
}

/// `send_aux` sends anew, where `bin_values` was empty.
proof fn lemma_send_aux_anew(a: State, allowed: Option<bool>, s: State, b: bool)
    requires
        consistent(s),
        advances(a, s),
        s.epoch == a.epoch ==> a.bin_values == BinValues::Neither,
    ensures
        sent_anew(a, s.messages.len(), send_aux(s, b).state, allowed),
    decreases room(s.epoch), 10nat,
{
    let m = message_now(s, AgreementContent::Aux(b));
    let s1 = enqueue(s, m);
    assert(consistent(s1));
    assert(advances(s, s1));
    lemma_advances_chain(a, s, s1);
    assert(unsent(a, m, allowed));
    assert(s1.messages[s.messages.len() as int] == m);
    lemma_handle_aux(s1, s.our_id, b);
    lemma_handle_aux_anew(a, allowed, s1, s.our_id, b);
    lemma_anew_push(a, s, s1, handle_aux(s1, s.our_id, b).state, allowed);
}

/// `handle_aux` sends anew.
proof fn lemma_handle_aux_anew(
    a: State,
    allowed: Option<bool>,
    s: State,
    sender: NodeUid,
    b: bool,
)
    requires
        consistent(s),
        advances(a, s),
    ensures
        sent_anew(a, s.messages.len(), handle_aux(s, sender, b).state, allowed),
    decreases room(s.epoch), 9nat,
{
    if !s.conf_round {
        let s1 = State { received_aux: s.received_aux.insert(sender, b), ..s };
        assert(consistent(s1));
        assert(advances(s, s1));
        lemma_advances_chain(a, s, s1);
        if s.bin_values != BinValues::Neither && !(count_aux(s1) < s.num_nodes - s.num_faulty) {
            lemma_send_conf_anew(a, allowed, s1);
        }
    }
}

/// `send_conf` sends anew.
proof fn lemma_send_conf_anew(a: State, allowed: Option<bool>, s: State)
    requires
        consistent(s),
        advances(a, s),
    ensures
        sent_anew(a, s.messages.len(), send_conf(s).state, allowed),
    decreases room(s.epoch), 8nat,
{
    if !s.conf_round {
        let m = message_now(s, AgreementContent::Conf(s.bin_values));
        let s1 = State { conf_round: true, ..enqueue(s, m) };
        assert(consistent(s1));
        assert(advances(s, s1));
        lemma_advances_chain(a, s, s1);
        assert(unsent(a, m, allowed));
        assert(s1.messages[s.messages.len() as int] == m);
        lemma_handle_conf(s1, s.our_id, s.bin_values);
        lemma_handle_conf_anew(a, allowed, s1, s.our_id, s.bin_values);
        lemma_anew_push(a, s, s1, handle_conf(s1, s.our_id, s.bin_values).state, allowed);
    }
}

/// `handle_conf` sends anew.
proof fn lemma_handle_conf_anew(
    a: State,
    allowed: Option<bool>,
    s: State,
    sender: NodeUid,
    v: BinValues,
)
    requires
        consistent(s),
        advances(a, s),
    ensures
        sent_anew(a, s.messages.len(), handle_conf(s, sender, v).state, allowed),
    decreases room(s.epoch), 7nat,
{
    let s1 = State { received_conf: s.received_conf.insert(sender, v), ..s };
    assert(consistent(s1));
    assert(advances(s, s1));
    lemma_advances_chain(a, s, s1);
    lemma_try_finish_conf_round_anew(a, allowed, s1);
}

/// `try_finish_conf_round` sends anew.
proof fn lemma_try_finish_conf_round_anew(a: State, allowed: Option<bool>, s: State)
    requires
        consistent(s),
        advances(a, s),
    ensures
        sent_anew(a, s.messages.len(), try_finish_conf_round(s).state, allowed),
    decreases room(s.epoch), 6nat,
{
    if s.conf_round && !(count_conf(s) < s.num_nodes - s.num_faulty) {
        lemma_invoke_coin_anew(a, allowed, s, conf_values(s));
    }
}

/// `invoke_coin` sends anew.
proof fn lemma_invoke_coin_anew(a: State, allowed: Option<bool>, s: State, vals: BinValues)
    requires
        consistent(s),
        advances(a, s),
    ensures
        sent_anew(a, s.messages.len(), invoke_coin(s, vals).state, allowed),
    decreases room(s.epoch), 5nat,
{
    let coin = coin(s.epoch);
    if s.terminated || s.decision == Some(coin) {
    } else if s.epoch >= LAST_EPOCH {
    } else {
        let s1 = adopt(start_next_epoch(s), vals, coin);
        lemma_next_epoch(s, vals);
        lemma_advances_chain(a, s, s1);
        lemma_send_bval(s1, s1.estimated->0);
        lemma_send_bval_anew(a, allowed, s1, s1.estimated->0);
        let sent = send_bval(s1, s1.estimated->0);
        if sent.status == Status::Done {
            let s2 = State { incoming_queue: Seq::empty(), ..sent.state };
            assert(consistent(s2));
            assert(advances(sent.state, s2));
            lemma_advances_chain(a, s1, sent.state);
            lemma_advances_chain(a, sent.state, s2);
            lemma_replay(s2, sent.state.incoming_queue, s1.epoch);
            lemma_replay_anew(a, allowed, s2, sent.state.incoming_queue, s1.epoch);
            assert(sent_anew(a, s.messages.len(), s2, allowed));
            lemma_anew_chain(
                a,
                s.messages.len(),
                s2,
                replay(s2, sent.state.incoming_queue, s1.epoch).state,
                allowed,
            );
        }
    }
}

/// `replay` sends anew, in an epoch after that of the state before.
proof fn lemma_replay_anew(
    a: State,
    allowed: Option<bool>,
    s: State,
    msgs: Seq<(NodeUid, AgreementMessage)>,
    floor: nat,
)
    requires
        consistent(s),
        advances(a, s),
        a.epoch < s.epoch,
        floor <= s.epoch,
    ensures
        sent_anew(a, s.messages.len(), replay(s, msgs, floor).state, allowed),
    decreases room(floor), 100 + msgs.len(),
{
    if msgs.len() > 0 && !s.terminated {
        lemma_handle_message(s, msgs[0].0, msgs[0].1);
        lemma_handle_message_anew(a, allowed, s, msgs[0].0, msgs[0].1);
        let first = handle_message(s, msgs[0].0, msgs[0].1);
        if first.status == Status::Done {
            lemma_advances_chain(a, s, first.state);
            lemma_replay(first.state, msgs.drop_first(), s.epoch);
            lemma_replay_anew(a, allowed, first.state, msgs.drop_first(), s.epoch);
            lemma_anew_chain(
                a,
                s.messages.len(),
                first.state,
                replay(first.state, msgs.drop_first(), s.epoch).state,
                allowed,
            );
        }
    }
}

/// The value of a `BVal`, and nothing for another message.
pub open spec fn bval_of(msg: AgreementMessage) -> Option<bool> {
    match msg.content {
        AgreementContent::BVal(b) => Some(b),
        _ => None,
    }
}

/// What the instance puts into its outgoing queue for a message is of no
/// earlier epoch; and of its epoch it is a `BVal` only for the value of the
/// message, where the local node had sent none for it; an `Aux` only where
/// `bin_values` was empty; and a `Conf` only where the `Conf` round had not
/// begun.
pub proof fn lemma_message_sends_anew(s: State, sender: NodeUid, msg: AgreementMessage)
    requires
        consistent(s),
    ensures
        sent_anew(
            s,
            s.messages.len(),
            handle_message(s, sender, msg).state,
            bval_of(msg),
        ),
{
    assert(advances(s, s));
    lemma_handle_message_anew(s, bval_of(msg), s, sender, msg);
}

/// What the instance puts into its outgoing queue for an input is of no
/// earlier epoch; and of its epoch it is a `BVal` only for the input, an
/// `Aux` only where `bin_values` was empty, and a `Conf` only where the
/// `Conf` round had not begun; unless the local node has already sent a
/// `BVal` for the value of the input.
pub proof fn lemma_input_sends_anew(s: State, input: bool)
    requires
        consistent(s),
        !late_input(s, Event::Input(input)),
    ensures
        sent_anew(s, s.messages.len(), set_input(s, input).state, Some(input)),
{
    if accepts_input(s) && s.num_nodes != 1 {
        let s1 = State { estimated: Some(input), ..s };
        assert(consistent(s1));
        assert(advances(s, s1));
        lemma_send_bval_anew(s, Some(input), s1, input);
    }
}

} // verus!
