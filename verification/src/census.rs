//! What the counts of the senders of an epoch say of the state: a value
//! with `f + 1` senders has been sent by the local node, and `bin_values`
//! holds the values with `2 f + 1` senders.

use vstd::prelude::*;
use crate::bin_values::BinValues;
use crate::laws::{
    lemma_bval_counted, lemma_each_step_front, lemma_handle_message, lemma_next_epoch,
    lemma_run, lemma_send_bval,
};
use crate::message::{AgreementContent, AgreementMessage};
use crate::model::{
    accepts_input, add_bin_value, adopt, bvals_of, coin, conf_values, consistent, count_aux,
    count_bval, count_conf, done, each_step, enqueue, from_peers, handle_aux, handle_bval,
    handle_conf, handle_message, holding, initial, invoke_coin, message_now, recorded, replay,
    room, run, send_aux, send_bval, send_conf, set_input, start_next_epoch, step,
    try_finish_conf_round, Event, State, Status, LAST_EPOCH,
};
use crate::netinfo::NodeUid;
use crate::tally::lemma_tally_empty;

verus! {

/// If `f + 1` nodes have sent a `BVal` for `b` in this epoch, the local node
/// has sent one.
pub open spec fn echo_kept(s: State, b: bool) -> bool {
    count_bval(s, b) >= s.num_faulty + 1 ==> s.sent_bval.has(b)
}

/// The local node has sent a `BVal` for each value that `f + 1` nodes have
/// sent a `BVal` for in this epoch.
pub open spec fn echoes_kept(s: State) -> bool {
    echo_kept(s, false) && echo_kept(s, true)
}

/// `handle_message` keeps the echoes.
proof fn lemma_handle_message_echoes(s: State, sender: NodeUid, msg: AgreementMessage)
    requires
        consistent(s),
        echoes_kept(s),
    ensures
        echoes_kept(handle_message(s, sender, msg).state),
    decreases room(s.epoch), 50nat,
{
    if s.terminated {
    } else if msg.epoch < s.epoch {
    } else if msg.epoch > s.epoch {
    } else {
        match msg.content {
            AgreementContent::BVal(b) => lemma_handle_bval_echoes(s, sender, b),
            AgreementContent::Aux(b) => lemma_handle_aux_echoes(s, sender, b),
            AgreementContent::Conf(v) => lemma_handle_conf_echoes(s, sender, v),
        }
    }
}

/// `handle_bval` keeps the echoes.
proof fn lemma_handle_bval_echoes(s: State, sender: NodeUid, b: bool)
    requires
        consistent(s),
        echoes_kept(s),
    ensures
        echoes_kept(handle_bval(s, sender, b).state),
    decreases room(s.epoch), 21 + 2 * s.sent_bval.missing(),
{
    let s1 = recorded(s, sender, b);
    lemma_bval_counted(s, sender, b);
    assert(consistent(s1));
    assert(echo_kept(s1, !b));
    let count = count_bval(s1, b);
    let echo = count == s.num_faulty + 1 && !s.sent_bval.has(b);
    if echo {
        lemma_send_bval(s1, b);
        lemma_send_bval_echoes(s1, b);
    } else {
        assert(echo_kept(s1, b));
    }
    let echoed = if echo {
        send_bval(s1, b)
    } else {
        done(s1)
    };
    if echoed.status == Status::Done && count == 2 * s.num_faulty + 1 {
        lemma_add_bin_value_echoes(echoed.state, b);
    }
}

/// `add_bin_value` keeps the echoes.
proof fn lemma_add_bin_value_echoes(s: State, b: bool)
    requires
        consistent(s),
        echoes_kept(s),
    ensures
        echoes_kept(add_bin_value(s, b).state),
    decreases room(s.epoch), 11nat,
{
    let s1 = State { bin_values: s.bin_values.with(b), ..s };
    assert(echoes_kept(s1));
    if s.bin_values == BinValues::Neither {
        lemma_send_aux_echoes(s1, b);
    } else if s1.bin_values != s.bin_values {
        lemma_try_finish_conf_round_echoes(s1);
    }
}

/// `send_bval` keeps the echoes, and makes the one for its value.
proof fn lemma_send_bval_echoes(s: State, b: bool)
    requires
        consistent(s),
        echo_kept(s, !b),
    ensures
        echoes_kept(send_bval(s, b).state),
    decreases room(s.epoch), 22 + 2 * s.sent_bval.with(b).missing(),
{
    let s1 = enqueue(
        State { sent_bval: s.sent_bval.with(b), ..s },
        message_now(s, AgreementContent::BVal(b)),
    );
    assert(echo_kept(s1, b));
    assert(echo_kept(s1, !b));
    lemma_handle_bval_echoes(s1, s.our_id, b);
}

/// `send_aux` keeps the echoes.
proof fn lemma_send_aux_echoes(s: State, b: bool)
    requires
        consistent(s),
        echoes_kept(s),
    ensures
        echoes_kept(send_aux(s, b).state),
    decreases room(s.epoch), 10nat,
{
    let s1 = enqueue(s, message_now(s, AgreementContent::Aux(b)));
    assert(echoes_kept(s1));
    lemma_handle_aux_echoes(s1, s.our_id, b);
}

/// `handle_aux` keeps the echoes.
proof fn lemma_handle_aux_echoes(s: State, sender: NodeUid, b: bool)
    requires
        consistent(s),
        echoes_kept(s),
    ensures
        echoes_kept(handle_aux(s, sender, b).state),
    decreases room(s.epoch), 9nat,
{
    if !s.conf_round {
        let s1 = State { received_aux: s.received_aux.insert(sender, b), ..s };
        assert(echoes_kept(s1));
        if s.bin_values != BinValues::Neither && !(count_aux(s1) < s.num_nodes - s.num_faulty) {
            lemma_send_conf_echoes(s1);
        }
    }
}

/// `send_conf` keeps the echoes.
proof fn lemma_send_conf_echoes(s: State)
    requires
        consistent(s),
        echoes_kept(s),
    ensures
        echoes_kept(send_conf(s).state),
    decreases room(s.epoch), 8nat,
{
    if !s.conf_round {
        let s1 = State {
            conf_round: true,
            ..enqueue(s, message_now(s, AgreementContent::Conf(s.bin_values)))
        };
        assert(echoes_kept(s1));
        lemma_handle_conf_echoes(s1, s.our_id, s.bin_values);
    }
}

/// `handle_conf` keeps the echoes.
proof fn lemma_handle_conf_echoes(s: State, sender: NodeUid, v: BinValues)
    requires
        consistent(s),
        echoes_kept(s),
    ensures
        echoes_kept(handle_conf(s, sender, v).state),
    decreases room(s.epoch), 7nat,
{
    let s1 = State { received_conf: s.received_conf.insert(sender, v), ..s };
    assert(echoes_kept(s1));
    lemma_try_finish_conf_round_echoes(s1);
}

/// `try_finish_conf_round` keeps the echoes.
proof fn lemma_try_finish_conf_round_echoes(s: State)
    requires
        consistent(s),
        echoes_kept(s),
    ensures
        echoes_kept(try_finish_conf_round(s).state),
    decreases room(s.epoch), 6nat,
{
    if s.conf_round && !(count_conf(s) < s.num_nodes - s.num_faulty) {
        lemma_invoke_coin_echoes(s, conf_values(s));
    }
}

/// `invoke_coin` keeps the echoes.
proof fn lemma_invoke_coin_echoes(s: State, vals: BinValues)
    requires
        consistent(s),
        echoes_kept(s),
    ensures
        echoes_kept(invoke_coin(s, vals).state),
    decreases room(s.epoch), 5nat,
{
    let coin = coin(s.epoch);
    if s.terminated || s.decision == Some(coin) {
        assert(echoes_kept(State { terminated: true, ..s }));
    } else if s.epoch >= LAST_EPOCH {
    } else {
        let s1 = adopt(start_next_epoch(s), vals, coin);
        lemma_tally_empty(holding(false));
        lemma_tally_empty(holding(true));
        assert(echoes_kept(s1));
        lemma_send_bval(s1, s1.estimated->0);
        lemma_send_bval_echoes(s1, s1.estimated->0);
        let sent = send_bval(s1, s1.estimated->0);
        if sent.status == Status::Done {
            let s2 = State { incoming_queue: Seq::empty(), ..sent.state };
            assert(echoes_kept(s2));
            lemma_replay_echoes(s2, sent.state.incoming_queue, s1.epoch);
        }
    }
}

/// `replay` keeps the echoes.
proof fn lemma_replay_echoes(s: State, msgs: Seq<(NodeUid, AgreementMessage)>, floor: nat)
    requires
        consistent(s),
        echoes_kept(s),
        floor <= s.epoch,
    ensures
        echoes_kept(replay(s, msgs, floor).state),
    decreases room(floor), 100 + msgs.len(),
{
    if msgs.len() > 0 {
        lemma_handle_message(s, msgs[0].0, msgs[0].1);
        lemma_handle_message_echoes(s, msgs[0].0, msgs[0].1);
        let first = handle_message(s, msgs[0].0, msgs[0].1);
        if first.status == Status::Done {
            lemma_replay_echoes(first.state, msgs.drop_first(), s.epoch);
        }
    }
}

/// Every event keeps the echoes.
pub proof fn lemma_step_echoes(s: State, e: Event)
    requires
        consistent(s),
        echoes_kept(s),
    ensures
        echoes_kept(step(s, e)),
{
    match e {
        Event::Input(b) => {
            if accepts_input(s) {
                if s.num_nodes == 1 {
                    assert(echoes_kept(set_input(s, b).state));
                } else {
                    let s1 = State { estimated: Some(b), ..s };
                    assert(echoes_kept(s1));
                    lemma_send_bval_echoes(s1, b);
                }
            }
        },
        Event::Message(sender, msg) => lemma_handle_message_echoes(s, sender, msg),
        Event::NextMessage => {
            assert(echoes_kept(step(s, e)));
        },
        Event::NextOutput => {
            assert(echoes_kept(step(s, e)));
        },
    }
}

/// Whatever happens to a new instance, the local node has sent a `BVal` for
/// each value for which `f + 1` nodes have sent one in the epoch.
pub proof fn lemma_echoes_kept(
    our_id: NodeUid,
    num_nodes: nat,
    num_faulty: nat,
    events: Seq<Event>,
)
    requires
        3 * num_faulty + 1 <= num_nodes,
    ensures
        echoes_kept(run(initial(our_id, num_nodes, num_faulty), events)),
    decreases events.len(),
{
    let s = initial(our_id, num_nodes, num_faulty);
    if events.len() > 0 {
        let front = events.drop_last();
        lemma_echoes_kept(our_id, num_nodes, num_faulty, front);
        lemma_run(s, front);
        lemma_step_echoes(run(s, front), events.last());
    } else {
        lemma_tally_empty(holding(false));
        lemma_tally_empty(holding(true));
    }
}

/// `bin_values` holds `b` exactly if `2 f + 1` nodes have sent a `BVal` for
/// `b` in this epoch.
pub open spec fn bin_counted(s: State, b: bool) -> bool {
    s.bin_values.has(b) <==> count_bval(s, b) >= 2 * s.num_faulty + 1
}

/// The local node has sent a `BVal` for `b` if one is recorded under its
/// identifier.
pub open spec fn own_sent(s: State, b: bool) -> bool {
    bvals_of(s, s.our_id).has(b) ==> s.sent_bval.has(b)
}

/// No message of `q` came under the identifier `our_id`.
pub open spec fn from_others(q: Seq<(NodeUid, AgreementMessage)>, our_id: NodeUid) -> bool {
    forall|i: int| 0 <= i < q.len() ==> (#[trigger] q[i]).0 != our_id
}

/// What holds of the counts of an instance to which no message came under
/// its own identifier, but for `bin_values` and the value `b`.
pub open spec fn census_but(s: State, b: bool) -> bool {
    &&& bin_counted(s, !b)
    &&& own_sent(s, false)
    &&& own_sent(s, true)
    &&& echoes_kept(s)
    &&& from_others(s.incoming_queue, s.our_id)
}

/// What holds of the counts of an instance to which no message came under
/// its own identifier: `bin_values` holds the values for which `2 f + 1`
/// nodes have sent a `BVal` in this epoch, and no other; the local node has
/// sent a `BVal` for each value for which one is recorded under its
/// identifier, and for each for which `f + 1` nodes have sent one; and no
/// message that waits came under its identifier.
pub open spec fn census(s: State) -> bool {
    &&& bin_counted(s, false)
    &&& bin_counted(s, true)
    &&& own_sent(s, false)
    &&& own_sent(s, true)
    &&& echoes_kept(s)
    &&& from_others(s.incoming_queue, s.our_id)
}

/// `handle_message` keeps the census, for a message of another node.
proof fn lemma_handle_message_census(s: State, sender: NodeUid, msg: AgreementMessage)
    requires
        consistent(s),
        census(s),
        sender != s.our_id,
    ensures
        census(handle_message(s, sender, msg).state),
    decreases room(s.epoch), 50nat,
{
    if s.terminated {
    } else if msg.epoch < s.epoch {
    } else if msg.epoch > s.epoch {
        let q = s.incoming_queue.push((sender, msg));
        assert forall|i: int| 0 <= i < q.len() implies (#[trigger] q[i]).0 != s.our_id by {
            if i < s.incoming_queue.len() {
                assert(q[i] == s.incoming_queue[i]);
            }
        }
    } else {
        match msg.content {
            AgreementContent::BVal(b) => lemma_handle_bval_census(s, sender, b),
            AgreementContent::Aux(b) => lemma_handle_aux_census(s, sender, b),
            AgreementContent::Conf(v) => lemma_handle_conf_census(s, sender, v),
        }
    }
}

/// Where `2 f + 1` nodes have sent a `BVal` for `b` and the local node has
/// not, its own `BVal` is sent and recorded, and that is all.
proof fn lemma_send_bval_counted(s: State, b: bool)
    requires
        consistent(s),
        !bvals_of(s, s.our_id).has(b),
        count_bval(s, b) >= 2 * s.num_faulty + 1,
    ensures
        ({
            let s1 = enqueue(
                State { sent_bval: s.sent_bval.with(b), ..s },
                message_now(s, AgreementContent::BVal(b)),
            );
            &&& send_bval(s, b) == done(recorded(s1, s.our_id, b))
            &&& consistent(recorded(s1, s.our_id, b))
            &&& count_bval(recorded(s1, s.our_id, b), b) == count_bval(s, b) + 1
            &&& count_bval(recorded(s1, s.our_id, b), !b) == count_bval(s, !b)
        }),
{
    let s1 = enqueue(
        State { sent_bval: s.sent_bval.with(b), ..s },
        message_now(s, AgreementContent::BVal(b)),
    );
    assert(consistent(s1));
    lemma_bval_counted(s1, s.our_id, b);
    assert(bvals_of(s1, s.our_id) == bvals_of(s, s.our_id));
    assert(count_bval(s1, b) == count_bval(s, b));
    assert(count_bval(s1, !b) == count_bval(s, !b));
    assert(consistent(recorded(s1, s.our_id, b)));
}

/// `handle_bval` keeps the census, for a `BVal` of another node or the local
/// node's own.
proof fn lemma_handle_bval_census(s: State, sender: NodeUid, b: bool)
    requires
        consistent(s),
        census(s),
        sender == s.our_id ==> s.sent_bval.has(b),
    ensures
        census(handle_bval(s, sender, b).state),
    decreases room(s.epoch), 21 + 2 * s.sent_bval.missing(),
{
    let s1 = recorded(s, sender, b);
    lemma_bval_counted(s, sender, b);
    assert(consistent(s1));
    assert(bvals_of(s1, s.our_id) == if sender == s.our_id {
        bvals_of(s, s.our_id).with(b)
    } else {
        bvals_of(s, s.our_id)
    });
    assert(own_sent(s1, false) && own_sent(s1, true));
    assert(bin_counted(s1, !b));
    assert(echo_kept(s1, !b));
    let count = count_bval(s1, b);
    let echo = count == s.num_faulty + 1 && !s.sent_bval.has(b);
    if echo {
        if !s.bin_values.has(b) && count >= 2 * s.num_faulty + 1 {
            lemma_send_bval_counted(s1, b);
            let s2 = enqueue(
                State { sent_bval: s1.sent_bval.with(b), ..s1 },
                message_now(s1, AgreementContent::BVal(b)),
            );
            let r = recorded(s2, s.our_id, b);
            assert(bvals_of(s2, s.our_id) == bvals_of(s1, s.our_id));
            assert(census_but(r, b));
            lemma_add_bin_value_census(r, b);
        } else {
            assert(bin_counted(s1, b));
            lemma_send_bval(s1, b);
            lemma_send_bval_census(s1, b);
        }
    } else {
        assert(echo_kept(s1, b));
        assert(census_but(s1, b));
        if count == 2 * s.num_faulty + 1 {
            lemma_add_bin_value_census(s1, b);
        } else {
            assert(bin_counted(s1, b));
        }
    }
}

/// `add_bin_value` makes the census whole, for a value that `2 f + 1` nodes
/// have sent.
proof fn lemma_add_bin_value_census(s: State, b: bool)
    requires
        consistent(s),
        census_but(s, b),
        count_bval(s, b) >= 2 * s.num_faulty + 1,
    ensures
        census(add_bin_value(s, b).state),
    decreases room(s.epoch), 11nat,
{
    let s1 = State { bin_values: s.bin_values.with(b), ..s };
    assert(bin_counted(s1, b));
    assert(bin_counted(s1, !b));
    assert(own_sent(s1, false) && own_sent(s1, true));
    assert(echoes_kept(s1));
    assert(census(s1));
    if s.bin_values == BinValues::Neither {
        lemma_send_aux_census(s1, b);
    } else if s1.bin_values != s.bin_values {
        lemma_try_finish_conf_round_census(s1);
    }
}

/// `send_bval` keeps the census, and makes the echo for its value.
proof fn lemma_send_bval_census(s: State, b: bool)
    requires
        consistent(s),
        bin_counted(s, false),
        bin_counted(s, true),
        own_sent(s, false),
        own_sent(s, true),
        echo_kept(s, !b),
        from_others(s.incoming_queue, s.our_id),
    ensures
        census(send_bval(s, b).state),
    decreases room(s.epoch), 22 + 2 * s.sent_bval.with(b).missing(),
{
    let s1 = enqueue(
        State { sent_bval: s.sent_bval.with(b), ..s },
        message_now(s, AgreementContent::BVal(b)),
    );
    assert(bvals_of(s1, s.our_id) == bvals_of(s, s.our_id));
    assert(bin_counted(s1, false) && bin_counted(s1, true));
    assert(own_sent(s1, false) && own_sent(s1, true));
    assert(echo_kept(s1, b) && echo_kept(s1, !b));
    assert(census(s1));
    lemma_handle_bval_census(s1, s.our_id, b);
}

/// `send_aux` keeps the census.
proof fn lemma_send_aux_census(s: State, b: bool)
    requires
        consistent(s),
        census(s),
    ensures
        census(send_aux(s, b).state),
    decreases room(s.epoch), 10nat,
{
    let s1 = enqueue(s, message_now(s, AgreementContent::Aux(b)));
    assert(bvals_of(s1, s.our_id) == bvals_of(s, s.our_id));
    assert(census(s1));
    lemma_handle_aux_census(s1, s.our_id, b);
}

/// `handle_aux` keeps the census.
proof fn lemma_handle_aux_census(s: State, sender: NodeUid, b: bool)
    requires
        consistent(s),
        census(s),
    ensures
        census(handle_aux(s, sender, b).state),
    decreases room(s.epoch), 9nat,
{
    if !s.conf_round {
        let s1 = State { received_aux: s.received_aux.insert(sender, b), ..s };
        assert(bvals_of(s1, s.our_id) == bvals_of(s, s.our_id));
        assert(census(s1));
        if s.bin_values != BinValues::Neither && !(count_aux(s1) < s.num_nodes - s.num_faulty) {
            lemma_send_conf_census(s1);
        }
    }
}

/// `send_conf` keeps the census.
proof fn lemma_send_conf_census(s: State)
    requires
        consistent(s),
        census(s),
    ensures
        census(send_conf(s).state),
    decreases room(s.epoch), 8nat,
{
    if !s.conf_round {
        let s1 = State {
            conf_round: true,
            ..enqueue(s, message_now(s, AgreementContent::Conf(s.bin_values)))
        };
        assert(bvals_of(s1, s.our_id) == bvals_of(s, s.our_id));
        assert(census(s1));
        lemma_handle_conf_census(s1, s.our_id, s.bin_values);
    }
}

/// `handle_conf` keeps the census.
proof fn lemma_handle_conf_census(s: State, sender: NodeUid, v: BinValues)
    requires
        consistent(s),
        census(s),
    ensures
        census(handle_conf(s, sender, v).state),
    decreases room(s.epoch), 7nat,
{
    let s1 = State { received_conf: s.received_conf.insert(sender, v), ..s };
    assert(bvals_of(s1, s.our_id) == bvals_of(s, s.our_id));
    assert(census(s1));
    lemma_try_finish_conf_round_census(s1);
}

/// `try_finish_conf_round` keeps the census.
proof fn lemma_try_finish_conf_round_census(s: State)
    requires
        consistent(s),
        census(s),
    ensures
        census(try_finish_conf_round(s).state),
    decreases room(s.epoch), 6nat,
{
    if s.conf_round && !(count_conf(s) < s.num_nodes - s.num_faulty) {
        lemma_invoke_coin_census(s, conf_values(s));
    }
}

/// `invoke_coin` keeps the census.
proof fn lemma_invoke_coin_census(s: State, vals: BinValues)
    requires
        consistent(s),
        census(s),
    ensures
        census(invoke_coin(s, vals).state),
    decreases room(s.epoch), 5nat,
{
    let coin = coin(s.epoch);
    if s.terminated || s.decision == Some(coin) {
        let t = State { terminated: true, ..s };
        assert(bvals_of(t, t.our_id) == bvals_of(s, s.our_id));
        assert(census(t));
    } else if s.epoch >= LAST_EPOCH {
    } else {
        let s1 = adopt(start_next_epoch(s), vals, coin);
        lemma_next_epoch(s, vals);
        lemma_next_epoch_census(s, vals);
        lemma_send_bval(s1, s1.estimated->0);
        lemma_send_bval_census(s1, s1.estimated->0);
        let sent = send_bval(s1, s1.estimated->0);
        if sent.status == Status::Done {
            let s2 = State { incoming_queue: Seq::empty(), ..sent.state };
            lemma_queue_taken_census(sent.state);
            lemma_replay_census(s2, sent.state.incoming_queue, s1.epoch);
        }
    }
}

/// The census holds at the start of an epoch.
proof fn lemma_next_epoch_census(s: State, vals: BinValues)
    requires
        from_others(s.incoming_queue, s.our_id),
    ensures
        census(adopt(start_next_epoch(s), vals, coin(s.epoch))),
{
    let s1 = adopt(start_next_epoch(s), vals, coin(s.epoch));
    lemma_tally_empty(holding(false));
    lemma_tally_empty(holding(true));
    assert(bvals_of(s1, s1.our_id) == BinValues::Neither);
}

/// Forgetting the messages that wait keeps the census, and the state
/// consistent.
proof fn lemma_queue_taken_census(s: State)
    requires
        consistent(s),
        census(s),
    ensures
        consistent(State { incoming_queue: Seq::empty(), ..s }),
        census(State { incoming_queue: Seq::empty(), ..s }),
        from_others(s.incoming_queue, s.our_id),
{
    let t = State { incoming_queue: Seq::empty(), ..s };
    assert(bvals_of(t, t.our_id) == bvals_of(s, s.our_id));
}

/// `replay` keeps the census, for messages of other nodes.
proof fn lemma_replay_census(s: State, msgs: Seq<(NodeUid, AgreementMessage)>, floor: nat)
    requires
        consistent(s),
        census(s),
        from_others(msgs, s.our_id),
        floor <= s.epoch,
    ensures
        census(replay(s, msgs, floor).state),
    decreases room(floor), 100 + msgs.len(),
{
    if msgs.len() > 0 {
        assert(msgs[0].0 != s.our_id);
        lemma_handle_message(s, msgs[0].0, msgs[0].1);
        lemma_handle_message_census(s, msgs[0].0, msgs[0].1);
        let first = handle_message(s, msgs[0].0, msgs[0].1);
        if first.status == Status::Done {
            let rest = msgs.drop_first();
            assert forall|i: int| 0 <= i < rest.len() implies (#[trigger] rest[i]).0
                != first.state.our_id by {
                assert(rest[i] == msgs[i + 1]);
            }
            lemma_replay_census(first.state, rest, s.epoch);
        }
    }
}

/// Every event but a message under the local node's own identifier keeps
/// the census.
pub proof fn lemma_step_census(s: State, e: Event)
    requires
        consistent(s),
        census(s),
        from_peers()(s, e),
    ensures
        census(step(s, e)),
{
    match e {
        Event::Input(b) => {
            if accepts_input(s) {
                if s.num_nodes == 1 {
                    let t = set_input(s, b).state;
                    assert(bvals_of(t, t.our_id) == bvals_of(s, s.our_id));
                    assert(census(t));
                } else {
                    let s1 = State { estimated: Some(b), ..s };
                    assert(bvals_of(s1, s1.our_id) == bvals_of(s, s.our_id));
                    assert(census(s1));
                    lemma_send_bval_census(s1, b);
                }
            }
        },
        Event::Message(sender, msg) => lemma_handle_message_census(s, sender, msg),
        Event::NextMessage => {
            let t = step(s, e);
            assert(bvals_of(t, t.our_id) == bvals_of(s, s.our_id));
            assert(census(t));
        },
        Event::NextOutput => {
            let t = step(s, e);
            assert(bvals_of(t, t.our_id) == bvals_of(s, s.our_id));
            assert(census(t));
        },
    }
}

/// Whatever happens to a new instance, `bin_values` holds a value exactly if
/// `2 f + 1` nodes have sent a `BVal` for it in the epoch, as long as no
/// message comes under the local node's own identifier.
pub proof fn lemma_census(our_id: NodeUid, num_nodes: nat, num_faulty: nat, events: Seq<Event>)
    requires
        3 * num_faulty + 1 <= num_nodes,
        each_step(initial(our_id, num_nodes, num_faulty), events, from_peers()),
    ensures
        census(run(initial(our_id, num_nodes, num_faulty), events)),
        forall|b: bool|
            bin_counted(#[trigger] run(initial(our_id, num_nodes, num_faulty), events), b),
    decreases events.len(),
{
    let s = initial(our_id, num_nodes, num_faulty);
    if events.len() > 0 {
        let front = events.drop_last();
        lemma_each_step_front(s, events, from_peers());
        lemma_census(our_id, num_nodes, num_faulty, front);
        lemma_run(s, front);
        lemma_step_census(run(s, front), events.last());
    } else {
        lemma_tally_empty(holding(false));
        lemma_tally_empty(holding(true));
    }
}

} // verus!
