//! The protocol as a mathematical state machine: the state of an instance and
//! the transition that each event causes.

use vstd::prelude::*;
use crate::bin_values::BinValues;
use crate::message::{AgreementContent, AgreementMessage, Error};
use crate::netinfo::NodeUid;
use crate::tally::tally;

verus! {

/// The largest epoch number. An instance in this epoch cannot advance.
pub const LAST_EPOCH: u32 = 0xffff_ffff;

/// The state of an instance.
pub struct State {
    /// The local node's identifier.
    pub our_id: NodeUid,
    /// The number of nodes, `N`.
    pub num_nodes: nat,
    /// The number of faulty nodes tolerated, `f`.
    pub num_faulty: nat,
    /// The current epoch.
    pub epoch: nat,
    /// The values that `2 f + 1` nodes have sent in a `BVal` this epoch.
    pub bin_values: BinValues,
    /// For each sender, the values of its `BVal` messages of this epoch.
    pub received_bval: Map<NodeUid, BinValues>,
    /// The values for which the local node has sent a `BVal` this epoch.
    pub sent_bval: BinValues,
    /// For each sender, the value of its last `Aux` message of this epoch.
    pub received_aux: Map<NodeUid, bool>,
    /// For each sender, the values of its last `Conf` message of this epoch.
    pub received_conf: Map<NodeUid, BinValues>,
    /// The estimate of the current epoch.
    pub estimated: Option<bool>,
    /// The decision, until the host takes it.
    pub output: Option<bool>,
    /// The decision, once made.
    pub decision: Option<bool>,
    /// The messages of later epochs, in the order of their arrival.
    pub incoming_queue: Seq<(NodeUid, AgreementMessage)>,
    /// Whether the instance has terminated.
    pub terminated: bool,
    /// The messages that wait to be sent to all, oldest first.
    pub messages: Seq<AgreementMessage>,
    /// Whether the `Conf` round of this epoch has begun.
    pub conf_round: bool,
    /// Every message that the instance has ever put into `messages`, oldest first.
    pub issued: Seq<AgreementMessage>,
}

/// How a transition ended.
#[derive(Clone, Copy, Debug, PartialEq, Eq, Structural)]
pub enum Status {
    /// The event was handled.
    Done,
    /// The event was refused.
    Failed(Error),
    /// The instance would have had to leave the last epoch.
    Exhausted,
}

/// The state after a transition, and how the transition ended.
pub struct Outcome {
    pub state: State,
    pub status: Status,
}

/// The transition that ends in `s` with the event handled.
pub open spec fn done(s: State) -> Outcome {
    Outcome { state: s, status: Status::Done }
}

/// The common coin of an epoch: `true` in the even epochs. It is the same at
/// every node, which the protocol needs, but anyone can foretell it: it
/// stands where a coin that no adversary can predict belongs.
pub open spec fn coin(epoch: nat) -> bool {
    epoch % 2 == 0
}

/// The number of epochs after `epoch`.
pub open spec fn room(epoch: nat) -> nat {
    if epoch >= LAST_EPOCH {
        0
    } else {
        (LAST_EPOCH - epoch) as nat
    }
}

/// The sets that hold `b`.
pub open spec fn holding(b: bool) -> spec_fn(BinValues) -> bool {
    |v: BinValues| v.has(b)
}

/// The values that `bin` holds.
pub open spec fn member_of(bin: BinValues) -> spec_fn(bool) -> bool {
    |b: bool| bin.has(b)
}

/// The sets that are subsets of `bin`.
pub open spec fn inside(bin: BinValues) -> spec_fn(BinValues) -> bool {
    |v: BinValues| v.within(bin)
}

/// The number of senders of a `BVal` for `b` in this epoch.
pub open spec fn count_bval(s: State, b: bool) -> nat {
    tally(s.received_bval, holding(b))
}

/// The number of senders whose `Aux` value is in `bin_values`.
pub open spec fn count_aux(s: State) -> nat {
    tally(s.received_aux, member_of(s.bin_values))
}

/// The number of senders whose `Conf` values are a subset of `bin_values`.
pub open spec fn count_conf(s: State) -> nat {
    tally(s.received_conf, inside(s.bin_values))
}

/// Whether some sender's `Conf` values are a subset of `bin_values` and hold `b`.
pub open spec fn conf_holds(s: State, b: bool) -> bool {
    exists|k: NodeUid| #[trigger]
        s.received_conf.contains_key(k) && s.received_conf[k].within(s.bin_values)
            && s.received_conf[k].has(b)
}

/// The union of the `Conf` values that are subsets of `bin_values`.
pub open spec fn conf_values(s: State) -> BinValues {
    BinValues::of(conf_holds(s, false), conf_holds(s, true))
}

/// The values of the `BVal` messages of `sender` in this epoch.
pub open spec fn bvals_of(s: State, sender: NodeUid) -> BinValues {
    if s.received_bval.contains_key(sender) {
        s.received_bval[sender]
    } else {
        BinValues::Neither
    }
}

/// The state in which a `BVal` for `b` of `sender` is recorded.
pub open spec fn recorded(s: State, sender: NodeUid, b: bool) -> State {
    State { received_bval: s.received_bval.insert(sender, bvals_of(s, sender).with(b)), ..s }
}

/// The state with `m` put into the outgoing queue.
pub open spec fn enqueue(s: State, m: AgreementMessage) -> State {
    State { messages: s.messages.push(m), issued: s.issued.push(m), ..s }
}

/// The message of the state's epoch with the given content.
pub open spec fn message_now(s: State, content: AgreementContent) -> AgreementMessage {
    AgreementMessage { epoch: s.epoch as u32, content }
}

/// The state at the start of the next epoch.
pub open spec fn start_next_epoch(s: State) -> State {
    State {
        bin_values: BinValues::Neither,
        received_bval: Map::empty(),
        sent_bval: BinValues::Neither,
        received_aux: Map::empty(),
        received_conf: Map::empty(),
        conf_round: false,
        epoch: s.epoch + 1,
        ..s
    }
}

/// The state with the estimate that follows from the values `vals` of the
/// `Conf` round and from the coin, and with the decision where one is made:
/// a single value is the estimate, and the decision if it is the coin's
/// value and none was made before; otherwise the coin's value is the estimate.
pub open spec fn adopt(s: State, vals: BinValues, coin: bool) -> State {
    match vals.sole() {
        Some(b) => if s.decision is None && b == coin {
            State { estimated: Some(b), output: Some(b), decision: Some(b), ..s }
        } else {
            State { estimated: Some(b), ..s }
        },
        None => State { estimated: Some(coin), ..s },
    }
}

/// The state of an instance that has seen nothing yet.
pub open spec fn initial(our_id: NodeUid, num_nodes: nat, num_faulty: nat) -> State {
    State {
        our_id,
        num_nodes,
        num_faulty,
        epoch: 0,
        bin_values: BinValues::Neither,
        received_bval: Map::empty(),
        sent_bval: BinValues::Neither,
        received_aux: Map::empty(),
        received_conf: Map::empty(),
        estimated: None,
        output: None,
        decision: None,
        incoming_queue: Seq::empty(),
        terminated: false,
        messages: Seq::empty(),
        conf_round: false,
        issued: Seq::empty(),
    }
}

/// What holds of every state that an instance reaches: the network tolerates
/// its faulty nodes; the epoch has a number; the senders of an epoch are
/// finitely many; an output that waits is the decision; after a decision no
/// input is accepted; only a decided instance has terminated; and after
/// epoch 0 there is an estimate.
pub open spec fn consistent(s: State) -> bool {
    &&& 3 * s.num_faulty + 1 <= s.num_nodes
    &&& s.epoch <= LAST_EPOCH
    &&& s.received_bval.dom().finite()
    &&& s.received_aux.dom().finite()
    &&& s.received_conf.dom().finite()
    &&& (s.output is Some ==> s.decision == s.output)
    &&& (s.decision is Some ==> !accepts_input(s))
    &&& (s.terminated ==> s.decision is Some)
    &&& (s.epoch > 0 ==> s.estimated is Some)
}

/// How a later state `b` of an instance relates to an earlier state `a`: the
/// network is the same; the epoch is not smaller, and is greater only if the
/// instance had not terminated and the coin of the earlier epoch was not its
/// decision; a decision stays; a terminated instance stays terminated; an
/// estimate is not withdrawn; and while the epoch is the same, what the
/// epoch has gathered only grows.
pub open spec fn follows(a: State, b: State) -> bool {
    &&& b.our_id == a.our_id
    &&& b.num_nodes == a.num_nodes
    &&& b.num_faulty == a.num_faulty
    &&& a.epoch <= b.epoch
    &&& (a.epoch < b.epoch ==> !a.terminated && a.decision != Some(coin(a.epoch)))
    &&& (a.decision is Some ==> b.decision == a.decision)
    &&& (a.terminated ==> b.terminated)
    &&& (a.estimated is Some ==> b.estimated is Some)
    &&& (a.epoch == b.epoch ==> {
        &&& a.bin_values.within(b.bin_values)
        &&& a.sent_bval.within(b.sent_bval)
        &&& (a.conf_round ==> b.conf_round)
        &&& (a.estimated is Some ==> b.estimated == a.estimated)
        &&& forall|k: NodeUid| #[trigger]
            a.received_bval.contains_key(k) ==> b.received_bval.contains_key(k)
                && a.received_bval[k].within(b.received_bval[k])
    })
}

/// How the state `b` after an input or a message relates to the state `a`
/// before it: as `follows` says; the output is set only together with the
/// decision, and is not withdrawn; and the outgoing messages stay in the
/// queue, before those that were added.
pub open spec fn advances(a: State, b: State) -> bool {
    &&& follows(a, b)
    &&& (a.output is Some ==> b.output == a.output)
    &&& (a.output is None && b.output is Some ==> a.decision is None && b.decision == b.output)
    &&& a.messages.len() <= b.messages.len()
    &&& forall|i: int| 0 <= i < a.messages.len() ==> #[trigger] b.messages[i] == a.messages[i]
}

/// What the end of a transition from the state `s` says. An event is refused
/// only where it is a message to an instance that had terminated, or an
/// input that was not accepted, and the state is then as it was. Where the
/// instance would have had to leave the last epoch, it is in the last epoch
/// and has not terminated.
pub open spec fn truthful(s: State, o: Outcome) -> bool {
    match o.status {
        Status::Done => true,
        Status::Failed(e) => o.state == s && match e {
            Error::Terminated => s.terminated,
            Error::InputNotAccepted => !accepts_input(s),
        },
        Status::Exhausted => o.state.epoch == LAST_EPOCH && !o.state.terminated,
    }
}

/// What the end of a step within a transition says: nothing is refused; and
/// where the instance would have had to leave the last epoch, it is in the
/// last epoch and has not terminated.
pub open spec fn settled(o: Outcome) -> bool {
    match o.status {
        Status::Done => true,
        Status::Failed(_) => false,
        Status::Exhausted => o.state.epoch == LAST_EPOCH && !o.state.terminated,
    }
}

/// Whether an input is accepted.
pub open spec fn accepts_input(s: State) -> bool {
    s.epoch == 0 && s.estimated is None
}

/// A message from `sender`.
pub open spec fn handle_message(s: State, sender: NodeUid, msg: AgreementMessage) -> Outcome
    decreases room(s.epoch), 50nat,
{
    if s.terminated {
        Outcome { state: s, status: Status::Failed(Error::Terminated) }
    } else if msg.epoch < s.epoch {
        done(s)
    } else if msg.epoch > s.epoch {
        done(State { incoming_queue: s.incoming_queue.push((sender, msg)), ..s })
    } else {
        match msg.content {
            AgreementContent::BVal(b) => handle_bval(s, sender, b),
            AgreementContent::Aux(b) => handle_aux(s, sender, b),
            AgreementContent::Conf(v) => handle_conf(s, sender, v),
        }
    }
}

/// A `BVal` of the current epoch for `b` from `sender`. The `BVal` is
/// recorded, and the senders of a `BVal` for `b` are counted. If they are
/// `f + 1` and the local node has sent no `BVal` for `b`, it sends one. Then,
/// if they were `2 f + 1`, `b` joins `bin_values`. Where `f` is 0, both
/// happen on the first `BVal`. The epoch after the sending is never below
/// the one before: that test bounds the recursion and has no part in the
/// result.
pub open spec fn handle_bval(s: State, sender: NodeUid, b: bool) -> Outcome
    decreases room(s.epoch), 21 + 2 * s.sent_bval.missing(),
{
    let s1 = recorded(s, sender, b);
    let count = count_bval(s1, b);
    let echoed = if count == s.num_faulty + 1 && !s.sent_bval.has(b) {
        send_bval(s1, b)
    } else {
        done(s1)
    };
    if echoed.status != Status::Done {
        echoed
    } else if count != 2 * s.num_faulty + 1 {
        echoed
    } else if echoed.state.epoch < s.epoch {
        Outcome { state: echoed.state, status: Status::Exhausted }
    } else {
        add_bin_value(echoed.state, b)
    }
}

/// The value `b`, which `2 f + 1` nodes have sent in a `BVal`, joins
/// `bin_values`. If `bin_values` was empty, the local node sends its `Aux`
/// for `b`; if it has grown otherwise, the `Conf` round may end.
pub open spec fn add_bin_value(s: State, b: bool) -> Outcome
    decreases room(s.epoch), 11nat,
{
    let s1 = State { bin_values: s.bin_values.with(b), ..s };
    if s.bin_values == BinValues::Neither {
        send_aux(s1, b)
    } else if s1.bin_values != s.bin_values {
        try_finish_conf_round(s1)
    } else {
        done(s1)
    }
}

/// The local node sends a `BVal` for `b` and handles it as its own.
pub open spec fn send_bval(s: State, b: bool) -> Outcome
    decreases room(s.epoch), 22 + 2 * s.sent_bval.with(b).missing(),
{
    let s1 = State { sent_bval: s.sent_bval.with(b), ..s };
    handle_bval(enqueue(s1, message_now(s, AgreementContent::BVal(b))), s.our_id, b)
}

/// The local node sends an `Aux` for `b` and handles it as its own.
pub open spec fn send_aux(s: State, b: bool) -> Outcome
    decreases room(s.epoch), 10nat,
{
    handle_aux(enqueue(s, message_now(s, AgreementContent::Aux(b))), s.our_id, b)
}

/// An `Aux` of the current epoch for `b` from `sender`.
pub open spec fn handle_aux(s: State, sender: NodeUid, b: bool) -> Outcome
    decreases room(s.epoch), 9nat,
{
    if s.conf_round {
        done(s)
    } else {
        let s1 = State { received_aux: s.received_aux.insert(sender, b), ..s };
        if s.bin_values == BinValues::Neither {
            done(s1)
        } else if count_aux(s1) < s.num_nodes - s.num_faulty {
            done(s1)
        } else {
            send_conf(s1)
        }
    }
}

/// The local node sends its `Conf`, unless it has done so in this epoch, and
/// handles it as its own.
pub open spec fn send_conf(s: State) -> Outcome
    decreases room(s.epoch), 8nat,
{
    if s.conf_round {
        done(s)
    } else {
        let s1 = State {
            conf_round: true,
            ..enqueue(s, message_now(s, AgreementContent::Conf(s.bin_values)))
        };
        handle_conf(s1, s.our_id, s.bin_values)
    }
}

/// A `Conf` of the current epoch for `v` from `sender`.
pub open spec fn handle_conf(s: State, sender: NodeUid, v: BinValues) -> Outcome
    decreases room(s.epoch), 7nat,
{
    try_finish_conf_round(State { received_conf: s.received_conf.insert(sender, v), ..s })
}

/// The `Conf` round ends if it has begun and `N - f` senders have sent
/// values that are subsets of `bin_values`.
pub open spec fn try_finish_conf_round(s: State) -> Outcome
    decreases room(s.epoch), 6nat,
{
    if !s.conf_round {
        done(s)
    } else if count_conf(s) < s.num_nodes - s.num_faulty {
        done(s)
    } else {
        invoke_coin(s, conf_values(s))
    }
}

/// The end of an epoch, with the values `vals` of its `Conf` round. The
/// instance terminates if its decision is the coin's value. Otherwise it
/// starts the next epoch with a new estimate, decides where it can, sends its
/// `BVal` and then handles the messages that waited for a later epoch.
pub open spec fn invoke_coin(s: State, vals: BinValues) -> Outcome
    decreases room(s.epoch), 5nat,
{
    let coin = coin(s.epoch);
    if s.terminated || s.decision == Some(coin) {
        done(State { terminated: true, ..s })
    } else if s.epoch >= LAST_EPOCH {
        Outcome { state: s, status: Status::Exhausted }
    } else {
        let s1 = adopt(start_next_epoch(s), vals, coin);
        let sent = send_bval(s1, s1.estimated->0);
        if sent.status != Status::Done {
            sent
        } else {
            replay(
                State { incoming_queue: Seq::empty(), ..sent.state },
                sent.state.incoming_queue,
                s1.epoch,
            )
        }
    }
}

/// The messages `msgs` are handled in their order, as long as the instance
/// has not terminated: what waits when it has is dropped, and none of it is
/// refused. `floor` is an epoch that the instance has reached: it bounds the
/// recursion and has no part in the result.
pub open spec fn replay(s: State, msgs: Seq<(NodeUid, AgreementMessage)>, floor: nat) -> Outcome
    decreases room(floor), 100 + msgs.len(),
{
    if msgs.len() == 0 {
        done(s)
    } else if s.epoch < floor {
        Outcome { state: s, status: Status::Exhausted }
    } else if s.terminated {
        done(s)
    } else {
        let first = handle_message(s, msgs[0].0, msgs[0].1);
        if first.status != Status::Done {
            first
        } else {
            replay(first.state, msgs.drop_first(), s.epoch)
        }
    }
}

/// The input `input`.
pub open spec fn set_input(s: State, input: bool) -> Outcome {
    if !accepts_input(s) {
        Outcome { state: s, status: Status::Failed(Error::InputNotAccepted) }
    } else if s.num_nodes == 1 {
        done(
            State {
                estimated: Some(input),
                decision: Some(input),
                output: Some(input),
                terminated: true,
                ..s
            },
        )
    } else {
        send_bval(State { estimated: Some(input), ..s }, input)
    }
}

/// The host takes the oldest outgoing message.
pub open spec fn next_message(s: State) -> State {
    if s.messages.len() == 0 {
        s
    } else {
        State { messages: s.messages.drop_first(), ..s }
    }
}

/// The host takes the output.
pub open spec fn next_output(s: State) -> State {
    State { output: None, ..s }
}

/// What can happen to an instance.
pub enum Event {
    /// The host gives the input.
    Input(bool),
    /// A message of a node arrives.
    Message(NodeUid, AgreementMessage),
    /// The host takes the oldest outgoing message.
    NextMessage,
    /// The host takes the output.
    NextOutput,
}

/// The state after an event.
pub open spec fn step(s: State, e: Event) -> State {
    match e {
        Event::Input(b) => set_input(s, b).state,
        Event::Message(sender, msg) => handle_message(s, sender, msg).state,
        Event::NextMessage => next_message(s),
        Event::NextOutput => next_output(s),
    }
}

/// The state after a sequence of events.
pub open spec fn run(s: State, events: Seq<Event>) -> State
    decreases events.len(),
{
    if events.len() == 0 {
        s
    } else {
        step(run(s, events.drop_last()), events.last())
    }
}

/// Whether `ok` holds of every event of the run, in the state in which the
/// event happens.
#[verifier::opaque]
pub open spec fn each_step(
    s: State,
    events: Seq<Event>,
    ok: spec_fn(State, Event) -> bool,
) -> bool {
    forall|i: int| 0 <= i < events.len() ==> ok(#[trigger] run(s, events.take(i)), events[i])
}

/// The events that do not make the instance leave the last epoch.
pub open spec fn within_epochs() -> spec_fn(State, Event) -> bool {
    |s: State, e: Event|
        match e {
            Event::Input(b) => !(set_input(s, b).status is Exhausted),
            Event::Message(sender, msg) => !(handle_message(s, sender, msg).status is Exhausted),
            _ => true,
        }
}

/// The events that are no message under the local node's own identifier.
pub open spec fn from_peers() -> spec_fn(State, Event) -> bool {
    |s: State, e: Event|
        match e {
            Event::Message(sender, msg) => sender != s.our_id,
            _ => true,
        }
}

} // verus!
