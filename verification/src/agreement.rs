//! A binary agreement instance.

use std::collections::{BTreeMap, VecDeque};
use std::rc::Rc;
use itertools::Itertools;
use vstd::prelude::*;
use crate::bin_values::BinValues;
use crate::headroom::{lemma_input_room, lemma_message_room, roomy};
use crate::laws::{lemma_handle_message, lemma_set_input};
use crate::ledger::{late_input, ledger, lemma_step_ledger};
use crate::message::{
    AgreementContent, AgreementMessage, AgreementResult, Error, Target, TargetedMessage,
};
use crate::model;
use crate::model::{Event, Outcome, State, Status, LAST_EPOCH};
use crate::netinfo::{NetworkInfo, NodeUid};
use crate::tally::{count_in, lemma_count_step, lemma_enumerates_members, lemma_tally, values_of};

verus! {

/// Binary agreement instance.
pub struct Agreement {
    /// Shared network information.
    netinfo: Rc<NetworkInfo>,
    /// Agreement algorithm epoch.
    epoch: u32,
    /// Bin values. Reset on every epoch update.
    bin_values: BinValues,
    /// Values received in `BVal` messages. Reset on every epoch update.
    received_bval: BTreeMap<NodeUid, BinValues>,
    /// Sent `BVal` values. Reset on every epoch update.
    sent_bval: BinValues,
    /// Values received in `Aux` messages. Reset on every epoch update.
    received_aux: BTreeMap<NodeUid, bool>,
    /// Received `Conf` messages. Reset on every epoch update.
    received_conf: BTreeMap<NodeUid, BinValues>,
    /// The estimate of the decision value in the current epoch.
    estimated: Option<bool>,
    /// The value output by the instance. It is set once, and the host takes it.
    output: Option<bool>,
    /// A permanent, latching copy of the output value.
    decision: Option<bool>,
    /// A cache for messages for future epochs that cannot be handled yet.
    incoming_queue: Vec<(NodeUid, AgreementMessage)>,
    /// Termination flag. Once set, the instance accepts no more messages.
    terminated: bool,
    /// The outgoing message queue.
    messages: VecDeque<AgreementMessage>,
    /// Whether the `Conf` message round has started in the current epoch.
    conf_round: bool,
    /// Every message that was ever put into the outgoing queue.
    issued: Ghost<Seq<AgreementMessage>>,
}

impl View for Agreement {
    type V = State;

    closed spec fn view(&self) -> State {
        State {
            our_id: self.netinfo.uid(),
            num_nodes: self.netinfo.nodes(),
            num_faulty: self.netinfo.faulty(),
            epoch: self.epoch as nat,
            bin_values: self.bin_values,
            received_bval: self.received_bval@,
            sent_bval: self.sent_bval,
            received_aux: self.received_aux@,
            received_conf: self.received_conf@,
            estimated: self.estimated,
            output: self.output,
            decision: self.decision,
            incoming_queue: self.incoming_queue@,
            terminated: self.terminated,
            messages: self.messages@,
            conf_round: self.conf_round,
            issued: self.issued@,
        }
    }
}

/// Whether a call that left the instance in `s` and ended as `st` is the transition `o`.
pub open spec fn ends_as(s: State, st: Status, o: Outcome) -> bool {
    s == o.state && st == o.status
}

/// Whether a call that left the instance in `s` and returned `r` is the transition `o`.
pub open spec fn refines(s: State, r: AgreementResult<()>, o: Outcome) -> bool {
    &&& s == o.state
    &&& match r {
        Ok(_) => o.status == Status::Done,
        Err(e) => o.status == Status::Failed(e),
    }
}

/// `Itertools::tee` on the elements of `values`, each half collected: both
/// halves yield every element of `values`, in its order.
#[verifier::external_body]
fn tee_values(values: Vec<BinValues>) -> (halves: (Vec<BinValues>, Vec<BinValues>))
    ensures
        halves.0@ == values@,
        halves.1@ == values@,
{
    let (first, second) = values.into_iter().tee();
    (first.collect(), second.collect())
}

/// The common coin of `epoch`: the same at every node, and not random.
pub fn common_coin(epoch: u32) -> (c: bool)
    ensures
        c == model::coin(epoch as nat),
{
    epoch % 2 == 0
}

impl Agreement {
    /// Whether the state of the instance is consistent.
    pub open spec fn wf(&self) -> bool {
        model::consistent(self@)
    }

    /// An instance in epoch 0 that has seen nothing yet.
    pub fn new(netinfo: Rc<NetworkInfo>) -> (a: Agreement)
        ensures
            a@ == model::initial(netinfo.uid(), netinfo.nodes(), netinfo.faulty()),
            a.wf(),
            ledger(a@),
            netinfo.nodes() - netinfo.faulty() >= 2 ==> roomy(a@),
    {
        // Every `NetworkInfo` tolerates its faulty nodes, and says so here.
        let _ = netinfo.num_nodes();
        Agreement {
            netinfo,
            epoch: 0,
            bin_values: BinValues::new(),
            received_bval: BTreeMap::new(),
            sent_bval: BinValues::new(),
            received_aux: BTreeMap::new(),
            received_conf: BTreeMap::new(),
            estimated: None,
            output: None,
            decision: None,
            incoming_queue: Vec::new(),
            terminated: false,
            messages: VecDeque::new(),
            conf_round: false,
            issued: Ghost(Seq::empty()),
        }
    }

    /// Sets the input value for agreement, as `set_input` does.
    pub fn input(&mut self, input: bool) -> (r: AgreementResult<()>)
        requires
            !(model::set_input(old(self)@, input).status is Exhausted),
        ensures
            refines(final(self)@, r, model::set_input(old(self)@, input)),
            final(self)@.epoch >= old(self)@.epoch,
            old(self).wf() ==> final(self).wf() && model::advances(old(self)@, final(self)@),
    {
        self.set_input(input)
    }

    /// Handles a message of the node `sender_id`: refuses it if the instance
    /// has terminated, drops it if its epoch is over, keeps it for later if
    /// its epoch is still to come, and otherwise acts on its content.
    /// The one error is `Terminated`, for a message to an instance that
    /// had terminated before the call. Where the message ends an epoch, the
    /// messages that waited for the next are handled; those that wait when
    /// the instance terminates are dropped, and none of them is refused.
    pub fn handle_message(&mut self, sender_id: &NodeUid, message: AgreementMessage) -> (r:
        AgreementResult<()>)
        requires
            !(model::handle_message(old(self)@, *sender_id, message).status is Exhausted),
        ensures
            refines(final(self)@, r, model::handle_message(old(self)@, *sender_id, message)),
            final(self)@.epoch >= old(self)@.epoch,
            final(self)@.epoch > old(self)@.epoch ==> message.epoch == old(self)@.epoch,
            old(self)@.terminated ==> r == Err::<(), Error>(Error::Terminated) && final(self)@
                == old(self)@,
            !old(self)@.terminated && message.epoch < old(self)@.epoch ==> r is Ok
                && final(self)@ == old(self)@,
            !old(self)@.terminated && message.epoch > old(self)@.epoch ==> r is Ok
                && final(self)@ == (State {
                incoming_queue: old(self)@.incoming_queue.push((*sender_id, message)),
                ..old(self)@
            }),
            old(self).wf() ==> final(self).wf() && model::advances(old(self)@, final(self)@),
            r is Err <==> old(self)@.terminated,
            old(self).wf() && ledger(old(self)@) ==> ledger(final(self)@),
            old(self).wf() && roomy(old(self)@) && message.epoch < LAST_EPOCH ==> roomy(
                final(self)@,
            ),
    {
        match self.receive(sender_id, message) {
            Status::Failed(e) => Err(e),
            _ => Ok(()),
        }
    }

    /// Handles a message of the node `sender_id` as `handle_message` does,
    /// and tells how that ended: also where the instance would have had to
    /// leave the last epoch, and stopped there. It ends as
    /// `Failed(Terminated)` exactly where the instance had terminated
    /// before the call.
    pub fn receive(&mut self, sender_id: &NodeUid, message: AgreementMessage) -> (st: Status)
        ensures
            ends_as(final(self)@, st, model::handle_message(old(self)@, *sender_id, message)),
            final(self)@.epoch >= old(self)@.epoch,
            final(self)@.epoch > old(self)@.epoch ==> message.epoch == old(self)@.epoch,
            old(self).wf() ==> final(self).wf() && model::advances(old(self)@, final(self)@),
            st is Failed <==> old(self)@.terminated,
            old(self).wf() ==> model::truthful(
                old(self)@,
                model::handle_message(old(self)@, *sender_id, message),
            ),
            old(self).wf() && ledger(old(self)@) ==> ledger(final(self)@),
            old(self).wf() && roomy(old(self)@) && message.epoch < LAST_EPOCH ==> roomy(
                final(self)@,
            ) && !(st is Exhausted),
        decreases model::room(old(self)@.epoch), 50nat,
    {
        proof {
            if old(self).wf() {
                lemma_handle_message(old(self)@, *sender_id, message);
                if ledger(old(self)@) {
                    lemma_step_ledger(old(self)@, Event::Message(*sender_id, message));
                }
                if roomy(old(self)@) && message.epoch < LAST_EPOCH {
                    lemma_message_room(old(self)@, *sender_id, message);
                }
            }
        }
        if self.terminated {
            return Status::Failed(Error::Terminated);
        }
        if message.epoch < self.epoch {
            // Message is obsolete: We are already in a later epoch.
            return Status::Done;
        }
        if message.epoch > self.epoch {
            // Message is for a later epoch. We can't handle that yet.
            self.incoming_queue.push((*sender_id, message));
            return Status::Done;
        }
        match message.content {
            AgreementContent::BVal(b) => self.handle_bval(sender_id, b),
            AgreementContent::Aux(b) => self.handle_aux(sender_id, b),
            AgreementContent::Conf(v) => self.handle_conf(sender_id, v),
        }
    }

    /// Takes the next message for multicast to all other nodes.
    pub fn next_message(&mut self) -> (m: Option<TargetedMessage>)
        ensures
            final(self)@ == model::next_message(old(self)@),
            old(self).wf() ==> final(self).wf() && model::follows(old(self)@, final(self)@),
            old(self).wf() && ledger(old(self)@) ==> ledger(final(self)@),
            roomy(old(self)@) ==> roomy(final(self)@),
            match m {
                Some(t) => old(self)@.messages.len() > 0 && t.target == Target::All && t.message
                    == old(self)@.messages[0],
                None => old(self)@.messages.len() == 0,
            },
    {
        proof {
            if old(self).wf() && ledger(old(self)@) {
                lemma_step_ledger(old(self)@, Event::NextMessage);
            }
        }
        match self.messages.pop_front() {
            Some(msg) => Some(Target::All.message(msg)),
            None => None,
        }
    }

    /// Takes the output. Once taken, the output stays empty.
    pub fn next_output(&mut self) -> (b: Option<bool>)
        ensures
            final(self)@ == model::next_output(old(self)@),
            b == old(self)@.output,
            old(self).wf() ==> final(self).wf() && model::follows(old(self)@, final(self)@),
            old(self).wf() && ledger(old(self)@) ==> ledger(final(self)@),
            roomy(old(self)@) ==> roomy(final(self)@),
    {
        proof {
            if old(self).wf() && ledger(old(self)@) {
                lemma_step_ledger(old(self)@, Event::NextOutput);
            }
        }
        self.output.take()
    }

    /// Whether the algorithm has terminated.
    pub fn terminated(&self) -> (t: bool)
        ensures
            t == self@.terminated,
    {
        self.terminated
    }

    /// The local node's identifier.
    pub fn our_id(&self) -> (id: &NodeUid)
        ensures
            *id == self@.our_id,
    {
        self.netinfo.our_uid()
    }

    /// Sets the input value for agreement: refused after epoch 0 has passed
    /// or once an estimate is set; the decision at once where the node is
    /// alone; otherwise the first estimate, sent to all as a `BVal`.
    /// The one error is `InputNotAccepted`, and the instance is then as it
    /// was. An input that is accepted is never refused, whatever it sets off.
    pub fn set_input(&mut self, input: bool) -> (r: AgreementResult<()>)
        requires
            !(model::set_input(old(self)@, input).status is Exhausted),
        ensures
            refines(final(self)@, r, model::set_input(old(self)@, input)),
            final(self)@.epoch >= old(self)@.epoch,
            !model::accepts_input(old(self)@) ==> r == Err::<(), Error>(Error::InputNotAccepted)
                && final(self)@ == old(self)@,
            old(self).wf() ==> final(self).wf() && model::advances(old(self)@, final(self)@),
            r is Err <==> !model::accepts_input(old(self)@),
            old(self).wf() && ledger(old(self)@) && !late_input(old(self)@, Event::Input(input))
                ==> ledger(final(self)@),
            old(self).wf() && roomy(old(self)@) ==> roomy(final(self)@),
    {
        match self.propose(input) {
            Status::Failed(e) => Err(e),
            _ => Ok(()),
        }
    }

    /// Sets the input value as `set_input` does, and tells how that ended:
    /// also where the instance would have had to leave the last epoch, and
    /// stopped there. It ends as `Failed(InputNotAccepted)` exactly where no
    /// input is accepted.
    pub fn propose(&mut self, input: bool) -> (st: Status)
        ensures
            ends_as(final(self)@, st, model::set_input(old(self)@, input)),
            final(self)@.epoch >= old(self)@.epoch,
            old(self).wf() ==> final(self).wf() && model::advances(old(self)@, final(self)@),
            st is Failed <==> !model::accepts_input(old(self)@),
            old(self).wf() ==> model::truthful(old(self)@, model::set_input(old(self)@, input)),
            old(self).wf() && ledger(old(self)@) && !late_input(old(self)@, Event::Input(input))
                ==> ledger(final(self)@),
            old(self).wf() && roomy(old(self)@) ==> roomy(final(self)@),
            old(self).wf() && (roomy(old(self)@) || old(self)@.num_nodes == 1) ==> !(st
                is Exhausted),
    {
        proof {
            if old(self).wf() {
                lemma_set_input(old(self)@, input);
                if ledger(old(self)@) && !late_input(old(self)@, Event::Input(input)) {
                    lemma_step_ledger(old(self)@, Event::Input(input));
                }
                if roomy(old(self)@) || old(self)@.num_nodes == 1 {
                    lemma_input_room(old(self)@, input);
                }
            }
        }
        if self.epoch != 0 || self.estimated.is_some() {
            return Status::Failed(Error::InputNotAccepted);
        }
        if self.netinfo.num_nodes() == 1 {
            self.estimated = Some(input);
            self.decision = Some(input);
            self.output = Some(input);
            self.terminated = true;
            return Status::Done;
        }
        // Set the initial estimated value to the input value.
        self.estimated = Some(input);
        // Record the input value as sent.
        self.send_bval(input)
    }

    /// Acceptance check to be performed before setting the input value.
    pub fn accepts_input(&self) -> (a: bool)
        ensures
            a == model::accepts_input(self@),
    {
        self.epoch == 0 && self.estimated.is_none()
    }

    /// Puts a message into the outgoing queue.
    fn enqueue(&mut self, m: AgreementMessage)
        ensures
            final(self)@ == model::enqueue(old(self)@, m),
    {
        self.messages.push_back(m);
        self.issued = Ghost(self.issued@.push(m));
    }

    /// Records a `BVal` for `b` of the node `sender_id`, and counts the
    /// senders of a `BVal` for `b`. With f + 1 of them the local node sends
    /// its own `BVal`, unless it has. Then, with 2f + 1 of them, `b` joins
    /// `bin_values`. Where f is 0, both happen on the first `BVal`.
    fn handle_bval(&mut self, sender_id: &NodeUid, b: bool) -> (st: Status)
        ensures
            ends_as(final(self)@, st, model::handle_bval(old(self)@, *sender_id, b)),
            !(st is Failed),
            final(self)@.epoch >= old(self)@.epoch,
        decreases model::room(old(self)@.epoch), 21 + 2 * old(self)@.sent_bval.missing(),
    {
        self.record_bval(sender_id, b);
        let count_bval = self.count_bval(b);
        let num_faulty = self.netinfo.num_faulty();

        // upon receiving `BVal(b)` messages from f + 1 nodes, if
        // `BVal(b)` has not been sent, multicast `BVal(b)`
        if count_bval == num_faulty + 1 && !self.sent_bval.contains(b) {
            match self.send_bval(b) {
                Status::Done => {},
                other => {
                    return other;
                },
            }
        }
        // upon receiving `BVal(b)` messages from 2f + 1 nodes,
        // bin_values := bin_values ∪ {b}
        if count_bval == 2 * num_faulty + 1 {
            self.add_bin_value(b)
        } else {
            Status::Done
        }
    }

    /// Adds `b` to the values of the `BVal` messages of the node `sender_id`.
    fn record_bval(&mut self, sender_id: &NodeUid, b: bool)
        ensures
            final(self)@ == model::recorded(old(self)@, *sender_id, b),
    {
        broadcast use vstd::laws_cmp::group_laws_cmp;

        let mut values = match self.received_bval.get(sender_id) {
            Some(v) => *v,
            None => BinValues::Neither,
        };
        values.insert(b);
        self.received_bval.insert(*sender_id, values);
    }

    /// Puts `b` into `bin_values`. If `bin_values` was empty, the node sends
    /// its `Aux` for `b`; if it has grown otherwise, the `Conf` round may end.
    fn add_bin_value(&mut self, b: bool) -> (st: Status)
        ensures
            ends_as(final(self)@, st, model::add_bin_value(old(self)@, b)),
            !(st is Failed),
            final(self)@.epoch >= old(self)@.epoch,
        decreases model::room(old(self)@.epoch), 11nat,
    {
        let previous_bin_values = self.bin_values;
        let bin_values_changed = self.bin_values.insert(b);

        // wait until bin_values != 0, then multicast `Aux(w)`
        // where w ∈ bin_values
        if previous_bin_values == BinValues::Neither {
            // Send an `Aux` message at most once per epoch.
            self.send_aux(b)
        } else if bin_values_changed {
            // If the `Conf` round has already started, a change in `bin_values` can lead to its
            // end. Try if it has indeed finished.
            self.try_finish_conf_round()
        } else {
            Status::Done
        }
    }

    /// Sends a `BVal` for `b` to all, and handles it as the node's own.
    fn send_bval(&mut self, b: bool) -> (st: Status)
        ensures
            ends_as(final(self)@, st, model::send_bval(old(self)@, b)),
            !(st is Failed),
            final(self)@.epoch >= old(self)@.epoch,
        decreases model::room(old(self)@.epoch), 22 + 2 * old(self)@.sent_bval.with(b).missing(),
    {
        // Record the value `b` as sent.
        self.sent_bval.insert(b);
        // Multicast `BVal`.
        self.enqueue(AgreementMessage::bval(self.epoch, b));
        // Receive the `BVal` message locally.
        let our_uid = *self.netinfo.our_uid();
        self.handle_bval(&our_uid, b)
    }

    /// Sends the `Conf` of this epoch with `bin_values` to all, unless it was
    /// sent, and handles it as the node's own.
    fn send_conf(&mut self) -> (st: Status)
        ensures
            ends_as(final(self)@, st, model::send_conf(old(self)@)),
            !(st is Failed),
            final(self)@.epoch >= old(self)@.epoch,
        decreases model::room(old(self)@.epoch), 8nat,
    {
        if self.conf_round {
            // Only one `Conf` message is allowed in an epoch.
            return Status::Done;
        }
        let v = self.bin_values;
        // Multicast `Conf`.
        self.enqueue(AgreementMessage::conf(self.epoch, v));
        // Trigger the start of the `Conf` round.
        self.conf_round = true;
        // Receive the `Conf` message locally.
        let our_uid = *self.netinfo.our_uid();
        self.handle_conf(&our_uid, v)
    }

    /// Waits until at least (N − f) `Aux` messages have been received, such that
    /// the values carried by these messages are in `bin_values`.
    fn handle_aux(&mut self, sender_id: &NodeUid, b: bool) -> (st: Status)
        ensures
            ends_as(final(self)@, st, model::handle_aux(old(self)@, *sender_id, b)),
            !(st is Failed),
            final(self)@.epoch >= old(self)@.epoch,
        decreases model::room(old(self)@.epoch), 9nat,
    {
        broadcast use vstd::laws_cmp::group_laws_cmp;
        // Perform the `Aux` message round only if a `Conf` round hasn't started yet.

        if self.conf_round {
            return Status::Done;
        }
        self.received_aux.insert(*sender_id, b);
        if self.bin_values == BinValues::Neither {
            return Status::Done;
        }
        if self.count_aux() < self.netinfo.num_nodes() - self.netinfo.num_faulty() {
            // Continue waiting for the (N - f) `Aux` messages.
            return Status::Done;
        }
        // Start the `Conf` message round.
        self.send_conf()
    }

    /// Records the `Conf` of the node `sender_id` and tries to end the round.
    fn handle_conf(&mut self, sender_id: &NodeUid, v: BinValues) -> (st: Status)
        ensures
            ends_as(final(self)@, st, model::handle_conf(old(self)@, *sender_id, v)),
            !(st is Failed),
            final(self)@.epoch >= old(self)@.epoch,
        decreases model::room(old(self)@.epoch), 7nat,
    {
        broadcast use vstd::laws_cmp::group_laws_cmp;

        self.received_conf.insert(*sender_id, v);
        self.try_finish_conf_round()
    }

    /// Ends the `Conf` round, if it has begun and N - f nodes have sent
    /// values that are subsets of `bin_values`.
    fn try_finish_conf_round(&mut self) -> (st: Status)
        ensures
            ends_as(final(self)@, st, model::try_finish_conf_round(old(self)@)),
            !(st is Failed),
            final(self)@.epoch >= old(self)@.epoch,
        decreases model::room(old(self)@.epoch), 6nat,
    {
        if self.conf_round {
            let (count_vals, vals) = self.count_conf();
            if count_vals < self.netinfo.num_nodes() - self.netinfo.num_faulty() {
                // Continue waiting for (N - f) `Conf` messages
                return Status::Done;
            }
            self.invoke_coin(vals)
        } else {
            Status::Done
        }
    }

    /// Sends an `Aux` for `b` to all, and handles it as the node's own.
    fn send_aux(&mut self, b: bool) -> (st: Status)
        ensures
            ends_as(final(self)@, st, model::send_aux(old(self)@, b)),
            !(st is Failed),
            final(self)@.epoch >= old(self)@.epoch,
        decreases model::room(old(self)@.epoch), 10nat,
    {
        // Multicast `Aux`.
        self.enqueue(AgreementMessage::aux(self.epoch, b));
        // Receive the `Aux` message locally.
        let our_uid = *self.netinfo.our_uid();
        self.handle_aux(&our_uid, b)
    }

    /// The count of the senders of a `BVal` for `b`.
    fn count_bval(&self, b: bool) -> (n: usize)
        ensures
            n == model::count_bval(self@, b),
    {
        let values = values_of(&self.received_bval);
        let mut n: usize = 0;
        let mut i: usize = 0;
        while i < values.len()
            invariant
                i <= values.len(),
                n <= i,
                n == count_in(values@.take(i as int), model::holding(b)),
            decreases values.len() - i,
        {
            proof {
                lemma_count_step(values@, i as int, model::holding(b));
            }
            if values[i].contains(b) {
                n = n + 1;
            }
            i = i + 1;
        }
        proof {
            assert(values@.take(i as int) == values@);
            lemma_tally(self.received_bval@, values@, model::holding(b));
        }
        n
    }

    /// The count of `Aux` messages whose value is in `bin_values`.
    ///
    /// In general, we can't expect every good node to send the same `Aux` value, so waiting for N -
    /// f agreeing messages would not always terminate. We can, however, expect every good node to
    /// send an `Aux` value that will eventually end up in our `bin_values`.
    fn count_aux(&self) -> (n: usize)
        ensures
            n == model::count_aux(self@),
    {
        let values = values_of(&self.received_aux);
        let mut n: usize = 0;
        let mut i: usize = 0;
        while i < values.len()
            invariant
                i <= values.len(),
                n <= i,
                n == count_in(values@.take(i as int), model::member_of(self.bin_values)),
            decreases values.len() - i,
        {
            proof {
                lemma_count_step(values@, i as int, model::member_of(self.bin_values));
            }
            if self.bin_values.contains(values[i]) {
                n = n + 1;
            }
            i = i + 1;
        }
        proof {
            assert(values@.take(i as int) == values@);
            lemma_tally(self.received_aux@, values@, model::member_of(self.bin_values));
        }
        n
    }

    /// Counts the received `Conf` messages whose values are a subset of
    /// `bin_values`, and joins their values.
    fn count_conf(&self) -> (r: (usize, BinValues))
        ensures
            r.0 == model::count_conf(self@),
            r.1 == model::conf_values(self@),
    {
        let values = values_of(&self.received_conf);
        let bin = self.bin_values;
        let mut admitted: Vec<BinValues> = Vec::new();
        let mut i: usize = 0;
        while i < values.len()
            invariant
                i <= values.len(),
                bin == self.bin_values,
                admitted@.len() == count_in(values@.take(i as int), model::inside(bin)),
                admitted@.len() <= i,
                forall|j: int|
                    0 <= j < admitted@.len() ==> (#[trigger] admitted@[j]).within(bin)
                        && values@.contains(admitted@[j]),
                forall|k: int|
                    0 <= k < i && (#[trigger] values@[k]).within(bin) ==> admitted@.contains(
                        values@[k],
                    ),
            decreases values.len() - i,
        {
            proof {
                lemma_count_step(values@, i as int, model::inside(bin));
            }
            let ghost before = admitted@;
            if values[i].is_subset(bin) {
                admitted.push(values[i]);
                proof {
                    assert(admitted@[before.len() as int] == values@[i as int]);
                    assert forall|k: int|
                        0 <= k < i + 1 && (#[trigger] values@[k]).within(
                            bin,
                        ) implies admitted@.contains(values@[k]) by {
                        if k < i {
                            let j = choose|j: int| 0 <= j < before.len() && before[j] == values@[k];
                            assert(admitted@[j] == values@[k]);
                        }
                    }
                }
            }
            i = i + 1;
        }
        let (counted, merged) = tee_values(admitted);
        let vals = BinValues::collect(&merged);
        proof {
            let s = self@;
            assert(values@.take(i as int) == values@);
            lemma_tally(self.received_conf@, values@, model::inside(bin));
            lemma_enumerates_members(self.received_conf@, values@);
            assert forall|b: bool| vals.has(b) == model::conf_holds(s, b) by {
                BinValues::lemma_join_all_has(merged@, b);
                if vals.has(b) {
                    let j = choose|j: int| 0 <= j < merged@.len() && (#[trigger] merged@[j]).has(b);
                    assert(values@.contains(merged@[j]));
                    let k = choose|k: int| 0 <= k < values@.len() && values@[k] == merged@[j];
                    assert(crate::tally::occurs(self.received_conf@, values@[k]));
                }
                if model::conf_holds(s, b) {
                    let k = choose|k: NodeUid| #[trigger]
                        s.received_conf.contains_key(k) && s.received_conf[k].within(s.bin_values)
                            && s.received_conf[k].has(b);
                    assert(values@.contains(s.received_conf[k]));
                    let i = choose|i: int|
                        0 <= i < values@.len() && values@[i] == s.received_conf[k];
                    assert(merged@.contains(values@[i]));
                    let j = choose|j: int| 0 <= j < merged@.len() && merged@[j] == values@[i];
                    assert(merged@[j].has(b));
                }
            }
            assert(vals.has(false) == model::conf_holds(s, false));
            assert(vals.has(true) == model::conf_holds(s, true));
        }
        (counted.len(), vals)
    }

    /// Forgets what the epoch has gathered, and counts the epoch up.
    fn start_next_epoch(&mut self)
        requires
            old(self)@.epoch < model::LAST_EPOCH,
        ensures
            final(self)@ == model::start_next_epoch(old(self)@),
    {
        self.bin_values.clear();
        self.received_bval.clear();
        self.sent_bval.clear();
        self.received_aux.clear();
        self.received_conf.clear();
        self.conf_round = false;
        self.epoch += 1;
    }

    /// Gets a common coin and uses it to compute the next decision estimate and outputs the
    /// optional decision value. The function may start the next epoch. In that case, it also
    /// sends the `BVal` of the new estimate and handles the messages that waited.
    fn invoke_coin(&mut self, vals: BinValues) -> (st: Status)
        ensures
            ends_as(final(self)@, st, model::invoke_coin(old(self)@, vals)),
            !(st is Failed),
            final(self)@.epoch >= old(self)@.epoch,
        decreases model::room(old(self)@.epoch), 5nat,
    {
        let coin = common_coin(self.epoch);

        // Check the termination condition: "continue looping until both a
        // value b is output in some round r, and the value Coin_r' = b for
        // some round r' > r."
        let coin_decided = match self.decision {
            Some(d) => d == coin,
            None => false,
        };
        self.terminated = self.terminated || coin_decided;
        if self.terminated {
            return Status::Done;
        }
        if self.epoch == model::LAST_EPOCH {
            return Status::Exhausted;
        }
        self.start_next_epoch();

        match vals.definite() {
            Some(b) => {
                self.estimated = Some(b);
                // Outputting a value is allowed only once.
                if self.decision.is_none() && b == coin {
                    // Output the agreement value.
                    self.output = Some(b);
                    // Latch the decided state.
                    self.decision = Some(b);
                }
            },
            None => {
                self.estimated = Some(coin);
            },
        }

        let b = self.estimated.unwrap();
        let ghost target = model::invoke_coin(old(self)@, vals);
        let ghost started = self@;
        match self.send_bval(b) {
            Status::Done => {},
            other => {
                return other;
            },
        }
        let ghost sent = self@;
        let mut queued_msgs: Vec<(NodeUid, AgreementMessage)> = Vec::new();
        core::mem::swap(&mut self.incoming_queue, &mut queued_msgs);
        let ghost mut floor: nat = started.epoch;
        let mut i: usize = 0;
        proof {
            assert(started == model::adopt(
                model::start_next_epoch(old(self)@),
                vals,
                model::coin(old(self)@.epoch),
            ));
            assert(model::send_bval(started, b).state == sent);
            assert(self@ == (State { incoming_queue: Seq::empty(), ..sent }));
            assert(queued_msgs@ == sent.incoming_queue);
            assert(queued_msgs@.skip(0) == queued_msgs@);
        }
        while i < queued_msgs.len()
            invariant
                i <= queued_msgs.len(),
                old(self)@.epoch < floor <= self@.epoch,
                target == model::invoke_coin(old(self)@, vals),
                model::replay(self@, queued_msgs@.skip(i as int), floor) == target,
            decreases queued_msgs.len() - i,
        {
            if self.terminated {
                // What waits when the instance has terminated is dropped.
                return Status::Done;
            }
            let ghost before = self@;
            let (sender_id, msg) = queued_msgs[i];
            proof {
                let rest = queued_msgs@.skip(i as int);
                assert(rest.len() > 0);
                assert(rest[0] == queued_msgs@[i as int]);
                assert(rest[0] == (sender_id, msg));
                assert(rest.drop_first() == queued_msgs@.skip(i + 1));
                let first = model::handle_message(before, sender_id, msg);
                assert(target == if first.status != Status::Done {
                    first
                } else {
                    model::replay(first.state, rest.drop_first(), before.epoch)
                });
            }
            match self.receive(&sender_id, msg) {
                Status::Done => {},
                other => {
                    return other;
                },
            }
            proof {
                floor = before.epoch;
            }
            i = i + 1;
        }
        Status::Done
    }
}

} // verus!
