use std::rc::Rc;

use binary_agreement::agreement::{common_coin, Agreement};
use binary_agreement::bin_values::BinValues;
use binary_agreement::message::{
    AgreementContent, AgreementMessage, Error, Target, TargetedMessage,
};
use binary_agreement::model::Status;
use binary_agreement::netinfo::{NetworkInfo, NodeUid};

const A: NodeUid = 0;
const B: NodeUid = 1;
const C: NodeUid = 2;
const D: NodeUid = 3;

fn instance(num_nodes: usize, num_faulty: usize) -> Agreement {
    let netinfo = NetworkInfo::new(A, num_nodes, num_faulty).expect("admissible network");
    Agreement::new(Rc::new(netinfo))
}

fn drain(a: &mut Agreement) -> Vec<AgreementMessage> {
    let mut out = Vec::new();
    while let Some(TargetedMessage { target, message }) = a.next_message() {
        assert_eq!(target, Target::All);
        out.push(message);
    }
    out
}

/// Runs one epoch in which every peer message carries `true`.
fn unanimous_epoch(a: &mut Agreement, epoch: u32) {
    for peer in [B, C, D] {
        assert_eq!(a.handle_message(&peer, AgreementMessage::bval(epoch, true)), Ok(()));
    }
    for peer in [B, C] {
        assert_eq!(a.handle_message(&peer, AgreementMessage::aux(epoch, true)), Ok(()));
    }
    for peer in [B, C] {
        assert_eq!(
            a.handle_message(&peer, AgreementMessage::conf(epoch, BinValues::True)),
            Ok(())
        );
    }
}

#[test]
fn unanimous_input_decides_in_epoch_zero() {
    let mut a = instance(4, 1);
    assert!(a.accepts_input());
    assert_eq!(a.set_input(true), Ok(()));
    assert!(!a.accepts_input());
    assert_eq!(drain(&mut a), vec![AgreementMessage::bval(0, true)]);

    assert_eq!(a.handle_message(&B, AgreementMessage::bval(0, true)), Ok(()));
    assert_eq!(drain(&mut a), vec![]);
    assert_eq!(a.handle_message(&C, AgreementMessage::bval(0, true)), Ok(()));
    assert_eq!(drain(&mut a), vec![AgreementMessage::aux(0, true)]);
    assert_eq!(a.handle_message(&D, AgreementMessage::bval(0, true)), Ok(()));
    assert_eq!(drain(&mut a), vec![]);

    assert_eq!(a.handle_message(&B, AgreementMessage::aux(0, true)), Ok(()));
    assert_eq!(drain(&mut a), vec![]);
    assert_eq!(a.handle_message(&C, AgreementMessage::aux(0, true)), Ok(()));
    assert_eq!(drain(&mut a), vec![AgreementMessage::conf(0, BinValues::True)]);

    assert_eq!(a.handle_message(&B, AgreementMessage::conf(0, BinValues::True)), Ok(()));
    assert_eq!(drain(&mut a), vec![]);
    assert!(!a.terminated());
    assert_eq!(a.handle_message(&C, AgreementMessage::conf(0, BinValues::True)), Ok(()));
    assert_eq!(drain(&mut a), vec![AgreementMessage::bval(1, true)]);
    assert_eq!(a.next_output(), Some(true));
    assert_eq!(a.next_output(), None);
    assert!(!a.terminated());
}

#[test]
fn decided_instance_terminates_when_the_coin_matches() {
    let mut a = instance(4, 1);
    assert_eq!(a.set_input(true), Ok(()));
    unanimous_epoch(&mut a, 0);
    assert_eq!(a.next_output(), Some(true));
    // The coin of epoch 1 is `false`: the instance goes on.
    unanimous_epoch(&mut a, 1);
    assert!(!a.terminated());
    assert_eq!(a.next_output(), None);
    // The coin of epoch 2 is `true`, the decision.
    unanimous_epoch(&mut a, 2);
    assert!(a.terminated());
    assert_eq!(
        drain(&mut a),
        vec![
            AgreementMessage::bval(0, true),
            AgreementMessage::aux(0, true),
            AgreementMessage::conf(0, BinValues::True),
            AgreementMessage::bval(1, true),
            AgreementMessage::aux(1, true),
            AgreementMessage::conf(1, BinValues::True),
            AgreementMessage::bval(2, true),
            AgreementMessage::aux(2, true),
            AgreementMessage::conf(2, BinValues::True),
        ]
    );
}

#[test]
fn message_after_termination_is_refused() {
    let mut a = instance(4, 1);
    assert_eq!(a.set_input(true), Ok(()));
    unanimous_epoch(&mut a, 0);
    unanimous_epoch(&mut a, 1);
    unanimous_epoch(&mut a, 2);
    assert!(a.terminated());
    assert_eq!(a.next_output(), Some(true));
    drain(&mut a);
    for msg in [
        AgreementMessage::bval(2, false),
        AgreementMessage::aux(0, true),
        AgreementMessage::conf(3, BinValues::Both),
    ] {
        assert_eq!(a.handle_message(&B, msg), Err(Error::Terminated));
    }
    assert!(a.terminated());
    assert_eq!(a.next_output(), None);
    assert_eq!(a.next_message(), None);
}

#[test]
fn single_node_decides_on_input() {
    let mut a = instance(1, 0);
    assert_eq!(a.set_input(false), Ok(()));
    assert!(a.terminated());
    assert_eq!(a.next_message(), None);
    assert_eq!(a.next_output(), Some(false));
    assert_eq!(a.next_output(), None);
    assert_eq!(a.set_input(true), Err(Error::InputNotAccepted));
    assert_eq!(a.handle_message(&A, AgreementMessage::bval(0, true)), Err(Error::Terminated));
}

#[test]
fn second_input_is_rejected() {
    let mut a = instance(4, 1);
    assert_eq!(a.set_input(true), Ok(()));
    assert_eq!(a.set_input(false), Err(Error::InputNotAccepted));
    assert_eq!(a.input(false), Err(Error::InputNotAccepted));
    assert!(!a.accepts_input());
    assert!(!a.terminated());
    assert_eq!(a.next_output(), None);
    assert_eq!(drain(&mut a), vec![AgreementMessage::bval(0, true)]);
}

#[test]
fn input_is_rejected_after_epoch_zero() {
    let mut a = instance(4, 1);
    // Without an input the instance follows its peers into epoch 1.
    unanimous_epoch(&mut a, 0);
    assert_eq!(a.set_input(true), Err(Error::InputNotAccepted));
    assert!(!a.accepts_input());
}

#[test]
fn bval_is_echoed_at_f_plus_one() {
    let mut a = instance(4, 1);
    assert_eq!(a.set_input(false), Ok(()));
    assert_eq!(a.handle_message(&B, AgreementMessage::bval(0, true)), Ok(()));
    assert_eq!(drain(&mut a), vec![AgreementMessage::bval(0, false)]);
    // The second `BVal(true)` makes f + 1: the node echoes it. Its own echo
    // is the third, which puts `true` into `bin_values`.
    assert_eq!(a.handle_message(&C, AgreementMessage::bval(0, true)), Ok(()));
    assert_eq!(
        drain(&mut a),
        vec![AgreementMessage::bval(0, true), AgreementMessage::aux(0, true)]
    );
    // A repeated `BVal` of the same sender counts once.
    assert_eq!(a.handle_message(&C, AgreementMessage::bval(0, true)), Ok(()));
    assert_eq!(a.handle_message(&D, AgreementMessage::bval(0, true)), Ok(()));
    assert_eq!(drain(&mut a), vec![]);
}

#[test]
fn grown_bin_values_reopen_the_conf_round() {
    let mut a = instance(4, 1);
    assert_eq!(a.set_input(true), Ok(()));
    for peer in [B, C] {
        assert_eq!(a.handle_message(&peer, AgreementMessage::bval(0, true)), Ok(()));
    }
    for peer in [B, C] {
        assert_eq!(a.handle_message(&peer, AgreementMessage::aux(0, true)), Ok(()));
    }
    assert_eq!(a.handle_message(&B, AgreementMessage::conf(0, BinValues::True)), Ok(()));
    // These two are no subsets of `bin_values` yet.
    assert_eq!(a.handle_message(&C, AgreementMessage::conf(0, BinValues::False)), Ok(()));
    assert_eq!(a.handle_message(&D, AgreementMessage::conf(0, BinValues::False)), Ok(()));
    assert_eq!(
        drain(&mut a),
        vec![
            AgreementMessage::bval(0, true),
            AgreementMessage::aux(0, true),
            AgreementMessage::conf(0, BinValues::True),
        ]
    );
    assert_eq!(a.handle_message(&B, AgreementMessage::bval(0, false)), Ok(()));
    assert_eq!(drain(&mut a), vec![]);
    // The second `BVal(false)` is echoed; with the echo `false` has 2f + 1
    // senders, `bin_values` holds both values and all four `Conf` count. The
    // values of the round are both, so the estimate is the coin of epoch 0.
    assert_eq!(a.handle_message(&C, AgreementMessage::bval(0, false)), Ok(()));
    assert_eq!(
        drain(&mut a),
        vec![AgreementMessage::bval(0, false), AgreementMessage::bval(1, true)]
    );
    assert_eq!(a.next_output(), None);
    assert!(!a.terminated());
    // The epoch is over for the third `BVal(false)`.
    assert_eq!(a.handle_message(&D, AgreementMessage::bval(0, false)), Ok(()));
    assert_eq!(drain(&mut a), vec![]);
}

#[test]
fn obsolete_message_changes_nothing() {
    let mut a = instance(4, 1);
    assert_eq!(a.set_input(true), Ok(()));
    unanimous_epoch(&mut a, 0);
    drain(&mut a);
    assert_eq!(a.next_output(), Some(true));
    for msg in [
        AgreementMessage::bval(0, false),
        AgreementMessage::aux(0, false),
        AgreementMessage::conf(0, BinValues::Both),
    ] {
        for peer in [B, C, D] {
            assert_eq!(a.handle_message(&peer, msg), Ok(()));
        }
    }
    assert_eq!(a.next_message(), None);
    assert_eq!(a.next_output(), None);
    assert!(!a.terminated());
    // Epoch 1 goes on as if nothing had come.
    unanimous_epoch(&mut a, 1);
    assert_eq!(
        drain(&mut a),
        vec![
            AgreementMessage::aux(1, true),
            AgreementMessage::conf(1, BinValues::True),
            AgreementMessage::bval(2, true),
        ]
    );
}

#[test]
fn buffered_messages_are_handled_in_the_next_epoch() {
    // The messages of epoch 1 come while the instance is in epoch 0.
    let mut early = instance(4, 1);
    assert_eq!(early.set_input(true), Ok(()));
    for peer in [B, C] {
        assert_eq!(early.handle_message(&peer, AgreementMessage::bval(1, true)), Ok(()));
        assert_eq!(early.handle_message(&peer, AgreementMessage::aux(1, true)), Ok(()));
    }
    assert_eq!(drain(&mut early), vec![AgreementMessage::bval(0, true)]);
    unanimous_epoch(&mut early, 0);

    // The same messages come when the instance is in epoch 1.
    let mut fresh = instance(4, 1);
    assert_eq!(fresh.set_input(true), Ok(()));
    drain(&mut fresh);
    unanimous_epoch(&mut fresh, 0);
    for peer in [B, C] {
        assert_eq!(fresh.handle_message(&peer, AgreementMessage::bval(1, true)), Ok(()));
        assert_eq!(fresh.handle_message(&peer, AgreementMessage::aux(1, true)), Ok(()));
    }

    let expected = vec![
        AgreementMessage::aux(0, true),
        AgreementMessage::conf(0, BinValues::True),
        AgreementMessage::bval(1, true),
        AgreementMessage::aux(1, true),
        AgreementMessage::conf(1, BinValues::True),
    ];
    assert_eq!(drain(&mut early), expected);
    assert_eq!(drain(&mut fresh), expected);
    assert_eq!(early.next_output(), Some(true));
    assert_eq!(fresh.next_output(), Some(true));
}

#[test]
fn message_two_epochs_ahead_is_kept_twice() {
    let mut a = instance(4, 1);
    assert_eq!(a.set_input(true), Ok(()));
    for peer in [B, C] {
        assert_eq!(a.handle_message(&peer, AgreementMessage::bval(2, true)), Ok(()));
    }
    unanimous_epoch(&mut a, 0);
    unanimous_epoch(&mut a, 1);
    // In epoch 2 the two kept `BVal` and the node's own make 2f + 1.
    assert_eq!(
        drain(&mut a),
        vec![
            AgreementMessage::bval(0, true),
            AgreementMessage::aux(0, true),
            AgreementMessage::conf(0, BinValues::True),
            AgreementMessage::bval(1, true),
            AgreementMessage::aux(1, true),
            AgreementMessage::conf(1, BinValues::True),
            AgreementMessage::bval(2, true),
            AgreementMessage::aux(2, true),
        ]
    );
}

#[test]
fn termination_during_replay_drops_the_rest() {
    let mut a = instance(4, 1);
    assert_eq!(a.set_input(true), Ok(()));
    unanimous_epoch(&mut a, 0);
    // All of epoch 2 waits in the buffer, and one message more.
    for peer in [B, C] {
        assert_eq!(a.handle_message(&peer, AgreementMessage::bval(2, true)), Ok(()));
    }
    for peer in [B, C] {
        assert_eq!(a.handle_message(&peer, AgreementMessage::aux(2, true)), Ok(()));
    }
    for peer in [B, C] {
        assert_eq!(a.handle_message(&peer, AgreementMessage::conf(2, BinValues::True)), Ok(()));
    }
    assert_eq!(a.handle_message(&D, AgreementMessage::bval(2, true)), Ok(()));
    for peer in [B, C, D] {
        assert_eq!(a.handle_message(&peer, AgreementMessage::bval(1, true)), Ok(()));
    }
    for peer in [B, C] {
        assert_eq!(a.handle_message(&peer, AgreementMessage::aux(1, true)), Ok(()));
    }
    assert_eq!(a.handle_message(&B, AgreementMessage::conf(1, BinValues::True)), Ok(()));
    assert!(!a.terminated());
    // The last `Conf` of epoch 1 starts epoch 2, whose messages are handled
    // from the buffer: the instance terminates before the buffer is empty.
    // What is left is dropped; the message that came before is not refused.
    assert_eq!(a.handle_message(&C, AgreementMessage::conf(1, BinValues::True)), Ok(()));
    assert!(a.terminated());
    // Only now a message is refused.
    assert_eq!(
        a.handle_message(&D, AgreementMessage::bval(2, true)),
        Err(Error::Terminated)
    );
}

#[test]
fn our_id_is_the_local_node() {
    let netinfo = NetworkInfo::new(7, 4, 1).expect("admissible network");
    let a = Agreement::new(Rc::new(netinfo));
    assert_eq!(*a.our_id(), 7);
    assert!(!a.terminated());
    assert!(a.accepts_input());
}

#[test]
fn receive_and_propose_tell_how_the_call_ended() {
    let mut a = instance(4, 1);
    assert_eq!(a.propose(true), Status::Done);
    assert_eq!(a.propose(true), Status::Failed(Error::InputNotAccepted));
    assert_eq!(a.receive(&B, AgreementMessage::bval(0, true)), Status::Done);
    assert_eq!(a.receive(&C, AgreementMessage::bval(5, true)), Status::Done);
    assert_eq!(drain(&mut a), vec![AgreementMessage::bval(0, true)]);
    let mut alone = instance(1, 0);
    assert_eq!(alone.propose(true), Status::Done);
    assert_eq!(
        alone.receive(&B, AgreementMessage::bval(0, true)),
        Status::Failed(Error::Terminated)
    );
}

#[test]
fn single_node_without_input_follows_its_own_messages() {
    // One node alone meets every threshold with its own messages: a `BVal`
    // takes it through the epochs until the coin is its decision. The first
    // `BVal` is both the f + 1 that make the node send its own and the
    // 2f + 1 that put the value into `bin_values`.
    let mut a = instance(1, 0);
    assert_eq!(a.handle_message(&A, AgreementMessage::bval(0, true)), Ok(()));
    assert!(a.terminated());
    assert_eq!(a.next_output(), Some(true));
    assert_eq!(
        drain(&mut a),
        vec![
            AgreementMessage::bval(0, true),
            AgreementMessage::aux(0, true),
            AgreementMessage::conf(0, BinValues::True),
            AgreementMessage::bval(1, true),
            AgreementMessage::aux(1, true),
            AgreementMessage::conf(1, BinValues::True),
            AgreementMessage::bval(2, true),
            AgreementMessage::aux(2, true),
            AgreementMessage::conf(2, BinValues::True),
        ]
    );
}

#[test]
fn single_node_handles_a_buffered_message_too_late() {
    // The message of epoch 1 waits while the node runs through the epochs
    // on its own; when the buffer is handled, the instance has terminated.
    // It is dropped, and the message that set this off is not refused.
    let mut a = instance(1, 0);
    assert_eq!(a.handle_message(&B, AgreementMessage::bval(1, true)), Ok(()));
    assert_eq!(a.handle_message(&A, AgreementMessage::bval(0, true)), Ok(()));
    assert!(a.terminated());
    assert_eq!(a.next_output(), Some(true));
    assert_eq!(
        a.handle_message(&B, AgreementMessage::bval(1, true)),
        Err(Error::Terminated)
    );
}

#[test]
fn input_after_an_echo_sends_the_value_again() {
    let mut a = instance(4, 1);
    for peer in [B, C] {
        assert_eq!(a.handle_message(&peer, AgreementMessage::bval(0, true)), Ok(()));
    }
    assert_eq!(
        drain(&mut a),
        vec![AgreementMessage::bval(0, true), AgreementMessage::aux(0, true)]
    );
    assert!(a.accepts_input());
    assert_eq!(a.set_input(true), Ok(()));
    assert_eq!(drain(&mut a), vec![AgreementMessage::bval(0, true)]);
}

#[test]
fn coin_decides_the_estimate_when_both_values_are_in_the_round() {
    let mut a = instance(4, 1);
    assert_eq!(a.set_input(false), Ok(()));
    // Both values reach 2f + 1 senders.
    for peer in [B, C] {
        assert_eq!(a.handle_message(&peer, AgreementMessage::bval(0, false)), Ok(()));
    }
    for peer in [B, C] {
        assert_eq!(a.handle_message(&peer, AgreementMessage::bval(0, true)), Ok(()));
    }
    assert_eq!(
        drain(&mut a),
        vec![
            AgreementMessage::bval(0, false),
            AgreementMessage::aux(0, false),
            AgreementMessage::bval(0, true),
        ]
    );
    assert_eq!(a.handle_message(&B, AgreementMessage::aux(0, true)), Ok(()));
    assert_eq!(a.handle_message(&C, AgreementMessage::aux(0, false)), Ok(()));
    assert_eq!(drain(&mut a), vec![AgreementMessage::conf(0, BinValues::Both)]);
    assert_eq!(a.handle_message(&B, AgreementMessage::conf(0, BinValues::Both)), Ok(()));
    assert_eq!(a.handle_message(&C, AgreementMessage::conf(0, BinValues::False)), Ok(()));
    // The values of the round are both: the estimate is the coin of epoch 0,
    // and nothing is decided.
    assert_eq!(drain(&mut a), vec![AgreementMessage::bval(1, true)]);
    assert_eq!(a.next_output(), None);
}

#[test]
fn single_value_against_the_coin_is_no_decision() {
    let mut a = instance(4, 1);
    assert_eq!(a.set_input(false), Ok(()));
    for peer in [B, C] {
        assert_eq!(a.handle_message(&peer, AgreementMessage::bval(0, false)), Ok(()));
    }
    for peer in [B, C] {
        assert_eq!(a.handle_message(&peer, AgreementMessage::aux(0, false)), Ok(()));
    }
    for peer in [B, C] {
        assert_eq!(
            a.handle_message(&peer, AgreementMessage::conf(0, BinValues::False)),
            Ok(())
        );
    }
    // The coin of epoch 0 is `true`: `false` is the estimate, not the decision.
    assert_eq!(a.next_output(), None);
    assert_eq!(
        drain(&mut a),
        vec![
            AgreementMessage::bval(0, false),
            AgreementMessage::aux(0, false),
            AgreementMessage::conf(0, BinValues::False),
            AgreementMessage::bval(1, false),
        ]
    );
    // The coin of epoch 1 is `false`: now it is decided.
    for peer in [B, C] {
        assert_eq!(a.handle_message(&peer, AgreementMessage::bval(1, false)), Ok(()));
    }
    for peer in [B, C] {
        assert_eq!(a.handle_message(&peer, AgreementMessage::aux(1, false)), Ok(()));
    }
    for peer in [B, C] {
        assert_eq!(
            a.handle_message(&peer, AgreementMessage::conf(1, BinValues::False)),
            Ok(())
        );
    }
    assert_eq!(a.next_output(), Some(false));
    assert!(!a.terminated());
}

#[test]
fn aux_after_the_conf_round_began_is_ignored() {
    let mut a = instance(4, 1);
    assert_eq!(a.set_input(true), Ok(()));
    for peer in [B, C] {
        assert_eq!(a.handle_message(&peer, AgreementMessage::bval(0, true)), Ok(()));
    }
    for peer in [B, C] {
        assert_eq!(a.handle_message(&peer, AgreementMessage::aux(0, true)), Ok(()));
    }
    drain(&mut a);
    assert_eq!(a.handle_message(&D, AgreementMessage::aux(0, true)), Ok(()));
    assert_eq!(a.handle_message(&D, AgreementMessage::aux(0, false)), Ok(()));
    assert_eq!(drain(&mut a), vec![]);
}

#[test]
fn coin_is_true_in_even_epochs() {
    assert!(common_coin(0));
    assert!(!common_coin(1));
    assert!(common_coin(2));
    assert!(!common_coin(u32::MAX));
    assert!(common_coin(u32::MAX - 1));
}

/// Runs one epoch in which every peer message carries `false`.
fn contrary_epoch(a: &mut Agreement, epoch: u32) {
    for peer in [B, C, D] {
        assert_eq!(a.handle_message(&peer, AgreementMessage::bval(epoch, false)), Ok(()));
    }
    for peer in [B, C] {
        assert_eq!(a.handle_message(&peer, AgreementMessage::aux(epoch, false)), Ok(()));
    }
    for peer in [B, C] {
        assert_eq!(
            a.handle_message(&peer, AgreementMessage::conf(epoch, BinValues::False)),
            Ok(())
        );
    }
}

fn same_slot(a: &AgreementMessage, b: &AgreementMessage) -> bool {
    a.epoch == b.epoch
        && match (a.content, b.content) {
            (AgreementContent::BVal(x), AgreementContent::BVal(y)) => x == y,
            (AgreementContent::Aux(_), AgreementContent::Aux(_)) => true,
            (AgreementContent::Conf(_), AgreementContent::Conf(_)) => true,
            _ => false,
        }
}

#[test]
fn decision_is_made_once() {
    let mut a = instance(4, 1);
    assert_eq!(a.set_input(true), Ok(()));
    unanimous_epoch(&mut a, 0);
    assert_eq!(a.next_output(), Some(true));
    // In epoch 1 the round has the single value `false`, which is the coin
    // of the epoch: without a decision, this would be one.
    contrary_epoch(&mut a, 1);
    assert_eq!(a.next_output(), None);
    assert!(!a.terminated());
    // The coin of epoch 2 is `true`, which is still the decision.
    contrary_epoch(&mut a, 2);
    assert!(a.terminated());
    assert_eq!(a.next_output(), None);
    assert_eq!(
        drain(&mut a),
        vec![
            AgreementMessage::bval(0, true),
            AgreementMessage::aux(0, true),
            AgreementMessage::conf(0, BinValues::True),
            AgreementMessage::bval(1, true),
            AgreementMessage::bval(1, false),
            AgreementMessage::aux(1, false),
            AgreementMessage::conf(1, BinValues::False),
            AgreementMessage::bval(2, false),
            AgreementMessage::aux(2, false),
            AgreementMessage::conf(2, BinValues::False),
        ]
    );
}

#[test]
fn no_message_is_sent_twice_and_epochs_only_grow() {
    let mut a = instance(4, 1);
    assert_eq!(a.set_input(false), Ok(()));
    let mut sent = Vec::new();
    for epoch in 0..6 {
        if a.terminated() {
            break;
        }
        // Every peer sends every message of the epoch, some of them twice.
        for value in [false, true] {
            for peer in [B, C, D, B] {
                let _ = a.receive(&peer, AgreementMessage::bval(epoch, value));
                sent.extend(drain(&mut a));
            }
        }
        for (peer, value) in [(B, true), (C, false), (D, true), (C, false)] {
            let _ = a.receive(&peer, AgreementMessage::aux(epoch, value));
            sent.extend(drain(&mut a));
        }
        for (peer, values) in [(B, BinValues::Both), (C, BinValues::True), (D, BinValues::False)] {
            let _ = a.receive(&peer, AgreementMessage::conf(epoch, values));
            sent.extend(drain(&mut a));
        }
    }
    assert!(sent.len() >= 8);
    for i in 0..sent.len() {
        for j in 0..i {
            assert!(!same_slot(&sent[j], &sent[i]), "{:?} and {:?}", sent[j], sent[i]);
            assert!(sent[j].epoch <= sent[i].epoch);
        }
    }
}

#[test]
fn first_bval_meets_both_thresholds_without_faulty_nodes() {
    for num_nodes in [2, 3] {
        let mut a = instance(num_nodes, 0);
        // With f = 0 the first `BVal(true)` is f + 1 and 2f + 1 at once: the
        // node sends its own `BVal(true)`, then `true` joins `bin_values`
        // and the node sends its `Aux`.
        assert_eq!(a.handle_message(&B, AgreementMessage::bval(0, true)), Ok(()));
        assert_eq!(
            drain(&mut a),
            vec![AgreementMessage::bval(0, true), AgreementMessage::aux(0, true)]
        );
        // The value is recorded as sent: nothing is sent for it again.
        assert_eq!(a.handle_message(&B, AgreementMessage::bval(0, true)), Ok(()));
        assert_eq!(a.handle_message(&C, AgreementMessage::bval(0, true)), Ok(()));
        assert_eq!(drain(&mut a), vec![]);
        // The other value has its own thresholds; the `Aux` was sent.
        assert_eq!(a.handle_message(&B, AgreementMessage::bval(0, false)), Ok(()));
        assert_eq!(drain(&mut a), vec![AgreementMessage::bval(0, false)]);
        assert_eq!(a.next_output(), None);
        assert!(!a.terminated());
    }
}

#[test]
fn two_nodes_without_faulty_ones_decide_together() {
    let mut a = instance(2, 0);
    assert_eq!(a.handle_message(&B, AgreementMessage::bval(0, true)), Ok(()));
    assert_eq!(
        drain(&mut a),
        vec![AgreementMessage::bval(0, true), AgreementMessage::aux(0, true)]
    );
    // N - f = 2: the `Aux` and the `Conf` of both nodes are needed.
    assert_eq!(a.handle_message(&B, AgreementMessage::aux(0, true)), Ok(()));
    assert_eq!(drain(&mut a), vec![AgreementMessage::conf(0, BinValues::True)]);
    assert_eq!(a.handle_message(&B, AgreementMessage::conf(0, BinValues::True)), Ok(()));
    assert_eq!(a.next_output(), Some(true));
    // In epoch 1 the node's own `BVal` is the first: it is sent once, and
    // puts the value into `bin_values`.
    assert_eq!(
        drain(&mut a),
        vec![AgreementMessage::bval(1, true), AgreementMessage::aux(1, true)]
    );
    assert!(!a.accepts_input());
    assert!(!a.terminated());
}

#[test]
fn input_without_faulty_nodes_puts_the_value_into_bin_values() {
    let mut a = instance(3, 0);
    assert_eq!(a.set_input(false), Ok(()));
    // The node's own `BVal` is the first for `false`: it is not sent again,
    // and it is the 2f + 1 that the `Aux` waits for.
    assert_eq!(
        drain(&mut a),
        vec![AgreementMessage::bval(0, false), AgreementMessage::aux(0, false)]
    );
    // The first `BVal(true)` is echoed and joins `bin_values`; the `Aux`
    // of the epoch was sent.
    assert_eq!(a.handle_message(&B, AgreementMessage::bval(0, true)), Ok(()));
    assert_eq!(drain(&mut a), vec![AgreementMessage::bval(0, true)]);
    assert_eq!(a.handle_message(&C, AgreementMessage::bval(0, true)), Ok(()));
    assert_eq!(drain(&mut a), vec![]);
    // `bin_values` holds both values: each `Aux` counts.
    assert_eq!(a.handle_message(&B, AgreementMessage::aux(0, true)), Ok(()));
    assert_eq!(a.handle_message(&C, AgreementMessage::aux(0, true)), Ok(()));
    assert_eq!(drain(&mut a), vec![AgreementMessage::conf(0, BinValues::Both)]);
}

#[test]
fn accepted_input_is_never_refused() {
    // Two nodes, none faulty. The peer's `Aux` and `Conf` of epoch 0 are
    // there, those of epochs 2 and 1 wait, and one message more.
    let mut a = instance(2, 0);
    assert_eq!(a.handle_message(&B, AgreementMessage::aux(0, true)), Ok(()));
    assert_eq!(a.handle_message(&B, AgreementMessage::conf(0, BinValues::True)), Ok(()));
    assert_eq!(a.handle_message(&B, AgreementMessage::aux(2, true)), Ok(()));
    assert_eq!(a.handle_message(&B, AgreementMessage::conf(2, BinValues::True)), Ok(()));
    assert_eq!(a.handle_message(&B, AgreementMessage::aux(1, true)), Ok(()));
    assert_eq!(a.handle_message(&B, AgreementMessage::conf(1, BinValues::True)), Ok(()));
    assert_eq!(a.handle_message(&B, AgreementMessage::bval(2, true)), Ok(()));
    assert_eq!(drain(&mut a), vec![]);
    // The input takes the instance through three epochs to its end, with
    // one message still waiting, which is dropped.
    assert!(a.accepts_input());
    assert_eq!(a.set_input(true), Ok(()));
    assert!(a.terminated());
    assert_eq!(a.next_output(), Some(true));
    assert_eq!(
        drain(&mut a),
        vec![
            AgreementMessage::bval(0, true),
            AgreementMessage::aux(0, true),
            AgreementMessage::conf(0, BinValues::True),
            AgreementMessage::bval(1, true),
            AgreementMessage::aux(1, true),
            AgreementMessage::conf(1, BinValues::True),
            AgreementMessage::bval(2, true),
            AgreementMessage::aux(2, true),
            AgreementMessage::conf(2, BinValues::True),
        ]
    );
    assert_eq!(a.set_input(true), Err(Error::InputNotAccepted));
    assert_eq!(a.handle_message(&B, AgreementMessage::bval(2, true)), Err(Error::Terminated));
}

#[test]
fn input_is_accepted_exactly_where_set_input_succeeds() {
    for (num_nodes, num_faulty) in [(1, 0), (2, 0), (3, 0), (4, 1)] {
        for input in [false, true] {
            let mut a = instance(num_nodes, num_faulty);
            assert!(a.accepts_input());
            assert_eq!(a.set_input(input), Ok(()));
            assert!(!a.accepts_input());
            assert_eq!(a.set_input(input), Err(Error::InputNotAccepted));
            assert_eq!(a.set_input(!input), Err(Error::InputNotAccepted));
        }
    }
}
