//! The messages of the protocol, their targets, and the errors of an instance.

use std::cmp::Ordering;
use vstd::prelude::*;
use crate::bin_values::{compare_positions, order_of, BinValues};
use crate::netinfo::NodeUid;

verus! {

/// What a message carries. The contents are ordered by their kind, `BVal`
/// before `Aux` before `Conf`, and within a kind by what they hold.
#[derive(Clone, Copy, Debug, PartialEq, Eq, Ord, Structural)]
pub enum AgreementContent {
    /// `BVal` message.
    BVal(bool),
    /// `Aux` message.
    Aux(bool),
    /// `Conf` message.
    Conf(BinValues),
}

impl PartialOrd for AgreementContent {
    fn partial_cmp(&self, other: &AgreementContent) -> (r: Option<Ordering>) {
        Some(compare_positions(self.position(), other.position()))
    }
}

impl vstd::std_specs::cmp::PartialOrdSpecImpl for AgreementContent {
    open spec fn obeys_partial_cmp_spec() -> bool {
        true
    }

    open spec fn partial_cmp_spec(&self, other: &AgreementContent) -> Option<Ordering> {
        Some(order_of(self.rank(), other.rank()))
    }
}

impl AgreementContent {
    /// The position of the content in the order of the eight contents.
    pub open spec fn rank(self) -> nat {
        match self {
            AgreementContent::BVal(b) => if b {
                1
            } else {
                0
            },
            AgreementContent::Aux(b) => if b {
                3
            } else {
                2
            },
            AgreementContent::Conf(v) => 4 + v.rank(),
        }
    }

    /// The position of the content in the order of the eight contents.
    pub fn position(&self) -> (r: u8)
        ensures
            r == self.rank(),
    {
        match *self {
            AgreementContent::BVal(b) => if b {
                1
            } else {
                0
            },
            AgreementContent::Aux(b) => if b {
                3
            } else {
                2
            },
            AgreementContent::Conf(v) => 4 + v.position(),
        }
    }
}

/// A message of the binary agreement, for one epoch. The messages are
/// ordered by their epoch, and within an epoch by their content.
#[derive(Clone, Copy, Debug, PartialEq, Eq, Ord, Structural)]
pub struct AgreementMessage {
    pub epoch: u32,
    pub content: AgreementContent,
}

impl PartialOrd for AgreementMessage {
    fn partial_cmp(&self, other: &AgreementMessage) -> (r: Option<Ordering>) {
        if self.epoch < other.epoch {
            Some(Ordering::Less)
        } else if self.epoch > other.epoch {
            Some(Ordering::Greater)
        } else {
            Some(compare_positions(self.content.position(), other.content.position()))
        }
    }
}

impl vstd::std_specs::cmp::PartialOrdSpecImpl for AgreementMessage {
    open spec fn obeys_partial_cmp_spec() -> bool {
        true
    }

    open spec fn partial_cmp_spec(&self, other: &AgreementMessage) -> Option<Ordering> {
        Some(
            if self.epoch < other.epoch {
                Ordering::Less
            } else if self.epoch > other.epoch {
                Ordering::Greater
            } else {
                order_of(self.content.rank(), other.content.rank())
            },
        )
    }
}

impl AgreementMessage {
    /// The `BVal` message of `epoch` for the value `b`.
    pub fn bval(epoch: u32, b: bool) -> (m: AgreementMessage)
        ensures
            m == (AgreementMessage { epoch, content: AgreementContent::BVal(b) }),
    {
        AgreementMessage { epoch, content: AgreementContent::BVal(b) }
    }

    /// The `Aux` message of `epoch` for the value `b`.
    pub fn aux(epoch: u32, b: bool) -> (m: AgreementMessage)
        ensures
            m == (AgreementMessage { epoch, content: AgreementContent::Aux(b) }),
    {
        AgreementMessage { epoch, content: AgreementContent::Aux(b) }
    }

    /// The `Conf` message of `epoch` for the values `v`.
    pub fn conf(epoch: u32, v: BinValues) -> (m: AgreementMessage)
        ensures
            m == (AgreementMessage { epoch, content: AgreementContent::Conf(v) }),
    {
        AgreementMessage { epoch, content: AgreementContent::Conf(v) }
    }
}

/// To whom a message goes.
#[derive(Clone, Copy, Debug, PartialEq, Eq, Structural)]
pub enum Target {
    /// Every other node.
    All,
    /// One node.
    Node(NodeUid),
}

impl Target {
    /// The message addressed to this target.
    pub fn message(self, message: AgreementMessage) -> (m: TargetedMessage)
        ensures
            m == (TargetedMessage { target: self, message }),
    {
        TargetedMessage { target: self, message }
    }
}

/// A message with its target.
#[derive(Clone, Copy, Debug, PartialEq, Eq, Structural)]
pub struct TargetedMessage {
    pub target: Target,
    pub message: AgreementMessage,
}

/// Why an instance refused a call.
#[derive(Clone, Copy, Debug, PartialEq, Eq, Structural)]
pub enum Error {
    /// An input came after the first epoch had begun, or after an estimate was set.
    InputNotAccepted,
    /// A message came after the instance had terminated.
    Terminated,
}

/// The result of a call on an instance.
pub type AgreementResult<T> = Result<T, Error>;

} // verus!
