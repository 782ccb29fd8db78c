use vstd::prelude::*;

use crate::block::{Block, BlockView};
use crate::crypto::PublicKey;
use crate::message::{Message, MessageView};

verus! {

/// What the miner's control task remembers between events.
pub struct MinerState {
    pub mining: bool,
    pub template: Option<Block>,
}

pub struct MinerStateView {
    pub mining: bool,
    pub template: Option<BlockView>,
}

impl View for MinerState {
    type V = MinerStateView;

    open spec fn view(&self) -> MinerStateView {
        MinerStateView {
            mining: self.mining,
            template: match self.template {
                Some(b) => Some(b@),
                None => None,
            },
        }
    }
}

/// What happened: the periodic tick, a reply from the node, or a solved block
/// from the hashing worker.
pub enum MinerEvent {
    Tick,
    Template(Block),
    Validity(bool),
    Mined(Block),
    Unexpected,
}

/// What the control task does next.
pub enum MinerAction {
    /// Send this message to the node.
    Send(Message),
    /// Nothing to send.
    Wait,
    /// The node answered with something out of protocol; give up the connection.
    Fail,
}

pub enum MinerActionView {
    Send(MessageView),
    Wait,
    Fail,
}

impl View for MinerAction {
    type V = MinerActionView;

    open spec fn view(&self) -> MinerActionView {
        match self {
            MinerAction::Send(m) => MinerActionView::Send(m@),
            MinerAction::Wait => MinerActionView::Wait,
            MinerAction::Fail => MinerActionView::Fail,
        }
    }
}

/// One decision of the miner's control loop. A tick asks for work when idle and
/// revalidates the current template when mining; a template starts mining; a
/// negative validity stops it; a solved block is submitted and stops it; any
/// other reply ends the session.
pub fn miner_step(state: MinerState, pubkey: &PublicKey, event: MinerEvent) -> (r: (MinerState, MinerAction))
    ensures
        match event {
            MinerEvent::Tick => if !state.mining {
                r.0@ == state@ && r.1@ == MinerActionView::Send(MessageView::FetchTemplate(pubkey@))
            } else {
                r.0@ == state@ && match state@.template {
                    Some(t) => r.1@ == MinerActionView::Send(MessageView::ValidateTemplate(t)),
                    None => r.1@ == MinerActionView::Wait,
                }
            },
            MinerEvent::Template(b) => r.0@ == (MinerStateView { mining: true, template: Some(b@) })
                && r.1@ == MinerActionView::Wait,
            MinerEvent::Validity(valid) => r.0@ == (MinerStateView { mining: state.mining && valid, ..state@ })
                && r.1@ == MinerActionView::Wait,
            MinerEvent::Mined(b) => r.0@ == (MinerStateView { mining: false, ..state@ })
                && r.1@ == MinerActionView::Send(MessageView::SubmitTemplate(b@)),
            MinerEvent::Unexpected => r.0@ == state@ && r.1@ == MinerActionView::Fail,
        },
{
    let ghost sv = state@;
    match event {
        MinerEvent::Tick => {
            if !state.mining {
                (state, MinerAction::Send(Message::FetchTemplate(pubkey.clone())))
            } else {
                let action = match &state.template {
                    Some(t) => MinerAction::Send(Message::ValidateTemplate(t.clone())),
                    None => MinerAction::Wait,
                };
                (state, action)
            }
        },
        MinerEvent::Template(b) => (MinerState { mining: true, template: Some(b) }, MinerAction::Wait),
        MinerEvent::Validity(valid) => {
            let mining = state.mining && valid;
            (MinerState { mining, template: state.template }, MinerAction::Wait)
        },
        MinerEvent::Mined(b) => (
            MinerState { mining: false, template: state.template },
            MinerAction::Send(Message::SubmitTemplate(b)),
        ),
        MinerEvent::Unexpected => (state, MinerAction::Fail),
    }
}

} // verus!
