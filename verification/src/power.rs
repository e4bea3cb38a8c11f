//! Answering the window messages that report a change of power source.
use vstd::prelude::*;
use crate::registry::GpuMode;

verus! {

/// `WM_POWERBROADCAST`.
pub const WM_POWERBROADCAST: u32 = 536;
/// `PBT_APMPOWERSTATUSCHANGE`.
pub const PBT_APMPOWERSTATUSCHANGE: usize = 10;
/// `PBT_POWERSETTINGCHANGE`.
pub const PBT_POWERSETTINGCHANGE: usize = 32787;
/// `PoAc`: on wall power.
pub const PO_AC: u8 = 0;
/// `PoDc`: on battery.
pub const PO_DC: u8 = 1;
/// `PoHot`: on a short-term source such as a UPS.
pub const PO_HOT: u8 = 2;

/// How a window message is answered.
#[derive(PartialEq, Eq, Structural, Clone, Copy, Debug)]
pub enum MessageKind {
    /// A power broadcast that carries the new power source: read it, act on
    /// it, and answer 0.
    PowerSourceChange,
    /// Another power broadcast: answer 0.
    OtherPowerBroadcast,
    /// Any other message: pass it to the default window procedure.
    Other,
}

/// Sorts a window message by its number and `wparam`.
pub fn classify_message(message: u32, wparam: usize) -> (k: MessageKind)
    ensures
        k == if message != WM_POWERBROADCAST {
            MessageKind::Other
        } else if wparam == PBT_APMPOWERSTATUSCHANGE || wparam == PBT_POWERSETTINGCHANGE {
            MessageKind::PowerSourceChange
        } else {
            MessageKind::OtherPowerBroadcast
        },
{
    if message == WM_POWERBROADCAST {
        if wparam == PBT_APMPOWERSTATUSCHANGE || wparam == PBT_POWERSETTINGCHANGE {
            MessageKind::PowerSourceChange
        } else {
            MessageKind::OtherPowerBroadcast
        }
    } else {
        MessageKind::Other
    }
}

/// What a new power source calls for.
#[derive(PartialEq, Eq, Structural, Clone, Copy, Debug)]
pub enum PowerAction {
    /// Plugged in: prefer the dedicated GPU.
    Plug,
    /// Unplugged: prefer the integrated GPU.
    Unplug,
}

/// Whether `source` is one of the three power conditions Windows reports.
pub open spec fn known_power_source(source: u8) -> bool {
    source == PO_AC || source == PO_DC || source == PO_HOT
}

/// What a power source calls for: wall power is a plug, anything else an
/// unplug.
pub open spec fn source_action(source: u8) -> PowerAction {
    if source == PO_AC {
        PowerAction::Plug
    } else {
        PowerAction::Unplug
    }
}

/// Wall power calls for the dedicated GPU; battery or a short-term source
/// for the integrated one.
pub fn power_source_action(source: u8) -> (a: PowerAction)
    requires
        known_power_source(source),
    ensures
        a == source_action(source),
        a == PowerAction::Plug <==> source == PO_AC,
        a == PowerAction::Unplug <==> (source == PO_DC || source == PO_HOT),
{
    if source == PO_AC {
        PowerAction::Plug
    } else {
        PowerAction::Unplug
    }
}


/// The GPU that an answer to a power change asks for.
pub open spec fn action_mode(a: PowerAction) -> GpuMode {
    match a {
        PowerAction::Plug => GpuMode::Dedicated,
        PowerAction::Unplug => GpuMode::Integrated,
    }
}

/// The preference to write after a power change: the dedicated GPU when
/// plugged in, the integrated GPU when unplugged.
pub fn power_action_mode(a: PowerAction) -> (mode: GpuMode)
    ensures
        mode == action_mode(a),
{
    match a {
        PowerAction::Plug => GpuMode::Dedicated,
        PowerAction::Unplug => GpuMode::Integrated,
    }
}

/// On wall power every program gets the dedicated GPU; on battery or a
/// short-term source, the integrated one.
pub proof fn lemma_power_source_mode(source: u8)
    requires
        known_power_source(source),
    ensures
        action_mode(source_action(source)) == if source == PO_AC {
            GpuMode::Dedicated
        } else {
            GpuMode::Integrated
        },
{
}

} // verus!
