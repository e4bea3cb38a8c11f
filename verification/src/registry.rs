//! Writing the per-program GPU preference under
//! `HKEY_CURRENT_USER\Software\Microsoft\DirectX\UserGpuPreferences`, inside
//! one kernel transaction, as a sequence of actions answered by events.
use vstd::prelude::*;
use crate::wide::{WideString, encode_utf16};
use crate::hstring_utils::{words_of, le_word};

verus! {

/// Which GPU every program should prefer.
#[derive(PartialEq, Eq, Structural, Clone, Copy, Debug)]
pub enum GpuMode {
    Dedicated,
    Integrated,
    /// No preference: the key is only cleared.
    NoPreference,
}

/// `HRESULT` of `ERROR_FILE_NOT_FOUND`, returned when the key does not exist.
pub const HRESULT_FILE_NOT_FOUND: i32 = -2147024894i32;

/// The text of the preference value for a mode.
pub open spec fn preference_text(mode: GpuMode) -> Seq<char> {
    match mode {
        GpuMode::Dedicated => "GpuPreference=2;"@,
        GpuMode::Integrated => "GpuPreference=1;"@,
        GpuMode::NoPreference => Seq::empty(),
    }
}

/// The bytes of UTF-16 units, each stored little-endian.
pub open spec fn utf16_le_bytes(units: Seq<u16>) -> Seq<u8>
    decreases units.len(),
{
    if units.len() == 0 {
        Seq::empty()
    } else {
        utf16_le_bytes(units.drop_last()) + seq![
            (units.last() % 256) as u8,
            (units.last() / 256) as u8,
        ]
    }
}

/// Reading the stored bytes back as little-endian words gives the units
/// that were stored: the value round-trips through `bytes_to_words`.
pub proof fn lemma_le_bytes_round_trip(units: Seq<u16>)
    ensures
        utf16_le_bytes(units).len() == 2 * units.len(),
        words_of(utf16_le_bytes(units)) == units,
    decreases units.len(),
{
    if units.len() > 0 {
        let init = units.drop_last();
        lemma_le_bytes_round_trip(init);
        let b = utf16_le_bytes(units);
        let bi = utf16_le_bytes(init);
        let u = units.last();
        assert(b == bi + seq![(u % 256) as u8, (u / 256) as u8]);
        assert forall|i: int| 0 <= i < units.len() implies #[trigger] words_of(b)[i] == units[i] by {
            if i < init.len() {
                assert(words_of(bi)[i] == init[i]);
                assert(b[2 * i] == bi[2 * i]);
                assert(b[2 * i + 1] == bi[2 * i + 1]);
            } else {
                assert(b[2 * i] == (u % 256) as u8);
                assert(b[2 * i + 1] == (u / 256) as u8);
                assert(le_word((u % 256) as u8, (u / 256) as u8) == u);
            }
        }
        assert(words_of(b) =~= units);
    }
}

/// The `REG_SZ` data written for a mode: its text in UTF-16, then a NUL
/// unit; no data for `GpuMode::NoPreference`.
pub open spec fn preference_value(mode: GpuMode) -> Option<Seq<u8>> {
    if mode == GpuMode::NoPreference {
        None
    } else {
        Some(utf16_le_bytes(encode_utf16(preference_text(mode))) + seq![0u8, 0u8])
    }
}

/// The data to store for every program under `mode`, or `None` when the
/// key is only to be cleared.
pub fn gpu_preference_value(mode: GpuMode) -> (value: Option<Vec<u8>>)
    ensures
        match value {
            Some(v) => preference_value(mode) == Some(v@),
            None => preference_value(mode) is None,
        },
{
    let string = match mode {
        GpuMode::Dedicated => {
            proof {
                reveal_strlit("GpuPreference=2;");
                crate::wide::lemma_encode_utf16_len("GpuPreference=2;"@);
            }
            WideString::from_str("GpuPreference=2;")
        },
        GpuMode::Integrated => {
            proof {
                reveal_strlit("GpuPreference=1;");
                crate::wide::lemma_encode_utf16_len("GpuPreference=1;"@);
            }
            WideString::from_str("GpuPreference=1;")
        },
        GpuMode::NoPreference => {
            return None;
        },
    };
    let wide = string.as_wide();
    let mut bytes: Vec<u8> = Vec::new();
    let mut i: usize = 0;
    while i < wide.len()
        invariant
            i <= wide@.len(),
            bytes@ == utf16_le_bytes(wide@.subrange(0, i as int)),
        decreases wide@.len() - i,
    {
        let word = wide[i];
        assert(wide@.subrange(0, i + 1).drop_last() =~= wide@.subrange(0, i as int));
        bytes.push((word % 256) as u8);
        bytes.push((word / 256) as u8);
        i = i + 1;
    }
    assert(wide@.subrange(0, wide@.len() as int) =~= wide@);
    bytes.push(0);
    bytes.push(0);
    Some(bytes)
}

/// Where a registry write stands.
#[derive(PartialEq, Eq, Structural, Clone, Copy, Debug)]
pub enum RegPhase {
    CreatingTransaction,
    OpeningKey,
    ClearingKey,
    CreatingKey,
    /// Writing the value for the program at this index.
    SettingValue(usize),
    ClosingKey,
    Committing,
    RollingBack,
    /// The write is over; any further event is answered `Finish(None)`.
    Finished,
}

/// What to do next.
#[derive(PartialEq, Eq, Structural, Clone, Copy, Debug)]
pub enum RegAction {
    /// Create the kernel transaction.
    CreateTransaction,
    /// Open the preferences key inside the transaction.
    OpenKey,
    /// Delete every value and subkey of the opened key.
    DeleteTree,
    /// Create the preferences key inside the transaction.
    CreateKey,
    /// Store the preference value under the name of the program at this index.
    SetValue(usize),
    /// Close the key.
    CloseKey,
    /// Commit the transaction.
    Commit,
    /// Roll the transaction back.
    Rollback,
    /// Stop, with the `HRESULT` of the failure, if any.
    Finish(Option<i32>),
}

/// How the last action went: `Ok`, or failed with an `HRESULT`.
#[derive(PartialEq, Eq, Structural, Clone, Copy, Debug)]
pub enum RegEvent {
    Succeeded,
    Failed(i32),
}

/// The step after the key was cleared or created: write the first value,
/// or close the key when there is nothing to write.
pub open spec fn after_key_ready(mode: GpuMode, programs: usize) -> (RegPhase, RegAction) {
    if mode == GpuMode::NoPreference || programs == 0 {
        (RegPhase::ClosingKey, RegAction::CloseKey)
    } else {
        (RegPhase::SettingValue(0), RegAction::SetValue(0))
    }
}

/// The next phase and action of a registry write of `mode` for `programs`
/// programs, from `phase` after `event`.
pub open spec fn reg_next(mode: GpuMode, programs: usize, phase: RegPhase, event: RegEvent) -> (
    RegPhase,
    RegAction,
) {
    match phase {
        RegPhase::CreatingTransaction => match event {
            RegEvent::Succeeded => (RegPhase::OpeningKey, RegAction::OpenKey),
            RegEvent::Failed(e) => (RegPhase::Finished, RegAction::Finish(Some(e))),
        },
        RegPhase::OpeningKey => match event {
            RegEvent::Succeeded => (RegPhase::ClearingKey, RegAction::DeleteTree),
            RegEvent::Failed(e) => if e == HRESULT_FILE_NOT_FOUND {
                (RegPhase::CreatingKey, RegAction::CreateKey)
            } else {
                (RegPhase::RollingBack, RegAction::Rollback)
            },
        },
        RegPhase::ClearingKey | RegPhase::CreatingKey => match event {
            RegEvent::Succeeded => after_key_ready(mode, programs),
            RegEvent::Failed(_) => (RegPhase::RollingBack, RegAction::Rollback),
        },
        RegPhase::SettingValue(i) => match event {
            RegEvent::Succeeded => if i + 1 < programs {
                (RegPhase::SettingValue((i + 1) as usize), RegAction::SetValue((i + 1) as usize))
            } else {
                (RegPhase::ClosingKey, RegAction::CloseKey)
            },
            RegEvent::Failed(_) => (RegPhase::RollingBack, RegAction::Rollback),
        },
        RegPhase::ClosingKey => match event {
            RegEvent::Succeeded => (RegPhase::Committing, RegAction::Commit),
            RegEvent::Failed(_) => (RegPhase::RollingBack, RegAction::Rollback),
        },
        RegPhase::Committing | RegPhase::RollingBack => match event {
            RegEvent::Succeeded => (RegPhase::Finished, RegAction::Finish(None)),
            RegEvent::Failed(e) => (RegPhase::Finished, RegAction::Finish(Some(e))),
        },
        RegPhase::Finished => (RegPhase::Finished, RegAction::Finish(None)),
    }
}

/// The first phase and action of a registry write.
pub fn registry_start() -> (r: (RegPhase, RegAction))
    ensures
        r == (RegPhase::CreatingTransaction, RegAction::CreateTransaction),
{
    (RegPhase::CreatingTransaction, RegAction::CreateTransaction)
}

/// The next phase and action of a registry write of `mode` for `programs`
/// programs: a missing key is created and an existing one cleared; unless
/// the mode is `None`, every program gets the value in order; any failure
/// inside the transaction rolls it back, and the write counts as done once
/// the transaction is committed or rolled back.
pub fn registry_step(mode: GpuMode, programs: usize, phase: RegPhase, event: RegEvent) -> (r: (
    RegPhase,
    RegAction,
))
    ensures
        r == reg_next(mode, programs, phase, event),
        phase is Committing ==> (event matches RegEvent::Failed(e) ==> r == (
            RegPhase::Finished,
            RegAction::Finish(Some(e)),
        )),
        r.1 == RegAction::Finish(None) && !(phase is Finished) ==> event == RegEvent::Succeeded
            && (phase is Committing || phase is RollingBack),
{
    match phase {
        RegPhase::CreatingTransaction => match event {
            RegEvent::Succeeded => (RegPhase::OpeningKey, RegAction::OpenKey),
            RegEvent::Failed(e) => (RegPhase::Finished, RegAction::Finish(Some(e))),
        },
        RegPhase::OpeningKey => match event {
            RegEvent::Succeeded => (RegPhase::ClearingKey, RegAction::DeleteTree),
            RegEvent::Failed(e) => if e == HRESULT_FILE_NOT_FOUND {
                (RegPhase::CreatingKey, RegAction::CreateKey)
            } else {
                (RegPhase::RollingBack, RegAction::Rollback)
            },
        },
        RegPhase::ClearingKey | RegPhase::CreatingKey => match event {
            RegEvent::Succeeded => if mode == GpuMode::NoPreference || programs == 0 {
                (RegPhase::ClosingKey, RegAction::CloseKey)
            } else {
                (RegPhase::SettingValue(0), RegAction::SetValue(0))
            },
            RegEvent::Failed(_) => (RegPhase::RollingBack, RegAction::Rollback),
        },
        RegPhase::SettingValue(i) => match event {
            RegEvent::Succeeded => if programs > 0 && i < programs - 1 {
                (RegPhase::SettingValue(i + 1), RegAction::SetValue(i + 1))
            } else {
                (RegPhase::ClosingKey, RegAction::CloseKey)
            },
            RegEvent::Failed(_) => (RegPhase::RollingBack, RegAction::Rollback),
        },
        RegPhase::ClosingKey => match event {
            RegEvent::Succeeded => (RegPhase::Committing, RegAction::Commit),
            RegEvent::Failed(_) => (RegPhase::RollingBack, RegAction::Rollback),
        },
        RegPhase::Committing | RegPhase::RollingBack => match event {
            RegEvent::Succeeded => (RegPhase::Finished, RegAction::Finish(None)),
            RegEvent::Failed(e) => (RegPhase::Finished, RegAction::Finish(Some(e))),
        },
        RegPhase::Finished => (RegPhase::Finished, RegAction::Finish(None)),
    }
}


/// The actions a registry write takes from `phase` when answered by `events`.
pub open spec fn reg_run(mode: GpuMode, programs: usize, phase: RegPhase, events: Seq<RegEvent>) -> Seq<
    RegAction,
>
    decreases events.len(),
{
    if events.len() == 0 {
        Seq::empty()
    } else {
        let (p, a) = reg_next(mode, programs, phase, events[0]);
        seq![a] + reg_run(mode, programs, p, events.drop_first())
    }
}

/// `k` successful events.
pub open spec fn all_succeed(k: nat) -> Seq<RegEvent> {
    Seq::new(k, |i: int| RegEvent::Succeeded)
}

/// `SetValue(from)`, ..., `SetValue(to - 1)`.
pub open spec fn set_values(from: nat, to: nat) -> Seq<RegAction> {
    Seq::new((to - from) as nat, |i: int| RegAction::SetValue((from + i) as usize))
}

proof fn lemma_set_values_tail(mode: GpuMode, programs: usize, i: usize)
    requires
        i < programs,
        mode != GpuMode::NoPreference,
    ensures
        reg_run(mode, programs, RegPhase::SettingValue(i), all_succeed((programs - i + 2) as nat))
            == set_values((i + 1) as nat, programs as nat) + seq![
            RegAction::CloseKey,
            RegAction::Commit,
            RegAction::Finish(None),
        ],
    decreases programs - i,
{
    let evs = all_succeed((programs - i + 2) as nat);
    assert(evs.drop_first() =~= all_succeed((programs - i + 1) as nat));
    if i + 1 < programs {
        lemma_set_values_tail(mode, programs, (i + 1) as usize);
        assert(all_succeed((programs - i + 1) as nat) == all_succeed(
            (programs - (i + 1) + 2) as nat,
        ));
        assert(set_values((i + 1) as nat, programs as nat) =~= seq![
            RegAction::SetValue((i + 1) as usize),
        ] + set_values((i + 2) as nat, programs as nat));
        assert(seq![RegAction::SetValue((i + 1) as usize)] + (set_values((i + 2) as nat, programs as nat) + seq![
            RegAction::CloseKey,
            RegAction::Commit,
            RegAction::Finish(None),
        ]) =~= set_values((i + 1) as nat, programs as nat) + seq![
            RegAction::CloseKey,
            RegAction::Commit,
            RegAction::Finish(None),
        ]);
    } else {
        let e1 = all_succeed((programs - i + 1) as nat);
        assert(e1.drop_first() =~= all_succeed(1));
        assert(all_succeed(1).drop_first() =~= all_succeed(0));
        assert(set_values((i + 1) as nat, programs as nat) =~= Seq::<RegAction>::empty());
        assert(reg_run(mode, programs, RegPhase::Finished, all_succeed(0)) =~= Seq::<RegAction>::empty());
        assert(reg_run(mode, programs, RegPhase::Committing, all_succeed(1)) =~= seq![RegAction::Finish(None)]);
        assert(reg_run(mode, programs, RegPhase::ClosingKey, e1) =~= seq![RegAction::Commit, RegAction::Finish(None)]);
    }
}

/// When the key exists and every step succeeds, a write with a preference
/// clears the key, stores the value for every program once and in order,
/// then closes the key and commits the transaction.
pub proof fn lemma_write_all_programs(mode: GpuMode, programs: usize)
    requires
        mode != GpuMode::NoPreference,
        programs > 0,
    ensures
        reg_run(mode, programs, RegPhase::OpeningKey, all_succeed((programs + 4) as nat)) == seq![
            RegAction::DeleteTree,
        ] + set_values(0, programs as nat) + seq![
            RegAction::CloseKey,
            RegAction::Commit,
            RegAction::Finish(None),
        ],
{
    let evs = all_succeed((programs + 4) as nat);
    assert(evs.drop_first() =~= all_succeed((programs + 3) as nat));
    assert(all_succeed((programs + 3) as nat).drop_first() =~= all_succeed((programs + 2) as nat));
    lemma_set_values_tail(mode, programs, 0);
    assert(set_values(0, programs as nat) =~= seq![RegAction::SetValue(0)] + set_values(1, programs as nat));
    let tail = seq![RegAction::CloseKey, RegAction::Commit, RegAction::Finish(None)];
    assert(reg_run(mode, programs, RegPhase::ClearingKey, all_succeed((programs + 3) as nat))
        == seq![RegAction::SetValue(0)] + (set_values(1, programs as nat) + tail));
    assert(seq![RegAction::DeleteTree] + (seq![RegAction::SetValue(0)] + (set_values(1, programs as nat) + tail))
        =~= seq![RegAction::DeleteTree] + set_values(0, programs as nat) + tail);
}

/// Without a preference (`reset`), no value is ever written, whatever
/// happens along the way.
pub proof fn lemma_reset_writes_nothing(
    programs: usize,
    phase: RegPhase,
    events: Seq<RegEvent>,
    j: int,
)
    requires
        !(phase is SettingValue),
        0 <= j < reg_run(GpuMode::NoPreference, programs, phase, events).len(),
    ensures
        !(reg_run(GpuMode::NoPreference, programs, phase, events)[j] is SetValue),
    decreases events.len(),
{
    let (p, a) = reg_next(GpuMode::NoPreference, programs, phase, events[0]);
    if j > 0 {
        lemma_reset_writes_nothing(programs, p, events.drop_first(), j - 1);
    }
}

/// Once rolling back, the write never commits, whatever happens next.
pub proof fn lemma_rollback_never_commits(
    mode: GpuMode,
    programs: usize,
    events: Seq<RegEvent>,
    j: int,
)
    requires
        0 <= j < reg_run(mode, programs, RegPhase::RollingBack, events).len(),
    ensures
        reg_run(mode, programs, RegPhase::RollingBack, events)[j] != RegAction::Commit,
{
    if j > 0 {
        lemma_finished_stays(mode, programs, events.drop_first(), j - 1);
    }
}

proof fn lemma_finished_stays(mode: GpuMode, programs: usize, events: Seq<RegEvent>, j: int)
    requires
        0 <= j < reg_run(mode, programs, RegPhase::Finished, events).len(),
    ensures
        reg_run(mode, programs, RegPhase::Finished, events)[j] == RegAction::Finish(None),
    decreases events.len(),
{
    if j > 0 {
        lemma_finished_stays(mode, programs, events.drop_first(), j - 1);
    }
}

/// A failure while the key is cleared, created, written or closed rolls the
/// transaction back, so no partial set of values is committed.
pub proof fn lemma_failure_rolls_back(mode: GpuMode, programs: usize, phase: RegPhase, code: i32)
    requires
        phase is ClearingKey || phase is CreatingKey || phase is SettingValue || phase is ClosingKey,
    ensures
        reg_next(mode, programs, phase, RegEvent::Failed(code)) == (
            RegPhase::RollingBack,
            RegAction::Rollback,
        ),
{
}


/// The values held under the preferences key: program name to stored data;
/// `None` when the key does not exist.
pub type KeyContents = Option<Map<Seq<u16>, Seq<u8>>>;

/// The preferences key as committed, and as seen inside the transaction.
pub struct KeyState {
    pub committed: KeyContents,
    pub working: KeyContents,
}

/// What the action answered in `phase` does to the key when it succeeds:
/// creating the transaction starts from the committed key; clearing the key
/// empties it; creating it makes an empty key where there was none; setting
/// a value stores `value` under the program's name; committing makes the
/// transaction's key the committed one; rolling back drops it. A failed
/// action changes nothing.
pub open spec fn phase_effect(
    st: KeyState,
    phase: RegPhase,
    event: RegEvent,
    names: Seq<Seq<u16>>,
    value: Seq<u8>,
) -> KeyState {
    match event {
        RegEvent::Failed(_) => st,
        RegEvent::Succeeded => match phase {
            RegPhase::CreatingTransaction => KeyState { working: st.committed, ..st },
            RegPhase::ClearingKey => KeyState { working: Some(Map::empty()), ..st },
            RegPhase::CreatingKey => KeyState {
                working: match st.working {
                    Some(m) => Some(m),
                    None => Some(Map::empty()),
                },
                ..st
            },
            RegPhase::SettingValue(i) => KeyState {
                working: match st.working {
                    Some(m) => Some(m.insert(names[i as int], value)),
                    None => None,
                },
                ..st
            },
            RegPhase::Committing => KeyState { committed: st.working, ..st },
            RegPhase::RollingBack => KeyState { working: st.committed, ..st },
            _ => st,
        },
    }
}

/// The data stored for every program under `mode` (nothing for a reset).
pub open spec fn stored_value(mode: GpuMode) -> Seq<u8> {
    match preference_value(mode) {
        Some(v) => v,
        None => Seq::empty(),
    }
}

/// The key after a registry write of `mode` for the programs `names`, from
/// `phase`, answered by `events`.
pub open spec fn reg_key_run(
    mode: GpuMode,
    names: Seq<Seq<u16>>,
    phase: RegPhase,
    events: Seq<RegEvent>,
    st: KeyState,
) -> KeyState
    decreases events.len(),
{
    if events.len() == 0 {
        st
    } else {
        let (p, a) = reg_next(mode, names.len() as usize, phase, events[0]);
        reg_key_run(
            mode,
            names,
            p,
            events.drop_first(),
            phase_effect(st, phase, events[0], names, stored_value(mode)),
        )
    }
}

/// The answers to a write in which every registry call succeeds, on a key
/// that exists or not: opening a missing key fails with "file not found".
pub open spec fn success_events(key_exists: bool, programs: nat) -> Seq<RegEvent> {
    seq![
        RegEvent::Succeeded,
        if key_exists {
            RegEvent::Succeeded
        } else {
            RegEvent::Failed(HRESULT_FILE_NOT_FOUND)
        },
    ] + all_succeed(programs + 3)
}

/// The committed key after a write of `mode` for `names` in which every
/// registry call succeeds, from the key `key`.
pub open spec fn write_key(key: KeyContents, mode: GpuMode, names: Seq<Seq<u16>>) -> KeyContents {
    reg_key_run(
        mode,
        names,
        RegPhase::CreatingTransaction,
        success_events(key is Some, names.len()),
        KeyState { committed: key, working: key },
    ).committed
}

/// `m` with `value` stored under `names[i]`, ..., `names[len - 1]`, in that order.
pub open spec fn set_all(
    m: Map<Seq<u16>, Seq<u8>>,
    names: Seq<Seq<u16>>,
    i: int,
    value: Seq<u8>,
) -> Map<Seq<u16>, Seq<u8>>
    decreases names.len() - i,
{
    if i < 0 || i >= names.len() {
        m
    } else {
        set_all(m.insert(names[i], value), names, i + 1, value)
    }
}

/// The values a write of `mode` leaves: the preference value under every
/// program's name, and nothing else.
pub open spec fn written_values(mode: GpuMode, names: Seq<Seq<u16>>) -> Map<Seq<u16>, Seq<u8>> {
    match preference_value(mode) {
        Some(v) => set_all(Map::empty(), names, 0, v),
        None => Map::empty(),
    }
}

proof fn lemma_key_finished(
    mode: GpuMode,
    names: Seq<Seq<u16>>,
    events: Seq<RegEvent>,
    st: KeyState,
)
    ensures
        reg_key_run(mode, names, RegPhase::Finished, events, st) == st,
    decreases events.len(),
{
    if events.len() > 0 {
        lemma_key_finished(mode, names, events.drop_first(), st);
    }
}

proof fn lemma_key_closing(mode: GpuMode, names: Seq<Seq<u16>>, k: nat, st: KeyState)
    requires
        k >= 2,
    ensures
        reg_key_run(mode, names, RegPhase::ClosingKey, all_succeed(k), st).committed == st.working,
{
    let e = all_succeed(k);
    assert(e.drop_first() =~= all_succeed((k - 1) as nat));
    assert(all_succeed((k - 1) as nat).drop_first() =~= all_succeed((k - 2) as nat));
    let st2 = phase_effect(st, RegPhase::Committing, RegEvent::Succeeded, names, stored_value(mode));
    lemma_key_finished(mode, names, all_succeed((k - 2) as nat), st2);
    assert(e[0] == RegEvent::Succeeded);
    assert(phase_effect(st, RegPhase::ClosingKey, e[0], names, stored_value(mode)) == st);
    assert(reg_key_run(mode, names, RegPhase::ClosingKey, e, st) == reg_key_run(
        mode,
        names,
        RegPhase::Committing,
        all_succeed((k - 1) as nat),
        st,
    ));
    assert(all_succeed((k - 1) as nat)[0] == RegEvent::Succeeded);
    assert(reg_key_run(mode, names, RegPhase::Committing, all_succeed((k - 1) as nat), st)
        == reg_key_run(mode, names, RegPhase::Finished, all_succeed((k - 2) as nat), st2));
}

proof fn lemma_key_setting(
    mode: GpuMode,
    names: Seq<Seq<u16>>,
    i: int,
    k: nat,
    st: KeyState,
    m: Map<Seq<u16>, Seq<u8>>,
)
    requires
        0 <= i < names.len() <= usize::MAX,
        k >= names.len() - i + 2,
        st.working == Some(m),
    ensures
        reg_key_run(mode, names, RegPhase::SettingValue(i as usize), all_succeed(k), st).committed
            == Some(set_all(m, names, i, stored_value(mode))),
    decreases names.len() - i,
{
    let n = names.len();
    let v = stored_value(mode);
    let e = all_succeed(k);
    assert(e.drop_first() =~= all_succeed((k - 1) as nat));
    let st2 = phase_effect(st, RegPhase::SettingValue(i as usize), RegEvent::Succeeded, names, v);
    assert(st2.working == Some(m.insert(names[i], v)));
    if i + 1 < n {
        lemma_key_setting(mode, names, i + 1, (k - 1) as nat, st2, m.insert(names[i], v));
    } else {
        lemma_key_closing(mode, names, (k - 1) as nat, st2);
        assert(set_all(m.insert(names[i], v), names, i + 1, v) == m.insert(names[i], v));
    }
}

/// A write in which every registry call succeeds leaves the key holding
/// exactly the preference value under every program's name (and an empty
/// key for a reset), whatever the key held before, and whether it existed.
pub proof fn lemma_successful_write_key(key: KeyContents, mode: GpuMode, names: Seq<Seq<u16>>)
    requires
        names.len() <= usize::MAX,
    ensures
        write_key(key, mode, names) == Some(written_values(mode, names)),
{
    let n = names.len();
    let v = stored_value(mode);
    let evs = success_events(key is Some, n);
    let st0 = KeyState { committed: key, working: key };
    let rest = all_succeed(n + 3);
    assert(evs.drop_first() =~= seq![evs[1]] + rest);
    assert((seq![evs[1]] + rest).drop_first() =~= rest);
    let st1 = phase_effect(st0, RegPhase::CreatingTransaction, RegEvent::Succeeded, names, v);
    let ready = if key is Some {
        RegPhase::ClearingKey
    } else {
        RegPhase::CreatingKey
    };
    assert(reg_next(mode, n as usize, RegPhase::OpeningKey, evs[1]).0 == ready);
    let st2 = phase_effect(st1, RegPhase::OpeningKey, evs[1], names, v);
    assert(st2 == st1);
    assert(evs[0] == RegEvent::Succeeded);
    assert(reg_key_run(mode, names, RegPhase::CreatingTransaction, evs, st0) == reg_key_run(
        mode,
        names,
        RegPhase::OpeningKey,
        seq![evs[1]] + rest,
        st1,
    ));
    assert((seq![evs[1]] + rest)[0] == evs[1]);
    assert(reg_key_run(mode, names, RegPhase::CreatingTransaction, evs, st0) == reg_key_run(
        mode,
        names,
        ready,
        rest,
        st2,
    ));
    let st3 = phase_effect(st2, ready, RegEvent::Succeeded, names, v);
    assert(st3.working == Some(Map::<Seq<u16>, Seq<u8>>::empty()));
    assert(rest.drop_first() =~= all_succeed(n + 2));
    if mode != GpuMode::NoPreference && n > 0 {
        lemma_key_setting(mode, names, 0, n + 2, st3, Map::empty());
    } else {
        lemma_key_closing(mode, names, n + 2, st3);
        if n == 0 {
            assert(set_all(Map::empty(), names, 0, v) == Map::<Seq<u16>, Seq<u8>>::empty());
        }
    }
}

/// Writing the same programs with the same mode twice, every registry call
/// succeeding, leaves the key as the first write left it: the key is
/// cleared before the values are stored, so repeating changes nothing.
pub proof fn lemma_write_twice_same(key: KeyContents, mode: GpuMode, names: Seq<Seq<u16>>)
    requires
        names.len() <= usize::MAX,
    ensures
        write_key(write_key(key, mode, names), mode, names) == write_key(key, mode, names),
{
    lemma_successful_write_key(key, mode, names);
    lemma_successful_write_key(write_key(key, mode, names), mode, names);
}

/// The values a write leaves: a program's name holds the preference value
/// exactly when it is among the programs.
pub proof fn lemma_written_values(mode: GpuMode, names: Seq<Seq<u16>>)
    requires
        mode != GpuMode::NoPreference,
    ensures
        forall|x: Seq<u16>| #[trigger] written_values(mode, names).contains_key(x) <==> names.contains(x),
        forall|x: Seq<u16>|
            #[trigger] written_values(mode, names).contains_key(x) ==> written_values(mode, names)[x]
                == stored_value(mode),
{
    lemma_set_all(Map::empty(), names, 0, stored_value(mode));
    assert forall|x: Seq<u16>| #[trigger] written_values(mode, names).contains_key(x) <==> names.contains(x) by {
        if names.contains(x) {
            let j = choose|j: int| 0 <= j < names.len() && names[j] == x;
            assert(0 <= j < names.len() && names[j] == x);
        }
        if named_from(names, 0, x) {
            let j = choose|j: int| 0 <= j < names.len() && names[j] == x;
            assert(names[j] == x);
        }
    }
}

/// Whether `x` is one of `names[i]`, ..., `names[len - 1]`.
spec fn named_from(names: Seq<Seq<u16>>, i: int, x: Seq<u16>) -> bool {
    exists|j: int| i <= j < names.len() && names[j] == x
}

proof fn lemma_set_all(m: Map<Seq<u16>, Seq<u8>>, names: Seq<Seq<u16>>, i: int, value: Seq<u8>)
    requires
        0 <= i,
    ensures
        forall|x: Seq<u16>|
            #[trigger] set_all(m, names, i, value).contains_key(x) <==> (m.contains_key(x)
                || named_from(names, i, x)),
        forall|x: Seq<u16>|
            #[trigger] set_all(m, names, i, value).contains_key(x) ==> set_all(m, names, i, value)[x]
                == if named_from(names, i, x) {
                value
            } else {
                m[x]
            },
    decreases names.len() - i,
{
    if i < names.len() {
        let m2 = m.insert(names[i], value);
        lemma_set_all(m2, names, i + 1, value);
        assert forall|x: Seq<u16>|
            #[trigger] named_from(names, i, x) <==> (x == names[i] || named_from(names, i + 1, x)) by {
            if named_from(names, i, x) {
                let j = choose|j: int| i <= j < names.len() && names[j] == x;
                if j > i {
                    assert(i + 1 <= j < names.len() && names[j] == x);
                }
            }
            if x == names[i] {
                assert(i <= i < names.len() && names[i] == x);
            }
            if named_from(names, i + 1, x) {
                let j = choose|j: int| i + 1 <= j < names.len() && names[j] == x;
                assert(i <= j < names.len() && names[j] == x);
            }
        }
        let r = set_all(m, names, i, value);
        assert(r == set_all(m2, names, i + 1, value));
        assert forall|x: Seq<u16>| #[trigger] r.contains_key(x) <==> (m.contains_key(x)
            || named_from(names, i, x)) by {
            assert(set_all(m2, names, i + 1, value).contains_key(x) <==> (m2.contains_key(x)
                || named_from(names, i + 1, x)));
            assert(named_from(names, i, x) <==> (x == names[i] || named_from(names, i + 1, x)));
        }
        assert forall|x: Seq<u16>| #[trigger] r.contains_key(x) implies r[x] == if named_from(names, i, x) {
            value
        } else {
            m[x]
        } by {
            assert(set_all(m2, names, i + 1, value).contains_key(x));
            assert(named_from(names, i, x) <==> (x == names[i] || named_from(names, i + 1, x)));
        }
    } else {
        assert forall|x: Seq<u16>| !#[trigger] named_from(names, i, x) by {}
    }
}


/// A failure is never reported as success: a failed commit (or rollback) is
/// reported with its `HRESULT`, and the write finishes with `Finish(None)`
/// only right after a commit or a rollback that succeeded.
pub proof fn lemma_failure_is_reported(
    mode: GpuMode,
    programs: usize,
    phase: RegPhase,
    event: RegEvent,
    code: i32,
)
    ensures
        reg_next(mode, programs, RegPhase::Committing, RegEvent::Failed(code)) == (
            RegPhase::Finished,
            RegAction::Finish(Some(code)),
        ),
        reg_next(mode, programs, RegPhase::RollingBack, RegEvent::Failed(code)) == (
            RegPhase::Finished,
            RegAction::Finish(Some(code)),
        ),
        !(phase is Finished) && reg_next(mode, programs, phase, event).1 == RegAction::Finish(None)
            ==> event == RegEvent::Succeeded && (phase is Committing || phase is RollingBack),
        reg_next(mode, programs, phase, RegEvent::Failed(code)).1 != RegAction::Finish(None)
            || phase is Finished,
{
}

} // verus!
