use win_global_gpu::commands::{command_mode, parse_command, set_programs, Command, ProgramStore, SetProgramsError};
use win_global_gpu::drives::{drives_from_buffer, DriveError};
use win_global_gpu::instance::{instance_start, instance_step, InstanceAction, InstanceEvent, InstancePhase};
use win_global_gpu::power::{classify_message, power_action_mode, power_source_action, MessageKind, PowerAction};
use win_global_gpu::registry::{
    gpu_preference_value, registry_start, registry_step, GpuMode, RegAction, RegEvent, RegPhase,
    HRESULT_FILE_NOT_FOUND,
};
use win_global_gpu::volume::{
    check_file_system, collect_volume_files, path_from_final_name, volume_display_name,
    volume_from_buffer, FileSystemError, FinalPathError,
};
use win_global_gpu::wide::WideString;

fn units(s: &str) -> Vec<u16> {
    s.encode_utf16().collect()
}

fn padded(s: &str, n: usize) -> Vec<u16> {
    let mut v = units(s);
    v.resize(n, 0);
    v
}

#[test]
fn display_name_falls_back_to_volume() {
    let vol = WideString::from_str("\\\\?\\Volume{1234}");
    let named = volume_display_name(&padded("Data", 261), &vol);
    assert_eq!(named.as_wide(), units("Data").as_slice());
    let unnamed = volume_display_name(&[0u16; 261], &vol);
    assert_eq!(unnamed.as_wide(), vol.as_wide());
}

#[test]
fn only_ntfs_is_scanned() {
    assert!(check_file_system(&padded("NTFS", 261)).is_ok());
    match check_file_system(&padded("FAT32", 261)) {
        Err(FileSystemError::NotNtfs(fs)) => assert_eq!(fs.as_wide(), units("FAT32").as_slice()),
        _ => panic!("expected NotNtfs"),
    }
    assert!(check_file_system(&padded("ntfs", 261)).is_err());
}

#[test]
fn volume_path_loses_trailing_backslash() {
    let v = volume_from_buffer(&padded("\\\\?\\Volume{abc}\\", 260)).unwrap();
    assert_eq!(v.as_wide(), units("\\\\?\\Volume{abc}").as_slice());
}

#[test]
fn final_path_name() {
    let buf = padded("\\\\?\\C:\\", 16);
    assert!(matches!(path_from_final_name(&buf, 0, 5), Err(FinalPathError::Failed(5))));
    let p = path_from_final_name(&buf, 7, 5).unwrap();
    assert_eq!(p.as_wide(), units("\\\\?\\C:\\").as_slice());
}

#[test]
fn volume_files_are_gathered_in_order() {
    let results: Vec<Result<Vec<WideString>, String>> = vec![
        Ok(vec![WideString::from_str("a.exe")]),
        Err("not NTFS".to_string()),
        Ok(vec![WideString::from_str("b.exe"), WideString::from_str("c.exe")]),
    ];
    let files = collect_volume_files(&results).ok().unwrap();
    assert_eq!(files.len(), 3);
    assert_eq!(files[2].as_wide(), units("c.exe").as_slice());
    let none: Vec<Result<Vec<WideString>, String>> = vec![Err("x".to_string()), Ok(vec![])];
    assert!(collect_volume_files(&none).is_err());
}

fn utf16_bytes(s: &str) -> Vec<u8> {
    let mut v: Vec<u8> = s.encode_utf16().flat_map(|u| u.to_le_bytes()).collect();
    v.push(0);
    v.push(0);
    v
}

#[test]
fn preference_values() {
    assert_eq!(gpu_preference_value(GpuMode::Dedicated), Some(utf16_bytes("GpuPreference=2;")));
    assert_eq!(gpu_preference_value(GpuMode::Integrated), Some(utf16_bytes("GpuPreference=1;")));
    assert_eq!(gpu_preference_value(GpuMode::NoPreference), None);
    let v = gpu_preference_value(GpuMode::Dedicated).unwrap();
    assert_eq!(v.len(), 34);
    assert_eq!(&v[0..4], &[b'G', 0, b'p', 0]);
}

fn run_registry(mode: GpuMode, programs: usize, events: &[RegEvent]) -> Vec<RegAction> {
    let (mut phase, first) = registry_start();
    let mut actions = vec![first];
    for e in events {
        let (p, a) = registry_step(mode, programs, phase, *e);
        phase = p;
        actions.push(a);
    }
    actions
}

#[test]
fn registry_happy_path_writes_every_program() {
    let ok = RegEvent::Succeeded;
    let a = run_registry(GpuMode::Dedicated, 2, &[ok, ok, ok, ok, ok, ok, ok, ok]);
    assert_eq!(
        a,
        vec![
            RegAction::CreateTransaction,
            RegAction::OpenKey,
            RegAction::DeleteTree,
            RegAction::SetValue(0),
            RegAction::SetValue(1),
            RegAction::CloseKey,
            RegAction::Commit,
            RegAction::Finish(None),
            RegAction::Finish(None),
        ]
    );
}

#[test]
fn registry_creates_missing_key() {
    let ok = RegEvent::Succeeded;
    let a = run_registry(GpuMode::Integrated, 1, &[ok, RegEvent::Failed(HRESULT_FILE_NOT_FOUND), ok, ok, ok, ok]);
    assert_eq!(
        a,
        vec![
            RegAction::CreateTransaction,
            RegAction::OpenKey,
            RegAction::CreateKey,
            RegAction::SetValue(0),
            RegAction::CloseKey,
            RegAction::Commit,
            RegAction::Finish(None),
        ]
    );
}

#[test]
fn registry_reset_only_clears() {
    let ok = RegEvent::Succeeded;
    let a = run_registry(GpuMode::NoPreference, 0, &[ok, ok, ok, ok, ok]);
    assert_eq!(
        a,
        vec![
            RegAction::CreateTransaction,
            RegAction::OpenKey,
            RegAction::DeleteTree,
            RegAction::CloseKey,
            RegAction::Commit,
            RegAction::Finish(None),
        ]
    );
    let b = run_registry(GpuMode::NoPreference, 3, &[ok, ok, ok]);
    assert!(!b.iter().any(|x| matches!(x, RegAction::SetValue(_))));
}

#[test]
fn registry_failure_rolls_back() {
    let ok = RegEvent::Succeeded;
    let a = run_registry(GpuMode::Dedicated, 3, &[ok, ok, ok, RegEvent::Failed(5), ok]);
    assert_eq!(
        a,
        vec![
            RegAction::CreateTransaction,
            RegAction::OpenKey,
            RegAction::DeleteTree,
            RegAction::SetValue(0),
            RegAction::Rollback,
            RegAction::Finish(None),
        ]
    );
    let b = run_registry(GpuMode::Dedicated, 1, &[ok, RegEvent::Failed(-7)]);
    assert_eq!(b.last(), Some(&RegAction::Rollback));
    let c = run_registry(GpuMode::Dedicated, 1, &[RegEvent::Failed(-9)]);
    assert_eq!(c.last(), Some(&RegAction::Finish(Some(-9))));
    let (p, a) = registry_step(GpuMode::Dedicated, 1, RegPhase::RollingBack, RegEvent::Failed(-3));
    assert_eq!((p, a), (RegPhase::Finished, RegAction::Finish(Some(-3))));
}

#[test]
fn power_messages() {
    assert_eq!(classify_message(536, 10), MessageKind::PowerSourceChange);
    assert_eq!(classify_message(536, 32787), MessageKind::PowerSourceChange);
    assert_eq!(classify_message(536, 4), MessageKind::OtherPowerBroadcast);
    assert_eq!(classify_message(15, 10), MessageKind::Other);
    assert_eq!(power_source_action(0), PowerAction::Plug);
    assert_eq!(power_source_action(1), PowerAction::Unplug);
    assert_eq!(power_source_action(2), PowerAction::Unplug);
}

fn run_instance(events: &[InstanceEvent]) -> Vec<InstanceAction> {
    let (mut phase, first) = instance_start();
    let mut actions = vec![first];
    for e in events {
        let (p, a) = instance_step(phase, *e);
        phase = p;
        actions.push(a);
    }
    actions
}

#[test]
fn older_instance_is_terminated() {
    let ok = InstanceEvent::Succeeded;
    let a = run_instance(&[ok, InstanceEvent::PidRead(1234), ok, ok, ok, ok, ok]);
    assert_eq!(
        a,
        vec![
            InstanceAction::OpenMapping,
            InstanceAction::ReadPid,
            InstanceAction::OpenProcess(1234),
            InstanceAction::Terminate,
            InstanceAction::Unmap,
            InstanceAction::CloseProcess,
            InstanceAction::WritePid,
            InstanceAction::Done(true),
        ]
    );
}

#[test]
fn first_instance_claims_memory() {
    let a = run_instance(&[InstanceEvent::Failed(HRESULT_FILE_NOT_FOUND), InstanceEvent::Succeeded]);
    assert_eq!(a, vec![InstanceAction::OpenMapping, InstanceAction::WritePid, InstanceAction::Done(false)]);
    let b = run_instance(&[InstanceEvent::Failed(-5)]);
    assert_eq!(b.last(), Some(&InstanceAction::Abort(-5)));
    let c = run_instance(&[InstanceEvent::Succeeded, InstanceEvent::PidRead(9), InstanceEvent::Failed(-1)]);
    assert_eq!(c.last(), Some(&InstanceAction::Abort(-1)));
    assert_eq!(instance_step(InstancePhase::ReadingPid, InstanceEvent::Succeeded).1, InstanceAction::Abort(0));
}

#[test]
fn drive_strings_are_split() {
    let mut buf = [0u8; 512];
    buf[..8].copy_from_slice(b"C:\\\0D:\\\0");
    assert_eq!(drives_from_buffer(&buf, 8), Ok(vec!["C:\\".to_string(), "D:\\".to_string()]));
    assert_eq!(drives_from_buffer(&buf, 0), Err(DriveError::ReadFailed));
    assert_eq!(
        drives_from_buffer(&buf, 600),
        Err(DriveError::BufferTooSmall { needed: 600, size: 512 })
    );
    assert_eq!(drives_from_buffer(&buf, 6), Err(DriveError::MissingNul));
    let bad = [0xFFu8, 0];
    assert_eq!(drives_from_buffer(&bad, 2), Err(DriveError::InvalidUtf8));
}

#[test]
fn command_line() {
    assert_eq!(parse_command(None), Command::Run);
    assert_eq!(parse_command(Some("shutdown")), Command::Shutdown);
    assert_eq!(parse_command(Some("dedicated")), Command::Dedicated);
    assert_eq!(parse_command(Some("integrated")), Command::Integrated);
    assert_eq!(parse_command(Some("reset")), Command::Reset);
    assert_eq!(parse_command(Some("help")), Command::Help);
    assert_eq!(parse_command(Some("about")), Command::About);
    assert_eq!(parse_command(Some("Dedicated")), Command::Invalid);
    assert_eq!(parse_command(Some("")), Command::Invalid);
}

#[test]
fn programs_are_stored_once() {
    let mut store = ProgramStore::new();
    assert!(store.get().is_none());
    let first: Result<Vec<WideString>, String> = Ok(vec![WideString::from_str("a.exe")]);
    assert!(set_programs(&mut store, first).is_ok());
    let second: Result<Vec<WideString>, String> = Ok(vec![]);
    assert!(matches!(set_programs(&mut store, second), Err(SetProgramsError::AlreadyStored)));
    assert_eq!(store.get().unwrap().len(), 1);
    let failed: Result<Vec<WideString>, String> = Err("scan".to_string());
    match set_programs(&mut store, failed) {
        Err(SetProgramsError::Scan(e)) => assert_eq!(e, "scan"),
        _ => panic!("expected the scan error"),
    }
}

#[test]
fn preference_value_reads_back_as_text() {
    let v = gpu_preference_value(GpuMode::Integrated).unwrap();
    let words = win_global_gpu::hstring_utils::bytes_to_words(&v[..v.len() - 2]);
    assert_eq!(words, units("GpuPreference=1;"));
    assert_eq!(&v[v.len() - 2..], &[0u8, 0]);
}

#[test]
fn wall_power_means_dedicated_gpu() {
    assert_eq!(power_action_mode(power_source_action(0)), GpuMode::Dedicated);
    assert_eq!(power_action_mode(power_source_action(1)), GpuMode::Integrated);
    assert_eq!(power_action_mode(power_source_action(2)), GpuMode::Integrated);
}

#[test]
fn commands_write_their_mode() {
    assert_eq!(command_mode(Command::Dedicated), Some(GpuMode::Dedicated));
    assert_eq!(command_mode(Command::Integrated), Some(GpuMode::Integrated));
    assert_eq!(command_mode(Command::Reset), Some(GpuMode::NoPreference));
    assert_eq!(command_mode(Command::Help), None);
    assert_eq!(command_mode(Command::Run), None);
}

/// Runs one write in which every registry call succeeds against a key held
/// as a map from program index to data (`None` when the key is missing),
/// and returns the key afterwards.
fn write_against(
    key: Option<std::collections::BTreeMap<usize, Vec<u8>>>,
    mode: GpuMode,
    programs: usize,
) -> Option<std::collections::BTreeMap<usize, Vec<u8>>> {
    let value = gpu_preference_value(mode).unwrap_or_default();
    let mut working = key.clone();
    let mut committed = key;
    let (mut phase, mut action) = registry_start();
    loop {
        let event = match action {
            RegAction::CreateTransaction => {
                working = committed.clone();
                RegEvent::Succeeded
            }
            RegAction::OpenKey => {
                if working.is_some() {
                    RegEvent::Succeeded
                } else {
                    RegEvent::Failed(HRESULT_FILE_NOT_FOUND)
                }
            }
            RegAction::DeleteTree | RegAction::CreateKey => {
                working = Some(Default::default());
                RegEvent::Succeeded
            }
            RegAction::SetValue(i) => {
                working.as_mut().unwrap().insert(i, value.clone());
                RegEvent::Succeeded
            }
            RegAction::CloseKey => RegEvent::Succeeded,
            RegAction::Commit => {
                committed = working.clone();
                RegEvent::Succeeded
            }
            RegAction::Rollback => RegEvent::Succeeded,
            RegAction::Finish(_) => return committed,
        };
        (phase, action) = registry_step(mode, programs, phase, event);
    }
}

#[test]
fn writing_twice_leaves_the_key_as_once() {
    let mut stale = std::collections::BTreeMap::new();
    stale.insert(7usize, vec![1u8, 2]);
    for start in [None, Some(stale)] {
        let once = write_against(start, GpuMode::Integrated, 3);
        let twice = write_against(once.clone(), GpuMode::Integrated, 3);
        assert_eq!(once, twice);
        let key = once.unwrap();
        assert_eq!(key.keys().copied().collect::<Vec<_>>(), vec![0, 1, 2]);
        assert!(key.values().all(|v| Some(v.clone()) == gpu_preference_value(GpuMode::Integrated)));
    }
    let reset = write_against(None, GpuMode::NoPreference, 3);
    assert_eq!(reset, Some(Default::default()));
}

#[test]
fn programs_are_apps_then_files() {
    let apps = vec![WideString::from_str("App.Id!App")];
    let files = vec![WideString::from_str("C:\\a.exe"), WideString::from_str("C:\\b.exe")];
    let all = win_global_gpu::commands::all_programs(apps, files);
    let got: Vec<Vec<u16>> = all.iter().map(|w| w.as_wide().to_vec()).collect();
    assert_eq!(got, vec![units("App.Id!App"), units("C:\\a.exe"), units("C:\\b.exe")]);
}
