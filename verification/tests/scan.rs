use win_global_gpu::exe_paths::{CollectAction, ExeCollector, LookupAnswer};
use win_global_gpu::usn::{parse_usn_buffer, usn_buffer_is_readable};
use win_global_gpu::volume_scan::{clean_path, MiniFile, Resolution, VolumeScan};
use win_global_gpu::wide::WideString;

fn units(s: &str) -> Vec<u16> {
    s.encode_utf16().collect()
}

/// One `USN_RECORD_V2` with its name right after the fixed part.
fn record(reference: u64, parent: u64, attributes: u32, name: &str) -> Vec<u8> {
    let name_bytes: Vec<u8> = name.encode_utf16().flat_map(|u| u.to_le_bytes()).collect();
    let len = 64 + name_bytes.len();
    let padded = (len + 7) / 8 * 8;
    let mut r = vec![0u8; padded];
    r[0..4].copy_from_slice(&(padded as u32).to_le_bytes());
    r[4..6].copy_from_slice(&2u16.to_le_bytes());
    r[8..16].copy_from_slice(&reference.to_le_bytes());
    r[16..24].copy_from_slice(&parent.to_le_bytes());
    r[52..56].copy_from_slice(&attributes.to_le_bytes());
    r[56..58].copy_from_slice(&(name_bytes.len() as u16).to_le_bytes());
    r[58..60].copy_from_slice(&60u16.to_le_bytes());
    r[60..60 + name_bytes.len()].copy_from_slice(&name_bytes);
    r
}

fn buffer(next: u64, records: &[Vec<u8>]) -> (Vec<u8>, u32) {
    let mut b = next.to_le_bytes().to_vec();
    for r in records {
        b.extend_from_slice(r);
    }
    let used = b.len() as u32;
    b.resize(0x10008, 0);
    (b, used)
}

fn path_of(r: Resolution) -> Vec<u16> {
    match r {
        Resolution::Path(p) => p.as_wide().to_vec(),
        _ => panic!("no path"),
    }
}

#[test]
fn parse_reads_every_record() {
    let (b, used) = buffer(
        77,
        &[record(40, 5, 16, "Games"), record(41, 40, 32, "game.exe"), record(42, 40, 32, "x.txt")],
    );
    assert!(usn_buffer_is_readable(&b, used));
    let batch = parse_usn_buffer(&b, used);
    assert_eq!(batch.next_start, 77);
    assert_eq!(batch.records.len(), 3);
    assert_eq!(batch.records[0].reference, 40);
    assert_eq!(batch.records[0].parent, 5);
    assert_eq!(batch.records[0].attributes, 16);
    assert_eq!(batch.records[1].name.as_wide(), units("game.exe").as_slice());
    assert_eq!(batch.records[2].reference, 42);
}

#[test]
fn parse_of_empty_buffer() {
    let (b, used) = buffer(9, &[]);
    let batch = parse_usn_buffer(&b, used);
    assert_eq!(batch.next_start, 9);
    assert!(batch.records.is_empty());
}

#[test]
fn unreadable_buffers_are_detected() {
    let mut zero_len = record(1, 5, 32, "a.exe");
    zero_len[0..4].copy_from_slice(&0u32.to_le_bytes());
    let (b, used) = buffer(0, &[zero_len]);
    assert!(!usn_buffer_is_readable(&b, used));

    let mut odd = record(1, 5, 32, "a.exe");
    odd[56..58].copy_from_slice(&3u16.to_le_bytes());
    let (b, used) = buffer(0, &[odd]);
    assert!(!usn_buffer_is_readable(&b, used));

    let mut far = record(1, 5, 32, "a.exe");
    far[58..60].copy_from_slice(&0xFFF0u16.to_le_bytes());
    let (mut b, used) = buffer(0, &[far]);
    b.truncate(used as usize);
    assert!(!usn_buffer_is_readable(&b, used));

    assert!(!usn_buffer_is_readable(&[0u8; 4], 0));
}

#[test]
fn ingest_keeps_dirs_and_exes() {
    let (b, used) = buffer(
        0,
        &[
            record(40, 5, 16, "Games"),
            record(41, 40, 32, "game.exe"),
            record(42, 40, 32, "notes.txt"),
            record(43, 40, 32, "UPPER.EXE"),
            record(44, 40, 16, "tools.exe"),
        ],
    );
    let batch = parse_usn_buffer(&b, used);
    let mut scan = VolumeScan::new();
    scan.ingest(&batch);
    assert_eq!(scan.exe_count(), 1);
    assert_eq!(scan.dir_count(), 2);
    let exes = scan.take_exes();
    assert_eq!(exes[0].name.as_wide(), units("game.exe").as_slice());
    assert_eq!(exes[0].parent, 40);
    assert_eq!(scan.exe_count(), 0);
}

#[test]
fn resolve_asks_for_the_root_then_builds_the_path() {
    let (b, used) = buffer(
        0,
        &[record(40, 5, 16, "Games"), record(45, 40, 16, "Sub"), record(41, 45, 32, "game.exe")],
    );
    let mut scan = VolumeScan::new();
    scan.ingest(&parse_usn_buffer(&b, used));
    let exes = scan.take_exes();
    match scan.resolve(&exes[0]) {
        Resolution::NeedPath(id) => assert_eq!(id, 5),
        _ => panic!("expected a lookup"),
    }
    scan.add_known_dir(5, WideString::from_str("\\\\?\\C:\\"));
    let p = path_of(scan.resolve(&exes[0]));
    assert_eq!(p, units("C:\\Games\\Sub\\game.exe"));
    // The directories on the way now have their paths: a sibling needs no lookup.
    let sibling = MiniFile { name: WideString::from_str("other.exe"), parent: 45 };
    assert_eq!(path_of(scan.resolve(&sibling)), units("C:\\Games\\Sub\\other.exe"));
    assert_eq!(scan.dir_count(), 3);
}

#[test]
fn resolve_reports_a_cycle() {
    let (b, used) = buffer(0, &[record(40, 45, 16, "A"), record(45, 40, 16, "B")]);
    let mut scan = VolumeScan::new();
    scan.ingest(&parse_usn_buffer(&b, used));
    let f = MiniFile { name: WideString::from_str("x.exe"), parent: 40 };
    assert!(matches!(scan.resolve(&f), Resolution::Cyclic));
}

#[test]
fn clean_path_strips_prefix_and_doubles() {
    let c = clean_path(WideString::from_str("\\\\?\\C:\\\\Program Files\\a.exe")).unwrap();
    assert_eq!(c.as_wide(), units("C:\\Program Files\\a.exe").as_slice());
    let plain = clean_path(WideString::from_str("C:\\a.exe")).unwrap();
    assert_eq!(plain.as_wide(), units("C:\\a.exe").as_slice());
}

#[test]
fn resolving_in_any_order_gives_the_same_paths() {
    let recs = [record(40, 5, 16, "A"), record(45, 40, 16, "B"), record(41, 45, 32, "x.exe"), record(42, 40, 32, "y.exe")];
    let (b, used) = buffer(0, &recs);
    let mut paths = vec![];
    for order in [[0usize, 1], [1, 0]] {
        let mut scan = VolumeScan::new();
        scan.ingest(&parse_usn_buffer(&b, used));
        scan.add_known_dir(5, WideString::from_str("D:\\"));
        let exes = scan.take_exes();
        let mut got = vec![vec![]; 2];
        for &i in &order {
            got[i] = path_of(scan.resolve(&exes[i]));
        }
        paths.push(got);
    }
    assert_eq!(paths[0], paths[1]);
    assert_eq!(paths[0][0], units("D:\\A\\B\\x.exe"));
    assert_eq!(paths[0][1], units("D:\\A\\y.exe"));
}

#[test]
fn later_directory_record_wins() {
    let (b, used) = buffer(0, &[record(40, 5, 16, "Old"), record(40, 5, 16, "New"), record(41, 40, 32, "z.exe")]);
    let mut scan = VolumeScan::new();
    scan.ingest(&parse_usn_buffer(&b, used));
    assert_eq!(scan.dir_count(), 1);
    scan.add_known_dir(5, WideString::from_str("E:"));
    let exes = scan.take_exes();
    assert_eq!(path_of(scan.resolve(&exes[0])), units("E:\\New\\z.exe"));
}

#[test]
fn ingest_over_several_buffers_appends() {
    let (b1, u1) = buffer(100, &[record(41, 40, 32, "a.exe")]);
    let (b2, u2) = buffer(200, &[record(42, 40, 32, "b.exe")]);
    let mut scan = VolumeScan::new();
    let first = parse_usn_buffer(&b1, u1);
    assert_eq!(first.next_start, 100);
    scan.ingest(&first);
    scan.ingest(&parse_usn_buffer(&b2, u2));
    let exes = scan.take_exes();
    assert_eq!(exes.len(), 2);
    assert_eq!(exes[1].name.as_wide(), units("b.exe").as_slice());
}

fn wide_list(v: Vec<WideString>) -> Vec<Vec<u16>> {
    v.iter().map(|w| w.as_wide().to_vec()).collect()
}

#[test]
fn collector_asks_once_then_lists_every_path_in_order() {
    let (b, used) = buffer(
        0,
        &[
            record(40, 5, 16, "Games"),
            record(41, 40, 32, "game.exe"),
            record(45, 40, 16, "Sub"),
            record(46, 45, 32, "b.exe"),
            record(47, 5, 32, "top.exe"),
        ],
    );
    let mut scan = VolumeScan::new();
    scan.ingest(&parse_usn_buffer(&b, used));
    let mut c = ExeCollector::new(scan.take_exes());
    assert_eq!(c.step(&mut scan, LookupAnswer::Start), CollectAction::LookUp(5));
    let answer = LookupAnswer::Found(WideString::from_str("\\\\?\\C:\\"));
    assert_eq!(c.step(&mut scan, answer), CollectAction::Done);
    assert_eq!(
        wide_list(c.take_files()),
        vec![units("C:\\Games\\game.exe"), units("C:\\Games\\Sub\\b.exe"), units("C:\\top.exe")]
    );
    assert!(c.take_files().is_empty());
}

#[test]
fn collector_skips_the_file_whose_lookup_failed() {
    let (b, used) = buffer(
        0,
        &[record(40, 5, 16, "A"), record(41, 40, 32, "a.exe"), record(50, 5, 16, "B"), record(51, 50, 32, "b.exe")],
    );
    let mut scan = VolumeScan::new();
    scan.ingest(&parse_usn_buffer(&b, used));
    let mut c = ExeCollector::new(scan.take_exes());
    assert_eq!(c.step(&mut scan, LookupAnswer::Start), CollectAction::LookUp(5));
    // a.exe is passed over; b.exe needs the same directory again.
    assert_eq!(c.step(&mut scan, LookupAnswer::Failed), CollectAction::LookUp(5));
    assert_eq!(c.step(&mut scan, LookupAnswer::Found(WideString::from_str("D:\\"))), CollectAction::Done);
    assert_eq!(wide_list(c.take_files()), vec![units("D:\\B\\b.exe")]);
}

#[test]
fn collector_stops_at_a_cycle() {
    let (b, used) = buffer(
        0,
        &[record(40, 45, 16, "A"), record(45, 40, 16, "B"), record(41, 40, 32, "x.exe")],
    );
    let mut scan = VolumeScan::new();
    scan.ingest(&parse_usn_buffer(&b, used));
    let mut c = ExeCollector::new(scan.take_exes());
    assert_eq!(c.step(&mut scan, LookupAnswer::Start), CollectAction::Cycle);
    assert!(c.take_files().is_empty());
}

#[test]
fn collector_with_no_files_is_done_at_once() {
    let mut scan = VolumeScan::new();
    let mut c = ExeCollector::new(scan.take_exes());
    assert_eq!(c.step(&mut scan, LookupAnswer::Start), CollectAction::Done);
    assert!(c.take_files().is_empty());
}

#[test]
fn collector_ignores_an_answer_nobody_asked_for() {
    let (b, used) = buffer(0, &[record(41, 5, 32, "a.exe")]);
    let mut scan = VolumeScan::new();
    scan.ingest(&parse_usn_buffer(&b, used));
    scan.add_known_dir(5, WideString::from_str("F:"));
    let mut c = ExeCollector::new(scan.take_exes());
    assert_eq!(c.step(&mut scan, LookupAnswer::Failed), CollectAction::Done);
    assert_eq!(wide_list(c.take_files()), vec![units("F:\\a.exe")]);
}
