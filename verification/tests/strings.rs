use win_global_gpu::hstring_utils::{
    bytes_to_words, combine_hstring_paths, hstring_from_utf16, hstring_from_utf16_buffer, replace,
    truncate_hstring,
};
use win_global_gpu::wide::WideString;

fn w(s: &str) -> WideString {
    WideString::from_str(s)
}

fn units(s: &str) -> Vec<u16> {
    s.encode_utf16().collect()
}

#[test]
fn from_str_encodes_utf16() {
    assert_eq!(w("NTFS").as_wide(), &[78u16, 84, 70, 83][..]);
    assert_eq!(w("é").as_wide(), &[0xE9u16][..]);
    assert_eq!(w("😀").as_wide(), &[0xD83Du16, 0xDE00][..]);
    assert!(w("").is_empty());
}

#[test]
fn from_wide_copies() {
    let s = WideString::from_wide(&[1, 2, 3]).unwrap();
    assert_eq!(s.as_wide(), &[1u16, 2, 3][..]);
    assert_eq!(s.len(), 3);
    assert!(s.equals(&WideString::from_wide(&[1, 2, 3]).unwrap()));
    assert!(!s.equals(&WideString::from_wide(&[1, 2]).unwrap()));
}

#[test]
fn truncate_removes_only_trailing_run() {
    let s = WideString::from_wide(&[65, 0, 66, 0, 0]).unwrap();
    let t = truncate_hstring(s, 0).unwrap();
    assert_eq!(t.as_wide(), &[65u16, 0, 66][..]);
    let all = WideString::from_wide(&[0, 0, 0]).unwrap();
    assert!(truncate_hstring(all, 0).unwrap().is_empty());
    let slash = truncate_hstring(w("C:\\\\"), 92).unwrap();
    assert_eq!(slash.as_wide(), units("C:").as_slice());
}

#[test]
fn truncate_twice_is_truncate_once() {
    let s = WideString::from_wide(&[7, 9, 9, 9]).unwrap();
    let once = truncate_hstring(s, 9).unwrap();
    let twice = truncate_hstring(WideString::from_wide(once.as_wide()).unwrap(), 9).unwrap();
    assert!(once.equals(&twice));
    assert_eq!(once.as_wide(), &[7u16][..]);
}

#[test]
fn buffer_with_trailing_nuls() {
    let mut buf = units("Windows");
    buf.extend([0u16; 10]);
    let s = hstring_from_utf16_buffer(&buf).unwrap();
    assert_eq!(s.as_wide(), units("Windows").as_slice());
}

#[test]
fn bytes_to_words_is_little_endian() {
    assert_eq!(bytes_to_words(&[0x41, 0x00, 0x34, 0x12]), vec![0x41u16, 0x1234]);
    assert_eq!(bytes_to_words(&[]), Vec::<u16>::new());
    let s = hstring_from_utf16(&[0x61, 0x00, 0x2E, 0x00]).unwrap();
    assert_eq!(s.as_wide(), units("a.").as_slice());
}

#[test]
fn combine_joins_with_delimiter() {
    let p = combine_hstring_paths(&w("C:\\Users"), &w("\\"), &w("app.exe")).unwrap();
    assert_eq!(p.as_wide(), units("C:\\Users\\app.exe").as_slice());
    let with_nul = WideString::from_wide(&[120, 0, 0]).unwrap();
    let q = combine_hstring_paths(&w("a"), &w("\\"), &with_nul).unwrap();
    assert_eq!(q.as_wide(), units("a\\x").as_slice());
}

#[test]
fn replace_scans_left_to_right() {
    let r = replace(w("\\\\\\a\\\\"), w("\\\\"), w("\\")).unwrap();
    assert_eq!(r.as_wide(), units("\\\\a\\").as_slice());
    let same = replace(w("abc"), w(""), w("x")).unwrap();
    assert_eq!(same.as_wide(), units("abc").as_slice());
    let grow = replace(w("aXbX"), w("X"), w("YZ")).unwrap();
    assert_eq!(grow.as_wide(), units("aYZbYZ").as_slice());
}
