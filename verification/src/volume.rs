//! The decisions around a volume scan that do not depend on the master file
//! table: naming the volume, checking its file system, reading the paths
//! the system hands back, and gathering the files of all volumes.
use vstd::prelude::*;
use crate::wide::{WideString, WideError, max_wide_len, encode_utf16};
use crate::hstring_utils::{trim_end, hstring_from_utf16_buffer, truncate_hstring};
use crate::volume_scan::BACKSLASH_UTF16;

verus! {

/// The UTF-16 units of `NTFS`.
pub open spec fn ntfs_units() -> Seq<u16> {
    seq![78u16, 84u16, 70u16, 83u16]
}

/// Why a volume is not scanned.
#[derive(Debug)]
pub enum FileSystemError {
    /// The file system name does not fit in a `WideString`.
    Unreadable(WideError),
    /// The volume holds another file system, named here.
    NotNtfs(WideString),
}

/// The name to show for a volume: the name in `volume_name_buffer` up to
/// its trailing NULs, or the volume path itself when that name is empty or
/// cannot be read.
pub fn volume_display_name(volume_name_buffer: &[u16], volume: &WideString) -> (name: WideString)
    ensures
        name@ == if volume_name_buffer@.len() <= max_wide_len() && trim_end(
            volume_name_buffer@,
            0,
        ).len() > 0 {
            trim_end(volume_name_buffer@, 0)
        } else {
            volume@
        },
{
    let read = hstring_from_utf16_buffer(volume_name_buffer);
    let name = match read {
        Ok(n) => n,
        Err(_) => WideString::new(),
    };
    if name.is_empty() {
        volume.duplicate()
    } else {
        name
    }
}

/// Checks that the file system named in `file_system_buffer` (up to its
/// trailing NULs) is NTFS, the only one whose master file table can be read.
pub fn check_file_system(file_system_buffer: &[u16]) -> (r: Result<(), FileSystemError>)
    ensures
        r is Ok <==> file_system_buffer@.len() <= max_wide_len() && trim_end(
            file_system_buffer@,
            0,
        ) == ntfs_units(),
        r matches Err(FileSystemError::Unreadable(_)) <==> file_system_buffer@.len()
            > max_wide_len(),
        r matches Err(FileSystemError::NotNtfs(fs)) ==> fs@ == trim_end(file_system_buffer@, 0),
{
    let file_system = match hstring_from_utf16_buffer(file_system_buffer) {
        Ok(f) => f,
        Err(e) => {
            return Err(FileSystemError::Unreadable(e));
        },
    };
    proof {
        reveal_strlit("NTFS");
        crate::wide::lemma_encode_utf16_len("NTFS"@);
    }
    let is_ntfs = file_system.equals_str("NTFS");
    proof {
        reveal_with_fuel(encode_utf16, 5);
        let s = "NTFS"@;
        assert(s.drop_last().drop_last().drop_last().drop_last() =~= Seq::<char>::empty());
        assert(s.drop_last().drop_last().drop_last() =~= seq![s[0]]);
        assert(s.drop_last().drop_last() =~= seq![s[0], s[1]]);
        assert(s.drop_last() =~= seq![s[0], s[1], s[2]]);
        assert(encode_utf16(s) == ntfs_units());
    }
    if is_ntfs {
        Ok(())
    } else {
        Err(FileSystemError::NotNtfs(file_system))
    }
}

/// A volume path from the fixed buffer that volume enumeration fills: the
/// units up to the trailing NULs, then without its trailing backslashes,
/// which would stop the volume from being opened.
pub fn volume_from_buffer(volume_buffer: &[u16]) -> (r: Result<WideString, WideError>)
    ensures
        r is Ok <==> volume_buffer@.len() <= max_wide_len(),
        r matches Ok(v) ==> v@ == trim_end(trim_end(volume_buffer@, 0), BACKSLASH_UTF16),
{
    let hstring = WideString::from_wide(volume_buffer)?;
    let trimmed = truncate_hstring(hstring, 0)?;
    truncate_hstring(trimmed, BACKSLASH_UTF16)
}

/// Why the path of a file reference could not be read.
#[derive(Debug)]
pub enum FinalPathError {
    /// The system reported no path for this reference.
    Failed(i64),
    /// The path does not fit in a `WideString`.
    Unreadable(WideError),
}

/// The path that the system wrote into `buffer` for reference `id`, of
/// `len` units; a length of 0 means the system failed.
pub fn path_from_final_name(buffer: &[u16], len: u32, id: i64) -> (r: Result<WideString, FinalPathError>)
    requires
        len <= buffer@.len(),
    ensures
        r matches Err(FinalPathError::Failed(_)) <==> len == 0,
        r matches Err(FinalPathError::Failed(i)) ==> i == id,
        r is Ok <==> len > 0 && len <= max_wide_len(),
        r matches Ok(p) ==> p@ == trim_end(buffer@.subrange(0, len as int), 0),
{
    if len == 0 {
        Err(FinalPathError::Failed(id))
    } else {
        let (head, _) = buffer.split_at(len as usize);
        match hstring_from_utf16_buffer(head) {
            Ok(p) => Ok(p),
            Err(e) => Err(FinalPathError::Unreadable(e)),
        }
    }
}

/// The views of a list of strings.
pub open spec fn views_of(v: Seq<WideString>) -> Seq<Seq<u16>> {
    v.map_values(|w: WideString| w@)
}

/// The files of the volumes that were scanned, in volume order; volumes
/// whose scan failed add nothing.
pub open spec fn scanned_files<E>(results: Seq<Result<Vec<WideString>, E>>) -> Seq<Seq<u16>>
    decreases results.len(),
{
    if results.len() == 0 {
        Seq::empty()
    } else {
        let before = scanned_files(results.drop_last());
        match results.last() {
            Ok(files) => before + views_of(files@),
            Err(_) => before,
        }
    }
}

/// Returned when no volume yielded a single file, which happens when the
/// program lacks the rights to read the master file tables.
#[derive(Debug)]
pub enum NoFilesFound {
    NoFiles,
}

/// Gathers the files of every volume whose scan succeeded, in volume order;
/// fails when there are none at all.
pub fn collect_volume_files<E>(results: &Vec<Result<Vec<WideString>, E>>) -> (r: Result<
    Vec<WideString>,
    NoFilesFound,
>)
    ensures
        r is Ok <==> scanned_files(results@).len() > 0,
        r matches Ok(files) ==> views_of(files@) == scanned_files(results@),
{
    let mut files: Vec<WideString> = Vec::new();
    let mut i: usize = 0;
    assert(results@.subrange(0, 0) =~= Seq::<Result<Vec<WideString>, E>>::empty());
    assert(views_of(files@) =~= Seq::<Seq<u16>>::empty());
    while i < results.len()
        invariant
            i <= results@.len(),
            views_of(files@) == scanned_files(results@.subrange(0, i as int)),
        decreases results@.len() - i,
    {
        let ghost sub = results@.subrange(0, i + 1);
        assert(sub.drop_last() =~= results@.subrange(0, i as int));
        assert(sub.last() == results@[i as int]);
        match &results[i] {
            Ok(vol_files) => {
                let mut k: usize = 0;
                let ghost start = views_of(files@);
                assert(vol_files@.subrange(0, 0) =~= Seq::<WideString>::empty());
                assert(start + views_of(Seq::<WideString>::empty()) =~= start);
                while k < vol_files.len()
                    invariant
                        k <= vol_files@.len(),
                        views_of(files@) == start + views_of(vol_files@.subrange(0, k as int)),
                    decreases vol_files@.len() - k,
                {
                    let ghost before = files@;
                    let copy = vol_files[k].duplicate();
                    files.push(copy);
                    proof {
                        assert(views_of(files@) =~= views_of(before).push(vol_files@[k as int]@));
                        assert(views_of(vol_files@.subrange(0, k + 1)) =~= views_of(
                            vol_files@.subrange(0, k as int),
                        ).push(vol_files@[k as int]@));
                    }
                    k = k + 1;
                }
                assert(vol_files@.subrange(0, k as int) =~= vol_files@);
            },
            Err(_) => {},
        }
        i = i + 1;
    }
    assert(results@.subrange(0, i as int) =~= results@);
    if files.len() == 0 {
        Err(NoFilesFound::NoFiles)
    } else {
        Ok(files)
    }
}

} // verus!
