//! Reading the drive roots from the buffer that `GetLogicalDriveStringsA`
//! fills: NUL-terminated strings one after another.
use vstd::prelude::*;
use vstd::utf8::{valid_utf8, decode_utf8};

verus! {

/// Why the drive roots could not be read.
#[derive(PartialEq, Eq, Structural, Clone, Copy, Debug)]
pub enum DriveError {
    /// The system call reported failure (it returned 0).
    ReadFailed,
    /// The strings need `needed` bytes but the buffer holds `size`.
    BufferTooSmall { needed: u32, size: usize },
    /// The last string has no terminating NUL.
    MissingNul,
    /// A string is not valid UTF-8.
    InvalidUtf8,
}

/// The index of the first NUL byte of `s`, or its length when it has none.
pub open spec fn first_nul(s: Seq<u8>) -> nat
    decreases s.len(),
{
    if s.len() == 0 {
        0
    } else if s[0] == 0 {
        0
    } else {
        1 + first_nul(s.drop_first())
    }
}

/// The NUL-terminated strings of `s`, each decoded from UTF-8, or the
/// error of the first one that is not terminated or not UTF-8.
pub open spec fn drive_strings(s: Seq<u8>) -> Result<Seq<Seq<char>>, DriveError>
    decreases s.len(),
{
    if s.len() == 0 {
        Ok(Seq::empty())
    } else {
        let n = first_nul(s);
        if n >= s.len() {
            Err(DriveError::MissingNul)
        } else if !valid_utf8(s.subrange(0, n as int)) {
            Err(DriveError::InvalidUtf8)
        } else {
            match drive_strings(s.subrange(n + 1int, s.len() as int)) {
                Ok(rest) => Ok(seq![decode_utf8(s.subrange(0, n as int))] + rest),
                Err(e) => Err(e),
            }
        }
    }
}

/// The drive roots for a buffer of which the system call used
/// `returned` bytes.
pub open spec fn drives_result(buffer: Seq<u8>, returned: u32) -> Result<
    Seq<Seq<char>>,
    DriveError,
> {
    if returned == 0 {
        Err(DriveError::ReadFailed)
    } else if returned > buffer.len() {
        Err(DriveError::BufferTooSmall { needed: returned, size: buffer.len() as usize })
    } else {
        drive_strings(buffer.subrange(0, returned as int))
    }
}

/// `std::str::from_utf8`: the string the bytes encode, when they are valid
/// UTF-8.
#[verifier::external_body]
fn str_from_utf8(bytes: &[u8]) -> (r: Option<&str>)
    ensures
        r is Some <==> valid_utf8(bytes@),
        r matches Some(s) ==> s@ == decode_utf8(bytes@),
{
    std::str::from_utf8(bytes).ok()
}

/// The views of a list of strings.
pub open spec fn string_views(v: Seq<String>) -> Seq<Seq<char>> {
    v.map_values(|s: String| s@)
}

/// `done` put in front of the strings of `rest`, or the error of `rest`.
pub open spec fn prepend_drives(done: Seq<Seq<char>>, rest: Result<Seq<Seq<char>>, DriveError>) -> Result<
    Seq<Seq<char>>,
    DriveError,
> {
    match rest {
        Ok(r) => Ok(done + r),
        Err(e) => Err(e),
    }
}

proof fn lemma_first_nul_step(s: Seq<u8>, p: int)
    requires
        0 <= p < s.len(),
        s[p] != 0,
    ensures
        first_nul(s.subrange(p, s.len() as int)) == 1 + first_nul(s.subrange(p + 1, s.len() as int)),
{
    assert(s.subrange(p, s.len() as int).drop_first() =~= s.subrange(p + 1, s.len() as int));
}

/// The drive roots in `buffer`, of which the system call used `returned`
/// bytes: fails when the call failed (0), when the strings did not fit the
/// buffer, or when a string is not NUL-terminated or not UTF-8.
pub fn drives_from_buffer(buffer: &[u8], returned: u32) -> (r: Result<Vec<String>, DriveError>)
    ensures
        match r {
            Ok(v) => drives_result(buffer@, returned) == Ok::<Seq<Seq<char>>, DriveError>(string_views(v@)),
            Err(e) => drives_result(buffer@, returned) == Err::<Seq<Seq<char>>, DriveError>(e),
        },
{
    if returned == 0 {
        return Err(DriveError::ReadFailed);
    }
    if returned as usize > buffer.len() {
        return Err(DriveError::BufferTooSmall { needed: returned, size: buffer.len() });
    }
    let (s, _) = buffer.split_at(returned as usize);
    let len = s.len();
    assert(drives_result(buffer@, returned) == drive_strings(s@));
    let mut drives: Vec<String> = Vec::new();
    let mut p: usize = 0;
    assert(s@.subrange(0, len as int) =~= s@);
    assert(string_views(drives@) =~= Seq::<Seq<char>>::empty());
    while p < len
        invariant
            len == s@.len(),
            p <= len,
            drives_result(buffer@, returned) == drive_strings(s@),
            drive_strings(s@) == prepend_drives(
                string_views(drives@),
                drive_strings(s@.subrange(p as int, len as int)),
            ),
        decreases len - p,
    {
        let ghost rest = s@.subrange(p as int, len as int);
        let mut j: usize = p;
        while j < len && s[j] != 0
            invariant
                len == s@.len(),
                p <= j <= len,
                first_nul(rest) == (j - p) + first_nul(s@.subrange(j as int, len as int)),
                forall|k: int| p <= k < j ==> s@[k] != 0,
            decreases len - j,
        {
            proof {
                lemma_first_nul_step(s@, j as int);
            }
            j = j + 1;
        }
        if j == len {
            proof {
                assert(s@.subrange(j as int, len as int) =~= Seq::<u8>::empty());
                assert(rest.len() > 0);
                assert(first_nul(rest) == rest.len());
                assert(drive_strings(rest) == Err::<Seq<Seq<char>>, DriveError>(DriveError::MissingNul));
                assert(drive_strings(s@) == Err::<Seq<Seq<char>>, DriveError>(DriveError::MissingNul));
            }
            return Err(DriveError::MissingNul);
        }
        let ghost n = (j - p) as nat;
        proof {
            assert(first_nul(s@.subrange(j as int, len as int)) == 0);
            assert(rest.subrange(0, n as int) =~= s@.subrange(p as int, j as int));
            assert(rest.subrange(n + 1int, rest.len() as int) =~= s@.subrange(j + 1, len as int));
        }
        let (head, _) = s.split_at(j);
        let (_, name) = head.split_at(p);
        assert(name@ =~= s@.subrange(p as int, j as int));
        match str_from_utf8(name) {
            Some(text) => {
                let ghost before = drives@;
                drives.push(text.to_owned());
                proof {
                    assert(string_views(drives@) =~= string_views(before).push(text@));
                    assert(string_views(before) + (seq![text@] + Seq::<Seq<char>>::empty()) =~= string_views(drives@));
                    let tail = drive_strings(s@.subrange(j + 1, len as int));
                    match tail {
                        Ok(t) => {
                            assert(string_views(before) + (seq![text@] + t) =~= string_views(drives@) + t);
                        },
                        Err(_) => {},
                    }
                }
                p = j + 1;
            },
            None => {
                assert(drive_strings(rest) == Err::<Seq<Seq<char>>, DriveError>(DriveError::InvalidUtf8));
                assert(drive_strings(s@) == Err::<Seq<Seq<char>>, DriveError>(DriveError::InvalidUtf8));
                return Err(DriveError::InvalidUtf8);
            },
        }
    }
    proof {
        assert(s@.subrange(p as int, len as int) =~= Seq::<u8>::empty());
        assert(string_views(drives@) + Seq::<Seq<char>>::empty() =~= string_views(drives@));
    }
    Ok(drives)
}

} // verus!
