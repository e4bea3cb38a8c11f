//! Building, trimming, joining and rewriting wide strings.
use vstd::prelude::*;
use crate::wide::{WideString, WideError, max_wide_len};

verus! {

/// `s` without its trailing run of `trim` units.
pub open spec fn trim_end(s: Seq<u16>, trim: u16) -> Seq<u16>
    decreases s.len(),
{
    if s.len() == 0 {
        s
    } else if s.last() == trim {
        trim_end(s.drop_last(), trim)
    } else {
        s
    }
}

/// The 16-bit word stored little-endian in two bytes (the byte order of
/// every Windows target).
pub open spec fn le_word(lo: u8, hi: u8) -> u16 {
    (lo as int + 256 * (hi as int)) as u16
}

/// The words of a byte sequence of even length, two bytes per word.
pub open spec fn words_of(bytes: Seq<u8>) -> Seq<u16> {
    Seq::new(bytes.len() / 2, |i: int| le_word(bytes[2 * i], bytes[2 * i + 1]))
}

/// `s` with every occurrence of the non-empty `from` replaced by `to`,
/// scanning left to right without overlaps.
pub open spec fn replace_all(s: Seq<u16>, from: Seq<u16>, to: Seq<u16>) -> Seq<u16>
    decreases s.len(),
{
    if from.len() == 0 || s.len() < from.len() {
        s
    } else if s.subrange(0, from.len() as int) == from {
        to + replace_all(s.subrange(from.len() as int, s.len() as int), from, to)
    } else {
        seq![s[0]] + replace_all(s.subrange(1, s.len() as int), from, to)
    }
}

proof fn lemma_trim_end_prefix(s: Seq<u16>, trim: u16)
    ensures
        trim_end(s, trim).len() <= s.len(),
        trim_end(s, trim) == s.subrange(0, trim_end(s, trim).len() as int),
        trim_end(s, trim).len() > 0 ==> trim_end(s, trim).last() != trim,
        forall|j: int| trim_end(s, trim).len() <= j < s.len() ==> s[j] == trim,
    decreases s.len(),
{
    if s.len() > 0 && s.last() == trim {
        lemma_trim_end_prefix(s.drop_last(), trim);
        let t = trim_end(s.drop_last(), trim);
        assert(s.drop_last().subrange(0, t.len() as int) == s.subrange(0, t.len() as int));
        assert forall|j: int| t.len() <= j < s.len() implies s[j] == trim by {
            if j < s.len() - 1 {
                assert(s.drop_last()[j] == s[j]);
            }
        }
    } else {
        assert(s.subrange(0, s.len() as int) == s);
    }
}

/// Trimming twice trims no more than trimming once.
pub proof fn lemma_trim_end_idempotent(s: Seq<u16>, trim: u16)
    ensures
        trim_end(trim_end(s, trim), trim) == trim_end(s, trim),
{
    lemma_trim_end_prefix(s, trim);
}

proof fn lemma_trim_end_of_prefix(s: Seq<u16>, trim: u16, i: int)
    requires
        0 <= i <= s.len(),
        forall|j: int| i <= j < s.len() ==> s[j] == trim,
    ensures
        trim_end(s, trim) == trim_end(s.subrange(0, i), trim),
    decreases s.len() - i,
{
    if i < s.len() {
        assert(s.last() == trim);
        assert(s.drop_last() == s.subrange(0, s.len() - 1));
        lemma_trim_end_of_prefix(s.drop_last(), trim, i);
        assert(s.drop_last().subrange(0, i) == s.subrange(0, i));
    } else {
        assert(s.subrange(0, i) == s);
    }
}

/// Joining onto a name that does not end in NUL keeps every unit: the
/// joined path is exactly parent, delimiter and child one after another.
pub proof fn lemma_combine_keeps_units(parent: Seq<u16>, delimiter: Seq<u16>, child: Seq<u16>)
    requires
        child.len() > 0,
        child.last() != 0,
    ensures
        trim_end(parent + delimiter + child, 0) == parent + delimiter + child,
{
    let s = parent + delimiter + child;
    assert(s.last() == child.last());
}

/// Removes the trailing run of `trim` units. Never fails: the input already
/// fits in a `WideString`.
pub fn truncate_hstring(hstring: WideString, trim: u16) -> (r: Result<WideString, WideError>)
    ensures
        r matches Ok(s) && s@ == trim_end(hstring@, trim),
{
    let total = hstring.len();
    let wide = hstring.as_wide();
    let mut to: usize = total;
    while to > 0 && wide[to - 1] == trim
        invariant
            to <= wide@.len(),
            wide@ == hstring@,
            forall|j: int| to <= j < wide@.len() ==> wide@[j] == trim,
        decreases to,
    {
        to = to - 1;
    }
    proof {
        lemma_trim_end_of_prefix(wide@, trim, to as int);
        let p = wide@.subrange(0, to as int);
        if to > 0 {
            assert(p.last() != trim);
        }
        assert(trim_end(p, trim) == p);
    }
    let r = WideString::from_wide(slice_prefix(wide, to));
    r
}

/// The first `n` elements of `s`.
fn slice_prefix(s: &[u16], n: usize) -> (r: &[u16])
    requires
        n <= s@.len(),
    ensures
        r@ == s@.subrange(0, n as int),
{
    let (a, _) = s.split_at(n);
    a
}

/// A string built from a buffer that may carry trailing NUL units: the
/// units up to the last non-NUL one. Fails when the buffer is longer than a
/// `WideString` can hold.
pub fn hstring_from_utf16_buffer(utf16: &[u16]) -> (r: Result<WideString, WideError>)
    ensures
        r is Ok <==> utf16@.len() <= max_wide_len(),
        r matches Ok(s) ==> s@ == trim_end(utf16@, 0),
{
    let string = WideString::from_wide(utf16)?;
    truncate_hstring(string, 0)
}

/// The little-endian 16-bit words of a byte buffer of even length.
pub fn bytes_to_words(bytes: &[u8]) -> (words: Vec<u16>)
    requires
        bytes@.len() % 2 == 0,
    ensures
        words@ == words_of(bytes@),
{
    let mut words: Vec<u16> = Vec::with_capacity(bytes.len() / 2);
    let mut i: usize = 0;
    while i < bytes.len() / 2
        invariant
            bytes@.len() % 2 == 0,
            i <= bytes@.len() / 2,
            words@ == words_of(bytes@).subrange(0, i as int),
        decreases bytes@.len() / 2 - i,
    {
        let lo = bytes[2 * i];
        let hi = bytes[2 * i + 1];
        let w: u16 = (lo as u16) + (hi as u16) * 256;
        words.push(w);
        i = i + 1;
    }
    assert(words@ == words_of(bytes@));
    words
}

/// A string made of the little-endian UTF-16 words in `utf16`, whose length
/// must be even.
pub fn hstring_from_utf16(utf16: &[u8]) -> (r: Result<WideString, WideError>)
    requires
        utf16@.len() % 2 == 0,
    ensures
        r is Ok <==> utf16@.len() / 2 <= max_wide_len(),
        r matches Ok(s) ==> s@ == words_of(utf16@),
{
    let words = bytes_to_words(utf16);
    WideString::from_vec(words)
}

/// `parent`, `delimiter` and `child` joined, with trailing NUL units removed.
/// Fails when the joined units do not fit in a `WideString`.
pub fn combine_hstring_paths(
    parent: &WideString,
    delimiter: &WideString,
    child: &WideString,
) -> (r: Result<WideString, WideError>)
    ensures
        r is Ok <==> parent@.len() + delimiter@.len() + child@.len() <= max_wide_len(),
        r matches Ok(s) ==> s@ == trim_end(parent@ + delimiter@ + child@, 0),
{
    let mut joined: Vec<u16> = Vec::new();
    append_units(&mut joined, parent.as_wide());
    append_units(&mut joined, delimiter.as_wide());
    append_units(&mut joined, child.as_wide());
    hstring_from_utf16_buffer(joined.as_slice())
}

/// Pushes the units of `s` onto `v`.
fn append_units(v: &mut Vec<u16>, s: &[u16])
    ensures
        final(v)@ == old(v)@ + s@,
{
    let ghost start = v@;
    let mut i: usize = 0;
    while i < s.len()
        invariant
            i <= s@.len(),
            v@ == start + s@.subrange(0, i as int),
        decreases s@.len() - i,
    {
        v.push(s[i]);
        i = i + 1;
    }
    assert(s@.subrange(0, s@.len() as int) == s@);
}

/// Whether `pattern` occurs in `s` at position `at`.
fn matches_at(s: &[u16], at: usize, pattern: &[u16]) -> (b: bool)
    requires
        at + pattern@.len() <= s@.len(),
    ensures
        b == (s@.subrange(at as int, at + pattern@.len()) == pattern@),
{
    let n = s.len();
    let mut j: usize = 0;
    while j < pattern.len()
        invariant
            n == s@.len(),
            at + pattern@.len() <= s@.len(),
            j <= pattern@.len(),
            forall|k: int| 0 <= k < j ==> s@[at + k] == pattern@[k],
        decreases pattern@.len() - j,
    {
        assert(at + j < s@.len());
        if s[at + j] != pattern[j] {
            return false;
        }
        j = j + 1;
    }
    assert(s@.subrange(at as int, at + pattern@.len()) =~= pattern@);
    true
}

proof fn lemma_replace_step_match(s: Seq<u16>, i: int, from: Seq<u16>, to: Seq<u16>)
    requires
        from.len() > 0,
        0 <= i,
        i + from.len() <= s.len(),
        s.subrange(i, i + from.len()) == from,
    ensures
        replace_all(s.subrange(i, s.len() as int), from, to) == to + replace_all(
            s.subrange(i + from.len(), s.len() as int),
            from,
            to,
        ),
{
    let t = s.subrange(i, s.len() as int);
    assert(t.subrange(0, from.len() as int) == s.subrange(i, i + from.len()));
    assert(t.subrange(from.len() as int, t.len() as int) == s.subrange(
        i + from.len(),
        s.len() as int,
    ));
}

proof fn lemma_replace_step_skip(s: Seq<u16>, i: int, from: Seq<u16>, to: Seq<u16>)
    requires
        from.len() > 0,
        0 <= i,
        i + from.len() <= s.len(),
        s.subrange(i, i + from.len()) != from,
    ensures
        replace_all(s.subrange(i, s.len() as int), from, to) == seq![s[i]] + replace_all(
            s.subrange(i + 1, s.len() as int),
            from,
            to,
        ),
{
    let t = s.subrange(i, s.len() as int);
    assert(t.subrange(0, from.len() as int) == s.subrange(i, i + from.len()));
    assert(t.subrange(1, t.len() as int) == s.subrange(i + 1, s.len() as int));
}

/// Every occurrence of `from` in `string` replaced by `to`, scanning left to
/// right without overlaps; an empty `from` leaves the string as it is. Fails
/// when the result does not fit in a `WideString`.
pub fn replace(string: WideString, from: WideString, to: WideString) -> (r: Result<
    WideString,
    WideError,
>)
    ensures
        r is Ok <==> replace_all(string@, from@, to@).len() <= max_wide_len(),
        r matches Ok(s) ==> s@ == replace_all(string@, from@, to@),
{
    let s = string.as_wide();
    let f = from.as_wide();
    let t = to.as_wide();
    if f.len() == 0 {
        return WideString::from_wide(s);
    }
    let mut out: Vec<u16> = Vec::new();
    let mut i: usize = 0;
    assert(s@.subrange(0, s@.len() as int) == s@);
    assert(out@ + s@ == s@);
    while i < s.len()
        invariant
            s@ == string@,
            f@ == from@,
            t@ == to@,
            f@.len() > 0,
            i <= s@.len(),
            out@ + replace_all(s@.subrange(i as int, s@.len() as int), f@, t@) == replace_all(
                s@,
                f@,
                t@,
            ),
        decreases s@.len() - i,
    {
        if f.len() <= s.len() - i && matches_at(s, i, f) {
            proof {
                lemma_replace_step_match(s@, i as int, f@, t@);
            }
            let ghost before = out@;
            append_units(&mut out, t);
            proof {
                assert(before + (t@ + replace_all(s@.subrange(i + f@.len(), s@.len() as int), f@, t@))
                    == (before + t@) + replace_all(s@.subrange(i + f@.len(), s@.len() as int), f@, t@));
            }
            i = i + f.len();
        } else {
            proof {
                if i + f@.len() <= s@.len() {
                    lemma_replace_step_skip(s@, i as int, f@, t@);
                } else {
                    let rest = s@.subrange(i as int, s@.len() as int);
                    assert(rest.len() < f@.len());
                    assert(replace_all(rest, f@, t@) == rest);
                    let rest1 = s@.subrange(i + 1, s@.len() as int);
                    assert(rest1.len() < f@.len());
                    assert(replace_all(rest1, f@, t@) == rest1);
                    assert(rest == seq![s@[i as int]] + rest1);
                }
            }
            let ghost before = out@;
            out.push(s[i]);
            proof {
                assert(before + (seq![s@[i as int]] + replace_all(s@.subrange(i + 1, s@.len() as int), f@, t@))
                    == before.push(s@[i as int]) + replace_all(s@.subrange(i + 1, s@.len() as int), f@, t@));
            }
            i = i + 1;
        }
    }
    proof {
        let rest = s@.subrange(i as int, s@.len() as int);
        assert(rest.len() == 0);
        assert(replace_all(rest, f@, t@) == rest);
        assert(out@ + rest == out@);
    }
    WideString::from_vec(out)
}

} // verus!
