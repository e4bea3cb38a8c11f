//! Strings of UTF-16 code units whose length fits in 32 bits.
use vstd::prelude::*;

verus! {

/// Error produced when a run of UTF-16 code units cannot be held in a
/// [`WideString`]: its length does not fit in 32 bits.
#[derive(Debug, Clone, Copy, PartialEq, Eq)]
pub enum WideError {
    TooLong,
}

/// A string of UTF-16 code units with a length that fits in 32 bits, as the
/// Windows runtime string (`HSTRING`) requires. The units are not checked to
/// be valid UTF-16, exactly as with `HSTRING`.
#[derive(Debug)]
pub struct WideString {
    units: Vec<u16>,
}

/// The largest number of code units a [`WideString`] can hold.
pub open spec fn max_wide_len() -> nat {
    0xFFFF_FFFFnat
}

/// The UTF-16 code units of one Unicode scalar value.
pub open spec fn char_to_utf16(c: char) -> Seq<u16> {
    let v = c as u32;
    if v < 0x10000 {
        seq![v as u16]
    } else {
        let w = (v - 0x10000) as int;
        seq![(0xD800 + w / 0x400) as u16, (0xDC00 + w % 0x400) as u16]
    }
}

/// The UTF-16 encoding of a sequence of chars.
pub open spec fn encode_utf16(s: Seq<char>) -> Seq<u16>
    decreases s.len(),
{
    if s.len() == 0 {
        Seq::empty()
    } else {
        encode_utf16(s.drop_last()) + char_to_utf16(s.last())
    }
}

/// Every char takes one or two UTF-16 units.
pub proof fn lemma_encode_utf16_len(s: Seq<char>)
    ensures
        s.len() <= encode_utf16(s).len() <= 2 * s.len(),
    decreases s.len(),
{
    if s.len() > 0 {
        lemma_encode_utf16_len(s.drop_last());
    }
}

proof fn lemma_encode_utf16_prefix(s: Seq<char>, i: int)
    requires
        0 <= i <= s.len(),
    ensures
        encode_utf16(s.subrange(0, i)).len() <= encode_utf16(s).len(),
    decreases s.len() - i,
{
    if i < s.len() {
        lemma_encode_utf16_prefix(s.drop_last(), i);
        assert(s.drop_last().subrange(0, i) == s.subrange(0, i));
    } else {
        assert(s.subrange(0, i) == s);
    }
}

impl View for WideString {
    type V = Seq<u16>;

    closed spec fn view(&self) -> Seq<u16> {
        self.units@
    }
}

impl WideString {
    #[verifier::type_invariant]
    spec fn inv(self) -> bool {
        self.units@.len() <= max_wide_len()
    }

    /// The empty string.
    pub fn new() -> (s: Self)
        ensures
            s@ == Seq::<u16>::empty(),
    {
        WideString { units: Vec::new() }
    }

    /// Copies `units` into a new string; fails exactly when there are more
    /// units than fit in 32 bits.
    pub fn from_wide(units: &[u16]) -> (r: Result<Self, WideError>)
        ensures
            r is Ok <==> units@.len() <= max_wide_len(),
            r matches Ok(s) ==> s@ == units@,
            r matches Err(e) ==> e == WideError::TooLong,
    {
        if units.len() as u64 > 0xFFFF_FFFFu64 {
            return Err(WideError::TooLong);
        }
        let mut v: Vec<u16> = Vec::with_capacity(units.len());
        let mut i: usize = 0;
        while i < units.len()
            invariant
                i <= units@.len(),
                v@ == units@.subrange(0, i as int),
            decreases units@.len() - i,
        {
            v.push(units[i]);
            i = i + 1;
        }
        assert(v@ == units@);
        Ok(WideString { units: v })
    }

    /// Takes ownership of `units`; fails exactly when there are more units
    /// than fit in 32 bits.
    pub fn from_vec(units: Vec<u16>) -> (r: Result<Self, WideError>)
        ensures
            r is Ok <==> units@.len() <= max_wide_len(),
            r matches Ok(s) ==> s@ == units@,
    {
        if units.len() as u64 > 0xFFFF_FFFFu64 {
            Err(WideError::TooLong)
        } else {
            Ok(WideString { units })
        }
    }

    /// The UTF-16 encoding of `s`, which must fit in a `WideString` (it
    /// does whenever the byte length of `s` fits in 32 bits, the bound under
    /// which a `&str` converts into an `HSTRING`).
    pub fn from_str(s: &str) -> (w: Self)
        requires
            encode_utf16(s@).len() <= max_wide_len(),
        ensures
            w@ == encode_utf16(s@),
    {
        let n = s.unicode_len();
        let mut v: Vec<u16> = Vec::new();
        let mut i: usize = 0;
        while i < n
            invariant
                n == s@.len(),
                i <= n,
                v@ == encode_utf16(s@.subrange(0, i as int)),
                encode_utf16(s@).len() <= max_wide_len(),
            decreases n - i,
        {
            proof {
                lemma_encode_utf16_prefix(s@, i + 1);
            }
            let c = s.get_char(i);
            let code = c as u32;
            assert(s@.subrange(0, i + 1).drop_last() == s@.subrange(0, i as int));
            if code < 0x10000 {
                v.push(code as u16);
            } else {
                let w: u32 = code - 0x10000;
                v.push((0xD800 + w / 0x400) as u16);
                v.push((0xDC00 + w % 0x400) as u16);
            }
            i = i + 1;
        }
        assert(s@.subrange(0, n as int) == s@);
        WideString { units: v }
    }

    /// The code units of the string.
    pub fn as_wide(&self) -> (r: &[u16])
        ensures
            r@ == self@,
    {
        self.units.as_slice()
    }

    /// The number of code units, which always fits in 32 bits.
    pub fn len(&self) -> (n: usize)
        ensures
            n == self@.len(),
            n <= max_wide_len(),
    {
        proof {
            use_type_invariant(self);
        }
        self.units.len()
    }

    /// Whether the string holds no code units.
    pub fn is_empty(&self) -> (b: bool)
        ensures
            b == (self@.len() == 0),
    {
        self.units.len() == 0
    }

    /// Unit-by-unit equality.
    pub fn equals(&self, other: &Self) -> (b: bool)
        ensures
            b == (self@ == other@),
    {
        slice_eq(self.units.as_slice(), other.units.as_slice())
    }

    /// Whether the string equals the UTF-16 encoding of `s`.
    pub fn equals_str(&self, s: &str) -> (b: bool)
        requires
            encode_utf16(s@).len() <= max_wide_len(),
        ensures
            b == (self@ == encode_utf16(s@)),
    {
        let w = WideString::from_str(s);
        self.equals(&w)
    }

    /// A copy of the string.
    pub fn duplicate(&self) -> (c: Self)
        ensures
            c@ == self@,
    {
        proof {
            use_type_invariant(self);
        }
        let r = WideString::from_wide(self.units.as_slice());
        match r {
            Ok(s) => s,
            Err(_) => WideString::new(),
        }
    }

    /// The code units, giving up the string.
    pub fn into_units(self) -> (v: Vec<u16>)
        ensures
            v@ == self@,
    {
        self.units
    }
}

/// Element-wise equality of two slices of code units.
pub fn slice_eq(a: &[u16], b: &[u16]) -> (r: bool)
    ensures
        r == (a@ == b@),
{
    if a.len() != b.len() {
        return false;
    }
    let mut i: usize = 0;
    while i < a.len()
        invariant
            a@.len() == b@.len(),
            i <= a@.len(),
            forall|j: int| 0 <= j < i ==> a@[j] == b@[j],
        decreases a@.len() - i,
    {
        if a[i] != b[i] {
            return false;
        }
        i = i + 1;
    }
    assert(a@ =~= b@);
    true
}

} // verus!
