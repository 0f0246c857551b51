//! Typed byte slices: a borrowed slice together with the lexical class that its
//! bytes belong to.
use crate::error::HttpError;
use core::marker::PhantomData;
use vstd::prelude::*;

verus! {

/// An ASCII letter.
pub open spec fn is_alpha(b: u8) -> bool {
    (0x41 <= b <= 0x5a) || (0x61 <= b <= 0x7a)
}

/// An ASCII decimal digit.
pub open spec fn is_digit(b: u8) -> bool {
    0x30 <= b <= 0x39
}

/// A printable ASCII byte, the space included.
pub open spec fn is_printable(b: u8) -> bool {
    0x20 <= b <= 0x7e
}

/// A byte that may stand in an HTTP token: a letter, a digit or one of
/// ``!#$%&'*+-.^_`|~``.
pub open spec fn is_token_byte(b: u8) -> bool {
    is_alpha(b) || is_digit(b) || b == 0x21 || b == 0x23 || b == 0x24 || b == 0x25 || b == 0x26
        || b == 0x27 || b == 0x2a || b == 0x2b || b == 0x2d || b == 0x2e || b == 0x5e || b == 0x5f
        || b == 0x60 || b == 0x7c || b == 0x7e
}

/// A byte that may stand in a URI: a letter, a digit, one of `-._~`, one of
/// `:/?#[]@`, one of `!$&'()*+,;=`, or `%`.
pub open spec fn is_uri_byte(b: u8) -> bool {
    is_alpha(b) || is_digit(b) || b == 0x2d || b == 0x2e || b == 0x5f || b == 0x7e || b == 0x3a
        || b == 0x2f || b == 0x3f || b == 0x23 || b == 0x5b || b == 0x5d || b == 0x40 || b == 0x21
        || b == 0x24 || b == 0x26 || b == 0x27 || b == 0x28 || b == 0x29 || b == 0x2a || b == 0x2b
        || b == 0x2c || b == 0x3b || b == 0x3d || b == 0x25
}

/// A lexical class: which bytes it accepts, and whether the empty slice
/// belongs to it.
pub trait Encoding {
    /// Whether the class accepts the byte `b`.
    spec fn accepts(b: u8) -> bool;

    /// Whether the empty slice belongs to the class.
    spec fn allows_empty() -> bool;

    /// Decides `accepts`.
    fn accepts_byte(b: u8) -> (r: bool)
        ensures
            r == Self::accepts(b),
    ;

    /// Decides `allows_empty`.
    fn empty_allowed() -> (r: bool)
        ensures
            r == Self::allows_empty(),
    ;
}

/// `bytes` belongs to the class `E`: each byte is accepted, and the slice is
/// empty only where the class allows it.
pub open spec fn valid<E: Encoding>(bytes: Seq<u8>) -> bool {
    &&& bytes.len() > 0 || E::allows_empty()
    &&& forall|i: int| 0 <= i < bytes.len() ==> E::accepts(#[trigger] bytes[i])
}

/// Printable ASCII text, possibly empty.
#[derive(Clone, Copy, Debug)]
pub struct Ascii;

/// A URI: a non-empty run of URI bytes.
#[derive(Clone, Copy, Debug)]
pub struct Uri;

/// An unsigned decimal integer of any width: a non-empty run of digits.
#[derive(Clone, Copy, Debug)]
pub struct Integer;

/// A header field name: a non-empty HTTP token.
#[derive(Clone, Copy, Debug)]
pub struct HeaderFieldKey;

impl Encoding for Ascii {
    open spec fn accepts(b: u8) -> bool {
        is_printable(b)
    }

    open spec fn allows_empty() -> bool {
        true
    }

    fn accepts_byte(b: u8) -> (r: bool) {
        0x20 <= b && b <= 0x7e
    }

    fn empty_allowed() -> (r: bool) {
        true
    }
}

impl Encoding for Uri {
    open spec fn accepts(b: u8) -> bool {
        is_uri_byte(b)
    }

    open spec fn allows_empty() -> bool {
        false
    }

    fn accepts_byte(b: u8) -> (r: bool) {
        is_alpha_byte(b) || is_digit_byte(b) || b == 0x2d || b == 0x2e || b == 0x5f || b == 0x7e
            || b == 0x3a || b == 0x2f || b == 0x3f || b == 0x23 || b == 0x5b || b == 0x5d || b
            == 0x40 || b == 0x21 || b == 0x24 || b == 0x26 || b == 0x27 || b == 0x28 || b == 0x29
            || b == 0x2a || b == 0x2b || b == 0x2c || b == 0x3b || b == 0x3d || b == 0x25
    }

    fn empty_allowed() -> (r: bool) {
        false
    }
}

impl Encoding for Integer {
    open spec fn accepts(b: u8) -> bool {
        is_digit(b)
    }

    open spec fn allows_empty() -> bool {
        false
    }

    fn accepts_byte(b: u8) -> (r: bool) {
        is_digit_byte(b)
    }

    fn empty_allowed() -> (r: bool) {
        false
    }
}

impl Encoding for HeaderFieldKey {
    open spec fn accepts(b: u8) -> bool {
        is_token_byte(b)
    }

    open spec fn allows_empty() -> bool {
        false
    }

    fn accepts_byte(b: u8) -> (r: bool) {
        is_alpha_byte(b) || is_digit_byte(b) || b == 0x21 || b == 0x23 || b == 0x24 || b == 0x25
            || b == 0x26 || b == 0x27 || b == 0x2a || b == 0x2b || b == 0x2d || b == 0x2e || b
            == 0x5e || b == 0x5f || b == 0x60 || b == 0x7c || b == 0x7e
    }

    fn empty_allowed() -> (r: bool) {
        false
    }
}

/// Whether `b` is an ASCII letter.
pub fn is_alpha_byte(b: u8) -> (r: bool)
    ensures
        r == is_alpha(b),
{
    (0x41 <= b && b <= 0x5a) || (0x61 <= b && b <= 0x7a)
}

/// Whether `b` is an ASCII decimal digit.
pub fn is_digit_byte(b: u8) -> (r: bool)
    ensures
        r == is_digit(b),
{
    0x30 <= b && b <= 0x39
}

/// Whether `bytes` belongs to the class `E`.
pub fn conforms<E: Encoding>(bytes: &[u8]) -> (r: bool)
    ensures
        r == valid::<E>(bytes@),
{
    let n: usize = bytes.len();
    if n == 0 {
        return E::empty_allowed();
    }
    let mut i: usize = 0;
    while i < n
        invariant
            n == bytes.len(),
            i <= n,
            forall|j: int| 0 <= j < i ==> E::accepts(#[trigger] bytes@[j]),
        decreases n - i,
    {
        if !E::accepts_byte(bytes[i]) {
            return false;
        }
        i += 1;
    }
    true
}

/// A borrowed byte slice that belongs to the lexical class `E`. The only way
/// to make one is `validate`, so a value that exists is valid.
#[derive(Debug)]
pub struct Data<'a, E: Encoding> {
    bytes: &'a [u8],
    class: PhantomData<E>,
}

impl<'a, E: Encoding> Clone for Data<'a, E> {
    fn clone(&self) -> (r: Self)
        ensures
            r@ == self@,
    {
        proof {
            use_type_invariant(self);
        }
        Data { bytes: self.bytes, class: PhantomData }
    }
}

impl<'a, E: Encoding> Copy for Data<'a, E> {

}

impl<'a, E: Encoding> View for Data<'a, E> {
    type V = Seq<u8>;

    closed spec fn view(&self) -> Seq<u8> {
        self.bytes@
    }
}

/// What `validate` yields for `bytes` in the class `E`: the bytes themselves,
/// or a protocol violation.
pub open spec fn validate_spec<E: Encoding>(bytes: Seq<u8>) -> Result<Seq<u8>, HttpError> {
    if valid::<E>(bytes) {
        Ok(bytes)
    } else {
        Err(HttpError::ProtocolViolation)
    }
}

/// The contents of a typed result.
pub open spec fn typed_view<E: Encoding>(r: Result<Data<'_, E>, HttpError>) -> Result<
    Seq<u8>,
    HttpError,
> {
    match r {
        Ok(d) => Ok(d@),
        Err(e) => Err(e),
    }
}

impl<'a, E: Encoding> Data<'a, E> {
    #[verifier::type_invariant]
    spec fn well_typed(self) -> bool {
        valid::<E>(self.bytes@)
    }

    /// Validates `bytes` against the class `E` and tags them with it.
    pub fn validate(bytes: &'a [u8]) -> (r: Result<Self, HttpError>)
        ensures
            typed_view(r) == validate_spec::<E>(bytes@),
    {
        if conforms::<E>(bytes) {
            Ok(Data { bytes, class: PhantomData })
        } else {
            Err(HttpError::ProtocolViolation)
        }
    }

    /// The bytes, which belong to the class `E`.
    pub fn as_bytes(&self) -> (r: &'a [u8])
        ensures
            r@ == self@,
            valid::<E>(r@),
    {
        proof {
            use_type_invariant(self);
        }
        self.bytes
    }

    /// The number of bytes.
    pub fn len(&self) -> (n: usize)
        ensures
            n == self@.len(),
    {
        self.bytes.len()
    }
}

/// The number that a run of decimal digits denotes, the leftmost digit being
/// the most significant. The empty run denotes 0.
pub open spec fn decimal_value(digits: Seq<u8>) -> nat
    decreases digits.len(),
{
    if digits.len() == 0 {
        0
    } else {
        (decimal_value(digits.drop_last()) * 10 + (digits.last() - 0x30)) as nat
    }
}

/// Digits that follow can only make the number larger.
pub proof fn lemma_decimal_value_prefix(digits: Seq<u8>, k: int)
    requires
        0 <= k <= digits.len(),
        forall|i: int| 0 <= i < digits.len() ==> is_digit(#[trigger] digits[i]),
    ensures
        decimal_value(digits.subrange(0, k)) <= decimal_value(digits),
    decreases digits.len() - k,
{
    if k == digits.len() {
        assert(digits.subrange(0, k) =~= digits);
    } else {
        let front = digits.drop_last();
        assert(front.subrange(0, k) =~= digits.subrange(0, k));
        assert forall|i: int| 0 <= i < front.len() implies is_digit(#[trigger] front[i]) by {
            assert(front[i] == digits[i]);
        }
        lemma_decimal_value_prefix(front, k);
        assert(is_digit(digits[digits.len() - 1]));
    }
}

impl<'a> Data<'a, Integer> {
    /// The number as a `u16`, or `None` where it is larger than 65535.
    pub fn to_u16(&self) -> (r: Option<u16>)
        ensures
            r == if decimal_value(self@) <= 0xffff {
                Some(decimal_value(self@) as u16)
            } else {
                None
            },
    {
        let digits: &[u8] = self.as_bytes();
        let n: usize = digits.len();
        let mut acc: u32 = 0;
        let mut i: usize = 0;
        assert(digits@.subrange(0, 0) =~= Seq::<u8>::empty());
        while i < n
            invariant
                n == digits.len(),
                digits@ == self@,
                i <= n,
                acc == decimal_value(digits@.subrange(0, i as int)),
                acc <= 0xffff,
                forall|j: int| 0 <= j < digits@.len() ==> is_digit(#[trigger] digits@[j]),
            decreases n - i,
        {
            let d: u8 = digits[i];
            assert(is_digit(digits@[i as int]));
            assert(digits@.subrange(0, i + 1).drop_last() =~= digits@.subrange(0, i as int));
            assert(digits@.subrange(0, i + 1).last() == d);
            let digit: u32 = (d - 0x30) as u32;
            acc = acc * 10 + digit;
            i += 1;
            if acc > 0xffff {
                proof {
                    lemma_decimal_value_prefix(digits@, i as int);
                }
                return None;
            }
        }
        assert(digits@.subrange(0, n as int) =~= digits@);
        Some(acc as u16)
    }
}

} // verus!
