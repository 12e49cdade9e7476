//! Content codecs: how the bytes of one field's value are written on the wire.
use vstd::prelude::*;
use vstd::slice::{slice_subrange, slice_to_vec};

use crate::error::FieldError;
use crate::wire::{decode_hex, hex_decode, hex_digit_value, is_decimal_digit, is_hex_digit};

verus! {

pub open spec fn all_digits(s: Seq<u8>) -> bool {
    forall|i: int| 0 <= i < s.len() ==> is_decimal_digit(#[trigger] s[i])
}

pub open spec fn all_ascii(s: Seq<u8>) -> bool {
    forall|i: int| 0 <= i < s.len() ==> #[trigger] s[i] < 128
}

/// The upper-case hex character of a value below sixteen.
pub open spec fn hex_char(n: u8) -> u8 {
    if n < 10 {
        (n + 48) as u8
    } else {
        (n + 55) as u8
    }
}

/// Each byte as two upper-case hex characters, high nibble first.
pub open spec fn hex_encode(b: Seq<u8>) -> Seq<u8>
    decreases b.len(),
{
    if b.len() == 0 {
        seq![]
    } else {
        seq![hex_char(b[0] / 16), hex_char(b[0] % 16)] + hex_encode(b.skip(1))
    }
}

pub proof fn lemma_hex_encode_len(b: Seq<u8>)
    ensures
        hex_encode(b).len() == 2 * b.len(),
    decreases b.len(),
{
    if b.len() > 0 {
        lemma_hex_encode_len(b.skip(1));
    }
}

pub proof fn lemma_hex_encode_concat(a: Seq<u8>, b: Seq<u8>)
    ensures
        hex_encode(a + b) == hex_encode(a) + hex_encode(b),
    decreases a.len(),
{
    if a.len() == 0 {
        assert(a + b =~= b);
        assert(hex_encode(a) + hex_encode(b) =~= hex_encode(b));
    } else {
        lemma_hex_encode_concat(a.skip(1), b);
        assert((a + b).skip(1) =~= a.skip(1) + b);
        assert((a + b)[0] == a[0]);
        assert(hex_encode(a + b) =~= hex_encode(a) + hex_encode(b));
    }
}

/// Hex characters written by `hex_encode` read back as the same bytes.
pub proof fn lemma_hex_round_trip(b: Seq<u8>)
    ensures
        hex_decode(hex_encode(b)) == Ok::<Seq<u8>, crate::wire::HexError>(b),
    decreases b.len(),
{
    if b.len() > 0 {
        let h = hex_encode(b);
        lemma_hex_encode_len(b);
        lemma_hex_round_trip(b.skip(1));
        let x = b[0];
        assert(h.skip(2) =~= hex_encode(b.skip(1)));
        assert(h[0] == hex_char(x / 16) && h[1] == hex_char(x % 16));
        assert(is_hex_digit(h[0]) && is_hex_digit(h[1]));
        assert(h.len() % 2 == 0);
        assert(hex_digit_value(hex_char(x / 16)) == x / 16);
        assert(hex_digit_value(hex_char(x % 16)) == x % 16);
        assert(((x / 16) * 16 + x % 16) as u8 == x);
        assert(seq![x] + b.skip(1) =~= b);
        assert(hex_decode(h.skip(2)) == Ok::<Seq<u8>, crate::wire::HexError>(b.skip(1)));
        let v = (hex_digit_value(h[0]) * 16 + hex_digit_value(h[1])) as u8;
        assert(v == x);
        assert(hex_decode(h) == Ok::<Seq<u8>, crate::wire::HexError>(seq![v] + b.skip(1)));
    } else {
        assert(hex_encode(b) =~= Seq::<u8>::empty());
        assert(b =~= Seq::<u8>::empty());
    }
}

/// The encoding of a field's value.
#[derive(Clone, Copy, Debug, PartialEq, Eq, Structural)]
pub enum Encoding {
    /// ASCII decimal digits.
    Numeric,
    /// ASCII characters, passed through.
    Alphanumeric,
    /// Raw bytes, passed through.
    Binary,
    /// Raw bytes written as pairs of ASCII hex digits.
    Hex,
}

/// The capability of a content codec: read a value from the wire, and write
/// one. A declared length counts wire bytes (characters, digits or bytes).
pub trait Decoder {
    /// What `decode` gives on `data` for `length` declared units: the value
    /// and the number of bytes read, or the error.
    spec fn decode_spec(&self, data: Seq<u8>, length: nat) -> Result<(Seq<u8>, nat), FieldError>;

    /// The wire form of a value.
    spec fn encode_spec(&self, value: Seq<u8>) -> Seq<u8>;

    /// Whether a value can be written in this encoding.
    spec fn accepts(&self, value: Seq<u8>) -> bool;

    fn decode(&self, data: &[u8], length: usize) -> (r: Result<(Vec<u8>, usize), FieldError>)
        ensures
            match r {
                Ok((v, n)) => self.decode_spec(data@, length as nat) == Ok::<_, FieldError>((v@, n as nat)),
                Err(e) => self.decode_spec(data@, length as nat) == Err::<(Seq<u8>, nat), _>(e),
            },
    ;

    fn check(&self, value: &[u8]) -> (r: bool)
        ensures
            r == self.accepts(value@),
    ;

    fn encode(&self, value: &[u8]) -> (r: Vec<u8>)
        requires
            value@.len() <= usize::MAX / 2,
        ensures
            r@ == self.encode_spec(value@),
    ;
}

fn check_all(data: &[u8], digits: bool) -> (r: bool)
    ensures
        r == if digits { all_digits(data@) } else { all_ascii(data@) },
{
    let mut i: usize = 0;
    while i < data.len()
        invariant
            i <= data@.len(),
            forall|j: int| 0 <= j < i ==> if digits { is_decimal_digit(#[trigger] data@[j]) } else { data@[j] < 128 },
        decreases data@.len() - i,
    {
        let b = data[i];
        if digits {
            if !(48 <= b && b <= 57) {
                return false;
            }
        } else if b >= 128 {
            return false;
        }
        i = i + 1;
    }
    true
}

fn hex_char_of(n: u8) -> (r: u8)
    requires
        n < 16,
    ensures
        r == hex_char(n),
{
    if n < 10 {
        n + 48
    } else {
        n + 55
    }
}

pub(crate) fn encode_hex_bytes(b: &[u8]) -> (r: Vec<u8>)
    ensures
        r@ == hex_encode(b@),
{
    let mut out: Vec<u8> = Vec::new();
    let mut i: usize = 0;
    proof {
        assert(b@.skip(0) =~= b@);
        assert(out@ + hex_encode(b@) =~= hex_encode(b@));
    }
    while i < b.len()
        invariant
            i <= b@.len(),
            out@ + hex_encode(b@.skip(i as int)) == hex_encode(b@),
        decreases b@.len() - i,
    {
        let x = b[i];
        let ghost before = out@;
        out.push(hex_char_of(x / 16));
        out.push(hex_char_of(x % 16));
        proof {
            let rest = b@.skip(i as int);
            assert(rest.skip(1) =~= b@.skip(i + 1));
            assert(out@ + hex_encode(b@.skip(i + 1)) =~= before + hex_encode(rest));
        }
        i = i + 1;
    }
    proof {
        assert(b@.skip(i as int) =~= Seq::<u8>::empty());
        assert(out@ + Seq::<u8>::empty() =~= out@);
    }
    out
}

impl Decoder for Encoding {
    open spec fn decode_spec(&self, data: Seq<u8>, length: nat) -> Result<(Seq<u8>, nat), FieldError> {
        if data.len() < length {
            Err(FieldError::Encoding)
        } else {
            let w = data.take(length as int);
            match self {
                Encoding::Numeric => if all_digits(w) { Ok((w, length)) } else { Err(FieldError::Encoding) },
                Encoding::Alphanumeric => if all_ascii(w) { Ok((w, length)) } else { Err(FieldError::Encoding) },
                Encoding::Binary => Ok((w, length)),
                Encoding::Hex => match hex_decode(w) {
                    Ok(b) => Ok((b, length)),
                    Err(_) => Err(FieldError::Encoding),
                },
            }
        }
    }

    open spec fn encode_spec(&self, value: Seq<u8>) -> Seq<u8> {
        match self {
            Encoding::Hex => hex_encode(value),
            _ => value,
        }
    }

    open spec fn accepts(&self, value: Seq<u8>) -> bool {
        match self {
            Encoding::Numeric => all_digits(value),
            Encoding::Alphanumeric => all_ascii(value),
            _ => true,
        }
    }

    fn decode(&self, data: &[u8], length: usize) -> (r: Result<(Vec<u8>, usize), FieldError>) {
        if data.len() < length {
            return Err(FieldError::Encoding);
        }
        let w = slice_subrange(data, 0, length);
        assert(w@ =~= data@.take(length as int));
        match self {
            Encoding::Numeric => if check_all(w, true) {
                Ok((slice_to_vec(w), length))
            } else {
                Err(FieldError::Encoding)
            },
            Encoding::Alphanumeric => if check_all(w, false) {
                Ok((slice_to_vec(w), length))
            } else {
                Err(FieldError::Encoding)
            },
            Encoding::Binary => Ok((slice_to_vec(w), length)),
            Encoding::Hex => match decode_hex(w) {
                Ok(b) => Ok((b, length)),
                Err(_) => Err(FieldError::Encoding),
            },
        }
    }

    fn check(&self, value: &[u8]) -> (r: bool) {
        match self {
            Encoding::Numeric => check_all(value, true),
            Encoding::Alphanumeric => check_all(value, false),
            _ => true,
        }
    }

    fn encode(&self, value: &[u8]) -> (r: Vec<u8>) {
        match self {
            Encoding::Hex => encode_hex_bytes(value),
            _ => slice_to_vec(value),
        }
    }
}

/// A value that an encoding accepts reads back, from its wire form, as the
/// same value, whatever follows it in the buffer.
pub proof fn lemma_content_round_trip(enc: Encoding, value: Seq<u8>, rest: Seq<u8>)
    requires
        enc.accepts(value),
    ensures
        enc.decode_spec(enc.encode_spec(value) + rest, enc.encode_spec(value).len())
            == Ok::<_, FieldError>((value, enc.encode_spec(value).len())),
{
    let w = enc.encode_spec(value);
    assert((w + rest).take(w.len() as int) =~= w);
    if enc is Hex {
        lemma_hex_round_trip(value);
    }
}

} // verus!
