//! Length prefixes: how a field tells the reader the length of its value.
use vstd::prelude::*;

use crate::codec::all_digits;
use crate::error::FieldError;
use crate::wire::is_decimal_digit;

verus! {

/// The number written by a run of ASCII decimal digits, most significant first.
pub open spec fn digits_value(s: Seq<u8>) -> nat
    decreases s.len(),
{
    if s.len() == 0 {
        0
    } else {
        digits_value(s.drop_last()) * 10 + (s.last() - 48) as nat
    }
}

/// How the length of a field's value is framed.
#[derive(Clone, Copy, Debug, PartialEq, Eq, Structural)]
pub enum LengthPrefix {
    /// No prefix: the value always has the spec's maximum length.
    Fixed,
    /// Two ASCII digits give the length.
    LL,
    /// Three ASCII digits give the length.
    LLL,
}

impl LengthPrefix {
    /// The number of digit bytes in the prefix.
    pub open spec fn width(&self) -> nat {
        match self {
            LengthPrefix::Fixed => 0,
            LengthPrefix::LL => 2,
            LengthPrefix::LLL => 3,
        }
    }
}

/// The capability of a length prefix: read the length in front of a value,
/// and write one.
pub trait Prefixer {
    /// What `decode_length` gives: the value's length and the number of
    /// prefix bytes read, or the error.
    spec fn decode_length_spec(&self, max_len: nat, data: Seq<u8>) -> Result<(nat, nat), FieldError>;

    /// The prefix written in front of a value of `length` units.
    spec fn encode_length_spec(&self, length: nat) -> Seq<u8>;

    /// Whether a value of `length` units can be framed under `max_len`.
    spec fn fits(&self, max_len: nat, length: nat) -> bool;

    fn decode_length(&self, max_len: usize, data: &[u8]) -> (r: Result<(usize, usize), FieldError>)
        ensures
            match r {
                Ok((l, n)) => self.decode_length_spec(max_len as nat, data@) == Ok::<_, FieldError>((l as nat, n as nat)),
                Err(e) => self.decode_length_spec(max_len as nat, data@) == Err::<(nat, nat), _>(e),
            },
    ;

    fn encode_length(&self, max_len: usize, length: usize) -> (r: Vec<u8>)
        requires
            self.fits(max_len as nat, length as nat),
        ensures
            r@ == self.encode_length_spec(length as nat),
    ;
}

impl Prefixer for LengthPrefix {
    open spec fn decode_length_spec(&self, max_len: nat, data: Seq<u8>) -> Result<(nat, nat), FieldError> {
        let w = self.width();
        if w == 0 {
            Ok((max_len, 0))
        } else if data.len() < w || !all_digits(data.take(w as int)) {
            Err(FieldError::Length)
        } else if digits_value(data.take(w as int)) > max_len {
            Err(FieldError::Length)
        } else {
            Ok((digits_value(data.take(w as int)), w))
        }
    }

    open spec fn encode_length_spec(&self, length: nat) -> Seq<u8> {
        match self {
            LengthPrefix::Fixed => seq![],
            LengthPrefix::LL => seq![(48 + length / 10) as u8, (48 + length % 10) as u8],
            LengthPrefix::LLL => seq![
                (48 + length / 100) as u8,
                (48 + (length / 10) % 10) as u8,
                (48 + length % 10) as u8,
            ],
        }
    }

    open spec fn fits(&self, max_len: nat, length: nat) -> bool {
        match self {
            LengthPrefix::Fixed => length == max_len,
            LengthPrefix::LL => length <= max_len && length <= 99,
            LengthPrefix::LLL => length <= max_len && length <= 999,
        }
    }

    fn decode_length(&self, max_len: usize, data: &[u8]) -> (r: Result<(usize, usize), FieldError>) {
        let w: usize = match self {
            LengthPrefix::Fixed => 0,
            LengthPrefix::LL => 2,
            LengthPrefix::LLL => 3,
        };
        if w == 0 {
            return Ok((max_len, 0));
        }
        if data.len() < w {
            return Err(FieldError::Length);
        }
        let mut value: usize = 0;
        let mut i: usize = 0;
        while i < w
            invariant
                w == self.width(),
                w <= 3,
                w <= data@.len(),
                i <= w,
                all_digits(data@.take(i as int)),
                value == digits_value(data@.take(i as int)),
                value < 1000,
                i == 0 ==> value == 0,
                i == 1 ==> value < 10,
                i == 2 ==> value < 100,
            decreases w - i,
        {
            let b = data[i];
            if !(48 <= b && b <= 57) {
                proof {
                    assert(data@.take(w as int)[i as int] == b);
                }
                return Err(FieldError::Length);
            }
            proof {
                let t = data@.take(i + 1);
                assert(t.drop_last() =~= data@.take(i as int));
                assert(t.last() == b);
            }
            value = value * 10 + (b - 48) as usize;
            i = i + 1;
        }
        if value > max_len {
            return Err(FieldError::Length);
        }
        Ok((value, w))
    }

    fn encode_length(&self, max_len: usize, length: usize) -> (r: Vec<u8>) {
        match self {
            LengthPrefix::Fixed => Vec::new(),
            LengthPrefix::LL => vec![(48 + length / 10) as u8, (48 + length % 10) as u8],
            LengthPrefix::LLL => vec![
                (48 + length / 100) as u8,
                (48 + (length / 10) % 10) as u8,
                (48 + length % 10) as u8,
            ],
        }
    }
}

/// A length written by a prefix reads back as the same length, whatever
/// follows the prefix.
pub proof fn lemma_prefix_round_trip(p: LengthPrefix, max_len: nat, length: nat, rest: Seq<u8>)
    requires
        p.fits(max_len, length),
    ensures
        p.decode_length_spec(max_len, p.encode_length_spec(length) + rest)
            == Ok::<_, FieldError>((length, p.width())),
        p.encode_length_spec(length).len() == p.width(),
{
    let e = p.encode_length_spec(length);
    let d = e + rest;
    assert(d.take(p.width() as int) =~= e);
    match p {
        LengthPrefix::Fixed => {},
        LengthPrefix::LL => {
            let e1 = e.drop_last();
            assert(e1.drop_last() =~= Seq::<u8>::empty());
            assert(digits_value(e1.drop_last()) == 0);
            assert(e1.last() == e[0]);
            assert(digits_value(e1) == length / 10);
        },
        LengthPrefix::LLL => {
            let e2 = e.drop_last().drop_last();
            assert(e2.drop_last() =~= Seq::<u8>::empty());
            assert(digits_value(e2.drop_last()) == 0);
            assert(e2.last() == e[0]);
            assert(digits_value(e2) == length / 100);
            assert(digits_value(e.drop_last()) == (length / 100) * 10 + (length / 10) % 10);
            assert(((length / 100) * 10 + (length / 10) % 10) == length / 10);
        },
    }
}

} // verus!
