//! Numeric fields: ASCII decimal digits on the wire, an integer in memory.
use vstd::prelude::*;

use crate::codec::all_digits;
use crate::error::FieldError;
use crate::prefix::digits_value;
use crate::spec::Spec;
use crate::wire::is_decimal_digit;

verus! {

/// The integer that the digits of a numeric field stand for; an empty
/// value stands for 0, and a value that is not all digits or does not fit
/// in an `i64` stands for nothing.
pub open spec fn numeric_value(b: Seq<u8>) -> Option<int> {
    if all_digits(b) && digits_value(b) <= i64::MAX {
        Some(digits_value(b) as int)
    } else {
        None
    }
}

proof fn lemma_digits_value_prefix(s: Seq<u8>, k: int)
    requires
        0 <= k <= s.len(),
    ensures
        digits_value(s.take(k)) <= digits_value(s),
    decreases s.len(),
{
    if k < s.len() {
        lemma_digits_value_prefix(s.drop_last(), k);
        assert(s.drop_last().take(k) =~= s.take(k));
    } else {
        assert(s.take(k) =~= s);
    }
}

/// The integer that ASCII digits stand for (0 for none), or `None` when a
/// byte is not a digit or the number does not fit in an `i64`.
pub fn parse_digits(b: &[u8]) -> (r: Option<i64>)
    ensures
        match numeric_value(b@) {
            Some(v) => r == Some(v as i64),
            None => r is None,
        },
{
    let mut value: i64 = 0;
    let mut i: usize = 0;
    while i < b.len()
        invariant
            i <= b@.len(),
            all_digits(b@.take(i as int)),
            value == digits_value(b@.take(i as int)),
        decreases b@.len() - i,
    {
        let c = b[i];
        if !(48 <= c && c <= 57) {
            proof {
                assert(!is_decimal_digit(b@[i as int]));
            }
            return None;
        }
        let d: i64 = (c - 48) as i64;
        proof {
            let t = b@.take(i + 1);
            assert(t.drop_last() =~= b@.take(i as int));
            assert(t.last() == c);
        }
        if value > (i64::MAX - d) / 10 {
            proof {
                lemma_digits_value_prefix(b@, i + 1);
                assert(forall|j: int| 0 <= j < i + 1 ==> b@.take(i + 1)[j] == b@[j]);
                if all_digits(b@) {
                    assert(digits_value(b@.take(i + 1)) > i64::MAX) by (nonlinear_arith)
                        requires
                            value > (i64::MAX - d) / 10,
                            digits_value(b@.take(i + 1)) == value * 10 + d,
                            0 <= d < 10,
                    ;
                }
            }
            return None;
        }
        value = value * 10 + d;
        i = i + 1;
    }
    assert(b@.take(i as int) =~= b@);
    Some(value)
}

/// Something that can read its value from the wire and be given its value
/// as raw bytes.
pub trait Field {
    fn unpack(&mut self, data: &[u8]) -> Result<usize, FieldError>;

    fn set_bytes(&mut self, data: &[u8]) -> Result<(), FieldError>;
}

/// A numeric field: its spec and the integer last read.
pub struct Numeric {
    value: i64,
    spec: Spec,
}

impl Numeric {
    pub closed spec fn spec_value(&self) -> i64 {
        self.value
    }

    pub closed spec fn spec_spec(&self) -> &Spec {
        &self.spec
    }

    /// A numeric field with value 0.
    pub fn new(spec: Spec) -> (r: Self)
        ensures
            r.spec_value() == 0,
            r.spec_spec() == spec,
    {
        Numeric { value: 0, spec }
    }

    /// The integer last read.
    pub fn value(&self) -> (r: i64)
        ensures
            r == self.spec_value(),
    {
        self.value
    }

    /// Takes the value from its digits; the value is left as it was when
    /// they do not give an `i64`.
    pub fn set_bytes(&mut self, b: &[u8]) -> (r: Result<(), FieldError>)
        ensures
            final(self).spec_spec() == old(self).spec_spec(),
            match numeric_value(b@) {
                Some(v) => r is Ok && final(self).spec_value() == v,
                None => r == Err::<(), _>(FieldError::Encoding) && final(self).spec_value() == old(self).spec_value(),
            },
    {
        match parse_digits(b) {
            Some(v) => {
                self.value = v;
                Ok(())
            },
            None => Err(FieldError::Encoding),
        }
    }

    /// Reads the field through its spec's pipeline and takes the value from
    /// the digits read: the number of bytes read.
    pub fn unpack(&mut self, data: &[u8]) -> (r: Result<usize, FieldError>)
        ensures
            final(self).spec_spec() == old(self).spec_spec(),
            match old(self).spec_spec().unpack_spec(data@) {
                Err(e) => r == Err::<usize, _>(e) && final(self).spec_value() == old(self).spec_value(),
                Ok((raw, n)) => match numeric_value(raw) {
                    Some(v) => r == Ok::<_, FieldError>(n as usize) && final(self).spec_value() == v,
                    None => r == Err::<usize, _>(FieldError::Encoding)
                        && final(self).spec_value() == old(self).spec_value(),
                },
            },
    {
        let (raw, bytes_read) = self.spec.unpacker.unpack(data, &self.spec)?;
        self.set_bytes(raw.as_slice())?;
        Ok(bytes_read)
    }
}

impl Field for Numeric {
    fn unpack(&mut self, data: &[u8]) -> Result<usize, FieldError> {
        Numeric::unpack(self, data)
    }

    fn set_bytes(&mut self, data: &[u8]) -> Result<(), FieldError> {
        Numeric::set_bytes(self, data)
    }
}

} // verus!
