//! Field specs: one field's framing, composed of a length prefix, a padder
//! and a content codec, and the pipeline that reads and writes it.
use vstd::prelude::*;
use vstd::slice::{slice_subrange, slice_to_vec};

use crate::codec::{all_digits, lemma_content_round_trip, Decoder, Encoding};
use crate::error::FieldError;
use crate::numeric::{numeric_value, parse_digits};
use crate::pad::{lemma_pad_round_trip, Padder, Padding};
use crate::prefix::{digits_value, lemma_prefix_round_trip, LengthPrefix, Prefixer};

verus! {

/// The pipeline that reads one field: the prefix first, then the value
/// bytes, with the padding stripped before the content codec sees them.
#[derive(Clone, Copy, Debug, PartialEq, Eq)]
pub struct DefaultUnpacker;

/// A field's value as its encoding gives it: an integer for a numeric
/// field, the bytes for the others.
#[derive(Debug, PartialEq, Eq)]
pub enum FieldValue {
    Number(i64),
    Bytes(Vec<u8>),
}

/// How one field is framed on the wire.
pub struct Spec {
    /// The maximum length of the value (characters, digits or bytes); the
    /// exact length for a fixed-length field.
    pub length: usize,
    /// What the field holds.
    pub description: String,
    /// How the value bytes are encoded.
    pub enc: Encoding,
    /// How the length is framed.
    pub pref: LengthPrefix,
    /// How the value is padded to its width.
    pub pad: Padding,
    pub unpacker: DefaultUnpacker,
}

impl Spec {
    pub fn new(length: usize, description: String, enc: Encoding, pref: LengthPrefix, pad: Padding) -> (r: Spec)
        ensures
            r.length == length,
            r.description == description,
            r.enc == enc,
            r.pref == pref,
            r.pad == pad,
    {
        Spec { length, description, enc, pref, pad, unpacker: DefaultUnpacker }
    }

    /// The typed value of bytes read under this spec: `None` for numeric
    /// bytes that are not digits or do not fit in an `i64`.
    pub fn typed_value(&self, raw: &[u8]) -> (r: Option<FieldValue>)
        ensures
            self.enc is Numeric ==> match numeric_value(raw@) {
                Some(v) => r == Some(FieldValue::Number(v as i64)),
                None => r is None,
            },
            !(self.enc is Numeric) ==> (r matches Some(FieldValue::Bytes(b)) && b@ == raw@),
    {
        match self.enc {
            Encoding::Numeric => match parse_digits(raw) {
                Some(v) => Some(FieldValue::Number(v)),
                None => None,
            },
            _ => Some(FieldValue::Bytes(slice_to_vec(raw))),
        }
    }

    /// What reading this field from the front of `data` gives: the value and
    /// the number of bytes read, or the error.
    pub open spec fn unpack_spec(&self, data: Seq<u8>) -> Result<(Seq<u8>, nat), FieldError> {
        match self.pref.decode_length_spec(self.length as nat, data) {
            Err(e) => Err(e),
            Ok((len, n)) => if data.len() < n + len {
                Err(FieldError::Truncated)
            } else {
                let wire = self.pad.unpad_spec(data.subrange(n as int, (n + len) as int));
                match self.enc.decode_spec(wire, wire.len()) {
                    Ok((v, _)) => Ok((v, n + len)),
                    Err(e) => Err(e),
                }
            },
        }
    }

    /// The width that the encoded value is padded to.
    pub open spec fn pad_width(&self, encoded_len: nat) -> nat {
        if self.pref is Fixed {
            self.length as nat
        } else {
            encoded_len
        }
    }

    /// The encoded and padded value, without its prefix.
    pub open spec fn body_spec(&self, value: Seq<u8>) -> Seq<u8> {
        let w = self.enc.encode_spec(value);
        self.pad.pad_spec(w, self.pad_width(w.len()))
    }

    /// The wire form of a value: its prefix, then its encoded, padded bytes.
    pub open spec fn pack_spec(&self, value: Seq<u8>) -> Seq<u8> {
        self.pref.encode_length_spec(self.body_spec(value).len()) + self.body_spec(value)
    }

    /// Whether `value` can be written under this spec so that it reads back.
    pub open spec fn can_pack(&self, value: Seq<u8>) -> bool {
        &&& value.len() <= usize::MAX / 4
        &&& self.enc.accepts(value)
        &&& self.pad.keeps(self.enc.encode_spec(value))
        &&& self.pref.fits(self.length as nat, self.body_spec(value).len())
    }

    /// Writes `value` under this spec; `None` when it cannot be written so
    /// that it reads back (see `can_pack`).
    pub fn pack(&self, value: &[u8]) -> (r: Option<Vec<u8>>)
        ensures
            r is Some <==> self.can_pack(value@),
            r matches Some(b) ==> b@ == self.pack_spec(value@),
    {
        if value.len() > usize::MAX / 4 {
            return None;
        }
        if !self.enc.check(value) {
            return None;
        }
        let w = self.enc.encode(value);
        if !self.pad.keeps_exec(&w) {
            return None;
        }
        let width: usize = match self.pref {
            LengthPrefix::Fixed => self.length,
            _ => w.len(),
        };
        let mut body = self.pad.pad(&w, width);
        let fits = match self.pref {
            LengthPrefix::Fixed => body.len() == self.length,
            LengthPrefix::LL => body.len() <= self.length && body.len() <= 99,
            LengthPrefix::LLL => body.len() <= self.length && body.len() <= 999,
        };
        if !fits {
            return None;
        }
        let mut out = self.pref.encode_length(self.length, body.len());
        out.append(&mut body);
        Some(out)
    }
}

impl DefaultUnpacker {
    /// Reads the field that `spec` describes from the front of
    /// `packed_field_value`: the value and the number of bytes read.
    pub fn unpack(&self, packed_field_value: &[u8], spec: &Spec) -> (r: Result<(Vec<u8>, usize), FieldError>)
        ensures
            match r {
                Ok((v, n)) => spec.unpack_spec(packed_field_value@) == Ok::<_, FieldError>((v@, n as nat)),
                Err(e) => spec.unpack_spec(packed_field_value@) == Err::<(Seq<u8>, nat), _>(e),
            },
    {
        let (value_length, pref_bytes) = spec.pref.decode_length(spec.length, packed_field_value)?;
        if packed_field_value.len() - pref_bytes < value_length {
            return Err(FieldError::Truncated);
        }
        let end: usize = pref_bytes + value_length;
        let raw = slice_subrange(packed_field_value, pref_bytes, end);
        let wire = spec.pad.unpad(raw);
        let (value, _) = spec.enc.decode(wire.as_slice(), wire.len())?;
        Ok((value, end))
    }
}

/// A value that a field spec can write reads back as the same value, and
/// the reader stops exactly at the end of what was written.
pub proof fn lemma_field_round_trip(s: &Spec, value: Seq<u8>, rest: Seq<u8>)
    requires
        s.can_pack(value),
    ensures
        s.unpack_spec(s.pack_spec(value) + rest) == Ok::<_, FieldError>((value, s.pack_spec(value).len())),
{
    let w = s.enc.encode_spec(value);
    let body = s.body_spec(value);
    let e = s.pref.encode_length_spec(body.len());
    let data = s.pack_spec(value) + rest;
    lemma_prefix_round_trip(s.pref, s.length as nat, body.len(), body + rest);
    assert(data =~= e + (body + rest));
    assert(data.subrange(e.len() as int, (e.len() + body.len()) as int) =~= body);
    lemma_pad_round_trip(s.pad, w, s.pad_width(w.len()));
    lemma_content_round_trip(s.enc, value, Seq::<u8>::empty());
    assert(w + Seq::<u8>::empty() =~= w);
}

/// Reading a field from a buffer that ends before the field's declared end
/// fails; reading it from one that ends at or after that end gives the same
/// result as from the whole buffer.
pub proof fn lemma_field_truncation(s: &Spec, data: Seq<u8>, t: nat)
    requires
        t <= data.len(),
        s.unpack_spec(data) is Ok,
    ensures
        t < s.unpack_spec(data)->Ok_0.1 ==> s.unpack_spec(data.take(t as int)) is Err,
        t >= s.unpack_spec(data)->Ok_0.1 ==> s.unpack_spec(data.take(t as int)) == s.unpack_spec(data),
{
    let d = data.take(t as int);
    let w = s.pref.width();
    if t >= w {
        assert(d.take(w as int) =~= data.take(w as int));
    }
    if let Ok((len, n)) = s.pref.decode_length_spec(s.length as nat, data) {
        if t >= n + len {
            assert(d.subrange(n as int, (n + len) as int) =~= data.subrange(n as int, (n + len) as int));
        }
    }
}

/// A variable-length field whose prefix declares more than the spec's
/// maximum length fails with a length error, whatever its content bytes are.
pub proof fn lemma_length_bound(s: &Spec, data: Seq<u8>)
    requires
        !(s.pref is Fixed),
        data.len() >= s.pref.width(),
        all_digits(data.take(s.pref.width() as int)),
        digits_value(data.take(s.pref.width() as int)) > s.length,
    ensures
        s.unpack_spec(data) == Err::<(Seq<u8>, nat), _>(FieldError::Length),
{
}

} // verus!
