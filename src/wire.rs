//! Text-level parsing of a message head: the MTI, a hex-coded bitmap and a
//! field framed by a two-digit ASCII length.
use vstd::prelude::*;
use vstd::slice::slice_subrange;
use vstd::string::StringExecFns;
use vstd::utf8::{decode_utf8, valid_utf8};

use crate::bitmap::{bit_of, lemma_hex_decode_len};

verus! {

/// Relies on std::str::from_utf8: it succeeds exactly on well-formed UTF-8,
/// and the text it hands back is the one those bytes encode.
#[verifier::external_body]
pub(crate) fn utf8_text(b: &[u8]) -> (r: Option<&str>)
    ensures
        r is Some <==> valid_utf8(b@),
        r matches Some(s) ==> s@ == decode_utf8(b@),
{
    std::str::from_utf8(b).ok()
}

pub open spec fn is_hex_digit(b: u8) -> bool {
    (48 <= b && b <= 57) || (65 <= b && b <= 70) || (97 <= b && b <= 102)
}

pub open spec fn hex_digit_value(b: u8) -> u8 {
    if b <= 57 {
        (b - 48) as u8
    } else if b <= 70 {
        (b - 55) as u8
    } else {
        (b - 87) as u8
    }
}

pub open spec fn is_decimal_digit(b: u8) -> bool {
    48 <= b && b <= 57
}

/// Why a run of hex characters could not be turned into bytes.
#[derive(Clone, Copy, Debug, PartialEq, Eq)]
pub enum HexError {
    OddLength,
    InvalidUtf8,
    InvalidDigit,
}

/// The bytes that a run of hex characters stands for, two characters per
/// byte, high nibble first; the first malformed pair decides the error.
pub open spec fn hex_decode(hex: Seq<u8>) -> Result<Seq<u8>, HexError>
    decreases hex.len(),
{
    if hex.len() % 2 != 0 {
        Err(HexError::OddLength)
    } else if hex.len() == 0 {
        Ok(seq![])
    } else if !(is_hex_digit(hex[0]) && is_hex_digit(hex[1])) {
        if !valid_utf8(hex.take(2)) {
            Err(HexError::InvalidUtf8)
        } else {
            Err(HexError::InvalidDigit)
        }
    } else {
        match hex_decode(hex.skip(2)) {
            Ok(rest) => Ok(seq![(hex_digit_value(hex[0]) * 16 + hex_digit_value(hex[1])) as u8] + rest),
            Err(e) => Err(e),
        }
    }
}

pub open spec fn hex_error_text(e: HexError) -> Seq<char> {
    match e {
        HexError::OddLength => "Hex string has an odd number of characters"@,
        HexError::InvalidUtf8 => "Invalid UTF-8 sequence"@,
        HexError::InvalidDigit => "Invalid hex character"@,
    }
}

pub open spec fn prepend_ok(s: Seq<u8>, r: Result<Seq<u8>, HexError>) -> Result<Seq<u8>, HexError> {
    match r {
        Ok(x) => Ok(s + x),
        Err(e) => Err(e),
    }
}

fn hex_nibble(b: u8) -> (r: u8)
    requires
        is_hex_digit(b),
    ensures
        r == hex_digit_value(b),
        r < 16,
{
    if b <= 57 {
        b - 48
    } else if b <= 70 {
        b - 55
    } else {
        b - 87
    }
}

pub(crate) fn decode_hex(hex: &[u8]) -> (r: Result<Vec<u8>, HexError>)
    ensures
        match hex_decode(hex@) {
            Ok(b) => r matches Ok(v) && v@ == b,
            Err(e) => r == Err::<Vec<u8>, HexError>(e),
        },
{
    if hex.len() % 2 != 0 {
        return Err(HexError::OddLength);
    }
    let mut out: Vec<u8> = Vec::with_capacity(hex.len() / 2);
    let mut i: usize = 0;
    proof {
        assert(hex@.skip(0) =~= hex@);
        match hex_decode(hex@) {
            Ok(x) => assert(out@ + x =~= x),
            Err(_) => {},
        }
    }
    while i < hex.len()
        invariant
            i <= hex@.len(),
            i % 2 == 0,
            hex@.len() % 2 == 0,
            hex_decode(hex@) == prepend_ok(out@, hex_decode(hex@.skip(i as int))),
        decreases hex@.len() - i,
    {
        let rest = Ghost(hex@.skip(i as int));
        assert(rest@.take(2) =~= hex@.subrange(i as int, i + 2));
        assert(rest@.skip(2) =~= hex@.skip(i + 2));
        let a = hex[i];
        let b = hex[i + 1];
        if !(is_hex(a) && is_hex(b)) {
            let pair = slice_subrange(hex, i, i + 2);
            if utf8_text(pair).is_none() {
                return Err(HexError::InvalidUtf8);
            }
            return Err(HexError::InvalidDigit);
        }
        let v: u8 = hex_nibble(a) * 16 + hex_nibble(b);
        let ghost before = out@;
        out.push(v);
        proof {
            assert(out@ =~= before + seq![v]);
            match hex_decode(hex@.skip(i + 2)) {
                Ok(x) => assert(before + (seq![v] + x) =~= out@ + x),
                Err(_) => {},
            }
        }
        i = i + 2;
    }
    proof {
        assert(hex@.skip(i as int) =~= Seq::<u8>::empty());
        assert(out@ + Seq::<u8>::empty() =~= out@);
    }
    Ok(out)
}

fn is_hex(b: u8) -> (r: bool)
    ensures
        r == is_hex_digit(b),
{
    (48 <= b && b <= 57) || (65 <= b && b <= 70) || (97 <= b && b <= 102)
}

fn hex_error_string(e: HexError) -> (r: String)
    ensures
        r@ == hex_error_text(e),
{
    match e {
        HexError::OddLength => String::from_str("Hex string has an odd number of characters"),
        HexError::InvalidUtf8 => String::from_str("Invalid UTF-8 sequence"),
        HexError::InvalidDigit => String::from_str("Invalid hex character"),
    }
}

/// Turns hex characters into bytes, two characters per byte.
pub fn hex_to_bytes(hex: &[u8]) -> (r: Result<Vec<u8>, String>)
    ensures
        match hex_decode(hex@) {
            Ok(b) => r matches Ok(v) && v@ == b,
            Err(e) => r matches Err(s) && s@ == hex_error_text(e),
        },
{
    match decode_hex(hex) {
        Ok(v) => Ok(v),
        Err(e) => Err(hex_error_string(e)),
    }
}

/// What reading a four-byte MTI from the front of `input` gives: the rest
/// of the input and the MTI text, or the error message.
pub open spec fn mti_result(input: Seq<u8>) -> Result<(Seq<u8>, Seq<char>), Seq<char>> {
    if input.len() < 4 {
        Err("Input too short to contain MTI"@)
    } else if !valid_utf8(input.take(4)) {
        Err("Invalid MTI format"@)
    } else {
        Ok((input.skip(4), decode_utf8(input.take(4))))
    }
}

/// What reading a hex bitmap from the front of `input` gives: the rest of
/// the input and the bitmap bytes, or the error. Sixteen characters give
/// the primary half; when its bit 1 is set, sixteen more give the
/// secondary half.
pub open spec fn bitmap_result(input: Seq<u8>) -> Result<(Seq<u8>, Seq<u8>), Seq<char>> {
    if input.len() < 16 {
        Err("Input too short to contain bitmap"@)
    } else {
        match hex_decode(input.take(16)) {
            Err(e) => Err(hex_error_text(e)),
            Ok(p) => if p[0] < 128 {
                Ok((input.skip(16), p))
            } else if input.len() < 32 {
                Err("Input too short to contain secondary bitmap"@)
            } else {
                match hex_decode(input.subrange(16, 32)) {
                    Err(e) => Err(hex_error_text(e)),
                    Ok(q) => Ok((input.skip(32), p + q)),
                }
            },
        }
    }
}

pub open spec fn two_digit_value(a: u8, b: u8) -> nat {
    ((a - 48) * 10 + (b - 48)) as nat
}

/// What reading a field with a two-digit ASCII length prefix gives: the rest
/// of the input and the field text, or the error.
pub open spec fn variable_field_result(input: Seq<u8>) -> Result<(Seq<u8>, Seq<char>), Seq<char>> {
    if input.len() < 2 {
        Err("Input too short to contain field length"@)
    } else if !valid_utf8(input.take(2)) {
        Err("Invalid length format"@)
    } else if !(is_decimal_digit(input[0]) && is_decimal_digit(input[1])) {
        Err("Invalid length value"@)
    } else {
        let end = 2 + two_digit_value(input[0], input[1]);
        if input.len() < end {
            Err("Input too short to contain field data"@)
        } else if !valid_utf8(input.subrange(2, end as int)) {
            Err("Invalid field data format"@)
        } else {
            Ok((input.skip(end as int), decode_utf8(input.subrange(2, end as int))))
        }
    }
}

/// Reads the four-byte message type indicator at the front of `input`.
pub fn parse_mti(input: &[u8]) -> (r: Result<(&[u8], String), String>)
    ensures
        match r {
            Ok((rest, mti)) => mti_result(input@) == Ok::<_, Seq<char>>((rest@, mti@)),
            Err(e) => mti_result(input@) == Err::<(Seq<u8>, Seq<char>), _>(e@),
        },
{
    if input.len() < 4 {
        return Err(String::from_str("Input too short to contain MTI"));
    }
    let mti_bytes = slice_subrange(input, 0, 4);
    assert(mti_bytes@ =~= input@.take(4));
    match utf8_text(mti_bytes) {
        Some(mti) => {
            let rest = slice_subrange(input, 4, input.len());
            assert(rest@ =~= input@.skip(4));
            Ok((rest, String::from_str(mti)))
        },
        None => Err(String::from_str("Invalid MTI format")),
    }
}

/// Reads a bitmap written in hex: sixteen characters, and sixteen more
/// when bit 1 announces the secondary half.
pub fn parse_bitmap(input: &[u8]) -> (r: Result<(&[u8], Vec<u8>), String>)
    ensures
        match r {
            Ok((rest, bits)) => bitmap_result(input@) == Ok::<_, Seq<char>>((rest@, bits@)),
            Err(e) => bitmap_result(input@) == Err::<(Seq<u8>, Seq<u8>), _>(e@),
        },
{
    if input.len() < 16 {
        return Err(String::from_str("Input too short to contain bitmap"));
    }
    let hex_bitmap = slice_subrange(input, 0, 16);
    assert(hex_bitmap@ =~= input@.take(16));
    let mut bitmap = hex_to_bytes(hex_bitmap)?;
    proof {
        lemma_hex_decode_len(hex_bitmap@);
    }
    if bitmap[0] < 128 {
        let rest = slice_subrange(input, 16, input.len());
        assert(rest@ =~= input@.skip(16));
        return Ok((rest, bitmap));
    }
    if input.len() < 32 {
        return Err(String::from_str("Input too short to contain secondary bitmap"));
    }
    let hex_secondary = slice_subrange(input, 16, 32);
    let mut secondary = hex_to_bytes(hex_secondary)?;
    bitmap.append(&mut secondary);
    let rest = slice_subrange(input, 32, input.len());
    assert(rest@ =~= input@.skip(32));
    Ok((rest, bitmap))
}

/// Reads a field whose length is given by two ASCII digits in front of it.
pub fn parse_variable_field(input: &[u8]) -> (r: Result<(&[u8], String), String>)
    ensures
        match r {
            Ok((rest, data)) => variable_field_result(input@) == Ok::<_, Seq<char>>((rest@, data@)),
            Err(e) => variable_field_result(input@) == Err::<(Seq<u8>, Seq<char>), _>(e@),
        },
{
    if input.len() < 2 {
        return Err(String::from_str("Input too short to contain field length"));
    }
    let length_bytes = slice_subrange(input, 0, 2);
    assert(length_bytes@ =~= input@.take(2));
    if utf8_text(length_bytes).is_none() {
        return Err(String::from_str("Invalid length format"));
    }
    let a = input[0];
    let b = input[1];
    if !(48 <= a && a <= 57 && 48 <= b && b <= 57) {
        return Err(String::from_str("Invalid length value"));
    }
    let length: usize = ((a - 48) * 10 + (b - 48)) as usize;
    if input.len() - 2 < length {
        return Err(String::from_str("Input too short to contain field data"));
    }
    let field_data = slice_subrange(input, 2, 2 + length);
    match utf8_text(field_data) {
        Some(data) => {
            let rest = slice_subrange(input, 2 + length, input.len());
            assert(rest@ =~= input@.skip(2 + length));
            Ok((rest, String::from_str(data)))
        },
        None => Err(String::from_str("Invalid field data format")),
    }
}

/// A length-prefixed field cut short anywhere before its end does not read:
/// the error says the length or the data is missing.
pub proof fn lemma_variable_field_truncated(input: Seq<u8>, cut: nat)
    requires
        variable_field_result(input) is Ok,
        cut < input.len() - variable_field_result(input)->Ok_0.0.len(),
    ensures
        variable_field_result(input.take(cut as int)) == Err::<(Seq<u8>, Seq<char>), _>(
            if cut < 2 { "Input too short to contain field length"@ } else { "Input too short to contain field data"@ },
        ),
{
    if cut >= 2 {
        let d = input.take(cut as int);
        assert(d.take(2) =~= input.take(2));
        assert(d[0] == input[0] && d[1] == input[1]);
    }
}

/// A message as read by `parse_message`: the MTI text, the bitmap bytes,
/// and the text of each field whose bit is set, by ascending number.
pub struct ParsedMessage {
    pub mti: String,
    pub bitmap: Vec<u8>,
    pub fields: Vec<(u8, String)>,
}

/// Why `parse_message` failed: the part that could not be read, with the
/// reason.
#[derive(Debug, PartialEq, Eq)]
pub enum MessageError {
    Mti(String),
    Bitmap(String),
    Field(u8, String),
}

impl MessageError {
    pub open spec fn reason(&self) -> Seq<char> {
        match self {
            MessageError::Mti(s) => s@,
            MessageError::Bitmap(s) => s@,
            MessageError::Field(_, s) => s@,
        }
    }
}

pub open spec fn texts_view(fields: Seq<(u8, String)>) -> Seq<(u8, Seq<char>)> {
    fields.map_values(|p: (u8, String)| (p.0, p.1@))
}

/// The state of reading, from `data`, the length-prefixed fields whose bits
/// below `k` are set in `bm` (from bit 2 on): the fields read and what is
/// left of the input, or the number of the field that failed and why.
pub open spec fn text_walk(bm: Seq<u8>, data: Seq<u8>, k: nat) -> Result<(Seq<(u8, Seq<char>)>, Seq<u8>), (u8, Seq<char>)>
    decreases k,
{
    if k <= 2 {
        Ok((seq![], data))
    } else {
        match text_walk(bm, data, (k - 1) as nat) {
            Err(e) => Err(e),
            Ok((fs, rest)) => {
                let i = (k - 1) as int;
                if !bit_of(bm, i) {
                    Ok((fs, rest))
                } else {
                    match variable_field_result(rest) {
                        Err(e) => Err((i as u8, e)),
                        Ok((after, text)) => Ok((fs.push((i as u8, text)), after)),
                    }
                }
            },
        }
    }
}

proof fn lemma_text_walk_err(bm: Seq<u8>, data: Seq<u8>, k: nat, k2: nat)
    requires
        k <= k2,
        text_walk(bm, data, k) is Err,
    ensures
        text_walk(bm, data, k2) == text_walk(bm, data, k),
    decreases k2,
{
    if k < k2 {
        lemma_text_walk_err(bm, data, k, (k2 - 1) as nat);
    }
}

/// Reads the MTI, the bitmap, then a length-prefixed field for each set
/// bit from 2 to the last bit, in ascending order. Any part that does not
/// read makes the whole read fail, naming that part.
pub fn parse_message(input: &[u8]) -> (r: Result<ParsedMessage, MessageError>)
    ensures
        match r {
            Ok(m) => {
                &&& mti_result(input@) matches Ok((after_mti, mti))
                &&& m.mti@ == mti
                &&& bitmap_result(after_mti) matches Ok((after_bitmap, bits))
                &&& m.bitmap@ == bits
                &&& text_walk(bits, after_bitmap, 8 * bits.len() + 1) matches Ok((fs, _))
                &&& texts_view(m.fields@) == fs
            },
            Err(e) => match mti_result(input@) {
                Err(me) => e is Mti && e.reason() == me,
                Ok((after_mti, _)) => match bitmap_result(after_mti) {
                    Err(be) => e is Bitmap && e.reason() == be,
                    Ok((after_bitmap, bits)) => text_walk(bits, after_bitmap, 8 * bits.len() + 1) matches Err((j, fe))
                        && e matches MessageError::Field(n, _) && n == j && e.reason() == fe,
                },
            },
        },
{
    let (after_mti, mti) = match parse_mti(input) {
        Ok(x) => x,
        Err(e) => return Err(MessageError::Mti(e)),
    };
    let (after_bitmap, bitmap) = match parse_bitmap(after_mti) {
        Ok(x) => x,
        Err(e) => return Err(MessageError::Bitmap(e)),
    };
    proof {
        lemma_hex_decode_len(after_mti@.take(16));
        if bitmap@.len() > 8 {
            lemma_hex_decode_len(after_mti@.subrange(16, 32));
        }
    }
    let ghost bm = bitmap@;
    let nbits: usize = 8 * bitmap.len();
    let mut fields: Vec<(u8, String)> = Vec::new();
    let mut rest = after_bitmap;
    let mut i: usize = 2;
    assert(texts_view(fields@) =~= Seq::<(u8, Seq<char>)>::empty());
    while i <= nbits
        invariant
            mti_result(input@) == Ok::<_, Seq<char>>((after_mti@, mti@)),
            bitmap_result(after_mti@) == Ok::<_, Seq<char>>((after_bitmap@, bm)),
            bitmap@ == bm,
            bm.len() == 8 || bm.len() == 16,
            nbits == 8 * bm.len(),
            2 <= i <= nbits + 1,
            text_walk(bm, after_bitmap@, i as nat) == Ok::<_, (u8, Seq<char>)>((texts_view(fields@), rest@)),
        decreases nbits + 1 - i,
    {
        if (bitmap[(i - 1) / 8] >> ((7 - (i - 1) % 8) as u8)) & 1 == 1 {
            match parse_variable_field(rest) {
                Ok((after, text)) => {
                    let ghost before = fields@;
                    let ghost t = text@;
                    fields.push((i as u8, text));
                    assert(texts_view(fields@) =~= texts_view(before).push((i as u8, t)));
                    rest = after;
                },
                Err(e) => {
                    proof {
                        assert(text_walk(bm, after_bitmap@, (i + 1) as nat)
                            == Err::<(Seq<(u8, Seq<char>)>, Seq<u8>), _>((i as u8, e@)));
                        lemma_text_walk_err(bm, after_bitmap@, (i + 1) as nat, (nbits + 1) as nat);
                    }
                    return Err(MessageError::Field(i as u8, e));
                },
            }
        }
        i = i + 1;
    }
    Ok(ParsedMessage { mti, bitmap, fields })
}

} // verus!
