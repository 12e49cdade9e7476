//! The presence bitmap: which numbered fields a message carries, with the
//! primary / secondary extension driven by bit 1.
use vstd::prelude::*;
use vstd::slice::{slice_subrange, slice_to_vec};

use crate::codec::{encode_hex_bytes, hex_encode, lemma_hex_encode_concat, lemma_hex_encode_len, lemma_hex_round_trip};
use crate::error::CoreError;
use crate::wire::{decode_hex, hex_decode};

verus! {

/// Bit `i` (counted from 1, most significant bit of the first byte first)
/// of `bytes`.
pub open spec fn bit_of(bytes: Seq<u8>, i: int) -> bool {
    &&& 1 <= i <= 8 * bytes.len()
    &&& (bytes[(i - 1) / 8] >> ((7 - (i - 1) % 8) as u8)) & 1 == 1
}

/// How a bitmap is written on the wire.
#[derive(Clone, Copy, Debug, PartialEq, Eq, Structural)]
pub enum BitmapEncoding {
    /// Each byte as two hex characters: 16 characters per half.
    Hex,
    /// Raw bytes: 8 bytes per half.
    Binary,
}

/// The number of wire bytes that hold one half (64 bits) of a bitmap.
pub open spec fn half_width(enc: BitmapEncoding) -> nat {
    match enc {
        BitmapEncoding::Hex => 16,
        BitmapEncoding::Binary => 8,
    }
}

/// The bitmap bytes that one half's wire bytes stand for, if they are valid.
pub open spec fn decode_half(enc: BitmapEncoding, w: Seq<u8>) -> Option<Seq<u8>> {
    match enc {
        BitmapEncoding::Hex => match hex_decode(w) {
            Ok(b) => Some(b),
            Err(_) => None,
        },
        BitmapEncoding::Binary => Some(w),
    }
}

/// The wire form of bitmap bytes.
pub open spec fn encode_bitmap(enc: BitmapEncoding, bytes: Seq<u8>) -> Seq<u8> {
    match enc {
        BitmapEncoding::Hex => hex_encode(bytes),
        BitmapEncoding::Binary => bytes,
    }
}

/// What reading a bitmap from the front of `data` gives: the bitmap bytes
/// and the number of wire bytes read. One half comes first; when its bit 1
/// is set, the secondary half follows.
pub open spec fn bitmap_unpack_spec(enc: BitmapEncoding, data: Seq<u8>) -> Result<(Seq<u8>, nat), CoreError> {
    let w = half_width(enc);
    if data.len() < w {
        Err(CoreError::Bitmap)
    } else {
        match decode_half(enc, data.take(w as int)) {
            None => Err(CoreError::Bitmap),
            Some(p) => if !bit_of(p, 1) {
                Ok((p, w))
            } else if data.len() < 2 * w {
                Err(CoreError::Bitmap)
            } else {
                match decode_half(enc, data.subrange(w as int, 2 * w as int)) {
                    None => Err(CoreError::Bitmap),
                    Some(q) => Ok((p + q, 2 * w)),
                }
            },
        }
    }
}

/// A bitmap written in an encoding reads back as the same bitmap, taking
/// exactly the bytes written, whatever follows.
pub proof fn lemma_bitmap_round_trip(enc: BitmapEncoding, bm: Seq<u8>, rest: Seq<u8>)
    requires
        (bm.len() == 8 && !bit_of(bm, 1)) || (bm.len() == 16 && bit_of(bm, 1)),
    ensures
        bitmap_unpack_spec(enc, encode_bitmap(enc, bm) + rest)
            == Ok::<_, CoreError>((bm, encode_bitmap(enc, bm).len())),
        encode_bitmap(enc, bm).len() == bm.len() / 8 * half_width(enc),
{
    let w = half_width(enc);
    let e = encode_bitmap(enc, bm);
    let data = e + rest;
    lemma_hex_encode_len(bm);
    if bm.len() == 8 {
        assert(data.take(w as int) =~= e);
        lemma_hex_round_trip(bm);
    } else {
        let p = bm.take(8);
        let q = bm.skip(8);
        assert(bm =~= p + q);
        lemma_hex_encode_concat(p, q);
        lemma_hex_encode_len(p);
        lemma_hex_encode_len(q);
        assert(data.take(w as int) =~= encode_bitmap(enc, p));
        assert(data.subrange(w as int, 2 * w as int) =~= encode_bitmap(enc, q));
        lemma_hex_round_trip(p);
        lemma_hex_round_trip(q);
        assert(bit_of(p, 1));
    }
}

/// One half's wire bytes, when valid, stand for eight bitmap bytes.
pub proof fn lemma_decode_half_len(enc: BitmapEncoding, w: Seq<u8>)
    requires
        w.len() == half_width(enc),
        decode_half(enc, w) is Some,
    ensures
        decode_half(enc, w)->Some_0.len() == 8,
{
    if enc is Hex {
        lemma_hex_decode_len(w);
    }
}

/// Whether a bitmap of `bytes` is the one that marks exactly the field
/// numbers in `nums`: sixteen bytes with bit 1 set when a number above 64
/// is among them, eight bytes otherwise.
pub open spec fn marks_exactly(bytes: Seq<u8>, nums: Seq<u8>) -> bool {
    let secondary = exists|t: int| 0 <= t < nums.len() && nums[t] > 64;
    &&& bytes.len() == if secondary { 16nat } else { 8nat }
    &&& forall|i: int| 1 <= i <= 8 * bytes.len() ==> (#[trigger] bit_of(bytes, i) <==> (
        (i == 1 && secondary) || exists|t: int| 0 <= t < nums.len() && nums[t] == i))
}

proof fn lemma_or_bit(b: u8, r: u8, q: u8) by (bit_vector)
    requires
        r < 8,
        q < 8,
    ensures
        ((b | (128u8 >> r)) >> (7 - q) as u8) & 1 == 1 <==> (q == r || (b >> (7 - q) as u8) & 1 == 1),
{
}

proof fn lemma_zero_bit(q: u8) by (bit_vector)
    requires
        q < 8,
    ensures
        (0u8 >> (7 - q) as u8) & 1 != 1,
{
}

/// Which fields a message carries: eight bytes for fields 1 to 64, sixteen
/// when the secondary half for fields 65 to 128 is present.
#[derive(Debug, PartialEq, Eq)]
pub struct Bitmap {
    bytes: Vec<u8>,
}

impl View for Bitmap {
    type V = Seq<u8>;

    closed spec fn view(&self) -> Seq<u8> {
        self.bytes@
    }
}

fn set_bit(bytes: &mut Vec<u8>, i: usize)
    requires
        1 <= i <= 8 * old(bytes)@.len(),
    ensures
        final(bytes)@.len() == old(bytes)@.len(),
        forall|j: int| #[trigger] bit_of(final(bytes)@, j) <==> (j == i || bit_of(old(bytes)@, j)),
{
    let k: usize = (i - 1) / 8;
    let r: u8 = ((i - 1) % 8) as u8;
    let b = bytes[k];
    let ghost before = bytes@;
    bytes.set(k, b | (128u8 >> r));
    proof {
        assert forall|j: int| #[trigger] bit_of(bytes@, j) <==> (j == i || bit_of(before, j)) by {
            if 1 <= j <= 8 * before.len() {
                let q = ((j - 1) % 8) as u8;
                if (j - 1) / 8 == k {
                    lemma_or_bit(b, r, q);
                    assert((7 - (j - 1) % 8) as u8 == (7 - q) as u8);
                    assert(q == r <==> j == i);
                } else {
                    assert(bytes@[(j - 1) / 8] == before[(j - 1) / 8]);
                }
            }
        }
    }
}

fn zero_bytes(n: usize) -> (r: Vec<u8>)
    ensures
        r@.len() == n,
        forall|j: int| !#[trigger] bit_of(r@, j),
{
    let mut v: Vec<u8> = Vec::new();
    while v.len() < n
        invariant
            v@.len() <= n,
            forall|k: int| 0 <= k < v@.len() ==> v@[k] == 0,
        decreases n - v@.len(),
    {
        v.push(0);
    }
    proof {
        assert forall|j: int| !#[trigger] bit_of(v@, j) by {
            if 1 <= j <= 8 * v@.len() {
                lemma_zero_bit(((j - 1) % 8) as u8);
                assert((7 - (j - 1) % 8) as u8 == (7 - ((j - 1) % 8) as u8) as u8);
            }
        }
    }
    v
}

impl Bitmap {
    /// A bitmap is either the primary half alone, with bit 1 clear, or both
    /// halves, with bit 1 set.
    pub open spec fn wf(&self) -> bool {
        ||| self@.len() == 8 && !bit_of(self@, 1)
        ||| self@.len() == 16 && bit_of(self@, 1)
    }

    /// The number of bits: 64, or 128 with the secondary half.
    pub fn bits(&self) -> (r: usize)
        requires
            self.wf(),
        ensures
            r == 8 * self@.len(),
    {
        8 * self.bytes.len()
    }

    /// The bitmap bytes.
    pub fn as_bytes(&self) -> (r: &[u8])
        ensures
            r@ == self@,
    {
        self.bytes.as_slice()
    }

    /// Whether bit `i` is set (bits are counted from 1).
    pub fn is_set(&self, i: usize) -> (r: bool)
        requires
            1 <= i <= 8 * self@.len(),
        ensures
            r == bit_of(self@, i as int),
    {
        (self.bytes[(i - 1) / 8] >> ((7 - (i - 1) % 8) as u8)) & 1 == 1
    }

    /// The bitmap that marks the field numbers in `nums` (each from 2 to
    /// 128), with the secondary half only when one of them is above 64.
    pub fn from_fields(nums: &[u8]) -> (r: Bitmap)
        requires
            forall|t: int| 0 <= t < nums@.len() ==> 2 <= #[trigger] nums@[t] <= 128,
        ensures
            r.wf(),
            marks_exactly(r@, nums@),
    {
        let mut secondary = false;
        let mut t: usize = 0;
        while t < nums.len()
            invariant
                t <= nums@.len(),
                secondary <==> exists|u: int| 0 <= u < t && nums@[u] > 64,
            decreases nums@.len() - t,
        {
            if nums[t] > 64 {
                secondary = true;
            }
            t = t + 1;
        }
        let mut bytes = zero_bytes(if secondary { 16 } else { 8 });
        if secondary {
            set_bit(&mut bytes, 1);
        }
        let mut t: usize = 0;
        while t < nums.len()
            invariant
                t <= nums@.len(),
                forall|u: int| 0 <= u < nums@.len() ==> 2 <= #[trigger] nums@[u] <= 128,
                secondary <==> exists|u: int| 0 <= u < nums@.len() && nums@[u] > 64,
                bytes@.len() == if secondary { 16nat } else { 8nat },
                forall|j: int| #[trigger] bit_of(bytes@, j) <==> (1 <= j <= 8 * bytes@.len() && (
                    (j == 1 && secondary) || exists|u: int| 0 <= u < t && nums@[u] == j)),
            decreases nums@.len() - t,
        {
            let n = nums[t];
            if n > 64 {
                assert(secondary);
            }
            assert(n <= 8 * bytes@.len());
            let ghost before = bytes@;
            set_bit(&mut bytes, n as usize);
            proof {
                assert forall|j: int| #[trigger] bit_of(bytes@, j) <==> (1 <= j <= 8 * bytes@.len() && (
                    (j == 1 && secondary) || exists|u: int| 0 <= u < t + 1 && nums@[u] == j)) by {
                    if exists|u: int| 0 <= u < t + 1 && nums@[u] == j {
                        let u = choose|u: int| 0 <= u < t + 1 && nums@[u] == j;
                        if u < t {
                            assert(bit_of(before, j));
                        }
                    }
                    if bit_of(before, j) && !(j == 1 && secondary) {
                        let u = choose|u: int| 0 <= u < t && nums@[u] == j;
                        assert(0 <= u < t + 1 && nums@[u] == j);
                    }
                }
            }
            t = t + 1;
        }
        let r = Bitmap { bytes };
        proof {
            if !secondary {
                assert(!bit_of(r@, 1)) by {
                    if bit_of(r@, 1) {
                        let u = choose|u: int| 0 <= u < nums@.len() && nums@[u] == 1;
                    }
                }
            }
        }
        r
    }

    /// Reads a bitmap written in `enc` from the front of `data`: the bitmap
    /// and the number of wire bytes read.
    pub fn unpack(enc: BitmapEncoding, data: &[u8]) -> (r: Result<(Bitmap, usize), CoreError>)
        ensures
            match r {
                Ok((b, n)) => bitmap_unpack_spec(enc, data@) == Ok::<_, CoreError>((b@, n as nat)) && b.wf(),
                Err(e) => bitmap_unpack_spec(enc, data@) == Err::<(Seq<u8>, nat), _>(e),
            },
    {
        let w: usize = match enc {
            BitmapEncoding::Hex => 16,
            BitmapEncoding::Binary => 8,
        };
        if data.len() < w {
            return Err(CoreError::Bitmap);
        }
        let primary = slice_subrange(data, 0, w);
        assert(primary@ =~= data@.take(w as int));
        let mut bytes = match decode_half_exec(enc, primary) {
            Some(b) => b,
            None => return Err(CoreError::Bitmap),
        };
        proof {
            lemma_decode_half_len(enc, primary@);
        }
        if (bytes[0] >> 7u8) & 1 != 1 {
            return Ok((Bitmap { bytes }, w));
        }
        if data.len() < 2 * w {
            return Err(CoreError::Bitmap);
        }
        let half = slice_subrange(data, w, 2 * w);
        let mut second = match decode_half_exec(enc, half) {
            Some(b) => b,
            None => return Err(CoreError::Bitmap),
        };
        proof {
            lemma_decode_half_len(enc, half@);
        }
        let ghost p = bytes@;
        bytes.append(&mut second);
        assert(bytes@[0] == p[0]);
        Ok((Bitmap { bytes }, 2 * w))
    }

    /// The wire form of the bitmap in `enc`.
    pub fn pack(&self, enc: BitmapEncoding) -> (r: Vec<u8>)
        ensures
            r@ == encode_bitmap(enc, self@),
    {
        match enc {
            BitmapEncoding::Hex => encode_hex_bytes(self.bytes.as_slice()),
            BitmapEncoding::Binary => slice_to_vec(self.bytes.as_slice()),
        }
    }
}

fn decode_half_exec(enc: BitmapEncoding, w: &[u8]) -> (r: Option<Vec<u8>>)
    ensures
        match decode_half(enc, w@) {
            Some(b) => r matches Some(v) && v@ == b,
            None => r is None,
        },
{
    match enc {
        BitmapEncoding::Hex => match decode_hex(w) {
            Ok(b) => Some(b),
            Err(_) => None,
        },
        BitmapEncoding::Binary => Some(slice_to_vec(w)),
    }
}

/// Hex characters that decode give half as many bytes.
pub proof fn lemma_hex_decode_len(hex: Seq<u8>)
    requires
        hex_decode(hex) is Ok,
    ensures
        hex_decode(hex)->Ok_0.len() * 2 == hex.len(),
    decreases hex.len(),
{
    if hex.len() > 0 {
        lemma_hex_decode_len(hex.skip(2));
    }
}

} // verus!
