//! Messages: the MTI, the bitmap and the numbered field values, and the
//! engine that reads and writes them under a message spec.
use vstd::prelude::*;
use vstd::slice::slice_subrange;

use crate::bitmap::{bit_of, bitmap_unpack_spec, encode_bitmap, marks_exactly, Bitmap, BitmapEncoding};
use crate::error::CoreError;
use crate::laws::lemma_unpack_bitmap;
use crate::numeric::numeric_value;
use crate::spec::{FieldValue, Spec};

verus! {

/// How every part of a message is framed: the MTI, and each field number
/// that may appear (the entry at index `i` is the spec of field `i`).
pub struct MessageSpec {
    pub mti: Spec,
    pub bitmap: BitmapEncoding,
    pub fields: Vec<Option<Spec>>,
}

impl MessageSpec {
    /// The number that errors about the MTI carry in place of a field number.
    pub const MTI_INDEX: u8 = 0;

    /// The spec of field `i`, if there is one.
    pub open spec fn field(&self, i: int) -> Option<Spec> {
        if 0 <= i < self.fields@.len() {
            self.fields@[i]
        } else {
            None
        }
    }

    pub fn field_spec(&self, i: usize) -> (r: Option<&Spec>)
        ensures
            r is None <==> self.field(i as int) is None,
            r matches Some(s) ==> self.field(i as int) == Some(*s),
    {
        if i < self.fields.len() {
            match &self.fields[i] {
                Some(s) => Some(s),
                None => None,
            }
        } else {
            None
        }
    }
}

/// A field number with its value bytes, as the contracts see them.
pub type FieldsView = Seq<(u8, Seq<u8>)>;

/// The state of reading `data` after the fields numbered below `k` have
/// been read, from position `start` on: the fields read so far and the
/// position reached, or the error that stopped the reading.
pub open spec fn walk(ms: &MessageSpec, bm: Seq<u8>, data: Seq<u8>, start: nat, k: nat) -> Result<(FieldsView, nat), CoreError>
    decreases k,
{
    if k <= 2 {
        Ok((seq![], start))
    } else {
        match walk(ms, bm, data, start, (k - 1) as nat) {
            Err(e) => Err(e),
            Ok((fs, pos)) => {
                let i = (k - 1) as int;
                if !bit_of(bm, i) {
                    Ok((fs, pos))
                } else {
                    match ms.field(i) {
                        None => Err(CoreError::UnknownField(i as u8)),
                        Some(s) => match s.unpack_spec(data.skip(pos as int)) {
                            Err(e) => Err(CoreError::Field(i as u8, e)),
                            Ok((v, n)) => Ok((fs.push((i as u8, v)), pos + n)),
                        },
                    }
                }
            },
        }
    }
}

/// What reading a message from the front of `data` gives: the MTI, the
/// bitmap bytes, the fields in ascending order and the number of bytes read.
pub open spec fn unpack_spec(ms: &MessageSpec, data: Seq<u8>) -> Result<(Seq<u8>, Seq<u8>, FieldsView, nat), CoreError> {
    match ms.mti.unpack_spec(data) {
        Err(e) => Err(CoreError::Mti(e)),
        Ok((mti, a)) => match bitmap_unpack_spec(ms.bitmap, data.skip(a as int)) {
            Err(e) => Err(e),
            Ok((bm, b)) => match walk(ms, bm, data, a + b, 8 * bm.len() + 1) {
                Err(e) => Err(e),
                Ok((fs, end)) => Ok((mti, bm, fs, end)),
            },
        },
    }
}

/// The wire form of the first `k` fields of `fs`, or the error that writing
/// them meets: numbers must rise strictly and lie from 2 to 128, each must
/// have a spec, and each value must be writable under it.
pub open spec fn fields_pack(ms: &MessageSpec, fs: FieldsView, k: nat) -> Result<Seq<u8>, CoreError>
    decreases k,
{
    if k == 0 || k > fs.len() {
        Ok(seq![])
    } else {
        match fields_pack(ms, fs, (k - 1) as nat) {
            Err(e) => Err(e),
            Ok(out) => {
                let num = fs[k - 1].0;
                if num < 2 || num > 128 || (k >= 2 && fs[k - 2].0 >= num) {
                    Err(CoreError::InvalidValue(num))
                } else {
                    match ms.field(num as int) {
                        None => Err(CoreError::FieldNotFound(num)),
                        Some(s) => if !s.can_pack(fs[k - 1].1) {
                            Err(CoreError::InvalidValue(num))
                        } else {
                            Ok(out + s.pack_spec(fs[k - 1].1))
                        },
                    }
                }
            },
        }
    }
}

/// The field numbers of `fs`, in order.
pub open spec fn numbers(fs: FieldsView) -> Seq<u8> {
    fs.map_values(|p: (u8, Seq<u8>)| p.0)
}

/// Whether `out` is what writing a message with this MTI and these fields
/// gives: the MTI, then the bitmap that marks exactly the field numbers,
/// in hex, then the fields in order.
pub open spec fn packed_as(ms: &MessageSpec, mti: Seq<u8>, fs: FieldsView, out: Seq<u8>) -> bool {
    &&& ms.mti.can_pack(mti)
    &&& fields_pack(ms, fs, fs.len()) is Ok
    &&& exists|bm: Seq<u8>| #![trigger marks_exactly(bm, numbers(fs))]
        marks_exactly(bm, numbers(fs))
            && out == ms.mti.pack_spec(mti) + encode_bitmap(ms.bitmap, bm) + fields_pack(ms, fs, fs.len())->Ok_0
}

/// Whether the fields `fs` are the ones bitmap `bm` marks: their numbers
/// rise strictly, each from 2 to the last bit, and they are exactly the set
/// bits from 2 on.
pub open spec fn fields_match_bitmap(bm: Seq<u8>, fs: FieldsView) -> bool {
    &&& forall|t: int| 0 <= t < fs.len() ==> 2 <= #[trigger] fs[t].0 <= 8 * bm.len()
    &&& forall|t: int, u: int| 0 <= t < u < fs.len() ==> fs[t].0 < fs[u].0
    &&& forall|i: int| 2 <= i <= 8 * bm.len() ==> (#[trigger] bit_of(bm, i) <==> exists|t: int|
        0 <= t < fs.len() && fs[t].0 == i)
}

/// A decoded message: its MTI, its bitmap, and the value bytes of each
/// present field (bit 1 flags the secondary bitmap and is never a data
/// field). Its invariant (`wf`): field numbers rise strictly, each from 2 to
/// the last bit, and they are exactly the set bits from 2 on. `pack` writes
/// fields in the order held, and refuses numbers that do not rise.
#[derive(Debug, PartialEq, Eq)]
pub struct Message {
    pub mti: Vec<u8>,
    pub bitmap: Bitmap,
    pub fields: Vec<(u8, Vec<u8>)>,
}

pub open spec fn fields_view(fields: Seq<(u8, Vec<u8>)>) -> FieldsView {
    fields.map_values(|p: (u8, Vec<u8>)| (p.0, p.1@))
}

proof fn lemma_walk_err(ms: &MessageSpec, bm: Seq<u8>, data: Seq<u8>, start: nat, k: nat, k2: nat)
    requires
        k <= k2,
        walk(ms, bm, data, start, k) is Err,
    ensures
        walk(ms, bm, data, start, k2) == walk(ms, bm, data, start, k),
    decreases k2,
{
    if k < k2 {
        lemma_walk_err(ms, bm, data, start, k, (k2 - 1) as nat);
    }
}

proof fn lemma_fields_pack_err(ms: &MessageSpec, fs: FieldsView, k: nat, k2: nat)
    requires
        1 <= k <= k2 <= fs.len(),
        fields_pack(ms, fs, k) is Err,
    ensures
        fields_pack(ms, fs, k2) == fields_pack(ms, fs, k),
    decreases k2,
{
    if k < k2 {
        lemma_fields_pack_err(ms, fs, k, (k2 - 1) as nat);
    }
}

impl Message {
    pub open spec fn fields_spec(&self) -> FieldsView {
        fields_view(self.fields@)
    }

    pub open spec fn wf(&self) -> bool {
        &&& self.bitmap.wf()
        &&& fields_match_bitmap(self.bitmap@, self.fields_spec())
    }

    /// The typed value of the field at index `t`, as the spec of its number
    /// decodes it; `None` when the spec has no such field, or a numeric
    /// value does not give an `i64`.
    pub fn field_value(&self, spec: &MessageSpec, t: usize) -> (r: Option<FieldValue>)
        requires
            t < self.fields@.len(),
        ensures
            ({
                let (num, raw) = self.fields_spec()[t as int];
                match spec.field(num as int) {
                    None => r is None,
                    Some(s) => {
                        &&& s.enc is Numeric ==> match numeric_value(raw) {
                            Some(v) => r == Some(FieldValue::Number(v as i64)),
                            None => r is None,
                        }
                        &&& !(s.enc is Numeric) ==> (r matches Some(FieldValue::Bytes(b)) && b@ == raw)
                    },
                }
            }),
    {
        let num = self.fields[t].0;
        match spec.field_spec(num as usize) {
            None => None,
            Some(s) => s.typed_value(self.fields[t].1.as_slice()),
        }
    }

    /// Reads one message from the front of `data`: the message and the
    /// number of bytes it took. Fields are read in ascending number for
    /// each set bit from 2 to the last bit of the bitmap.
    pub fn unpack(spec: &MessageSpec, data: &[u8]) -> (r: Result<(Message, usize), CoreError>)
        ensures
            match r {
                Ok((m, n)) => m.wf() && unpack_spec(spec, data@) == Ok::<_, CoreError>(
                    (m.mti@, m.bitmap@, m.fields_spec(), n as nat)),
                Err(e) => unpack_spec(spec, data@) == Err::<(Seq<u8>, Seq<u8>, FieldsView, nat), _>(e),
            },
    {
        let (mti, a) = match spec.mti.unpacker.unpack(data, &spec.mti) {
            Ok(x) => x,
            Err(e) => return Err(CoreError::Mti(e)),
        };
        let after = slice_subrange(data, a, data.len());
        assert(after@ =~= data@.skip(a as int));
        let (bitmap, b) = Bitmap::unpack(spec.bitmap, after)?;
        let start: usize = a + b;
        let ghost bm = bitmap@;
        let nbits = bitmap.bits();
        let mut pos: usize = start;
        let mut fields: Vec<(u8, Vec<u8>)> = Vec::new();
        let mut i: usize = 2;
        assert(fields_view(fields@) =~= Seq::<(u8, Seq<u8>)>::empty());
        while i <= nbits
            invariant
                start == a + b,
                spec.mti.unpack_spec(data@) == Ok::<_, crate::error::FieldError>((mti@, a as nat)),
                bitmap_unpack_spec(spec.bitmap, data@.skip(a as int)) == Ok::<_, CoreError>((bm, b as nat)),
                bitmap@ == bm,
                bitmap.wf(),
                nbits == 8 * bm.len(),
                nbits <= 128,
                2 <= i <= nbits + 1,
                start <= pos <= data@.len(),
                walk(spec, bm, data@, start as nat, i as nat) == Ok::<_, CoreError>((fields_view(fields@), pos as nat)),
            decreases nbits + 1 - i,
        {
            if bitmap.is_set(i) {
                match spec.field_spec(i) {
                    None => {
                        proof {
                            assert(walk(spec, bm, data@, start as nat, (i + 1) as nat)
                                == Err::<(FieldsView, nat), CoreError>(CoreError::UnknownField(i as u8)));
                            lemma_walk_err(spec, bm, data@, start as nat, (i + 1) as nat, (nbits + 1) as nat);
                        }
                        return Err(CoreError::UnknownField(i as u8));
                    },
                    Some(fs) => {
                        let rest = slice_subrange(data, pos, data.len());
                        assert(rest@ =~= data@.skip(pos as int));
                        match fs.unpacker.unpack(rest, fs) {
                            Err(e) => {
                                proof {
                                    assert(walk(spec, bm, data@, start as nat, (i + 1) as nat)
                                        == Err::<(FieldsView, nat), CoreError>(CoreError::Field(i as u8, e)));
                                    lemma_walk_err(spec, bm, data@, start as nat, (i + 1) as nat, (nbits + 1) as nat);
                                }
                                return Err(CoreError::Field(i as u8, e));
                            },
                            Ok((v, n)) => {
                                let ghost before = fields@;
                                let ghost vv = v@;
                                fields.push((i as u8, v));
                                proof {
                                    assert(fields_view(fields@) =~= fields_view(before).push((i as u8, vv)));
                                }
                                pos = pos + n;
                            },
                        }
                    },
                }
            }
            i = i + 1;
        }
        let m = Message { mti, bitmap, fields };
        proof {
            assert(unpack_spec(spec, data@) == Ok::<_, CoreError>(
                (m.mti@, m.bitmap@, m.fields_spec(), pos as nat)));
            lemma_unpack_bitmap(spec, data@);
        }
        Ok((m, pos))
    }

    /// Writes the message under `spec`: the MTI, the bitmap derived from
    /// the field numbers (the bitmap held in the message is not consulted),
    /// then each field in order.
    pub fn pack(&self, spec: &MessageSpec) -> (r: Result<Vec<u8>, CoreError>)
        ensures
            match r {
                Ok(out) => packed_as(spec, self.mti@, self.fields_spec(), out@),
                Err(e) => if !spec.mti.can_pack(self.mti@) {
                    e == CoreError::InvalidValue(MessageSpec::MTI_INDEX)
                } else {
                    fields_pack(spec, self.fields_spec(), self.fields_spec().len()) == Err::<Seq<u8>, _>(e)
                },
            },
    {
        let mut out = match spec.mti.pack(self.mti.as_slice()) {
            Some(b) => b,
            None => return Err(CoreError::InvalidValue(MessageSpec::MTI_INDEX)),
        };
        let ghost fv = self.fields_spec();
        let mut body: Vec<u8> = Vec::new();
        let mut nums: Vec<u8> = Vec::new();
        let mut k: usize = 0;
        assert(numbers(fv).take(0) =~= nums@);
        while k < self.fields.len()
            invariant
                fv == self.fields_spec(),
                fv.len() == self.fields@.len(),
                spec.mti.can_pack(self.mti@),
                out@ == spec.mti.pack_spec(self.mti@),
                k <= fv.len(),
                fields_pack(spec, fv, k as nat) == Ok::<_, CoreError>(body@),
                nums@ == numbers(fv).take(k as int),
                forall|t: int| 0 <= t < nums@.len() ==> 2 <= #[trigger] nums@[t] <= 128,
            decreases fv.len() - k,
        {
            let num = self.fields[k].0;
            assert(fv[k as int].0 == num);
            if num < 2 || num > 128 || (k >= 1 && self.fields[k - 1].0 >= num) {
                proof {
                    if k >= 1 {
                        assert(fv[k - 1].0 == self.fields@[k - 1].0);
                    }
                    lemma_fields_pack_err(spec, fv, (k + 1) as nat, fv.len());
                }
                return Err(CoreError::InvalidValue(num));
            }
            proof {
                if k >= 1 {
                    assert(fv[k - 1].0 == self.fields@[k - 1].0);
                }
            }
            match spec.field_spec(num as usize) {
                None => {
                    proof {
                        lemma_fields_pack_err(spec, fv, (k + 1) as nat, fv.len());
                    }
                    return Err(CoreError::FieldNotFound(num));
                },
                Some(fs) => {
                    assert(fv[k as int].1 == self.fields@[k as int].1@);
                    match fs.pack(self.fields[k].1.as_slice()) {
                        None => {
                            proof {
                                lemma_fields_pack_err(spec, fv, (k + 1) as nat, fv.len());
                            }
                            return Err(CoreError::InvalidValue(num));
                        },
                        Some(b) => {
                            let mut b = b;
                            body.append(&mut b);
                        },
                    }
                },
            }
            nums.push(num);
            proof {
                assert(numbers(fv).take(k + 1) =~= nums@);
            }
            k = k + 1;
        }
        proof {
            assert(numbers(fv).take(k as int) =~= numbers(fv));
        }
        let bitmap = Bitmap::from_fields(nums.as_slice());
        let mut hex = bitmap.pack(spec.bitmap);
        out.append(&mut hex);
        out.append(&mut body);
        proof {
            assert(marks_exactly(bitmap@, numbers(fv)));
        }
        Ok(out)
    }
}

} // verus!
