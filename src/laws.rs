//! What holds of reading and writing whole messages.
use vstd::prelude::*;

use crate::bitmap::{
    bit_of, bitmap_unpack_spec, decode_half, encode_bitmap, half_width, lemma_bitmap_round_trip,
    lemma_decode_half_len, marks_exactly,
};
use crate::error::CoreError;
use crate::message::{fields_match_bitmap, fields_pack, numbers, packed_as, unpack_spec, walk, FieldsView, MessageSpec};
use crate::spec::{lemma_field_round_trip, lemma_field_truncation, Spec};

verus! {

/// The body written for the first `k` fields.
spec fn body(ms: &MessageSpec, fs: FieldsView, k: nat) -> Seq<u8> {
    fields_pack(ms, fs, k)->Ok_0
}

proof fn lemma_pack_step(ms: &MessageSpec, fs: FieldsView, k: nat)
    requires
        1 <= k <= fs.len(),
        fields_pack(ms, fs, k) is Ok,
    ensures
        fields_pack(ms, fs, (k - 1) as nat) is Ok,
        2 <= fs[k - 1].0 <= 128,
        k >= 2 ==> fs[k - 2].0 < fs[k - 1].0,
        ms.field(fs[k - 1].0 as int) is Some,
        ms.field(fs[k - 1].0 as int)->Some_0.can_pack(fs[k - 1].1),
        body(ms, fs, k) == body(ms, fs, (k - 1) as nat) + ms.field(fs[k - 1].0 as int)->Some_0.pack_spec(fs[k - 1].1),
{
}

proof fn lemma_pack_prefix(ms: &MessageSpec, fs: FieldsView, c: nat)
    requires
        fields_pack(ms, fs, fs.len()) is Ok,
        c <= fs.len(),
    ensures
        fields_pack(ms, fs, c) is Ok,
        body(ms, fs, fs.len()).take(body(ms, fs, c).len() as int) == body(ms, fs, c),
        body(ms, fs, c).len() <= body(ms, fs, fs.len()).len(),
    decreases fs.len() - c,
{
    if c == fs.len() {
        assert(body(ms, fs, c).take(body(ms, fs, c).len() as int) =~= body(ms, fs, c));
    } else {
        lemma_pack_prefix(ms, fs, c + 1);
        lemma_pack_step(ms, fs, c + 1);
        let b1 = body(ms, fs, c + 1);
        assert(b1.take(body(ms, fs, c).len() as int) =~= body(ms, fs, c));
    }
}

proof fn lemma_pack_prefix_sorted(ms: &MessageSpec, fs: FieldsView, c: nat)
    requires
        c <= fs.len(),
        fields_pack(ms, fs, c) is Ok,
    ensures
        forall|t: int, u: int| 0 <= t < u < c ==> fs[t].0 < fs[u].0,
        forall|t: int| 0 <= t < c ==> 2 <= #[trigger] fs[t].0 <= 128,
    decreases c,
{
    if c >= 1 {
        lemma_pack_step(ms, fs, c);
        lemma_pack_prefix_sorted(ms, fs, (c - 1) as nat);
    }
}

/// One step of reading a written message: field `c - 1` is the one
/// numbered `k - 1`, and the reader takes it in whole.
#[verifier::rlimit(100)]
proof fn lemma_walk_hit(
    ms: &MessageSpec,
    fs: FieldsView,
    bm: Seq<u8>,
    data: Seq<u8>,
    start: nat,
    rest: Seq<u8>,
    k: nat,
    c: nat,
)
    requires
        fields_pack(ms, fs, fs.len()) is Ok,
        start <= data.len(),
        data.skip(start as int) == body(ms, fs, fs.len()) + rest,
        3 <= k,
        1 <= c <= fs.len(),
        fs[c - 1].0 == k - 1,
        bit_of(bm, k - 1),
        walk(ms, bm, data, start, (k - 1) as nat) == Ok::<_, CoreError>(
            (fs.take(c - 1), start + body(ms, fs, (c - 1) as nat).len())),
    ensures
        walk(ms, bm, data, start, k) == Ok::<_, CoreError>((fs.take(c as int), start + body(ms, fs, c).len())),
{
    let i = (k - 1) as int;
    let c2 = (c - 1) as nat;
    lemma_pack_prefix(ms, fs, c);
    lemma_pack_step(ms, fs, c);
    let s = ms.field(i)->Some_0;
    let v = fs[c - 1].1;
    let bfull = body(ms, fs, fs.len());
    let b0 = body(ms, fs, c2);
    let b1 = body(ms, fs, c);
    let pos = start + b0.len();
    assert(data.skip(pos as int) =~= s.pack_spec(v) + (bfull.skip(b1.len() as int) + rest)) by {
        assert(data.skip(pos as int) =~= data.skip(start as int).skip(b0.len() as int));
        assert(bfull =~= b1 + bfull.skip(b1.len() as int));
    }
    lemma_field_round_trip(&s, v, bfull.skip(b1.len() as int) + rest);
    assert(fs.take(c2 as int).push((i as u8, v)) =~= fs.take(c as int));
}

/// Reading the fields of a written message: after the numbers below `k`,
/// the reader holds the first `c` fields, those numbered below `k`, and
/// stands just after their bytes.
#[verifier::rlimit(100)]
proof fn lemma_walk_packed(
    ms: &MessageSpec,
    fs: FieldsView,
    bm: Seq<u8>,
    data: Seq<u8>,
    start: nat,
    rest: Seq<u8>,
    k: nat,
    c: nat,
)
    requires
        fields_pack(ms, fs, fs.len()) is Ok,
        forall|t: int, u: int| 0 <= t < u < fs.len() ==> fs[t].0 < fs[u].0,
        forall|t: int| 0 <= t < fs.len() ==> 2 <= #[trigger] fs[t].0,
        forall|i: int| 2 <= i <= 8 * bm.len() ==> (#[trigger] bit_of(bm, i) <==> exists|t: int|
            0 <= t < fs.len() && fs[t].0 == i),
        start <= data.len(),
        data.skip(start as int) == body(ms, fs, fs.len()) + rest,
        2 <= k <= 8 * bm.len() + 1,
        c <= fs.len(),
        forall|t: int| 0 <= t < c ==> #[trigger] fs[t].0 < k,
        forall|t: int| c <= t < fs.len() ==> #[trigger] fs[t].0 >= k,
    ensures
        walk(ms, bm, data, start, k) == Ok::<_, CoreError>((fs.take(c as int), start + body(ms, fs, c).len())),
    decreases k,
{
    if k == 2 {
        if c > 0 {
            assert(fs[0].0 < 2);
        }
        assert(fs.take(0) =~= Seq::<(u8, Seq<u8>)>::empty());
        assert(body(ms, fs, 0) =~= Seq::<u8>::empty());
    } else {
        let i = (k - 1) as int;
        let hit = c > 0 && fs[c - 1].0 == i;
        let c2: nat = if hit { (c - 1) as nat } else { c };
        assert forall|t: int| 0 <= t < c2 implies #[trigger] fs[t].0 < k - 1 by {
            if hit {
                assert(fs[t].0 < fs[c - 1].0);
            } else if t < c - 1 {
                assert(fs[t].0 < fs[c - 1].0);
            }
        }
        assert forall|t: int| c2 <= t < fs.len() implies #[trigger] fs[t].0 >= k - 1 by {
            if t >= c {
                assert(fs[t].0 >= k);
            }
        }
        lemma_walk_packed(ms, fs, bm, data, start, rest, (k - 1) as nat, c2);
        if hit {
            assert(bit_of(bm, i));
            lemma_walk_hit(ms, fs, bm, data, start, rest, k, c);
        } else {
            assert(!bit_of(bm, i)) by {
                if bit_of(bm, i) {
                    let t = choose|t: int| 0 <= t < fs.len() && fs[t].0 == i;
                    if t < c - 1 {
                        assert(fs[t].0 < fs[c - 1].0);
                    }
                }
            }
        }
    }
}

/// What `pack` writes, `unpack` reads back: the same MTI, the same fields
/// in the same order, and the bitmap that marks exactly their numbers,
/// taking every byte written and none of what follows.
#[verifier::rlimit(100)]
pub proof fn lemma_pack_unpack(ms: &MessageSpec, mti: Seq<u8>, fs: FieldsView, out: Seq<u8>, rest: Seq<u8>)
    requires
        packed_as(ms, mti, fs, out),
    ensures
        unpack_spec(ms, out + rest) matches Ok((m2, bm, f2, n)) && m2 == mti && f2 == fs
            && n == out.len() && marks_exactly(bm, numbers(fs)),
{
    let bm = choose|bm: Seq<u8>| #![trigger marks_exactly(bm, numbers(fs))]
        marks_exactly(bm, numbers(fs))
            && out == ms.mti.pack_spec(mti) + encode_bitmap(ms.bitmap, bm) + fields_pack(ms, fs, fs.len())->Ok_0;
    let mw = ms.mti.pack_spec(mti);
    let hx = encode_bitmap(ms.bitmap, bm);
    let bfull = body(ms, fs, fs.len());
    let data = out + rest;
    assert(data =~= mw + (hx + bfull + rest));
    lemma_field_round_trip(&ms.mti, mti, hx + bfull + rest);
    let after = data.skip(mw.len() as int);
    assert(after =~= hx + (bfull + rest));
    let nums = numbers(fs);
    let secondary = exists|t: int| 0 <= t < nums.len() && nums[t] > 64;
    lemma_pack_prefix_sorted(ms, fs, fs.len());
    if !secondary {
        assert(!bit_of(bm, 1)) by {
            if bit_of(bm, 1) {
                let t = choose|t: int| 0 <= t < nums.len() && nums[t] == 1;
                assert(fs[t].0 >= 2);
            }
        }
        assert forall|t: int| 0 <= t < fs.len() implies #[trigger] fs[t].0 < 8 * bm.len() + 1 by {
            assert(nums[t] == fs[t].0);
        }
    } else {
        assert(bit_of(bm, 1));
    }
    lemma_bitmap_round_trip(ms.bitmap, bm, bfull + rest);
    let start = mw.len() + hx.len();
    assert(data.skip(start as int) =~= bfull + rest);
    assert forall|i: int| 2 <= i <= 8 * bm.len() implies (#[trigger] bit_of(bm, i) <==> exists|t: int|
        0 <= t < fs.len() && fs[t].0 == i) by {
        if bit_of(bm, i) {
            let t = choose|t: int| 0 <= t < nums.len() && nums[t] == i;
            assert(fs[t].0 == i);
        }
        if exists|t: int| 0 <= t < fs.len() && fs[t].0 == i {
            let t = choose|t: int| 0 <= t < fs.len() && fs[t].0 == i;
            assert(nums[t] == i);
        }
    }
    lemma_walk_packed(ms, fs, bm, data, start, rest, 8 * bm.len() + 1, fs.len());
    assert(fs.take(fs.len() as int) =~= fs);
}

proof fn lemma_walk_marks(ms: &MessageSpec, bm: Seq<u8>, data: Seq<u8>, start: nat, k: nat)
    requires
        walk(ms, bm, data, start, k) is Ok,
        k <= 129,
    ensures
        ({
            let (fs, pos) = walk(ms, bm, data, start, k)->Ok_0;
            &&& start <= pos
            &&& forall|t: int| 0 <= t < fs.len() ==> 2 <= #[trigger] fs[t].0 < k && bit_of(bm, fs[t].0 as int)
            &&& forall|t: int, u: int| 0 <= t < u < fs.len() ==> fs[t].0 < fs[u].0
            &&& forall|i: int| 2 <= i < k && #[trigger] bit_of(bm, i) ==> exists|t: int| 0 <= t < fs.len() && fs[t].0 == i
        }),
    decreases k,
{
    if k > 2 {
        lemma_walk_marks(ms, bm, data, start, (k - 1) as nat);
        let (fs, pos) = walk(ms, bm, data, start, (k - 1) as nat)->Ok_0;
        let i = (k - 1) as int;
        if bit_of(bm, i) {
            let fs2 = walk(ms, bm, data, start, k)->Ok_0.0;
            assert(fs2 == fs.push((i as u8, fs2.last().1)));
            assert(fs2[fs.len() as int].0 == i);
            assert forall|j: int| 2 <= j < k && #[trigger] bit_of(bm, j) implies exists|t: int|
                0 <= t < fs2.len() && fs2[t].0 == j by {
                if j < k - 1 {
                    let t = choose|t: int| 0 <= t < fs.len() && fs[t].0 == j;
                    assert(fs2[t].0 == j);
                } else {
                    assert(fs2[fs.len() as int].0 == j);
                }
            }
        }
    }
}

/// After a message is read, bit `i` of its bitmap (from 2 to the last bit)
/// is set exactly when a field numbered `i` was read; the fields come in
/// strictly ascending number, each from 2 to the last bit.
pub proof fn lemma_unpack_bitmap(ms: &MessageSpec, data: Seq<u8>)
    requires
        unpack_spec(ms, data) is Ok,
    ensures
        ({
            let (mti, bm, fs, n) = unpack_spec(ms, data)->Ok_0;
            &&& bm.len() == 8 || bm.len() == 16
            &&& bit_of(bm, 1) <==> bm.len() == 16
            &&& fields_match_bitmap(bm, fs)
        }),
{
    let (mti, a) = ms.mti.unpack_spec(data)->Ok_0;
    let d = data.skip(a as int);
    let w = half_width(ms.bitmap);
    lemma_decode_half_len(ms.bitmap, d.take(w as int));
    if bit_of(decode_half(ms.bitmap, d.take(w as int))->Some_0, 1) {
        lemma_decode_half_len(ms.bitmap, d.subrange(w as int, 2 * w as int));
    }
    let (bm, b) = bitmap_unpack_spec(ms.bitmap, d)->Ok_0;
    if bm.len() == 16 {
        let p = decode_half(ms.bitmap, d.take(w as int))->Some_0;
        assert(bm[0] == p[0]);
    }
    lemma_walk_marks(ms, bm, data, a + b, 8 * bm.len() + 1);
    let fs = unpack_spec(ms, data)->Ok_0.2;
    assert forall|i: int| 2 <= i <= 8 * bm.len() implies (#[trigger] bit_of(bm, i) <==> exists|t: int|
        0 <= t < fs.len() && fs[t].0 == i) by {
        if exists|t: int| 0 <= t < fs.len() && fs[t].0 == i {
            let t = choose|t: int| 0 <= t < fs.len() && fs[t].0 == i;
            assert(bit_of(bm, fs[t].0 as int));
        }
    }
}

/// The bitmap half of the law on written messages: bit 1 is set exactly
/// when a field numbered above 64 is present, for a bitmap whose secondary
/// half, when present, marks at least one field.
pub proof fn lemma_unpack_secondary(ms: &MessageSpec, data: Seq<u8>)
    requires
        unpack_spec(ms, data) is Ok,
        ({
            let bm = unpack_spec(ms, data)->Ok_0.1;
            bit_of(bm, 1) ==> exists|i: int| 65 <= i <= 128 && #[trigger] bit_of(bm, i)
        }),
    ensures
        ({
            let (mti, bm, fs, n) = unpack_spec(ms, data)->Ok_0;
            bit_of(bm, 1) <==> exists|t: int| 0 <= t < fs.len() && fs[t].0 >= 65
        }),
{
    lemma_unpack_bitmap(ms, data);
    let (mti, bm, fs, n) = unpack_spec(ms, data)->Ok_0;
    if bit_of(bm, 1) {
        let i = choose|i: int| 65 <= i <= 128 && #[trigger] bit_of(bm, i);
        let t = choose|t: int| 0 <= t < fs.len() && fs[t].0 == i;
        assert(fs[t].0 >= 65);
    }
    if exists|t: int| 0 <= t < fs.len() && fs[t].0 >= 65 {
        let t = choose|t: int| 0 <= t < fs.len() && fs[t].0 >= 65;
        assert(2 <= fs[t].0 <= 8 * bm.len());
    }
}

proof fn lemma_walk_ok_prefix(ms: &MessageSpec, bm: Seq<u8>, data: Seq<u8>, start: nat, k: nat, k2: nat)
    requires
        k <= k2,
        walk(ms, bm, data, start, k2) is Ok,
    ensures
        walk(ms, bm, data, start, k) is Ok,
    decreases k2,
{
    if k < k2 {
        lemma_walk_ok_prefix(ms, bm, data, start, k, (k2 - 1) as nat);
    }
}

/// Whether `cut` falls inside the bytes of field `j` when `data` is read
/// from `start`: the reader stands at or before `cut` once the fields below
/// `j` are read, and past it once field `j` is read.
pub open spec fn cut_in_field(ms: &MessageSpec, bm: Seq<u8>, data: Seq<u8>, start: nat, j: nat, cut: nat) -> bool {
    &&& walk(ms, bm, data, start, j) is Ok
    &&& walk(ms, bm, data, start, j + 1) is Ok
    &&& walk(ms, bm, data, start, j)->Ok_0.1 <= cut
    &&& cut < walk(ms, bm, data, start, j + 1)->Ok_0.1
}

proof fn lemma_walk_truncated(ms: &MessageSpec, bm: Seq<u8>, data: Seq<u8>, start: nat, k: nat, cut: nat)
    requires
        k <= 129,
        walk(ms, bm, data, start, k) is Ok,
        start <= cut <= data.len(),
    ensures
        walk(ms, bm, data, start, k)->Ok_0.1 <= cut ==> walk(ms, bm, data.take(cut as int), start, k) == walk(ms, bm, data, start, k),
        walk(ms, bm, data, start, k)->Ok_0.1 > cut ==> (walk(ms, bm, data.take(cut as int), start, k) matches Err(
            CoreError::Field(j, _)) && exists|t: int| 0 <= t < walk(ms, bm, data, start, k)->Ok_0.0.len()
            && walk(ms, bm, data, start, k)->Ok_0.0[t].0 == j
            && cut_in_field(ms, bm, data, start, j as nat, cut)),
    decreases k,
{
    if k > 2 {
        lemma_walk_truncated(ms, bm, data, start, (k - 1) as nat, cut);
        lemma_walk_ok_prefix(ms, bm, data, start, (k - 1) as nat, k);
        let (fs, pos) = walk(ms, bm, data, start, (k - 1) as nat)->Ok_0;
        let fs2 = walk(ms, bm, data, start, k)->Ok_0.0;
        let i = (k - 1) as int;
        if pos <= cut && bit_of(bm, i) {
            let s = ms.field(i)->Some_0;
            assert(data.take(cut as int).skip(pos as int) =~= data.skip(pos as int).take(cut - pos));
            lemma_field_truncation(&s, data.skip(pos as int), (cut - pos) as nat);
            assert(fs2[fs.len() as int].0 == i as u8);
            assert((i as u8) as nat == (k - 1) as nat);
        }
        if pos > cut {
            if let Err(CoreError::Field(j, _)) = walk(ms, bm, data.take(cut as int), start, (k - 1) as nat) {
                let t = choose|t: int| 0 <= t < fs.len() && fs[t].0 == j;
                assert(fs2[t] == fs[t]);
            }
        }
    }
}

/// A buffer cut short anywhere before the end of a message that reads
/// cleanly does not read: `unpack` fails rather than return part of it, and
/// its error names the part that the cut falls in: the MTI, the bitmap, or
/// the field whose bytes hold the cut.
pub proof fn lemma_unpack_truncated(ms: &MessageSpec, data: Seq<u8>, cut: nat)
    requires
        unpack_spec(ms, data) is Ok,
        cut < unpack_spec(ms, data)->Ok_0.3,
    ensures
        unpack_spec(ms, data.take(cut as int)) is Err,
        ({
            let (mti, a) = ms.mti.unpack_spec(data)->Ok_0;
            let b = bitmap_unpack_spec(ms.bitmap, data.skip(a as int))->Ok_0.1;
            let fs = unpack_spec(ms, data)->Ok_0.2;
            match unpack_spec(ms, data.take(cut as int))->Err_0 {
                CoreError::Mti(_) => cut < a,
                CoreError::Bitmap => a <= cut < a + b,
                CoreError::Field(j, _) => a + b <= cut && (exists|t: int| 0 <= t < fs.len() && fs[t].0 == j)
                    && cut_in_field(ms, unpack_spec(ms, data)->Ok_0.1, data, a + b, j as nat, cut),
                _ => false,
            }
        }),
{
    let d = data.take(cut as int);
    let (mti, a) = ms.mti.unpack_spec(data)->Ok_0;
    lemma_unpack_bitmap(ms, data);
    assert(unpack_spec(ms, data)->Ok_0.3 <= data.len()) by {
        lemma_walk_bound(ms, unpack_spec(ms, data)->Ok_0.1, data, a + bitmap_unpack_spec(ms.bitmap, data.skip(a as int))->Ok_0.1,
            8 * unpack_spec(ms, data)->Ok_0.1.len() + 1);
    }
    lemma_field_truncation(&ms.mti, data, cut);
    if cut >= a {
        let rest = data.skip(a as int);
        let rcut = d.skip(a as int);
        assert(rcut =~= rest.take(cut - a));
        let (bm, b) = bitmap_unpack_spec(ms.bitmap, rest)->Ok_0;
        let w = half_width(ms.bitmap);
        if cut >= a + b {
            assert(rcut.take(w as int) =~= rest.take(w as int));
            if b == 2 * w {
                assert(rcut.subrange(w as int, 2 * w as int) =~= rest.subrange(w as int, 2 * w as int));
            }
            assert(bitmap_unpack_spec(ms.bitmap, rcut) == bitmap_unpack_spec(ms.bitmap, rest));
            assert(ms.mti.unpack_spec(d) == ms.mti.unpack_spec(data));
            lemma_walk_truncated(ms, bm, data, a + b, 8 * bm.len() + 1, cut);
            assert(unpack_spec(ms, data)->Ok_0.2 == walk(ms, bm, data, a + b, 8 * bm.len() + 1)->Ok_0.0);
            assert(walk(ms, bm, d, a + b, 8 * bm.len() + 1) is Err ==> unpack_spec(ms, d)->Err_0
                == walk(ms, bm, d, a + b, 8 * bm.len() + 1)->Err_0);
        } else if cut - a >= w {
            assert(rcut.take(w as int) =~= rest.take(w as int));
        }
    }
}

proof fn lemma_walk_bound(ms: &MessageSpec, bm: Seq<u8>, data: Seq<u8>, start: nat, k: nat)
    requires
        walk(ms, bm, data, start, k) is Ok,
        start <= data.len(),
    ensures
        walk(ms, bm, data, start, k)->Ok_0.1 <= data.len(),
    decreases k,
{
    if k > 2 {
        lemma_walk_bound(ms, bm, data, start, (k - 1) as nat);
    }
}

} // verus!
