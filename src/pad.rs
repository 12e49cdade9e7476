//! Padding: how a value is filled out to a fixed width, and read back.
use vstd::prelude::*;
use vstd::slice::{slice_subrange, slice_to_vec};

verus! {

/// `s` without the run of `c` at its front.
pub open spec fn strip_left(s: Seq<u8>, c: u8) -> Seq<u8>
    decreases s.len(),
{
    if s.len() > 0 && s[0] == c {
        strip_left(s.skip(1), c)
    } else {
        s
    }
}

/// `s` without the run of `c` at its end.
pub open spec fn strip_right(s: Seq<u8>, c: u8) -> Seq<u8>
    decreases s.len(),
{
    if s.len() > 0 && s.last() == c {
        strip_right(s.drop_last(), c)
    } else {
        s
    }
}

/// `n` copies of `c`.
pub open spec fn fill(n: nat, c: u8) -> Seq<u8> {
    Seq::new(n, |i: int| c)
}

/// How a value is padded to its field's width.
#[derive(Clone, Copy, Debug, PartialEq, Eq, Structural)]
pub enum Padding {
    /// The value is written as it is.
    NoPad,
    /// Fill characters go in front of the value (zeros before a number).
    Left(u8),
    /// Fill characters go after the value (spaces after text).
    Right(u8),
}

/// The capability of a padder: fill a value out to a width, and strip the
/// fill again.
pub trait Padder {
    spec fn pad_spec(&self, data: Seq<u8>, length: nat) -> Seq<u8>;

    spec fn unpad_spec(&self, data: Seq<u8>) -> Seq<u8>;

    /// Whether stripping leaves `data` as it is: it does not start (left
    /// padding) or end (right padding) with the fill character.
    spec fn keeps(&self, data: Seq<u8>) -> bool;

    fn pad(&self, data: &[u8], length: usize) -> (r: Vec<u8>)
        ensures
            r@ == self.pad_spec(data@, length as nat),
    ;

    fn keeps_exec(&self, data: &[u8]) -> (r: bool)
        ensures
            r == self.keeps(data@),
    ;

    fn unpad(&self, data: &[u8]) -> (r: Vec<u8>)
        ensures
            r@ == self.unpad_spec(data@),
    ;
}

impl Padder for Padding {
    open spec fn pad_spec(&self, data: Seq<u8>, length: nat) -> Seq<u8> {
        if data.len() >= length {
            data
        } else {
            match self {
                Padding::NoPad => data,
                Padding::Left(c) => fill((length - data.len()) as nat, *c) + data,
                Padding::Right(c) => data + fill((length - data.len()) as nat, *c),
            }
        }
    }

    open spec fn unpad_spec(&self, data: Seq<u8>) -> Seq<u8> {
        match self {
            Padding::NoPad => data,
            Padding::Left(c) => strip_left(data, *c),
            Padding::Right(c) => strip_right(data, *c),
        }
    }

    open spec fn keeps(&self, data: Seq<u8>) -> bool {
        match self {
            Padding::NoPad => true,
            Padding::Left(c) => data.len() == 0 || data[0] != *c,
            Padding::Right(c) => data.len() == 0 || data.last() != *c,
        }
    }

    fn pad(&self, data: &[u8], length: usize) -> (r: Vec<u8>) {
        if data.len() >= length {
            return slice_to_vec(data);
        }
        match self {
            Padding::NoPad => slice_to_vec(data),
            Padding::Left(c) => {
                let mut out: Vec<u8> = Vec::new();
                let n: usize = length - data.len();
                while out.len() < n
                    invariant
                        out@.len() <= n,
                        out@ =~= fill(out@.len(), *c),
                    decreases n - out@.len(),
                {
                    out.push(*c);
                }
                let mut i: usize = 0;
                while i < data.len()
                    invariant
                        i <= data@.len(),
                        out@ =~= fill(n as nat, *c) + data@.take(i as int),
                    decreases data@.len() - i,
                {
                    out.push(data[i]);
                    i = i + 1;
                }
                assert(data@.take(i as int) =~= data@);
                out
            },
            Padding::Right(c) => {
                let mut out = slice_to_vec(data);
                while out.len() < length
                    invariant
                        data@.len() <= out@.len() <= length,
                        out@ =~= data@ + fill((out@.len() - data@.len()) as nat, *c),
                    decreases length - out@.len(),
                {
                    out.push(*c);
                }
                out
            },
        }
    }

    fn keeps_exec(&self, data: &[u8]) -> (r: bool) {
        match self {
            Padding::NoPad => true,
            Padding::Left(c) => data.len() == 0 || data[0] != *c,
            Padding::Right(c) => data.len() == 0 || data[data.len() - 1] != *c,
        }
    }

    fn unpad(&self, data: &[u8]) -> (r: Vec<u8>) {
        match self {
            Padding::NoPad => slice_to_vec(data),
            Padding::Left(c) => {
                let mut i: usize = 0;
                assert(data@.skip(0) =~= data@);
                while i < data.len() && data[i] == *c
                    invariant
                        i <= data@.len(),
                        strip_left(data@, *c) == strip_left(data@.skip(i as int), *c),
                    decreases data@.len() - i,
                {
                    assert(data@.skip(i as int).skip(1) =~= data@.skip(i + 1));
                    i = i + 1;
                }
                let rest = slice_subrange(data, i, data.len());
                assert(rest@ =~= data@.skip(i as int));
                slice_to_vec(rest)
            },
            Padding::Right(c) => {
                let mut j: usize = data.len();
                assert(data@.take(data@.len() as int) =~= data@);
                while j > 0 && data[j - 1] == *c
                    invariant
                        j <= data@.len(),
                        strip_right(data@, *c) == strip_right(data@.take(j as int), *c),
                    decreases j,
                {
                    assert(data@.take(j as int).drop_last() =~= data@.take(j - 1));
                    j = j - 1;
                }
                let rest = slice_subrange(data, 0, j);
                assert(rest@ =~= data@.take(j as int));
                slice_to_vec(rest)
            },
        }
    }
}

proof fn lemma_strip_left_fill(n: nat, c: u8, d: Seq<u8>)
    requires
        d.len() == 0 || d[0] != c,
    ensures
        strip_left(fill(n, c) + d, c) == d,
    decreases n,
{
    if n == 0 {
        assert(fill(n, c) + d =~= d);
    } else {
        assert((fill(n, c) + d).skip(1) =~= fill((n - 1) as nat, c) + d);
        lemma_strip_left_fill((n - 1) as nat, c, d);
    }
}

proof fn lemma_strip_right_fill(n: nat, c: u8, d: Seq<u8>)
    requires
        d.len() == 0 || d.last() != c,
    ensures
        strip_right(d + fill(n, c), c) == d,
    decreases n,
{
    if n == 0 {
        assert(d + fill(n, c) =~= d);
    } else {
        assert((d + fill(n, c)).drop_last() =~= d + fill((n - 1) as nat, c));
        lemma_strip_right_fill((n - 1) as nat, c, d);
    }
}

/// Stripping the padding of a padded value gives the value back, when the
/// value does not itself begin or end with the fill character.
pub proof fn lemma_pad_round_trip(p: Padding, data: Seq<u8>, length: nat)
    requires
        p.keeps(data),
    ensures
        p.unpad_spec(p.pad_spec(data, length)) == data,
{
    match p {
        Padding::NoPad => {},
        Padding::Left(c) => {
            if data.len() >= length {
                lemma_strip_left_fill(0, c, data);
                assert(fill(0, c) + data =~= data);
            } else {
                lemma_strip_left_fill((length - data.len()) as nat, c, data);
            }
        },
        Padding::Right(c) => {
            if data.len() >= length {
                lemma_strip_right_fill(0, c, data);
                assert(data + fill(0, c) =~= data);
            } else {
                lemma_strip_right_fill((length - data.len()) as nat, c, data);
            }
        },
    }
}

} // verus!
