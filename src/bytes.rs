use vstd::prelude::*;

verus! {

/// Eight bytes, most significant first.
pub open spec fn u64_be(x: u64) -> Seq<u8> {
    seq![
        (x >> 56u64) as u8,
        (x >> 48u64) as u8,
        (x >> 40u64) as u8,
        (x >> 32u64) as u8,
        (x >> 24u64) as u8,
        (x >> 16u64) as u8,
        (x >> 8u64) as u8,
        x as u8,
    ]
}

/// The word that eight bytes, most significant first, spell.
pub open spec fn u64_of_be(s: Seq<u8>) -> u64 {
    ((s[0] as u64) << 56u64) | ((s[1] as u64) << 48u64) | ((s[2] as u64) << 40u64) | ((
    s[3] as u64) << 32u64) | ((s[4] as u64) << 24u64) | ((s[5] as u64) << 16u64) | ((
    s[6] as u64) << 8u64) | (s[7] as u64)
}

pub proof fn lemma_u64_be_round_trip(x: u64)
    ensures
        u64_of_be(u64_be(x)) == x,
        u64_be(x).len() == 8,
{
    let s = u64_be(x);
    let (b0, b1, b2, b3, b4, b5, b6, b7) = (s[0], s[1], s[2], s[3], s[4], s[5], s[6], s[7]);
    assert(b0 == (x >> 56u64) as u8 && b1 == (x >> 48u64) as u8 && b2 == (x >> 40u64) as u8
        && b3 == (x >> 32u64) as u8 && b4 == (x >> 24u64) as u8 && b5 == (x >> 16u64) as u8
        && b6 == (x >> 8u64) as u8 && b7 == x as u8);
    assert((((b0 as u64) << 56u64) | ((b1 as u64) << 48u64) | ((b2 as u64) << 40u64) | ((
    b3 as u64) << 32u64) | ((b4 as u64) << 24u64) | ((b5 as u64) << 16u64) | ((b6 as u64) << 8u64)
        | (b7 as u64)) == x) by (bit_vector)
        requires
            b0 == (x >> 56u64) as u8 && b1 == (x >> 48u64) as u8 && b2 == (x >> 40u64) as u8
                && b3 == (x >> 32u64) as u8 && b4 == (x >> 24u64) as u8 && b5 == (x
                >> 16u64) as u8 && b6 == (x >> 8u64) as u8 && b7 == x as u8,
    ;
}

/// Appends the eight big-endian bytes of `x`.
pub fn push_u64(out: &mut Vec<u8>, x: u64)
    ensures
        final(out)@ == old(out)@ + u64_be(x),
{
    out.push((x >> 56u64) as u8);
    out.push((x >> 48u64) as u8);
    out.push((x >> 40u64) as u8);
    out.push((x >> 32u64) as u8);
    out.push((x >> 24u64) as u8);
    out.push((x >> 16u64) as u8);
    out.push((x >> 8u64) as u8);
    out.push(x as u8);
    assert(final(out)@ =~= old(out)@ + u64_be(x));
}

/// Reads the big-endian word at `pos`, if eight bytes remain there.
pub fn read_u64(data: &Vec<u8>, pos: usize) -> (r: Option<u64>)
    ensures
        r is Some <==> pos + 8 <= data@.len(),
        r is Some ==> r->0 == u64_of_be(data@.subrange(pos as int, pos + 8)),
{
    if pos > data.len() || data.len() - pos < 8 {
        return None;
    }
    let x = ((data[pos] as u64) << 56u64) | ((data[pos + 1] as u64) << 48u64) | ((data[pos
        + 2] as u64) << 40u64) | ((data[pos + 3] as u64) << 32u64) | ((data[pos + 4] as u64)
        << 24u64) | ((data[pos + 5] as u64) << 16u64) | ((data[pos + 6] as u64) << 8u64) | (data[pos
        + 7] as u64);
    Some(x)
}

} // verus!

verus! {

/// Sixteen bytes, most significant first.
pub open spec fn u128_be(x: u128) -> Seq<u8> {
    u64_be((x >> 64u128) as u64) + u64_be(x as u64)
}

/// A byte string preceded by its length.
pub open spec fn enc_bytes(s: Seq<u8>) -> Seq<u8> {
    u64_be(s.len() as u64) + s
}

/// The encodings of the items of a sequence, one after another.
pub open spec fn concat_enc<A>(s: Seq<A>, f: spec_fn(A) -> Seq<u8>) -> Seq<u8>
    decreases s.len(),
{
    if s.len() == 0 {
        seq![]
    } else {
        concat_enc(s.drop_last(), f) + f(s.last())
    }
}

/// A sequence preceded by its length, then its items' encodings.
pub open spec fn enc_seq<A>(s: Seq<A>, f: spec_fn(A) -> Seq<u8>) -> Seq<u8> {
    u64_be(s.len() as u64) + concat_enc(s, f)
}

pub proof fn lemma_concat_enc_step<A>(s: Seq<A>, f: spec_fn(A) -> Seq<u8>, i: int)
    requires
        0 <= i < s.len(),
    ensures
        concat_enc(s.take(i + 1), f) == concat_enc(s.take(i), f) + f(s[i]),
{
    assert(s.take(i + 1).drop_last() =~= s.take(i));
}

/// Appends the sixteen big-endian bytes of `x`.
pub fn push_u128(out: &mut Vec<u8>, x: u128)
    ensures
        final(out)@ == old(out)@ + u128_be(x),
{
    push_u64(out, (x >> 64u128) as u64);
    push_u64(out, x as u64);
    assert(final(out)@ =~= old(out)@ + u128_be(x));
}

/// Appends a byte string preceded by its length.
pub fn push_bytes(out: &mut Vec<u8>, s: &Vec<u8>)
    ensures
        final(out)@ == old(out)@ + enc_bytes(s@),
{
    push_u64(out, s.len() as u64);
    let ghost mid = out@;
    let mut i: usize = 0;
    while i < s.len()
        invariant
            0 <= i <= s@.len(),
            out@ == mid + s@.take(i as int),
        decreases s@.len() - i,
    {
        out.push(s[i]);
        assert(s@.take(i + 1) =~= s@.take(i as int).push(s@[i as int]));
        i += 1;
    }
    assert(s@.take(i as int) =~= s@);
    assert(final(out)@ =~= old(out)@ + enc_bytes(s@));
}

} // verus!
