//! The MLS wire encoding: big-endian integers, byte strings behind a
//! variable-length size prefix, and lists of such strings.

use vstd::prelude::*;

verus! {

/// Sizes must stay below this bound to fit the variable-length prefix.
pub const OPAQUE_LIMIT: usize = 1073741824;

/// The 1, 2 or 4 byte size prefix of `n`.
pub open spec fn varint_spec(n: nat) -> Seq<u8> {
    if n < 64 {
        seq![n as u8]
    } else if n < 16384 {
        seq![(64 + n / 256) as u8, (n % 256) as u8]
    } else {
        seq![
            (128 + n / 16777216) as u8,
            ((n / 65536) % 256) as u8,
            ((n / 256) % 256) as u8,
            (n % 256) as u8,
        ]
    }
}

/// A byte string behind its size prefix.
pub open spec fn opaque_spec(b: Seq<u8>) -> Seq<u8> {
    varint_spec(b.len()) + b
}

pub open spec fn u16_spec(n: u16) -> Seq<u8> {
    seq![(n / 256) as u8, (n % 256) as u8]
}

pub open spec fn u64_spec(n: u64) -> Seq<u8> {
    seq![
        ((n / 0x100000000000000) % 256) as u8,
        ((n / 0x1000000000000) % 256) as u8,
        ((n / 0x10000000000) % 256) as u8,
        ((n / 0x100000000) % 256) as u8,
        ((n / 0x1000000) % 256) as u8,
        ((n / 0x10000) % 256) as u8,
        ((n / 0x100) % 256) as u8,
        (n % 256) as u8,
    ]
}

/// The prefixed strings of `items`, one after another.
pub open spec fn opaque_items_spec(items: Seq<Seq<u8>>) -> Seq<u8>
    decreases items.len(),
{
    if items.len() == 0 {
        Seq::empty()
    } else {
        opaque_items_spec(items.drop_last()) + opaque_spec(items.last())
    }
}

/// A list of byte strings: the size of the whole body, then each prefixed string.
pub open spec fn opaque_list_spec(items: Seq<Seq<u8>>) -> Seq<u8> {
    varint_spec(opaque_items_spec(items).len()) + opaque_items_spec(items)
}

/// When every string of a list, and the list body, fit their size prefixes.
pub open spec fn opaque_list_encodable(items: Seq<Seq<u8>>) -> bool {
    &&& forall|j: int| 0 <= j < items.len() ==> #[trigger] items[j].len() < OPAQUE_LIMIT
    &&& opaque_items_spec(items).len() < OPAQUE_LIMIT
}

/// Encoding and decoding failures.
#[derive(Clone, Copy, Debug, PartialEq, Eq, Structural)]
pub enum CodecError {
    /// A byte string is too long for its size prefix.
    TooLong,
    /// The input ends early or holds a value that no encoding produces.
    Malformed,
}

pub fn copy_bytes(b: &[u8]) -> (r: Vec<u8>)
    ensures
        r@ == b@,
{
    let mut out: Vec<u8> = Vec::new();
    push_bytes(&mut out, b);
    assert(out@ =~= b@);
    out
}

pub fn push_u8(out: &mut Vec<u8>, b: u8)
    ensures
        final(out)@ == old(out)@.push(b),
{
    out.push(b);
}

pub fn push_bytes(out: &mut Vec<u8>, b: &[u8])
    ensures
        final(out)@ == old(out)@ + b@,
{
    let ghost start = out@;
    let mut i: usize = 0;
    while i < b.len()
        invariant
            i <= b@.len(),
            out@ == start + b@.subrange(0, i as int),
        decreases b@.len() - i,
    {
        out.push(b[i]);
        i = i + 1;
        proof {
            assert(b@.subrange(0, i as int) == b@.subrange(0, i - 1) + seq![b@[i - 1]]);
        }
    }
    proof {
        assert(b@.subrange(0, b@.len() as int) == b@);
    }
}

pub fn push_varint(out: &mut Vec<u8>, n: usize)
    requires
        n < OPAQUE_LIMIT,
    ensures
        final(out)@ == old(out)@ + varint_spec(n as nat),
{
    if n < 64 {
        out.push(n as u8);
    } else if n < 16384 {
        out.push((64 + n / 256) as u8);
        out.push((n % 256) as u8);
    } else {
        out.push((128 + n / 16777216) as u8);
        out.push(((n / 65536) % 256) as u8);
        out.push(((n / 256) % 256) as u8);
        out.push((n % 256) as u8);
    }
    assert(final(out)@ =~= old(out)@ + varint_spec(n as nat));
}

pub fn push_opaque(out: &mut Vec<u8>, b: &[u8])
    requires
        b@.len() < OPAQUE_LIMIT,
    ensures
        final(out)@ == old(out)@ + opaque_spec(b@),
{
    push_varint(out, b.len());
    push_bytes(out, b);
    assert(final(out)@ =~= old(out)@ + opaque_spec(b@));
}

pub fn push_u16(out: &mut Vec<u8>, n: u16)
    ensures
        final(out)@ == old(out)@ + u16_spec(n),
{
    out.push((n / 256) as u8);
    out.push((n % 256) as u8);
    assert(final(out)@ =~= old(out)@ + u16_spec(n));
}

pub fn push_u64(out: &mut Vec<u8>, n: u64)
    ensures
        final(out)@ == old(out)@ + u64_spec(n),
{
    out.push(((n / 0x100000000000000) % 256) as u8);
    out.push(((n / 0x1000000000000) % 256) as u8);
    out.push(((n / 0x10000000000) % 256) as u8);
    out.push(((n / 0x100000000) % 256) as u8);
    out.push(((n / 0x1000000) % 256) as u8);
    out.push(((n / 0x10000) % 256) as u8);
    out.push(((n / 0x100) % 256) as u8);
    out.push((n % 256) as u8);
    assert(final(out)@ =~= old(out)@ + u64_spec(n));
}

/// Reads a size prefix: the value and the number of bytes it took.
pub open spec fn parse_varint(s: Seq<u8>) -> Option<(nat, nat)> {
    if s.len() == 0 {
        None
    } else if s[0] < 64 {
        Some((s[0] as nat, 1))
    } else if s[0] < 128 {
        if s.len() < 2 {
            None
        } else {
            Some((((s[0] - 64) * 256 + s[1]) as nat, 2))
        }
    } else if s[0] < 192 {
        if s.len() < 4 {
            None
        } else {
            Some((((s[0] - 128) * 16777216 + s[1] * 65536 + s[2] * 256 + s[3]) as nat, 4))
        }
    } else {
        None
    }
}

/// Reads a prefixed byte string: the string and the number of bytes it took.
pub open spec fn parse_opaque(s: Seq<u8>) -> Option<(Seq<u8>, nat)> {
    match parse_varint(s) {
        Some((n, k)) => if k + n <= s.len() {
            Some((s.subrange(k as int, (k + n) as int), k + n))
        } else {
            None
        },
        None => None,
    }
}

pub open spec fn parse_u16(s: Seq<u8>) -> Option<(u16, nat)> {
    if s.len() < 2 {
        None
    } else {
        Some(((s[0] * 256 + s[1]) as u16, 2))
    }
}

pub open spec fn parse_u64(s: Seq<u8>) -> Option<(u64, nat)> {
    if s.len() < 8 {
        None
    } else {
        Some((horner(s, 8) as u64, 8))
    }
}

/// A size prefix reads back as the size it encodes.
pub proof fn lemma_varint_round_trip(n: nat, rest: Seq<u8>)
    requires
        n < OPAQUE_LIMIT,
    ensures
        parse_varint(varint_spec(n) + rest) == Some((n, varint_spec(n).len())),
{
    let s = varint_spec(n) + rest;
    if n < 64 {
        assert(s[0] == n as u8);
    } else if n < 16384 {
        assert(s[0] == (64 + n / 256) as u8);
        assert(s[1] == (n % 256) as u8);
    } else {
        assert(s[0] == (128 + n / 16777216) as u8);
        assert(s[1] == ((n / 65536) % 256) as u8);
        assert(s[2] == ((n / 256) % 256) as u8);
        assert(s[3] == (n % 256) as u8);
        assert(n / 16777216 < 64);
        assert((n / 16777216) * 16777216 + ((n / 65536) % 256) * 65536 + ((n / 256) % 256) * 256 + n
            % 256 == n) by (nonlinear_arith);
    }
}

/// A prefixed string reads back as the string.
pub proof fn lemma_opaque_round_trip(b: Seq<u8>, rest: Seq<u8>)
    requires
        b.len() < OPAQUE_LIMIT,
    ensures
        parse_opaque(opaque_spec(b) + rest) == Some((b, opaque_spec(b).len())),
{
    let v = varint_spec(b.len());
    assert(opaque_spec(b) + rest =~= v + (b + rest));
    lemma_varint_round_trip(b.len(), b + rest);
    assert((opaque_spec(b) + rest).subrange(v.len() as int, (v.len() + b.len()) as int) =~= b);
}

pub proof fn lemma_u16_round_trip(n: u16, rest: Seq<u8>)
    ensures
        parse_u16(u16_spec(n) + rest) == Some((n, 2nat)),
{
    let s = u16_spec(n) + rest;
    assert(s[0] == (n / 256) as u8);
    assert(s[1] == (n % 256) as u8);
}

pub proof fn lemma_u64_round_trip(n: u64, rest: Seq<u8>)
    ensures
        parse_u64(u64_spec(n) + rest) == Some((n, 8nat)),
{
    let s = u64_spec(n) + rest;
    assert(s[0] == ((n / 0x100000000000000) % 256) as u8);
    assert(s[1] == ((n / 0x1000000000000) % 256) as u8);
    assert(s[2] == ((n / 0x10000000000) % 256) as u8);
    assert(s[3] == ((n / 0x100000000) % 256) as u8);
    assert(s[4] == ((n / 0x1000000) % 256) as u8);
    assert(s[5] == ((n / 0x10000) % 256) as u8);
    assert(s[6] == ((n / 0x100) % 256) as u8);
    assert(s[7] == (n % 256) as u8);
    let n0 = n as int;
    let n1 = n0 / 256;
    let n2 = n1 / 256;
    let n3 = n2 / 256;
    let n4 = n3 / 256;
    let n5 = n4 / 256;
    let n6 = n5 / 256;
    let n7 = n6 / 256;
    assert(n0 / 0x10000 == n2) by (nonlinear_arith) requires n1 == n0 / 256, n2 == n1 / 256, n0 >= 0;
    assert(n0 / 0x1000000 == n3) by (nonlinear_arith) requires n3 == n2 / 256, n0 / 0x10000 == n2, n0 >= 0;
    assert(n0 / 0x100000000 == n4) by (nonlinear_arith) requires n4 == n3 / 256, n0 / 0x1000000 == n3, n0 >= 0;
    assert(n0 / 0x10000000000 == n5) by (nonlinear_arith) requires n5 == n4 / 256, n0 / 0x100000000 == n4, n0 >= 0;
    assert(n0 / 0x1000000000000 == n6) by (nonlinear_arith) requires n6 == n5 / 256, n0 / 0x10000000000 == n5, n0 >= 0;
    assert(n0 / 0x100000000000000 == n7) by (nonlinear_arith) requires n7 == n6 / 256, n0 / 0x1000000000000 == n6, n0 >= 0;
    assert(n7 < 256);
    let t = s;
    assert(horner(t, 0) == 0);
    assert(t[0] as int == n7);
    assert(horner(t, 1) == n7);
    assert(horner(t, 2) == n6);
    assert(horner(t, 3) == n5);
    assert(horner(t, 4) == n4);
    assert(horner(t, 5) == n3);
    assert(horner(t, 6) == n2);
    assert(horner(t, 7) == n1);
    assert(horner(t, 8) == n0);
}

/// Reads a size prefix at `pos`.
pub fn read_varint(s: &[u8], pos: usize) -> (r: Option<(usize, usize)>)
    requires
        pos <= s@.len(),
    ensures
        r is Some <==> parse_varint(s@.skip(pos as int)) is Some,
        r matches Some((n, k)) ==> parse_varint(s@.skip(pos as int)) == Some((n as nat, k as nat)),
{
    let ghost t = s@.skip(pos as int);
    if pos >= s.len() {
        return None;
    }
    let b0 = s[pos];
    assert(t[0] == b0);
    if b0 < 64 {
        Some((b0 as usize, 1))
    } else if b0 < 128 {
        if s.len() - pos < 2 {
            return None;
        }
        assert(t[1] == s@[pos + 1]);
        Some((((b0 - 64) as usize) * 256 + s[pos + 1] as usize, 2))
    } else if b0 < 192 {
        if s.len() - pos < 4 {
            return None;
        }
        assert(t[1] == s@[pos + 1]);
        assert(t[2] == s@[pos + 2]);
        assert(t[3] == s@[pos + 3]);
        Some(
            (
                ((b0 - 128) as usize) * 16777216 + (s[pos + 1] as usize) * 65536 + (s[pos + 2] as usize)
                    * 256 + s[pos + 3] as usize,
                4,
            ),
        )
    } else {
        None
    }
}

/// Reads a prefixed byte string at `pos`.
pub fn read_opaque(s: &[u8], pos: usize) -> (r: Option<(Vec<u8>, usize)>)
    requires
        pos <= s@.len(),
    ensures
        r is Some <==> parse_opaque(s@.skip(pos as int)) is Some,
        r matches Some((v, k)) ==> parse_opaque(s@.skip(pos as int)) == Some((v@, k as nat)),
        r matches Some((v, k)) ==> pos + k <= s@.len(),
{
    let ghost t = s@.skip(pos as int);
    let (n, k) = match read_varint(s, pos) {
        Some(x) => x,
        None => {
            return None;
        },
    };
    if n > s.len() - pos || k > s.len() - pos - n {
        return None;
    }
    let start = pos + k;
    let mut out: Vec<u8> = Vec::new();
    let mut i: usize = 0;
    while i < n
        invariant
            i <= n,
            start + n <= s@.len(),
            start == pos + k,
            out@ == s@.subrange(start as int, start + i),
            start + n <= s.len(),
        decreases n - i,
    {
        out.push(s[start + i]);
        i = i + 1;
        assert(out@ =~= s@.subrange(start as int, start + i));
    }
    assert(t.subrange(k as int, (k + n) as int) =~= s@.subrange(start as int, start + n));
    Some((out, k + n))
}

pub fn read_u8(s: &[u8], pos: usize) -> (r: Option<u8>)
    requires
        pos <= s@.len(),
    ensures
        r is Some <==> pos < s@.len(),
        r matches Some(b) ==> b == s@[pos as int] && b == s@.skip(pos as int)[0],
{
    if pos < s.len() {
        Some(s[pos])
    } else {
        None
    }
}

pub fn read_u16(s: &[u8], pos: usize) -> (r: Option<u16>)
    requires
        pos <= s@.len(),
    ensures
        r is Some <==> parse_u16(s@.skip(pos as int)) is Some,
        r matches Some(v) ==> parse_u16(s@.skip(pos as int)) == Some((v, 2nat)),
{
    if s.len() - pos < 2 {
        return None;
    }
    let ghost t = s@.skip(pos as int);
    assert(t[0] == s@[pos as int] && t[1] == s@[pos + 1]);
    Some((s[pos] as u16) * 256 + s[pos + 1] as u16)
}

pub fn read_u64(s: &[u8], pos: usize) -> (r: Option<u64>)
    requires
        pos <= s@.len(),
    ensures
        r is Some <==> parse_u64(s@.skip(pos as int)) is Some,
        r matches Some(v) ==> parse_u64(s@.skip(pos as int)) == Some((v, 8nat)),
{
    if s.len() - pos < 8 {
        return None;
    }
    let ghost t = s@.skip(pos as int);
    let mut v: u64 = 0;
    let mut i: usize = 0;
    while i < 8
        invariant
            i <= 8,
            pos + 8 <= s@.len(),
            t == s@.skip(pos as int),
            v as int == horner(t, i as int),
            v < pow256(i as nat),
            pos + 8 <= s.len(),
        decreases 8 - i,
    {
        let b = s[pos + i];
        assert(t[i as int] == b);
        assert(pow256((i + 1) as nat) == 256 * pow256(i as nat));
        assert(v * 256 + t[i as int] < pow256((i + 1) as nat)) by (nonlinear_arith)
            requires
                v < pow256(i as nat),
                pow256((i + 1) as nat) == 256 * pow256(i as nat),
                t[i as int] < 256,
        ;
        proof {
            lemma_pow256_mono((i + 1) as nat);
        }
        assert(v * 256 + b < 0x10000000000000000);
        v = v * 256 + b as u64;
        i = i + 1;
    }
    Some(v)
}

/// The big-endian value of the first `i` bytes of `t`.
pub open spec fn horner(t: Seq<u8>, i: int) -> int
    decreases i,
{
    if i <= 0 {
        0
    } else {
        horner(t, i - 1) * 256 + t[i - 1]
    }
}

pub open spec fn pow256(k: nat) -> nat
    decreases k,
{
    if k == 0 {
        1
    } else {
        256 * pow256((k - 1) as nat)
    }
}

proof fn lemma_pow256_mono(k: nat)
    requires
        k <= 8,
    ensures
        pow256(k) <= pow256(8),
        pow256(8) == 0x10000000000000000,
    decreases 8 - k,
{
    reveal_with_fuel(pow256, 9);
    if k < 8 {
        lemma_pow256_mono(k + 1);
    }
}

} // verus!
