use crate::context::Endian;
use vstd::prelude::*;

verus! {

/// The two bytes of `x` in the given order.
pub open spec fn u16_bytes(x: u16, e: Endian) -> Seq<u8> {
    let le = seq![x as u8, (x >> 8) as u8];
    if e == Endian::Little {
        le
    } else {
        le.reverse()
    }
}

/// The four bytes of `x` in the given order.
pub open spec fn u32_bytes(x: u32, e: Endian) -> Seq<u8> {
    let le = seq![x as u8, (x >> 8) as u8, (x >> 16) as u8, (x >> 24) as u8];
    if e == Endian::Little {
        le
    } else {
        le.reverse()
    }
}

/// The eight bytes of `x` in the given order.
pub open spec fn u64_bytes(x: u64, e: Endian) -> Seq<u8> {
    let le = seq![
        x as u8,
        (x >> 8) as u8,
        (x >> 16) as u8,
        (x >> 24) as u8,
        (x >> 32) as u8,
        (x >> 40) as u8,
        (x >> 48) as u8,
        (x >> 56) as u8,
    ];
    if e == Endian::Little {
        le
    } else {
        le.reverse()
    }
}

/// The number that two bytes hold in the given order.
pub open spec fn u16_from(b: Seq<u8>, e: Endian) -> u16
    recommends
        b.len() == 2,
{
    let le = if e == Endian::Little {
        b
    } else {
        b.reverse()
    };
    (le[0] as u16) | ((le[1] as u16) << 8)
}

/// The number that four bytes hold in the given order.
pub open spec fn u32_from(b: Seq<u8>, e: Endian) -> u32
    recommends
        b.len() == 4,
{
    let le = if e == Endian::Little {
        b
    } else {
        b.reverse()
    };
    (le[0] as u32) | ((le[1] as u32) << 8) | ((le[2] as u32) << 16) | ((le[3] as u32) << 24)
}

/// The number that eight bytes hold in the given order.
pub open spec fn u64_from(b: Seq<u8>, e: Endian) -> u64
    recommends
        b.len() == 8,
{
    let le = if e == Endian::Little {
        b
    } else {
        b.reverse()
    };
    (le[0] as u64) | ((le[1] as u64) << 8) | ((le[2] as u64) << 16) | ((le[3] as u64) << 24) | ((
    le[4] as u64) << 32) | ((le[5] as u64) << 40) | ((le[6] as u64) << 48) | ((le[7] as u64)
        << 56)
}

/// Reading back the bytes of a number gives the number.
pub proof fn lemma_u16_round_trip(x: u16, e: Endian)
    ensures
        u16_bytes(x, e).len() == 2,
        u16_from(u16_bytes(x, e), e) == x,
{
    let le = seq![x as u8, (x >> 8) as u8];
    if e == Endian::Big {
        assert(le.reverse().reverse() =~= le);
    }
    let b0 = x as u8;
    let b1 = (x >> 8) as u8;
    assert(((b0 as u16) | ((b1 as u16) << 8)) == x) by (bit_vector)
        requires
            b0 == x as u8,
            b1 == (x >> 8) as u8,
    ;
}

/// Reading back the bytes of a number gives the number.
pub proof fn lemma_u32_round_trip(x: u32, e: Endian)
    ensures
        u32_bytes(x, e).len() == 4,
        u32_from(u32_bytes(x, e), e) == x,
{
    let le = seq![x as u8, (x >> 8) as u8, (x >> 16) as u8, (x >> 24) as u8];
    if e == Endian::Big {
        assert(le.reverse().reverse() =~= le);
    }
    let b0 = x as u8;
    let b1 = (x >> 8) as u8;
    let b2 = (x >> 16) as u8;
    let b3 = (x >> 24) as u8;
    assert(((b0 as u32) | ((b1 as u32) << 8) | ((b2 as u32) << 16) | ((b3 as u32) << 24)) == x)
        by (bit_vector)
        requires
            b0 == x as u8,
            b1 == (x >> 8) as u8,
            b2 == (x >> 16) as u8,
            b3 == (x >> 24) as u8,
    ;
}

/// Reading back the bytes of a number gives the number.
pub proof fn lemma_u64_round_trip(x: u64, e: Endian)
    ensures
        u64_bytes(x, e).len() == 8,
        u64_from(u64_bytes(x, e), e) == x,
{
    let le = seq![
        x as u8,
        (x >> 8) as u8,
        (x >> 16) as u8,
        (x >> 24) as u8,
        (x >> 32) as u8,
        (x >> 40) as u8,
        (x >> 48) as u8,
        (x >> 56) as u8,
    ];
    if e == Endian::Big {
        assert(le.reverse().reverse() =~= le);
    }
    let b0 = x as u8;
    let b1 = (x >> 8) as u8;
    let b2 = (x >> 16) as u8;
    let b3 = (x >> 24) as u8;
    let b4 = (x >> 32) as u8;
    let b5 = (x >> 40) as u8;
    let b6 = (x >> 48) as u8;
    let b7 = (x >> 56) as u8;
    assert(((b0 as u64) | ((b1 as u64) << 8) | ((b2 as u64) << 16) | ((b3 as u64) << 24) | ((
    b4 as u64) << 32) | ((b5 as u64) << 40) | ((b6 as u64) << 48) | ((b7 as u64) << 56)) == x)
        by (bit_vector)
        requires
            b0 == x as u8,
            b1 == (x >> 8) as u8,
            b2 == (x >> 16) as u8,
            b3 == (x >> 24) as u8,
            b4 == (x >> 32) as u8,
            b5 == (x >> 40) as u8,
            b6 == (x >> 48) as u8,
            b7 == (x >> 56) as u8,
    ;
}

/// Appends the bytes of a 16-bit number.
pub fn push_u16(out: &mut Vec<u8>, x: u16, e: Endian)
    ensures
        final(out)@ == old(out)@ + u16_bytes(x, e),
{
    let b0 = x as u8;
    let b1 = (x >> 8) as u8;
    if e == Endian::Little {
        out.push(b0);
        out.push(b1);
    } else {
        out.push(b1);
        out.push(b0);
    }
    assert(final(out)@ =~= old(out)@ + u16_bytes(x, e));
}

/// Appends the bytes of a 32-bit number.
pub fn push_u32(out: &mut Vec<u8>, x: u32, e: Endian)
    ensures
        final(out)@ == old(out)@ + u32_bytes(x, e),
{
    let b = [x as u8, (x >> 8) as u8, (x >> 16) as u8, (x >> 24) as u8];
    if e == Endian::Little {
        out.push(b[0]);
        out.push(b[1]);
        out.push(b[2]);
        out.push(b[3]);
    } else {
        out.push(b[3]);
        out.push(b[2]);
        out.push(b[1]);
        out.push(b[0]);
    }
    assert(final(out)@ =~= old(out)@ + u32_bytes(x, e));
}

/// Appends the bytes of a 64-bit number.
pub fn push_u64(out: &mut Vec<u8>, x: u64, e: Endian)
    ensures
        final(out)@ == old(out)@ + u64_bytes(x, e),
{
    let b0 = x as u8;
    let b1 = (x >> 8) as u8;
    let b2 = (x >> 16) as u8;
    let b3 = (x >> 24) as u8;
    let b4 = (x >> 32) as u8;
    let b5 = (x >> 40) as u8;
    let b6 = (x >> 48) as u8;
    let b7 = (x >> 56) as u8;
    if e == Endian::Little {
        out.push(b0);
        out.push(b1);
        out.push(b2);
        out.push(b3);
        out.push(b4);
        out.push(b5);
        out.push(b6);
        out.push(b7);
    } else {
        out.push(b7);
        out.push(b6);
        out.push(b5);
        out.push(b4);
        out.push(b3);
        out.push(b2);
        out.push(b1);
        out.push(b0);
    }
    assert(final(out)@ =~= old(out)@ + u64_bytes(x, e));
}

/// Reads a 16-bit number from two bytes at `at`.
pub fn read_u16(b: &[u8], at: usize, e: Endian) -> (r: u16)
    requires
        b@.len() >= 2,
        at <= b@.len() - 2,
    ensures
        r == u16_from(b@.subrange(at as int, at + 2), e),
{
    let n = b.len();
    assert(at + 1 < n);
    let (b0, b1) = if e == Endian::Little {
        (b[at], b[at + 1])
    } else {
        (b[at + 1], b[at])
    };
    let ghost s = b@.subrange(at as int, at + 2);
    assert(s.reverse()[0] == s[1] && s.reverse()[1] == s[0]);
    (b0 as u16) | ((b1 as u16) << 8)
}

/// Reads a 32-bit number from four bytes at `at`.
pub fn read_u32(b: &[u8], at: usize, e: Endian) -> (r: u32)
    requires
        b@.len() >= 4,
        at <= b@.len() - 4,
    ensures
        r == u32_from(b@.subrange(at as int, at + 4), e),
{
    let ghost s = b@.subrange(at as int, at + 4);
    let n = b.len();
    assert(at + 3 < n);
    if e == Endian::Little {
        (b[at] as u32) | ((b[at + 1] as u32) << 8) | ((b[at + 2] as u32) << 16) | ((b[at
            + 3] as u32) << 24)
    } else {
        assert(s.reverse()[0] == s[3] && s.reverse()[1] == s[2] && s.reverse()[2] == s[1]
            && s.reverse()[3] == s[0]);
        (b[at + 3] as u32) | ((b[at + 2] as u32) << 8) | ((b[at + 1] as u32) << 16) | ((b[at]
            as u32) << 24)
    }
}

/// Reads a 64-bit number from eight bytes at `at`.
pub fn read_u64(b: &[u8], at: usize, e: Endian) -> (r: u64)
    requires
        b@.len() >= 8,
        at <= b@.len() - 8,
    ensures
        r == u64_from(b@.subrange(at as int, at + 8), e),
{
    let ghost s = b@.subrange(at as int, at + 8);
    let n = b.len();
    assert(at + 7 < n);
    if e == Endian::Little {
        (b[at] as u64) | ((b[at + 1] as u64) << 8) | ((b[at + 2] as u64) << 16) | ((b[at
            + 3] as u64) << 24) | ((b[at + 4] as u64) << 32) | ((b[at + 5] as u64) << 40) | ((b[at
            + 6] as u64) << 48) | ((b[at + 7] as u64) << 56)
    } else {
        let ghost rv = s.reverse();
        assert(rv[0] == s[7] && rv[1] == s[6] && rv[2] == s[5] && rv[3] == s[4] && rv[4] == s[3]
            && rv[5] == s[2] && rv[6] == s[1] && rv[7] == s[0]);
        (b[at + 7] as u64) | ((b[at + 6] as u64) << 8) | ((b[at + 5] as u64) << 16) | ((b[at
            + 4] as u64) << 24) | ((b[at + 3] as u64) << 32) | ((b[at + 2] as u64) << 40) | ((b[at
            + 1] as u64) << 48) | ((b[at] as u64) << 56)
    }
}

} // verus!
