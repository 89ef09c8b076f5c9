//! Little-endian integers inside byte sequences.

use vstd::prelude::*;

verus! {

/// The unsigned 16-bit number stored at `off`, low byte first.
pub open spec fn le16(s: Seq<u8>, off: int) -> int {
    s[off] as int + 256 * (s[off + 1] as int)
}

/// The unsigned 32-bit number stored at `off`, low byte first.
pub open spec fn le32(s: Seq<u8>, off: int) -> int {
    s[off] as int + 256 * (s[off + 1] as int) + 65536 * (s[off + 2] as int) + 16777216 * (s[off
        + 3] as int)
}

/// `s` with the two bytes at `off` holding `x`, low byte first.
#[verifier::opaque]
pub open spec fn put16(s: Seq<u8>, off: int, x: int) -> Seq<u8> {
    s.update(off, (x % 256) as u8).update(off + 1, (x / 256 % 256) as u8)
}

/// `s` with the four bytes at `off` holding `x`, low byte first.
#[verifier::opaque]
pub open spec fn put32(s: Seq<u8>, off: int, x: int) -> Seq<u8> {
    s.update(off, (x % 256) as u8).update(off + 1, (x / 256 % 256) as u8).update(
        off + 2,
        (x / 65536 % 256) as u8,
    ).update(off + 3, (x / 16777216 % 256) as u8)
}

/// `s` with the bytes from `off` on replaced by `data`.
pub open spec fn splice(s: Seq<u8>, off: int, data: Seq<u8>) -> Seq<u8> {
    Seq::new(
        s.len(),
        |i: int|
            if off <= i < off + data.len() {
                data[i - off]
            } else {
                s[i]
            },
    )
}

/// `n` zero bytes.
pub open spec fn zeros(n: int) -> Seq<u8> {
    Seq::new(n as nat, |i: int| 0u8)
}

/// `t` is `s` but for the bytes from `lo` up to `hi`.
pub open spec fn same_outside(t: Seq<u8>, s: Seq<u8>, lo: int, hi: int) -> bool {
    &&& t.len() == s.len()
    &&& forall|j: int| 0 <= j < s.len() && !(lo <= j < hi) ==> t[j] == s[j]
}

/// `t` is `s` but for bytes at places that `allowed` admits.
#[verifier::opaque]
pub open spec fn kept(t: Seq<u8>, s: Seq<u8>, allowed: spec_fn(int) -> bool) -> bool {
    &&& t.len() == s.len()
    &&& forall|j: int| 0 <= j < s.len() && !allowed(j) ==> t[j] == s[j]
}

/// What is kept has the length of what it was kept from.
pub proof fn lemma_kept_len(t: Seq<u8>, s: Seq<u8>, allowed: spec_fn(int) -> bool)
    requires
        kept(t, s, allowed),
    ensures
        t.len() == s.len(),
{
    reveal(kept);
}

/// A change between admitted places keeps what was kept.
pub proof fn lemma_kept_step(
    s: Seq<u8>,
    t: Seq<u8>,
    u: Seq<u8>,
    allowed: spec_fn(int) -> bool,
    lo: int,
    hi: int,
)
    requires
        kept(t, s, allowed),
        same_outside(u, t, lo, hi),
        forall|j: int| lo <= j < hi && 0 <= j < s.len() ==> #[trigger] allowed(j),
    ensures
        kept(u, s, allowed),
{
    reveal(kept);
}

/// A 16-bit pattern read as a two's complement number.
pub open spec fn signed16(u: int) -> int {
    if u < 0x8000 {
        u
    } else {
        u - 0x1_0000
    }
}

/// The 16-bit pattern of a two's complement number.
pub open spec fn unsigned16(i: int) -> int {
    if i >= 0 {
        i
    } else {
        i + 0x1_0000
    }
}

/// A 32-bit pattern read as a two's complement number.
pub open spec fn signed32(u: int) -> int {
    if u < 0x8000_0000 {
        u
    } else {
        u - 0x1_0000_0000
    }
}

/// The 32-bit pattern of a two's complement number.
pub open spec fn unsigned32(i: int) -> int {
    if i >= 0 {
        i
    } else {
        i + 0x1_0000_0000
    }
}

/// Two bytes hold a number below 65536, and the number fixes both bytes.
pub proof fn lemma_le16_unique(s1: Seq<u8>, o1: int, s2: Seq<u8>, o2: int)
    ensures
        0 <= le16(s1, o1) < 0x1_0000,
        le16(s1, o1) == le16(s2, o2) ==> s1[o1] == s2[o2] && s1[o1 + 1] == s2[o2 + 1],
{
}

/// Four bytes hold a number below 2^32, and the number fixes all four bytes.
pub proof fn lemma_le32_unique(s1: Seq<u8>, o1: int, s2: Seq<u8>, o2: int)
    ensures
        0 <= le32(s1, o1) < 0x1_0000_0000,
        le32(s1, o1) == le32(s2, o2) ==> s1[o1] == s2[o2] && s1[o1 + 1] == s2[o2 + 1] && s1[o1
            + 2] == s2[o2 + 2] && s1[o1 + 3] == s2[o2 + 3],
{
}

/// A number below 65536 is put together again from its two base-256 digits.
pub proof fn lemma_digits16(x: u16)
    ensures
        x % 256 + 256 * (x / 256 % 256) == x,
        x % 256 < 256,
        x / 256 % 256 < 256,
{
    assert(x % 256 + 256 * (x / 256 % 256) == x) by (bit_vector);
}

/// A number below 2^32 is put together again from its four base-256 digits.
pub proof fn lemma_digits32(x: u32)
    ensures
        x % 256 + 256 * (x / 256 % 256) + 65536 * (x / 65536 % 256) + 16777216 * (x / 16777216
            % 256) == x,
        x % 256 < 256,
        x / 256 % 256 < 256,
        x / 65536 % 256 < 256,
        x / 16777216 % 256 < 256,
{
    assert(x % 256 + 256 * (x / 256 % 256) + 65536 * (x / 65536 % 256) + 16777216 * (x / 16777216
        % 256) == x) by (bit_vector);
}

/// Writing a number and reading it back gives the number; the other bytes stay.
pub proof fn lemma_put16(s: Seq<u8>, off: int, x: int)
    requires
        0 <= off,
        off + 2 <= s.len(),
        0 <= x < 0x1_0000,
    ensures
        put16(s, off, x).len() == s.len(),
        le16(put16(s, off, x), off) == x,
        forall|j: int|
            0 <= j < s.len() && !(off <= j < off + 2) ==> #[trigger] put16(s, off, x)[j] == s[j],
{
    reveal(put16);
    lemma_digits16(x as u16);
    let t = put16(s, off, x);
    assert(t[off] == (x % 256) as u8);
    assert(t[off + 1] == (x / 256 % 256) as u8);
}

/// Writing a number and reading it back gives the number; the other bytes stay.
pub proof fn lemma_put32(s: Seq<u8>, off: int, x: int)
    requires
        0 <= off,
        off + 4 <= s.len(),
        0 <= x < 0x1_0000_0000,
    ensures
        put32(s, off, x).len() == s.len(),
        le32(put32(s, off, x), off) == x,
        forall|j: int|
            0 <= j < s.len() && !(off <= j < off + 4) ==> #[trigger] put32(s, off, x)[j] == s[j],
{
    reveal(put32);
    lemma_digits32(x as u32);
    let t = put32(s, off, x);
    assert(t[off] == (x % 256) as u8);
    assert(t[off + 1] == (x / 256 % 256) as u8);
    assert(t[off + 2] == (x / 65536 % 256) as u8);
    assert(t[off + 3] == (x / 16777216 % 256) as u8);
}

/// Reads the unsigned 16-bit number at `off`.
pub fn read_u16(buf: &[u8], off: usize) -> (r: u16)
    requires
        off + 2 <= buf@.len(),
    ensures
        r == le16(buf@, off as int),
{
    (buf[off] as u16) + 256 * (buf[off + 1] as u16)
}

/// Reads the unsigned 32-bit number at `off`.
pub fn read_u32(buf: &[u8], off: usize) -> (r: u32)
    requires
        off + 4 <= buf@.len(),
    ensures
        r == le32(buf@, off as int),
{
    (buf[off] as u32) + 256 * (buf[off + 1] as u32) + 65536 * (buf[off + 2] as u32) + 16777216 * (
    buf[off + 3] as u32)
}

/// Reads the two's complement 16-bit number at `off`.
pub fn read_i16(buf: &[u8], off: usize) -> (r: i16)
    requires
        off + 2 <= buf@.len(),
    ensures
        r == signed16(le16(buf@, off as int)),
{
    let u = read_u16(buf, off);
    if u < 0x8000 {
        u as i16
    } else {
        ((u - 0x8000) as i16) + i16::MIN
    }
}

/// Reads the two's complement 32-bit number at `off`.
pub fn read_i32(buf: &[u8], off: usize) -> (r: i32)
    requires
        off + 4 <= buf@.len(),
    ensures
        r == signed32(le32(buf@, off as int)),
{
    let u = read_u32(buf, off);
    if u < 0x8000_0000 {
        u as i32
    } else {
        ((u - 0x8000_0000) as i32) + i32::MIN
    }
}

/// Stores `x` at `off`, low byte first.
pub fn write_u16(buf: &mut Vec<u8>, off: usize, x: u16)
    requires
        off + 2 <= old(buf)@.len(),
    ensures
        final(buf)@ == put16(old(buf)@, off as int, x as int),
        final(buf)@.len() == old(buf)@.len(),
        le16(final(buf)@, off as int) == x,
        forall|j: int|
            0 <= j < old(buf)@.len() && !(off <= j < off + 2) ==> final(buf)@[j] == old(buf)@[j],
{
    let n = buf.len();
    assert(off + 2 <= n);
    buf[off] = (x % 256) as u8;
    buf[off + 1] = (x / 256 % 256) as u8;
    proof {
        reveal(put16);
        lemma_digits16(x);
    }
}

/// Stores `x` at `off`, low byte first.
pub fn write_u32(buf: &mut Vec<u8>, off: usize, x: u32)
    requires
        off + 4 <= old(buf)@.len(),
    ensures
        final(buf)@ == put32(old(buf)@, off as int, x as int),
        final(buf)@.len() == old(buf)@.len(),
        le32(final(buf)@, off as int) == x,
        forall|j: int|
            0 <= j < old(buf)@.len() && !(off <= j < off + 4) ==> final(buf)@[j] == old(buf)@[j],
{
    let n = buf.len();
    assert(off + 4 <= n);
    buf[off] = (x % 256) as u8;
    buf[off + 1] = (x / 256 % 256) as u8;
    buf[off + 2] = (x / 65536 % 256) as u8;
    buf[off + 3] = (x / 16777216 % 256) as u8;
    proof {
        reveal(put32);
        lemma_digits32(x);
    }
}

/// Stores the two's complement pattern of `x` at `off`.
pub fn write_i16(buf: &mut Vec<u8>, off: usize, x: i16)
    requires
        off + 2 <= old(buf)@.len(),
    ensures
        final(buf)@ == put16(old(buf)@, off as int, unsigned16(x as int)),
        final(buf)@.len() == old(buf)@.len(),
        signed16(le16(final(buf)@, off as int)) == x,
        forall|j: int|
            0 <= j < old(buf)@.len() && !(off <= j < off + 2) ==> final(buf)@[j] == old(buf)@[j],
{
    let u: u16 = if x >= 0 {
        x as u16
    } else {
        ((x - i16::MIN) as u16) + 0x8000
    };
    write_u16(buf, off, u);
}

/// Stores the two's complement pattern of `x` at `off`.
pub fn write_i32(buf: &mut Vec<u8>, off: usize, x: i32)
    requires
        off + 4 <= old(buf)@.len(),
    ensures
        final(buf)@ == put32(old(buf)@, off as int, unsigned32(x as int)),
        final(buf)@.len() == old(buf)@.len(),
        signed32(le32(final(buf)@, off as int)) == x,
        forall|j: int|
            0 <= j < old(buf)@.len() && !(off <= j < off + 4) ==> final(buf)@[j] == old(buf)@[j],
{
    let u: u32 = if x >= 0 {
        x as u32
    } else {
        ((x - i32::MIN) as u32) + 0x8000_0000
    };
    write_u32(buf, off, u);
}

/// Copies `len` bytes that start at `off` into a new vector.
pub fn copy_range(buf: &[u8], off: usize, len: usize) -> (r: Vec<u8>)
    requires
        off + len <= buf@.len(),
    ensures
        r@ == buf@.subrange(off as int, off + len),
{
    let mut r: Vec<u8> = Vec::with_capacity(len);
    let total = buf.len();
    let mut i: usize = 0;
    while i < len
        invariant
            i <= len,
            off + len <= buf@.len(),
            buf@.len() == total,
            r@ == buf@.subrange(off as int, off + i),
        decreases len - i,
    {
        r.push(buf[off + i]);
        i = i + 1;
        assert(r@ =~= buf@.subrange(off as int, off + i));
    }
    r
}

/// Overwrites the bytes of `buf` from `off` on with `data`.
pub fn copy_into(buf: &mut Vec<u8>, off: usize, data: &[u8])
    requires
        off + data@.len() <= old(buf)@.len(),
    ensures
        final(buf)@ == splice(old(buf)@, off as int, data@),
        final(buf)@.len() == old(buf)@.len(),
{
    let n = data.len();
    let total = buf.len();
    let mut i: usize = 0;
    while i < n
        invariant
            i <= n,
            n == data@.len(),
            off + n <= buf@.len(),
            buf@.len() == total,
            buf@ == splice(old(buf)@, off as int, data@.take(i as int)),
        decreases n - i,
    {
        buf[off + i] = data[i];
        i = i + 1;
        assert(buf@ =~= splice(old(buf)@, off as int, data@.take(i as int)));
    }
    assert(data@.take(n as int) =~= data@);
}

/// A vector of `n` zero bytes.
pub fn zeroed(n: usize) -> (r: Vec<u8>)
    ensures
        r@.len() == n,
        forall|i: int| 0 <= i < n ==> r@[i] == 0,
        r@ == zeros(n as int),
{
    let r = vec![0u8; n];
    assert(r@ =~= zeros(n as int));
    r
}

} // verus!
