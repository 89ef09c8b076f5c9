//! Allocation bitmaps: one bit for each block or inode of a group, set when
//! it is in use. Bit `k` is bit `k % 8` of byte `k / 8`, lowest bit first.

use vstd::prelude::*;

verus! {

/// The value of bit `k` of a byte.
pub open spec fn bit_mask(k: u8) -> u8 {
    if k == 0 {
        1
    } else if k == 1 {
        2
    } else if k == 2 {
        4
    } else if k == 3 {
        8
    } else if k == 4 {
        16
    } else if k == 5 {
        32
    } else if k == 6 {
        64
    } else {
        128
    }
}

/// Whether bit `k` of the byte `b` is set.
pub open spec fn byte_bit(b: u8, k: u8) -> bool {
    b / bit_mask(k) % 2 == 1
}

/// The byte `b` with bit `k` set or cleared.
pub open spec fn byte_with_bit(b: u8, k: u8, on: bool) -> u8 {
    if byte_bit(b, k) == on {
        b
    } else if on {
        (b + bit_mask(k)) as u8
    } else {
        (b - bit_mask(k)) as u8
    }
}

/// Whether bit `k` of the bitmap `s` is set.
pub open spec fn bit_at(s: Seq<u8>, k: int) -> bool {
    byte_bit(s[k / 8], (k % 8) as u8)
}

/// `k` is the lowest clear bit among the first `nbits` bits of `s`.
pub open spec fn is_first_clear(s: Seq<u8>, nbits: int, k: int) -> bool {
    &&& 0 <= k < nbits
    &&& !bit_at(s, k)
    &&& forall|j: int| 0 <= j < k ==> bit_at(s, j)
}

/// All of the first `nbits` bits of `s` are set.
pub open spec fn all_set(s: Seq<u8>, nbits: int) -> bool {
    forall|j: int| 0 <= j < nbits ==> bit_at(s, j)
}

/// Setting or clearing a bit gives that bit the value asked for and leaves
/// the other seven alone; clearing a bit that was just set gives the byte back.
pub proof fn lemma_byte_with_bit(b: u8, k: u8, on: bool)
    requires
        k < 8,
    ensures
        byte_bit(byte_with_bit(b, k, on), k) == on,
        forall|j: u8| j < 8 && j != k ==> byte_bit(byte_with_bit(b, k, on), j) == byte_bit(b, j),
        byte_bit(b, k) == on ==> byte_with_bit(b, k, on) == b,
        byte_with_bit(byte_with_bit(b, k, on), k, byte_bit(b, k)) == b,
{
    assert(k < 8 ==> byte_bit(byte_with_bit(b, k, on), k) == on) by (bit_vector);
    assert(forall|j: u8|
        k < 8 && j < 8 && j != k ==> byte_bit(byte_with_bit(b, k, on), j) == byte_bit(b, j))
        by (bit_vector);
    assert(k < 8 ==> byte_with_bit(byte_with_bit(b, k, on), k, byte_bit(b, k)) == b)
        by (bit_vector);
}

/// The value of bit `k` of a byte.
pub fn mask(k: u8) -> (m: u8)
    requires
        k < 8,
    ensures
        m == bit_mask(k),
        m > 0,
{
    if k == 0 {
        1
    } else if k == 1 {
        2
    } else if k == 2 {
        4
    } else if k == 3 {
        8
    } else if k == 4 {
        16
    } else if k == 5 {
        32
    } else if k == 6 {
        64
    } else {
        128
    }
}

/// Whether bit `k` of the byte `b` is set.
pub fn test_byte(b: u8, k: u8) -> (on: bool)
    requires
        k < 8,
    ensures
        on == byte_bit(b, k),
{
    b / mask(k) % 2 == 1
}

/// The byte `b` with bit `k` set or cleared.
pub fn flip_byte(b: u8, k: u8, on: bool) -> (r: u8)
    requires
        k < 8,
    ensures
        r == byte_with_bit(b, k, on),
{
    let m = mask(k);
    if test_byte(b, k) == on {
        b
    } else if on {
        assert(k < 8 && !byte_bit(b, k) ==> b + bit_mask(k) <= 255) by (bit_vector);
        b + m
    } else {
        assert(k < 8 && byte_bit(b, k) ==> b >= bit_mask(k)) by (bit_vector);
        b - m
    }
}

/// Whether bit `k` of the bitmap is set.
pub fn test_bit(buf: &[u8], k: usize) -> (on: bool)
    requires
        k < 8 * buf@.len(),
    ensures
        on == bit_at(buf@, k as int),
{
    test_byte(buf[k / 8], (k % 8) as u8)
}

/// The lowest clear bit among the first `nbits`, if there is one.
pub fn find_first_clear(buf: &[u8], nbits: usize) -> (r: Option<usize>)
    requires
        nbits <= 8 * buf@.len(),
    ensures
        match r {
            Some(k) => is_first_clear(buf@, nbits as int, k as int),
            None => all_set(buf@, nbits as int),
        },
{
    let mut k: usize = 0;
    while k < nbits
        invariant
            k <= nbits,
            nbits <= 8 * buf@.len(),
            forall|j: int| 0 <= j < k ==> bit_at(buf@, j),
        decreases nbits - k,
    {
        if !test_bit(buf, k) {
            return Some(k);
        }
        k = k + 1;
    }
    None
}

} // verus!
