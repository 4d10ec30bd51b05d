//! Fixed-width byte strings: copying fields out of and into buffers.

use vstd::prelude::*;

verus! {

/// The string of `n` zero bytes.
pub open spec fn zeros(n: nat) -> Seq<u8> {
    Seq::new(n, |i: int| 0u8)
}

/// Copies the 32 bytes that start at `offset` out of `buf`.
pub fn read32(buf: &[u8], offset: usize) -> (r: [u8; 32])
    requires
        offset + 32 <= buf@.len(),
    ensures
        r@ == buf@.subrange(offset as int, offset + 32),
{
    let n: usize = buf.len();
    let mut r = [0u8; 32];
    let mut i: usize = 0;
    while i < 32
        invariant
            i <= 32,
            n == buf@.len(),
            offset + 32 <= n,
            forall|j: int| 0 <= j < i ==> r@[j] == buf@[offset + j],
        decreases 32 - i,
    {
        r[i] = buf[offset + i];
        i += 1;
    }
    r
}

/// Appends the bytes of `field` to `out`.
pub fn append(out: &mut Vec<u8>, field: &[u8])
    ensures
        final(out)@ == old(out)@ + field@,
{
    let mut i: usize = 0;
    while i < field.len()
        invariant
            i <= field@.len(),
            out@ == old(out)@ + field@.subrange(0, i as int),
        decreases field@.len() - i,
    {
        out.push(field[i]);
        i += 1;
    }
}

/// Whether two byte strings are equal.
pub fn same_bytes(a: &[u8], b: &[u8]) -> (r: bool)
    ensures
        r == (a@ == b@),
{
    if a.len() != b.len() {
        return false;
    }
    let mut i: usize = 0;
    while i < a.len()
        invariant
            i <= a@.len(),
            a@.len() == b@.len(),
            forall|j: int| 0 <= j < i ==> a@[j] == b@[j],
        decreases a@.len() - i,
    {
        if a[i] != b[i] {
            return false;
        }
        i += 1;
    }
    assert(a@ =~= b@);
    true
}

/// Whether every byte of `a` is zero.
pub fn all_zero(a: &[u8]) -> (r: bool)
    ensures
        r == (a@ == zeros(a@.len())),
{
    let mut i: usize = 0;
    while i < a.len()
        invariant
            i <= a@.len(),
            forall|j: int| 0 <= j < i ==> a@[j] == 0,
        decreases a@.len() - i,
    {
        if a[i] != 0 {
            return false;
        }
        i += 1;
    }
    assert(a@ =~= zeros(a@.len()));
    true
}

} // verus!
