use vstd::prelude::*;

verus! {

/// The four bytes of `x`, most significant first.
pub open spec fn be_bytes(x: u32) -> Seq<u8> {
    seq![
        (x / 0x100_0000) as u8,
        (x / 0x1_0000 % 256) as u8,
        (x / 0x100 % 256) as u8,
        (x % 256) as u8,
    ]
}

/// The number whose four bytes, most significant first, start at position
/// `p` of `bytes`.
pub open spec fn be_value(bytes: Seq<u8>, p: int) -> u32 {
    (bytes[p] * 0x100_0000 + bytes[p + 1] * 0x1_0000 + bytes[p + 2] * 0x100 + bytes[p + 3]) as u32
}

/// Splits a number into its four bytes, most significant first.
pub fn u32_to_be(x: u32) -> (b: [u8; 4])
    ensures
        b@ == be_bytes(x),
{
    let b = [
        (x / 0x100_0000) as u8,
        (x / 0x1_0000 % 256) as u8,
        (x / 0x100 % 256) as u8,
        (x % 256) as u8,
    ];
    assert(b@ =~= be_bytes(x));
    b
}

/// Reads the number whose four bytes, most significant first, start at
/// position `p` of `data`.
pub fn u32_from_be(data: &[u8], p: usize) -> (x: u32)
    requires
        p + 4 <= data.len(),
    ensures
        x == be_value(data@, p as int),
{
    data[p] as u32 * 0x100_0000 + data[p + 1] as u32 * 0x1_0000 + data[p + 2] as u32 * 0x100
        + data[p + 3] as u32
}

/// Copies `src` over the bytes of `dst` that start at position `at`.
pub fn copy_into(dst: &mut [u8], at: usize, src: &[u8])
    requires
        at + src.len() <= old(dst).len(),
    ensures
        final(dst)@.len() == old(dst)@.len(),
        final(dst)@.subrange(at as int, at + src@.len()) == src@,
        final(dst)@.subrange(0, at as int) == old(dst)@.subrange(0, at as int),
        final(dst)@.subrange(at + src@.len(), old(dst)@.len() as int) == old(dst)@.subrange(
            at + src@.len(),
            old(dst)@.len() as int,
        ),
{
    let n = src.len();
    let ghost before = dst@;
    let mut k: usize = 0;
    while k < n
        invariant
            k <= n,
            n == src@.len(),
            at + n <= dst.len(),
            dst@.len() == before.len(),
            forall|j: int| 0 <= j < k ==> dst@[at + j] == src@[j],
            forall|j: int| 0 <= j < at ==> dst@[j] == before[j],
            forall|j: int| at + k <= j < dst@.len() ==> dst@[j] == before[j],
        decreases n - k,
    {
        dst[at + k] = src[k];
        k = k + 1;
    }
    proof {
        assert(dst@.subrange(at as int, at + n) =~= src@);
        assert(dst@.subrange(0, at as int) =~= before.subrange(0, at as int));
        assert(dst@.subrange(at + n, before.len() as int) =~= before.subrange(
            at + n,
            before.len() as int,
        ));
    }
}

/// Takes a run of bytes as groups of `N` bytes each, without copying.
///
/// This is `bytemuck::cast_slice` from bytes to arrays of `N` bytes. The
/// contract says that group `i` holds the bytes from `i * N` on in their
/// order. The call panics if the bytes are not a whole number of groups, so
/// the caller has to rule that out.
#[verifier::external_body]
pub(crate) fn cast_groups<const N: usize>(bytes: &[u8]) -> (groups: &[[u8; N]])
    requires
        N > 0,
        bytes@.len() as int % N as int == 0,
    ensures
        groups@.len() == bytes@.len() as int / N as int,
        forall|i: int, j: int|
            0 <= i < groups@.len() && 0 <= j < N ==> (#[trigger] groups@[i]@[j]) == bytes@[i * N
                + j],
{
    bytemuck::cast_slice::<u8, [u8; N]>(bytes)
}

/// A number is the sum of its four bytes, each at its weight.
proof fn lemma_be_parts(x: u32)
    by (bit_vector)
    ensures
        x / 0x100_0000 < 256,
        (x / 0x100_0000) * 0x100_0000 + (x / 0x1_0000 % 256) * 0x1_0000 + (x / 0x100 % 256)
            * 0x100 + x % 256 == x,
{
}

/// Reading back the four bytes of a number gives the number.
pub proof fn lemma_be_round_trip(x: u32, bytes: Seq<u8>, p: int)
    requires
        0 <= p,
        p + 4 <= bytes.len(),
        bytes.subrange(p, p + 4) == be_bytes(x),
    ensures
        be_value(bytes, p) == x,
{
    let s = bytes.subrange(p, p + 4);
    assert(bytes[p] == s[0]);
    assert(bytes[p + 1] == s[1]);
    assert(bytes[p + 2] == s[2]);
    assert(bytes[p + 3] == s[3]);
    lemma_be_parts(x);
}

/// Where a stretch of `bytes` is the concatenation of `a` and `b`, its first
/// part is `a` and what follows is `b`.
pub proof fn lemma_split(bytes: Seq<u8>, p: int, a: Seq<u8>, b: Seq<u8>)
    requires
        0 <= p,
        p + a.len() + b.len() <= bytes.len(),
        bytes.subrange(p, p + a.len() + b.len()) == a + b,
    ensures
        bytes.subrange(p, p + a.len()) == a,
        bytes.subrange(p + a.len(), p + a.len() + b.len()) == b,
{
    let whole = bytes.subrange(p, p + a.len() + b.len());
    assert(bytes.subrange(p, p + a.len()) =~= whole.subrange(0, a.len() as int));
    assert(whole.subrange(0, a.len() as int) =~= a);
    assert(bytes.subrange(p + a.len(), p + a.len() + b.len()) =~= whole.subrange(
        a.len() as int,
        (a.len() + b.len()) as int,
    ));
    assert(whole.subrange(a.len() as int, (a.len() + b.len()) as int) =~= b);
}

/// Bytes that start with `head` and go on with `body` until they end are
/// `head` and then `body`.
pub proof fn lemma_assemble(out: Seq<u8>, head: Seq<u8>, body: Seq<u8>)
    requires
        out.len() == head.len() + body.len(),
        out.subrange(0, head.len() as int) == head,
        out.subrange(head.len() as int, out.len() as int) == body,
    ensures
        out == head + body,
{
    assert forall|k: int| 0 <= k < out.len() implies out[k] == (head + body)[k] by {
        if k < head.len() {
            assert(out.subrange(0, head.len() as int)[k] == out[k]);
        } else {
            assert(out.subrange(head.len() as int, out.len() as int)[k - head.len()] == out[k]);
        }
    }
    assert(out =~= head + body);
}

} // verus!
