use vstd::prelude::*;

use crate::canvas::CanvasView;

verus! {

/// The four big-endian bytes of a 32-bit value.
pub open spec fn be32(n: u32) -> Seq<u8> {
    seq![
        (n / 0x1000000) as u8,
        ((n / 0x10000) % 0x100) as u8,
        ((n / 0x100) % 0x100) as u8,
        (n % 0x100) as u8,
    ]
}

/// The value the four bytes `b[0..4]` spell in big-endian order.
pub open spec fn be32_val(b: Seq<u8>) -> int {
    0x1000000 * b[0] + 0x10000 * b[1] + 0x100 * b[2] + b[3]
}

/// The persistence blob: both dimensions big-endian, then the raw bytes.
pub open spec fn snapshot_bytes(v: CanvasView) -> Seq<u8> {
    be32(v.width) + be32(v.height) + v.pixels
}

/// Reading back the four big-endian bytes of a value gives the value.
pub proof fn lemma_be32_round_trip(n: u32)
    ensures
        be32(n).len() == 4,
        be32_val(be32(n)) == n,
{
    assert(0x1000000 * ((n as int) / 0x1000000) + 0x10000 * (((n as int) / 0x10000) % 0x100)
        + 0x100 * (((n as int) / 0x100) % 0x100) + (n as int) % 0x100 == n) by (nonlinear_arith)
        requires
            0 <= n <= u32::MAX,
    ;
}

/// Snapshot round trip at the model level: the encoded blob starts with the
/// two dimensions and carries the pixel bytes unchanged, so decoding it
/// restores the canvas exactly.
pub proof fn lemma_snapshot_round_trip(v: CanvasView)
    requires
        v.wf(),
    ensures
        snapshot_bytes(v).len() == 8 + v.width * v.height * 3,
        be32_val(snapshot_bytes(v).subrange(0, 4)) == v.width,
        be32_val(snapshot_bytes(v).subrange(4, 8)) == v.height,
        snapshot_bytes(v).skip(8) == v.pixels,
{
    lemma_be32_round_trip(v.width);
    lemma_be32_round_trip(v.height);
    assert(snapshot_bytes(v).subrange(0, 4) =~= be32(v.width));
    assert(snapshot_bytes(v).subrange(4, 8) =~= be32(v.height));
    assert(snapshot_bytes(v).skip(8) =~= v.pixels);
}

} // verus!
