//! The hash of a state, computed by SipHash 2-4 from the `siphasher` crate
//! over a fixed byte encoding of the player's cell and the boxes' cells.

use crate::position::Position;
use siphasher::sip::SipHasher24;
use vstd::prelude::*;

verus! {

/// The SipHash 2-4 value, under the all-zero key, of a sequence of bytes.
pub uninterp spec fn sip_hash_2_4(bytes: Seq<u8>) -> u64;

/// Hashes `bytes` with SipHash 2-4 under the all-zero key.
///
/// Calls `siphasher::sip::SipHasher24::new`, which sets both keys to zero,
/// and `SipHasher24::hash` on the bytes. The result depends on the bytes
/// alone; the contract gives it its name.
#[verifier::external_body]
pub(crate) fn sip_hash(bytes: &Vec<u8>) -> (h: u64)
    ensures
        h == sip_hash_2_4(bytes@),
{
    SipHasher24::new().hash(bytes.as_slice())
}

/// The four bytes that stand for a coordinate: the coordinate plus 2^31,
/// least significant byte first.
pub open spec fn coordinate_bytes(v: i32) -> Seq<u8> {
    let o = v + 0x8000_0000;
    seq![
        (o % 256) as u8,
        ((o / 0x100) % 256) as u8,
        ((o / 0x1_0000) % 256) as u8,
        ((o / 0x100_0000) % 256) as u8,
    ]
}

/// The eight bytes that stand for a cell: its `x`, then its `y`.
pub open spec fn position_bytes(p: Position) -> Seq<u8> {
    coordinate_bytes(p.x) + coordinate_bytes(p.y)
}

/// The bytes that stand for a list of cells, one after the other.
pub open spec fn list_bytes(list: Seq<Position>) -> Seq<u8>
    decreases list.len(),
{
    if list.len() == 0 {
        Seq::empty()
    } else {
        list_bytes(list.drop_last()) + position_bytes(list.last())
    }
}

/// The bytes that stand for a state: the player's cell, then the boxes.
pub open spec fn state_bytes(player: Position, boxes: Seq<Position>) -> Seq<u8> {
    position_bytes(player) + list_bytes(boxes)
}

/// The hash of a state: it depends on the player's cell and the boxes alone.
pub open spec fn state_hash(player: Position, boxes: Seq<Position>) -> u64 {
    sip_hash_2_4(state_bytes(player, boxes))
}

/// Appends the bytes of a coordinate.
fn push_coordinate(bytes: &mut Vec<u8>, v: i32)
    ensures
        final(bytes)@ == old(bytes)@ + coordinate_bytes(v),
{
    let o: i64 = v as i64 + 0x8000_0000;
    bytes.push((o % 256) as u8);
    bytes.push(((o / 0x100) % 256) as u8);
    bytes.push(((o / 0x1_0000) % 256) as u8);
    bytes.push(((o / 0x100_0000) % 256) as u8);
    assert(bytes@ =~= old(bytes)@ + coordinate_bytes(v));
}

/// Appends the bytes of a cell.
fn push_position(bytes: &mut Vec<u8>, p: Position)
    ensures
        final(bytes)@ == old(bytes)@ + position_bytes(p),
{
    push_coordinate(bytes, p.x);
    push_coordinate(bytes, p.y);
    assert(bytes@ =~= old(bytes)@ + position_bytes(p));
}

/// Computes [`state_hash`].
pub fn hash_state(player: Position, boxes: &Vec<Position>) -> (h: u64)
    ensures
        h == state_hash(player, boxes@),
{
    let mut bytes: Vec<u8> = Vec::new();
    push_position(&mut bytes, player);
    assert(bytes@ =~= position_bytes(player));
    let mut i: usize = 0;
    while i < boxes.len()
        invariant
            i <= boxes@.len(),
            bytes@ == position_bytes(player) + list_bytes(boxes@.subrange(0, i as int)),
        decreases boxes@.len() - i,
    {
        push_position(&mut bytes, boxes[i]);
        proof {
            let next = boxes@.subrange(0, i + 1);
            assert(next.drop_last() =~= boxes@.subrange(0, i as int));
            assert(bytes@ =~= position_bytes(player) + list_bytes(next));
        }
        i = i + 1;
    }
    assert(boxes@.subrange(0, i as int) =~= boxes@);
    sip_hash(&bytes)
}

} // verus!
