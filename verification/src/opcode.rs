//! The opcode of event packets, found by a name that is known to occur in them.

use vstd::prelude::*;
use crate::frame::{frames_view, CapturedFrame};
use crate::kinds::{
    check_unencrypted, count_kinds, counts_kinds, is_unencrypted, kinds_of, packet_kind, picked,
    picked_step, KindCount, PacketKind,
};
use crate::names::{contains_bytes, name_bytes, offset_of, utf16le_bytes};
use crate::stream::{packets_of, packets_view, read_packets, BdoPacket, PacketView, RuleView, StreamRule};

verus! {

/// Whether a packet can be the broadcast of an event: 300 to 400 bytes and not encrypted.
pub open spec fn is_broadcast(data: Seq<u8>) -> bool {
    is_unencrypted(data) && 300 <= data.len() <= 400
}

/// Whether a packet can be the broadcast of an event and holds a name.
pub open spec fn broadcasts_name(name: Seq<char>) -> spec_fn(PacketView) -> bool {
    |p: PacketView| is_broadcast(p.data) && offset_of(p.data, name_bytes(name)) is Some
}

/// Whether a packet can be the broadcast of an event.
fn check_broadcast(data: &[u8]) -> (r: bool)
    ensures
        r == is_broadcast(data@),
{
    check_unencrypted(data) && data.len() >= 300 && data.len() <= 400
}

/// Whether any packet of a capture can be the broadcast of an event.
pub fn has_broadcasts(frames: &[CapturedFrame]) -> (r: bool)
    ensures
        r == exists|i: int|
            0 <= i < packets_of(frames_view(frames@), RuleView::Plausible).len() && is_broadcast(
                (#[trigger] packets_of(frames_view(frames@), RuleView::Plausible)[i]).data,
            ),
{
    let packets = read_packets(frames, &StreamRule::Plausible);
    let ghost all = packets_of(frames_view(frames@), RuleView::Plausible);
    assert(all.len() == packets@.len());
    let mut i: usize = 0;
    while i < packets.len()
        invariant
            i <= packets.len(),
            packets_view(packets@) == all,
            all.len() == packets@.len(),
            all == packets_of(frames_view(frames@), RuleView::Plausible),
            forall|k: int| 0 <= k < i ==> !is_broadcast((#[trigger] all[k]).data),
        decreases packets.len() - i,
    {
        assert(all[i as int] == packets@[i as int]@);
        if check_broadcast(packets[i].data.as_slice()) {
            return true;
        }
        i = i + 1;
    }
    false
}

/// The kinds of the packets that can be the broadcast of an event and hold a name.
pub open spec fn broadcast_kinds(packets: Seq<PacketView>, name: Seq<char>) -> Seq<PacketKind> {
    kinds_of(picked(packets, broadcasts_name(name)))
}

/// Counts, by opcode and length, the packets that can be the broadcast of an event and
/// hold a name.
pub fn find_packet_opcodes(packets: &[BdoPacket], target_name: &str) -> (r: Vec<KindCount>)
    requires
        target_name@.len() > 0,
    ensures
        counts_kinds(broadcast_kinds(packets_view(packets@), target_name@), r@),
{
    let ghost all = packets_view(packets@);
    let ghost pick = broadcasts_name(target_name@);
    let bytes = utf16le_bytes(target_name);
    let mut kinds: Vec<PacketKind> = Vec::new();
    let mut i: usize = 0;
    assert(kinds@ =~= kinds_of(picked(all.take(0), pick)));
    while i < packets.len()
        invariant
            i <= packets.len(),
            all == packets_view(packets@),
            pick == broadcasts_name(target_name@),
            bytes@ == name_bytes(target_name@),
            bytes@.len() > 0,
            kinds@ == kinds_of(picked(all.take(i as int), pick)),
        decreases packets.len() - i,
    {
        proof {
            picked_step(all, pick, i as int);
            assert(all[i as int] == packets@[i as int]@);
        }
        let data = packets[i].data.as_slice();
        if check_broadcast(data) && contains_bytes(data, bytes.as_slice()) {
            kinds.push(packet_kind(data));
            assert(kinds@ =~= kinds_of(picked(all.take(i + 1), pick)));
        }
        i = i + 1;
    }
    assert(all.take(i as int) =~= all);
    count_kinds(kinds.as_slice())
}

/// Finds the opcodes of the packets of a capture that can be the broadcast of an event and
/// hold a name, with how often each occurs.
pub fn find_opcode(frames: &[CapturedFrame], target_name: &str) -> (r: Vec<KindCount>)
    requires
        target_name@.len() > 0,
    ensures
        counts_kinds(
            broadcast_kinds(
                packets_of(frames_view(frames@), RuleView::Plausible),
                target_name@,
            ),
            r@,
        ),
{
    let packets = read_packets(frames, &StreamRule::Plausible);
    find_packet_opcodes(packets.as_slice(), target_name)
}

} // verus!
