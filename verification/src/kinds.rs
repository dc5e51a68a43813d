//! Kinds of packets, by opcode and length, and how often each occurs.

use vstd::prelude::*;
use crate::names::unit_at;
use crate::search::{first_from, first_from_at};
use crate::stream::{read_unit, PacketView};

verus! {

/// A packet's opcode and length.
#[derive(Debug, Clone, Copy, PartialEq, Eq, Structural)]
pub struct PacketKind {
    pub opcode: u16,
    pub packet_len: usize,
}

/// The opcode of a packet, behind its length and the encryption byte.
pub open spec fn opcode_of(data: Seq<u8>) -> u16 {
    unit_at(data, 3)
}

/// The kind of a packet.
pub open spec fn kind_of(data: Seq<u8>) -> PacketKind {
    PacketKind { opcode: opcode_of(data), packet_len: data.len() as usize }
}

/// The kinds of packets.
pub open spec fn kinds_of(packets: Seq<PacketView>) -> Seq<PacketKind> {
    Seq::new(packets.len(), |i: int| kind_of(packets[i].data))
}

/// The packets that are picked, in their order.
pub open spec fn picked(packets: Seq<PacketView>, pick: spec_fn(PacketView) -> bool) -> Seq<
    PacketView,
>
    decreases packets.len(),
{
    if packets.len() == 0 {
        seq![]
    } else {
        let rest = picked(packets.drop_last(), pick);
        if pick(packets.last()) {
            rest.push(packets.last())
        } else {
            rest
        }
    }
}

/// Whether the packets at some places are these.
pub open spec fn are_at(
    packets: Seq<PacketView>,
    places: Seq<usize>,
    these: Seq<PacketView>,
) -> bool {
    &&& places.len() == these.len()
    &&& forall|k: int|
        0 <= k < places.len() ==> (#[trigger] places[k]) < packets.len() && packets[places[k] as int]
            == these[k]
}

/// The packets that are picked of a list with one more packet.
pub proof fn picked_step(packets: Seq<PacketView>, pick: spec_fn(PacketView) -> bool, i: int)
    requires
        0 <= i < packets.len(),
    ensures
        picked(packets.take(i + 1), pick) == (if pick(packets[i]) {
            picked(packets.take(i), pick).push(packets[i])
        } else {
            picked(packets.take(i), pick)
        }),
{
    assert(packets.take(i + 1).drop_last() =~= packets.take(i));
    assert(packets.take(i + 1).last() == packets[i]);
}

/// What is picked is a packet that may be picked, and comes from the list.
pub proof fn picked_meets(packets: Seq<PacketView>, pick: spec_fn(PacketView) -> bool)
    ensures
        forall|k: int|
            0 <= k < picked(packets, pick).len() ==> pick(#[trigger] picked(packets, pick)[k])
                && packets.contains(picked(packets, pick)[k]),
    decreases packets.len(),
{
    if packets.len() > 0 {
        let rest = packets.drop_last();
        picked_meets(rest, pick);
        let all = picked(packets, pick);
        assert forall|k: int| 0 <= k < all.len() implies pick(#[trigger] all[k])
            && packets.contains(all[k]) by {
            if k < picked(rest, pick).len() {
                assert(all[k] == picked(rest, pick)[k]);
                assert(rest.contains(all[k]));
                let i = choose|i: int| 0 <= i < rest.len() && rest[i] == all[k];
                assert(packets[i] == all[k]);
            } else {
                assert(packets[packets.len() - 1] == all[k]);
            }
        }
    }
}

/// Whether a packet has a header and is not encrypted.
pub open spec fn is_unencrypted(data: Seq<u8>) -> bool {
    data.len() >= 5 && data[2] == 0
}

/// Whether a packet can be that of an event: not encrypted, with an opcode other than
/// zero, and 300 to 500 bytes long.
pub open spec fn is_event_sized(data: Seq<u8>) -> bool {
    is_unencrypted(data) && opcode_of(data) != 0 && 300 <= data.len() <= 500
}

/// The kind of a packet.
pub fn packet_kind(data: &[u8]) -> (r: PacketKind)
    requires
        data.len() >= 5,
    ensures
        r == kind_of(data@),
{
    PacketKind { opcode: read_unit(data, 3), packet_len: data.len() }
}

/// Whether a packet has a header and is not encrypted.
pub fn check_unencrypted(data: &[u8]) -> (r: bool)
    ensures
        r == is_unencrypted(data@),
{
    data.len() >= 5 && data[2] == 0x00
}

/// Whether a packet can be that of an event.
pub fn check_event_sized(data: &[u8]) -> (r: bool)
    ensures
        r == is_event_sized(data@),
{
    check_unencrypted(data) && read_unit(data, 3) != 0 && data.len() >= 300 && data.len() <= 500
}

/// How often a kind occurs, and where it occurs first.
#[derive(Debug, Clone, Copy, PartialEq, Eq, Structural)]
pub struct KindCount {
    pub kind: PacketKind,
    pub count: usize,
    pub first: usize,
}

/// How often a kind occurs.
pub open spec fn count_of(kinds: Seq<PacketKind>, kind: PacketKind) -> nat
    decreases kinds.len(),
{
    if kinds.len() == 0 {
        0
    } else {
        count_of(kinds.drop_last(), kind) + if kinds.last() == kind {
            1nat
        } else {
            0
        }
    }
}

/// Whether the entries tell of each kind once, how often and where first it occurs, in
/// the order of their first occurrences.
pub open spec fn counts_kinds(kinds: Seq<PacketKind>, counts: Seq<KindCount>) -> bool {
    &&& forall|k: int|
        0 <= k < counts.len() ==> {
            &&& (#[trigger] counts[k]).count == count_of(kinds, counts[k].kind)
            &&& is_first(kinds, counts[k].kind, counts[k].first as int)
        }
    &&& forall|k: int, m: int|
        0 <= k < m < counts.len() ==> (#[trigger] counts[k]).first < (#[trigger] counts[m]).first
    &&& forall|i: int| 0 <= i < kinds.len() ==> has_entry(counts, #[trigger] kinds[i])
}

/// Whether `i` is where a kind occurs first.
pub open spec fn is_first(kinds: Seq<PacketKind>, kind: PacketKind, i: int) -> bool {
    &&& 0 <= i < kinds.len()
    &&& kinds[i] == kind
    &&& forall|j: int| 0 <= j < i ==> #[trigger] kinds[j] != kind
}

/// Whether one of the entries is for a kind.
pub open spec fn has_entry(counts: Seq<KindCount>, kind: PacketKind) -> bool {
    exists|k: int| 0 <= k < counts.len() && (#[trigger] counts[k]).kind == kind
}

/// A kind occurs at most as often as there are packets.
proof fn count_of_is_bounded(kinds: Seq<PacketKind>, kind: PacketKind)
    ensures
        count_of(kinds, kind) <= kinds.len(),
    decreases kinds.len(),
{
    if kinds.len() > 0 {
        count_of_is_bounded(kinds.drop_last(), kind);
    }
}

/// A kind that does not occur is counted zero times.
pub proof fn absent_kind_is_not_counted(kinds: Seq<PacketKind>, kind: PacketKind)
    requires
        forall|i: int| 0 <= i < kinds.len() ==> #[trigger] kinds[i] != kind,
    ensures
        count_of(kinds, kind) == 0,
    decreases kinds.len(),
{
    if kinds.len() > 0 {
        let rest = kinds.drop_last();
        assert forall|i: int| 0 <= i < rest.len() implies #[trigger] rest[i] != kind by {
            assert(rest[i] == kinds[i]);
        }
        absent_kind_is_not_counted(rest, kind);
        assert(kinds[kinds.len() - 1] != kind);
    }
}

/// Adds a kind to the counts.
fn count_kind(counts: &mut Vec<KindCount>, kind: PacketKind, at: usize, Ghost(kinds): Ghost<
    Seq<PacketKind>,
>)
    requires
        counts_kinds(kinds, old(counts)@),
        at == kinds.len(),
        at < usize::MAX,
    ensures
        counts_kinds(kinds.push(kind), final(counts)@),
{
    let ghost before = counts@;
    let ghost now = kinds.push(kind);
    proof {
        assert(now.drop_last() =~= kinds);
        assert(now.last() == kind);
        assert forall|k: int| 0 <= k < before.len() implies is_first(
            now,
            #[trigger] before[k].kind,
            before[k].first as int,
        ) by {
            assert(is_first(kinds, before[k].kind, before[k].first as int));
            assert forall|j: int| 0 <= j < before[k].first implies #[trigger] now[j]
                != before[k].kind by {
                assert(now[j] == kinds[j]);
            }
        }
    }
    let mut k: usize = 0;
    while k < counts.len()
        invariant
            k <= counts.len(),
            counts@ == before,
            counts_kinds(kinds, before),
            now == kinds.push(kind),
            now.drop_last() == kinds,
            now.last() == kind,
            at == kinds.len(),
            at < usize::MAX,
            forall|j: int| 0 <= j < k ==> (#[trigger] before[j]).kind != kind,
            forall|j: int|
                0 <= j < before.len() ==> is_first(
                    now,
                    (#[trigger] before[j]).kind,
                    before[j].first as int,
                ),
        decreases counts.len() - k,
    {
        let entry = counts[k];
        if entry.kind == kind {
            proof {
                count_of_is_bounded(kinds, kind);
                assert(before[k as int].count == count_of(kinds, kind));
            }
            counts.set(k, KindCount { kind, count: entry.count + 1, first: entry.first });
            proof {
                let after = counts@;
                assert forall|m: int| 0 <= m < after.len() implies (#[trigger] after[m]).count
                    == count_of(now, after[m].kind) && is_first(
                    now,
                    after[m].kind,
                    after[m].first as int,
                ) by {
                    assert(before[m].count == count_of(kinds, before[m].kind));
                    if m != k && before[m].kind == kind {
                        assert(is_first(kinds, before[m].kind, before[m].first as int));
                        assert(is_first(kinds, before[k as int].kind, before[k as int].first as int));
                        if m < k {
                            assert(before[m].first < before[k as int].first);
                            assert(kinds[before[m].first as int] != kind);
                        } else {
                            assert(before[k as int].first < before[m].first);
                            assert(kinds[before[k as int].first as int] != kind);
                        }
                    }
                }
                assert forall|m: int, n: int| 0 <= m < n < after.len() implies (
                #[trigger] after[m]).first < (#[trigger] after[n]).first by {
                    assert(before[m].first < before[n].first);
                }
                assert forall|i: int| 0 <= i < now.len() implies has_entry(
                    after,
                    #[trigger] now[i],
                ) by {
                    if i < kinds.len() {
                        assert(has_entry(before, kinds[i]));
                        let m = choose|m: int|
                            0 <= m < before.len() && (#[trigger] before[m]).kind == kinds[i];
                        assert(after[m].kind == kinds[i]);
                    } else {
                        assert(after[k as int].kind == kind);
                    }
                }
            }
            return ;
        }
        k = k + 1;
    }
    counts.push(KindCount { kind, count: 1, first: at });
    proof {
        let after = counts@;
        assert forall|i: int| 0 <= i < kinds.len() implies #[trigger] kinds[i] != kind by {
            assert(has_entry(before, kinds[i]));
        }
        absent_kind_is_not_counted(kinds, kind);
        assert(is_first(now, kind, at as int)) by {
            assert forall|j: int| 0 <= j < at implies #[trigger] now[j] != kind by {
                assert(now[j] == kinds[j]);
            }
        }
        assert forall|m: int| 0 <= m < after.len() implies (#[trigger] after[m]).count == count_of(
            now,
            after[m].kind,
        ) && is_first(now, after[m].kind, after[m].first as int) by {
            if m < before.len() {
                assert(after[m] == before[m]);
            }
        }
        assert forall|m: int, n: int| 0 <= m < n < after.len() implies (#[trigger] after[m]).first
            < (#[trigger] after[n]).first by {
            assert(after[m] == before[m]);
            assert(is_first(kinds, before[m].kind, before[m].first as int));
            if n < before.len() {
                assert(after[n] == before[n]);
            }
        }
        assert forall|i: int| 0 <= i < now.len() implies has_entry(after, #[trigger] now[i]) by {
            if i < kinds.len() {
                assert(has_entry(before, kinds[i]));
                let m = choose|m: int|
                    0 <= m < before.len() && (#[trigger] before[m]).kind == kinds[i];
                assert(after[m].kind == kinds[i]);
            } else {
                assert(after[before.len() as int].kind == kind);
            }
        }
    }
}

/// Counts the kinds: each of them once, in the order of their first occurrences.
pub fn count_kinds(kinds: &[PacketKind]) -> (r: Vec<KindCount>)
    ensures
        counts_kinds(kinds@, r@),
{
    let mut counts: Vec<KindCount> = Vec::new();
    let mut i: usize = 0;
    while i < kinds.len()
        invariant
            i <= kinds.len(),
            counts_kinds(kinds@.take(i as int), counts@),
        decreases kinds.len() - i,
    {
        count_kind(&mut counts, kinds[i], i, Ghost(kinds@.take(i as int)));
        assert(kinds@.take(i + 1) =~= kinds@.take(i as int).push(kinds@[i as int]));
        i = i + 1;
    }
    assert(kinds@.take(i as int) =~= kinds@);
    counts
}

/// Whether the kind at an index is as common as any.
pub open spec fn is_as_common_as_any(kinds: Seq<PacketKind>) -> spec_fn(int) -> bool {
    |i: int|
        forall|j: int|
            0 <= j < kinds.len() ==> count_of(kinds, #[trigger] kinds[j]) <= count_of(
                kinds,
                kinds[i],
            )
}

/// The first index whose kind is as common as any.
pub open spec fn most_common(kinds: Seq<PacketKind>) -> Option<int> {
    first_from(is_as_common_as_any(kinds), 0, kinds.len() as int)
}

/// Finds the most common kind, the one seen first where several are, and gives the index
/// of its first occurrence.
pub fn find_most_common(kinds: &[PacketKind]) -> (r: Option<usize>)
    ensures
        match r {
            Some(i) => i < kinds.len() && most_common(kinds@) == Some(i as int),
            None => most_common(kinds@) is None && kinds.len() == 0,
        },
{
    let counts = count_kinds(kinds);
    if counts.len() == 0 {
        assert(forall|i: int| 0 <= i < kinds@.len() ==> !has_entry(counts@, #[trigger] kinds@[i]));
        assert(kinds@.len() == 0) by {
            if kinds@.len() > 0 {
                assert(has_entry(counts@, kinds@[0]));
            }
        }
        return None;
    }
    let mut best: usize = 0;
    let mut k: usize = 1;
    while k < counts.len()
        invariant
            1 <= k <= counts.len(),
            best < k,
            forall|m: int|
                0 <= m < k ==> (#[trigger] counts@[m]).count <= counts@[best as int].count,
            forall|m: int|
                0 <= m < best ==> (#[trigger] counts@[m]).count < counts@[best as int].count,
        decreases counts.len() - k,
    {
        if counts[k].count > counts[best].count {
            best = k;
        }
        k = k + 1;
    }
    let found: usize = counts[best].first;
    proof {
        let p = is_as_common_as_any(kinds@);
        let entry = counts@[best as int];
        assert(is_first(kinds@, entry.kind, found as int));
        assert forall|j: int| 0 <= j < kinds@.len() implies count_of(kinds@, #[trigger] kinds@[j])
            <= entry.count by {
            assert(has_entry(counts@, kinds@[j]));
            let m = choose|m: int|
                0 <= m < counts@.len() && (#[trigger] counts@[m]).kind == kinds@[j];
            assert(counts@[m].count == count_of(kinds@, kinds@[j]));
        }
        assert(p(found as int));
        assert forall|i: int| 0 <= i < found implies !#[trigger] p(i) by {
            assert(has_entry(counts@, kinds@[i]));
            let m = choose|m: int|
                0 <= m < counts@.len() && (#[trigger] counts@[m]).kind == kinds@[i];
            assert(is_first(kinds@, counts@[m].kind, counts@[m].first as int));
            assert(counts@[m].first <= i) by {
                if counts@[m].first > i {
                    assert(kinds@[i] != counts@[m].kind);
                }
            }
            if m >= best {
                if m > best {
                    assert(counts@[best as int].first < counts@[m].first);
                }
            }
            assert(counts@[m].count < entry.count);
            assert(counts@[m].count == count_of(kinds@, kinds@[i]));
            assert(kinds@[found as int] == entry.kind);
            assert(count_of(kinds@, kinds@[found as int]) == entry.count);
        }
        first_from_at(p, 0, found as int, kinds@.len() as int);
    }
    Some(found)
}

} // verus!
