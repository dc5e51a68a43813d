//! Dumps of packets, and the kinds of packets that hold a name.

use vstd::prelude::*;
use crate::detect::marker_of;
use crate::dump::{
    around_marker, byte_lines, dumps_of, flag_lines, guild_line, marker_lines, name_lines,
    packet_dump, raw_lines,
};
use crate::format::PacketFormat;
use crate::kinds::{counts_kinds, has_entry, kind_of, kinds_of, KindCount, PacketKind};
use crate::laws::detection::{kinds_are_counted, picked_is_filter};
use crate::names::{bdo_string, name_bytes, names_in, offset_of};
use crate::opcode::{broadcast_kinds, broadcasts_name};
use crate::stream::PacketView;
use crate::text::{decimal, hex_byte, right_aligned, sign_and_decimal};

verus! {

/// Whether a packet is not encrypted and has an opcode and a length.
pub open spec fn is_of_kind(data: Seq<u8>, target: PacketKind) -> bool {
    &&& data.len() >= 5
    &&& data[2] == 0
    &&& data[3] + 256 * data[4] == target.opcode
    &&& data.len() == target.packet_len
}

/// The packets of a kind are dumped in their order, all of them or the first up to a limit.
pub proof fn the_first_packets_of_a_kind_are_dumped(
    packets: Seq<PacketView>,
    target: PacketKind,
    known: Seq<PacketFormat>,
    limit: Option<usize>,
)
    requires
        forall|i: int|
            0 <= i < packets.len() ==> (#[trigger] packets[i]).data.len() <= usize::MAX,
    ensures
        ({
            let of_kind = packets.filter(|p: PacketView| is_of_kind(p.data, target));
            let dumps = dumps_of(packets, target, known, limit);
            &&& dumps.len() == match limit {
                Some(most) if most < of_kind.len() => most as nat,
                _ => of_kind.len(),
            }
            &&& forall|k: int|
                0 <= k < dumps.len() ==> #[trigger] dumps[k] == packet_dump(of_kind[k].data, known)
        }),
    decreases packets.len(),
{
    reveal(Seq::filter);
    if packets.len() > 0 {
        let rest = packets.drop_last();
        assert forall|i: int| 0 <= i < rest.len() implies (#[trigger] rest[i]).data.len()
            <= usize::MAX by {
            assert(rest[i] == packets[i]);
        }
        the_first_packets_of_a_kind_are_dumped(rest, target, known, limit);
        let data = packets.last().data;
        assert(packets[packets.len() - 1].data.len() <= usize::MAX);
        assert(is_of_kind(data, target) <==> data.len() >= 5 && data[2] == 0 && kind_of(data)
            == target);
        let before = rest.filter(|p: PacketView| is_of_kind(p.data, target));
        let after = packets.filter(|p: PacketView| is_of_kind(p.data, target));
        assert forall|k: int| 0 <= k < before.len() implies #[trigger] before[k] == after[k] by {}
    }
}

/// Where the digits of a byte start in lines of sixteen bytes, each with a space behind it.
pub open spec fn digits_of(k: int) -> int {
    3 * k + k / 16
}

/// Every byte stands as two digits in its place, sixteen in a line.
pub proof fn bytes_stand_sixteen_in_a_line(bytes: Seq<u8>, k: int)
    requires
        0 <= k < bytes.len(),
    ensures
        byte_lines(bytes).len() == digits_of(bytes.len() as int),
        byte_lines(bytes).subrange(digits_of(k), digits_of(k) + 2) == hex_byte(bytes[k]),
        byte_lines(bytes)[digits_of(k) + 2] == ' ',
        k % 16 == 15 ==> byte_lines(bytes)[digits_of(k) + 3] == '\n',
    decreases bytes.len(),
{
    reveal_strlit(" ");
    reveal_strlit("\n");
    reveal_strlit("");
    let rest = bytes.drop_last();
    byte_lines_len(rest);
    byte_lines_len(bytes);
    let all = byte_lines(bytes);
    if k < rest.len() {
        bytes_stand_sixteen_in_a_line(rest, k);
        let before = byte_lines(rest);
        assert(all.subrange(digits_of(k), digits_of(k) + 2) =~= before.subrange(
            digits_of(k),
            digits_of(k) + 2,
        ));
    } else {
        assert(all.subrange(digits_of(k), digits_of(k) + 2) =~= hex_byte(bytes[k]));
    }
}

proof fn byte_lines_len(bytes: Seq<u8>)
    ensures
        byte_lines(bytes).len() == digits_of(bytes.len() as int),
    decreases bytes.len(),
{
    reveal_strlit(" ");
    reveal_strlit("\n");
    reveal_strlit("");
    if bytes.len() > 0 {
        byte_lines_len(bytes.drop_last());
    }
}

/// The bytes around a marker are those from eight before it up to the twentieth from it on, as
/// far as the packet has them.
pub proof fn the_bytes_around_a_marker(data: Seq<u8>, marker: int, i: int)
    requires
        0 <= marker < data.len(),
        0 <= i < data.len(),
    ensures
        ({
            let start = if marker >= 8 {
                marker - 8
            } else {
                0
            };
            let around = around_marker(data, marker);
            &&& start <= i < marker + 20 ==> 0 <= i - start < around.len() && around[i - start]
                == data[i]
            &&& i >= marker + 20 ==> i - start >= around.len()
        }),
{
}

/// Whether a text holds another.
pub open spec fn holds(text: Seq<char>, piece: Seq<char>) -> bool {
    exists|at: int|
        0 <= at && at + piece.len() <= text.len() && #[trigger] text.subrange(
            at,
            at + piece.len(),
        ) == piece
}

proof fn a_sum_holds_its_middle(before: Seq<char>, piece: Seq<char>, after: Seq<char>)
    ensures
        holds(before + piece + after, piece),
{
    let text = before + piece + after;
    let at = before.len() as int;
    assert(text.subrange(at, at + piece.len()) =~= piece);
}

proof fn a_sum_holds_its_end(before: Seq<char>, piece: Seq<char>)
    ensures
        holds(before + piece, piece),
{
    let text = before + piece;
    let at = before.len() as int;
    assert(text.subrange(at, at + piece.len()) =~= piece);
}

proof fn the_left_is_held(text: Seq<char>, after: Seq<char>, piece: Seq<char>)
    requires
        holds(text, piece),
    ensures
        holds(text + after, piece),
{
    let at = choose|at: int|
        0 <= at && at + piece.len() <= text.len() && #[trigger] text.subrange(
            at,
            at + piece.len(),
        ) == piece;
    let all = text + after;
    assert(all.subrange(at, at + piece.len()) =~= text.subrange(at, at + piece.len()));
}

proof fn the_right_is_held(before: Seq<char>, text: Seq<char>, piece: Seq<char>)
    requires
        holds(text, piece),
    ensures
        holds(before + text, piece),
{
    a_longer_text_holds_it_too(before, text, seq![], piece);
    assert(before + text + Seq::<char>::empty() =~= before + text);
}

proof fn brackets_move(a: Seq<char>, b: Seq<char>, c: Seq<char>)
    ensures
        a + b + c == a + (b + c),
{
    assert(a + b + c =~= a + (b + c));
}

proof fn a_longer_text_holds_it_too(
    before: Seq<char>,
    text: Seq<char>,
    after: Seq<char>,
    piece: Seq<char>,
)
    requires
        holds(text, piece),
    ensures
        holds(before + text + after, piece),
{
    let at = choose|at: int|
        0 <= at && at + piece.len() <= text.len() && #[trigger] text.subrange(
            at,
            at + piece.len(),
        ) == piece;
    let all = before + text + after;
    let there = before.len() + at;
    assert(all.subrange(there, there + piece.len()) =~= text.subrange(at, at + piece.len()));
}

/// The line on a name: its offset in a column of four, and the name in quotes.
pub open spec fn line_on_name(name: (Seq<char>, int)) -> Seq<char> {
    right_aligned(decimal(name.1 as nat), 4) + seq![':', ' ', '"'] + name.0 + seq!['"', '\n']
}

/// A dump has a line on every name of the packet.
pub proof fn every_name_has_a_line(data: Seq<u8>, known: Seq<PacketFormat>, k: int)
    requires
        0 <= k < names_in(data).len(),
    ensures
        holds(packet_dump(data, known), line_on_name(names_in(data)[k])),
{
    let names = names_in(data);
    name_has_a_line(names, k);
    let front = "Found matching packet ("@ + decimal(data.len())
        + " bytes):\n\n--- All BDO strings by offset ---\n"@;
    let found = marker_lines(data, marker_of(data, known));
    let line = line_on_name(names[k]);
    a_longer_text_holds_it_too(front, name_lines(names), found, line);
    the_left_is_held(front + name_lines(names) + found, "\n"@, line);
}

proof fn name_has_a_line(names: Seq<(Seq<char>, int)>, k: int)
    requires
        0 <= k < names.len(),
    ensures
        holds(name_lines(names), line_on_name(names[k])),
    decreases names.len(),
{
    let rest = names.drop_last();
    let (name, at) = names.last();
    let before = name_lines(rest);
    let column = right_aligned(decimal(at as nat), 4);
    let (quote, end) = (": \""@, "\"\n"@);
    if k < rest.len() {
        name_has_a_line(rest, k);
        let line = line_on_name(names[k]);
        the_left_is_held(before, "  "@, line);
        the_left_is_held(before + "  "@, column, line);
        the_left_is_held(before + "  "@ + column, quote, line);
        the_left_is_held(before + "  "@ + column + quote, name, line);
        the_left_is_held(before + "  "@ + column + quote + name, end, line);
    } else {
        reveal_strlit(": \"");
        reveal_strlit("\"\n");
        assert(quote =~= seq![':', ' ', '"']);
        assert(end =~= seq!['"', '\n']);
        let front = before + "  "@;
        brackets_move(front, column, quote);
        brackets_move(front, column + quote, name);
        brackets_move(front, column + quote + name, end);
        a_sum_holds_its_end(front, line_on_name((name, at)));
    }
}

/// The part of a dump on the guild marker tells the flag's distance from the marker and the
/// byte that it is, the guild's number with the byte as far behind the marker and the name
/// that stands there, and the bytes around the marker.
pub proof fn the_marker_is_told_of(
    data: Seq<u8>,
    known: Seq<PacketFormat>,
    marker: int,
    flag: int,
    guild: int,
)
    requires
        marker_of(data, known) == Some((marker, flag, guild)),
        marker >= 0,
    ensures
        ({
            let text = packet_dump(data, known);
            let flag_byte = if marker + flag < 0 {
                0
            } else {
                marker + flag
            };
            &&& holds(text, decimal(marker as nat))
            &&& holds(
                text,
                sign_and_decimal(flag) + " -> byte "@ + decimal(flag_byte as nat) + "\n"@,
            )
            &&& holds(
                text,
                sign_and_decimal(guild) + " -> byte "@ + decimal((marker + guild) as nat)
                    + " -> \""@ + bdo_string(data, marker + guild) + "\"\n"@,
            )
            &&& holds(text, byte_lines(around_marker(data, marker)))
        }),
{
    let text = packet_dump(data, known);
    let front = "Found matching packet ("@ + decimal(data.len())
        + " bytes):\n\n--- All BDO strings by offset ---\n"@ + name_lines(names_in(data));
    let first = flag_lines(marker, flag);
    let second = guild_line(data, marker, guild);
    let third = raw_lines(data, marker);
    let of_marker = decimal(marker as nat);
    let of_flag = sign_and_decimal(flag) + " -> byte "@ + decimal(
        (if marker + flag < 0 {
            0
        } else {
            marker + flag
        }) as nat,
    ) + "\n"@;
    let of_guild = sign_and_decimal(guild) + " -> byte "@ + decimal((marker + guild) as nat)
        + " -> \""@ + bdo_string(data, marker + guild) + "\"\n"@;
    let of_bytes = byte_lines(around_marker(data, marker));
    flag_lines_hold(marker, flag);
    guild_line_holds(data, marker, guild);
    raw_lines_hold(data, marker);
    the_left_is_held(first, second, of_marker);
    the_left_is_held(first + second, third, of_marker);
    the_left_is_held(first, second, of_flag);
    the_left_is_held(first + second, third, of_flag);
    a_longer_text_holds_it_too(first, second, third, of_guild);
    the_right_is_held(first + second, third, of_bytes);
    a_longer_text_holds_it_too(front, first + second + third, "\n"@, of_marker);
    a_longer_text_holds_it_too(front, first + second + third, "\n"@, of_flag);
    a_longer_text_holds_it_too(front, first + second + third, "\n"@, of_guild);
    a_longer_text_holds_it_too(front, first + second + third, "\n"@, of_bytes);
    assert(text == front + (first + second + third) + "\n"@);
}

proof fn flag_lines_hold(marker: int, flag: int)
    ensures
        holds(flag_lines(marker, flag), decimal(marker as nat)),
        holds(
            flag_lines(marker, flag),
            sign_and_decimal(flag) + " -> byte "@ + decimal(
                (if marker + flag < 0 {
                    0
                } else {
                    marker + flag
                }) as nat,
            ) + "\n"@,
        ),
{
    let place = decimal(
        (if marker + flag < 0 {
            0
        } else {
            marker + flag
        }) as nat,
    );
    let intro = "\n--- Guild marker ---\n  Marker at offset: "@;
    let at = decimal(marker as nat);
    let front = intro + at + "\n  Flag rel: "@;
    let sign = sign_and_decimal(flag);
    brackets_move(front, sign, " -> byte "@);
    brackets_move(front, sign + " -> byte "@, place);
    brackets_move(front, sign + " -> byte "@ + place, "\n"@);
    let tail = sign + " -> byte "@ + place + "\n"@;
    a_sum_holds_its_end(front, tail);
    a_sum_holds_its_end(intro, at);
    the_left_is_held(intro + at, "\n  Flag rel: "@, at);
    the_left_is_held(front, tail, at);
}

proof fn guild_line_holds(data: Seq<u8>, marker: int, guild: int)
    ensures
        holds(
            guild_line(data, marker, guild),
            sign_and_decimal(guild) + " -> byte "@ + decimal((marker + guild) as nat) + " -> \""@
                + bdo_string(data, marker + guild) + "\"\n"@,
        ),
{
    let front = "  Guild string rel: "@;
    let sign = sign_and_decimal(guild);
    let place = decimal((marker + guild) as nat);
    let name = bdo_string(data, marker + guild);
    brackets_move(front, sign, " -> byte "@);
    brackets_move(front, sign + " -> byte "@, place);
    brackets_move(front, sign + " -> byte "@ + place, " -> \""@);
    brackets_move(front, sign + " -> byte "@ + place + " -> \""@, name);
    brackets_move(front, sign + " -> byte "@ + place + " -> \""@ + name, "\"\n"@);
    a_sum_holds_its_end(
        front,
        sign + " -> byte "@ + place + " -> \""@ + name + "\"\n"@,
    );
}

proof fn raw_lines_hold(data: Seq<u8>, marker: int)
    ensures
        holds(raw_lines(data, marker), byte_lines(around_marker(data, marker))),
{
    a_sum_holds_its_middle(
        "\n--- Raw bytes around marker (offset "@ + decimal(marker as nat) + ") ---\n"@,
        byte_lines(around_marker(data, marker)),
        "\n"@,
    );
}

/// Whether a packet can be the broadcast of an event and holds a name.
pub open spec fn may_broadcast(data: Seq<u8>, name: Seq<char>) -> bool {
    &&& 300 <= data.len() <= 400
    &&& data[2] == 0
    &&& offset_of(data, name_bytes(name)) is Some
}

/// The kinds that are counted for a name are those of the unencrypted packets of 300 to 400
/// bytes that hold it.
pub proof fn kinds_are_those_of_packets_with_the_name(packets: Seq<PacketView>, name: Seq<char>)
    ensures
        broadcast_kinds(packets, name) == kinds_of(
            packets.filter(|p: PacketView| may_broadcast(p.data, name)),
        ),
{
    let keep = |p: PacketView| may_broadcast(p.data, name);
    assert forall|p: PacketView| #[trigger] broadcasts_name(name)(p) == keep(p) by {}
    picked_is_filter(packets, broadcasts_name(name), keep);
}

/// Counts of kinds tell each kind once, as often as it occurs and where it occurs first, in the
/// order of these places.
pub proof fn each_kind_is_counted_once(kinds: Seq<PacketKind>, counts: Seq<KindCount>, k: int)
    requires
        counts_kinds(kinds, counts),
        0 <= k < counts.len(),
    ensures
        counts[k].count == kinds.to_multiset().count(counts[k].kind),
        counts[k].count > 0,
        kinds.index_of_first(counts[k].kind) == Some(counts[k].first as int),
        forall|m: int|
            k < m < counts.len() ==> counts[k].first < (#[trigger] counts[m]).first
                && counts[k].kind != counts[m].kind,
        forall|i: int| 0 <= i < kinds.len() ==> has_entry(counts, #[trigger] kinds[i]),
{
    let entry = counts[k];
    kinds_are_counted(kinds, entry.kind);
    kinds.index_of_first_ensures(entry.kind);
    kinds.to_multiset_ensures();
    assert(kinds.contains(entry.kind));
    assert forall|m: int| k < m < counts.len() implies counts[k].first < (
    #[trigger] counts[m]).first && counts[k].kind != counts[m].kind by {
        if counts[k].kind == counts[m].kind {
            assert(kinds[counts[k].first as int] == counts[m].kind);
        }
    }
}

/// The kind of a packet is the number at its fourth and fifth byte, the low byte first, and how
/// many bytes it has.
pub proof fn a_kind_is_opcode_and_length(packets: Seq<PacketView>, i: int)
    requires
        0 <= i < packets.len(),
        5 <= packets[i].data.len() <= usize::MAX,
    ensures
        kinds_of(packets).len() == packets.len(),
        kinds_of(packets)[i].opcode == packets[i].data[3] + 256 * packets[i].data[4],
        kinds_of(packets)[i].packet_len == packets[i].data.len(),
{
}

} // verus!
