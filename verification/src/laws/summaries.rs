//! Summaries of captures: what is told of a frame, and how addresses are written.

use vstd::prelude::*;
use crate::address::{
    dotted, endpoint_text, groups, ipv6_text, last_groups, starts_longest_run, with_colons,
    zero_run,
};
use crate::analyze::{frame_lines, hex_list, packet_line, payload_line};
use crate::capture::progress_line;
use crate::frame::{
    flag_letters, frame_ipv4, frame_tcp, letter_if, Address, FrameView, SummaryView, TcpFields,
};
use crate::search::{first_from, first_from_at, first_from_is_least};
use crate::text::{decimal, hex_byte, hex_number, signed_decimal};

verus! {

/// The number of two bytes, the high byte first.
pub open spec fn two_bytes(b: Seq<u8>, i: int) -> int {
    256 * b[i] + b[i + 1]
}

/// The number of four bytes, the high byte first.
pub open spec fn four_bytes(b: Seq<u8>, i: int) -> int {
    0x10000 * two_bytes(b, i) + two_bytes(b, i + 2)
}

/// Whether the fields of a TCP header that starts at an index are these: the ports, the
/// sequence number, and the flags from the lowest bit on FIN, SYN, RST, PSH, ACK and URG.
pub open spec fn fields_stand_at(t: TcpFields, b: Seq<u8>, i: int) -> bool {
    &&& t.source_port == two_bytes(b, i)
    &&& t.destination_port == two_bytes(b, i + 2)
    &&& t.seq == four_bytes(b, i + 4)
    &&& t.fin == (b[i + 13] % 2 == 1)
    &&& t.syn == (b[i + 13] / 2 % 2 == 1)
    &&& t.rst == (b[i + 13] / 4 % 2 == 1)
    &&& t.psh == (b[i + 13] / 8 % 2 == 1)
    &&& t.ack == (b[i + 13] / 16 % 2 == 1)
    &&& t.urg == (b[i + 13] / 32 % 2 == 1)
}

/// A frame with headers of Ethernet, IPv4 and TCP is told of with their addresses, ports and
/// flags. It carries what lies between the end of the TCP header and the end that the IPv4
/// header declares; an end before that, or behind the frame's own, is not heeded.
pub proof fn tcp_over_ipv4_is_told_of(frame: Seq<u8>, h: int, d: int)
    requires
        frame.len() >= 34,
        frame[12] == 8,
        frame[13] == 0,
        frame[14] / 16 == 4,
        h == 4 * (frame[14] % 16),
        h >= 20,
        frame.len() >= 14 + h + 20,
        frame[23] == 6,
        d == 4 * (frame[14 + h + 12] / 16),
        d >= 20,
        frame.len() >= 14 + h + d,
    ensures
        frame_tcp(frame) matches Some(t) && {
            let start = 14 + h + d;
            let declared = 14 + two_bytes(frame, 16);
            let end = if start <= declared <= frame.len() {
                declared
            } else {
                frame.len() as int
            };
            &&& t.source == Address::V4(four_bytes(frame, 26) as u32)
            &&& t.destination == Address::V4(four_bytes(frame, 30) as u32)
            &&& fields_stand_at(t.fields, frame, 14 + h)
            &&& t.payload == frame.subrange(start, end)
        },
{
    let packet = frame.skip(14);
    let rest = packet.skip(h);
    let data = rest.skip(d);
    let start = 14 + h + d;
    let declared = 14 + two_bytes(frame, 16);
    assert(packet[0] == frame[14]);
    assert(rest[12] == frame[14 + h + 12]);
    assert(data =~= frame.subrange(start, frame.len() as int));
    if start <= declared <= frame.len() {
        assert(data.take(declared - start) =~= frame.subrange(start, declared));
    }
    assert(rest[13] == frame[14 + h + 13]);
}

/// A frame with headers of Ethernet, IPv6 and TCP is told of with their ports and flags. It
/// carries what lies between the end of the TCP header and the end that the IPv6 header
/// declares; an end before that, or behind the frame's own, is not heeded.
pub proof fn tcp_over_ipv6_is_told_of(frame: Seq<u8>, d: int)
    requires
        frame.len() >= 74,
        frame[12] == 0x86,
        frame[13] == 0xDD,
        frame[14] / 16 == 6,
        frame[20] == 6,
        d == 4 * (frame[66] / 16),
        d >= 20,
        frame.len() >= 54 + d,
    ensures
        frame_tcp(frame) matches Some(t) && {
            let start = 54 + d;
            let declared = 54 + two_bytes(frame, 18);
            let end = if start <= declared <= frame.len() {
                declared
            } else {
                frame.len() as int
            };
            &&& t.source is V6
            &&& t.source->V6_0 == 0x1_0000_0000_0000_0000_0000_0000 * four_bytes(frame, 22)
                + 0x1_0000_0000_0000_0000 * four_bytes(frame, 26) + 0x1_0000_0000 * four_bytes(
                frame,
                30,
            ) + four_bytes(frame, 34)
            &&& t.destination is V6
            &&& t.destination->V6_0 == 0x1_0000_0000_0000_0000_0000_0000 * four_bytes(frame, 38)
                + 0x1_0000_0000_0000_0000 * four_bytes(frame, 42) + 0x1_0000_0000 * four_bytes(
                frame,
                46,
            ) + four_bytes(frame, 50)
            &&& fields_stand_at(t.fields, frame, 54)
            &&& t.payload == frame.subrange(start, end)
        },
{
    let packet = frame.skip(14);
    let rest = packet.skip(40);
    let data = rest.skip(d);
    let start = 54 + d;
    let declared = 54 + two_bytes(frame, 18);
    assert(packet[0] == frame[14]);
    assert(rest[12] == frame[66]);
    assert(rest[13] == frame[67]);
    assert(data =~= frame.subrange(start, frame.len() as int));
    if start <= declared <= frame.len() {
        assert(data.take(declared - start) =~= frame.subrange(start, declared));
    }
}

/// A frame is told of exactly where it has a TCP packet over IP, and what it carries is told of
/// exactly where it carries something.
pub proof fn what_is_told_of_a_frame(frame: FrameView)
    ensures
        frame_tcp(frame.data) is None ==> frame_lines(frame).0 is None && frame_lines(
            frame,
        ).1 is None,
        frame_tcp(frame.data) matches Some(t) ==> {
            &&& frame_lines(frame).0 == Some(packet_line(frame, t))
            &&& t.payload.len() == 0 ==> frame_lines(frame).1 is None
            &&& t.payload.len() > 0 ==> frame_lines(frame).1 == Some(payload_line(t.payload))
        },
{
}

/// Whether a text starts with another.
pub open spec fn starts_with(text: Seq<char>, front: Seq<char>) -> bool {
    text.len() >= front.len() && text.take(front.len() as int) == front
}

/// The line on a packet starts with the seconds, a point and the microseconds of its capture,
/// and where it comes from and goes to.
pub proof fn a_line_tells_time_and_ends(frame: FrameView, t: SummaryView)
    ensures
        starts_with(
            packet_line(frame, t),
            signed_decimal(frame.sec as int) + seq!['.'] + signed_decimal(frame.usec as int)
                + seq![' ', '|', ' '] + endpoint_text(t.source, t.fields.source_port) + seq![
                ' ',
                '-',
                '>',
                ' ',
            ] + endpoint_text(t.destination, t.fields.destination_port) + seq![' ', '|', ' ']
                + flag_letters(t.fields) + seq![' ', '|', ' '] + decimal(t.payload.len()),
        ),
{
    reveal_strlit(".");
    reveal_strlit(" | ");
    reveal_strlit(" -> ");
    let front = signed_decimal(frame.sec as int) + seq!['.'] + signed_decimal(frame.usec as int)
        + seq![' ', '|', ' '] + endpoint_text(t.source, t.fields.source_port) + seq![
        ' ',
        '-',
        '>',
        ' ',
    ] + endpoint_text(t.destination, t.fields.destination_port) + seq![' ', '|', ' ']
        + flag_letters(t.fields) + seq![' ', '|', ' '] + decimal(t.payload.len());
    assert("."@ =~= seq!['.']);
    assert(" | "@ =~= seq![' ', '|', ' ']);
    assert(" -> "@ =~= seq![' ', '-', '>', ' ']);
    assert(packet_line(frame, t) =~= front + " bytes payload"@);
    assert((front + " bytes payload"@).take(front.len() as int) =~= front);
}

/// The letters of the flags are in the order S, A, P, F, R and U, each of them there exactly
/// where its flag is set.
pub proof fn letters_stand_for_set_flags(t: TcpFields)
    ensures
        flag_letters(t) == seq!['S', 'A', 'P', 'F', 'R', 'U'].filter(
            |c: char|
                (c == 'S' && t.syn) || (c == 'A' && t.ack) || (c == 'P' && t.psh) || (c == 'F'
                    && t.fin) || (c == 'R' && t.rst) || (c == 'U' && t.urg),
        ),
{
    let keep = |c: char|
        (c == 'S' && t.syn) || (c == 'A' && t.ack) || (c == 'P' && t.psh) || (c == 'F' && t.fin)
            || (c == 'R' && t.rst) || (c == 'U' && t.urg);
    reveal(Seq::filter);
    let six = seq!['S', 'A', 'P', 'F', 'R', 'U'];
    assert(six.drop_last() =~= seq!['S', 'A', 'P', 'F', 'R']);
    let five = seq!['S', 'A', 'P', 'F', 'R'];
    assert(five.drop_last() =~= seq!['S', 'A', 'P', 'F']);
    let four = seq!['S', 'A', 'P', 'F'];
    assert(four.drop_last() =~= seq!['S', 'A', 'P']);
    let three = seq!['S', 'A', 'P'];
    assert(three.drop_last() =~= seq!['S', 'A']);
    let two = seq!['S', 'A'];
    assert(two.drop_last() =~= seq!['S']);
    let one = seq!['S'];
    assert(one.drop_last() =~= Seq::<char>::empty());
    assert(Seq::<char>::empty().filter(keep) =~= Seq::<char>::empty());
    assert(one.filter(keep) =~= letter_if(t.syn, 'S'));
    assert(two.filter(keep) =~= one.filter(keep) + letter_if(t.ack, 'A'));
    assert(three.filter(keep) =~= two.filter(keep) + letter_if(t.psh, 'P'));
    assert(four.filter(keep) =~= three.filter(keep) + letter_if(t.fin, 'F'));
    assert(five.filter(keep) =~= four.filter(keep) + letter_if(t.rst, 'R'));
    assert(six.filter(keep) =~= five.filter(keep) + letter_if(t.urg, 'U'));
}

/// Bytes are listed as two digits each, with a comma and a space between each two.
pub proof fn bytes_are_listed(bytes: Seq<u8>, k: int)
    requires
        0 <= k < bytes.len(),
    ensures
        hex_list(bytes).len() == 4 * bytes.len() - 2,
        hex_list(bytes).subrange(4 * k, 4 * k + 2) == hex_byte(bytes[k]),
        k + 1 < bytes.len() ==> hex_list(bytes)[4 * k + 2] == ',' && hex_list(bytes)[4 * k + 3]
            == ' ',
    decreases bytes.len(),
{
    reveal_strlit(", ");
    hex_list_len(bytes);
    let rest = bytes.drop_last();
    if bytes.len() == 1 {
        assert(hex_list(bytes).subrange(0, 2) =~= hex_byte(bytes[0]));
    } else {
        hex_list_len(rest);
        let all = hex_list(bytes);
        let before = hex_list(rest);
        if k < rest.len() {
            bytes_are_listed(rest, k);
            assert(all.subrange(4 * k, 4 * k + 2) =~= before.subrange(4 * k, 4 * k + 2));
        } else {
            assert(all.subrange(4 * k, 4 * k + 2) =~= hex_byte(bytes[k]));
        }
    }
}

proof fn hex_list_len(bytes: Seq<u8>)
    requires
        bytes.len() > 0,
    ensures
        hex_list(bytes).len() == 4 * bytes.len() - 2,
    decreases bytes.len(),
{
    reveal_strlit(", ");
    if bytes.len() > 1 {
        hex_list_len(bytes.drop_last());
    }
}

/// The bytes that are shown of what a packet carries are the first thirty-two, or all where
/// there are fewer.
pub proof fn the_first_bytes_are_shown(payload: Seq<u8>)
    ensures
        payload.len() <= 32 ==> payload_line(payload) == "  Payload: ["@ + hex_list(payload)
            + "]"@,
        payload.len() > 32 ==> payload_line(payload) == payload_line(payload.take(32)),
{
}

/// An IPv4 address is written as its four bytes in decimal, the highest first, with points
/// between them.
pub proof fn an_address_is_written_byte_by_byte(a: u8, b: u8, c: u8, d: u8)
    ensures
        dotted((0x1000000 * a + 0x10000 * b + 0x100 * c + d) as u32) == decimal(a as nat) + seq![
            '.',
        ] + decimal(b as nat) + seq!['.'] + decimal(c as nat) + seq!['.'] + decimal(d as nat),
{
    let address = (0x1000000 * a + 0x10000 * b + 0x100 * c + d) as u32;
    assert(address / 0x1000000 == a);
    assert(address / 0x10000 % 0x100 == b);
    assert(address / 0x100 % 0x100 == c);
    assert(address % 0x100 == d);
    assert(dotted(address) =~= decimal(a as nat) + seq!['.'] + decimal(b as nat) + seq!['.']
        + decimal(c as nat) + seq!['.'] + decimal(d as nat));
}

/// An endpoint is an address and a port behind a colon; an IPv6 address stands in brackets.
pub proof fn an_endpoint_is_address_and_port(a: u32, b: u128, port: u16)
    ensures
        endpoint_text(Address::V4(a), port) == dotted(a) + seq![':'] + decimal(port as nat),
        endpoint_text(Address::V6(b), port) == seq!['['] + ipv6_text(b) + seq![']', ':'] + decimal(
            port as nat,
        ),
{
    reveal_strlit(":");
    reveal_strlit("[");
    reveal_strlit("]:");
    assert(":"@ =~= seq![':']);
    assert("["@ =~= seq!['[']);
    assert("]:"@ =~= seq![']', ':']);
}

/// The number that groups of sixteen bits make, the highest first.
pub open spec fn number_of_groups(g: Seq<u16>) -> int
    decreases g.len(),
{
    if g.len() == 0 {
        0
    } else {
        0x10000 * number_of_groups(g.drop_last()) + g.last()
    }
}

/// An IPv6 address has eight groups, and they make it up.
pub proof fn groups_make_up_the_address(a: u128)
    ensures
        groups(a).len() == 8,
        number_of_groups(groups(a)) == a,
{
    reveal_with_fuel(shifted, 9);
    last_groups_make_up(a, 8);
}

spec fn shifted(a: int, n: nat) -> int
    decreases n,
{
    if n == 0 {
        a
    } else {
        shifted(a / 0x10000, (n - 1) as nat)
    }
}

proof fn last_groups_make_up(a: u128, n: nat)
    requires
        shifted(a as int, n) == 0,
    ensures
        last_groups(a, n).len() == n,
        number_of_groups(last_groups(a, n)) == a,
    decreases n,
{
    if n > 0 {
        last_groups_make_up((a / 0x10000) as u128, (n - 1) as nat);
        let all = last_groups(a, n);
        assert(all.drop_last() =~= last_groups((a / 0x10000) as u128, (n - 1) as nat));
    }
}

/// Whether groups are zero from one on.
pub open spec fn are_zero(g: Seq<u16>, i: int, n: int) -> bool {
    &&& 0 <= i
    &&& 0 <= n
    &&& i + n <= g.len()
    &&& forall|k: int| i <= k < i + n ==> #[trigger] g[k] == 0
}

proof fn runs_are_zero(g: Seq<u16>, i: int)
    requires
        0 <= i <= g.len(),
    ensures
        are_zero(g, i, zero_run(g, i) as int),
        i + zero_run(g, i) == g.len() || g[i + zero_run(g, i)] != 0,
    decreases g.len() - i,
{
    if i < g.len() && g[i] == 0 {
        runs_are_zero(g, i + 1);
    }
}

proof fn a_run_is_as_long_as_its_zeros(g: Seq<u16>, i: int, n: int)
    requires
        are_zero(g, i, n),
    ensures
        zero_run(g, i) >= n,
    decreases n,
{
    if n > 0 {
        assert(g[i] == 0);
        a_run_is_as_long_as_its_zeros(g, i + 1, n - 1);
    }
}

/// Whether an address stands for one of IPv4: its first five groups are zero, and the sixth is
/// 0xFFFF.
pub open spec fn stands_for_ipv4(a: u128) -> bool {
    a / 0x1_0000_0000 == 0xFFFF
}

proof fn mapped_groups(a: u128)
    ensures
        stands_for_ipv4(a) <==> zero_run(groups(a), 0) == 5 && groups(a)[5] == 0xFFFF,
{
    groups_make_up_the_address(a);
    let g = groups(a);
    reveal_with_fuel(last_groups, 9);
    let b = (a / 0x10000) as u128;
    let c = (b / 0x10000) as u128;
    let d = (c / 0x10000) as u128;
    let e = (d / 0x10000) as u128;
    let f = (e / 0x10000) as u128;
    let h = (f / 0x10000) as u128;
    let i = (h / 0x10000) as u128;
    assert(g[7] == a % 0x10000);
    assert(g[6] == b % 0x10000);
    assert(g[5] == c % 0x10000);
    assert(g[4] == d % 0x10000);
    assert(g[3] == e % 0x10000);
    assert(g[2] == f % 0x10000);
    assert(g[1] == h % 0x10000);
    assert(g[0] == i % 0x10000);
    assert(c == a / 0x1_0000_0000);
    runs_are_zero(g, 0);
    if stands_for_ipv4(a) {
        assert(d == 0 && e == 0 && f == 0 && h == 0 && i == 0);
        assert(are_zero(g, 0, 5));
        a_run_is_as_long_as_its_zeros(g, 0, 5);
    }
    if zero_run(g, 0) == 5 && g[5] == 0xFFFF {
        assert(g[0] == 0 && g[1] == 0 && g[2] == 0 && g[3] == 0 && g[4] == 0);
        assert(i / 0x10000 == 0);
    }
}

/// An address that stands for one of IPv4 is written with that one at its end.
pub proof fn an_ipv4_address_is_shown_as_one(a: u128)
    requires
        stands_for_ipv4(a),
    ensures
        ipv6_text(a) == "::ffff:"@ + dotted((a % 0x1_0000_0000) as u32),
{
    mapped_groups(a);
}

/// Of an address with zero groups, the longest run of two or more is left out, and of runs of
/// the same length the first.
pub proof fn the_longest_run_of_zeros_is_left_out(a: u128, i: int, n: int)
    requires
        !stands_for_ipv4(a),
        n >= 2,
        are_zero(groups(a), i, n),
        forall|j: int, m: int| #[trigger]
            are_zero(groups(a), j, m) ==> m < n || (m == n && j >= i),
    ensures
        ipv6_text(a) == with_colons(groups(a).take(i)) + "::"@ + with_colons(
            groups(a).skip(i + n),
        ),
{
    mapped_groups(a);
    groups_make_up_the_address(a);
    let g = groups(a);
    let p = starts_longest_run(g);
    runs_are_zero(g, i);
    a_run_is_as_long_as_its_zeros(g, i, n);
    assert forall|j: int| 0 <= j < g.len() implies #[trigger] zero_run(g, j) <= n && (zero_run(g, j)
        == n ==> j >= i) by {
        runs_are_zero(g, j);
    }
    assert(p(i));
    assert forall|j: int| 0 <= j < i implies !#[trigger] p(j) by {
        assert(zero_run(g, j) <= n);
        if p(j) {
            assert(zero_run(g, i) <= zero_run(g, j));
        }
    }
    first_from_at(p, 0, i, 8);
}

/// An address without two zero groups next to each other is written in full.
pub proof fn an_address_without_zeros_is_written_in_full(a: u128)
    requires
        forall|k: int| 0 <= k < 7 ==> #[trigger] groups(a)[k] != 0 || groups(a)[k + 1] != 0,
    ensures
        ipv6_text(a) == with_colons(groups(a)),
{
    groups_make_up_the_address(a);
    let g = groups(a);
    let p = starts_longest_run(g);
    runs_are_zero(g, 0);
    if zero_run(g, 0) >= 2 {
        assert(g[0] == 0 && g[1] == 0);
    }
    first_from_is_least(p, 0, 8);
    match first_from(p, 0, 8) {
        Some(i) => {
            assert(p(i));
            runs_are_zero(g, i);
            assert(g[i] == 0 && g[i + 1] == 0);
        },
        None => {},
    }
}

/// Groups are written in hexadecimal, with a colon between each two.
pub proof fn colons_stand_between_groups(g: Seq<u16>, x: u16)
    ensures
        with_colons(seq![x]) == hex_number(x as nat),
        g.len() > 0 ==> with_colons(g.push(x)) == with_colons(g) + seq![':'] + hex_number(
            x as nat,
        ),
        with_colons(seq![]).len() == 0,
{
    assert(g.push(x).drop_last() =~= g);
    if g.len() > 0 {
        assert(with_colons(g.push(x)) =~= with_colons(g) + seq![':'] + hex_number(x as nat));
    }
}

/// A frame is one of IPv4 exactly where its type is 0x0800 and a header of version 4 and of
/// twenty bytes or more stands behind that of Ethernet, whole; the addresses are at its end.
pub proof fn a_frame_of_ipv4_has_its_header(frame: Seq<u8>)
    ensures
        frame_ipv4(frame) is Some <==> {
            &&& frame.len() >= 34
            &&& frame[12] == 8
            &&& frame[13] == 0
            &&& frame[14] / 16 == 4
            &&& frame[14] % 16 >= 5
            &&& frame.len() >= 14 + 4 * (frame[14] % 16)
        },
        frame_ipv4(frame) matches Some((source, destination, protocol, _, _)) ==> {
            &&& source == four_bytes(frame, 26)
            &&& destination == four_bytes(frame, 30)
            &&& protocol == frame[23]
        },
{
    let packet = frame.skip(14);
    if frame.len() >= 34 {
        assert(packet[0] == frame[14]);
        assert(packet[9] == frame[23]);
    }
}

/// The line on a frame that is saved tells its number and where it comes from and goes to; only
/// frames with IPv4 have one.
pub proof fn progress_tells_the_number(number: u64, frame: Seq<u8>)
    ensures
        progress_line(number, frame) is Some <==> frame_ipv4(frame) is Some,
        frame_ipv4(frame) matches Some((source, destination, _, _, _)) ==> starts_with(
            progress_line(number, frame)->0,
            seq!['\r', '['] + decimal(number as nat) + seq![']', ' '] + dotted(source) + seq![
                ' ',
                '-',
                '>',
                ' ',
            ] + dotted(destination),
        ),
{
    reveal_strlit("\r[");
    reveal_strlit("] ");
    reveal_strlit(" -> ");
    assert("\r["@ =~= seq!['\r', '[']);
    assert("] "@ =~= seq![']', ' ']);
    assert(" -> "@ =~= seq![' ', '-', '>', ' ']);
    match frame_ipv4(frame) {
        Some((source, destination, _, _, _)) => {
            let front = seq!['\r', '['] + decimal(number as nat) + seq![']', ' '] + dotted(source)
                + seq![' ', '-', '>', ' '] + dotted(destination);
            assert(progress_line(number, frame)->0 =~= front + "  "@);
            assert((front + "  "@).take(front.len() as int) =~= front);
        },
        None => {},
    }
}

} // verus!
