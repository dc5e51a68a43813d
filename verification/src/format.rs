//! Packet formats: where the fields of an event packet lie, and the lists of formats
//! that are kept between runs.

use vstd::prelude::*;
use crate::search::{
    first_from, first_from_at, first_from_is_least, first_from_same, first_from_split, last_below,
    last_below_is_greatest,
};

verus! {

/// Where the fields of an event packet lie.
#[derive(Debug, Clone, Copy, PartialEq, Eq, Structural)]
pub struct PacketFormat {
    pub opcode: u16,
    pub packet_len: usize,
    pub enemy_char_offset: usize,
    pub enemy_family_offset: usize,
    pub friendly_char_offset: usize,
    pub friendly_family_offset: usize,
    pub guild_marker_offset: usize,
    pub guild_flag_offset_from_marker: isize,
    pub guild_string_offset_from_marker: isize,
    /// The guild name's offset, or 0 where it is found from the marker.
    pub guild_string_offset: usize,
    /// The value of the flag byte that stands for a death.
    pub is_death_value: u8,
    /// Whether packets of this format leave out the enemy's character name.
    pub old_format: bool,
}

/// Whether a format is for packets of this opcode and length.
pub open spec fn is_for(f: PacketFormat, opcode: u16, packet_len: int) -> bool {
    f.opcode == opcode && f.packet_len == packet_len
}

/// Which entries of a list are for packets of this opcode and length.
pub open spec fn entry_is_for(
    formats: Seq<PacketFormat>,
    opcode: u16,
    packet_len: int,
) -> spec_fn(int) -> bool {
    |i: int| is_for(formats[i], opcode, packet_len)
}

/// The first entry for packets of this opcode and length.
pub open spec fn index_for(formats: Seq<PacketFormat>, opcode: u16, packet_len: int) -> Option<
    int,
> {
    first_from(entry_is_for(formats, opcode, packet_len), 0, formats.len() as int)
}

/// The first format for packets of this opcode and length.
pub open spec fn format_for(formats: Seq<PacketFormat>, opcode: u16, packet_len: int) -> Option<
    PacketFormat,
> {
    match index_for(formats, opcode, packet_len) {
        Some(i) => Some(formats[i]),
        None => None,
    }
}

/// The last format for packets of this opcode and length.
pub open spec fn last_format_for(
    formats: Seq<PacketFormat>,
    opcode: u16,
    packet_len: int,
) -> Option<PacketFormat> {
    match last_below(entry_is_for(formats, opcode, packet_len), formats.len() as int) {
        Some(i) => Some(formats[i]),
        None => None,
    }
}

/// A list of formats in which `fmt` takes the place of the first entry for the same
/// packets, or comes last where there is none.
pub open spec fn with_format(formats: Seq<PacketFormat>, fmt: PacketFormat) -> Seq<PacketFormat> {
    match index_for(formats, fmt.opcode, fmt.packet_len as int) {
        Some(i) => formats.update(i, fmt),
        None => formats.push(fmt),
    }
}

/// Finds the first entry for packets of this opcode and length.
pub fn find_index(formats: &[PacketFormat], opcode: u16, packet_len: usize) -> (r: Option<usize>)
    ensures
        match r {
            Some(i) => i < formats.len() && index_for(formats@, opcode, packet_len as int) == Some(
                i as int,
            ),
            None => index_for(formats@, opcode, packet_len as int) is None,
        },
{
    let ghost p = entry_is_for(formats@, opcode, packet_len as int);
    let mut i: usize = 0;
    while i < formats.len()
        invariant
            i <= formats.len(),
            p == entry_is_for(formats@, opcode, packet_len as int),
            first_from(p, 0, formats.len() as int) == first_from(
                p,
                i as int,
                formats.len() as int,
            ),
        decreases formats.len() - i,
    {
        if formats[i].opcode == opcode && formats[i].packet_len == packet_len {
            assert(p(i as int));
            return Some(i);
        }
        assert(!p(i as int));
        i = i + 1;
    }
    None
}

/// Finds the first format for packets of this opcode and length.
pub fn find_format(formats: &[PacketFormat], opcode: u16, packet_len: usize) -> (r: Option<
    PacketFormat,
>)
    ensures
        r == format_for(formats@, opcode, packet_len as int),
{
    match find_index(formats, opcode, packet_len) {
        Some(i) => Some(formats[i]),
        None => None,
    }
}

/// Finds the last format for packets of this opcode and length.
pub fn find_last_format(formats: &[PacketFormat], opcode: u16, packet_len: usize) -> (r: Option<
    PacketFormat,
>)
    ensures
        r == last_format_for(formats@, opcode, packet_len as int),
{
    let ghost p = entry_is_for(formats@, opcode, packet_len as int);
    let mut n: usize = formats.len();
    while n > 0
        invariant
            n <= formats.len(),
            p == entry_is_for(formats@, opcode, packet_len as int),
            last_below(p, formats.len() as int) == last_below(p, n as int),
        decreases n,
    {
        let f = formats[n - 1];
        if f.opcode == opcode && f.packet_len == packet_len {
            assert(p(n - 1));
            return Some(f);
        }
        assert(!p(n - 1));
        n = n - 1;
    }
    None
}

/// The file, in the working directory, that holds the formats of this installation.
pub fn packet_format_path() -> (r: &'static str)
    ensures
        r@ == "packet_format.json"@,
{
    "packet_format.json"
}

/// The formats that the format file gives: its content read as a list, else as a
/// single format, else none. A file that cannot be read is read as neither.
pub fn load_packet_formats(list: Option<Vec<PacketFormat>>, single: Option<PacketFormat>) -> (r:
    Vec<PacketFormat>)
    ensures
        r@ == (match (list, single) {
            (Some(formats), _) => formats@,
            (None, Some(fmt)) => seq![fmt],
            (None, None) => seq![],
        }),
{
    match list {
        Some(formats) => formats,
        None => {
            let mut formats: Vec<PacketFormat> = Vec::new();
            match single {
                Some(fmt) => formats.push(fmt),
                None => {},
            }
            assert(formats@ =~= (match single {
                Some(fmt) => seq![fmt],
                None => seq![],
            }));
            formats
        },
    }
}

/// Which of the places where known formats are looked up gave a list.
pub open spec fn is_read(places: Seq<Option<Vec<PacketFormat>>>) -> spec_fn(int) -> bool {
    |i: int| places[i] is Some
}

/// The known formats: the list of the first place that gave one, else the embedded
/// list.
pub fn load_known_formats(places: Vec<Option<Vec<PacketFormat>>>, embedded: Vec<PacketFormat>) -> (r:
    Vec<PacketFormat>)
    ensures
        r@ == (match first_from(is_read(places@), 0, places.len() as int) {
            Some(i) => places[i].unwrap()@,
            None => embedded@,
        }),
{
    let ghost p = is_read(places@);
    let mut i: usize = 0;
    while i < places.len()
        invariant
            i <= places.len(),
            p == is_read(places@),
            first_from(p, 0, places.len() as int) == first_from(p, i as int, places.len() as int),
        decreases places.len() - i,
    {
        match &places[i] {
            Some(formats) => {
                assert(p(i as int));
                return copy_formats(formats.as_slice());
            },
            None => {},
        }
        assert(!p(i as int));
        i = i + 1;
    }
    embedded
}

/// A list with the same formats.
pub fn copy_formats(formats: &[PacketFormat]) -> (r: Vec<PacketFormat>)
    ensures
        r@ == formats@,
{
    vstd::slice::slice_to_vec(formats)
}

/// Puts a format into the list of this installation: in place of the first entry for
/// the same packets, or last.
pub fn save_packet_format(formats: &mut Vec<PacketFormat>, fmt: &PacketFormat)
    ensures
        final(formats)@ == with_format(old(formats)@, *fmt),
{
    match find_index(formats.as_slice(), fmt.opcode, fmt.packet_len) {
        Some(i) => formats.set(i, *fmt),
        None => formats.push(*fmt),
    }
}

/// The format that was added to the list last.
pub fn load_packet_format(formats: &[PacketFormat]) -> (r: Option<PacketFormat>)
    ensures
        r == (if formats@.len() == 0 {
            None
        } else {
            Some(formats@.last())
        }),
{
    if formats.len() == 0 {
        None
    } else {
        Some(formats[formats.len() - 1])
    }
}

/// Whether two formats describe the same packet layout: they agree in all but the
/// value that stands for a death, which bytes alone do not reveal.
pub open spec fn same_layout(left: PacketFormat, right: PacketFormat) -> bool {
    left == (PacketFormat { is_death_value: left.is_death_value, ..right })
}

/// Whether two formats describe the same packet layout. Which byte value is a death is
/// left out: a packet's bytes do not tell it.
pub fn same_packet_layout(left: &PacketFormat, right: &PacketFormat) -> (r: bool)
    ensures
        r == same_layout(*left, *right),
{
    left.opcode == right.opcode && left.packet_len == right.packet_len && left.enemy_char_offset
        == right.enemy_char_offset && left.enemy_family_offset == right.enemy_family_offset
        && left.friendly_char_offset == right.friendly_char_offset && left.friendly_family_offset
        == right.friendly_family_offset && left.guild_marker_offset == right.guild_marker_offset
        && left.guild_flag_offset_from_marker == right.guild_flag_offset_from_marker
        && left.guild_string_offset_from_marker == right.guild_string_offset_from_marker
        && left.guild_string_offset == right.guild_string_offset && left.old_format
        == right.old_format
}

/// The formats that are not for packets of this opcode and length, in their order.
pub open spec fn formats_without(
    formats: Seq<PacketFormat>,
    opcode: u16,
    packet_len: int,
) -> Seq<PacketFormat>
    decreases formats.len(),
{
    if formats.len() == 0 {
        seq![]
    } else {
        let rest = formats_without(formats.drop_last(), opcode, packet_len);
        if is_for(formats.last(), opcode, packet_len) {
            rest
        } else {
            rest.push(formats.last())
        }
    }
}

/// Puts a calibrated format last in the list of known formats, in place of every entry
/// for the same packets.
pub fn replace_known_format(formats: &[PacketFormat], fmt: &PacketFormat) -> (r: Vec<PacketFormat>)
    ensures
        r@ == formats_without(formats@, fmt.opcode, fmt.packet_len as int).push(*fmt),
{
    let mut kept: Vec<PacketFormat> = Vec::new();
    let mut i: usize = 0;
    while i < formats.len()
        invariant
            i <= formats.len(),
            kept@ == formats_without(
                formats@.take(i as int),
                fmt.opcode,
                fmt.packet_len as int,
            ),
        decreases formats.len() - i,
    {
        let f = formats[i];
        assert(formats@.take(i + 1).drop_last() =~= formats@.take(i as int));
        if !(f.opcode == fmt.opcode && f.packet_len == fmt.packet_len) {
            kept.push(f);
        }
        i = i + 1;
    }
    assert(formats@.take(i as int) =~= formats@);
    kept.push(*fmt);
    kept
}

/// No two entries of a list are for the same packets.
pub open spec fn formats_distinct(formats: Seq<PacketFormat>) -> bool {
    forall|i: int, j: int|
        0 <= i < j < formats.len() ==> !is_for(
            #[trigger] formats[i],
            (#[trigger] formats[j]).opcode,
            formats[j].packet_len as int,
        )
}

/// A format that was saved is the one found for its packets, and what is found for
/// other packets stays as it was.
pub proof fn saved_format_is_found(
    formats: Seq<PacketFormat>,
    fmt: PacketFormat,
    opcode: u16,
    packet_len: int,
)
    ensures
        format_for(with_format(formats, fmt), opcode, packet_len) == (if is_for(
            fmt,
            opcode,
            packet_len,
        ) {
            Some(fmt)
        } else {
            format_for(formats, opcode, packet_len)
        }),
{
    let n = formats.len() as int;
    let after = with_format(formats, fmt);
    let old_p = entry_is_for(formats, opcode, packet_len);
    let new_p = entry_is_for(after, opcode, packet_len);
    let own_p = entry_is_for(formats, fmt.opcode, fmt.packet_len as int);
    first_from_is_least(own_p, 0, n);
    first_from_is_least(old_p, 0, n);
    first_from_is_least(new_p, 0, after.len() as int);
    assert forall|i: int| 0 <= i < n implies own_p(i) == is_for(
        formats[i],
        fmt.opcode,
        fmt.packet_len as int,
    ) && old_p(i) == is_for(formats[i], opcode, packet_len) by {}
    assert forall|i: int| 0 <= i < after.len() implies new_p(i) == is_for(
        after[i],
        opcode,
        packet_len,
    ) by {}
    match index_for(formats, fmt.opcode, fmt.packet_len as int) {
        Some(k) => {
            if is_for(fmt, opcode, packet_len) {
                assert forall|j: int| 0 <= j < k implies !#[trigger] new_p(j) by {
                    assert(!own_p(j));
                }
                first_from_at(new_p, 0, k, after.len() as int);
            } else {
                match index_for(formats, opcode, packet_len) {
                    Some(m) => {
                        assert(own_p(k));
                        assert forall|j: int| 0 <= j < m implies !#[trigger] new_p(j) by {
                            assert(!old_p(j));
                        }
                        first_from_at(new_p, 0, m, after.len() as int);
                    },
                    None => {
                        assert forall|j: int| 0 <= j < after.len() implies !#[trigger] new_p(j) by {
                            assert(!old_p(j));
                        }
                    },
                }
            }
        },
        None => {
            if is_for(fmt, opcode, packet_len) {
                assert forall|j: int| 0 <= j < n implies !#[trigger] new_p(j) by {
                    assert(!own_p(j));
                }
                first_from_at(new_p, 0, n, after.len() as int);
            } else {
                match index_for(formats, opcode, packet_len) {
                    Some(m) => {
                        assert forall|j: int| 0 <= j < m implies !#[trigger] new_p(j) by {
                            assert(!old_p(j));
                        }
                        first_from_at(new_p, 0, m, after.len() as int);
                    },
                    None => {
                        assert forall|j: int| 0 <= j < after.len() implies !#[trigger] new_p(j) by {
                            if j < n {
                                assert(!old_p(j));
                            }
                        }
                    },
                }
            }
        },
    }
}

/// Saving keeps a list in which each kind of packet has one entry such a list.
pub proof fn saving_keeps_formats_distinct(formats: Seq<PacketFormat>, fmt: PacketFormat)
    requires
        formats_distinct(formats),
    ensures
        formats_distinct(with_format(formats, fmt)),
{
    let own_p = entry_is_for(formats, fmt.opcode, fmt.packet_len as int);
    first_from_is_least(own_p, 0, formats.len() as int);
    assert forall|i: int| 0 <= i < formats.len() implies own_p(i) == is_for(
        formats[i],
        fmt.opcode,
        fmt.packet_len as int,
    ) by {}
}

/// Saving a format twice is saving it once.
pub proof fn saving_twice_is_saving_once(formats: Seq<PacketFormat>, fmt: PacketFormat)
    ensures
        with_format(with_format(formats, fmt), fmt) == with_format(formats, fmt),
{
    let n = formats.len() as int;
    let after = with_format(formats, fmt);
    let own_p = entry_is_for(formats, fmt.opcode, fmt.packet_len as int);
    let new_p = entry_is_for(after, fmt.opcode, fmt.packet_len as int);
    first_from_is_least(own_p, 0, n);
    let k = match index_for(formats, fmt.opcode, fmt.packet_len as int) {
        Some(k) => k,
        None => n,
    };
    assert forall|j: int| 0 <= j < k implies !#[trigger] new_p(j) by {
        assert(!own_p(j));
    }
    assert(new_p(k));
    first_from_at(new_p, 0, k, after.len() as int);
    assert(after.update(k, fmt) =~= after);
}

/// In a list without two entries for the same packets, the first entry for some packets is
/// the last.
pub proof fn distinct_formats_match_once(
    formats: Seq<PacketFormat>,
    opcode: u16,
    packet_len: int,
)
    requires
        formats_distinct(formats),
    ensures
        last_format_for(formats, opcode, packet_len) == format_for(formats, opcode, packet_len),
{
    let p = entry_is_for(formats, opcode, packet_len);
    let n = formats.len() as int;
    first_from_is_least(p, 0, n);
    last_below_is_greatest(p, n);
    match (first_from(p, 0, n), last_below(p, n)) {
        (Some(i), Some(k)) => {
            assert(p(i) && p(k));
            if i < k {
                assert(!is_for(formats[i], formats[k].opcode, formats[k].packet_len as int));
            }
        },
        (Some(i), None) => {
            assert(p(i));
        },
        (None, Some(k)) => {
            assert(p(k));
        },
        (None, None) => {},
    }
}

/// The first format for some packets in a list with one more format.
proof fn format_for_push(
    formats: Seq<PacketFormat>,
    fmt: PacketFormat,
    opcode: u16,
    packet_len: int,
)
    ensures
        format_for(formats.push(fmt), opcode, packet_len) == (match format_for(
            formats,
            opcode,
            packet_len,
        ) {
            Some(f) => Some(f),
            None => if is_for(fmt, opcode, packet_len) {
                Some(fmt)
            } else {
                None
            },
        }),
{
    let n = formats.len() as int;
    let before = entry_is_for(formats, opcode, packet_len);
    let after = entry_is_for(formats.push(fmt), opcode, packet_len);
    first_from_same(before, after, 0, n);
    first_from_split(after, 0, n, n + 1);
    first_from_is_least(before, 0, n);
    assert(after(n) == is_for(fmt, opcode, packet_len));
    assert(first_from(after, n + 1, n + 1) is None);
}

/// What is found for some packets in a list from which the formats for others are gone.
proof fn format_without(
    formats: Seq<PacketFormat>,
    gone_opcode: u16,
    gone_len: int,
    opcode: u16,
    packet_len: int,
)
    ensures
        format_for(formats_without(formats, gone_opcode, gone_len), opcode, packet_len) == (
        if opcode == gone_opcode && packet_len == gone_len {
            None
        } else {
            format_for(formats, opcode, packet_len)
        }),
    decreases formats.len(),
{
    if formats.len() > 0 {
        let before = formats.drop_last();
        let rest = formats_without(before, gone_opcode, gone_len);
        format_without(before, gone_opcode, gone_len, opcode, packet_len);
        format_for_push(before, formats.last(), opcode, packet_len);
        format_for_push(rest, formats.last(), opcode, packet_len);
        assert(before.push(formats.last()) =~= formats);
    }
}

/// A calibrated format is the one found for its packets among the known ones, and what is
/// found for other packets stays as it was.
pub proof fn calibrated_format_is_known(
    formats: Seq<PacketFormat>,
    fmt: PacketFormat,
    opcode: u16,
    packet_len: int,
)
    ensures
        format_for(
            formats_without(formats, fmt.opcode, fmt.packet_len as int).push(fmt),
            opcode,
            packet_len,
        ) == (if is_for(fmt, opcode, packet_len) {
            Some(fmt)
        } else {
            format_for(formats, opcode, packet_len)
        }),
{
    let left = formats_without(formats, fmt.opcode, fmt.packet_len as int);
    format_without(formats, fmt.opcode, fmt.packet_len as int, opcode, packet_len);
    format_for_push(left, fmt, opcode, packet_len);
}

} // verus!
