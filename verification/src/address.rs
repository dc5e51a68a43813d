//! The addresses of hosts as text.

use vstd::prelude::*;
use crate::frame::Address;
use crate::search::{first_from, first_from_at, first_from_is_least};
use crate::text::{decimal, hex_number, push_decimal, push_hex};

verus! {

/// An IPv4 address as four numbers with points between them.
pub open spec fn dotted(address: u32) -> Seq<char> {
    decimal((address / 0x1000000) as nat).push('.') + decimal((address / 0x10000 % 0x100) as nat)
        + seq!['.'] + decimal((address / 0x100 % 0x100) as nat) + seq!['.'] + decimal(
        (address % 0x100) as nat,
    )
}

/// Writes an IPv4 address as four numbers with points between them.
pub fn write_ipv4(address: u32) -> (r: String)
    ensures
        r@ == dotted(address),
{
    let mut out = String::new();
    push_decimal(&mut out, (address / 0x1000000) as u64);
    out.push('.');
    push_decimal(&mut out, (address / 0x10000 % 0x100) as u64);
    out.push('.');
    push_decimal(&mut out, (address / 0x100 % 0x100) as u64);
    out.push('.');
    push_decimal(&mut out, (address % 0x100) as u64);
    assert(out@ =~= dotted(address));
    out
}

/// The last `n` groups of sixteen bits of a number, the highest first.
pub open spec fn last_groups(a: u128, n: nat) -> Seq<u16>
    decreases n,
{
    if n == 0 {
        seq![]
    } else {
        last_groups((a / 0x10000) as u128, (n - 1) as nat).push((a % 0x10000) as u16)
    }
}

/// The eight groups of an IPv6 address.
pub open spec fn groups(a: u128) -> Seq<u16> {
    last_groups(a, 8)
}

/// How many groups are zero from `i` on without a break.
pub open spec fn zero_run(g: Seq<u16>, i: int) -> nat
    decreases g.len() - i,
{
    if i < 0 || i >= g.len() || g[i] != 0 {
        0
    } else {
        1 + zero_run(g, i + 1)
    }
}

/// Whether two or more zero groups start at an index, as many as anywhere.
pub open spec fn starts_longest_run(g: Seq<u16>) -> spec_fn(int) -> bool {
    |i: int|
        zero_run(g, i) >= 2 && forall|j: int|
            0 <= j < g.len() ==> #[trigger] zero_run(g, j) <= zero_run(g, i)
}

/// Groups in hexadecimal with colons between them.
pub open spec fn with_colons(g: Seq<u16>) -> Seq<char>
    decreases g.len(),
{
    if g.len() == 0 {
        seq![]
    } else if g.len() == 1 {
        hex_number(g[0] as nat)
    } else {
        with_colons(g.drop_last()).push(':') + hex_number(g.last() as nat)
    }
}

/// An IPv6 address as text: its groups in hexadecimal, with the first of the longest runs of
/// two or more zero groups left out. One that stands for an IPv4 address ends with that.
pub open spec fn ipv6_text(address: u128) -> Seq<char> {
    let g = groups(address);
    if zero_run(g, 0) == 5 && g[5] == 0xFFFF {
        "::ffff:"@ + dotted((address % 0x1_0000_0000) as u32)
    } else {
        match first_from(starts_longest_run(g), 0, 8) {
            Some(i) => with_colons(g.take(i)) + "::"@ + with_colons(
                g.skip(i + zero_run(g, i)),
            ),
            None => with_colons(g),
        }
    }
}

/// There are as many groups as were asked for.
proof fn last_groups_len(a: u128, n: nat)
    ensures
        last_groups(a, n).len() == n,
    decreases n,
{
    if n > 0 {
        last_groups_len((a / 0x10000) as u128, (n - 1) as nat);
    }
}

/// Splits the last groups off a number.
fn split_groups(a: u128, n: usize) -> (r: Vec<u16>)
    ensures
        r@ == last_groups(a, n as nat),
    decreases n,
{
    if n == 0 {
        return Vec::new();
    }
    let mut out = split_groups(a / 0x10000, n - 1);
    out.push((a % 0x10000) as u16);
    out
}

/// Counts the zero groups from `i` on.
fn count_zeros(g: &[u16], i: usize) -> (r: usize)
    requires
        i <= g.len(),
    ensures
        r == zero_run(g@, i as int),
        i + r <= g.len(),
    decreases g.len() - i,
{
    if i < g.len() && g[i] == 0 {
        1 + count_zeros(g, i + 1)
    } else {
        0
    }
}

/// Finds the first of the longest runs of two or more zero groups.
fn find_longest_run(g: &[u16]) -> (r: Option<(usize, usize)>)
    ensures
        match r {
            Some((i, n)) => {
                &&& i + n <= g.len()
                &&& n == zero_run(g@, i as int)
                &&& first_from(starts_longest_run(g@), 0, g.len() as int) == Some(i as int)
            },
            None => first_from(starts_longest_run(g@), 0, g.len() as int) is None,
        },
{
    let ghost p = starts_longest_run(g@);
    let mut best: usize = 0;
    let mut longest: usize = 0;
    let mut i: usize = 0;
    while i < g.len()
        invariant
            i <= g.len(),
            best <= i,
            best + longest <= g.len(),
            longest > 0 ==> best < i && longest == zero_run(g@, best as int),
            forall|j: int| 0 <= j < i ==> #[trigger] zero_run(g@, j) <= longest,
            forall|j: int| 0 <= j < best ==> #[trigger] zero_run(g@, j) < longest,
        decreases g.len() - i,
    {
        let n: usize = count_zeros(g, i);
        if n > longest {
            best = i;
            longest = n;
        }
        i = i + 1;
    }
    proof {
        first_from_is_least(p, 0, g.len() as int);
    }
    if longest >= 2 {
        proof {
            assert(p(best as int));
            assert forall|j: int| 0 <= j < best implies !#[trigger] p(j) by {
                assert(zero_run(g@, j) < zero_run(g@, best as int));
            }
            first_from_at(p, 0, best as int, g.len() as int);
        }
        Some((best, longest))
    } else {
        proof {
            assert forall|j: int| 0 <= j < g.len() implies !#[trigger] p(j) by {
                assert(zero_run(g@, j) <= longest);
            }
        }
        None
    }
}

/// Appends groups in hexadecimal with colons between them.
fn push_groups(out: &mut String, g: &[u16])
    ensures
        final(out)@ == old(out)@ + with_colons(g@),
{
    let mut i: usize = 0;
    assert(out@ =~= old(out)@ + with_colons(g@.take(0)));
    while i < g.len()
        invariant
            i <= g.len(),
            out@ == old(out)@ + with_colons(g@.take(i as int)),
        decreases g.len() - i,
    {
        proof {
            assert(g@.take(i + 1).drop_last() =~= g@.take(i as int));
            assert(g@.take(i + 1).last() == g@[i as int]);
        }
        if i > 0 {
            out.push(':');
        }
        push_hex(out, g[i] as u64);
        assert(out@ =~= old(out)@ + with_colons(g@.take(i + 1)));
        i = i + 1;
    }
    assert(g@.take(i as int) =~= g@);
}

/// Writes an IPv6 address.
pub fn write_ipv6(address: u128) -> (r: String)
    ensures
        r@ == ipv6_text(address),
{
    let g = split_groups(address, 8);
    proof {
        last_groups_len(address, 8);
    }
    let mut out = String::new();
    if count_zeros(g.as_slice(), 0) == 5 && g[5] == 0xFFFF {
        out.append("::ffff:");
        let ipv4 = write_ipv4((address % 0x1_0000_0000) as u32);
        out.append(ipv4.as_str());
        assert(out@ =~= ipv6_text(address));
        return out;
    }
    match find_longest_run(g.as_slice()) {
        Some((i, n)) => {
            let all = g.as_slice();
            push_groups(&mut out, vstd::slice::slice_subrange(all, 0, i));
            out.append("::");
            push_groups(&mut out, vstd::slice::slice_subrange(all, i + n, all.len()));
            assert(g@.subrange(0, i as int) =~= g@.take(i as int));
            assert(g@.subrange(i + n, 8) =~= g@.skip(i + n));
        },
        None => push_groups(&mut out, g.as_slice()),
    }
    assert(out@ =~= ipv6_text(address));
    out
}

/// An address with a port. An IPv6 address stands in brackets, to tell its colons from the
/// port's.
pub open spec fn endpoint_text(address: Address, port: u16) -> Seq<char> {
    match address {
        Address::V4(a) => dotted(a) + ":"@ + decimal(port as nat),
        Address::V6(a) => "["@ + ipv6_text(a) + "]:"@ + decimal(port as nat),
    }
}

/// Writes an address with a port.
pub fn write_endpoint(address: Address, port: u16) -> (r: String)
    ensures
        r@ == endpoint_text(address, port),
{
    let mut out = String::new();
    match address {
        Address::V4(a) => {
            let text = write_ipv4(a);
            out.append(text.as_str());
            out.append(":");
        },
        Address::V6(a) => {
            let text = write_ipv6(a);
            out.append("[");
            out.append(text.as_str());
            out.append("]:");
        },
    }
    push_decimal(&mut out, port as u64);
    assert(out@ =~= endpoint_text(address, port));
    out
}

} // verus!
