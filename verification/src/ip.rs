use vstd::prelude::*;

use crate::text::{
    all_digits, all_hex, dec_of, dec_val, dec_value_capped, find_char, first_index_of, hex_of,
    hex_val, hex_value_capped, lemma_dec_val_nonneg, lemma_first_index_bounds,
    range_all_digits, range_all_hex, split_char,
};

verus! {

/// A concrete network address, held as its numeric value.
///
/// The four-octet family is the 32-bit value in network order; the
/// sixteen-octet family is the 128-bit value in network order.
#[derive(Clone, Copy, Debug, PartialEq, Eq, Structural)]
pub enum IpAddress {
    V4(u32),
    V6(u128),
}

// ---------------------------------------------------------------------------
// Dotted-quad notation
// ---------------------------------------------------------------------------
/// A well-formed decimal octet: one to three digits, no leading zero,
/// value at most 255.
pub open spec fn octet_ok(s: Seq<char>) -> bool {
    &&& 0 < s.len() <= 3
    &&& all_digits(s)
    &&& dec_val(s) <= 255
    &&& (s.len() > 1 ==> s[0] != '0')
}

/// The value denoted by dotted-quad notation, if well-formed.
pub open spec fn ipv4_val(s: Seq<char>) -> Option<u32> {
    let parts = split_char(s, '.');
    if parts.len() == 4 && octet_ok(parts[0]) && octet_ok(parts[1]) && octet_ok(parts[2])
        && octet_ok(parts[3]) {
        Some(
            (dec_val(parts[0]) * 0x1000000 + dec_val(parts[1]) * 0x10000 + dec_val(parts[2]) * 0x100
                + dec_val(parts[3])) as u32,
        )
    } else {
        None
    }
}

/// The dotted-quad rendering of a 32-bit address value.
pub open spec fn ipv4_text(a: int) -> Seq<char> {
    dec_of(a / 0x1000000) + seq!['.'] + dec_of((a / 0x10000) % 0x100) + seq!['.'] + dec_of(
        (a / 0x100) % 0x100,
    ) + seq!['.'] + dec_of(a % 0x100)
}

proof fn lemma_split_nonempty(s: Seq<char>, c: char)
    ensures
        split_char(s, c).len() >= 1,
{
    lemma_first_index_bounds(s, c);
}

/// Checks one octet of `cs[lo..hi]` and returns its value.
fn parse_octet(cs: &Vec<char>, lo: usize, hi: usize) -> (r: Option<u8>)
    requires
        lo <= hi <= cs@.len(),
    ensures
        ({
            let s = cs@.subrange(lo as int, hi as int);
            match r {
                Some(v) => octet_ok(s) && v == dec_val(s),
                None => !octet_ok(s),
            }
        }),
{
    let ghost s = cs@.subrange(lo as int, hi as int);
    if lo == hi || hi - lo > 3 {
        return None;
    }
    if !range_all_digits(cs, lo, hi) {
        return None;
    }
    if hi - lo > 1 && cs[lo] == '0' {
        proof {
            assert(s[0] == cs@[lo as int]);
        }
        return None;
    }
    proof {
        lemma_dec_val_nonneg(s);
        assert(s[0] == cs@[lo as int]);
    }
    let v = dec_value_capped(cs, lo, hi);
    if v <= 255 {
        Some(v as u8)
    } else {
        None
    }
}

/// Parses dotted-quad notation in `cs[lo..hi]`.
pub fn parse_ipv4_range(cs: &Vec<char>, lo: usize, hi: usize) -> (r: Option<u32>)
    requires
        lo <= hi <= cs@.len(),
    ensures
        r == ipv4_val(cs@.subrange(lo as int, hi as int)),
{
    let ghost s = cs@.subrange(lo as int, hi as int);
    let ghost parts = split_char(s, '.');
    let d1 = match find_char(cs, lo, hi, '.') {
        Some(k) => k,
        None => {
            proof {
                assert(parts.len() == 1);
            }
            return None;
        },
    };
    let ghost s0 = s.subrange(0, d1 - lo);
    let ghost r1 = s.subrange(d1 - lo + 1, s.len() as int);
    proof {
        assert(parts == seq![s0] + split_char(r1, '.'));
        assert(r1 =~= cs@.subrange(d1 + 1, hi as int));
        assert(s0 =~= cs@.subrange(lo as int, d1 as int));
    }
    let d2 = match find_char(cs, d1 + 1, hi, '.') {
        Some(k) => k,
        None => {
            proof {
                assert(split_char(r1, '.').len() == 1);
                assert(parts.len() == 2);
            }
            return None;
        },
    };
    let ghost s1 = r1.subrange(0, d2 - (d1 + 1));
    let ghost r2 = r1.subrange(d2 - (d1 + 1) + 1, r1.len() as int);
    proof {
        assert(first_index_of(r1, '.') == Some(d2 - (d1 + 1)));
        assert(split_char(r1, '.') == seq![s1] + split_char(r2, '.'));
        assert(r2 =~= cs@.subrange(d2 + 1, hi as int));
        assert(s1 =~= cs@.subrange(d1 + 1, d2 as int));
    }
    let d3 = match find_char(cs, d2 + 1, hi, '.') {
        Some(k) => k,
        None => {
            proof {
                assert(split_char(r2, '.').len() == 1);
                assert(parts.len() == 3);
            }
            return None;
        },
    };
    let ghost s2 = r2.subrange(0, d3 - (d2 + 1));
    let ghost r3 = r2.subrange(d3 - (d2 + 1) + 1, r2.len() as int);
    proof {
        assert(first_index_of(r2, '.') == Some(d3 - (d2 + 1)));
        assert(split_char(r2, '.') == seq![s2] + split_char(r3, '.'));
        assert(r3 =~= cs@.subrange(d3 + 1, hi as int));
        assert(s2 =~= cs@.subrange(d2 + 1, d3 as int));
    }
    match find_char(cs, d3 + 1, hi, '.') {
        Some(_) => {
            proof {
                let r4 = r3.subrange(
                    (first_index_of(r3, '.').unwrap() + 1) as int,
                    r3.len() as int,
                );
                lemma_split_nonempty(r4, '.');
                assert(split_char(r3, '.').len() >= 2);
                assert(parts.len() >= 5);
            }
            return None;
        },
        None => {
            proof {
                assert(split_char(r3, '.').len() == 1);
                assert(split_char(r3, '.')[0] == r3);
                assert(parts.len() == 4);
                assert(parts[0] == s0);
                assert(parts[1] == (seq![s1] + split_char(r2, '.'))[0]);
                assert(parts[1] == s1);
                assert(parts[2] == s2);
                assert(parts[3] == r3);
                assert(r3 =~= cs@.subrange(d3 + 1, hi as int));
            }
        },
    }
    let o0 = match parse_octet(cs, lo, d1) {
        Some(v) => v,
        None => {
            return None;
        },
    };
    let o1 = match parse_octet(cs, d1 + 1, d2) {
        Some(v) => v,
        None => {
            return None;
        },
    };
    let o2 = match parse_octet(cs, d2 + 1, d3) {
        Some(v) => v,
        None => {
            return None;
        },
    };
    let o3 = match parse_octet(cs, d3 + 1, hi) {
        Some(v) => v,
        None => {
            return None;
        },
    };
    let a: u32 = (o0 as u32) * 0x1000000 + (o1 as u32) * 0x10000 + (o2 as u32) * 0x100 + (
    o3 as u32);
    Some(a)
}

/// Renders a 32-bit address value in dotted-quad notation.
pub fn format_ipv4(a: u32) -> (r: String)
    ensures
        r@ == ipv4_text(a as int),
{
    let o0 = a / 0x1000000;
    let o1 = (a / 0x10000) % 0x100;
    let o2 = (a / 0x100) % 0x100;
    let o3 = a % 0x100;
    let mut s = crate::text::fmt_u64(o0 as u64);
    s.append(".");
    let t1 = crate::text::fmt_u64(o1 as u64);
    s.append(t1.as_str());
    s.append(".");
    let t2 = crate::text::fmt_u64(o2 as u64);
    s.append(t2.as_str());
    s.append(".");
    let t3 = crate::text::fmt_u64(o3 as u64);
    s.append(t3.as_str());
    proof {
        reveal_strlit(".");
        assert("."@ =~= seq!['.']);
        assert(s@ =~= ipv4_text(a as int));
    }
    s
}

} // verus!

verus! {

// ---------------------------------------------------------------------------
// Sixteen-octet notation: value
// ---------------------------------------------------------------------------
/// A well-formed hexadecimal group: one to four hex digits.
pub open spec fn group_ok(s: Seq<char>) -> bool {
    0 < s.len() <= 4 && all_hex(s)
}

/// 65536 raised to the power `n`.
pub open spec fn pow16(n: nat) -> int
    decreases n,
{
    if n == 0 {
        1
    } else {
        0x10000 * pow16((n - 1) as nat)
    }
}

/// 16 raised to the power `n`.
pub open spec fn powh(n: nat) -> int
    decreases n,
{
    if n == 0 {
        1
    } else {
        16 * powh((n - 1) as nat)
    }
}

proof fn lemma_powh_small()
    ensures
        powh(0) == 1,
        powh(1) == 16,
        powh(2) == 256,
        powh(3) == 4096,
        powh(4) == 0x10000,
{
    assert(powh(0) == 1);
    assert(powh(1) == 16);
    assert(powh(2) == 256);
    assert(powh(3) == 4096);
    assert(powh(4) == 0x10000);
}

pub proof fn lemma_hex_val_bound(s: Seq<char>)
    requires
        all_hex(s),
    ensures
        0 <= hex_val(s) < powh(s.len()),
    decreases s.len(),
{
    if s.len() == 0 {
    } else {
        assert(all_hex(s.drop_last()));
        lemma_hex_val_bound(s.drop_last());
    }
}

/// The group values denoted by the colon-separated parts of one
/// section.  When `allow_v4` is set, the final part may instead be a
/// dotted quad standing for the last two groups.
pub open spec fn section_groups(parts: Seq<Seq<char>>, allow_v4: bool) -> Option<Seq<u16>>
    decreases parts.len(),
{
    if parts.len() == 0 {
        Some(Seq::empty())
    } else {
        let p0 = parts.first();
        if parts.len() == 1 && allow_v4 && p0.contains('.') {
            match ipv4_val(p0) {
                Some(a) => Some(seq![(a as int / 0x10000) as u16, (a as int % 0x10000) as u16]),
                None => None,
            }
        } else if group_ok(p0) {
            match section_groups(parts.drop_first(), allow_v4) {
                Some(rest) => Some(seq![hex_val(p0) as u16] + rest),
                None => None,
            }
        } else {
            None
        }
    }
}

/// The index of the first adjacent pair of colons, if any.
pub open spec fn find_dc(s: Seq<char>) -> Option<int>
    decreases s.len(),
{
    if s.len() < 2 {
        None
    } else if s[0] == ':' && s[1] == ':' {
        Some(0int)
    } else {
        match find_dc(s.drop_first()) {
            Some(i) => Some(i + 1),
            None => None,
        }
    }
}

pub proof fn lemma_find_dc_bounds(s: Seq<char>)
    ensures
        match find_dc(s) {
            Some(k) => 0 <= k < s.len() - 1 && s[k] == ':' && s[k + 1] == ':' && forall|j: int|
                0 <= j < k ==> !((#[trigger] s[j]) == ':' && s[j + 1] == ':'),
            None => forall|j: int|
                0 <= j < s.len() - 1 ==> !((#[trigger] s[j]) == ':' && s[j + 1] == ':'),
        },
    decreases s.len(),
{
    if s.len() < 2 {
    } else if s[0] == ':' && s[1] == ':' {
    } else {
        let s1 = s.drop_first();
        lemma_find_dc_bounds(s1);
        assert(forall|j: int| 1 <= j < s.len() ==> s[j] == s1[j - 1]);
        match find_dc(s1) {
            Some(k) => {
                assert forall|j: int| 0 <= j < k + 1 implies !((#[trigger] s[j]) == ':' && s[j
                    + 1] == ':') by {
                    if j >= 1 {
                        assert(s[j] == s1[j - 1] && s[j + 1] == s1[j]);
                    }
                }
            },
            None => {
                assert forall|j: int| 0 <= j < s.len() - 1 implies !((#[trigger] s[j]) == ':'
                    && s[j + 1] == ':') by {
                    if j >= 1 {
                        assert(s[j] == s1[j - 1] && s[j + 1] == s1[j]);
                    }
                }
            },
        }
    }
}

/// The value of a big-endian group sequence.
pub open spec fn combine16(gs: Seq<u16>) -> int
    decreases gs.len(),
{
    if gs.len() == 0 {
        0
    } else {
        combine16(gs.drop_last()) * 0x10000 + gs.last()
    }
}

pub proof fn lemma_combine16_bound(gs: Seq<u16>)
    ensures
        0 <= combine16(gs) < pow16(gs.len()),
    decreases gs.len(),
{
    if gs.len() == 0 {
    } else {
        lemma_combine16_bound(gs.drop_last());
        assert(pow16(gs.len()) == 0x10000 * pow16((gs.len() - 1) as nat));
    }
}

/// The value denoted by sixteen-octet notation: colon-separated
/// hexadecimal groups, at most one adjacent colon pair standing for a
/// run of zero groups, an optional trailing dotted quad.
pub open spec fn ipv6_val(s: Seq<char>) -> Option<u128> {
    match find_dc(s) {
        None => match section_groups(split_char(s, ':'), true) {
            Some(gs) => if gs.len() == 8 {
                Some(combine16(gs) as u128)
            } else {
                None
            },
            None => None,
        },
        Some(k) => {
            let left = s.subrange(0, k);
            let right = s.subrange(k + 2, s.len() as int);
            let lparts = if left.len() == 0 {
                Seq::<Seq<char>>::empty()
            } else {
                split_char(left, ':')
            };
            let rparts = if right.len() == 0 {
                Seq::<Seq<char>>::empty()
            } else {
                split_char(right, ':')
            };
            match (section_groups(lparts, false), section_groups(rparts, true)) {
                (Some(lg), Some(rg)) => if lg.len() + rg.len() <= 7 {
                    Some(
                        combine16(
                            lg + Seq::new((8 - lg.len() - rg.len()) as nat, |i: int| 0u16) + rg,
                        ) as u128,
                    )
                } else {
                    None
                },
                _ => None,
            }
        },
    }
}

// ---------------------------------------------------------------------------
// Sixteen-octet notation: parsing
// ---------------------------------------------------------------------------
/// Parses one colon-separated section of `cs[lo..hi]` into its group
/// values.
fn parse_section(cs: &Vec<char>, lo: usize, hi: usize, allow_v4: bool) -> (r: Option<Vec<u16>>)
    requires
        lo <= hi <= cs@.len(),
    ensures
        ({
            let target = section_groups(split_char(cs@.subrange(lo as int, hi as int), ':'), allow_v4);
            match r {
                Some(v) => target == Some(v@),
                None => target is None,
            }
        }),
{
    let ghost sub = cs@.subrange(lo as int, hi as int);
    let ghost target = section_groups(split_char(sub, ':'), allow_v4);
    let mut gs: Vec<u16> = Vec::new();
    let mut pos = lo;
    let mut done = false;
    proof {
        assert(sub.subrange(0, sub.len() as int) =~= sub);
        assert(cs@.subrange(pos as int, hi as int) == sub);
        if section_groups(split_char(sub, ':'), allow_v4) is Some {
            assert(gs@ + section_groups(split_char(sub, ':'), allow_v4).unwrap() =~= section_groups(
                split_char(sub, ':'),
                allow_v4,
            ).unwrap());
        }
    }
    while !done
        invariant
            lo <= pos <= hi <= cs@.len(),
            sub == cs@.subrange(lo as int, hi as int),
            target == section_groups(split_char(sub, ':'), allow_v4),
            !done ==> ({
                let rest = cs@.subrange(pos as int, hi as int);
                match section_groups(split_char(rest, ':'), allow_v4) {
                    Some(t) => target == Some(gs@ + t),
                    None => target is None,
                }
            }),
            done ==> target == Some(gs@),
        decreases hi - pos, (if done {
            0int
        } else {
            1int
        }),
    {
        let ghost rest = cs@.subrange(pos as int, hi as int);
        let ghost parts = split_char(rest, ':');
        match find_char(cs, pos, hi, ':') {
            Some(k) => {
                // an inner part must be a plain hexadecimal group
                let ghost p0 = rest.subrange(0, k - pos);
                let ghost rest2 = cs@.subrange(k + 1, hi as int);
                proof {
                    assert(parts == seq![p0] + split_char(
                        rest.subrange(k - pos + 1, rest.len() as int),
                        ':',
                    ));
                    assert(rest.subrange(k - pos + 1, rest.len() as int) =~= rest2);
                    assert(p0 =~= cs@.subrange(pos as int, k as int));
                    lemma_split_nonempty(rest2, ':');
                    assert(parts.len() >= 2);
                    assert(parts.first() == p0);
                    assert(parts.drop_first() =~= split_char(rest2, ':'));
                }
                if k == pos || k - pos > 4 || !range_all_hex(cs, pos, k) {
                    proof {
                        assert(!group_ok(p0));
                        assert(section_groups(parts, allow_v4) is None);
                    }
                    return None;
                }
                proof {
                    lemma_hex_val_bound(p0);
                    lemma_powh_small();
                    assert(powh(p0.len()) <= 0x10000);
                }
                let v = hex_value_capped(cs, pos, k);
                gs.push(v as u16);
                pos = k + 1;
                proof {
                    match section_groups(split_char(rest2, ':'), allow_v4) {
                        Some(t2) => {
                            assert(section_groups(parts, allow_v4) == Some(seq![hex_val(p0) as u16] + t2));
                            assert(gs@ + t2 =~= gs@.drop_last() + (seq![hex_val(p0) as u16] + t2));
                        },
                        None => {
                            assert(section_groups(parts, allow_v4) is None);
                        },
                    }
                }
            },
            None => {
                // the final part: hexadecimal group, or a dotted quad
                proof {
                    assert(parts == seq![rest]);
                    assert(parts.first() == rest);
                    assert(parts.len() == 1);
                    assert(parts.drop_first() =~= Seq::<Seq<char>>::empty());
                    assert(rest =~= cs@.subrange(pos as int, hi as int));
                }
                let dot = find_char(cs, pos, hi, '.');
                match dot {
                    Some(kd) => {
                        proof {
                            lemma_first_index_bounds(rest, '.');
                            assert(rest[kd - pos] == '.');
                            assert(rest.contains('.'));
                        }
                        if !allow_v4 {
                            proof {
                                assert(!group_ok(rest)) by {
                                    assert(rest[kd - pos] == '.');
                                    assert(!crate::text::is_hex_char('.'));
                                }
                                assert(section_groups(parts, allow_v4) is None);
                            }
                            return None;
                        }
                        match parse_ipv4_range(cs, pos, hi) {
                            Some(a) => {
                                gs.push((a / 0x10000) as u16);
                                gs.push((a % 0x10000) as u16);
                                done = true;
                                proof {
                                    assert(section_groups(parts, allow_v4) == Some(seq![
                                        (a as int / 0x10000) as u16,
                                        (a as int % 0x10000) as u16,
                                    ]));
                                    assert(gs@ =~= gs@.subrange(0, gs@.len() - 2) + seq![
                                        (a as int / 0x10000) as u16,
                                        (a as int % 0x10000) as u16,
                                    ]);
                                }
                            },
                            None => {
                                proof {
                                    assert(section_groups(parts, allow_v4) is None);
                                }
                                return None;
                            },
                        }
                    },
                    None => {
                        proof {
                            lemma_first_index_bounds(rest, '.');
                            assert(!rest.contains('.')) by {
                                if rest.contains('.') {
                                    let j = choose|j: int|
                                        0 <= j < rest.len() && rest[j] == '.';
                                    assert(rest[j] == '.');
                                }
                            }
                        }
                        if pos == hi || hi - pos > 4 || !range_all_hex(cs, pos, hi) {
                            proof {
                                assert(!group_ok(rest));
                                assert(section_groups(parts, allow_v4) is None);
                            }
                            return None;
                        }
                        proof {
                            lemma_hex_val_bound(rest);
                            lemma_powh_small();
                            assert(powh(rest.len()) <= 0x10000);
                        }
                        let v = hex_value_capped(cs, pos, hi);
                        gs.push(v as u16);
                        done = true;
                        proof {
                            assert(group_ok(rest));
                            assert(!rest.contains('.'));
                            assert(section_groups(parts.drop_first(), allow_v4) == Some(
                                Seq::<u16>::empty(),
                            ));
                            assert(section_groups(parts, allow_v4) == Some(
                                seq![hex_val(rest) as u16] + Seq::<u16>::empty(),
                            ));
                            assert(seq![hex_val(rest) as u16] + Seq::<u16>::empty() =~= seq![
                                hex_val(rest) as u16,
                            ]);
                            assert(gs@ =~= gs@.drop_last() + seq![hex_val(rest) as u16]);
                        }
                    },
                }
            },
        }
    }
    Some(gs)
}

proof fn lemma_pow16_small()
    ensures
        pow16(0) == 1,
        pow16(1) == 0x10000,
        pow16(2) == 0x100000000,
        pow16(3) == 0x1000000000000,
        pow16(4) == 0x10000000000000000,
        pow16(5) == 0x100000000000000000000,
        pow16(6) == 0x1000000000000000000000000,
        pow16(7) == 0x10000000000000000000000000000,
        pow16(8) == 0x100000000000000000000000000000000,
{
    assert(pow16(0) == 1);
    assert(pow16(1) == 0x10000);
    assert(pow16(2) == 0x100000000);
    assert(pow16(3) == 0x1000000000000);
    assert(pow16(4) == 0x10000000000000000);
    assert(pow16(5) == 0x100000000000000000000);
    assert(pow16(6) == 0x1000000000000000000000000);
    assert(pow16(7) == 0x10000000000000000000000000000);
    assert(pow16(8) == 0x100000000000000000000000000000000);
}

/// The 128-bit value of an eight-group sequence.
fn combine_groups(gs: &Vec<u16>) -> (r: u128)
    requires
        gs@.len() == 8,
    ensures
        r as int == combine16(gs@),
{
    let mut acc: u128 = 0;
    let mut i: usize = 0;
    proof {
        assert(gs@.subrange(0, 0) =~= Seq::<u16>::empty());
    }
    while i < 8
        invariant
            i <= 8,
            gs@.len() == 8,
            acc as int == combine16(gs@.subrange(0, i as int)),
        decreases 8 - i,
    {
        proof {
            lemma_combine16_bound(gs@.subrange(0, i as int));
            lemma_pow16_small();
            assert(pow16(i as nat) <= pow16(7));
        }
        let g = gs[i];
        acc = acc * 0x10000 + (g as u128);
        i = i + 1;
        proof {
            let cur = gs@.subrange(0, i as int);
            assert(cur.drop_last() =~= gs@.subrange(0, i - 1));
            assert(cur.last() == g);
        }
    }
    proof {
        assert(gs@.subrange(0, 8) =~= gs@);
    }
    acc
}

/// Parses sixteen-octet notation in `cs[lo..hi]`.
pub fn parse_ipv6_range(cs: &Vec<char>, lo: usize, hi: usize) -> (r: Option<u128>)
    requires
        lo <= hi <= cs@.len(),
    ensures
        r == ipv6_val(cs@.subrange(lo as int, hi as int)),
{
    let ghost s = cs@.subrange(lo as int, hi as int);
    // locate the first adjacent colon pair
    let mut dc: Option<usize> = None;
    let mut i = lo;
    while dc.is_none() && hi - i > 1
        invariant
            lo <= i <= hi <= cs@.len(),
            s == cs@.subrange(lo as int, hi as int),
            match dc {
                Some(k) => lo <= k && k + 1 < hi && cs@[k as int] == ':' && cs@[k + 1] == ':'
                    && forall|j: int|
                    lo <= j < k ==> !((#[trigger] cs@[j]) == ':' && cs@[j + 1] == ':'),
                None => forall|j: int|
                    lo <= j < i ==> !((#[trigger] cs@[j]) == ':' && cs@[j + 1] == ':'),
            },
        decreases hi - i, (if dc.is_none() {
            1int
        } else {
            0int
        }),
    {
        if cs[i] == ':' && cs[i + 1] == ':' {
            dc = Some(i);
        } else {
            i = i + 1;
        }
    }
    proof {
        lemma_find_dc_bounds(s);
        match dc {
            Some(k) => {
                assert(s[k - lo] == ':' && s[k - lo + 1] == ':');
                assert forall|j: int| 0 <= j < k - lo implies !((#[trigger] s[j]) == ':' && s[j + 1]
                    == ':') by {
                    assert(s[j] == cs@[lo + j] && s[j + 1] == cs@[lo + j + 1]);
                }
                if find_dc(s) is None {
                    assert(false);
                } else {
                    let k0 = find_dc(s).unwrap();
                    if k0 < k - lo {
                        assert(s[k0] == ':' && s[k0 + 1] == ':');
                        assert(false);
                    }
                    if k0 > k - lo {
                        assert(!(s[k - lo] == ':' && s[k - lo + 1] == ':'));
                        assert(false);
                    }
                }
                assert(find_dc(s) == Some(k - lo));
            },
            None => {
                assert forall|j: int| 0 <= j < s.len() - 1 implies !((#[trigger] s[j]) == ':' && s[j
                    + 1] == ':') by {
                    assert(s[j] == cs@[lo + j] && s[j + 1] == cs@[lo + j + 1]);
                }
                if find_dc(s) is Some {
                    let k0 = find_dc(s).unwrap();
                    assert(s[k0] == ':' && s[k0 + 1] == ':');
                    assert(false);
                }
            },
        }
    }
    match dc {
        None => {
            // no compressed run: exactly eight groups
            match parse_section(cs, lo, hi, true) {
                Some(gs) => {
                    if gs.len() == 8 {
                        Some(combine_groups(&gs))
                    } else {
                        None
                    }
                },
                None => None,
            }
        },
        Some(k) => {
            let ghost left = s.subrange(0, k - lo);
            let ghost right = s.subrange(k - lo + 2, s.len() as int);
            proof {
                assert(left =~= cs@.subrange(lo as int, k as int));
                assert(right =~= cs@.subrange(k + 2, hi as int));
            }
            let lg: Vec<u16> = if k == lo {
                proof {
                    assert(left.len() == 0);
                }
                Vec::new()
            } else {
                match parse_section(cs, lo, k, false) {
                    Some(v) => v,
                    None => {
                        return None;
                    },
                }
            };
            let rg: Vec<u16> = if k + 2 == hi {
                proof {
                    assert(right.len() == 0);
                }
                Vec::new()
            } else {
                match parse_section(cs, k + 2, hi, true) {
                    Some(v) => v,
                    None => {
                        return None;
                    },
                }
            };
            proof {
                if k == lo {
                    assert(section_groups(Seq::<Seq<char>>::empty(), false) == Some(
                        Seq::<u16>::empty(),
                    ));
                }
                if k + 2 == hi {
                    assert(section_groups(Seq::<Seq<char>>::empty(), true) == Some(
                        Seq::<u16>::empty(),
                    ));
                }
            }
            if lg.len() > 7 || rg.len() > 7 || lg.len() + rg.len() > 7 {
                return None;
            }
            let zeros = 8 - lg.len() - rg.len();
            let mut full = lg;
            let ghost lgs = full@;
            let mut z: usize = 0;
            while z < zeros
                invariant
                    z <= zeros,
                    full@ =~= lgs + Seq::new(z as nat, |t: int| 0u16),
                decreases zeros - z,
            {
                full.push(0);
                z = z + 1;
                proof {
                    assert(full@ =~= lgs + Seq::new(z as nat, |t: int| 0u16));
                }
            }
            let mut j: usize = 0;
            let ghost mid = full@;
            while j < rg.len()
                invariant
                    j <= rg@.len(),
                    full@ =~= mid + rg@.subrange(0, j as int),
                decreases rg@.len() - j,
            {
                full.push(rg[j]);
                j = j + 1;
                proof {
                    assert(full@ =~= mid + rg@.subrange(0, j as int));
                }
            }
            proof {
                assert(rg@.subrange(0, rg@.len() as int) =~= rg@);
                assert(full@ =~= lgs + Seq::new((8 - lgs.len() - rg@.len()) as nat, |t: int| 0u16)
                    + rg@);
            }
            Some(combine_groups(&full))
        },
    }
}

// ---------------------------------------------------------------------------
// Sixteen-octet notation: rendering
// ---------------------------------------------------------------------------
/// Group `i` (big-endian, 0 to 7) of a 128-bit value.
pub open spec fn group_of(a: u128, i: int) -> u16 {
    ((a as int / pow16((7 - i) as nat)) % 0x10000) as u16
}

/// The eight groups of a 128-bit value, big-endian.
pub open spec fn groups_of(a: u128) -> Seq<u16> {
    Seq::new(8, |i: int| group_of(a, i))
}

/// The length of the zero-group run starting at `i`.
pub open spec fn zero_run_len(gs: Seq<u16>, i: int) -> int
    decreases gs.len() - i when i <= gs.len()
{
    if i < 0 || i >= gs.len() || gs[i] != 0 {
        0
    } else {
        1 + zero_run_len(gs, i + 1)
    }
}

/// The start and length of the leftmost longest zero-group run in
/// `gs[i..]`.
pub open spec fn best_run_from(gs: Seq<u16>, i: int) -> (int, int)
    decreases gs.len() - i when i <= gs.len()
{
    if i >= gs.len() {
        (gs.len() as int, 0int)
    } else {
        let cur = zero_run_len(gs, i);
        let best = best_run_from(gs, i + 1);
        if cur >= best.1 {
            (i, cur)
        } else {
            best
        }
    }
}

/// Hexadecimal groups joined with single colons.
pub open spec fn join_hex(gs: Seq<u16>) -> Seq<char>
    decreases gs.len(),
{
    if gs.len() == 0 {
        Seq::empty()
    } else if gs.len() == 1 {
        hex_of(gs[0] as int)
    } else {
        hex_of(gs[0] as int) + seq![':'] + join_hex(gs.drop_first())
    }
}

/// Whether the value lies in the block reserved for mapped four-octet
/// addresses.
pub open spec fn is_v4_mapped(a: u128) -> bool {
    a as int / 0x100000000 == 0xffff
}

/// The canonical rendering: lower-case hexadecimal groups, the
/// leftmost longest zero run of length at least two compressed to an
/// adjacent colon pair, mapped four-octet addresses shown as a dotted
/// quad behind the mapping prefix.
pub open spec fn ipv6_text(a: u128) -> Seq<char> {
    if is_v4_mapped(a) {
        seq![':', ':', 'f', 'f', 'f', 'f', ':'] + ipv4_text(a as int % 0x100000000)
    } else {
        let gs = groups_of(a);
        let best = best_run_from(gs, 0);
        if best.1 >= 2 {
            join_hex(gs.subrange(0, best.0)) + seq![':', ':'] + join_hex(
                gs.subrange(best.0 + best.1, 8),
            )
        } else {
            join_hex(gs)
        }
    }
}

proof fn lemma_zero_run_le(gs: Seq<u16>, i: int)
    requires
        0 <= i <= gs.len(),
    ensures
        0 <= zero_run_len(gs, i) <= gs.len() - i,
    decreases gs.len() - i,
{
    if i < gs.len() && gs[i] == 0 {
        lemma_zero_run_le(gs, i + 1);
    }
}

proof fn lemma_best_run_props(gs: Seq<u16>, i: int)
    requires
        0 <= i <= gs.len(),
    ensures
        i <= best_run_from(gs, i).0 <= gs.len(),
        0 <= best_run_from(gs, i).1,
        best_run_from(gs, i).0 + best_run_from(gs, i).1 <= gs.len(),
    decreases gs.len() - i,
{
    if i < gs.len() {
        lemma_zero_run_le(gs, i);
        lemma_best_run_props(gs, i + 1);
    }
}

proof fn lemma_join_hex_push(gs: Seq<u16>, g: u16)
    ensures
        join_hex(gs.push(g)) == (if gs.len() == 0 {
            hex_of(g as int)
        } else {
            join_hex(gs) + seq![':'] + hex_of(g as int)
        }),
    decreases gs.len(),
{
    let p = gs.push(g);
    if gs.len() == 0 {
        assert(p.len() == 1);
        assert(p[0] == g);
    } else {
        assert(p.len() >= 2);
        assert(p[0] == gs[0]);
        assert(p.drop_first() =~= gs.drop_first().push(g));
        lemma_join_hex_push(gs.drop_first(), g);
        if gs.len() == 1 {
            assert(gs.drop_first().len() == 0);
            assert(join_hex(p) == hex_of(gs[0] as int) + seq![':'] + hex_of(g as int));
            assert(join_hex(gs) == hex_of(gs[0] as int));
        } else {
            assert(join_hex(p) == hex_of(gs[0] as int) + seq![':'] + (join_hex(gs.drop_first())
                + seq![':'] + hex_of(g as int)));
            assert(join_hex(gs) == hex_of(gs[0] as int) + seq![':'] + join_hex(gs.drop_first()));
            assert(join_hex(p) =~= join_hex(gs) + seq![':'] + hex_of(g as int));
        }
    }
}

fn pow16_exec(k: usize) -> (r: u128)
    requires
        k < 8,
    ensures
        r as int == pow16(k as nat),
{
    proof {
        lemma_pow16_small();
    }
    match k {
        0 => 1,
        1 => 0x10000,
        2 => 0x100000000,
        3 => 0x1000000000000,
        4 => 0x10000000000000000,
        5 => 0x100000000000000000000,
        6 => 0x1000000000000000000000000,
        _ => 0x10000000000000000000000000000,
    }
}

/// The eight groups of a 128-bit value.
fn groups_exec(a: u128) -> (r: Vec<u16>)
    ensures
        r@ =~= groups_of(a),
        r@.len() == 8,
{
    let mut r: Vec<u16> = Vec::new();
    let mut i: usize = 0;
    while i < 8
        invariant
            i <= 8,
            r@.len() == i,
            forall|t: int| 0 <= t < i ==> r@[t] == group_of(a, t),
        decreases 8 - i,
    {
        let p = pow16_exec(7 - i);
        proof {
            lemma_pow16_small();
        }
        let g = ((a / p) % 0x10000) as u16;
        r.push(g);
        i = i + 1;
    }
    proof {
        assert(r@ =~= groups_of(a));
    }
    r
}

/// Joins `gs[lo..hi]` with single colons.
fn join_groups(gs: &Vec<u16>, lo: usize, hi: usize) -> (r: String)
    requires
        lo <= hi <= gs@.len(),
    ensures
        r@ == join_hex(gs@.subrange(lo as int, hi as int)),
{
    let mut s = String::new();
    let mut i = lo;
    proof {
        assert(gs@.subrange(lo as int, lo as int) =~= Seq::<u16>::empty());
    }
    while i < hi
        invariant
            lo <= i <= hi <= gs@.len(),
            s@ == join_hex(gs@.subrange(lo as int, i as int)),
        decreases hi - i,
    {
        let g = gs[i];
        if i > lo {
            s.append(":");
            proof {
                reveal_strlit(":");
                assert(":"@ =~= seq![':']);
            }
        }
        let h = crate::text::fmt_hex_u16(g);
        s.append(h.as_str());
        proof {
            let prev = gs@.subrange(lo as int, i as int);
            let cur = gs@.subrange(lo as int, i + 1);
            assert(cur =~= prev.push(g));
            lemma_join_hex_push(prev, g);
            if i == lo {
                assert(s@ =~= join_hex(cur));
            } else {
                assert(s@ =~= join_hex(cur));
            }
        }
        i = i + 1;
    }
    s
}

/// Renders a 128-bit address value in canonical form.
pub fn format_ipv6(a: u128) -> (r: String)
    ensures
        r@ == ipv6_text(a),
{
    if a / 0x100000000 == 0xffff {
        let mut s = String::new();
        s.append("::ffff:");
        let quad = format_ipv4((a % 0x100000000) as u32);
        s.append(quad.as_str());
        proof {
            reveal_strlit("::ffff:");
            assert("::ffff:"@ =~= seq![':', ':', 'f', 'f', 'f', 'f', ':']);
            assert(s@ =~= ipv6_text(a));
        }
        s
    } else {
        let gs = groups_exec(a);
        // leftmost longest zero run, computed from the right
        let mut bs: usize = 8;
        let mut bl: usize = 0;
        let mut rl: usize = 0;
        let mut i: usize = 8;
        proof {
            assert(best_run_from(gs@, 8) == (8int, 0int));
            assert(zero_run_len(gs@, 8) == 0);
        }
        while i > 0
            invariant
                i <= 8,
                gs@.len() == 8,
                bs <= 8,
                bl <= 8,
                rl <= 8,
                bs + bl <= 8,
                rl as int == zero_run_len(gs@, i as int),
                best_run_from(gs@, i as int) == (bs as int, bl as int),
            decreases i,
        {
            i = i - 1;
            if gs[i] != 0 {
                rl = 0;
            } else {
                rl = rl + 1;
            }
            proof {
                assert(rl as int == zero_run_len(gs@, i as int));
                lemma_zero_run_le(gs@, i as int);
            }
            if rl >= bl {
                bs = i;
                bl = rl;
            }
            proof {
                assert(best_run_from(gs@, i as int) == (bs as int, bl as int));
                lemma_best_run_props(gs@, i as int);
            }
        }
        if bl >= 2 {
            let mut s = join_groups(&gs, 0, bs);
            s.append("::");
            let tail = join_groups(&gs, bs + bl, 8);
            s.append(tail.as_str());
            proof {
                reveal_strlit("::");
                assert("::"@ =~= seq![':', ':']);
                assert(s@ =~= ipv6_text(a));
            }
            s
        } else {
            let s = join_groups(&gs, 0, 8);
            proof {
                assert(gs@.subrange(0, 8) =~= gs@);
                assert(s@ =~= ipv6_text(a));
            }
            s
        }
    }
}

// ---------------------------------------------------------------------------
// Literals
// ---------------------------------------------------------------------------
/// The address denoted by a literal, dotted-quad notation tried first.
pub open spec fn ip_literal(s: Seq<char>) -> Option<IpAddress> {
    match ipv4_val(s) {
        Some(a) => Some(IpAddress::V4(a)),
        None => match ipv6_val(s) {
            Some(b) => Some(IpAddress::V6(b)),
            None => None,
        },
    }
}

/// The canonical rendering of an address.
pub open spec fn ip_text(ip: IpAddress) -> Seq<char> {
    match ip {
        IpAddress::V4(a) => ipv4_text(a as int),
        IpAddress::V6(b) => ipv6_text(b),
    }
}

/// Parses an address literal from `cs[lo..hi]`.
pub fn parse_ip_range(cs: &Vec<char>, lo: usize, hi: usize) -> (r: Option<IpAddress>)
    requires
        lo <= hi <= cs@.len(),
    ensures
        r == ip_literal(cs@.subrange(lo as int, hi as int)),
{
    match parse_ipv4_range(cs, lo, hi) {
        Some(a) => Some(IpAddress::V4(a)),
        None => match parse_ipv6_range(cs, lo, hi) {
            Some(b) => Some(IpAddress::V6(b)),
            None => None,
        },
    }
}

/// Parses an address literal.
pub fn parse_ip(s: &str) -> (r: Option<IpAddress>)
    ensures
        r == ip_literal(s@),
{
    let cs = crate::text::chars_vec(s);
    let n = cs.len();
    let r = parse_ip_range(&cs, 0, n);
    proof {
        assert(cs@.subrange(0, n as int) =~= s@);
    }
    r
}

/// Renders an address canonically.
pub fn format_ip(ip: &IpAddress) -> (r: String)
    ensures
        r@ == ip_text(*ip),
{
    match ip {
        IpAddress::V4(a) => format_ipv4(*a),
        IpAddress::V6(b) => format_ipv6(*b),
    }
}

} // verus!
