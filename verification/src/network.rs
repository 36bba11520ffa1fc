use vstd::prelude::*;

use crate::error::ScanError;
use crate::ip::{ip_literal, parse_ip_range, IpAddress};
use vstd::arithmetic::div_mod::{
    lemma_div_denominator, lemma_fundamental_div_mod, lemma_mod_breakdown, lemma_mod_mod,
};
use vstd::arithmetic::power2::{
    lemma2_to64, lemma_pow2_adds, lemma_pow2_pos, lemma_pow2_strictly_increases, lemma_pow2_unfold,
    pow2,
};
use crate::text::{
    all_digits, chars_vec, dec_val, dec_value_capped, find_char, first_index_of,
    lemma_first_index_bounds, range_all_digits, split_char, trim_range, trim_spec,
};

verus! {

// ---------------------------------------------------------------------------
// The port-specification grammar
// ---------------------------------------------------------------------------
/// The comma-separated parts of a specification string, in order.
pub open spec fn comma_split(s: Seq<char>) -> Seq<Seq<char>> {
    split_char(s, ',')
}

/// The inclusive port range denoted by one token: a single decimal
/// port stands for itself, `start-end` for the inclusive range.
/// ASCII whitespace around the token is ignored.  `None` for a
/// malformed token, an out-of-range value, or an inverted range.
pub open spec fn token_range(tok: Seq<char>) -> Option<(u16, u16)> {
    let t = trim_spec(tok);
    match first_index_of(t, '-') {
        Some(k) => {
            let left = t.subrange(0, k);
            let right = t.subrange(k + 1, t.len() as int);
            if right.contains('-') {
                None
            } else if left.len() > 0 && all_digits(left) && dec_val(left) <= 65535 && right.len()
                > 0 && all_digits(right) && dec_val(right) <= 65535 && dec_val(left) <= dec_val(
                right,
            ) {
                Some((dec_val(left) as u16, dec_val(right) as u16))
            } else {
                None
            }
        },
        None => {
            if t.len() > 0 && all_digits(t) && dec_val(t) <= 65535 {
                Some((dec_val(t) as u16, dec_val(t) as u16))
            } else {
                None
            }
        },
    }
}

/// The ranges denoted by a sequence of tokens, or `None` if any token
/// is malformed.
pub open spec fn tokens_ranges(parts: Seq<Seq<char>>) -> Option<Seq<(u16, u16)>>
    decreases parts.len(),
{
    if parts.len() == 0 {
        Some(Seq::empty())
    } else {
        match (token_range(parts.first()), tokens_ranges(parts.drop_first())) {
            (Some(r), Some(rest)) => Some(seq![r] + rest),
            _ => None,
        }
    }
}

/// The ranges denoted by a whole specification string.
pub open spec fn port_spec_ranges(s: Seq<char>) -> Option<Seq<(u16, u16)>> {
    tokens_ranges(comma_split(s))
}

/// Whether some range of the specification covers port `p`.
pub open spec fn port_covered(ranges: Seq<(u16, u16)>, p: u16) -> bool {
    exists|i: int| 0 <= i < ranges.len() && (#[trigger] ranges[i]).0 <= p && p <= ranges[i].1
}

// ---------------------------------------------------------------------------
// Parsing
// ---------------------------------------------------------------------------
fn parse_token(cs: &Vec<char>, lo: usize, hi: usize) -> (r: Option<(u16, u16)>)
    requires
        lo <= hi <= cs@.len(),
    ensures
        r == token_range(cs@.subrange(lo as int, hi as int)),
{
    let ghost tok = cs@.subrange(lo as int, hi as int);
    let (a, b) = trim_range(cs, lo, hi);
    let ghost t = trim_spec(tok);
    proof {
        assert(t == cs@.subrange(a as int, b as int));
    }
    match find_char(cs, a, b, '-') {
        Some(k) => {
            let ghost left = t.subrange(0, k - a);
            let ghost right = t.subrange(k - a + 1, t.len() as int);
            proof {
                assert(left =~= cs@.subrange(a as int, k as int));
                assert(right =~= cs@.subrange(k + 1, b as int));
            }
            // a second dash makes the token malformed
            match find_char(cs, k + 1, b, '-') {
                Some(k2) => {
                    proof {
                        lemma_first_index_bounds(cs@.subrange(k + 1, b as int), '-');
                        assert(right[k2 - (k + 1)] == '-');
                        assert(right.contains('-'));
                    }
                    None
                },
                None => {
                    proof {
                        lemma_first_index_bounds(cs@.subrange(k + 1, b as int), '-');
                        assert(!right.contains('-'));
                    }
                    if_range_token(cs, a, k, b)
                },
            }
        },
        None => {
            if a == b {
                None
            } else if !range_all_digits(cs, a, b) {
                None
            } else {
                let v = dec_value_capped(cs, a, b);
                proof {
                    crate::text::lemma_dec_val_nonneg(t);
                }
                if v <= 65535 {
                    Some((v as u16, v as u16))
                } else {
                    None
                }
            }
        },
    }
}

/// The dashed-token case: digits on both sides of the dash at `k`.
fn if_range_token(cs: &Vec<char>, a: usize, k: usize, b: usize) -> (r: Option<(u16, u16)>)
    requires
        a <= k < b <= cs@.len(),
    ensures
        ({
            let left = cs@.subrange(a as int, k as int);
            let right = cs@.subrange(k + 1, b as int);
            r == (if left.len() > 0 && all_digits(left) && dec_val(left) <= 65535 && right.len()
                > 0 && all_digits(right) && dec_val(right) <= 65535 && dec_val(left) <= dec_val(
                right,
            ) {
                Some((dec_val(left) as u16, dec_val(right) as u16))
            } else {
                None::<(u16, u16)>
            })
        }),
{
    let ghost left = cs@.subrange(a as int, k as int);
    let ghost right = cs@.subrange(k + 1, b as int);
    if a == k {
        return None;
    }
    if !range_all_digits(cs, a, k) {
        return None;
    }
    if k + 1 == b {
        return None;
    }
    if !range_all_digits(cs, k + 1, b) {
        return None;
    }
    proof {
        crate::text::lemma_dec_val_nonneg(left);
        crate::text::lemma_dec_val_nonneg(right);
    }
    let lv = dec_value_capped(cs, a, k);
    let rv = dec_value_capped(cs, k + 1, b);
    if lv <= 65535 && rv <= 65535 && lv <= rv {
        Some((lv as u16, rv as u16))
    } else {
        None
    }
}

fn covered_exec(ranges: &Vec<(u16, u16)>, p: u16) -> (b: bool)
    ensures
        b == port_covered(ranges@, p),
{
    let n = ranges.len();
    let mut i: usize = 0;
    while i < n
        invariant
            i <= n == ranges@.len(),
            forall|j: int| 0 <= j < i ==> !((#[trigger] ranges@[j]).0 <= p && p <= ranges@[j].1),
        decreases n - i,
    {
        let (lo, hi) = ranges[i];
        if lo <= p && p <= hi {
            return true;
        }
        i = i + 1;
    }
    false
}

/// Parses a port specification: comma-separated tokens, each a single
/// decimal port or an inclusive dashed range, into the ascending,
/// duplicate-free list of all ports covered by some token.
pub fn parse_port_range(ports_str: &str) -> (r: Result<Vec<u16>, ScanError>)
    ensures
        match r {
            Ok(v) => {
                &&& port_spec_ranges(ports_str@) is Some
                &&& forall|i: int, j: int| 0 <= i < j < v@.len() ==> v@[i] < v@[j]
                &&& forall|p: u16|
                    #[trigger] v@.contains(p) <==> port_covered(
                        port_spec_ranges(ports_str@).unwrap(),
                        p,
                    )
            },
            Err(e) => port_spec_ranges(ports_str@) is None && e == ScanError::PortParseError,
        },
{
    let cs = chars_vec(ports_str);
    let ghost total = cs@;
    let n = cs.len();
    let mut ranges: Vec<(u16, u16)> = Vec::new();
    let mut pos: usize = 0;
    let mut done = false;
    proof {
        assert(total.subrange(0, n as int) =~= total);
        assert(Seq::<(u16, u16)>::empty() + tokens_ranges(comma_split(total)).unwrap_or(
            Seq::empty(),
        ) =~= tokens_ranges(comma_split(total)).unwrap_or(Seq::empty()));
    }
    while !done
        invariant
            pos <= n == total.len(),
            total == cs@,
            total == ports_str@,
            !done ==> ({
                let rest = total.subrange(pos as int, n as int);
                match tokens_ranges(comma_split(rest)) {
                    Some(t) => port_spec_ranges(total) == Some(ranges@ + t),
                    None => port_spec_ranges(total) is None,
                }
            }),
            done ==> port_spec_ranges(total) == Some(ranges@),
        decreases n - pos, (if done {
            0int
        } else {
            1int
        }),
    {
        let ghost rest = total.subrange(pos as int, n as int);
        let comma = find_char(&cs, pos, n, ',');
        let end = match comma {
            Some(k) => k,
            None => n,
        };
        let tok = parse_token(&cs, pos, end);
        proof {
            assert(cs@.subrange(pos as int, end as int) =~= rest.subrange(0, end - pos));
        }
        match comma {
            Some(k) => {
                let ghost rest2 = total.subrange(k + 1, n as int);
                proof {
                    assert(first_index_of(rest, ',') == Some(k - pos));
                    assert(comma_split(rest) == seq![rest.subrange(0, k - pos)] + comma_split(
                        rest.subrange(k - pos + 1, rest.len() as int),
                    ));
                    assert(rest.subrange(k - pos + 1, rest.len() as int) =~= rest2);
                    let parts = comma_split(rest);
                    assert(parts.first() == rest.subrange(0, k - pos));
                    assert(parts.drop_first() =~= comma_split(rest2));
                }
                match tok {
                    Some(rg) => {
                        ranges.push(rg);
                        pos = k + 1;
                        proof {
                            match tokens_ranges(comma_split(rest2)) {
                                Some(t2) => {
                                    assert(tokens_ranges(comma_split(rest)) == Some(
                                        seq![rg] + t2,
                                    ));
                                    assert(ranges@ + t2 =~= (ranges@.drop_last() + (seq![rg]
                                        + t2)));
                                },
                                None => {
                                    assert(tokens_ranges(comma_split(rest)) is None);
                                },
                            }
                        }
                    },
                    None => {
                        proof {
                            assert(comma_split(rest).first() == rest.subrange(0, k - pos));
                            assert(token_range(comma_split(rest).first()) is None);
                            assert(comma_split(rest).len() > 0);
                            assert(tokens_ranges(comma_split(rest)) is None);
                            assert(port_spec_ranges(total) is None);
                            assert(port_spec_ranges(ports_str@) is None);
                        }
                        return Err(ScanError::PortParseError);
                    },
                }
            },
            None => {
                proof {
                    assert(comma_split(rest) == seq![rest]);
                    assert(rest.subrange(0, end - pos) =~= rest);
                    let parts = comma_split(rest);
                    assert(parts.first() == rest);
                    assert(parts.drop_first() =~= Seq::<Seq<char>>::empty());
                    assert(tokens_ranges(parts.drop_first()) == Some(Seq::<(u16, u16)>::empty()));
                }
                match tok {
                    Some(rg) => {
                        ranges.push(rg);
                        done = true;
                        proof {
                            assert(tokens_ranges(comma_split(rest)) == Some(seq![rg] + Seq::<(
                                u16,
                                u16,
                            )>::empty()));
                            assert(ranges@ =~= ranges@.drop_last() + (seq![rg] + Seq::<(
                                u16,
                                u16,
                            )>::empty()));
                        }
                    },
                    None => {
                        proof {
                            assert(token_range(comma_split(rest).first()) is None);
                            assert(comma_split(rest).len() > 0);
                            assert(tokens_ranges(comma_split(rest)) is None);
                            assert(port_spec_ranges(total) is None);
                            assert(port_spec_ranges(ports_str@) is None);
                        }
                        return Err(ScanError::PortParseError);
                    },
                }
            },
        }
    }
    let ghost all = port_spec_ranges(total).unwrap();
    proof {
        assert(all == ranges@);
    }
    // expand to the ascending duplicate-free port list
    let mut out: Vec<u16> = Vec::new();
    let mut p: u32 = 0;
    while p <= 65535
        invariant
            p <= 65536,
            all == ranges@,
            port_spec_ranges(ports_str@) == Some(all),
            forall|i: int, j: int| 0 <= i < j < out@.len() ==> out@[i] < out@[j],
            forall|i: int| 0 <= i < out@.len() ==> ((#[trigger] out@[i]) as int) < p,
            forall|q: u16|
                (#[trigger] out@.contains(q)) <==> ((q as int) < p && port_covered(all, q)),
        decreases 65536 - p,
    {
        let ghost before = out@;
        if covered_exec(&ranges, p as u16) {
            out.push(p as u16);
        }
        proof {
            assert forall|q: u16| #[trigger] out@.contains(q) <==> ((q as int) < p + 1
                && port_covered(all, q)) by {
                if out@.contains(q) {
                    let i = choose|i: int| 0 <= i < out@.len() && out@[i] == q;
                    if i < before.len() {
                        assert(before[i] == q);
                        assert(before.contains(q));
                    } else {
                        assert(q == p as u16);
                    }
                }
                if (q as int) < p + 1 && port_covered(all, q) {
                    if (q as int) < p {
                        assert(before.contains(q));
                        let i = choose|i: int| 0 <= i < before.len() && before[i] == q;
                        assert(out@[i] == q);
                    } else {
                        assert(q as int == p);
                        assert(out@.last() == q);
                    }
                }
            }
        }
        p = p + 1;
    }
    proof {
        assert forall|q: u16| #[trigger] out@.contains(q) <==> port_covered(all, q) by {
            assert((q as int) < 65536);
        }
    }
    Ok(out)
}

// ---------------------------------------------------------------------------
// Stock port lists
// ---------------------------------------------------------------------------
/// The short list of commonly probed ports.
pub fn get_common_ports() -> (r: Vec<u16>)
    ensures
        r@ == seq![
            21u16,
            22u16,
            23u16,
            25u16,
            53u16,
            80u16,
            110u16,
            111u16,
            135u16,
            139u16,
            143u16,
            443u16,
            993u16,
            995u16,
            1723u16,
            3306u16,
            3389u16,
            5432u16,
            5900u16,
            8080u16,
        ],
{
    let v: Vec<u16> = vec![
        21, 22, 23, 25, 53, 80, 110, 111, 135, 139, 143, 443, 993, 995, 1723, 3306, 3389, 5432,
        5900, 8080,
    ];
    proof {
        assert(v@ =~= seq![
            21u16,
            22u16,
            23u16,
            25u16,
            53u16,
            80u16,
            110u16,
            111u16,
            135u16,
            139u16,
            143u16,
            443u16,
            993u16,
            995u16,
            1723u16,
            3306u16,
            3389u16,
            5432u16,
            5900u16,
            8080u16,
        ]);
    }
    v
}

/// Every port from 1 to 65535, ascending.
pub fn get_all_ports() -> (r: Vec<u16>)
    ensures
        r@.len() == 65535,
        forall|i: int| 0 <= i < r@.len() ==> ((#[trigger] r@[i]) as int) == i + 1,
{
    let mut v: Vec<u16> = Vec::new();
    let mut p: u32 = 1;
    while p <= 65535
        invariant
            1 <= p <= 65536,
            v@.len() == p - 1,
            forall|i: int| 0 <= i < v@.len() ==> ((#[trigger] v@[i]) as int) == i + 1,
        decreases 65536 - p,
    {
        v.push(p as u16);
        p = p + 1;
    }
    v
}

// ---------------------------------------------------------------------------
// Address blocks
// ---------------------------------------------------------------------------
/// The address and prefix length denoted by block notation
/// `address/prefix`, if well-formed.
pub open spec fn cidr_parse(s: Seq<char>) -> Option<(IpAddress, int)> {
    match first_index_of(s, '/') {
        None => None,
        Some(k) => {
            let addr = s.subrange(0, k);
            let pfx = s.subrange(k + 1, s.len() as int);
            if pfx.len() > 0 && all_digits(pfx) {
                match ip_literal(addr) {
                    Some(ip) => {
                        let bits: int = match ip {
                            IpAddress::V4(_) => 32,
                            IpAddress::V6(_) => 128,
                        };
                        if dec_val(pfx) <= bits {
                            Some((ip, dec_val(pfx)))
                        } else {
                            None
                        }
                    },
                    None => None,
                }
            } else {
                None
            }
        },
    }
}

/// Whether the address is the base of its block: every bit below the
/// prefix is zero.
pub open spec fn host_bits_zero(ip: IpAddress, pfx: int) -> bool {
    match ip {
        IpAddress::V4(a) => a as int % pow2((32 - pfx) as nat) as int == 0,
        IpAddress::V6(b) => b as int % pow2((128 - pfx) as nat) as int == 0,
    }
}

/// A block is accepted exactly when it parses and is given by its base
/// address.
pub open spec fn cidr_ok(s: Seq<char>) -> bool {
    match cidr_parse(s) {
        Some((ip, pfx)) => host_bits_zero(ip, pfx),
        None => false,
    }
}

/// Whether expansion stops short of the block: the block is larger
/// than the fixed cap of its family (65536 four-octet addresses, 1024
/// sixteen-octet addresses).
pub open spec fn cidr_truncated(ip: IpAddress, pfx: int) -> bool {
    match ip {
        IpAddress::V4(_) => 32 - pfx >= 17,
        IpAddress::V6(_) => 128 - pfx >= 11,
    }
}

/// How many addresses expansion yields: the block size, capped per
/// family.
pub open spec fn cidr_count(ip: IpAddress, pfx: int) -> int {
    match ip {
        IpAddress::V4(_) => if 32 - pfx >= 17 {
            0x10000
        } else {
            pow2((32 - pfx) as nat) as int
        },
        IpAddress::V6(_) => if 128 - pfx >= 11 {
            0x400
        } else {
            pow2((128 - pfx) as nat) as int
        },
    }
}

/// The addresses of the block, ascending from the base address.
pub open spec fn cidr_addresses(ip: IpAddress, pfx: int) -> Seq<IpAddress> {
    match ip {
        IpAddress::V4(a) => Seq::new(
            cidr_count(ip, pfx) as nat,
            |i: int| IpAddress::V4((a as int + i) as u32),
        ),
        IpAddress::V6(b) => Seq::new(
            cidr_count(ip, pfx) as nat,
            |i: int| IpAddress::V6((b as int + i) as u128),
        ),
    }
}

/// 2 to the power `k` for small `k`.
fn pow2_small(k: usize) -> (r: u64)
    requires
        k <= 16,
    ensures
        r as int == pow2(k as nat) as int,
{
    proof {
        lemma2_to64();
    }
    let mut r: u64 = 1;
    let mut j: usize = 0;
    while j < k
        invariant
            j <= k <= 16,
            r as int == pow2(j as nat) as int,
        decreases k - j,
    {
        proof {
            lemma_pow2_strictly_increases(j as nat, 16);
            lemma2_to64();
            assert(pow2((j + 1) as nat) == 2 * pow2(j as nat)) by {
                lemma_pow2_unfold((j + 1) as nat);
            }
        }
        r = r * 2;
        j = j + 1;
    }
    r
}

/// Whether the low `k` bits of `a` are all zero.
fn low_bits_zero_u128(a: u128, k: usize) -> (b: bool)
    requires
        k <= 128,
    ensures
        b == (a as int % pow2(k as nat) as int == 0),
{
    let mut x = a;
    let mut j: usize = 0;
    proof {
        assert(pow2(0) == 1) by {
            lemma2_to64();
        }
    }
    while j < k
        invariant
            j <= k,
            x as int == a as int / pow2(j as nat) as int,
            a as int % pow2(j as nat) as int == 0,
        decreases k - j,
    {
        let ghost pj = pow2(j as nat) as int;
        proof {
            lemma_pow2_pos(j as nat);
            lemma_pow2_unfold((j + 1) as nat);
            lemma_mod_breakdown(a as int, pj, 2);
        }
        if x % 2 == 1 {
            proof {
                // the (j+1)-bit remainder is pj, so no higher power divides a
                assert(a as int % pj == 0);
                assert(x as int == a as int / pj);
                assert(x as int % 2 == 1);
                assert((a as int / pj) % 2 == 1);
                assert(a as int % (pj * 2) == pj * ((a as int / pj) % 2) + a as int % pj);
                assert(pj * ((a as int / pj) % 2) == pj) by (nonlinear_arith)
                    requires
                        (a as int / pj) % 2 == 1,
                ;
                assert(a as int % (pj * 2) == pj);
                assert(pow2((j + 1) as nat) as int == pj * 2);
                lemma_pow2_adds((j + 1) as nat, (k - j - 1) as nat);
                lemma_pow2_pos((j + 1) as nat);
                lemma_pow2_pos((k - j - 1) as nat);
                let pk1 = pow2((k - j - 1) as nat) as int;
                lemma_mod_mod(a as int, pj * 2, pk1);
                assert(pow2((j + 1) as nat) * pow2((k - j - 1) as nat) == pow2(k as nat));
                assert(pow2(k as nat) as int == (pj * 2) * pk1);
                if a as int % pow2(k as nat) as int == 0 {
                    assert(a as int % ((pj * 2) * pk1) == 0);
                    assert((a as int % ((pj * 2) * pk1)) % (pj * 2) == a as int % (pj * 2));
                    assert((pj * 2) * pk1 > 0);
                    assert(0int % (pj * 2) == 0);
                    assert(a as int % (pj * 2) == 0);
                    assert(false);
                }
            }
            return false;
        }
        proof {
            assert(a as int % (pj * 2) == 0);
            assert(pow2((j + 1) as nat) as int == pj * 2);
            lemma_div_denominator(a as int, pj, 2);
        }
        x = x / 2;
        j = j + 1;
    }
    true
}

/// A block base stays a block base when the whole block is added: the
/// next multiple of `d` below `p` leaves room for `d` more.
proof fn lemma_block_fits(a: int, d: int, p: int)
    requires
        0 <= a < p,
        d > 0,
        a % d == 0,
        p % d == 0,
    ensures
        a + d <= p,
{
    lemma_fundamental_div_mod(a, d);
    lemma_fundamental_div_mod(p, d);
    assert(a / d < p / d) by (nonlinear_arith)
        requires
            d > 0,
            a == d * (a / d),
            p == d * (p / d),
            a < p,
    ;
    assert(a + d <= p) by (nonlinear_arith)
        requires
            a == d * (a / d),
            p == d * (p / d),
            a / d < p / d,
            d > 0,
    ;
}

/// Parses and expands block notation in `cs[lo..hi]`.
fn cidr_expand(cs: &Vec<char>, lo: usize, hi: usize) -> (r: Result<(Vec<IpAddress>, bool), ScanError>)
    requires
        lo <= hi <= cs@.len(),
    ensures
        ({
            let s = cs@.subrange(lo as int, hi as int);
            match r {
                Ok(p) => cidr_ok(s) && p.0@ == cidr_addresses(
                    cidr_parse(s).unwrap().0,
                    cidr_parse(s).unwrap().1,
                ) && p.1 == cidr_truncated(cidr_parse(s).unwrap().0, cidr_parse(s).unwrap().1),
                Err(e) => !cidr_ok(s) && e == ScanError::ResolutionError,
            }
        }),
{
    let ghost s = cs@.subrange(lo as int, hi as int);
    let k = match find_char(cs, lo, hi, '/') {
        Some(k) => k,
        None => {
            return Err(ScanError::ResolutionError);
        },
    };
    let ghost addr = s.subrange(0, k - lo);
    let ghost pfx = s.subrange(k - lo + 1, s.len() as int);
    proof {
        assert(addr =~= cs@.subrange(lo as int, k as int));
        assert(pfx =~= cs@.subrange(k + 1, hi as int));
    }
    if k + 1 == hi {
        return Err(ScanError::ResolutionError);
    }
    if !range_all_digits(cs, k + 1, hi) {
        return Err(ScanError::ResolutionError);
    }
    proof {
        crate::text::lemma_dec_val_nonneg(pfx);
    }
    let pv = dec_value_capped(cs, k + 1, hi);
    let ip = match parse_ip_range(cs, lo, k) {
        Some(ip) => ip,
        None => {
            return Err(ScanError::ResolutionError);
        },
    };
    match ip {
        IpAddress::V4(a) => {
            if pv > 32 {
                return Err(ScanError::ResolutionError);
            }
            let hostbits: usize = 32 - (pv as usize);
            if !low_bits_zero_u128(a as u128, hostbits) {
                return Err(ScanError::ResolutionError);
            }
            let truncated = hostbits >= 17;
            let count: u64 = if truncated {
                65536
            } else {
                pow2_small(hostbits)
            };
            proof {
                lemma2_to64();
                lemma_pow2_adds((pv as usize) as nat, hostbits as nat);
                lemma_pow2_pos(hostbits as nat);
                let d = pow2(hostbits as nat) as int;
                assert(0x100000000int % d == 0) by (nonlinear_arith)
                    requires
                        0x100000000int == (pow2((pv as usize) as nat) as int) * d,
                        d > 0,
                ;
                if truncated {
                    lemma_pow2_strictly_increases(16, hostbits as nat);
                }
                lemma_block_fits(a as int, d, 0x100000000);
                assert(a as int + count <= 0x100000000);
                assert(count as int == cidr_count(ip, pv as int));
            }
            let mut v: Vec<IpAddress> = Vec::new();
            let mut i: u64 = 0;
            while i < count
                invariant
                    i <= count,
                    a as int + count <= 0x100000000,
                    v@ =~= Seq::new(i as nat, |t: int| IpAddress::V4((a as int + t) as u32)),
                decreases count - i,
            {
                v.push(IpAddress::V4(((a as u64) + i) as u32));
                i = i + 1;
                proof {
                    assert(v@ =~= Seq::new(i as nat, |t: int| IpAddress::V4((a as int + t) as u32)));
                }
            }
            proof {
                assert(v@ =~= cidr_addresses(ip, pv as int));
            }
            Ok((v, truncated))
        },
        IpAddress::V6(b) => {
            if pv > 128 {
                return Err(ScanError::ResolutionError);
            }
            let hostbits: usize = 128 - (pv as usize);
            if !low_bits_zero_u128(b, hostbits) {
                return Err(ScanError::ResolutionError);
            }
            let truncated = hostbits >= 11;
            let count: u64 = if truncated {
                1024
            } else {
                pow2_small(hostbits)
            };
            proof {
                lemma2_to64();
                lemma_pow2_adds(64, 64);
                lemma_pow2_adds((pv as usize) as nat, hostbits as nat);
                lemma_pow2_pos(hostbits as nat);
                let p128 = pow2(128) as int;
                assert(p128 == 0x100000000000000000000000000000000);
                let d = pow2(hostbits as nat) as int;
                assert(p128 % d == 0) by (nonlinear_arith)
                    requires
                        p128 == (pow2((pv as usize) as nat) as int) * d,
                        d > 0,
                ;
                if truncated {
                    lemma_pow2_strictly_increases(10, hostbits as nat);
                }
                lemma_block_fits(b as int, d, p128);
                assert(b as int + count <= p128);
                assert(count as int == cidr_count(ip, pv as int));
            }
            let mut v: Vec<IpAddress> = Vec::new();
            let mut i: u64 = 0;
            while i < count
                invariant
                    i <= count,
                    b as int + count <= 0x100000000000000000000000000000000,
                    v@ =~= Seq::new(i as nat, |t: int| IpAddress::V6((b as int + t) as u128)),
                decreases count - i,
            {
                v.push(IpAddress::V6(b + (i as u128)));
                i = i + 1;
                proof {
                    assert(v@ =~= Seq::new(i as nat, |t: int| IpAddress::V6((b as int + t) as u128)));
                }
            }
            proof {
                assert(v@ =~= cidr_addresses(ip, pv as int));
            }
            Ok((v, truncated))
        },
    }
}

/// Parses and expands an address block, ascending from the base
/// address, capped at 65536 four-octet or 1024 sixteen-octet
/// addresses.
pub fn resolve_cidr(cidr_str: &str) -> (r: Result<Vec<IpAddress>, ScanError>)
    ensures
        match r {
            Ok(v) => cidr_ok(cidr_str@) && v@ == cidr_addresses(
                cidr_parse(cidr_str@).unwrap().0,
                cidr_parse(cidr_str@).unwrap().1,
            ),
            Err(e) => !cidr_ok(cidr_str@) && e == ScanError::ResolutionError,
        },
{
    let cs = chars_vec(cidr_str);
    let n = cs.len();
    proof {
        assert(cs@.subrange(0, n as int) =~= cidr_str@);
    }
    match cidr_expand(&cs, 0, n) {
        Ok(p) => Ok(p.0),
        Err(e) => Err(e),
    }
}

/// What target resolution found without a name lookup.
pub enum Resolution {
    /// Concrete addresses; `truncated` signals that a block was larger
    /// than its family cap and was cut short (a non-fatal advisory).
    Addresses { addrs: Vec<IpAddress>, truncated: bool },
    /// The target is neither a literal address nor a block: it must go
    /// to the name resolver.
    NeedsLookup,
}

/// Classifies and resolves a target string as far as no name lookup is
/// needed: a literal address yields itself; block notation is
/// expanded; anything else is referred to the resolver.
pub fn resolve_target(target: &str) -> (r: Result<Resolution, ScanError>)
    ensures
        match r {
            Ok(res) => match res {
                Resolution::Addresses { addrs, truncated } => match ip_literal(target@) {
                    Some(ip) => addrs@ == seq![ip] && !truncated,
                    None => target@.contains('/') && cidr_ok(target@) && addrs@ == cidr_addresses(
                        cidr_parse(target@).unwrap().0,
                        cidr_parse(target@).unwrap().1,
                    ) && truncated == cidr_truncated(
                        cidr_parse(target@).unwrap().0,
                        cidr_parse(target@).unwrap().1,
                    ),
                },
                Resolution::NeedsLookup => ip_literal(target@) is None && !target@.contains('/'),
            },
            Err(e) => ip_literal(target@) is None && target@.contains('/') && !cidr_ok(target@)
                && e == ScanError::ResolutionError,
        },
{
    let cs = chars_vec(target);
    let n = cs.len();
    proof {
        assert(cs@.subrange(0, n as int) =~= target@);
    }
    match parse_ip_range(&cs, 0, n) {
        Some(ip) => {
            let mut addrs: Vec<IpAddress> = Vec::new();
            addrs.push(ip);
            proof {
                assert(addrs@ =~= seq![ip]);
            }
            Ok(Resolution::Addresses { addrs, truncated: false })
        },
        None => {
            match find_char(&cs, 0, n, '/') {
                Some(k) => {
                    proof {
                        lemma_first_index_bounds(target@, '/');
                        assert(first_index_of(target@, '/') == Some(k as int));
                        assert(target@[k as int] == '/');
                        assert(target@.contains('/'));
                    }
                    match cidr_expand(&cs, 0, n) {
                        Ok(p) => Ok(Resolution::Addresses { addrs: p.0, truncated: p.1 }),
                        Err(e) => Err(e),
                    }
                },
                None => {
                    proof {
                        lemma_first_index_bounds(target@, '/');
                        assert(!target@.contains('/')) by {
                            if target@.contains('/') {
                                let j = choose|j: int|
                                    0 <= j < target@.len() && target@[j] == '/';
                                assert(target@[j] == '/');
                            }
                        }
                    }
                    Ok(Resolution::NeedsLookup)
                },
            }
        },
    }
}

/// Joins the addresses returned by the two family lookups of a
/// hostname: resolution fails only when both lookups came back empty.
pub fn combine_family_lookups(v4: Vec<IpAddress>, v6: Vec<IpAddress>) -> (r: Result<
    Vec<IpAddress>,
    ScanError,
>)
    ensures
        match r {
            Ok(v) => v@ == v4@ + v6@ && v@.len() > 0,
            Err(e) => v4@.len() == 0 && v6@.len() == 0 && e == ScanError::ResolutionError,
        },
{
    if v4.len() == 0 && v6.len() == 0 {
        return Err(ScanError::ResolutionError);
    }
    let mut out = v4;
    let mut rest = v6;
    out.append(&mut rest);
    Ok(out)
}

} // verus!
