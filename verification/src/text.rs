use vstd::prelude::*;

verus! {

// ---------------------------------------------------------------------------
// Character classes
// ---------------------------------------------------------------------------
/// A decimal digit.
pub open spec fn is_digit_char(c: char) -> bool {
    48 <= c as int && c as int <= 57
}

/// The numeric value of a decimal digit.
pub open spec fn digit_of(c: char) -> int {
    c as int - 48
}

/// An ASCII whitespace character as recognised around tokens.
pub open spec fn is_space_char(c: char) -> bool {
    c as int == 32 || c as int == 9 || c as int == 10 || c as int == 13
}

/// A hexadecimal digit, either case.
pub open spec fn is_hex_char(c: char) -> bool {
    is_digit_char(c) || (97 <= c as int && c as int <= 102) || (65 <= c as int && c as int <= 70)
}

/// The numeric value of a hexadecimal digit.
pub open spec fn hexdigit_of(c: char) -> int {
    if is_digit_char(c) {
        c as int - 48
    } else if 97 <= c as int && c as int <= 102 {
        c as int - 97 + 10
    } else {
        c as int - 65 + 10
    }
}

pub open spec fn all_digits(s: Seq<char>) -> bool {
    forall|i: int| 0 <= i < s.len() ==> is_digit_char(#[trigger] s[i])
}

pub open spec fn all_hex(s: Seq<char>) -> bool {
    forall|i: int| 0 <= i < s.len() ==> is_hex_char(#[trigger] s[i])
}

// ---------------------------------------------------------------------------
// Numeric value of a digit string
// ---------------------------------------------------------------------------
/// The value of a decimal digit string (0 for the empty string).
pub open spec fn dec_val(s: Seq<char>) -> int
    decreases s.len(),
{
    if s.len() == 0 {
        0
    } else {
        dec_val(s.drop_last()) * 10 + digit_of(s.last())
    }
}

/// The value of a hexadecimal digit string (0 for the empty string).
pub open spec fn hex_val(s: Seq<char>) -> int
    decreases s.len(),
{
    if s.len() == 0 {
        0
    } else {
        hex_val(s.drop_last()) * 16 + hexdigit_of(s.last())
    }
}

pub proof fn lemma_dec_val_nonneg(s: Seq<char>)
    requires
        all_digits(s),
    ensures
        dec_val(s) >= 0,
    decreases s.len(),
{
    if s.len() > 0 {
        assert(all_digits(s.drop_last()));
        lemma_dec_val_nonneg(s.drop_last());
    }
}

pub proof fn lemma_hex_val_nonneg(s: Seq<char>)
    requires
        all_hex(s),
    ensures
        hex_val(s) >= 0,
    decreases s.len(),
{
    if s.len() > 0 {
        assert(all_hex(s.drop_last()));
        lemma_hex_val_nonneg(s.drop_last());
    }
}

// ---------------------------------------------------------------------------
// Decimal and hexadecimal renderings of a number
// ---------------------------------------------------------------------------
/// The decimal digit character for a value in [0, 9].
pub open spec fn digit_char(d: int) -> char {
    if d == 0 {
        '0'
    } else if d == 1 {
        '1'
    } else if d == 2 {
        '2'
    } else if d == 3 {
        '3'
    } else if d == 4 {
        '4'
    } else if d == 5 {
        '5'
    } else if d == 6 {
        '6'
    } else if d == 7 {
        '7'
    } else if d == 8 {
        '8'
    } else {
        '9'
    }
}

/// The lower-case hexadecimal digit character for a value in [0, 15].
pub open spec fn hexdigit_char(d: int) -> char {
    if d < 10 {
        digit_char(d)
    } else if d == 10 {
        'a'
    } else if d == 11 {
        'b'
    } else if d == 12 {
        'c'
    } else if d == 13 {
        'd'
    } else if d == 14 {
        'e'
    } else {
        'f'
    }
}

/// The usual decimal rendering of a non-negative number, without
/// leading zeros.
pub open spec fn dec_of(n: int) -> Seq<char>
    decreases n,
{
    if n < 10 {
        seq![digit_char(n)]
    } else {
        dec_of(n / 10).push(digit_char(n % 10))
    }
}

/// The lower-case hexadecimal rendering of a non-negative number,
/// without leading zeros.
pub open spec fn hex_of(n: int) -> Seq<char>
    decreases n,
{
    if n < 16 {
        seq![hexdigit_char(n)]
    } else {
        hex_of(n / 16).push(hexdigit_char(n % 16))
    }
}

fn digit_str(d: u64) -> (r: &'static str)
    requires
        d < 10,
    ensures
        r@ == seq![digit_char(d as int)],
{
    let r = match d {
        0 => "0",
        1 => "1",
        2 => "2",
        3 => "3",
        4 => "4",
        5 => "5",
        6 => "6",
        7 => "7",
        8 => "8",
        _ => "9",
    };
    proof {
        reveal_strlit("0");
        reveal_strlit("1");
        reveal_strlit("2");
        reveal_strlit("3");
        reveal_strlit("4");
        reveal_strlit("5");
        reveal_strlit("6");
        reveal_strlit("7");
        reveal_strlit("8");
        reveal_strlit("9");
        assert(r@ =~= seq![digit_char(d as int)]);
    }
    r
}

fn hexdigit_str(d: u64) -> (r: &'static str)
    requires
        d < 16,
    ensures
        r@ == seq![hexdigit_char(d as int)],
{
    if d < 10 {
        digit_str(d)
    } else {
        let r = match d {
            10 => "a",
            11 => "b",
            12 => "c",
            13 => "d",
            14 => "e",
            _ => "f",
        };
        proof {
            reveal_strlit("a");
            reveal_strlit("b");
            reveal_strlit("c");
            reveal_strlit("d");
            reveal_strlit("e");
            reveal_strlit("f");
            assert(r@ =~= seq![hexdigit_char(d as int)]);
        }
        r
    }
}

/// Renders a number in decimal.
pub fn fmt_u64(n: u64) -> (r: String)
    ensures
        r@ == dec_of(n as int),
    decreases n,
{
    if n < 10 {
        digit_str(n).to_owned()
    } else {
        let mut s = fmt_u64(n / 10);
        s.append(digit_str(n % 10));
        proof {
            assert(s@ =~= dec_of(n as int));
        }
        s
    }
}

/// Renders a number in lower-case hexadecimal.
pub fn fmt_hex_u16(n: u16) -> (r: String)
    ensures
        r@ == hex_of(n as int),
    decreases n,
{
    if n < 16 {
        hexdigit_str(n as u64).to_owned()
    } else {
        let mut s = fmt_hex_u16(n / 16);
        s.append(hexdigit_str((n % 16) as u64));
        proof {
            assert(s@ =~= hex_of(n as int));
        }
        s
    }
}

// ---------------------------------------------------------------------------
// Exec helpers over character vectors
// ---------------------------------------------------------------------------
/// Materialises the characters of a string slice.
pub fn chars_vec(s: &str) -> (r: Vec<char>)
    ensures
        r@ == s@,
{
    let n = s.unicode_len();
    let mut r: Vec<char> = Vec::new();
    let mut i: usize = 0;
    while i < n
        invariant
            n == s@.len(),
            i <= n,
            r@ =~= s@.subrange(0, i as int),
        decreases n - i,
    {
        r.push(s.get_char(i));
        i = i + 1;
        proof {
            assert(r@ =~= s@.subrange(0, i as int));
        }
    }
    proof {
        assert(r@ =~= s@);
    }
    r
}

/// Whether every character in `cs[lo..hi]` is a decimal digit.
pub fn range_all_digits(cs: &Vec<char>, lo: usize, hi: usize) -> (b: bool)
    requires
        lo <= hi <= cs@.len(),
    ensures
        b == all_digits(cs@.subrange(lo as int, hi as int)),
{
    let mut i = lo;
    while i < hi
        invariant
            lo <= i <= hi <= cs@.len(),
            forall|j: int| lo <= j < i ==> is_digit_char(#[trigger] cs@[j]),
        decreases hi - i,
    {
        let c = cs[i];
        if !('0' <= c && c <= '9') {
            proof {
                assert(cs@.subrange(lo as int, hi as int)[i - lo] == cs@[i as int]);
            }
            return false;
        }
        i = i + 1;
    }
    proof {
        assert forall|k: int| 0 <= k < hi - lo implies is_digit_char(
            #[trigger] cs@.subrange(lo as int, hi as int)[k],
        ) by {
            assert(cs@.subrange(lo as int, hi as int)[k] == cs@[lo + k]);
        }
    }
    true
}

/// Whether every character in `cs[lo..hi]` is a hexadecimal digit.
pub fn range_all_hex(cs: &Vec<char>, lo: usize, hi: usize) -> (b: bool)
    requires
        lo <= hi <= cs@.len(),
    ensures
        b == all_hex(cs@.subrange(lo as int, hi as int)),
{
    let mut i = lo;
    while i < hi
        invariant
            lo <= i <= hi <= cs@.len(),
            forall|j: int| lo <= j < i ==> is_hex_char(#[trigger] cs@[j]),
        decreases hi - i,
    {
        let c = cs[i];
        if !(('0' <= c && c <= '9') || ('a' <= c && c <= 'f') || ('A' <= c && c <= 'F')) {
            proof {
                assert(cs@.subrange(lo as int, hi as int)[i - lo] == cs@[i as int]);
            }
            return false;
        }
        i = i + 1;
    }
    proof {
        assert forall|k: int| 0 <= k < hi - lo implies is_hex_char(
            #[trigger] cs@.subrange(lo as int, hi as int)[k],
        ) by {
            assert(cs@.subrange(lo as int, hi as int)[k] == cs@[lo + k]);
        }
    }
    true
}

/// The value of the decimal digit string `cs[lo..hi]`, saturated at
/// 1000000 so that any in-range value is reported exactly.
pub fn dec_value_capped(cs: &Vec<char>, lo: usize, hi: usize) -> (r: u32)
    requires
        lo <= hi <= cs@.len(),
        all_digits(cs@.subrange(lo as int, hi as int)),
    ensures
        dec_val(cs@.subrange(lo as int, hi as int)) <= 1000000 ==> r == dec_val(
            cs@.subrange(lo as int, hi as int),
        ),
        dec_val(cs@.subrange(lo as int, hi as int)) > 1000000 ==> r == 1000000 + 1,
{
    let ghost whole = cs@.subrange(lo as int, hi as int);
    let mut acc: u32 = 0;
    let mut i = lo;
    proof {
        assert(cs@.subrange(lo as int, lo as int) =~= Seq::<char>::empty());
    }
    while i < hi
        invariant
            lo <= i <= hi <= cs@.len(),
            whole == cs@.subrange(lo as int, hi as int),
            all_digits(whole),
            ({
                let v = dec_val(cs@.subrange(lo as int, i as int));
                (v <= 1000000 && acc == v) || (v > 1000000 && acc == 1000001)
            }),
        decreases hi - i,
    {
        let ghost prev = cs@.subrange(lo as int, i as int);
        let c = cs[i];
        proof {
            assert(whole[i - lo] == cs@[i as int]);
            assert(is_digit_char(c));
            lemma_dec_val_nonneg(prev);
        }
        let d: u32 = (c as u32) - 48;
        let t: u32 = acc * 10 + d;
        acc = if t > 1000000 {
            1000001
        } else {
            t
        };
        i = i + 1;
        proof {
            let cur = cs@.subrange(lo as int, i as int);
            assert(cur.drop_last() =~= prev);
            assert(cur.last() == c);
            assert(dec_val(cur) == dec_val(prev) * 10 + digit_of(c));
        }
    }
    proof {
        assert(cs@.subrange(lo as int, i as int) =~= whole);
    }
    acc
}

/// The value of the hexadecimal digit string `cs[lo..hi]`, saturated at
/// 1048576 so that any in-range value is reported exactly.
pub fn hex_value_capped(cs: &Vec<char>, lo: usize, hi: usize) -> (r: u32)
    requires
        lo <= hi <= cs@.len(),
        all_hex(cs@.subrange(lo as int, hi as int)),
    ensures
        hex_val(cs@.subrange(lo as int, hi as int)) <= 1048576 ==> r == hex_val(
            cs@.subrange(lo as int, hi as int),
        ),
        hex_val(cs@.subrange(lo as int, hi as int)) > 1048576 ==> r == 1048576 + 1,
{
    let ghost whole = cs@.subrange(lo as int, hi as int);
    let mut acc: u32 = 0;
    let mut i = lo;
    proof {
        assert(cs@.subrange(lo as int, lo as int) =~= Seq::<char>::empty());
    }
    while i < hi
        invariant
            lo <= i <= hi <= cs@.len(),
            whole == cs@.subrange(lo as int, hi as int),
            all_hex(whole),
            ({
                let v = hex_val(cs@.subrange(lo as int, i as int));
                (v <= 1048576 && acc == v) || (v > 1048576 && acc == 1048577)
            }),
        decreases hi - i,
    {
        let ghost prev = cs@.subrange(lo as int, i as int);
        let c = cs[i];
        proof {
            assert(whole[i - lo] == cs@[i as int]);
            assert(is_hex_char(c));
            lemma_hex_val_nonneg(prev);
        }
        let u = c as u32;
        let d: u32 = if 48 <= u && u <= 57 {
            u - 48
        } else if 97 <= u && u <= 102 {
            u - 97 + 10
        } else {
            u - 65 + 10
        };
        let t: u32 = acc * 16 + d;
        acc = if t > 1048576 {
            1048577
        } else {
            t
        };
        i = i + 1;
        proof {
            let cur = cs@.subrange(lo as int, i as int);
            assert(cur.drop_last() =~= prev);
            assert(cur.last() == c);
            assert(hex_val(cur) == hex_val(prev) * 16 + hexdigit_of(c));
        }
    }
    proof {
        assert(cs@.subrange(lo as int, i as int) =~= whole);
    }
    acc
}

// ---------------------------------------------------------------------------
// Trimming
// ---------------------------------------------------------------------------
/// The string with ASCII whitespace removed from both ends.
pub open spec fn trim_spec(s: Seq<char>) -> Seq<char>
    decreases s.len(),
{
    if s.len() == 0 {
        s
    } else if is_space_char(s.first()) {
        trim_spec(s.drop_first())
    } else if is_space_char(s.last()) {
        trim_spec(s.drop_last())
    } else {
        s
    }
}

proof fn lemma_trim_spec_bounds(s: Seq<char>, lo: int, hi: int)
    requires
        0 <= lo <= hi <= s.len(),
        forall|i: int| 0 <= i < lo ==> is_space_char(#[trigger] s[i]),
        forall|i: int| hi <= i < s.len() ==> is_space_char(#[trigger] s[i]),
        lo < hi ==> !is_space_char(s[lo]) && !is_space_char(s[hi - 1]),
    ensures
        trim_spec(s) == s.subrange(lo, hi),
    decreases s.len(),
{
    if s.len() == 0 {
        assert(trim_spec(s) =~= s.subrange(lo, hi));
    } else if is_space_char(s.first()) {
        let s1 = s.drop_first();
        if lo == 0 {
            // then lo == hi, and the whole string is whitespace
            assert(lo == hi);
            assert(forall|i: int| 0 <= i < s1.len() ==> is_space_char(#[trigger] s1[i]));
            lemma_trim_spec_bounds(s1, 0, 0);
            assert(trim_spec(s) =~= s.subrange(lo, hi));
        } else {
            assert(forall|i: int| 0 <= i < lo - 1 ==> is_space_char(#[trigger] s1[i]));
            assert(forall|i: int| hi - 1 <= i < s1.len() ==> is_space_char(#[trigger] s1[i]));
            lemma_trim_spec_bounds(s1, lo - 1, hi - 1);
            assert(s1.subrange(lo - 1, hi - 1) =~= s.subrange(lo, hi));
        }
    } else if is_space_char(s.last()) {
        let s1 = s.drop_last();
        if hi == s.len() {
            assert(lo < hi ==> !is_space_char(s[hi - 1]));
            assert(lo == hi);
            assert(lo == s.len());
            assert(is_space_char(s[0]));
            assert(false);
        } else {
            assert(forall|i: int| hi <= i < s1.len() ==> is_space_char(#[trigger] s1[i]));
            lemma_trim_spec_bounds(s1, lo, hi);
            assert(s1.subrange(lo, hi) =~= s.subrange(lo, hi));
        }
    } else {
        assert(lo == 0 && hi == s.len());
        assert(trim_spec(s) =~= s.subrange(lo, hi));
    }
}

/// Whether `c` is an ASCII whitespace character.
pub fn is_space(c: char) -> (b: bool)
    ensures
        b == is_space_char(c),
{
    c == ' ' || c == '\t' || c == '\n' || c == '\r'
}

/// Narrows `[lo, hi)` to the bounds of the trimmed substring.
pub fn trim_range(cs: &Vec<char>, lo: usize, hi: usize) -> (r: (usize, usize))
    requires
        lo <= hi <= cs@.len(),
    ensures
        lo <= r.0 <= r.1 <= hi,
        trim_spec(cs@.subrange(lo as int, hi as int)) == cs@.subrange(r.0 as int, r.1 as int),
{
    let ghost s = cs@.subrange(lo as int, hi as int);
    let mut a = lo;
    while a < hi && is_space(cs[a])
        invariant
            lo <= a <= hi <= cs@.len(),
            forall|i: int| lo <= i < a ==> is_space_char(#[trigger] cs@[i]),
        decreases hi - a,
    {
        a = a + 1;
    }
    let mut b = hi;
    while b > a && is_space(cs[b - 1])
        invariant
            a <= b <= hi <= cs@.len(),
            forall|i: int| b <= i < hi ==> is_space_char(#[trigger] cs@[i]),
        decreases b,
    {
        b = b - 1;
    }
    proof {
        assert(forall|i: int| 0 <= i < a - lo ==> is_space_char(#[trigger] s[i]));
        assert(forall|i: int| b - lo <= i < s.len() ==> is_space_char(#[trigger] s[i]));
        lemma_trim_spec_bounds(s, a - lo, b - lo);
        assert(s.subrange(a - lo, b - lo) =~= cs@.subrange(a as int, b as int));
    }
    (a, b)
}

// ---------------------------------------------------------------------------
// Finding a character
// ---------------------------------------------------------------------------
/// The index of the first occurrence of `c` in `s`, if any.
pub open spec fn first_index_of(s: Seq<char>, c: char) -> Option<int>
    decreases s.len(),
{
    if s.len() == 0 {
        None
    } else if s.first() == c {
        Some(0int)
    } else {
        match first_index_of(s.drop_first(), c) {
            Some(i) => Some(i + 1),
            None => None,
        }
    }
}

pub proof fn lemma_first_index_some(s: Seq<char>, c: char, k: int)
    requires
        0 <= k < s.len(),
        s[k] == c,
        forall|j: int| 0 <= j < k ==> s[j] != c,
    ensures
        first_index_of(s, c) == Some(k),
    decreases s.len(),
{
    if k == 0 {
    } else {
        let s1 = s.drop_first();
        assert(forall|j: int| 0 <= j < k - 1 ==> s1[j] != c);
        lemma_first_index_some(s1, c, k - 1);
    }
}

pub proof fn lemma_first_index_none(s: Seq<char>, c: char)
    requires
        forall|j: int| 0 <= j < s.len() ==> s[j] != c,
    ensures
        first_index_of(s, c) is None,
    decreases s.len(),
{
    if s.len() > 0 {
        let s1 = s.drop_first();
        lemma_first_index_none(s1, c);
    }
}

/// Both directions of the `first_index_of` characterisation.
pub proof fn lemma_first_index_bounds(s: Seq<char>, c: char)
    ensures
        match first_index_of(s, c) {
            Some(k) => 0 <= k < s.len() && s[k] == c && forall|j: int| 0 <= j < k ==> s[j] != c,
            None => forall|j: int| 0 <= j < s.len() ==> s[j] != c,
        },
    decreases s.len(),
{
    if s.len() > 0 && s.first() != c {
        let s1 = s.drop_first();
        lemma_first_index_bounds(s1, c);
        assert(forall|j: int| 1 <= j < s.len() ==> s[j] == s1[j - 1]);
        match first_index_of(s1, c) {
            Some(k) => {
                assert(first_index_of(s, c) == Some(k + 1));
                assert(s[k + 1] == s1[k]);
                assert forall|j: int| 0 <= j < k + 1 implies s[j] != c by {
                    if j >= 1 {
                        assert(s[j] == s1[j - 1]);
                    }
                }
            },
            None => {
                assert forall|j: int| 0 <= j < s.len() implies s[j] != c by {
                    if j >= 1 {
                        assert(s[j] == s1[j - 1]);
                    }
                }
            },
        }
    }
}

/// Finds the first occurrence of `c` in `cs[from..to]`.
pub fn find_char(cs: &Vec<char>, from: usize, to: usize, c: char) -> (r: Option<usize>)
    requires
        from <= to <= cs@.len(),
    ensures
        match r {
            Some(k) => from <= k < to && first_index_of(cs@.subrange(from as int, to as int), c)
                == Some(k - from),
            None => first_index_of(cs@.subrange(from as int, to as int), c) is None,
        },
{
    let ghost s = cs@.subrange(from as int, to as int);
    let mut i = from;
    while i < to
        invariant
            from <= i <= to <= cs@.len(),
            s == cs@.subrange(from as int, to as int),
            forall|j: int| from <= j < i ==> cs@[j] != c,
        decreases to - i,
    {
        if cs[i] == c {
            proof {
                assert(s[i - from] == cs@[i as int]);
                assert(forall|j: int| 0 <= j < i - from ==> s[j] != c);
                lemma_first_index_some(s, c, i - from);
            }
            return Some(i);
        }
        i = i + 1;
    }
    proof {
        assert(forall|j: int| 0 <= j < s.len() ==> s[j] != c);
        lemma_first_index_none(s, c);
    }
    None
}


/// The parts of `s` separated by `c`, in order (one part, possibly
/// empty, when `c` does not occur).
pub open spec fn split_char(s: Seq<char>, c: char) -> Seq<Seq<char>>
    decreases s.len(),
    via split_char_decreases
{
    match first_index_of(s, c) {
        Some(k) => seq![s.subrange(0, k)] + split_char(s.subrange(k + 1, s.len() as int), c),
        None => seq![s],
    }
}

#[via_fn]
proof fn split_char_decreases(s: Seq<char>, c: char) {
    lemma_first_index_bounds(s, c);
}

} // verus!
