//! Hexadecimal and decimal rendering and parsing of integers, as used by
//! the worker-task tags, the status files and the upload-statistics log.

use vstd::prelude::*;

verus! {

/// The character for one hexadecimal digit, lower case.
pub open spec fn hex_digit_lower(d: int) -> char {
    if d == 0 {
        '0'
    } else if d == 1 {
        '1'
    } else if d == 2 {
        '2'
    } else if d == 3 {
        '3'
    } else if d == 4 {
        '4'
    } else if d == 5 {
        '5'
    } else if d == 6 {
        '6'
    } else if d == 7 {
        '7'
    } else if d == 8 {
        '8'
    } else if d == 9 {
        '9'
    } else if d == 10 {
        'a'
    } else if d == 11 {
        'b'
    } else if d == 12 {
        'c'
    } else if d == 13 {
        'd'
    } else if d == 14 {
        'e'
    } else {
        'f'
    }
}

/// The character for one hexadecimal digit, upper case.
pub open spec fn hex_digit_upper(d: int) -> char {
    if d == 10 {
        'A'
    } else if d == 11 {
        'B'
    } else if d == 12 {
        'C'
    } else if d == 13 {
        'D'
    } else if d == 14 {
        'E'
    } else if d == 15 {
        'F'
    } else {
        hex_digit_lower(d)
    }
}

/// The numeric value of a hexadecimal digit character, or 16 for any
/// character that is not one.
pub open spec fn hex_char_value(c: char) -> int {
    if c == '0' {
        0
    } else if c == '1' {
        1
    } else if c == '2' {
        2
    } else if c == '3' {
        3
    } else if c == '4' {
        4
    } else if c == '5' {
        5
    } else if c == '6' {
        6
    } else if c == '7' {
        7
    } else if c == '8' {
        8
    } else if c == '9' {
        9
    } else if c == 'a' || c == 'A' {
        10
    } else if c == 'b' || c == 'B' {
        11
    } else if c == 'c' || c == 'C' {
        12
    } else if c == 'd' || c == 'D' {
        13
    } else if c == 'e' || c == 'E' {
        14
    } else if c == 'f' || c == 'F' {
        15
    } else {
        16
    }
}

pub open spec fn is_hex_char(c: char) -> bool {
    hex_char_value(c) < 16
}

/// Upper-case hexadecimal digits of `v`, without leading zeros
/// (a single `0` for zero).
pub open spec fn hex_min_upper(v: nat) -> Seq<char>
    decreases v,
{
    if v < 16 {
        seq![hex_digit_upper(v as int)]
    } else {
        hex_min_upper(v / 16).push(hex_digit_upper((v % 16) as int))
    }
}

/// `v` in upper-case hexadecimal, zero-padded to at least `width` digits.
pub open spec fn hex_padded_upper(width: nat, v: nat) -> Seq<char> {
    let digits = hex_min_upper(v);
    if digits.len() < width {
        Seq::new((width - digits.len()) as nat, |i: int| '0') + digits
    } else {
        digits
    }
}

/// The value of a sequence of hexadecimal digit characters.
pub open spec fn hex_seq_value(s: Seq<char>) -> int
    decreases s.len(),
{
    if s.len() == 0 {
        0
    } else {
        hex_seq_value(s.drop_last()) * 16 + hex_char_value(s.last())
    }
}

pub open spec fn all_hex_chars(s: Seq<char>) -> bool {
    forall|i: int| 0 <= i < s.len() ==> is_hex_char(s[i])
}

fn hex_char_of_nibble_upper(d: u64) -> (c: char)
    requires
        d < 16,
    ensures
        c == hex_digit_upper(d as int),
{
    match d {
        0 => '0',
        1 => '1',
        2 => '2',
        3 => '3',
        4 => '4',
        5 => '5',
        6 => '6',
        7 => '7',
        8 => '8',
        9 => '9',
        10 => 'A',
        11 => 'B',
        12 => 'C',
        13 => 'D',
        14 => 'E',
        _ => 'F',
    }
}

fn hex_char_of_nibble_lower(d: u8) -> (c: char)
    requires
        d < 16,
    ensures
        c == hex_digit_lower(d as int),
{
    match d {
        0 => '0',
        1 => '1',
        2 => '2',
        3 => '3',
        4 => '4',
        5 => '5',
        6 => '6',
        7 => '7',
        8 => '8',
        9 => '9',
        10 => 'a',
        11 => 'b',
        12 => 'c',
        13 => 'd',
        14 => 'e',
        _ => 'f',
    }
}

/// Append the minimal upper-case hexadecimal rendering of `v`.
pub fn push_hex_min_upper(out: &mut Vec<char>, v: u64)
    ensures
        final(out)@ == old(out)@ + hex_min_upper(v as nat),
    decreases v,
{
    if v < 16 {
        out.push(hex_char_of_nibble_upper(v));
        assert(old(out)@.push(hex_digit_upper(v as int)) =~= old(out)@ + hex_min_upper(v as nat));
    } else {
        push_hex_min_upper(out, v / 16);
        out.push(hex_char_of_nibble_upper(v % 16));
        assert((old(out)@ + hex_min_upper((v / 16) as nat)).push(
            hex_digit_upper((v % 16) as int),
        ) =~= old(out)@ + hex_min_upper(v as nat));
    }
}

/// Number of digits in the minimal hexadecimal rendering.
pub open spec fn hex_min_len(v: nat) -> nat
    decreases v,
{
    if v < 16 {
        1
    } else {
        hex_min_len(v / 16) + 1
    }
}

pub open spec fn hex_pow(k: nat) -> nat
    decreases k,
{
    if k == 0 {
        1
    } else {
        16 * hex_pow((k - 1) as nat)
    }
}

proof fn lemma_hex_min_len_bound(v: nat, k: nat)
    requires
        k >= 1,
        v < hex_pow(k),
    ensures
        hex_min_len(v) <= k,
    decreases k,
{
    if v >= 16 {
        assert(hex_pow(k) == 16 * hex_pow((k - 1) as nat));
        assert(v / 16 < hex_pow((k - 1) as nat)) by (nonlinear_arith)
            requires
                v < 16 * hex_pow((k - 1) as nat),
        ;
        lemma_hex_min_len_bound(v / 16, (k - 1) as nat);
    }
}

proof fn lemma_hex_min_len_u64(v: nat)
    requires
        v <= u64::MAX,
    ensures
        hex_min_len(v) <= 16,
{
    assert(hex_pow(0) == 1);
    assert(hex_pow(1) == 16);
    assert(hex_pow(2) == 0x100);
    assert(hex_pow(3) == 0x1000);
    assert(hex_pow(4) == 0x10000);
    assert(hex_pow(5) == 0x100000);
    assert(hex_pow(6) == 0x1000000);
    assert(hex_pow(7) == 0x10000000);
    assert(hex_pow(8) == 0x100000000);
    assert(hex_pow(9) == 0x1000000000);
    assert(hex_pow(10) == 0x10000000000);
    assert(hex_pow(11) == 0x100000000000);
    assert(hex_pow(12) == 0x1000000000000);
    assert(hex_pow(13) == 0x10000000000000);
    assert(hex_pow(14) == 0x100000000000000);
    assert(hex_pow(15) == 0x1000000000000000);
    assert(hex_pow(16) == 0x10000000000000000);
    lemma_hex_min_len_bound(v, 16);
}

pub proof fn lemma_hex_min_upper_len(v: nat)
    ensures
        hex_min_upper(v).len() == hex_min_len(v),
    decreases v,
{
    if v >= 16 {
        lemma_hex_min_upper_len(v / 16);
    }
}

/// Append `{:0width$X}`: upper-case hexadecimal, zero-padded to `width`.
pub fn push_hex_padded_upper(out: &mut Vec<char>, width: usize, v: u64)
    ensures
        final(out)@ == old(out)@ + hex_padded_upper(width as nat, v as nat),
{
    // count the digits first
    proof {
        lemma_hex_min_len_u64(v as nat);
    }
    let mut n: usize = 1;
    let mut rest: u64 = v;
    while rest >= 16
        invariant
            n >= 1,
            hex_min_len(rest as nat) + n - 1 == hex_min_len(v as nat),
            hex_min_len(v as nat) <= 16,
        decreases rest,
    {
        rest = rest / 16;
        n += 1;
    }
    assert(hex_min_len(v as nat) == n);
    proof {
        lemma_hex_min_upper_len(v as nat);
    }
    let ghost mid = out@;
    let mut pad: usize = 0;
    let pad_total: usize = if n < width {
        width - n
    } else {
        0
    };
    while pad < pad_total
        invariant
            pad <= pad_total,
            out@ == mid + Seq::new(pad as nat, |i: int| '0'),
        decreases pad_total - pad,
    {
        out.push('0');
        assert(mid + Seq::new((pad + 1) as nat, |i: int| '0') =~= (mid + Seq::new(
            pad as nat,
            |i: int| '0',
        )).push('0'));
        pad += 1;
    }
    push_hex_min_upper(out, v);
    proof {
        if n < width {
            assert(out@ =~= mid + hex_padded_upper(width as nat, v as nat));
        } else {
            assert(Seq::new(0nat, |i: int| '0') =~= Seq::<char>::empty());
            assert(out@ =~= mid + hex_padded_upper(width as nat, v as nat));
        }
    }
}

/// Bounds on the length of a zero-padded rendering: at least the width,
/// and no more than the digit count the value bound allows.
pub proof fn lemma_hex_padded_upper_len_bound(width: nat, v: nat, k: nat)
    requires
        k >= 1,
        v < hex_pow(k),
    ensures
        hex_padded_upper(width, v).len() >= width,
        hex_padded_upper(width, v).len() <= (if k > width {
            k
        } else {
            width
        }),
{
    lemma_hex_min_len_bound(v, k);
    lemma_hex_min_upper_len(v);
}

/// The powers of sixteen behind the eight-, nine- and sixteen-digit
/// bounds of the tag's numeric fields.
pub proof fn lemma_hex_pow_u64()
    ensures
        hex_pow(8) == 0x100000000,
        hex_pow(9) == 0x1000000000,
        hex_pow(16) == 0x10000000000000000,
{
    assert(hex_pow(0) == 1);
    assert(hex_pow(1) == 16);
    assert(hex_pow(2) == 0x100);
    assert(hex_pow(3) == 0x1000);
    assert(hex_pow(4) == 0x10000);
    assert(hex_pow(5) == 0x100000);
    assert(hex_pow(6) == 0x1000000);
    assert(hex_pow(7) == 0x10000000);
    assert(hex_pow(8) == 0x100000000);
    assert(hex_pow(9) == 0x1000000000);
    assert(hex_pow(10) == 0x10000000000);
    assert(hex_pow(11) == 0x100000000000);
    assert(hex_pow(12) == 0x1000000000000);
    assert(hex_pow(13) == 0x10000000000000);
    assert(hex_pow(14) == 0x100000000000000);
    assert(hex_pow(15) == 0x1000000000000000);
    assert(hex_pow(16) == 0x10000000000000000);
}

/// `{:0width$X}` as a string: upper-case hexadecimal, zero-padded.
pub fn to_hex_padded_upper(width: usize, v: u64) -> (r: String)
    ensures
        r@ == hex_padded_upper(width as nat, v as nat),
{
    let mut out: Vec<char> = Vec::new();
    push_hex_padded_upper(&mut out, width, v);
    crate::strutil::chars_to_string(&out)
}

/// Lower-case hexadecimal rendering of a byte sequence, two digits per byte.
pub open spec fn bytes_to_hex(s: Seq<u8>) -> Seq<char>
    decreases s.len(),
{
    if s.len() == 0 {
        Seq::empty()
    } else {
        bytes_to_hex(s.drop_last()) + seq![
            hex_digit_lower(s.last() as int / 16),
            hex_digit_lower(s.last() as int % 16),
        ]
    }
}

/// Render a binary digest as a lower-case hexadecimal string.
pub fn digest_to_hex(digest: &[u8]) -> (r: String)
    ensures
        r@ == bytes_to_hex(digest@),
{
    let mut out: Vec<char> = Vec::new();
    let mut i: usize = 0;
    while i < digest.len()
        invariant
            i <= digest@.len(),
            out@ == bytes_to_hex(digest@.take(i as int)),
        decreases digest@.len() - i,
    {
        let b = digest[i];
        out.push(hex_char_of_nibble_lower(b / 16));
        out.push(hex_char_of_nibble_lower(b % 16));
        proof {
            let t = digest@.take(i + 1);
            assert(t.drop_last() =~= digest@.take(i as int));
            assert(t.last() == digest@[i as int]);
            assert(out@ =~= bytes_to_hex(digest@.take(i + 1)));
        }
        i += 1;
    }
    assert(digest@.take(digest@.len() as int) =~= digest@);
    crate::strutil::chars_to_string(&out)
}

/// Decimal digits of `v`, without leading zeros (a single `0` for zero).
pub open spec fn dec_min(v: nat) -> Seq<char>
    decreases v,
{
    if v < 10 {
        seq![hex_digit_lower(v as int)]
    } else {
        dec_min(v / 10).push(hex_digit_lower((v % 10) as int))
    }
}

fn dec_char_of_digit(d: u64) -> (c: char)
    requires
        d < 10,
    ensures
        c == hex_digit_lower(d as int),
{
    match d {
        0 => '0',
        1 => '1',
        2 => '2',
        3 => '3',
        4 => '4',
        5 => '5',
        6 => '6',
        7 => '7',
        8 => '8',
        _ => '9',
    }
}

/// Append the decimal rendering of `v`.
pub fn push_dec_u64(out: &mut Vec<char>, v: u64)
    ensures
        final(out)@ == old(out)@ + dec_min(v as nat),
    decreases v,
{
    if v < 10 {
        out.push(dec_char_of_digit(v));
        assert(old(out)@.push(hex_digit_lower(v as int)) =~= old(out)@ + dec_min(v as nat));
    } else {
        push_dec_u64(out, v / 10);
        out.push(dec_char_of_digit(v % 10));
        assert((old(out)@ + dec_min((v / 10) as nat)).push(hex_digit_lower((v % 10) as int))
            =~= old(out)@ + dec_min(v as nat));
    }
}

fn dec_char_of_digit_u128(d: u128) -> (c: char)
    requires
        d < 10,
    ensures
        c == hex_digit_lower(d as int),
{
    match d {
        0 => '0',
        1 => '1',
        2 => '2',
        3 => '3',
        4 => '4',
        5 => '5',
        6 => '6',
        7 => '7',
        8 => '8',
        _ => '9',
    }
}

/// Append the decimal rendering of a 128-bit value (percentages can
/// exceed the 64-bit range before division).
pub fn push_dec_u128(out: &mut Vec<char>, v: u128)
    ensures
        final(out)@ == old(out)@ + dec_min(v as nat),
    decreases v,
{
    if v < 10 {
        out.push(dec_char_of_digit_u128(v));
        assert(old(out)@.push(hex_digit_lower(v as int)) =~= old(out)@ + dec_min(v as nat));
    } else {
        push_dec_u128(out, v / 10);
        out.push(dec_char_of_digit_u128(v % 10));
        assert((old(out)@ + dec_min((v / 10) as nat)).push(hex_digit_lower((v % 10) as int))
            =~= old(out)@ + dec_min(v as nat));
    }
}

/// Parse `chars[start..end]` as upper- or lower-case hexadecimal.
///
/// Returns the value when every character in the range is a hexadecimal
/// digit and the value fits in a `u64`.
pub fn parse_hex_range(chars: &Vec<char>, start: usize, end: usize) -> (r: Option<u64>)
    requires
        start <= end <= chars@.len(),
    ensures
        match r {
            Some(v) => {
                &&& all_hex_chars(chars@.subrange(start as int, end as int))
                &&& start < end
                &&& v == hex_seq_value(chars@.subrange(start as int, end as int))
            },
            None => {
                ||| start == end
                ||| !all_hex_chars(chars@.subrange(start as int, end as int))
                ||| hex_seq_value(chars@.subrange(start as int, end as int)) > u64::MAX
            },
        },
{
    if start == end {
        return None;
    }
    let ghost whole = chars@.subrange(start as int, end as int);
    let mut acc: u64 = 0;
    let mut i: usize = start;
    while i < end
        invariant
            start <= i <= end <= chars@.len(),
            whole == chars@.subrange(start as int, end as int),
            all_hex_chars(chars@.subrange(start as int, i as int)),
            acc == hex_seq_value(chars@.subrange(start as int, i as int)),
        decreases end - i,
    {
        let c = chars[i];
        let d: u64 = match c {
            '0' => 0,
            '1' => 1,
            '2' => 2,
            '3' => 3,
            '4' => 4,
            '5' => 5,
            '6' => 6,
            '7' => 7,
            '8' => 8,
            '9' => 9,
            'a' | 'A' => 10,
            'b' | 'B' => 11,
            'c' | 'C' => 12,
            'd' | 'D' => 13,
            'e' | 'E' => 14,
            'f' | 'F' => 15,
            _ => 16,
        };
        assert(d == hex_char_value(c) || (d == 16 && !is_hex_char(c)));
        proof {
            let pre = chars@.subrange(start as int, i as int);
            let ext = chars@.subrange(start as int, i + 1);
            assert(ext.drop_last() =~= pre);
            assert(ext.last() == c);
        }
        if d == 16 {
            proof {
                lemma_hex_prefix_not_all(chars@, start as int, i as int, end as int);
            }
            return None;
        }
        if acc > (u64::MAX - d) / 16 {
            proof {
                lemma_hex_value_grows(chars@, start as int, i + 1, end as int);
            }
            return None;
        }
        acc = acc * 16 + d;
        i += 1;
    }
    assert(chars@.subrange(start as int, end as int) =~= whole);
    Some(acc)
}

/// A range with a character that is not a hexadecimal digit is not all
/// hexadecimal, whatever follows it.
proof fn lemma_hex_prefix_not_all(s: Seq<char>, start: int, bad: int, end: int)
    requires
        0 <= start <= bad < end <= s.len(),
        !is_hex_char(s[bad]),
    ensures
        !all_hex_chars(s.subrange(start, end)),
{
    assert(s.subrange(start, end)[bad - start] == s[bad]);
}

/// The value of a hexadecimal digit sequence only grows as digits are
/// appended to its right.
proof fn lemma_hex_value_grows(s: Seq<char>, start: int, mid: int, end: int)
    requires
        0 <= start <= mid <= end <= s.len(),
        hex_seq_value(s.subrange(start, mid)) >= 0,
    ensures
        hex_seq_value(s.subrange(start, end)) >= hex_seq_value(s.subrange(start, mid)),
    decreases end - mid,
{
    if mid < end {
        let shorter = s.subrange(start, end - 1);
        let longer = s.subrange(start, end);
        assert(longer.drop_last() =~= shorter);
        lemma_hex_value_nonneg(shorter);
        lemma_hex_value_grows(s, start, mid, end - 1);
        assert(hex_seq_value(longer) == hex_seq_value(shorter) * 16 + hex_char_value(
            longer.last(),
        ));
        assert(hex_seq_value(shorter) * 16 >= hex_seq_value(shorter)) by (nonlinear_arith)
            requires
                hex_seq_value(shorter) >= 0,
        ;
    }
}

pub proof fn lemma_hex_value_nonneg(s: Seq<char>)
    ensures
        hex_seq_value(s) >= 0,
    decreases s.len(),
{
    if s.len() > 0 {
        lemma_hex_value_nonneg(s.drop_last());
        assert(hex_seq_value(s.drop_last()) * 16 >= 0) by (nonlinear_arith)
            requires
                hex_seq_value(s.drop_last()) >= 0,
        ;
    }
}

/// Parsing inverts rendering: the minimal hexadecimal digits of `v`
/// evaluate back to `v`.
proof fn lemma_hex_digit_upper_value(d: nat)
    requires
        d < 16,
    ensures
        hex_char_value(hex_digit_upper(d as int)) == d,
{
}

pub proof fn lemma_hex_min_upper_value(v: nat)
    ensures
        hex_seq_value(hex_min_upper(v)) == v,
        all_hex_chars(hex_min_upper(v)),
    decreases v,
{
    if v < 16 {
        let s = hex_min_upper(v);
        lemma_hex_digit_upper_value(v);
        assert(s.drop_last() =~= Seq::<char>::empty());
        assert(hex_seq_value(Seq::<char>::empty()) == 0);
        assert(s.last() == hex_digit_upper(v as int));
        assert(forall|i: int| 0 <= i < s.len() ==> is_hex_char(#[trigger] s[i])) by {
            assert(s[0] == hex_digit_upper(v as int));
        }
    } else {
        lemma_hex_min_upper_value(v / 16);
        lemma_hex_digit_upper_value((v % 16) as nat);
        let pre = hex_min_upper(v / 16);
        let s = hex_min_upper(v);
        assert(s.drop_last() =~= pre);
        assert(s.last() == hex_digit_upper((v % 16) as int));
        assert(hex_seq_value(s) == v * 1) by (nonlinear_arith)
            requires
                hex_seq_value(s) == hex_seq_value(pre) * 16 + hex_char_value(s.last()),
                hex_seq_value(pre) == v / 16,
                hex_char_value(s.last()) == v % 16,
        ;
        assert(forall|i: int| 0 <= i < s.len() ==> is_hex_char(#[trigger] s[i])) by {
            assert(forall|i: int| 0 <= i < pre.len() ==> s[i] == #[trigger] pre[i]);
            assert(is_hex_char(s[s.len() - 1]));
        }
    }
}

/// Leading zeros do not change the value of a hexadecimal digit sequence.
pub proof fn lemma_hex_value_leading_zeros(zeros: Seq<char>, s: Seq<char>)
    requires
        forall|i: int| 0 <= i < zeros.len() ==> zeros[i] == '0',
    ensures
        hex_seq_value(zeros + s) == hex_seq_value(s),
        all_hex_chars(s) ==> all_hex_chars(zeros + s),
    decreases s.len(),
{
    if s.len() == 0 {
        lemma_hex_value_all_zeros(zeros);
        assert(zeros + s =~= zeros);
    } else {
        lemma_hex_value_leading_zeros(zeros, s.drop_last());
        assert((zeros + s).drop_last() =~= zeros + s.drop_last());
        assert((zeros + s).last() == s.last());
    }
}

proof fn lemma_hex_value_all_zeros(zeros: Seq<char>)
    requires
        forall|i: int| 0 <= i < zeros.len() ==> zeros[i] == '0',
    ensures
        hex_seq_value(zeros) == 0,
    decreases zeros.len(),
{
    if zeros.len() > 0 {
        lemma_hex_value_all_zeros(zeros.drop_last());
    }
}

/// The zero-padded rendering also evaluates back to `v`.
pub proof fn lemma_hex_padded_upper_value(width: nat, v: nat)
    ensures
        hex_seq_value(hex_padded_upper(width, v)) == v,
        all_hex_chars(hex_padded_upper(width, v)),
        hex_padded_upper(width, v).len() >= width,
{
    lemma_hex_min_upper_value(v);
    lemma_hex_min_upper_len(v);
    if hex_min_upper(v).len() < width {
        lemma_hex_value_leading_zeros(
            Seq::new((width - hex_min_upper(v).len()) as nat, |i: int| '0'),
            hex_min_upper(v),
        );
    }
}

} // verus!
