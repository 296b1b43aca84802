use vstd::prelude::*;
use vstd::arithmetic::div_mod::{lemma_div_denominator, lemma_fundamental_div_mod};
use crate::tree::{views, PathSizeMetadata, Record};

verus! {

/// The character of a decimal digit.
pub open spec fn digit_char(d: nat) -> char {
    if d == 0 {
        '0'
    } else if d == 1 {
        '1'
    } else if d == 2 {
        '2'
    } else if d == 3 {
        '3'
    } else if d == 4 {
        '4'
    } else if d == 5 {
        '5'
    } else if d == 6 {
        '6'
    } else if d == 7 {
        '7'
    } else if d == 8 {
        '8'
    } else {
        '9'
    }
}

/// The decimal representation of `n`, without leading zeros.
pub open spec fn decimal(n: nat) -> Seq<char>
    decreases n,
{
    if n < 10 {
        seq![digit_char(n)]
    } else {
        decimal(n / 10).push(digit_char(n % 10))
    }
}

/// Number of decimal digits of `n`; 0 has one digit.
pub open spec fn digit_count(n: nat) -> nat
    decreases n,
{
    if n < 10 {
        1
    } else {
        1 + digit_count(n / 10)
    }
}

/// The decimal text of `n` is exactly `digit_count(n)` characters long, so
/// the bytes column is as wide as the longest size written in it.
pub proof fn decimal_len_is_digit_count(n: nat)
    ensures
        decimal(n).len() == digit_count(n),
    decreases n,
{
    if n >= 10 {
        decimal_len_is_digit_count(n / 10);
    }
}

/// Relies on `u128`'s `Display`, which writes the decimal digits of the value.
#[verifier::external_body]
fn decimal_string(n: u128) -> (r: String)
    ensures
        r@ == decimal(n as nat),
{
    n.to_string()
}

/// Relies on `String::push`, which appends one character.
#[verifier::external_body]
pub(crate) fn push_char(s: &mut String, c: char)
    ensures
        final(s)@ == old(s)@.push(c),
{
    s.push(c)
}

proof fn lemma_digit_count_u64(n: nat)
    requires
        n <= u64::MAX,
    ensures
        digit_count(n) <= 20,
{
    reveal_with_fuel(digit_count, 21);
}

/// Digit count of `n`.
pub fn num_digits(n: u64) -> (r: usize)
    ensures
        r == digit_count(n as nat),
{
    proof {
        lemma_digit_count_u64(n as nat);
    }
    let mut count: usize = 1;
    let mut cur: u64 = n;
    while cur >= 10
        invariant
            digit_count(n as nat) == count - 1 + digit_count(cur as nat),
            digit_count(n as nat) <= 20,
            1 <= count,
        decreases cur,
    {
        cur = cur / 10;
        count = count + 1;
    }
    count
}

/// `k` spaces.
pub open spec fn spaces(k: nat) -> Seq<char> {
    Seq::new(k, |_i: int| ' ')
}

/// `s` followed by spaces up to `width` characters.
pub open spec fn pad_right(s: Seq<char>, width: nat) -> Seq<char> {
    if s.len() < width {
        s + spaces((width - s.len()) as nat)
    } else {
        s
    }
}

/// Spaces up to `width` characters followed by `s`.
pub open spec fn pad_left(s: Seq<char>, width: nat) -> Seq<char> {
    if s.len() < width {
        spaces((width - s.len()) as nat) + s
    } else {
        s
    }
}

/// A line of the report: the size cell, two spaces, the path.
pub open spec fn report_line(cell: Seq<char>, path: Seq<char>) -> Seq<char> {
    cell + seq![' ', ' '] + path
}

/// The texts of a sequence of strings.
pub open spec fn texts(s: Seq<String>) -> Seq<Seq<char>> {
    s.map_values(|t: String| t@)
}

/// `cell` left-aligned in a column `width` characters wide.
fn left_aligned(cell: String, width: usize) -> (r: String)
    ensures
        r@ == pad_right(cell@, width as nat),
{
    let mut out = cell;
    let len = out.as_str().unicode_len();
    let mut i: usize = len;
    while i < width
        invariant
            len == cell@.len(),
            len <= i,
            i <= width || i == len,
            out@ == cell@ + spaces((i - len) as nat),
        decreases width - i,
    {
        push_char(&mut out, ' ');
        assert(out@ =~= cell@ + spaces((i + 1 - len) as nat));
        i = i + 1;
    }
    assert(out@ =~= pad_right(cell@, width as nat));
    out
}

/// `cell` right-aligned in a column `width` characters wide.
fn right_aligned(cell: String, width: usize) -> (r: String)
    ensures
        r@ == pad_left(cell@, width as nat),
{
    let len = cell.as_str().unicode_len();
    let mut out = String::new();
    let mut i: usize = len;
    while i < width
        invariant
            len == cell@.len(),
            len <= i,
            i <= width || i == len,
            out@ == spaces((i - len) as nat),
        decreases width - i,
    {
        push_char(&mut out, ' ');
        assert(out@ =~= spaces((i + 1 - len) as nat));
        i = i + 1;
    }
    out.append(cell.as_str());
    assert(out@ =~= pad_left(cell@, width as nat));
    out
}

/// The line holding `cell`, two spaces and `path`.
fn report_line_of(cell: String, path: &String) -> (r: String)
    ensures
        r@ == report_line(cell@, path@),
{
    let mut line = cell;
    push_char(&mut line, ' ');
    push_char(&mut line, ' ');
    line.append(path.as_str());
    assert(line@ =~= report_line(cell@, path@));
    line
}

/// The largest size in `s` (0 when `s` is empty).
pub open spec fn max_size(s: Seq<Record>) -> nat
    decreases s.len(),
{
    if s.len() == 0 {
        0
    } else {
        let rest = max_size(s.subrange(0, s.len() - 1));
        if s[s.len() - 1].size > rest {
            s[s.len() - 1].size
        } else {
            rest
        }
    }
}

/// Width of the size column in bytes mode: the digit count of the largest size.
pub open spec fn bytes_width(s: Seq<Record>) -> nat {
    digit_count(max_size(s))
}

/// The report in bytes mode.
pub open spec fn bytes_lines(s: Seq<Record>) -> Seq<Seq<char>> {
    s.map_values(|r: Record| report_line(pad_left(decimal(r.size), bytes_width(s)), r.path))
}

/// Width of the size column for `records` in bytes mode.
pub fn column_width(records: &Vec<PathSizeMetadata>) -> (r: usize)
    ensures
        r == bytes_width(views(records@)),
{
    let mut max: u64 = 0;
    let mut i: usize = 0;
    while i < records.len()
        invariant
            0 <= i <= records.len(),
            max == max_size(views(records@).subrange(0, i as int)),
        decreases records.len() - i,
    {
        let ghost upto = views(records@).subrange(0, i as int + 1);
        assert(upto.subrange(0, upto.len() - 1) =~= views(records@).subrange(0, i as int));
        if records[i].size > max {
            max = records[i].size;
        }
        i = i + 1;
    }
    assert(views(records@).subrange(0, i as int) =~= views(records@));
    num_digits(max)
}

/// Renders each record as its byte count, right-aligned to the digit count of
/// the largest size, two spaces and its path.
pub fn format_bytes(records: &Vec<PathSizeMetadata>) -> (lines: Vec<String>)
    ensures
        texts(lines@) == bytes_lines(views(records@)),
{
    let width = column_width(records);
    let mut lines: Vec<String> = Vec::new();
    let mut i: usize = 0;
    while i < records.len()
        invariant
            0 <= i <= records.len(),
            width == bytes_width(views(records@)),
            texts(lines@) == bytes_lines(views(records@)).subrange(0, i as int),
        decreases records.len() - i,
    {
        let cell = decimal_string(records[i].size as u128);
        let line = report_line_of(right_aligned(cell, width), &records[i].path);
        let ghost v = views(records@);
        assert(v[i as int] == records@[i as int]@);
        assert(bytes_lines(v)[i as int] == line@);
        let ghost prev = lines@;
        lines.push(line);
        assert(texts(lines@) =~= texts(prev).push(line@));
        assert(texts(lines@) =~= bytes_lines(views(records@)).subrange(0, i as int + 1));
        i = i + 1;
    }
    assert(bytes_lines(views(records@)).subrange(0, i as int) =~= bytes_lines(views(records@)));
    lines
}

/// `1024` to the power `k`.
pub open spec fn pow1024(k: nat) -> nat
    decreases k,
{
    if k == 0 {
        1
    } else {
        1024 * pow1024((k - 1) as nat)
    }
}

/// How many times `n` is divided by 1024 before it falls below 1024.
pub open spec fn scale(n: nat) -> nat
    decreases n,
{
    if n < 1024 {
        0
    } else {
        1 + scale(n / 1024)
    }
}

/// The unit symbol for a scale: bytes, then K, M, G; `?` beyond.
pub open spec fn unit(k: nat) -> char {
    if k == 0 {
        'B'
    } else if k == 1 {
        'K'
    } else if k == 2 {
        'M'
    } else if k == 3 {
        'G'
    } else {
        '?'
    }
}

/// `a / b` rounded to the nearest integer, ties to even.
pub open spec fn round_half_even(a: nat, b: nat) -> nat
    recommends
        b > 0,
{
    let q = a / b;
    let r = a % b;
    if 2 * r > b || (2 * r == b && q % 2 == 1) {
        q + 1
    } else {
        q
    }
}

/// Human-readable rendering of `n` bytes. The value `n / 1024^k` at the scale
/// `k` is written with one decimal when it is below 9.95 and with none
/// otherwise; zero bytes are written `0B`.
pub open spec fn readable(n: nat) -> Seq<char> {
    let k = scale(n);
    let p = pow1024(k);
    if n == 0 {
        seq!['0', 'B']
    } else if 20 * n < 199 * p {
        let t = round_half_even(10 * n, p);
        decimal(t / 10) + seq!['.'] + decimal(t % 10) + seq![unit(k)]
    } else {
        decimal(round_half_even(n, p)).push(unit(k))
    }
}

/// The report in human-readable mode: a size cell four characters wide.
pub open spec fn readable_lines(s: Seq<Record>) -> Seq<Seq<char>> {
    s.map_values(|r: Record| report_line(pad_right(readable(r.size), 4), r.path))
}

fn unit_symbol(k: u64) -> (c: char)
    ensures
        c == unit(k as nat),
{
    if k == 0 {
        'B'
    } else if k == 1 {
        'K'
    } else if k == 2 {
        'M'
    } else if k == 3 {
        'G'
    } else {
        '?'
    }
}

fn div_round_half_even(a: u128, b: u128) -> (r: u128)
    requires
        b > 0,
        a < u128::MAX,
    ensures
        r == round_half_even(a as nat, b as nat),
{
    let q = a / b;
    let rem = a % b;
    if rem > b - rem || (rem == b - rem && q % 2 == 1) {
        q + 1
    } else {
        q
    }
}

/// Renders `n` bytes in the largest unit below 1024 of it.
pub fn readable_size(n: u64) -> (r: String)
    ensures
        r@ == readable(n as nat),
{
    let mut k: u64 = 0;
    let mut cur: u64 = n;
    let mut p: u64 = 1;
    while cur >= 1024
        invariant
            scale(n as nat) == k + scale(cur as nat),
            p == pow1024(k as nat),
            p > 0,
            cur == n / p,
            k < p,
        decreases cur,
    {
        proof {
            lemma_div_denominator(n as int, p as int, 1024);
            lemma_fundamental_div_mod(n as int, p as int);
            assert(p * 1024 <= p * cur) by (nonlinear_arith)
                requires
                    cur >= 1024,
                    p > 0,
            ;
        }
        cur = cur / 1024;
        p = p * 1024;
        k = k + 1;
    }
    if n == 0 {
        let mut out = decimal_string(0);
        push_char(&mut out, 'B');
        out
    } else if 20 * (n as u128) < 199 * (p as u128) {
        let t = div_round_half_even(10 * (n as u128), p as u128);
        let mut out = decimal_string(t / 10);
        push_char(&mut out, '.');
        let frac = decimal_string(t % 10);
        out.append(frac.as_str());
        push_char(&mut out, unit_symbol(k));
        out
    } else {
        let mut out = decimal_string(div_round_half_even(n as u128, p as u128));
        push_char(&mut out, unit_symbol(k));
        out
    }
}

/// Renders each record as its human-readable size in a cell four characters
/// wide, two spaces and its path.
pub fn format_readable(records: &Vec<PathSizeMetadata>) -> (lines: Vec<String>)
    ensures
        texts(lines@) == readable_lines(views(records@)),
{
    let mut lines: Vec<String> = Vec::new();
    let mut i: usize = 0;
    while i < records.len()
        invariant
            0 <= i <= records.len(),
            texts(lines@) == readable_lines(views(records@)).subrange(0, i as int),
        decreases records.len() - i,
    {
        let cell = readable_size(records[i].size);
        let line = report_line_of(left_aligned(cell, 4), &records[i].path);
        let ghost v = views(records@);
        assert(v[i as int] == records@[i as int]@);
        assert(readable_lines(v)[i as int] == line@);
        let ghost prev = lines@;
        lines.push(line);
        assert(texts(lines@) =~= texts(prev).push(line@));
        assert(texts(lines@) =~= readable_lines(v).subrange(0, i as int + 1));
        i = i + 1;
    }
    assert(readable_lines(views(records@)).subrange(0, i as int) =~= readable_lines(
        views(records@),
    ));
    lines
}

} // verus!
