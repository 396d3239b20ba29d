//! Characters in and out of strings: numbers in decimal and hexadecimal, and the
//! few cuts that requests and probe output need.

use vstd::prelude::*;

verus! {

/// `String::push` of std: the character becomes the last one of the string.
pub assume_specification[ String::push ](s: &mut String, c: char)
    ensures
        final(s)@ == old(s)@.push(c),
;

/// `String::with_capacity` of std: an empty string. How much memory it holds ready
/// is not stated. It panics where more than `isize::MAX` bytes are asked for.
pub assume_specification[ String::with_capacity ](capacity: usize) -> (s: String)
    requires
        capacity <= isize::MAX,
    ensures
        s@ == Seq::<char>::empty(),
;

/// The contents of a list of strings.
pub open spec fn contents(v: Seq<String>) -> Seq<Seq<char>> {
    v.map_values(|s: String| s@)
}

/// The contents of a list are those of its strings, each in its place.
pub proof fn law_contents(v: Seq<String>)
    ensures
        contents(v).len() == v.len(),
        forall|i: int| 0 <= i < v.len() ==> #[trigger] contents(v)[i] == v[i]@,
{
}

/// The characters of `s`, one by one.
pub fn chars_of(s: &str) -> (v: Vec<char>)
    ensures
        v@ == s@,
{
    let mut v: Vec<char> = Vec::new();
    for c in it: s.chars()
        invariant
            it.seq() == s@,
            v@ == s@.take(it.index() as int),
    {
        v.push(c);
    }
    v
}

/// The string made of the characters of `v` from `from` up to `to`.
pub fn string_of(v: &[char], from: usize, to: usize) -> (s: String)
    requires
        from <= to <= v@.len(),
    ensures
        s@ == v@.subrange(from as int, to as int),
{
    let mut s = String::new();
    let mut i: usize = from;
    while i < to
        invariant
            from <= i <= to <= v@.len(),
            s@ == v@.subrange(from as int, i as int),
        decreases to - i,
    {
        s.push(v[i]);
        i = i + 1;
    }
    s
}

// ---------------------------------------------------------------------------
// Decimal numbers
// ---------------------------------------------------------------------------

/// The character of the decimal digit `d`.
pub open spec fn digit_char(d: int) -> char {
    (48 + d) as char
}

/// `n` in decimal, without leading zeros.
pub open spec fn decimal(n: nat) -> Seq<char>
    decreases n,
{
    if n < 10 {
        seq![digit_char(n as int)]
    } else {
        decimal(n / 10).push(digit_char((n % 10) as int))
    }
}

/// Appends `n` in decimal to `out`.
pub fn push_decimal(out: &mut String, n: u64)
    ensures
        final(out)@ == old(out)@ + decimal(n as nat),
    decreases n,
{
    if n >= 10 {
        push_decimal(out, n / 10);
    }
    let d: u8 = (n % 10) as u8;
    out.push((48u8 + d) as char);
}

/// `n` in decimal.
pub fn decimal_string(n: u64) -> (s: String)
    ensures
        s@ == decimal(n as nat),
{
    let mut s = String::new();
    push_decimal(&mut s, n);
    s
}

/// The distance of `n` from zero.
pub open spec fn magnitude(n: int) -> nat {
    if n < 0 {
        (-n) as nat
    } else {
        n as nat
    }
}

/// `n` thousandths, with three digits behind the point.
pub open spec fn thousandths(n: int) -> Seq<char> {
    let m = magnitude(n) as int;
    (if n < 0 {
        seq!['-']
    } else {
        seq![]
    }) + decimal((m / 1000) as nat) + seq![
        '.',
        digit_char(m / 100 % 10),
        digit_char(m / 10 % 10),
        digit_char(m % 10),
    ]
}

/// `n` thousandths, with three digits behind the point.
pub fn thousandths_string(n: i64) -> (s: String)
    ensures
        s@ == thousandths(n as int),
{
    let mut s = String::new();
    let m: u64 = if n < 0 {
        s.push('-');
        (0 - n as i128) as u64
    } else {
        n as u64
    };
    push_decimal(&mut s, m / 1000);
    s.push('.');
    s.push((48u8 + (m / 100 % 10) as u8) as char);
    s.push((48u8 + (m / 10 % 10) as u8) as char);
    s.push((48u8 + (m % 10) as u8) as char);
    s
}

/// `n` in decimal, with a minus sign where it is below zero.
pub open spec fn signed_decimal(n: int) -> Seq<char> {
    if n < 0 {
        seq!['-'] + decimal(magnitude(n))
    } else {
        decimal(magnitude(n))
    }
}

/// The exit code of a process: `Some(..)` around a number, or `None` where the
/// process left none.
pub open spec fn exit_code(code: Option<i32>) -> Seq<char> {
    match code {
        Some(n) => "Some("@ + signed_decimal(n as int) + seq![')'],
        None => "None"@,
    }
}

/// Appends the exit code of a process to `out`.
pub fn push_exit_code(out: &mut String, code: Option<i32>)
    ensures
        final(out)@ == old(out)@ + exit_code(code),
{
    match code {
        Some(n) => {
            out.append("Some(");
            if n < 0 {
                out.push('-');
                push_decimal(out, (0 - n as i64) as u64);
            } else {
                push_decimal(out, n as u64);
            }
            out.push(')');
        },
        None => {
            out.append("None");
        },
    }
}

/// Whether `c` is one of the ten decimal digits.
pub open spec fn is_digit(c: char) -> bool {
    '0' <= c <= '9'
}

/// Whether `s` holds decimal digits only.
pub open spec fn all_digits(s: Seq<char>) -> bool {
    forall|i: int| 0 <= i < s.len() ==> is_digit(#[trigger] s[i])
}

/// The number that the decimal digits of `s` write.
pub open spec fn digits_value(s: Seq<char>) -> nat
    decreases s.len(),
{
    if s.len() == 0 {
        0
    } else {
        digits_value(s.drop_last()) * 10 + (s.last() as nat - 48) as nat
    }
}

/// `s` without one leading plus sign.
pub open spec fn unsigned_part(s: Seq<char>) -> Seq<char> {
    if s.len() > 0 && s[0] == '+' {
        s.skip(1)
    } else {
        s
    }
}

/// The number that `s` writes: an optional plus sign, then one or more decimal
/// digits, with a value of at most `max`.
pub open spec fn unsigned_value(s: Seq<char>, max: nat) -> Option<nat> {
    let d = unsigned_part(s);
    if d.len() > 0 && all_digits(d) && digits_value(d) <= max {
        Some(digits_value(d))
    } else {
        None
    }
}

/// More digits never write a smaller number.
proof fn lemma_digits_value_grows(s: Seq<char>, n: int)
    requires
        0 <= n <= s.len(),
        all_digits(s),
    ensures
        digits_value(s.take(n)) <= digits_value(s),
    decreases s.len(),
{
    if n == s.len() {
        assert(s.take(n) =~= s);
    } else {
        assert(is_digit(s.last()));
        lemma_digits_value_grows(s.drop_last(), n);
        assert(s.drop_last().take(n) =~= s.take(n));
    }
}

/// Reads a number as an optional plus sign and one or more decimal digits, with
/// a value of at most `max`.
pub fn parse_unsigned(s: &[char], max: u64) -> (r: Option<u64>)
    ensures
        r is Some <==> unsigned_value(s@, max as nat) is Some,
        r matches Some(v) ==> unsigned_value(s@, max as nat) == Some(v as nat),
{
    let start: usize = if s.len() > 0 && s[0] == '+' {
        1
    } else {
        0
    };
    let ghost d = unsigned_part(s@);
    assert(d =~= s@.skip(start as int));
    if s.len() == start {
        return None;
    }
    let mut i: usize = start;
    let mut value: u64 = 0;
    while i < s.len()
        invariant
            start <= i <= s@.len(),
            start <= 1,
            d == s@.skip(start as int),
            d == unsigned_part(s@),
            d.len() > 0,
            all_digits(d.take(i - start)),
            value == digits_value(d.take(i - start)),
            value <= max,
        decreases s@.len() - i,
    {
        let c = s[i];
        assert(d[i - start] == c);
        if c < '0' || c > '9' {
            return None;
        }
        let digit: u64 = (c as u32 - 48) as u64;
        let ghost next = d.take(i - start + 1);
        assert(next.drop_last() =~= d.take(i - start));
        assert(next.last() == c);
        assert(all_digits(next)) by {
            assert forall|j: int| 0 <= j < next.len() implies is_digit(#[trigger] next[j]) by {
                if j < i - start {
                    assert(next[j] == d.take(i - start)[j]);
                }
            }
        }
        if digit > max || value > (max - digit) / 10 {
            proof {
                if all_digits(d) {
                    lemma_digits_value_grows(d, i - start + 1);
                }
            }
            return None;
        }
        value = value * 10 + digit;
        i = i + 1;
    }
    assert(d.take(i - start) =~= d);
    Some(value)
}

/// Writing a number and reading it back gives the number.
pub proof fn law_decimal_reads_back(n: nat, max: nat)
    requires
        n <= max,
    ensures
        unsigned_value(decimal(n), max) == Some(n),
{
    lemma_decimal_digits(n);
}

/// A number in decimal is made of digits that write it.
pub proof fn lemma_decimal_digits(n: nat)
    ensures
        decimal(n).len() > 0,
        all_digits(decimal(n)),
        digits_value(decimal(n)) == n,
    decreases n,
{
    if n < 10 {
        let s = decimal(n);
        assert(s.drop_last() =~= Seq::<char>::empty());
        assert(digits_value(s.drop_last()) == 0);
    } else {
        lemma_decimal_digits(n / 10);
        let s = decimal(n);
        let t = decimal(n / 10);
        assert(s.drop_last() =~= t);
        assert forall|i: int| 0 <= i < s.len() implies is_digit(#[trigger] s[i]) by {
            if i < t.len() {
                assert(s[i] == t[i]);
            }
        }
    }
}

/// Digits are read one after the other: the next one makes the number ten times as
/// large and adds its own value, which is its distance from the character `0`.
pub proof fn law_next_digit(s: Seq<char>, c: char)
    requires
        '0' <= c <= '9',
    ensures
        digits_value(Seq::empty()) == 0,
        digits_value(s.push(c)) == 10 * digits_value(s) + (c as int - '0' as int),
{
    assert(s.push(c).drop_last() =~= s);
}

/// A number is written in the one way that has digits only and no needless zero at its
/// front.
pub proof fn law_decimal_is_the_only_way(s: Seq<char>, n: nat)
    requires
        s.len() > 0,
        forall|i: int| 0 <= i < s.len() ==> '0' <= #[trigger] s[i] <= '9',
        s.len() > 1 ==> s[0] != '0',
    ensures
        digits_value(s) == n <==> s == decimal(n),
    decreases s.len(),
{
    lemma_decimal_digits(n);
    if digits_value(s) == n {
        let front = s.drop_last();
        assert('0' <= s.last() <= '9');
        if s.len() == 1 {
            assert(digits_value(front) == 0);
            assert(s =~= seq![digit_char(n as int)]);
        } else {
            assert forall|i: int| 0 <= i < front.len() implies '0' <= #[trigger] front[i]
                <= '9' by {
                assert(front[i] == s[i]);
            }
            lemma_no_zero_in_front(front);
            law_decimal_is_the_only_way(front, n / 10);
            assert(s =~= front.push(s.last()));
        }
    }
}

/// Digits that do not begin with zero write more than nothing.
proof fn lemma_no_zero_in_front(s: Seq<char>)
    requires
        s.len() > 0,
        s[0] != '0',
        forall|i: int| 0 <= i < s.len() ==> '0' <= #[trigger] s[i] <= '9',
    ensures
        digits_value(s) > 0,
    decreases s.len(),
{
    assert('0' <= s.last() <= '9');
    if s.len() > 1 {
        let front = s.drop_last();
        assert forall|i: int| 0 <= i < front.len() implies '0' <= #[trigger] front[i] <= '9' by {
            assert(front[i] == s[i]);
        }
        lemma_no_zero_in_front(front);
    }
}

/// A number does not begin with a needless zero.
pub proof fn law_decimal_has_no_needless_zero(n: nat)
    ensures
        decimal(n).len() > 1 ==> decimal(n)[0] != '0',
    decreases n,
{
    if n >= 10 {
        let t = decimal(n / 10);
        law_decimal_has_no_needless_zero(n / 10);
        lemma_decimal_digits(n / 10);
        lemma_decimal_digits(n / 100);
        assert(n / 10 / 10 == n / 100);
        assert(decimal(n)[0] == t[0]);
    }
}

/// What is read as a number: digits, with or without one plus sign in front of them,
/// whose value is not above `max`. Anything else is not.
pub proof fn law_what_is_a_number(s: Seq<char>, max: nat)
    ensures
        s.len() > 0 && (forall|i: int| 0 <= i < s.len() ==> '0' <= #[trigger] s[i] <= '9') ==> {
            let expected = if digits_value(s) <= max {
                Some(digits_value(s))
            } else {
                None
            };
            &&& unsigned_value(s, max) == expected
            &&& unsigned_value(seq!['+'] + s, max) == expected
        },
        (exists|i: int|
            0 < i < s.len() && !('0' <= #[trigger] s[i] <= '9')) ==> unsigned_value(s, max) is None,
        s.len() > 0 && s[0] != '+' && !('0' <= s[0] <= '9') ==> unsigned_value(s, max) is None,
        s.len() == 0 || s == seq!['+'] ==> unsigned_value(s, max) is None,
{
    if s.len() > 0 && (forall|i: int| 0 <= i < s.len() ==> '0' <= #[trigger] s[i] <= '9') {
        assert('0' <= s[0] <= '9');
        assert(all_digits(s));
        assert((seq!['+'] + s).skip(1) =~= s);
    }
    if exists|i: int| 0 < i < s.len() && !('0' <= #[trigger] s[i] <= '9') {
        let i = choose|i: int| 0 < i < s.len() && !('0' <= #[trigger] s[i] <= '9');
        let d = unsigned_part(s);
        let k = i - (s.len() - d.len());
        assert(d[k] == s[i]);
        assert(!is_digit(d[k]));
    }
    if s.len() > 0 && s[0] != '+' && !('0' <= s[0] <= '9') {
        assert(!is_digit(s[0]));
    }
}

/// Whether `s` writes `n` units, of which the last of `places` decimals counts one each:
/// one digit or more without a needless zero, a point, and `places` digits behind it.
pub open spec fn writes_unsigned(s: Seq<char>, n: nat, places: nat) -> bool {
    let point = s.len() - places - 1;
    let digits = s.take(point) + s.skip(point + 1);
    &&& point > 0
    &&& point > 1 ==> s[0] != '0'
    &&& s[point] == '.'
    &&& forall|i: int| 0 <= i < digits.len() ==> '0' <= #[trigger] digits[i] <= '9'
    &&& digits_value(digits) == n
}

/// Whether `s` writes `value` units, of which the last of `places` decimals counts one
/// each, behind a minus sign where it is below zero.
pub open spec fn writes(s: Seq<char>, value: int, places: nat) -> bool {
    if value < 0 {
        s.len() > 0 && s[0] == '-' && writes_unsigned(s.skip(1), (-value) as nat, places)
    } else {
        writes_unsigned(s, value as nat, places)
    }
}

/// A text writes one number only.
pub proof fn law_text_writes_one_number(s: Seq<char>, places: nat, one: int, other: int)
    requires
        writes(s, one, places),
        writes(s, other, places),
    ensures
        one == other,
{
    let point = s.len() - places - 1;
    let digits = s.take(point) + s.skip(point + 1);
    if (one < 0) != (other < 0) {
        assert(digits[0] == s[0]);
        assert('0' <= digits[0] <= '9');
    }
}

/// A number of thousandths is written with three decimals, and is read back from them.
pub proof fn law_thousandths_read_back(n: int)
    ensures
        writes(thousandths(n), n, 3),
{
    let m = magnitude(n) as int;
    let t = thousandths(m);
    let whole = decimal((m / 1000) as nat);
    let point = t.len() - 4;
    let (a, b, c) = (digit_char(m / 100 % 10), digit_char(m / 10 % 10), digit_char(m % 10));
    let digits = t.take(point) + t.skip(point + 1);
    lemma_decimal_digits((m / 1000) as nat);
    law_decimal_has_no_needless_zero((m / 1000) as nat);
    lemma_decimals(m);
    assert(t[0] == whole[0]);
    assert(digits =~= whole.push(a).push(b).push(c));
    law_next_digit(whole, a);
    law_next_digit(whole.push(a), b);
    law_next_digit(whole.push(a).push(b), c);
    assert forall|i: int| 0 <= i < digits.len() implies '0' <= #[trigger] digits[i] <= '9' by {
        if i < whole.len() {
            assert(digits[i] == whole[i] && is_digit(whole[i]));
        }
    }
    assert(writes_unsigned(t, m as nat, 3));
    if n < 0 {
        assert(thousandths(n).skip(1) =~= t);
    }
}

/// Whether `s` writes `n`: one digit or more, without a needless zero.
pub open spec fn writes_digits(s: Seq<char>, n: nat) -> bool {
    &&& s.len() > 0
    &&& s.len() > 1 ==> s[0] != '0'
    &&& forall|i: int| 0 <= i < s.len() ==> '0' <= #[trigger] s[i] <= '9'
    &&& digits_value(s) == n
}

/// Whether `s` writes the whole number `value`: a minus sign where it is below zero,
/// and digits without a needless zero.
pub open spec fn writes_whole(s: Seq<char>, value: int) -> bool {
    if value < 0 {
        s.len() > 0 && s[0] == '-' && writes_digits(s.skip(1), (-value) as nat)
    } else {
        writes_digits(s, value as nat)
    }
}

/// A number in decimal is read back.
pub proof fn lemma_decimal_writes(n: nat)
    ensures
        writes_whole(decimal(n), n as int),
        digits_value(decimal(n)) == n,
{
    lemma_decimal_digits(n);
    law_decimal_has_no_needless_zero(n);
    assert forall|i: int| 0 <= i < decimal(n).len() implies '0' <= #[trigger] decimal(n)[i]
        <= '9' by {
        assert(is_digit(decimal(n)[i]));
    }
}

/// The exit code of a process is read back from its text: `None`, or the number between
/// `Some(` and a closing bracket.
pub proof fn law_exit_code_reads_back(code: Option<i32>)
    ensures
        ({
            let t = exit_code(code);
            match code {
                Some(n) => {
                    &&& t.len() > 6
                    &&& t.take(5) == "Some("@
                    &&& t.last() == ')'
                    &&& writes_whole(t.subrange(5, t.len() - 1), n as int)
                },
                None => t == "None"@,
            }
        }),
{
    reveal_strlit("Some(");
    match code {
        Some(n) => {
            let t = exit_code(code);
            let m = magnitude(n as int);
            let inner = t.subrange(5, t.len() - 1);
            lemma_decimal_writes(m);
            assert(inner =~= signed_decimal(n as int));
            assert(t.take(5) =~= "Some("@);
            if n < 0 {
                assert(inner.skip(1) =~= decimal(m));
            }
        },
        None => {},
    }
}

/// Ten to the power of `width`.
pub open spec fn ten_to(width: nat) -> nat
    decreases width,
{
    if width == 0 {
        1
    } else {
        10 * ten_to((width - 1) as nat)
    }
}

/// A number below ten to the power of `width` takes no more than `width` digits.
pub proof fn lemma_decimal_len(n: nat, width: nat)
    requires
        n < ten_to(width),
        width > 0,
    ensures
        decimal(n).len() <= width,
    decreases width,
{
    if n >= 10 {
        lemma_decimal_len(n / 10, (width - 1) as nat);
    }
}

/// The whole part and the three decimals make up the number.
proof fn lemma_decimals(m: int)
    requires
        m >= 0,
    ensures
        m == 1000 * (m / 1000) + 100 * (m / 100 % 10) + 10 * (m / 10 % 10) + m % 10,
{
    let tens = m / 10;
    let hundreds = tens / 10;
    assert(m / 100 == hundreds);
    assert(m / 1000 == hundreds / 10);
}

/// How a number with three decimals is written: a minus sign or none, its whole part,
/// a point and its decimals.
proof fn lemma_thousandths_parts(n: int)
    ensures
        ({
            let t = thousandths(n);
            let m = magnitude(n) as int;
            let whole = decimal((m / 1000) as nat);
            let sign: int = if n < 0 {
                1
            } else {
                0
            };
            &&& t.len() == sign + whole.len() + 4
            &&& n < 0 <==> t[0] == '-'
            &&& t.subrange(sign, t.len() - 4) == whole
            &&& digits_value(whole) == m / 1000
            &&& t[t.len() - 3] == digit_char(m / 100 % 10)
            &&& t[t.len() - 2] == digit_char(m / 10 % 10)
            &&& t[t.len() - 1] == digit_char(m % 10)
        }),
{
    let t = thousandths(n);
    let m = magnitude(n) as int;
    let whole = decimal((m / 1000) as nat);
    let sign: int = if n < 0 {
        1
    } else {
        0
    };
    lemma_decimal_digits((m / 1000) as nat);
    assert(t[sign] == whole[0] && is_digit(whole[0]));
    assert(t.subrange(sign, t.len() - 4) =~= whole);
}

/// Two numbers that are written the same with three decimals are the same: nothing
/// is lost in writing them.
pub proof fn law_thousandths_differ(n: int, k: int)
    requires
        thousandths(n) == thousandths(k),
    ensures
        n == k,
{
    let (m, l) = (magnitude(n) as int, magnitude(k) as int);
    lemma_thousandths_parts(n);
    lemma_thousandths_parts(k);
    lemma_decimals(m);
    lemma_decimals(l);
    assert(m / 1000 == l / 1000);
    assert(m / 100 % 10 == l / 100 % 10);
    assert(m / 10 % 10 == l / 10 % 10);
    assert(m % 10 == l % 10);
}

// ---------------------------------------------------------------------------
// Hexadecimal numbers
// ---------------------------------------------------------------------------

/// The character of the hexadecimal digit `d`, in lower case.
pub open spec fn hex_char(d: int) -> char {
    if d < 10 {
        (48 + d) as char
    } else {
        (87 + d) as char
    }
}

/// The last `width` hexadecimal digits of `n`, in lower case.
pub open spec fn hex(n: nat, width: nat) -> Seq<char>
    decreases width,
{
    if width == 0 {
        seq![]
    } else {
        hex(n / 16, (width - 1) as nat).push(hex_char((n % 16) as int))
    }
}

/// Appends the last `width` hexadecimal digits of `n` to `out`.
pub fn push_hex(out: &mut String, n: u64, width: u8)
    ensures
        final(out)@ == old(out)@ + hex(n as nat, width as nat),
    decreases width,
{
    if width > 0 {
        push_hex(out, n / 16, width - 1);
        let d: u8 = (n % 16) as u8;
        if d < 10 {
            out.push((48u8 + d) as char);
        } else {
            out.push((87u8 + d) as char);
        }
    }
}

// ---------------------------------------------------------------------------
// Cuts
// ---------------------------------------------------------------------------

/// The place of the first `c` in `s`, or the length of `s` where there is none.
pub open spec fn find(s: Seq<char>, c: char) -> int
    decreases s.len(),
{
    if s.len() == 0 || s[0] == c {
        0
    } else {
        1 + find(s.skip(1), c)
    }
}

/// What `find` finds: no earlier character is `c`, and the one found is.
pub proof fn lemma_find(s: Seq<char>, c: char)
    ensures
        0 <= find(s, c) <= s.len(),
        forall|i: int| 0 <= i < find(s, c) ==> s[i] != c,
        find(s, c) < s.len() ==> s[find(s, c)] == c,
    decreases s.len(),
{
    if s.len() > 0 && s[0] != c {
        lemma_find(s.skip(1), c);
        assert forall|i: int| 0 <= i < find(s, c) implies s[i] != c by {
            if i > 0 {
                assert(s[i] == s.skip(1)[i - 1]);
            }
        }
    }
}

/// The place of the first `c` in `s`, or the length of `s` where there is none.
pub fn find_char(s: &[char], c: char) -> (r: usize)
    ensures
        r == find(s@, c),
{
    proof {
        lemma_find(s@, c);
    }
    let mut i: usize = 0;
    while i < s.len() && s[i] != c
        invariant
            0 <= i <= s@.len(),
            0 <= find(s@, c) <= s@.len(),
            forall|j: int| 0 <= j < find(s@, c) ==> s@[j] != c,
            find(s@, c) < s@.len() ==> s@[find(s@, c)] == c,
            i <= find(s@, c),
        decreases s@.len() - i,
    {
        i = i + 1;
    }
    i
}

/// The part of `s` in front of the first `c`: all of `s` where there is none.
pub open spec fn before_first(s: Seq<char>, c: char) -> Seq<char> {
    s.take(find(s, c))
}

/// The part of `s` behind the first `c`, where there is one.
pub open spec fn after_first(s: Seq<char>, c: char) -> Option<Seq<char>> {
    if find(s, c) < s.len() {
        Some(s.skip(find(s, c) + 1))
    } else {
        None
    }
}

/// A text is cut at the first `c`: what stands in front of it holds none, and what
/// stands behind it may hold anything.
pub proof fn law_cut_at_first(front: Seq<char>, c: char, back: Seq<char>)
    requires
        forall|i: int| 0 <= i < front.len() ==> front[i] != c,
    ensures
        before_first(front + seq![c] + back, c) == front,
        after_first(front + seq![c] + back, c) == Some(back),
        before_first(front, c) == front,
        after_first(front, c) is None,
{
    let s = front + seq![c] + back;
    lemma_find(s, c);
    lemma_find(front, c);
    assert(s[front.len() as int] == c);
    assert forall|i: int| 0 <= i < front.len() implies s[i] != c by {
        assert(s[i] == front[i]);
    }
    assert(find(s, c) == front.len());
    assert(s.take(front.len() as int) =~= front);
    assert(s.skip(front.len() as int + 1) =~= back);
    assert(front.take(front.len() as int) =~= front);
}

/// `s` without the run of `c` at its end.
pub open spec fn trim_end(s: Seq<char>, c: char) -> Seq<char>
    decreases s.len(),
{
    if s.len() > 0 && s.last() == c {
        trim_end(s.drop_last(), c)
    } else {
        s
    }
}

/// `s` without the run of `c` at its end.
pub fn trim_end_char(s: &str, c: char) -> (r: String)
    ensures
        r@ == trim_end(s@, c),
{
    let v = chars_of(s);
    let mut n: usize = v.len();
    assert(v@.take(n as int) =~= s@);
    while n > 0 && v[n - 1] == c
        invariant
            n <= v@.len(),
            trim_end(v@.take(n as int), c) == trim_end(s@, c),
        decreases n,
    {
        assert(v@.take(n as int).drop_last() =~= v@.take(n - 1));
        n = n - 1;
    }
    string_of(v.as_slice(), 0, n)
}

/// However often `c` is put behind a text that does not end in it, the text is left.
pub proof fn law_trim_end(s: Seq<char>, c: char, times: nat)
    requires
        s.len() > 0 ==> s.last() != c,
    ensures
        trim_end(s + Seq::new(times, |i: int| c), c) == s,
    decreases times,
{
    let run = Seq::new(times, |i: int| c);
    if times == 0 {
        assert(s + run =~= s);
    } else {
        let fewer = (times - 1) as nat;
        law_trim_end(s, c, fewer);
        assert((s + run).last() == c);
        assert((s + run).drop_last() =~= s + Seq::new(fewer, |i: int| c));
    }
}

/// `s` with each occurrence of `.ts` taken out, from left to right.
pub open spec fn without_ts(s: Seq<char>) -> Seq<char>
    decreases s.len(),
{
    if s.len() == 0 {
        seq![]
    } else if s.len() >= 3 && s[0] == '.' && s[1] == 't' && s[2] == 's' {
        without_ts(s.skip(3))
    } else {
        seq![s[0]] + without_ts(s.skip(1))
    }
}

/// The characters of `s` with each occurrence of `.ts` taken out, from left to
/// right.
pub fn strip_ts(s: &str) -> (r: Vec<char>)
    ensures
        r@ == without_ts(s@),
{
    let v = chars_of(s);
    let mut r: Vec<char> = Vec::new();
    let mut i: usize = 0;
    assert(v@.skip(0) =~= v@);
    while i < v.len()
        invariant
            0 <= i <= v@.len(),
            v@ == s@,
            r@ + without_ts(v@.skip(i as int)) == without_ts(s@),
        decreases v@.len() - i,
    {
        let ghost rest = v@.skip(i as int);
        if v.len() - i >= 3 && v[i] == '.' && v[i + 1] == 't' && v[i + 2] == 's' {
            assert(rest.skip(3) =~= v@.skip(i + 3));
            i = i + 3;
        } else {
            assert(rest.skip(1) =~= v@.skip(i + 1));
            assert((r@ + (seq![rest[0]] + without_ts(rest.skip(1)))) =~= (r@.push(v@[i as int]) + without_ts(v@.skip(i + 1))));
            r.push(v[i]);
            i = i + 1;
        }
    }
    assert(without_ts(v@.skip(i as int)) =~= Seq::<char>::empty());
    assert(r@ + without_ts(v@.skip(i as int)) =~= r@);
    r
}

/// What holds no `.ts` stays as it is, in front of the first `.ts` as well as alone, and
/// what follows that one is read on from there.
pub proof fn law_ts_is_taken_out(front: Seq<char>, back: Seq<char>)
    requires
        forall|i: int|
            0 <= i < front.len() - 2 ==> !(#[trigger] front[i] == '.' && front[i + 1] == 't'
                && front[i + 2] == 's'),
    ensures
        without_ts(front) == front,
        without_ts(front + seq!['.', 't', 's'] + back) == front + without_ts(back),
    decreases front.len(),
{
    let s = front + seq!['.', 't', 's'] + back;
    if front.len() == 0 {
        assert(s.skip(3) =~= back);
        assert(without_ts(front) =~= front);
        assert(front + without_ts(back) =~= without_ts(back));
    } else {
        let rest = front.skip(1);
        assert forall|i: int| 0 <= i < rest.len() - 2 implies !(#[trigger] rest[i] == '.' && rest[i
            + 1] == 't' && rest[i + 2] == 's') by {
            assert(rest[i] == front[i + 1]);
        }
        law_ts_is_taken_out(rest, back);
        assert(front[0] == s[0]);
        assert(s.skip(1) =~= rest + seq!['.', 't', 's'] + back);
        assert(seq![front[0]] + rest =~= front);
        assert(seq![front[0]] + (rest + without_ts(back)) =~= front + without_ts(back));
    }
}

/// A text without a dot stays as it is.
pub proof fn lemma_without_ts_keeps(s: Seq<char>)
    requires
        forall|i: int| 0 <= i < s.len() ==> s[i] != '.',
    ensures
        without_ts(s) == s,
        without_ts(s + seq!['.', 't', 's']) == s,
    decreases s.len(),
{
    let ext = seq!['.', 't', 's'];
    if s.len() == 0 {
        assert(s + ext =~= ext);
        assert(ext.skip(3) =~= Seq::<char>::empty());
        assert(without_ts(ext.skip(3)) =~= Seq::<char>::empty());
        assert(without_ts(s) =~= s);
    } else {
        let t = s.skip(1);
        assert forall|i: int| 0 <= i < t.len() implies t[i] != '.' by {
            assert(t[i] == s[i + 1]);
        }
        lemma_without_ts_keeps(t);
        assert((s + ext).skip(1) =~= t + ext);
        assert(seq![s[0]] + t =~= s);
        assert((s + ext)[0] == s[0]);
    }
}

} // verus!
