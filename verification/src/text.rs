//! Decimal text for integers: how the keys of the store spell numbers, and how
//! they are read back.

use vstd::prelude::*;

verus! {

/// The character that stands for the digit `d`.
pub open spec fn digit_char(d: int) -> char {
    if d == 0 {
        '0'
    } else if d == 1 {
        '1'
    } else if d == 2 {
        '2'
    } else if d == 3 {
        '3'
    } else if d == 4 {
        '4'
    } else if d == 5 {
        '5'
    } else if d == 6 {
        '6'
    } else if d == 7 {
        '7'
    } else if d == 8 {
        '8'
    } else {
        '9'
    }
}

/// Whether `c` is one of the ten ASCII digits.
pub open spec fn is_digit(c: char) -> bool {
    c == '0' || c == '1' || c == '2' || c == '3' || c == '4' || c == '5' || c == '6' || c == '7'
        || c == '8' || c == '9'
}

/// The value of the digit `c`; zero for any other character.
pub open spec fn digit_value(c: char) -> int {
    if c == '1' {
        1
    } else if c == '2' {
        2
    } else if c == '3' {
        3
    } else if c == '4' {
        4
    } else if c == '5' {
        5
    } else if c == '6' {
        6
    } else if c == '7' {
        7
    } else if c == '8' {
        8
    } else if c == '9' {
        9
    } else {
        0
    }
}

/// The decimal digits of `n`, most significant first, without leading zeros.
pub open spec fn decimal_digits(n: nat) -> Seq<char>
    decreases n,
{
    if n < 10 {
        seq![digit_char(n as int)]
    } else {
        decimal_digits(n / 10).push(digit_char((n % 10) as int))
    }
}

/// The decimal text of `n`: a minus sign for a negative number, then its digits.
pub open spec fn decimal(n: int) -> Seq<char> {
    if n < 0 {
        seq!['-'] + decimal_digits((-n) as nat)
    } else {
        decimal_digits(n as nat)
    }
}

/// Whether every character of `s` is a digit.
pub open spec fn all_digits(s: Seq<char>) -> bool {
    forall|i: int| 0 <= i < s.len() ==> is_digit(#[trigger] s[i])
}

/// The number that a run of digits spells.
pub open spec fn digits_value(s: Seq<char>) -> nat
    decreases s.len(),
{
    if s.len() == 0 {
        0
    } else {
        (digits_value(s.drop_last()) * 10 + digit_value(s.last())) as nat
    }
}

/// The digits of a signed number's text: what follows one leading sign.
pub open spec fn unsigned_part(s: Seq<char>) -> Seq<char> {
    if s.len() > 0 && (s[0] == '-' || s[0] == '+') {
        s.skip(1)
    } else {
        s
    }
}

/// What a text means as a signed 64-bit number: an optional `+` or `-`, then
/// at least one digit, the whole within the range of `i64`.
pub open spec fn parse_i64(s: Seq<char>) -> Option<i64> {
    let body = unsigned_part(s);
    let magnitude = digits_value(body) as int;
    let value = if s.len() > 0 && s[0] == '-' {
        -magnitude
    } else {
        magnitude
    };
    if body.len() > 0 && all_digits(body) && i64::MIN <= value <= i64::MAX {
        Some(value as i64)
    } else {
        None
    }
}

/// What a text means as an unsigned 64-bit number: an optional `+`, then at
/// least one digit, the whole within the range of `u64`.
pub open spec fn parse_u64(s: Seq<char>) -> Option<u64> {
    let body = if s.len() > 0 && s[0] == '+' {
        s.skip(1)
    } else {
        s
    };
    let value = digits_value(body);
    if body.len() > 0 && all_digits(body) && value <= u64::MAX {
        Some(value as u64)
    } else {
        None
    }
}

/// The one-character text of a digit.
fn digit_str(d: u64) -> (text: &'static str)
    requires
        d < 10,
    ensures
        text@ == seq![digit_char(d as int)],
{
    proof {
        reveal_strlit("0");
        reveal_strlit("1");
        reveal_strlit("2");
        reveal_strlit("3");
        reveal_strlit("4");
        reveal_strlit("5");
        reveal_strlit("6");
        reveal_strlit("7");
        reveal_strlit("8");
        reveal_strlit("9");
    }
    let text = if d == 0 {
        "0"
    } else if d == 1 {
        "1"
    } else if d == 2 {
        "2"
    } else if d == 3 {
        "3"
    } else if d == 4 {
        "4"
    } else if d == 5 {
        "5"
    } else if d == 6 {
        "6"
    } else if d == 7 {
        "7"
    } else if d == 8 {
        "8"
    } else {
        "9"
    };
    assert(text@ =~= seq![digit_char(d as int)]);
    text
}

/// Appends the decimal digits of `n` to `out`.
pub fn push_u64(out: &mut String, n: u64)
    ensures
        final(out)@ == old(out)@ + decimal_digits(n as nat),
    decreases n,
{
    if n >= 10 {
        push_u64(out, n / 10);
    }
    out.append(digit_str(n % 10));
    assert(final(out)@ =~= old(out)@ + decimal_digits(n as nat));
}

/// Appends the decimal digits of `n` to `out`.
pub fn push_u128(out: &mut String, n: u128)
    ensures
        final(out)@ == old(out)@ + decimal_digits(n as nat),
    decreases n,
{
    if n >= 10 {
        push_u128(out, n / 10);
    }
    out.append(digit_str((n % 10) as u64));
    assert(final(out)@ =~= old(out)@ + decimal_digits(n as nat));
}

/// Appends the decimal text of `n` to `out`.
pub fn push_i64(out: &mut String, n: i64)
    ensures
        final(out)@ == old(out)@ + decimal(n as int),
{
    if n < 0 {
        proof {
            reveal_strlit("-");
        }
        out.append("-");
        assert(out@ =~= old(out)@ + seq!['-']);
        let magnitude: u64 = if n == i64::MIN {
            0x8000_0000_0000_0000u64
        } else {
            (-n) as u64
        };
        push_u64(out, magnitude);
        assert(out@ =~= old(out)@ + decimal(n as int));
    } else {
        push_u64(out, n as u64);
    }
}

/// The characters of `text`, one by one.
pub fn chars_of(text: &str) -> (chars: Vec<char>)
    ensures
        chars@ == text@,
{
    let n = text.unicode_len();
    let mut chars: Vec<char> = Vec::new();
    let mut i: usize = 0;
    while i < n
        invariant
            n == text@.len(),
            i <= n,
            chars@ == text@.take(i as int),
        decreases n - i,
    {
        chars.push(text.get_char(i));
        i += 1;
        assert(chars@ =~= text@.take(i as int));
    }
    assert(text@.take(n as int) =~= text@);
    chars
}

/// The value of `c` where it is a digit.
fn digit_of(c: char) -> (d: Option<u64>)
    ensures
        d.is_some() == is_digit(c),
        d.is_some() ==> d.unwrap() == digit_value(c),
{
    if c == '0' {
        Some(0)
    } else if c == '1' {
        Some(1)
    } else if c == '2' {
        Some(2)
    } else if c == '3' {
        Some(3)
    } else if c == '4' {
        Some(4)
    } else if c == '5' {
        Some(5)
    } else if c == '6' {
        Some(6)
    } else if c == '7' {
        Some(7)
    } else if c == '8' {
        Some(8)
    } else if c == '9' {
        Some(9)
    } else {
        None
    }
}

/// Above every `u64` and every magnitude of an `i64`: where reading stops counting.
pub open spec fn reading_cap() -> nat {
    0x1_0000_0000_0000_0000
}

/// `value`, or the cap where `value` is beyond it.
pub open spec fn capped(value: nat) -> nat {
    if value < reading_cap() {
        value
    } else {
        reading_cap()
    }
}

/// Reads the digits in `chars[from..to]`; numbers beyond the cap read as the cap.
fn read_digits(chars: &Vec<char>, from: usize, to: usize) -> (r: Option<u128>)
    requires
        from <= to <= chars.len(),
    ensures
        r.is_some() == (from < to && all_digits(chars@.subrange(from as int, to as int))),
        r.is_some() ==> r.unwrap() == capped(digits_value(chars@.subrange(from as int, to as int))),
{
    if from == to {
        return None;
    }
    let ghost body = chars@.subrange(from as int, to as int);
    let mut acc: u128 = 0;
    let mut i: usize = from;
    assert(chars@.subrange(from as int, from as int) =~= Seq::<char>::empty());
    while i < to
        invariant
            from <= i <= to <= chars.len(),
            body == chars@.subrange(from as int, to as int),
            all_digits(chars@.subrange(from as int, i as int)),
            acc == capped(digits_value(chars@.subrange(from as int, i as int))),
        decreases to - i,
    {
        let ghost before = chars@.subrange(from as int, i as int);
        let ghost after = chars@.subrange(from as int, i + 1);
        assert(after.drop_last() =~= before);
        assert(after.last() == chars@[i as int]);
        match digit_of(chars[i]) {
            None => {
                assert(body[i - from] == chars@[i as int]);
                assert(!all_digits(body));
                return None;
            },
            Some(d) => {
                acc = acc * 10 + d as u128;
                if acc > 0x1_0000_0000_0000_0000u128 {
                    acc = 0x1_0000_0000_0000_0000u128;
                }
                assert forall|j: int| 0 <= j < after.len() implies is_digit(#[trigger] after[j]) by {
                    if j < before.len() {
                        assert(after[j] == before[j]);
                    }
                }
            },
        }
        i += 1;
    }
    assert(chars@.subrange(from as int, i as int) =~= body);
    Some(acc)
}

/// Reads `chars[from..to]` as a signed 64-bit number.
pub fn read_i64(chars: &Vec<char>, from: usize, to: usize) -> (r: Option<i64>)
    requires
        from <= to <= chars.len(),
    ensures
        r == parse_i64(chars@.subrange(from as int, to as int)),
{
    let ghost s = chars@.subrange(from as int, to as int);
    if from == to {
        return None;
    }
    assert(s[0] == chars@[from as int]);
    let first = chars[from];
    let negative = first == '-';
    let start = if first == '-' || first == '+' {
        from + 1
    } else {
        from
    };
    assert(unsigned_part(s) =~= chars@.subrange(start as int, to as int));
    match read_digits(chars, start, to) {
        None => None,
        Some(magnitude) => {
            if negative {
                if magnitude <= 0x8000_0000_0000_0000u128 {
                    if magnitude == 0x8000_0000_0000_0000u128 {
                        Some(i64::MIN)
                    } else {
                        Some(-(magnitude as i64))
                    }
                } else {
                    None
                }
            } else if magnitude <= 0x7fff_ffff_ffff_ffffu128 {
                Some(magnitude as i64)
            } else {
                None
            }
        },
    }
}

/// Reads `chars[from..to]` as an unsigned 64-bit number.
pub fn read_u64(chars: &Vec<char>, from: usize, to: usize) -> (r: Option<u64>)
    requires
        from <= to <= chars.len(),
    ensures
        r == parse_u64(chars@.subrange(from as int, to as int)),
{
    let ghost s = chars@.subrange(from as int, to as int);
    if from == to {
        return None;
    }
    assert(s[0] == chars@[from as int]);
    let start = if chars[from] == '+' {
        from + 1
    } else {
        from
    };
    assert(s.skip(1) =~= chars@.subrange(from + 1, to as int));
    match read_digits(chars, start, to) {
        None => None,
        Some(value) => {
            if value <= 0xffff_ffff_ffff_ffffu128 {
                Some(value as u64)
            } else {
                None
            }
        },
    }
}

/// The digits of a number are digits, and spell that number.
pub proof fn lemma_decimal_digits(n: nat)
    ensures
        decimal_digits(n).len() >= 1,
        all_digits(decimal_digits(n)),
        digits_value(decimal_digits(n)) == n,
    decreases n,
{
    if n < 10 {
        let s = decimal_digits(n);
        assert(s.drop_last() =~= Seq::<char>::empty());
        assert(digits_value(s.drop_last()) == 0);
    } else {
        lemma_decimal_digits(n / 10);
        let s = decimal_digits(n);
        let head = decimal_digits(n / 10);
        assert(s.drop_last() =~= head);
        assert forall|i: int| 0 <= i < s.len() implies is_digit(#[trigger] s[i]) by {
            if i < head.len() {
                assert(s[i] == head[i]);
            }
        }
    }
}

/// Reading the decimal text of a number gives the number back.
pub proof fn lemma_parse_decimal(n: i64)
    ensures
        parse_i64(decimal(n as int)) == Some(n),
{
    let s = decimal(n as int);
    if n < 0 {
        let digits = decimal_digits((-n) as nat);
        lemma_decimal_digits((-n) as nat);
        assert(s[0] == '-');
        assert(unsigned_part(s) =~= digits);
    } else {
        lemma_decimal_digits(n as nat);
        assert(is_digit(s[0]));
        assert(unsigned_part(s) == s);
    }
}

/// Reading the digits of an unsigned number gives the number back.
pub proof fn lemma_parse_decimal_u64(n: u64)
    ensures
        parse_u64(decimal_digits(n as nat)) == Some(n),
{
    lemma_decimal_digits(n as nat);
    assert(is_digit(decimal_digits(n as nat)[0]));
}

/// The decimal text of a number holds digits and at most a leading minus sign.
pub proof fn lemma_decimal_chars(n: int, i: int)
    requires
        0 <= i < decimal(n).len(),
    ensures
        is_digit(decimal(n)[i]) || decimal(n)[i] == '-',
        decimal(n).len() >= 1,
{
    if n < 0 {
        lemma_decimal_digits((-n) as nat);
        if i > 0 {
            assert(decimal(n)[i] == decimal_digits((-n) as nat)[i - 1]);
        }
    } else {
        lemma_decimal_digits(n as nat);
    }
}

/// Where the first `sep` stands in `s`; the length of `s` where there is none.
pub open spec fn first_sep(s: Seq<char>, sep: char) -> int
    decreases s.len(),
{
    if s.len() == 0 || s[0] == sep {
        0
    } else {
        1 + first_sep(s.skip(1), sep)
    }
}

/// What is left of `s` once `k` fields and the separators behind them are
/// taken off its front; nothing where `s` has fewer than `k` separators.
pub open spec fn rest_after(s: Seq<char>, sep: char, k: nat) -> Option<Seq<char>>
    decreases k,
{
    if k == 0 {
        Some(s)
    } else {
        match rest_after(s, sep, (k - 1) as nat) {
            Some(r) => if first_sep(r, sep) < r.len() {
                Some(r.skip(first_sep(r, sep) + 1))
            } else {
                None
            },
            None => None,
        }
    }
}

/// The `k`-th of the fields that `sep` separates in `s`, counted from zero.
/// A text without separator is one field; an empty text is one empty field.
pub open spec fn field(s: Seq<char>, sep: char, k: nat) -> Option<Seq<char>> {
    match rest_after(s, sep, k) {
        Some(r) => Some(r.take(first_sep(r, sep))),
        None => None,
    }
}

/// Whether `sep` stands nowhere in `s`.
pub open spec fn free_of(s: Seq<char>, sep: char) -> bool {
    forall|i: int| 0 <= i < s.len() ==> #[trigger] s[i] != sep
}

/// `a`, then `sep`, then `rest`.
pub open spec fn joined(a: Seq<char>, sep: char, rest: Seq<char>) -> Seq<char> {
    a + seq![sep] + rest
}

/// The first separator stands at `n` where none stands before `n` and one
/// stands at `n` or `s` ends there.
pub proof fn lemma_first_sep_is(s: Seq<char>, sep: char, n: int)
    requires
        0 <= n <= s.len(),
        forall|j: int| 0 <= j < n ==> s[j] != sep,
        n == s.len() || s[n] == sep,
    ensures
        first_sep(s, sep) == n,
    decreases n,
{
    if n > 0 {
        let t = s.skip(1);
        assert forall|j: int| 0 <= j < n - 1 implies t[j] != sep by {
            assert(t[j] == s[j + 1]);
        }
        lemma_first_sep_is(t, sep, n - 1);
    }
}

/// The first separator stands within the text or at its end.
pub proof fn lemma_first_sep_bounds(s: Seq<char>, sep: char)
    ensures
        0 <= first_sep(s, sep) <= s.len(),
    decreases s.len(),
{
    if s.len() > 0 && s[0] != sep {
        lemma_first_sep_bounds(s.skip(1), sep);
    }
}

/// The fields of `a`, `sep`, `rest` are `a` and then the fields of `rest`,
/// where `a` holds no separator.
pub proof fn lemma_fields_of_joined(a: Seq<char>, sep: char, rest: Seq<char>, k: nat)
    requires
        free_of(a, sep),
    ensures
        first_sep(joined(a, sep, rest), sep) == a.len(),
        field(joined(a, sep, rest), sep, 0) == Some(a),
        rest_after(joined(a, sep, rest), sep, k + 1) == rest_after(rest, sep, k),
        field(joined(a, sep, rest), sep, k + 1) == field(rest, sep, k),
    decreases k,
{
    let j = joined(a, sep, rest);
    assert forall|i: int| 0 <= i < a.len() implies j[i] != sep by {
        assert(j[i] == a[i]);
    }
    assert(j[a.len() as int] == sep);
    lemma_first_sep_is(j, sep, a.len() as int);
    assert(j.take(a.len() as int) =~= a);
    assert(j.skip(a.len() as int + 1) =~= rest);
    assert(rest_after(j, sep, 0) == Some(j));
    assert(rest_after(j, sep, 1) == Some(rest));
    if k > 0 {
        lemma_fields_of_joined(a, sep, rest, (k - 1) as nat);
    }
}

/// Joining two texts that are free of a character with another character
/// gives a text that is free of it.
pub proof fn lemma_joined_free(a: Seq<char>, sep: char, rest: Seq<char>, c: char)
    requires
        free_of(a, c),
        free_of(rest, c),
        sep != c,
    ensures
        free_of(joined(a, sep, rest), c),
{
    let j = joined(a, sep, rest);
    assert forall|i: int| 0 <= i < j.len() implies #[trigger] j[i] != c by {
        if i < a.len() {
            assert(j[i] == a[i]);
        } else if i > a.len() {
            assert(j[i] == rest[i - a.len() - 1]);
        }
    }
}

/// A text without separator is its own single field.
pub proof fn lemma_single_field(a: Seq<char>, sep: char)
    requires
        free_of(a, sep),
    ensures
        first_sep(a, sep) == a.len(),
        field(a, sep, 0) == Some(a),
{
    lemma_first_sep_is(a, sep, a.len() as int);
    assert(a.take(a.len() as int) =~= a);
}

/// The decimal text of a number holds neither `_` nor `&`.
pub proof fn lemma_decimal_free(n: int)
    ensures
        free_of(decimal(n), '_'),
        free_of(decimal(n), '&'),
{
    assert forall|i: int| 0 <= i < decimal(n).len() implies #[trigger] decimal(n)[i] != '_'
        && decimal(n)[i] != '&' by {
        lemma_decimal_chars(n, i);
    }
}

/// Where the field that starts at `from` ends: at the next `sep`, or with the text.
pub fn find_sep(chars: &Vec<char>, from: usize, sep: char) -> (end: usize)
    requires
        from <= chars.len(),
    ensures
        from <= end <= chars.len(),
        end - from == first_sep(chars@.skip(from as int), sep),
        chars@.subrange(from as int, end as int) == chars@.skip(from as int).take(end - from),
{
    let mut i: usize = from;
    while i < chars.len() && chars[i] != sep
        invariant
            from <= i <= chars.len(),
            forall|j: int| from <= j < i ==> chars@[j] != sep,
        decreases chars.len() - i,
    {
        i += 1;
    }
    proof {
        let t = chars@.skip(from as int);
        assert forall|j: int| 0 <= j < i - from implies t[j] != sep by {
            assert(t[j] == chars@[j + from]);
        }
        lemma_first_sep_is(t, sep, i - from);
        assert(chars@.subrange(from as int, i as int) =~= t.take(i - from));
    }
    i
}

/// Reads the field that starts at `pos` as a signed number, and finds where
/// the field behind it starts, if there is one.
pub fn read_i64_field(chars: &Vec<char>, pos: usize, sep: char) -> (r: (Option<i64>, Option<usize>))
    requires
        pos <= chars.len(),
    ensures
        r.0 == parse_i64(
            chars@.skip(pos as int).take(first_sep(chars@.skip(pos as int), sep)),
        ),
        r.1.is_some() == (first_sep(chars@.skip(pos as int), sep) < chars@.skip(pos as int).len()),
        r.1.is_some() ==> pos < r.1.unwrap() <= chars.len() && chars@.skip(r.1.unwrap() as int)
            == chars@.skip(pos as int).skip(first_sep(chars@.skip(pos as int), sep) + 1),
{
    let end = find_sep(chars, pos, sep);
    let value = read_i64(chars, pos, end);
    if end < chars.len() {
        assert(chars@.skip(end + 1) =~= chars@.skip(pos as int).skip(end - pos + 1));
        (value, Some(end + 1))
    } else {
        (value, None)
    }
}

} // verus!
