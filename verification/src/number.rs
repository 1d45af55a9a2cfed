use vstd::prelude::*;

verus! {

/// The ASCII character of the decimal digit `d`.
pub open spec fn digit_char(d: nat) -> char {
    (d + 48) as char
}

/// Whether `c` is one of the ASCII digits `0` to `9`.
pub open spec fn is_digit(c: char) -> bool {
    '0' <= c && c <= '9'
}

/// The value of the ASCII digit `c`.
pub open spec fn digit_value(c: char) -> nat {
    (c as int - 48) as nat
}

/// The decimal text of `n`: its digits, most significant first, with no
/// leading zero.
pub open spec fn decimal(n: nat) -> Seq<char>
    decreases n,
{
    if n < 10 {
        seq![digit_char(n)]
    } else {
        decimal(n / 10).push(digit_char(n % 10))
    }
}

/// The decimal text of `v`, with a leading `-` when it is negative.
pub open spec fn signed_decimal(v: int) -> Seq<char> {
    if v < 0 {
        seq!['-'] + decimal((-v) as nat)
    } else {
        decimal(v as nat)
    }
}

/// The one-character text of the digit `d`.
fn digit_str(d: u8) -> (s: &'static str)
    requires
        d < 10,
    ensures
        s@ == seq![digit_char(d as nat)],
{
    proof {
        reveal_strlit("0");
        reveal_strlit("1");
        reveal_strlit("2");
        reveal_strlit("3");
        reveal_strlit("4");
        reveal_strlit("5");
        reveal_strlit("6");
        reveal_strlit("7");
        reveal_strlit("8");
        reveal_strlit("9");
    }
    match d {
        0 => "0",
        1 => "1",
        2 => "2",
        3 => "3",
        4 => "4",
        5 => "5",
        6 => "6",
        7 => "7",
        8 => "8",
        _ => "9",
    }
}

/// Appends the decimal text of `n` to `out`.
pub(crate) fn push_decimal(out: &mut String, n: u128)
    ensures
        final(out)@ == old(out)@ + decimal(n as nat),
    decreases n,
{
    if n >= 10 {
        push_decimal(out, n / 10);
        out.append(digit_str((n % 10) as u8));
        assert(out@ =~= old(out)@ + decimal(n as nat));
    } else {
        out.append(digit_str(n as u8));
    }
}

/// Appends the decimal text of `v` to `out`, with a leading `-` when `v` is
/// negative.
pub(crate) fn push_signed_decimal(out: &mut String, v: i64)
    ensures
        final(out)@ == old(out)@ + signed_decimal(v as int),
{
    if v < 0 {
        proof {
            reveal_strlit("-");
        }
        out.append("-");
        let magnitude = (0i128 - v as i128) as u128;
        push_decimal(out, magnitude);
        assert(out@ =~= old(out)@ + signed_decimal(v as int));
    } else {
        push_decimal(out, v as u128);
    }
}

/// The value of a run of decimal digits, most significant first.
pub open spec fn digits_value(digits: Seq<char>) -> nat
    decreases digits.len(),
{
    if digits.len() == 0 {
        0
    } else {
        digits_value(digits.drop_last()) * 10 + digit_value(digits.last())
    }
}

/// Whether every character of `s` is an ASCII digit.
pub open spec fn all_digits(s: Seq<char>) -> bool {
    forall|i: int| 0 <= i < s.len() ==> is_digit(#[trigger] s[i])
}

/// Whether `word` begins with a sign, `+` or `-`.
pub open spec fn has_sign(word: Seq<char>) -> bool {
    word.len() > 0 && (word[0] == '+' || word[0] == '-')
}

/// The integer that `word` denotes in decimal, if it denotes one that fits in
/// an `i64`: an optional sign, `+` or `-`, then one or more ASCII digits.
pub open spec fn parsed_i64(word: Seq<char>) -> Option<i64> {
    let digits = if has_sign(word) { word.drop_first() } else { word };
    let magnitude = digits_value(digits) as int;
    let value = if has_sign(word) && word[0] == '-' { -magnitude } else { magnitude };
    if digits.len() == 0 || !all_digits(digits) || value < i64::MIN || value > i64::MAX {
        None
    } else {
        Some(value as i64)
    }
}

/// A prefix of a run of digits is worth no more than the whole run.
proof fn lemma_digits_value_prefix(digits: Seq<char>, k: int)
    requires
        0 <= k <= digits.len(),
    ensures
        digits_value(digits.take(k)) <= digits_value(digits),
    decreases digits.len(),
{
    if k < digits.len() {
        lemma_digits_value_prefix(digits.drop_last(), k);
        assert(digits.drop_last().take(k) =~= digits.take(k));
    } else {
        assert(digits.take(k) =~= digits);
    }
}

/// Reads `chars[start..end]` as a decimal integer: an optional sign, `+` or
/// `-`, then one or more ASCII digits, whose value fits in an `i64`.
pub(crate) fn parse_i64(chars: &Vec<char>, start: usize, end: usize) -> (value: Option<i64>)
    requires
        start <= end <= chars.len(),
    ensures
        value == parsed_i64(chars@.subrange(start as int, end as int)),
{
    let ghost word = chars@.subrange(start as int, end as int);
    let mut i = start;
    let mut negative = false;
    if i < end && (chars[i] == '+' || chars[i] == '-') {
        negative = chars[i] == '-';
        i = i + 1;
    }
    let digits_start = i;
    let ghost digits = chars@.subrange(digits_start as int, end as int);
    assert(digits =~= if has_sign(word) { word.drop_first() } else { word });
    if i == end {
        return None;
    }
    let mut magnitude: u128 = 0;
    while i < end
        invariant
            start <= digits_start <= i <= end <= chars.len(),
            word == chars@.subrange(start as int, end as int),
            digits == (if has_sign(word) { word.drop_first() } else { word }),
            negative == (has_sign(word) && word[0] == '-'),
            digits == chars@.subrange(digits_start as int, end as int),
            all_digits(chars@.subrange(digits_start as int, i as int)),
            magnitude == digits_value(chars@.subrange(digits_start as int, i as int)),
            magnitude <= 9223372036854775808,
        decreases end - i,
    {
        let c = chars[i];
        if !('0' <= c && c <= '9') {
            assert(digits[i - digits_start] == c);
            return None;
        }
        let next = magnitude * 10 + (c as u32 - 48) as u128;
        let ghost taken = chars@.subrange(digits_start as int, i + 1);
        assert(taken.drop_last() =~= chars@.subrange(digits_start as int, i as int));
        assert(all_digits(taken));
        if next > 9223372036854775808 {
            proof {
                if all_digits(digits) {
                    assert(digits.take(i + 1 - digits_start) =~= taken);
                    lemma_digits_value_prefix(digits, i + 1 - digits_start);
                }
            }
            return None;
        }
        magnitude = next;
        i = i + 1;
    }
    assert(chars@.subrange(digits_start as int, i as int) =~= digits);
    if negative {
        if magnitude == 9223372036854775808 {
            Some(i64::MIN)
        } else {
            Some(0i64 - magnitude as i64)
        }
    } else if magnitude > 9223372036854775807 {
        None
    } else {
        Some(magnitude as i64)
    }
}

/// The decimal text of `n` is a non-empty run of digits worth `n`.
pub proof fn lemma_decimal_digits(n: nat)
    ensures
        decimal(n).len() > 0,
        all_digits(decimal(n)),
        digits_value(decimal(n)) == n,
    decreases n,
{
    if n < 10 {
        assert(decimal(n).drop_last() =~= Seq::<char>::empty());
        assert(digit_value(digit_char(n)) == n);
        assert(digits_value(Seq::<char>::empty()) == 0);
    } else {
        lemma_decimal_digits(n / 10);
        let d = n % 10;
        assert(decimal(n).drop_last() =~= decimal(n / 10));
        assert(digit_value(digit_char(d)) == d);
        assert((n / 10) * 10 + d == n) by (nonlinear_arith)
            requires
                d == n % 10,
        ;
        assert forall|i: int| 0 <= i < decimal(n).len() implies is_digit(#[trigger] decimal(n)[i]) by {
            if i < decimal(n).len() - 1 {
                assert(decimal(n)[i] == decimal(n / 10)[i]);
            }
        }
    }
}

/// Reading the decimal text of `value` gives `value` back.
pub proof fn lemma_parse_signed_decimal(value: i64)
    ensures
        parsed_i64(signed_decimal(value as int)) == Some(value),
{
    let word = signed_decimal(value as int);
    if value < 0 {
        let magnitude = (-value) as nat;
        lemma_decimal_digits(magnitude);
        assert(word.drop_first() =~= decimal(magnitude));
        assert(word[0] == '-');
    } else {
        lemma_decimal_digits(value as nat);
        assert(is_digit(word[0]));
    }
}

/// Law: the empty word and a lone sign are not numbers.
pub proof fn lemma_parse_needs_a_digit()
    ensures
        parsed_i64(seq![]) is None,
        parsed_i64(seq!['+']) is None,
        parsed_i64(seq!['-']) is None,
{
    assert(seq!['+'].drop_first() =~= Seq::<char>::empty());
    assert(seq!['-'].drop_first() =~= Seq::<char>::empty());
}

/// Law: a word with a character that is not an ASCII digit, other than a
/// sign in front, is not a number.
pub proof fn lemma_parse_rejects_non_digits(word: Seq<char>, i: int)
    requires
        0 <= i < word.len(),
        !('0' <= word[i] && word[i] <= '9'),
        i > 0 || (word[0] != '+' && word[0] != '-'),
    ensures
        parsed_i64(word) is None,
{
    if has_sign(word) {
        assert(word.drop_first()[i - 1] == word[i]);
    }
}

/// Law: a single ASCII digit is the number it shows.
pub proof fn lemma_parse_one_digit(c: char)
    requires
        '0' <= c && c <= '9',
    ensures
        parsed_i64(seq![c]) == Some((c as int - 48) as i64),
{
    let word = seq![c];
    assert(word.drop_last() =~= Seq::<char>::empty());
    assert(word[0] == c && word.last() == c);
    assert(!has_sign(word));
    assert(digits_value(Seq::<char>::empty()) == 0);
    assert(digits_value(word) == digit_value(c));
    assert(all_digits(word));
}

/// Law: writing one more ASCII digit after an unsigned number makes it ten
/// times as large plus that digit, or not a number when that does not fit
/// in an `i64`.
pub proof fn lemma_parse_appended_digit(word: Seq<char>, value: i64, c: char)
    requires
        word.len() > 0,
        '0' <= word[0] && word[0] <= '9',
        parsed_i64(word) == Some(value),
        '0' <= c && c <= '9',
    ensures
        value * 10 + (c as int - 48) <= i64::MAX ==> parsed_i64(word.push(c)) == Some(
            (value * 10 + (c as int - 48)) as i64,
        ),
        value * 10 + (c as int - 48) > i64::MAX ==> parsed_i64(word.push(c)) is None,
{
    let longer = word.push(c);
    assert(longer.drop_last() =~= word);
    assert(longer[0] == word[0]);
    assert(all_digits(longer)) by {
        assert forall|i: int| 0 <= i < longer.len() implies is_digit(#[trigger] longer[i]) by {
            if i < word.len() {
                assert(longer[i] == word[i]);
            }
        }
    }
}

/// Law: a `+` in front of an unsigned number changes nothing, and a `-` in
/// front of it negates it; the one negative number whose magnitude is not
/// itself an `i64` is `i64::MIN`.
pub proof fn lemma_parse_signs(word: Seq<char>)
    requires
        word.len() > 0,
        word[0] != '+' && word[0] != '-',
    ensures
        parsed_i64(seq!['+'] + word) == parsed_i64(word),
        parsed_i64(word) matches Some(value) ==> parsed_i64(seq!['-'] + word) == Some(
            (-value) as i64,
        ),
        parsed_i64(seq!['-'] + word) matches Some(value) ==> value <= 0 && (value == i64::MIN
            || parsed_i64(word) == Some((-value) as i64)),
{
    assert((seq!['+'] + word).drop_first() =~= word);
    assert((seq!['-'] + word).drop_first() =~= word);
}

/// Law: the decimal text of a positive number does not start with `0`, and
/// the text of a number with more than one digit is the text of the number
/// without its last digit, then that digit.
pub proof fn lemma_decimal_shape(n: nat)
    ensures
        n > 0 ==> decimal(n)[0] != '0',
        n >= 10 ==> decimal(n) == decimal(n / 10) + seq![digit_char(n % 10)],
        n < 10 ==> decimal(n) == seq![(n + 48) as char],
    decreases n,
{
    if n >= 10 {
        lemma_decimal_shape(n / 10);
        assert(decimal(n)[0] == decimal(n / 10)[0]);
        assert(decimal(n / 10) + seq![digit_char(n % 10)] =~= decimal(n));
    }
}

} // verus!
