//! The text form of a data set: decimal numbers, each followed by a space.

use vstd::prelude::*;

verus! {

/// `String::push` of the standard library appends `c` to the string.
pub assume_specification[ String::push ](s: &mut String, c: char)
    ensures
        final(s)@ == old(s)@.push(c),
;

/// The characters with the Unicode property `White_Space`: what separates the
/// numbers of a text.
pub open spec fn is_whitespace(c: char) -> bool {
    let u = c as u32;
    ||| 0x09 <= u <= 0x0d
    ||| u == 0x20
    ||| u == 0x85
    ||| u == 0xa0
    ||| u == 0x1680
    ||| 0x2000 <= u <= 0x200a
    ||| u == 0x2028
    ||| u == 0x2029
    ||| u == 0x202f
    ||| u == 0x205f
    ||| u == 0x3000
}

/// The ten decimal digits.
pub open spec fn is_digit(c: char) -> bool {
    0x30 <= c as u32 <= 0x39
}

/// The value of a decimal digit, and 0 for any other character.
pub open spec fn digit_value(c: char) -> nat {
    if is_digit(c) {
        (c as u32 - 0x30) as nat
    } else {
        0
    }
}

/// The digit of the value `d`, for `d` below ten.
pub open spec fn digit_of(d: nat) -> char {
    (d + 0x30) as char
}

/// The number that a sequence of digits denotes in base ten.
pub open spec fn number(digits: Seq<char>) -> nat
    decreases digits.len(),
{
    if digits.len() == 0 {
        0
    } else {
        number(digits.drop_last()) * 10 + digit_value(digits.last())
    }
}

/// The decimal digits of `n`, without leading zeros.
pub open spec fn decimal(n: nat) -> Seq<char>
    decreases n,
{
    if n < 10 {
        seq![digit_of(n)]
    } else {
        decimal(n / 10).push(digit_of(n % 10))
    }
}

/// The text of `numbers`: each in decimal and followed by one space.
pub open spec fn rendered(numbers: Seq<usize>) -> Seq<char>
    decreases numbers.len(),
{
    if numbers.len() == 0 {
        Seq::empty()
    } else {
        decimal(numbers[0] as nat).push(' ') + rendered(numbers.drop_first())
    }
}

/// Appending a number to the sequence appends its digits and a space to the text.
pub proof fn lemma_rendered_push(numbers: Seq<usize>, n: usize)
    ensures
        rendered(numbers.push(n)) == rendered(numbers) + decimal(n as nat).push(' '),
    decreases numbers.len(),
{
    if numbers.len() == 0 {
        let one = numbers.push(n);
        assert(one.drop_first() =~= numbers);
        assert(rendered(one) == decimal(one[0] as nat).push(' ') + rendered(one.drop_first()));
        assert(rendered(one) =~= rendered(numbers) + decimal(n as nat).push(' '));
    } else {
        let tail = numbers.drop_first();
        lemma_rendered_push(tail, n);
        assert(numbers.push(n).drop_first() =~= tail.push(n));
        assert(rendered(numbers.push(n)) =~= rendered(numbers) + decimal(n as nat).push(' '));
    }
}

/// Appends the decimal digits of `n` to `text`.
fn push_decimal(text: &mut String, n: usize)
    ensures
        final(text)@ == old(text)@ + decimal(n as nat),
    decreases n,
{
    if n >= 10 {
        push_decimal(text, n / 10);
    }
    let digit: u8 = (n % 10) as u8;
    text.push((0x30u8 + digit) as char);
    assert(text@ =~= old(text)@ + decimal(n as nat));
}

/// Writes `numbers` as text: each number in decimal, followed by one space.
pub fn render(numbers: &[usize]) -> (text: String)
    ensures
        text@ == rendered(numbers@),
{
    let mut text = String::new();
    let n = numbers.len();
    for i in 0..n
        invariant
            n == numbers@.len(),
            text@ == rendered(numbers@.take(i as int)),
    {
        push_decimal(&mut text, numbers[i]);
        text.push(' ');
        proof {
            lemma_rendered_push(numbers@.take(i as int), numbers@[i as int]);
            assert(numbers@.take(i as int).push(numbers@[i as int]) =~= numbers@.take(i + 1));
        }
    }
    proof {
        assert(numbers@.take(n as int) =~= numbers@);
    }
    text
}

/// The digits of a token: all of it, or what follows one leading plus sign.
pub open spec fn digits_of(token: Seq<char>) -> Seq<char> {
    if token.len() >= 2 && token[0] == '+' {
        token.drop_first()
    } else {
        token
    }
}

/// The number that a token stands for: its digits in base ten, where it has at
/// least one, holds nothing else, and the number fits a `usize`.
pub open spec fn value_of(token: Seq<char>) -> Option<usize> {
    let digits = digits_of(token);
    if digits.len() > 0 && (forall|i: int| 0 <= i < digits.len() ==> is_digit(#[trigger] digits[i]))
        && number(digits) <= usize::MAX {
        Some(number(digits) as usize)
    } else {
        None
    }
}

/// How many characters come before the first whitespace of `s`.
pub open spec fn run_length(s: Seq<char>) -> nat
    decreases s.len(),
{
    if s.len() == 0 || is_whitespace(s[0]) {
        0
    } else {
        1 + run_length(s.drop_first())
    }
}

/// The run at the start of `s` lies within `s`, holds no whitespace, and ends at
/// whitespace or at the end of `s`.
pub proof fn lemma_run_length(s: Seq<char>)
    ensures
        run_length(s) <= s.len(),
        forall|i: int| 0 <= i < run_length(s) ==> !is_whitespace(#[trigger] s[i]),
        run_length(s) < s.len() ==> is_whitespace(s[run_length(s) as int]),
    decreases s.len(),
{
    if s.len() == 0 || is_whitespace(s[0]) {
    } else {
        let tail = s.drop_first();
        lemma_run_length(tail);
        assert forall|i: int| 0 <= i < run_length(s) implies !is_whitespace(#[trigger] s[i]) by {
            if i > 0 {
                assert(!is_whitespace(tail[i - 1]));
            }
        }
        if run_length(s) < s.len() {
            assert(s[run_length(s) as int] == tail[run_length(tail) as int]);
        }
    }
}

/// A stretch without whitespace that ends at whitespace, or at the end of `s`,
/// is the run at the start of `s`.
pub proof fn lemma_run_is(s: Seq<char>, r: int)
    requires
        0 <= r <= s.len(),
        forall|i: int| 0 <= i < r ==> !is_whitespace(#[trigger] s[i]),
        r < s.len() ==> is_whitespace(s[r]),
    ensures
        run_length(s) == r,
    decreases r,
{
    if r > 0 {
        let tail = s.drop_first();
        assert forall|i: int| 0 <= i < r - 1 implies !is_whitespace(#[trigger] tail[i]) by {
            assert(!is_whitespace(s[i + 1]));
        }
        assert(!is_whitespace(s[0]));
        lemma_run_is(tail, r - 1);
    }
}

/// The tokens of a text: its longest stretches without whitespace, in order.
pub open spec fn tokens(s: Seq<char>) -> Seq<Seq<char>>
    decreases s.len(),
    via tokens_decreases
{
    if s.len() == 0 {
        Seq::empty()
    } else if is_whitespace(s[0]) {
        tokens(s.drop_first())
    } else {
        seq![s.take(run_length(s) as int)] + tokens(s.skip(run_length(s) as int))
    }
}

#[via_fn]
proof fn tokens_decreases(s: Seq<char>) {
    lemma_run_length(s);
}

/// The numbers of a text: the values of its tokens, if each of them has one.
pub open spec fn numbers_of(text: Seq<char>) -> Option<Seq<usize>> {
    let found = tokens(text);
    if forall|k: int| 0 <= k < found.len() ==> value_of(#[trigger] found[k]) is Some {
        Some(Seq::new(found.len(), |k: int| value_of(found[k]).unwrap()))
    } else {
        None
    }
}

/// A text that starts with a token holds that token, then the tokens of the rest.
pub proof fn lemma_tokens_step(s: Seq<char>, r: int)
    requires
        0 < r <= s.len(),
        forall|i: int| 0 <= i < r ==> !is_whitespace(#[trigger] s[i]),
        r < s.len() ==> is_whitespace(s[r]),
    ensures
        tokens(s) == seq![s.take(r)] + tokens(s.skip(r)),
{
    lemma_run_is(s, r);
    assert(!is_whitespace(s[0]));
}

/// The digits at the start of a sequence denote at most what the whole denotes.
pub proof fn lemma_number_prefix(digits: Seq<char>, m: int)
    requires
        0 <= m <= digits.len(),
    ensures
        number(digits.take(m)) <= number(digits),
    decreases digits.len() - m,
{
    if m < digits.len() {
        let front = digits.drop_last();
        lemma_number_prefix(front, m);
        assert(front.take(m) =~= digits.take(m));
        assert(number(front) <= number(front) * 10) by (nonlinear_arith);
    } else {
        assert(digits.take(m) =~= digits);
    }
}

/// The decimal digits of `n` are digits, at least one, and denote `n`.
pub proof fn lemma_decimal(n: nat)
    ensures
        decimal(n).len() > 0,
        forall|i: int| 0 <= i < decimal(n).len() ==> is_digit(#[trigger] decimal(n)[i]),
        number(decimal(n)) == n,
    decreases n,
{
    if n < 10 {
        let one = seq![digit_of(n)];
        assert(one.drop_last() =~= Seq::<char>::empty());
        assert(number(one) == number(one.drop_last()) * 10 + digit_value(one.last()));
    } else {
        lemma_decimal(n / 10);
        let front = decimal(n / 10);
        let all = front.push(digit_of(n % 10));
        assert(all.drop_last() =~= front);
        assert(number(all) == number(front) * 10 + digit_value(all.last()));
        assert forall|i: int| 0 <= i < all.len() implies is_digit(#[trigger] all[i]) by {
            if i < front.len() {
                assert(is_digit(front[i]));
            }
        }
    }
}

/// Reading a number back from its decimal digits gives the number.
pub proof fn lemma_value_of_decimal(n: usize)
    ensures
        value_of(decimal(n as nat)) == Some(n),
{
    lemma_decimal(n as nat);
    assert(is_digit(decimal(n as nat)[0]));
}

/// Reading back the text of a sequence of numbers gives the sequence.
pub proof fn lemma_parse_render(numbers: Seq<usize>)
    ensures
        tokens(rendered(numbers)).len() == numbers.len(),
        forall|k: int|
            0 <= k < numbers.len() ==> #[trigger] tokens(rendered(numbers))[k] == decimal(
                numbers[k] as nat,
            ),
        numbers_of(rendered(numbers)) == Some(numbers),
    decreases numbers.len(),
{
    let text = rendered(numbers);
    if numbers.len() > 0 {
        let first = decimal(numbers[0] as nat);
        let tail = numbers.drop_first();
        let r = first.len() as int;
        let after = seq![' '] + rendered(tail);
        lemma_decimal(numbers[0] as nat);
        lemma_parse_render(tail);
        assert(text =~= first.push(' ') + rendered(tail));
        assert forall|i: int| 0 <= i < r implies !is_whitespace(#[trigger] text[i]) by {
            assert(is_digit(first[i]));
        }
        assert(is_whitespace(text[r]));
        lemma_tokens_step(text, r);
        assert(text.take(r) =~= first);
        assert(text.skip(r) =~= after);
        assert(after.drop_first() =~= rendered(tail));
        assert(tokens(after) == tokens(rendered(tail)));
        assert(tokens(text) =~= seq![first] + tokens(rendered(tail)));
        assert forall|k: int| 0 <= k < numbers.len() implies #[trigger] tokens(text)[k] == decimal(
            numbers[k] as nat,
        ) by {
            if k > 0 {
                assert(tokens(rendered(tail))[k - 1] == decimal(tail[k - 1] as nat));
            }
        }
    }
    assert forall|k: int| 0 <= k < tokens(text).len() implies value_of(#[trigger] tokens(text)[k])
        == Some(numbers[k]) by {
        lemma_value_of_decimal(numbers[k]);
    }
    assert(numbers_of(text).unwrap() =~= numbers);
}

/// Whether `c` separates numbers.
fn separates(c: char) -> (r: bool)
    ensures
        r == is_whitespace(c),
{
    let u = c as u32;
    (0x09 <= u && u <= 0x0d) || u == 0x20 || u == 0x85 || u == 0xa0 || u == 0x1680 || (0x2000 <= u
        && u <= 0x200a) || u == 0x2028 || u == 0x2029 || u == 0x202f || u == 0x205f || u == 0x3000
}

/// The characters of `text`.
fn characters(text: &str) -> (chars: Vec<char>)
    ensures
        chars@ == text@,
{
    let mut chars: Vec<char> = Vec::new();
    for c in it: text.chars()
        invariant
            chars@ == it.history(),
    {
        chars.push(c);
    }
    chars
}

/// The value of the token `chars[from..to]`.
fn token_value(chars: &Vec<char>, from: usize, to: usize) -> (value: Option<usize>)
    requires
        from < to <= chars@.len(),
    ensures
        value == value_of(chars@.subrange(from as int, to as int)),
{
    let start = if to - from >= 2 && chars[from] == '+' {
        from + 1
    } else {
        from
    };
    let ghost digits = chars@.subrange(start as int, to as int);
    proof {
        let token = chars@.subrange(from as int, to as int);
        assert(digits =~= digits_of(token));
        assert(digits.take(0) =~= Seq::<char>::empty());
    }
    let mut value: usize = 0;
    let mut k = start;
    while k < to
        invariant
            start <= k <= to <= chars@.len(),
            from < to,
            digits == chars@.subrange(start as int, to as int),
            digits == digits_of(chars@.subrange(from as int, to as int)),
            forall|i: int| 0 <= i < k - start ==> is_digit(#[trigger] digits[i]),
            value == number(digits.take(k - start)),
        decreases to - k,
    {
        let c = chars[k];
        let u = c as u32;
        proof {
            assert(digits[k - start] == c);
            assert(digits.take(k - start + 1).drop_last() =~= digits.take(k - start));
            lemma_number_prefix(digits, k - start + 1);
        }
        if u < 0x30 || u > 0x39 {
            return None;
        }
        let d = (u - 0x30) as usize;
        match value.checked_mul(10) {
            None => {
                return None;
            },
            Some(tens) => match tens.checked_add(d) {
                None => {
                    return None;
                },
                Some(next) => {
                    value = next;
                },
            },
        }
        k += 1;
    }
    proof {
        assert(digits.take(k - start) =~= digits);
    }
    Some(value)
}

/// Reads the numbers of `text`: the values of its tokens, which whitespace
/// separates. A token has a value if it is made of decimal digits, after one plus
/// sign or none, and the number fits a `usize`.
///
/// Returns `None` if some token has no value.
pub fn parse(text: &str) -> (numbers: Option<Vec<usize>>)
    ensures
        match numbers {
            Some(found) => numbers_of(text@) == Some(found@),
            None => numbers_of(text@) is None,
        },
{
    let chars = characters(text);
    let n = chars.len();
    let mut numbers: Vec<usize> = Vec::new();
    let ghost mut done: Seq<Seq<char>> = Seq::empty();
    let mut i: usize = 0;
    proof {
        assert(chars@.skip(0) =~= chars@);
        assert(done + tokens(chars@) =~= tokens(chars@));
    }
    while i < n
        invariant
            i <= n,
            n == chars@.len(),
            chars@ == text@,
            done + tokens(chars@.skip(i as int)) == tokens(chars@),
            numbers@.len() == done.len(),
            forall|k: int| 0 <= k < done.len() ==> value_of(#[trigger] done[k]) == Some(numbers@[k]),
        decreases n - i,
    {
        let ghost rest = chars@.skip(i as int);
        if separates(chars[i]) {
            proof {
                assert(rest.drop_first() =~= chars@.skip(i + 1));
            }
            i += 1;
        } else {
            let mut j: usize = i + 1;
            while j < n && !separates(chars[j])
                invariant
                    i < j <= n,
                    n == chars@.len(),
                    forall|k: int| i <= k < j ==> !is_whitespace(#[trigger] chars@[k]),
                decreases n - j,
            {
                j += 1;
            }
            let ghost token = chars@.subrange(i as int, j as int);
            proof {
                assert forall|k: int| 0 <= k < j - i implies !is_whitespace(#[trigger] rest[k]) by {
                    assert(!is_whitespace(chars@[i + k]));
                }
                lemma_tokens_step(rest, j - i);
                assert(rest.take(j - i) =~= token);
                assert(rest.skip(j - i) =~= chars@.skip(j as int));
                assert(done.push(token) + tokens(chars@.skip(j as int)) =~= tokens(chars@));
            }
            match token_value(&chars, i, j) {
                None => {
                    proof {
                        assert(tokens(chars@)[done.len() as int] == token);
                    }
                    return None;
                },
                Some(value) => {
                    numbers.push(value);
                    proof {
                        done = done.push(token);
                    }
                },
            }
            i = j;
        }
    }
    proof {
        assert(chars@.skip(n as int) =~= Seq::<char>::empty());
        assert(done =~= tokens(chars@));
        assert(numbers@ =~= numbers_of(text@).unwrap());
    }
    Some(numbers)
}

} // verus!
