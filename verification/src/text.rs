//! Reading and writing moves as text: decimal numbers, and words separated
//! by spaces.

use vstd::prelude::*;
use vstd::string::StrSliceExecFns;
use vstd::string::StringExecFns;

verus! {

/// `c` is one of the ten decimal digits.
pub open spec fn is_digit(c: char) -> bool {
    48 <= c as u32 <= 57
}

pub open spec fn all_digits(s: Seq<char>) -> bool {
    forall|i: int| 0 <= i < s.len() ==> is_digit(#[trigger] s[i])
}

/// The number that the decimal digits `s` denote.
pub open spec fn digits_value(s: Seq<char>) -> nat
    decreases s.len(),
{
    if s.len() == 0 {
        0
    } else {
        (digits_value(s.drop_last()) * 10 + (s.last() as u32 - 48)) as nat
    }
}

/// What `s` denotes as a machine word: a string of one or more decimal
/// digits, after an optional plus sign, whose value fits.
pub open spec fn spec_parse_usize(s: Seq<char>) -> Option<usize> {
    let body = if s.len() > 0 && s[0] == '+' {
        s.subrange(1, s.len() as int)
    } else {
        s
    };
    if body.len() > 0 && all_digits(body) && digits_value(body) <= usize::MAX {
        Some(digits_value(body) as usize)
    } else {
        None
    }
}

/// The decimal digit for `d`, which is below ten.
pub open spec fn digit_char(d: nat) -> char {
    (48 + d) as char
}

/// `n` in decimal digits, without leading zeros.
pub open spec fn decimal_text(n: nat) -> Seq<char>
    decreases n,
{
    if n < 10 {
        seq![digit_char(n)]
    } else {
        decimal_text(n / 10).push(digit_char(n % 10))
    }
}

/// The characters that lie between `from` and `to`.
pub open spec fn slice(s: Seq<char>, from: int, to: int) -> Seq<char> {
    s.subrange(from, to)
}

/// A longer string of digits denotes no smaller number than its beginning.
pub proof fn lemma_value_of_prefix(s: Seq<char>, n: int)
    requires
        all_digits(s),
        0 <= n <= s.len(),
    ensures
        digits_value(s.take(n)) <= digits_value(s),
        all_digits(s.take(n)),
    decreases s.len() - n,
{
    if n < s.len() {
        lemma_value_of_prefix(s, n + 1);
        assert(s.take(n + 1).drop_last() =~= s.take(n));
        assert(is_digit(s[n]));
    } else {
        assert(s.take(n) =~= s);
    }
}

/// The decimal text of a number is a non-empty string of digits that
/// denotes the number.
pub proof fn lemma_decimal_text(n: nat)
    ensures
        decimal_text(n).len() >= 1,
        all_digits(decimal_text(n)),
        digits_value(decimal_text(n)) == n,
    decreases n,
{
    if n < 10 {
        let s = decimal_text(n);
        assert(s.drop_last() =~= Seq::<char>::empty());
        assert(digit_char(n) as u32 == 48 + n);
        assert(s.last() == digit_char(n));
        assert(digits_value(s.drop_last()) == 0);
        assert(digits_value(s) == n);
    } else {
        lemma_decimal_text(n / 10);
        let s = decimal_text(n);
        assert(s.drop_last() =~= decimal_text(n / 10));
        assert(digit_char(n % 10) as u32 == 48 + n % 10);
        assert(s.last() == digit_char(n % 10));
        assert(digits_value(s) == (n / 10) * 10 + n % 10);
    }
}

/// Reading the decimal text of a machine word gives the word back.
pub proof fn lemma_parse_decimal(n: usize)
    ensures
        spec_parse_usize(decimal_text(n as nat)) == Some(n),
{
    lemma_decimal_text(n as nat);
    let s = decimal_text(n as nat);
    assert(is_digit(s[0]));
}

/// The characters of `s`.
pub fn chars_of(s: &str) -> (v: Vec<char>)
    ensures
        v@ == s@,
{
    let n: usize = s.unicode_len();
    let mut v: Vec<char> = Vec::new();
    let mut i: usize = 0;
    while i < n
        invariant
            i <= n,
            n == s@.len(),
            v@ == s@.take(i as int),
        decreases n - i,
    {
        v.push(s.get_char(i));
        proof {
            assert(v@ =~= s@.take(i + 1));
        }
        i += 1;
    }
    proof {
        assert(s@.take(n as int) =~= s@);
    }
    v
}

/// Reads the characters of `text` from `from` up to `to` as a machine
/// word.
pub fn parse_usize(text: &Vec<char>, from: usize, to: usize) -> (r: Option<usize>)
    requires
        from <= to <= text@.len(),
    ensures
        r == spec_parse_usize(slice(text@, from as int, to as int)),
{
    let ghost word = slice(text@, from as int, to as int);
    let start: usize = if from < to && text[from] == '+' {
        from + 1
    } else {
        from
    };
    let ghost body = slice(text@, start as int, to as int);
    proof {
        if from < to && text@[from as int] == '+' {
            assert(word[0] == '+');
            assert(body =~= word.subrange(1, word.len() as int));
        } else {
            if word.len() > 0 {
                assert(word[0] == text@[from as int]);
            }
            assert(body =~= word);
        }
    }
    if start == to {
        return None;
    }
    let ghost expected = spec_parse_usize(word);
    let mut value: usize = 0;
    let mut i: usize = start;
    while i < to
        invariant
            start <= i <= to <= text@.len(),
            body == slice(text@, start as int, to as int),
            from <= to,
            expected == spec_parse_usize(slice(text@, from as int, to as int)),
            expected == (if all_digits(body) && digits_value(body) <= usize::MAX {
                Some(digits_value(body) as usize)
            } else {
                None::<usize>
            }),
            all_digits(body.take(i - start)),
            value == digits_value(body.take(i - start)),
        decreases to - i,
    {
        let c: char = text[i];
        let code: u32 = c as u32;
        proof {
            assert(body[i - start] == c);
            assert(body.take(i - start + 1).drop_last() =~= body.take(i - start));
        }
        if code < 48 || code > 57 {
            proof {
                assert(!is_digit(body[i - start]));
                assert(!all_digits(body));
            }
            return None;
        }
        let digit: usize = (code - 48) as usize;
        if value > (usize::MAX - digit) / 10 {
            proof {
                assert(is_digit(c));
                assert(value * 10 + digit > usize::MAX);
                assert(digits_value(body.take(i - start + 1)) == value * 10 + digit);
                if all_digits(body) {
                    lemma_value_of_prefix(body, i - start + 1);
                }
            }
            return None;
        }
        value = value * 10 + digit;
        i += 1;
    }
    proof {
        assert(body.take(to - start) =~= body);
    }
    Some(value)
}

/// `n` in decimal digits.
pub fn format_usize(n: usize) -> (s: String)
    ensures
        s@ == decimal_text(n as nat),
    decreases n,
{
    let digit: &'static str = match n % 10 {
        0 => "0",
        1 => "1",
        2 => "2",
        3 => "3",
        4 => "4",
        5 => "5",
        6 => "6",
        7 => "7",
        8 => "8",
        _ => "9",
    };
    proof {
        reveal_strlit("0");
        reveal_strlit("1");
        reveal_strlit("2");
        reveal_strlit("3");
        reveal_strlit("4");
        reveal_strlit("5");
        reveal_strlit("6");
        reveal_strlit("7");
        reveal_strlit("8");
        reveal_strlit("9");
        assert(digit@ =~= seq![digit_char((n % 10) as nat)]);
    }
    if n < 10 {
        String::from_str(digit)
    } else {
        let mut s = format_usize(n / 10);
        s.append(digit);
        proof {
            assert(s@ =~= decimal_text(n as nat));
        }
        s
    }
}

/// The first position at or after `from` that holds a space; the length
/// of `s` where there is none.
pub open spec fn next_space(s: Seq<char>, from: int) -> int
    decreases s.len() - from,
{
    if from >= s.len() {
        s.len() as int
    } else if s[from] == ' ' {
        from
    } else {
        next_space(s, from + 1)
    }
}

pub fn find_space(text: &Vec<char>, from: usize) -> (at: usize)
    requires
        from <= text@.len(),
    ensures
        at == next_space(text@, from as int),
        from <= at <= text@.len(),
{
    let mut i: usize = from;
    while i < text.len() && text[i] != ' '
        invariant
            from <= i <= text@.len(),
            next_space(text@, from as int) == next_space(text@, i as int),
        decreases text@.len() - i,
    {
        i += 1;
    }
    i
}

/// White space, as Unicode defines it.
pub open spec fn is_blank(c: char) -> bool {
    let u = c as u32;
    ||| 0x09 <= u <= 0x0D
    ||| u == 0x20
    ||| u == 0x85
    ||| u == 0xA0
    ||| u == 0x1680
    ||| 0x2000 <= u <= 0x200A
    ||| u == 0x2028
    ||| u == 0x2029
    ||| u == 0x202F
    ||| u == 0x205F
    ||| u == 0x3000
}

pub fn blank(c: char) -> (b: bool)
    ensures
        b == is_blank(c),
{
    let u: u32 = c as u32;
    (0x09 <= u && u <= 0x0D) || u == 0x20 || u == 0x85 || u == 0xA0 || u == 0x1680 || (0x2000 <= u
        && u <= 0x200A) || u == 0x2028 || u == 0x2029 || u == 0x202F || u == 0x205F || u == 0x3000
}

/// The first position at or after `from` where a word begins: the first
/// that holds no white space; the length of `s` where there is none.
pub open spec fn next_word(s: Seq<char>, from: int) -> int
    decreases s.len() - from,
{
    if from >= s.len() {
        s.len() as int
    } else if !is_blank(s[from]) {
        from
    } else {
        next_word(s, from + 1)
    }
}

/// The first position at or after `from` where a word ends: the first
/// that holds white space; the length of `s` where there is none.
pub open spec fn word_end(s: Seq<char>, from: int) -> int
    decreases s.len() - from,
{
    if from >= s.len() {
        s.len() as int
    } else if is_blank(s[from]) {
        from
    } else {
        word_end(s, from + 1)
    }
}

pub fn find_word(text: &Vec<char>, from: usize) -> (at: usize)
    requires
        from <= text@.len(),
    ensures
        at == next_word(text@, from as int),
        from <= at <= text@.len(),
{
    let mut i: usize = from;
    while i < text.len() && blank(text[i])
        invariant
            from <= i <= text@.len(),
            next_word(text@, from as int) == next_word(text@, i as int),
        decreases text@.len() - i,
    {
        i += 1;
    }
    i
}

pub fn find_word_end(text: &Vec<char>, from: usize) -> (at: usize)
    requires
        from <= text@.len(),
    ensures
        at == word_end(text@, from as int),
        from <= at <= text@.len(),
{
    let mut i: usize = from;
    while i < text.len() && !blank(text[i])
        invariant
            from <= i <= text@.len(),
            word_end(text@, from as int) == word_end(text@, i as int),
        decreases text@.len() - i,
    {
        i += 1;
    }
    i
}

/// A string of digits that stands at `from` and is followed by a space or
/// by the end of `s` is found to end there, whether one looks for the next
/// space or for the end of the word; and a word begins at `from`.
pub proof fn lemma_digits_end(s: Seq<char>, from: int, to: int)
    requires
        0 <= from <= to <= s.len(),
        all_digits(s.subrange(from, to)),
        to == s.len() || s[to] == ' ',
    ensures
        next_space(s, from) == to,
        word_end(s, from) == to,
        from < to ==> next_word(s, from) == from,
    decreases to - from,
{
    if from < to {
        assert(is_digit(s.subrange(from, to)[0]));
        assert(s.subrange(from, to)[0] == s[from]);
        assert(all_digits(s.subrange(from + 1, to))) by {
            assert forall|i: int| 0 <= i < to - from - 1 implies is_digit(
                #[trigger] s.subrange(from + 1, to)[i],
            ) by {
                assert(s.subrange(from + 1, to)[i] == s.subrange(from, to)[i + 1]);
            }
        }
        lemma_digits_end(s, from + 1, to);
    }
}

} // verus!
