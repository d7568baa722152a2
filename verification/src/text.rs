//! Reading numbers and lists from text.

use vstd::prelude::*;
use vstd::string::{StrSliceExecFns, StringExecFns};

verus! {

/// `c` is one of the digits `0` to `9`.
pub open spec fn is_digit(c: char) -> bool {
    '0' <= c && c <= '9'
}

/// The number that the digits `s` write in decimal.
pub open spec fn decimal_value(s: Seq<char>) -> nat
    decreases s.len(),
{
    if s.len() == 0 {
        0
    } else {
        decimal_value(s.drop_last()) * 10 + (s.last() as u32 - '0' as u32) as nat
    }
}

/// `s` is made of digits, and of one at least.
pub open spec fn is_number(s: Seq<char>) -> bool {
    s.len() > 0 && forall|i: int| 0 <= i < s.len() ==> is_digit(#[trigger] s[i])
}

/// The number that `text` reads as: digits, after a `+` or not, that
/// write a number of 64 bits. Anything else reads as no number: the
/// empty text, a sign alone, a space, a number too large.
pub open spec fn u64_parsed(text: Seq<char>) -> Option<u64> {
    let digits = if text.len() > 0 && text[0] == '+' {
        text.drop_first()
    } else {
        text
    };
    if is_number(digits) && decimal_value(digits) <= u64::MAX {
        Some(decimal_value(digits) as u64)
    } else {
        None
    }
}

/// The number that `text` reads as: digits, after a `+` or a `-` or
/// neither, that write a number of 32 bits with its sign. Anything else
/// reads as no number.
pub open spec fn i32_parsed(text: Seq<char>) -> Option<i32> {
    if text.len() > 0 && text[0] == '-' {
        let digits = text.drop_first();
        if is_number(digits) && decimal_value(digits) <= 0x8000_0000 {
            Some((0 - decimal_value(digits)) as i32)
        } else {
            None
        }
    } else {
        let digits = if text.len() > 0 && text[0] == '+' {
            text.drop_first()
        } else {
            text
        };
        if is_number(digits) && decimal_value(digits) <= i32::MAX {
            Some(decimal_value(digits) as i32)
        } else {
            None
        }
    }
}

/// The truth value that `text` reads as: `true` and `false` read as
/// themselves, and nothing else reads as either.
pub open spec fn bool_parsed(text: Seq<char>) -> Option<bool> {
    if text == "true"@ {
        Some(true)
    } else if text == "false"@ {
        Some(false)
    } else {
        None
    }
}

/// `s` cut at every `sep`: the pieces between the separators, in order.
/// A text without a separator is one piece; a separator at either end
/// leaves an empty piece there.
pub open spec fn split_text(s: Seq<char>, sep: char) -> Seq<Seq<char>>
    decreases s.len(),
{
    if s.len() == 0 {
        seq![Seq::empty()]
    } else {
        let front = split_text(s.drop_last(), sep);
        if s.last() == sep {
            front.push(Seq::empty())
        } else {
            front.drop_last().push(front.last().push(s.last()))
        }
    }
}

/// The texts of a list of strings.
pub open spec fn texts(v: Seq<String>) -> Seq<Seq<char>> {
    v.map_values(|s: String| s@)
}

/// More digits write no smaller number.
pub proof fn lemma_decimal_value_grows(s: Seq<char>, k: int)
    requires
        0 <= k <= s.len(),
        forall|i: int| 0 <= i < s.len() ==> is_digit(#[trigger] s[i]),
    ensures
        decimal_value(s.take(k)) <= decimal_value(s),
    decreases s.len() - k,
{
    if k < s.len() {
        let front = s.drop_last();
        assert(front.take(k) =~= s.take(k));
        assert(is_digit(s[s.len() - 1]));
        assert forall|i: int| 0 <= i < front.len() implies is_digit(#[trigger] front[i]) by {
            assert(front[i] == s[i]);
        }
        lemma_decimal_value_grows(front, k);
    } else {
        assert(s.take(k) =~= s);
    }
}

/// Reads the digits of `text` from position `from` on, up to `limit`:
/// their number, or nothing where they are no number or write one
/// above `limit`.
fn parse_digits(text: &str, from: usize, limit: u64) -> (r: Option<u64>)
    requires
        from <= text@.len(),
        limit >= 9,
    ensures
        r == if is_number(text@.skip(from as int)) && decimal_value(text@.skip(from as int))
            <= limit {
            Some(decimal_value(text@.skip(from as int)) as u64)
        } else {
            None
        },
{
    let ghost digits = text@.skip(from as int);
    let n = text.unicode_len();
    if from == n {
        return None;
    }
    let mut acc: u64 = 0;
    let mut i: usize = from;
    assert(digits.take(0) =~= Seq::<char>::empty());
    while i < n
        invariant
            from <= i <= n,
            n == text@.len(),
            digits == text@.skip(from as int),
            forall|k: int| 0 <= k < i - from ==> is_digit(#[trigger] digits[k]),
            acc == decimal_value(digits.take(i - from)),
            acc <= limit,
            limit >= 9,
        decreases n - i,
    {
        let c = text.get_char(i);
        assert(digits[i - from] == c);
        if !(c >= '0' && c <= '9') {
            return None;
        }
        let d: u64 = (c as u32 - '0' as u32) as u64;
        proof {
            assert(digits.take(i - from + 1).drop_last() =~= digits.take(i - from));
            assert(digits.take(i - from + 1).last() == c);
            assert(decimal_value(digits.take(i - from + 1)) == acc * 10 + d);
        }
        if acc > (limit - d) / 10 {
            proof {
                assert(acc * 10 + d > limit);
                if is_number(digits) {
                    lemma_decimal_value_grows(digits, i - from + 1);
                }
            }
            return None;
        }
        acc = acc * 10 + d;
        i += 1;
    }
    proof {
        assert(digits.take(digits.len() as int) =~= digits);
    }
    Some(acc)
}

/// Reads a number of 64 bits.
pub fn parse_u64(text: &str) -> (r: Option<u64>)
    ensures
        r == u64_parsed(text@),
{
    let n = text.unicode_len();
    let from: usize = if n > 0 && text.get_char(0) == '+' {
        1
    } else {
        0
    };
    proof {
        assert(text@.skip(0) =~= text@);
        assert(text@.skip(1) =~= text@.drop_first());
    }
    parse_digits(text, from, u64::MAX)
}

/// Reads a number of 32 bits with its sign.
pub fn parse_i32(text: &str) -> (r: Option<i32>)
    ensures
        r == i32_parsed(text@),
{
    let n = text.unicode_len();
    proof {
        assert(text@.skip(0) =~= text@);
        assert(text@.skip(1) =~= text@.drop_first());
    }
    if n > 0 && text.get_char(0) == '-' {
        match parse_digits(text, 1, 0x8000_0000) {
            Some(v) => {
                if v == 0x8000_0000 {
                    Some(i32::MIN)
                } else {
                    Some(0 - (v as i32))
                }
            },
            None => None,
        }
    } else {
        let from: usize = if n > 0 && text.get_char(0) == '+' {
            1
        } else {
            0
        };
        match parse_digits(text, from, 0x7fff_ffff) {
            Some(v) => Some(v as i32),
            None => None,
        }
    }
}

/// Reads a truth value.
pub fn parse_bool(text: &str) -> (r: Option<bool>)
    ensures
        r == bool_parsed(text@),
{
    let given = text.to_owned();
    if given == "true".to_owned() {
        Some(true)
    } else if given == "false".to_owned() {
        Some(false)
    } else {
        None
    }
}

/// Cuts `text` at every `sep`.
pub fn split(text: &str, sep: char) -> (r: Vec<String>)
    ensures
        texts(r@) == split_text(text@, sep),
{
    let ghost s = text@;
    let n = text.unicode_len();
    let mut done: Vec<String> = Vec::new();
    let mut start: usize = 0;
    let mut i: usize = 0;
    proof {
        assert(s.take(0) =~= Seq::<char>::empty());
        assert(s.subrange(0, 0) =~= Seq::<char>::empty());
        assert(texts(done@).push(s.subrange(0, 0)) =~= seq![Seq::<char>::empty()]);
    }
    while i < n
        invariant
            start <= i <= n,
            n == s.len(),
            s == text@,
            split_text(s.take(i as int), sep) == texts(done@).push(
                s.subrange(start as int, i as int),
            ),
        decreases n - i,
    {
        let c = text.get_char(i);
        proof {
            assert(s.take(i + 1).drop_last() =~= s.take(i as int));
            assert(s.take(i + 1).last() == c);
        }
        if c == sep {
            let piece = text.substring_char(start, i).to_owned();
            proof {
                let before = texts(done@).push(s.subrange(start as int, i as int));
                assert(texts(done@.push(piece)) =~= before);
                assert(s.subrange(i + 1, i + 1) =~= Seq::<char>::empty());
            }
            done.push(piece);
            start = i + 1;
        } else {
            proof {
                let before = texts(done@).push(s.subrange(start as int, i as int));
                assert(before.drop_last() =~= texts(done@));
                assert(before.last().push(c) =~= s.subrange(start as int, i + 1));
            }
        }
        i += 1;
    }
    let last = text.substring_char(start, n).to_owned();
    proof {
        assert(s.take(n as int) =~= s);
        assert(texts(done@.push(last)) =~= texts(done@).push(s.subrange(start as int, n as int)));
    }
    done.push(last);
    done
}


/// `c` is white space: a blank, a tab, an end of line, or one of the
/// other spacing characters of Unicode.
pub open spec fn is_space(c: char) -> bool {
    let n = c as u32;
    (0x09 <= n <= 0x0d) || n == 0x20 || n == 0x85 || n == 0xa0 || n == 0x1680 || (0x2000 <= n
        <= 0x200a) || n == 0x2028 || n == 0x2029 || n == 0x202f || n == 0x205f || n == 0x3000
}

/// `s` without the white space at its start.
pub open spec fn trimmed_start(s: Seq<char>) -> Seq<char>
    decreases s.len(),
{
    if s.len() > 0 && is_space(s[0]) {
        trimmed_start(s.drop_first())
    } else {
        s
    }
}

/// `s` without the white space at its end.
pub open spec fn trimmed_end(s: Seq<char>) -> Seq<char>
    decreases s.len(),
{
    if s.len() > 0 && is_space(s.last()) {
        trimmed_end(s.drop_last())
    } else {
        s
    }
}

/// `s` without the white space at its start and at its end.
pub open spec fn trimmed_text(s: Seq<char>) -> Seq<char> {
    trimmed_end(trimmed_start(s))
}

/// Whether `c` is white space.
pub fn space(c: char) -> (r: bool)
    ensures
        r == is_space(c),
{
    let n = c as u32;
    (0x09 <= n && n <= 0x0d) || n == 0x20 || n == 0x85 || n == 0xa0 || n == 0x1680 || (0x2000 <= n
        && n <= 0x200a) || n == 0x2028 || n == 0x2029 || n == 0x202f || n == 0x205f || n
        == 0x3000
}

/// Removes the white space around a text.
pub fn trim(text: &str) -> (r: String)
    ensures
        r@ == trimmed_text(text@),
{
    let ghost s = text@;
    let n = text.unicode_len();
    let mut i: usize = 0;
    assert(s.skip(0) =~= s);
    while i < n && space(text.get_char(i))
        invariant
            i <= n,
            n == s.len(),
            s == text@,
            trimmed_start(s) == trimmed_start(s.skip(i as int)),
        decreases n - i,
    {
        proof {
            assert(s.skip(i as int)[0] == s[i as int]);
            assert(s.skip(i as int).drop_first() =~= s.skip(i + 1));
        }
        i += 1;
    }
    proof {
        if i < n {
            assert(s.skip(i as int)[0] == s[i as int]);
        }
        assert(trimmed_start(s) == s.skip(i as int));
        assert(s.skip(i as int) =~= s.subrange(i as int, n as int));
    }
    let mut j: usize = n;
    while j > i && space(text.get_char(j - 1))
        invariant
            i <= j <= n,
            n == s.len(),
            s == text@,
            trimmed_text(s) == trimmed_end(s.subrange(i as int, j as int)),
        decreases j,
    {
        proof {
            assert(s.subrange(i as int, j as int).last() == s[j - 1]);
            assert(s.subrange(i as int, j as int).drop_last() =~= s.subrange(i as int, j - 1));
        }
        j -= 1;
    }
    proof {
        if j > i {
            assert(s.subrange(i as int, j as int).last() == s[j - 1]);
        }
    }
    text.substring_char(i, j).to_owned()
}


/// The character that writes the digit `d`.
pub open spec fn digit_char(d: int) -> char {
    if d == 0 {
        '0'
    } else if d == 1 {
        '1'
    } else if d == 2 {
        '2'
    } else if d == 3 {
        '3'
    } else if d == 4 {
        '4'
    } else if d == 5 {
        '5'
    } else if d == 6 {
        '6'
    } else if d == 7 {
        '7'
    } else if d == 8 {
        '8'
    } else {
        '9'
    }
}

/// The number `n` written in decimal, without a sign and without
/// leading zeros.
pub open spec fn decimal_text(n: nat) -> Seq<char>
    decreases n,
{
    if n < 10 {
        seq![digit_char(n as int)]
    } else {
        decimal_text(n / 10).push(digit_char((n % 10) as int))
    }
}

/// The text of one digit.
fn digit_text(d: u64) -> (r: &'static str)
    requires
        d < 10,
    ensures
        r@ == seq![digit_char(d as int)],
{
    proof {
        reveal_strlit("0");
        reveal_strlit("1");
        reveal_strlit("2");
        reveal_strlit("3");
        reveal_strlit("4");
        reveal_strlit("5");
        reveal_strlit("6");
        reveal_strlit("7");
        reveal_strlit("8");
        reveal_strlit("9");
    }
    let r = if d == 0 {
        "0"
    } else if d == 1 {
        "1"
    } else if d == 2 {
        "2"
    } else if d == 3 {
        "3"
    } else if d == 4 {
        "4"
    } else if d == 5 {
        "5"
    } else if d == 6 {
        "6"
    } else if d == 7 {
        "7"
    } else if d == 8 {
        "8"
    } else {
        "9"
    };
    assert(r@ =~= seq![digit_char(d as int)]);
    r
}

/// Writes a number in decimal.
pub fn show_u64(n: u64) -> (r: String)
    ensures
        r@ == decimal_text(n as nat),
{
    let mut low: Vec<u64> = Vec::new();
    let mut rest: u64 = n;
    let ghost mut tail: Seq<char> = Seq::empty();
    assert(decimal_text(rest as nat) + tail =~= decimal_text(n as nat));
    while rest >= 10
        invariant
            decimal_text(n as nat) == decimal_text(rest as nat) + tail,
            tail.len() == low@.len(),
            forall|j: int| 0 <= j < low@.len() ==> low@[j] < 10,
            forall|j: int|
                0 <= j < tail.len() ==> tail[j] == digit_char(
                    (#[trigger] low@[low@.len() - 1 - j]) as int,
                ),
        decreases rest,
    {
        let d = rest % 10;
        proof {
            let front = decimal_text((rest / 10) as nat);
            let grown = seq![digit_char(d as int)] + tail;
            assert(decimal_text(rest as nat) == front.push(digit_char(d as int)));
            assert(front.push(digit_char(d as int)) + tail =~= front + grown);
            assert forall|j: int| 0 <= j < grown.len() implies grown[j] == digit_char(
                (#[trigger] low@.push(d)[low@.len() + 1 - 1 - j]) as int,
            ) by {
                if j > 0 {
                    assert(grown[j] == tail[j - 1]);
                    assert(low@.push(d)[low@.len() - j] == low@[low@.len() - 1 - (j - 1)]);
                }
            }
            tail = grown;
        }
        low.push(d);
        rest = rest / 10;
    }
    let mut out = digit_text(rest).to_owned();
    let mut k: usize = low.len();
    proof {
        assert(decimal_text(rest as nat) =~= seq![digit_char(rest as int)]);
        assert(tail.take(0) =~= Seq::<char>::empty());
        assert(out@ + Seq::<char>::empty() =~= out@);
    }
    while k > 0
        invariant
            k <= low@.len(),
            tail.len() == low@.len(),
            forall|j: int| 0 <= j < low@.len() ==> low@[j] < 10,
            forall|j: int|
                0 <= j < tail.len() ==> tail[j] == digit_char(
                    (#[trigger] low@[low@.len() - 1 - j]) as int,
                ),
            out@ == decimal_text(rest as nat) + tail.take(low@.len() - k),
        decreases k,
    {
        k -= 1;
        let ghost j = low@.len() - 1 - k;
        proof {
            assert(tail[j] == digit_char(low@[low@.len() - 1 - j] as int));
            assert(tail.take(j + 1) =~= tail.take(j).push(tail[j]));
            assert((decimal_text(rest as nat) + tail.take(j)) + seq![tail[j]] =~= decimal_text(
                rest as nat,
            ) + tail.take(j + 1));
        }
        out.append(digit_text(low[k]));
    }
    proof {
        assert(tail.take(tail.len() as int) =~= tail);
    }
    out
}

} // verus!
