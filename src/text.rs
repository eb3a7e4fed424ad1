use vstd::prelude::*;

verus! {

/// Relies on `str::chars`: the characters of the string, in order.
#[verifier::external_body]
pub(crate) fn chars_of(s: &str) -> (r: Vec<char>)
    ensures
        r@ == s@,
{
    s.chars().collect()
}

/// Whether `c` is a white-space character: the Unicode `White_Space` set.
pub open spec fn is_whitespace(c: char) -> bool {
    ('\u{9}' <= c && c <= '\u{d}') || c == ' ' || c == '\u{85}' || c == '\u{a0}' || c
        == '\u{1680}' || ('\u{2000}' <= c && c <= '\u{200a}') || c == '\u{2028}' || c
        == '\u{2029}' || c == '\u{202f}' || c == '\u{205f}' || c == '\u{3000}'
}

/// `s` with every white-space character taken out.
pub open spec fn strip_whitespace(s: Seq<char>) -> Seq<char>
    decreases s.len(),
{
    if s.len() == 0 {
        s
    } else if is_whitespace(s.last()) {
        strip_whitespace(s.drop_last())
    } else {
        strip_whitespace(s.drop_last()).push(s.last())
    }
}

/// The position of the first `c` in `s`, or the length of `s` where there
/// is none.
pub open spec fn first_index(s: Seq<char>, c: char) -> int
    decreases s.len(),
{
    if s.len() == 0 {
        0
    } else if s[0] == c {
        0
    } else {
        1 + first_index(s.drop_first(), c)
    }
}

/// A position before which `s` has no `c`, and which holds `c` or is the
/// end, is the first index of `c`.
pub proof fn lemma_first_index(s: Seq<char>, c: char, k: int)
    requires
        0 <= k <= s.len(),
        forall|j: int| 0 <= j < k ==> s[j] != c,
        k == s.len() || s[k] == c,
    ensures
        first_index(s, c) == k,
    decreases s.len(),
{
    if s.len() > 0 && s[0] != c {
        lemma_first_index(s.drop_first(), c, k - 1);
    }
}

/// The first index of `c` lies in `s`, or is its end, with no `c` before.
pub proof fn lemma_first_index_bounds(s: Seq<char>, c: char)
    ensures
        0 <= first_index(s, c) <= s.len(),
        forall|j: int| 0 <= j < first_index(s, c) ==> s[j] != c,
        first_index(s, c) < s.len() ==> s[first_index(s, c)] == c,
    decreases s.len(),
{
    if s.len() > 0 && s[0] != c {
        let t = s.drop_first();
        lemma_first_index_bounds(t, c);
        assert forall|j: int| 0 <= j < first_index(s, c) implies s[j] != c by {
            if j > 0 {
                assert(s[j] == t[j - 1]);
            }
        }
    }
}

/// The first position in `start..end` where `s` holds `c`, or `end`.
pub fn find_in(s: &Vec<char>, start: usize, end: usize, c: char) -> (r: usize)
    requires
        start <= end <= s@.len(),
    ensures
        r == start + first_index(s@.subrange(start as int, end as int), c),
        start <= r <= end,
{
    let mut i = start;
    while i < end && s[i] != c
        invariant
            start <= i <= end <= s@.len(),
            forall|j: int| start <= j < i ==> s@[j] != c,
        decreases end - i,
    {
        i = i + 1;
    }
    proof {
        let t = s@.subrange(start as int, end as int);
        lemma_first_index(t, c, i - start);
    }
    i
}

/// Taking out white space never makes a string longer.
pub proof fn lemma_strip_whitespace_len(s: Seq<char>)
    ensures
        strip_whitespace(s).len() <= s.len(),
    decreases s.len(),
{
    if s.len() > 0 {
        lemma_strip_whitespace_len(s.drop_last());
    }
}

fn is_whitespace_char(c: char) -> (r: bool)
    ensures
        r == is_whitespace(c),
{
    ('\u{9}' <= c && c <= '\u{d}') || c == ' ' || c == '\u{85}' || c == '\u{a0}' || c
        == '\u{1680}' || ('\u{2000}' <= c && c <= '\u{200a}') || c == '\u{2028}' || c
        == '\u{2029}' || c == '\u{202f}' || c == '\u{205f}' || c == '\u{3000}'
}

/// The characters of `s` in `start..end` without white space.
pub fn strip_range(s: &Vec<char>, start: usize, end: usize) -> (r: Vec<char>)
    requires
        start <= end <= s@.len(),
    ensures
        r@ == strip_whitespace(s@.subrange(start as int, end as int)),
{
    let mut out: Vec<char> = Vec::new();
    let mut i = start;
    while i < end
        invariant
            start <= i <= end <= s@.len(),
            out@ == strip_whitespace(s@.subrange(start as int, i as int)),
        decreases end - i,
    {
        proof {
            let t = s@.subrange(start as int, i as int + 1);
            assert(t.drop_last() =~= s@.subrange(start as int, i as int));
            assert(t.last() == s@[i as int]);
        }
        if !is_whitespace_char(s[i]) {
            out.push(s[i]);
        }
        i = i + 1;
    }
    out
}

/// Whether `c` is an ASCII decimal digit.
pub open spec fn is_digit(c: char) -> bool {
    '0' <= c && c <= '9'
}

/// The value of the decimal digit `c`.
pub open spec fn digit_value(c: char) -> int {
    c as int - '0' as int
}

/// Whether every character of `s` is a decimal digit.
pub open spec fn all_digits(s: Seq<char>) -> bool {
    forall|j: int| 0 <= j < s.len() ==> is_digit(#[trigger] s[j])
}

/// The number that a string of decimal digits writes.
pub open spec fn digits_value(s: Seq<char>) -> nat
    decreases s.len(),
{
    if s.len() == 0 {
        0
    } else {
        digits_value(s.drop_last()) * 10 + digit_value(s.last()) as nat
    }
}

/// The integer that `s` writes: an optional sign, then one or more
/// decimal digits.
pub open spec fn int_value(s: Seq<char>) -> Option<int> {
    if s.len() > 0 && (s[0] == '+' || s[0] == '-') {
        let d = s.drop_first();
        if d.len() > 0 && all_digits(d) {
            if s[0] == '-' {
                Some(-digits_value(d))
            } else {
                Some(digits_value(d) as int)
            }
        } else {
            None
        }
    } else if s.len() > 0 && all_digits(s) {
        Some(digits_value(s) as int)
    } else {
        None
    }
}

/// The `i32` that `s` writes in decimal, if it writes one in range.
pub open spec fn parse_i32(s: Seq<char>) -> Option<i32> {
    match int_value(s) {
        Some(v) => if i32::MIN <= v <= i32::MAX {
            Some(v as i32)
        } else {
            None
        },
        None => None,
    }
}

proof fn lemma_digits_value_grows(t: Seq<char>, i: int)
    requires
        0 <= i <= t.len(),
        all_digits(t),
    ensures
        digits_value(t.subrange(0, i)) <= digits_value(t),
    decreases t.len(),
{
    if i < t.len() {
        let u = t.drop_last();
        assert(all_digits(u)) by {
            assert forall|j: int| 0 <= j < u.len() implies is_digit(#[trigger] u[j]) by {
                assert(t[j] == u[j]);
            }
        }
        assert(u.subrange(0, i) =~= t.subrange(0, i));
        lemma_digits_value_grows(u, i);
    } else {
        assert(t.subrange(0, i) =~= t);
    }
}

/// Reads the decimal integer written in `s[start..end]`.
pub fn parse_i32_range(s: &Vec<char>, start: usize, end: usize) -> (r: Option<i32>)
    requires
        start <= end <= s@.len(),
    ensures
        r == parse_i32(s@.subrange(start as int, end as int)),
{
    let ghost text = s@.subrange(start as int, end as int);
    if start == end {
        return None;
    }
    let signed = s[start] == '+' || s[start] == '-';
    let negative = s[start] == '-';
    let first = if signed {
        start + 1
    } else {
        start
    };
    let ghost body = s@.subrange(first as int, end as int);
    proof {
        if signed {
            assert(text.drop_first() =~= body);
        } else {
            assert(text =~= body);
        }
    }
    if first == end {
        return None;
    }
    let mut acc: i64 = 0;
    let mut i = first;
    while i < end
        invariant
            first <= i <= end <= s@.len(),
            body == s@.subrange(first as int, end as int),
            text == s@.subrange(start as int, end as int),
            text.len() > 0,
            signed == (text[0] == '+' || text[0] == '-'),
            negative == (text[0] == '-'),
            signed ==> text.drop_first() == body,
            !signed ==> text == body,
            all_digits(s@.subrange(first as int, i as int)),
            acc == digits_value(s@.subrange(first as int, i as int)),
            acc <= 2147483648,
        decreases end - i,
    {
        let c = s[i];
        let ghost prefix = s@.subrange(first as int, i as int + 1);
        proof {
            assert(prefix.drop_last() =~= s@.subrange(first as int, i as int));
            assert(prefix.last() == c);
            assert(body[i - first] == c);
        }
        if !('0' <= c && c <= '9') {
            proof {
                assert(!is_digit(body[i - first]));
                assert(!all_digits(body));
            }
            return None;
        }
        let d = (c as u32 - '0' as u32) as i64;
        proof {
            assert(d == digit_value(c));
            assert(digits_value(prefix) == acc * 10 + d);
        }
        if acc * 10 + d > 2147483648 {
            proof {
                if all_digits(body) {
                    assert(body.subrange(0, i - first + 1) =~= prefix);
                    lemma_digits_value_grows(body, i - first + 1);
                }
            }
            return None;
        }
        acc = acc * 10 + d;
        i = i + 1;
        proof {
            assert(all_digits(s@.subrange(first as int, i as int))) by {
                assert forall|j: int| 0 <= j < prefix.len() implies is_digit(#[trigger] prefix[j]) by {
                    if j < prefix.len() - 1 {
                        assert(prefix[j] == prefix.drop_last()[j]);
                    }
                }
            }
        }
    }
    proof {
        assert(s@.subrange(first as int, end as int) =~= body);
    }
    if negative {
        Some((-acc) as i32)
    } else if acc > 2147483647 {
        None
    } else {
        Some(acc as i32)
    }
}

/// The number that `s` writes: an optional `+`, then one or more decimal
/// digits.
pub open spec fn unsigned_value(s: Seq<char>) -> Option<nat> {
    let d = if s.len() > 0 && s[0] == '+' {
        s.drop_first()
    } else {
        s
    };
    if d.len() > 0 && all_digits(d) {
        Some(digits_value(d))
    } else {
        None
    }
}

/// The `usize` that `s` writes in decimal, if it writes one in range.
pub open spec fn parse_usize(s: Seq<char>) -> Option<usize> {
    match unsigned_value(s) {
        Some(v) => if v <= usize::MAX {
            Some(v as usize)
        } else {
            None
        },
        None => None,
    }
}

/// Reads the unsigned decimal number written in `s[start..end]`.
pub fn parse_usize_range(s: &Vec<char>, start: usize, end: usize) -> (r: Option<usize>)
    requires
        start <= end <= s@.len(),
    ensures
        r == parse_usize(s@.subrange(start as int, end as int)),
{
    let ghost text = s@.subrange(start as int, end as int);
    if start == end {
        return None;
    }
    let first = if s[start] == '+' {
        start + 1
    } else {
        start
    };
    let ghost body = s@.subrange(first as int, end as int);
    proof {
        if first > start {
            assert(text.drop_first() =~= body);
        } else {
            assert(text =~= body);
        }
    }
    if first == end {
        return None;
    }
    let mut acc: usize = 0;
    let mut i = first;
    while i < end
        invariant
            first <= i <= end <= s@.len(),
            body == s@.subrange(first as int, end as int),
            text == s@.subrange(start as int, end as int),
            body.len() > 0,
            (if text.len() > 0 && text[0] == '+' {
                text.drop_first()
            } else {
                text
            }) == body,
            all_digits(s@.subrange(first as int, i as int)),
            acc == digits_value(s@.subrange(first as int, i as int)),
        decreases end - i,
    {
        let c = s[i];
        let ghost prefix = s@.subrange(first as int, i as int + 1);
        proof {
            assert(prefix.drop_last() =~= s@.subrange(first as int, i as int));
            assert(prefix.last() == c);
            assert(body[i - first] == c);
        }
        if !('0' <= c && c <= '9') {
            proof {
                assert(!is_digit(body[i - first]));
                assert(!all_digits(body));
            }
            return None;
        }
        let d = (c as u32 - '0' as u32) as usize;
        proof {
            assert(d == digit_value(c));
            assert(digits_value(prefix) == acc * 10 + d);
        }
        if acc > (usize::MAX - d) / 10 {
            proof {
                assert(acc * 10 + d > usize::MAX) by (nonlinear_arith)
                    requires
                        acc > (usize::MAX - d) / 10,
                        d <= usize::MAX,
                ;
                if all_digits(body) {
                    assert(body.subrange(0, i - first + 1) =~= prefix);
                    lemma_digits_value_grows(body, i - first + 1);
                }
            }
            return None;
        }
        proof {
            assert(acc * 10 + d <= usize::MAX) by (nonlinear_arith)
                requires
                    acc <= (usize::MAX - d) / 10,
                    d <= usize::MAX,
            ;
        }
        acc = acc * 10 + d;
        i = i + 1;
        proof {
            assert(all_digits(s@.subrange(first as int, i as int))) by {
                assert forall|j: int| 0 <= j < prefix.len() implies is_digit(#[trigger] prefix[j]) by {
                    if j < prefix.len() - 1 {
                        assert(prefix[j] == prefix.drop_last()[j]);
                    }
                }
            }
        }
    }
    proof {
        assert(s@.subrange(first as int, end as int) =~= body);
    }
    Some(acc)
}

/// Reads the unsigned decimal number that `s` writes, as `usize::from_str`
/// does.
pub fn parse_usize_text(s: &str) -> (r: Option<usize>)
    ensures
        r == parse_usize(s@),
{
    let chars = chars_of(s);
    proof {
        assert(chars@.subrange(0, chars@.len() as int) =~= chars@);
    }
    parse_usize_range(&chars, 0, chars.len())
}

} // verus!
