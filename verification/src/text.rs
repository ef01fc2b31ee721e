//! Small verified helpers on text: scanning, decimal numbers, substrings.

use vstd::prelude::*;
use vstd::string::StringExecFns;

verus! {

/// The characters of `s`, in order.
pub fn chars_of(s: &str) -> (v: Vec<char>)
    ensures
        v@ == s@,
{
    let mut v: Vec<char> = Vec::new();
    for c in it: s.chars()
        invariant
            it.seq() == s@,
            v@ == s@.take(it.index() as int),
    {
        v.push(c);
        assert(s@.take(it.index() + 1) == s@.take(it.index() as int).push(c));
    }
    assert(s@.take(s@.len() as int) == s@);
    v
}

/// The position of the first `c` in `s` at or after `from`; the length of `s`
/// where there is none.
pub open spec fn first_index(s: Seq<char>, c: char, from: int) -> int
    decreases s.len() - from,
{
    if from < 0 || from >= s.len() {
        s.len() as int
    } else if s[from] == c {
        from
    } else {
        first_index(s, c, from + 1)
    }
}

/// What `first_index` returns: a position in range, with no `c` before it.
pub proof fn lemma_first_index(s: Seq<char>, c: char, from: int)
    requires
        0 <= from <= s.len(),
    ensures
        from <= first_index(s, c, from) <= s.len(),
        first_index(s, c, from) < s.len() ==> s[first_index(s, c, from)] == c,
        forall|j: int| from <= j < first_index(s, c, from) ==> s[j] != c,
    decreases s.len() - from,
{
    if from < s.len() && s[from] != c {
        lemma_first_index(s, c, from + 1);
    }
}

/// Finds the first `c` in `chars` at or after `from`.
pub fn find_char(chars: &Vec<char>, c: char, from: usize) -> (at: usize)
    ensures
        at == first_index(chars@, c, from as int),
        at <= chars@.len(),
        from <= chars@.len() ==> from <= at,
{
    if from >= chars.len() {
        return chars.len();
    }
    let mut i: usize = from;
    while i < chars.len() && chars[i] != c
        invariant
            from <= i <= chars@.len(),
            first_index(chars@, c, from as int) == first_index(chars@, c, i as int),
        decreases chars@.len() - i,
    {
        i = i + 1;
    }
    i
}

/// `c` is one of the ten ASCII digits.
pub open spec fn is_digit(c: char) -> bool {
    '0' <= c && c <= '9'
}

/// The number that the digit `c` stands for.
pub open spec fn digit_value(c: char) -> nat {
    (c as int - '0' as int) as nat
}

/// Every character of `s` is an ASCII digit.
pub open spec fn all_digits(s: Seq<char>) -> bool {
    forall|i: int| 0 <= i < s.len() ==> is_digit(#[trigger] s[i])
}

/// The number that the decimal numeral `s` denotes (0 for the empty text).
pub open spec fn decimal_value(s: Seq<char>) -> nat
    decreases s.len(),
{
    if s.len() == 0 {
        0
    } else {
        decimal_value(s.drop_last()) * 10 + digit_value(s.last())
    }
}

/// A numeral denotes at least what any of its prefixes denotes.
pub proof fn lemma_decimal_value_prefix(s: Seq<char>, k: int)
    requires
        0 <= k <= s.len(),
    ensures
        decimal_value(s.take(k)) <= decimal_value(s),
    decreases s.len(),
{
    if k == s.len() {
        assert(s.take(k) == s);
    } else {
        assert(s.drop_last().take(k) == s.take(k));
        lemma_decimal_value_prefix(s.drop_last(), k);
    }
}

/// Reads the unsigned decimal numeral `chars[from..to]`.
///
/// Succeeds exactly when the positions lie in `chars` and the text between
/// them is a non-empty run of ASCII digits whose value fits in 64 bits.
pub fn parse_decimal(chars: &Vec<char>, from: usize, to: usize) -> (r: Option<u64>)
    ensures
        r is Some <==> from < to <= chars@.len() && all_digits(
            chars@.subrange(from as int, to as int),
        ) && decimal_value(chars@.subrange(from as int, to as int)) <= u64::MAX,
        r matches Some(v) ==> v == decimal_value(chars@.subrange(from as int, to as int)),
{
    if from >= to || to > chars.len() {
        return None;
    }
    let ghost text = chars@.subrange(from as int, to as int);
    let mut acc: u64 = 0;
    let mut i: usize = from;
    while i < to
        invariant
            from <= i <= to <= chars@.len(),
            text == chars@.subrange(from as int, to as int),
            all_digits(text.take(i - from)),
            acc == decimal_value(text.take(i - from)),
        decreases to - i,
    {
        let c = chars[i];
        assert(c == text[i - from]);
        if c < '0' || c > '9' {
            return None;
        }
        let d: u64 = (c as u32 - '0' as u32) as u64;
        proof {
            assert(text.take(i - from + 1).drop_last() == text.take(i - from));
            assert(text.take(i - from + 1).last() == c);
            lemma_decimal_value_prefix(text, i - from + 1);
        }
        if acc > (u64::MAX - d) / 10 {
            return None;
        }
        acc = acc * 10 + d;
        i = i + 1;
    }
    assert(text.take(to - from) == text);
    Some(acc)
}

/// The character that stands for the digit `d`.
pub open spec fn digit_char(d: nat) -> char {
    if d == 0 {
        '0'
    } else if d == 1 {
        '1'
    } else if d == 2 {
        '2'
    } else if d == 3 {
        '3'
    } else if d == 4 {
        '4'
    } else if d == 5 {
        '5'
    } else if d == 6 {
        '6'
    } else if d == 7 {
        '7'
    } else if d == 8 {
        '8'
    } else {
        '9'
    }
}

/// The decimal numeral of `n`, without leading zeros.
pub open spec fn decimal_text(n: nat) -> Seq<char>
    decreases n,
{
    if n < 10 {
        seq![digit_char(n)]
    } else {
        decimal_text(n / 10).push(digit_char(n % 10))
    }
}

fn digit_str(d: u64) -> (s: &'static str)
    requires
        d < 10,
    ensures
        s@ == seq![digit_char(d as nat)],
{
    proof {
        reveal_strlit("0");
        reveal_strlit("1");
        reveal_strlit("2");
        reveal_strlit("3");
        reveal_strlit("4");
        reveal_strlit("5");
        reveal_strlit("6");
        reveal_strlit("7");
        reveal_strlit("8");
        reveal_strlit("9");
    }
    let s = if d == 0 {
        "0"
    } else if d == 1 {
        "1"
    } else if d == 2 {
        "2"
    } else if d == 3 {
        "3"
    } else if d == 4 {
        "4"
    } else if d == 5 {
        "5"
    } else if d == 6 {
        "6"
    } else if d == 7 {
        "7"
    } else if d == 8 {
        "8"
    } else {
        "9"
    };
    assert(s@ =~= seq![digit_char(d as nat)]);
    s
}

/// Appends the decimal numeral of `n` to `out`.
pub fn push_decimal(out: &mut String, n: u64)
    ensures
        final(out)@ == old(out)@ + decimal_text(n as nat),
    decreases n,
{
    if n >= 10 {
        push_decimal(out, n / 10);
    }
    out.append(digit_str(n % 10));
}

/// The decimal numeral of `n` as a string.
pub fn decimal_string(n: u64) -> (s: String)
    ensures
        s@ == decimal_text(n as nat),
{
    let mut s = String::new();
    push_decimal(&mut s, n);
    s
}

/// `needle` stands in `hay` at position `i`.
pub open spec fn occurs_at(hay: Seq<char>, needle: Seq<char>, i: int) -> bool {
    0 <= i && i + needle.len() <= hay.len() && hay.subrange(i, i + needle.len()) == needle
}

/// `needle` stands somewhere in `hay`.
pub open spec fn contains_text(hay: Seq<char>, needle: Seq<char>) -> bool {
    exists|i: int| occurs_at(hay, needle, i)
}

/// `s` begins with `prefix`.
pub open spec fn has_prefix(s: Seq<char>, prefix: Seq<char>) -> bool {
    occurs_at(s, prefix, 0)
}

/// Tells whether `needle` stands in `hay` at position `at`.
pub fn matches_at(hay: &Vec<char>, needle: &Vec<char>, at: usize) -> (b: bool)
    ensures
        b == occurs_at(hay@, needle@, at as int),
{
    if needle.len() > hay.len() || at > hay.len() - needle.len() {
        return false;
    }
    let mut k: usize = 0;
    while k < needle.len()
        invariant
            k <= needle@.len(),
            at + needle@.len() <= hay@.len() <= usize::MAX,
            hay@.subrange(at as int, at + k) == needle@.take(k as int),
        decreases needle@.len() - k,
    {
        if hay[at + k] != needle[k] {
            assert(hay@.subrange(at as int, at + needle@.len())[k as int] != needle@[k as int]);
            return false;
        }
        assert(hay@.subrange(at as int, at + k + 1) == hay@.subrange(at as int, at + k).push(
            hay@[at + k],
        ));
        assert(needle@.take(k + 1) == needle@.take(k as int).push(needle@[k as int]));
        k = k + 1;
    }
    assert(needle@.take(needle@.len() as int) == needle@);
    true
}

/// Tells whether `needle` stands somewhere in `hay`.
pub fn contains(hay: &str, needle: &str) -> (b: bool)
    ensures
        b == contains_text(hay@, needle@),
{
    let h = chars_of(hay);
    let n = chars_of(needle);
    if n.len() > h.len() {
        return false;
    }
    let last: usize = h.len() - n.len();
    let mut i: usize = 0;
    loop
        invariant
            h@ == hay@,
            n@ == needle@,
            i <= last,
            last == h@.len() - n@.len(),
            forall|j: int| 0 <= j < i ==> !occurs_at(h@, n@, j),
        decreases last - i,
    {
        if matches_at(&h, &n, i) {
            return true;
        }
        if i == last {
            return false;
        }
        i = i + 1;
    }
}

} // verus!
