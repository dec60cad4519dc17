//! Text: white space, letter case and decimal numbers.

use vstd::prelude::*;
use vstd::string::*;

verus! {

/// The characters with the Unicode property `White_Space`.
pub open spec fn is_white(c: char) -> bool {
    let u = c as u32;
    ||| 0x9 <= u <= 0xd
    ||| u == 0x20
    ||| u == 0x85
    ||| u == 0xa0
    ||| u == 0x1680
    ||| 0x2000 <= u <= 0x200a
    ||| u == 0x2028
    ||| u == 0x2029
    ||| u == 0x202f
    ||| u == 0x205f
    ||| u == 0x3000
}

/// `s` from its first character that is not white space.
pub open spec fn without_leading_white(s: Seq<char>) -> Seq<char>
    decreases s.len(),
{
    if s.len() > 0 && is_white(s.first()) {
        without_leading_white(s.drop_first())
    } else {
        s
    }
}

/// `s` up to its last character that is not white space.
pub open spec fn without_trailing_white(s: Seq<char>) -> Seq<char>
    decreases s.len(),
{
    if s.len() > 0 && is_white(s.last()) {
        without_trailing_white(s.drop_last())
    } else {
        s
    }
}

/// `s` without the white space at its two ends.
pub open spec fn trimmed(s: Seq<char>) -> Seq<char> {
    without_trailing_white(without_leading_white(s))
}

/// An ASCII capital as its small letter; any other character as it is.
pub open spec fn ascii_lower(c: char) -> char {
    if 'A' <= c && c <= 'Z' {
        (c as u8 + 32) as char
    } else {
        c
    }
}

/// `s` with its ASCII capitals as small letters.
pub open spec fn lowercased(s: Seq<char>) -> Seq<char> {
    s.map_values(|c: char| ascii_lower(c))
}

/// Whether `c` has the property `White_Space`.
pub fn white(c: char) -> (r: bool)
    ensures
        r == is_white(c),
{
    let u: u32 = c as u32;
    (0x9 <= u && u <= 0xd) || u == 0x20 || u == 0x85 || u == 0xa0 || u == 0x1680 || (0x2000 <= u
        && u <= 0x200a) || u == 0x2028 || u == 0x2029 || u == 0x202f || u == 0x205f || u == 0x3000
}

/// The characters of `s`.
pub(crate) fn chars_of(s: &str) -> (v: Vec<char>)
    ensures
        v@ == s@,
{
    let mut v: Vec<char> = Vec::new();
    for c in it: s.chars()
        invariant
            v@ == it.seq().take(it.index() as int),
            it.seq() == s@,
    {
        v.push(c);
    }
    v
}

/// `s` without the white space at its two ends.
pub fn trim(s: &str) -> (r: &str)
    ensures
        r@ == trimmed(s@),
{
    let v = chars_of(s);
    let mut i: usize = 0;
    assert(s@.skip(0) =~= s@);
    while i < v.len() && white(v[i])
        invariant
            i <= v.len(),
            v@ == s@,
            without_leading_white(s@) == without_leading_white(s@.skip(i as int)),
        decreases v.len() - i,
    {
        assert(s@.skip(i as int).drop_first() =~= s@.skip(i + 1));
        i = i + 1;
    }
    let ghost rest = s@.skip(i as int);
    let mut j: usize = v.len();
    assert(s@.subrange(i as int, j as int) =~= rest);
    while i < j && white(v[j - 1])
        invariant
            i <= j <= v.len(),
            v@ == s@,
            trimmed(s@) == without_trailing_white(s@.subrange(i as int, j as int)),
        decreases j,
    {
        assert(s@.subrange(i as int, j as int).drop_last() =~= s@.subrange(i as int, j - 1));
        j = j - 1;
    }
    s.substring_char(i, j)
}

/// An ASCII capital as its small letter; any other character as it is.
pub fn to_ascii_lower(c: char) -> (r: char)
    ensures
        r == ascii_lower(c),
{
    if 'A' <= c && c <= 'Z' {
        (c as u8 + 32) as char
    } else {
        c
    }
}

/// Whether `c` is one of the ten ASCII digits.
pub open spec fn is_digit(c: char) -> bool {
    '0' <= c && c <= '9'
}

/// The number that the digits `s` write.
pub open spec fn decimal_value(s: Seq<char>) -> nat
    decreases s.len(),
{
    if s.len() == 0 {
        0
    } else {
        decimal_value(s.drop_last()) * 10 + (s.last() as nat - '0' as nat) as nat
    }
}

/// `s` without a plus sign in front.
pub open spec fn unsigned(s: Seq<char>) -> Seq<char> {
    if s.len() > 0 && s.first() == '+' {
        s.drop_first()
    } else {
        s
    }
}

/// The number that `s` writes, up to `max`: at least one digit and nothing but digits, with or
/// without a plus sign in front.
pub open spec fn parsed_decimal(s: Seq<char>, max: nat) -> Option<nat> {
    let digits = unsigned(s);
    if digits.len() > 0 && (forall|i: int| 0 <= i < digits.len() ==> is_digit(#[trigger] digits[i]))
        && decimal_value(digits) <= max {
        Some(decimal_value(digits))
    } else {
        None
    }
}

proof fn lemma_decimal_value_grows(s: Seq<char>, i: int)
    requires
        0 <= i <= s.len(),
        forall|k: int| 0 <= k < s.len() ==> is_digit(#[trigger] s[k]),
    ensures
        decimal_value(s.take(i)) <= decimal_value(s),
    decreases s.len(),
{
    if i < s.len() {
        lemma_decimal_value_grows(s.drop_last(), i);
        assert(s.drop_last().take(i) =~= s.take(i));
    } else {
        assert(s.take(i) =~= s);
    }
}

/// The number that `s` writes, up to `max`.
pub fn parse_decimal(s: &str, max: u64) -> (r: Option<u64>)
    ensures
        match r {
            Some(n) => parsed_decimal(s@, max as nat) == Some(n as nat),
            None => parsed_decimal(s@, max as nat) is None,
        },
{
    let v = chars_of(s);
    let start: usize = if v.len() > 0 && v[0] == '+' {
        1
    } else {
        0
    };
    let ghost digits = unsigned(s@);
    assert(digits =~= s@.skip(start as int));
    if start == v.len() {
        return None;
    }
    let mut n: u64 = 0;
    let mut i: usize = start;
    assert(digits.take(0) =~= Seq::empty());
    while i < v.len()
        invariant
            v@ == s@,
            digits == unsigned(s@),
            digits == s@.skip(start as int),
            start <= i <= v@.len(),
            n <= max,
            n == decimal_value(digits.take(i - start)),
            forall|k: int| 0 <= k < i - start ==> is_digit(#[trigger] digits[k]),
        decreases v@.len() - i,
    {
        let c: char = v[i];
        assert(digits[i - start] == c);
        if c < '0' || '9' < c {
            return None;
        }
        let d: u64 = (c as u32 - '0' as u32) as u64;
        assert(digits.take(i + 1 - start).drop_last() =~= digits.take(i - start));
        assert(decimal_value(digits.take(i + 1 - start)) == n * 10 + d);
        if n > max / 10 || (n == max / 10 && d > max % 10) {
            proof {
                if forall|k: int| 0 <= k < digits.len() ==> is_digit(#[trigger] digits[k]) {
                    lemma_decimal_value_grows(digits, i + 1 - start);
                }
            }
            return None;
        }
        n = n * 10 + d;
        i = i + 1;
    }
    assert(digits.take(i - start) =~= digits);
    Some(n)
}

/// The digit for `d`, which is less than ten.
pub open spec fn digit(d: nat) -> char {
    ('0' as nat + d) as char
}

/// `n` in decimal, without leading zeros.
pub open spec fn decimal_text(n: nat) -> Seq<char>
    decreases n,
{
    if n < 10 {
        seq![digit(n)]
    } else {
        decimal_text(n / 10).push(digit(n % 10))
    }
}

/// `n` in decimal.
pub fn decimal(n: u64) -> (r: String)
    ensures
        r@ == decimal_text(n as nat),
    decreases n,
{
    let d: usize = (n % 10) as usize;
    proof {
        reveal_strlit("0123456789");
    }
    let last = "0123456789".substring_char(d, d + 1);
    assert(last@ =~= seq![digit(d as nat)]);
    if n < 10 {
        last.to_owned()
    } else {
        let mut r = decimal(n / 10);
        r.append(last);
        assert(r@ =~= decimal_text(n as nat));
        r
    }
}

/// A number in decimal is read as that number.
pub proof fn law_decimal_is_read_back(n: nat, max: nat)
    requires
        n <= max,
    ensures
        parsed_decimal(decimal_text(n), max) == Some(n),
{
    lemma_decimal_text(n);
    assert(is_digit(decimal_text(n)[0]));
}

pub(crate) proof fn lemma_decimal_text(n: nat)
    ensures
        decimal_text(n).len() > 0,
        forall|i: int| 0 <= i < decimal_text(n).len() ==> is_digit(#[trigger] decimal_text(n)[i]),
        decimal_value(decimal_text(n)) == n,
    decreases n,
{
    let s = decimal_text(n);
    let last = digit(n % 10);
    assert(last as nat == '0' as nat + n % 10);
    reveal_with_fuel(decimal_value, 2);
    if n < 10 {
        assert(s.drop_last() =~= Seq::empty());
    } else {
        lemma_decimal_text(n / 10);
        assert(s.drop_last() =~= decimal_text(n / 10));
    }
}

/// Whether `s`, with its ASCII capitals as small letters, is `word`.
pub fn is_word(s: &str, word: &str) -> (r: bool)
    ensures
        r == (lowercased(s@) == word@),
{
    let v = chars_of(s);
    let w = chars_of(word);
    if v.len() != w.len() {
        assert(lowercased(s@).len() == s@.len());
        return false;
    }
    let mut i: usize = 0;
    while i < v.len()
        invariant
            v@ == s@,
            w@ == word@,
            v@.len() == w@.len(),
            i <= v@.len(),
            forall|k: int| 0 <= k < i ==> lowercased(s@)[k] == #[trigger] word@[k],
        decreases v@.len() - i,
    {
        if to_ascii_lower(v[i]) != w[i] {
            assert(lowercased(s@)[i as int] != word@[i as int]);
            return false;
        }
        i = i + 1;
    }
    assert(lowercased(s@) =~= word@);
    true
}

/// A text is what is left of it without the white space at its ends, between two pieces of white
/// space; what is left neither starts nor ends with white space.
pub proof fn law_trimmed_is_between_white_space(s: Seq<char>) -> (r: (Seq<char>, Seq<char>))
    ensures
        s == r.0 + trimmed(s) + r.1,
        forall|k: int| 0 <= k < r.0.len() ==> is_white(#[trigger] r.0[k]),
        forall|k: int| 0 <= k < r.1.len() ==> is_white(#[trigger] r.1[k]),
        trimmed(s).len() > 0 ==> !is_white(trimmed(s).first()) && !is_white(trimmed(s).last()),
{
    let before = lemma_leading_white(s);
    let rest = without_leading_white(s);
    let after = lemma_trailing_white(rest);
    assert(s =~= before + trimmed(s) + after);
    if trimmed(s).len() > 0 {
        assert(trimmed(s).first() == rest.first());
    }
    (before, after)
}

proof fn lemma_leading_white(s: Seq<char>) -> (before: Seq<char>)
    ensures
        s == before + without_leading_white(s),
        forall|k: int| 0 <= k < before.len() ==> is_white(#[trigger] before[k]),
        without_leading_white(s).len() > 0 ==> !is_white(without_leading_white(s).first()),
    decreases s.len(),
{
    if s.len() > 0 && is_white(s.first()) {
        let less = lemma_leading_white(s.drop_first());
        let before = seq![s.first()] + less;
        let w = without_leading_white(s);
        assert(s =~= seq![s.first()] + s.drop_first());
        assert(seq![s.first()] + (less + w) =~= before + w);
        assert forall|k: int| 0 <= k < before.len() implies is_white(#[trigger] before[k]) by {
            if k > 0 {
                assert(before[k] == less[k - 1]);
            }
        }
        before
    } else {
        assert(s =~= Seq::<char>::empty() + s);
        Seq::empty()
    }
}

proof fn lemma_trailing_white(s: Seq<char>) -> (after: Seq<char>)
    ensures
        s == without_trailing_white(s) + after,
        forall|k: int| 0 <= k < after.len() ==> is_white(#[trigger] after[k]),
        without_trailing_white(s).len() > 0 ==> !is_white(without_trailing_white(s).last()),
    decreases s.len(),
{
    if s.len() > 0 && is_white(s.last()) {
        let less = lemma_trailing_white(s.drop_last());
        let after = less.push(s.last());
        let w = without_trailing_white(s);
        assert(s =~= s.drop_last().push(s.last()));
        assert((w + less).push(s.last()) =~= w + after);
        assert forall|k: int| 0 <= k < after.len() implies is_white(#[trigger] after[k]) by {
            if k < less.len() {
                assert(after[k] == less[k]);
            }
        }
        after
    } else {
        assert(s =~= s + Seq::<char>::empty());
        Seq::empty()
    }
}

/// White space around a text that neither starts nor ends with any makes no difference to what is
/// left of it.
pub proof fn law_white_space_around_goes(before: Seq<char>, s: Seq<char>, after: Seq<char>)
    requires
        forall|k: int| 0 <= k < before.len() ==> is_white(#[trigger] before[k]),
        forall|k: int| 0 <= k < after.len() ==> is_white(#[trigger] after[k]),
        s.len() > 0 ==> !is_white(s.first()) && !is_white(s.last()),
    ensures
        trimmed(before + s + after) == s,
    decreases before.len() + after.len(),
{
    let t = before + s + after;
    if before.len() > 0 {
        let less = before.drop_first();
        assert(t.first() == before[0]);
        assert(t.drop_first() =~= less + s + after);
        assert forall|k: int| 0 <= k < less.len() implies is_white(#[trigger] less[k]) by {
            assert(less[k] == before[k + 1]);
        }
        law_white_space_around_goes(less, s, after);
    } else if s.len() == 0 {
        if after.len() > 0 {
            let less = after.drop_first();
            assert(t.first() == after[0]);
            assert(t.drop_first() =~= before + s + less);
            assert forall|k: int| 0 <= k < less.len() implies is_white(#[trigger] less[k]) by {
                assert(less[k] == after[k + 1]);
            }
            law_white_space_around_goes(before, s, less);
        } else {
            assert(t =~= s);
        }
    } else {
        assert(t.first() == s.first());
        assert(without_leading_white(t) == t);
        if after.len() > 0 {
            let less = after.drop_last();
            assert(t.last() == after.last());
            assert(is_white(after[after.len() - 1]));
            let u = before + s + less;
            assert(t.drop_last() =~= u);
            assert forall|k: int| 0 <= k < less.len() implies is_white(#[trigger] less[k]) by {
                assert(less[k] == after[k]);
            }
            assert(u.first() == s.first());
            law_white_space_around_goes(before, s, less);
            assert(without_leading_white(u) == u);
        } else {
            assert(t =~= s);
        }
    }
}

/// Whether `s` is `word`, but for small letters of `word` that are capitals in `s`.
pub open spec fn same_letters(s: Seq<char>, word: Seq<char>) -> bool {
    &&& s.len() == word.len()
    &&& forall|k: int|
        #![trigger s[k]]
        #![trigger word[k]]
        0 <= k < s.len() ==> s[k] == word[k] || ('a' <= word[k] <= 'z' && s[k] as int + 32
            == word[k] as int)
}

/// A text with its capitals as small letters is a word without capitals if and only if it is that
/// word, but for the case of its letters.
pub proof fn law_case_does_not_matter(s: Seq<char>, word: Seq<char>)
    requires
        forall|k: int| 0 <= k < word.len() ==> !('A' <= #[trigger] word[k] <= 'Z'),
    ensures
        lowercased(s) == word <==> same_letters(s, word),
{
    let t = lowercased(s);
    if t == word {
        assert forall|k: int|
            #![trigger s[k]]
            #![trigger word[k]]
            0 <= k < s.len() implies s[k] == word[k] || ('a' <= word[k] <= 'z' && s[k] as int + 32
            == word[k] as int) by {
            assert(t[k] == ascii_lower(s[k]));
            lemma_ascii_lower(s[k]);
        }
    }
    if same_letters(s, word) {
        assert forall|k: int| 0 <= k < s.len() implies t[k] == word[k] by {
            assert(t[k] == ascii_lower(s[k]));
            lemma_ascii_lower(s[k]);
            assert(!('A' <= word[k] <= 'Z'));
        }
        assert(t =~= word);
    }
}

proof fn lemma_ascii_lower(c: char)
    ensures
        'A' <= c <= 'Z' ==> ascii_lower(c) as int == c as int + 32,
        !('A' <= c <= 'Z') ==> ascii_lower(c) == c,
{
}

/// A number is read digit by digit: one digit is its own number, a further digit makes ten times the
/// number and the digit, and there is no number where that is more than `max`, nor where anything
/// but a digit follows.
pub proof fn law_numbers_are_read_digit_by_digit(s: Seq<char>, c: char, max: nat)
    ensures
        parsed_decimal(Seq::empty(), max) is None,
        parsed_decimal(seq![c], max) == if '0' <= c <= '9' && c as int - '0' as int <= max {
            Some((c as int - '0' as int) as nat)
        } else {
            None
        },
        s.len() > 0 && s != seq!['+'] ==> parsed_decimal(s.push(c), max) == (match parsed_decimal(
            s,
            max,
        ) {
            Some(n) if '0' <= c <= '9' && n * 10 + (c as int - '0' as int) <= max => Some(
                (n * 10 + (c as int - '0' as int)) as nat,
            ),
            _ => None,
        }),
{
    reveal_with_fuel(decimal_value, 2);
    let one = seq![c];
    if c == '+' {
        assert(unsigned(one) =~= Seq::empty());
    } else {
        assert(unsigned(one) == one);
        assert(one.drop_last() =~= Seq::empty());
        assert(one[0] == c);
    }
    if s.len() > 0 && s != seq!['+'] {
        let (d, e) = (unsigned(s), unsigned(s.push(c)));
        assert(e =~= d.push(c));
        assert(d.len() > 0) by {
            if d.len() == 0 {
                assert(s =~= seq!['+']);
            }
        }
        assert(e.drop_last() =~= d);
        assert(e[d.len() as int] == c);
        if forall|i: int| 0 <= i < e.len() ==> is_digit(#[trigger] e[i]) {
            assert forall|i: int| 0 <= i < d.len() implies is_digit(#[trigger] d[i]) by {
                assert(e[i] == d[i]);
            }
        }
        if (forall|i: int| 0 <= i < d.len() ==> is_digit(#[trigger] d[i])) && is_digit(c) {
            assert forall|i: int| 0 <= i < e.len() implies is_digit(#[trigger] e[i]) by {
                if i < d.len() {
                    assert(e[i] == d[i]);
                }
            }
        }
    }
}

/// One plus sign in front of a number makes no difference.
pub proof fn law_plus_sign_makes_no_difference(s: Seq<char>, max: nat)
    ensures
        s.len() > 0 && s.first() == '+' ==> parsed_decimal(seq!['+'] + s, max) is None,
        !(s.len() > 0 && s.first() == '+') ==> parsed_decimal(seq!['+'] + s, max)
            == parsed_decimal(s, max),
{
    let t = seq!['+'] + s;
    assert(unsigned(t) =~= s);
    if s.len() > 0 && s.first() == '+' {
        assert(!is_digit(s[0]));
    }
}

/// A number in decimal is its digits: one digit for a number below ten, and else the digits of its
/// tenth with a further one.
pub proof fn law_decimal_is_written_digit_by_digit(n: nat, d: nat)
    requires
        d < 10,
    ensures
        decimal_text(d).len() == 1,
        decimal_text(d)[0] as int == '0' as int + d,
        n > 0 ==> decimal_text(n * 10 + d) == decimal_text(n).push(decimal_text(d)[0]),
{
    assert(decimal_text(d) =~= seq![digit(d)]);
    if n > 0 {
        assert((n * 10 + d) / 10 == n);
        assert((n * 10 + d) % 10 == d);
    }
}

} // verus!
