//! Character-level text utilities: decimal rendering and reading,
//! the numeric-text grammar, and substring search.

use vstd::prelude::*;

verus! {

/// Relies on `String::push`: appends the given character to the end of
/// the string.
pub assume_specification[ String::push ](s: &mut String, ch: char)
    ensures
        final(s)@ == old(s)@.push(ch),
;

/// Character for one decimal digit.
pub open spec fn digit_char(d: nat) -> char {
    if d == 0 {
        '0'
    } else if d == 1 {
        '1'
    } else if d == 2 {
        '2'
    } else if d == 3 {
        '3'
    } else if d == 4 {
        '4'
    } else if d == 5 {
        '5'
    } else if d == 6 {
        '6'
    } else if d == 7 {
        '7'
    } else if d == 8 {
        '8'
    } else {
        '9'
    }
}

/// Decimal digit characters.
pub open spec fn is_digit(c: char) -> bool {
    48 <= c as int && c as int <= 57
}

/// Numeric value of a decimal digit character.
pub open spec fn digit_val(c: char) -> nat {
    (c as int - 48) as nat
}

/// The decimal numeral of `n`, most significant digit first, without
/// leading zeros (a single `'0'` for zero).
pub open spec fn dec_digits(n: nat) -> Seq<char>
    decreases n,
{
    if n < 10 {
        seq![digit_char(n)]
    } else {
        dec_digits(n / 10).push(digit_char(n % 10))
    }
}

/// Value of a sequence of digit characters, most significant first.
pub open spec fn dec_value(s: Seq<char>) -> nat
    decreases s.len(),
{
    if s.len() == 0 {
        0
    } else {
        dec_value(s.drop_last()) * 10 + digit_val(s.last())
    }
}

pub proof fn lemma_digit_char_val(d: nat)
    requires
        d < 10,
    ensures
        is_digit(digit_char(d)),
        digit_val(digit_char(d)) == d,
{
}

/// Every character of a decimal numeral is a digit, and the numeral is
/// never empty.
pub proof fn lemma_dec_digits_are_digits(n: nat)
    ensures
        dec_digits(n).len() >= 1,
        forall|i: int| 0 <= i < dec_digits(n).len() ==> is_digit(#[trigger] dec_digits(n)[i]),
    decreases n,
{
    if n < 10 {
        lemma_digit_char_val(n);
    } else {
        lemma_dec_digits_are_digits(n / 10);
        lemma_digit_char_val(n % 10);
    }
}

/// Reading the numeral of `n` back gives `n`.
pub proof fn lemma_dec_value_of_digits(n: nat)
    ensures
        dec_value(dec_digits(n)) == n,
    decreases n,
{
    if n < 10 {
        lemma_digit_char_val(n);
        assert(dec_digits(n).drop_last() =~= Seq::<char>::empty());
        assert(dec_value(Seq::<char>::empty()) == 0);
        assert(dec_digits(n).last() == digit_char(n));
        assert(dec_value(dec_digits(n)) == n);
    } else {
        lemma_dec_value_of_digits(n / 10);
        lemma_digit_char_val(n % 10);
        assert(dec_digits(n).drop_last() =~= dec_digits(n / 10));
        assert(dec_digits(n).last() == digit_char(n % 10));
        assert(dec_value(dec_digits(n)) == dec_value(dec_digits(n / 10)) * 10 + (n % 10));
        assert(n / 10 * 10 + n % 10 == n);
    }
}

/// The digit character for `d`.
pub fn digit_char_exec(d: u64) -> (c: char)
    requires
        d < 10,
    ensures
        c == digit_char(d as nat),
{
    match d {
        0 => '0',
        1 => '1',
        2 => '2',
        3 => '3',
        4 => '4',
        5 => '5',
        6 => '6',
        7 => '7',
        8 => '8',
        _ => '9',
    }
}

/// Renders `n` in decimal.
pub fn u64_to_string(n: u64) -> (s: String)
    ensures
        s@ == dec_digits(n as nat),
    decreases n,
{
    if n < 10 {
        let mut s = String::new();
        s.push(digit_char_exec(n));
        s
    } else {
        let mut s = u64_to_string(n / 10);
        s.push(digit_char_exec(n % 10));
        s
    }
}

/// The characters of `s` as a vector.
pub fn str_to_char_vec(s: &str) -> (v: Vec<char>)
    ensures
        v@ == s@,
{
    let n = s.unicode_len();
    let mut v: Vec<char> = Vec::new();
    let mut i: usize = 0;
    while i < n
        invariant
            n == s@.len(),
            i <= n,
            v@ == s@.take(i as int),
        decreases n - i,
    {
        v.push(s.get_char(i));
        assert(s@.take(i as int).push(s@[i as int]) =~= s@.take(i + 1));
        i = i + 1;
    }
    assert(s@.take(n as int) =~= s@);
    v
}

/// `needle` occurs in `hay` starting at position `i`.
pub open spec fn occurs_at(hay: Seq<char>, needle: Seq<char>, i: int) -> bool {
    0 <= i && i + needle.len() <= hay.len() && hay.subrange(i, i + needle.len()) == needle
}

/// `needle` occurs somewhere in `hay`.
pub open spec fn contains_seq(hay: Seq<char>, needle: Seq<char>) -> bool {
    exists|i: int| occurs_at(hay, needle, i)
}

/// Substring search.
pub fn contains_sub(hay: &Vec<char>, needle: &Vec<char>) -> (r: bool)
    ensures
        r == contains_seq(hay@, needle@),
{
    if needle.len() > hay.len() {
        assert(forall|i: int| !occurs_at(hay@, needle@, i));
        return false;
    }
    if needle.len() == 0 {
        assert(hay@.subrange(0, 0) =~= needle@);
        assert(occurs_at(hay@, needle@, 0));
        return true;
    }
    let mut i: usize = 0;
    while i <= hay.len() - needle.len()
        invariant
            hay@.len() <= usize::MAX,
            1 <= needle@.len() <= hay@.len(),
            i <= hay@.len() - needle@.len() + 1,
            forall|k: int| 0 <= k < i ==> !occurs_at(hay@, needle@, k),
        decreases hay@.len() - needle@.len() + 1 - i,
    {
        let mut j: usize = 0;
        let mut hit = true;
        while j < needle.len()
            invariant
                hit ==> hay@.subrange(i as int, i + j) =~= needle@.take(j as int),
                !hit ==> !occurs_at(hay@, needle@, i as int),
                hay@.len() <= usize::MAX,
                1 <= needle@.len() <= hay@.len(),
                i <= hay@.len() - needle@.len(),
                j <= needle@.len(),
            decreases needle.len() - j,
        {
            if hay[i + j] != needle[j] {
                if hit {
                    assert(hay@.subrange(i as int, i + needle@.len())[j as int] != needle@[j as int]);
                }
                hit = false;
                j = needle.len();
            } else {
                if hit {
                    assert(hay@.subrange(i as int, i + j).push(hay@[i + j]) =~= hay@.subrange(
                        i as int,
                        i + j + 1,
                    ));
                }
                j = j + 1;
            }
        }
        if hit {
            assert(needle@.take(needle@.len() as int) =~= needle@);
            assert(occurs_at(hay@, needle@, i as int));
            return true;
        }
        i = i + 1;
    }
    assert forall|k: int| !occurs_at(hay@, needle@, k) by {
        if 0 <= k && k + needle@.len() <= hay@.len() {
            assert(k < i);
        }
    }
    false
}

/// Position of the first space in `s`, or a value at least `s.len()`
/// when there is none.
pub open spec fn first_space(s: Seq<char>) -> nat
    decreases s.len(),
{
    if s.len() == 0 {
        0
    } else if s[0] == ' ' {
        0
    } else {
        1 + first_space(s.skip(1))
    }
}

pub proof fn lemma_first_space(s: Seq<char>)
    ensures
        first_space(s) <= s.len(),
        first_space(s) < s.len() ==> s[first_space(s) as int] == ' ',
        forall|j: int| 0 <= j < first_space(s) && j < s.len() ==> s[j] != ' ',
    decreases s.len(),
{
    if s.len() > 0 && s[0] != ' ' {
        lemma_first_space(s.skip(1));
        assert(forall|j: int| 1 <= j < s.len() ==> s[j] == s.skip(1)[j - 1]);
    }
}

/// Every space-separated token of `phrase` occurs in `text`. Tokens are
/// the pieces between single spaces, so doubled spaces contribute empty
/// tokens, which occur in every text.
pub open spec fn all_tokens_match(text: Seq<char>, phrase: Seq<char>) -> bool
    decreases phrase.len(),
{
    let fs = first_space(phrase);
    if fs >= phrase.len() {
        contains_seq(text, phrase)
    } else {
        contains_seq(text, phrase.take(fs as int)) && all_tokens_match(
            text,
            phrase.skip(fs as int + 1),
        )
    }
}

/// Decides `all_tokens_match`.
pub fn matches_tokens(text: &Vec<char>, phrase: &Vec<char>) -> (r: bool)
    ensures
        r == all_tokens_match(text@, phrase@),
    decreases phrase@.len(),
{
    proof {
        lemma_first_space(phrase@);
    }
    let mut i: usize = 0;
    while i < phrase.len() && phrase[i] != ' '
        invariant
            i <= phrase@.len(),
            forall|j: int| 0 <= j < i ==> phrase@[j] != ' ',
        decreases phrase@.len() - i,
    {
        i = i + 1;
    }
    proof {
        if i < phrase@.len() {
            assert(first_space(phrase@) == i) by {
                if first_space(phrase@) < i {
                    assert(phrase@[first_space(phrase@) as int] == ' ');
                }
            }
        } else {
            assert(first_space(phrase@) >= phrase@.len()) by {
                if first_space(phrase@) < phrase@.len() {
                    assert(phrase@[first_space(phrase@) as int] == ' ');
                }
            }
        }
    }
    if i == phrase.len() {
        contains_sub(text, phrase)
    } else {
        let mut token: Vec<char> = Vec::new();
        let mut k: usize = 0;
        while k < i
            invariant
                k <= i <= phrase@.len(),
                token@ == phrase@.take(k as int).take(k as int),
                token@ == phrase@.take(i as int).take(k as int),
            decreases i - k,
        {
            token.push(phrase[k]);
            assert(phrase@.take(i as int).take(k as int).push(phrase@[k as int]) =~= phrase@.take(
                i as int,
            ).take(k + 1));
            k = k + 1;
        }
        assert(token@ =~= phrase@.take(i as int));
        let mut rest: Vec<char> = Vec::new();
        let mut k2: usize = i + 1;
        while k2 < phrase.len()
            invariant
                i + 1 <= k2 <= phrase@.len(),
                rest@ == phrase@.skip(i + 1).take(k2 - i - 1),
            decreases phrase@.len() - k2,
        {
            rest.push(phrase[k2]);
            assert(phrase@.skip(i + 1).take(k2 - i - 1).push(phrase@[k2 as int]) =~= phrase@.skip(
                i + 1,
            ).take(k2 - i));
            k2 = k2 + 1;
        }
        assert(rest@ =~= phrase@.skip(i + 1));
        let head_ok = contains_sub(text, &token);
        if head_ok {
            matches_tokens(text, &rest)
        } else {
            false
        }
    }
}

/// Every character is a decimal digit.
pub open spec fn all_digit_seq(s: Seq<char>) -> bool {
    forall|i: int| 0 <= i < s.len() ==> is_digit(s[i])
}

/// Some character is a decimal digit.
pub open spec fn has_digit(s: Seq<char>) -> bool {
    exists|i: int| 0 <= i < s.len() && is_digit(s[i])
}

/// Number of decimal points.
pub open spec fn dot_count(s: Seq<char>) -> nat
    decreases s.len(),
{
    if s.len() == 0 {
        0
    } else {
        dot_count(s.drop_last()) + if s.last() == '.' {
            1nat
        } else {
            0nat
        }
    }
}

/// A mantissa: digits with at most one decimal point and at least one
/// digit (so `5.`, `.5` and `0.5` qualify, `.` and the empty text do
/// not).
pub open spec fn is_mantissa(s: Seq<char>) -> bool {
    &&& s.len() >= 1
    &&& forall|i: int| 0 <= i < s.len() ==> (is_digit(s[i]) || s[i] == '.')
    &&& has_digit(s)
    &&& dot_count(s) <= 1
}

/// An exponent marker.
pub open spec fn is_exp_mark(c: char) -> bool {
    c == 'e' || c == 'E'
}

/// What may follow an exponent marker: an optional sign and at least
/// one digit.
pub open spec fn is_exp_tail(s: Seq<char>) -> bool {
    if s.len() >= 1 && (s[0] == '+' || s[0] == '-') {
        s.len() >= 2 && all_digit_seq(s.skip(1))
    } else {
        s.len() >= 1 && all_digit_seq(s)
    }
}

/// An unsigned number: a mantissa, optionally followed by an exponent
/// marker and an exponent.
pub open spec fn is_number_body(s: Seq<char>) -> bool {
    is_mantissa(s) || (exists|i: int|
        0 <= i < s.len() && is_exp_mark(s[i]) && is_mantissa(s.take(i)) && is_exp_tail(
            s.skip(i + 1),
        ))
}

/// `s` equals the lower-case word `w`, ignoring ASCII case.
pub open spec fn matches_word_ic(s: Seq<char>, w: Seq<char>) -> bool {
    s.len() == w.len() && forall|i: int|
        0 <= i < s.len() ==> (s[i] == w[i] || s[i] as u32 == w[i] as u32 - 32)
}

/// The spelled-out non-finite values, ignoring ASCII case.
pub open spec fn is_special_value(s: Seq<char>) -> bool {
    matches_word_ic(s, "inf"@) || matches_word_ic(s, "infinity"@) || matches_word_ic(s, "nan"@)
}

/// Numeric text: an optional sign, then either a number or a
/// spelled-out non-finite value. This is the grammar of the standard
/// binary64 textual form; text is accepted or rejected by this grammar
/// alone.
pub open spec fn is_numeric_text(s: Seq<char>) -> bool {
    if s.len() >= 1 && (s[0] == '+' || s[0] == '-') {
        is_number_body(s.skip(1)) || is_special_value(s.skip(1))
    } else {
        is_number_body(s) || is_special_value(s)
    }
}

/// A mantissa holds no exponent marker.
proof fn lemma_mantissa_no_exp_mark(s: Seq<char>)
    requires
        is_mantissa(s),
    ensures
        forall|i: int| 0 <= i < s.len() ==> !is_exp_mark(#[trigger] s[i]),
{
    assert forall|i: int| 0 <= i < s.len() implies !is_exp_mark(s[i]) by {
        assert(is_digit(s[i]) || s[i] == '.');
        assert('e' as int == 101 && 'E' as int == 69 && '.' as int == 46);
    }
}

/// The tail of `v` from `from` equals the lower-case word `w`, ignoring
/// ASCII case.
fn tail_matches_word_ic(v: &Vec<char>, from: usize, w: &str) -> (r: bool)
    requires
        from <= v@.len(),
    ensures
        r == matches_word_ic(v@.skip(from as int), w@),
{
    let wn = w.unicode_len();
    if v.len() - from != wn {
        return false;
    }
    let mut i: usize = 0;
    while i < wn
        invariant
            v@.len() <= usize::MAX,
            from + wn <= v@.len(),
            wn == w@.len(),
            i <= wn,
            forall|k: int|
                0 <= k < i ==> (v@.skip(from as int)[k] == w@[k] || v@.skip(from as int)[k] as u32
                    == w@[k] as u32 - 32),
        decreases wn - i,
    {
        let c = v[from + i];
        let wc = w.get_char(i);
        let same = c == wc || (wc as u32 >= 32 && c as u32 == wc as u32 - 32);
        if !same {
            assert(v@.skip(from as int)[i as int] == c);
            return false;
        }
        assert(v@.skip(from as int)[i as int] == c);
        i = i + 1;
    }
    true
}

/// Decides `is_mantissa` on `v[from..to]`.
fn check_mantissa(v: &Vec<char>, from: usize, to: usize) -> (r: bool)
    requires
        from <= to <= v@.len(),
    ensures
        r == is_mantissa(v@.subrange(from as int, to as int)),
{
    let ghost s = v@.subrange(from as int, to as int);
    let mut i: usize = from;
    let mut seen_digit = false;
    let mut dots: u64 = 0;
    while i < to
        invariant
            from <= i <= to <= v@.len(),
            s == v@.subrange(from as int, to as int),
            forall|k: int| 0 <= k < i - from ==> (is_digit(s[k]) || s[k] == '.'),
            seen_digit == has_digit(s.take(i - from)),
            dots <= 2,
            dots == dot_count(s.take(i - from)) || (dots == 2 && dot_count(s.take(i - from)) >= 2),
        decreases to - i,
    {
        let c = v[i];
        assert(s[i - from] == c);
        let is_d = c >= '0' && c <= '9';
        assert(is_d == is_digit(c)) by {
            assert('0' as int == 48 && '9' as int == 57);
        }
        if is_d {
            seen_digit = true;
        } else if c == '.' {
            if dots < 2 {
                dots = dots + 1;
            }
        } else {
            assert(!(is_digit(s[i - from]) || s[i - from] == '.'));
            return false;
        }
        proof {
            assert(s.take(i - from + 1).drop_last() =~= s.take(i - from));
            assert(s.take(i - from + 1).last() == c);
            if is_digit(c) {
                assert(has_digit(s.take(i - from + 1))) by {
                    assert(s.take(i - from + 1)[i - from] == c);
                }
            } else {
                assert forall|k: int|
                    0 <= k < i - from + 1 && is_digit(#[trigger] s.take(i - from + 1)[k]) implies has_digit(
                    s.take(i - from),
                ) by {
                    assert(k < i - from && s.take(i - from)[k] == s.take(i - from + 1)[k]);
                }
            }
        }
        i = i + 1;
    }
    assert(s.take(to - from) =~= s);
    seen_digit && dots <= 1
}

/// Decides `is_exp_tail` on `v[from..]`.
fn check_exp_tail(v: &Vec<char>, from: usize) -> (r: bool)
    requires
        from <= v@.len(),
    ensures
        r == is_exp_tail(v@.skip(from as int)),
{
    let ghost s = v@.skip(from as int);
    let start: usize = if from < v.len() && (v[from] == '+' || v[from] == '-') {
        1
    } else {
        0
    };
    if v.len() - from < start + 1 {
        return false;
    }
    let mut i: usize = from + start;
    while i < v.len()
        invariant
            from + start <= i <= v@.len(),
            start <= 1,
            s == v@.skip(from as int),
            start == 1 ==> s.len() >= 1 && (s[0] == '+' || s[0] == '-'),
            start == 0 ==> s.len() >= 1 && !(s[0] == '+' || s[0] == '-'),
            forall|k: int| start <= k < i - from ==> is_digit(s[k]),
        decreases v@.len() - i,
    {
        let c = v[i];
        assert(s[i - from] == c);
        let is_d = c >= '0' && c <= '9';
        assert(is_d == is_digit(c)) by {
            assert('0' as int == 48 && '9' as int == 57);
        }
        if !is_d {
            assert(!is_digit(s[i - from]));
            if start == 1 {
                assert(s.skip(1)[i - from - 1] == s[i - from]);
            }
            return false;
        }
        i = i + 1;
    }
    proof {
        if start == 1 {
            assert(s.len() >= 2);
            assert forall|k: int| 0 <= k < s.skip(1).len() implies is_digit(#[trigger] s.skip(1)[k])
                by {
                assert(s.skip(1)[k] == s[k + 1]);
            }
        }
    }
    true
}

/// Decides `is_numeric_text`: whether the characters form signed
/// numeric text.
pub fn check_numeric_text(v: &Vec<char>) -> (r: bool)
    ensures
        r == is_numeric_text(v@),
{
    let start: usize = if v.len() >= 1 && (v[0] == '+' || v[0] == '-') {
        1
    } else {
        0
    };
    let ghost body = v@.skip(start as int);
    proof {
        if start == 0 {
            assert(body =~= v@);
        }
    }
    if tail_matches_word_ic(v, start, "inf") || tail_matches_word_ic(v, start, "infinity")
        || tail_matches_word_ic(v, start, "nan") {
        return true;
    }
    // find the first exponent marker at or after `start`
    let mut m: usize = start;
    while m < v.len() && !(v[m] == 'e' || v[m] == 'E')
        invariant
            start <= m <= v@.len(),
            forall|k: int| start <= k < m ==> !is_exp_mark(#[trigger] v@[k]),
        decreases v@.len() - m,
    {
        m = m + 1;
    }
    if m == v.len() {
        // no marker: the whole body must be a mantissa, and no split form
        // is available
        let r = check_mantissa(v, start, v.len());
        proof {
            assert(body =~= v@.subrange(start as int, v@.len() as int));
            if !r {
                assert forall|i: int|
                    !(0 <= i < body.len() && is_exp_mark(body[i]) && is_mantissa(body.take(i))
                        && is_exp_tail(body.skip(i + 1))) by {
                    if 0 <= i < body.len() {
                        assert(body[i] == v@[start + i]);
                    }
                }
            }
        }
        r
    } else {
        let head_ok = check_mantissa(v, start, m);
        let tail_ok = if head_ok {
            check_exp_tail(v, m + 1)
        } else {
            false
        };
        let r = head_ok && tail_ok;
        proof {
            let mi = m - start;
            assert(body[mi] == v@[m as int]);
            assert(body.take(mi) =~= v@.subrange(start as int, m as int));
            assert(body.skip(mi + 1) =~= v@.skip(m + 1));
            if r {
                assert(is_number_body(body));
            } else {
                // the whole body is no mantissa: it holds the marker
                assert(!is_mantissa(body)) by {
                    if is_mantissa(body) {
                        lemma_mantissa_no_exp_mark(body);
                    }
                }
                // no split but the first marker can work
                assert forall|i: int|
                    !(0 <= i < body.len() && is_exp_mark(body[i]) && is_mantissa(body.take(i))
                        && is_exp_tail(body.skip(i + 1))) by {
                    if 0 <= i < body.len() && is_exp_mark(body[i]) && is_mantissa(body.take(i)) {
                        if i < mi {
                            assert(body[i] == v@[start + i]);
                        } else if i > mi {
                            assert(body.take(i)[mi] == body[mi]);
                            lemma_mantissa_no_exp_mark(body.take(i));
                        }
                    }
                }
            }
        }
        r
    }
}

} // verus!
