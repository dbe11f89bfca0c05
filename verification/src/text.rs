//! Character-level helpers shared by the parsers and the log formatters:
//! splitting on a separator, decimal numbers as the standard library reads
//! and writes them, whitespace trimming and substring search.

use vstd::prelude::*;

verus! {

// ---------------------------------------------------------------------------
// Models
// ---------------------------------------------------------------------------

/// An ASCII decimal digit.
pub open spec fn is_digit(c: char) -> bool {
    '0' <= c && c <= '9'
}

/// The value of an ASCII decimal digit.
pub open spec fn digit_value(c: char) -> nat {
    ((c as int) - ('0' as int)) as nat
}

/// The ASCII character of a digit value below ten.
pub open spec fn digit_char(d: nat) -> char {
    ((d + ('0' as int)) as u32) as char
}

/// Every character of `s` is an ASCII decimal digit.
pub open spec fn all_digits(s: Seq<char>) -> bool {
    forall|i: int| 0 <= i < s.len() ==> is_digit(#[trigger] s[i])
}

/// The number that a string of decimal digits spells.
pub open spec fn decimal_value(s: Seq<char>) -> nat
    decreases s.len(),
{
    if s.len() == 0 {
        0
    } else {
        decimal_value(s.drop_last()) * 10 + digit_value(s.last())
    }
}

/// How the standard library reads an unsigned integer no larger than `max`
/// from text: an optional `+`, then one or more ASCII digits, nothing else.
pub open spec fn parse_unsigned(s: Seq<char>, max: nat) -> Option<nat> {
    let digits = if s.len() > 0 && s[0] == '+' {
        s.skip(1)
    } else {
        s
    };
    if digits.len() == 0 || !all_digits(digits) || decimal_value(digits) > max {
        None
    } else {
        Some(decimal_value(digits))
    }
}

/// The decimal text of a number, without leading zeros.
pub open spec fn decimal_text(n: nat) -> Seq<char>
    decreases n,
{
    if n < 10 {
        seq![digit_char(n)]
    } else {
        decimal_text(n / 10).push(digit_char(n % 10))
    }
}

/// The pieces of `s` between occurrences of `sep`, as `str::split` gives
/// them: empty pieces included, and one piece more than there are separators.
pub open spec fn split_on(s: Seq<char>, sep: char) -> Seq<Seq<char>>
    decreases s.len(),
{
    if s.len() == 0 {
        seq![Seq::<char>::empty()]
    } else {
        let prev = split_on(s.drop_last(), sep);
        if s.last() == sep {
            prev.push(Seq::<char>::empty())
        } else {
            prev.update(prev.len() - 1, prev.last().push(s.last()))
        }
    }
}

/// A character with the Unicode White_Space property, the set that
/// `char::is_whitespace` and `str::trim` use.
pub open spec fn is_white_space(c: char) -> bool {
    ||| ('\u{9}' <= c && c <= '\u{d}')
    ||| c == ' '
    ||| c == '\u{85}'
    ||| c == '\u{a0}'
    ||| c == '\u{1680}'
    ||| ('\u{2000}' <= c && c <= '\u{200a}')
    ||| c == '\u{2028}'
    ||| c == '\u{2029}'
    ||| c == '\u{202f}'
    ||| c == '\u{205f}'
    ||| c == '\u{3000}'
}

/// `s` without its leading white space.
pub open spec fn trim_front(s: Seq<char>) -> Seq<char>
    decreases s.len(),
{
    if s.len() > 0 && is_white_space(s[0]) {
        trim_front(s.drop_first())
    } else {
        s
    }
}

/// `s` without its trailing white space.
pub open spec fn trim_back(s: Seq<char>) -> Seq<char>
    decreases s.len(),
{
    if s.len() > 0 && is_white_space(s.last()) {
        trim_back(s.drop_last())
    } else {
        s
    }
}

/// `s` without leading and trailing white space, as `str::trim` gives it.
pub open spec fn trim(s: Seq<char>) -> Seq<char> {
    trim_back(trim_front(s))
}

/// `needle` occurs in `hay` as a contiguous piece.
pub open spec fn contains_text(hay: Seq<char>, needle: Seq<char>) -> bool {
    exists|i: int|
        0 <= i && i + needle.len() <= hay.len() && #[trigger] hay.subrange(i, i + needle.len())
            == needle
}

// ---------------------------------------------------------------------------
// Lemmas
// ---------------------------------------------------------------------------

pub proof fn lemma_digit_char(d: nat)
    requires
        d < 10,
    ensures
        is_digit(digit_char(d)),
        digit_value(digit_char(d)) == d,
{
}

pub proof fn lemma_decimal_value_prefix(s: Seq<char>, j: int)
    requires
        0 <= j <= s.len(),
    ensures
        decimal_value(s.take(j)) <= decimal_value(s),
    decreases s.len(),
{
    if j < s.len() {
        assert(s.drop_last().take(j) =~= s.take(j));
        lemma_decimal_value_prefix(s.drop_last(), j);
    } else {
        assert(s.take(j) =~= s);
    }
}

pub proof fn lemma_decimal_value_step(s: Seq<char>, i: int)
    requires
        0 <= i < s.len(),
    ensures
        decimal_value(s.take(i + 1)) == decimal_value(s.take(i)) * 10 + digit_value(s[i]),
{
    assert(s.take(i + 1).drop_last() =~= s.take(i));
}

/// The decimal text of a number is made of digits, spells the number,
/// and has no superfluous leading zero.
pub proof fn lemma_decimal_text(n: nat)
    ensures
        decimal_text(n).len() >= 1,
        all_digits(decimal_text(n)),
        decimal_value(decimal_text(n)) == n,
        decimal_text(n).len() > 1 ==> decimal_text(n)[0] != '0',
    decreases n,
{
    lemma_digit_char(n % 10);
    if n >= 10 {
        lemma_decimal_text(n / 10);
        let t = decimal_text(n / 10);
        assert(decimal_text(n).drop_last() =~= t);
        assert(decimal_text(n).last() == digit_char(n % 10));
        assert(decimal_text(n)[0] == t[0]);
        assert(n == (n / 10) * 10 + n % 10);
        if n / 10 < 10 {
            lemma_digit_char(n / 10);
            assert(t[0] == digit_char(n / 10));
        } else {
            lemma_decimal_text(n / 100);
            assert(n / 100 == (n / 10) / 10);
            assert(t.len() > 1);
        }
        assert forall|i: int| 0 <= i < decimal_text(n).len() implies is_digit(
            #[trigger] decimal_text(n)[i],
        ) by {
            if i < t.len() {
                assert(decimal_text(n)[i] == t[i]);
            }
        }
    } else {
        assert(decimal_text(n).drop_last() =~= Seq::<char>::empty());
        assert(decimal_value(decimal_text(n).drop_last()) == 0);
        assert(decimal_text(n).last() == digit_char(n));
    }
}

/// A string of digits without a superfluous leading zero is the decimal
/// text of its value.
pub proof fn lemma_canonical_digits(s: Seq<char>)
    requires
        s.len() >= 1,
        all_digits(s),
        s.len() > 1 ==> s[0] != '0',
    ensures
        decimal_text(decimal_value(s)) == s,
    decreases s.len(),
{
    let v = decimal_value(s);
    if s.len() == 1 {
        assert(s.drop_last() =~= Seq::<char>::empty());
        assert(s.last() == s[0]);
        assert(decimal_value(s.drop_last()) == 0);
        assert(v == digit_value(s[0]));
        assert(decimal_text(v) =~= s);
    } else {
        let p = s.drop_last();
        assert(p[0] == s[0]);
        lemma_leading_digit_positive(p);
        lemma_canonical_digits(p);
        let pv = decimal_value(p);
        assert(pv >= 1);
        assert(v == pv * 10 + digit_value(s.last()));
        assert(v / 10 == pv && v % 10 == digit_value(s.last())) by (nonlinear_arith)
            requires
                v == pv * 10 + digit_value(s.last()),
                digit_value(s.last()) < 10,
        ;
        assert(digit_char(digit_value(s.last())) == s.last());
        assert(decimal_text(v) =~= p.push(s.last()));
    }
}

/// A string of digits whose first digit is not zero has a positive value.
pub proof fn lemma_leading_digit_positive(s: Seq<char>)
    requires
        s.len() >= 1,
        all_digits(s),
        s[0] != '0',
    ensures
        decimal_value(s) >= 1,
    decreases s.len(),
{
    if s.len() > 1 {
        let p = s.drop_last();
        assert(p[0] == s[0]);
        lemma_leading_digit_positive(p);
    }
}

/// Splitting a piece that holds no separator gives the piece itself.
pub proof fn lemma_split_without_sep(s: Seq<char>, sep: char)
    requires
        !s.contains(sep),
    ensures
        split_on(s, sep) == seq![s],
    decreases s.len(),
{
    if s.len() > 0 {
        let p = s.drop_last();
        assert(!p.contains(sep)) by {
            if p.contains(sep) {
                let k = choose|k: int| 0 <= k < p.len() && p[k] == sep;
                assert(s[k] == sep);
            }
        }
        lemma_split_without_sep(p, sep);
        assert(s.last() != sep) by {
            assert(s[s.len() - 1] == s.last());
        }
        assert(p.push(s.last()) =~= s);
    } else {
        assert(s =~= Seq::<char>::empty());
    }
}

/// Splitting never gives an empty list of pieces.
pub proof fn lemma_split_nonempty(s: Seq<char>, sep: char)
    ensures
        split_on(s, sep).len() >= 1,
    decreases s.len(),
{
    if s.len() > 0 {
        lemma_split_nonempty(s.drop_last(), sep);
    }
}

/// Splitting `a`, a separator, and `b` gives the pieces of `a` followed by
/// the pieces of `b`.
pub proof fn lemma_split_concat(a: Seq<char>, b: Seq<char>, sep: char)
    ensures
        split_on(a + seq![sep] + b, sep) == split_on(a, sep) + split_on(b, sep),
    decreases b.len(),
{
    let s = a + seq![sep] + b;
    if b.len() == 0 {
        assert(s.drop_last() =~= a);
        assert(s.last() == sep);
        assert(split_on(a, sep).push(Seq::<char>::empty()) =~= split_on(a, sep) + split_on(b, sep));
    } else {
        let b2 = b.drop_last();
        lemma_split_concat(a, b2, sep);
        lemma_split_nonempty(a, sep);
        lemma_split_nonempty(b2, sep);
        assert(s.drop_last() =~= a + seq![sep] + b2);
        assert(s.last() == b.last());
        let pa = split_on(a, sep);
        let pb = split_on(b2, sep);
        if b.last() == sep {
            assert((pa + pb).push(Seq::<char>::empty()) =~= pa + pb.push(Seq::<char>::empty()));
        } else {
            assert((pa + pb).update((pa + pb).len() - 1, (pa + pb).last().push(b.last())) =~= pa
                + pb.update(pb.len() - 1, pb.last().push(b.last())));
        }
    }
}

/// The decimal text of a number below 1000 has at most three digits.
pub proof fn lemma_decimal_text_short(n: nat)
    requires
        n < 1000,
    ensures
        decimal_text(n).len() <= 3,
{
    if n >= 10 {
        assert(decimal_text(n).len() == decimal_text(n / 10).len() + 1);
        if n / 10 >= 10 {
            assert(n / 10 / 10 < 10);
            assert(decimal_text(n / 10).len() == decimal_text(n / 10 / 10).len() + 1);
            assert(decimal_text(n / 10 / 10).len() == 1);
        } else {
            assert(decimal_text(n / 10).len() == 1);
        }
    }
}

/// Decimal text holds no character other than digits.
pub proof fn lemma_decimal_text_without(n: nat, c: char)
    requires
        !is_digit(c),
    ensures
        !decimal_text(n).contains(c),
{
    lemma_decimal_text(n);
    if decimal_text(n).contains(c) {
        let k = choose|k: int| 0 <= k < decimal_text(n).len() && decimal_text(n)[k] == c;
        assert(is_digit(decimal_text(n)[k]));
    }
}

/// The number of white-space characters that `s` opens with.
pub open spec fn leading_white(s: Seq<char>) -> nat
    decreases s.len(),
{
    if s.len() > 0 && is_white_space(s[0]) {
        1 + leading_white(s.drop_first())
    } else {
        0
    }
}

/// The number of white-space characters that `s` closes with.
pub open spec fn trailing_white(s: Seq<char>) -> nat
    decreases s.len(),
{
    if s.len() > 0 && is_white_space(s.last()) {
        1 + trailing_white(s.drop_last())
    } else {
        0
    }
}

proof fn lemma_trim_front(s: Seq<char>)
    ensures
        leading_white(s) <= s.len(),
        trim_front(s) == s.skip(leading_white(s) as int),
        forall|k: int| 0 <= k < leading_white(s) ==> is_white_space(#[trigger] s[k]),
        leading_white(s) < s.len() ==> !is_white_space(s[leading_white(s) as int]),
    decreases s.len(),
{
    if s.len() > 0 && is_white_space(s[0]) {
        let t = s.drop_first();
        lemma_trim_front(t);
        assert(s.skip(leading_white(s) as int) =~= t.skip(leading_white(t) as int));
        assert forall|k: int| 0 <= k < leading_white(s) implies is_white_space(#[trigger] s[k]) by {
            if k > 0 {
                assert(s[k] == t[k - 1]);
            }
        }
        if leading_white(s) < s.len() {
            assert(s[leading_white(s) as int] == t[leading_white(t) as int]);
        }
    } else {
        assert(s.skip(0) =~= s);
    }
}

proof fn lemma_trim_back(s: Seq<char>)
    ensures
        trailing_white(s) <= s.len(),
        trim_back(s) == s.take(s.len() - trailing_white(s)),
        forall|k: int| s.len() - trailing_white(s) <= k < s.len() ==> is_white_space(#[trigger] s[k]),
        trailing_white(s) < s.len() ==> !is_white_space(s[s.len() - trailing_white(s) - 1]),
    decreases s.len(),
{
    if s.len() > 0 && is_white_space(s.last()) {
        let t = s.drop_last();
        lemma_trim_back(t);
        assert(s.take(s.len() - trailing_white(s)) =~= t.take(t.len() - trailing_white(t)));
        assert forall|k: int| s.len() - trailing_white(s) <= k < s.len() implies is_white_space(
            #[trigger] s[k],
        ) by {
            if k < s.len() - 1 {
                assert(s[k] == t[k]);
            }
        }
        if trailing_white(s) < s.len() {
            assert(s[s.len() - trailing_white(s) - 1] == t[t.len() - trailing_white(t) - 1]);
        }
    } else {
        assert(s.take(s.len() as int) =~= s);
    }
}

/// Trimming removes white space from both ends and nothing else: what it
/// keeps is one contiguous piece of the text, everything before and after
/// that piece is white space, and the piece neither opens nor closes with
/// white space.
pub proof fn law_trim_strips_only_outer_white_space(s: Seq<char>)
    ensures
        exists|i: int, j: int|
            0 <= i <= j <= s.len() && trim(s) == s.subrange(i, j) && (forall|k: int|
                0 <= k < i ==> is_white_space(#[trigger] s[k])) && (forall|k: int|
                j <= k < s.len() ==> is_white_space(#[trigger] s[k])),
        trim(s).len() > 0 ==> !is_white_space(trim(s)[0]) && !is_white_space(trim(s).last()),
{
    lemma_trim_front(s);
    let i = leading_white(s) as int;
    let f = s.skip(i);
    lemma_trim_back(f);
    let j = i + f.len() - trailing_white(f);
    assert(trim(s) =~= s.subrange(i, j));
    assert forall|k: int| j <= k < s.len() implies is_white_space(#[trigger] s[k]) by {
        assert(s[k] == f[k - i]);
    }
    if trim(s).len() > 0 {
        assert(trim(s)[0] == f[0]);
        assert(trim(s).last() == f[f.len() - trailing_white(f) - 1]);
    }
}

// ---------------------------------------------------------------------------
// Executable helpers
// ---------------------------------------------------------------------------

/// The characters of `s`, in order.
pub fn chars_of(s: &str) -> (r: Vec<char>)
    ensures
        r@ == s@,
{
    let mut r: Vec<char> = Vec::new();
    for c in it: s.chars()
        invariant
            r@ == it.seq().take(it.index() as int),
            it.seq() == s@,
    {
        r.push(c);
    }
    r
}

/// Whether `c` occurs in `s`.
pub fn has_char(s: &Vec<char>, c: char) -> (r: bool)
    ensures
        r == s@.contains(c),
{
    let mut i: usize = 0;
    while i < s.len()
        invariant
            i <= s.len(),
            forall|k: int| 0 <= k < i ==> s@[k] != c,
        decreases s.len() - i,
    {
        if s[i] == c {
            assert(s@[i as int] == c);
            return true;
        }
        i = i + 1;
    }
    false
}

/// The pieces of `s` between occurrences of `sep`.
pub fn split_chars(s: &Vec<char>, sep: char) -> (r: Vec<Vec<char>>)
    ensures
        r@.len() == split_on(s@, sep).len(),
        forall|k: int| 0 <= k < r@.len() ==> #[trigger] r@[k]@ == split_on(s@, sep)[k],
{
    let mut done: Vec<Vec<char>> = Vec::new();
    let mut cur: Vec<char> = Vec::new();
    let mut i: usize = 0;
    while i < s.len()
        invariant
            i <= s.len(),
            done@.len() + 1 == split_on(s@.take(i as int), sep).len(),
            forall|k: int|
                0 <= k < done@.len() ==> #[trigger] done@[k]@ == split_on(s@.take(i as int), sep)[k],
            cur@ == split_on(s@.take(i as int), sep).last(),
        decreases s.len() - i,
    {
        let c = s[i];
        let ghost before = s@.take(i as int);
        assert(s@.take(i + 1).drop_last() =~= before);
        assert(s@.take(i + 1).last() == c);
        if c == sep {
            done.push(cur);
            cur = Vec::new();
        } else {
            cur.push(c);
        }
        i = i + 1;
    }
    assert(s@.take(s@.len() as int) =~= s@);
    done.push(cur);
    done
}

/// The bounds `(i, j)` of `s` without leading and trailing white space.
pub fn trim_range(s: &Vec<char>) -> (r: (usize, usize))
    ensures
        r.0 <= r.1 <= s@.len(),
        s@.subrange(r.0 as int, r.1 as int) == trim(s@),
{
    let n = s.len();
    let mut i: usize = 0;
    assert(s@.skip(0) =~= s@);
    while i < n && is_white_space_char(s[i])
        invariant
            i <= n,
            n == s@.len(),
            trim_front(s@) == trim_front(s@.skip(i as int)),
        decreases n - i,
    {
        assert(s@.skip(i as int).drop_first() =~= s@.skip(i + 1));
        i = i + 1;
    }
    let ghost front = s@.skip(i as int);
    assert(trim_front(front) == front);
    assert(front =~= s@.subrange(i as int, n as int));
    let mut j: usize = n;
    while j > i && is_white_space_char(s[j - 1])
        invariant
            i <= j <= n,
            n == s@.len(),
            trim_back(front) == trim_back(s@.subrange(i as int, j as int)),
        decreases j,
    {
        assert(s@.subrange(i as int, j as int).drop_last() =~= s@.subrange(i as int, j - 1));
        j = j - 1;
    }
    let ghost mid = s@.subrange(i as int, j as int);
    assert(trim_back(mid) == mid) by {
        if mid.len() > 0 {
            assert(mid.last() == s@[j - 1]);
        }
    }
    (i, j)
}

/// `s` with leading and trailing white space removed.
pub fn trim_chars(s: &Vec<char>) -> (r: Vec<char>)
    ensures
        r@ == trim(s@),
{
    let (i, j) = trim_range(s);
    let mut r: Vec<char> = Vec::new();
    let mut k: usize = i;
    while k < j
        invariant
            i <= k <= j <= s@.len(),
            r@ == s@.subrange(i as int, k as int),
        decreases j - k,
    {
        r.push(s[k]);
        assert(s@.subrange(i as int, k + 1) =~= s@.subrange(i as int, k as int).push(s@[k as int]));
        k = k + 1;
    }
    r
}

/// Whether `c` has the Unicode White_Space property.
pub fn is_white_space_char(c: char) -> (r: bool)
    ensures
        r == is_white_space(c),
{
    ('\u{9}' <= c && c <= '\u{d}') || c == ' ' || c == '\u{85}' || c == '\u{a0}' || c == '\u{1680}'
        || ('\u{2000}' <= c && c <= '\u{200a}') || c == '\u{2028}' || c == '\u{2029}' || c
        == '\u{202f}' || c == '\u{205f}' || c == '\u{3000}'
}

/// Reads an unsigned integer no larger than `max` as the standard library's
/// `str::parse` does for unsigned types.
pub fn parse_unsigned_chars(s: &Vec<char>, max: u64) -> (r: Option<u64>)
    ensures
        match parse_unsigned(s@, max as nat) {
            Some(v) => r == Some(v as u64),
            None => r is None,
        },
{
    let start: usize = if s.len() > 0 && s[0] == '+' {
        1
    } else {
        0
    };
    let ghost digits = if s@.len() > 0 && s@[0] == '+' {
        s@.skip(1)
    } else {
        s@
    };
    assert(digits =~= s@.skip(start as int));
    if start == s.len() {
        assert(digits.len() == 0);
        return None;
    }
    let mut acc: u64 = 0;
    let mut i: usize = start;
    while i < s.len()
        invariant
            start <= i <= s.len(),
            digits =~= s@.skip(start as int),
            digits == (if s@.len() > 0 && s@[0] == '+' {
                s@.skip(1)
            } else {
                s@
            }),
            all_digits(digits.take(i - start)),
            acc as nat == decimal_value(digits.take(i - start)),
            acc <= max,
        decreases s.len() - i,
    {
        let c = s[i];
        proof {
            lemma_decimal_value_step(digits, i - start);
            assert(digits[i - start] == c);
        }
        if !('0' <= c && c <= '9') {
            assert(!all_digits(digits)) by {
                assert(digits[i - start] == c);
            }
            return None;
        }
        let d = (c as u32 - '0' as u32) as u64;
        assert(d == digit_value(c));
        if d > max {
            proof {
                assert(all_digits(digits) ==> decimal_value(digits) > max) by {
                    if all_digits(digits) {
                        lemma_decimal_value_prefix(digits, i - start + 1);
                    }
                }
            }
            return None;
        }
        if acc > (max - d) / 10 {
            proof {
                assert(acc * 10 + d > max) by (nonlinear_arith)
                    requires
                        acc > (max - d) / 10,
                        d <= max,
                ;
                assert(all_digits(digits) ==> decimal_value(digits) > max) by {
                    if all_digits(digits) {
                        lemma_decimal_value_prefix(digits, i - start + 1);
                    }
                }
            }
            return None;
        }
        assert(acc * 10 + d <= max) by (nonlinear_arith)
            requires
                acc <= (max - d) / 10,
                d <= max,
        ;
        acc = acc * 10 + d;
        proof {
            assert forall|k: int| 0 <= k < digits.take(i - start + 1).len() implies is_digit(
                #[trigger] digits.take(i - start + 1)[k],
            ) by {
                if k < i - start {
                    assert(digits.take(i - start + 1)[k] == digits.take(i - start)[k]);
                }
            }
        }
        i = i + 1;
    }
    assert(digits.take(i - start) =~= digits);
    Some(acc)
}

/// The digit character for a value below ten.
pub fn digit_to_char(d: u64) -> (c: char)
    requires
        d < 10,
    ensures
        c == digit_char(d as nat),
{
    ((d as u8) + 48u8) as char
}

/// The decimal text of `n`, appended to `out`.
pub fn push_decimal(out: &mut Vec<char>, n: u64)
    ensures
        final(out)@ == old(out)@ + decimal_text(n as nat),
    decreases n,
{
    if n >= 10 {
        push_decimal(out, n / 10);
    }
    out.push(digit_to_char(n % 10));
    proof {
        if n >= 10 {
            assert(old(out)@ + decimal_text(n as nat) =~= old(out)@ + decimal_text((n / 10) as nat)
                + seq![digit_char((n % 10) as nat)]);
        }
    }
}

/// Whether `needle` occurs in `hay` as a contiguous piece.
pub fn contains_chars(hay: &Vec<char>, needle: &Vec<char>) -> (r: bool)
    ensures
        r == contains_text(hay@, needle@),
{
    if needle.len() > hay.len() {
        return false;
    }
    if needle.len() == 0 {
        assert(hay@.subrange(0int, 0int + needle@.len()) =~= needle@);
        return true;
    }
    let positions = hay.len() - needle.len() + 1;
    let mut i: usize = 0;
    while i < positions
        invariant
            positions == hay@.len() - needle@.len() + 1,
            1 <= needle@.len() <= hay@.len(),
            i <= positions,
            forall|k: int|
                0 <= k < i ==> #[trigger] hay@.subrange(k, k + needle@.len()) != needle@,
        decreases positions - i,
    {
        let mut j: usize = 0;
        let mut same = true;
        while j < needle.len()
            invariant
                i < positions,
                positions == hay@.len() - needle@.len() + 1,
                1 <= needle@.len() <= hay@.len(),
                j <= needle@.len(),
                same == (forall|m: int| 0 <= m < j ==> hay@[i + m] == needle@[m]),
            decreases needle.len() - j,
        {
            assert(i + j < hay.len());
            if hay[i + j] != needle[j] {
                same = false;
            }
            j = j + 1;
        }
        if same {
            assert(hay@.subrange(i as int, i + needle@.len()) =~= needle@);
            return true;
        }
        assert(hay@.subrange(i as int, i + needle@.len()) != needle@) by {
            let m = choose|m: int| 0 <= m < needle@.len() && hay@[i + m] != needle@[m];
            assert(hay@.subrange(i as int, i + needle@.len())[m] == hay@[i + m]);
        }
        i = i + 1;
    }
    assert(!contains_text(hay@, needle@)) by {
        if contains_text(hay@, needle@) {
            let k = choose|k: int|
                0 <= k && k + needle@.len() <= hay@.len() && #[trigger] hay@.subrange(
                    k,
                    k + needle@.len(),
                ) == needle@;
            assert(k < positions);
        }
    }
    false
}

/// A one-character text holding the digit `c`.
fn digit_text(c: char) -> (r: &'static str)
    requires
        is_digit(c),
    ensures
        r@ == seq![c],
{
    proof {
        reveal_strlit("0");
        reveal_strlit("1");
        reveal_strlit("2");
        reveal_strlit("3");
        reveal_strlit("4");
        reveal_strlit("5");
        reveal_strlit("6");
        reveal_strlit("7");
        reveal_strlit("8");
        reveal_strlit("9");
    }
    match c {
        '0' => "0",
        '1' => "1",
        '2' => "2",
        '3' => "3",
        '4' => "4",
        '5' => "5",
        '6' => "6",
        '7' => "7",
        '8' => "8",
        _ => "9",
    }
}

/// The decimal text of `n`, appended to `out`.
pub fn append_decimal(out: &mut String, n: u64)
    ensures
        final(out)@ == old(out)@ + decimal_text(n as nat),
{
    let mut digits: Vec<char> = Vec::new();
    push_decimal(&mut digits, n);
    proof {
        lemma_decimal_text(n as nat);
        assert(digits@ =~= decimal_text(n as nat));
    }
    let ghost start = out@;
    let mut i: usize = 0;
    while i < digits.len()
        invariant
            i <= digits@.len(),
            all_digits(digits@),
            digits@ == decimal_text(n as nat),
            out@ == start + digits@.take(i as int),
        decreases digits.len() - i,
    {
        assert(is_digit(digits@[i as int]));
        out.append(digit_text(digits[i]));
        assert(digits@.take(i + 1) =~= digits@.take(i as int).push(digits@[i as int]));
        i = i + 1;
    }
    assert(digits@.take(digits@.len() as int) =~= digits@);
}

} // verus!
