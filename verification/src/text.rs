use vstd::prelude::*;

verus! {

/// Appends one character to a `String` (std's `String::push`): the string's
/// characters afterwards are the old ones followed by `c`.
#[verifier::external_body]
pub(crate) fn push_char(s: &mut String, c: char)
    ensures
        final(s)@ == old(s)@.push(c),
{
    s.push(c);
}

/// The characters of a string slice, in order.
pub fn str_chars(s: &str) -> (v: Vec<char>)
    ensures
        v@ == s@,
{
    let mut v: Vec<char> = Vec::new();
    for c in it: s.chars()
        invariant
            v@ == it.seq().take(it.index() as int),
            it.seq() == s@,
    {
        v.push(c);
    }
    v
}

/// Whether two string slices hold the same characters.
pub fn str_equals(a: &str, b: &str) -> (r: bool)
    ensures
        r == (a@ == b@),
{
    let x = str_chars(a);
    let y = str_chars(b);
    if x.len() != y.len() {
        return false;
    }
    let mut i: usize = 0;
    while i < x.len()
        invariant
            i <= x@.len() == y@.len(),
            x@ == a@,
            y@ == b@,
            forall|j: int| 0 <= j < i ==> x@[j] == y@[j],
        decreases x@.len() - i,
    {
        if x[i] != y[i] {
            return false;
        }
        i = i + 1;
    }
    assert(x@ =~= y@);
    true
}

/// The ASCII character of a decimal digit.
pub open spec fn digit_char(d: nat) -> char {
    if d == 0 {
        '0'
    } else if d == 1 {
        '1'
    } else if d == 2 {
        '2'
    } else if d == 3 {
        '3'
    } else if d == 4 {
        '4'
    } else if d == 5 {
        '5'
    } else if d == 6 {
        '6'
    } else if d == 7 {
        '7'
    } else if d == 8 {
        '8'
    } else {
        '9'
    }
}

/// The decimal digits of `n` as characters, most significant first, without
/// leading zeros.
pub open spec fn decimal_chars(n: nat) -> Seq<char>
    decreases n,
{
    if n < 10 {
        seq![digit_char(n)]
    } else {
        decimal_chars(n / 10).push(digit_char(n % 10))
    }
}

fn digit_char_of(d: usize) -> (c: char)
    requires
        d < 10,
    ensures
        c == digit_char(d as nat),
{
    if d == 0 {
        '0'
    } else if d == 1 {
        '1'
    } else if d == 2 {
        '2'
    } else if d == 3 {
        '3'
    } else if d == 4 {
        '4'
    } else if d == 5 {
        '5'
    } else if d == 6 {
        '6'
    } else if d == 7 {
        '7'
    } else if d == 8 {
        '8'
    } else {
        '9'
    }
}

/// Appends the decimal digits of `n`.
pub fn push_decimal(out: &mut String, n: usize)
    ensures
        final(out)@ == old(out)@ + decimal_chars(n as nat),
    decreases n,
{
    if n >= 10 {
        push_decimal(out, n / 10);
    }
    push_char(out, digit_char_of(n % 10));
    if n < 10 {
        assert(old(out)@ + decimal_chars(n as nat) =~= old(out)@.push(digit_char(n as nat)));
    } else {
        assert(old(out)@ + decimal_chars(n as nat) =~= (old(out)@ + decimal_chars((n / 10) as nat)).push(
            digit_char((n % 10) as nat),
        ));
    }
}

/// The decimal text of `n`.
pub fn decimal_string(n: usize) -> (s: String)
    ensures
        s@ == decimal_chars(n as nat),
{
    let mut s = String::new();
    push_decimal(&mut s, n);
    assert(seq![] + decimal_chars(n as nat) =~= decimal_chars(n as nat));
    s
}

/// `c` is one of `0`..`9`.
pub open spec fn is_digit_char(c: char) -> bool {
    '0' <= c && c <= '9'
}

/// The value of a run of decimal digit characters.
pub open spec fn digit_chars_value(s: Seq<char>) -> int
    decreases s.len(),
{
    if s.len() == 0 {
        0
    } else {
        digit_chars_value(s.drop_last()) * 10 + (s.last() as int - 48)
    }
}

/// One or more decimal digit characters.
pub open spec fn is_digit_run(s: Seq<char>) -> bool {
    s.len() > 0 && forall|i: int| 0 <= i < s.len() ==> is_digit_char(#[trigger] s[i])
}

/// The number an integer text writes in std's grammar for unsigned integers: an
/// optional `+` and then one or more decimal digits. `None` for any other text.
pub open spec fn unsigned_text_value(s: Seq<char>) -> Option<int> {
    let digits = if s.len() > 0 && s[0] == '+' {
        s.skip(1)
    } else {
        s
    };
    if is_digit_run(digits) {
        Some(digit_chars_value(digits))
    } else {
        None
    }
}

/// The number an integer text writes in std's grammar for signed integers: an
/// optional `+` or `-` and then one or more decimal digits.
pub open spec fn signed_text_value(s: Seq<char>) -> Option<int> {
    if s.len() > 0 && s[0] == '-' {
        if is_digit_run(s.skip(1)) {
            Some(-digit_chars_value(s.skip(1)))
        } else {
            None
        }
    } else {
        unsigned_text_value(s)
    }
}

proof fn lemma_digit_char_code(d: nat)
    requires
        d < 10,
    ensures
        digit_char(d) as int == 48 + d,
{
    assert('0' as int == 48);
    assert('9' as int == 57);
    if d == 0 {
    } else if d == 1 {
        assert('1' as int == 49);
    } else if d == 2 {
        assert('2' as int == 50);
    } else if d == 3 {
        assert('3' as int == 51);
    } else if d == 4 {
        assert('4' as int == 52);
    } else if d == 5 {
        assert('5' as int == 53);
    } else if d == 6 {
        assert('6' as int == 54);
    } else if d == 7 {
        assert('7' as int == 55);
    } else if d == 8 {
        assert('8' as int == 56);
    }
}

proof fn lemma_decimal_chars_digits(n: nat)
    ensures
        is_digit_run(decimal_chars(n)),
        digit_chars_value(decimal_chars(n)) == n,
    decreases n,
{
    if n < 10 {
        lemma_digit_char_code(n);
        assert(decimal_chars(n) == seq![digit_char(n)]);
        assert(decimal_chars(n).drop_last() =~= Seq::<char>::empty());
        assert(digit_chars_value(decimal_chars(n)) == digit_chars_value(Seq::<char>::empty()) * 10 + (
        digit_char(n) as int - 48));
    } else {
        lemma_digit_char_code(n % 10);
        lemma_decimal_chars_digits(n / 10);
        let prev = decimal_chars(n / 10);
        assert(decimal_chars(n).drop_last() =~= prev);
        assert(decimal_chars(n).last() == digit_char(n % 10));
        assert(n == (n / 10) * 10 + n % 10) by (nonlinear_arith);
        assert(digit_chars_value(decimal_chars(n)) == digit_chars_value(prev) * 10 + (n % 10));
        assert forall|i: int| 0 <= i < decimal_chars(n).len() implies is_digit_char(
            #[trigger] decimal_chars(n)[i],
        ) by {
            if i < prev.len() {
                assert(decimal_chars(n)[i] == prev[i]);
            }
        }
    }
}

/// The decimal text of any natural number reads back as that number, both in
/// the unsigned and in the signed integer grammar: what a count shows is what
/// parsing it gives.
pub proof fn law_decimal_text_reads_back(n: nat)
    ensures
        unsigned_text_value(decimal_chars(n)) == Some(n as int),
        signed_text_value(decimal_chars(n)) == Some(n as int),
{
    lemma_decimal_chars_digits(n);
    let t = decimal_chars(n);
    assert(is_digit_char(t[0]));
}

/// What std's `ParseIntError` says, as text, when `usize::from_str` refuses `s`.
pub uninterp spec fn usize_parse_error_text(s: Seq<char>) -> Seq<char>;

/// What std's `ParseIntError` says, as text, when `i128::from_str` refuses `s`.
pub uninterp spec fn i128_parse_error_text(s: Seq<char>) -> Seq<char>;

/// `s.parse::<usize>()` with the error turned into its message. std documents
/// the grammar (an optional `+`, then only decimal digits) and that a value
/// above `usize::MAX` is refused; the message is named, not stated.
#[verifier::external_body]
pub(crate) fn parse_usize(s: &str) -> (r: Result<usize, String>)
    ensures
        r matches Ok(n) ==> unsigned_text_value(s@) == Some(n as int),
        r is Err <==> (unsigned_text_value(s@) is None || unsigned_text_value(s@)->0 > usize::MAX),
        r matches Err(e) ==> e@ == usize_parse_error_text(s@),
{
    s.parse::<usize>().map_err(|e| e.to_string())
}

/// `s.parse::<i128>()` with the error turned into its message. std documents
/// the grammar (an optional `+` or `-`, then only decimal digits) and that a
/// value outside the `i128` range is refused; the message is named, not stated.
#[verifier::external_body]
pub(crate) fn parse_i128(s: &str) -> (r: Result<i128, String>)
    ensures
        r matches Ok(n) ==> signed_text_value(s@) == Some(n as int),
        r is Err <==> (signed_text_value(s@) is None || signed_text_value(s@)->0 < i128::MIN
            || signed_text_value(s@)->0 > i128::MAX),
        r matches Err(e) ==> e@ == i128_parse_error_text(s@),
{
    s.parse::<i128>().map_err(|e| e.to_string())
}

} // verus!
