//! Reading sizes from text such as `10B`, `10.9KB` or `10.42GB`.
use vstd::prelude::*;
use vstd::string::{StrSliceExecFns, StringExecFns};
use crate::human::{best_unit, ByteSize, Unit};
use crate::render::{
    compact_text, decimal, digit_char, fixed_text, lemma_decimal_digit_chars,
    lemma_digit_char, padded, pow10, float_step, nearest_double, round_half_even, strip_trailing,
};

verus! {

#[verifier::external_type_specification]
#[verifier::external_body]
pub struct ExParseIntError(core::num::ParseIntError);

#[verifier::external_type_specification]
#[verifier::external_body]
pub struct ExParseFloatError(core::num::ParseFloatError);

/// Why a text is not a size.
pub enum ParseError {
    /// The text ends in no known unit; it is carried whole.
    UnkUnit(String),
    /// The number before `B` is not a whole number of bytes.
    ParseInt(core::num::ParseIntError),
    /// The number before `KB`, `MB` or `GB` is not a decimal number.
    ParseFloat(core::num::ParseFloatError),
}

/// What a size text holds once its unit is known.
pub enum SizeText {
    /// A whole number of bytes, given with `B`.
    Exact(ByteSize),
    /// A decimal number of kilo-, mega- or gigabytes, given with `KB`, `MB`
    /// or `GB`: the unit and the number's text, spaces trimmed.
    Scaled(Unit, String),
}

/// `c` has the Unicode property White_Space.
pub open spec fn is_white(c: char) -> bool {
    let u = c as u32;
    (9 <= u && u <= 13) || u == 32 || u == 0x85 || u == 0xA0 || u == 0x1680 || (0x2000 <= u && u
        <= 0x200A) || u == 0x2028 || u == 0x2029 || u == 0x202F || u == 0x205F || u == 0x3000
}

/// `s` without the white space at its end.
pub open spec fn trim_end_white(s: Seq<char>) -> Seq<char>
    decreases s.len(),
{
    if s.len() > 0 && is_white(s.last()) {
        trim_end_white(s.drop_last())
    } else {
        s
    }
}

/// `s` without the white space at its start.
pub open spec fn trim_start_white(s: Seq<char>) -> Seq<char>
    decreases s.len(),
{
    if s.len() > 0 && is_white(s[0]) {
        trim_start_white(s.drop_first())
    } else {
        s
    }
}

/// `s` without white space at either end.
pub open spec fn trim_white(s: Seq<char>) -> Seq<char> {
    trim_start_white(trim_end_white(s))
}

/// `s` ends with `suf`.
pub open spec fn ends_with(s: Seq<char>, suf: Seq<char>) -> bool {
    suf.len() <= s.len() && s.subrange(s.len() - suf.len(), s.len() as int) == suf
}

/// `c` is an ASCII decimal digit.
pub open spec fn is_digit(c: char) -> bool {
    48 <= c as u32 && c as u32 <= 57
}

/// The value of a run of ASCII decimal digits.
pub open spec fn digit_run_value(s: Seq<char>) -> nat
    decreases s.len(),
{
    if s.len() == 0 {
        0
    } else {
        digit_run_value(s.drop_last()) * 10 + (s.last() as u32 - 48) as nat
    }
}

/// The digits of an unsigned integer's text: `s` without a leading `+`.
pub open spec fn unsigned_body(s: Seq<char>) -> Seq<char> {
    if s.len() > 0 && s[0] == '+' {
        s.drop_first()
    } else {
        s
    }
}

/// The unsigned integer `s` writes: an optional `+`, then one or more ASCII
/// digits; `None` for any other text.
pub open spec fn unsigned_text(s: Seq<char>) -> Option<nat> {
    if unsigned_body(s).len() > 0 && forall|i: int|
        0 <= i < unsigned_body(s).len() ==> is_digit(#[trigger] unsigned_body(s)[i]) {
        Some(digit_run_value(unsigned_body(s)))
    } else {
        None
    }
}

/// `c` is an ASCII letter.
pub open spec fn is_letter(c: char) -> bool {
    let u = c as u32;
    (65 <= u && u <= 90) || (97 <= u && u <= 122)
}

/// A letter stands right before the last character of `s`: in a text that
/// ends in `B`, a unit prefix.
pub open spec fn letter_before_last(s: Seq<char>) -> bool {
    s.len() >= 2 && is_letter(s[s.len() - 2])
}

/// `s` ends in `B` but in none of `KB`, `MB` and `GB`.
pub open spec fn bare_bytes_suffix(s: Seq<char>) -> bool {
    &&& ends_with(s, Unit::Bytes.suffix())
    &&& !ends_with(s, Unit::Kilo.suffix())
    &&& !ends_with(s, Unit::Mega.suffix())
    &&& !ends_with(s, Unit::Giga.suffix())
}

/// The number's text before a unit suffix: the suffix dropped once, then
/// white space trimmed.
pub open spec fn number_part(s: Seq<char>, suf: Seq<char>) -> Seq<char> {
    trim_white(s.subrange(0, s.len() - suf.len()))
}

proof fn lemma_decimal_value(n: nat)
    ensures
        digit_run_value(decimal(n)) == n,
    decreases n,
{
    lemma_digit_char(n % 10);
    lemma_decimal_digit_chars(n);
    let c = digit_char(n % 10);
    let d = decimal(n);
    if n >= 10 {
        lemma_decimal_value(n / 10);
        assert(d.drop_last() == decimal(n / 10));
        assert(d.last() == c);
        assert(digit_run_value(d) == digit_run_value(decimal(n / 10)) * 10 + (c as u32 - 48) as nat);
    } else {
        assert(d.drop_last() =~= Seq::<char>::empty());
        assert(d.last() == c);
        assert(digit_run_value(d) == digit_run_value(d.drop_last()) * 10 + (c as u32 - 48) as nat);
    }
}

/// A size in bytes, written compactly with two decimals, reads back as the
/// same byte count: the text ends in `B` and no longer unit, and the number
/// before it is that count. This holds up to 2^53 bytes, which a 64-bit float
/// holds exactly.
pub proof fn lemma_bytes_text_round_trip(n: u64)
    requires
        n < 0x20_0000_0000_0000,
    ensures
        ({
            let t = compact_text(n as nat, Unit::Bytes, 2);
            &&& !ends_with(t, Unit::Kilo.suffix())
            &&& !ends_with(t, Unit::Mega.suffix())
            &&& !ends_with(t, Unit::Giga.suffix())
            &&& ends_with(t, Unit::Bytes.suffix())
            &&& !letter_before_last(t)
            &&& unsigned_text(number_part(t, Unit::Bytes.suffix())) == Some(n as nat)
        }),
{
    let m = n as nat;
    let d = decimal(m);
    lemma_decimal_digit_chars(m);
    lemma_decimal_value(m);
    assert(pow10(2) == 100) by {
        assert(pow10(0) == 1);
        assert(pow10(1) == 10);
    }
    assert(float_step(m) == 1);
    assert(round_half_even(m, 1) == m);
    assert(nearest_double(m) == m) by (nonlinear_arith)
        requires
            nearest_double(m) == round_half_even(m, float_step(m)) * float_step(m),
            float_step(m) == 1,
            round_half_even(m, 1) == m,
    ;
    assert(round_half_even(m * 100, 1) == m * 100);
    assert((m * 100) / 100 == m && (m * 100) % 100 == 0);
    lemma_digit_char(0);
    assert(padded(0, 2) =~= seq!['0', '0']) by {
        assert(padded(0, 0) =~= Seq::<char>::empty());
        assert(padded(0, 1) =~= seq!['0']);
    }
    let f = d + seq!['.'] + seq!['0', '0'];
    assert(f.last() == '0');
    assert((d + seq!['.', '0']).last() == '0');
    assert((d + seq!['.']).last() == '.');
    assert(fixed_text(m, 1, 2) == f);
    assert(f.drop_last() =~= d + seq!['.', '0']);
    assert((d + seq!['.', '0']).drop_last() =~= d + seq!['.']);
    let g = d + seq!['.'];
    assert(strip_trailing(g, '0') == g);
    assert(strip_trailing(d + seq!['.', '0'], '0') == g);
    assert(strip_trailing(f, '0') == g);
    assert(g.drop_last() =~= d);
    assert(d.last() as u32 >= 48);
    assert(strip_trailing(d, '.') == d);
    assert(strip_trailing(g, '.') == d);
    let t = d + seq!['B'];
    assert(compact_text(m, Unit::Bytes, 2) == t);
    let l = t.len() as int;
    assert(t[l - 2] == d.last());
    assert(!ends_with(t, Unit::Kilo.suffix())) by {
        if ends_with(t, Unit::Kilo.suffix()) {
            assert(t.subrange(l - 2, l)[0] == t[l - 2]);
        }
    }
    assert(!ends_with(t, Unit::Mega.suffix())) by {
        if ends_with(t, Unit::Mega.suffix()) {
            assert(t.subrange(l - 2, l)[0] == t[l - 2]);
        }
    }
    assert(!ends_with(t, Unit::Giga.suffix())) by {
        if ends_with(t, Unit::Giga.suffix()) {
            assert(t.subrange(l - 2, l)[0] == t[l - 2]);
        }
    }
    assert(t.subrange(l - 1, l) =~= Unit::Bytes.suffix());
    assert(t.subrange(0, l - 1) =~= d);
    assert(ends_with(t, Unit::Bytes.suffix()));
    assert(t.subrange(0, t.len() - Unit::Bytes.suffix().len()) == d);
    assert(number_part(t, Unit::Bytes.suffix()) == trim_white(d));
    assert(trim_end_white(d) == d);
    assert(d[0] as u32 >= 48);
    assert(trim_start_white(d) == d);
    assert(d[0] != '+');
    assert(unsigned_body(d) == d);
    assert(forall|i: int| 0 <= i < d.len() ==> is_digit(#[trigger] d[i]));
}

/// Relies on std's `FromStr` for `u64` (`str::parse::<u64>`): it accepts an
/// optional `+` and then ASCII digits whose value fits in a `u64`, and gives
/// that value; any other text is an error.
#[verifier::external_body]
fn parse_u64(s: &str) -> (r: Result<u64, core::num::ParseIntError>)
    ensures
        r is Ok <==> (unsigned_text(s@) is Some && unsigned_text(s@)->Some_0 <= u64::MAX),
        r is Ok ==> r->Ok_0 == unsigned_text(s@)->Some_0,
{
    s.parse::<u64>()
}

/// `c` has the Unicode property White_Space.
fn white(c: char) -> (r: bool)
    ensures
        r == is_white(c),
{
    let u = c as u32;
    (9 <= u && u <= 13) || u == 32 || u == 0x85 || u == 0xA0 || u == 0x1680 || (0x2000 <= u && u
        <= 0x200A) || u == 0x2028 || u == 0x2029 || u == 0x202F || u == 0x205F || u == 0x3000
}

/// The first `end` characters of `s` end with `suf`.
fn ends_with_at(s: &str, end: usize, suf: &str) -> (r: bool)
    requires
        end <= s@.len(),
    ensures
        r == ends_with(s@.subrange(0, end as int), suf@),
{
    let m = suf.unicode_len();
    if m > end {
        return false;
    }
    let ghost w = s@.subrange(0, end as int);
    let ghost tail = w.subrange(end - m, end as int);
    let mut j: usize = 0;
    while j < m
        invariant
            m == suf@.len(),
            m <= end <= s@.len(),
            j <= m,
            w == s@.subrange(0, end as int),
            tail == w.subrange(end - m, end as int),
            forall|i: int| 0 <= i < j ==> tail[i] == suf@[i],
        decreases m - j,
    {
        if s.get_char(end - m + j) != suf.get_char(j) {
            proof {
                assert(tail[j as int] != suf@[j as int]);
            }
            return false;
        }
        j = j + 1;
    }
    proof {
        assert(tail =~= suf@);
    }
    true
}

/// `c` is an ASCII letter.
fn letter(c: char) -> (r: bool)
    ensures
        r == is_letter(c),
{
    let u = c as u32;
    (65 <= u && u <= 90) || (97 <= u && u <= 122)
}

/// `s` without white space at either end.
fn trim<'a>(s: &'a str) -> (r: &'a str)
    ensures
        r@ == trim_white(s@),
{
    let mut e: usize = s.unicode_len();
    proof {
        assert(s@.subrange(0, e as int) =~= s@);
    }
    while e > 0 && white(s.get_char(e - 1))
        invariant
            e <= s@.len(),
            trim_end_white(s@) == trim_end_white(s@.subrange(0, e as int)),
        decreases e,
    {
        proof {
            assert(s@.subrange(0, e as int).drop_last() =~= s@.subrange(0, e - 1));
        }
        e = e - 1;
    }
    let ghost t = s@.subrange(0, e as int);
    let mut a: usize = 0;
    proof {
        assert(t.subrange(a as int, e as int) =~= t);
    }
    while a < e && white(s.get_char(a))
        invariant
            a <= e <= s@.len(),
            t == s@.subrange(0, e as int),
            trim_start_white(t) == trim_start_white(s@.subrange(a as int, e as int)),
        decreases e - a,
    {
        proof {
            assert(s@.subrange(a as int, e as int).drop_first() =~= s@.subrange(a + 1, e as int));
        }
        a = a + 1;
    }
    s.substring_char(a, e)
}

/// Reads the unit of a size text and the number before it. Suffixes are
/// tried in the order `KB`, `MB`, `GB`, then `B`, so a text ending in `MB`
/// is never taken for bytes; a letter before a bare `B` names a unit this
/// reader does not know. One suffix is dropped and white space trimmed. Before
/// `B` the number must be a whole number of bytes, read here; before the
/// others it is handed back as text.
pub fn read_size(s: &str) -> (r: Result<SizeText, ParseError>)
    ensures
        ends_with(s@, Unit::Kilo.suffix()) ==> (r matches Ok(SizeText::Scaled(u, t)) && u
            == Unit::Kilo && t@ == number_part(s@, Unit::Kilo.suffix())),
        !ends_with(s@, Unit::Kilo.suffix()) && ends_with(s@, Unit::Mega.suffix()) ==> (r matches Ok(
            SizeText::Scaled(u, t),
        ) && u == Unit::Mega && t@ == number_part(s@, Unit::Mega.suffix())),
        !ends_with(s@, Unit::Kilo.suffix()) && !ends_with(s@, Unit::Mega.suffix()) && ends_with(
            s@,
            Unit::Giga.suffix(),
        ) ==> (r matches Ok(SizeText::Scaled(u, t)) && u == Unit::Giga && t@ == number_part(
            s@,
            Unit::Giga.suffix(),
        )),
        bare_bytes_suffix(s@) && !letter_before_last(s@) ==> ({
            let n = unsigned_text(number_part(s@, Unit::Bytes.suffix()));
            if n is Some && n->Some_0 <= u64::MAX {
                (r matches Ok(SizeText::Exact(b)) && b.bytes() == n->Some_0 && b.tag() == best_unit(
                    n->Some_0,
                ))
            } else {
                (r matches Err(ParseError::ParseInt(_)))
            }
        }),
        !ends_with(s@, Unit::Bytes.suffix()) || (bare_bytes_suffix(s@) && letter_before_last(s@))
            ==> (r matches Err(ParseError::UnkUnit(t)) && t@ == s@),
{
    proof {
        reveal_strlit("KB");
        reveal_strlit("MB");
        reveal_strlit("GB");
        reveal_strlit("B");
        assert("KB"@ =~= Unit::Kilo.suffix());
        assert("MB"@ =~= Unit::Mega.suffix());
        assert("GB"@ =~= Unit::Giga.suffix());
        assert("B"@ =~= Unit::Bytes.suffix());
        assert(s@.subrange(0, s@.len() as int) =~= s@);
        let l = s@.len() as int;
        if l >= 2 {
            let two = s@.subrange(l - 2, l);
            if two == Unit::Kilo.suffix() || two == Unit::Mega.suffix() || two == Unit::Giga.suffix() {
                assert(s@[l - 1] == two[1]);
                assert(s@.subrange(l - 1, l) =~= Unit::Bytes.suffix());
            }
        }
    }
    let n = s.unicode_len();
    if ends_with_at(s, n, "KB") {
        let t = trim(s.substring_char(0, n - 2));
        Ok(SizeText::Scaled(Unit::Kilo, String::from_str(t)))
    } else if ends_with_at(s, n, "MB") {
        let t = trim(s.substring_char(0, n - 2));
        Ok(SizeText::Scaled(Unit::Mega, String::from_str(t)))
    } else if ends_with_at(s, n, "GB") {
        let t = trim(s.substring_char(0, n - 2));
        Ok(SizeText::Scaled(Unit::Giga, String::from_str(t)))
    } else if ends_with_at(s, n, "B") {
        if n >= 2 && letter(s.get_char(n - 2)) {
            Err(ParseError::UnkUnit(String::from_str(s)))
        } else {
            let t = trim(s.substring_char(0, n - 1));
            match parse_u64(t) {
                Ok(v) => Ok(SizeText::Exact(ByteSize::from_bytes(v))),
                Err(e) => Err(ParseError::ParseInt(e)),
            }
        }
    } else {
        Err(ParseError::UnkUnit(String::from_str(s)))
    }
}

} // verus!
