//! Rendering sizes as text: a fixed number of decimals of the size in its
//! unit, then the unit's suffix.
use vstd::prelude::*;
use vstd::string::{StrSliceExecFns, StringExecFns};
use vstd::arithmetic::div_mod::{lemma_fundamental_div_mod, lemma_fundamental_div_mod_converse};
use crate::human::{best_unit, ByteSize, Unit, TB};
use crate::parse::ends_with;

verus! {

/// Ten to the power `k`.
pub open spec fn pow10(k: nat) -> nat
    decreases k,
{
    if k == 0 {
        1
    } else {
        10 * pow10((k - 1) as nat)
    }
}

/// The character of the decimal digit `d` (below ten).
pub open spec fn digit_char(d: nat) -> char {
    seq!['0', '1', '2', '3', '4', '5', '6', '7', '8', '9'][d as int]
}

/// `n` in decimal, without leading zeros (`0` for zero).
pub open spec fn decimal(n: nat) -> Seq<char>
    decreases n,
{
    if n < 10 {
        seq![digit_char(n)]
    } else {
        decimal(n / 10).push(digit_char(n % 10))
    }
}

/// The last `k` decimal digits of `n`, with leading zeros.
pub open spec fn padded(n: nat, k: nat) -> Seq<char>
    decreases k,
{
    if k == 0 {
        Seq::empty()
    } else {
        padded(n / 10, (k - 1) as nat).push(digit_char(n % 10))
    }
}

/// `x / d` rounded to the nearest integer, a half to the even neighbour.
pub open spec fn round_half_even(x: nat, d: nat) -> nat {
    let q = x / d;
    let r = x % d;
    if 2 * r > d || (2 * r == d && q % 2 == 1) {
        q + 1
    } else {
        q
    }
}

/// The gap between neighbouring 64-bit floats around `b`: one below 2^53,
/// doubled for each further bit.
pub open spec fn float_step(b: nat) -> nat
    decreases b,
{
    if b < 0x20_0000_0000_0000 {
        1
    } else {
        2 * float_step(b / 2)
    }
}

/// The value `b` takes as a 64-bit float: the nearest multiple of the float
/// step, a half to the even multiple.
pub open spec fn nearest_double(b: nat) -> nat {
    round_half_even(b, float_step(b)) * float_step(b)
}

/// The number `n / 10^p` written with exactly `p` digits after the point
/// (and no point when `p` is zero).
pub open spec fn point_text(n: nat, p: nat) -> Seq<char> {
    if p == 0 {
        decimal(n)
    } else {
        decimal(n / pow10(p)) + seq!['.'] + padded(n % pow10(p), p)
    }
}

/// The quotient `b / d` written with `p` decimals, rounded to the nearest,
/// a half to even.
pub open spec fn fixed_text(b: nat, d: nat, p: nat) -> Seq<char> {
    point_text(round_half_even(b * pow10(p), d), p)
}

/// `s` without the run of `c` at its end.
pub open spec fn strip_trailing(s: Seq<char>, c: char) -> Seq<char>
    decreases s.len(),
{
    if s.len() > 0 && s.last() == c {
        strip_trailing(s.drop_last(), c)
    } else {
        s
    }
}

/// The value of a sequence of decimal digits, most significant first.
pub open spec fn digits_value(s: Seq<u8>) -> nat
    decreases s.len(),
{
    if s.len() == 0 {
        0
    } else {
        digits_value(s.drop_last()) * 10 + s.last() as nat
    }
}

/// Every element of `s` is a decimal digit.
pub open spec fn all_digits(s: Seq<u8>) -> bool {
    forall|i: int| 0 <= i < s.len() ==> #[trigger] s[i] < 10
}

/// The unit a size is shown in: its own, unless the size is below one of
/// that unit, in which case its best one.
pub open spec fn shown_unit(b: nat, u: Unit) -> Unit {
    if b < u.scale() {
        best_unit(b)
    } else {
        u
    }
}

/// The compact text of `b` bytes in unit `u` with `p` decimals, the count
/// taken as a 64-bit float: when there are decimals, their trailing zeros
/// and then a trailing point dropped; the suffix appended.
pub open spec fn compact_text(b: nat, u: Unit, p: nat) -> Seq<char> {
    let v = shown_unit(b, u);
    let f = fixed_text(nearest_double(b), v.scale(), p);
    if p == 0 {
        f + v.suffix()
    } else {
        strip_trailing(strip_trailing(f, '0'), '.') + v.suffix()
    }
}

/// The text of `b` bytes in unit `u`, the count taken as a 64-bit float:
/// one decimal and the suffix.
pub open spec fn display_text(b: nat, u: Unit) -> Seq<char> {
    let v = shown_unit(b, u);
    fixed_text(nearest_double(b), v.scale(), 1) + v.suffix()
}

/// The diagnostic text of `b` bytes in unit `u`: one decimal in `u` itself
/// and the suffix (the count taken as a 64-bit float), then the exact byte
/// count in parentheses unless `u` is bytes.
pub open spec fn debug_text(b: nat, u: Unit) -> Seq<char> {
    let head = fixed_text(nearest_double(b), u.scale(), 1) + u.suffix();
    if u == Unit::Bytes {
        head
    } else {
        head + seq![' ', '('] + decimal(b) + seq!['B', ')']
    }
}

proof fn lemma_pow10_positive(k: nat)
    ensures
        pow10(k) >= 1,
    decreases k,
{
    if k > 0 {
        lemma_pow10_positive((k - 1) as nat);
    }
}

proof fn lemma_digits_value_bound(s: Seq<u8>)
    requires
        all_digits(s),
    ensures
        digits_value(s) < pow10(s.len()),
    decreases s.len(),
{
    if s.len() > 0 {
        let t = s.drop_last();
        assert(all_digits(t)) by {
            assert forall|i: int| 0 <= i < t.len() implies #[trigger] t[i] < 10 by {
                assert(t[i] == s[i]);
            }
        }
        lemma_digits_value_bound(t);
        assert(s.last() < 10) by {
            assert(s[s.len() - 1] < 10);
        }
        assert(digits_value(s) == digits_value(t) * 10 + s.last() as nat);
        assert(pow10(s.len()) == 10 * pow10(t.len()));
    }
}

/// Replacing the digit at `k` moves the value by the change times the
/// digit's place.
proof fn lemma_digits_value_update(s: Seq<u8>, k: int, v: u8)
    requires
        0 <= k < s.len(),
    ensures
        digits_value(s.update(k, v)) + s[k] as nat * pow10((s.len() - 1 - k) as nat)
            == digits_value(s) + v as nat * pow10((s.len() - 1 - k) as nat),
    decreases s.len(),
{
    let n = s.len();
    let u = s.update(k, v);
    if k == n - 1 {
        assert(u.drop_last() =~= s.drop_last());
        assert(pow10((n - 1 - k) as nat) == 1);
        assert(u.last() == v);
        assert(s[k] == s.last());
        assert(digits_value(s) == digits_value(s.drop_last()) * 10 + s.last() as nat);
        assert(digits_value(u) == digits_value(s.drop_last()) * 10 + v as nat);
        let pp = pow10((n - 1 - k) as nat);
        let sk = s[k] as nat;
        let vv = v as nat;
        assert(sk * pp == sk && vv * pp == vv) by (nonlinear_arith)
            requires
                pp == 1,
        ;
    } else {
        assert(u.drop_last() =~= s.drop_last().update(k, v));
        lemma_digits_value_update(s.drop_last(), k, v);
        let e = (n - 2 - k) as nat;
        assert(pow10((n - 1 - k) as nat) == 10 * pow10(e));
        let a = digits_value(s.drop_last().update(k, v));
        let b = digits_value(s.drop_last());
        let pe = pow10(e);
        assert(a + s[k] as nat * pe == b + v as nat * pe);
        assert(u.last() == s.last());
        assert(digits_value(u) == a * 10 + u.last() as nat);
        assert(digits_value(s) == b * 10 + s.last() as nat);
        let pp = pow10((n - 1 - k) as nat);
        let sk = s[k] as nat;
        let vv = v as nat;
        let l = s.last() as nat;
        assert((a * 10 + l) + sk * pp == (b * 10 + l) + vv * pp) by (nonlinear_arith)
            requires
                a + sk * pe == b + vv * pe,
                pp == 10 * pe,
        ;
        assert(digits_value(u) + sk * pp == digits_value(s) + vv * pp);
    }
}

/// The padded digits of a digit sequence's value are the sequence itself.
proof fn lemma_padded_digits(s: Seq<u8>)
    requires
        all_digits(s),
    ensures
        padded(digits_value(s), s.len()) == s.map_values(|d: u8| digit_char(d as nat)),
    decreases s.len(),
{
    if s.len() == 0 {
        assert(s.map_values(|d: u8| digit_char(d as nat)) =~= Seq::empty());
    } else {
        let t = s.drop_last();
        assert(all_digits(t)) by {
            assert forall|i: int| 0 <= i < t.len() implies #[trigger] t[i] < 10 by {
                assert(t[i] == s[i]);
            }
        }
        lemma_padded_digits(t);
        let x = digits_value(s);
        assert(s.last() < 10) by {
            assert(s[s.len() - 1] < 10);
        }
        lemma_fundamental_div_mod_converse(
            x as int,
            10,
            digits_value(t) as int,
            s.last() as int,
        );
        assert(s.map_values(|d: u8| digit_char(d as nat)) =~= t.map_values(
            |d: u8| digit_char(d as nat),
        ).push(digit_char(s.last() as nat)));
    }
}

/// The digit characters are the ASCII codes 48 to 57.
pub(crate) proof fn lemma_digit_char(d: nat)
    requires
        d < 10,
    ensures
        digit_char(d) as u32 == 48 + d,
        d == 0 ==> digit_char(d) == '0',
{
    let ds = seq!['0', '1', '2', '3', '4', '5', '6', '7', '8', '9'];
    assert(digit_char(d) == ds[d as int]);
    if d == 0 {
        assert(ds[0] == '0');
    } else if d == 1 {
        assert(ds[1] == '1');
    } else if d == 2 {
        assert(ds[2] == '2');
    } else if d == 3 {
        assert(ds[3] == '3');
    } else if d == 4 {
        assert(ds[4] == '4');
    } else if d == 5 {
        assert(ds[5] == '5');
    } else if d == 6 {
        assert(ds[6] == '6');
    } else if d == 7 {
        assert(ds[7] == '7');
    } else if d == 8 {
        assert(ds[8] == '8');
    } else {
        assert(ds[9] == '9');
    }
}

/// Every character of `s` is an ASCII digit.
pub open spec fn digit_chars(s: Seq<char>) -> bool {
    forall|i: int| 0 <= i < s.len() ==> 48 <= #[trigger] s[i] as u32 && s[i] as u32 <= 57
}

pub(crate) proof fn lemma_decimal_digit_chars(n: nat)
    ensures
        digit_chars(decimal(n)),
        decimal(n).len() >= 1,
    decreases n,
{
    lemma_digit_char(n % 10);
    if n >= 10 {
        lemma_decimal_digit_chars(n / 10);
    }
}

proof fn lemma_padded_digit_chars(n: nat, k: nat)
    ensures
        digit_chars(padded(n, k)),
        padded(n, k).len() == k,
    decreases k,
{
    if k > 0 {
        lemma_digit_char(n % 10);
        lemma_padded_digit_chars(n / 10, (k - 1) as nat);
    }
}

/// A diagnostic text in bytes holds no parenthesis; in any other unit it
/// ends with the byte count and `B` in parentheses.
pub proof fn lemma_debug_parenthetical(b: nat, u: Unit)
    ensures
        u == Unit::Bytes ==> !debug_text(b, u).contains('('),
        u != Unit::Bytes ==> debug_text(b, u).contains('('),
        u != Unit::Bytes ==> ends_with(debug_text(b, u), seq!['('] + decimal(b) + seq!['B', ')']),
{
    let x = round_half_even(nearest_double(b) * pow10(1), u.scale());
    let head = fixed_text(nearest_double(b), u.scale(), 1) + u.suffix();
    assert(pow10(1) == 10) by {
        assert(pow10(0) == 1);
    }
    if u == Unit::Bytes {
        lemma_decimal_digit_chars(x / 10);
        lemma_padded_digit_chars(x % 10, 1);
        let t = debug_text(b, u);
        assert(t == decimal(x / 10) + seq!['.'] + padded(x % 10, 1) + seq!['B']);
        if t.contains('(') {
            let i = choose|i: int| 0 <= i < t.len() && t[i] == '(';
            let dl = decimal(x / 10).len() as int;
            if i < dl {
                assert(t[i] == decimal(x / 10)[i]);
            } else if i == dl {
                assert(t[i] == '.');
            } else if i == dl + 1 {
                assert(t[i] == padded(x % 10, 1)[0]);
            } else {
                assert(t[i] == 'B');
            }
        }
    } else {
        let t = debug_text(b, u);
        let tail = seq!['('] + decimal(b) + seq!['B', ')'];
        assert(t =~= head + seq![' '] + tail);
        assert(t[head.len() as int + 1] == '(');
        assert(t.subrange(t.len() - tail.len(), t.len() as int) =~= tail);
    }
}

/// The character of the digit `d`, as text.
fn digit_str(d: u8) -> (r: &'static str)
    requires
        d < 10,
    ensures
        r@ == seq![digit_char(d as nat)],
{
    proof {
        reveal_strlit("0");
        reveal_strlit("1");
        reveal_strlit("2");
        reveal_strlit("3");
        reveal_strlit("4");
        reveal_strlit("5");
        reveal_strlit("6");
        reveal_strlit("7");
        reveal_strlit("8");
        reveal_strlit("9");
    }
    if d == 0 {
        "0"
    } else if d == 1 {
        "1"
    } else if d == 2 {
        "2"
    } else if d == 3 {
        "3"
    } else if d == 4 {
        "4"
    } else if d == 5 {
        "5"
    } else if d == 6 {
        "6"
    } else if d == 7 {
        "7"
    } else if d == 8 {
        "8"
    } else {
        "9"
    }
}

/// Writes `n` in decimal.
pub fn decimal_string(n: u128) -> (r: String)
    ensures
        r@ == decimal(n as nat),
    decreases n,
{
    if n < 10 {
        String::from_str(digit_str(n as u8))
    } else {
        let mut s = decimal_string(n / 10);
        s.append(digit_str((n % 10) as u8));
        s
    }
}

/// The value `b` takes as a 64-bit float.
fn as_double(b: u64) -> (r: u128)
    ensures
        r == nearest_double(b as nat),
{
    let mut t: u64 = b;
    let mut u: u64 = 1;
    while t >= 0x20_0000_0000_0000
        invariant
            float_step(b as nat) == u * float_step(t as nat),
            t * u <= b,
            1 <= u <= 4096,
        decreases t,
    {
        proof {
            let ft = float_step(t as nat);
            let fh = float_step((t / 2) as nat);
            assert(ft == 2 * fh);
            assert(u * ft == (2 * u) * fh) by (nonlinear_arith)
                requires
                    ft == 2 * fh,
            ;
            assert(u < 2048) by (nonlinear_arith)
                requires
                    t * u <= b,
                    t >= 0x20_0000_0000_0000,
                    b <= u64::MAX,
            ;
            assert((t / 2) * (2 * u) <= t * u) by (nonlinear_arith)
                requires
                    u >= 1,
            ;
        }
        t = t / 2;
        u = u * 2;
    }
    proof {
        assert(float_step(t as nat) == 1);
        let fb = float_step(b as nat);
        assert(u == fb) by (nonlinear_arith)
            requires
                fb == u * 1,
        ;
        lemma_fundamental_div_mod(b as int, u as int);
    }
    let q: u64 = b / u;
    let rem: u64 = b % u;
    let up: bool = 2 * rem > u || (2 * rem == u && q % 2 == 1);
    let k: u128 = if up {
        q as u128 + 1
    } else {
        q as u128
    };
    proof {
        assert(k * u <= b + u) by (nonlinear_arith)
            requires
                q * u + rem == b,
                k <= q + 1,
                rem >= 0,
        ;
    }
    k * (u as u128)
}

/// Writes `b / d` with `p` decimals, rounded to the nearest, a half to even.
pub fn fixed_point(b: u128, d: u64, p: usize) -> (r: String)
    requires
        1 <= d <= TB,
    ensures
        r@ == fixed_text(b as nat, d as nat, p as nat),
{
    let q: u128 = b / (d as u128);
    let r0: u64 = (b % (d as u128)) as u64;
    let mut rem: u64 = r0;
    let mut frac: Vec<u8> = Vec::new();
    let mut i: usize = 0;
    proof {
        assert(frac@.len() == 0);
        assert(r0 as nat * pow10(0) == digits_value(frac@) * d + rem) by (nonlinear_arith)
            requires
                pow10(0) == 1,
                digits_value(frac@) == 0,
                rem == r0,
        ;
    }
    while i < p
        invariant
            1 <= d <= TB,
            i <= p,
            frac@.len() == i,
            rem < d,
            r0 < d,
            all_digits(frac@),
            r0 as nat * pow10(i as nat) == digits_value(frac@) * d + rem,
        decreases p - i,
    {
        let t: u64 = rem * 10;
        let dig: u64 = t / d;
        let ghost old_frac = frac@;
        let ghost old_rem = rem;
        rem = t % d;
        proof {
            assert(dig < 10) by (nonlinear_arith)
                requires
                    t < 10 * d,
                    dig == t / d,
                    d >= 1,
            ;
        }
        frac.push(dig as u8);
        proof {
            assert(frac@.drop_last() =~= old_frac);
            assert(all_digits(frac@)) by {
                assert forall|k: int| 0 <= k < frac@.len() implies #[trigger] frac@[k] < 10 by {
                    if k < old_frac.len() {
                        assert(frac@[k] == old_frac[k]);
                    }
                }
            }
            let f = digits_value(old_frac);
            assert(digits_value(frac@) == f * 10 + dig);
            assert(pow10((i + 1) as nat) == 10 * pow10(i as nat));
            let pi = pow10(i as nat);
            let pj = pow10((i + 1) as nat);
            lemma_fundamental_div_mod(t as int, d as int);
            assert(t == dig * d + rem);
            assert(r0 as nat * pj == (f * 10 + dig) * d + rem) by (nonlinear_arith)
                requires
                    r0 as nat * pi == f * d + old_rem,
                    pj == 10 * pi,
                    t == old_rem * 10,
                    t == dig * d + rem,
            ;
        }
        i = i + 1;
    }
    let ghost f0 = digits_value(frac@);
    let ghost pp = pow10(p as nat);
    proof {
        lemma_digits_value_bound(frac@);
        lemma_pow10_positive(p as nat);
        lemma_fundamental_div_mod(b as int, d as int);
        assert(r0 == b % (d as u128));
        assert(b == q * d + r0);
        assert(b * pp == (q * pp + f0) * d + rem) by (nonlinear_arith)
            requires
                b == q * d + r0,
                r0 * pp == f0 * d + rem,
        ;
        lemma_fundamental_div_mod_converse((b * pp) as int, d as int, (q * pp + f0) as int, rem as int);
    }
    let odd: bool = if p > 0 {
        frac[p - 1] % 2 == 1
    } else {
        q % 2 == 1
    };
    proof {
        if p > 0 {
            let t = frac@.drop_last();
            let l = frac@.last();
            assert(l < 10) by {
                assert(frac@[p - 1] < 10);
            }
            assert(f0 == digits_value(t) * 10 + l);
            let p1 = pow10((p - 1) as nat);
            assert(pp == 10 * p1);
            let m = q * 5 * p1 + digits_value(t) * 5 + l / 2;
            assert(q * pp + f0 == m * 2 + l % 2) by (nonlinear_arith)
                requires
                    pp == 10 * p1,
                    f0 == digits_value(t) * 10 + l,
                    m == q * 5 * p1 + digits_value(t) * 5 + l / 2,
                    l == 2 * (l / 2) + l % 2,
            ;
            lemma_fundamental_div_mod_converse((q * pp + f0) as int, 2, m as int, (l % 2) as int);
        } else {
            assert(pp == 1);
            assert(f0 == 0);
            assert(q * pp + f0 == q) by (nonlinear_arith)
                requires
                    pp == 1,
                    f0 == 0,
            ;
        }
        assert(odd == ((q * pp + f0) % 2 == 1));
    }
    let up: bool = 2 * rem > d || (2 * rem == d && odd);
    let mut carry: bool = up;
    let mut j: usize = p;
    while carry && j > 0
        invariant
            frac@.len() == p,
            j <= p,
            all_digits(frac@),
            carry ==> up,
            carry ==> digits_value(frac@) + pow10((p - j) as nat) == f0 + 1,
            !carry ==> digits_value(frac@) == f0 + (if up {
                1int
            } else {
                0int
            }),
        decreases j,
    {
        j = j - 1;
        let ghost before = frac@;
        let dig = frac[j];
        assert(dig < 10);
        proof {
            assert(pow10((p - j) as nat) == 10 * pow10((p - 1 - j) as nat));
        }
        if dig == 9 {
            frac.set(j, 0);
            proof {
                lemma_digits_value_update(before, j as int, 0);
                let pl = pow10((p - 1 - j) as nat);
                let ph = pow10((p - j) as nat);
                let nv = digits_value(frac@);
                let ov = digits_value(before);
                assert(nv + ph == ov + pl) by (nonlinear_arith)
                    requires
                        nv + 9 * pl == ov + 0 * pl,
                        ph == 10 * pl,
                ;
            }
        } else {
            frac.set(j, dig + 1);
            proof {
                lemma_digits_value_update(before, j as int, (dig + 1) as u8);
                let pl = pow10((p - 1 - j) as nat);
                let nv = digits_value(frac@);
                let ov = digits_value(before);
                let dd = dig as nat;
                assert(nv == ov + pl) by (nonlinear_arith)
                    requires
                        nv + dd * pl == ov + (dd + 1) * pl,
                ;
            }
            carry = false;
        }
        proof {
            assert(all_digits(frac@)) by {
                assert forall|k: int| 0 <= k < frac@.len() implies #[trigger] frac@[k] < 10 by {
                    if k != j {
                        assert(frac@[k] == before[k]);
                    }
                }
            }
        }
    }
    let mut whole: u128 = q;
    if carry {
        proof {
            assert(rem >= 1);
            assert(d >= 2);
            assert(q < u128::MAX) by (nonlinear_arith)
                requires
                    q * d + r0 == b,
                    d >= 2,
                    b <= u128::MAX,
            ;
        }
        whole = q + 1;
    }
    let ghost n = round_half_even(b as nat * pp, d as nat);
    proof {
        lemma_digits_value_bound(frac@);
        if carry {
            assert(j == 0);
            assert(digits_value(frac@) == 0);
            assert(n == whole * pp + digits_value(frac@)) by (nonlinear_arith)
                requires
                    n == q * pp + f0 + 1,
                    f0 + 1 == pp,
                    whole == q + 1,
                    digits_value(frac@) == 0,
            ;
        } else {
            assert(n == whole * pp + digits_value(frac@));
        }
        lemma_fundamental_div_mod_converse(n as int, pp as int, whole as int, digits_value(frac@) as int);
    }
    let mut out = decimal_string(whole);
    if p > 0 {
        out.append(".");
        proof {
            reveal_strlit(".");
        }
        let ghost head = out@;
        let mut k: usize = 0;
        while k < p
            invariant
                k <= p,
                frac@.len() == p,
                all_digits(frac@),
                out@ == head + frac@.take(k as int).map_values(|c: u8| digit_char(c as nat)),
            decreases p - k,
        {
            let c = frac[k];
            out.append(digit_str(c));
            proof {
                assert(frac@.take(k as int + 1).map_values(|c: u8| digit_char(c as nat))
                    =~= frac@.take(k as int).map_values(|c: u8| digit_char(c as nat)).push(
                    digit_char(c as nat),
                ));
            }
            k = k + 1;
        }
        proof {
            assert(frac@.take(p as int) =~= frac@);
            lemma_padded_digits(frac@);
        }
    }
    out
}

/// `s` without the run of `c` at its end.
fn strip_end(s: &str, c: char) -> (r: String)
    ensures
        r@ == strip_trailing(s@, c),
{
    let mut k: usize = s.unicode_len();
    proof {
        assert(s@.subrange(0, k as int) =~= s@);
    }
    while k > 0 && s.get_char(k - 1) == c
        invariant
            k <= s@.len(),
            strip_trailing(s@, c) == strip_trailing(s@.subrange(0, k as int), c),
        decreases k,
    {
        proof {
            let w = s@.subrange(0, k as int);
            assert(w.drop_last() =~= s@.subrange(0, k - 1));
        }
        k = k - 1;
    }
    String::from_str(s.substring_char(0, k))
}

impl ByteSize {
    /// The size as it is shown: as it stands, unless it is below one of its
    /// own unit, in which case in its best unit.
    pub fn shown(&self) -> (r: ByteSize)
        ensures
            r.bytes() == self.bytes(),
            r.tag() == shown_unit(self.bytes() as nat, self.tag()),
    {
        if self.in_bytes() < self.divisor() {
            self.normalize()
        } else {
            *self
        }
    }

    /// The compact text of the size: `prec` decimals with trailing zeros and
    /// a trailing point dropped, then the unit's suffix (`1KB`, `10.42MB`).
    /// With no decimals the whole number stands as it is (`100B`).
    pub fn to_string_with_prec(&self, prec: usize) -> (r: String)
        ensures
            r@ == compact_text(self.bytes() as nat, self.tag(), prec as nat),
    {
        let bs = self.shown();
        let s = fixed_point(as_double(bs.in_bytes()), bs.divisor(), prec);
        let mut f = if prec == 0 {
            s
        } else {
            let t = strip_end(s.as_str(), '0');
            strip_end(t.as_str(), '.')
        };
        f.append(bs.unit_str());
        f
    }

    /// The text of the size: one decimal, then the unit's suffix (`1.5KB`).
    pub fn to_string(&self) -> (r: String)
        ensures
            r@ == display_text(self.bytes() as nat, self.tag()),
    {
        let bs = self.shown();
        let mut s = fixed_point(as_double(bs.in_bytes()), bs.divisor(), 1);
        s.append(bs.unit_str());
        s
    }

    /// The diagnostic text of the size: one decimal in its own unit and the
    /// suffix, then the byte count in parentheses unless the unit is bytes
    /// (`1.5KB (1536B)`, `12.0B`).
    pub fn debug_string(&self) -> (r: String)
        ensures
            r@ == debug_text(self.bytes() as nat, self.tag()),
    {
        let mut s = fixed_point(as_double(self.in_bytes()), self.divisor(), 1);
        s.append(self.unit_str());
        match self.unit() {
            Unit::Bytes => {},
            _ => {
                proof {
                    reveal_strlit(" (");
                    reveal_strlit("B)");
                }
                s.append(" (");
                let n = decimal_string(self.in_bytes() as u128);
                s.append(n.as_str());
                s.append("B)");
            },
        }
        s
    }
}

} // verus!
