//! ASCII decimal digit strings: their values and the integer-to-text rules.
use vstd::prelude::*;

verus! {

/// `10^k`.
pub open spec fn pow10(k: nat) -> nat
    decreases k,
{
    if k == 0 {
        1
    } else {
        10 * pow10((k - 1) as nat)
    }
}

/// Whether `b` is an ASCII decimal digit.
pub open spec fn is_digit(b: u8) -> bool {
    48 <= b <= 57
}

/// Whether every byte of `s` is an ASCII decimal digit.
pub open spec fn all_digits(s: Seq<u8>) -> bool {
    forall|i: int| 0 <= i < s.len() ==> is_digit(#[trigger] s[i])
}

/// The number that the big-endian ASCII digits `s` spell.
pub open spec fn digits_val(s: Seq<u8>) -> nat
    decreases s.len(),
{
    if s.len() == 0 {
        0
    } else {
        digits_val(s.drop_last()) * 10 + (s.last() - 48) as nat
    }
}

/// The ASCII digit of `d < 10`.
pub open spec fn digit_char(d: nat) -> u8 {
    (d + 48) as u8
}

/// `n` ASCII zeros.
pub open spec fn zeros(n: nat) -> Seq<u8> {
    Seq::new(n, |i: int| 48u8)
}

/// The shortest decimal representation of `n` ("0" for zero).
pub open spec fn dec_repr(n: nat) -> Seq<u8>
    decreases n,
{
    if n < 10 {
        seq![digit_char(n)]
    } else {
        dec_repr(n / 10).push(digit_char(n % 10))
    }
}

/// The `w` least significant decimal digits of `n`, zero-padded on the left.
pub open spec fn padded(n: nat, w: nat) -> Seq<u8>
    decreases w,
{
    if w == 0 {
        Seq::empty()
    } else {
        padded(n / 10, (w - 1) as nat).push(digit_char(n % 10))
    }
}

/// `r / 10^prec` written in fixed-point notation with `prec` fractional
/// digits.
#[verifier::opaque]
pub open spec fn fixed_point(r: nat, prec: nat) -> Seq<u8> {
    if prec == 0 {
        dec_repr(r)
    } else {
        dec_repr(r / pow10(prec)) + seq![46u8] + padded(r % pow10(prec), prec)
    }
}

/// The decimal representation of the integer `v`, with a leading `-` when it
/// is negative and, when `plus` is set, a leading `+` when it is not.
pub open spec fn int_repr(v: int, plus: bool) -> Seq<u8> {
    if v < 0 {
        seq![45u8] + dec_repr((-v) as nat)
    } else if plus {
        seq![43u8] + dec_repr(v as nat)
    } else {
        dec_repr(v as nat)
    }
}


pub proof fn lemma_pow10_pos(k: nat)
    ensures
        pow10(k) >= 1,
    decreases k,
{
    if k > 0 {
        lemma_pow10_pos((k - 1) as nat);
    }
}

pub proof fn lemma_pow10_add(a: nat, b: nat)
    ensures
        pow10(a + b) == pow10(a) * pow10(b),
    decreases b,
{
    if b == 0 {
        assert(pow10(0) == 1);
        assert(a + b == a);
    } else {
        lemma_pow10_add(a, (b - 1) as nat);
        assert((a + b - 1) as nat == a + (b - 1) as nat);
        assert(pow10(a + b) == 10 * pow10((a + b - 1) as nat));
        assert(pow10(b) == 10 * pow10((b - 1) as nat));
        assert(pow10(a) * pow10(b) == pow10(a) * (10 * pow10((b - 1) as nat)));
        assert(pow10(a) * (10 * pow10((b - 1) as nat)) == 10 * (pow10(a) * pow10((b - 1) as nat)))
            by (nonlinear_arith);
    }
}

pub proof fn lemma_pow10_mono(a: nat, b: nat)
    requires
        a <= b,
    ensures
        pow10(a) <= pow10(b),
    decreases b,
{
    if a < b {
        lemma_pow10_mono(a, (b - 1) as nat);
        lemma_pow10_pos((b - 1) as nat);
    }
}

pub proof fn lemma_digits_val_append(a: Seq<u8>, b: Seq<u8>)
    ensures
        digits_val(a + b) == digits_val(a) * pow10(b.len()) + digits_val(b),
    decreases b.len(),
{
    if b.len() == 0 {
        assert(a + b =~= a);
        assert(pow10(0) == 1);
        assert(digits_val(b) == 0);
    } else {
        let b1 = b.drop_last();
        assert((a + b).drop_last() =~= a + b1);
        assert((a + b).last() == b.last());
        lemma_digits_val_append(a, b1);
        let x = digits_val(a);
        let p = pow10(b1.len());
        let y = digits_val(b1);
        assert((x * p + y) * 10 == x * (10 * p) + y * 10) by (nonlinear_arith);
        assert(pow10(b.len()) == 10 * p);
        assert(digits_val(b) == y * 10 + (b.last() - 48) as nat);
        assert(digits_val(a + b) == digits_val(a + b1) * 10 + ((a + b).last() - 48) as nat);
    }
}

pub proof fn lemma_digits_val_bound(b: Seq<u8>)
    requires
        all_digits(b),
    ensures
        digits_val(b) < pow10(b.len()),
    decreases b.len(),
{
    if b.len() > 0 {
        let b1 = b.drop_last();
        assert(all_digits(b1)) by {
            assert forall|i: int| 0 <= i < b1.len() implies is_digit(#[trigger] b1[i]) by {
                assert(b1[i] == b[i]);
            }
        }
        lemma_digits_val_bound(b1);
        assert(is_digit(b[b.len() - 1]));
    }
}

pub proof fn lemma_digits_val_zero(b: Seq<u8>)
    requires
        all_digits(b),
    ensures
        digits_val(b) == 0 <==> (forall|i: int| 0 <= i < b.len() ==> b[i] == 48u8),
    decreases b.len(),
{
    if b.len() > 0 {
        let b1 = b.drop_last();
        assert(all_digits(b1)) by {
            assert forall|i: int| 0 <= i < b1.len() implies is_digit(#[trigger] b1[i]) by {
                assert(b1[i] == b[i]);
            }
        }
        lemma_digits_val_zero(b1);
        assert(is_digit(b[b.len() - 1]));
        if digits_val(b) == 0 {
            assert forall|i: int| 0 <= i < b.len() implies b[i] == 48u8 by {
                if i < b.len() - 1 {
                    assert(b1[i] == b[i]);
                }
            }
        }
        if forall|i: int| 0 <= i < b.len() ==> b[i] == 48u8 {
            assert forall|i: int| 0 <= i < b1.len() implies b1[i] == 48u8 by {
                assert(b1[i] == b[i]);
            }
            assert(b[b.len() - 1] == 48u8);
        }
    }
}

pub proof fn lemma_padded_digits(s: Seq<u8>)
    requires
        all_digits(s),
    ensures
        padded(digits_val(s), s.len()) =~= s,
    decreases s.len(),
{
    if s.len() > 0 {
        let s1 = s.drop_last();
        assert(all_digits(s1)) by {
            assert forall|i: int| 0 <= i < s1.len() implies is_digit(#[trigger] s1[i]) by {
                assert(s1[i] == s[i]);
            }
        }
        lemma_padded_digits(s1);
        assert(is_digit(s[s.len() - 1]));
        let n = digits_val(s);
        assert(n / 10 == digits_val(s1));
        assert(n % 10 == (s.last() - 48) as nat);
        assert(s1.push(s.last()) =~= s);
    }
}

pub proof fn lemma_padded_len(n: nat, w: nat)
    ensures
        padded(n, w).len() == w,
        all_digits(padded(n, w)),
    decreases w,
{
    if w > 0 {
        lemma_padded_len(n / 10, (w - 1) as nat);
        let p = padded(n, w);
        assert forall|i: int| 0 <= i < p.len() implies is_digit(#[trigger] p[i]) by {
            if i < w - 1 {
                assert(p[i] == padded(n / 10, (w - 1) as nat)[i]);
            }
        }
    }
}

pub proof fn lemma_padded_val(n: nat, w: nat)
    ensures
        digits_val(padded(n, w)) == n % pow10(w),
    decreases w,
{
    if w > 0 {
        lemma_padded_val(n / 10, (w - 1) as nat);
        lemma_padded_len(n / 10, (w - 1) as nat);
        let p = padded(n, w);
        assert(p.drop_last() =~= padded(n / 10, (w - 1) as nat));
        let q = pow10((w - 1) as nat);
        lemma_pow10_pos((w - 1) as nat);
        // digits_val(p) == ((n / 10) % q) * 10 + n % 10 == n % (10 * q)
        assert(((n / 10) % q) * 10 + n % 10 == n % (10 * q)) by {
            vstd::arithmetic::div_mod::lemma_mod_breakdown(n as int, 10, q as int);
            assert(10 * ((n / 10) % q) == ((n / 10) % q) * 10) by (nonlinear_arith);
        }
    }
}

/// The digits of a number below `10^w`, zero-padded to `w` places, are those of
/// its shortest representation preceded by zeros.
pub proof fn lemma_dec_repr_digits(n: nat)
    ensures
        all_digits(dec_repr(n)),
        dec_repr(n).len() >= 1,
        digits_val(dec_repr(n)) == n,
        n >= 10 ==> dec_repr(n)[0] != 48u8,
        n < pow10(dec_repr(n).len()),
        dec_repr(n).len() == 1 || n >= pow10((dec_repr(n).len() - 1) as nat),
    decreases n,
{
    if n < 10 {
        let r = dec_repr(n);
        assert(r.drop_last() =~= Seq::<u8>::empty());
        assert(r.last() == digit_char(n));
        assert((r.last() - 48) as nat == n);
        assert(digits_val(r) == digits_val(r.drop_last()) * 10 + (r.last() - 48) as nat);
        assert(pow10(1) == 10 * pow10(0));
        assert(is_digit(r[0]));
    } else {
        lemma_dec_repr_digits(n / 10);
        let r = dec_repr(n);
        let r1 = dec_repr(n / 10);
        assert(r.drop_last() =~= r1);
        assert forall|i: int| 0 <= i < r.len() implies is_digit(#[trigger] r[i]) by {
            if i < r.len() - 1 {
                assert(r[i] == r1[i]);
            }
        }
        assert(r[0] == r1[0]);
        assert(r.last() == digit_char(n % 10));
        assert((r.last() - 48) as nat == n % 10);
        assert(digits_val(r) == digits_val(r1) * 10 + (r.last() - 48) as nat);
        assert(n == (n / 10) * 10 + n % 10);
        assert(pow10(r.len()) == 10 * pow10(r1.len()));
        if r1.len() > 1 {
            assert(pow10((r.len() - 1) as nat) == 10 * pow10((r1.len() - 1) as nat));
        }
        if n / 10 >= 10 {
        } else {
            assert(r1[0] == digit_char(n / 10));
        }
    }
}

/// Splitting a digit string after its first `i` digits splits its value into
/// quotient and remainder by `10^(len - i)`.
pub proof fn lemma_split_at(s: Seq<u8>, i: int)
    requires
        all_digits(s),
        0 <= i <= s.len(),
    ensures
        s.take(i) + s.skip(i) =~= s,
        digits_val(s) / pow10((s.len() - i) as nat) == digits_val(s.take(i)),
        digits_val(s) % pow10((s.len() - i) as nat) == digits_val(s.skip(i)),
        digits_val(s.skip(i)) < pow10((s.len() - i) as nat),
{
    let a = s.take(i);
    let b = s.skip(i);
    assert(a + b =~= s);
    assert(all_digits(b)) by {
        assert forall|j: int| 0 <= j < b.len() implies is_digit(#[trigger] b[j]) by {
            assert(b[j] == s[i + j]);
        }
    }
    lemma_digits_val_append(a, b);
    lemma_digits_val_bound(b);
    lemma_pow10_pos(b.len());
    vstd::arithmetic::div_mod::lemma_fundamental_div_mod_converse(
        digits_val(s) as int,
        pow10(b.len()) as int,
        digits_val(a) as int,
        digits_val(b) as int,
    );
}

/// A prefix of a digit string is a digit string.
pub proof fn lemma_all_digits_sub(s: Seq<u8>, i: int, j: int)
    requires
        all_digits(s),
        0 <= i <= j <= s.len(),
    ensures
        all_digits(s.subrange(i, j)),
{
    let t = s.subrange(i, j);
    assert forall|k: int| 0 <= k < t.len() implies is_digit(#[trigger] t[k]) by {
        assert(t[k] == s[i + k]);
    }
}

/// Whether `s` is the shortest decimal representation of a number: digits
/// only, at least one, and no leading zero unless it is the only digit.
pub open spec fn canonical(s: Seq<u8>) -> bool {
    &&& all_digits(s)
    &&& s.len() >= 1
    &&& (s.len() == 1 || s[0] != 48u8)
}

/// A canonical digit string is the representation of its value.
pub proof fn lemma_canonical_dec_repr(s: Seq<u8>)
    requires
        canonical(s),
    ensures
        dec_repr(digits_val(s)) =~= s,
        s.len() == 1 || digits_val(s) >= 10,
    decreases s.len(),
{
    if s.len() == 1 {
        assert(s.drop_last() =~= Seq::<u8>::empty());
        assert(digits_val(Seq::<u8>::empty()) == 0);
        assert(is_digit(s[0]));
        assert(digits_val(s) == (s[0] - 48) as nat);
        assert(dec_repr(digits_val(s)) =~= seq![digit_char(digits_val(s))]);
    } else {
        let s1 = s.drop_last();
        assert(s1[0] == s[0]);
        lemma_all_digits_sub(s, 0, s.len() - 1);
        assert(s1 =~= s.subrange(0, s.len() - 1));
        lemma_canonical_dec_repr(s1);
        assert(is_digit(s[s.len() - 1]));
        if s1.len() == 1 {
            assert(s1.drop_last() =~= Seq::<u8>::empty());
            assert(digits_val(Seq::<u8>::empty()) == 0);
            assert(digits_val(s1) == (s1[0] - 48) as nat);
        }
        assert(digits_val(s1) >= 1);
        let n = digits_val(s);
        assert(n / 10 == digits_val(s1));
        assert(n % 10 == (s.last() - 48) as nat);
        assert(s1.push(s.last()) =~= s);
    }
}

/// Splitting a digit string whose integer part (all but its last `prec`
/// digits) has no superfluous leading zero gives the fixed-point text of its
/// value.
pub proof fn lemma_fixed_point_split(d: Seq<u8>, prec: nat)
    requires
        all_digits(d),
        d.len() > prec,
        d.len() - prec == 1 || d[0] != 48u8,
    ensures
        prec == 0 ==> fixed_point(digits_val(d), prec) =~= d,
        prec > 0 ==> fixed_point(digits_val(d), prec) =~= d.take(d.len() - prec) + seq![46u8] + d.skip(
            d.len() - prec,
        ),
{
    reveal(fixed_point);
    let i = d.len() - prec;
    lemma_split_at(d, i);
    lemma_all_digits_sub(d, 0, i);
    assert(d.take(i) =~= d.subrange(0, i));
    assert(d.take(i)[0] == d[0]);
    lemma_canonical_dec_repr(d.take(i));
    lemma_all_digits_sub(d, i, d.len() as int);
    assert(d.skip(i) =~= d.subrange(i, d.len() as int));
    lemma_padded_digits(d.skip(i));
    if prec == 0 {
        lemma_canonical_dec_repr(d);
        assert(pow10(0) == 1);
    }
}

/// The fixed-point text of a value below `10^prec` has a zero integer part.
pub proof fn lemma_fixed_point_small(r: nat, prec: nat)
    requires
        prec > 0,
        r < pow10(prec),
    ensures
        fixed_point(r, prec) =~= seq![48u8, 46u8] + padded(r, prec),
{
    reveal(fixed_point);
    lemma_pow10_pos(prec);
    vstd::arithmetic::div_mod::lemma_basic_div(r as int, pow10(prec) as int);
    vstd::arithmetic::div_mod::lemma_small_mod(r, pow10(prec));
    assert(dec_repr(r / pow10(prec)) =~= seq![48u8]);
    assert(dec_repr(0) =~= seq![48u8]);
}

/// Zeros in front of a digit string change neither its value nor its padded
/// form.
pub proof fn lemma_zeros_prefix(a: nat, d: Seq<u8>)
    requires
        all_digits(d),
    ensures
        all_digits(zeros(a) + d),
        digits_val(zeros(a) + d) == digits_val(d),
        padded(digits_val(d), a + d.len()) =~= zeros(a) + d,
{
    let z = zeros(a);
    assert(all_digits(z + d)) by {
        assert forall|t: int| 0 <= t < (z + d).len() implies is_digit(#[trigger] (z + d)[t]) by {
            if t >= a {
                assert((z + d)[t] == d[t - a]);
            }
        }
    }
    assert(all_digits(z));
    lemma_digits_val_zero(z);
    lemma_digits_val_append(z, d);
    lemma_padded_digits(z + d);
}

/// Zeros after a digit string multiply its value by a power of ten.
pub proof fn lemma_zeros_suffix(d: Seq<u8>, a: nat)
    requires
        all_digits(d),
    ensures
        all_digits(d + zeros(a)),
        digits_val(d + zeros(a)) == digits_val(d) * pow10(a),
{
    let z = zeros(a);
    assert(all_digits(d + z)) by {
        assert forall|t: int| 0 <= t < (d + z).len() implies is_digit(#[trigger] (d + z)[t]) by {
            if t < d.len() {
                assert((d + z)[t] == d[t]);
            }
        }
    }
    assert(all_digits(z));
    lemma_digits_val_zero(z);
    lemma_digits_val_append(d, z);
}

/// A digit string starts with a non-zero digit exactly when its value has
/// as many digits as the string.
pub proof fn lemma_lead_digit(d: Seq<u8>)
    requires
        all_digits(d),
        d.len() >= 1,
    ensures
        d[0] != 48u8 <==> digits_val(d) >= pow10((d.len() - 1) as nat),
{
    let h = d.take(1);
    let t = d.skip(1);
    assert(h + t =~= d);
    lemma_digits_val_append(h, t);
    lemma_all_digits_sub(d, 1, d.len() as int);
    assert(t =~= d.subrange(1, d.len() as int));
    lemma_digits_val_bound(t);
    assert(h.drop_last() =~= Seq::<u8>::empty());
    assert(digits_val(Seq::<u8>::empty()) == 0);
    assert(h.last() == d[0]);
    assert(is_digit(d[0]));
    let x = digits_val(h);
    assert(x == (d[0] - 48) as nat);
    let p = pow10((d.len() - 1) as nat);
    assert(t.len() == d.len() - 1);
    lemma_pow10_pos((d.len() - 1) as nat);
    assert(x >= 1 ==> x * p >= p) by (nonlinear_arith);
    assert(x == 0 ==> x * p == 0) by (nonlinear_arith);
}

/// Writes `n` in decimal at the end of `out`.
pub fn push_dec(out: &mut Vec<u8>, n: u128)
    ensures
        final(out)@ == old(out)@ + dec_repr(n as nat),
    decreases n,
{
    if n < 10 {
        out.push((n as u8) + 48);
        assert(dec_repr(n as nat) =~= seq![digit_char(n as nat)]);
    } else {
        push_dec(out, n / 10);
        out.push(((n % 10) as u8) + 48);
        assert(dec_repr(n as nat) =~= dec_repr((n / 10) as nat).push(digit_char((n % 10) as nat)));
    }
}

/// Writes the integer `v` in decimal at the end of `out`, with its sign as
/// `int_repr` gives it.
pub fn push_int(out: &mut Vec<u8>, v: i128, plus: bool)
    requires
        v > i128::MIN,
    ensures
        final(out)@ == old(out)@ + int_repr(v as int, plus),
{
    if v < 0 {
        out.push(45u8);
        push_dec(out, (-v) as u128);
    } else {
        if plus {
            out.push(43u8);
        }
        push_dec(out, v as u128);
    }
}

/// Appends `n` ASCII zeros.
pub fn push_zeros(out: &mut Vec<u8>, n: usize)
    ensures
        final(out)@ == old(out)@ + zeros(n as nat),
{
    let ghost start = out@;
    let mut i: usize = 0;
    while i < n
        invariant
            i <= n,
            out@ =~= start + zeros(i as nat),
        decreases n - i,
    {
        out.push(48u8);
        i = i + 1;
    }
}

/// Whether every byte of `s` is ASCII.
pub open spec fn ascii_text(s: Seq<u8>) -> bool {
    forall|i: int| 0 <= i < s.len() ==> #[trigger] s[i] < 128
}

/// The characters of the ASCII bytes `s`.
pub open spec fn text_chars(s: Seq<u8>) -> Seq<char> {
    s.map_values(|b: u8| b as char)
}

/// Digits are ASCII.
pub proof fn lemma_digits_ascii(s: Seq<u8>)
    requires
        all_digits(s),
    ensures
        ascii_text(s),
{
    assert forall|i: int| 0 <= i < s.len() implies #[trigger] s[i] < 128 by {
        assert(is_digit(s[i]));
    }
}

/// The text of an integer is ASCII.
pub proof fn lemma_int_repr_ascii(v: int, plus: bool)
    ensures
        ascii_text(int_repr(v, plus)),
{
    let d = dec_repr(if v < 0 { (-v) as nat } else { v as nat });
    lemma_dec_repr_digits(if v < 0 { (-v) as nat } else { v as nat });
    lemma_digits_ascii(d);
    if v < 0 {
        lemma_ascii_concat(seq![45u8], d);
    } else if plus {
        lemma_ascii_concat(seq![43u8], d);
    }
}

/// Joined ASCII texts are ASCII.
pub proof fn lemma_ascii_concat(a: Seq<u8>, b: Seq<u8>)
    requires
        ascii_text(a),
        ascii_text(b),
    ensures
        ascii_text(a + b),
{
    assert forall|i: int| 0 <= i < (a + b).len() implies #[trigger] (a + b)[i] < 128 by {
        if i < a.len() {
            assert((a + b)[i] == a[i]);
        } else {
            assert((a + b)[i] == b[i - a.len()]);
        }
    }
}

/// The string of the ASCII bytes `bytes`, by `String::from_utf8`: ASCII is
/// valid UTF-8, each byte encoding the character of the same code.
#[verifier::external_body]
pub(crate) fn ascii_string(bytes: Vec<u8>) -> (r: String)
    requires
        ascii_text(bytes@),
    ensures
        r@ == text_chars(bytes@),
{
    match String::from_utf8(bytes) {
        Ok(s) => s,
        Err(_) => String::new(),
    }
}

} // verus!
