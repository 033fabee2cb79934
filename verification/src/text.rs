//! Decimal rendering of the integer fields that make up a spatial id,
//! together with the one `String` operation the renderers are built on.

use vstd::prelude::*;

verus! {

/// Relies on `String::push`: appends the given character to the end of the string.
pub assume_specification[ String::push ](s: &mut String, ch: char)
    ensures
        final(s)@ == old(s)@.push(ch),
;

/// The decimal digit character for a value in `0..=9`.
pub open spec fn dec_char(d: int) -> char {
    if d == 0 {
        '0'
    } else if d == 1 {
        '1'
    } else if d == 2 {
        '2'
    } else if d == 3 {
        '3'
    } else if d == 4 {
        '4'
    } else if d == 5 {
        '5'
    } else if d == 6 {
        '6'
    } else if d == 7 {
        '7'
    } else if d == 8 {
        '8'
    } else {
        '9'
    }
}

/// The base-10 rendering of a natural number, most significant digit first,
/// with no leading zeros (`0` itself renders as `"0"`).
pub open spec fn dec_str(n: nat) -> Seq<char>
    decreases n,
{
    if n < 10 {
        seq![dec_char(n as int)]
    } else {
        dec_str(n / 10).push(dec_char((n % 10) as int))
    }
}

/// The base-10 rendering of a signed value: a leading `-` before the
/// rendering of the magnitude when the value is negative.
pub open spec fn dec_str_signed(v: int) -> Seq<char> {
    if v < 0 {
        seq!['-'] + dec_str((-v) as nat)
    } else {
        dec_str(v as nat)
    }
}

/// True of the ten decimal digit characters.
pub open spec fn is_dec_digit(c: char) -> bool {
    c == '0' || c == '1' || c == '2' || c == '3' || c == '4' || c == '5' || c == '6' || c == '7'
        || c == '8' || c == '9'
}

/// A decimal rendering is never empty and holds digit characters only.
pub proof fn lemma_dec_str_chars(n: nat)
    ensures
        dec_str(n).len() >= 1,
        forall|i: int| 0 <= i < dec_str(n).len() ==> is_dec_digit(#[trigger] dec_str(n)[i]),
    decreases n,
{
    if n >= 10 {
        lemma_dec_str_chars(n / 10);
        assert forall|i: int| 0 <= i < dec_str(n).len() implies is_dec_digit(
            #[trigger] dec_str(n)[i],
        ) by {
            if i < dec_str(n).len() - 1 {
                assert(dec_str(n)[i] == dec_str(n / 10)[i]);
            } else {
                assert(dec_str(n)[i] == dec_char((n % 10) as int));
            }
        }
    }
}

/// Equal decimal renderings come from equal numbers.
pub proof fn lemma_dec_str_injective(m: nat, n: nat)
    requires
        dec_str(m) == dec_str(n),
    ensures
        m == n,
    decreases m,
{
    lemma_dec_str_chars(m);
    lemma_dec_str_chars(n);
    if m < 10 && n < 10 {
        assert(dec_str(m) == seq![dec_char(m as int)]);
        assert(dec_str(n) == seq![dec_char(n as int)]);
        assert(dec_str(m)[0] == dec_char(m as int));
        assert(dec_str(n)[0] == dec_char(n as int));
        assert(dec_char(m as int) == dec_char(n as int));
        assert(m == n);
    } else if m >= 10 && n >= 10 {
        assert(dec_str(m).last() == dec_char((m % 10) as int));
        assert(dec_str(n).last() == dec_char((n % 10) as int));
        assert(dec_str(m).drop_last() =~= dec_str(m / 10));
        assert(dec_str(n).drop_last() =~= dec_str(n / 10));
        lemma_dec_str_injective(m / 10, n / 10);
    } else if m < 10 {
        lemma_dec_str_chars(n / 10);
        assert(dec_str(n).len() >= 2);
    } else {
        lemma_dec_str_chars(m / 10);
        assert(dec_str(m).len() >= 2);
    }
}

/// A signed decimal rendering holds digit characters after at most one
/// leading `-`; in particular it never holds a `/`.
pub proof fn lemma_dec_str_signed_chars(v: int)
    ensures
        dec_str_signed(v).len() >= 1,
        forall|i: int|
            0 <= i < dec_str_signed(v).len() ==> (is_dec_digit(#[trigger] dec_str_signed(v)[i])
                || (i == 0 && dec_str_signed(v)[i] == '-')),
{
    if v < 0 {
        lemma_dec_str_chars((-v) as nat);
        assert forall|i: int| 0 <= i < dec_str_signed(v).len() implies (is_dec_digit(
            #[trigger] dec_str_signed(v)[i],
        ) || (i == 0 && dec_str_signed(v)[i] == '-')) by {
            if i > 0 {
                assert(dec_str_signed(v)[i] == dec_str((-v) as nat)[i - 1]);
            }
        }
    } else {
        lemma_dec_str_chars(v as nat);
    }
}

/// Equal signed decimal renderings come from equal values.
pub proof fn lemma_dec_str_signed_injective(v: int, w: int)
    requires
        dec_str_signed(v) == dec_str_signed(w),
    ensures
        v == w,
{
    if v < 0 && w < 0 {
        let dv = dec_str((-v) as nat);
        let dw = dec_str((-w) as nat);
        assert(dec_str_signed(v) == seq!['-'] + dv);
        assert(dec_str_signed(w) == seq!['-'] + dw);
        assert(dv =~= dw) by {
            assert((seq!['-'] + dv).len() == 1 + dv.len());
            assert((seq!['-'] + dw).len() == 1 + dw.len());
            assert(dv.len() == dw.len());
            assert forall|i: int| 0 <= i < dv.len() implies #[trigger] dv[i] == dw[i] by {
                assert((seq!['-'] + dv)[i + 1] == dv[i]);
                assert((seq!['-'] + dw)[i + 1] == dw[i]);
            }
        }
        lemma_dec_str_injective((-v) as nat, (-w) as nat);
    } else if v >= 0 && w >= 0 {
        lemma_dec_str_injective(v as nat, w as nat);
    } else if v < 0 {
        lemma_dec_str_chars(w as nat);
        assert(dec_str_signed(v)[0] == '-');
        assert(is_dec_digit(dec_str_signed(w)[0]));
    } else {
        lemma_dec_str_chars(v as nat);
        assert(dec_str_signed(w)[0] == '-');
        assert(is_dec_digit(dec_str_signed(v)[0]));
    }
}

/// Splitting a string at a separator is unambiguous when neither prefix
/// holds the separator.
pub proof fn lemma_sep_split(sep: char, p1: Seq<char>, s1: Seq<char>, p2: Seq<char>, s2: Seq<char>)
    requires
        p1 + seq![sep] + s1 == p2 + seq![sep] + s2,
        forall|i: int| 0 <= i < p1.len() ==> #[trigger] p1[i] != sep,
        forall|i: int| 0 <= i < p2.len() ==> #[trigger] p2[i] != sep,
    ensures
        p1 == p2,
        s1 == s2,
{
    let l = p1 + seq![sep] + s1;
    let r = p2 + seq![sep] + s2;
    if p1.len() < p2.len() {
        assert(l[p1.len() as int] == sep);
        assert(r[p1.len() as int] == p2[p1.len() as int]);
    } else if p2.len() < p1.len() {
        assert(r[p2.len() as int] == sep);
        assert(l[p2.len() as int] == p1[p2.len() as int]);
    }
    assert(p1 =~= p2) by {
        assert forall|i: int| 0 <= i < p1.len() implies p1[i] == p2[i] by {
            assert(l[i] == p1[i]);
            assert(r[i] == p2[i]);
        }
    }
    assert(s1 =~= s2) by {
        assert(l.len() == r.len());
        assert(p1.len() == p2.len());
        assert(l.len() == (p1.len() + 1) + s1.len());
        assert(r.len() == (p2.len() + 1) + s2.len());
        assert(s1.len() == s2.len());
        assert forall|j: int| 0 <= j < s1.len() implies #[trigger] s1[j] == s2[j] by {
            assert(l[p1.len() + 1 + j] == s1[j]);
            assert(r[p2.len() + 1 + j] == s2[j]);
        }
    }
}

/// Reversing after a push puts the pushed element in front.
pub proof fn lemma_reverse_push<A>(s: Seq<A>, a: A)
    ensures
        s.push(a).reverse() =~= seq![a] + s.reverse(),
{
}

fn dec_char_exec(d: u32) -> (c: char)
    requires
        d < 10,
    ensures
        c == dec_char(d as int),
{
    if d == 0 {
        '0'
    } else if d == 1 {
        '1'
    } else if d == 2 {
        '2'
    } else if d == 3 {
        '3'
    } else if d == 4 {
        '4'
    } else if d == 5 {
        '5'
    } else if d == 6 {
        '6'
    } else if d == 7 {
        '7'
    } else if d == 8 {
        '8'
    } else {
        '9'
    }
}

/// Appends the base-10 rendering of `n` to `out`.
pub fn push_u32_dec(out: &mut String, n: u32)
    ensures
        final(out)@ == old(out)@ + dec_str(n as nat),
{
    let mut digits: Vec<char> = Vec::new();
    let mut m: u32 = n;
    digits.push(dec_char_exec(m % 10));
    m = m / 10;
    while m > 0
        invariant
            dec_str(n as nat) == (if m > 0 {
                dec_str(m as nat)
            } else {
                Seq::<char>::empty()
            }) + digits@.reverse(),
        decreases m,
    {
        let d: u32 = m % 10;
        proof {
            lemma_reverse_push(digits@, dec_char(d as int));
        }
        digits.push(dec_char_exec(d));
        m = m / 10;
        proof {
            if m > 0 {
                assert(dec_str(n as nat) == dec_str(m as nat) + digits@.reverse());
            }
        }
    }
    push_reversed(out, &mut digits);
}

/// Appends the base-10 rendering of `v` to `out`, with a `-` sign for
/// negative values.
pub fn push_i32_dec(out: &mut String, v: i32)
    ensures
        final(out)@ == old(out)@ + dec_str_signed(v as int),
{
    if v < 0 {
        out.push('-');
        let mag: u32 = (-(v as i64)) as u32;
        push_u32_dec(out, mag);
        proof {
            assert(final(out)@ == old(out)@ + dec_str_signed(v as int)) by {
                assert(old(out)@.push('-') + dec_str(mag as nat) =~= old(out)@ + (seq!['-']
                    + dec_str((-(v as int)) as nat)));
            }
        }
    } else {
        push_u32_dec(out, v as u32);
    }
}

/// Empties `digits`, appending its characters to `out` in reverse order.
pub(crate) fn push_reversed(out: &mut String, digits: &mut Vec<char>)
    ensures
        final(out)@ == old(out)@ + old(digits)@.reverse(),
{
    let ghost full = digits@;
    while digits.len() > 0
        invariant
            digits@.len() <= full.len(),
            out@ == old(out)@ + full.reverse().take(full.len() - digits@.len()),
            digits@ == full.take(digits@.len() as int),
        decreases digits@.len(),
    {
        let ghost k: int = digits@.len() as int;
        let c = digits.pop().unwrap();
        out.push(c);
        proof {
            assert(c == full[k - 1]);
            assert(full.reverse()[full.len() - k] == full[k - 1]);
            assert(out@ =~= old(out)@ + full.reverse().take(full.len() - digits@.len()));
            assert(digits@ =~= full.take(digits@.len() as int));
        }
    }
    proof {
        assert(full.reverse().take(full.len() as int) =~= full.reverse());
        assert(out@ == old(out)@ + full.reverse());
    }
}

} // verus!
