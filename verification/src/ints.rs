use vstd::prelude::*;

verus! {

/// The byte written for a digit of value `d`: `0`-`9` for 0 to 9, and from 10 on the
/// letters `a`, `b`, ... The value is taken as a byte (modulo 256), and the letter's
/// code wraps modulo 256 as well.
pub open spec fn digit_char(d: int) -> u8 {
    let u = d % 256;
    if u <= 9 {
        (48 + u) as u8
    } else {
        ((87 + u) % 256) as u8
    }
}

/// The digits of `n` in base `radix`, least significant first; zero has the one
/// digit `0`.
pub open spec fn rev_digits(n: nat, radix: nat) -> Seq<u8>
    decreases n,
{
    if n < radix || radix < 2 {
        seq![digit_char(n as int)]
    } else {
        proof {
            vstd::arithmetic::div_mod::lemma_div_decreases(n as int, radix as int);
        }
        seq![digit_char((n % radix) as int)] + rev_digits(n / radix, radix)
    }
}

/// The textual form of `num` in base `radix`: a `-` for negative numbers, then the
/// digits of its magnitude, most significant first.
pub open spec fn int_text(num: int, radix: nat) -> Seq<u8> {
    let mag: nat = if num < 0 { (-num) as nat } else { num as nat };
    let sign: Seq<u8> = if num < 0 { seq![45u8] } else { Seq::<u8>::empty() };
    sign + rev_digits(mag, radix).reverse()
}

/// `b` is the character of a digit below `radix`: `0` to `9`, then `a` on.
pub open spec fn is_digit_byte(b: u8, radix: nat) -> bool {
    ||| 48 <= b < 48 + radix && b <= 57
    ||| radix > 10 && 97 <= b < 97 + (radix - 10)
}

/// The digits of any number are digit characters of its radix.
proof fn lemma_digits_are_digits(n: nat, radix: nat)
    requires
        2 <= radix <= 36,
    ensures
        rev_digits(n, radix).len() >= 1,
        forall|i: int|
            0 <= i < rev_digits(n, radix).len() ==> is_digit_byte(
                #[trigger] rev_digits(n, radix)[i],
                radix,
            ),
    decreases n,
{
    if n < radix {
    } else {
        vstd::arithmetic::div_mod::lemma_div_decreases(n as int, radix as int);
        lemma_digits_are_digits(n / radix, radix);
        let d = (n % radix) as int;
        let tail = rev_digits(n / radix, radix);
        assert(rev_digits(n, radix) == seq![digit_char(d)] + tail);
        assert forall|i: int|
            0 <= i < rev_digits(n, radix).len() implies is_digit_byte(
            #[trigger] rev_digits(n, radix)[i],
            radix,
        ) by {
            if i > 0 {
                assert(rev_digits(n, radix)[i] == tail[i - 1]);
            }
        }
    }
}

/// Law: a negative number is written as `-` followed by the text of its
/// magnitude; a number that is not negative is written without a sign. Every text
/// has at least one digit.
pub proof fn lemma_text_sign(num: int, radix: nat)
    ensures
        num < 0 ==> int_text(num, radix).len() >= 2 && int_text(num, radix)[0] == 45u8
            && int_text(num, radix).subrange(1, int_text(num, radix).len() as int) == int_text(
            -num,
            radix,
        ),
        num >= 0 ==> int_text(num, radix).len() >= 1,
{
    let mag: nat = if num < 0 { (-num) as nat } else { num as nat };
    reveal_with_fuel(rev_digits, 1);
    assert(rev_digits(mag, radix).len() >= 1) by {
        if !(mag < radix || radix < 2) {
            vstd::arithmetic::div_mod::lemma_div_decreases(mag as int, radix as int);
        }
    }
    if num < 0 {
        let t = int_text(num, radix);
        assert(t.subrange(1, t.len() as int) =~= int_text(-num, radix));
    }
}

/// Law: in radixes 2 to 36, every byte of a text after its sign is a digit
/// character of the radix, and a number that is not negative starts with a digit.
pub proof fn lemma_text_digits(num: int, radix: nat)
    requires
        2 <= radix <= 36,
    ensures
        forall|i: int|
            (if num < 0 { 1int } else { 0int }) <= i < int_text(num, radix).len() ==> is_digit_byte(
                #[trigger] int_text(num, radix)[i],
                radix,
            ),
        num >= 0 ==> int_text(num, radix)[0] != 45u8,
{
    let mag: nat = if num < 0 { (-num) as nat } else { num as nat };
    lemma_digits_are_digits(mag, radix);
    let ds = rev_digits(mag, radix);
    let t = int_text(num, radix);
    let k: int = if num < 0 { 1 } else { 0 };
    assert forall|i: int| k <= i < t.len() implies is_digit_byte(#[trigger] t[i], radix) by {
        assert(t[i] == ds.reverse()[i - k]);
        assert(ds.reverse()[i - k] == ds[ds.len() - 1 - (i - k)]);
    }
    if num >= 0 {
        assert(is_digit_byte(t[0], radix));
    }
}

/// The values `lo, lo + 1, ..., hi - 1` (none when `hi <= lo`), in this order.
pub fn range(lo: usize, hi: usize) -> (res: Vec<usize>)
    ensures
        res@.len() == (if hi > lo { hi - lo } else { 0 }),
        forall|k: int| 0 <= k < res@.len() ==> #[trigger] res@[k] == lo + k,
{
    let mut res: Vec<usize> = Vec::new();
    let mut iter: usize = lo;
    while iter < hi
        invariant
            lo <= iter <= hi || (hi <= lo && iter == lo),
            res@.len() == iter - lo,
            forall|k: int| 0 <= k < res@.len() ==> #[trigger] res@[k] == lo + k,
        decreases hi - iter,
    {
        res.push(iter);
        iter += 1;
    }
    res
}

/// The bytes of `num` written in base `radix`, in the order in which they are
/// printed: a `-` for a negative number, then the digits, most significant first.
pub fn to_str_bytes(num: isize, radix: u32) -> (res: Vec<u8>)
    requires
        radix >= 2 || (radix == 1 && num == 0),
    ensures
        res@ == int_text(num as int, radix as nat),
        num < 0 ==> res@.len() >= 2 && res@[0] == 45u8 && res@.subrange(1, res@.len() as int)
            == int_text(-num, radix as nat),
        num >= 0 ==> res@ == int_text(num as int, radix as nat) && res@.len() >= 1,
        2 <= radix <= 36 ==> (forall|i: int|
            (if num < 0 { 1int } else { 0int }) <= i < res@.len() ==> is_digit_byte(
                #[trigger] res@[i],
                radix as nat,
            )),
{
    let neg = num < 0;
    let wide: i64 = num as i64;
    let mut deccum: u64 = if neg {
        (0u64.wrapping_sub(#[verifier::truncate] (wide as u64)))
    } else {
        wide as u64
    };
    proof {
        lemma_neg_magnitude(wide);
    }
    let ghost mag: nat = deccum as nat;
    let r: u64 = radix as u64;
    let mut buf: Vec<u8> = Vec::new();
    loop
        invariant_except_break
            r >= 2 || deccum == 0,
            r >= 1,
            rev_digits(mag, r as nat) == buf@ + rev_digits(deccum as nat, r as nat),
            deccum > 0 || buf@.len() == 0,
        ensures
            rev_digits(mag, r as nat) == buf@,
        decreases deccum,
    {
        let digit = deccum % r;
        let u: u64 = digit % 256;
        let c: u8 = if u <= 9 {
            (48 + u) as u8
        } else {
            ((87 + u) % 256) as u8
        };
        assert(c == digit_char((deccum % r) as int));
        let ghost old_buf = buf@;
        let ghost old_deccum = deccum;
        buf.push(c);
        deccum = deccum / r;
        proof {
            let tail = rev_digits(old_deccum as nat, r as nat);
            if old_deccum < r || r < 2 {
                vstd::arithmetic::div_mod::lemma_small_mod(old_deccum as nat, r as nat);
                assert(tail == seq![c]);
                vstd::arithmetic::div_mod::lemma_basic_div(old_deccum as int, r as int);
                assert(deccum == 0);
                assert(buf@ =~= old_buf + tail);
            } else {
                assert(tail == seq![c] + rev_digits(deccum as nat, r as nat));
                vstd::arithmetic::div_mod::lemma_div_non_zero(old_deccum as int, r as int);
                assert(deccum > 0);
                assert(buf@ + rev_digits(deccum as nat, r as nat) =~= old_buf + tail);
            }
        }
        if deccum == 0 {
            break;
        }
    }
    let mut out: Vec<u8> = Vec::new();
    if neg {
        out.push(45u8);
    }
    let ghost sign = out@;
    let mut cur: usize = buf.len();
    while cur > 0
        invariant
            cur <= buf@.len(),
            out@ == sign + buf@.subrange(cur as int, buf@.len() as int).reverse(),
        decreases cur,
    {
        cur -= 1;
        let ghost before = out@;
        out.push(buf[cur]);
        assert(buf@.subrange(cur as int, buf@.len() as int).reverse() =~= buf@.subrange(
            cur + 1,
            buf@.len() as int,
        ).reverse().push(buf@[cur as int]));
    }
    assert(buf@.subrange(0, buf@.len() as int) =~= buf@);
    proof {
        lemma_text_sign(num as int, radix as nat);
        if 2 <= radix <= 36 {
            lemma_text_digits(num as int, radix as nat);
        }
    }
    out
}

/// The magnitude of an `i64`, taken by wrapping negation, is its absolute value.
proof fn lemma_neg_magnitude(num: i64)
    ensures
        num < 0 ==> (0u64.wrapping_sub(#[verifier::truncate] (num as u64))) as int == -(num as int),
        num >= 0 ==> (num as u64) as int == num as int,
{
    if num < 0 {
        assert((0u64.wrapping_sub(num as u64)) as int == -(num as int)) by (bit_vector)
            requires num < 0i64;
    }
}

} // verus!
