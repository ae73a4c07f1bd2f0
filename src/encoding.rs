use vstd::prelude::*;
use vstd::string::StringExecFns;
use vstd::string::StringSliceAdditionalSpecFns;

use crate::protocol::CxxrtlTimestamp;
use crate::refs::char_text;

verus! {

/// The value of one character of the standard base64 alphabet.
pub open spec fn sextet(c: u8) -> Option<nat> {
    if 65 <= c <= 90 {
        Some((c - 65) as nat)
    } else if 97 <= c <= 122 {
        Some((c - 97 + 26) as nat)
    } else if 48 <= c <= 57 {
        Some((c - 48 + 52) as nat)
    } else if c == 43 {
        Some(62)
    } else if c == 47 {
        Some(63)
    } else {
        None
    }
}

/// The padding character.
pub open spec fn is_pad(c: u8) -> bool {
    c == 61
}

/// The three bytes that four sextets encode.
pub open spec fn group_bytes(a: nat, b: nat, c: nat, d: nat) -> Seq<u8> {
    seq![(a * 4 + b / 16) as u8, ((b % 16) * 16 + c / 4) as u8, ((c % 4) * 64 + d) as u8]
}

/// The bytes that padded base64 text encodes: groups of four characters, of which only the
/// last may end in one or two padding characters. None if the text is not of that form.
pub open spec fn base64_decode(s: Seq<u8>) -> Option<Seq<u8>>
    decreases s.len(),
{
    if s.len() == 0 {
        Some(Seq::empty())
    } else if s.len() < 4 {
        None
    } else {
        let last = s.len() == 4;
        match (sextet(s[0]), sextet(s[1]), sextet(s[2]), sextet(s[3])) {
            (Some(a), Some(b), Some(c), Some(d)) => match base64_decode(s.skip(4)) {
                Some(rest) => Some(group_bytes(a, b, c, d) + rest),
                None => None,
            },
            (Some(a), Some(b), Some(c), None) => if last && is_pad(s[3]) {
                Some(group_bytes(a, b, c, 0).take(2))
            } else {
                None
            },
            (Some(a), Some(b), None, None) => if last && is_pad(s[2]) && is_pad(s[3]) {
                Some(group_bytes(a, b, 0, 0).take(1))
            } else {
                None
            },
            _ => None,
        }
    }
}

/// The little-endian 32-bit words that `b` holds, four bytes each.
pub open spec fn le_words(b: Seq<u8>) -> Seq<u32> {
    Seq::new(
        b.len() / 4,
        |k: int|
            (b[4 * k] + b[4 * k + 1] * 256 + b[4 * k + 2] * 65536 + b[4 * k + 3] * 16777216) as u32,
    )
}

fn sextet_of(c: u8) -> (r: Option<u32>)
    ensures
        r matches Some(v) ==> sextet(c) == Some(v as nat) && v < 64,
        r is None ==> sextet(c) is None,
{
    if 65 <= c && c <= 90 {
        Some((c - 65) as u32)
    } else if 97 <= c && c <= 122 {
        Some((c - 97 + 26) as u32)
    } else if 48 <= c && c <= 57 {
        Some((c - 48 + 52) as u32)
    } else if c == 43 {
        Some(62)
    } else if c == 47 {
        Some(63)
    } else {
        None
    }
}

/// Decodes padded standard base64 text.
pub fn decode_base64(s: &[u8]) -> (r: Option<Vec<u8>>)
    ensures
        match base64_decode(s@) {
            Some(b) => r is Some && r->0@ == b,
            None => r is None,
        },
{
    let n = s.len();
    let mut out: Vec<u8> = Vec::new();
    let mut i: usize = 0;
    proof {
        assert(s@.skip(0) =~= s@);
    }
    while i < n
        invariant
            n == s@.len(),
            i <= n,
            base64_decode(s@) == match base64_decode(s@.skip(i as int)) {
                Some(rest) => Some(out@ + rest),
                None => None::<Seq<u8>>,
            },
        decreases n - i,
    {
        let ghost t = s@.skip(i as int);
        if n - i < 4 {
            return None;
        }
        proof {
            assert(t.skip(4) =~= s@.skip(i + 4));
            assert(t[0] == s@[i as int] && t[1] == s@[i + 1] && t[2] == s@[i + 2] && t[3] == s@[i + 3]);
        }
        let last = n - i == 4;
        let a = sextet_of(s[i]);
        let b = sextet_of(s[i + 1]);
        let c = sextet_of(s[i + 2]);
        let d = sextet_of(s[i + 3]);
        match (a, b, c, d) {
            (Some(a), Some(b), Some(c), Some(d)) => {
                let x0 = (a * 4 + b / 16) as u8;
                let x1 = ((b % 16) * 16 + c / 4) as u8;
                let x2 = ((c % 4) * 64 + d) as u8;
                let ghost before = out@;
                out.push(x0);
                out.push(x1);
                out.push(x2);
                proof {
                    let g = group_bytes(a as nat, b as nat, c as nat, d as nat);
                    assert(out@ =~= before + g);
                    assert forall|rest: Seq<u8>| (before + g) + rest == before + (g + rest) by {
                        assert((before + g) + rest =~= before + (g + rest));
                    }
                }
                i = i + 4;
            },
            (Some(a), Some(b), Some(c), None) => {
                if last && s[i + 3] == 61 {
                    let ghost before = out@;
                    out.push((a * 4 + b / 16) as u8);
                    out.push(((b % 16) * 16 + c / 4) as u8);
                    proof {
                        let g = group_bytes(a as nat, b as nat, c as nat, 0).take(2);
                        assert(out@ =~= before + g);
                        assert(s@.skip(n as int) =~= Seq::<u8>::empty());
                        assert(out@ + Seq::<u8>::empty() =~= out@);
                    }
                    return Some(out);
                }
                return None;
            },
            (Some(a), Some(b), None, None) => {
                if last && s[i + 2] == 61 && s[i + 3] == 61 {
                    let ghost before = out@;
                    out.push((a * 4 + b / 16) as u8);
                    proof {
                        let g = group_bytes(a as nat, b as nat, 0, 0).take(1);
                        assert(out@ =~= before + g);
                    }
                    return Some(out);
                }
                return None;
            },
            _ => {
                return None;
            },
        }
    }
    proof {
        assert(s@.skip(n as int) =~= Seq::<u8>::empty());
        assert(out@ + Seq::<u8>::empty() =~= out@);
    }
    Some(out)
}

/// The little-endian 32-bit words of `b`; None unless its length is a multiple of four.
pub fn words_of_bytes(b: &Vec<u8>) -> (r: Option<Vec<u32>>)
    ensures
        b@.len() % 4 == 0 ==> r is Some && r->0@ == le_words(b@),
        b@.len() % 4 != 0 ==> r is None,
{
    if b.len() % 4 != 0 {
        return None;
    }
    let mut out: Vec<u32> = Vec::new();
    let mut k: usize = 0;
    let mut j: usize = 0;
    let len = b.len();
    let n = len / 4;
    while k < n
        invariant
            len == b@.len(),
            n == b@.len() / 4,
            b@.len() % 4 == 0,
            k <= n,
            j == 4 * k,
            out@ == le_words(b@).take(k as int),
        decreases n - k,
    {
        proof {
            assert(4 * k + 4 <= b@.len()) by (nonlinear_arith)
                requires
                    k < n,
                    n == b@.len() / 4,
                    b@.len() % 4 == 0,
            ;
        }
        let w = b[j] as u32 + (b[j + 1] as u32) * 256 + (b[j + 2] as u32) * 65536 + (b[j + 3] as u32)
            * 16777216;
        proof {
            assert(le_words(b@).take(k + 1) =~= le_words(b@).take(k as int).push(w));
        }
        out.push(w);
        k = k + 1;
        j = j + 4;
    }
    proof {
        assert(le_words(b@).take(n as int) =~= le_words(b@));
    }
    Some(out)
}

/// The item values of a sample sent as "base64(u32)": base64 text of little-endian 32-bit
/// words. None if the text is not padded base64 or its bytes are not whole words.
pub fn item_values_of_base64(text: &str) -> (r: Option<Vec<u32>>)
    ensures
        match base64_decode(text.spec_bytes()) {
            Some(b) => if b.len() % 4 == 0 {
                r is Some && r->0@ == le_words(b)
            } else {
                r is None
            },
            None => r is None,
        },
{
    match decode_base64(text.as_bytes()) {
        Some(bytes) => words_of_bytes(&bytes),
        None => None,
    }
}

/// Whether `c` is a decimal digit.
pub open spec fn is_digit(c: u8) -> bool {
    48 <= c <= 57
}

/// The value of a string of decimal digits.
pub open spec fn decimal(s: Seq<u8>) -> nat
    decreases s.len(),
{
    if s.len() == 0 {
        0
    } else {
        decimal(s.drop_last()) * 10 + (s.last() - 48) as nat
    }
}

pub open spec fn pow10(n: nat) -> nat
    decreases n,
{
    if n == 0 {
        1
    } else {
        10 * pow10((n - 1) as nat)
    }
}

/// Femtoseconds in a second.
pub const FEMTOS_PER_SECOND: u128 = 1_000_000_000_000_000;

/// The femtoseconds that a time on the wire stands for: decimal seconds, a dot, and one to
/// fifteen decimal digits of fraction. None if the text is not of that form.
pub open spec fn time_of_text(s: Seq<u8>) -> Option<nat> {
    match crate::query::find_first(s, 46u8) {
        Some(k) => {
            let secs = s.take(k);
            let frac = s.skip(k + 1);
            if 1 <= secs.len() && 1 <= frac.len() <= 15 && (forall|i: int|
                0 <= i < secs.len() ==> is_digit(#[trigger] secs[i])) && (forall|i: int|
                0 <= i < frac.len() ==> is_digit(#[trigger] frac[i])) {
                Some(decimal(secs) * pow10(15) + decimal(frac) * pow10((15 - frac.len()) as nat))
            } else {
                None
            }
        },
        None => None,
    }
}

proof fn lemma_pow10_15()
    ensures
        pow10(15) == 1_000_000_000_000_000,
{
    reveal_with_fuel(pow10, 16);
}

proof fn lemma_decimal_grows(s: Seq<u8>, i: int)
    requires
        0 <= i <= s.len(),
        forall|j: int| 0 <= j < s.len() ==> is_digit(#[trigger] s[j]),
    ensures
        decimal(s.take(i)) <= decimal(s),
    decreases s.len() - i,
{
    if i < s.len() {
        lemma_decimal_grows(s, i + 1);
        assert(s.take(i + 1).drop_last() =~= s.take(i));
    } else {
        assert(s.take(i) =~= s);
    }
}

/// The value of the digits `s[from..to]`, or None if one is not a digit or the value
/// exceeds the largest `u128`.
fn parse_decimal(s: &[u8], from: usize, to: usize) -> (r: Option<u128>)
    requires
        from <= to <= s@.len(),
    ensures
        ({
            let d = s@.subrange(from as int, to as int);
            if forall|j: int| 0 <= j < d.len() ==> is_digit(#[trigger] d[j]) {
                if decimal(d) <= u128::MAX {
                    r == Some(decimal(d) as u128)
                } else {
                    r is None
                }
            } else {
                r is None
            }
        }),
{
    let ghost d = s@.subrange(from as int, to as int);
    let mut v: u128 = 0;
    let mut i: usize = from;
    while i < to
        invariant
            from <= i <= to <= s@.len(),
            d == s@.subrange(from as int, to as int),
            forall|j: int| 0 <= j < i - from ==> is_digit(#[trigger] d[j]),
            v as nat == decimal(d.take(i - from)),
        decreases to - i,
    {
        let c = s[i];
        proof {
            assert(d.take(i + 1 - from).drop_last() =~= d.take(i - from));
            assert(d[i - from] == c);
        }
        if c < 48 || c > 57 {
            return None;
        }
        let digit = (c - 48) as u128;
        if v > (u128::MAX - digit) / 10 {
            proof {
                if forall|j: int| 0 <= j < d.len() ==> is_digit(#[trigger] d[j]) {
                    lemma_decimal_grows(d, i + 1 - from);
                    assert(decimal(d.take(i + 1 - from)) == v * 10 + digit);
                    assert(v * 10 + digit > u128::MAX) by (nonlinear_arith)
                        requires
                            v > (u128::MAX - digit) / 10,
                            digit <= 9,
                    ;
                }
            }
            return None;
        }
        proof {
            assert(v * 10 + digit <= u128::MAX) by (nonlinear_arith)
                requires
                    v <= (u128::MAX - digit) / 10,
                    digit <= 9,
            ;
        }
        v = v * 10 + digit;
        i = i + 1;
    }
    proof {
        assert(d.take(to - from) =~= d);
    }
    Some(v)
}

proof fn lemma_decimal_bound(s: Seq<u8>)
    requires
        forall|j: int| 0 <= j < s.len() ==> is_digit(#[trigger] s[j]),
    ensures
        decimal(s) < pow10(s.len()),
    decreases s.len(),
{
    if s.len() > 0 {
        let p = s.drop_last();
        assert forall|j: int| 0 <= j < p.len() implies is_digit(#[trigger] p[j]) by {
            assert(p[j] == s[j]);
        }
        lemma_decimal_bound(p);
        assert(is_digit(s[s.len() - 1]));
        assert(decimal(s) < pow10(s.len())) by (nonlinear_arith)
            requires
                decimal(p) < pow10(p.len()),
                decimal(s) == decimal(p) * 10 + (s.last() - 48) as nat,
                (s.last() - 48) as nat <= 9,
                pow10(s.len()) == 10 * pow10(p.len()),
        ;
    }
}

proof fn lemma_pow10_add(a: nat, b: nat)
    ensures
        pow10(a + b) == pow10(a) * pow10(b),
    decreases a,
{
    if a > 0 {
        lemma_pow10_add((a - 1) as nat, b);
        assert(pow10(a + b) == 10 * pow10((a - 1 + b) as nat));
        assert(10 * (pow10((a - 1) as nat) * pow10(b)) == (10 * pow10((a - 1) as nat)) * pow10(b))
            by (nonlinear_arith);
        assert(pow10(a) == 10 * pow10((a - 1) as nat));
    } else {
        assert(a + b == b);
        assert(pow10(a) == 1);
    }
}

proof fn lemma_pow10_mono(a: nat, b: nat)
    requires
        a <= b,
    ensures
        pow10(a) <= pow10(b),
        pow10(a) >= 1,
    decreases b,
{
    if b > a {
        lemma_pow10_mono(a, (b - 1) as nat);
    } else if a > 0 {
        lemma_pow10_mono((a - 1) as nat, (a - 1) as nat);
    }
}

/// The time that a time on the wire stands for; None if the text is not of the form
/// `time_of_text` accepts or the time exceeds the largest `u128` femtosecond count.
pub fn timestamp_of_text(text: &str) -> (r: Option<CxxrtlTimestamp>)
    ensures
        match time_of_text(text.spec_bytes()) {
            Some(v) => if v <= u128::MAX {
                r == Some(CxxrtlTimestamp { femtoseconds: v as u128 })
            } else {
                r is None
            },
            None => r is None,
        },
{
    let s = text.as_bytes();
    let ghost b = text.spec_bytes();
    assert(s@ == b);
    let n = s.len();
    let mut k: usize = 0;
    while k < n
        invariant
            n == s@.len(),
            k <= n,
            forall|j: int| 0 <= j < k ==> s@[j] != 46u8,
        ensures
            k == n || s@[k as int] == 46u8,
        decreases n - k,
    {
        if s[k] == 46 {
            break;
        }
        k = k + 1;
    }
    if k == n {
        proof {
            crate::query::lemma_find_first_none(b, 46u8);
        }
        return None;
    }
    proof {
        crate::query::lemma_find_first_some(b, 46u8, k as int);
        assert(b.take(k as int) =~= b.subrange(0, k as int));
        assert(b.skip(k + 1) =~= b.subrange(k + 1, n as int));
    }
    let frac_len = n - k - 1;
    if k == 0 || frac_len == 0 || frac_len > 15 {
        return None;
    }
    let secs = parse_decimal(s, 0, k);
    let frac = parse_decimal(s, k + 1, n);
    let ghost sd = b.take(k as int);
    let ghost fd = b.skip(k + 1);
    match (secs, frac) {
        (Some(sv), Some(fv)) => {
            let mut scale: u128 = 1;
            let mut e: usize = 0;
            while e < 15 - frac_len
                invariant
                    frac_len <= 15,
                    e <= 15 - frac_len,
                    scale as nat == pow10(e as nat),
                    scale <= 1_000_000_000_000_000,
                decreases 15 - frac_len - e,
            {
                proof {
                    lemma_pow10_mono((e + 1) as nat, 15);
                    lemma_pow10_15();
                }
                scale = scale * 10;
                e = e + 1;
            }
            proof {
                assert(fd =~= s@.subrange(k + 1, n as int));
                lemma_decimal_bound(fd);
                lemma_pow10_15();
                lemma_pow10_add(frac_len as nat, (15 - frac_len) as nat);
                lemma_pow10_mono(0, (15 - frac_len) as nat);
                assert(fv * scale < pow10(15)) by (nonlinear_arith)
                    requires
                        fv < pow10(frac_len as nat),
                        scale == pow10((15 - frac_len) as nat),
                        scale >= 1,
                        pow10(15) == pow10(frac_len as nat) * pow10((15 - frac_len) as nat),
                {}
            }
            let f = fv * scale;
            if sv > (u128::MAX - f) / FEMTOS_PER_SECOND {
                proof {
                    lemma_pow10_15();
                    assert(sv * FEMTOS_PER_SECOND + f > u128::MAX) by (nonlinear_arith)
                        requires
                            sv > (u128::MAX - f) as int / FEMTOS_PER_SECOND as int,
                    ;
                }
                return None;
            }
            proof {
                lemma_pow10_15();
                assert(sv * FEMTOS_PER_SECOND + f <= u128::MAX) by (nonlinear_arith)
                    requires
                        sv <= (u128::MAX - f) as int / FEMTOS_PER_SECOND as int,
                        f < FEMTOS_PER_SECOND,
                ;
            }
            Some(CxxrtlTimestamp { femtoseconds: sv * FEMTOS_PER_SECOND + f })
        },
        _ => {
            proof {
                lemma_pow10_15();
                if (forall|j: int| 0 <= j < sd.len() ==> is_digit(#[trigger] sd[j])) && (forall|j: int|
                    0 <= j < fd.len() ==> is_digit(#[trigger] fd[j])) {
                    lemma_decimal_bound(fd);
                    lemma_pow10_mono(frac_len as nat, 15);
                    assert(decimal(sd) * pow10(15) >= decimal(sd)) by (nonlinear_arith)
                        requires
                            pow10(15) >= 1,
                    ;
                }
            }
            None
        },
    }
}

/// The decimal digits, by value.
pub open spec fn digit_chars() -> Seq<char> {
    seq!['0', '1', '2', '3', '4', '5', '6', '7', '8', '9']
}

fn digit_char(d: u8) -> (c: char)
    requires
        d < 10,
    ensures
        c == digit_chars()[d as int],
{
    match d {
        0 => '0',
        1 => '1',
        2 => '2',
        3 => '3',
        4 => '4',
        5 => '5',
        6 => '6',
        7 => '7',
        8 => '8',
        _ => '9',
    }
}

/// The decimal digits of `n`, without leading zeros.
pub open spec fn digits_of(n: nat) -> Seq<char>
    decreases n,
{
    if n < 10 {
        seq![digit_chars()[n as int]]
    } else {
        digits_of(n / 10).push(digit_chars()[(n % 10) as int])
    }
}

/// A time on the wire: the whole seconds, a dot, and the femtoseconds as fifteen digits.
pub open spec fn time_text(fs: nat) -> Seq<char> {
    let frac = digits_of(fs % 1_000_000_000_000_000);
    digits_of(fs / 1_000_000_000_000_000) + seq!['.'] + Seq::new(
        (15 - frac.len()) as nat,
        |i: int| '0',
    ) + frac
}

proof fn lemma_digits_len(n: nat, k: nat)
    requires
        n < pow10(k),
        k >= 1,
    ensures
        1 <= digits_of(n).len() <= k,
    decreases n,
{
    if n >= 10 {
        assert(k >= 2) by {
            if k < 2 {
                reveal_with_fuel(pow10, 2);
            }
        }
        assert(n / 10 < pow10((k - 1) as nat)) by {
            assert(pow10(k) == 10 * pow10((k - 1) as nat));
        }
        lemma_digits_len(n / 10, (k - 1) as nat);
    }
}

/// Appends the decimal digits of `n`.
pub fn push_digits(out: &mut String, n: u128)
    ensures
        final(out)@ == old(out)@ + digits_of(n as nat),
    decreases n,
{
    if n >= 10 {
        push_digits(out, n / 10);
    }
    out.append(char_text(digit_char((n % 10) as u8)).as_str());
    proof {
        assert(final(out)@ =~= old(out)@ + digits_of(n as nat));
    }
}

fn digit_count(n: u128) -> (r: usize)
    ensures
        r as nat == digits_of(n as nat).len(),
    decreases n,
{
    proof {
        lemma_pow10_39();
        lemma_digits_len(n as nat, 39);
    }
    if n >= 10 {
        digit_count(n / 10) + 1
    } else {
        1
    }
}

proof fn lemma_pow10_39()
    ensures
        pow10(39) > u128::MAX,
{
    reveal_with_fuel(pow10, 40);
}

impl CxxrtlTimestamp {
    /// This time as it is written on the wire.
    pub fn to_cxxrtl_text(&self) -> (r: String)
        ensures
            r@ == time_text(self.femtoseconds as nat),
    {
        let secs = self.femtoseconds / FEMTOS_PER_SECOND;
        let frac = self.femtoseconds % FEMTOS_PER_SECOND;
        let mut out = String::new();
        push_digits(&mut out, secs);
        out.append(char_text('.').as_str());
        let n = digit_count(frac);
        proof {
            lemma_pow10_15();
            lemma_digits_len(frac as nat, 15);
        }
        let ghost head = out@;
        let mut i: usize = n;
        while i < 15
            invariant
                n <= i <= 15,
                out@ == head + Seq::new((i - n) as nat, |j: int| '0'),
            decreases 15 - i,
        {
            out.append(char_text('0').as_str());
            proof {
                assert(out@ =~= head + Seq::new((i + 1 - n) as nat, |j: int| '0'));
            }
            i = i + 1;
        }
        push_digits(&mut out, frac);
        proof {
            assert(out@ =~= time_text(self.femtoseconds as nat));
        }
        out
    }
}

} // verus!
