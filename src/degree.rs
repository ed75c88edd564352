//! Fixed-point balance values and their decimal text.
use vstd::arithmetic::div_mod::{lemma_breakdown, lemma_fundamental_div_mod};
use vstd::prelude::*;

verus! {

/// Number of fractional digits a value keeps.
pub const FRACTION_DIGITS: u64 = 6;

/// One unit expressed in the smallest step of a value.
pub const UNIT: i64 = 1_000_000;

/// Bound on the magnitude of a value, in steps (a value has at most twelve integer digits).
pub const LIMIT: i64 = 1_000_000_000_000_000_000;

/// A balance, counted in millionths of a unit.
#[derive(Clone, Copy, Debug, PartialEq, Eq, Structural)]
pub struct Degree {
    pub micros: i64,
}

pub open spec fn pow10(k: nat) -> nat
    decreases k,
{
    if k == 0 {
        1
    } else {
        10 * pow10((k - 1) as nat)
    }
}

pub open spec fn is_digit(b: u8) -> bool {
    48 <= b <= 57
}

pub open spec fn digit_byte(d: nat) -> u8 {
    (48 + d) as u8
}

pub open spec fn all_digits(s: Seq<u8>) -> bool {
    forall|i: int| 0 <= i < s.len() ==> is_digit(#[trigger] s[i])
}

/// The number that a run of decimal digits denotes.
pub open spec fn digits_value(s: Seq<u8>) -> nat
    decreases s.len(),
{
    if s.len() == 0 {
        0
    } else {
        digits_value(s.drop_last()) * 10 + (s.last() - 48) as nat
    }
}

/// Decimal digits of `n`, most significant first, without leading zeros.
pub open spec fn dec_bytes(n: nat) -> Seq<u8>
    decreases n,
{
    if n < 10 {
        seq![digit_byte(n)]
    } else {
        dec_bytes(n / 10).push(digit_byte(n % 10))
    }
}

/// The last `k` decimal digits of `f`, padded with zeros.
pub open spec fn frac_bytes(f: nat, k: nat) -> Seq<u8>
    decreases k,
{
    if k == 0 {
        Seq::empty()
    } else {
        frac_bytes(f / 10, (k - 1) as nat).push(digit_byte(f % 10))
    }
}

/// The last `k` decimal digits of `f`, without trailing zeros.
pub open spec fn frac_trimmed(f: nat, k: nat) -> Seq<u8>
    decreases k,
{
    if k == 0 {
        Seq::empty()
    } else if f % 10 == 0 {
        frac_trimmed(f / 10, (k - 1) as nat)
    } else {
        frac_bytes(f, k)
    }
}

pub open spec fn abs(x: int) -> nat {
    if x < 0 {
        (-x) as nat
    } else {
        x as nat
    }
}

impl Degree {
    /// Values within the range the text format carries.
    pub open spec fn wf(self) -> bool {
        -LIMIT < self.micros < LIMIT
    }

    /// Distance between two values, in steps.
    pub open spec fn distance(self, other: Degree) -> nat {
        abs(self.micros - other.micros)
    }
}

/// Unsigned text: integer digits, then the trimmed fraction after a point.
pub open spec fn unsigned_text(m: nat) -> Seq<u8> {
    let frac = frac_trimmed(m % pow10(6), 6);
    let tail: Seq<u8> = if frac.len() == 0 { Seq::empty() } else { seq![46u8] + frac };
    dec_bytes(m / pow10(6)) + tail
}

/// The text of a value: an optional minus sign, the integer digits, and the
/// fractional digits without trailing zeros after a point, if any remain.
pub open spec fn degree_text(d: Degree) -> Seq<u8> {
    let sign: Seq<u8> = if d.micros < 0 { seq![45u8] } else { Seq::empty() };
    sign + unsigned_text(abs(d.micros as int))
}

/// First position of byte `b` in `s`, or the length of `s` if it does not occur.
pub open spec fn find_byte(s: Seq<u8>, b: u8) -> nat
    decreases s.len(),
{
    if s.len() == 0 {
        0
    } else if s[0] == b {
        0
    } else {
        1 + find_byte(s.drop_first(), b)
    }
}

/// The magnitude, in steps, that unsigned decimal text denotes: one to twelve
/// integer digits, then optionally a point and one to six fractional digits.
pub open spec fn magnitude_read(s: Seq<u8>) -> Option<nat> {
    let p = find_byte(s, 46u8);
    let int_part = s.subrange(0, p as int);
    let frac = if p < s.len() { s.subrange(p as int + 1, s.len() as int) } else { Seq::empty() };
    if 1 <= int_part.len() <= 12 && all_digits(int_part) && all_digits(frac) && frac.len() <= 6
        && (p < s.len() ==> frac.len() >= 1) {
        Some(digits_value(int_part) * pow10(6) + digits_value(frac) * pow10(
            (6 - frac.len()) as nat,
        ))
    } else {
        None
    }
}

/// The value that text denotes, if it is an optional minus sign followed by
/// unsigned decimal text.
pub open spec fn degree_read(s: Seq<u8>) -> Option<Degree> {
    if s.len() > 0 && s[0] == 45u8 {
        match magnitude_read(s.drop_first()) {
            Some(m) => Some(Degree { micros: (-(m as int)) as i64 }),
            None => None,
        }
    } else {
        match magnitude_read(s) {
            Some(m) => Some(Degree { micros: m as int as i64 }),
            None => None,
        }
    }
}


// ---- facts about the text ----

pub proof fn lemma_pow10_facts()
    ensures
        pow10(6) == 1_000_000,
        pow10(12) == 1_000_000_000_000,
{
    reveal_with_fuel(pow10, 13);
}

pub proof fn lemma_pow10_positive(k: nat)
    ensures
        pow10(k) >= 1,
    decreases k,
{
    if k > 0 {
        lemma_pow10_positive((k - 1) as nat);
    }
}

pub proof fn lemma_pow10_add(a: nat, b: nat)
    ensures
        pow10(a) * pow10(b) == pow10(a + b),
    decreases a,
{
    if a > 0 {
        let a1 = (a - 1) as nat;
        lemma_pow10_add(a1, b);
        assert(pow10(a + b) == 10 * pow10(a1 + b));
        let x = pow10(a1);
        let y = pow10(b);
        let z = pow10(a);
        assert(z == 10 * x);
        assert(z * y == pow10(a + b)) by (nonlinear_arith)
            requires
                z == 10 * x,
                x * y == pow10(a1 + b),
                pow10(a + b) == 10 * pow10(a1 + b),
        ;
    } else {
        assert(pow10(0) == 1);
        let y = pow10(b);
        assert(pow10(a) * y == y) by (nonlinear_arith)
            requires
                pow10(a) == 1,
        ;
    }
}

/// Digits denote a number below ten to the power of their count.
pub proof fn lemma_digits_bound(s: Seq<u8>)
    requires
        all_digits(s),
    ensures
        digits_value(s) < pow10(s.len()),
    decreases s.len(),
{
    if s.len() > 0 {
        let p = s.drop_last();
        assert(all_digits(p)) by {
            assert forall|i: int| 0 <= i < p.len() implies is_digit(#[trigger] p[i]) by {
                assert(p[i] == s[i]);
            }
        }
        lemma_digits_bound(p);
        assert(is_digit(s[s.len() - 1]));
        let v = digits_value(p);
        let q = pow10(p.len());
        assert(v * 10 + 9 < 10 * q) by (nonlinear_arith)
            requires
                v < q,
        ;
    }
}

/// Appending one digit shifts the value by one place.
pub proof fn lemma_digits_push(s: Seq<u8>, b: u8)
    ensures
        digits_value(s.push(b)) == digits_value(s) * 10 + (b - 48) as nat,
{
    assert(s.push(b).drop_last() =~= s);
}

pub proof fn lemma_find_byte(s: Seq<u8>, b: u8)
    ensures
        find_byte(s, b) <= s.len(),
        forall|j: int| 0 <= j < find_byte(s, b) ==> s[j] != b,
        find_byte(s, b) < s.len() ==> s[find_byte(s, b) as int] == b,
    decreases s.len(),
{
    if s.len() > 0 && s[0] != b {
        lemma_find_byte(s.drop_first(), b);
        assert forall|j: int| 0 <= j < find_byte(s, b) implies s[j] != b by {
            if j > 0 {
                assert(s[j] == s.drop_first()[j - 1]);
            }
        }
    }
}

pub proof fn lemma_dec_bytes(n: nat)
    ensures
        dec_bytes(n).len() >= 1,
        all_digits(dec_bytes(n)),
        digits_value(dec_bytes(n)) == n,
    decreases n,
{
    let s = dec_bytes(n);
    lemma_fundamental_div_mod(n as int, 10);
    assert(s.last() == digit_byte(n % 10));
    assert(s.last() - 48 == n % 10);
    if n < 10 {
        assert(s.drop_last() =~= Seq::<u8>::empty());
        assert(digits_value(Seq::<u8>::empty()) == 0);
    } else {
        lemma_dec_bytes(n / 10);
        assert(s.drop_last() =~= dec_bytes(n / 10));
        assert(digits_value(s) == digits_value(dec_bytes(n / 10)) * 10 + n % 10);
        assert forall|i: int| 0 <= i < s.len() implies is_digit(#[trigger] s[i]) by {
            if i < s.len() - 1 {
                assert(s[i] == dec_bytes(n / 10)[i]);
            }
        }
    }
}

pub proof fn lemma_dec_bytes_len(n: nat, k: nat)
    requires
        k >= 1,
        n < pow10(k),
    ensures
        dec_bytes(n).len() <= k,
    decreases n,
{
    if n >= 10 {
        if k == 1 {
            reveal_with_fuel(pow10, 2);
        } else {
            assert(n / 10 < pow10((k - 1) as nat)) by {
                assert(pow10(k) == 10 * pow10((k - 1) as nat));
            }
            lemma_dec_bytes_len(n / 10, (k - 1) as nat);
        }
    }
}

pub proof fn lemma_frac_bytes(f: nat, k: nat)
    ensures
        frac_bytes(f, k).len() == k,
        all_digits(frac_bytes(f, k)),
        digits_value(frac_bytes(f, k)) == f % pow10(k),
    decreases k,
{
    if k > 0 {
        let s = frac_bytes(f, k);
        let p = pow10((k - 1) as nat);
        lemma_frac_bytes(f / 10, (k - 1) as nat);
        assert(s.drop_last() =~= frac_bytes(f / 10, (k - 1) as nat));
        assert forall|i: int| 0 <= i < s.len() implies is_digit(#[trigger] s[i]) by {
            if i < s.len() - 1 {
                assert(s[i] == frac_bytes(f / 10, (k - 1) as nat)[i]);
            }
        }
        lemma_pow10_positive((k - 1) as nat);
        lemma_breakdown(f as int, 10, p as int);
    }
}

pub proof fn lemma_frac_trimmed(f: nat, k: nat)
    ensures
        frac_trimmed(f, k).len() <= k,
        all_digits(frac_trimmed(f, k)),
        digits_value(frac_trimmed(f, k)) * pow10((k - frac_trimmed(f, k).len()) as nat) == f
            % pow10(k),
    decreases k,
{
    if k > 0 {
        if f % 10 == 0 {
            let t = frac_trimmed(f / 10, (k - 1) as nat);
            lemma_frac_trimmed(f / 10, (k - 1) as nat);
            let p = pow10((k - 1) as nat);
            lemma_pow10_positive((k - 1) as nat);
            lemma_breakdown(f as int, 10, p as int);
            let v = digits_value(t);
            let q = pow10((k - 1 - t.len()) as nat);
            assert(frac_trimmed(f, k) == t);
            assert(pow10((k - t.len()) as nat) == 10 * q);
            assert(pow10(k) == 10 * p);
            assert(f % pow10(k) == 10 * ((f / 10) % p) + f % 10);
            assert(v * q == (f / 10) % p);
            let w = pow10((k - t.len()) as nat);
            assert(v * w == f % pow10(k)) by (nonlinear_arith)
                requires
                    w == 10 * q,
                    v * q == (f / 10) % p,
                    f % pow10(k) == 10 * ((f / 10) % p) + f % 10,
                    f % 10 == 0,
            ;
        } else {
            lemma_frac_bytes(f, k);
            assert(frac_trimmed(f, k) == frac_bytes(f, k));
            assert(pow10(0) == 1);
            let v = digits_value(frac_bytes(f, k));
            assert(v * pow10(0) == v) by (nonlinear_arith)
                requires
                    pow10(0) == 1,
            ;
        }
    } else {
        assert(pow10(0) == 1);
        assert(digits_value(Seq::<u8>::empty()) == 0);
        assert(frac_trimmed(f, k) =~= Seq::<u8>::empty());
        assert(f % 1 == 0);
        assert(0 * pow10(0) == 0);
    }
}

proof fn lemma_unsigned_round_trip(m: nat)
    requires
        m < LIMIT,
    ensures
        magnitude_read(unsigned_text(m)) == Some(m),
        unsigned_text(m).len() > 0,
        is_digit(unsigned_text(m)[0]),
{
    lemma_pow10_facts();
    let n = m / pow10(6);
    let f = m % pow10(6);
    lemma_fundamental_div_mod(m as int, 1_000_000);
    lemma_dec_bytes(n);
    lemma_dec_bytes_len(n, 12);
    lemma_frac_trimmed(f, 6);
    let dd = dec_bytes(n);
    let t = frac_trimmed(f, 6);
    let tail: Seq<u8> = if t.len() == 0 { Seq::empty() } else { seq![46u8] + t };
    let body = dd + tail;
    assert(body == unsigned_text(m));
    lemma_find_byte(body, 46u8);
    assert(find_byte(body, 46u8) == dd.len()) by {
        if find_byte(body, 46u8) < dd.len() {
            assert(body[find_byte(body, 46u8) as int] == dd[find_byte(body, 46u8) as int]);
        }
        if t.len() > 0 {
            assert(body[dd.len() as int] == 46u8);
        }
    }
    assert(body.subrange(0, dd.len() as int) =~= dd);
    if t.len() > 0 {
        assert(body.subrange(dd.len() as int + 1, body.len() as int) =~= t);
    } else {
        assert(digits_value(Seq::<u8>::empty()) == 0);
    }
    assert(f % pow10(6) == f);
    assert(body[0] == dd[0]);
}

/// The text of a value holds no comma and no line break.
pub proof fn lemma_degree_text_bytes(d: Degree)
    requires
        d.wf(),
    ensures
        degree_text(d).len() > 0,
        forall|i: int|
            0 <= i < degree_text(d).len() ==> #[trigger] degree_text(d)[i] != 44u8
                && degree_text(d)[i] != 10u8 && degree_text(d)[i] != 13u8,
{
    let m = abs(d.micros as int);
    lemma_pow10_facts();
    lemma_dec_bytes(m / pow10(6));
    lemma_frac_trimmed(m % pow10(6), 6);
    let dd = dec_bytes(m / pow10(6));
    let t = frac_trimmed(m % pow10(6), 6);
    let tail: Seq<u8> = if t.len() == 0 { Seq::empty() } else { seq![46u8] + t };
    let sign: Seq<u8> = if d.micros < 0 { seq![45u8] } else { Seq::empty() };
    let s = degree_text(d);
    assert(s =~= sign + (dd + tail));
    assert forall|i: int| 0 <= i < s.len() implies #[trigger] s[i] != 44u8 && s[i] != 10u8 && s[i]
        != 13u8 by {
        let k = i - sign.len();
        if k >= 0 {
            if k < dd.len() {
                assert(s[i] == dd[k]);
            } else if k > dd.len() {
                assert(s[i] == t[k - dd.len() - 1]);
            }
        }
    }
}

/// Reading the text of a value gives the value back.
pub proof fn lemma_degree_round_trip(d: Degree)
    requires
        d.wf(),
    ensures
        degree_read(degree_text(d)) == Some(d),
{
    let m = abs(d.micros as int);
    lemma_unsigned_round_trip(m);
    let body = unsigned_text(m);
    let sign: Seq<u8> = if d.micros < 0 { seq![45u8] } else { Seq::empty() };
    assert(degree_text(d) =~= sign + body);
    if d.micros < 0 {
        assert((sign + body).drop_first() =~= body);
    } else {
        assert(sign + body =~= body);
    }
}

/// Every value that text denotes is within range.
pub proof fn lemma_degree_read_wf(s: Seq<u8>)
    ensures
        degree_read(s) matches Some(d) ==> d.wf(),
{
    let body = if s.len() > 0 && s[0] == 45u8 { s.drop_first() } else { s };
    lemma_magnitude_bound(body);
}

proof fn lemma_magnitude_bound(s: Seq<u8>)
    ensures
        magnitude_read(s) matches Some(m) ==> m < LIMIT,
{
    if let Some(m) = magnitude_read(s) {
        lemma_pow10_facts();
        let p = find_byte(s, 46u8);
        let ip = s.subrange(0, p as int);
        let frac = if p < s.len() { s.subrange(p as int + 1, s.len() as int) } else { Seq::empty() };
        lemma_digits_bound(ip);
        lemma_digits_bound(frac);
        lemma_pow10_add(ip.len(), (12 - ip.len()) as nat);
        lemma_pow10_positive((12 - ip.len()) as nat);
        lemma_pow10_add(frac.len(), (6 - frac.len()) as nat);
        lemma_pow10_positive((6 - frac.len()) as nat);
        lemma_pow10_positive(ip.len());
        let a = digits_value(ip) as int;
        let pa = pow10(ip.len()) as int;
        let ra = pow10((12 - ip.len()) as nat) as int;
        let f = digits_value(frac) as int;
        let pf = pow10(frac.len()) as int;
        let sc = pow10((6 - frac.len()) as nat) as int;
        assert(a * 1_000_000 + f * sc < 1_000_000_000_000_000_000) by (nonlinear_arith)
            requires
                a < pa,
                pa * ra == 1_000_000_000_000,
                ra >= 1,
                f < pf,
                pf * sc == 1_000_000,
                sc >= 1,
        ;
    }
}

// ---- executable text ----

fn push_dec(n: u64, out: &mut Vec<u8>)
    ensures
        final(out)@ == old(out)@ + dec_bytes(n as nat),
    decreases n,
{
    let ghost start = out@;
    if n >= 10 {
        push_dec(n / 10, out);
    }
    out.push((48 + n % 10) as u8);
    assert(out@ =~= start + dec_bytes(n as nat));
}

fn push_frac(f: u64, k: u64, out: &mut Vec<u8>)
    ensures
        final(out)@ == old(out)@ + frac_bytes(f as nat, k as nat),
    decreases k,
{
    let ghost start = out@;
    if k > 0 {
        push_frac(f / 10, k - 1, out);
        out.push((48 + f % 10) as u8);
    }
    assert(out@ =~= start + frac_bytes(f as nat, k as nat));
}

fn push_frac_trimmed(f: u64, k: u64, out: &mut Vec<u8>)
    ensures
        final(out)@ == old(out)@ + frac_trimmed(f as nat, k as nat),
    decreases k,
{
    if k > 0 {
        if f % 10 == 0 {
            push_frac_trimmed(f / 10, k - 1, out);
        } else {
            push_frac(f, k, out);
        }
    } else {
        assert(out@ =~= old(out)@ + frac_trimmed(f as nat, k as nat));
    }
}

/// Appends the text of `d` to `out`.
pub fn write_degree(d: Degree, out: &mut Vec<u8>)
    requires
        d.wf(),
    ensures
        final(out)@ == old(out)@ + degree_text(d),
{
    proof {
        lemma_pow10_facts();
    }
    let ghost start = out@;
    let m: u64 = if d.micros < 0 {
        out.push(45u8);
        (-d.micros) as u64
    } else {
        d.micros as u64
    };
    let ghost after_sign = out@;
    push_dec(m / 1_000_000, out);
    let mut frac: Vec<u8> = Vec::new();
    push_frac_trimmed(m % 1_000_000, 6, &mut frac);
    if frac.len() > 0 {
        out.push(46u8);
        out.append(&mut frac);
    }
    proof {
        let sign: Seq<u8> = if d.micros < 0 { seq![45u8] } else { Seq::empty() };
        assert(after_sign =~= start + sign);
        assert(out@ =~= start + degree_text(d));
    }
}

fn pow10_exec(k: usize) -> (r: u64)
    requires
        k <= 6,
    ensures
        r == pow10(k as nat),
{
    proof {
        reveal_with_fuel(pow10, 7);
    }
    match k {
        0 => 1,
        1 => 10,
        2 => 100,
        3 => 1000,
        4 => 10000,
        5 => 100000,
        _ => 1000000,
    }
}

fn parse_magnitude(s: &Vec<u8>, start: usize) -> (r: Option<u64>)
    requires
        start <= s.len(),
    ensures
        match r {
            Some(v) => magnitude_read(s@.subrange(start as int, s.len() as int)) == Some(v as nat)
                && v < LIMIT,
            None => magnitude_read(s@.subrange(start as int, s.len() as int)) is None,
        },
{
    let ghost body = s@.subrange(start as int, s.len() as int);
    proof {
        lemma_find_byte(body, 46u8);
        lemma_pow10_facts();
    }
    let n = s.len();
    let mut i = start;
    let mut int_val: u64 = 0;
    while i < n && s[i] != 46u8
        invariant
            start <= i <= n,
            n == s.len(),
            i - start <= 12,
            body == s@.subrange(start as int, n as int),
            forall|j: int| start <= j < i ==> s@[j] != 46u8 && is_digit(#[trigger] s@[j]),
            int_val == digits_value(s@.subrange(start as int, i as int)),
            int_val < pow10((i - start) as nat),
            find_byte(body, 46u8) <= body.len(),
            forall|j: int| 0 <= j < find_byte(body, 46u8) ==> body[j] != 46u8,
            find_byte(body, 46u8) < body.len() ==> body[find_byte(body, 46u8) as int] == 46u8,
        decreases n - i,
    {
        let b = s[i];
        if b < 48 || b > 57 || i - start >= 12 {
            proof {
                let p = find_byte(body, 46u8);
                if p <= i - start {
                    if p < i - start {
                        assert(body[p as int] == s@[start + p]);
                    } else {
                        assert(body[p as int] == s@[i as int]);
                    }
                }
                let ip = body.subrange(0, p as int);
                if ip.len() <= 12 {
                    assert(ip[i - start] == b);
                }
            }
            return None;
        }
        proof {
            assert(s@.subrange(start as int, i as int + 1) =~= s@.subrange(
                start as int,
                i as int,
            ).push(b));
            lemma_digits_push(s@.subrange(start as int, i as int), b);
            let v = int_val as int;
            let q = pow10((i - start) as nat) as int;
            assert(v * 10 + 9 < 10 * q) by (nonlinear_arith)
                requires
                    v < q,
            ;
            assert(pow10((i + 1 - start) as nat) == 10 * q);
            reveal_with_fuel(pow10, 13);
        }
        int_val = int_val * 10 + (b - 48) as u64;
        i = i + 1;
    }
    let ghost p = (i - start) as nat;
    proof {
        assert(find_byte(body, 46u8) == p) by {
            if find_byte(body, 46u8) < p {
                assert(body[find_byte(body, 46u8) as int] == s@[start + find_byte(body, 46u8)]);
            }
            if i < n {
                assert(body[p as int] == s@[i as int]);
            }
        }
        assert(body.subrange(0, p as int) =~= s@.subrange(start as int, i as int));
    }
    if i == start {
        return None;
    }
    let mut frac_val: u64 = 0;
    let mut k: usize = 0;
    if i < n {
        let dot = i;
        i = i + 1;
        while i < n
            invariant
                dot < i <= n,
                body == s@.subrange(start as int, n as int),
                dot == start + p,
                p < body.len(),
                find_byte(body, 46u8) == p,
                1 <= p <= 12,
                all_digits(body.subrange(0, p as int)),
                n == s.len(),
                k == i - dot - 1,
                k <= 6,
                forall|j: int| dot < j < i ==> is_digit(#[trigger] s@[j]),
                frac_val == digits_value(s@.subrange(dot as int + 1, i as int)),
                frac_val < pow10(k as nat),
            decreases n - i,
        {
            let b = s[i];
            if b < 48 || b > 57 || k >= 6 {
                proof {
                    let fr = body.subrange(p as int + 1, body.len() as int);
                    assert(fr.len() > k);
                    assert(fr[k as int] == s@[i as int]);
                    if k < 6 {
                        assert(!is_digit(fr[k as int]));
                        assert(!all_digits(fr));
                    }
                }
                return None;
            }
            proof {
                assert(s@.subrange(dot as int + 1, i as int + 1) =~= s@.subrange(
                    dot as int + 1,
                    i as int,
                ).push(b));
                lemma_digits_push(s@.subrange(dot as int + 1, i as int), b);
                let v = frac_val as int;
                let q = pow10(k as nat) as int;
                assert(v * 10 + 9 < 10 * q) by (nonlinear_arith)
                    requires
                        v < q,
                ;
                assert(pow10((k + 1) as nat) == 10 * q);
                reveal_with_fuel(pow10, 7);
            }
            frac_val = frac_val * 10 + (b - 48) as u64;
            k = k + 1;
            i = i + 1;
        }
        proof {
            assert(body.subrange(p as int + 1, body.len() as int) =~= s@.subrange(
                dot as int + 1,
                n as int,
            ));
        }
        if k == 0 {
            return None;
        }
    } else {
        proof {
            assert(p == body.len());
        }
    }
    let scale = pow10_exec(6 - k);
    proof {
        lemma_pow10_add(k as nat, (6 - k) as nat);
        lemma_pow10_add(p, (12 - p) as nat);
        lemma_pow10_positive((12 - p) as nat);
        let pp = pow10(p) as int;
        let rest = pow10((12 - p) as nat) as int;
        assert(pp <= 1_000_000_000_000) by (nonlinear_arith)
            requires
                pp * rest == 1_000_000_000_000,
                rest >= 1,
                pp >= 1,
        ;
        lemma_pow10_positive(p);
        lemma_pow10_positive((6 - k) as nat);
        let a = int_val as int;
        let fv = frac_val as int;
        let q = pow10(k as nat) as int;
        let sc = scale as int;
        assert(a * 1_000_000 <= 999_999_999_999 * 1_000_000) by (nonlinear_arith)
            requires
                a < 1_000_000_000_000,
        ;
        assert(fv * sc < 1_000_000) by (nonlinear_arith)
            requires
                fv < q,
                q * sc == 1_000_000,
                sc >= 1,
        ;
        lemma_pow10_positive((6 - k) as nat);
    }
    let total = int_val * 1_000_000 + frac_val * scale;
    Some(total)
}

/// Reads the text of a value.
pub fn parse_degree(s: &Vec<u8>) -> (r: Option<Degree>)
    ensures
        r == degree_read(s@),
        r matches Some(d) ==> d.wf(),
{
    if s.len() > 0 && s[0] == 45u8 {
        proof {
            assert(s@.subrange(1, s@.len() as int) =~= s@.drop_first());
        }
        match parse_magnitude(s, 1) {
            Some(v) => Some(Degree { micros: -(v as i64) }),
            None => None,
        }
    } else {
        proof {
            assert(s@.subrange(0, s@.len() as int) =~= s@);
        }
        match parse_magnitude(s, 0) {
            Some(v) => Some(Degree { micros: v as i64 }),
            None => None,
        }
    }
}

} // verus!
