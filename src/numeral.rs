use vstd::prelude::*;

verus! {

/// The ASCII code of `'-'`.
pub const MINUS: u8 = 45;

/// The ASCII code of `'.'`.
pub const DOT: u8 = 46;

/// A fixed-point number: `units` divided by ten to the power `scale`. The
/// scale is part of the value, so `20` and `20.0` are told apart.
#[derive(Clone, Copy, Debug, PartialEq, Eq, Structural)]
pub struct Decimal {
    pub units: i64,
    pub scale: u8,
}

/// True when `b` is an ASCII decimal digit.
pub open spec fn is_digit(b: u8) -> bool {
    48 <= b <= 57
}

/// True when every byte of `s` is an ASCII decimal digit.
pub open spec fn all_digits(s: Seq<u8>) -> bool {
    forall|i: int| 0 <= i < s.len() ==> is_digit(#[trigger] s[i])
}

/// The decimal digits of `n`, most significant first, without leading zeros.
pub open spec fn digits_of(n: nat) -> Seq<u8>
    decreases n,
{
    if n < 10 {
        seq![(n + 48) as u8]
    } else {
        digits_of(n / 10).push(((n % 10) + 48) as u8)
    }
}

/// The number that the digit string `s` denotes.
pub open spec fn digits_value(s: Seq<u8>) -> nat
    decreases s.len(),
{
    if s.len() == 0 {
        0
    } else {
        digits_value(s.drop_last()) * 10 + (s.last() - 48) as nat
    }
}

pub proof fn lemma_digits_of(n: nat)
    ensures
        digits_of(n).len() > 0,
        all_digits(digits_of(n)),
        digits_value(digits_of(n)) == n,
    decreases n,
{
    if n >= 10 {
        lemma_digits_of(n / 10);
        let d = digits_of(n);
        assert(d.drop_last() =~= digits_of(n / 10));
        assert forall|i: int| 0 <= i < d.len() implies is_digit(#[trigger] d[i]) by {
            if i < d.len() - 1 {
                assert(d[i] == digits_of(n / 10)[i]);
            }
        }
        assert(digits_value(d) == (n / 10) * 10 + n % 10);
        assert((n / 10) * 10 + n % 10 == n) by (nonlinear_arith);
    } else {
        assert(digits_of(n).drop_last() =~= Seq::<u8>::empty());
        assert(digits_value(digits_of(n).drop_last()) == 0);
        assert(digits_of(n).last() == n + 48);
        assert(digits_value(digits_of(n)) == n);
    }
}

/// A prefix of a digit string never denotes more than the whole string.
pub proof fn lemma_prefix_value(s: Seq<u8>, k: int)
    requires
        0 <= k <= s.len(),
    ensures
        digits_value(s.take(k)) <= digits_value(s),
    decreases s.len(),
{
    if k == s.len() {
        assert(s.take(k) =~= s);
    } else {
        lemma_prefix_value(s.drop_last(), k);
        assert(s.drop_last().take(k) =~= s.take(k));
    }
}

pub fn push_digits(out: &mut Vec<u8>, n: u64)
    ensures
        final(out)@ == old(out)@ + digits_of(n as nat),
    decreases n,
{
    if n >= 10 {
        push_digits(out, n / 10);
    }
    out.push(((n % 10) as u8) + 48);
    assert(final(out)@ =~= old(out)@ + digits_of(n as nat));
}


/// `n` zero digits.
pub open spec fn zeros(n: nat) -> Seq<u8> {
    Seq::new(n, |i: int| 48u8)
}

/// The digits of `mag`, with zeros in front up to at least `scale + 1` digits.
pub open spec fn padded_digits(mag: nat, scale: nat) -> Seq<u8> {
    let d = digits_of(mag);
    if d.len() <= scale {
        zeros((scale + 1 - d.len()) as nat) + d
    } else {
        d
    }
}

/// The text of `mag / 10^scale`: its digits, with a dot before the last
/// `scale` of them when `scale` is not zero.
pub open spec fn unsigned_text(mag: nat, scale: nat) -> Seq<u8> {
    let p = padded_digits(mag, scale);
    let k = p.len() - scale;
    if scale == 0 {
        p
    } else {
        p.take(k) + seq![DOT] + p.skip(k)
    }
}

/// The text of a decimal, such as `20`, `-0.5` or `21.50`.
pub open spec fn decimal_text(v: Decimal) -> Seq<u8> {
    if v.units < 0 {
        seq![MINUS] + unsigned_text((-v.units) as nat, v.scale as nat)
    } else {
        unsigned_text(v.units as nat, v.scale as nat)
    }
}

/// `r` is digits, a dot at `p`, then digits, with at least one digit on
/// each side.
pub open spec fn dot_at(r: Seq<u8>, p: int) -> bool {
    &&& 0 < p < r.len() - 1
    &&& r[p] == DOT
    &&& all_digits(r.take(p))
    &&& all_digits(r.skip(p + 1))
}

/// The magnitude and scale written by unsigned text: digits, or digits, a dot
/// and digits.
pub open spec fn unsigned_of_text(r: Seq<u8>) -> Option<(nat, nat)> {
    if r.len() > 0 && all_digits(r) {
        Some((digits_value(r), 0))
    } else if exists|p: int| dot_at(r, p) {
        let p = choose|p: int| dot_at(r, p);
        Some((digits_value(r.take(p) + r.skip(p + 1)), (r.len() - p - 1) as nat))
    } else {
        None
    }
}

/// The decimal that `t` writes: an optional minus sign, then digits with at
/// most one dot between digits; its units must fit `i64` and its scale `u8`.
pub open spec fn decimal_of_text(t: Seq<u8>) -> Option<Decimal> {
    let neg = t.len() > 0 && t[0] == MINUS;
    let r = if neg { t.drop_first() } else { t };
    match unsigned_of_text(r) {
        None => None,
        Some((mag, scale)) => {
            let v: int = if neg { -(mag as int) } else { mag as int };
            if -0x8000_0000_0000_0000 <= v < 0x8000_0000_0000_0000 && scale <= 255 {
                Some(Decimal { units: v as i64, scale: scale as u8 })
            } else {
                None
            }
        },
    }
}

proof fn lemma_dot_unique(r: Seq<u8>, p: int, q: int)
    requires
        dot_at(r, p),
        dot_at(r, q),
    ensures
        p == q,
{
    if p < q {
        assert(r.skip(p + 1)[q - p - 1] == r[q]);
    } else if q < p {
        assert(r.skip(q + 1)[p - q - 1] == r[p]);
    }
}

/// Zeros in front do not change what digits denote.
proof fn lemma_leading_zeros(n: nat, s: Seq<u8>)
    ensures
        digits_value(zeros(n) + s) == digits_value(s),
    decreases s.len(), n,
{
    if s.len() == 0 {
        assert(zeros(n) + s =~= zeros(n));
        if n > 0 {
            assert(zeros(n).drop_last() =~= zeros((n - 1) as nat));
            lemma_leading_zeros((n - 1) as nat, s);
            assert(zeros((n - 1) as nat) + s =~= zeros((n - 1) as nat));
        }
    } else {
        assert((zeros(n) + s).drop_last() =~= zeros(n) + s.drop_last());
        lemma_leading_zeros(n, s.drop_last());
    }
}

proof fn lemma_padded_digits(mag: nat, scale: nat)
    ensures
        padded_digits(mag, scale).len() >= scale + 1,
        all_digits(padded_digits(mag, scale)),
        digits_value(padded_digits(mag, scale)) == mag,
{
    lemma_digits_of(mag);
    let d = digits_of(mag);
    if d.len() <= scale {
        let z = zeros((scale + 1 - d.len()) as nat);
        lemma_leading_zeros((scale + 1 - d.len()) as nat, d);
        assert forall|i: int| 0 <= i < (z + d).len() implies is_digit(#[trigger] (z + d)[i]) by {
            if i >= z.len() {
                assert((z + d)[i] == d[i - z.len()]);
            }
        }
    }
}

/// Unsigned text holds only digits and dots, starts with a digit, and reads
/// back as the magnitude and scale it was made from.
proof fn lemma_unsigned_round_trip(mag: nat, scale: nat)
    ensures
        unsigned_of_text(unsigned_text(mag, scale)) == Some((mag, scale)),
        is_digit(unsigned_text(mag, scale)[0]),
        forall|i: int|
            0 <= i < unsigned_text(mag, scale).len() ==> is_digit(
                #[trigger] unsigned_text(mag, scale)[i],
            ) || unsigned_text(mag, scale)[i] == DOT,
{
    lemma_padded_digits(mag, scale);
    let p = padded_digits(mag, scale);
    let k = p.len() - scale;
    let r = unsigned_text(mag, scale);
    if scale > 0 {
        assert(r.take(k) =~= p.take(k));
        assert(r.skip(k + 1) =~= p.skip(k));
        assert(r.take(k) + r.skip(k + 1) =~= p);
        assert(r[k] == DOT);
        assert(!all_digits(r));
        assert(dot_at(r, k));
        let q = choose|q: int| dot_at(r, q);
        lemma_dot_unique(r, k, q);
        assert(r[0] == p[0]);
        assert forall|i: int| 0 <= i < r.len() implies is_digit(#[trigger] r[i]) || r[i] == DOT by {
            if i < k {
                assert(r[i] == p[i]);
            } else if i > k {
                assert(r[i] == p[i - 1]);
            }
        }
    }
}

/// Reading back the text of a decimal gives the decimal.
pub proof fn lemma_decimal_round_trip(v: Decimal)
    ensures
        decimal_of_text(decimal_text(v)) == Some(v),
{
    let t = decimal_text(v);
    if v.units < 0 {
        lemma_unsigned_round_trip((-v.units) as nat, v.scale as nat);
        assert(t.drop_first() =~= unsigned_text((-v.units) as nat, v.scale as nat));
    } else {
        lemma_unsigned_round_trip(v.units as nat, v.scale as nat);
    }
}

/// The text of a decimal holds neither of the given bytes, which are neither
/// digits, nor a dot, nor a minus sign.
pub proof fn lemma_decimal_text_avoids(v: Decimal, b: u8)
    requires
        !is_digit(b),
        b != DOT,
        b != MINUS,
    ensures
        !decimal_text(v).contains(b),
{
    let t = decimal_text(v);
    if v.units < 0 {
        let u = unsigned_text((-v.units) as nat, v.scale as nat);
        lemma_unsigned_round_trip((-v.units) as nat, v.scale as nat);
        assert forall|i: int| 0 <= i < t.len() implies t[i] != b by {
            if i > 0 {
                assert(t[i] == u[i - 1]);
            }
        }
    } else {
        lemma_unsigned_round_trip(v.units as nat, v.scale as nat);
        assert forall|i: int| 0 <= i < t.len() implies t[i] != b by {}
    }
}

/// The digits of `mag`, with zeros in front up to at least `scale + 1` digits.
fn padded(mag: u64, scale: u8) -> (p: Vec<u8>)
    ensures
        p@ == padded_digits(mag as nat, scale as nat),
        p@.len() >= scale + 1,
{
    let scale = scale as usize;
    let mut d: Vec<u8> = Vec::new();
    push_digits(&mut d, mag);
    assert(d@ =~= digits_of(mag as nat));
    let mut p: Vec<u8> = Vec::new();
    if d.len() <= scale {
        let pad = scale + 1 - d.len();
        let mut z: usize = 0;
        while z < pad
            invariant
                z <= pad,
                p@ =~= zeros(z as nat),
            decreases pad - z,
        {
            p.push(48);
            z = z + 1;
        }
    }
    let mut j: usize = 0;
    let ghost front = p@;
    while j < d.len()
        invariant
            j <= d.len(),
            p@ =~= front + d@.take(j as int),
        decreases d.len() - j,
    {
        p.push(d[j]);
        j = j + 1;
    }
    assert(d@.take(j as int) =~= d@);
    proof {
        lemma_padded_digits(mag as nat, scale as nat);
    }
    p
}

/// Appends the text of `mag / 10^scale` to `out`.
fn write_unsigned(out: &mut Vec<u8>, mag: u64, scale: u8)
    ensures
        final(out)@ == old(out)@ + unsigned_text(mag as nat, scale as nat),
{
    let p = padded(mag, scale);
    let scale = scale as usize;
    let k = p.len() - scale;
    let mut i: usize = 0;
    while i < p.len()
        invariant
            i <= p.len(),
            k == p.len() - scale,
            out@ == old(out)@ + (if scale > 0 && i > k {
                p@.take(k as int) + seq![DOT] + p@.subrange(k as int, i as int)
            } else {
                p@.take(i as int)
            }),
        decreases p.len() - i,
    {
        if scale > 0 && i == k {
            out.push(DOT);
        }
        out.push(p[i]);
        proof {
            if scale > 0 && i + 1 > k {
                assert(out@ =~= old(out)@ + (p@.take(k as int) + seq![DOT] + p@.subrange(
                    k as int,
                    i + 1,
                )));
            } else {
                assert(out@ =~= old(out)@ + p@.take(i + 1));
            }
        }
        i = i + 1;
    }
    proof {
        assert(p@.take(i as int) =~= p@);
        assert(p@.subrange(k as int, i as int) =~= p@.skip(k as int));
    }
}

/// Appends the text of `v` to `out`.
pub fn write_decimal(out: &mut Vec<u8>, v: Decimal)
    ensures
        final(out)@ == old(out)@ + decimal_text(v),
{
    if v.units < 0 {
        out.push(MINUS);
        write_unsigned(out, (0i128 - v.units as i128) as u64, v.scale);
    } else {
        write_unsigned(out, v.units as u64, v.scale);
    }
    assert(final(out)@ =~= old(out)@ + decimal_text(v));
}

/// The number that an all-digit string denotes, or `None` when it is over
/// 2^63.
fn digits_to_u64(ds: &[u8]) -> (r: Option<u64>)
    requires
        all_digits(ds@),
    ensures
        match r {
            Some(x) => x == digits_value(ds@) && x <= 0x8000_0000_0000_0000,
            None => digits_value(ds@) > 0x8000_0000_0000_0000,
        },
{
    let bound: u64 = 0x8000_0000_0000_0000;
    let mut acc: u64 = 0;
    let mut i: usize = 0;
    while i < ds.len()
        invariant
            i <= ds.len(),
            all_digits(ds@),
            acc == digits_value(ds@.take(i as int)),
            acc <= bound,
            bound == 0x8000_0000_0000_0000,
        decreases ds.len() - i,
    {
        let b = ds[i];
        assert(ds@.take(i + 1).drop_last() =~= ds@.take(i as int));
        assert(ds@.take(i + 1).last() == b);
        assert(is_digit(ds@[i as int]));
        let next: u128 = acc as u128 * 10 + (b - 48) as u128;
        assert(next == digits_value(ds@.take(i + 1)));
        if next > bound as u128 {
            proof {
                lemma_prefix_value(ds@, i + 1);
            }
            return None;
        }
        acc = next as u64;
        i = i + 1;
    }
    assert(ds@.take(i as int) =~= ds@);
    Some(acc)
}

/// The position of the first byte at or after `start` that is not a digit,
/// or the length of `t` when there is none.
fn digits_end(t: &[u8], start: usize) -> (p: usize)
    requires
        start <= t@.len(),
    ensures
        start <= p <= t@.len(),
        all_digits(t@.subrange(start as int, p as int)),
        p < t@.len() ==> !is_digit(t@[p as int]),
{
    let mut p: usize = start;
    while p < t.len() && t[p] >= 48 && t[p] <= 57
        invariant
            start <= p <= t@.len(),
            all_digits(t@.subrange(start as int, p as int)),
        decreases t@.len() - p,
    {
        assert(t@.subrange(start as int, p + 1) =~= t@.subrange(start as int, p as int).push(
            t@[p as int],
        ));
        p = p + 1;
    }
    p
}

/// A copy of the bytes of `t` from `a` up to `b`.
fn copy_range(t: &[u8], a: usize, b: usize) -> (r: Vec<u8>)
    requires
        a <= b <= t@.len(),
    ensures
        r@ == t@.subrange(a as int, b as int),
{
    let mut r: Vec<u8> = Vec::new();
    let mut j: usize = a;
    while j < b
        invariant
            a <= j <= b,
            b <= t@.len(),
            r@ =~= t@.subrange(a as int, j as int),
        decreases b - j,
    {
        r.push(t[j]);
        j = j + 1;
    }
    r
}

/// The magnitude and scale of unsigned text, as [`unsigned_of_text`] reads
/// them; `None` also when the magnitude is over 2^63 or the scale over 255.
fn parse_unsigned(t: &[u8], start: usize) -> (r: Option<(u64, u8)>)
    requires
        start <= t@.len(),
    ensures
        ({
            let u = unsigned_of_text(t@.subrange(start as int, t@.len() as int));
            match r {
                Some((mag, scale)) => u == Some((mag as nat, scale as nat)) && mag
                    <= 0x8000_0000_0000_0000,
                None => u.is_none() || u.unwrap().0 > 0x8000_0000_0000_0000 || u.unwrap().1
                    > 255,
            }
        }),
{
    let n = t.len();
    let ghost r = t@.subrange(start as int, n as int);
    let p = digits_end(t, start);
    let ghost pr = (p - start) as int;
    assert(r.take(pr) =~= t@.subrange(start as int, p as int));
    if p == n {
        assert(r =~= r.take(pr));
        if p == start {
            return None;
        }
        let ds = copy_range(t, start, n);
        return match digits_to_u64(ds.as_slice()) {
            None => None,
            Some(mag) => Some((mag, 0u8)),
        };
    }
    assert(r[pr] == t@[p as int]);
    assert(!all_digits(r));
    let q = digits_end(t, p + 1);
    if t[p] != DOT || p == start || p + 1 == n || q != n {
        proof {
            assert forall|x: int| !dot_at(r, x) by {
                if dot_at(r, x) {
                    if x < pr {
                        assert(r[x] == r.take(pr)[x]);
                    } else if x > pr {
                        assert(r[pr] == r.take(x)[pr]);
                    } else {
                        assert(r.skip(x + 1)[q - p - 1] == t@[q as int]);
                    }
                }
            }
        }
        return None;
    }
    assert(r.skip(pr + 1) =~= t@.subrange(p + 1, n as int));
    assert(dot_at(r, pr));
    proof {
        let x = choose|x: int| dot_at(r, x);
        lemma_dot_unique(r, pr, x);
    }
    if n - p - 1 > 255 {
        return None;
    }
    let mut ds = copy_range(t, start, p);
    let mut rest = copy_range(t, p + 1, n);
    ds.append(&mut rest);
    assert(ds@ =~= r.take(pr) + r.skip(pr + 1));
    match digits_to_u64(ds.as_slice()) {
        None => None,
        Some(mag) => Some((mag, (n - p - 1) as u8)),
    }
}

/// Reads a decimal written as [`decimal_text`] writes it; leading zeros and a
/// negative zero are accepted too.
pub fn parse_decimal(t: &[u8]) -> (r: Option<Decimal>)
    ensures
        r == decimal_of_text(t@),
{
    let neg = t.len() > 0 && t[0] == MINUS;
    let start: usize = if neg { 1 } else { 0 };
    assert(t@.subrange(start as int, t@.len() as int) =~= (if neg {
        t@.drop_first()
    } else {
        t@
    }));
    match parse_unsigned(t, start) {
        None => None,
        Some((mag, scale)) => {
            if neg {
                Some(Decimal { units: (0i128 - mag as i128) as i64, scale })
            } else if mag == 0x8000_0000_0000_0000 {
                None
            } else {
                Some(Decimal { units: mag as i64, scale })
            }
        },
    }
}

} // verus!
