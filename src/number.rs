//! Number text compared by decimal value.
use vstd::prelude::*;

verus! {

pub open spec fn is_digit(c: char) -> bool {
    '0' <= c <= '9'
}

pub open spec fn all_digits(s: Seq<char>) -> bool {
    forall|i: int| 0 <= i < s.len() ==> is_digit(#[trigger] s[i])
}

/// `s` without its leading zeros.
pub open spec fn strip_leading_zeros(s: Seq<char>) -> Seq<char>
    decreases s.len(),
{
    if s.len() > 0 && s[0] == '0' {
        strip_leading_zeros(s.drop_first())
    } else {
        s
    }
}

/// `s` without its trailing zeros.
pub open spec fn strip_trailing_zeros(s: Seq<char>) -> Seq<char>
    decreases s.len(),
{
    if s.len() > 0 && s.last() == '0' {
        strip_trailing_zeros(s.drop_last())
    } else {
        s
    }
}

/// Position of the first `.` of `s`, or its length when it has none.
pub open spec fn dot_pos(s: Seq<char>) -> int
    decreases s.len(),
{
    if s.len() == 0 {
        0
    } else if s[0] == '.' {
        0
    } else {
        1 + dot_pos(s.drop_first())
    }
}

/// Position of the first `e` or `E` of `s`, or its length when it has none.
pub open spec fn exp_pos(s: Seq<char>) -> int
    decreases s.len(),
{
    if s.len() == 0 {
        0
    } else if s[0] == 'e' || s[0] == 'E' {
        0
    } else {
        1 + exp_pos(s.drop_first())
    }
}

/// The value of a string of decimal digits.
pub open spec fn digits_value(s: Seq<char>) -> int
    decreases s.len(),
{
    if s.len() == 0 {
        0
    } else {
        digits_value(s.drop_last()) * 10 + (s.last() as int - '0' as int)
    }
}

/// What a number text is compared by.
pub enum NumKey {
    /// A decimal `(-1)^negative * digits * 10^exponent`, with `digits` free of
    /// leading and trailing zeros; zero has no digits and is never negative.
    Decimal(bool, Seq<char>, int),
    /// Text that is not a number is compared as it is.
    Text(Seq<char>),
}

/// The exponent part of a number (what follows `e`): an optional sign and
/// one to nine digits; its value.
pub open spec fn exponent_of(t: Seq<char>) -> Option<int> {
    let neg = t.len() > 0 && t[0] == '-';
    let ds = if t.len() > 0 && (t[0] == '-' || t[0] == '+') { t.drop_first() } else { t };
    if all_digits(ds) && 0 < ds.len() <= 9 {
        Some(if neg { -digits_value(ds) } else { digits_value(ds) })
    } else {
        None
    }
}

/// The decimal a number text denotes. A number is `[+|-]digits[.digits]`
/// with at least one digit, optionally followed by `e` or `E` and an
/// exponent (see `exponent_of`); two such texts have the same key exactly
/// when they denote the same decimal. Other text is its own key.
pub open spec fn num_key(s: Seq<char>) -> NumKey {
    let neg = s.len() > 0 && s[0] == '-';
    let body = if s.len() > 0 && (s[0] == '-' || s[0] == '+') { s.drop_first() } else { s };
    let ep = exp_pos(body);
    let mant = body.subrange(0, ep);
    let ex = if ep < body.len() { exponent_of(body.subrange(ep + 1, body.len() as int)) } else { Some(0int) };
    let d = dot_pos(mant);
    let ip = mant.subrange(0, d);
    let fp = if d < mant.len() { mant.subrange(d + 1, mant.len() as int) } else { Seq::<char>::empty() };
    if all_digits(ip) && all_digits(fp) && ip.len() + fp.len() > 0 && ex is Some {
        let d1 = strip_leading_zeros(ip + fp);
        let d2 = strip_trailing_zeros(d1);
        if d2.len() == 0 {
            NumKey::Decimal(false, Seq::empty(), 0)
        } else {
            NumKey::Decimal(neg, d2, ex->0 - fp.len() + (d1.len() - d2.len()))
        }
    } else {
        NumKey::Text(s)
    }
}

fn chars_of(s: &str) -> (r: Vec<char>)
    ensures
        r@ == s@,
{
    let n = s.unicode_len();
    let mut r: Vec<char> = Vec::new();
    let mut i: usize = 0;
    while i < n
        invariant
            n == s@.len(),
            i <= n,
            r@ == s@.subrange(0, i as int),
        decreases n - i,
    {
        r.push(s.get_char(i));
        i = i + 1;
        assert(r@ =~= s@.subrange(0, i as int));
    }
    assert(s@.subrange(0, n as int) =~= s@);
    r
}

fn push_range(out: &mut Vec<char>, v: &Vec<char>, from: usize, to: usize)
    requires
        from <= to <= v.len(),
    ensures
        final(out)@ == old(out)@ + v@.subrange(from as int, to as int),
{
    let ghost start = out@;
    let mut i: usize = from;
    while i < to
        invariant
            from <= i <= to,
            to <= v.len(),
            out@ == start + v@.subrange(from as int, i as int),
        decreases to - i,
    {
        out.push(v[i]);
        i = i + 1;
        assert(out@ =~= start + v@.subrange(from as int, i as int));
    }
}

fn find_dot(v: &Vec<char>, b: usize, n: usize) -> (d: usize)
    requires
        b <= n <= v.len(),
    ensures
        b <= d <= n,
        dot_pos(v@.subrange(b as int, n as int)) == d - b,
{
    let mut d: usize = b;
    while d < n && v[d] != '.'
        invariant
            b <= d <= n <= v.len(),
            dot_pos(v@.subrange(b as int, n as int)) == (d - b) + dot_pos(v@.subrange(d as int, n as int)),
        decreases n - d,
    {
        proof {
            let t = v@.subrange(d as int, n as int);
            assert(t.drop_first() =~= v@.subrange(d + 1, n as int));
        }
        d = d + 1;
    }
    d
}

fn find_exp(v: &Vec<char>, b: usize) -> (d: usize)
    requires
        b <= v.len(),
    ensures
        b <= d <= v.len(),
        exp_pos(v@.subrange(b as int, v.len() as int)) == d - b,
{
    let n = v.len();
    let mut d: usize = b;
    while d < n && v[d] != 'e' && v[d] != 'E'
        invariant
            b <= d <= n,
            n == v@.len(),
            exp_pos(v@.subrange(b as int, n as int)) == (d - b) + exp_pos(v@.subrange(d as int, n as int)),
        decreases n - d,
    {
        proof {
            let t = v@.subrange(d as int, n as int);
            assert(t.drop_first() =~= v@.subrange(d + 1, n as int));
        }
        d = d + 1;
    }
    d
}

/// The value of the exponent text `v[from..]`; see `exponent_of`.
fn exponent_in(v: &Vec<char>, from: usize) -> (r: Option<i64>)
    requires
        from <= v.len(),
    ensures
        match r {
            Some(x) => exponent_of(v@.subrange(from as int, v.len() as int)) == Some(x as int),
            None => exponent_of(v@.subrange(from as int, v.len() as int)) is None,
        },
{
    let n = v.len();
    let ghost t = v@.subrange(from as int, n as int);
    let neg = from < n && v[from] == '-';
    let b: usize = if from < n && (v[from] == '-' || v[from] == '+') { from + 1 } else { from };
    let ghost ds = v@.subrange(b as int, n as int);
    assert(ds =~= (if t.len() > 0 && (t[0] == '-' || t[0] == '+') { t.drop_first() } else { t }));
    if n - b == 0 || n - b > 9 {
        return None;
    }
    let mut x: i64 = 0;
    let mut i: usize = b;
    while i < n
        invariant
            b <= i <= n,
            n == v@.len(),
            n - b <= 9,
            ds == v@.subrange(b as int, n as int),
            t == v@.subrange(from as int, n as int),
            ds == (if t.len() > 0 && (t[0] == '-' || t[0] == '+') { t.drop_first() } else { t }),
            0 <= x < pow10((i - b) as nat),
            forall|j: int| b <= j < i ==> is_digit(#[trigger] v@[j]),
            x == digits_value(v@.subrange(b as int, i as int)),
        decreases n - i,
    {
        if !('0' <= v[i] && v[i] <= '9') {
            assert(ds[i - b] == v@[i as int]);
            return None;
        }
        proof {
            assert(v@.subrange(b as int, i + 1).drop_last() =~= v@.subrange(b as int, i as int));
            lemma_pow10_bound((i - b + 1) as nat);
            assert(pow10((i - b + 1) as nat) == 10 * pow10((i - b) as nat));
        }
        x = x * 10 + (v[i] as i64 - '0' as i64);
        i = i + 1;
    }
    assert(v@.subrange(b as int, n as int) == ds);
    assert forall|k: int| 0 <= k < ds.len() implies is_digit(#[trigger] ds[k]) by {
        assert(ds[k] == v@[b + k]);
    }
    if neg { Some(-x) } else { Some(x) }
}

pub open spec fn pow10(n: nat) -> int
    decreases n,
{
    if n == 0 { 1 } else { 10 * pow10((n - 1) as nat) }
}

proof fn lemma_pow10_bound(n: nat)
    requires
        n <= 9,
    ensures
        1 <= pow10(n) <= 1_000_000_000,
{
    reveal_with_fuel(pow10, 10);
    if n == 0 {} else if n == 1 {} else if n == 2 {} else if n == 3 {} else if n == 4 {}
    else if n == 5 {} else if n == 6 {} else if n == 7 {} else if n == 8 {} else {}
}

fn digits_in(v: &Vec<char>, from: usize, to: usize) -> (r: bool)
    requires
        from <= to <= v.len(),
    ensures
        r == all_digits(v@.subrange(from as int, to as int)),
{
    let mut k: usize = from;
    while k < to
        invariant
            from <= k <= to,
            to <= v.len(),
            forall|j: int| from <= j < k ==> is_digit(#[trigger] v@[j]),
        decreases to - k,
    {
        if !('0' <= v[k] && v[k] <= '9') {
            assert(v@.subrange(from as int, to as int)[k - from] == v@[k as int]);
            return false;
        }
        k = k + 1;
    }
    assert forall|i: int| 0 <= i < to - from implies is_digit(#[trigger] v@.subrange(from as int, to as int)[i]) by {
        assert(v@.subrange(from as int, to as int)[i] == v@[from + i]);
    }
    true
}

fn skip_leading_zeros(v: &Vec<char>, from: usize, to: usize) -> (i: usize)
    requires
        from <= to <= v.len(),
    ensures
        from <= i <= to,
        strip_leading_zeros(v@.subrange(from as int, to as int)) == v@.subrange(i as int, to as int),
{
    let mut i: usize = from;
    while i < to && v[i] == '0'
        invariant
            from <= i <= to <= v.len(),
            strip_leading_zeros(v@.subrange(from as int, to as int)) == strip_leading_zeros(v@.subrange(i as int, to as int)),
        decreases to - i,
    {
        proof {
            assert(v@.subrange(i as int, to as int).drop_first() =~= v@.subrange(i + 1, to as int));
        }
        i = i + 1;
    }
    i
}

fn skip_trailing_zeros(v: &Vec<char>, from: usize, to: usize) -> (e: usize)
    requires
        from <= to <= v.len(),
    ensures
        from <= e <= to,
        strip_trailing_zeros(v@.subrange(from as int, to as int)) == v@.subrange(from as int, e as int),
{
    let mut e: usize = to;
    while e > from && v[e - 1] == '0'
        invariant
            from <= e <= to <= v.len(),
            strip_trailing_zeros(v@.subrange(from as int, to as int)) == strip_trailing_zeros(v@.subrange(from as int, e as int)),
        decreases e,
    {
        proof {
            assert(v@.subrange(from as int, e as int).drop_last() =~= v@.subrange(from as int, e - 1));
        }
        e = e - 1;
    }
    e
}

/// The key of a number text, as plain values; see `num_key`. The first
/// component tells a decimal from other text, whose characters are the second.
#[verifier::rlimit(60)]
pub fn number_key(s: &str) -> (r: (bool, bool, Vec<char>, i128))
    ensures
        r.0 ==> num_key(s@) == NumKey::Decimal(r.1, r.2@, r.3 as int),
        !r.0 ==> num_key(s@) == NumKey::Text(r.2@),
{
    let v = chars_of(s);
    let n = v.len();
    let neg = n > 0 && v[0] == '-';
    let b: usize = if n > 0 && (v[0] == '-' || v[0] == '+') { 1 } else { 0 };
    let ghost body = v@.subrange(b as int, n as int);
    assert(body =~= (if s@.len() > 0 && (s@[0] == '-' || s@[0] == '+') { s@.drop_first() } else { s@ }));
    let ep = find_exp(&v, b);
    let ex: Option<i64> = if ep < n { exponent_in(&v, ep + 1) } else { Some(0) };
    let ghost mant = v@.subrange(b as int, ep as int);
    proof {
        assert(body.subrange(0, ep - b) =~= mant);
        if ep < n {
            assert(body.subrange(ep - b + 1, body.len() as int) =~= v@.subrange(ep + 1, n as int));
        }
    }
    let d = find_dot(&v, b, ep);
    let fs: usize = if d < ep { d + 1 } else { ep };
    proof {
        assert(mant.subrange(0, d - b) =~= v@.subrange(b as int, d as int));
        if d < ep {
            assert(mant.subrange(d - b + 1, mant.len() as int) =~= v@.subrange(fs as int, ep as int));
        } else {
            assert(v@.subrange(fs as int, ep as int) =~= Seq::<char>::empty());
        }
    }
    let ok = ex.is_some() && d - b + (ep - fs) > 0 && digits_in(&v, b, d) && digits_in(&v, fs, ep);
    if !ok {
        let mut r: Vec<char> = Vec::new();
        push_range(&mut r, &v, 0, n);
        assert(v@.subrange(0, n as int) =~= s@);
        return (false, false, r, 0);
    }
    let mut digits: Vec<char> = Vec::new();
    push_range(&mut digits, &v, b, d);
    push_range(&mut digits, &v, fs, ep);
    let ghost ipfp = digits@;
    assert(ipfp =~= v@.subrange(b as int, d as int) + v@.subrange(fs as int, ep as int));
    let m = digits.len();
    let i = skip_leading_zeros(&digits, 0, m);
    let e = skip_trailing_zeros(&digits, i, m);
    assert(digits@.subrange(0, m as int) =~= ipfp);
    let mut r: Vec<char> = Vec::new();
    push_range(&mut r, &digits, i, e);
    if e == i {
        assert(r@ =~= Seq::<char>::empty());
        return (true, false, r, 0);
    }
    let x: i128 = match ex { Some(x) => x as i128, None => 0 };
    let k: i128 = x - ((ep - fs) as i128) + ((m - e) as i128);
    proof {
        assert(digits@.subrange(i as int, m as int).len() - digits@.subrange(i as int, e as int).len() == m - e);
    }
    (true, neg, r, k)
}

/// Whether two texts denote the same number; see `num_key`.
pub fn same_number(a: &str, b: &str) -> (r: bool)
    ensures
        r == (num_key(a@) == num_key(b@)),
{
    let x = number_key(a);
    let y = number_key(b);
    if x.0 != y.0 || (x.0 && (x.1 != y.1 || x.3 != y.3)) || x.2.len() != y.2.len() {
        proof {
            if x.2@.len() != y.2@.len() {
                assert(x.2@ != y.2@);
            }
        }
        return false;
    }
    let mut i: usize = 0;
    while i < x.2.len()
        invariant
            x.0 == y.0,
            x.0 ==> x.1 == y.1 && x.3 == y.3,
            x.0 ==> num_key(a@) == NumKey::Decimal(x.1, x.2@, x.3 as int),
            !x.0 ==> num_key(a@) == NumKey::Text(x.2@),
            y.0 ==> num_key(b@) == NumKey::Decimal(y.1, y.2@, y.3 as int),
            !y.0 ==> num_key(b@) == NumKey::Text(y.2@),
            x.2.len() == y.2.len(),
            i <= x.2.len(),
            forall|j: int| 0 <= j < i ==> x.2@[j] == y.2@[j],
        decreases x.2.len() - i,
    {
        if x.2[i] != y.2[i] {
            assert(x.2@[i as int] != y.2@[i as int]);
            assert(x.2@ != y.2@);
            return false;
        }
        i = i + 1;
    }
    assert(x.2@ =~= y.2@);
    true
}

} // verus!
