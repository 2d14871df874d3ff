use vstd::prelude::*;

verus! {

// The grammar of the numbers that `f64::from_str` accepts, as its documentation
// gives it (case-insensitive):
//
//   Float  ::= Sign? ( 'inf' | 'infinity' | 'nan' | Number )
//   Number ::= ( Digit+ | Digit+ '.' Digit* | Digit* '.' Digit+ ) Exp?
//   Exp    ::= 'e' Sign? Digit+
//   Sign   ::= [+-]
//   Digit  ::= [0-9]

pub open spec fn is_digit(c: char) -> bool {
    '0' <= c && c <= '9'
}

pub open spec fn is_sign(c: char) -> bool {
    c == '+' || c == '-'
}

/// `c` is the ASCII letter `l` (given in lower case), in either case.
pub open spec fn letter_ci(c: char, l: char) -> bool {
    c == l || c as int == l as int - 32
}

/// `s` spells the lower-case ASCII word `w`, in any mix of cases.
pub open spec fn word_ci(s: Seq<char>, w: Seq<char>) -> bool {
    &&& s.len() == w.len()
    &&& forall|i: int| 0 <= i < s.len() ==> letter_ci(#[trigger] s[i], w[i])
}

pub open spec fn all_digits(s: Seq<char>) -> bool {
    forall|i: int| 0 <= i < s.len() ==> is_digit(#[trigger] s[i])
}

/// `Digit+ | Digit+ '.' Digit* | Digit* '.' Digit+`
pub open spec fn is_mantissa(m: Seq<char>) -> bool {
    ||| m.len() > 0 && all_digits(m)
    ||| exists|d: int|
        0 <= d < m.len() && m.len() >= 2 && #[trigger] m[d] == '.' && all_digits(m.take(d))
            && all_digits(m.skip(d + 1))
}

/// `Sign? Digit+`
pub open spec fn is_signed_digits(y: Seq<char>) -> bool {
    ||| y.len() > 0 && all_digits(y)
    ||| y.len() > 1 && is_sign(y[0]) && all_digits(y.drop_first())
}

/// `Exp`
pub open spec fn is_exponent(x: Seq<char>) -> bool {
    x.len() > 0 && letter_ci(x[0], 'e') && is_signed_digits(x.drop_first())
}

/// `Number`
pub open spec fn is_number(s: Seq<char>) -> bool {
    ||| is_mantissa(s)
    ||| exists|k: int| 0 < k < s.len() && is_mantissa(s.take(k)) && #[trigger] is_exponent(s.skip(k))
}

/// `Sign? ( 'inf' | 'infinity' | 'nan' | Number )`, without the sign.
pub open spec fn is_unsigned_float(b: Seq<char>) -> bool {
    ||| word_ci(b, seq!['i', 'n', 'f'])
    ||| word_ci(b, seq!['i', 'n', 'f', 'i', 'n', 'i', 't', 'y'])
    ||| word_ci(b, seq!['n', 'a', 'n'])
    ||| is_number(b)
}

/// The strings on which `f64::from_str` succeeds.
pub open spec fn is_float_literal(s: Seq<char>) -> bool {
    if s.len() > 0 && is_sign(s[0]) {
        is_unsigned_float(s.drop_first())
    } else {
        is_unsigned_float(s)
    }
}

fn char_letter_ci(c: char, l: char) -> (r: bool)
    requires
        'a' <= l <= 'z',
    ensures
        r == letter_ci(c, l),
{
    let u: u32 = (l as u32) - 32;
    c == l || (c as u32) == u
}

/// Whether `v[lo..hi]` is made of digits only.
fn digits_between(v: &Vec<char>, lo: usize, hi: usize) -> (r: bool)
    requires
        lo <= hi <= v.len(),
    ensures
        r == all_digits(v@.subrange(lo as int, hi as int)),
{
    let mut i = lo;
    while i < hi
        invariant
            lo <= i <= hi <= v.len(),
            all_digits(v@.subrange(lo as int, i as int)),
        decreases hi - i,
    {
        if !('0' <= v[i] && v[i] <= '9') {
            assert(v@.subrange(lo as int, hi as int)[i - lo] == v@[i as int]);
            return false;
        }
        assert forall|j: int| 0 <= j < i + 1 - lo implies is_digit(
            #[trigger] v@.subrange(lo as int, i as int + 1)[j],
        ) by {
            if j < i - lo {
                assert(v@.subrange(lo as int, i as int + 1)[j] == v@.subrange(lo as int, i as int)[j]);
            }
        }
        i = i + 1;
    }
    true
}

/// Whether `v[lo..hi]` spells the lower-case word `w`, in any mix of cases.
fn spells_between(v: &Vec<char>, lo: usize, hi: usize, w: &Vec<char>) -> (r: bool)
    requires
        lo <= hi <= v.len(),
        forall|i: int| 0 <= i < w.len() ==> 'a' <= #[trigger] w@[i] <= 'z',
    ensures
        r == word_ci(v@.subrange(lo as int, hi as int), w@),
{
    if hi - lo != w.len() {
        return false;
    }
    let mut i: usize = 0;
    while i < w.len()
        invariant
            lo <= hi <= v.len(),
            hi - lo == w.len(),
            i <= w.len(),
            forall|j: int| 0 <= j < w.len() ==> 'a' <= #[trigger] w@[j] <= 'z',
            forall|j: int| 0 <= j < i ==> letter_ci(#[trigger] v@[lo + j], w@[j]),
        decreases w.len() - i,
    {
        if !char_letter_ci(v[lo + i], w[i]) {
            assert(v@.subrange(lo as int, hi as int)[i as int] == v@[lo + i]);
            return false;
        }
        i = i + 1;
    }
    assert forall|j: int| 0 <= j < hi - lo implies letter_ci(
        #[trigger] v@.subrange(lo as int, hi as int)[j],
        w@[j],
    ) by {
        assert(v@.subrange(lo as int, hi as int)[j] == v@[lo + j]);
    }
    true
}

/// The first position in `v[lo..hi]` holding `.` (or `hi`).
fn find_dot(v: &Vec<char>, lo: usize, hi: usize) -> (r: usize)
    requires
        lo <= hi <= v.len(),
    ensures
        lo <= r <= hi,
        r < hi ==> v@[r as int] == '.',
        forall|j: int| lo <= j < r ==> v@[j] != '.',
{
    let mut i = lo;
    while i < hi
        invariant
            lo <= i <= hi <= v.len(),
            forall|j: int| lo <= j < i ==> v@[j] != '.',
        decreases hi - i,
    {
        if v[i] == '.' {
            return i;
        }
        i = i + 1;
    }
    i
}

/// The first position in `v[lo..hi]` holding `e` or `E` (or `hi`).
fn find_exp(v: &Vec<char>, lo: usize, hi: usize) -> (r: usize)
    requires
        lo <= hi <= v.len(),
    ensures
        lo <= r <= hi,
        r < hi ==> letter_ci(v@[r as int], 'e'),
        forall|j: int| lo <= j < r ==> !letter_ci(v@[j], 'e'),
{
    let mut i = lo;
    while i < hi
        invariant
            lo <= i <= hi <= v.len(),
            forall|j: int| lo <= j < i ==> !letter_ci(v@[j], 'e'),
        decreases hi - i,
    {
        if char_letter_ci(v[i], 'e') {
            return i;
        }
        i = i + 1;
    }
    i
}

/// Whether `v[lo..hi]` is a `Digit+ | Digit+ '.' Digit* | Digit* '.' Digit+`.
fn mantissa_between(v: &Vec<char>, lo: usize, hi: usize) -> (r: bool)
    requires
        lo <= hi <= v.len(),
    ensures
        r == is_mantissa(v@.subrange(lo as int, hi as int)),
{
    let ghost m = v@.subrange(lo as int, hi as int);
    let d = find_dot(v, lo, hi);
    if d == hi {
        let r = hi > lo && digits_between(v, lo, hi);
        proof {
            if !r && is_mantissa(m) {
                let k = choose|k: int|
                    0 <= k < m.len() && m.len() >= 2 && #[trigger] m[k] == '.' && all_digits(m.take(k))
                        && all_digits(m.skip(k + 1));
                assert(m[k] == v@[lo + k]);
            }
        }
        r
    } else {
        let r = hi - lo >= 2 && digits_between(v, lo, d) && digits_between(v, d + 1, hi);
        proof {
            let dd = d - lo;
            assert(m[dd] == '.');
            assert(m.take(dd) == v@.subrange(lo as int, d as int));
            assert(m.skip(dd + 1) == v@.subrange(d + 1, hi as int));
            if r {
                assert(is_mantissa(m));
            } else if is_mantissa(m) {
                assert(!all_digits(m)) by {
                    assert(!is_digit(m[dd]));
                }
                let k = choose|k: int|
                    0 <= k < m.len() && m.len() >= 2 && #[trigger] m[k] == '.' && all_digits(m.take(k))
                        && all_digits(m.skip(k + 1));
                if k < dd {
                    assert(m[k] == v@[lo + k]);
                } else if k > dd {
                    assert(m.take(k)[dd] == m[dd]);
                    assert(!is_digit(m.take(k)[dd]));
                }
            }
        }
        r
    }
}

/// Whether `v[lo..hi]` is a `Sign? Digit+`.
fn signed_digits_between(v: &Vec<char>, lo: usize, hi: usize) -> (r: bool)
    requires
        lo <= hi <= v.len(),
    ensures
        r == is_signed_digits(v@.subrange(lo as int, hi as int)),
{
    let ghost y = v@.subrange(lo as int, hi as int);
    if hi == lo {
        return false;
    }
    assert(y[0] == v@[lo as int]);
    if v[lo] == '+' || v[lo] == '-' {
        assert(y.drop_first() == v@.subrange(lo + 1, hi as int));
        let r = hi - lo > 1 && digits_between(v, lo + 1, hi);
        proof {
            assert(!is_digit(y[0]));
        }
        r
    } else {
        digits_between(v, lo, hi)
    }
}

/// Whether `v[lo..hi]` is a `Number`.
fn number_between(v: &Vec<char>, lo: usize, hi: usize) -> (r: bool)
    requires
        lo <= hi <= v.len(),
    ensures
        r == is_number(v@.subrange(lo as int, hi as int)),
{
    let ghost s = v@.subrange(lo as int, hi as int);
    let k = find_exp(v, lo, hi);
    let ghost kk = k - lo;
    assert(s.take(kk) == v@.subrange(lo as int, k as int));
    if k == hi {
        assert(s.take(kk) == s);
        let r = mantissa_between(v, lo, hi);
        proof {
            if !r && is_number(s) {
                let j = choose|j: int|
                    0 < j < s.len() && is_mantissa(s.take(j)) && #[trigger] is_exponent(s.skip(j));
                assert(s.skip(j)[0] == s[j]);
                assert(s[j] == v@[lo + j]);
            }
        }
        r
    } else {
        assert(s.skip(kk + 1) == v@.subrange(k + 1, hi as int));
        assert(s.skip(kk)[0] == v@[k as int]);
        assert(s.skip(kk).drop_first() == s.skip(kk + 1));
        let r = k > lo && mantissa_between(v, lo, k) && signed_digits_between(v, k + 1, hi);
        proof {
            assert(!all_digits(s)) by {
                assert(s[kk] == v@[k as int]);
                assert(!is_digit(s[kk]));
            }
            assert(!is_mantissa(s)) by {
                if is_mantissa(s) {
                    let d = choose|d: int|
                        0 <= d < s.len() && s.len() >= 2 && #[trigger] s[d] == '.' && all_digits(s.take(d))
                            && all_digits(s.skip(d + 1));
                    assert(s[kk] == v@[k as int]);
                    if kk < d {
                        assert(s.take(d)[kk] == s[kk]);
                        assert(!is_digit(s.take(d)[kk]));
                    } else {
                        assert(s.skip(d + 1)[kk - d - 1] == s[kk]);
                        assert(!is_digit(s.skip(d + 1)[kk - d - 1]));
                    }
                }
            }
            if r {
                assert(is_exponent(s.skip(kk)));
            } else if is_number(s) {
                let j = choose|j: int|
                    0 < j < s.len() && is_mantissa(s.take(j)) && #[trigger] is_exponent(s.skip(j));
                assert(s.skip(j)[0] == s[j]);
                assert(s[j] == v@[lo + j]);
                if j > kk {
                    // the mantissa `s.take(j)` would hold the exponent letter at `kk`
                    let m = s.take(j);
                    assert(m[kk] == s[kk]);
                    assert(s[kk] == v@[k as int]);
                    assert(!is_digit(m[kk]));
                    assert(!all_digits(m));
                    let d = choose|d: int|
                        0 <= d < m.len() && m.len() >= 2 && #[trigger] m[d] == '.' && all_digits(m.take(d))
                            && all_digits(m.skip(d + 1));
                    if kk < d {
                        assert(m.take(d)[kk] == m[kk]);
                    } else {
                        assert(m.skip(d + 1)[kk - d - 1] == m[kk]);
                    }
                }
            }
        }
        r
    }
}

/// Whether `f64::from_str` accepts the characters `v`.
pub fn float_literal(v: &Vec<char>) -> (r: bool)
    ensures
        r == is_float_literal(v@),
{
    let n = v.len();
    let lo: usize = if n > 0 && (v[0] == '+' || v[0] == '-') { 1 } else { 0 };
    let ghost b = v@.subrange(lo as int, n as int);
    assert(lo == 1 ==> b == v@.drop_first());
    assert(lo == 0 ==> b == v@);
    let inf = vec!['i', 'n', 'f'];
    let infinity = vec!['i', 'n', 'f', 'i', 'n', 'i', 't', 'y'];
    let nan = vec!['n', 'a', 'n'];
    assert(inf@ == seq!['i', 'n', 'f']);
    assert(infinity@ == seq!['i', 'n', 'f', 'i', 'n', 'i', 't', 'y']);
    assert(nan@ == seq!['n', 'a', 'n']);
    spells_between(v, lo, n, &inf) || spells_between(v, lo, n, &infinity) || spells_between(
        v,
        lo,
        n,
        &nan,
    ) || number_between(v, lo, n)
}

}
