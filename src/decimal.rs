use vstd::prelude::*;
use crate::search::{
    copy_range, find_from, first_match_from, lemma_first_match_props, lemma_first_match_shift,
};

verus! {

pub open spec fn is_digit(b: u8) -> bool {
    48 <= b <= 57
}

pub open spec fn all_digits(s: Seq<u8>) -> bool {
    forall|i: int| 0 <= i < s.len() ==> is_digit(#[trigger] s[i])
}

/// The number that a string of decimal digits writes.
pub open spec fn digits_value(s: Seq<u8>) -> nat
    decreases s.len(),
{
    if s.len() == 0 {
        0
    } else {
        digits_value(s.drop_last()) * 10 + (s.last() - 48) as nat
    }
}

/// `s` without one leading `+`.
pub open spec fn strip_plus(s: Seq<u8>) -> Seq<u8> {
    if s.len() > 0 && s[0] == 43 {
        s.drop_first()
    } else {
        s
    }
}

/// A small unsigned integer in text: an optional `+`, then one or more
/// digits whose value is at most 255.
pub open spec fn u8_text(s: Seq<u8>) -> Option<u8> {
    let d = strip_plus(s);
    if d.len() > 0 && all_digits(d) && digits_value(d) <= 255 {
        Some(digits_value(d) as u8)
    } else {
        None
    }
}

pub open spec fn pow10(n: nat) -> nat
    decreases n,
{
    if n == 0 {
        1
    } else {
        10 * pow10((n - 1) as nat)
    }
}

/// The most digits a price may have after its decimal point.
pub const MAX_SCALE: u32 = 18;

/// A non-negative decimal number: `mantissa / 10^scale`.
#[derive(Clone, Copy, Debug, PartialEq, Eq, Structural)]
pub struct Price {
    pub mantissa: u64,
    pub scale: u32,
}

impl Price {
    pub open spec fn wf(self) -> bool {
        self.scale <= MAX_SCALE
    }

    /// The value in units of `10^-18`.
    pub open spec fn units(self) -> int {
        self.mantissa * pow10((MAX_SCALE - self.scale) as nat)
    }

    /// The value truncated toward zero.
    pub open spec fn whole(self) -> nat {
        self.mantissa as nat / pow10(self.scale as nat)
    }

    /// Is `self` strictly below `other`?
    pub fn is_less(&self, other: &Price) -> (r: bool)
        requires
            self.wf(),
            other.wf(),
        ensures
            r == (self.units() < other.units()),
    {
        let a = scale_up(self.mantissa, MAX_SCALE - self.scale);
        let b = scale_up(other.mantissa, MAX_SCALE - other.scale);
        a < b
    }

    /// The value truncated toward zero: `7.9` gives `7`.
    pub fn whole_units(&self) -> (r: u64)
        requires
            self.wf(),
        ensures
            r == self.whole(),
    {
        let p = pow10_exec(self.scale);
        proof {
            lemma_pow10_mono(0, self.scale as nat);
        }
        self.mantissa / p
    }
}

/// A price in text: an optional `+`, then digits with at most one decimal
/// point among them, at least one digit, at most eighteen after the point,
/// and all the digits together, read as one number, within `u64`.
pub open spec fn price_text(s: Seq<u8>) -> Option<Price> {
    let d = strip_plus(s);
    let dot = first_match_from(d, seq![46u8], 0);
    let whole = match dot {
        Some(k) => d.subrange(0, k),
        None => d,
    };
    let frac = match dot {
        Some(k) => d.subrange(k + 1, d.len() as int),
        None => Seq::<u8>::empty(),
    };
    let digits = whole + frac;
    if digits.len() > 0 && all_digits(digits) && frac.len() <= MAX_SCALE && digits_value(digits)
        <= u64::MAX {
        Some(Price { mantissa: digits_value(digits) as u64, scale: frac.len() as u32 })
    } else {
        None
    }
}

proof fn lemma_pow10_mono(a: nat, b: nat)
    requires
        a <= b,
    ensures
        1 <= pow10(a) <= pow10(b),
    decreases b,
{
    if a < b {
        lemma_pow10_mono(a, (b - 1) as nat);
    } else if a > 0 {
        lemma_pow10_mono((a - 1) as nat, (a - 1) as nat);
    }
}

proof fn lemma_pow10_max()
    ensures
        pow10(MAX_SCALE as nat) == 1000000000000000000,
{
    reveal_with_fuel(pow10, 19);
}

fn pow10_exec(n: u32) -> (r: u64)
    requires
        n <= MAX_SCALE,
    ensures
        r == pow10(n as nat),
{
    proof {
        lemma_pow10_max();
    }
    let mut r: u64 = 1;
    let mut i: u32 = 0;
    while i < n
        invariant
            i <= n <= MAX_SCALE,
            r == pow10(i as nat),
            pow10(MAX_SCALE as nat) == 1000000000000000000,
        decreases n - i,
    {
        proof {
            lemma_pow10_mono((i + 1) as nat, MAX_SCALE as nat);
        }
        r = r * 10;
        i += 1;
    }
    r
}

/// `m * 10^n`, exactly.
fn scale_up(m: u64, n: u32) -> (r: u128)
    requires
        n <= MAX_SCALE,
    ensures
        r == m * pow10(n as nat),
{
    let p = pow10_exec(n);
    proof {
        lemma_pow10_mono(n as nat, MAX_SCALE as nat);
        lemma_pow10_max();
        assert(m * p <= 0xffff_ffff_ffff_ffffu64 * 1000000000000000000u64) by (nonlinear_arith)
            requires
                m <= 0xffff_ffff_ffff_ffffu64,
                p <= 1000000000000000000u64,
        ;
    }
    (m as u128) * (p as u128)
}

proof fn lemma_digits_prefix(t: Seq<u8>, j: int)
    requires
        0 <= j <= t.len(),
        all_digits(t),
    ensures
        digits_value(t.subrange(0, j)) <= digits_value(t),
    decreases t.len(),
{
    if j == t.len() {
        assert(t.subrange(0, j) =~= t);
    } else {
        let u = t.drop_last();
        assert(all_digits(u)) by {
            assert forall|i: int| 0 <= i < u.len() implies is_digit(#[trigger] u[i]) by {
                assert(u[i] == t[i]);
            }
        }
        lemma_digits_prefix(u, j);
        assert(u.subrange(0, j) =~= t.subrange(0, j));
    }
}

/// The value of the digits in `s[lo..hi]`, if they are all digits and the
/// value is at most `limit`.
fn digits_bounded(s: &[u8], lo: usize, hi: usize, limit: u64) -> (r: Option<u64>)
    requires
        lo <= hi <= s@.len(),
    ensures
        r == (if all_digits(s@.subrange(lo as int, hi as int)) && digits_value(
            s@.subrange(lo as int, hi as int),
        ) <= limit {
            Some(digits_value(s@.subrange(lo as int, hi as int)) as u64)
        } else {
            None::<u64>
        }),
{
    let ghost t = s@.subrange(lo as int, hi as int);
    let mut v: u64 = 0;
    let mut i: usize = lo;
    assert(s@.subrange(lo as int, lo as int) =~= Seq::<u8>::empty());
    while i < hi
        invariant
            lo <= i <= hi <= s@.len(),
            t == s@.subrange(lo as int, hi as int),
            all_digits(s@.subrange(lo as int, i as int)),
            v == digits_value(s@.subrange(lo as int, i as int)),
            v <= limit,
        decreases hi - i,
    {
        let b = s[i];
        if b < 48 || b > 57 {
            assert(!is_digit(t[i - lo]));
            return None;
        }
        let d = (b - 48) as u64;
        let ghost next = s@.subrange(lo as int, i + 1);
        assert(next.drop_last() =~= s@.subrange(lo as int, i as int));
        assert(digits_value(next) == v * 10 + d);
        if d > limit || v > (limit - d) / 10 {
            assert(v * 10 + d > limit);
            proof {
                if all_digits(t) {
                    lemma_digits_prefix(t, i + 1 - lo);
                    assert(t.subrange(0, i + 1 - lo) =~= next);
                }
            }
            return None;
        }
        v = v * 10 + d;
        i += 1;
        assert(all_digits(s@.subrange(lo as int, i as int))) by {
            assert forall|j: int| 0 <= j < next.len() implies is_digit(#[trigger] next[j]) by {
                if j < next.len() - 1 {
                    assert(next[j] == s@.subrange(lo as int, i - 1)[j]);
                }
            }
        }
    }
    Some(v)
}

/// Reads a small unsigned integer from text.
pub fn parse_u8(s: &[u8]) -> (r: Option<u8>)
    ensures
        r == u8_text(s@),
{
    let p: usize = if s.len() > 0 && s[0] == 43 {
        1
    } else {
        0
    };
    assert(strip_plus(s@) =~= s@.subrange(p as int, s@.len() as int));
    if p == s.len() {
        return None;
    }
    match digits_bounded(s, p, s.len(), 255) {
        Some(v) => Some(v as u8),
        None => None,
    }
}

/// Reads a price from text.
pub fn parse_price(s: &[u8]) -> (r: Option<Price>)
    ensures
        r == price_text(s@),
        match r {
            Some(p) => p.wf(),
            None => true,
        },
{
    let p: usize = if s.len() > 0 && s[0] == 43 {
        1
    } else {
        0
    };
    let ghost d = s@.subrange(p as int, s@.len() as int);
    assert(strip_plus(s@) =~= d);
    let dot: [u8; 1] = [46u8];
    assert(dot@ =~= seq![46u8]);
    proof {
        lemma_first_match_shift(s@, seq![46u8], p as int, 0);
        lemma_first_match_props(s@, seq![46u8], p as int);
        assert(seq![46u8].len() == 1);
    }
    let (mut digits, frac_len) = match find_from(s, dot.as_slice(), p) {
        Some(k) => {
            let mut w = copy_range(s, p, k);
            let mut f = copy_range(s, k + 1, s.len());
            let n = f.len();
            assert(w@ =~= d.subrange(0, k - p));
            assert(f@ =~= d.subrange(k - p + 1, d.len() as int));
            w.append(&mut f);
            (w, n)
        },
        None => {
            let w = copy_range(s, p, s.len());
            assert(w@ =~= d + Seq::<u8>::empty());
            (w, 0)
        },
    };
    if digits.len() == 0 || frac_len > 18 {
        return None;
    }
    match digits_bounded(digits.as_slice(), 0, digits.len(), u64::MAX) {
        Some(v) => {
            assert(digits@.subrange(0, digits@.len() as int) =~= digits@);
            Some(Price { mantissa: v, scale: frac_len as u32 })
        },
        None => {
            assert(digits@.subrange(0, digits@.len() as int) =~= digits@);
            None
        },
    }
}

} // verus!
