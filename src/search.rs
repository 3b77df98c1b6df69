use vstd::prelude::*;

verus! {

/// Does `m` occur in `s` at position `i`?
pub open spec fn occurs_at(s: Seq<u8>, m: Seq<u8>, i: int) -> bool {
    0 <= i && i + m.len() <= s.len() && s.subrange(i, i + m.len()) == m
}

/// The first position at or after `i` where `m` occurs in `s`.
pub open spec fn first_match_from(s: Seq<u8>, m: Seq<u8>, i: int) -> Option<int>
    decreases s.len() + 1 - i,
{
    if i < 0 || i + m.len() > s.len() {
        None
    } else if occurs_at(s, m, i) {
        Some(i)
    } else {
        first_match_from(s, m, i + 1)
    }
}

pub proof fn lemma_first_match_props(s: Seq<u8>, m: Seq<u8>, i: int)
    requires
        0 <= i,
    ensures
        match first_match_from(s, m, i) {
            Some(k) => i <= k && occurs_at(s, m, k) && forall|j: int|
                i <= j < k ==> !#[trigger] occurs_at(s, m, j),
            None => forall|j: int| i <= j ==> !#[trigger] occurs_at(s, m, j),
        },
    decreases s.len() + 1 - i,
{
    if i + m.len() > s.len() {
    } else if occurs_at(s, m, i) {
    } else {
        lemma_first_match_props(s, m, i + 1);
    }
}

/// Searching a longer sequence finds the same first match, as long as that
/// match already lies in the shorter one.
pub proof fn lemma_first_match_extend(a: Seq<u8>, b: Seq<u8>, m: Seq<u8>, i: int)
    requires
        0 <= i,
        first_match_from(a, m, i) is Some,
    ensures
        first_match_from(a + b, m, i) == first_match_from(a, m, i),
    decreases a.len() + 1 - i,
{
    assert((a + b).subrange(i, i + m.len()) == a.subrange(i, i + m.len())) by {
        if i + m.len() <= a.len() {
            assert((a + b).subrange(i, i + m.len()) =~= a.subrange(i, i + m.len()));
        }
    }
    if occurs_at(a, m, i) {
    } else {
        lemma_first_match_extend(a, b, m, i + 1);
    }
}

/// Searching a suffix is searching the whole from the suffix's start.
pub proof fn lemma_first_match_shift(s: Seq<u8>, m: Seq<u8>, start: int, i: int)
    requires
        0 <= start <= s.len(),
        0 <= i,
    ensures
        first_match_from(s.subrange(start, s.len() as int), m, i) == match first_match_from(
            s,
            m,
            start + i,
        ) {
            Some(k) => Some(k - start),
            None => None,
        },
    decreases s.len() + 1 - start - i,
{
    let t = s.subrange(start, s.len() as int);
    if i + m.len() > t.len() {
    } else {
        assert(t.subrange(i, i + m.len()) =~= s.subrange(start + i, start + i + m.len()));
        if !occurs_at(t, m, i) {
            lemma_first_match_shift(s, m, start, i + 1);
        }
    }
}

/// A copy of the bytes of `s` in `lo..hi`.
pub fn copy_range(s: &[u8], lo: usize, hi: usize) -> (r: Vec<u8>)
    requires
        lo <= hi <= s@.len(),
    ensures
        r@ == s@.subrange(lo as int, hi as int),
{
    let mut r: Vec<u8> = Vec::new();
    let mut t: usize = lo;
    while t < hi
        invariant
            lo <= t <= hi,
            hi <= s@.len(),
            r@ == s@.subrange(lo as int, t as int),
        decreases hi - t,
    {
        r.push(s[t]);
        t += 1;
        assert(r@ =~= s@.subrange(lo as int, t as int));
    }
    r
}

/// Position of the first occurrence of `m` in `s` at or after `from`.
pub fn find_from(s: &[u8], m: &[u8], from: usize) -> (r: Option<usize>)
    requires
        from <= s@.len(),
    ensures
        match r {
            Some(k) => first_match_from(s@, m@, from as int) == Some(k as int),
            None => first_match_from(s@, m@, from as int) is None,
        },
{
    let n = s.len();
    let ml = m.len();
    if ml > n {
        return None;
    }
    let mut i: usize = from;
    while i <= n - ml
        invariant
            from <= i <= n,
            ml == m@.len(),
            n == s@.len(),
            ml <= n,
            first_match_from(s@, m@, from as int) == first_match_from(s@, m@, i as int),
        decreases n - i,
    {
        let mut j: usize = 0;
        let mut same = true;
        while j < ml
            invariant
                j <= ml,
                ml == m@.len(),
                n == s@.len(),
                i + ml <= n,
                same == (forall|t: int| 0 <= t < j ==> s@[i + t] == m@[t]),
            decreases ml - j,
        {
            if s[i + j] != m[j] {
                same = false;
            }
            j += 1;
        }
        if same {
            assert(s@.subrange(i as int, i + ml) =~= m@);
            return Some(i);
        }
        assert(!occurs_at(s@, m@, i as int)) by {
            let t = choose|t: int| 0 <= t < ml && s@[i + t] != m@[t];
            assert(s@.subrange(i as int, i + ml)[t] != m@[t]);
        }
        i += 1;
    }
    None
}

} // verus!
