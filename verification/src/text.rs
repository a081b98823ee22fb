//! Character-sequence utilities: whitespace trimming, splitting an
//! expression on `+`, and conversions between strings and char vectors.

use vstd::prelude::*;

verus! {

/// The whitespace characters the parser strips around tokens: the Unicode
/// White_Space set, as `str::trim` strips it.
pub open spec fn is_space(c: char) -> bool {
    let u = c as u32;
    u == 9 || u == 10 || u == 11 || u == 12 || u == 13 || u == 32 || u == 133 || u == 160 || u
        == 0x1680 || (0x2000 <= u <= 0x200A) || u == 0x2028 || u == 0x2029 || u == 0x202F || u
        == 0x205F || u == 0x3000
}

/// `s` without its leading whitespace.
pub open spec fn trim_front(s: Seq<char>) -> Seq<char>
    decreases s.len(),
{
    if s.len() > 0 && is_space(s[0]) {
        trim_front(s.skip(1))
    } else {
        s
    }
}

/// `s` without its trailing whitespace.
pub open spec fn trim_back(s: Seq<char>) -> Seq<char>
    decreases s.len(),
{
    if s.len() > 0 && is_space(s.last()) {
        trim_back(s.drop_last())
    } else {
        s
    }
}

/// `s` without leading and trailing whitespace.
pub open spec fn trim(s: Seq<char>) -> Seq<char> {
    trim_back(trim_front(s))
}

/// The segments of `s` between `+` characters, in order. Always nonempty;
/// a `+` at either end or two adjacent `+` produce empty segments.
pub open spec fn split_plus(s: Seq<char>) -> Seq<Seq<char>>
    decreases s.len(),
{
    if s.len() == 0 {
        seq![Seq::<char>::empty()]
    } else if s[0] == '+' {
        seq![Seq::<char>::empty()] + split_plus(s.skip(1))
    } else {
        let r = split_plus(s.skip(1));
        seq![seq![s[0]] + r[0]] + r.skip(1)
    }
}

/// How often `c` occurs in `s`.
pub open spec fn count_char(s: Seq<char>, c: char) -> nat
    decreases s.len(),
{
    if s.len() == 0 {
        0
    } else {
        (if s[0] == c {
            1nat
        } else {
            0nat
        }) + count_char(s.skip(1), c)
    }
}

/// Index of the first occurrence of `c` in `s` (length of `s` if absent).
pub open spec fn first_idx(s: Seq<char>, c: char) -> int
    decreases s.len(),
{
    if s.len() == 0 {
        0
    } else if s[0] == c {
        0
    } else {
        1 + first_idx(s.skip(1), c)
    }
}

pub proof fn lemma_split_plus_len(s: Seq<char>)
    ensures
        split_plus(s).len() >= 1,
    decreases s.len(),
{
    if s.len() > 0 {
        lemma_split_plus_len(s.skip(1));
    }
}

pub proof fn lemma_first_idx(s: Seq<char>, c: char)
    ensures
        0 <= first_idx(s, c) <= s.len(),
        count_char(s, c) >= 1 ==> first_idx(s, c) < s.len() && s[first_idx(s, c)] == c,
        forall|j: int| 0 <= j < first_idx(s, c) ==> s[j] != c,
        count_char(s, c) == 0 ==> first_idx(s, c) == s.len(),
    decreases s.len(),
{
    if s.len() > 0 && s[0] != c {
        lemma_first_idx(s.skip(1), c);
        assert(forall|j: int| 1 <= j < first_idx(s, c) ==> #[trigger] s[j] == s.skip(1)[j - 1]);
    }
}

/// Trimming the front removes exactly the leading run of whitespace.
pub proof fn lemma_trim_front_skip(s: Seq<char>, i: int)
    requires
        0 <= i <= s.len(),
        forall|j: int| 0 <= j < i ==> is_space(#[trigger] s[j]),
        i == s.len() || !is_space(s[i]),
    ensures
        trim_front(s) == s.skip(i),
    decreases i,
{
    if i == 0 {
        assert(s.skip(0) =~= s);
    } else {
        lemma_trim_front_skip(s.skip(1), i - 1);
        assert(s.skip(1).skip(i - 1) =~= s.skip(i));
    }
}

/// Trimming the back removes exactly the trailing run of whitespace.
pub proof fn lemma_trim_back_take(s: Seq<char>, i: int)
    requires
        0 <= i <= s.len(),
        forall|j: int| i <= j < s.len() ==> is_space(#[trigger] s[j]),
        i == 0 || !is_space(s[i - 1]),
    ensures
        trim_back(s) == s.take(i),
    decreases s.len() - i,
{
    if i == s.len() {
        assert(s.take(i) =~= s);
    } else {
        assert(is_space(s.last()));
        lemma_trim_back_take(s.drop_last(), i);
        assert(s.drop_last().take(i) =~= s.take(i));
    }
}

/// The characters of a string, in order.
pub fn chars_of(s: &str) -> (v: Vec<char>)
    ensures
        v@ == s@,
{
    let n = s.unicode_len();
    let mut v: Vec<char> = Vec::new();
    let mut i: usize = 0;
    while i < n
        invariant
            i <= n,
            n == s@.len(),
            v@ == s@.take(i as int),
        decreases n - i,
    {
        let c = s.get_char(i);
        v.push(c);
        proof {
            assert(s@.take(i + 1) =~= s@.take(i as int).push(s@[i as int]));
        }
        i = i + 1;
    }
    proof {
        assert(s@.take(s@.len() as int) =~= s@);
    }
    v
}

/// Relies on `alloc::string::String::push`: appends one character
/// to the end of the string.
#[verifier::external_body]
fn push_char(s: &mut String, c: char)
    ensures
        final(s)@ == old(s)@.push(c),
{
    s.push(c)
}

/// Builds a string from a vector of characters.
pub fn string_of_chars(v: &Vec<char>) -> (s: String)
    ensures
        s@ == v@,
{
    let mut s = String::new();
    let mut i: usize = 0;
    while i < v.len()
        invariant
            i <= v@.len(),
            s@ == v@.take(i as int),
        decreases v@.len() - i,
    {
        push_char(&mut s, v[i]);
        proof {
            assert(v@.take(i + 1) =~= v@.take(i as int).push(v@[i as int]));
        }
        i = i + 1;
    }
    proof {
        assert(v@.take(v@.len() as int) =~= v@);
    }
    s
}

fn is_space_exec(c: char) -> (r: bool)
    ensures
        r == is_space(c),
{
    let u = c as u32;
    u == 9 || u == 10 || u == 11 || u == 12 || u == 13 || u == 32 || u == 133 || u == 160 || u
        == 0x1680 || (0x2000 <= u && u <= 0x200A) || u == 0x2028 || u == 0x2029 || u == 0x202F
        || u == 0x205F || u == 0x3000
}

/// A copy of `v` between two indices.
pub fn subvec(v: &Vec<char>, lo: usize, hi: usize) -> (r: Vec<char>)
    requires
        lo <= hi <= v@.len(),
    ensures
        r@ == v@.subrange(lo as int, hi as int),
{
    let mut r: Vec<char> = Vec::new();
    let mut i: usize = lo;
    while i < hi
        invariant
            lo <= i <= hi <= v@.len(),
            r@ == v@.subrange(lo as int, i as int),
        decreases hi - i,
    {
        r.push(v[i]);
        proof {
            assert(v@.subrange(lo as int, i + 1) =~= v@.subrange(lo as int, i as int).push(
                v@[i as int],
            ));
        }
        i = i + 1;
    }
    r
}

/// A copy of `v` without surrounding whitespace.
pub fn trim_vec(v: &Vec<char>) -> (r: Vec<char>)
    ensures
        r@ == trim(v@),
{
    let mut lo: usize = 0;
    while lo < v.len() && is_space_exec(v[lo])
        invariant
            lo <= v@.len(),
            forall|j: int| 0 <= j < lo ==> is_space(#[trigger] v@[j]),
        decreases v@.len() - lo,
    {
        lo = lo + 1;
    }
    proof {
        lemma_trim_front_skip(v@, lo as int);
    }
    let mut hi: usize = v.len();
    while hi > lo && is_space_exec(v[hi - 1])
        invariant
            lo <= hi <= v@.len(),
            forall|j: int| hi <= j < v@.len() ==> is_space(#[trigger] v@[j]),
        decreases hi,
    {
        hi = hi - 1;
    }
    let r = subvec(v, lo, hi);
    proof {
        let f = v@.skip(lo as int);
        assert(trim_front(v@) == f);
        if hi > lo {
            lemma_trim_back_take(f, hi - lo);
        } else {
            assert(forall|j: int| 0 <= j < f.len() ==> is_space(#[trigger] f[j]));
            lemma_trim_back_take(f, 0);
        }
        assert(f.take(hi - lo) =~= v@.subrange(lo as int, hi as int));
    }
    r
}

/// The segments of `v` between `+` characters.
pub fn split_plus_vec(v: &Vec<char>) -> (r: Vec<Vec<char>>)
    ensures
        r@.len() == split_plus(v@).len(),
        forall|k: int| 0 <= k < r@.len() ==> #[trigger] r@[k]@ == split_plus(v@)[k],
{
    let mut segs: Vec<Vec<char>> = Vec::new();
    let mut cur: Vec<char> = Vec::new();
    let mut i: usize = 0;
    proof {
        assert(v@.skip(0) =~= v@);
        lemma_split_plus_len(v@);
        assert(Seq::<char>::empty() + split_plus(v@)[0] =~= split_plus(v@)[0]);
    }
    while i < v.len()
        invariant
            i <= v@.len(),
            split_plus(v@).len() == segs@.len() + split_plus(v@.skip(i as int)).len(),
            forall|k: int|
                0 <= k < segs@.len() ==> #[trigger] segs@[k]@ == split_plus(v@)[k],
            cur@ + split_plus(v@.skip(i as int))[0] == split_plus(v@)[segs@.len() as int],
            forall|k: int|
                1 <= k < split_plus(v@.skip(i as int)).len() ==> #[trigger] split_plus(
                    v@.skip(i as int),
                )[k] == split_plus(v@)[segs@.len() + k],
        decreases v@.len() - i,
    {
        let c = v[i];
        proof {
            let rest = v@.skip(i as int);
            assert(rest[0] == v@[i as int]);
            assert(rest.skip(1) =~= v@.skip(i + 1));
            lemma_split_plus_len(v@.skip(i + 1));
        }
        if c == '+' {
            let ghost prev = cur@;
            let done = cur;
            cur = Vec::new();
            segs.push(done);
            proof {
                let rest = v@.skip(i as int);
                let r2 = split_plus(v@.skip(i + 1));
                assert(split_plus(rest) == seq![Seq::<char>::empty()] + r2);
                assert(split_plus(rest)[0] =~= Seq::<char>::empty());
                assert(prev + split_plus(rest)[0] =~= prev);
                assert(split_plus(rest)[1] == r2[0]);
                assert(cur@ + r2[0] =~= r2[0]);
                assert(forall|k: int|
                    1 <= k < r2.len() ==> #[trigger] r2[k] == split_plus(rest)[k + 1]);
            }
        } else {
            let ghost prev = cur@;
            cur.push(c);
            proof {
                let rest = v@.skip(i as int);
                let r2 = split_plus(v@.skip(i + 1));
                assert(split_plus(rest) == seq![seq![rest[0]] + r2[0]] + r2.skip(1));
                assert(split_plus(rest)[0] == seq![rest[0]] + r2[0]);
                assert(cur@ =~= prev.push(c));
                assert(cur@ + r2[0] =~= prev + split_plus(rest)[0]);
                assert(split_plus(rest).len() == r2.len());
                assert(forall|k: int|
                    1 <= k < r2.len() ==> #[trigger] r2[k] == r2.skip(1)[k - 1] && r2.skip(1)[k
                        - 1] == split_plus(rest)[k]);
            }
        }
        i = i + 1;
    }
    proof {
        let rest = v@.skip(i as int);
        assert(rest =~= Seq::<char>::empty());
        assert(split_plus(rest).len() == 1);
        assert(split_plus(rest)[0] =~= Seq::<char>::empty());
        assert(cur@ + split_plus(rest)[0] =~= cur@);
    }
    segs.push(cur);
    segs
}

} // verus!
