//! The dice types: a single die, a parsed expression, and the outcome of
//! rolling one, with parsing, canonical rendering and evaluation.

use vstd::prelude::*;
use rand::Rng;
use crate::grammar::{
    first_bad_idx, groups_of, insert_desc, mod_count, mod_sum, parse_term, parse_terms,
    render_dice, render_die, render_group, render_groups, render_result, render_roll_entry,
    render_rolls, rolls_match, sep, sort_desc, spec_parse, spec_parse_die, spec_parse_err,
    sum_counts, sum_rolls,
};
use crate::numerals::{parse_usize, render_i64, render_u64};
use crate::text::{
    chars_of, count_char, first_idx, lemma_first_idx, split_plus, split_plus_vec, string_of_chars,
    subvec, trim, trim_vec,
};

verus! {

/// Why a piece of dice notation was rejected: the offending text.
#[derive(Debug)]
pub enum DiceError {
    Unparseable(String),
}

impl DiceError {
    /// The message the program shows for this error.
    pub fn message(&self) -> (r: String)
        ensures
            r@ == "Could not understand roll: "@ + (match self {
                DiceError::Unparseable(t) => t@,
            }),
    {
        let mut r = String::new();
        r.append("Could not understand roll: ");
        match self {
            DiceError::Unparseable(t) => {
                r.append(t.as_str());
            },
        }
        r
    }
}

/// A single die, identified by its number of sides.
#[derive(Clone, Copy, Debug, Eq, PartialEq, Structural)]
pub struct Die {
    pub sides: u16,
}

/// Relies on `rand::thread_rng` and `rand::Rng::gen_range` over the
/// inclusive range `1..=sides`: the draw lies in that range; the range must
/// be nonempty or the call panics. `thread_rng` can itself abort at first
/// use if the OS entropy source fails.
#[verifier::external_body]
fn sample_uniform(sides: u16) -> (r: u16)
    requires
        sides >= 1,
    ensures
        1 <= r <= sides,
{
    rand::thread_rng().gen_range(1..=sides)
}

impl Die {
    /// One uniformly random outcome of this die.
    pub fn roll(&self) -> (r: u16)
        requires
            self.sides >= 1,
        ensures
            1 <= r <= self.sides,
    {
        sample_uniform(self.sides)
    }

    /// Reads a die written `d<sides>`, surrounding whitespace allowed.
    pub fn parse(s: &str) -> (r: Result<Die, DiceError>)
        ensures
            r is Ok <==> spec_parse_die(s@) is Some,
            r is Ok ==> spec_parse_die(s@) == Some(r->Ok_0),
            r is Err ==> (r->Err_0 matches DiceError::Unparseable(t) && t@ == s@),
    {
        let v = chars_of(s);
        let t = trim_vec(&v);
        if t.len() >= 2 && t[0] == 'd' {
            let digits = subvec(&t, 1, t.len());
            proof {
                assert(digits@ =~= trim(s@).skip(1));
            }
            match parse_usize(&digits) {
                Some(n) if n <= u16::MAX as usize => Ok(Die { sides: n as u16 }),
                _ => Err(DiceError::Unparseable(string_of_chars(&v))),
            }
        } else {
            Err(DiceError::Unparseable(string_of_chars(&v)))
        }
    }

    /// Canonical text of this die: `d<sides>`.
    pub fn render(&self) -> (r: String)
        ensures
            r@ == render_die(self.sides as nat),
    {
        let mut out: Vec<char> = Vec::new();
        out.push('d');
        let digits = render_u64(self.sides as u64);
        let mut i: usize = 0;
        while i < digits.len()
            invariant
                i <= digits@.len(),
                out@ == seq!['d'] + digits@.take(i as int),
            decreases digits@.len() - i,
        {
            out.push(digits[i]);
            proof {
                assert(digits@.take(i + 1) =~= digits@.take(i as int).push(digits@[i as int]));
                assert(seq!['d'] + digits@.take(i + 1) =~= (seq!['d'] + digits@.take(
                    i as int,
                )).push(digits@[i as int]));
            }
            i = i + 1;
        }
        proof {
            assert(digits@.take(digits@.len() as int) =~= digits@);
        }
        string_of_chars(&out)
    }
}

/// One token of an expression: a repeated die, or a flat modifier.
#[derive(Clone, Debug, Eq, PartialEq)]
pub enum DiceSpecPart {
    Die { die: Die, count: usize },
    Modifier(i32),
}

/// A parsed expression: die groups in order, and the aggregated modifier
/// (`None` exactly when no modifier term appeared). The two ways of
/// building one order groups differently, deliberately: `parse` keeps them
/// in encounter order, `new` sorts them by falling side count.
#[derive(Clone, Debug, Eq, PartialEq)]
pub struct Dice {
    counts: Vec<(u16, usize)>,
    modifier: Option<i32>,
}

impl Dice {
    /// The die groups as `(sides, count)` pairs, in stored order.
    pub closed spec fn groups(&self) -> Seq<(u16, usize)> {
        self.counts@
    }

    /// The aggregated modifier.
    pub closed spec fn spec_modifier(&self) -> Option<i32> {
        self.modifier
    }
}

/// The result of one evaluation: every die with its sampled value, in draw
/// order, plus the modifier (zero when the expression had none).
#[derive(Clone, Debug, Eq, PartialEq)]
pub struct RollResult {
    rolls: Vec<(Die, u16)>,
    modifier: i32,
}

impl RollResult {
    /// The sampled dice, in draw order.
    pub closed spec fn spec_rolls(&self) -> Seq<(Die, u16)> {
        self.rolls@
    }

    /// The modifier carried into this outcome.
    pub closed spec fn spec_modifier(&self) -> i32 {
        self.modifier
    }
}

proof fn lemma_insert_desc_at(s: Seq<(u16, usize)>, x: (u16, usize), i: int)
    requires
        0 <= i <= s.len(),
        forall|j: int| 0 <= j < i ==> (#[trigger] s[j]).0 >= x.0,
        i == s.len() || s[i].0 < x.0,
    ensures
        insert_desc(s, x) == s.take(i) + seq![x] + s.skip(i),
    decreases i,
{
    if i == 0 {
        if s.len() == 0 {
            assert(insert_desc(s, x) =~= s.take(0) + seq![x] + s.skip(0));
        } else {
            assert(insert_desc(s, x) =~= s.take(0) + seq![x] + s.skip(0));
        }
    } else {
        assert(s[0].0 >= x.0);
        lemma_insert_desc_at(s.skip(1), x, i - 1);
        assert(s.skip(1).take(i - 1) =~= s.take(i).skip(1));
        assert(s.skip(1).skip(i - 1) =~= s.skip(i));
        assert(seq![s[0]] + (s.skip(1).take(i - 1) + seq![x] + s.skip(1).skip(i - 1)) =~= s.take(i)
            + seq![x] + s.skip(i));
    }
}

fn insert_sorted(v: &mut Vec<(u16, usize)>, x: (u16, usize))
    ensures
        final(v)@ == insert_desc(old(v)@, x),
{
    let mut i: usize = 0;
    while i < v.len() && v[i].0 >= x.0
        invariant
            i <= v@.len(),
            forall|j: int| 0 <= j < i ==> (#[trigger] v@[j]).0 >= x.0,
            v@ == old(v)@,
        decreases v@.len() - i,
    {
        i = i + 1;
    }
    proof {
        lemma_insert_desc_at(v@, x, i as int);
    }
    v.insert(i, x);
    proof {
        assert(old(v)@.insert(i as int, x) =~= old(v)@.take(i as int) + seq![x] + old(v)@.skip(
            i as int,
        ));
    }
}

proof fn lemma_sum_counts_nonneg(s: Seq<(u16, usize)>, i: int)
    requires
        0 <= i <= s.len(),
    ensures
        sum_counts(s.take(i)) >= 0,
    decreases i,
{
    if i > 0 {
        lemma_sum_counts_nonneg(s, i - 1);
        assert(s.take(i).drop_last() =~= s.take(i - 1));
        assert(sum_counts(s.take(i)) == sum_counts(s.take(i - 1)) + s[i - 1].1);
    }
}

/// Prefix sums of the group counts never exceed the full sum.
proof fn lemma_sum_counts_mono(s: Seq<(u16, usize)>, i: int, j: int)
    requires
        0 <= i <= j <= s.len(),
    ensures
        0 <= sum_counts(s.take(i)) <= sum_counts(s.take(j)),
    decreases j - i,
{
    lemma_sum_counts_nonneg(s, i);
    if i < j {
        lemma_sum_counts_mono(s, i, j - 1);
        assert(s.take(j).drop_last() =~= s.take(j - 1));
        assert(sum_counts(s.take(j)) == sum_counts(s.take(j - 1)) + s[j - 1].1);
    }
}

proof fn lemma_sum_rolls_nonneg(s: Seq<(Die, u16)>, i: int)
    requires
        0 <= i <= s.len(),
    ensures
        sum_rolls(s.take(i)) >= 0,
    decreases i,
{
    if i > 0 {
        lemma_sum_rolls_nonneg(s, i - 1);
        assert(s.take(i).drop_last() =~= s.take(i - 1));
        assert(sum_rolls(s.take(i)) == sum_rolls(s.take(i - 1)) + s[i - 1].1);
    }
}

/// Prefix sums of the sampled values never exceed the full sum.
proof fn lemma_sum_rolls_mono(s: Seq<(Die, u16)>, i: int, j: int)
    requires
        0 <= i <= j <= s.len(),
    ensures
        0 <= sum_rolls(s.take(i)) <= sum_rolls(s.take(j)),
    decreases j - i,
{
    lemma_sum_rolls_nonneg(s, i);
    if i < j {
        lemma_sum_rolls_mono(s, i, j - 1);
        assert(s.take(j).drop_last() =~= s.take(j - 1));
        assert(sum_rolls(s.take(j)) == sum_rolls(s.take(j - 1)) + s[j - 1].1);
    }
}

impl Dice {
    /// An expression built directly from groups and a modifier; the groups
    /// are stably sorted by falling side count.
    pub fn new(counts: &[(u16, usize)], modifier: Option<i32>) -> (d: Dice)
        ensures
            d.groups() == sort_desc(counts@),
            d.spec_modifier() == modifier,
    {
        let mut sorted: Vec<(u16, usize)> = Vec::new();
        let n = counts.len();
        let mut i: usize = 0;
        while i < n
            invariant
                i <= counts@.len(),
                n == counts@.len(),
                sorted@ == sort_desc(counts@.take(i as int)),
            decreases n - i,
        {
            let x = counts[i];
            insert_sorted(&mut sorted, x);
            proof {
                assert(counts@.take(i + 1).drop_last() =~= counts@.take(i as int));
                assert(counts@.take(i + 1).last() == counts@[i as int]);
            }
            i = i + 1;
        }
        proof {
            assert(counts@.take(counts@.len() as int) =~= counts@);
        }
        Dice { counts: sorted, modifier }
    }

    /// The die groups, in stored order.
    pub fn counts(&self) -> (r: &[(u16, usize)])
        ensures
            r@ == self.groups(),
    {
        self.counts.as_slice()
    }

    /// The aggregated modifier, `None` when no modifier term appeared.
    pub fn modifier(&self) -> (r: Option<i32>)
        ensures
            r == self.spec_modifier(),
    {
        self.modifier
    }

    /// How many physical dice the expression rolls.
    pub fn num_dice(&self) -> (r: usize)
        requires
            sum_counts(self.groups()) <= usize::MAX,
        ensures
            r == sum_counts(self.groups()),
    {
        let mut total: usize = 0;
        let mut i: usize = 0;
        while i < self.counts.len()
            invariant
                i <= self.counts@.len(),
                sum_counts(self.counts@) <= usize::MAX,
                total == sum_counts(self.counts@.take(i as int)),
            decreases self.counts@.len() - i,
        {
            proof {
                lemma_sum_counts_mono(self.counts@, i + 1, self.counts@.len() as int);
                assert(self.counts@.take(self.counts@.len() as int) =~= self.counts@);
                assert(self.counts@.take(i + 1).drop_last() =~= self.counts@.take(i as int));
                assert(sum_counts(self.counts@.take(i + 1)) == sum_counts(self.counts@.take(
                    i as int,
                )) + self.counts@[i as int].1);
            }
            total = total + self.counts[i].1;
            i = i + 1;
        }
        proof {
            assert(self.counts@.take(self.counts@.len() as int) =~= self.counts@);
        }
        total
    }
}

impl RollResult {
    /// Every die with its sampled value, in draw order.
    pub fn rolls(&self) -> (r: &[(Die, u16)])
        ensures
            r@ == self.spec_rolls(),
    {
        self.rolls.as_slice()
    }

    /// The modifier carried into this outcome.
    pub fn modifier(&self) -> (r: i32)
        ensures
            r == self.spec_modifier(),
    {
        self.modifier
    }

    /// Sum of every sampled value plus the modifier.
    pub fn total(&self) -> (r: i32)
        requires
            sum_rolls(self.spec_rolls()) <= i32::MAX,
            i32::MIN <= sum_rolls(self.spec_rolls()) + self.spec_modifier() <= i32::MAX,
        ensures
            r == sum_rolls(self.spec_rolls()) + self.spec_modifier(),
    {
        let mut sum: i32 = 0;
        let mut i: usize = 0;
        while i < self.rolls.len()
            invariant
                i <= self.rolls@.len(),
                sum_rolls(self.rolls@) <= i32::MAX,
                sum == sum_rolls(self.rolls@.take(i as int)),
            decreases self.rolls@.len() - i,
        {
            proof {
                lemma_sum_rolls_mono(self.rolls@, i + 1, self.rolls@.len() as int);
                lemma_sum_rolls_mono(self.rolls@, i as int, i + 1);
                assert(self.rolls@.take(self.rolls@.len() as int) =~= self.rolls@);
                assert(self.rolls@.take(i + 1).drop_last() =~= self.rolls@.take(i as int));
                assert(sum_rolls(self.rolls@.take(i + 1)) == sum_rolls(self.rolls@.take(i as int))
                    + self.rolls@[i as int].1);
            }
            sum = sum + self.rolls[i].1 as i32;
            i = i + 1;
        }
        proof {
            assert(self.rolls@.take(self.rolls@.len() as int) =~= self.rolls@);
        }
        sum + self.modifier
    }
}


proof fn lemma_first_bad_idx_at(segs: Seq<Seq<char>>, k: int)
    requires
        0 <= k < segs.len(),
        parse_term(trim(segs[k])) is None,
        forall|j: int| 0 <= j < k ==> parse_term(trim(#[trigger] segs[j])) is Some,
    ensures
        first_bad_idx(segs) == k,
    decreases k,
{
    if k > 0 {
        assert(parse_term(trim(segs[0])) is Some);
        assert(forall|j: int| 0 <= j < segs.skip(1).len() ==> #[trigger] segs.skip(1)[j] == segs[
            j + 1
        ]);
        lemma_first_bad_idx_at(segs.skip(1), k - 1);
    }
}

fn parse_term_exec(seg: &Vec<char>) -> (r: Option<DiceSpecPart>)
    ensures
        r == parse_term(seg@),
{
    let n = seg.len();
    let mut dcount: usize = 0;
    let mut fi: usize = n;
    let mut i: usize = 0;
    proof {
        assert(seg@.skip(0) =~= seg@);
    }
    while i < n
        invariant
            i <= n,
            n == seg@.len(),
            dcount <= i,
            count_char(seg@, 'd') == dcount + count_char(seg@.skip(i as int), 'd'),
            fi <= n,
            dcount == 0 ==> fi == n,
            dcount > 0 ==> fi < i && seg@[fi as int] == 'd',
            forall|j: int| 0 <= j < i && j < fi ==> seg@[j] != 'd',
        decreases n - i,
    {
        proof {
            let rest = seg@.skip(i as int);
            assert(rest[0] == seg@[i as int]);
            assert(rest.skip(1) =~= seg@.skip(i + 1));
        }
        let c = seg[i];
        if c == 'd' {
            if dcount == 0 {
                fi = i;
            }
            dcount = dcount + 1;
        }
        i = i + 1;
    }
    proof {
        assert(seg@.skip(n as int) =~= Seq::<char>::empty());
        lemma_first_idx(seg@, 'd');
        if dcount >= 1 {
            assert(seg@[fi as int] == 'd');
            assert(first_idx(seg@, 'd') == fi);
        }
    }
    if dcount == 1 {
        let cpart = subvec(seg, 0, fi);
        let spart = subvec(seg, fi + 1, n);
        proof {
            assert(cpart@ =~= seg@.take(first_idx(seg@, 'd')));
            assert(spart@ =~= seg@.skip(first_idx(seg@, 'd') + 1));
        }
        let count: usize = if cpart.len() == 0 {
            1
        } else {
            match parse_usize(&cpart) {
                Option::None => {
                    return None;
                },
                Option::Some(c) => c,
            }
        };
        match parse_usize(&spart) {
            Option::None => None,
            Option::Some(sides) => {
                if sides <= 65535 {
                    Some(DiceSpecPart::Die { die: Die { sides: sides as u16 }, count })
                } else {
                    None
                }
            },
        }
    } else if dcount == 0 {
        if n >= 1 && seg[0] == '-' {
            let mag = subvec(seg, 1, n);
            proof {
                assert(mag@ =~= seg@.skip(1));
            }
            match parse_usize(&mag) {
                Option::None => None,
                Option::Some(m) => {
                    if m <= 2147483647 {
                        Some(DiceSpecPart::Modifier(-(m as i32)))
                    } else if m == 2147483648 {
                        Some(DiceSpecPart::Modifier(i32::MIN))
                    } else {
                        None
                    }
                },
            }
        } else if n >= 1 && seg[0] == '+' {
            let mag = subvec(seg, 1, n);
            proof {
                assert(mag@ =~= seg@.skip(1));
            }
            match parse_usize(&mag) {
                Option::None => None,
                Option::Some(m) => {
                    if m <= 2147483647 {
                        Some(DiceSpecPart::Modifier(m as i32))
                    } else {
                        None
                    }
                },
            }
        } else {
            match parse_usize(seg) {
                Option::None => None,
                Option::Some(m) => {
                    if m <= 2147483647 {
                        Some(DiceSpecPart::Modifier(m as i32))
                    } else {
                        None
                    }
                },
            }
        }
    } else {
        None
    }
}

impl Dice {
    /// Parses a whole expression: segments split on `+`, each a die term or
    /// a modifier term, groups kept in encounter order and never merged.
    /// Fails on the first malformed segment, and when the summed modifier
    /// leaves the `i32` range.
    pub fn parse(s: &str) -> (r: Result<Dice, DiceError>)
        ensures
            r is Ok <==> spec_parse(s@) is Some,
            r is Ok ==> spec_parse(s@) == Some((r->Ok_0.groups(), r->Ok_0.spec_modifier())),
            r is Err ==> (r->Err_0 matches DiceError::Unparseable(t) && t@ == spec_parse_err(
                s@,
            )),
    {
        let v = chars_of(s);
        let segs = split_plus_vec(&v);
        let ghost segviews = split_plus(v@);
        let mut terms: Vec<DiceSpecPart> = Vec::new();
        let mut k: usize = 0;
        proof {
            assert(segviews.skip(0) =~= segviews);
            assert(terms@ + parse_terms(segviews)->Some_0 =~= parse_terms(segviews)->Some_0);
        }
        while k < segs.len()
            invariant
                k <= segs@.len(),
                segs@.len() == segviews.len(),
                segviews == split_plus(v@),
                v@ == s@,
                forall|j: int| 0 <= j < segs@.len() ==> #[trigger] segs@[j]@ == segviews[j],
                forall|j: int| 0 <= j < k ==> parse_term(trim(#[trigger] segviews[j])) is Some,
                parse_terms(segviews) == (match parse_terms(segviews.skip(k as int)) {
                    Option::None => Option::<Seq<DiceSpecPart>>::None,
                    Option::Some(r) => Option::Some(terms@ + r),
                }),
            decreases segs@.len() - k,
        {
            let t = trim_vec(&segs[k]);
            proof {
                let rest = segviews.skip(k as int);
                assert(rest[0] == segviews[k as int]);
                assert(rest.skip(1) =~= segviews.skip(k + 1));
            }
            match parse_term_exec(&t) {
                Option::None => {
                    proof {
                        assert(parse_terms(segviews.skip(k as int)) is None);
                        lemma_first_bad_idx_at(segviews, k as int);
                        assert(t@ == trim(segviews[first_bad_idx(segviews)]));
                    }
                    return Err(DiceError::Unparseable(string_of_chars(&t)));
                },
                Option::Some(term) => {
                    let ghost prev = terms@;
                    terms.push(term);
                    proof {
                        let rnext = parse_terms(segviews.skip(k + 1));
                        if rnext is Some {
                            assert(prev + (seq![term] + rnext->Some_0) =~= terms@
                                + rnext->Some_0);
                        }
                    }
                },
            }
            k = k + 1;
        }
        proof {
            assert(segviews.skip(segviews.len() as int) =~= Seq::<Seq<char>>::empty());
            assert(terms@ + Seq::<DiceSpecPart>::empty() =~= terms@);
            assert(parse_terms(segviews) == Some(terms@));
        }
        let mut groups: Vec<(u16, usize)> = Vec::new();
        let mut mcount: usize = 0;
        let mut macc: i128 = 0;
        let mut j: usize = 0;
        proof {
            assert(terms@.skip(0) =~= terms@);
            assert(groups@ + groups_of(terms@) =~= groups_of(terms@));
        }
        while j < terms.len()
            invariant
                j <= terms@.len(),
                groups_of(terms@) == groups@ + groups_of(terms@.skip(j as int)),
                mod_count(terms@) == mcount + mod_count(terms@.skip(j as int)),
                mod_sum(terms@) == macc + mod_sum(terms@.skip(j as int)),
                mcount <= j,
                -((j as int) * 2147483648) <= macc <= (j as int) * 2147483648,
            decreases terms@.len() - j,
        {
            proof {
                let rest = terms@.skip(j as int);
                assert(rest[0] == terms@[j as int]);
                assert(rest.skip(1) =~= terms@.skip(j + 1));
                assert((j as int) * 2147483648 + 2147483648 == ((j as int) + 1) * 2147483648)
                    by (nonlinear_arith);
                assert(((j as int) + 1) * 2147483648 <= 340282366920938463463374607431768211455int)
                    by (nonlinear_arith)
                    requires
                        0 <= j < 18446744073709551616int,
                ;
            }
            let ghost prevg = groups@;
            match terms[j] {
                DiceSpecPart::Die { die, count } => {
                    groups.push((die.sides, count));
                    proof {
                        assert(prevg + (seq![(die.sides, count)] + groups_of(terms@.skip(j + 1)))
                            =~= groups@ + groups_of(terms@.skip(j + 1)));
                    }
                },
                DiceSpecPart::Modifier(m) => {
                    mcount = mcount + 1;
                    macc = macc + m as i128;
                },
            }
            j = j + 1;
        }
        proof {
            assert(terms@.skip(terms@.len() as int) =~= Seq::<DiceSpecPart>::empty());
            assert(groups@ + Seq::<(u16, usize)>::empty() =~= groups@);
        }
        if mcount == 0 {
            Ok(Dice { counts: groups, modifier: None })
        } else if -2147483648 <= macc && macc <= 2147483647 {
            Ok(Dice { counts: groups, modifier: Some(macc as i32) })
        } else {
            Err(DiceError::Unparseable(string_of_chars(&v)))
        }
    }
}


fn append_chars(out: &mut Vec<char>, p: &Vec<char>)
    ensures
        final(out)@ == old(out)@ + p@,
{
    let mut i: usize = 0;
    while i < p.len()
        invariant
            i <= p@.len(),
            out@ == old(out)@ + p@.take(i as int),
        decreases p@.len() - i,
    {
        out.push(p[i]);
        proof {
            assert(p@.take(i + 1) =~= p@.take(i as int).push(p@[i as int]));
            assert(old(out)@ + p@.take(i + 1) =~= (old(out)@ + p@.take(i as int)).push(
                p@[i as int],
            ));
        }
        i = i + 1;
    }
    proof {
        assert(p@.take(p@.len() as int) =~= p@);
    }
}

/// Joining one more group appends a separator and its rendering.
proof fn lemma_render_groups_snoc(gs: Seq<(u16, usize)>)
    requires
        gs.len() >= 2,
    ensures
        render_groups(gs) == render_groups(gs.drop_last()) + sep() + render_group(gs.last()),
    decreases gs.len(),
{
    if gs.len() == 2 {
        assert(gs.skip(1).len() == 1);
        assert(gs.skip(1)[0] == gs[1]);
        assert(gs.drop_last().len() == 1);
        assert(gs.drop_last()[0] == gs[0]);
        assert(render_groups(gs.skip(1)) == render_group(gs[1]));
        assert(render_groups(gs) =~= render_groups(gs.drop_last()) + sep() + render_group(
            gs.last(),
        ));
    } else {
        lemma_render_groups_snoc(gs.skip(1));
        assert(gs.skip(1).drop_last() =~= gs.drop_last().skip(1));
        assert(gs.skip(1).last() == gs.last());
        assert(render_groups(gs.drop_last()) == render_group(gs[0]) + sep() + render_groups(
            gs.drop_last().skip(1),
        ));
        assert(render_group(gs[0]) + sep() + (render_groups(gs.drop_last().skip(1)) + sep()
            + render_group(gs.last())) =~= (render_group(gs[0]) + sep() + render_groups(
            gs.drop_last().skip(1),
        )) + sep() + render_group(gs.last()));
    }
}

/// Joining one more sampled die appends a separator and its breakdown.
proof fn lemma_render_rolls_snoc(rs: Seq<(Die, u16)>)
    requires
        rs.len() >= 2,
    ensures
        render_rolls(rs) == render_rolls(rs.drop_last()) + sep() + render_roll_entry(rs.last()),
    decreases rs.len(),
{
    if rs.len() == 2 {
        assert(rs.skip(1).len() == 1);
        assert(rs.skip(1)[0] == rs[1]);
        assert(rs.drop_last().len() == 1);
        assert(rs.drop_last()[0] == rs[0]);
        assert(render_rolls(rs.skip(1)) == render_roll_entry(rs[1]));
        assert(render_rolls(rs) =~= render_rolls(rs.drop_last()) + sep() + render_roll_entry(
            rs.last(),
        ));
    } else {
        lemma_render_rolls_snoc(rs.skip(1));
        assert(rs.skip(1).drop_last() =~= rs.drop_last().skip(1));
        assert(rs.skip(1).last() == rs.last());
        assert(render_rolls(rs.drop_last()) == render_roll_entry(rs[0]) + sep() + render_rolls(
            rs.drop_last().skip(1),
        ));
        assert(render_roll_entry(rs[0]) + sep() + (render_rolls(rs.drop_last().skip(1)) + sep()
            + render_roll_entry(rs.last())) =~= (render_roll_entry(rs[0]) + sep() + render_rolls(
            rs.drop_last().skip(1),
        )) + sep() + render_roll_entry(rs.last()));
    }
}

/// Rolls that cover some groups, extended by one fully sampled group, cover
/// the groups extended by it.
proof fn lemma_rolls_match_append(
    gs: Seq<(u16, usize)>,
    rs: Seq<(Die, u16)>,
    g: (u16, usize),
    ext: Seq<(Die, u16)>,
)
    requires
        rolls_match(gs, rs),
        ext.len() == g.1,
        forall|i: int| 0 <= i < ext.len() ==> (#[trigger] ext[i]).0.sides == g.0 && 1 <= ext[i].1
            <= g.0,
    ensures
        rolls_match(gs.push(g), rs + ext),
    decreases gs.len(),
{
    if gs.len() == 0 {
        assert(rs.len() == 0);
        assert(rs + ext =~= ext);
        assert(gs.push(g)[0] == g);
        assert((rs + ext).skip(g.1 as int) =~= Seq::<(Die, u16)>::empty());
        assert(gs.push(g).skip(1) =~= Seq::<(u16, usize)>::empty());
        assert(rolls_match(Seq::<(u16, usize)>::empty(), Seq::<(Die, u16)>::empty()));
        assert(rolls_match(gs.push(g).skip(1), (rs + ext).skip(g.1 as int)));
        assert(forall|i: int| 0 <= i < g.1 ==> (rs + ext)[i] == ext[i]);
        assert(rolls_match(gs.push(g), rs + ext));
    } else {
        let c = gs[0].1 as int;
        assert(rs.len() >= c);
        lemma_rolls_match_append(gs.skip(1), rs.skip(c), g, ext);
        assert(gs.push(g)[0] == gs[0]);
        assert(forall|i: int| 0 <= i < c ==> (rs + ext)[i] == rs[i]);
        assert(gs.push(g).skip(1) =~= gs.skip(1).push(g));
        assert((rs + ext).skip(c) =~= rs.skip(c) + ext);
        assert(rolls_match(gs.push(g).skip(1), (rs + ext).skip(c)));
        assert(rolls_match(gs.push(g), rs + ext));
    }
}

impl Dice {
    /// Canonical text of the expression: the groups as `<count>d<sides>`
    /// joined by ` + `, then the modifier as one more term when present.
    pub fn render(&self) -> (r: String)
        ensures
            r@ == render_dice(self.groups(), self.spec_modifier()),
    {
        let mut out: Vec<char> = Vec::new();
        let mut i: usize = 0;
        proof {
            assert(self.counts@.take(0) =~= Seq::<(u16, usize)>::empty());
        }
        while i < self.counts.len()
            invariant
                i <= self.counts@.len(),
                out@ == render_groups(self.counts@.take(i as int)),
            decreases self.counts@.len() - i,
        {
            let ghost prev = out@;
            if i > 0 {
                out.push(' ');
                out.push('+');
                out.push(' ');
                proof {
                    assert(out@ =~= prev + sep());
                }
            }
            let ghost mid = out@;
            let pair = self.counts[i];
            let cdigits = render_u64(pair.1 as u64);
            append_chars(&mut out, &cdigits);
            out.push('d');
            let sdigits = render_u64(pair.0 as u64);
            append_chars(&mut out, &sdigits);
            proof {
                let g = self.counts@[i as int];
                assert(out@ =~= mid + render_group(g));
                let tnext = self.counts@.take(i + 1);
                assert(tnext.drop_last() =~= self.counts@.take(i as int));
                assert(tnext.last() == g);
                if i == 0 {
                    assert(tnext.len() == 1);
                    assert(tnext[0] == g);
                    assert(render_groups(tnext) == render_group(g));
                    assert(out@ =~= render_group(g));
                } else {
                    lemma_render_groups_snoc(tnext);
                    assert(out@ =~= render_groups(self.counts@.take(i as int)) + sep()
                        + render_group(g));
                }
            }
            i = i + 1;
        }
        proof {
            assert(self.counts@.take(self.counts@.len() as int) =~= self.counts@);
        }
        match self.modifier {
            Option::None => string_of_chars(&out),
            Option::Some(m) => {
                let mdigits = render_i64(m as i64);
                if self.counts.len() == 0 {
                    string_of_chars(&mdigits)
                } else {
                    let ghost prev = out@;
                    out.push(' ');
                    out.push('+');
                    out.push(' ');
                    proof {
                        assert(out@ =~= prev + sep());
                    }
                    append_chars(&mut out, &mdigits);
                    string_of_chars(&out)
                }
            },
        }
    }

    /// Rolls every die of every group in order and carries the modifier
    /// through (zero when absent).
    pub fn roll(&self) -> (r: RollResult)
        requires
            forall|i: int| 0 <= i < self.groups().len() ==> (#[trigger] self.groups()[i]).0 >= 1,
        ensures
            rolls_match(self.groups(), r.spec_rolls()),
            r.spec_modifier() == (match self.spec_modifier() {
                Option::Some(m) => m,
                Option::None => 0,
            }),
    {
        let mut outcomes: Vec<(Die, u16)> = Vec::new();
        let mut gi: usize = 0;
        proof {
            assert(self.counts@.take(0) =~= Seq::<(u16, usize)>::empty());
            assert forall|i: int|
                0 <= i < self.counts@.len() implies (#[trigger] self.counts@[i]).0 >= 1 by {
                assert(self.groups()[i].0 >= 1);
            }
        }
        while gi < self.counts.len()
            invariant
                gi <= self.counts@.len(),
                forall|i: int| 0 <= i < self.counts@.len() ==> (#[trigger] self.counts@[i]).0
                    >= 1,
                rolls_match(self.counts@.take(gi as int), outcomes@),
            decreases self.counts@.len() - gi,
        {
            let pair = self.counts[gi];
            let die = Die { sides: pair.0 };
            let ghost base = outcomes@;
            let mut j: usize = 0;
            while j < pair.1
                invariant
                    j <= pair.1,
                    pair.0 >= 1,
                    die.sides == pair.0,
                    outcomes@.len() == base.len() + j,
                    outcomes@.take(base.len() as int) == base,
                    forall|k: int| base.len() <= k < outcomes@.len() ==> (#[trigger] outcomes@[k]).0.sides
                        == pair.0 && 1 <= outcomes@[k].1 <= pair.0,
                decreases pair.1 - j,
            {
                let v = die.roll();
                outcomes.push((die, v));
                proof {
                    assert(outcomes@.take(base.len() as int) =~= base);
                }
                j = j + 1;
            }
            proof {
                let tnext = self.counts@.take(gi + 1);
                assert(tnext =~= self.counts@.take(gi as int).push(self.counts@[gi as int]));
                let ext = outcomes@.skip(base.len() as int);
                assert(base + ext =~= outcomes@);
                assert(forall|k: int| 0 <= k < ext.len() ==> ext[k] == outcomes@[base.len() + k]);
                lemma_rolls_match_append(self.counts@.take(gi as int), base, self.counts@[gi as int], ext);
            }
            gi = gi + 1;
        }
        proof {
            assert(self.counts@.take(self.counts@.len() as int) =~= self.counts@);
        }
        RollResult {
            rolls: outcomes,
            modifier: match self.modifier {
                Option::Some(m) => m,
                Option::None => 0,
            },
        }
    }
}

impl RollResult {
    /// The human-readable breakdown: every die with its value, the
    /// modifier, and the total.
    pub fn render(&self) -> (r: String)
        requires
            sum_rolls(self.spec_rolls()) <= i32::MAX,
            i32::MIN <= sum_rolls(self.spec_rolls()) + self.spec_modifier() <= i32::MAX,
        ensures
            r@ == render_result(self.spec_rolls(), self.spec_modifier()),
    {
        let mut out: Vec<char> = Vec::new();
        if self.rolls.len() == 0 {
            out.push('(');
            out.push('n');
            out.push('o');
            out.push(' ');
            out.push('d');
            out.push('i');
            out.push('c');
            out.push('e');
            out.push(')');
            proof {
                assert(out@ =~= render_rolls(self.rolls@));
            }
        } else {
            let mut i: usize = 0;
            proof {
                assert(self.rolls@.take(0) =~= Seq::<(Die, u16)>::empty());
            }
            while i < self.rolls.len()
                invariant
                    i <= self.rolls@.len(),
                    i == 0 ==> out@ == Seq::<char>::empty(),
                    i > 0 ==> out@ == render_rolls(self.rolls@.take(i as int)),
                decreases self.rolls@.len() - i,
            {
                let ghost prev = out@;
                if i > 0 {
                    out.push(' ');
                    out.push('+');
                    out.push(' ');
                    proof {
                        assert(out@ =~= prev + sep());
                    }
                }
                let ghost mid = out@;
                let pair = self.rolls[i];
                out.push('(');
                out.push('d');
                let sdigits = render_u64(pair.0.sides as u64);
                append_chars(&mut out, &sdigits);
                out.push(' ');
                out.push('-');
                out.push('>');
                out.push(' ');
                let vdigits = render_u64(pair.1 as u64);
                append_chars(&mut out, &vdigits);
                out.push(')');
                proof {
                    let e = self.rolls@[i as int];
                    assert(out@ =~= mid + render_roll_entry(e));
                    let tnext = self.rolls@.take(i + 1);
                    assert(tnext.drop_last() =~= self.rolls@.take(i as int));
                    assert(tnext.last() == e);
                    if i == 0 {
                        assert(tnext.len() == 1);
                        assert(tnext[0] == e);
                        assert(render_rolls(tnext) == render_roll_entry(e));
                        assert(out@ =~= render_roll_entry(e));
                    } else {
                        lemma_render_rolls_snoc(tnext);
                        assert(out@ =~= render_rolls(self.rolls@.take(i as int)) + sep()
                            + render_roll_entry(e));
                    }
                }
                i = i + 1;
            }
            proof {
                assert(self.rolls@.take(self.rolls@.len() as int) =~= self.rolls@);
            }
        }
        let ghost part1 = out@;
        out.push(' ');
        out.push('+');
        out.push(' ');
        out.push('(');
        out.push('m');
        out.push('o');
        out.push('d');
        out.push('i');
        out.push('f');
        out.push('i');
        out.push('e');
        out.push('r');
        out.push(' ');
        out.push('-');
        out.push('>');
        out.push(' ');
        proof {
            assert(out@ =~= part1 + seq![' ', '+', ' ', '(', 'm', 'o', 'd', 'i', 'f', 'i', 'e',
                'r', ' ', '-', '>', ' ']);
        }
        let mdigits = render_i64(self.modifier as i64);
        append_chars(&mut out, &mdigits);
        let ghost part2 = out@;
        out.push(')');
        out.push(' ');
        out.push('=');
        out.push(' ');
        proof {
            assert(out@ =~= part2 + seq![')', ' ', '=', ' ']);
        }
        let t = self.total();
        let tdigits = render_i64(t as i64);
        append_chars(&mut out, &tdigits);
        proof {
            assert(out@ =~= render_result(self.rolls@, self.modifier));
        }
        string_of_chars(&out)
    }
}

} // verus!

// The executable grammar: each function mirrors one specification function
// of the grammar module exactly.
