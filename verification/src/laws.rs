//! Laws the library obeys, proved once and for all: re-parsing a rendered
//! expression recovers the same structure, every evaluation's total stays
//! inside the range the groups and modifier dictate, and the direct
//! constructor's canonical order is a true stable sort of its input.

use vstd::prelude::*;
use vstd::multiset::Multiset;
use crate::dice::{Die, DiceSpecPart};
use crate::grammar::{
    groups_of, insert_desc, max_total, mod_count, mod_sum, parse_mod, parse_term, parse_terms,
    render_dice, render_group, render_groups, rolls_match, sep, sort_desc, spec_parse, sum_counts,
    sum_rolls,
};
use crate::numerals::{all_digits, dec_i, dec_u, digits_val, is_digit, lemma_dec_u};
use crate::text::{
    count_char, first_idx, is_space, lemma_first_idx, lemma_trim_back_take, lemma_trim_front_skip,
    split_plus, trim,
};

verus! {

/// The term a die group came from.
pub open spec fn die_term(g: (u16, usize)) -> DiceSpecPart {
    DiceSpecPart::Die { die: Die { sides: g.0 }, count: g.1 }
}

/// The die terms of a group sequence, in order.
pub open spec fn die_terms(gs: Seq<(u16, usize)>) -> Seq<DiceSpecPart>
    decreases gs.len(),
{
    if gs.len() == 0 {
        Seq::empty()
    } else {
        seq![die_term(gs[0])] + die_terms(gs.skip(1))
    }
}

/// The terms a rendered expression parses back into: its die terms, then
/// its modifier if it has one.
pub open spec fn expected_terms(gs: Seq<(u16, usize)>, m: Option<i32>) -> Seq<DiceSpecPart> {
    die_terms(gs) + (match m {
        Option::Some(v) => seq![DiceSpecPart::Modifier(v)],
        Option::None => Seq::empty(),
    })
}

proof fn lemma_count_char_zero(s: Seq<char>, c: char)
    requires
        forall|i: int| 0 <= i < s.len() ==> s[i] != c,
    ensures
        count_char(s, c) == 0,
    decreases s.len(),
{
    if s.len() > 0 {
        assert(forall|i: int| 0 <= i < s.skip(1).len() ==> s.skip(1)[i] == s[i + 1]);
        lemma_count_char_zero(s.skip(1), c);
    }
}

proof fn lemma_count_char_concat(a: Seq<char>, b: Seq<char>, c: char)
    ensures
        count_char(a + b, c) == count_char(a, c) + count_char(b, c),
    decreases a.len(),
{
    if a.len() == 0 {
        assert(a + b =~= b);
    } else {
        assert((a + b)[0] == a[0]);
        assert((a + b).skip(1) =~= a.skip(1) + b);
        lemma_count_char_concat(a.skip(1), b, c);
    }
}

/// Digit strings hold no letter `d`, no sign, no whitespace.
proof fn lemma_digits_no(s: Seq<char>)
    requires
        all_digits(s),
    ensures
        count_char(s, 'd') == 0,
        count_char(s, '+') == 0,
        s.len() > 0 ==> !is_space(s[0]) && !is_space(s.last()) && s[0] != '-' && s[0] != 'd',
{
    assert(forall|i: int| 0 <= i < s.len() ==> s[i] != 'd') by {
        assert(forall|i: int| 0 <= i < s.len() ==> is_digit(s[i]));
    }
    assert(forall|i: int| 0 <= i < s.len() ==> s[i] != '+') by {
        assert(forall|i: int| 0 <= i < s.len() ==> is_digit(s[i]));
    }
    lemma_count_char_zero(s, 'd');
    lemma_count_char_zero(s, '+');
}

proof fn lemma_count_char_pos(s: Seq<char>, c: char, i: int)
    requires
        0 <= i < s.len(),
        s[i] == c,
    ensures
        count_char(s, c) >= 1,
    decreases s.len(),
{
    if i > 0 {
        assert(s.skip(1)[i - 1] == s[i]);
        lemma_count_char_pos(s.skip(1), c, i - 1);
    }
}

proof fn lemma_first_idx_at(s: Seq<char>, c: char, i: int)
    requires
        0 <= i < s.len(),
        s[i] == c,
        forall|j: int| 0 <= j < i ==> s[j] != c,
    ensures
        first_idx(s, c) == i,
{
    lemma_count_char_pos(s, c, i);
    lemma_first_idx(s, c);
    let f = first_idx(s, c);
    if f < i {
        assert(s[f] != c);
        assert(false);
    } else if f > i {
        assert(s[i] != c);
        assert(false);
    }
}

proof fn lemma_split_plus_no_plus(s: Seq<char>)
    requires
        count_char(s, '+') == 0,
    ensures
        split_plus(s) == seq![s],
    decreases s.len(),
{
    if s.len() == 0 {
        assert(split_plus(s) =~~= seq![s]);
    } else {
        assert(s[0] != '+') by {
            if s[0] == '+' {
                lemma_count_char_pos(s, '+', 0);
            }
        }
        assert(count_char(s.skip(1), '+') == 0) by {
            assert(count_char(s, '+') == (if s[0] == '+' {
                1nat
            } else {
                0nat
            }) + count_char(s.skip(1), '+'));
        }
        lemma_split_plus_no_plus(s.skip(1));
        assert(split_plus(s) =~~= seq![seq![s[0]] + s.skip(1)]);
        assert(seq![s[0]] + s.skip(1) =~= s);
        assert(split_plus(s) =~~= seq![s]);
    }
}

/// Splitting at the first `+`: everything before it is one segment.
proof fn lemma_split_plus_concat(a: Seq<char>, b: Seq<char>)
    requires
        count_char(a, '+') == 0,
    ensures
        split_plus(a + seq!['+'] + b) == seq![a] + split_plus(b),
    decreases a.len(),
{
    let s = a + seq!['+'] + b;
    if a.len() == 0 {
        assert(s =~= seq!['+'] + b);
        assert(s[0] == '+');
        assert(s.skip(1) =~= b);
        assert(split_plus(s) =~~= seq![Seq::<char>::empty()] + split_plus(b));
        assert(seq![a] =~~= seq![Seq::<char>::empty()]);
    } else {
        assert(s[0] == a[0]);
        assert(a[0] != '+') by {
            if a[0] == '+' {
                lemma_count_char_pos(a, '+', 0);
            }
        }
        assert(count_char(a.skip(1), '+') == 0) by {
            assert(count_char(a, '+') == (if a[0] == '+' {
                1nat
            } else {
                0nat
            }) + count_char(a.skip(1), '+'));
        }
        assert(s.skip(1) =~= a.skip(1) + seq!['+'] + b);
        lemma_split_plus_concat(a.skip(1), b);
        let r = split_plus(s.skip(1));
        assert(r == seq![a.skip(1)] + split_plus(b));
        crate::text::lemma_split_plus_len(b);
        assert(r[0] == a.skip(1));
        assert(split_plus(s) =~~= seq![seq![s[0]] + r[0]] + r.skip(1));
        assert(seq![s[0]] + r[0] =~= a);
        assert(r.skip(1) =~~= split_plus(b));
        assert(split_plus(s) =~~= seq![a] + split_plus(b));
    }
}

/// A token with no whitespace at its ends comes back unchanged from
/// trimming, whatever single spaces surround it.
proof fn lemma_trim_token(t: Seq<char>, l: Seq<char>, r: Seq<char>)
    requires
        t.len() > 0,
        !is_space(t[0]),
        !is_space(t.last()),
        forall|i: int| 0 <= i < l.len() ==> is_space(#[trigger] l[i]),
        forall|i: int| 0 <= i < r.len() ==> is_space(#[trigger] r[i]),
    ensures
        trim(l + t + r) == t,
{
    let u = l + t + r;
    assert(forall|j: int| 0 <= j < l.len() ==> is_space(#[trigger] u[j]));
    assert(u[l.len() as int] == t[0]);
    lemma_trim_front_skip(u, l.len() as int);
    assert(u.skip(l.len() as int) =~= t + r);
    let w = t + r;
    assert(forall|k: int| t.len() <= k < w.len() ==> is_space(#[trigger] w[k]));
    assert(w[t.len() - 1] == t.last());
    lemma_trim_back_take(w, t.len() as int);
    assert(w.take(t.len() as int) =~= t);
}


/// What leads each segment of a split never matters beyond its trim.
proof fn lemma_parse_terms_space(s: Seq<char>)
    ensures
        parse_terms(split_plus(seq![' '] + s)) == parse_terms(split_plus(s)),
{
    let u = seq![' '] + s;
    crate::text::lemma_split_plus_len(s);
    if s.len() == 0 {
        assert(u.skip(1) =~= s);
        assert(split_plus(u) =~~= seq![seq![' ']]);
        assert(split_plus(s) =~~= seq![Seq::<char>::empty()]);
        assert(trim(seq![' ']) == trim(Seq::<char>::empty())) by {
            assert(seq![' '].skip(1) =~= Seq::<char>::empty());
        }
        assert(seq![seq![' ']].skip(1) =~~= Seq::<Seq<char>>::empty());
        assert(seq![Seq::<char>::empty()].skip(1) =~~= Seq::<Seq<char>>::empty());
    } else {
        assert(u[0] == ' ');
        assert(u.skip(1) =~= s);
        if s[0] == '+' {
            assert(split_plus(u) =~~= seq![seq![' ']] + split_plus(s.skip(1)));
            assert(split_plus(s) =~~= seq![Seq::<char>::empty()] + split_plus(s.skip(1)));
            assert(trim(seq![' ']) == trim(Seq::<char>::empty())) by {
                assert(seq![' '].skip(1) =~= Seq::<char>::empty());
            }
            crate::text::lemma_split_plus_len(s.skip(1));
            assert((seq![seq![' ']] + split_plus(s.skip(1))).skip(1) =~~= split_plus(s.skip(1)));
            assert((seq![Seq::<char>::empty()] + split_plus(s.skip(1))).skip(1) =~~= split_plus(
                s.skip(1),
            ));
        } else {
            let r = split_plus(s);
            assert(split_plus(u) =~~= seq![seq![' '] + r[0]] + r.skip(1));
            assert(trim(seq![' '] + r[0]) == trim(r[0])) by {
                assert((seq![' '] + r[0]).skip(1) =~= r[0]);
            }
            assert(r =~~= seq![r[0]] + r.skip(1));
            assert((seq![seq![' '] + r[0]] + r.skip(1)).skip(1) =~~= r.skip(1));
            assert((seq![r[0]] + r.skip(1)).skip(1) =~~= r.skip(1));
            assert(parse_terms(seq![seq![' '] + r[0]] + r.skip(1)) == parse_terms(seq![r[0]]
                + r.skip(1)));
            assert(parse_terms(r) == parse_terms(seq![r[0]] + r.skip(1)));
        }
    }
}

/// A plus-free token followed by ` + ` and a rest: the token becomes the
/// first term, the rest parses on its own.
proof fn lemma_parse_cons(tok: Seq<char>, rest: Seq<char>)
    requires
        tok.len() > 0,
        count_char(tok, '+') == 0,
        !is_space(tok[0]),
        !is_space(tok.last()),
    ensures
        parse_terms(split_plus(tok + sep() + rest)) == (match parse_term(tok) {
            Option::None => Option::<Seq<DiceSpecPart>>::None,
            Option::Some(t) => match parse_terms(split_plus(rest)) {
                Option::None => Option::<Seq<DiceSpecPart>>::None,
                Option::Some(r) => Option::Some(seq![t] + r),
            },
        }),
{
    let a = tok + seq![' '];
    assert(tok + sep() + rest =~= a + seq!['+'] + (seq![' '] + rest));
    assert(count_char(a, '+') == 0) by {
        lemma_count_char_concat(tok, seq![' '], '+');
        lemma_count_char_zero(seq![' '], '+');
    }
    lemma_split_plus_concat(a, seq![' '] + rest);
    let segs = split_plus(tok + sep() + rest);
    assert(segs =~~= seq![a] + split_plus(seq![' '] + rest));
    lemma_parse_terms_space(rest);
    assert(trim(a) == tok) by {
        lemma_trim_token(tok, Seq::<char>::empty(), seq![' ']);
        assert(Seq::<char>::empty() + tok + seq![' '] =~= a);
    }
    assert(segs[0] == a);
    assert(segs.skip(1) =~~= split_plus(seq![' '] + rest));
}

/// A single plus-free token parses as a single term.
proof fn lemma_parse_one(tok: Seq<char>)
    requires
        tok.len() > 0,
        count_char(tok, '+') == 0,
        !is_space(tok[0]),
        !is_space(tok.last()),
    ensures
        parse_terms(split_plus(tok)) == (match parse_term(tok) {
            Option::None => Option::<Seq<DiceSpecPart>>::None,
            Option::Some(t) => Option::Some(seq![t]),
        }),
{
    lemma_split_plus_no_plus(tok);
    assert(trim(tok) == tok) by {
        lemma_trim_token(tok, Seq::<char>::empty(), Seq::<char>::empty());
        assert(Seq::<char>::empty() + tok + Seq::<char>::empty() =~= tok);
    }
    let segs = seq![tok];
    assert(segs.skip(1) =~~= Seq::<Seq<char>>::empty());
    assert(segs[0] == tok);
    assert(parse_terms(Seq::<Seq<char>>::empty()) == Some(Seq::<DiceSpecPart>::empty()));
    if parse_term(tok) is Some {
        let t = parse_term(tok)->Some_0;
        assert(seq![t] + Seq::<DiceSpecPart>::empty() =~= seq![t]);
    }
}

/// The canonical group token `<count>d<sides>` parses back to its group.
proof fn lemma_die_token(g: (u16, usize))
    ensures
        render_group(g).len() > 0,
        count_char(render_group(g), '+') == 0,
        !is_space(render_group(g)[0]),
        !is_space(render_group(g).last()),
        parse_term(render_group(g)) == Some(die_term(g)),
{
    let cd = dec_u(g.1 as nat);
    let sd = dec_u(g.0 as nat);
    let tok = render_group(g);
    lemma_dec_u(g.1 as nat);
    lemma_dec_u(g.0 as nat);
    lemma_digits_no(cd);
    lemma_digits_no(sd);
    assert(tok =~= cd + seq!['d'] + sd);
    assert(tok[0] == cd[0]);
    assert(tok.last() == sd.last());
    assert(count_char(tok, 'd') == 1) by {
        lemma_count_char_concat(cd + seq!['d'], sd, 'd');
        lemma_count_char_concat(cd, seq!['d'], 'd');
        assert(count_char(seq!['d'], 'd') == 1) by {
            assert(seq!['d'].skip(1) =~= Seq::<char>::empty());
            assert(count_char(Seq::<char>::empty(), 'd') == 0);
        }
    }
    assert(count_char(tok, '+') == 0) by {
        lemma_count_char_concat(cd + seq!['d'], sd, '+');
        lemma_count_char_concat(cd, seq!['d'], '+');
        assert(count_char(seq!['d'], '+') == 0) by {
            assert(seq!['d'].skip(1) =~= Seq::<char>::empty());
            assert(count_char(Seq::<char>::empty(), '+') == 0);
        }
    }
    assert(tok[cd.len() as int] == 'd');
    assert(forall|j: int| 0 <= j < cd.len() ==> tok[j] == cd[j]);
    lemma_first_idx_at(tok, 'd', cd.len() as int);
    assert(tok.take(cd.len() as int) =~= cd);
    assert(tok.skip(cd.len() as int + 1) =~= sd);
    assert(digits_val(cd) == g.1 as nat);
    assert(digits_val(sd) == g.0 as nat);
}

/// The bare die token `d<sides>` parses back to one die with count 1.
proof fn lemma_bare_die_token(sides: u16)
    ensures
        (seq!['d'] + dec_u(sides as nat)).len() > 0,
        count_char(seq!['d'] + dec_u(sides as nat), '+') == 0,
        !is_space((seq!['d'] + dec_u(sides as nat))[0]),
        !is_space((seq!['d'] + dec_u(sides as nat)).last()),
        parse_term(seq!['d'] + dec_u(sides as nat)) == Some(die_term((sides, 1usize))),
{
    let sd = dec_u(sides as nat);
    let tok = seq!['d'] + sd;
    lemma_dec_u(sides as nat);
    lemma_digits_no(sd);
    assert(tok[0] == 'd');
    assert(tok.last() == sd.last());
    assert(count_char(tok, 'd') == 1) by {
        lemma_count_char_concat(seq!['d'], sd, 'd');
        assert(count_char(seq!['d'], 'd') == 1) by {
            assert(seq!['d'].skip(1) =~= Seq::<char>::empty());
            assert(count_char(Seq::<char>::empty(), 'd') == 0);
        }
    }
    assert(count_char(tok, '+') == 0) by {
        lemma_count_char_concat(seq!['d'], sd, '+');
        assert(count_char(seq!['d'], '+') == 0) by {
            assert(seq!['d'].skip(1) =~= Seq::<char>::empty());
            assert(count_char(Seq::<char>::empty(), '+') == 0);
        }
    }
    lemma_first_idx_at(tok, 'd', 0);
    assert(tok.take(0) =~= Seq::<char>::empty());
    assert(tok.skip(1) =~= sd);
    assert(digits_val(sd) == sides as nat);
}

/// The modifier token `<m>` (sign included) parses back to its value.
proof fn lemma_mod_token(v: i32)
    ensures
        dec_i(v as int).len() > 0,
        count_char(dec_i(v as int), '+') == 0,
        !is_space(dec_i(v as int)[0]),
        !is_space(dec_i(v as int).last()),
        parse_term(dec_i(v as int)) == Some(DiceSpecPart::Modifier(v)),
{
    let tok = dec_i(v as int);
    if v < 0 {
        let mag = (-(v as int)) as nat;
        let md = dec_u(mag);
        lemma_dec_u(mag);
        lemma_digits_no(md);
        assert(tok =~= seq!['-'] + md);
        assert(tok[0] == '-');
        assert(tok.last() == md.last());
        assert(count_char(tok, 'd') == 0) by {
            lemma_count_char_concat(seq!['-'], md, 'd');
            assert(count_char(seq!['-'], 'd') == 0) by {
                assert(seq!['-'].skip(1) =~= Seq::<char>::empty());
                assert(count_char(Seq::<char>::empty(), 'd') == 0);
            }
        }
        assert(count_char(tok, '+') == 0) by {
            lemma_count_char_concat(seq!['-'], md, '+');
            assert(count_char(seq!['-'], '+') == 0) by {
                assert(seq!['-'].skip(1) =~= Seq::<char>::empty());
                assert(count_char(Seq::<char>::empty(), '+') == 0);
            }
        }
        assert(tok.skip(1) =~= md);
        assert(digits_val(md) == mag);
        assert(mag <= 2147483648);
        assert(parse_mod(tok) == Some(v));
    } else {
        let md = dec_u(v as nat);
        lemma_dec_u(v as nat);
        lemma_digits_no(md);
        assert(tok == md);
        assert(digits_val(md) == v as nat);
        assert(v as nat <= 2147483647);
        assert(parse_mod(tok) == Some(v));
    }
}

/// Reading off the groups and modifiers of a term sequence that begins with
/// die terms.
proof fn lemma_terms_split(gs: Seq<(u16, usize)>, x: Seq<DiceSpecPart>)
    ensures
        groups_of(die_terms(gs) + x) == gs + groups_of(x),
        mod_count(die_terms(gs) + x) == mod_count(x),
        mod_sum(die_terms(gs) + x) == mod_sum(x),
    decreases gs.len(),
{
    if gs.len() == 0 {
        assert(die_terms(gs) + x =~= x);
        assert(gs + groups_of(x) =~= groups_of(x));
    } else {
        let u = die_terms(gs) + x;
        assert(u[0] == die_term(gs[0]));
        assert(u.skip(1) =~= die_terms(gs.skip(1)) + x);
        lemma_terms_split(gs.skip(1), x);
        assert(groups_of(u) =~= seq![(gs[0].0, gs[0].1)] + (gs.skip(1) + groups_of(x)));
        assert(seq![(gs[0].0, gs[0].1)] + (gs.skip(1) + groups_of(x)) =~= gs + groups_of(x));
    }
}

/// Every successful parse has as many terms as segments, and every term is
/// a group or a modifier.
proof fn lemma_parse_terms_len(segs: Seq<Seq<char>>)
    ensures
        parse_terms(segs) is Some ==> parse_terms(segs)->Some_0.len() == segs.len(),
    decreases segs.len(),
{
    if segs.len() > 0 {
        lemma_parse_terms_len(segs.skip(1));
    }
}

proof fn lemma_groups_mods(ts: Seq<DiceSpecPart>)
    ensures
        groups_of(ts).len() + mod_count(ts) == ts.len(),
    decreases ts.len(),
{
    if ts.len() > 0 {
        lemma_groups_mods(ts.skip(1));
    }
}

/// The rendering of groups and modifier parses back into exactly the
/// expected terms.
proof fn lemma_render_parse_terms(gs: Seq<(u16, usize)>, m: Option<i32>)
    requires
        gs.len() >= 1 || m is Some,
    ensures
        parse_terms(split_plus(render_dice(gs, m))) == Some(expected_terms(gs, m)),
    decreases gs.len(),
{
    if gs.len() == 0 {
        let v = m->Some_0;
        lemma_mod_token(v);
        lemma_parse_one(dec_i(v as int));
        assert(render_dice(gs, m) == dec_i(v as int));
        assert(expected_terms(gs, m) =~= seq![DiceSpecPart::Modifier(v)]);
    } else if gs.len() == 1 && m is None {
        lemma_die_token(gs[0]);
        lemma_parse_one(render_group(gs[0]));
        assert(render_dice(gs, m) == render_groups(gs));
        assert(render_groups(gs) == render_group(gs[0]));
        assert(die_terms(gs.skip(1)) =~= Seq::<DiceSpecPart>::empty());
        assert(expected_terms(gs, m) =~= seq![die_term(gs[0])]);
    } else {
        // render_dice(gs, m) == render_group(gs[0]) + sep() + render_dice(gs.skip(1), m)
        let tok = render_group(gs[0]);
        let rest = render_dice(gs.skip(1), m);
        assert(render_dice(gs, m) == tok + sep() + rest) by {
            if gs.len() >= 2 {
                assert(render_groups(gs) == render_group(gs[0]) + sep() + render_groups(
                    gs.skip(1),
                ));
                match m {
                    Option::None => {},
                    Option::Some(v) => {
                        assert((tok + sep() + render_groups(gs.skip(1))) + sep() + dec_i(v as int)
                            =~= tok + sep() + (render_groups(gs.skip(1)) + sep() + dec_i(
                            v as int,
                        )));
                        assert(gs.skip(1).len() >= 1);
                    },
                }
            } else {
                let v = m->Some_0;
                assert(gs.len() == 1);
                assert(render_groups(gs) == render_group(gs[0]));
                assert(gs.skip(1).len() == 0);
                assert(rest == dec_i(v as int));
            }
        }
        lemma_die_token(gs[0]);
        lemma_parse_cons(tok, rest);
        lemma_render_parse_terms(gs.skip(1), m);
        assert(seq![die_term(gs[0])] + expected_terms(gs.skip(1), m) =~= expected_terms(gs, m))
            by {
            assert(die_terms(gs) =~= seq![die_term(gs[0])] + die_terms(gs.skip(1)));
        }
    }
}

/// Round trip: any structure a successful parse produces is recovered,
/// exactly, by parsing its canonical rendering.
pub proof fn lemma_parse_render_roundtrip(s: Seq<char>, gs: Seq<(u16, usize)>, m: Option<i32>)
    requires
        spec_parse(s) == Some((gs, m)),
    ensures
        spec_parse(render_dice(gs, m)) == Some((gs, m)),
{
    let segs = split_plus(s);
    let ts = parse_terms(segs)->Some_0;
    crate::text::lemma_split_plus_len(s);
    lemma_parse_terms_len(segs);
    lemma_groups_mods(ts);
    assert(gs.len() >= 1 || m is Some) by {
        if mod_count(ts) == 0 {
            assert(gs == groups_of(ts));
            assert(gs.len() == ts.len());
        }
    }
    lemma_render_parse_terms(gs, m);
    let ts2 = expected_terms(gs, m);
    match m {
        Option::None => {
            lemma_terms_split(gs, Seq::<DiceSpecPart>::empty());
            assert(die_terms(gs) + Seq::<DiceSpecPart>::empty() =~= die_terms(gs));
            assert(ts2 == die_terms(gs));
            assert(groups_of(Seq::<DiceSpecPart>::empty()) =~= Seq::<(u16, usize)>::empty());
            assert(gs + Seq::<(u16, usize)>::empty() =~= gs);
            assert(groups_of(ts2) == gs);
            assert(mod_count(ts2) == 0);
        },
        Option::Some(v) => {
            let tail = seq![DiceSpecPart::Modifier(v)];
            lemma_terms_split(gs, tail);
            assert(tail.skip(1) =~= Seq::<DiceSpecPart>::empty());
            assert(groups_of(Seq::<DiceSpecPart>::empty()) =~= Seq::<(u16, usize)>::empty());
            assert(mod_count(Seq::<DiceSpecPart>::empty()) == 0);
            assert(mod_sum(Seq::<DiceSpecPart>::empty()) == 0);
            assert(groups_of(tail) =~= Seq::<(u16, usize)>::empty());
            assert(mod_count(tail) == 1);
            assert(mod_sum(tail) == v as int);
            assert(gs + Seq::<(u16, usize)>::empty() =~= gs);
            assert(groups_of(ts2) == gs);
            assert(mod_count(ts2) == 1);
            assert(mod_sum(ts2) == v as int);
        },
    }
}


proof fn lemma_sum_rolls_concat(a: Seq<(Die, u16)>, b: Seq<(Die, u16)>)
    ensures
        sum_rolls(a + b) == sum_rolls(a) + sum_rolls(b),
    decreases b.len(),
{
    if b.len() == 0 {
        assert(a + b =~= a);
    } else {
        assert((a + b).drop_last() =~= a + b.drop_last());
        assert((a + b).last() == b.last());
        lemma_sum_rolls_concat(a, b.drop_last());
    }
}

proof fn lemma_group_sums_cons(gs: Seq<(u16, usize)>)
    requires
        gs.len() > 0,
    ensures
        sum_counts(gs) == gs[0].1 + sum_counts(gs.skip(1)),
        max_total(gs) == gs[0].0 * gs[0].1 + max_total(gs.skip(1)),
    decreases gs.len(),
{
    if gs.len() == 1 {
        assert(gs.drop_last() =~= Seq::<(u16, usize)>::empty());
        assert(gs.skip(1) =~= Seq::<(u16, usize)>::empty());
        assert(sum_counts(Seq::<(u16, usize)>::empty()) == 0);
        assert(max_total(Seq::<(u16, usize)>::empty()) == 0);
        assert(gs.last() == gs[0]);
    } else {
        lemma_group_sums_cons(gs.drop_last());
        assert(gs.drop_last()[0] == gs[0]);
        assert(gs.drop_last().skip(1) =~= gs.skip(1).drop_last());
        assert(gs.skip(1).last() == gs.last());
        assert(sum_counts(gs) == sum_counts(gs.drop_last()) + gs.last().1);
        assert(sum_counts(gs.skip(1)) == sum_counts(gs.skip(1).drop_last()) + gs.skip(
            1,
        ).last().1);
        assert(max_total(gs) == max_total(gs.drop_last()) + gs.last().0 * gs.last().1);
        assert(max_total(gs.skip(1)) == max_total(gs.skip(1).drop_last()) + gs.skip(1).last().0
            * gs.skip(1).last().1);
    }
}

proof fn lemma_segment_bounds(rs: Seq<(Die, u16)>, cap: u16)
    requires
        forall|i: int| 0 <= i < rs.len() ==> 1 <= (#[trigger] rs[i]).1 <= cap,
    ensures
        rs.len() <= sum_rolls(rs) <= (cap as int) * rs.len(),
    decreases rs.len(),
{
    if rs.len() == 0 {
    } else {
        assert(forall|i: int| 0 <= i < rs.drop_last().len() ==> rs.drop_last()[i] == rs[i]);
        lemma_segment_bounds(rs.drop_last(), cap);
        assert(1 <= rs.last().1 <= cap);
        assert((cap as int) * (rs.len() - 1) + cap == (cap as int) * rs.len())
            by (nonlinear_arith);
    }
}

/// Every outcome's sampled values sum to at least one per die, at most the
/// side count per die.
pub proof fn lemma_total_bounds(gs: Seq<(u16, usize)>, rs: Seq<(Die, u16)>)
    requires
        rolls_match(gs, rs),
        forall|i: int| 0 <= i < gs.len() ==> (#[trigger] gs[i]).0 >= 1,
    ensures
        sum_counts(gs) <= sum_rolls(rs) <= max_total(gs),
    decreases gs.len(),
{
    if gs.len() == 0 {
        assert(rs.len() == 0);
        assert(sum_counts(gs) == 0);
        assert(max_total(gs) == 0);
    } else {
        let g = gs[0];
        let c = g.1 as int;
        let seg = rs.take(c);
        let rest = rs.skip(c);
        assert(rs =~= seg + rest);
        lemma_sum_rolls_concat(seg, rest);
        assert(forall|i: int| 0 <= i < seg.len() ==> 1 <= (#[trigger] seg[i]).1 <= g.0) by {
            assert(forall|i: int| 0 <= i < c ==> seg[i] == rs[i]);
        }
        lemma_segment_bounds(seg, g.0);
        assert(forall|i: int| 0 <= i < gs.skip(1).len() ==> (#[trigger] gs.skip(1)[i]).0 >= 1)
            by {
            assert(forall|i: int| 0 <= i < gs.skip(1).len() ==> gs.skip(1)[i] == gs[i + 1]);
        }
        lemma_total_bounds(gs.skip(1), rest);
        lemma_group_sums_cons(gs);
    }
}

/// Range invariant: `d<sides>` parses to one single-die group and no
/// modifier, and every outcome of rolling it totals between 1 and `sides`.
pub proof fn lemma_single_die_range(sides: u16, rs: Seq<(Die, u16)>)
    requires
        sides >= 1,
        rolls_match(seq![(sides, 1usize)], rs),
    ensures
        spec_parse(seq!['d'] + dec_u(sides as nat)) == Some(
            (seq![(sides, 1usize)], Option::<i32>::None),
        ),
        1 <= sum_rolls(rs) <= sides,
{
    let gs = seq![(sides, 1usize)];
    lemma_bare_die_token(sides);
    lemma_parse_one(seq!['d'] + dec_u(sides as nat));
    assert(die_terms(gs) =~= seq![die_term((sides, 1usize))]) by {
        assert(gs.skip(1) =~= Seq::<(u16, usize)>::empty());
        assert(die_terms(Seq::<(u16, usize)>::empty()) =~= Seq::<DiceSpecPart>::empty());
        assert(seq![die_term(gs[0])] + Seq::<DiceSpecPart>::empty() =~= seq![die_term(gs[0])]);
    }
    lemma_terms_split(gs, Seq::<DiceSpecPart>::empty());
    assert(die_terms(gs) + Seq::<DiceSpecPart>::empty() =~= die_terms(gs));
    assert(groups_of(Seq::<DiceSpecPart>::empty()) =~= Seq::<(u16, usize)>::empty());
    assert(mod_count(Seq::<DiceSpecPart>::empty()) == 0);
    assert(gs + Seq::<(u16, usize)>::empty() =~= gs);
    assert(forall|i: int| 0 <= i < gs.len() ==> (#[trigger] gs[i]).0 >= 1);
    lemma_total_bounds(gs, rs);
    lemma_group_sums_cons(gs);
    assert(gs.skip(1) =~= Seq::<(u16, usize)>::empty());
    assert(sum_counts(Seq::<(u16, usize)>::empty()) == 0);
    assert(max_total(Seq::<(u16, usize)>::empty()) == 0);
    assert((sides as int) * 1 == sides as int) by (nonlinear_arith);
}

/// Coefficient range: `<coeff>d<sides>` parses to one group of `coeff`
/// dice, and every outcome totals between `coeff` and `coeff * sides`.
pub proof fn lemma_coefficient_range(sides: u16, coeff: usize, rs: Seq<(Die, u16)>)
    requires
        sides >= 1,
        1 <= coeff < 1000,
        rolls_match(seq![(sides, coeff)], rs),
    ensures
        spec_parse(dec_u(coeff as nat) + seq!['d'] + dec_u(sides as nat)) == Some(
            (seq![(sides, coeff)], Option::<i32>::None),
        ),
        coeff <= sum_rolls(rs) <= (sides as int) * (coeff as int),
{
    let gs = seq![(sides, coeff)];
    let tok = render_group((sides, coeff));
    assert(tok =~= dec_u(coeff as nat) + seq!['d'] + dec_u(sides as nat));
    lemma_die_token((sides, coeff));
    lemma_parse_one(tok);
    assert(die_terms(gs) =~= seq![die_term((sides, coeff))]) by {
        assert(gs.skip(1) =~= Seq::<(u16, usize)>::empty());
        assert(die_terms(Seq::<(u16, usize)>::empty()) =~= Seq::<DiceSpecPart>::empty());
        assert(seq![die_term(gs[0])] + Seq::<DiceSpecPart>::empty() =~= seq![die_term(gs[0])]);
    }
    lemma_terms_split(gs, Seq::<DiceSpecPart>::empty());
    assert(die_terms(gs) + Seq::<DiceSpecPart>::empty() =~= die_terms(gs));
    assert(groups_of(Seq::<DiceSpecPart>::empty()) =~= Seq::<(u16, usize)>::empty());
    assert(mod_count(Seq::<DiceSpecPart>::empty()) == 0);
    assert(gs + Seq::<(u16, usize)>::empty() =~= gs);
    assert(forall|i: int| 0 <= i < gs.len() ==> (#[trigger] gs[i]).0 >= 1);
    lemma_total_bounds(gs, rs);
    lemma_group_sums_cons(gs);
    assert(gs.skip(1) =~= Seq::<(u16, usize)>::empty());
    assert(sum_counts(Seq::<(u16, usize)>::empty()) == 0);
    assert(max_total(Seq::<(u16, usize)>::empty()) == 0);
}

/// Multi-group range: `<coeff>d<sides> + d<sides2>` parses to those two
/// groups, and every outcome totals between `coeff + 1` and
/// `coeff * sides + sides2`.
pub proof fn lemma_multi_group_range(sides: u16, sides2: u16, coeff: usize, rs: Seq<(Die, u16)>)
    requires
        sides >= 1,
        sides2 >= 1,
        1 <= coeff < 1000,
        rolls_match(seq![(sides, coeff), (sides2, 1usize)], rs),
    ensures
        spec_parse(
            (dec_u(coeff as nat) + seq!['d'] + dec_u(sides as nat)) + sep() + (seq!['d'] + dec_u(
                sides2 as nat,
            )),
        ) == Some((seq![(sides, coeff), (sides2, 1usize)], Option::<i32>::None)),
        coeff + 1 <= sum_rolls(rs) <= (sides as int) * (coeff as int) + sides2,
{
    let gs = seq![(sides, coeff), (sides2, 1usize)];
    let tok1 = render_group((sides, coeff));
    let tok2 = seq!['d'] + dec_u(sides2 as nat);
    assert(tok1 =~= dec_u(coeff as nat) + seq!['d'] + dec_u(sides as nat));
    lemma_die_token((sides, coeff));
    lemma_bare_die_token(sides2);
    lemma_parse_one(tok2);
    lemma_parse_cons(tok1, tok2);
    let ts = seq![die_term((sides, coeff))] + seq![die_term((sides2, 1usize))];
    assert(parse_terms(split_plus(tok1 + sep() + tok2)) == Some(ts));
    assert(die_terms(gs) =~= ts) by {
        assert(gs.skip(1) =~= seq![(sides2, 1usize)]);
        assert(gs.skip(1).skip(1) =~= Seq::<(u16, usize)>::empty());
        assert(die_terms(Seq::<(u16, usize)>::empty()) =~= Seq::<DiceSpecPart>::empty());
        assert(die_terms(gs.skip(1)) =~= seq![die_term((sides2, 1usize))]);
        assert(gs[0] == (sides, coeff));
        assert(die_terms(gs) =~= seq![die_term(gs[0])] + die_terms(gs.skip(1)));
    }
    lemma_terms_split(gs, Seq::<DiceSpecPart>::empty());
    assert(die_terms(gs) + Seq::<DiceSpecPart>::empty() =~= die_terms(gs));
    assert(groups_of(Seq::<DiceSpecPart>::empty()) =~= Seq::<(u16, usize)>::empty());
    assert(mod_count(Seq::<DiceSpecPart>::empty()) == 0);
    assert(gs + Seq::<(u16, usize)>::empty() =~= gs);
    assert(forall|i: int| 0 <= i < gs.len() ==> (#[trigger] gs[i]).0 >= 1);
    lemma_total_bounds(gs, rs);
    lemma_group_sums_cons(gs);
    lemma_group_sums_cons(gs.skip(1));
    assert(gs.skip(1)[0] == (sides2, 1usize));
    assert(gs.skip(1).skip(1) =~= Seq::<(u16, usize)>::empty());
    assert(sum_counts(Seq::<(u16, usize)>::empty()) == 0);
    assert(max_total(Seq::<(u16, usize)>::empty()) == 0);
    assert((sides2 as int) * 1 == sides2 as int) by (nonlinear_arith);
}

/// Modifier composition: `<coeff>d<sides> + d<sides2> + <modifier>` parses
/// to those two groups with that modifier, and every outcome's values sum
/// so the total lies strictly above the modifier and at most
/// `modifier + coeff * sides + sides2`.
pub proof fn lemma_modifier_range(
    sides: u16,
    sides2: u16,
    coeff: usize,
    modifier: i32,
    rs: Seq<(Die, u16)>,
)
    requires
        sides >= 1,
        sides2 >= 1,
        1 <= coeff < 1000,
        rolls_match(seq![(sides, coeff), (sides2, 1usize)], rs),
    ensures
        spec_parse(
            (dec_u(coeff as nat) + seq!['d'] + dec_u(sides as nat)) + sep() + ((seq!['d'] + dec_u(
                sides2 as nat,
            )) + sep() + dec_i(modifier as int)),
        ) == Some((seq![(sides, coeff), (sides2, 1usize)], Some(modifier))),
        modifier < sum_rolls(rs) + modifier <= modifier + (sides as int) * (coeff as int)
            + sides2,
{
    let gs = seq![(sides, coeff), (sides2, 1usize)];
    let tok1 = render_group((sides, coeff));
    let tok2 = seq!['d'] + dec_u(sides2 as nat);
    let tokm = dec_i(modifier as int);
    assert(tok1 =~= dec_u(coeff as nat) + seq!['d'] + dec_u(sides as nat));
    lemma_die_token((sides, coeff));
    lemma_bare_die_token(sides2);
    lemma_mod_token(modifier);
    lemma_parse_one(tokm);
    lemma_parse_cons(tok2, tokm);
    lemma_parse_cons(tok1, tok2 + sep() + tokm);
    let ts = seq![die_term((sides, coeff))] + (seq![die_term((sides2, 1usize))] + seq![
        DiceSpecPart::Modifier(modifier),
    ]);
    assert(parse_terms(split_plus(tok1 + sep() + (tok2 + sep() + tokm))) == Some(ts));
    let tail = seq![DiceSpecPart::Modifier(modifier)];
    assert(die_terms(gs) + tail =~= ts) by {
        assert(gs.skip(1) =~= seq![(sides2, 1usize)]);
        assert(gs.skip(1).skip(1) =~= Seq::<(u16, usize)>::empty());
        assert(die_terms(Seq::<(u16, usize)>::empty()) =~= Seq::<DiceSpecPart>::empty());
        assert(die_terms(gs.skip(1)) =~= seq![die_term((sides2, 1usize))]);
        assert(gs[0] == (sides, coeff));
        assert(die_terms(gs) =~= seq![die_term(gs[0])] + die_terms(gs.skip(1)));
    }
    lemma_terms_split(gs, tail);
    assert(tail.skip(1) =~= Seq::<DiceSpecPart>::empty());
    assert(groups_of(Seq::<DiceSpecPart>::empty()) =~= Seq::<(u16, usize)>::empty());
    assert(mod_count(Seq::<DiceSpecPart>::empty()) == 0);
    assert(mod_sum(Seq::<DiceSpecPart>::empty()) == 0);
    assert(groups_of(tail) =~= Seq::<(u16, usize)>::empty());
    assert(mod_count(tail) == 1);
    assert(mod_sum(tail) == modifier as int);
    assert(gs + Seq::<(u16, usize)>::empty() =~= gs);
    assert(forall|i: int| 0 <= i < gs.len() ==> (#[trigger] gs[i]).0 >= 1);
    lemma_total_bounds(gs, rs);
    lemma_group_sums_cons(gs);
    lemma_group_sums_cons(gs.skip(1));
    assert(gs.skip(1)[0] == (sides2, 1usize));
    assert(gs.skip(1).skip(1) =~= Seq::<(u16, usize)>::empty());
    assert(sum_counts(Seq::<(u16, usize)>::empty()) == 0);
    assert(max_total(Seq::<(u16, usize)>::empty()) == 0);
    assert((sides2 as int) * 1 == sides2 as int) by (nonlinear_arith);
}


/// Groups in falling side-count order.
pub open spec fn sorted_desc(s: Seq<(u16, usize)>) -> bool {
    forall|i: int, j: int| 0 <= i < j < s.len() ==> (#[trigger] s[i]).0 >= (#[trigger] s[j]).0
}

proof fn lemma_insert_desc_props(s: Seq<(u16, usize)>, x: (u16, usize))
    requires
        sorted_desc(s),
    ensures
        sorted_desc(insert_desc(s, x)),
        insert_desc(s, x).to_multiset() == s.to_multiset().insert(x),
        insert_desc(s, x).len() == s.len() + 1,
    decreases s.len(),
{
    broadcast use vstd::seq_lib::group_to_multiset_ensures;
    broadcast use vstd::multiset::group_multiset_axioms;

    let r = insert_desc(s, x);
    if s.len() == 0 {
        assert(r =~= Seq::<(u16, usize)>::empty().push(x));
        assert(Seq::<(u16, usize)>::empty().to_multiset() =~= Multiset::<(u16, usize)>::empty())
            by {
            assert(forall|e: (u16, usize)| !Seq::<(u16, usize)>::empty().contains(e));
        }
        assert(r.to_multiset() =~= s.to_multiset().insert(x));
    } else if s[0].0 >= x.0 {
        lemma_insert_desc_props(s.skip(1), x);
        let r2 = insert_desc(s.skip(1), x);
        assert(r == seq![s[0]] + r2);
        vstd::seq_lib::lemma_multiset_commutative(seq![s[0]], r2);
        vstd::seq_lib::lemma_multiset_commutative(seq![s[0]], s.skip(1));
        assert(s =~= seq![s[0]] + s.skip(1));
        assert(r.to_multiset() =~= s.to_multiset().insert(x));
        // every entry below the head stays at or under the head's sides
        assert forall|k: int| 1 <= k < r.len() implies s[0].0 >= (#[trigger] r[k]).0 by {
            assert(r[k] == r2[k - 1]);
            assert(r2.contains(r2[k - 1]));
            assert(r2.to_multiset().count(r2[k - 1]) > 0);
            if r2[k - 1] == x {
            } else {
                assert(s.skip(1).to_multiset().count(r2[k - 1]) > 0);
                assert(s.skip(1).contains(r2[k - 1]));
                let i = choose|i: int| 0 <= i < s.skip(1).len() && s.skip(1)[i] == r2[k - 1];
                assert(s[i + 1] == r2[k - 1]);
            }
        }
        assert(sorted_desc(r)) by {
            assert(forall|i: int, j: int|
                1 <= i < j < r.len() ==> (#[trigger] r[i]).0 >= (#[trigger] r[j]).0) by {
                assert(forall|i: int, j: int|
                    0 <= i < j < r2.len() ==> (#[trigger] r2[i]).0 >= (#[trigger] r2[j]).0);
                assert(forall|k: int| 1 <= k < r.len() ==> r[k] == r2[k - 1]);
            }
        }
    } else {
        assert(r == seq![x] + s);
        vstd::seq_lib::lemma_multiset_commutative(seq![x], s);
        assert(r.to_multiset() =~= s.to_multiset().insert(x));
        assert(sorted_desc(r)) by {
            assert(forall|j: int| 1 <= j < r.len() ==> r[j] == s[j - 1]);
            assert(forall|j: int| 1 <= j < s.len() ==> s[0].0 >= (#[trigger] s[j]).0);
        }
    }
}

/// Canonical order: the direct constructor's groups are sorted by falling
/// side count and are exactly the groups given, kept with multiplicity.
pub proof fn lemma_sort_desc_canonical(s: Seq<(u16, usize)>)
    ensures
        sorted_desc(sort_desc(s)),
        sort_desc(s).to_multiset() == s.to_multiset(),
        sort_desc(s).len() == s.len(),
    decreases s.len(),
{
    broadcast use vstd::seq_lib::group_to_multiset_ensures;

    if s.len() == 0 {
    } else {
        lemma_sort_desc_canonical(s.drop_last());
        lemma_insert_desc_props(sort_desc(s.drop_last()), s.last());
        assert(s =~= s.drop_last().push(s.last()));
        assert(s.drop_last().push(s.last()).to_multiset() =~= s.drop_last().to_multiset().insert(
            s.last(),
        ));
    }
}

} // verus!
