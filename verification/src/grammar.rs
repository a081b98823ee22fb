//! The dice-notation grammar and the canonical renderings, as specification
//! functions. An expression is segments split on `+`; each trimmed segment is
//! either a die term `[<count>]d<sides>` or a signed integer modifier.

use vstd::prelude::*;
use crate::numerals::{all_digits, dec_i, dec_u, digits_val};
use crate::text::{count_char, first_idx, split_plus, trim};
use crate::dice::{Die, DiceSpecPart};

verus! {

/// A trimmed segment read as a modifier term: an optional `-` or `+` sign,
/// then digits, with a value that fits in `i32`.
pub open spec fn parse_mod(s: Seq<char>) -> Option<i32> {
    if s.len() >= 1 && s[0] == '-' {
        let t = s.skip(1);
        if t.len() > 0 && all_digits(t) && digits_val(t) <= 2147483648 {
            Some((-(digits_val(t) as int)) as i32)
        } else {
            None
        }
    } else if s.len() >= 1 && s[0] == '+' {
        let t = s.skip(1);
        if t.len() > 0 && all_digits(t) && digits_val(t) <= 2147483647 {
            Some(digits_val(t) as i32)
        } else {
            None
        }
    } else {
        if s.len() > 0 && all_digits(s) && digits_val(s) <= 2147483647 {
            Some(digits_val(s) as i32)
        } else {
            None
        }
    }
}

/// A trimmed segment read as a term: any `d` routes it to the die-term
/// grammar (exactly one `d`, an optional digit count before it, digit sides
/// after it); otherwise it must be a modifier term.
pub open spec fn parse_term(s: Seq<char>) -> Option<DiceSpecPart> {
    if count_char(s, 'd') == 1 {
        let i = first_idx(s, 'd');
        let cpart = s.take(i);
        let spart = s.skip(i + 1);
        if (cpart.len() == 0 || (all_digits(cpart) && digits_val(cpart) <= usize::MAX))
            && spart.len() > 0 && all_digits(spart) && digits_val(spart) <= u16::MAX {
            Some(
                DiceSpecPart::Die {
                    die: Die { sides: digits_val(spart) as u16 },
                    count: if cpart.len() == 0 {
                        1
                    } else {
                        digits_val(cpart) as usize
                    },
                },
            )
        } else {
            None
        }
    } else if count_char(s, 'd') == 0 {
        match parse_mod(s) {
            Some(m) => Some(DiceSpecPart::Modifier(m)),
            None => None,
        }
    } else {
        None
    }
}

/// All segments read as terms, each trimmed first; any failure fails the
/// whole sequence.
pub open spec fn parse_terms(segs: Seq<Seq<char>>) -> Option<Seq<DiceSpecPart>>
    decreases segs.len(),
{
    if segs.len() == 0 {
        Some(Seq::empty())
    } else {
        match parse_term(trim(segs[0])) {
            Option::None => None,
            Option::Some(t) => match parse_terms(segs.skip(1)) {
                Option::None => None,
                Option::Some(r) => Some(seq![t] + r),
            },
        }
    }
}

/// The die groups among a term sequence, in order, one per die term.
pub open spec fn groups_of(ts: Seq<DiceSpecPart>) -> Seq<(u16, usize)>
    decreases ts.len(),
{
    if ts.len() == 0 {
        Seq::empty()
    } else {
        match ts[0] {
            DiceSpecPart::Die { die, count } => seq![(die.sides, count)] + groups_of(ts.skip(1)),
            DiceSpecPart::Modifier(_) => groups_of(ts.skip(1)),
        }
    }
}

/// How many modifier terms a term sequence holds.
pub open spec fn mod_count(ts: Seq<DiceSpecPart>) -> nat
    decreases ts.len(),
{
    if ts.len() == 0 {
        0
    } else {
        (match ts[0] {
            DiceSpecPart::Modifier(_) => 1nat,
            DiceSpecPart::Die { .. } => 0nat,
        }) + mod_count(ts.skip(1))
    }
}

/// The algebraic sum of all modifier terms.
pub open spec fn mod_sum(ts: Seq<DiceSpecPart>) -> int
    decreases ts.len(),
{
    if ts.len() == 0 {
        0
    } else {
        (match ts[0] {
            DiceSpecPart::Modifier(m) => m as int,
            DiceSpecPart::Die { .. } => 0,
        }) + mod_sum(ts.skip(1))
    }
}

/// What parsing a whole expression yields: the die groups in encounter
/// order and, if any modifier term appeared, the sum of all of them. Fails
/// when a segment is malformed or the modifier sum leaves `i32`.
pub open spec fn spec_parse(s: Seq<char>) -> Option<(Seq<(u16, usize)>, Option<i32>)> {
    match parse_terms(split_plus(s)) {
        Option::None => None,
        Option::Some(ts) => if mod_count(ts) == 0 {
            Some((groups_of(ts), None))
        } else if -2147483648 <= mod_sum(ts) <= 2147483647 {
            Some((groups_of(ts), Some(mod_sum(ts) as i32)))
        } else {
            None
        },
    }
}

/// Index of the first segment whose term parse fails (the segment count
/// when none does).
pub open spec fn first_bad_idx(segs: Seq<Seq<char>>) -> int
    decreases segs.len(),
{
    if segs.len() == 0 {
        0
    } else if parse_term(trim(segs[0])) is None {
        0
    } else {
        1 + first_bad_idx(segs.skip(1))
    }
}

/// The text an `Unparseable` error for a whole expression carries: the
/// first malformed segment, trimmed, or the whole text when every segment
/// is a term and only the summed modifier leaves `i32`.
pub open spec fn spec_parse_err(s: Seq<char>) -> Seq<char> {
    let segs = split_plus(s);
    if parse_terms(segs) is None {
        trim(segs[first_bad_idx(segs)])
    } else {
        s
    }
}

/// Text the whole of which is one die parsed standalone: optional
/// whitespace around `d<sides>`.
pub open spec fn spec_parse_die(s: Seq<char>) -> Option<Die> {
    let t = trim(s);
    if t.len() >= 2 && t[0] == 'd' && all_digits(t.skip(1)) && digits_val(t.skip(1)) <= u16::MAX {
        Some(Die { sides: digits_val(t.skip(1)) as u16 })
    } else {
        None
    }
}

/// Canonical text of one die: `d<sides>`.
pub open spec fn render_die(sides: nat) -> Seq<char> {
    seq!['d'] + dec_u(sides)
}

/// Canonical text of one group: `<count>d<sides>`.
pub open spec fn render_group(g: (u16, usize)) -> Seq<char> {
    dec_u(g.1 as nat) + render_die(g.0 as nat)
}

/// The separator between rendered terms.
pub open spec fn sep() -> Seq<char> {
    seq![' ', '+', ' ']
}

/// The groups rendered in order, joined by the separator.
pub open spec fn render_groups(gs: Seq<(u16, usize)>) -> Seq<char>
    decreases gs.len(),
{
    if gs.len() == 0 {
        Seq::empty()
    } else if gs.len() == 1 {
        render_group(gs[0])
    } else {
        render_group(gs[0]) + sep() + render_groups(gs.skip(1))
    }
}

/// Canonical text of a whole expression: the groups, then the modifier as
/// one more term when present (even when it is zero).
pub open spec fn render_dice(gs: Seq<(u16, usize)>, m: Option<i32>) -> Seq<char> {
    match m {
        Option::None => render_groups(gs),
        Option::Some(v) => if gs.len() == 0 {
            dec_i(v as int)
        } else {
            render_groups(gs) + sep() + dec_i(v as int)
        },
    }
}

/// Sum of the sampled values of a roll.
pub open spec fn sum_rolls(rs: Seq<(Die, u16)>) -> int
    decreases rs.len(),
{
    if rs.len() == 0 {
        0
    } else {
        sum_rolls(rs.drop_last()) + rs.last().1
    }
}

/// Total number of physical dice across the groups.
pub open spec fn sum_counts(gs: Seq<(u16, usize)>) -> int
    decreases gs.len(),
{
    if gs.len() == 0 {
        0
    } else {
        sum_counts(gs.drop_last()) + gs.last().1
    }
}

/// Largest possible sum of sampled values across the groups.
pub open spec fn max_total(gs: Seq<(u16, usize)>) -> int
    decreases gs.len(),
{
    if gs.len() == 0 {
        0
    } else {
        max_total(gs.drop_last()) + gs.last().0 * gs.last().1
    }
}

/// The rolls are exactly the groups materialized in order: for each group,
/// `count` entries of its die, each sampled value between 1 and the side
/// count.
pub open spec fn rolls_match(gs: Seq<(u16, usize)>, rs: Seq<(Die, u16)>) -> bool
    decreases gs.len(),
{
    if gs.len() == 0 {
        rs.len() == 0
    } else {
        let g = gs[0];
        &&& rs.len() >= g.1
        &&& forall|i: int|
            0 <= i < g.1 ==> (#[trigger] rs[i]).0.sides == g.0 && 1 <= rs[i].1 <= g.0
        &&& rolls_match(gs.skip(1), rs.skip(g.1 as int))
    }
}

/// Breakdown text of one sampled die: `(d<sides> -> <value>)`.
pub open spec fn render_roll_entry(e: (Die, u16)) -> Seq<char> {
    seq!['('] + render_die(e.0.sides as nat) + seq![' ', '-', '>', ' '] + dec_u(e.1 as nat) + seq![
        ')',
    ]
}

/// The sampled dice joined by the separator, or `(no dice)` when none.
pub open spec fn render_rolls(rs: Seq<(Die, u16)>) -> Seq<char>
    decreases rs.len(),
{
    if rs.len() == 0 {
        seq!['(', 'n', 'o', ' ', 'd', 'i', 'c', 'e', ')']
    } else if rs.len() == 1 {
        render_roll_entry(rs[0])
    } else {
        render_roll_entry(rs[0]) + sep() + render_rolls(rs.skip(1))
    }
}

/// Full breakdown of an outcome: every die's value, the modifier, the total.
pub open spec fn render_result(rs: Seq<(Die, u16)>, m: i32) -> Seq<char> {
    render_rolls(rs) + seq![' ', '+', ' ', '(', 'm', 'o', 'd', 'i', 'f', 'i', 'e', 'r', ' ', '-',
        '>', ' '] + dec_i(m as int) + seq![')', ' ', '=', ' '] + dec_i(sum_rolls(rs) + m)
}

/// Where a group belongs in a run sorted by falling side count: before the
/// first entry with fewer sides, after every earlier entry with as many.
pub open spec fn insert_desc(s: Seq<(u16, usize)>, x: (u16, usize)) -> Seq<(u16, usize)>
    decreases s.len(),
{
    if s.len() == 0 {
        seq![x]
    } else if s[0].0 >= x.0 {
        seq![s[0]] + insert_desc(s.skip(1), x)
    } else {
        seq![x] + s
    }
}

/// Stable sort of the groups by falling side count: equal side counts keep
/// their relative order.
pub open spec fn sort_desc(s: Seq<(u16, usize)>) -> Seq<(u16, usize)>
    decreases s.len(),
{
    if s.len() == 0 {
        Seq::empty()
    } else {
        insert_desc(sort_desc(s.drop_last()), s.last())
    }
}

} // verus!
