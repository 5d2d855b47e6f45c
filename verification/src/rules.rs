//! Rules that map ranges of numbers to volumes, dates and summaries.
//!
//! A rule is a row of texts. Its first two texts are the ends of a range, both of which belong to the
//! range; what the range maps to stands behind them.

use crate::decimal::{all_digits, digits_value, integer_of, is_digit, parse_i32};
use crate::number::{
    at_most,
    lemma_nearest,
    lemma_number_is_trimmed,
    lemma_tenths_are_exact,
    lemma_tenths_are_read,
    lemma_units_increase,
    lemma_whole_number_is_exact,
    nearest,
    number_of,
    parse_number,
    units,
    Number,
    BLOCK,
    INFINITE,
};
use crate::text::{lemma_trimmed_is, same, trim, trimmed};
use vstd::arithmetic::power::pow;
use vstd::arithmetic::power2::{
    lemma_pow2_pos,
    lemma_pow2_strictly_increases,
    lemma_pow2_unfold,
    pow2,
};
use vstd::prelude::*;

verus! {

/// The texts of a rule.
pub type Row = Seq<Seq<char>>;

/// The largest finite number.
pub open spec fn largest() -> Number {
    Number::Real { negative: false, ordinal: (INFINITE - 1) as u64 }
}

/// The smallest finite number.
pub open spec fn smallest() -> Number {
    Number::Real { negative: true, ordinal: (INFINITE - 1) as u64 }
}

/// The lower end of a rule's range; the largest finite number where it is not a number.
pub open spec fn lower_end(row: Row) -> Number {
    match number_of(row[0]) {
        Some(n) => n,
        None => largest(),
    }
}

/// The upper end of a rule's range; the smallest finite number where it is not a number.
pub open spec fn upper_end(row: Row) -> Number {
    match number_of(row[1]) {
        Some(n) => n,
        None => smallest(),
    }
}

/// Whether a number lies in a rule's range.
pub open spec fn covers(row: Row, n: Number) -> bool {
    at_most(lower_end(row), n) && at_most(n, upper_end(row))
}

/// The place of the first rule with at least `width` texts that covers `n`; the number of rules where
/// there is none.
pub open spec fn first_covering(rules: Seq<Row>, n: Number, width: nat) -> nat
    decreases rules.len(),
{
    if rules.len() == 0 {
        0
    } else if rules[0].len() >= width && covers(rules[0], n) {
        0
    } else {
        1 + first_covering(rules.skip(1), n, width)
    }
}

/// The first rule with at least `width` texts that covers the number that `number` spells.
pub open spec fn matching_rule(number: Seq<char>, rules: Seq<Row>, width: nat) -> Option<Row> {
    match number_of(number) {
        Some(n) => {
            let k = first_covering(rules, n, width);
            if k < rules.len() {
                Some(rules[k as int])
            } else {
                None
            }
        },
        None => None,
    }
}

/// What a rule for a volume or a summary maps to.
pub open spec fn mapped_text(rule: Option<Row>) -> Option<Seq<char>> {
    match rule {
        Some(row) => Some(row[2]),
        None => None,
    }
}

/// The number that a part of a date spells; 0 where it spells none that is in range.
pub open spec fn date_part(s: Seq<char>) -> i32 {
    match integer_of(s) {
        Some(n) => if i32::MIN <= n <= i32::MAX {
            n as i32
        } else {
            0
        },
        None => 0,
    }
}

/// What a rule for a date maps to.
pub open spec fn mapped_date(rule: Option<Row>) -> Option<(i32, i32, i32)> {
    match rule {
        Some(row) => Some((date_part(row[2]), date_part(row[3]), date_part(row[4]))),
        None => None,
    }
}

pub proof fn lemma_first_covering(rules: Seq<Row>, n: Number, width: nat)
    ensures
        ({
            let k = first_covering(rules, n, width);
            &&& k <= rules.len()
            &&& k < rules.len() ==> rules[k as int].len() >= width && covers(rules[k as int], n)
            &&& forall|i: int|
                0 <= i < k ==> !((#[trigger] rules[i]).len() >= width && covers(rules[i], n))
        }),
    decreases rules.len(),
{
    if rules.len() > 0 && !(rules[0].len() >= width && covers(rules[0], n)) {
        let rest = rules.skip(1);
        lemma_first_covering(rest, n, width);
        assert forall|i: int| 0 <= i < first_covering(rules, n, width) implies !((
        #[trigger] rules[i]).len() >= width && covers(rules[i], n)) by {
            if i > 0 {
                assert(rest[i - 1] == rules[i]);
            }
        }
    }
}

/// The first rule that covers a number wins.
pub proof fn lemma_first_rule_wins(rules: Seq<Row>, n: Number, width: nat, k: nat)
    requires
        k <= rules.len(),
        k < rules.len() ==> rules[k as int].len() >= width && covers(rules[k as int], n),
        forall|i: int|
            0 <= i < k ==> !((#[trigger] rules[i]).len() >= width && covers(rules[i], n)),
    ensures
        first_covering(rules, n, width) == k,
{
    lemma_first_covering(rules, n, width);
    let f = first_covering(rules, n, width);
    if f < k {
        assert(!(rules[f as int].len() >= width && covers(rules[f as int], n)));
    }
}

/// Both ends of a range belong to it.
pub proof fn lemma_ends_are_covered(row: Row)
    requires
        at_most(lower_end(row), upper_end(row)),
    ensures
        covers(row, lower_end(row)),
        covers(row, upper_end(row)),
{
}

/// A rule of which neither end is a number covers nothing.
pub proof fn lemma_malformed_rule_covers_nothing(row: Row, n: Number)
    requires
        number_of(row[0]) is None,
        number_of(row[1]) is None,
    ensures
        !covers(row, n),
{
}

/// The largest and the smallest finite number.
fn largest_number() -> (r: Number)
    ensures
        r == largest(),
{
    Number::Real { negative: false, ordinal: INFINITE - 1 }
}

fn smallest_number() -> (r: Number)
    ensures
        r == smallest(),
{
    Number::Real { negative: true, ordinal: INFINITE - 1 }
}

/// Whether a number lies in a rule's range.
fn is_covered(row: &Vec<String>, n: &Number) -> (r: bool)
    requires
        row@.len() >= 2,
    ensures
        r == covers(row.deep_view(), *n),
{
    assert(row.deep_view()[0] == row@[0]@ && row.deep_view()[1] == row@[1]@);
    let lo: Number = match parse_number(row[0].as_str()) {
        Some(n) => n,
        None => largest_number(),
    };
    let hi: Number = match parse_number(row[1].as_str()) {
        Some(n) => n,
        None => smallest_number(),
    };
    lo.is_at_most(n) && n.is_at_most(&hi)
}

/// The place of the first rule with at least `width` texts that covers the number that `number`
/// spells.
fn find_rule(number: &str, rules: &Vec<Vec<String>>, width: usize) -> (r: Option<usize>)
    requires
        width >= 2,
    ensures
        match r {
            Some(k) => k < rules@.len() && rules@[k as int]@.len() >= width && matching_rule(
                number@,
                rules.deep_view(),
                width as nat,
            ) == Some(rules@[k as int].deep_view()),
            None => matching_rule(number@, rules.deep_view(), width as nat) is None,
        },
{
    let n: Number = match parse_number(number) {
        Some(n) => n,
        None => return None,
    };
    let ghost rows = rules.deep_view();
    let mut i: usize = 0;
    while i < rules.len()
        invariant
            width >= 2,
            rows == rules.deep_view(),
            i <= rules@.len(),
            number_of(number@) == Some(n),
            forall|k: int|
                0 <= k < i ==> !((#[trigger] rows[k]).len() >= width && covers(rows[k], n)),
        decreases rules@.len() - i,
    {
        assert(rows[i as int] == rules@[i as int].deep_view());
        if rules[i].len() >= width && is_covered(&rules[i], &n) {
            proof {
                lemma_first_rule_wins(rows, n, width as nat, i as nat);
            }
            return Some(i);
        }
        i = i + 1;
    }
    proof {
        lemma_first_rule_wins(rows, n, width as nat, i as nat);
    }
    None
}

/// The volume that a chapter belongs to.
pub fn find_volume(number: &str, rules: &Vec<Vec<String>>) -> (r: Option<String>)
    ensures
        r.deep_view() == mapped_text(matching_rule(number@, rules.deep_view(), 3)),
{
    match find_rule(number, rules, 3) {
        Some(k) => Some(rules[k][2].clone()),
        None => None,
    }
}

/// The date on which a volume was published: year, month and day.
pub fn find_date(vol_num: &str, rules: &Vec<Vec<String>>) -> (r: Option<(i32, i32, i32)>)
    ensures
        r == mapped_date(matching_rule(vol_num@, rules.deep_view(), 5)),
{
    match find_rule(vol_num, rules, 5) {
        Some(k) => {
            let row = &rules[k];
            let y: i32 = read_date_part(row[2].as_str());
            let m: i32 = read_date_part(row[3].as_str());
            let d: i32 = read_date_part(row[4].as_str());
            Some((y, m, d))
        },
        None => None,
    }
}

/// The number that a part of a date spells; 0 where it spells none that is in range.
fn read_date_part(text: &str) -> (r: i32)
    ensures
        r == date_part(text@),
{
    match parse_i32(text) {
        Some(n) => n,
        None => 0,
    }
}

/// The summary of a volume.
pub fn find_summary(vol_num: &str, rules: &Vec<Vec<String>>) -> (r: Option<String>)
    ensures
        r.deep_view() == mapped_text(matching_rule(vol_num@, rules.deep_view(), 3)),
{
    match find_rule(vol_num, rules, 3) {
        Some(k) => Some(rules[k][2].clone()),
        None => None,
    }
}

/// The text at a place of a row, without white space at its ends.
pub open spec fn cell(row: Row, k: int) -> Option<Seq<char>> {
    if k < row.len() {
        Some(trimmed(row[k]))
    } else {
        None
    }
}

/// Whether a rule for the same volume as `values` stands among the rules, but for the one at `skip`.
pub open spec fn volume_is_taken(values: Row, rules: Seq<Row>, skip: Option<usize>) -> bool {
    &&& values.len() > 2
    &&& trimmed(values[2]).len() > 0
    &&& exists|i: int|
        0 <= i < rules.len() && skip != Some(i as usize) && cell(#[trigger] rules[i], 2) == Some(
            trimmed(values[2]),
        )
}

/// Whether another rule already maps to the volume of `values`. The rule at `skip_idx` does not count.
pub fn volume_value_duplicated(
    values: &Vec<String>,
    existing: &Vec<Vec<String>>,
    skip_idx: Option<usize>,
) -> (r: bool)
    ensures
        r == volume_is_taken(values.deep_view(), existing.deep_view(), skip_idx),
{
    let ghost row = values.deep_view();
    let ghost rows = existing.deep_view();
    if values.len() <= 2 {
        return false;
    }
    assert(row[2] == values@[2]@);
    let new_vol = trim(values[2].as_str());
    if new_vol.as_str().is_empty() {
        return false;
    }
    let mut i: usize = 0;
    while i < existing.len()
        invariant
            row == values.deep_view(),
            rows == existing.deep_view(),
            row.len() > 2,
            new_vol@ == trimmed(row[2]),
            new_vol@.len() > 0,
            i <= existing@.len(),
            forall|k: int|
                0 <= k < i && skip_idx != Some(k as usize) ==> cell(#[trigger] rows[k], 2) != Some(
                    trimmed(row[2]),
                ),
        decreases existing@.len() - i,
    {
        assert(rows[i as int] == existing@[i as int].deep_view());
        if skip_idx != Some(i) && existing[i].len() > 2 {
            assert(rows[i as int][2] == existing@[i as int]@[2]@);
            let vol = trim(existing[i][2].as_str());
            if same(vol.as_str(), new_vol.as_str()) {
                assert(cell(rows[i as int], 2) == Some(trimmed(row[2])));
                return true;
            }
        }
        i = i + 1;
    }
    false
}

/// The smaller of two numbers; the other one where one of them is not a number.
pub open spec fn min_number(a: Number, b: Number) -> Number {
    match (a, b) {
        (Number::Nan, _) => b,
        (_, Number::Nan) => a,
        _ => if at_most(a, b) {
            a
        } else {
            b
        },
    }
}

/// The larger of two numbers; the other one where one of them is not a number.
pub open spec fn max_number(a: Number, b: Number) -> Number {
    match (a, b) {
        (Number::Nan, _) => b,
        (_, Number::Nan) => a,
        _ => if at_most(a, b) {
            b
        } else {
            a
        },
    }
}

/// The ends of the range of a row, the smaller one first, where both are numbers.
pub open spec fn range_of(row: Row) -> Option<(Number, Number)> {
    if row.len() < 2 {
        None
    } else {
        match (number_of(trimmed(row[0])), number_of(trimmed(row[1]))) {
            (Some(a), Some(b)) => Some((min_number(a, b), max_number(a, b))),
            _ => None,
        }
    }
}

/// Whether two ranges share a number.
pub open spec fn ranges_meet(a: Option<(Number, Number)>, b: Option<(Number, Number)>) -> bool {
    match (a, b) {
        (Some((p, q)), Some((x, y))) => at_most(p, y) && at_most(x, q),
        _ => false,
    }
}

/// Whether the range of `values` meets that of a rule, but for the one at `skip`.
pub open spec fn range_is_taken(values: Row, rules: Seq<Row>, skip: Option<usize>) -> bool {
    exists|i: int|
        0 <= i < rules.len() && skip != Some(i as usize) && ranges_meet(
            range_of(values),
            range_of(#[trigger] rules[i]),
        )
}

/// The ends of the range of a row, the smaller one first, where both are numbers.
fn read_range(row: &Vec<String>) -> (r: Option<(Number, Number)>)
    ensures
        r == range_of(row.deep_view()),
{
    if row.len() < 2 {
        return None;
    }
    assert(row.deep_view()[0] == row@[0]@ && row.deep_view()[1] == row@[1]@);
    let first = trim(row[0].as_str());
    let second = trim(row[1].as_str());
    match (parse_number(first.as_str()), parse_number(second.as_str())) {
        (Some(a), Some(b)) => match (a, b) {
            (Number::Nan, _) => Some((b, b)),
            (_, Number::Nan) => Some((a, a)),
            _ => if a.is_at_most(&b) {
                Some((a, b))
            } else {
                Some((b, a))
            },
        },
        _ => None,
    }
}

/// Whether the range of `values` meets that of another rule. The rule at `skip_idx` does not count.
pub fn rule_range_overlaps(
    values: &Vec<String>,
    existing: &Vec<Vec<String>>,
    skip_idx: Option<usize>,
) -> (r: bool)
    ensures
        r == range_is_taken(values.deep_view(), existing.deep_view(), skip_idx),
{
    let ghost row = values.deep_view();
    let ghost rows = existing.deep_view();
    let (new_lo, new_hi) = match read_range(values) {
        Some(range) => range,
        None => return false,
    };
    let mut i: usize = 0;
    while i < existing.len()
        invariant
            row == values.deep_view(),
            rows == existing.deep_view(),
            range_of(row) == Some((new_lo, new_hi)),
            i <= existing@.len(),
            forall|k: int|
                0 <= k < i && skip_idx != Some(k as usize) ==> !ranges_meet(
                    range_of(row),
                    range_of(#[trigger] rows[k]),
                ),
        decreases existing@.len() - i,
    {
        assert(rows[i as int] == existing@[i as int].deep_view());
        if skip_idx != Some(i) {
            match read_range(&existing[i]) {
                Some((lo, hi)) => {
                    if new_lo.is_at_most(&hi) && lo.is_at_most(&new_hi) {
                        assert(ranges_meet(range_of(row), range_of(rows[i as int])));
                        return true;
                    }
                },
                None => {},
            }
        }
        i = i + 1;
    }
    false
}

/// Whether a number lies between the smallest and the largest finite number. These two stand for ends
/// of ranges that are not numbers.
pub open spec fn is_inner(n: Number) -> bool {
    !at_most(largest(), n) && !at_most(n, smallest())
}

/// The range of a rule that covers a number goes from its first to its second end.
proof fn lemma_range_of_covering(row: Row, n: Number)
    requires
        row.len() >= 2,
        is_inner(n),
        covers(row, n),
    ensures
        range_of(row) matches Some((p, q)) && at_most(p, n) && at_most(n, q),
{
    lemma_number_is_trimmed(row[0]);
    lemma_number_is_trimmed(row[1]);
}

/// Rules that cover the same number have ranges that meet, also where it is an end of both.
pub proof fn lemma_rules_that_share_a_number_meet(a: Row, b: Row, n: Number)
    requires
        a.len() >= 2,
        b.len() >= 2,
        is_inner(n),
        covers(a, n),
        covers(b, n),
    ensures
        ranges_meet(range_of(a), range_of(b)),
{
    lemma_range_of_covering(a, n);
    lemma_range_of_covering(b, n);
}

/// Where a rule and one of the others are both found for a number, they overlap.
pub proof fn lemma_shared_number_is_an_overlap(
    values: Row,
    rules: Seq<Row>,
    i: int,
    skip: Option<usize>,
    number: Seq<char>,
    width: nat,
)
    requires
        0 <= i < rules.len(),
        skip != Some(i as usize),
        width >= 2,
        number_of(number) matches Some(n) ==> is_inner(n),
        matching_rule(number, seq![values], width) is Some,
        matching_rule(number, seq![rules[i]], width) is Some,
    ensures
        range_is_taken(values, rules, skip),
{
    let n = number_of(number)->0;
    lemma_first_covering(seq![values], n, width);
    lemma_first_covering(seq![rules[i]], n, width);
    lemma_rules_that_share_a_number_meet(values, rules[i], n);
}

/// The order of the two ends does not matter to whether rules overlap.
pub proof fn lemma_ends_may_be_swapped(values: Row, rules: Seq<Row>, skip: Option<usize>)
    requires
        values.len() >= 2,
    ensures
        range_is_taken(values.update(0, values[1]).update(1, values[0]), rules, skip)
            == range_is_taken(values, rules, skip),
{
    let swapped = values.update(0, values[1]).update(1, values[0]);
    assert forall|i: int| 0 <= i < rules.len() implies ranges_meet(
        range_of(swapped),
        range_of(#[trigger] rules[i]),
    ) == ranges_meet(range_of(values), range_of(rules[i])) by {}
    if range_is_taken(values, rules, skip) {
        let i = choose|i: int|
            0 <= i < rules.len() && skip != Some(i as usize) && ranges_meet(
                range_of(values),
                range_of(#[trigger] rules[i]),
            );
        assert(ranges_meet(range_of(swapped), range_of(rules[i])));
    }
}

/// A rule that is edited does not overlap with itself.
pub proof fn lemma_edited_rule_does_not_count(values: Row, row: Row)
    ensures
        !range_is_taken(values, seq![row], Some(0)),
{
}

// ── Ranges of whole numbers ─────────────────────────────────────────────────────────────────────
/// Whether a text is a row of digits whose number is held exactly.
pub open spec fn is_whole(s: Seq<char>) -> bool {
    s.len() > 0 && all_digits(s) && digits_value(s) < 0x20_0000_0000_0000
}

/// Rows of digits compare as their numbers do.
proof fn lemma_whole_numbers_compare(a: Seq<char>, b: Seq<char>)
    requires
        is_whole(a),
        is_whole(b),
    ensures
        number_of(a) matches Some(Number::Real { negative: false, ordinal: x }) && number_of(b) matches Some(
            Number::Real { negative: false, ordinal: y },
        ) && x < INFINITE - 1 && y < INFINITE - 1 && (x <= y <==> digits_value(a) <= digits_value(b))
            && (y <= x <==> digits_value(b) <= digits_value(a)),
{
    lemma_whole_number_is_small(a);
    lemma_whole_number_is_small(b);
    let x = number_of(a)->0->ordinal;
    let y = number_of(b)->0->ordinal;
    let p = digits_value(a);
    let q = digits_value(b);
    lemma_pow2_pos(1074);
    let one = pow2(1074);
    assert(p < q ==> p * one < q * one) by (nonlinear_arith)
        requires
            one > 0,
    ;
    assert(q < p ==> q * one < p * one) by (nonlinear_arith)
        requires
            one > 0,
    ;
    if x < y {
        lemma_units_increase(x as nat, y as nat);
    } else if y < x {
        lemma_units_increase(y as nat, x as nat);
    }
}

/// A row of digits spells the value that is its number.
proof fn lemma_whole_number_is_small(s: Seq<char>)
    requires
        is_whole(s),
    ensures
        number_of(s) matches Some(Number::Real { negative: false, ordinal: x }) && x < INFINITE - 1
            && units(x as nat) == digits_value(s) * pow2(1074),
{
    lemma_whole_number_is_exact(s);
    let x = number_of(s)->0->ordinal;
    let top = (INFINITE - 1) as nat;
    if x >= top {
        let one = pow2(1074);
        let huge = pow2(2045);
        let k = digits_value(s);
        lemma_pow2_pos(1074);
        lemma_pow2_strictly_increases(1074, 2045);
        assert(top / (BLOCK as nat) == 2046);
        assert(top % (BLOCK as nat) == BLOCK - 1);
        assert(units(top) == (2 * BLOCK - 1) * huge);
        assert(k * one < (2 * BLOCK - 1) * huge) by (nonlinear_arith)
            requires
                k <= 2 * BLOCK - 1,
                0 < one < huge,
        ;
    }
}

/// The range of a rule goes by value and holds both of its ends: of whole numbers, it holds exactly those
/// that are neither below its first end nor above its second one.
pub proof fn lemma_range_of_whole_numbers(row: Row, s: Seq<char>)
    requires
        row.len() >= 2,
        is_whole(row[0]),
        is_whole(row[1]),
        is_whole(s),
    ensures
        number_of(s) matches Some(n) && (covers(row, n) <==> digits_value(row[0]) <= digits_value(s)
            <= digits_value(row[1])),
{
    lemma_whole_numbers_compare(row[0], s);
    lemma_whole_numbers_compare(s, row[1]);
}

/// The rule that is found for a whole number is the first one whose range holds it.
pub proof fn lemma_rule_for_whole_number(rules: Seq<Row>, s: Seq<char>, width: nat, k: int)
    requires
        width >= 2,
        is_whole(s),
        forall|i: int|
            0 <= i < rules.len() ==> (#[trigger] rules[i]).len() >= width && is_whole(rules[i][0])
                && is_whole(rules[i][1]),
        0 <= k < rules.len(),
        digits_value(rules[k][0]) <= digits_value(s) <= digits_value(rules[k][1]),
        forall|i: int|
            0 <= i < k ==> digits_value(s) < digits_value((#[trigger] rules[i])[0]) || digits_value(
                rules[i][1],
            ) < digits_value(s),
    ensures
        matching_rule(s, rules, width) == Some(rules[k]),
{
    let n = number_of(s)->0;
    lemma_range_of_whole_numbers(rules[k], s);
    assert forall|i: int| 0 <= i < k implies !((#[trigger] rules[i]).len() >= width && covers(
        rules[i],
        n,
    )) by {
        lemma_range_of_whole_numbers(rules[i], s);
    }
    lemma_first_rule_wins(rules, n, width, k as nat);
}

/// No rule is found for a whole number that no range holds.
pub proof fn lemma_no_rule_for_whole_number(rules: Seq<Row>, s: Seq<char>, width: nat)
    requires
        width >= 2,
        is_whole(s),
        forall|i: int|
            0 <= i < rules.len() ==> (#[trigger] rules[i]).len() >= width && is_whole(rules[i][0])
                && is_whole(rules[i][1]) && (digits_value(s) < digits_value(rules[i][0])
                || digits_value(rules[i][1]) < digits_value(s)),
    ensures
        matching_rule(s, rules, width) is None,
{
    lemma_whole_numbers_compare(s, s);
    let n = number_of(s)->0;
    assert forall|i: int| 0 <= i < rules.len() implies !((#[trigger] rules[i]).len() >= width && covers(
        rules[i],
        n,
    )) by {
        lemma_range_of_whole_numbers(rules[i], s);
    }
    lemma_first_rule_wins(rules, n, width, rules.len());
}

/// A rule overlaps with another one exactly where some whole number lies between the ends of both, for
/// ends that are whole numbers, whichever end of a range is the larger one.
pub proof fn lemma_overlap_of_whole_numbers(a: Row, b: Row, skip: Option<usize>)
    requires
        a.len() >= 2,
        b.len() >= 2,
        is_whole(a[0]) && is_whole(a[1]) && is_whole(b[0]) && is_whole(b[1]),
        skip != Some(0usize),
    ensures
        range_is_taken(a, seq![b], skip) <==> exists|v: nat| #[trigger]
            lies_between(v, a) && lies_between(v, b),
{
    lemma_digits_are_trimmed(a[0]);
    lemma_digits_are_trimmed(a[1]);
    lemma_digits_are_trimmed(b[0]);
    lemma_digits_are_trimmed(b[1]);
    lemma_whole_numbers_compare(a[0], a[1]);
    lemma_whole_numbers_compare(b[0], b[1]);
    lemma_whole_numbers_compare(a[0], b[0]);
    lemma_whole_numbers_compare(a[0], b[1]);
    lemma_whole_numbers_compare(a[1], b[0]);
    lemma_whole_numbers_compare(a[1], b[1]);
    let (p, q) = (digits_value(a[0]), digits_value(a[1]));
    let (x, y) = (digits_value(b[0]), digits_value(b[1]));
    assert(range_is_taken(a, seq![b], skip) <==> ranges_meet(range_of(a), range_of(b))) by {
        assert(seq![b][0] == b);
    }
    let lo = if p <= q {
        p
    } else {
        q
    };
    let low = if x <= y {
        x
    } else {
        y
    };
    if lo <= low {
        assert(lies_between(low, b));
        assert(lies_between(low, a) || !ranges_meet(range_of(a), range_of(b)));
    } else {
        assert(lies_between(lo, a));
        assert(lies_between(lo, b) || !ranges_meet(range_of(a), range_of(b)));
    }
}

/// Whether a whole number lies between the first two numbers of a row.
pub open spec fn lies_between(v: nat, row: Row) -> bool {
    digits_value(row[0]) <= v <= digits_value(row[1]) || digits_value(row[1]) <= v <= digits_value(
        row[0],
    )
}

proof fn lemma_digits_are_trimmed(s: Seq<char>)
    requires
        is_whole(s),
    ensures
        trimmed(s) == s,
{
    assert(is_digit(s[0]) && is_digit(s[s.len() - 1]));
    lemma_trimmed_is(s);
}

/// A number of tenths compares with a whole number as their values do.
proof fn lemma_tenths_compare(s: Seq<char>, m: nat)
    requires
        is_whole(s),
        digits_value(s) < 100_000,
        m < 1_000_000,
    ensures
        ({
            let x = number_of(s)->0->ordinal;
            let n = nearest(m, 10);
            &&& n < INFINITE
            &&& x <= n <==> digits_value(s) * 10 <= m
            &&& n <= x <==> m <= digits_value(s) * 10
        }),
{
    let v = digits_value(s);
    let n = nearest(m, 10);
    let one = pow2(1074);
    lemma_whole_number_is_exact(s);
    lemma_tenths_are_exact(m);
    lemma_nearest(m, 10);
    lemma_pow2_pos(1074);
    lemma_pow2_unfold(1075);
    assert(pow(10, 6) == 1_000_000) by {
        reveal_with_fuel(pow, 7);
    }
    let x = number_of(s)->0->ordinal as nat;
    if n > x {
        let below = (n - 1) as nat;
        if x < below {
            lemma_units_increase(x, below);
        }
        lemma_units_increase(x, n);
        let p = units(below);
        let q = units(n);
        assert(m > 10 * v) by (nonlinear_arith)
            requires
                p >= v * one,
                q > v * one,
                (p + q) * 10 <= m * (2 * one),
                one > 0,
        ;
    } else if n < x {
        let above = n + 1;
        if above < x {
            lemma_units_increase(above, x);
        }
        lemma_units_increase(n, x);
        let p = units(above);
        let q = units(n);
        assert(m < 10 * v) by (nonlinear_arith)
            requires
                p <= v * one,
                q < v * one,
                m * (2 * one) <= (q + p) * 10,
                one > 0,
        ;
    }
}

/// The range of a rule holds a number with a fraction where it lies between the ends by its value: a rule
/// from 1 to 10 holds 9.5, and not 10.5.
pub proof fn lemma_range_and_fractions(row: Row, whole: Seq<char>, digit: char)
    requires
        row.len() >= 2,
        is_whole(row[0]),
        is_whole(row[1]),
        digits_value(row[0]) < 100_000,
        digits_value(row[1]) < 100_000,
        is_whole(whole),
        is_digit(digit),
        digits_value(whole) < 100_000,
    ensures
        number_of(whole + "."@ + seq![digit]) matches Some(n) && (covers(row, n) <==> digits_value(row[0])
            * 10 <= digits_value(whole.push(digit)) <= digits_value(row[1]) * 10),
{
    let m = digits_value(whole.push(digit));
    assert(whole.push(digit).drop_last() =~= whole);
    lemma_tenths_are_read(whole, digit);
    lemma_tenths_compare(row[0], m);
    lemma_tenths_compare(row[1], m);
    lemma_whole_numbers_compare(row[0], row[1]);
}

} // verus!
