//! What the user enters: rules, labels, fields and paths.

use crate::decimal::{
    all_digits,
    decimal_text,
    digits_value,
    is_digit,
    is_digit_char,
    lemma_decimal_text,
};
use crate::import::{copy_row, copy_rows};
use crate::number::{
    at_most,
    lemma_nearest,
    lemma_tenths_are_exact,
    lemma_tenths_are_read,
    lemma_units_increase,
    lemma_whole_number_is_exact,
    nearest,
    number_of,
    number_text,
    parse_number,
    units,
    Number,
};
use crate::order::{
    is_stable_order,
    picked,
    rank_order,
    sort_by_rank,
    sort_by_text,
    stable_order,
    text_order,
};
use crate::planning::{lemma_one_place, tenths_text};
use crate::rules::{
    cell,
    covers,
    first_covering,
    is_inner,
    is_whole,
    lemma_first_rule_wins,
    lemma_overlap_of_whole_numbers,
    lemma_rules_that_share_a_number_meet,
    lies_between,
    range_is_taken,
    range_of,
    ranges_meet,
    rule_range_overlaps,
    volume_is_taken,
    volume_value_duplicated,
    Row,
};
use crate::schema::{
    canonical_order,
    comicinfo_fields,
    default_tag_order,
    field_table,
    rank_of,
    tag_rank,
    FieldSpec,
};
use crate::session::{ComicInfoApp, Dialog, DecimalState, RuleEditState, RuleTarget};
use crate::state::{AppConfig, AppSettings, ComicMode};
use crate::tags::{keys, Pair};
use crate::text::{
    cat2,
    cat3,
    cat4,
    cat5,
    chars_of,
    contains,
    contains_text,
    lemma_trailing_is,
    lemma_trimmed_is,
    only,
    same,
    text_between,
    trim,
    trim_end,
    trimmed,
    trimmed_end,
};
use crate::unicode::{is_space, is_space_char};
use crate::worker::{is_among, is_in};
use vstd::arithmetic::power2::{lemma_pow2_pos, lemma_pow2_unfold, pow2};
use vstd::prelude::*;

verus! {

// ── Rules ───────────────────────────────────────────────────────────────────────────────────────
/// The columns of the rules of a kind.
pub open spec fn column_names(target: RuleTarget) -> Row {
    match target {
        RuleTarget::Volume => seq!["Ch Start"@, "Ch End"@, "Volume"@],
        RuleTarget::Date => seq!["Vol Start"@, "Vol End"@, "Year"@, "Month"@, "Day"@],
        RuleTarget::Summary => seq!["Vol Start"@, "Vol End"@, "Summary"@],
    }
}

/// The columns of the rules of a kind.
pub fn rule_columns(target: RuleTarget) -> (r: Vec<String>)
    ensures
        r.deep_view() == column_names(target),
{
    let mut out: Vec<String> = Vec::new();
    match target {
        RuleTarget::Volume => {
            out.push(String::from_str("Ch Start"));
            out.push(String::from_str("Ch End"));
            out.push(String::from_str("Volume"));
        },
        RuleTarget::Date => {
            out.push(String::from_str("Vol Start"));
            out.push(String::from_str("Vol End"));
            out.push(String::from_str("Year"));
            out.push(String::from_str("Month"));
            out.push(String::from_str("Day"));
        },
        RuleTarget::Summary => {
            out.push(String::from_str("Vol Start"));
            out.push(String::from_str("Vol End"));
            out.push(String::from_str("Summary"));
        },
    }
    assert(out.deep_view() =~= column_names(target));
    out
}

/// A row filled up with empty texts to at least `n`.
pub open spec fn padded_row(row: Row, n: nat) -> Row {
    if row.len() < n {
        row + Seq::new((n - row.len()) as nat, |i: int| ""@)
    } else {
        row
    }
}

/// A row filled up with empty texts to at least `n`.
pub fn padded(row: &Vec<String>, n: usize) -> (r: Vec<String>)
    ensures
        r.deep_view() == padded_row(row.deep_view(), n as nat),
{
    let ghost start = row.deep_view();
    let mut out = copy_row(row);
    assert(out.deep_view().len() == out@.len());
    if out.len() >= n {
        return out;
    }
    let ghost k = start.len();
    assert(out.deep_view() =~= start + Seq::new(0, |i: int| ""@));
    while out.len() < n
        invariant
            k <= out@.len() <= n,
            out.deep_view() == start + Seq::new((out@.len() - k) as nat, |i: int| ""@),
        decreases n - out@.len(),
    {
        let ghost before = out.deep_view();
        out.push(String::from_str(""));
        assert(out.deep_view() =~= before.push(""@));
        assert(out.deep_view() =~= start + Seq::new((out@.len() - k) as nat, |i: int| ""@));
    }
    out
}

/// The rules of a kind.
pub open spec fn rules_of(cfg: AppConfig, target: RuleTarget) -> Seq<Row> {
    match target {
        RuleTarget::Volume => cfg.volume_rules.deep_view(),
        RuleTarget::Date => cfg.date_rules.deep_view(),
        RuleTarget::Summary => cfg.summ_rules.deep_view(),
    }
}

/// Whether the range of a rule can be a single volume.
pub open spec fn is_volume_range(target: RuleTarget) -> bool {
    target == RuleTarget::Date || target == RuleTarget::Summary
}

/// Whether the range of a row is a single volume.
pub open spec fn is_single(target: RuleTarget, values: Row) -> bool {
    &&& is_volume_range(target)
    &&& values.len() >= 2
    &&& values[0] == values[1]
    &&& trimmed(values[0]).len() > 0
}

/// Whether a text is not blank and spells a number.
pub open spec fn is_number_text(text: Seq<char>) -> bool {
    trimmed(text).len() > 0 && number_of(trimmed(text)) is Some
}

/// Whether the ends of the range of a rule are numbers, as far as they are entered.
pub open spec fn has_range(target: RuleTarget, values: Row, same_ends: bool) -> bool {
    &&& values.len() > 0
    &&& is_number_text(values[0])
    &&& (is_volume_range(target) && same_ends) || (values.len() > 1 && is_number_text(values[1]))
}

/// Whether a rule can be saved, or why not.
#[derive(Clone, Copy, Debug, PartialEq, Eq, Structural)]
pub enum RuleCheck {
    Fine,
    /// An end of the range is no number.
    NoRange,
    /// The range meets that of another rule.
    Overlap,
    /// The volume is that of another rule.
    VolumeTaken,
}

/// Whether a rule can be saved, or why not.
pub open spec fn rule_check(cfg: AppConfig, s: RuleEditState) -> RuleCheck {
    let values = s.values.deep_view();
    let rules = rules_of(cfg, s.target);
    if !has_range(s.target, values, s.same_start_end) {
        RuleCheck::NoRange
    } else if range_is_taken(values, rules, s.row_idx) {
        RuleCheck::Overlap
    } else if s.target == RuleTarget::Volume && volume_is_taken(values, rules, s.row_idx) {
        RuleCheck::VolumeTaken
    } else {
        RuleCheck::Fine
    }
}

/// The label at a place, or another text where there is none.
pub open spec fn label_at(labels: Row, k: int, other: Seq<char>) -> Seq<char> {
    if 0 <= k < labels.len() {
        labels[k]
    } else {
        other
    }
}

/// What is told of a rule that cannot be saved.
pub open spec fn check_text(s: RuleEditState, check: RuleCheck) -> Option<Seq<char>> {
    let first = label_at(s.labels.deep_view(), 0, "Start"@);
    let second = label_at(s.labels.deep_view(), 1, "End"@);
    match check {
        RuleCheck::Fine => None,
        RuleCheck::NoRange => Some(
            if is_volume_range(s.target) && s.same_start_end {
                "Vol No. is required and must be a number."@
            } else {
                first + " and "@ + second + " are required and must be numbers."@
            },
        ),
        RuleCheck::Overlap => Some(
            "This "@ + first + "/"@ + second
                + " range overlaps another rule -- whichever rule comes first will always be used, and this one will never take effect."@,
        ),
        RuleCheck::VolumeTaken => Some(
            "This Volume number is already used by a different chapter range. Each volume number should map to one chapter range."@,
        ),
    }
}

fn is_number(text: &str) -> (r: bool)
    ensures
        r == is_number_text(text@),
{
    let t = trim(text);
    !t.as_str().is_empty() && parse_number(t.as_str()).is_some()
}

fn is_range_of_volumes(target: RuleTarget) -> (r: bool)
    ensures
        r == is_volume_range(target),
{
    match target {
        RuleTarget::Volume => false,
        _ => true,
    }
}

fn pick_label(labels: &Vec<String>, k: usize, other: &str) -> (r: String)
    ensures
        r@ == label_at(labels.deep_view(), k as int, other@),
{
    if k < labels.len() {
        labels[k].clone()
    } else {
        String::from_str(other)
    }
}

impl RuleEditState {
    /// A rule that is to be added.
    pub fn fresh(target: RuleTarget) -> (r: RuleEditState)
        ensures
            r.target == target,
            r.row_idx is None,
            r.is_new,
            !r.same_start_end,
            r.labels.deep_view() == column_names(target),
            r.values.deep_view() == Seq::new(column_names(target).len(), |i: int| ""@),
    {
        let labels = rule_columns(target);
        let empty: Vec<String> = Vec::new();
        let n: usize = labels.len();
        let values = padded(&empty, n);
        assert(labels.deep_view().len() == n);
        assert(values.deep_view() =~= Seq::new(column_names(target).len(), |i: int| ""@));
        RuleEditState { target, row_idx: None, labels, values, is_new: true, same_start_end: false }
    }

    /// A rule that is to be changed.
    pub fn of_row(target: RuleTarget, idx: usize, row: &Vec<String>) -> (r: RuleEditState)
        ensures
            r.target == target,
            r.row_idx == Some(idx),
            !r.is_new,
            r.labels.deep_view() == column_names(target),
            r.values.deep_view() == padded_row(row.deep_view(), column_names(target).len()),
            r.same_start_end == is_single(target, r.values.deep_view()),
    {
        let labels = rule_columns(target);
        assert(labels.deep_view().len() == labels@.len());
        let values = padded(row, labels.len());
        assert(values.deep_view().len() == values@.len());
        let same_start_end: bool = is_range_of_volumes(target) && values.len() >= 2 && same(
            values[0].as_str(),
            values[1].as_str(),
        ) && !trim(values[0].as_str()).as_str().is_empty();
        RuleEditState {
            target,
            row_idx: Some(idx),
            labels,
            values,
            is_new: false,
            same_start_end,
        }
    }

    /// Makes the end of the range what its start is.
    pub fn mirror_end(&mut self)
        ensures
            final(self).values.deep_view() == if old(self).values@.len() >= 2 {
                old(self).values.deep_view().update(1, old(self).values@[0]@)
            } else {
                old(self).values.deep_view()
            },
            *final(self) == (RuleEditState { values: final(self).values, ..*old(self) }),
    {
        if self.values.len() >= 2 {
            let ghost before = self.values.deep_view();
            let start = self.values[0].clone();
            self.values.set(1, start);
            assert(self.values.deep_view() =~= before.update(1, start@));
        }
    }

    /// What is told of the rule where it cannot be saved.
    pub fn check_message(&self, check: RuleCheck) -> (r: Option<String>)
        ensures
            r.deep_view() == check_text(*self, check),
    {
        let first = pick_label(&self.labels, 0, "Start");
        let second = pick_label(&self.labels, 1, "End");
        match check {
            RuleCheck::Fine => None,
            RuleCheck::NoRange => Some(
                if is_range_of_volumes(self.target) && self.same_start_end {
                    String::from_str("Vol No. is required and must be a number.")
                } else {
                    cat4(
                        first.as_str(),
                        " and ",
                        second.as_str(),
                        " are required and must be numbers.",
                    )
                },
            ),
            RuleCheck::Overlap => Some(
                cat5(
                    "This ",
                    first.as_str(),
                    "/",
                    second.as_str(),
                    " range overlaps another rule -- whichever rule comes first will always be used, and this one will never take effect.",
                ),
            ),
            RuleCheck::VolumeTaken => Some(
                String::from_str(
                    "This Volume number is already used by a different chapter range. Each volume number should map to one chapter range.",
                ),
            ),
        }
    }
}

/// The rules with a row at a place, or behind them where there is no place. Nothing changes where the
/// place is not there.
pub open spec fn with_rule(rules: Seq<Row>, place: Option<usize>, row: Row) -> Seq<Row> {
    match place {
        None => rules.push(row),
        Some(i) => if i < rules.len() {
            rules.update(i as int, row)
        } else {
            rules
        },
    }
}

/// Puts a row at a place, or behind the rules where there is no place.
fn put_rule(rules: &mut Vec<Vec<String>>, place: Option<usize>, row: Vec<String>)
    ensures
        final(rules).deep_view() == with_rule(old(rules).deep_view(), place, row.deep_view()),
{
    let ghost before = rules.deep_view();
    match place {
        None => {
            rules.push(row);
            assert(rules.deep_view() =~= before.push(row.deep_view()));
        },
        Some(i) => {
            if i < rules.len() {
                rules.set(i, row);
                assert(rules.deep_view() =~= before.update(i as int, row.deep_view()));
            }
        },
    }
}

/// The rules without the one at a place.
pub open spec fn without_rule(rules: Seq<Row>, i: usize) -> Seq<Row> {
    if i < rules.len() {
        rules.remove(i as int)
    } else {
        rules
    }
}

fn take_rule(rules: &mut Vec<Vec<String>>, i: usize)
    ensures
        final(rules).deep_view() == without_rule(old(rules).deep_view(), i),
{
    let ghost before = rules.deep_view();
    if i < rules.len() {
        let _ = rules.remove(i);
        assert(rules.deep_view() =~= before.remove(i as int));
    }
}

/// The selected rule of a kind.
pub open spec fn selection_of(app: ComicInfoApp, target: RuleTarget) -> Option<usize> {
    match target {
        RuleTarget::Volume => app.vol_sel,
        RuleTarget::Date => app.date_sel,
        RuleTarget::Summary => app.summ_sel,
    }
}

/// Whether nothing but the rules of a kind and their selection differs.
pub open spec fn only_rules_differ(a: ComicInfoApp, b: ComicInfoApp, target: RuleTarget) -> bool {
    match target {
        RuleTarget::Volume => b == (ComicInfoApp {
            cfg: AppConfig { volume_rules: b.cfg.volume_rules, ..a.cfg },
            vol_sel: b.vol_sel,
            dialog: b.dialog,
            ..a
        }),
        RuleTarget::Date => b == (ComicInfoApp {
            cfg: AppConfig { date_rules: b.cfg.date_rules, ..a.cfg },
            date_sel: b.date_sel,
            dialog: b.dialog,
            ..a
        }),
        RuleTarget::Summary => b == (ComicInfoApp {
            cfg: AppConfig { summ_rules: b.cfg.summ_rules, ..a.cfg },
            summ_sel: b.summ_sel,
            dialog: b.dialog,
            ..a
        }),
    }
}

/// The selection after a row was chosen: a row that was selected is no longer.
pub open spec fn toggled(selected: Option<usize>, i: usize) -> Option<usize> {
    if selected == Some(i) {
        None
    } else {
        Some(i)
    }
}

/// The selection after a row was chosen.
pub fn toggle_row(selected: Option<usize>, i: usize) -> (r: Option<usize>)
    ensures
        r == toggled(selected, i),
{
    match selected {
        Some(k) => if k == i {
            None
        } else {
            Some(i)
        },
        None => Some(i),
    }
}

impl ComicInfoApp {
    /// The rules of a kind, in another list.
    fn copy_rules(&self, target: RuleTarget) -> (r: Vec<Vec<String>>)
        ensures
            r.deep_view() == rules_of(self.cfg, target),
    {
        match target {
            RuleTarget::Volume => copy_rows(&self.cfg.volume_rules),
            RuleTarget::Date => copy_rows(&self.cfg.date_rules),
            RuleTarget::Summary => copy_rows(&self.cfg.summ_rules),
        }
    }

    /// The selected rule of a kind.
    pub fn selected_rule(&self, target: RuleTarget) -> (r: Option<usize>)
        ensures
            r == selection_of(*self, target),
    {
        match target {
            RuleTarget::Volume => self.vol_sel,
            RuleTarget::Date => self.date_sel,
            RuleTarget::Summary => self.summ_sel,
        }
    }

    /// Sets the rules of a kind, and which of them is selected.
    fn set_rules(&mut self, target: RuleTarget, rules: Vec<Vec<String>>, selected: Option<usize>)
        ensures
            rules_of(final(self).cfg, target) == rules.deep_view(),
            selection_of(*final(self), target) == selected,
            final(self).dialog == old(self).dialog,
            only_rules_differ(*old(self), *final(self), target),
    {
        match target {
            RuleTarget::Volume => {
                self.cfg.volume_rules = rules;
                self.vol_sel = selected;
            },
            RuleTarget::Date => {
                self.cfg.date_rules = rules;
                self.date_sel = selected;
            },
            RuleTarget::Summary => {
                self.cfg.summ_rules = rules;
                self.summ_sel = selected;
            },
        }
    }

    /// Whether a rule can be saved, or why not.
    pub fn check_rule(&self, s: &RuleEditState) -> (r: RuleCheck)
        ensures
            r == rule_check(self.cfg, *s),
    {
        let n: usize = s.values.len();
        assert(s.values.deep_view().len() == n);
        let first_is_number: bool = n > 0 && is_number(s.values[0].as_str());
        let second_is_number: bool = n > 1 && is_number(s.values[1].as_str());
        let single: bool = is_range_of_volumes(s.target) && s.same_start_end;
        if !(first_is_number && (single || second_is_number)) {
            return RuleCheck::NoRange;
        }
        let rules = match s.target {
            RuleTarget::Volume => &self.cfg.volume_rules,
            RuleTarget::Date => &self.cfg.date_rules,
            RuleTarget::Summary => &self.cfg.summ_rules,
        };
        if rule_range_overlaps(&s.values, rules, s.row_idx) {
            return RuleCheck::Overlap;
        }
        let is_volume: bool = match s.target {
            RuleTarget::Volume => true,
            _ => false,
        };
        if is_volume && volume_value_duplicated(&s.values, rules, s.row_idx) {
            RuleCheck::VolumeTaken
        } else {
            RuleCheck::Fine
        }
    }

    /// Saves a rule where it can be saved; else it is still being edited.
    pub fn save_rule(&mut self, s: RuleEditState) -> (r: RuleCheck)
        ensures
            r == rule_check(old(self).cfg, s),
            r == RuleCheck::Fine ==> {
                &&& rules_of(final(self).cfg, s.target) == with_rule(
                    rules_of(old(self).cfg, s.target),
                    s.row_idx,
                    s.values.deep_view(),
                )
                &&& final(self).dialog is None
                &&& selection_of(*final(self), s.target) == selection_of(*old(self), s.target)
                &&& only_rules_differ(*old(self), *final(self), s.target)
            },
            r != RuleCheck::Fine ==> *final(self) == (ComicInfoApp {
                dialog: Some(Dialog::EditRule(s)),
                ..*old(self)
            }),
    {
        match self.check_rule(&s) {
            RuleCheck::Fine => {
                let mut rules = self.copy_rules(s.target);
                put_rule(&mut rules, s.row_idx, s.values);
                let selected: Option<usize> = self.selected_rule(s.target);
                self.set_rules(s.target, rules, selected);
                self.dialog = None;
                RuleCheck::Fine
            },
            other => {
                self.dialog = Some(Dialog::EditRule(s));
                other
            },
        }
    }

    /// Starts to add a rule.
    pub fn add_rule(&mut self, target: RuleTarget)
        ensures
            final(self).dialog matches Some(Dialog::EditRule(s)) && s.target == target && s.is_new
                && s.row_idx is None && !s.same_start_end && s.labels.deep_view() == column_names(
                target,
            ) && s.values.deep_view() == Seq::new(column_names(target).len(), |i: int| ""@),
            *final(self) == (ComicInfoApp { dialog: final(self).dialog, ..*old(self) }),
    {
        self.dialog = Some(Dialog::EditRule(RuleEditState::fresh(target)));
    }

    /// Starts to change the selected rule, where one is selected.
    pub fn edit_rule(&mut self, target: RuleTarget)
        ensures
            match selection_of(*old(self), target) {
                Some(i) => if i < rules_of(old(self).cfg, target).len() {
                    &&& final(self).dialog matches Some(Dialog::EditRule(s)) && s.target == target
                        && !s.is_new && s.row_idx == Some(i) && s.labels.deep_view()
                        == column_names(target) && s.values.deep_view() == padded_row(
                        rules_of(old(self).cfg, target)[i as int],
                        column_names(target).len(),
                    ) && s.same_start_end == is_single(target, s.values.deep_view())
                    &&& *final(self) == (ComicInfoApp { dialog: final(self).dialog, ..*old(self) })
                } else {
                    *final(self) == *old(self)
                },
                None => *final(self) == *old(self),
            },
    {
        let (rules, selected) = match target {
            RuleTarget::Volume => (&self.cfg.volume_rules, self.vol_sel),
            RuleTarget::Date => (&self.cfg.date_rules, self.date_sel),
            RuleTarget::Summary => (&self.cfg.summ_rules, self.summ_sel),
        };
        match selected {
            Some(i) => {
                if i < rules.len() {
                    let state = RuleEditState::of_row(target, i, &rules[i]);
                    self.dialog = Some(Dialog::EditRule(state));
                }
            },
            None => {},
        }
    }

    /// Removes the selected rule. Where none is selected, the user is asked whether all are to be
    /// removed, if there are any.
    pub fn remove_rule(&mut self, target: RuleTarget)
        ensures
            match selection_of(*old(self), target) {
                Some(i) => {
                    &&& rules_of(final(self).cfg, target) == without_rule(
                        rules_of(old(self).cfg, target),
                        i,
                    )
                    &&& selection_of(*final(self), target) is None
                    &&& final(self).dialog == old(self).dialog
                },
                None => {
                    &&& rules_of(final(self).cfg, target) == rules_of(old(self).cfg, target)
                    &&& selection_of(*final(self), target) is None
                    &&& final(self).dialog == if rules_of(old(self).cfg, target).len() > 0 {
                        Some(Dialog::ConfirmClearAllRules(target))
                    } else {
                        old(self).dialog
                    }
                },
            },
            only_rules_differ(*old(self), *final(self), target),
    {
        let mut rules = self.copy_rules(target);
        let count: usize = rules.len();
        assert(rules.deep_view().len() == count);
        match self.selected_rule(target) {
            Some(i) => {
                take_rule(&mut rules, i);
                self.set_rules(target, rules, None);
            },
            None => {
                if count > 0 {
                    self.dialog = Some(Dialog::ConfirmClearAllRules(target));
                }
            },
        }
    }

    /// Removes all rules of a kind.
    pub fn clear_rules(&mut self, target: RuleTarget)
        ensures
            rules_of(final(self).cfg, target) == Seq::<Row>::empty(),
            selection_of(*final(self), target) is None,
            final(self).dialog is None,
            only_rules_differ(*old(self), *final(self), target),
    {
        let none: Vec<Vec<String>> = Vec::new();
        assert(none.deep_view() =~= Seq::<Row>::empty());
        self.set_rules(target, none, None);
        self.dialog = None;
    }

    /// Selects a rule, or no longer selects it.
    pub fn choose_rule(&mut self, target: RuleTarget, i: usize)
        ensures
            selection_of(*final(self), target) == toggled(selection_of(*old(self), target), i),
            rules_of(final(self).cfg, target) == rules_of(old(self).cfg, target),
            final(self).dialog == old(self).dialog,
            only_rules_differ(*old(self), *final(self), target),
    {
        let rules = self.copy_rules(target);
        let selected: Option<usize> = toggle_row(self.selected_rule(target), i);
        self.set_rules(target, rules, selected);
    }
}

/// Where a rule is put when it is saved.
pub open spec fn saved_place(rules: Seq<Row>, place: Option<usize>) -> nat {
    match place {
        Some(i) => i as nat,
        None => rules.len(),
    }
}

/// A rule that is saved takes effect: whatever number it covers, it is the rule that is found for it.
/// `width` is the number of columns that rules of its kind need.
pub proof fn lemma_saved_rule_takes_effect(
    cfg: AppConfig,
    s: RuleEditState,
    n: Number,
    width: nat,
)
    requires
        rule_check(cfg, s) == RuleCheck::Fine,
        s.row_idx matches Some(i) ==> i < rules_of(cfg, s.target).len(),
        2 <= width <= s.values.deep_view().len(),
        is_inner(n),
        covers(s.values.deep_view(), n),
    ensures
        ({
            let rules = rules_of(cfg, s.target);
            first_covering(with_rule(rules, s.row_idx, s.values.deep_view()), n, width)
                == saved_place(rules, s.row_idx)
        }),
{
    let rules = rules_of(cfg, s.target);
    let row = s.values.deep_view();
    let after = with_rule(rules, s.row_idx, row);
    let place = saved_place(rules, s.row_idx);
    assert forall|i: int| 0 <= i < place implies !((#[trigger] after[i]).len() >= width && covers(
        after[i],
        n,
    )) by {
        assert(after[i] == rules[i]);
        assert(!ranges_meet(range_of(row), range_of(rules[i])));
        if rules[i].len() >= width && covers(rules[i], n) {
            lemma_rules_that_share_a_number_meet(row, rules[i], n);
        }
    }
    assert(after[place as int] == row);
    lemma_first_rule_wins(after, n, width, place);
}

// ── Labels ──────────────────────────────────────────────────────────────────────────────────────
/// The title of a file with the label that was chosen for it.
pub open spec fn labelled_title(d: DecimalState) -> Seq<char> {
    let prefix = trimmed_end(trimmed(d.custom@), ':');
    if d.choice == 2 {
        "Bonus Manga: "@ + d.raw_title@
    } else if d.choice == 3 {
        "Bonus Chapter: "@ + d.raw_title@
    } else if d.choice == 4 {
        "Extra Chapter: "@ + d.raw_title@
    } else if d.choice == 5 && prefix.len() > 0 {
        prefix + ": "@ + d.raw_title@
    } else {
        d.raw_title@
    }
}

impl DecimalState {
    /// The title of the file with the label that was chosen for it.
    pub fn result(&self) -> (r: String)
        ensures
            r@ == labelled_title(*self),
    {
        let raw = self.raw_title.as_str();
        if self.choice == 2 {
            cat2("Bonus Manga: ", raw)
        } else if self.choice == 3 {
            cat2("Bonus Chapter: ", raw)
        } else if self.choice == 4 {
            cat2("Extra Chapter: ", raw)
        } else if self.choice == 5 {
            let custom = trim(self.custom.as_str());
            let prefix = trim_end(custom.as_str(), ':');
            if prefix.as_str().is_empty() {
                self.raw_title.clone()
            } else {
                cat3(prefix.as_str(), ": ", raw)
            }
        } else {
            self.raw_title.clone()
        }
    }
}

// ── Numbers in fields ───────────────────────────────────────────────────────────────────────────
/// The digits of a text.
pub open spec fn digits_in(s: Seq<char>) -> Seq<char>
    decreases s.len(),
{
    if s.len() == 0 {
        Seq::empty()
    } else if is_digit(s.last()) {
        digits_in(s.drop_last()).push(s.last())
    } else {
        digits_in(s.drop_last())
    }
}

/// What is kept of a text in a numeric field: its first digits.
pub open spec fn numeric_input(s: Seq<char>, max_digits: nat) -> Seq<char> {
    let d = digits_in(s);
    if d.len() > max_digits {
        d.take(max_digits as int)
    } else {
        d
    }
}

/// What is kept of a text in a numeric field: its first digits.
pub fn keep_digits(text: &str, max_digits: usize) -> (r: String)
    ensures
        r@ == numeric_input(text@, max_digits as nat),
{
    let v = chars_of(text);
    let mut digits: Vec<char> = Vec::new();
    let n: usize = v.len();
    assert(digits@ =~= digits_in(v@.take(0)));
    for i in 0..n
        invariant
            n == v@.len(),
            digits@ == digits_in(v@.take(i as int)),
    {
        proof {
            assert(v@.take(i + 1).drop_last() =~= v@.take(i as int));
            assert(v@.take(i + 1).last() == v@[i as int]);
        }
        if is_digit_char(v[i]) {
            digits.push(v[i]);
        }
    }
    assert(v@.take(n as int) =~= v@);
    let k: usize = if digits.len() > max_digits {
        max_digits
    } else {
        digits.len()
    };
    assert(digits@.subrange(0, k as int) =~= numeric_input(text@, max_digits as nat));
    text_between(&digits, 0, k)
}

/// What is kept of a text in a decimal field: its digits and the first point.
pub open spec fn decimal_input(s: Seq<char>) -> Seq<char>
    decreases s.len(),
{
    if s.len() == 0 {
        Seq::empty()
    } else {
        let head = decimal_input(s.drop_last());
        let c = s.last();
        if is_digit(c) || (c == '.' && !head.contains('.')) {
            head.push(c)
        } else {
            head
        }
    }
}

/// What is kept of a text in a decimal field: its digits and the first point.
pub fn keep_decimal(text: &str) -> (r: String)
    ensures
        r@ == decimal_input(text@),
{
    let v = chars_of(text);
    let mut out = String::new();
    let mut pointed: bool = false;
    let n: usize = v.len();
    assert(out@ =~= decimal_input(v@.take(0)));
    for i in 0..n
        invariant
            n == v@.len(),
            out@ == decimal_input(v@.take(i as int)),
            pointed == out@.contains('.'),
    {
        let ghost before = out@;
        proof {
            assert(v@.take(i + 1).drop_last() =~= v@.take(i as int));
            assert(v@.take(i + 1).last() == v@[i as int]);
        }
        let c: char = v[i];
        if is_digit_char(c) {
            out.push(c);
            proof {
                if before.contains('.') {
                    let k = choose|k: int| 0 <= k < before.len() && before[k] == '.';
                    assert(out@[k] == '.');
                }
                if out@.contains('.') {
                    let k = choose|k: int| 0 <= k < out@.len() && out@[k] == '.';
                    assert(k < before.len() && before[k] == '.');
                }
            }
        } else if c == '.' && !pointed {
            out.push(c);
            pointed = true;
            assert(out@[out@.len() - 1] == '.');
        }
    }
    assert(v@.take(n as int) =~= v@);
    out
}

/// A number brought between two others.
pub open spec fn clamped(n: Number, lo: Number, hi: Number) -> Number {
    if n == Number::Nan {
        n
    } else if !at_most(lo, n) {
        lo
    } else if !at_most(n, hi) {
        hi
    } else {
        n
    }
}

/// The value of a decimal field when it is left: a number is brought between the bounds and written
/// with one digit behind the point, and what is no number is dropped.
pub open spec fn committed(s: Seq<char>, lo: Number, hi: Number) -> Seq<char> {
    match number_of(s) {
        Some(n) => number_text(clamped(n, lo, hi), 1),
        None => if trimmed(s).len() > 0 {
            Seq::empty()
        } else {
            s
        },
    }
}

/// The bounds of a decimal field. A community rating may be given on a scale up to 10.
pub fn decimal_bounds(tag: &str, ten_scale: bool, min: u32, max: u32) -> (r: (u32, u32))
    ensures
        r == if tag@ == "CommunityRating"@ && ten_scale {
            (0u32, 10u32)
        } else {
            (min, max)
        },
{
    if same(tag, "CommunityRating") && ten_scale {
        (0, 10)
    } else {
        (min, max)
    }
}

/// The value of a decimal field when it is left.
pub fn commit_decimal(text: &str, min: u32, max: u32) -> (r: String)
    ensures
        ({
            let lo = number_of(decimal_text(min as nat));
            let hi = number_of(decimal_text(max as nat));
            lo is Some && hi is Some && r@ == committed(text@, lo->0, hi->0)
        }),
{
    let lo = Number::whole(min);
    let hi = Number::whole(max);
    match parse_number(text) {
        Some(n) => {
            let is_nan: bool = match n {
                Number::Nan => true,
                _ => false,
            };
            let kept = if is_nan {
                n
            } else if !lo.is_at_most(&n) {
                lo
            } else if !n.is_at_most(&hi) {
                hi
            } else {
                n
            };
            kept.to_text(1)
        },
        None => {
            if !trim(text).as_str().is_empty() {
                let r = String::new();
                assert(r@ =~= Seq::<char>::empty());
                r
            } else {
                String::from_str(text)
            }
        },
    }
}

// ── Texts ───────────────────────────────────────────────────────────────────────────────────────
/// A path without the quotes around it.
pub open spec fn unquoted(s: Seq<char>) -> Seq<char> {
    if s.len() > 2 && s[0] == '"' && s.last() == '"' {
        s.subrange(1, s.len() - 1)
    } else {
        s
    }
}

/// A path without the quotes around it.
pub fn unquote(text: &str) -> (r: String)
    ensures
        r@ == unquoted(text@),
{
    let v = chars_of(text);
    let n: usize = v.len();
    if n > 2 && v[0] == '"' && v[n - 1] == '"' {
        text_between(&v, 1, n - 1)
    } else {
        String::from_str(text)
    }
}

/// A text with single blanks in place of white space, and none at its ends.
pub open spec fn on_one_line(s: Seq<char>) -> Seq<char>
    decreases s.len(),
{
    if s.len() == 0 {
        Seq::empty()
    } else {
        let head = on_one_line(s.drop_last());
        let c = s.last();
        if is_space(c) {
            head
        } else if head.len() > 0 && is_space(s.drop_last().last()) {
            head + seq![' ', c]
        } else {
            head.push(c)
        }
    }
}

/// A text as it is shown in a table: one with line breaks on one line.
pub open spec fn flattened(s: Seq<char>) -> Seq<char> {
    if contains_text(s, "\n"@) {
        on_one_line(s)
    } else {
        s
    }
}

/// A text as it is shown in a table: one with line breaks on one line.
pub fn flatten(text: &str) -> (r: String)
    ensures
        r@ == flattened(text@),
{
    if !contains(text, "\n") {
        return String::from_str(text);
    }
    let v = chars_of(text);
    let mut out = String::new();
    let mut started: bool = false;
    let n: usize = v.len();
    assert(out@ =~= on_one_line(v@.take(0)));
    for i in 0..n
        invariant
            n == v@.len(),
            out@ == on_one_line(v@.take(i as int)),
            started == (out@.len() > 0),
    {
        proof {
            assert(v@.take(i + 1).drop_last() =~= v@.take(i as int));
            assert(v@.take(i + 1).last() == v@[i as int]);
            if i > 0 {
                assert(v@.take(i as int).last() == v@[i - 1]);
            }
        }
        let c: char = v[i];
        if !is_space_char(c) {
            let ghost before = out@;
            if started && i > 0 && is_space_char(v[i - 1]) {
                out.push(' ');
                out.push(c);
                assert(out@ =~= before + seq![' ', c]);
            } else {
                out.push(c);
            }
            started = true;
        }
    }
    assert(v@.take(n as int) =~= v@);
    out
}

// ── Fields of constant metadata ─────────────────────────────────────────────────────────────────
/// The fields that are not among some tags.
pub open spec fn fields_besides(fields: Seq<FieldSpec>, taken: Seq<Seq<char>>) -> Seq<FieldSpec>
    decreases fields.len(),
{
    if fields.len() == 0 {
        Seq::empty()
    } else if is_among(fields.last().tag@, taken) {
        fields_besides(fields.drop_last(), taken)
    } else {
        fields_besides(fields.drop_last(), taken).push(fields.last())
    }
}

/// The fields in the order of their labels.
pub open spec fn by_label(fields: Seq<FieldSpec>) -> Seq<FieldSpec> {
    picked(
        fields,
        stable_order(fields.len(), text_order(fields.map_values(|f: FieldSpec| f.label@))),
    )
}

/// The fields that can be added to the constant metadata, in the order of their labels.
pub open spec fn addable_fields(cfg: AppConfig) -> Seq<FieldSpec> {
    by_label(fields_besides(field_table(), keys(cfg.metadata_fields.deep_view())))
}

/// The tags that are worked out for each file, or may be.
pub open spec fn is_worked_out(tag: Seq<char>) -> bool {
    tag == "Title"@ || tag == "Number"@ || tag == "Volume"@ || tag == "Summary"@ || tag == "Year"@
        || tag == "Month"@ || tag == "Day"@
}

/// Whether a tag is in use.
pub open spec fn is_in_use(cfg: AppConfig, tag: Seq<char>) -> bool {
    is_among(tag, keys(cfg.metadata_fields.deep_view())) || is_worked_out(tag)
}

/// The pairs but for those with a given tag.
pub open spec fn without_tag(pairs: Seq<Pair>, tag: Seq<char>) -> Seq<Pair>
    decreases pairs.len(),
{
    if pairs.len() == 0 {
        Seq::empty()
    } else if pairs.last().0 == tag {
        without_tag(pairs.drop_last(), tag)
    } else {
        without_tag(pairs.drop_last(), tag).push(pairs.last())
    }
}

/// The tags of the constant metadata.
fn metadata_tags(cfg: &AppConfig) -> (r: Vec<String>)
    ensures
        r.deep_view() == keys(cfg.metadata_fields.deep_view()),
{
    let mut out: Vec<String> = Vec::new();
    let n: usize = cfg.metadata_fields.len();
    for i in 0..n
        invariant
            n == cfg.metadata_fields@.len(),
            out@.len() == i,
            forall|k: int| 0 <= k < i ==> (#[trigger] out@[k])@ == cfg.metadata_fields@[k].0@,
    {
        out.push(cfg.metadata_fields[i].0.clone());
    }
    assert(out.deep_view() =~= keys(cfg.metadata_fields.deep_view()));
    out
}

fn leave_fields_out(fields: &Vec<FieldSpec>, taken: &Vec<String>) -> (r: Vec<FieldSpec>)
    ensures
        r@ == fields_besides(fields@, taken.deep_view()),
{
    let mut out: Vec<FieldSpec> = Vec::new();
    let n: usize = fields.len();
    assert(out@ =~= fields_besides(fields@.take(0), taken.deep_view()));
    for i in 0..n
        invariant
            n == fields@.len(),
            out@ == fields_besides(fields@.take(i as int), taken.deep_view()),
    {
        proof {
            assert(fields@.take(i + 1).drop_last() =~= fields@.take(i as int));
            assert(fields@.take(i + 1).last() == fields@[i as int]);
        }
        if !is_in(fields[i].tag, taken) {
            out.push(fields[i]);
        }
    }
    assert(fields@.take(n as int) =~= fields@);
    out
}

fn sort_fields(fields: &Vec<FieldSpec>) -> (r: Vec<FieldSpec>)
    ensures
        r@ == by_label(fields@),
{
    let ghost labels = fields@.map_values(|f: FieldSpec| f.label@);
    let mut texts: Vec<String> = Vec::new();
    let n: usize = fields.len();
    for i in 0..n
        invariant
            n == fields@.len(),
            texts@.len() == i,
            forall|k: int| 0 <= k < i ==> (#[trigger] texts@[k])@ == fields@[k].label@,
    {
        texts.push(String::from_str(fields[i].label));
    }
    assert(texts.deep_view() =~= labels);
    let order = sort_by_text(&texts);
    let mut out: Vec<FieldSpec> = Vec::new();
    for i in 0..n
        invariant
            n == fields@.len(),
            is_stable_order(order@, n as nat, text_order(labels)),
            out@.len() == i,
            forall|k: int| 0 <= k < i ==> #[trigger] out@[k] == fields@[order@[k] as int],
    {
        out.push(fields[order[i]]);
    }
    assert(out@ =~= picked(fields@, order@));
    out
}

/// The fields that can be added to the constant metadata, in the order of their labels.
pub fn list_addable_fields(cfg: &AppConfig) -> (r: Vec<FieldSpec>)
    ensures
        r@ == addable_fields(*cfg),
{
    let fields = comicinfo_fields();
    let taken = metadata_tags(cfg);
    let free = leave_fields_out(&fields, &taken);
    sort_fields(&free)
}

/// Whether a tag is in use.
pub fn tag_in_use(cfg: &AppConfig, tag: &str) -> (r: bool)
    ensures
        r == is_in_use(*cfg, tag@),
{
    let taken = metadata_tags(cfg);
    is_in(tag, &taken) || same(tag, "Title") || same(tag, "Number") || same(tag, "Volume") || same(
        tag,
        "Summary",
    ) || same(tag, "Year") || same(tag, "Month") || same(tag, "Day")
}

/// The ranks of the constant metadata in the order of tags.
pub open spec fn field_ranks(cfg: AppConfig) -> Seq<usize> {
    keys(cfg.metadata_fields.deep_view()).map_values(
        |t: Seq<char>| rank_of(t, cfg.tag_order.deep_view()),
    )
}

/// The places of the constant metadata, in the order of tags.
pub fn field_places(cfg: &AppConfig) -> (r: Vec<usize>)
    ensures
        is_stable_order(r@, cfg.metadata_fields@.len(), rank_order(field_ranks(*cfg))),
{
    let mut ranks: Vec<usize> = Vec::new();
    let n: usize = cfg.metadata_fields.len();
    for i in 0..n
        invariant
            n == cfg.metadata_fields@.len(),
            ranks@.len() == i,
            forall|k: int|
                0 <= k < i ==> #[trigger] ranks@[k] == rank_of(
                    cfg.metadata_fields@[k].0@,
                    cfg.tag_order.deep_view(),
                ),
    {
        ranks.push(tag_rank(cfg.metadata_fields[i].0.as_str(), &cfg.tag_order));
    }
    assert(ranks@ =~= field_ranks(*cfg));
    sort_by_rank(&ranks)
}

impl ComicInfoApp {
    /// Adds a field without a value to the constant metadata.
    pub fn add_metadata_tag(&mut self, tag: &str)
        ensures
            final(self).cfg.metadata_fields.deep_view() == old(
                self,
            ).cfg.metadata_fields.deep_view().push((tag@, ""@)),
            *final(self) == (ComicInfoApp {
                cfg: AppConfig { metadata_fields: final(self).cfg.metadata_fields, ..old(self).cfg },
                dialog: None,
                ..*old(self)
            }),
    {
        let ghost before = self.cfg.metadata_fields.deep_view();
        self.dialog = None;
        self.cfg.metadata_fields.push((String::from_str(tag), String::from_str("")));
        assert(self.cfg.metadata_fields.deep_view() =~= before.push((tag@, ""@)));
    }

    /// Selects a field, or no longer selects it.
    pub fn choose_field(&mut self, tag: &str)
        ensures
            final(self).meta_field_sel.deep_view() == if old(self).meta_field_sel.deep_view()
                == Some(tag@) {
                None
            } else {
                Some(tag@)
            },
            *final(self) == (ComicInfoApp {
                meta_field_sel: final(self).meta_field_sel,
                ..*old(self)
            }),
    {
        let is_selected: bool = match &self.meta_field_sel {
            Some(t) => same(t.as_str(), tag),
            None => false,
        };
        self.meta_field_sel = if is_selected {
            None
        } else {
            Some(String::from_str(tag))
        };
    }

    /// Removes the selected field, where one is selected.
    pub fn remove_field(&mut self)
        ensures
            final(self).cfg.metadata_fields.deep_view() == match old(self).meta_field_sel {
                Some(tag) => without_tag(old(self).cfg.metadata_fields.deep_view(), tag@),
                None => old(self).cfg.metadata_fields.deep_view(),
            },
            *final(self) == (ComicInfoApp {
                cfg: AppConfig { metadata_fields: final(self).cfg.metadata_fields, ..old(self).cfg },
                meta_field_sel: None,
                ..*old(self)
            }),
    {
        let selected = self.meta_field_sel.take();
        match selected {
            Some(tag) => {
                let kept = drop_tag(&self.cfg.metadata_fields, tag.as_str());
                self.cfg.metadata_fields = kept;
            },
            None => {},
        }
    }

    /// Sets the kind of comic. Where it changes, the three ways to use volumes follow it.
    pub fn set_comic_mode(&mut self, mode: ComicMode)
        ensures
            *final(self) == if old(self).cfg.mode == mode {
                *old(self)
            } else {
                ComicInfoApp {
                    cfg: AppConfig {
                        mode,
                        use_vol: mode == ComicMode::Manga,
                        use_vol_date: mode == ComicMode::Manga,
                        use_vol_summ: mode == ComicMode::Manga,
                        ..old(self).cfg
                    },
                    ..*old(self)
                }
            },
    {
        if self.cfg.mode != mode {
            let is_manga: bool = mode == ComicMode::Manga;
            self.cfg.mode = mode;
            self.cfg.use_vol = is_manga;
            self.cfg.use_vol_date = is_manga;
            self.cfg.use_vol_summ = is_manga;
        }
    }

    /// Puts the order of tags back to that of the schema.
    pub fn reset_tag_order(&mut self)
        ensures
            final(self).cfg.tag_order.deep_view() == canonical_order(),
            *final(self) == (ComicInfoApp {
                cfg: AppConfig { tag_order: final(self).cfg.tag_order, ..old(self).cfg },
                ..*old(self)
            }),
    {
        self.cfg.tag_order = default_tag_order();
    }

    /// Makes the order of tags the preferred one.
    pub fn prefer_tag_order(&mut self)
        ensures
            final(self).settings.preferred_tag_order.deep_view() == Some(
                old(self).cfg.tag_order.deep_view(),
            ),
            final(self).status@ == "Tag order saved as default."@,
            *final(self) == (ComicInfoApp {
                settings: AppSettings {
                    preferred_tag_order: final(self).settings.preferred_tag_order,
                    ..old(self).settings
                },
                status: final(self).status,
                ..*old(self)
            }),
    {
        self.settings.preferred_tag_order = Some(copy_row(&self.cfg.tag_order));
        self.status = String::from_str("Tag order saved as default.");
    }
}

/// The pairs but for those with a given tag.
fn drop_tag(pairs: &Vec<(String, String)>, tag: &str) -> (r: Vec<(String, String)>)
    ensures
        r.deep_view() == without_tag(pairs.deep_view(), tag@),
{
    let ghost all = pairs.deep_view();
    let mut out: Vec<(String, String)> = Vec::new();
    let n: usize = pairs.len();
    assert(out.deep_view() =~= without_tag(all.take(0), tag@));
    for i in 0..n
        invariant
            n == pairs@.len(),
            all == pairs.deep_view(),
            out.deep_view() == without_tag(all.take(i as int), tag@),
    {
        let ghost head = out.deep_view();
        proof {
            assert(all.take(i + 1).drop_last() =~= all.take(i as int));
            assert(all.take(i + 1).last() == (pairs@[i as int].0@, pairs@[i as int].1@));
        }
        if !same(pairs[i].0.as_str(), tag) {
            out.push((pairs[i].0.clone(), pairs[i].1.clone()));
            assert(out.deep_view() =~= head.push((pairs@[i as int].0@, pairs@[i as int].1@)));
        }
    }
    assert(all.take(n as int) =~= all);
    out
}

// ── Laws on rules that are edited ───────────────────────────────────────────────────────────────
/// A rule for chapters that is saved has a volume to itself: no other rule maps to the same one.
pub proof fn lemma_saved_volume_is_its_own(cfg: AppConfig, s: RuleEditState, k: int)
    requires
        rule_check(cfg, s) == RuleCheck::Fine,
        s.target == RuleTarget::Volume,
        s.values.deep_view().len() > 2,
        trimmed(s.values.deep_view()[2]).len() > 0,
        0 <= k < cfg.volume_rules.deep_view().len() <= usize::MAX,
        s.row_idx != Some(k as usize),
        cfg.volume_rules.deep_view()[k].len() > 2,
    ensures
        trimmed(cfg.volume_rules.deep_view()[k][2]) != trimmed(s.values.deep_view()[2]),
{
    let row = s.values.deep_view();
    let rules = cfg.volume_rules.deep_view();
    if trimmed(rules[k][2]) == trimmed(row[2]) {
        assert(cell(rules[k], 2) == Some(trimmed(row[2])));
        assert(volume_is_taken(row, rules, s.row_idx));
    }
}

/// No two rules for the same volumes are saved: of whole numbers, none lies in the range of a rule that is
/// saved and in that of another one.
pub proof fn lemma_saved_ranges_are_apart(cfg: AppConfig, s: RuleEditState, k: int, v: nat)
    requires
        rule_check(cfg, s) == RuleCheck::Fine,
        0 <= k < rules_of(cfg, s.target).len() <= usize::MAX,
        s.row_idx != Some(k as usize),
        s.values.deep_view().len() >= 2,
        is_whole(s.values.deep_view()[0]),
        is_whole(s.values.deep_view()[1]),
        rules_of(cfg, s.target)[k].len() >= 2,
        is_whole(rules_of(cfg, s.target)[k][0]),
        is_whole(rules_of(cfg, s.target)[k][1]),
    ensures
        !(lies_between(v, s.values.deep_view()) && lies_between(v, rules_of(cfg, s.target)[k])),
{
    let row = s.values.deep_view();
    let other = rules_of(cfg, s.target)[k];
    lemma_overlap_of_whole_numbers(row, other, None);
    assert(!ranges_meet(range_of(row), range_of(other)));
    if lies_between(v, row) && lies_between(v, other) {
        assert(range_is_taken(row, seq![other], None));
        assert(seq![other][0] == other);
    }
}

/// A rule is refused for its range exactly where an end that it needs is blank or no number. A rule for a
/// single volume needs no second end.
pub proof fn lemma_rule_needs_numbers(cfg: AppConfig, s: RuleEditState)
    requires
        s.values.deep_view().len() >= 2,
    ensures
        ({
            let row = s.values.deep_view();
            let first = trimmed(row[0]);
            let second = trimmed(row[1]);
            let single = s.same_start_end && s.target != RuleTarget::Volume;
            rule_check(cfg, s) == RuleCheck::NoRange <==> first.len() == 0 || number_of(first)
                is None || (!single && (second.len() == 0 || number_of(second) is None))
        }),
{
}

// ── Laws on labels ──────────────────────────────────────────────────────────────────────────────
/// The title stays at the end of what is made of it, whatever label is chosen, and where there is more, a
/// colon and a blank stand before it.
pub proof fn lemma_label_keeps_title(d: DecimalState) -> (label: Seq<char>)
    ensures
        labelled_title(d) == d.raw_title@ || labelled_title(d) == label + ": "@ + d.raw_title@,
        !(2 <= d.choice <= 5) ==> labelled_title(d) == d.raw_title@,
        2 <= d.choice <= 4 ==> labelled_title(d) == label + ": "@ + d.raw_title@ && label.len() > 0,
{
    reveal_strlit(": ");
    reveal_strlit("Bonus Manga: ");
    reveal_strlit("Bonus Chapter: ");
    reveal_strlit("Extra Chapter: ");
    reveal_strlit("Bonus Manga");
    reveal_strlit("Bonus Chapter");
    reveal_strlit("Extra Chapter");
    if d.choice == 2 {
        assert("Bonus Manga: "@ =~= "Bonus Manga"@ + ": "@);
        "Bonus Manga"@
    } else if d.choice == 3 {
        assert("Bonus Chapter: "@ =~= "Bonus Chapter"@ + ": "@);
        "Bonus Chapter"@
    } else if d.choice == 4 {
        assert("Extra Chapter: "@ =~= "Extra Chapter"@ + ": "@);
        "Extra Chapter"@
    } else {
        trimmed_end(trimmed(d.custom@), ':')
    }
}

/// A label of one's own stands before the title with one colon, whether it was given with one or without.
pub proof fn lemma_custom_label(d: DecimalState, e: DecimalState, w: Seq<char>)
    requires
        d.choice == 5,
        e.choice == 5,
        w.len() > 0,
        !is_space(w[0]),
        !is_space(w.last()),
        w.last() != ':',
        d.custom@ == w,
        e.custom@ == w + ":"@,
        d.raw_title@ == e.raw_title@,
    ensures
        labelled_title(d) == w + ": "@ + d.raw_title@,
        labelled_title(e) == w + ": "@ + d.raw_title@,
{
    reveal_strlit(":");
    let v = w + ":"@;
    lemma_trimmed_is(w);
    assert(v[0] == w[0] && v.last() == ':');
    lemma_trimmed_is(v);
    lemma_trailing_is(w, only(':'), 0);
    lemma_trailing_is(v, only(':'), 1);
    assert(trimmed_end(w, ':') =~= w);
    assert(trimmed_end(v, ':') =~= w);
}

// ── Laws on numbers in fields ───────────────────────────────────────────────────────────────────
proof fn lemma_digits_in(a: Seq<char>, b: Seq<char>)
    ensures
        digits_in(a + b) == digits_in(a) + digits_in(b),
        all_digits(digits_in(a)),
        all_digits(a) ==> digits_in(a) == a,
    decreases a.len() + b.len(),
{
    if b.len() > 0 {
        assert((a + b).drop_last() =~= a + b.drop_last());
        assert((a + b).last() == b.last());
        lemma_digits_in(a, b.drop_last());
        assert(digits_in(a + b) =~= digits_in(a) + digits_in(b));
    } else {
        assert(a + b =~= a);
        assert(digits_in(a + b) =~= digits_in(a) + digits_in(b));
        if a.len() > 0 {
            let c = a.drop_last();
            lemma_digits_in(c, b);
            if all_digits(a) {
                assert(is_digit(a[a.len() - 1]));
                assert forall|i: int| 0 <= i < c.len() implies is_digit(#[trigger] c[i]) by {
                    assert(is_digit(a[i]));
                }
                assert(c.push(a.last()) =~= a);
            }
        }
    }
}

/// A numeric field holds nothing but digits, and no more of them than it may. A row of digits that fits is
/// kept, and what is no digit makes no difference, wherever it stands.
pub proof fn lemma_numeric_input(a: Seq<char>, c: char, b: Seq<char>, max: nat)
    requires
        !is_digit(c),
    ensures
        all_digits(numeric_input(a, max)),
        numeric_input(a, max).len() <= max,
        all_digits(a) && a.len() <= max ==> numeric_input(a, max) == a,
        all_digits(a) && a.len() > max ==> numeric_input(a, max) == a.take(max as int),
        numeric_input(a + seq![c] + b, max) == numeric_input(a + b, max),
{
    lemma_digits_in(a, b);
    lemma_digits_in(a + seq![c], b);
    lemma_digits_in(a, seq![c]);
    assert(seq![c].drop_last() =~= Seq::<char>::empty());
    reveal_with_fuel(digits_in, 2);
    assert(digits_in(seq![c]) =~= Seq::<char>::empty());
    assert(digits_in(a) + Seq::<char>::empty() =~= digits_in(a));
    let d = digits_in(a);
    assert forall|i: int| 0 <= i < numeric_input(a, max).len() implies is_digit(
        #[trigger] numeric_input(a, max)[i],
    ) by {
        assert(is_digit(d[i]));
    }
}

/// What does not belong into a decimal field makes no difference to what follows it.
proof fn lemma_decimal_input_skips(a: Seq<char>, c: char, b: Seq<char>)
    requires
        !is_digit(c),
        c != '.' || decimal_input(a).contains('.'),
    ensures
        decimal_input(a + seq![c] + b) == decimal_input(a + b),
    decreases b.len(),
{
    let s = a + seq![c] + b;
    if b.len() == 0 {
        assert(s.drop_last() =~= a);
        assert(a + b =~= a);
    } else {
        assert(s.drop_last() =~= a + seq![c] + b.drop_last());
        assert((a + b).drop_last() =~= a + b.drop_last());
        assert((a + b).last() == b.last());
        lemma_decimal_input_skips(a, c, b.drop_last());
    }
}

proof fn lemma_decimal_input_shape(s: Seq<char>)
    ensures
        forall|i: int|
            0 <= i < decimal_input(s).len() ==> is_digit(#[trigger] decimal_input(s)[i])
                || decimal_input(s)[i] == '.',
        forall|i: int, j: int|
            0 <= i < j < decimal_input(s).len() ==> #[trigger] decimal_input(s)[i] != '.'
                || #[trigger] decimal_input(s)[j] != '.',
        decimal_input(s).contains('.') == s.contains('.'),
    decreases s.len(),
{
    if s.len() > 0 {
        let t = s.drop_last();
        lemma_decimal_input_shape(t);
        let head = decimal_input(t);
        let r = decimal_input(s);
        assert forall|i: int, j: int| 0 <= i < j < r.len() implies #[trigger] r[i] != '.'
            || #[trigger] r[j] != '.' by {
            if r.len() > head.len() && j == head.len() {
                assert(r[i] == head[i]);
                if s.last() == '.' && r[i] == '.' {
                    assert(head.contains('.'));
                }
            } else {
                assert(r[i] == head[i] && r[j] == head[j]);
            }
        }
        if s.contains('.') {
            let i = choose|i: int| 0 <= i < s.len() && s[i] == '.';
            if i < t.len() {
                assert(t[i] == '.');
            }
        }
        if t.contains('.') {
            let i = choose|i: int| 0 <= i < t.len() && t[i] == '.';
            assert(s[i] == '.');
        }
        if head.contains('.') {
            let i = choose|i: int| 0 <= i < head.len() && head[i] == '.';
            assert(r[i] == '.');
        }
        if s.last() == '.' {
            assert(s[s.len() - 1] == '.');
            if r.len() > head.len() {
                assert(r[head.len() as int] == '.');
            }
        }
        if r.contains('.') && r.len() > head.len() {
            let i = choose|i: int| 0 <= i < r.len() && r[i] == '.';
            if i < head.len() {
                assert(head[i] == '.');
            } else {
                assert(s.last() == '.');
            }
        }
    }
}

/// A text of digits with at most one point is kept in a decimal field.
proof fn lemma_decimal_is_kept(s: Seq<char>)
    requires
        forall|i: int| 0 <= i < s.len() ==> is_digit(#[trigger] s[i]) || s[i] == '.',
        forall|i: int, j: int|
            0 <= i < j < s.len() ==> #[trigger] s[i] != '.' || #[trigger] s[j] != '.',
    ensures
        decimal_input(s) == s,
    decreases s.len(),
{
    if s.len() > 0 {
        let t = s.drop_last();
        assert forall|i: int| 0 <= i < t.len() implies is_digit(#[trigger] t[i]) || t[i] == '.' by {
            assert(t[i] == s[i]);
        }
        assert forall|i: int, j: int| 0 <= i < j < t.len() implies #[trigger] t[i] != '.'
            || #[trigger] t[j] != '.' by {
            assert(t[i] == s[i] && t[j] == s[j]);
        }
        lemma_decimal_is_kept(t);
        let n = s.len() - 1;
        if t.contains('.') && s[n] == '.' {
            let i = choose|i: int| 0 <= i < t.len() && t[i] == '.';
            assert(s[i] == '.' && s[n] == '.');
        }
        assert(is_digit(s[n]) || s[n] == '.');
        assert(t.push(s[n]) =~= s);
    } else {
        assert(decimal_input(s) =~= s);
    }
}

/// A decimal field holds digits and at most one point. A text of that form is kept; any other character
/// makes no difference, and neither does a further point.
pub proof fn lemma_decimal_input(a: Seq<char>, c: char, b: Seq<char>)
    requires
        !is_digit(c),
        c == '.' ==> a.contains('.'),
    ensures
        is_decimal_text(decimal_input(a)),
        is_decimal_text(a) ==> decimal_input(a) == a,
        decimal_input(a + seq![c] + b) == decimal_input(a + b),
{
    lemma_decimal_input_shape(a);
    if is_decimal_text(a) {
        lemma_decimal_is_kept(a);
    }
    lemma_decimal_input_skips(a, c, b);
}

/// Whether a text is made of digits and at most one point.
pub open spec fn is_decimal_text(s: Seq<char>) -> bool {
    &&& forall|i: int| 0 <= i < s.len() ==> is_digit(#[trigger] s[i]) || s[i] == '.'
    &&& forall|i: int, j: int|
        0 <= i < j < s.len() ==> #[trigger] s[i] != '.' || #[trigger] s[j] != '.'
}

/// A decimal field holds a number between its bounds when it is left: the one that was entered where that
/// lies between them, else the bound that it is beyond. A text that is no number is dropped.
pub proof fn lemma_committed_number(s: Seq<char>, lo: Number, hi: Number) -> (m: Number)
    requires
        at_most(lo, hi),
    ensures
        number_of(s) is None && trimmed(s).len() > 0 ==> committed(s, lo, hi).len() == 0,
        number_of(s) matches Some(n) ==> n != Number::Nan ==> {
            &&& committed(s, lo, hi) == number_text(m, 1)
            &&& at_most(lo, m)
            &&& at_most(m, hi)
            &&& at_most(lo, n) && at_most(n, hi) ==> m == n
            &&& at_most(n, lo) ==> at_most(m, lo)
            &&& at_most(hi, n) ==> at_most(hi, m)
        },
{
    match number_of(s) {
        Some(n) => clamped(n, lo, hi),
        None => lo,
    }
}

/// A rating with one place behind the point that lies within the bounds is kept, but for zeros before it.
pub proof fn lemma_rating_is_kept(whole: Seq<char>, digit: char, max: u32)
    requires
        whole.len() > 0,
        all_digits(whole),
        is_digit(digit),
        max <= 10,
        digits_value(whole.push(digit)) <= 10 * max,
    ensures
        ({
            let m = digits_value(whole.push(digit));
            let lo = number_of(decimal_text(0))->0;
            let hi = number_of(decimal_text(max as nat))->0;
            committed(whole + "."@ + seq![digit], lo, hi) == tenths_text(m)
        }),
{
    let m = digits_value(whole.push(digit));
    let top = decimal_text(max as nat);
    let s = whole + "."@ + seq![digit];
    lemma_tenths_are_read(whole, digit);
    lemma_tenths_are_exact(m);
    let n = nearest(m, 10);
    lemma_decimal_text(0);
    lemma_decimal_text(max as nat);
    lemma_whole_number_is_exact(decimal_text(0));
    lemma_whole_number_is_exact(top);
    let lo = number_of(decimal_text(0))->0->ordinal as nat;
    let hi = number_of(top)->0->ordinal as nat;
    assert(lo == 0) by {
        lemma_pow2_pos(1074);
        if lo > 0 {
            lemma_units_increase(0, lo);
        }
    }
    assert(n <= hi) by {
        lemma_nearest(m, 10);
        lemma_pow2_pos(1074);
        lemma_pow2_unfold(1075);
        if n > hi {
            let one = pow2(1074);
            let below = (n - 1) as nat;
            if hi < below {
                lemma_units_increase(hi, below);
            }
            lemma_units_increase(hi, n);
            let y = units(below);
            let x = units(n);
            assert((y + x) * 10 > m * (2 * one)) by (nonlinear_arith)
                requires
                    y >= max * one,
                    x > max * one,
                    m <= 10 * max,
                    one > 0,
            ;
        }
    }
    lemma_one_place(n);
    reveal_strlit("");
    assert(number_text(Number::Real { negative: false, ordinal: n as u64 }, 1) =~= tenths_text(m));
}

// ── Laws on texts ───────────────────────────────────────────────────────────────────────────────
/// Quotes around a path are taken off, and a path without them is left as it is.
pub proof fn lemma_quotes_are_taken_off(path: Seq<char>)
    ensures
        path.len() > 0 ==> unquoted(seq!['"'] + path + seq!['"']) == path,
        path.len() > 0 && (path[0] != '"' || path.last() != '"') ==> unquoted(path) == path,
{
    assert((seq!['"'] + path + seq!['"']).subrange(1, 1 + path.len() as int) =~= path);
}

/// On one line a text has the same characters in the same order but for white space, of which single
/// blanks are left, and none at its ends.
pub proof fn lemma_on_one_line(s: Seq<char>)
    ensures
        on_one_line(s).filter(|c: char| !is_space(c)) == s.filter(|c: char| !is_space(c)),
        forall|i: int|
            0 <= i < on_one_line(s).len() && is_space(#[trigger] on_one_line(s)[i]) ==> on_one_line(
                s,
            )[i] == ' ' && 0 < i < on_one_line(s).len() - 1 && !is_space(on_one_line(s)[i + 1]),
    decreases s.len(),
{
    reveal(Seq::filter);
    let p = |c: char| !is_space(c);
    if s.len() > 0 {
        let t = s.drop_last();
        lemma_on_one_line(t);
        let head = on_one_line(t);
        let r = on_one_line(s);
        let c = s.last();
        if is_space(c) {
        } else if head.len() > 0 && is_space(t.last()) {
            let m = head.push(' ');
            assert(r =~= m.push(c));
            assert(r.drop_last() =~= m);
            assert(m.drop_last() =~= head);
            assert(m.filter(p) == head.filter(p));
            assert(r.filter(p) =~= m.filter(p).push(c));
            assert forall|i: int| 0 <= i < r.len() && is_space(#[trigger] r[i]) implies r[i] == ' ' && 0
                < i < r.len() - 1 && !is_space(r[i + 1]) by {
                if i < head.len() {
                    assert(r[i] == head[i]);
                    assert(r[i + 1] == head[i + 1]);
                }
            }
        } else {
            assert(r.drop_last() =~= head);
            assert forall|i: int| 0 <= i < r.len() && is_space(#[trigger] r[i]) implies r[i] == ' ' && 0
                < i < r.len() - 1 && !is_space(r[i + 1]) by {
                if i < head.len() {
                    assert(r[i] == head[i]);
                    assert(r[i + 1] == head[i + 1]);
                }
            }
        }
    }
}

/// Words that stand apart are still apart on one line, and none is taken apart: behind a character that is
/// no white space, a blank is put exactly where white space stood.
pub proof fn lemma_words_stay_apart(a: Seq<char>, x: char, gap: Seq<char>, y: char)
    requires
        !is_space(x),
        !is_space(y),
        forall|i: int| 0 <= i < gap.len() ==> is_space(#[trigger] gap[i]),
    ensures
        on_one_line(a.push(x) + gap.push(y)) == on_one_line(a.push(x)) + (if gap.len() > 0 {
            seq![' ', y]
        } else {
            seq![y]
        }),
{
    let head = a.push(x);
    lemma_gap_is_left_out(head, gap);
    let s = head + gap.push(y);
    assert(s.drop_last() =~= head + gap);
    assert(s.last() == y);
    assert(head.drop_last() =~= a);
    assert(on_one_line(head).len() > 0);
    if gap.len() > 0 {
        assert((head + gap).last() == gap[gap.len() - 1]);
    } else {
        assert((head + gap).last() == x);
    }
}

proof fn lemma_gap_is_left_out(a: Seq<char>, gap: Seq<char>)
    requires
        forall|i: int| 0 <= i < gap.len() ==> is_space(#[trigger] gap[i]),
    ensures
        on_one_line(a + gap) == on_one_line(a),
    decreases gap.len(),
{
    if gap.len() > 0 {
        assert((a + gap).drop_last() =~= a + gap.drop_last());
        assert((a + gap).last() == gap[gap.len() - 1]);
        lemma_gap_is_left_out(a, gap.drop_last());
    } else {
        assert(a + gap =~= a);
    }
}

// ── Laws on fields ──────────────────────────────────────────────────────────────────────────────
/// The fields that are offered are those that are not taken.
pub proof fn lemma_offered_fields(fields: Seq<FieldSpec>, taken: Seq<Seq<char>>, f: FieldSpec)
    ensures
        fields_besides(fields, taken).contains(f) <==> fields.contains(f) && !taken.contains(f.tag@),
    decreases fields.len(),
{
    let r = fields_besides(fields, taken);
    if fields.len() > 0 {
        let t = fields.drop_last();
        let head = fields_besides(t, taken);
        lemma_offered_fields(t, taken, f);
        assert(t.push(fields.last()) =~= fields);
        assert(is_among(f.tag@, taken) <==> taken.contains(f.tag@));
        assert(is_among(fields.last().tag@, taken) <==> taken.contains(fields.last().tag@));
        if fields.contains(f) {
            let i = choose|i: int| 0 <= i < fields.len() && fields[i] == f;
            if i < t.len() {
                assert(t[i] == f);
            }
        }
        if t.contains(f) {
            let i = choose|i: int| 0 <= i < t.len() && t[i] == f;
            assert(fields[i] == f);
        }
        if f == fields.last() {
            assert(fields[fields.len() - 1] == f);
        }
        if head.contains(f) {
            let i = choose|i: int| 0 <= i < head.len() && head[i] == f;
            assert(r[i] == f);
        }
        if r.len() > head.len() {
            assert(r[head.len() as int] == fields.last());
            if r.contains(f) {
                let i = choose|i: int| 0 <= i < r.len() && r[i] == f;
                if i < head.len() {
                    assert(head[i] == f);
                }
            }
        }
    }
}

/// A field that is removed is gone, and the others keep their values.
pub proof fn lemma_removed_field(pairs: Seq<Pair>, tag: Seq<char>, p: Pair)
    ensures
        without_tag(pairs, tag).contains(p) <==> pairs.contains(p) && p.0 != tag,
    decreases pairs.len(),
{
    let r = without_tag(pairs, tag);
    if pairs.len() > 0 {
        let t = pairs.drop_last();
        let head = without_tag(t, tag);
        lemma_removed_field(t, tag, p);
        if pairs.contains(p) {
            let i = choose|i: int| 0 <= i < pairs.len() && pairs[i] == p;
            if i < t.len() {
                assert(t[i] == p);
            }
        }
        if t.contains(p) {
            let i = choose|i: int| 0 <= i < t.len() && t[i] == p;
            assert(pairs[i] == p);
        }
        if p == pairs.last() {
            assert(pairs[pairs.len() - 1] == p);
        }
        if head.contains(p) {
            let i = choose|i: int| 0 <= i < head.len() && head[i] == p;
            assert(r[i] == p);
        }
        if r.len() > head.len() {
            assert(r[head.len() as int] == pairs.last());
            if r.contains(p) {
                let i = choose|i: int| 0 <= i < r.len() && r[i] == p;
                if i < head.len() {
                    assert(head[i] == p);
                }
            }
        }
    }
}

} // verus!
