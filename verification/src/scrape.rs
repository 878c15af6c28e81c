//! Turning extracted actions into stored rows, and the counts a scrape run reports.
use vstd::prelude::*;

use crate::db::{insert_views, ActionInsert, InsertRecord};
use crate::text::{eq_ignore_ascii_case, trim};
use crate::models::{
    action_day, action_name, canonical_outlet_type, coerce_action_date, coerce_action_date_on,
    copy_opt, copy_strings, nonempty, nonempty_spec, nonempty_value, opt_chars, outlet_name,
    parse_outlet, ActionRecord, Date, LlmAction, NewsItem,
};

verus! {

/// What one scrape run did.
#[derive(Debug, Clone, Copy, PartialEq, Eq, Structural)]
pub struct ScrapeReport {
    pub articles_seen: usize,
    pub articles_new: usize,
    pub actions_upserted: usize,
    pub llm_calls: usize,
}

/// An action becomes a row when, in delivery mode, it names a platform; when its source
/// index points at an item; and when its establishment is not blank.
pub open spec fn row_selected(items: Seq<NewsItem>, a: ActionRecord, delivery: bool) -> bool {
    &&& !(delivery && a.platforms.len() == 0)
    &&& a.source_index < items.len()
    &&& nonempty_value(a.establishment) is Some
}

/// The actions that become rows, in order.
pub open spec fn selected_actions(
    items: Seq<NewsItem>,
    actions: Seq<ActionRecord>,
    delivery: bool,
) -> Seq<ActionRecord>
    decreases actions.len(),
{
    if actions.len() == 0 {
        seq![]
    } else {
        let before = selected_actions(items, actions.drop_last(), delivery);
        if row_selected(items, actions.last(), delivery) {
            before.push(actions.last())
        } else {
            before
        }
    }
}

/// A compliance score is kept only when it lies in 0..=100.
pub open spec fn score_in_range(s: Option<i32>) -> Option<i32> {
    match s {
        Some(v) => if 0 <= v <= 100 {
            Some(v)
        } else {
            None
        },
        None => None,
    }
}

/// The canonical outlet kind of an optional reported outlet kind.
pub open spec fn canonical_opt(o: Option<Seq<char>>) -> Option<Seq<char>> {
    match o {
        Some(s) => Some(outlet_name(parse_outlet(s))),
        None => None,
    }
}

/// The row for a selected action: blank-or-`null` text fields dropped and the rest
/// trimmed, the outlet kind made canonical, the day coerced (with `today` for records
/// that carry no date at all), the score kept only in range, and the source fields taken
/// from the item the action points at.
pub open spec fn row_of(items: Seq<NewsItem>, a: ActionRecord, today: Date) -> InsertRecord {
    let item = items[a.source_index as int]@;
    InsertRecord {
        establishment: nonempty_value(a.establishment)->0,
        area: nonempty_spec(a.area),
        city: nonempty_spec(a.city),
        brand: nonempty_spec(a.brand),
        operator: nonempty_spec(a.operator),
        outlet_type: canonical_opt(a.outlet_type),
        action_type: action_name(a.action_type),
        action_date: action_day(a.action_date, item.published, today),
        violations: a.violations,
        compliance_score: score_in_range(a.compliance_score),
        fssai_number: nonempty_spec(a.fssai_number),
        details: nonempty_spec(a.details),
        platforms: a.platforms,
        source_url: item.url,
        source_publisher: nonempty_spec(item.source),
        source_headline: Some(item.title),
        published_at: item.published,
    }
}

/// The rows built from `actions` against `items` on the day `today`.
pub open spec fn rows_on(
    items: Seq<NewsItem>,
    actions: Seq<ActionRecord>,
    delivery: bool,
    today: Date,
) -> Seq<InsertRecord> {
    selected_actions(items, actions, delivery).map_values(|a: ActionRecord| row_of(items, a, today))
}

/// The records of a sequence of actions.
pub open spec fn action_views(v: Seq<LlmAction>) -> Seq<ActionRecord> {
    v.map_values(|a: LlmAction| a@)
}

/// The row for the action `a`, which points at `item`.
fn row_for(item: &NewsItem, a: &LlmAction, today: Option<Date>) -> (r: ActionInsert)
    requires
        nonempty_value(a.establishment@) is Some,
    ensures
        r@ == row_of(seq![*item], ActionRecord { source_index: 0, ..a@ }, match today {
            Some(t) => t,
            None => r.action_date,
        }),
{
    let establishment = match nonempty(Some(a.establishment.clone())) {
        Some(e) => e,
        None => a.establishment.clone(),
    };
    let outlet_type = match &a.outlet_type {
        Some(o) => Some(canonical_outlet_type(o.as_str())),
        None => None,
    };
    let action_date = match today {
        Some(t) => coerce_action_date_on(copy_opt(&a.action_date), item.published, t),
        None => coerce_action_date(copy_opt(&a.action_date), item.published),
    };
    let compliance_score = match a.compliance_score {
        Some(s) => if 0 <= s && s <= 100 {
            Some(s)
        } else {
            None
        },
        None => None,
    };
    let r = ActionInsert {
        establishment,
        area: nonempty(copy_opt(&a.area)),
        city: nonempty(copy_opt(&a.city)),
        brand: nonempty(copy_opt(&a.brand)),
        operator: nonempty(copy_opt(&a.operator)),
        outlet_type,
        action_type: a.action_type.to_string(),
        action_date,
        violations: copy_strings(&a.violations),
        compliance_score,
        fssai_number: nonempty(copy_opt(&a.fssai_number)),
        details: nonempty(copy_opt(&a.details)),
        platforms: copy_strings(&a.platforms),
        source_url: item.url.clone(),
        source_publisher: nonempty(copy_opt(&item.source)),
        source_headline: Some(item.title.clone()),
        published_at: item.published,
    };
    r
}

/// The rows for `actions`, the day supplied or, when `today` is `None`, read from the
/// clock for each record that carries no date.
fn rows_with(items: &[NewsItem], actions: &[LlmAction], delivery: bool, today: Option<Date>) -> (r:
    Vec<ActionInsert>)
    ensures
        r@.len() == selected_actions(items@, action_views(actions@), delivery).len(),
        forall|k: int|
            0 <= k < r@.len() ==> (#[trigger] r@[k])@ == row_of(
                items@,
                selected_actions(items@, action_views(actions@), delivery)[k],
                match today {
                    Some(t) => t,
                    None => r@[k].action_date,
                },
            ),
{
    let ghost acts = action_views(actions@);
    let mut out: Vec<ActionInsert> = Vec::new();
    let mut i: usize = 0;
    assert(acts.take(0) =~= seq![]);
    while i < actions.len()
        invariant
            i <= actions@.len(),
            acts == action_views(actions@),
            out@.len() == selected_actions(items@, acts.take(i as int), delivery).len(),
            forall|k: int|
                0 <= k < out@.len() ==> (#[trigger] out@[k])@ == row_of(
                    items@,
                    selected_actions(items@, acts.take(i as int), delivery)[k],
                    match today {
                        Some(t) => t,
                        None => out@[k].action_date,
                    },
                ),
        decreases actions@.len() - i,
    {
        let ghost pre = acts.take(i as int);
        let ghost cur = acts.take(i + 1);
        assert(cur.drop_last() =~= pre);
        assert(cur.last() == actions@[i as int]@);
        let a = &actions[i];
        let keep_platforms = !(delivery && a.platforms.len() == 0);
        if keep_platforms && a.source_index < items.len() {
            let name = nonempty(Some(a.establishment.clone()));
            if name.is_some() {
                let item = &items[a.source_index];
                let row = row_for(item, a, today);
                proof {
                    let t = match today {
                        Some(t) => t,
                        None => row.action_date,
                    };
                    assert(row_of(seq![*item], ActionRecord { source_index: 0, ..a@ }, t) == row_of(
                        items@,
                        a@,
                        t,
                    ));
                }
                out.push(row);
                assert(selected_actions(items@, cur, delivery) == selected_actions(
                    items@,
                    pre,
                    delivery,
                ).push(a@));
            } else {
                assert(selected_actions(items@, cur, delivery) == selected_actions(
                    items@,
                    pre,
                    delivery,
                ));
            }
        } else {
            assert(selected_actions(items@, cur, delivery) == selected_actions(
                items@,
                pre,
                delivery,
            ));
        }
        i = i + 1;
    }
    assert(acts.take(actions@.len() as int) =~= acts);
    out
}

/// The rows for `actions` on the day `today`: each action whose source index points at
/// an item and whose establishment is not blank gives one row, in order; in delivery
/// mode an action that names no platform gives none.
pub fn build_rows_on(items: &[NewsItem], actions: &[LlmAction], delivery: bool, today: Date) -> (r:
    Vec<ActionInsert>)
    ensures
        insert_views(r@) == rows_on(items@, action_views(actions@), delivery, today),
{
    let r = rows_with(items, actions, delivery, Some(today));
    assert(insert_views(r@) =~= rows_on(items@, action_views(actions@), delivery, today));
    r
}

/// The rows for `actions`, records without any date taking today's UTC date from the
/// clock; which day that is is not stated, so each row is `row_of` with its own day
/// standing in for today.
pub fn build_rows(items: &[NewsItem], actions: &[LlmAction], delivery: bool) -> (r: Vec<
    ActionInsert,
>)
    ensures
        r@.len() == selected_actions(items@, action_views(actions@), delivery).len(),
        forall|k: int|
            0 <= k < r@.len() ==> (#[trigger] r@[k])@ == row_of(
                items@,
                selected_actions(items@, action_views(actions@), delivery)[k],
                r@[k].action_date,
            ),
{
    rows_with(items, actions, delivery, None)
}

/// Every selected action points at an item and has a non-blank establishment, and in
/// delivery mode names a platform.
proof fn lemma_selected(items: Seq<NewsItem>, actions: Seq<ActionRecord>, delivery: bool)
    ensures
        forall|k: int|
            0 <= k < selected_actions(items, actions, delivery).len() ==> row_selected(
                items,
                #[trigger] selected_actions(items, actions, delivery)[k],
                delivery,
            ),
    decreases actions.len(),
{
    if actions.len() > 0 {
        lemma_selected(items, actions.drop_last(), delivery);
        let before = selected_actions(items, actions.drop_last(), delivery);
        let all = selected_actions(items, actions, delivery);
        assert forall|k: int| 0 <= k < all.len() implies row_selected(
            items,
            #[trigger] all[k],
            delivery,
        ) by {
            if k < before.len() {
                assert(all[k] == before[k]);
            }
        }
    }
}

/// What every stored row satisfies: its establishment is trimmed and neither blank nor
/// `null`; its score, when present, lies in 0..=100; its outlet kind, when present, is one
/// of the canonical names; in delivery mode it lists a platform; and it links to the url
/// and headline of an item of the batch.
pub proof fn built_rows_are_well_formed(
    items: Seq<NewsItem>,
    actions: Seq<ActionRecord>,
    delivery: bool,
    today: Date,
)
    ensures
        forall|k: int|
            0 <= k < rows_on(items, actions, delivery, today).len() ==> {
                let row = #[trigger] rows_on(items, actions, delivery, today)[k];
                &&& row.establishment.len() > 0
                &&& nonempty_value(row.establishment) == Some(row.establishment)
                &&& (row.compliance_score matches Some(s) ==> 0 <= s <= 100)
                &&& (row.outlet_type matches Some(o) ==> o == outlet_name(parse_outlet(o)))
                &&& (delivery ==> row.platforms.len() > 0)
                &&& exists|i: int|
                    0 <= i < items.len() && row.source_url == items[i]@.url
                        && row.source_headline == Some(items[i]@.title)
            },
{
    lemma_selected(items, actions, delivery);
    let sel = selected_actions(items, actions, delivery);
    assert forall|k: int| 0 <= k < rows_on(items, actions, delivery, today).len() implies {
        let row = #[trigger] rows_on(items, actions, delivery, today)[k];
        &&& row.establishment.len() > 0
        &&& nonempty_value(row.establishment) == Some(row.establishment)
        &&& (row.compliance_score matches Some(s) ==> 0 <= s <= 100)
        &&& (row.outlet_type matches Some(o) ==> o == outlet_name(parse_outlet(o)))
        &&& (delivery ==> row.platforms.len() > 0)
        &&& exists|i: int|
            0 <= i < items.len() && row.source_url == items[i]@.url && row.source_headline
                == Some(items[i]@.title)
    } by {
        let a = sel[k];
        assert(row_selected(items, a, delivery));
        let row = rows_on(items, actions, delivery, today)[k];
        assert(row == row_of(items, a, today));
        crate::models::nonempty_idempotent(Some(a.establishment));
        if let Some(o) = a.outlet_type {
            crate::models::canonical_outlet_type_idempotent(o);
        }
        let i = a.source_index as int;
        assert(row.source_url == items[i]@.url);
    }
}


/// `stored` is what a row keeps of the optional text `given`: nothing when it is absent,
/// blank, or says `null` in any case; otherwise the text, trimmed.
pub open spec fn keeps_text(given: Option<Seq<char>>, stored: Option<Seq<char>>) -> bool {
    match given {
        Some(s) => if trim(s).len() == 0 || eq_ignore_ascii_case(trim(s), "null"@) {
            stored is None
        } else {
            stored == Some(trim(s))
        },
        None => stored is None,
    }
}

/// Each field of a row comes from the same field of its action, or of the item the
/// action points at: area, city, brand, operator, licence number and details each keep
/// the action's own text (trimmed, dropped when blank or `null`); the publisher keeps the
/// item's source the same way; violations and platforms are the action's; the url,
/// headline and publication time are the item's; the name is the action's, trimmed; and
/// the score is the action's when it lies in 0..=100 and absent otherwise.
pub proof fn row_fields_come_from_their_action(items: Seq<NewsItem>, a: ActionRecord, today: Date)
    requires
        a.source_index < items.len(),
    ensures
        ({
            let row = row_of(items, a, today);
            let item = items[a.source_index as int]@;
            &&& keeps_text(a.area, row.area)
            &&& keeps_text(a.city, row.city)
            &&& keeps_text(a.brand, row.brand)
            &&& keeps_text(a.operator, row.operator)
            &&& keeps_text(a.fssai_number, row.fssai_number)
            &&& keeps_text(a.details, row.details)
            &&& keeps_text(item.source, row.source_publisher)
            &&& row.violations == a.violations
            &&& row.platforms == a.platforms
            &&& row.source_url == item.url
            &&& row.source_headline == Some(item.title)
            &&& row.published_at == item.published
            &&& (trim(a.establishment).len() > 0 && !eq_ignore_ascii_case(
                trim(a.establishment),
                "null"@,
            ) ==> row.establishment == trim(a.establishment))
            &&& (a.compliance_score matches Some(v) && 0 <= v <= 100 ==> row.compliance_score
                == a.compliance_score)
            &&& (a.compliance_score matches Some(v) && !(0 <= v <= 100) ==> row.compliance_score
                is None)
            &&& (a.compliance_score is None ==> row.compliance_score is None)
        }),
{
}


/// An action becomes a row only when its source index points at an item, its name is
/// neither blank nor `null`, and, in delivery mode, it lists a platform; and when every
/// action qualifies, every one becomes a row, in the order given.
pub proof fn rows_are_built_for_the_qualifying_actions(
    items: Seq<NewsItem>,
    actions: Seq<ActionRecord>,
    delivery: bool,
)
    ensures
        forall|k: int|
            0 <= k < selected_actions(items, actions, delivery).len() ==> {
                let a = #[trigger] selected_actions(items, actions, delivery)[k];
                &&& a.source_index < items.len()
                &&& trim(a.establishment).len() > 0
                &&& !eq_ignore_ascii_case(trim(a.establishment), "null"@)
                &&& (delivery ==> a.platforms.len() > 0)
                &&& actions.contains(a)
            },
        (forall|k: int|
            0 <= k < actions.len() ==> {
                let a = #[trigger] actions[k];
                &&& a.source_index < items.len()
                &&& trim(a.establishment).len() > 0
                &&& !eq_ignore_ascii_case(trim(a.establishment), "null"@)
                &&& (delivery ==> a.platforms.len() > 0)
            }) ==> selected_actions(items, actions, delivery) == actions,
    decreases actions.len(),
{
    lemma_selected(items, actions, delivery);
    if actions.len() > 0 {
        let init = actions.drop_last();
        rows_are_built_for_the_qualifying_actions(items, init, delivery);
        let before = selected_actions(items, init, delivery);
        let all = selected_actions(items, actions, delivery);
        assert forall|k: int| 0 <= k < all.len() implies actions.contains(#[trigger] all[k]) by {
            if k < before.len() {
                assert(all[k] == before[k]);
                let j = choose|j: int| 0 <= j < init.len() && init[j] == before[k];
                assert(actions[j] == init[j]);
            } else {
                assert(all[k] == actions.last());
                assert(actions[actions.len() - 1] == actions.last());
            }
        }
        if forall|k: int|
            0 <= k < actions.len() ==> {
                let a = #[trigger] actions[k];
                &&& a.source_index < items.len()
                &&& trim(a.establishment).len() > 0
                &&& !eq_ignore_ascii_case(trim(a.establishment), "null"@)
                &&& (delivery ==> a.platforms.len() > 0)
            } {
            assert forall|k: int| 0 <= k < init.len() implies {
                let a = #[trigger] init[k];
                &&& a.source_index < items.len()
                &&& trim(a.establishment).len() > 0
                &&& !eq_ignore_ascii_case(trim(a.establishment), "null"@)
                &&& (delivery ==> a.platforms.len() > 0)
            } by {
                assert(init[k] == actions[k]);
            }
            let l = actions[actions.len() - 1];
            assert(row_selected(items, l, delivery));
            assert(before == init);
            assert(all =~= actions);
        }
    }
}

} // verus!
