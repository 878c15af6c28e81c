//! Reading an extracted enforcement record out of the JSON the language model returns.
//!
//! A record is an object whose members are named in camelCase, several of them also
//! accepted in snake_case, or an array giving the members positionally in this order:
//! establishment, area, city, brand, operator, outletType, actionType, actionDate,
//! violations, complianceScore, fssaiNumber, details, platforms, sourceIndex.
//! `establishment` and `actionType` are required; every other member may be absent.
use vstd::prelude::*;

use crate::json::{json_array, json_get, json_str, Json};
use crate::models::{action_name, opt_chars, strs, ActionRecord, ActionType, LlmAction};

verus! {

/// Where a member's value was found: `None` when it was given twice (under its name and
/// its alias), `Some(None)` when it was not given, `Some(Some(v))` when it was.
pub type Slot = Option<Option<Json>>;

/// The slot of a member that has no alias.
pub open spec fn slot1(j: Json, name: Seq<char>) -> Slot {
    Some(json_get(j, name))
}

/// The slot of a member that may be given under `name` or under `alias`, not both.
pub open spec fn slot2(j: Json, name: Seq<char>, alias: Seq<char>) -> Slot {
    match (json_get(j, name), json_get(j, alias)) {
        (Some(_), Some(_)) => None,
        (Some(a), None) => Some(Some(a)),
        (None, Some(b)) => Some(Some(b)),
        (None, None) => Some(None),
    }
}

/// The slot of member number `i` of an object record.
pub open spec fn object_slot(j: Json, i: int) -> Slot {
    if i == 0 {
        slot1(j, "establishment"@)
    } else if i == 1 {
        slot1(j, "area"@)
    } else if i == 2 {
        slot1(j, "city"@)
    } else if i == 3 {
        slot1(j, "brand"@)
    } else if i == 4 {
        slot1(j, "operator"@)
    } else if i == 5 {
        slot2(j, "outletType"@, "outlet_type"@)
    } else if i == 6 {
        slot2(j, "actionType"@, "action_type"@)
    } else if i == 7 {
        slot2(j, "actionDate"@, "action_date"@)
    } else if i == 8 {
        slot1(j, "violations"@)
    } else if i == 9 {
        slot1(j, "complianceScore"@)
    } else if i == 10 {
        slot2(j, "fssaiNumber"@, "fssai_number"@)
    } else if i == 11 {
        slot1(j, "details"@)
    } else if i == 12 {
        slot1(j, "platforms"@)
    } else {
        slot2(j, "sourceIndex"@, "source_index"@)
    }
}

/// The slot of member number `i` of an array record.
pub open spec fn array_slot(items: Seq<Json>, i: int) -> Slot {
    if 0 <= i < items.len() {
        Some(Some(items[i]))
    } else {
        Some(None)
    }
}

/// A text member that may be null.
pub open spec fn dec_opt_str(j: Json) -> Option<Option<Seq<char>>> {
    match j {
        Json::Null => Some(None),
        Json::Str(s) => Some(Some(s@)),
        _ => None,
    }
}

/// The action kind whose stored name is exactly `s`.
pub open spec fn kind_named(s: Seq<char>) -> Option<ActionType> {
    if s == action_name(ActionType::LicenceSuspension) {
        Some(ActionType::LicenceSuspension)
    } else if s == action_name(ActionType::StopBusiness) {
        Some(ActionType::StopBusiness)
    } else if s == action_name(ActionType::ImprovementNotice) {
        Some(ActionType::ImprovementNotice)
    } else if s == action_name(ActionType::Sealing) {
        Some(ActionType::Sealing)
    } else if s == action_name(ActionType::Seizure) {
        Some(ActionType::Seizure)
    } else if s == action_name(ActionType::Inspection) {
        Some(ActionType::Inspection)
    } else if s == action_name(ActionType::Reopened) {
        Some(ActionType::Reopened)
    } else {
        None
    }
}

/// An action kind: its name as a string, or an object with that name as its one key
/// and null as its value.
pub open spec fn dec_kind(j: Json) -> Option<ActionType> {
    match j {
        Json::Str(s) => kind_named(s@),
        Json::Object(f) => if f@.len() == 1 && f@[0].1 is Null {
            kind_named(f@[0].0@)
        } else {
            None
        },
        _ => None,
    }
}

/// A 32-bit signed integer member that may be null.
pub open spec fn dec_opt_i32(j: Json) -> Option<Option<i32>> {
    match j {
        Json::Null => Some(None),
        Json::UInt(u) => if u <= i32::MAX {
            Some(Some(u as i32))
        } else {
            None
        },
        Json::NegInt(i) => if i >= i32::MIN {
            Some(Some(i as i32))
        } else {
            None
        },
        _ => None,
    }
}

/// An index member.
pub open spec fn dec_index(j: Json) -> Option<usize> {
    match j {
        Json::UInt(u) => if u <= usize::MAX {
            Some(u as usize)
        } else {
            None
        },
        _ => None,
    }
}

/// The texts of `items` when every one of them is a string.
pub open spec fn all_strs(items: Seq<Json>) -> Option<Seq<Seq<char>>>
    decreases items.len(),
{
    if items.len() == 0 {
        Some(seq![])
    } else {
        match (all_strs(items.drop_last()), json_str(items.last())) {
            (Some(init), Some(s)) => Some(init.push(s)),
            _ => None,
        }
    }
}

/// A list of texts that may be null (read as empty).
pub open spec fn dec_str_list(j: Json) -> Option<Seq<Seq<char>>> {
    match j {
        Json::Null => Some(seq![]),
        Json::Array(items) => all_strs(items@),
        _ => None,
    }
}

/// A required member decoded by `d`.
pub open spec fn required<T>(s: Slot, d: spec_fn(Json) -> Option<T>) -> Option<T> {
    match s {
        Some(Some(v)) => d(v),
        _ => None,
    }
}

/// An optional member decoded by `d`, `default` when absent.
pub open spec fn optional<T>(s: Slot, d: spec_fn(Json) -> Option<T>, default: T) -> Option<T> {
    match s {
        Some(Some(v)) => d(v),
        Some(None) => Some(default),
        None => None,
    }
}

/// The record whose members sit in the slots `s`, when each of them decodes.
pub open spec fn decode_slots(s: spec_fn(int) -> Slot) -> Option<ActionRecord> {
    let establishment = required(s(0), |v: Json| json_str(v));
    let area = optional(s(1), |v: Json| dec_opt_str(v), None);
    let city = optional(s(2), |v: Json| dec_opt_str(v), None);
    let brand = optional(s(3), |v: Json| dec_opt_str(v), None);
    let operator = optional(s(4), |v: Json| dec_opt_str(v), None);
    let outlet_type = optional(s(5), |v: Json| dec_opt_str(v), None);
    let action_type = required(s(6), |v: Json| dec_kind(v));
    let action_date = optional(s(7), |v: Json| dec_opt_str(v), None);
    let violations = optional(s(8), |v: Json| dec_str_list(v), seq![]);
    let compliance_score = optional(s(9), |v: Json| dec_opt_i32(v), None);
    let fssai_number = optional(s(10), |v: Json| dec_opt_str(v), None);
    let details = optional(s(11), |v: Json| dec_opt_str(v), None);
    let platforms = optional(s(12), |v: Json| dec_str_list(v), seq![]);
    let source_index = optional(s(13), |v: Json| dec_index(v), 0usize);
    if establishment is Some && area is Some && city is Some && brand is Some && operator is Some
        && outlet_type is Some && action_type is Some && action_date is Some && violations is Some
        && compliance_score is Some && fssai_number is Some && details is Some && platforms is Some
        && source_index is Some {
        Some(
            ActionRecord {
                establishment: establishment->0,
                area: area->0,
                city: city->0,
                brand: brand->0,
                operator: operator->0,
                outlet_type: outlet_type->0,
                action_type: action_type->0,
                action_date: action_date->0,
                violations: violations->0,
                compliance_score: compliance_score->0,
                fssai_number: fssai_number->0,
                details: details->0,
                platforms: platforms->0,
                source_index: source_index->0,
            },
        )
    } else {
        None
    }
}

/// The record that the JSON value `j` describes, or `None` when it describes none.
pub open spec fn decode_action(j: Json) -> Option<ActionRecord> {
    match j {
        Json::Object(_) => decode_slots(|i: int| object_slot(j, i)),
        Json::Array(items) => if items@.len() <= 14 {
            decode_slots(|i: int| array_slot(items@, i))
        } else {
            None
        },
        _ => None,
    }
}

/// The spec view of an executable slot.
pub open spec fn slot_view(s: Option<Option<&Json>>) -> Slot {
    match s {
        Some(Some(v)) => Some(Some(*v)),
        Some(None) => Some(None),
        None => None,
    }
}

/// An optional text member.
fn read_opt_str(s: Option<Option<&Json>>) -> (r: Option<Option<String>>)
    ensures
        (match r {
            Some(v) => Some(opt_chars(v)),
            None => None,
        }) == optional(slot_view(s), |v: Json| dec_opt_str(v), None),
{
    match s {
        None => None,
        Some(None) => Some(None),
        Some(Some(v)) => match v {
            Json::Null => Some(None),
            Json::Str(t) => Some(Some(t.clone())),
            _ => None,
        },
    }
}

/// The action kind whose stored name is exactly `s`.
fn kind_from(s: &String) -> (r: Option<ActionType>)
    ensures
        r == kind_named(s@),
{
    if *s == String::from_str("licence_suspension") {
        Some(ActionType::LicenceSuspension)
    } else if *s == String::from_str("stop_business") {
        Some(ActionType::StopBusiness)
    } else if *s == String::from_str("improvement_notice") {
        Some(ActionType::ImprovementNotice)
    } else if *s == String::from_str("sealing") {
        Some(ActionType::Sealing)
    } else if *s == String::from_str("seizure") {
        Some(ActionType::Seizure)
    } else if *s == String::from_str("inspection") {
        Some(ActionType::Inspection)
    } else if *s == String::from_str("reopened") {
        Some(ActionType::Reopened)
    } else {
        None
    }
}

/// The required action kind member.
fn read_kind(s: Option<Option<&Json>>) -> (r: Option<ActionType>)
    ensures
        r == required(slot_view(s), |v: Json| dec_kind(v)),
{
    match s {
        Some(Some(v)) => match v {
            Json::Str(t) => kind_from(t),
            Json::Object(f) => {
                if f.len() == 1 {
                    match &f[0].1 {
                        Json::Null => kind_from(&f[0].0),
                        _ => None,
                    }
                } else {
                    None
                }
            },
            _ => None,
        },
        _ => None,
    }
}

/// The texts of `items` when every one of them is a string.
fn read_strs(items: &Vec<Json>) -> (r: Option<Vec<String>>)
    ensures
        (match r {
            Some(v) => Some(strs(v@)),
            None => None,
        }) == all_strs(items@),
{
    let mut out: Vec<String> = Vec::new();
    let mut i: usize = 0;
    assert(items@.take(0) =~= seq![]);
    assert(strs(out@) =~= seq![]);
    while i < items.len()
        invariant
            i <= items@.len(),
            all_strs(items@.take(i as int)) == Some(strs(out@)),
        decreases items@.len() - i,
    {
        assert(items@.take(i + 1).drop_last() =~= items@.take(i as int));
        assert(items@.take(i + 1).last() == items@[i as int]);
        match &items[i] {
            Json::Str(t) => {
                let ghost before = strs(out@);
                out.push(t.clone());
                assert(strs(out@) =~= before.push(t@));
            },
            _ => {
                proof {
                    lemma_all_strs_prefix(items@, i as int + 1);
                }
                return None;
            },
        }
        i = i + 1;
    }
    assert(items@.take(items@.len() as int) =~= items@);
    Some(out)
}

proof fn lemma_all_strs_prefix(items: Seq<Json>, k: int)
    requires
        0 <= k <= items.len(),
        all_strs(items.take(k)) is None,
    ensures
        all_strs(items) is None,
    decreases items.len() - k,
{
    if k < items.len() {
        assert(items.take(k + 1).drop_last() =~= items.take(k));
        lemma_all_strs_prefix(items, k + 1);
    } else {
        assert(items.take(k) =~= items);
    }
}

/// A list-of-texts member.
fn read_list(s: Option<Option<&Json>>) -> (r: Option<Vec<String>>)
    ensures
        (match r {
            Some(v) => Some(strs(v@)),
            None => None,
        }) == optional(slot_view(s), |v: Json| dec_str_list(v), seq![]),
{
    match s {
        None => None,
        Some(None) => Some(Vec::new()),
        Some(Some(v)) => match v {
            Json::Null => Some(Vec::new()),
            Json::Array(items) => read_strs(items),
            _ => None,
        },
    }
}

/// An optional 32-bit integer member.
fn read_opt_i32(s: Option<Option<&Json>>) -> (r: Option<Option<i32>>)
    ensures
        r == optional(slot_view(s), |v: Json| dec_opt_i32(v), None),
{
    match s {
        None => None,
        Some(None) => Some(None),
        Some(Some(v)) => match v {
            Json::Null => Some(None),
            Json::UInt(u) => if *u <= 2147483647u64 {
                Some(Some(*u as i32))
            } else {
                None
            },
            Json::NegInt(i) => if *i >= -2147483648i64 {
                Some(Some(*i as i32))
            } else {
                None
            },
            _ => None,
        },
    }
}

/// The optional index member.
fn read_index(s: Option<Option<&Json>>) -> (r: Option<usize>)
    ensures
        r == optional(slot_view(s), |v: Json| dec_index(v), 0usize),
{
    match s {
        None => None,
        Some(None) => Some(0),
        Some(Some(v)) => match v {
            Json::UInt(u) => if *u as u128 <= usize::MAX as u128 {
                Some(*u as usize)
            } else {
                None
            },
            _ => None,
        },
    }
}

/// The record held in the slots `s`, one slot per member in positional order.
fn decode_from(s: &Vec<Option<Option<&Json>>>, Ghost(f): Ghost<spec_fn(int) -> Slot>) -> (r: Option<
    LlmAction,
>)
    requires
        s@.len() == 14,
        forall|i: int| 0 <= i < 14 ==> slot_view(#[trigger] s@[i]) == f(i),
    ensures
        (match r {
            Some(a) => Some(a@),
            None => None,
        }) == decode_slots(f),
{
    assert(slot_view(s@[0]) == f(0));
    let establishment = match s[0] {
        Some(Some(v)) => match v {
            Json::Str(t) => Some(t.clone()),
            _ => None,
        },
        _ => None,
    };
    assert((match establishment {
        Some(t) => Some(t@),
        None => None,
    }) == required(f(0), |v: Json| json_str(v)));
    assert(slot_view(s@[1]) == f(1));
    let area = read_opt_str(s[1]);
    assert(slot_view(s@[2]) == f(2));
    let city = read_opt_str(s[2]);
    assert(slot_view(s@[3]) == f(3));
    let brand = read_opt_str(s[3]);
    assert(slot_view(s@[4]) == f(4));
    let operator = read_opt_str(s[4]);
    assert(slot_view(s@[5]) == f(5));
    let outlet_type = read_opt_str(s[5]);
    assert(slot_view(s@[6]) == f(6));
    let action_type = read_kind(s[6]);
    assert(slot_view(s@[7]) == f(7));
    let action_date = read_opt_str(s[7]);
    assert(slot_view(s@[8]) == f(8));
    let violations = read_list(s[8]);
    assert(slot_view(s@[9]) == f(9));
    let compliance_score = read_opt_i32(s[9]);
    assert(slot_view(s@[10]) == f(10));
    let fssai_number = read_opt_str(s[10]);
    assert(slot_view(s@[11]) == f(11));
    let details = read_opt_str(s[11]);
    assert(slot_view(s@[12]) == f(12));
    let platforms = read_list(s[12]);
    assert(slot_view(s@[13]) == f(13));
    let source_index = read_index(s[13]);
    match (
        establishment,
        area,
        city,
        brand,
        operator,
        outlet_type,
        action_type,
        action_date,
        violations,
        compliance_score,
        fssai_number,
        details,
        platforms,
        source_index,
    ) {
        (
            Some(establishment),
            Some(area),
            Some(city),
            Some(brand),
            Some(operator),
            Some(outlet_type),
            Some(action_type),
            Some(action_date),
            Some(violations),
            Some(compliance_score),
            Some(fssai_number),
            Some(details),
            Some(platforms),
            Some(source_index),
        ) => {
            let a = LlmAction {
                establishment,
                area,
                city,
                brand,
                operator,
                outlet_type,
                action_type,
                action_date,
                violations,
                compliance_score,
                fssai_number,
                details,
                platforms,
                source_index,
            };
            Some(a)
        },
        _ => None,
    }
}

/// The slot of a member that may be given under `name` or `alias`, not both.
fn slot_of<'a>(j: &'a Json, name: &str, alias: &str) -> (r: Option<Option<&'a Json>>)
    ensures
        slot_view(r) == slot2(*j, name@, alias@),
{
    match (j.get(name), j.get(alias)) {
        (Some(_), Some(_)) => None,
        (Some(a), None) => Some(Some(a)),
        (None, Some(b)) => Some(Some(b)),
        (None, None) => Some(None),
    }
}

/// The slots of an object record.
fn object_slots(j: &Json) -> (s: Vec<Option<Option<&Json>>>)
    ensures
        s@.len() == 14,
        forall|i: int| 0 <= i < 14 ==> slot_view(#[trigger] s@[i]) == object_slot(*j, i),
{
    let mut s: Vec<Option<Option<&Json>>> = Vec::new();
    s.push(Some(j.get("establishment")));
    s.push(Some(j.get("area")));
    s.push(Some(j.get("city")));
    s.push(Some(j.get("brand")));
    s.push(Some(j.get("operator")));
    s.push(slot_of(j, "outletType", "outlet_type"));
    s.push(slot_of(j, "actionType", "action_type"));
    s.push(slot_of(j, "actionDate", "action_date"));
    s.push(Some(j.get("violations")));
    s.push(Some(j.get("complianceScore")));
    s.push(slot_of(j, "fssaiNumber", "fssai_number"));
    s.push(Some(j.get("details")));
    s.push(Some(j.get("platforms")));
    s.push(slot_of(j, "sourceIndex", "source_index"));
    assert(slot_view(s@[0]) == object_slot(*j, 0));
    assert(slot_view(s@[1]) == object_slot(*j, 1));
    assert(slot_view(s@[2]) == object_slot(*j, 2));
    assert(slot_view(s@[3]) == object_slot(*j, 3));
    assert(slot_view(s@[4]) == object_slot(*j, 4));
    assert(slot_view(s@[5]) == object_slot(*j, 5));
    assert(slot_view(s@[6]) == object_slot(*j, 6));
    assert(slot_view(s@[7]) == object_slot(*j, 7));
    assert(slot_view(s@[8]) == object_slot(*j, 8));
    assert(slot_view(s@[9]) == object_slot(*j, 9));
    assert(slot_view(s@[10]) == object_slot(*j, 10));
    assert(slot_view(s@[11]) == object_slot(*j, 11));
    assert(slot_view(s@[12]) == object_slot(*j, 12));
    assert(slot_view(s@[13]) == object_slot(*j, 13));
    s
}

/// The slots of an array record of at most 14 elements.
fn array_slots(items: &Vec<Json>) -> (s: Vec<Option<Option<&Json>>>)
    requires
        items@.len() <= 14,
    ensures
        s@.len() == 14,
        forall|q: int| 0 <= q < 14 ==> slot_view(#[trigger] s@[q]) == array_slot(items@, q),
{
    let mut s: Vec<Option<Option<&Json>>> = Vec::new();
    let mut i: usize = 0;
    while i < 14
        invariant
            i <= 14,
            items@.len() <= 14,
            s@.len() == i,
            forall|q: int| 0 <= q < i ==> slot_view(#[trigger] s@[q]) == array_slot(items@, q),
        decreases 14 - i,
    {
        if i < items.len() {
            s.push(Some(Some(&items[i])));
        } else {
            s.push(Some(None));
        }
        i = i + 1;
    }
    s
}

/// Reads one extracted record from a JSON value, or `None` when the value does not
/// describe one (a required member missing, a member of the wrong type, an unknown
/// action kind, a member given twice under its two names, or too many array elements).
pub fn action_from_json(j: &Json) -> (r: Option<LlmAction>)
    ensures
        (match r {
            Some(a) => Some(a@),
            None => None,
        }) == decode_action(*j),
{
    match j {
        Json::Object(_) => {
            let s = object_slots(j);
            let ghost f = |i: int| object_slot(*j, i);
            assert forall|i: int| 0 <= i < 14 implies slot_view(#[trigger] s@[i]) == f(i) by {}
            decode_from(&s, Ghost(f))
        },
        Json::Array(items) => {
            if items.len() > 14 {
                return None;
            }
            let s = array_slots(items);
            let ghost f = |q: int| array_slot(items@, q);
            assert forall|q: int| 0 <= q < 14 implies slot_view(#[trigger] s@[q]) == f(q) by {}
            decode_from(&s, Ghost(f))
        },
        _ => None,
    }
}

} // verus!
