//! The domain records: enforcement action kinds, outlet kinds, news items, extracted
//! records, calendar days, and the coercions applied to raw extracted fields.
use vstd::prelude::*;
use vstd::string::StringExecFns;

use crate::text::{
    trim_end, trim_start, chars_of, eq_ignore_ascii_case, eq_ignore_ascii_case_chars, string_of, trim, trim_chars,
};

verus! {

/// The kind of enforcement action a record describes.
#[derive(Debug, Clone, Copy, PartialEq, Eq, Hash, Structural)]
pub enum ActionType {
    LicenceSuspension,
    StopBusiness,
    ImprovementNotice,
    Sealing,
    Seizure,
    Inspection,
    Reopened,
}

/// The stored name of each action kind.
pub open spec fn action_name(t: ActionType) -> Seq<char> {
    match t {
        ActionType::LicenceSuspension => "licence_suspension"@,
        ActionType::StopBusiness => "stop_business"@,
        ActionType::ImprovementNotice => "improvement_notice"@,
        ActionType::Sealing => "sealing"@,
        ActionType::Seizure => "seizure"@,
        ActionType::Inspection => "inspection"@,
        ActionType::Reopened => "reopened"@,
    }
}

/// The action kind whose stored name is `s` once surrounding white space is removed.
pub open spec fn parse_action(s: Seq<char>) -> Option<ActionType> {
    let t = trim(s);
    if t == action_name(ActionType::LicenceSuspension) {
        Some(ActionType::LicenceSuspension)
    } else if t == action_name(ActionType::StopBusiness) {
        Some(ActionType::StopBusiness)
    } else if t == action_name(ActionType::ImprovementNotice) {
        Some(ActionType::ImprovementNotice)
    } else if t == action_name(ActionType::Sealing) {
        Some(ActionType::Sealing)
    } else if t == action_name(ActionType::Seizure) {
        Some(ActionType::Seizure)
    } else if t == action_name(ActionType::Inspection) {
        Some(ActionType::Inspection)
    } else if t == action_name(ActionType::Reopened) {
        Some(ActionType::Reopened)
    } else {
        None
    }
}

/// Reading back the stored name of any action kind gives that kind again.
pub proof fn action_name_round_trip(t: ActionType)
    ensures
        parse_action(action_name(t)) == Some(t),
{
    reveal_strlit("licence_suspension");
    reveal_strlit("stop_business");
    reveal_strlit("improvement_notice");
    reveal_strlit("sealing");
    reveal_strlit("seizure");
    reveal_strlit("inspection");
    reveal_strlit("reopened");
    let n = action_name(t);
    assert(trim(n) == n) by {
        assert(trim_start(n) == n);
        assert(trim_end(n) == n);
    }
}

impl ActionType {
    /// Every action kind, in declaration order.
    pub const ALL: [ActionType; 7] = [
        ActionType::LicenceSuspension,
        ActionType::StopBusiness,
        ActionType::ImprovementNotice,
        ActionType::Sealing,
        ActionType::Seizure,
        ActionType::Inspection,
        ActionType::Reopened,
    ];

    /// The stored name of this action kind.
    pub fn as_str(&self) -> (r: &'static str)
        ensures
            r@ == action_name(*self),
    {
        match self {
            ActionType::LicenceSuspension => "licence_suspension",
            ActionType::StopBusiness => "stop_business",
            ActionType::ImprovementNotice => "improvement_notice",
            ActionType::Sealing => "sealing",
            ActionType::Seizure => "seizure",
            ActionType::Inspection => "inspection",
            ActionType::Reopened => "reopened",
        }
    }

    /// The stored name of this action kind, as an owned string.
    pub fn to_string(&self) -> (r: String)
        ensures
            r@ == action_name(*self),
    {
        String::from_str(self.as_str())
    }

    /// Reads an action kind from its stored name, ignoring surrounding white space;
    /// any other text is an error that quotes it.
    pub fn parse(s: &str) -> (r: Result<ActionType, String>)
        ensures
            r matches Ok(t) ==> parse_action(s@) == Some(t),
            r matches Err(m) ==> parse_action(s@) is None && m@ == "unknown action type: "@ + s@,
            r is Ok <==> parse_action(s@) is Some,
    {
        let cs = chars_of(s);
        let t = string_of(trim_chars(cs.as_slice()).as_slice());
        if t == String::from_str("licence_suspension") {
            Ok(ActionType::LicenceSuspension)
        } else if t == String::from_str("stop_business") {
            Ok(ActionType::StopBusiness)
        } else if t == String::from_str("improvement_notice") {
            Ok(ActionType::ImprovementNotice)
        } else if t == String::from_str("sealing") {
            Ok(ActionType::Sealing)
        } else if t == String::from_str("seizure") {
            Ok(ActionType::Seizure)
        } else if t == String::from_str("inspection") {
            Ok(ActionType::Inspection)
        } else if t == String::from_str("reopened") {
            Ok(ActionType::Reopened)
        } else {
            let mut m = String::from_str("unknown action type: ");
            m.append(s);
            Err(m)
        }
    }
}

impl core::str::FromStr for ActionType {
    type Err = String;

    fn from_str(s: &str) -> (r: Result<Self, Self::Err>)
        ensures
            r matches Ok(t) ==> parse_action(s@) == Some(t),
            r matches Err(m) ==> parse_action(s@) is None && m@ == "unknown action type: "@ + s@,
            r is Ok <==> parse_action(s@) is Some,
    {
        ActionType::parse(s)
    }
}

/// The kind of outlet an action was taken against.
#[derive(Debug, Clone, Copy, PartialEq, Eq, Structural)]
pub enum OutletType {
    Restaurant,
    CloudKitchen,
    QuickCommerce,
    Warehouse,
    Dhaba,
    Hotel,
    Bakery,
    Club,
    Mess,
    Dairy,
    StreetVendor,
    Other,
}

/// The stored name of each outlet kind.
pub open spec fn outlet_name(o: OutletType) -> Seq<char> {
    match o {
        OutletType::Restaurant => "restaurant"@,
        OutletType::CloudKitchen => "cloud_kitchen"@,
        OutletType::QuickCommerce => "quick_commerce"@,
        OutletType::Warehouse => "warehouse"@,
        OutletType::Dhaba => "dhaba"@,
        OutletType::Hotel => "hotel"@,
        OutletType::Bakery => "bakery"@,
        OutletType::Club => "club"@,
        OutletType::Mess => "mess"@,
        OutletType::Dairy => "dairy"@,
        OutletType::StreetVendor => "street_vendor"@,
        OutletType::Other => "other"@,
    }
}

/// The outlet kind whose stored name is `s` once trimmed; anything unknown is `Other`.
pub open spec fn parse_outlet(s: Seq<char>) -> OutletType {
    let t = trim(s);
    if t == outlet_name(OutletType::Restaurant) {
        OutletType::Restaurant
    } else if t == outlet_name(OutletType::CloudKitchen) {
        OutletType::CloudKitchen
    } else if t == outlet_name(OutletType::QuickCommerce) {
        OutletType::QuickCommerce
    } else if t == outlet_name(OutletType::Warehouse) {
        OutletType::Warehouse
    } else if t == outlet_name(OutletType::Dhaba) {
        OutletType::Dhaba
    } else if t == outlet_name(OutletType::Hotel) {
        OutletType::Hotel
    } else if t == outlet_name(OutletType::Bakery) {
        OutletType::Bakery
    } else if t == outlet_name(OutletType::Club) {
        OutletType::Club
    } else if t == outlet_name(OutletType::Mess) {
        OutletType::Mess
    } else if t == outlet_name(OutletType::Dairy) {
        OutletType::Dairy
    } else if t == outlet_name(OutletType::StreetVendor) {
        OutletType::StreetVendor
    } else {
        OutletType::Other
    }
}

/// Reading back the stored name of any outlet kind gives that kind again.
pub proof fn outlet_name_round_trip(o: OutletType)
    ensures
        parse_outlet(outlet_name(o)) == o,
{
    reveal_strlit("restaurant");
    reveal_strlit("cloud_kitchen");
    reveal_strlit("quick_commerce");
    reveal_strlit("warehouse");
    reveal_strlit("dhaba");
    reveal_strlit("hotel");
    reveal_strlit("bakery");
    reveal_strlit("club");
    reveal_strlit("mess");
    reveal_strlit("dairy");
    reveal_strlit("street_vendor");
    reveal_strlit("other");
    let n = outlet_name(o);
    assert(trim(n) == n) by {
        assert(trim_start(n) == n);
        assert(trim_end(n) == n);
    }
}

/// Canonicalising an outlet kind twice gives what canonicalising it once gives.
pub proof fn canonical_outlet_type_idempotent(s: Seq<char>)
    ensures
        outlet_name(parse_outlet(outlet_name(parse_outlet(s)))) == outlet_name(parse_outlet(s)),
{
    outlet_name_round_trip(parse_outlet(s));
}

impl OutletType {
    /// The stored name of this outlet kind.
    pub fn as_str(&self) -> (r: &'static str)
        ensures
            r@ == outlet_name(*self),
    {
        match self {
            OutletType::Restaurant => "restaurant",
            OutletType::CloudKitchen => "cloud_kitchen",
            OutletType::QuickCommerce => "quick_commerce",
            OutletType::Warehouse => "warehouse",
            OutletType::Dhaba => "dhaba",
            OutletType::Hotel => "hotel",
            OutletType::Bakery => "bakery",
            OutletType::Club => "club",
            OutletType::Mess => "mess",
            OutletType::Dairy => "dairy",
            OutletType::StreetVendor => "street_vendor",
            OutletType::Other => "other",
        }
    }

    /// The stored name of this outlet kind, as an owned string.
    pub fn to_string(&self) -> (r: String)
        ensures
            r@ == outlet_name(*self),
    {
        String::from_str(self.as_str())
    }

    /// Reads an outlet kind from its stored name, ignoring surrounding white space;
    /// any other text reads as `Other`.
    pub fn parse(s: &str) -> (r: OutletType)
        ensures
            r == parse_outlet(s@),
    {
        let cs = chars_of(s);
        let t = string_of(trim_chars(cs.as_slice()).as_slice());
        if t == String::from_str("restaurant") {
            OutletType::Restaurant
        } else if t == String::from_str("cloud_kitchen") {
            OutletType::CloudKitchen
        } else if t == String::from_str("quick_commerce") {
            OutletType::QuickCommerce
        } else if t == String::from_str("warehouse") {
            OutletType::Warehouse
        } else if t == String::from_str("dhaba") {
            OutletType::Dhaba
        } else if t == String::from_str("hotel") {
            OutletType::Hotel
        } else if t == String::from_str("bakery") {
            OutletType::Bakery
        } else if t == String::from_str("club") {
            OutletType::Club
        } else if t == String::from_str("mess") {
            OutletType::Mess
        } else if t == String::from_str("dairy") {
            OutletType::Dairy
        } else if t == String::from_str("street_vendor") {
            OutletType::StreetVendor
        } else {
            OutletType::Other
        }
    }
}

impl core::str::FromStr for OutletType {
    type Err = core::convert::Infallible;

    fn from_str(s: &str) -> (r: Result<Self, Self::Err>)
        ensures
            r == Ok::<OutletType, core::convert::Infallible>(parse_outlet(s@)),
    {
        Ok(OutletType::parse(s))
    }
}

/// The stored name of the outlet kind that `s` names, `"other"` for anything unknown.
pub fn canonical_outlet_type(s: &str) -> (r: String)
    ensures
        r@ == outlet_name(parse_outlet(s@)),
{
    OutletType::parse(s).to_string()
}

/// A news article found by a feed search.
#[derive(Debug, Clone)]
pub struct NewsItem {
    pub title: String,
    pub url: String,
    pub source: Option<String>,
    /// Publication time, in seconds since the Unix epoch.
    pub published: Option<i64>,
    pub snippet: Option<String>,
}

/// The content of a news item.
pub struct NewsRecord {
    pub title: Seq<char>,
    pub url: Seq<char>,
    pub source: Option<Seq<char>>,
    pub published: Option<i64>,
    pub snippet: Option<Seq<char>>,
}

impl View for NewsItem {
    type V = NewsRecord;

    open spec fn view(&self) -> NewsRecord {
        NewsRecord {
            title: self.title@,
            url: self.url@,
            source: opt_chars(self.source),
            published: self.published,
            snippet: opt_chars(self.snippet),
        }
    }
}

/// A copy of an optional string.
pub fn copy_opt(o: &Option<String>) -> (r: Option<String>)
    ensures
        opt_chars(r) == opt_chars(*o),
{
    match o {
        Some(s) => Some(s.clone()),
        None => None,
    }
}

impl NewsItem {
    /// A copy of this item.
    pub fn copy(&self) -> (r: NewsItem)
        ensures
            r@ == self@,
    {
        NewsItem {
            title: self.title.clone(),
            url: self.url.clone(),
            source: copy_opt(&self.source),
            published: self.published,
            snippet: copy_opt(&self.snippet),
        }
    }
}

/// A calendar day, counted as days since the start of the common era
/// (0001-01-01 is day 1), which is how `chrono` numbers its dates.
#[derive(Debug, Clone, Copy, PartialEq, Eq, Structural)]
pub struct Date {
    pub days: i64,
}

/// The view of an optional string as optional characters.
pub open spec fn opt_chars(o: Option<String>) -> Option<Seq<char>> {
    match o {
        Some(s) => Some(s@),
        None => None,
    }
}

/// One enforcement action as the language model reports it.
#[derive(Debug, Clone)]
pub struct LlmAction {
    pub establishment: String,
    pub area: Option<String>,
    pub city: Option<String>,
    pub brand: Option<String>,
    pub operator: Option<String>,
    pub outlet_type: Option<String>,
    pub action_type: ActionType,
    pub action_date: Option<String>,
    pub violations: Vec<String>,
    pub compliance_score: Option<i32>,
    pub fssai_number: Option<String>,
    pub details: Option<String>,
    pub platforms: Vec<String>,
    pub source_index: usize,
}

/// The content of an extracted record.
pub struct ActionRecord {
    pub establishment: Seq<char>,
    pub area: Option<Seq<char>>,
    pub city: Option<Seq<char>>,
    pub brand: Option<Seq<char>>,
    pub operator: Option<Seq<char>>,
    pub outlet_type: Option<Seq<char>>,
    pub action_type: ActionType,
    pub action_date: Option<Seq<char>>,
    pub violations: Seq<Seq<char>>,
    pub compliance_score: Option<i32>,
    pub fssai_number: Option<Seq<char>>,
    pub details: Option<Seq<char>>,
    pub platforms: Seq<Seq<char>>,
    pub source_index: usize,
}

/// The views of a sequence of strings.
pub open spec fn strs(v: Seq<String>) -> Seq<Seq<char>> {
    v.map_values(|w: String| w@)
}

impl View for LlmAction {
    type V = ActionRecord;

    open spec fn view(&self) -> ActionRecord {
        ActionRecord {
            establishment: self.establishment@,
            area: opt_chars(self.area),
            city: opt_chars(self.city),
            brand: opt_chars(self.brand),
            operator: opt_chars(self.operator),
            outlet_type: opt_chars(self.outlet_type),
            action_type: self.action_type,
            action_date: opt_chars(self.action_date),
            violations: strs(self.violations@),
            compliance_score: self.compliance_score,
            fssai_number: opt_chars(self.fssai_number),
            details: opt_chars(self.details),
            platforms: strs(self.platforms@),
            source_index: self.source_index,
        }
    }
}

/// A copy of a list of strings.
pub fn copy_strings(v: &Vec<String>) -> (r: Vec<String>)
    ensures
        strs(r@) == strs(v@),
{
    let mut out: Vec<String> = Vec::new();
    let mut i: usize = 0;
    while i < v.len()
        invariant
            i <= v@.len(),
            strs(out@) == strs(v@).take(i as int),
        decreases v@.len() - i,
    {
        let ghost prev = strs(out@);
        let c = v[i].clone();
        assert(c@ == v@[i as int]@);
        out.push(c);
        assert(strs(out@) =~= prev.push(c@));
        assert(strs(v@).take(i + 1) =~= strs(v@).take(i as int).push(v@[i as int]@));
        i = i + 1;
    }
    assert(strs(v@).take(v@.len() as int) =~= strs(v@));
    out
}

impl LlmAction {
    /// A copy of this record.
    pub fn copy(&self) -> (r: LlmAction)
        ensures
            r@ == self@,
    {
        LlmAction {
            establishment: self.establishment.clone(),
            area: copy_opt(&self.area),
            city: copy_opt(&self.city),
            brand: copy_opt(&self.brand),
            operator: copy_opt(&self.operator),
            outlet_type: copy_opt(&self.outlet_type),
            action_type: self.action_type,
            action_date: copy_opt(&self.action_date),
            violations: copy_strings(&self.violations),
            compliance_score: self.compliance_score,
            fssai_number: copy_opt(&self.fssai_number),
            details: copy_opt(&self.details),
            platforms: copy_strings(&self.platforms),
            source_index: self.source_index,
        }
    }

    /// Minimal record for the deterministic rule fallback: only what keyword
    /// rules can know. Everything else stays empty for downstream defaults.
    pub fn minimal(
        establishment: String,
        action_type: ActionType,
        source_index: usize,
        details: Option<String>,
    ) -> (r: Self)
        ensures
            r.establishment == establishment,
            r.action_type == action_type,
            r.source_index == source_index,
            r.details == details,
            r.area is None,
            r.city is None,
            r.brand is None,
            r.operator is None,
            r.outlet_type is None,
            r.action_date is None,
            r.violations@.len() == 0,
            r.compliance_score is None,
            r.fssai_number is None,
            r.platforms@.len() == 0,
    {
        LlmAction {
            establishment,
            area: None,
            city: None,
            brand: None,
            operator: None,
            outlet_type: None,
            action_type,
            action_date: None,
            violations: Vec::new(),
            compliance_score: None,
            fssai_number: None,
            details,
            platforms: Vec::new(),
            source_index,
        }
    }
}

/// The text `s` counts as a value: once trimmed it is neither empty nor, in any case, `null`.
pub open spec fn nonempty_value(s: Seq<char>) -> Option<Seq<char>> {
    let t = trim(s);
    if t.len() == 0 || eq_ignore_ascii_case(t, "null"@) {
        None
    } else {
        Some(t)
    }
}

/// The trimmed value of an optional field, or `None` when it is absent, blank or `null`.
pub open spec fn nonempty_spec(v: Option<Seq<char>>) -> Option<Seq<char>> {
    match v {
        Some(s) => nonempty_value(s),
        None => None,
    }
}

/// Trims an optional field and drops it when it is blank or says `null` in any case.
pub fn nonempty(v: Option<String>) -> (r: Option<String>)
    ensures
        opt_chars(r) == nonempty_spec(opt_chars(v)),
{
    match v {
        None => None,
        Some(s) => {
            let cs = chars_of(s.as_str());
            let t = trim_chars(cs.as_slice());
            let null = chars_of("null");
            if t.len() == 0 || eq_ignore_ascii_case_chars(t.as_slice(), null.as_slice()) {
                None
            } else {
                Some(string_of(t.as_slice()))
            }
        },
    }
}

/// Applying `nonempty` to its own result changes nothing.
pub proof fn nonempty_idempotent(v: Option<Seq<char>>)
    ensures
        nonempty_spec(nonempty_spec(v)) == nonempty_spec(v),
{
    if let Some(s) = v {
        let t = trim(s);
        if nonempty_value(s) is Some {
            crate::text::lemma_trim_idempotent(s);
        }
    }
}

/// The calendar day `YYYY-MM-DD` that `chrono`'s `NaiveDate::parse_from_str` reads from `s`
/// with the format `%Y-%m-%d`, as days since the start of the common era.
pub uninterp spec fn ymd_days(s: Seq<char>) -> Option<i64>;

/// Calls `chrono::NaiveDate::parse_from_str` with the format `%Y-%m-%d`; the result is named
/// by `ymd_days`.
#[verifier::external_body]
fn parse_ymd(s: &str) -> (r: Option<i64>)
    ensures
        r == ymd_days(s@),
{
    chrono::NaiveDate::parse_from_str(s, "%Y-%m-%d").ok().map(|d| i64::from(
        chrono::Datelike::num_days_from_ce(&d),
    ))
}

/// Calls `chrono::Utc::now` and returns today's UTC calendar day; nothing is promised
/// of which day that is.
#[verifier::external_body]
fn today_utc() -> (r: Date) {
    Date { days: i64::from(chrono::Datelike::num_days_from_ce(&chrono::Utc::now().date_naive())) }
}

/// The days from the start of the common era to 1970-01-01.
pub open spec fn epoch_day() -> int {
    719163
}

/// The UTC calendar day on which the Unix time `secs` falls.
pub open spec fn day_of_timestamp(secs: i64) -> Date {
    Date { days: (secs as int / 86400 + epoch_day()) as i64 }
}

/// The UTC calendar day on which the Unix time `secs` falls.
pub fn date_of_timestamp(secs: i64) -> (r: Date)
    ensures
        r == day_of_timestamp(secs),
{
    let q: i64 = if secs >= 0 {
        secs / 86400
    } else {
        -((-(secs + 1)) / 86400) - 1
    };
    proof {
        if secs < 0 {
            let a = -(secs + 1);
            assert(a >= 0);
            assert(q == -(a / 86400) - 1);
            assert(secs as int / 86400 == q) by (nonlinear_arith)
                requires
                    secs < 0,
                    a == -(secs + 1),
                    q == -(a / 86400) - 1,
            {
                let k = a / 86400;
                let m = a % 86400;
                assert(a == 86400 * k + m);
                assert(secs == -86400 * k - m - 1);
                assert(secs == 86400 * (-k - 1) + (86399 - m));
            }
        }
    }
    Date { days: q + 719163 }
}

/// The day an action took place: the reported `YYYY-MM-DD` date when it reads as one,
/// else the day the source was published, else `today`.
pub open spec fn action_day(raw: Option<Seq<char>>, published: Option<i64>, today: Date) -> Date {
    match raw {
        Some(s) if ymd_days(trim(s)) is Some => Date { days: ymd_days(trim(s))->0 },
        _ => match published {
            Some(p) => day_of_timestamp(p),
            None => today,
        },
    }
}

/// The day an action took place, with `today` supplied for records that carry no date.
pub fn coerce_action_date_on(raw: Option<String>, published: Option<i64>, today: Date) -> (r: Date)
    ensures
        r == action_day(opt_chars(raw), published, today),
{
    if let Some(s) = raw {
        let t = crate::text::trim_str(s.as_str());
        if let Some(d) = parse_ymd(t.as_str()) {
            return Date { days: d };
        }
    }
    match published {
        Some(p) => date_of_timestamp(p),
        None => today,
    }
}

/// The day an action took place: the reported date when it parses, else the day the
/// source was published, else today's UTC date. The clock is read only in the last case;
/// which day it gives is not stated, so the result is `action_day` with the result itself
/// standing in for today.
pub fn coerce_action_date(raw: Option<String>, published: Option<i64>) -> (r: Date)
    ensures
        r == action_day(opt_chars(raw), published, r),
{
    if let Some(s) = raw {
        let t = crate::text::trim_str(s.as_str());
        if let Some(d) = parse_ymd(t.as_str()) {
            return Date { days: d };
        }
    }
    match published {
        Some(p) => date_of_timestamp(p),
        None => today_utc(),
    }
}

} // verus!
