use chrono::{Datelike, NaiveDate, Utc};

use fda_mumbai_tracker::models::{
    canonical_outlet_type, coerce_action_date, coerce_action_date_on, date_of_timestamp, nonempty,
    ActionType, Date, LlmAction, OutletType,
};

fn day(y: i32, m: u32, d: u32) -> Date {
    Date { days: i64::from(NaiveDate::from_ymd_opt(y, m, d).unwrap().num_days_from_ce()) }
}

fn today() -> Date {
    Date { days: i64::from(Utc::now().date_naive().num_days_from_ce()) }
}

#[test]
fn action_type_round_trips() {
    for t in ActionType::ALL {
        let parsed: ActionType = t.to_string().parse().unwrap();
        assert_eq!(parsed, t);
    }
    assert!("suspended".parse::<ActionType>().is_err());
}

#[test]
fn outlet_type_unknown_maps_to_other() {
    assert_eq!(canonical_outlet_type("restaurant"), "restaurant");
    assert_eq!(canonical_outlet_type("stand"), "other");
    assert_eq!(canonical_outlet_type(""), "other");
}

#[test]
fn date_trusts_reported_value() {
    assert_eq!(coerce_action_date(Some("2026-08-11".into()), None), day(2026, 8, 11));
    assert_eq!(coerce_action_date(None, None), today());
    assert_eq!(
        coerce_action_date(Some("not a date".into()), Some(Utc::now().timestamp())),
        today()
    );
}

#[test]
fn action_type_parse_trims_and_quotes_unknown_names() {
    assert_eq!(ActionType::parse("  sealing \n"), Ok(ActionType::Sealing));
    assert_eq!(
        ActionType::parse("suspended"),
        Err("unknown action type: suspended".to_string())
    );
    assert_eq!(ActionType::StopBusiness.as_str(), "stop_business");
}

#[test]
fn outlet_type_names_round_trip() {
    let all = [
        OutletType::Restaurant,
        OutletType::CloudKitchen,
        OutletType::QuickCommerce,
        OutletType::Warehouse,
        OutletType::Dhaba,
        OutletType::Hotel,
        OutletType::Bakery,
        OutletType::Club,
        OutletType::Mess,
        OutletType::Dairy,
        OutletType::StreetVendor,
        OutletType::Other,
    ];
    for o in all {
        assert_eq!(OutletType::parse(&o.to_string()), o);
        assert_eq!(canonical_outlet_type(&canonical_outlet_type(o.as_str())), o.as_str());
    }
    assert_eq!(" cloud_kitchen ".parse::<OutletType>(), Ok(OutletType::CloudKitchen));
    assert_eq!(canonical_outlet_type("Restaurant"), "other");
}

#[test]
fn nonempty_trims_and_drops_blank_or_null() {
    assert_eq!(nonempty(Some("  Mumbai ".into())), Some("Mumbai".to_string()));
    assert_eq!(nonempty(Some("   ".into())), None);
    assert_eq!(nonempty(Some("NULL".into())), None);
    assert_eq!(nonempty(Some(" null ".into())), None);
    assert_eq!(nonempty(None), None);
    let once = nonempty(Some("  Pune\t".into()));
    assert_eq!(nonempty(once.clone()), once);
}

#[test]
fn minimal_action_holds_only_rule_fields() {
    let a = LlmAction::minimal("Otters Club".into(), ActionType::Sealing, 3, Some("x".into()));
    assert_eq!(a.establishment, "Otters Club");
    assert_eq!(a.action_type, ActionType::Sealing);
    assert_eq!(a.source_index, 3);
    assert_eq!(a.details.as_deref(), Some("x"));
    assert!(a.area.is_none() && a.city.is_none() && a.brand.is_none() && a.operator.is_none());
    assert!(a.outlet_type.is_none() && a.action_date.is_none() && a.fssai_number.is_none());
    assert!(a.violations.is_empty() && a.platforms.is_empty() && a.compliance_score.is_none());
}

#[test]
fn action_date_falls_back_in_order() {
    let supplied = day(2020, 1, 1);
    // 2026-08-11T10:00:00Z
    let published = 1_786_442_400_i64;
    assert_eq!(
        coerce_action_date_on(Some(" 2026-08-09 ".into()), Some(published), supplied),
        day(2026, 8, 9)
    );
    assert_eq!(
        coerce_action_date_on(Some("09/08/2026".into()), Some(published), supplied),
        day(2026, 8, 11)
    );
    assert_eq!(coerce_action_date_on(None, None, supplied), supplied);
}

#[test]
fn timestamps_fall_on_their_utc_day() {
    assert_eq!(date_of_timestamp(0), day(1970, 1, 1));
    assert_eq!(date_of_timestamp(86_399), day(1970, 1, 1));
    assert_eq!(date_of_timestamp(86_400), day(1970, 1, 2));
    assert_eq!(date_of_timestamp(-1), day(1969, 12, 31));
    assert_eq!(date_of_timestamp(-86_400), day(1969, 12, 31));
    assert_eq!(date_of_timestamp(-86_401), day(1969, 12, 30));
}
