use chrono::{Datelike, NaiveDate, Utc};

use fda_mumbai_tracker::models::{ActionType, Date, LlmAction, NewsItem};
use fda_mumbai_tracker::scrape::{build_rows, build_rows_on, ScrapeReport};

fn item(title: &str, url: &str) -> NewsItem {
    NewsItem {
        title: title.into(),
        url: url.into(),
        source: Some("Test Press".into()),
        published: Some(Utc::now().timestamp()),
        snippet: None,
    }
}

fn day(y: i32, m: u32, d: u32) -> Date {
    Date { days: i64::from(NaiveDate::from_ymd_opt(y, m, d).unwrap().num_days_from_ce()) }
}

fn bare(outlet_type: Option<&str>, source_index: usize) -> LlmAction {
    LlmAction {
        establishment: "X".into(),
        area: None,
        city: None,
        brand: None,
        operator: None,
        outlet_type: outlet_type.map(str::to_string),
        action_type: ActionType::Inspection,
        action_date: None,
        violations: vec![],
        compliance_score: None,
        fssai_number: None,
        details: None,
        platforms: vec![],
        source_index,
    }
}

#[test]
fn builds_rows_from_sources() {
    let items = vec![item(
        "Domino's licence suspended in Mumbai",
        "https://a.test/1",
    )];
    let actions = vec![LlmAction {
        establishment: "Domino's Vile Parle".into(),
        area: Some("Vile Parle West".into()),
        city: Some("Mumbai".into()),
        brand: Some("Domino's".into()),
        operator: None,
        outlet_type: Some("restaurant".into()),
        action_type: ActionType::LicenceSuspension,
        action_date: Some("2026-08-11".into()),
        violations: vec!["pest control lapses".into()],
        compliance_score: Some(54),
        fssai_number: None,
        details: None,
        platforms: vec!["zomato".into()],
        source_index: 0,
    }];
    let rows = build_rows(&items, &actions, false);
    assert_eq!(rows.len(), 1);
    assert_eq!(rows[0].brand.as_deref(), Some("Domino's"));
    assert_eq!(rows[0].action_type, "licence_suspension");
    assert_eq!(rows[0].outlet_type.as_deref(), Some("restaurant"));
    assert_eq!(rows[0].source_url, "https://a.test/1");
}

#[test]
fn unknown_outlet_type_maps_to_other() {
    let items = vec![item("a", "b")];
    let action = bare(Some("pavement stand"), 0);
    let rows = build_rows(&items, &[action], false);
    assert_eq!(rows.len(), 1);
    assert_eq!(rows[0].outlet_type.as_deref(), Some("other"));
}

#[test]
fn drops_orphan_source_index() {
    let items = vec![item("a", "b")];
    let action = bare(None, 5);
    assert!(build_rows(&items, &[action], false).is_empty());
}

#[test]
fn delivery_mode_drops_unlisted_outlets() {
    let items = vec![item("a", "b")];
    let mut action = bare(Some("restaurant"), 0);
    action.city = Some("Mumbai".into());
    assert!(build_rows(&items, &[action.clone()], true).is_empty());
    action.platforms = vec!["zomato".into(), "swiggy".into()];
    assert_eq!(build_rows(&items, &[action], true).len(), 1);
}

#[test]
fn rows_clean_fields_and_take_source_details() {
    let items = vec![NewsItem {
        title: "Headline".into(),
        url: "https://a.test/2".into(),
        source: Some("  null ".into()),
        // 2026-08-11T10:00:00Z
        published: Some(1_786_442_400),
        snippet: None,
    }];
    let mut a = bare(None, 0);
    a.establishment = "  Otters Club ".into();
    a.area = Some("   ".into());
    a.details = Some(" NULL ".into());
    a.fssai_number = Some(" 1150 ".into());
    a.compliance_score = Some(101);
    let mut blank = bare(None, 0);
    blank.establishment = " null ".into();
    let rows = build_rows_on(&items, &[a, blank], false, day(2000, 1, 1));
    assert_eq!(rows.len(), 1);
    let r = &rows[0];
    assert_eq!(r.establishment, "Otters Club");
    assert!(r.area.is_none() && r.details.is_none() && r.source_publisher.is_none());
    assert_eq!(r.fssai_number.as_deref(), Some("1150"));
    assert!(r.compliance_score.is_none());
    assert_eq!(r.action_type, "inspection");
    assert_eq!(r.action_date, day(2026, 8, 11));
    assert_eq!(r.source_headline.as_deref(), Some("Headline"));
    assert_eq!(r.published_at, Some(1_786_442_400));
}

#[test]
fn rows_without_any_date_take_the_given_day() {
    let mut it = item("a", "b");
    it.published = None;
    let rows = build_rows_on(&[it], &[bare(None, 0)], false, day(2026, 3, 4));
    assert_eq!(rows[0].action_date, day(2026, 3, 4));
}

#[test]
fn scrape_report_counts() {
    let r = ScrapeReport { articles_seen: 3, articles_new: 2, actions_upserted: 1, llm_calls: 4 };
    assert_eq!(r, r.clone());
    assert_eq!(r.llm_calls, 4);
}
