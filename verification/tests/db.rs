use fda_mumbai_tracker::cron::{authorized, is_vercel_cron};
use fda_mumbai_tracker::db::{already_reported, distinct_events, ActionInsert};
use fda_mumbai_tracker::events::{is_acronym_of, same_event, token_matches, tokens};
use fda_mumbai_tracker::models::Date;

#[test]
fn same_event_matches_variants_not_branches() {
    assert!(same_event("Otters Club", "otters club"));
    assert!(same_event(
        "Otters Club",
        "Otters Club, Carter Road, Bandra West"
    ));
    assert!(same_event(
        "Blinkit Dark Store (Malad West)",
        "Blinkit Dark Store Malad West"
    ));
    assert!(!same_event(
        "Domino's Pizza (Borivali West)",
        "Domino's Pizza (Ghatkopar West)"
    ));
    assert!(!same_event("Domino's Pizza", "Pizza Hut Borivali"));
    // short names only match exactly
    assert!(!same_event("KFC", "KFC Andheri"));
    assert!(same_event("KFC", "kfc"));
    // acronym expansion + venue-word drift
    assert!(same_event(
        "MCA BKC Club",
        "Mumbai Cricket Association (BKC Facility)"
    ));
    assert!(!same_event(
        "Cricket Club of India Canteen",
        "Mumbai Cricket Association (BKC Facility)"
    ));
}

#[test]
fn same_event_is_symmetric_on_examples() {
    let names = [
        "Otters Club",
        "Otters Club, Carter Road, Bandra West",
        "MCA BKC Club",
        "Mumbai Cricket Association (BKC Facility)",
        "KFC",
        "kfc",
        "Domino's Pizza",
    ];
    for a in names {
        assert!(same_event(a, a));
        for b in names {
            assert_eq!(same_event(a, b), same_event(b, a));
        }
    }
}

#[test]
fn tokens_drop_venue_words_and_punctuation() {
    assert_eq!(
        tokens("Mumbai Cricket Association (BKC Facility)"),
        vec!["mumbai", "cricket", "association", "bkc"]
    );
    assert_eq!(tokens("The Hotel -- Kitchen!"), vec!["the"]);
    assert!(tokens("").is_empty());
}

#[test]
fn acronyms_match_initials_of_consecutive_words() {
    let words: Vec<String> = vec!["mumbai".into(), "cricket".into(), "association".into()];
    assert!(is_acronym_of("mca", &words));
    assert!(is_acronym_of("mc", &words));
    assert!(!is_acronym_of("mcab", &words));
    assert!(!is_acronym_of("", &words));
    assert!(!is_acronym_of("ca", &words));
    assert!(token_matches("ca", &words));
    assert!(token_matches("cricket", &words));
    assert!(!token_matches("cricketer", &words));
}

fn row(name: &str, city: Option<&str>, days: i64) -> ActionInsert {
    ActionInsert {
        establishment: name.into(),
        area: None,
        city: city.map(str::to_string),
        brand: None,
        operator: None,
        outlet_type: None,
        action_type: "inspection".into(),
        action_date: Date { days },
        violations: vec![],
        compliance_score: None,
        fssai_number: None,
        details: None,
        platforms: vec![],
        source_url: "https://a.test/1".into(),
        source_publisher: None,
        source_headline: None,
        published_at: None,
    }
}

#[test]
fn already_reported_checks_every_candidate() {
    let candidates: Vec<String> = vec!["Pizza Hut Borivali".into(), "Otters Club".into()];
    assert!(already_reported(&candidates, "otters club"));
    assert!(!already_reported(&candidates, "KFC Andheri"));
    assert!(!already_reported(&[], "Otters Club"));
}

#[test]
fn replace_keeps_one_row_per_event() {
    let rows = vec![
        row("Otters Club", Some("Mumbai"), 100),
        row("otters club", Some("Mumbai"), 104),
        row("Otters Club", Some("Pune"), 100),
        row("Otters Club", Some("Mumbai"), 106),
        row("KFC", Some("Mumbai"), 100),
        row("Otters Club, Carter Road", Some("Mumbai"), 95),
        row("Otters Club", None, 100),
    ];
    // a re-report within five days in the same city goes; another city, a later date
    // beyond the window, another outlet and a missing city all stay
    assert_eq!(distinct_events(&rows), vec![0, 2, 3, 4, 6]);
    assert!(distinct_events(&[]).is_empty());
}

#[test]
fn cron_endpoint_fails_closed() {
    assert!(is_vercel_cron(Some("vercel-cron/1.0")));
    assert!(!is_vercel_cron(Some("curl/8.0")));
    assert!(!is_vercel_cron(None));
    assert!(authorized(Some("vercel-cron/1.0"), None, None));
    assert!(authorized(Some("curl/8.0"), Some("s3cret"), Some("s3cret")));
    assert!(!authorized(Some("curl/8.0"), Some("s3cret"), Some("guess")));
    assert!(!authorized(Some("curl/8.0"), Some(""), Some("")));
    assert!(!authorized(None, None, Some("anything")));
}
