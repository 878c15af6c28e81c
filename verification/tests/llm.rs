use fda_mumbai_tracker::llm::{
    action_signal, batch_items, clamp, clamp_opt, collect_extractions, extraction_plan,
    finalize_actions, haystack, is_likely_relevant, is_quota_exhausted, relevant_indices,
    remap_batch, retry_delay, retry_delay_with, rule_extract, sanitize_action, strip_code_fences,
    system_prompt, truncate, ExtractError,
};
use fda_mumbai_tracker::models::{ActionType, LlmAction, NewsItem};

fn mk(title: &str) -> NewsItem {
    NewsItem {
        title: title.into(),
        url: "https://x.test/1".into(),
        source: None,
        published: None,
        snippet: None,
    }
}

fn action(name: &str, kind: ActionType, source_index: usize) -> LlmAction {
    LlmAction::minimal(name.into(), kind, source_index, None)
}

#[test]
fn strips_fences() {
    assert_eq!(strip_code_fences("```json\n[1,2]\n```"), "[1,2]");
    assert_eq!(strip_code_fences("[1,2]"), "[1,2]");
}

#[test]
fn strips_fences_without_language_tag_or_newline() {
    assert_eq!(strip_code_fences("  ```\n{\"a\":1}\n```  "), "{\"a\":1}");
    assert_eq!(strip_code_fences("```[1]```"), "[1]");
    assert_eq!(strip_code_fences("  plain  "), "plain");
    // an untagged fence keeps every content line
    assert_eq!(strip_code_fences("```\n[1,\n2]\n```"), "[1,\n2]");
    assert_eq!(strip_code_fences("```json\r\n[1,\n2]\r\n```"), "[1,\n2]");
    assert_eq!(strip_code_fences("``` \n{}\n```"), "{}");
}

#[test]
fn strips_a_tag_line_that_holds_spaces() {
    assert_eq!(strip_code_fences("```json foo\n[1]\n```"), "[1]");
    assert_eq!(strip_code_fences("```  \n[2]\n```"), "[2]");
}

#[test]
fn retry_delay_backs_off_and_caps() {
    let d = |a: usize| retry_delay(a, None);
    assert!((8..=15).contains(&d(0)));
    assert!((15..=30).contains(&d(1)));
    assert!((30..=60).contains(&d(2)));
    assert!((60..=120).contains(&d(3)));
    assert!((60..=120).contains(&d(5)));
    assert!((3..=5).contains(&retry_delay(0, Some(5))));
    assert!((60..=120).contains(&retry_delay(0, Some(300))));
}

#[test]
fn retry_delay_jitter_is_exact_for_given_nanos() {
    assert_eq!(retry_delay_with(0, None, 0), 15);
    assert_eq!(retry_delay_with(0, None, 7), 8);
    assert_eq!(retry_delay_with(2, None, 30), 30);
    assert_eq!(retry_delay_with(2, None, 31), 60);
    assert_eq!(retry_delay_with(9, None, 60), 60);
    assert_eq!(retry_delay_with(9, None, 61), 120);
    assert_eq!(retry_delay_with(0, Some(300), 0), 120);
    assert_eq!(retry_delay_with(0, Some(0), 123), 0);
}

#[test]
fn base_delay_doubles_up_to_the_cap() {
    let base: Vec<u64> = (0..7).map(|a| retry_delay_with(a, None, 0)).collect();
    assert_eq!(base, vec![15, 30, 60, 120, 120, 120, 120]);
    for a in 0..7 {
        for n in [1u64, 999, 123_456_789] {
            let d = retry_delay_with(a, None, n);
            assert!(base[a] - base[a] / 2 <= d && d <= base[a]);
        }
    }
}

#[test]
fn detects_quota_exhaustion() {
    assert!(is_quota_exhausted("Quota exceeded for metric: ..."));
    assert!(is_quota_exhausted("\"status\": \"RESOURCE_EXHAUSTED\""));
    assert!(!is_quota_exhausted("high demand, try again later"));
}

#[test]
fn rule_fallback_keeps_signal_items_only() {
    let items = vec![
        (4, mk("Domino's licence suspended in Mumbai over pests")),
        (7, mk("cricket highlights and match report")),
    ];
    assert!(!is_likely_relevant(&items[1].1));
    let kept = rule_extract(&items);
    assert_eq!(kept.len(), 1);
    assert_eq!(kept[0].source_index, 4);
    assert_eq!(kept[0].action_type, ActionType::LicenceSuspension);
}

#[test]
fn rule_fallback_names_the_outlet_from_the_headline() {
    let mut it = mk("Otters Club sealed - FDA acts | Mid-Day");
    it.snippet = Some("The FDA sealed the club.".into());
    let kept = rule_extract(&[(2, it), (3, mk(" | FDA raid"))]);
    assert_eq!(kept.len(), 1);
    assert_eq!(kept[0].establishment, "Otters Club sealed");
    assert_eq!(kept[0].action_type, ActionType::Sealing);
    assert_eq!(kept[0].details.as_deref(), Some("The FDA sealed the club."));
    assert!(kept[0].city.is_none() && kept[0].violations.is_empty());
}

#[test]
fn signals_follow_their_priority() {
    assert_eq!(action_signal("an improvement notice and a seal"), Some(ActionType::ImprovementNotice));
    assert_eq!(action_signal("licence suspended"), Some(ActionType::LicenceSuspension));
    assert_eq!(action_signal("license was suspended"), Some(ActionType::LicenceSuspension));
    assert_eq!(action_signal("closure order issued"), Some(ActionType::StopBusiness));
    assert_eq!(action_signal("fda shut down the unit"), Some(ActionType::StopBusiness));
    assert_eq!(action_signal("kitchen sealed"), Some(ActionType::Sealing));
    assert_eq!(action_signal("stock seized"), Some(ActionType::Seizure));
    assert_eq!(action_signal("outlet reopens"), Some(ActionType::Reopened));
    assert_eq!(action_signal("surprise raid"), Some(ActionType::Inspection));
    assert_eq!(action_signal("monsoon update"), None);
}

#[test]
fn relevance_needs_a_signal_and_an_enforcement_word() {
    let mut it = mk("Restaurant reopens after renovation");
    assert!(!is_likely_relevant(&it));
    it.source = Some("FDA Watch".into());
    assert_eq!(haystack(&it), "restaurant reopens after renovation  fda watch");
    assert!(is_likely_relevant(&it));
    let items = vec![mk("FDA raid at dhaba"), mk("weather"), mk("Bakery SEALED by FDA")];
    assert_eq!(relevant_indices(&items), vec![0, 2]);
}

#[test]
fn text_limits() {
    assert_eq!(truncate("abcdef", 3), "abc…");
    assert_eq!(truncate("abc", 3), "abc");
    assert_eq!(clamp("  héllo wörld ".into(), 5), "héllo");
    let mut f = Some("  x  ".to_string());
    clamp_opt(&mut f, 10);
    assert_eq!(f.as_deref(), Some("x"));
    let mut none: Option<String> = None;
    clamp_opt(&mut none, 10);
    assert!(none.is_none());
}

#[test]
fn sanitize_bounds_every_field() {
    let mut a = action(&format!("  {}  ", "n".repeat(250)), ActionType::Seizure, 0);
    a.city = Some("  Mumbai ".into());
    a.violations = (0..8).map(|i| if i == 1 { "   ".to_string() } else { format!(" v{i} ") }).collect();
    a.platforms = vec![" Zomato ".into(), "".into(), "SWIGGY".into()];
    let s = sanitize_action(a);
    assert_eq!(s.establishment.chars().count(), 200);
    assert_eq!(s.city.as_deref(), Some("Mumbai"));
    assert_eq!(s.violations, vec!["v0", "v2", "v3", "v4", "v5"]);
    assert_eq!(s.platforms, vec!["zomato", "swiggy"]);
}

#[test]
fn kept_platform_names_are_their_own_lower_case() {
    let mut a = action("Cafe", ActionType::Sealing, 0);
    a.platforms = vec![" ZoMaTo ".into(), "Swiggy Instamart".into(), "ÜBER EATS".into(), "  ".into()];
    let s = sanitize_action(a);
    assert_eq!(s.platforms, vec!["zomato", "swiggy instamart", "über eats"]);
    for p in &s.platforms {
        assert!(!p.is_empty());
        assert_eq!(p, &p.to_lowercase());
    }
}

#[test]
fn system_prompt_appends_delivery_mode() {
    assert_eq!(system_prompt("base.", " delivery.", true), "base. delivery.");
    assert_eq!(system_prompt("base.", " delivery.", false), "base.");
}

#[test]
fn plan_batches_relevant_items_by_twenty() {
    let mut items: Vec<NewsItem> = Vec::new();
    for i in 0..45 {
        items.push(mk(if i % 3 == 0 { "weather" } else { "FDA raid" }));
    }
    let plan = extraction_plan(&items);
    assert_eq!(plan.len(), 2);
    assert_eq!(plan[0].len(), 20);
    assert_eq!(plan[1].len(), 10);
    assert_eq!(plan[0][0], 1);
    assert_eq!(plan[1][9], 44);
    let batch = batch_items(&items, &plan[1]);
    assert_eq!(batch.len(), 10);
    assert_eq!(batch[9].title, "FDA raid");
}

#[test]
fn remapping_points_records_at_the_full_list() {
    let batch = vec![
        action("A", ActionType::Inspection, 1),
        action("B", ActionType::Inspection, 5),
    ];
    let out = remap_batch(&batch, &[10, 20]);
    assert_eq!(out.len(), 1);
    assert_eq!(out[0].establishment, "A");
    assert_eq!(out[0].source_index, 20);
}

#[test]
fn finalize_drops_blank_names_and_repeats() {
    let out = finalize_actions(vec![
        action("Otters Club", ActionType::Sealing, 0),
        action("OTTERS CLUB", ActionType::Sealing, 0),
        action("Otters Club", ActionType::Seizure, 0),
        action("Otters Club", ActionType::Sealing, 1),
        action("   ", ActionType::Sealing, 2),
    ]);
    let names: Vec<(&str, usize)> =
        out.iter().map(|a| (a.establishment.as_str(), a.source_index)).collect();
    assert_eq!(names, vec![("Otters Club", 0), ("Otters Club", 0), ("Otters Club", 1)]);
    assert_eq!(out[1].action_type, ActionType::Seizure);
}

#[test]
fn empty_items_skip_llm() {
    let plan = extraction_plan(&[]);
    assert!(plan.is_empty());
    let actions = collect_extractions(&[], &plan, &Vec::new()).unwrap();
    assert!(actions.is_empty());
}

#[test]
fn failed_batches_fall_back_to_rules_or_fail_the_run() {
    let items = vec![mk("Otters Club sealed by FDA"), mk("FDA raid")];
    let plan = vec![vec![0usize], vec![1usize]];
    // one batch answered, one failed with a usable headline
    let results = vec![Some(vec![action("Domino's", ActionType::Inspection, 0)]), None];
    let out = collect_extractions(&items, &plan, &results).unwrap();
    assert_eq!(out.len(), 2);
    assert_eq!(out[0].establishment, "Domino's");
    assert_eq!(out[1].source_index, 1);
    assert_eq!(out[1].establishment, "FDA raid");
    assert!(out.iter().all(|a| a.source_index < items.len()));
    // every batch failed and the rules keep nothing
    let blank = vec![mk(" | FDA raid")];
    let err = collect_extractions(&blank, &vec![vec![0usize]], &vec![None]).unwrap_err();
    assert_eq!(err, ExtractError::AllBatchesFailed(1));
}

#[test]
fn all_calls_failed_keeps_one_rule_record_per_item() {
    let items = vec![
        mk("Otters Club sealed by FDA"),
        mk("weather"),
        mk(" | FDA raid"),
        mk("Bakery licence suspended: FDA"),
        mk("Dhaba raided by FDA - Pune"),
    ];
    let plan = extraction_plan(&items);
    assert_eq!(plan, vec![vec![0, 2, 3, 4]]);
    let out = collect_extractions(&items, &plan, &vec![None]).unwrap();
    let got: Vec<(usize, ActionType)> = out.iter().map(|a| (a.source_index, a.action_type)).collect();
    assert_eq!(
        got,
        vec![(0, ActionType::Sealing), (3, ActionType::LicenceSuspension), (4, ActionType::Inspection)]
    );
    for a in &out {
        assert!(is_likely_relevant(&items[a.source_index]));
        assert_eq!(Some(a.action_type), action_signal(&haystack(&items[a.source_index])));
    }
}

#[test]
fn tagged_fences_give_back_their_body() {
    assert_eq!(strip_code_fences("```json\n  {\"groups\": []}\n\n```"), "{\"groups\": []}");
    assert_eq!(strip_code_fences("```text\n```"), "");
}
