use serde_json::Value;

use fda_mumbai_tracker::dupes::{collapse_reply, dupe_records};
use fda_mumbai_tracker::db::{ActionInsert, RecentEvent};
use fda_mumbai_tracker::json::Json;
use fda_mumbai_tracker::models::{ActionType, Date, LlmAction};
use fda_mumbai_tracker::records::action_from_json;
use fda_mumbai_tracker::reply::{
    actions_from_json, drops_from_groups, gemini_step, groups_from_json, model_reply,
    openrouter_fallbacks, openrouter_step, parse_groups, parse_llm_text, response_text,
    retry_delay_hints, retry_delay_hints_in, GeminiStep, ModelReply, OpenRouterFailure,
    OpenRouterStep, ReplyError, Then,
};

fn to_json(v: &Value) -> Json {
    match v {
        Value::Null => Json::Null,
        Value::Bool(b) => Json::Bool(*b),
        Value::Number(n) => {
            if let Some(u) = n.as_u64() {
                Json::UInt(u)
            } else if let Some(i) = n.as_i64() {
                Json::NegInt(i)
            } else {
                Json::Float(n.to_string())
            }
        }
        Value::String(s) => Json::Str(s.clone()),
        Value::Array(a) => Json::Array(a.iter().map(to_json).collect()),
        Value::Object(m) => Json::Object(m.iter().map(|(k, v)| (k.clone(), to_json(v))).collect()),
    }
}

fn json(text: &str) -> Json {
    to_json(&serde_json::from_str::<Value>(text).unwrap())
}

fn actions(text: &str) -> Vec<LlmAction> {
    parse_llm_text(text).unwrap().unwrap()
}

fn delay_from_body(text: &str) -> Option<u64> {
    retry_delay_hints_in(text)
        .iter()
        .find_map(|num| num.parse::<f64>().ok().map(|secs| secs.ceil().max(1.0) as u64))
}

fn candidate_body(text: &str) -> Json {
    Json::Object(vec![(
        "candidates".into(),
        Json::Array(vec![Json::Object(vec![(
            "content".into(),
            Json::Object(vec![(
                "parts".into(),
                Json::Array(vec![Json::Object(vec![("text".into(), Json::Str(text.into()))])]),
            )]),
        )])]),
    )])
}

#[test]
fn parses_minimal_action() {
    let body = candidate_body(
        "[{\"establishment\":\"Domino's\",\"actionType\":\"licence_suspension\",\"sourceIndex\":0}]",
    );
    let actions = actions(&response_text(&body));
    assert_eq!(actions.len(), 1);
    assert_eq!(actions[0].establishment, "Domino's");
    assert_eq!(actions[0].action_type, ActionType::LicenceSuspension);
}

#[test]
fn accepts_snake_case_keys() {
    let body = candidate_body(
        "[{\"establishment\":\"X\",\"action_type\":\"inspection\",\"source_index\":0}]",
    );
    let actions = actions(&response_text(&body));
    assert_eq!(actions.len(), 1);
    assert_eq!(actions[0].action_type, ActionType::Inspection);
}

#[test]
fn tolerates_null_arrays() {
    let body = candidate_body(
        "[{\"establishment\":\"X\",\"actionType\":\"sealing\",\"violations\":null,\"platforms\":null,\"source_index\":0}]",
    );
    let actions = actions(&response_text(&body));
    assert_eq!(actions.len(), 1);
    assert!(actions[0].violations.is_empty());
    assert!(actions[0].platforms.is_empty());
}

#[test]
fn drops_unknown_action_type() {
    let body = candidate_body(
        "[{\"establishment\":\"X\",\"actionType\":\"bogus\",\"sourceIndex\":0}]",
    );
    assert_eq!(actions(&response_text(&body)).len(), 0);
}

#[test]
fn empty_parts_yield_empty_text() {
    let body = json(r#"{"candidates": [{"finishReason": "MAX_TOKENS", "content": {"parts": []}}]}"#);
    assert_eq!(response_text(&body), "");
    assert!(response_text(&json("{}")).is_empty());
}

#[test]
fn reply_text_joins_every_part() {
    let body = json(
        r#"{"candidates": [{"content": {"parts": [{"text": "[{\"a\":"}, {"thought": true}, {"text": "1}]"}]}}, {"content": {"parts": [{"text": "ignored"}]}}]}"#,
    );
    assert_eq!(response_text(&body), "[{\"a\":1}]");
}

#[test]
fn parses_fenced_text() {
    let text = "```json\n[{\"establishment\":\"X\",\"actionType\":\"inspection\",\"source_index\":0}]\n```";
    let actions = actions(text);
    assert_eq!(actions.len(), 1);
    assert_eq!(actions[0].establishment, "X");
}

#[test]
fn reply_shapes() {
    let wrapped = json(r#"{"actions": [{"establishment":"Y","actionType":"seizure"}]}"#);
    let actions = actions_from_json(&wrapped).unwrap();
    assert_eq!(actions[0].establishment, "Y");
    assert_eq!(actions[0].source_index, 0);
    assert_eq!(actions_from_json(&json(r#"{"records": []}"#)).unwrap_err(), ReplyError::MissingActions);
    assert_eq!(actions_from_json(&json(r#"{"actions": 3}"#)).unwrap_err(), ReplyError::MissingActions);
    assert_eq!(actions_from_json(&json("\"text\"")).unwrap_err(), ReplyError::UnexpectedShape);
}

#[test]
fn record_fields_decode_as_serde_would() {
    let full = json(
        r#"{"establishment":"Z","area":"Bandra","city":null,"brand":"B","operator":"Op","outletType":"hotel","actionType":{"stop_business":null},"action_date":"2026-01-02","violations":["a","b"],"complianceScore":-3,"fssai_number":"123","details":"d","platforms":["zomato"],"sourceIndex":4}"#,
    );
    let a = action_from_json(&full).unwrap();
    assert_eq!(a.area.as_deref(), Some("Bandra"));
    assert!(a.city.is_none());
    assert_eq!(a.outlet_type.as_deref(), Some("hotel"));
    assert_eq!(a.action_type, ActionType::StopBusiness);
    assert_eq!(a.action_date.as_deref(), Some("2026-01-02"));
    assert_eq!(a.violations, vec!["a", "b"]);
    assert_eq!(a.compliance_score, Some(-3));
    assert_eq!(a.fssai_number.as_deref(), Some("123"));
    assert_eq!(a.platforms, vec!["zomato"]);
    assert_eq!(a.source_index, 4);
    // a missing name, a score that is not an i32, or a list with a non-string fails
    assert!(action_from_json(&json(r#"{"actionType":"sealing"}"#)).is_none());
    assert!(action_from_json(&json(r#"{"establishment":"Z","actionType":"sealing","complianceScore":5000000000}"#)).is_none());
    assert!(action_from_json(&json(r#"{"establishment":"Z","actionType":"sealing","violations":[1]}"#)).is_none());
    assert!(action_from_json(&json(r#"{"establishment":"Z","actionType":"sealing","sourceIndex":-1}"#)).is_none());
}

#[test]
fn retry_delay_reads_gemini_retry_info() {
    let body = r#"{"error": {"details": [{"@type": "type.googleapis.com/google.rpc.RetryInfo", "retryDelay": "58s"}]}}"#;
    assert_eq!(delay_from_body(body), Some(58));
    let frac = r#"{"error": {"details": [{"retryDelay": "6.13s"}]}}"#;
    assert_eq!(delay_from_body(frac), Some(7));
    assert_eq!(delay_from_body("not json"), None);
}

#[test]
fn retry_hints_take_leading_numbers() {
    let body = json(r#"{"error": {"details": [{"x": 1}, {"retryDelay": 5}, {"retryDelay": "12.5s"}, {"retryDelay": "s"}]}}"#);
    assert_eq!(retry_delay_hints(&body), vec!["12.5", ""]);
    assert!(retry_delay_hints(&json(r#"{"error": {}}"#)).is_empty());
}

#[test]
fn parses_group_response_shapes() {
    assert_eq!(
        parse_groups(r#"{"groups": [["N0","N2"], ["K1","N5"]]}"#).unwrap().unwrap(),
        vec![
            vec!["N0".to_string(), "N2".to_string()],
            vec!["K1".to_string(), "N5".to_string()]
        ]
    );
    assert_eq!(
        parse_groups("```json\n{\"groups\": []}\n```").unwrap().unwrap(),
        Vec::<Vec<String>>::new()
    );
    assert!(parse_groups("no json").is_none());
    assert_eq!(parse_groups(r#"{"actions": []}"#).unwrap().unwrap_err(), ReplyError::MissingGroups);
}

#[test]
fn groups_skip_non_arrays_and_empty_groups() {
    let gs = groups_from_json(&json(r#"{"groups": [["N1", 3, "K0"], "N4", [], [7]]}"#)).unwrap();
    assert_eq!(gs, vec![vec!["N1".to_string(), "K0".to_string()]]);
    assert_eq!(groups_from_json(&json(r#"{"groups": {}}"#)).unwrap_err(), ReplyError::MissingGroups);
}

#[test]
fn drops_rereports_keeps_one_per_event() {
    // pure new-vs-new group: keep lowest index
    assert_eq!(
        drops_from_groups(&[vec!["N3".into(), "N1".into(), "N7".into()]], 10, 10),
        vec![3, 7]
    );
    // group touching a known row: every new id is a re-report
    assert_eq!(
        drops_from_groups(&[vec!["K4".into(), "N2".into()]], 10, 10),
        vec![2]
    );
    // junk ids and out-of-range indices are ignored
    assert!(drops_from_groups(&[vec!["N9".into(), "bogus".into()]], 3, 3).is_empty());
    assert!(drops_from_groups(&[], 3, 3).is_empty());
}

#[test]
fn drops_merge_groups_in_increasing_order() {
    let groups = vec![
        vec!["N5".to_string(), "N+2".to_string(), "N2".to_string()],
        vec!["K0".to_string(), "N1".to_string(), "N05".to_string()],
    ];
    assert_eq!(drops_from_groups(&groups, 10, 1), vec![1, 5]);
    // ids that name no stored event shown are ignored
    let unknown = vec![vec!["Kx".to_string(), "N0".to_string(), "N1".to_string()]];
    assert_eq!(drops_from_groups(&unknown, 2, 5), vec![1]);
    let beyond = vec![vec!["K5".to_string(), "N0".to_string(), "N1".to_string()]];
    assert_eq!(drops_from_groups(&beyond, 2, 5), vec![1]);
    assert_eq!(drops_from_groups(&beyond, 2, 6), vec![0, 1]);
}

fn insert_row(name: &str, days: i64) -> ActionInsert {
    ActionInsert {
        establishment: name.into(),
        area: Some("Bandra".into()),
        city: Some("Mumbai".into()),
        brand: None,
        operator: None,
        outlet_type: None,
        action_type: "sealing".into(),
        action_date: Date { days },
        violations: vec![],
        compliance_score: None,
        fssai_number: None,
        details: None,
        platforms: vec![],
        source_url: "https://a.test/1".into(),
        source_publisher: None,
        source_headline: None,
        published_at: None,
    }
}

#[test]
fn dupe_ids_round_trip_through_groups() {
    let rows: Vec<ActionInsert> = (0..12).map(|i| insert_row(&format!("Outlet {i}"), 700_000)).collect();
    let recent = vec![RecentEvent {
        establishment: "Otters Club".into(),
        action_type: "sealing".into(),
        action_date: Date { days: 699_998 },
        city: None,
        area: None,
    }];
    let (news, known) = dupe_records(&rows, &recent);
    assert_eq!(news.len(), 12);
    assert_eq!(news[0].id, "N0");
    assert_eq!(news[11].id, "N11");
    assert_eq!(news[11].establishment, "Outlet 11");
    assert_eq!(news[3].city.as_deref(), Some("Mumbai"));
    assert_eq!(known[0].id, "K0");
    assert_eq!(known[0].action_date, Date { days: 699_998 });
    let groups = vec![vec![news[11].id.clone(), known[0].id.clone()]];
    assert_eq!(drops_from_groups(&groups, rows.len(), recent.len()), vec![11]);
}

#[test]
fn dupe_reply_is_best_effort() {
    let ok = ModelReply::Success(Some(candidate_body("```json\n{\"groups\": [[\"N1\",\"N0\"]]}\n```")));
    assert_eq!(collapse_reply(&ok, 2, 0), Some(vec![1]));
    let no_groups = ModelReply::Success(Some(candidate_body("[]")));
    assert!(collapse_reply(&no_groups, 2, 0).is_none());
    let not_json = ModelReply::Success(Some(candidate_body("groups: N1")));
    assert!(collapse_reply(&not_json, 2, 0).is_none());
    assert!(collapse_reply(&ModelReply::Success(Some(candidate_body("  "))), 2, 0).is_none());
    assert!(collapse_reply(&ModelReply::Success(None), 2, 0).is_none());
    assert!(collapse_reply(&ModelReply::Failure { status: 500, text: "x".into() }, 2, 0).is_none());
    assert!(collapse_reply(&ModelReply::SendFailed, 2, 0).is_none());
}

#[test]
fn replies_are_read_from_text() {
    assert!(matches!(model_reply(200, "{\"a\": 1}"), ModelReply::Success(Some(_))));
    assert!(matches!(model_reply(204, "not json"), ModelReply::Success(None)));
    assert!(matches!(model_reply(503, "busy"), ModelReply::Failure { status: 503, ref text } if text == "busy"));
    assert!(parse_llm_text("not json").is_none());
    assert_eq!(parse_llm_text("3").unwrap().unwrap_err(), ReplyError::UnexpectedShape);
    assert_eq!(parse_llm_text("```\n[]\n```").unwrap().unwrap().len(), 0);
    assert!(retry_delay_hints_in("<html>").is_empty());
}

#[test]
fn gemini_steps() {
    let ok = ModelReply::Success(Some(candidate_body("[]")));
    assert!(matches!(gemini_step(0, &ok), GeminiStep::Parse(t) if t == "[]"));
    let blank = ModelReply::Success(Some(candidate_body(" \n")));
    assert!(matches!(gemini_step(0, &blank), GeminiStep::Backoff(Then::CallAgain)));
    assert!(matches!(gemini_step(5, &blank), GeminiStep::Backoff(Then::Stop)));
    assert!(matches!(gemini_step(0, &ModelReply::Success(None)), GeminiStep::BadBody));
    assert!(matches!(gemini_step(4, &ModelReply::SendFailed), GeminiStep::Backoff(Then::CallAgain)));
    let busy = ModelReply::Failure { status: 503, text: "high demand".into() };
    assert!(matches!(gemini_step(0, &busy), GeminiStep::RateLimited(Then::CallAgain)));
    assert!(matches!(gemini_step(5, &busy), GeminiStep::RateLimited(Then::Stop)));
    let spent = ModelReply::Failure { status: 429, text: "RESOURCE_EXHAUSTED".into() };
    assert!(matches!(gemini_step(0, &spent), GeminiStep::UseFallback));
    let bad = ModelReply::Failure { status: 400, text: "Quota exceeded".into() };
    assert!(matches!(gemini_step(0, &bad), GeminiStep::Fail));
}

#[test]
fn openrouter_steps() {
    let ok = ModelReply::Success(Some(json(r#"{"choices": [{"message": {"content": "[]"}}]}"#)));
    assert!(matches!(openrouter_step(0, &ok, 32768), OpenRouterStep::Parse(t) if t == "[]"));
    let empty = ModelReply::Success(Some(json(r#"{"choices": []}"#)));
    assert!(matches!(openrouter_step(0, &empty, 32768), OpenRouterStep::NoText));
    let guard = ModelReply::Failure { status: 404, text: "privacy".into() };
    assert!(matches!(
        openrouter_step(0, &guard, 32768),
        OpenRouterStep::Fail(OpenRouterFailure::NonRetryable)
    ));
    let broke = ModelReply::Failure { status: 402, text: "Insufficient credits".into() };
    assert!(matches!(
        openrouter_step(0, &broke, 32768),
        OpenRouterStep::Fail(OpenRouterFailure::NoCredits)
    ));
    let low = ModelReply::Failure { status: 402, text: "balance".into() };
    assert!(matches!(openrouter_step(0, &low, 32768), OpenRouterStep::LowerMaxTokens(16384)));
    assert!(matches!(
        openrouter_step(2, &low, 32768),
        OpenRouterStep::Fail(OpenRouterFailure::Exhausted)
    ));
    assert!(matches!(
        openrouter_step(0, &low, 8192),
        OpenRouterStep::Fail(OpenRouterFailure::LowBalance)
    ));
    let busy = ModelReply::Failure { status: 429, text: String::new() };
    assert!(matches!(openrouter_step(1, &busy, 32768), OpenRouterStep::RateLimited(Then::CallAgain)));
    assert!(matches!(openrouter_step(2, &busy, 32768), OpenRouterStep::RateLimited(Then::Stop)));
    assert!(matches!(openrouter_step(0, &ModelReply::SendFailed, 32768), OpenRouterStep::Backoff(Then::CallAgain)));
}

#[test]
fn openrouter_fallback_lists() {
    assert_eq!(
        openrouter_fallbacks(None, "z-ai/glm-5.2:free"),
        vec!["cohere/north-mini-code:free", "nvidia/nemotron-3-super-120b-a12b:free"]
    );
    assert_eq!(
        openrouter_fallbacks(Some(" a , ,b,m "), "m"),
        vec!["a", "b"]
    );
    assert!(openrouter_fallbacks(Some(""), "m").is_empty());
}

/// Field by field, a record decodes exactly when serde reads the field's value as the
/// field's type.
#[test]
fn record_fields_decode_as_serde_reads_their_types() {
    let samples = [
        "null", "0", "7", "-3", "5000000000", "-5000000000", "1.5", "\"text\"", "[]",
        "[\"a\",\"b\"]", "[1]", "{}", "true",
    ];
    for v in samples {
        let value: Value = serde_json::from_str(v).unwrap();
        let with = |field: &str| {
            json(&format!(
                r#"{{"establishment":"X","actionType":"sealing","{field}":{v}}}"#
            ))
        };
        let text_ok = serde_json::from_value::<Option<String>>(value.clone()).is_ok();
        for field in ["area", "city", "brand", "operator", "outletType", "actionDate", "fssaiNumber", "details"] {
            assert_eq!(action_from_json(&with(field)).is_some(), text_ok, "{field} = {v}");
        }
        let list_ok = serde_json::from_value::<Option<Vec<String>>>(value.clone()).is_ok();
        for field in ["violations", "platforms"] {
            assert_eq!(action_from_json(&with(field)).is_some(), list_ok, "{field} = {v}");
        }
        let score = serde_json::from_value::<Option<i32>>(value.clone());
        let decoded = action_from_json(&with("complianceScore"));
        assert_eq!(decoded.is_some(), score.is_ok(), "complianceScore = {v}");
        if let (Some(a), Ok(s)) = (decoded, score) {
            assert_eq!(a.compliance_score, s);
        }
        let index = serde_json::from_value::<usize>(value.clone());
        let decoded = action_from_json(&with("sourceIndex"));
        assert_eq!(decoded.is_some(), index.is_ok(), "sourceIndex = {v}");
        if let (Some(a), Ok(i)) = (decoded, index) {
            assert_eq!(a.source_index, i);
        }
        let name_ok = serde_json::from_value::<String>(value.clone()).is_ok();
        let named = json(&format!(r#"{{"establishment":{v},"actionType":"sealing"}}"#));
        assert_eq!(action_from_json(&named).is_some(), name_ok, "establishment = {v}");
    }
}
