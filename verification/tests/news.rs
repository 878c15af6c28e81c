use fda_mumbai_tracker::models::NewsItem;
use fda_mumbai_tracker::news::{
    enrich, extract_snippet, feed_items, google_news_url, parse_feed, search_queries,
    snippet_from_parts, ArticleFetch, FeedEntry, MAX_ITEMS, USER_AGENT,
};

#[test]
fn news_url_percent_encodes_the_query_and_window() {
    assert_eq!(
        google_news_url("\"Maharashtra FDA\"", "when:1d"),
        "https://news.google.com/rss/search?q=%22Maharashtra%20FDA%22%20when%3A1d&hl=en-IN&gl=IN&ceid=IN:en"
    );
    assert_eq!(
        google_news_url("a-b_c.d~e", ""),
        "https://news.google.com/rss/search?q=a-b_c.d~e&hl=en-IN&gl=IN&ceid=IN:en"
    );
    assert_eq!(
        google_news_url("ठाणे", ""),
        "https://news.google.com/rss/search?q=%E0%A4%A0%E0%A4%BE%E0%A4%A3%E0%A5%87&hl=en-IN&gl=IN&ceid=IN:en"
    );
}

#[test]
fn search_queries_cover_the_fixed_list() {
    let q = search_queries();
    assert_eq!(q.len(), 32);
    assert_eq!(q[0], "\"Maharashtra FDA\"");
    assert_eq!(q[31], "site:x.com Blinkit OR Zepto OR Instamart FDA");
    assert_eq!(MAX_ITEMS, 50);
    assert!(USER_AGENT.contains("fda-mumbai-tracker"));
}

const FEED: &str = r#"<?xml version="1.0"?>
<rss version="2.0"><channel><title>t</title><link>https://news.test</link><description>d</description>
<item><title> Otters Club sealed </title><link> https://n.test/1 </link><pubDate>Tue, 11 Aug 2026 10:00:00 GMT</pubDate><source url="https://mid-day.com">Mid-Day</source></item>
<item><title>   </title><link>https://n.test/2</link></item>
<item><title>No link</title></item>
<item><title>Bad date</title><link>https://n.test/3</link><pubDate>yesterday</pubDate></item>
</channel></rss>"#;

#[test]
fn feeds_list_items_with_title_and_link() {
    let items = parse_feed(FEED.as_bytes()).unwrap();
    assert_eq!(items.len(), 2);
    assert_eq!(items[0].title, "Otters Club sealed");
    assert_eq!(items[0].url, "https://n.test/1");
    assert_eq!(items[0].published, Some(1_786_442_400));
    assert_eq!(items[0].source.as_deref(), Some("Mid-Day"));
    assert!(items[0].snippet.is_none());
    assert_eq!(items[1].title, "Bad date");
    assert!(items[1].published.is_none());
    assert!(items[1].source.is_none());
    assert!(parse_feed(b"<html></html>").is_none());
}

#[test]
fn feed_entries_need_a_non_blank_title_and_link() {
    let entries = vec![
        FeedEntry {
            title: Some("T".into()),
            link: Some("  ".into()),
            pub_date: None,
            source_title: None,
        },
        FeedEntry {
            title: Some(" T ".into()),
            link: Some(" L ".into()),
            pub_date: Some("Wed, 12 Aug 2026 00:00:00 +0530".into()),
            source_title: Some(" S ".into()),
        },
    ];
    let items = feed_items(&entries);
    assert_eq!(items.len(), 1);
    assert_eq!(items[0].title, "T");
    assert_eq!(items[0].url, "L");
    assert_eq!(items[0].source.as_deref(), Some(" S "));
    // midnight in India is 18:30 the day before in UTC
    assert_eq!(items[0].published, Some(1_786_473_000));
}

const PAGE: &str = r#"<html><head><title> Page Title </title><meta property="og:title" content="  OG Title "></head>
<body><h1>Heading</h1><p>short</p><p>  This paragraph is definitely longer than forty bytes.  </p>
<p>Another paragraph that is well over the <b>forty</b> byte bar.</p></body></html>"#;

#[test]
fn snippets_take_title_and_long_paragraphs() {
    assert_eq!(
        extract_snippet(PAGE).as_deref(),
        Some("OG Title\nThis paragraph is definitely longer than forty bytes. Another paragraph that is well over the forty byte bar.")
    );
    let no_og = PAGE.replace("  OG Title ", "  ");
    assert!(extract_snippet(&no_og).unwrap().starts_with("Page Title\n"));
    assert_eq!(
        extract_snippet("<html><body><h1> Only heading </h1><p>tiny</p></body></html>").as_deref(),
        Some("Only heading")
    );
    assert!(extract_snippet("<html><body><p>tiny</p></body></html>").is_none());
}

#[test]
fn snippets_keep_eight_paragraphs_and_2500_characters() {
    let paras: Vec<String> =
        (0..10).map(|i| format!("paragraph number {i} with enough text to count here")).collect();
    let s = snippet_from_parts(None, None, None, &paras).unwrap();
    assert!(s.contains("number 7 "));
    assert!(!s.contains("number 8 "));
    let long = vec!["é".repeat(3000)];
    let s = snippet_from_parts(Some("T".into()), None, None, &long).unwrap();
    assert_eq!(s.chars().count(), 2500);
    assert!(s.starts_with("T\né"));
    assert_eq!(snippet_from_parts(Some(" ".into()), None, Some(" H ".into()), &vec![]).as_deref(), Some("H"));
}

fn news(title: &str, url: &str, published: Option<i64>) -> NewsItem {
    NewsItem { title: title.into(), url: url.into(), source: None, published, snippet: None }
}

#[test]
fn enrich_dedups_and_sorts_newest_first() {
    let items = vec![
        news("A", "u1", Some(100)),
        news("B", "u2", Some(300)),
        news("C", "u3", None),
        news("D", "seen", Some(900)),
        news("E", "u5", Some(300)),
        news("F", "u6", None),
    ];
    let fetched = vec![
        ArticleFetch::Fetched { final_url: "f1".into(), snippet: Some("s1".into()) },
        ArticleFetch::Failed,
        ArticleFetch::Fetched { final_url: "f1".into(), snippet: None },
        ArticleFetch::Failed,
        ArticleFetch::Fetched { final_url: "f5".into(), snippet: None },
        ArticleFetch::Failed,
    ];
    let seen = vec!["seen".to_string()];
    let out = enrich(items.clone(), &fetched, &seen, 10);
    let titles: Vec<&str> = out.iter().map(|i| i.title.as_str()).collect();
    assert_eq!(titles, vec!["B", "E", "A", "F"]);
    assert_eq!(out[0].snippet.as_deref(), Some("B"));
    assert_eq!(out[1].url, "f5");
    assert!(out[1].snippet.is_none());
    assert_eq!(out[2].url, "f1");
    assert_eq!(out[2].snippet.as_deref(), Some("s1"));
    let cut = enrich(items, &fetched, &seen, 2);
    assert_eq!(cut.len(), 2);
    assert_eq!(cut[1].title, "E");
}
