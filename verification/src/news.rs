//! Finding news: the Google News search feeds, the items a feed lists, the text of an
//! article page, and the choice of which fetched articles go on to extraction.
use vstd::prelude::*;

use crate::models::{opt_chars, NewsItem, NewsRecord};
use crate::text::{chars_of, concat_chars, string_of, trim, trim_chars};

verus! {

/// The user agent sent with every request.
pub const USER_AGENT: &'static str = "Mozilla/5.0 (compatible; fda-mumbai-tracker/0.1; news aggregator)";

/// How many articles one run passes on to extraction.
pub const MAX_ITEMS: usize = 50;

/// A byte that URL encoding leaves as it is: an ASCII letter or digit, `-`, `.`, `_` or `~`.
pub open spec fn unreserved(b: u8) -> bool {
    ||| 48 <= b <= 57
    ||| 65 <= b <= 90
    ||| 97 <= b <= 122
    ||| b == 45
    ||| b == 46
    ||| b == 95
    ||| b == 126
}

/// The upper-case hexadecimal digit for `d` in 0..16.
pub open spec fn hex_digit(d: int) -> char {
    if d < 10 {
        (48 + d) as char
    } else {
        (55 + d) as char
    }
}

/// A byte as URL encoding writes it: itself when unreserved, else `%` and two upper-case
/// hexadecimal digits.
pub open spec fn escaped_byte(b: u8) -> Seq<char> {
    if unreserved(b) {
        seq![b as char]
    } else {
        seq!['%', hex_digit(b as int / 16), hex_digit(b as int % 16)]
    }
}

/// The URL encoding of `bytes`, byte by byte.
pub open spec fn percent_encoded(bytes: Seq<u8>) -> Seq<char>
    decreases bytes.len(),
{
    if bytes.len() == 0 {
        seq![]
    } else {
        percent_encoded(bytes.drop_last()) + escaped_byte(bytes.last())
    }
}

/// Calls `urlencoding::encode`, which percent-encodes every byte of the UTF-8 text
/// except ASCII letters, digits, `-`, `.`, `_` and `~`, with upper-case hex digits.
#[verifier::external_body]
fn url_encode(s: &str) -> (r: String)
    ensures
        r@ == percent_encoded(vstd::utf8::encode_utf8(s@)),
{
    urlencoding::encode(s).into_owned()
}

/// The text searched for: the query, then the time window after a space when there is one.
pub open spec fn search_text(query: Seq<char>, window: Seq<char>) -> Seq<char> {
    if window.len() == 0 {
        query
    } else {
        query + seq![' '] + window
    }
}

/// The Google News RSS search address for a query and a time window.
pub open spec fn news_url(query: Seq<char>, window: Seq<char>) -> Seq<char> {
    "https://news.google.com/rss/search?q="@ + percent_encoded(
        vstd::utf8::encode_utf8(search_text(query, window)),
    ) + "&hl=en-IN&gl=IN&ceid=IN:en"@
}

/// The Google News RSS search address for `query` restricted to `window` (such as
/// `when:1d`), in English for India.
pub fn google_news_url(query: &str, window: &str) -> (r: String)
    ensures
        r@ == news_url(query@, window@),
{
    let q = if window.is_empty() {
        query.to_string()
    } else {
        let with_space = concat_chars(chars_of(query).as_slice(), &[' ']);
        string_of(concat_chars(with_space.as_slice(), chars_of(window).as_slice()).as_slice())
    };
    assert(q@ == search_text(query@, window@));
    let encoded = url_encode(q.as_str());
    let head = chars_of("https://news.google.com/rss/search?q=");
    let tail = chars_of("&hl=en-IN&gl=IN&ceid=IN:en");
    let front = concat_chars(head.as_slice(), chars_of(encoded.as_str()).as_slice());
    string_of(concat_chars(front.as_slice(), tail.as_slice()).as_slice())
}

/// The searches run on every scrape.
pub open spec fn query_list() -> Seq<Seq<char>> {
    seq![
        "\"Maharashtra FDA\""@,
        "\"Maharashtra Food and Drug Administration\""@,
        "\"FDA Mumbai\""@,
        "\"Tukaram Mundhe\""@,
        "\"Maharashtra FDA\" licence suspended"@,
        "\"Maharashtra FDA\" licence cancelled"@,
        "\"Maharashtra FDA\" seal"@,
        "\"Maharashtra FDA\" seizure"@,
        "\"Maharashtra FDA\" raid"@,
        "\"Maharashtra FDA\" restaurant hygiene"@,
        "\"Maharashtra FDA\" hotel dhaba eatery"@,
        "\"Maharashtra FDA\" \"improvement notice\""@,
        "\"Maharashtra FDA\" expired cockroach"@,
        "\"Maharashtra FDA\" milk adulteration"@,
        "\"Maharashtra FDA\" chain restaurant"@,
        "Dominos OR \"Pizza Hut\" OR \"Burger King\" FDA Maharashtra"@,
        "KFC OR McDonalds OR Starbucks FDA licence Maharashtra"@,
        "Blinkit OR Zepto OR \"Swiggy Instamart\" FDA licence suspended"@,
        "Zomato OR Swiggy \"cloud kitchen\" FDA"@,
        "\"Maharashtra FDA\" Mumbai food safety"@,
        "\"Maharashtra FDA\" Pune"@,
        "\"Maharashtra FDA\" Nashik OR Thane OR Nagpur OR Aurangabad"@,
        "\"licence suspended\" \"Safe Food\" Maharashtra restaurant"@,
        "\"Maharashtra FDA\" prosecution"@,
        "\"Food Safety and Standards\" Maharashtra raid licence"@,
        "site:x.com \"Maharashtra FDA\""@,
        "site:twitter.com \"Maharashtra FDA\""@,
        "site:x.com \"Maharashtra FDA\" raid OR licence OR suspend"@,
        "site:x.com FDA Mumbai raid"@,
        "site:x.com \"Tukaram Mundhe\""@,
        "site:x.com Mumbai restaurant FDA hygiene"@,
        "site:x.com Blinkit OR Zepto OR Instamart FDA"@,
    ]
}

/// The views of a sequence of string slices.
pub open spec fn str_views(v: Seq<&str>) -> Seq<Seq<char>> {
    v.map_values(|s: &str| s@)
}

/// The searches run on every scrape, in order.
pub fn search_queries() -> (r: Vec<&'static str>)
    ensures
        str_views(r@) == query_list(),
{
    let r = vec![
        "\"Maharashtra FDA\"",
        "\"Maharashtra Food and Drug Administration\"",
        "\"FDA Mumbai\"",
        "\"Tukaram Mundhe\"",
        "\"Maharashtra FDA\" licence suspended",
        "\"Maharashtra FDA\" licence cancelled",
        "\"Maharashtra FDA\" seal",
        "\"Maharashtra FDA\" seizure",
        "\"Maharashtra FDA\" raid",
        "\"Maharashtra FDA\" restaurant hygiene",
        "\"Maharashtra FDA\" hotel dhaba eatery",
        "\"Maharashtra FDA\" \"improvement notice\"",
        "\"Maharashtra FDA\" expired cockroach",
        "\"Maharashtra FDA\" milk adulteration",
        "\"Maharashtra FDA\" chain restaurant",
        "Dominos OR \"Pizza Hut\" OR \"Burger King\" FDA Maharashtra",
        "KFC OR McDonalds OR Starbucks FDA licence Maharashtra",
        "Blinkit OR Zepto OR \"Swiggy Instamart\" FDA licence suspended",
        "Zomato OR Swiggy \"cloud kitchen\" FDA",
        "\"Maharashtra FDA\" Mumbai food safety",
        "\"Maharashtra FDA\" Pune",
        "\"Maharashtra FDA\" Nashik OR Thane OR Nagpur OR Aurangabad",
        "\"licence suspended\" \"Safe Food\" Maharashtra restaurant",
        "\"Maharashtra FDA\" prosecution",
        "\"Food Safety and Standards\" Maharashtra raid licence",
        "site:x.com \"Maharashtra FDA\"",
        "site:twitter.com \"Maharashtra FDA\"",
        "site:x.com \"Maharashtra FDA\" raid OR licence OR suspend",
        "site:x.com FDA Mumbai raid",
        "site:x.com \"Tukaram Mundhe\"",
        "site:x.com Mumbai restaurant FDA hygiene",
        "site:x.com Blinkit OR Zepto OR Instamart FDA",
    ];
    assert(str_views(r@) =~= query_list());
    r
}

/// One entry of an RSS feed, as the feed gives it.
#[derive(Debug)]
pub struct FeedEntry {
    pub title: Option<String>,
    pub link: Option<String>,
    pub pub_date: Option<String>,
    /// The title of the entry's `source` element.
    pub source_title: Option<String>,
}

/// The content of a feed entry.
pub struct EntryView {
    pub title: Option<Seq<char>>,
    pub link: Option<Seq<char>>,
    pub pub_date: Option<Seq<char>>,
    pub source_title: Option<Seq<char>>,
}

impl View for FeedEntry {
    type V = EntryView;

    open spec fn view(&self) -> EntryView {
        EntryView {
            title: opt_chars(self.title),
            link: opt_chars(self.link),
            pub_date: opt_chars(self.pub_date),
            source_title: opt_chars(self.source_title),
        }
    }
}

/// The views of a sequence of feed entries.
pub open spec fn entry_views(v: Seq<FeedEntry>) -> Seq<EntryView> {
    v.map_values(|e: FeedEntry| e@)
}

/// The entries that `rss::Channel::read_from` reads from the bytes of an RSS document, or
/// `None` when it refuses them.
pub uninterp spec fn rss_entries(bytes: Seq<u8>) -> Option<Seq<EntryView>>;

/// Calls `rss::Channel::read_from` on `bytes` and lists the title, link, publication date
/// and source title of each item of the channel; the result is named by `rss_entries`.
#[verifier::external_body]
fn read_feed(bytes: &[u8]) -> (r: Option<Vec<FeedEntry>>)
    ensures
        match r {
            Some(v) => rss_entries(bytes@) == Some(entry_views(v@)),
            None => rss_entries(bytes@) is None,
        },
{
    let channel = rss::Channel::read_from(bytes).ok()?;
    Some(channel.into_items().iter().map(|it| FeedEntry {
        title: it.title().map(String::from),
        link: it.link().map(String::from),
        pub_date: it.pub_date().map(String::from),
        source_title: it.source().and_then(|s| s.title()).map(String::from),
    }).collect())
}

/// The instant, in seconds since the Unix epoch, that
/// `chrono::DateTime::parse_from_rfc2822` reads from `s`, or `None` when it refuses `s`.
pub uninterp spec fn rfc2822_seconds(s: Seq<char>) -> Option<i64>;

/// Calls `chrono::DateTime::parse_from_rfc2822` and gives the instant as seconds since the
/// Unix epoch; the result is named by `rfc2822_seconds`.
#[verifier::external_body]
fn parse_rfc2822(s: &str) -> (r: Option<i64>)
    ensures
        r == rfc2822_seconds(s@),
{
    chrono::DateTime::parse_from_rfc2822(s).ok().map(|d| d.timestamp())
}

/// The news item of a feed entry: its title and link trimmed, both required to be
/// non-blank; its source title; and its publication date when that reads as RFC 2822.
pub open spec fn entry_item(e: EntryView) -> Option<NewsRecord> {
    match (e.title, e.link) {
        (Some(t), Some(l)) => if trim(t).len() > 0 && trim(l).len() > 0 {
            Some(
                NewsRecord {
                    title: trim(t),
                    url: trim(l),
                    source: e.source_title,
                    published: match e.pub_date {
                        Some(d) => rfc2822_seconds(d),
                        None => None,
                    },
                    snippet: None,
                },
            )
        } else {
            None
        },
        _ => None,
    }
}

/// The news items of a feed's entries, in order.
pub open spec fn entry_items(es: Seq<EntryView>) -> Seq<NewsRecord>
    decreases es.len(),
{
    if es.len() == 0 {
        seq![]
    } else {
        let before = entry_items(es.drop_last());
        match entry_item(es.last()) {
            Some(it) => before.push(it),
            None => before,
        }
    }
}

/// The views of a sequence of news items.
pub open spec fn news_views(v: Seq<NewsItem>) -> Seq<NewsRecord> {
    v.map_values(|i: NewsItem| i@)
}

/// The news item of one feed entry, if it has a title and a link.
fn entry_news(e: &FeedEntry) -> (r: Option<NewsItem>)
    ensures
        match r {
            Some(it) => entry_item(e@) == Some(it@),
            None => entry_item(e@) is None,
        },
{
    let title = match &e.title {
        Some(t) => string_of(trim_chars(chars_of(t.as_str()).as_slice()).as_slice()),
        None => return None,
    };
    let link = match &e.link {
        Some(l) => string_of(trim_chars(chars_of(l.as_str()).as_slice()).as_slice()),
        None => return None,
    };
    if title.as_str().is_empty() || link.as_str().is_empty() {
        return None;
    }
    let published = match &e.pub_date {
        Some(d) => parse_rfc2822(d.as_str()),
        None => None,
    };
    Some(
        NewsItem {
            title,
            url: link,
            source: crate::models::copy_opt(&e.source_title),
            published,
            snippet: None,
        },
    )
}

/// The news items of a feed: entries without a non-blank title or link are skipped;
/// title and link are trimmed, the publication date is read as RFC 2822 (and dropped
/// when it does not read), and no item has a snippet yet.
pub fn feed_items(entries: &[FeedEntry]) -> (r: Vec<NewsItem>)
    ensures
        news_views(r@) == entry_items(entry_views(entries@)),
{
    let ghost es = entry_views(entries@);
    let mut out: Vec<NewsItem> = Vec::new();
    let mut i: usize = 0;
    assert(es.take(0) =~= seq![]);
    assert(news_views(out@) =~= seq![]);
    while i < entries.len()
        invariant
            i <= entries@.len(),
            es == entry_views(entries@),
            news_views(out@) == entry_items(es.take(i as int)),
        decreases entries@.len() - i,
    {
        assert(es.take(i + 1).drop_last() =~= es.take(i as int));
        assert(es.take(i + 1).last() == entries@[i as int]@);
        match entry_news(&entries[i]) {
            Some(it) => {
                let ghost before = news_views(out@);
                out.push(it);
                assert(news_views(out@) =~= before.push(it@));
            },
            None => {},
        }
        i = i + 1;
    }
    assert(es.take(entries@.len() as int) =~= es);
    out
}

/// The news items of an RSS document, or `None` when it does not read as RSS.
pub fn parse_feed(bytes: &[u8]) -> (r: Option<Vec<NewsItem>>)
    ensures
        match rss_entries(bytes@) {
            Some(es) => r matches Some(v) && news_views(v@) == entry_items(es),
            None => r is None,
        },
{
    match read_feed(bytes) {
        Some(entries) => Some(feed_items(entries.as_slice())),
        None => None,
    }
}

/// The value of the attribute `attr` of the first element of the HTML `document` that
/// matches the CSS `selector`, as the `scraper` crate finds it; `None` when no element
/// matches, the element lacks the attribute, or the selector does not parse.
pub uninterp spec fn html_first_attr(document: Seq<char>, selector: Seq<char>, attr: Seq<char>) -> Option<Seq<char>>;

/// Parses `document` with `scraper::Html::parse_document` and reads the attribute `attr` of
/// the first element that `scraper::Selector` `selector` selects; the result is named by
/// `html_first_attr`.
#[verifier::external_body]
fn first_attr(document: &str, selector: &str, attr: &str) -> (r: Option<String>)
    ensures
        opt_chars(r) == html_first_attr(document@, selector@, attr@),
{
    let html = scraper::Html::parse_document(document);
    let sel = scraper::Selector::parse(selector).ok()?;
    let found = html.select(&sel).next()?.value().attr(attr).map(String::from);
    found
}

/// The text of the first element of the HTML `document` that matches the CSS `selector`
/// (its descendant text nodes joined), as the `scraper` crate finds it; `None` when no
/// element matches or the selector does not parse.
pub uninterp spec fn html_first_text(document: Seq<char>, selector: Seq<char>) -> Option<Seq<char>>;

/// Parses `document` with `scraper::Html::parse_document` and joins the text nodes of the
/// first element that `selector` selects; the result is named by `html_first_text`.
#[verifier::external_body]
fn first_text(document: &str, selector: &str) -> (r: Option<String>)
    ensures
        opt_chars(r) == html_first_text(document@, selector@),
{
    let html = scraper::Html::parse_document(document);
    let sel = scraper::Selector::parse(selector).ok()?;
    let found = html.select(&sel).next().map(|e| e.text().collect::<String>());
    found
}

/// The texts of all elements of the HTML `document` that match the CSS `selector`, in
/// document order, as the `scraper` crate finds them; empty when the selector does not
/// parse.
pub uninterp spec fn html_texts(document: Seq<char>, selector: Seq<char>) -> Seq<Seq<char>>;

/// Parses `document` with `scraper::Html::parse_document` and joins the text nodes of
/// each element that `selector` selects; the result is named by `html_texts`.
#[verifier::external_body]
fn all_texts(document: &str, selector: &str) -> (r: Vec<String>)
    ensures
        crate::models::strs(r@) == html_texts(document@, selector@),
{
    let html = scraper::Html::parse_document(document);
    match scraper::Selector::parse(selector) {
        Ok(sel) => html.select(&sel).map(|e| e.text().collect::<String>()).collect(),
        Err(_) => Vec::new(),
    }
}

/// The trimmed text, when there is text and it is not blank.
pub open spec fn nonblank(o: Option<Seq<char>>) -> Option<Seq<char>> {
    match o {
        Some(s) => if trim(s).len() > 0 {
            Some(trim(s))
        } else {
            None
        },
        None => None,
    }
}

/// A page's title: the `og:title` content, else the `title` text, else the first `h1`
/// text, each trimmed and used only when not blank.
pub open spec fn page_title(
    og: Option<Seq<char>>,
    title: Option<Seq<char>>,
    h1: Option<Seq<char>>,
) -> Option<Seq<char>> {
    if nonblank(og) is Some {
        nonblank(og)
    } else if nonblank(title) is Some {
        nonblank(title)
    } else {
        nonblank(h1)
    }
}

/// The paragraphs long enough to carry content: trimmed, at least 40 bytes.
pub open spec fn long_paragraphs(ps: Seq<Seq<char>>) -> Seq<Seq<char>>
    decreases ps.len(),
{
    if ps.len() == 0 {
        seq![]
    } else {
        let before = long_paragraphs(ps.drop_last());
        if crate::text::byte_len(trim(ps.last())) >= 40 {
            before.push(trim(ps.last()))
        } else {
            before
        }
    }
}

/// The snippet made of a title and paragraphs: nothing when there is neither; else the
/// title, a line break when both are there, the paragraphs joined by spaces, all cut to
/// 2500 characters.
pub open spec fn snippet_text(title: Option<Seq<char>>, paras: Seq<Seq<char>>) -> Option<
    Seq<char>,
> {
    if title is None && paras.len() == 0 {
        None
    } else {
        let head = match title {
            Some(t) => t,
            None => seq![],
        };
        let body = if paras.len() == 0 {
            head
        } else if head.len() == 0 {
            crate::events::join_words(paras)
        } else {
            head + seq!['\n'] + crate::events::join_words(paras)
        };
        Some(
            if body.len() > 2500 {
                body.take(2500)
            } else {
                body
            },
        )
    }
}

/// The snippet of a page from its `og:title` content, `title` text, first `h1` text and
/// paragraph texts: the page title and the first eight long paragraphs.
pub open spec fn page_snippet(
    og: Option<Seq<char>>,
    title: Option<Seq<char>>,
    h1: Option<Seq<char>>,
    paras: Seq<Seq<char>>,
) -> Option<Seq<char>> {
    snippet_text(page_title(og, title, h1), crate::llm::at_most(long_paragraphs(paras), 8))
}

/// The trimmed text of `o`, when it is not blank.
fn nonblank_text(o: Option<String>) -> (r: Option<String>)
    ensures
        opt_chars(r) == nonblank(opt_chars(o)),
{
    match o {
        Some(s) => {
            let t = string_of(trim_chars(chars_of(s.as_str()).as_slice()).as_slice());
            if t.as_str().is_empty() {
                None
            } else {
                Some(t)
            }
        },
        None => None,
    }
}

/// The first eight long paragraphs of `paras`, trimmed.
fn first_long_paragraphs(paras: &Vec<String>) -> (r: Vec<String>)
    ensures
        crate::models::strs(r@) == crate::llm::at_most(
            long_paragraphs(crate::models::strs(paras@)),
            8,
        ),
{
    let ghost ps = crate::models::strs(paras@);
    let mut out: Vec<String> = Vec::new();
    let mut i: usize = 0;
    assert(ps.take(0) =~= seq![]);
    assert(crate::models::strs(out@) =~= seq![]);
    while i < paras.len()
        invariant
            i <= paras@.len(),
            ps == crate::models::strs(paras@),
            crate::models::strs(out@) == long_paragraphs(ps.take(i as int)),
        decreases paras@.len() - i,
    {
        assert(ps.take(i + 1).drop_last() =~= ps.take(i as int));
        assert(ps.take(i + 1).last() == paras@[i as int]@);
        let t = string_of(trim_chars(chars_of(paras[i].as_str()).as_slice()).as_slice());
        if crate::text::utf8_len(t.as_str()) >= 40 {
            let ghost before = crate::models::strs(out@);
            out.push(t);
            assert(crate::models::strs(out@) =~= before.push(t@));
        }
        i = i + 1;
    }
    assert(ps.take(paras@.len() as int) =~= ps);
    let mut r: Vec<String> = Vec::new();
    let mut k: usize = 0;
    let ghost all = crate::models::strs(out@);
    let n: usize = if out.len() > 8 {
        8
    } else {
        out.len()
    };
    while k < n
        invariant
            k <= n <= out@.len(),
            n == if out@.len() > 8 {
                8
            } else {
                out@.len()
            },
            all == crate::models::strs(out@),
            crate::models::strs(r@) == all.take(k as int),
        decreases n - k,
    {
        let ghost prev = crate::models::strs(r@);
        let c = out[k].clone();
        assert(c@ == all[k as int]);
        r.push(c);
        assert(crate::models::strs(r@) =~= prev.push(c@));
        assert(all.take(k + 1) =~= all.take(k as int).push(all[k as int]));
        k = k + 1;
    }
    assert(crate::models::strs(r@) =~= crate::llm::at_most(all, 8));
    r
}

/// The paragraphs joined by single spaces.
fn join_spaces(ps: &Vec<String>) -> (r: Vec<char>)
    ensures
        r@ == crate::events::join_words(crate::models::strs(ps@)),
{
    let ghost ws = crate::models::strs(ps@);
    let mut out: Vec<char> = Vec::new();
    let mut i: usize = 0;
    assert(ws.take(0) =~= seq![]);
    while i < ps.len()
        invariant
            i <= ps@.len(),
            ws == crate::models::strs(ps@),
            out@ == crate::events::join_words(ws.take(i as int)),
        decreases ps@.len() - i,
    {
        let w = chars_of(ps[i].as_str());
        assert(ws.take(i + 1).drop_last() =~= ws.take(i as int));
        assert(ws.take(i + 1).last() == w@);
        if i == 0 {
            out = w;
            assert(ws.take(1) =~= seq![w@]);
        } else {
            let spaced = concat_chars(out.as_slice(), &[' ']);
            out = concat_chars(spaced.as_slice(), w.as_slice());
        }
        i = i + 1;
    }
    assert(ws.take(ps@.len() as int) =~= ws);
    out
}

/// The snippet made of a chosen title and the chosen paragraphs.
fn snippet_body(title: Option<String>, paras: &Vec<String>) -> (r: Option<String>)
    ensures
        opt_chars(r) == snippet_text(opt_chars(title), crate::models::strs(paras@)),
{
    if title.is_none() && paras.len() == 0 {
        return None;
    }
    let head: Vec<char> = match &title {
        Some(t) => chars_of(t.as_str()),
        None => Vec::new(),
    };
    let body: Vec<char> = if paras.len() == 0 {
        head
    } else {
        let joined = join_spaces(paras);
        if head.len() == 0 {
            joined
        } else {
            let with_break = concat_chars(head.as_slice(), &['\n']);
            concat_chars(with_break.as_slice(), joined.as_slice())
        }
    };
    let cut = if body.len() > 2500 {
        crate::text::take_chars(body.as_slice(), 2500)
    } else {
        body
    };
    Some(string_of(cut.as_slice()))
}

/// The snippet of a page, given its `og:title` content, `title` text, first `h1` text and
/// paragraph texts: the first of the three titles that is not blank, trimmed, then a line
/// break and the first eight trimmed paragraphs of at least 40 bytes joined by spaces,
/// cut to 2500 characters; nothing when there is neither a title nor such a paragraph.
pub fn snippet_from_parts(
    og: Option<String>,
    title: Option<String>,
    h1: Option<String>,
    paras: &Vec<String>,
) -> (r: Option<String>)
    ensures
        opt_chars(r) == page_snippet(
            opt_chars(og),
            opt_chars(title),
            opt_chars(h1),
            crate::models::strs(paras@),
        ),
{
    let chosen = match nonblank_text(og) {
        Some(t) => Some(t),
        None => match nonblank_text(title) {
            Some(t) => Some(t),
            None => nonblank_text(h1),
        },
    };
    let kept = first_long_paragraphs(paras);
    snippet_body(chosen, &kept)
}

/// The snippet of an HTML article page: its title (the `og:title` meta content, else the
/// `title` element, else the first `h1`) and its first eight paragraphs of at least 40
/// bytes, cut to 2500 characters; `None` when the page has neither.
pub fn extract_snippet(document: &str) -> (r: Option<String>)
    ensures
        opt_chars(r) == page_snippet(
            html_first_attr(document@, "meta[property='og:title']"@, "content"@),
            html_first_text(document@, "title"@),
            html_first_text(document@, "h1"@),
            html_texts(document@, "p"@),
        ),
{
    let og = first_attr(document, "meta[property='og:title']", "content");
    let ghost og_v = opt_chars(og);
    let title = match nonblank_text(og) {
        Some(t) => Some(t),
        None => match nonblank_text(first_text(document, "title")) {
            Some(t) => Some(t),
            None => nonblank_text(first_text(document, "h1")),
        },
    };
    assert(opt_chars(title) == page_title(
        og_v,
        html_first_text(document@, "title"@),
        html_first_text(document@, "h1"@),
    ));
    let paras = all_texts(document, "p");
    let kept = first_long_paragraphs(&paras);
    snippet_body(title, &kept)
}

/// How fetching one article page ended.
#[derive(Debug)]
pub enum ArticleFetch {
    /// The page came back: the address it ended at after redirects, and its snippet.
    Fetched { final_url: String, snippet: Option<String> },
    /// The page could not be fetched.
    Failed,
}

/// The content of an article fetch.
pub enum FetchView {
    Fetched { final_url: Seq<char>, snippet: Option<Seq<char>> },
    Failed,
}

impl View for ArticleFetch {
    type V = FetchView;

    open spec fn view(&self) -> FetchView {
        match self {
            ArticleFetch::Fetched { final_url, snippet } => FetchView::Fetched {
                final_url: final_url@,
                snippet: opt_chars(*snippet),
            },
            ArticleFetch::Failed => FetchView::Failed,
        }
    }
}

/// The views of a sequence of article fetches.
pub open spec fn fetch_views(v: Seq<ArticleFetch>) -> Seq<FetchView> {
    v.map_values(|f: ArticleFetch| f@)
}

/// Some item of `out` has the address `u`.
pub open spec fn has_url(out: Seq<NewsRecord>, u: Seq<char>) -> bool {
    exists|j: int| 0 <= j < out.len() && (#[trigger] out[j]).url == u
}

/// The items that survive fetching, in order: a fetched item takes the address it ended
/// at and the page's snippet; an item whose fetch failed keeps its address and, when it
/// has no snippet, uses its title as one; either way an item is dropped when its address
/// was already seen in an earlier run or taken by an earlier item of this run.
pub open spec fn fresh_items(
    items: Seq<NewsRecord>,
    fetched: Seq<FetchView>,
    seen: Seq<Seq<char>>,
) -> Seq<NewsRecord>
    decreases items.len(),
{
    if items.len() == 0 {
        seq![]
    } else {
        let before = fresh_items(items.drop_last(), fetched, seen);
        let it = items.last();
        match fetched[items.len() - 1] {
            FetchView::Fetched { final_url, snippet } => if has_url(before, final_url)
                || seen.contains(final_url) {
                before
            } else {
                before.push(NewsRecord { url: final_url, snippet, ..it })
            },
            FetchView::Failed => if has_url(before, it.url) || seen.contains(it.url) {
                before
            } else {
                before.push(
                    NewsRecord {
                        snippet: if it.snippet is None {
                            Some(it.title)
                        } else {
                            it.snippet
                        },
                        ..it
                    },
                )
            },
        }
    }
}

/// Publication time `a` is later than `b`; an unknown time is earlier than any known one.
pub open spec fn later(a: Option<i64>, b: Option<i64>) -> bool {
    match (a, b) {
        (Some(x), Some(y)) => x > y,
        (Some(_), None) => true,
        _ => false,
    }
}

/// Item `i` of `s` comes before item `j` when sorting newest first and keeping the
/// order they came in among items published at the same time.
pub open spec fn ranks_before(s: Seq<NewsRecord>, i: int, j: int) -> bool {
    ||| later(s[i].published, s[j].published)
    ||| (s[i].published == s[j].published && i < j)
}

/// `order` lists the positions of `s` newest first, ties in the order they came in.
pub open spec fn newest_first(s: Seq<NewsRecord>, order: Seq<int>) -> bool {
    &&& order.len() == s.len()
    &&& forall|k: int| 0 <= k < order.len() ==> 0 <= #[trigger] order[k] < s.len()
    &&& forall|a: int, b: int|
        0 <= a < b < order.len() ==> ranks_before(s, #[trigger] order[a], #[trigger] order[b])
}

/// Whether `seen` lists `u`.
fn listed(seen: &[String], u: &String) -> (r: bool)
    ensures
        r == crate::models::strs(seen@).contains(u@),
{
    let ghost ss = crate::models::strs(seen@);
    let mut k: usize = 0;
    while k < seen.len()
        invariant
            k <= seen@.len(),
            ss == crate::models::strs(seen@),
            forall|q: int| 0 <= q < k ==> ss[q] != u@,
        decreases seen@.len() - k,
    {
        if crate::text::str_eq(seen[k].as_str(), u.as_str()) {
            assert(ss[k as int] == u@);
            return true;
        }
        k = k + 1;
    }
    false
}

/// Whether an item of `out` has the address `u`.
fn taken(out: &Vec<NewsItem>, u: &String) -> (r: bool)
    ensures
        r == has_url(news_views(out@), u@),
{
    let ghost os = news_views(out@);
    let mut k: usize = 0;
    while k < out.len()
        invariant
            k <= out@.len(),
            os == news_views(out@),
            forall|q: int| 0 <= q < k ==> (#[trigger] os[q]).url != u@,
        decreases out@.len() - k,
    {
        if crate::text::str_eq(out[k].url.as_str(), u.as_str()) {
            assert(os[k as int].url == u@);
            return true;
        }
        k = k + 1;
    }
    false
}

/// The items that survive fetching, before sorting.
fn keep_fresh(items: &Vec<NewsItem>, fetched: &[ArticleFetch], seen: &[String]) -> (r: Vec<NewsItem>)
    requires
        fetched@.len() == items@.len(),
    ensures
        news_views(r@) == fresh_items(
            news_views(items@),
            fetch_views(fetched@),
            crate::models::strs(seen@),
        ),
{
    let ghost its = news_views(items@);
    let ghost fs = fetch_views(fetched@);
    let ghost ss = crate::models::strs(seen@);
    let mut out: Vec<NewsItem> = Vec::new();
    let mut i: usize = 0;
    assert(its.take(0) =~= seq![]);
    assert(news_views(out@) =~= seq![]);
    while i < items.len()
        invariant
            i <= items@.len() == fetched@.len(),
            its == news_views(items@),
            fs == fetch_views(fetched@),
            ss == crate::models::strs(seen@),
            news_views(out@) == fresh_items(its.take(i as int), fs, ss),
        decreases items@.len() - i,
    {
        let ghost pre = its.take(i as int);
        let ghost cur = its.take(i + 1);
        assert(cur.drop_last() =~= pre);
        assert(cur.last() == items@[i as int]@);
        assert(fs[cur.len() - 1] == fetched@[i as int]@);
        let ghost before = news_views(out@);
        let it = &items[i];
        match &fetched[i] {
            ArticleFetch::Fetched { final_url, snippet } => {
                if !taken(&out, final_url) && !listed(seen, final_url) {
                    let n = NewsItem {
                        title: it.title.clone(),
                        url: final_url.clone(),
                        source: crate::models::copy_opt(&it.source),
                        published: it.published,
                        snippet: crate::models::copy_opt(snippet),
                    };
                    out.push(n);
                    assert(news_views(out@) =~= before.push(n@));
                }
            },
            ArticleFetch::Failed => {
                if !taken(&out, &it.url) && !listed(seen, &it.url) {
                    let snippet = match &it.snippet {
                        Some(s) => Some(s.clone()),
                        None => Some(it.title.clone()),
                    };
                    let n = NewsItem {
                        title: it.title.clone(),
                        url: it.url.clone(),
                        source: crate::models::copy_opt(&it.source),
                        published: it.published,
                        snippet,
                    };
                    out.push(n);
                    assert(news_views(out@) =~= before.push(n@));
                }
            },
        }
        i = i + 1;
    }
    assert(its.take(items@.len() as int) =~= its);
    out
}

/// Whether publication time `a` is later than `b`.
fn is_later(a: Option<i64>, b: Option<i64>) -> (r: bool)
    ensures
        r == later(a, b),
{
    match (a, b) {
        (Some(x), Some(y)) => x > y,
        (Some(_), None) => true,
        _ => false,
    }
}

/// The positions of `out` newest first, ties in the order they came in.
fn newest_first_order(out: &Vec<NewsItem>) -> (r: Vec<usize>)
    ensures
        newest_first(news_views(out@), positions_of(r@)),
{
    let ghost s = news_views(out@);
    let mut order: Vec<usize> = Vec::new();
    let mut i: usize = 0;
    while i < out.len()
        invariant
            i <= out@.len(),
            s == news_views(out@),
            order@.len() == i,
            forall|k: int| 0 <= k < order@.len() ==> #[trigger] order@[k] < i,
            forall|a: int, b: int|
                0 <= a < b < order@.len() ==> ranks_before(
                    s,
                    #[trigger] order@[a] as int,
                    #[trigger] order@[b] as int,
                ),
        decreases out@.len() - i,
    {
        let key = out[i].published;
        let mut p: usize = 0;
        while p < order.len() && !is_later(key, out[order[p]].published)
            invariant
                p <= order@.len() == i,
                i < out@.len(),
                s == news_views(out@),
                key == s[i as int].published,
                forall|k: int| 0 <= k < order@.len() ==> #[trigger] order@[k] < i,
                forall|a: int| 0 <= a < p ==> !later(key, s[#[trigger] order@[a] as int].published),
            decreases order@.len() - p,
        {
            p = p + 1;
        }
        let ghost old_order = order@;
        proof {
            if p < old_order.len() {
                assert(later(key, s[old_order[p as int] as int].published));
            }
        }
        order.insert(p, i);
        proof {
            assert(order@ == old_order.insert(p as int, i));
            assert forall|a: int, b: int| 0 <= a < b < order@.len() implies ranks_before(
                s,
                #[trigger] order@[a] as int,
                #[trigger] order@[b] as int,
            ) by {
                if b < p {
                    assert(order@[a] == old_order[a] && order@[b] == old_order[b]);
                } else if b == p {
                    assert(order@[a] == old_order[a]);
                    assert(!later(key, s[old_order[a] as int].published));
                } else if a == p {
                    assert(order@[b] == old_order[b - 1]);
                    let m = old_order[p as int] as int;
                    let z = old_order[b - 1] as int;
                    assert(later(key, s[m].published));
                    if b - 1 > p {
                        assert(ranks_before(s, m, z));
                    }
                } else if a < p {
                    assert(order@[a] == old_order[a] && order@[b] == old_order[b - 1]);
                } else {
                    assert(order@[a] == old_order[a - 1] && order@[b] == old_order[b - 1]);
                }
            }
        }
        i = i + 1;
    }
    order
}

/// The views of a sequence of positions, as integers.
pub open spec fn positions_of(v: Seq<usize>) -> Seq<int> {
    v.map_values(|p: usize| p as int)
}

/// Chooses the articles passed on to extraction, given the outcome of fetching each of
/// `items` in order: items whose address (after redirects, when the page came back) was
/// seen in an earlier run or is taken by an earlier item are dropped; a fetched item
/// takes the page's snippet and a failed one falls back to its title; the survivors are
/// sorted newest first (items without a date last, ties in the order they came in) and
/// cut to `max_items`, so that no surviving item left out is later than one kept.
pub fn enrich(
    items: Vec<NewsItem>,
    fetched: &[ArticleFetch],
    seen: &[String],
    max_items: usize,
) -> (r: Vec<NewsItem>)
    requires
        fetched@.len() == items@.len(),
    ensures
        ({
            let fresh = fresh_items(
                news_views(items@),
                fetch_views(fetched@),
                crate::models::strs(seen@),
            );
            &&& r@.len() == if fresh.len() < max_items {
                fresh.len() as int
            } else {
                max_items as int
            }
            &&& exists|order: Seq<int>|
                newest_first(fresh, order) && (forall|k: int|
                    0 <= k < r@.len() ==> (#[trigger] r@[k])@ == fresh[order[k]]) && (forall|
                    a: int,
                    b: int,
                |
                    0 <= a < r@.len() <= b < fresh.len() ==> !later(
                        fresh[#[trigger] order[b]].published,
                        (#[trigger] r@[a])@.published,
                    ))
        }),
{
    let out = keep_fresh(&items, fetched, seen);
    let order = newest_first_order(&out);
    let ghost fresh = news_views(out@);
    let n: usize = if out.len() < max_items {
        out.len()
    } else {
        max_items
    };
    let mut r: Vec<NewsItem> = Vec::new();
    let mut k: usize = 0;
    while k < n
        invariant
            k <= n <= out@.len() == order@.len(),
            fresh == news_views(out@),
            newest_first(fresh, positions_of(order@)),
            r@.len() == k,
            forall|q: int| 0 <= q < k ==> (#[trigger] r@[q])@ == fresh[order@[q] as int],
        decreases n - k,
    {
        assert(positions_of(order@)[k as int] == order@[k as int] as int);
        let c = out[order[k]].copy();
        r.push(c);
        k = k + 1;
    }
    let ghost ord = positions_of(order@);
    assert(forall|q: int| 0 <= q < r@.len() ==> (#[trigger] r@[q])@ == fresh[ord[q]]);
    assert forall|a: int, b: int| 0 <= a < r@.len() <= b < fresh.len() implies !later(
        fresh[#[trigger] ord[b]].published,
        (#[trigger] r@[a])@.published,
    ) by {
        assert(ranks_before(fresh, ord[a], ord[b]));
        assert(r@[a]@ == fresh[ord[a]]);
    }
    r
}

/// Of the chosen articles, no two share an address and none has an address seen in an
/// earlier run.
pub proof fn fresh_items_are_new(
    items: Seq<NewsRecord>,
    fetched: Seq<FetchView>,
    seen: Seq<Seq<char>>,
)
    ensures
        forall|a: int, b: int|
            0 <= a < b < fresh_items(items, fetched, seen).len() ==> (#[trigger] fresh_items(
                items,
                fetched,
                seen,
            )[a]).url != (#[trigger] fresh_items(items, fetched, seen)[b]).url,
        forall|a: int|
            0 <= a < fresh_items(items, fetched, seen).len() ==> !seen.contains(
                (#[trigger] fresh_items(items, fetched, seen)[a]).url,
            ),
    decreases items.len(),
{
    if items.len() > 0 {
        let init = items.drop_last();
        fresh_items_are_new(init, fetched, seen);
        let before = fresh_items(init, fetched, seen);
        let all = fresh_items(items, fetched, seen);
        if all != before {
            assert forall|a: int, b: int| 0 <= a < b < all.len() implies (#[trigger] all[a]).url
                != (#[trigger] all[b]).url by {
                if b == all.len() - 1 {
                    assert(all[a] == before[a]);
                    assert(!has_url(before, all[b].url));
                } else {
                    assert(all[a] == before[a] && all[b] == before[b]);
                }
            }
            assert forall|a: int| 0 <= a < all.len() implies !seen.contains(
                (#[trigger] all[a]).url,
            ) by {
                if a < before.len() {
                    assert(all[a] == before[a]);
                }
            }
        }
    }
}

} // verus!
