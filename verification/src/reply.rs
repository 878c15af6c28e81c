//! Reading model replies: the text of a Gemini reply, the records or duplicate groups
//! in it, the retry hints in an error reply, and what each HTTP outcome leads to.
use vstd::prelude::*;

use crate::json::{get_opt, json_array, json_document, json_get, json_str, parse_json, Json};
use crate::llm::{first_index, quota_exhausted, strip_code_fences, unfenced};
use crate::models::{opt_chars, strs};
use crate::records::{action_from_json, decode_action};
use crate::text::{chars_of, contains, contains_str, string_of, trim};

verus! {

/// Why a reply's JSON could not be used.
#[derive(Debug, Clone, Copy, PartialEq, Eq, Structural)]
pub enum ReplyError {
    /// The reply is neither an array of records nor an object holding one.
    UnexpectedShape,
    /// The reply is an object without an `actions` array.
    MissingActions,
    /// The reply has no `groups` array.
    MissingGroups,
}

/// The first element of `j` when it is a non-empty array.
pub open spec fn first_of(j: Option<Json>) -> Option<Json> {
    match j {
        Some(v) => match json_array(v) {
            Some(a) => if a.len() > 0 {
                Some(a[0])
            } else {
                None
            },
            None => None,
        },
        None => None,
    }
}

/// The text members of `parts`, concatenated; parts without one add nothing.
pub open spec fn part_texts(parts: Seq<Json>) -> Seq<char>
    decreases parts.len(),
{
    if parts.len() == 0 {
        seq![]
    } else {
        part_texts(parts.drop_last()) + match get_opt(Some(parts.last()), "text"@) {
            Some(t) => match json_str(t) {
                Some(s) => s,
                None => seq![],
            },
            None => seq![],
        }
    }
}

/// The text of a Gemini reply: the texts of the parts of the first candidate's content,
/// concatenated, or nothing when the reply does not have that shape.
pub open spec fn reply_text(body: Json) -> Seq<char> {
    match get_opt(get_opt(first_of(json_get(body, "candidates"@)), "content"@), "parts"@) {
        Some(p) => match json_array(p) {
            Some(parts) => part_texts(parts),
            None => seq![],
        },
        None => seq![],
    }
}

/// The text of a Gemini reply body.
pub fn response_text(body: &Json) -> (r: String)
    ensures
        r@ == reply_text(*body),
{
    let candidates = match body.get("candidates") {
        Some(c) => c,
        None => return String::new(),
    };
    let first = match candidates.as_array() {
        Some(a) => if a.len() > 0 {
            &a[0]
        } else {
            return String::new();
        },
        None => return String::new(),
    };
    let content = match first.get("content") {
        Some(c) => c,
        None => return String::new(),
    };
    let parts = match content.get("parts") {
        Some(p) => match p.as_array() {
            Some(a) => a,
            None => return String::new(),
        },
        None => return String::new(),
    };
    let mut out: Vec<char> = Vec::new();
    let mut i: usize = 0;
    assert(parts@.take(0) =~= seq![]);
    while i < parts.len()
        invariant
            i <= parts@.len(),
            out@ == part_texts(parts@.take(i as int)),
        decreases parts@.len() - i,
    {
        assert(parts@.take(i + 1).drop_last() =~= parts@.take(i as int));
        assert(parts@.take(i + 1).last() == parts@[i as int]);
        match parts[i].get("text") {
            Some(t) => match t.as_str() {
                Some(s) => {
                    let cs = chars_of(s.as_str());
                    out = crate::text::concat_chars(out.as_slice(), cs.as_slice());
                },
                None => {
                    assert(out@ + seq![] =~= out@);
                },
            },
            None => {
                assert(out@ + seq![] =~= out@);
            },
        }
        i = i + 1;
    }
    assert(parts@.take(parts@.len() as int) =~= parts@);
    string_of(out.as_slice())
}

/// The records among `items` that decode, in order.
pub open spec fn decoded_all(items: Seq<Json>) -> Seq<crate::models::ActionRecord>
    decreases items.len(),
{
    if items.len() == 0 {
        seq![]
    } else {
        decoded_all(items.drop_last()) + match decode_action(items.last()) {
            Some(a) => seq![a],
            None => seq![],
        }
    }
}

/// The records a reply holds: the decodable elements of a top-level array, or of the
/// `actions` array of a top-level object.
pub open spec fn reply_records(j: Json) -> Result<Seq<crate::models::ActionRecord>, ReplyError> {
    match j {
        Json::Array(items) => Ok(decoded_all(items@)),
        Json::Object(_) => match get_opt(Some(j), "actions"@) {
            Some(a) => match json_array(a) {
                Some(items) => Ok(decoded_all(items)),
                None => Err(ReplyError::MissingActions),
            },
            None => Err(ReplyError::MissingActions),
        },
        _ => Err(ReplyError::UnexpectedShape),
    }
}

/// The records that decode among `items`; the others are dropped.
fn decode_each(items: &Vec<Json>) -> (r: Vec<crate::models::LlmAction>)
    ensures
        crate::llm::records(r@) == decoded_all(items@),
{
    let mut out: Vec<crate::models::LlmAction> = Vec::new();
    let mut i: usize = 0;
    assert(items@.take(0) =~= seq![]);
    assert(crate::llm::records(out@) =~= seq![]);
    while i < items.len()
        invariant
            i <= items@.len(),
            crate::llm::records(out@) == decoded_all(items@.take(i as int)),
        decreases items@.len() - i,
    {
        assert(items@.take(i + 1).drop_last() =~= items@.take(i as int));
        assert(items@.take(i + 1).last() == items@[i as int]);
        let ghost before = crate::llm::records(out@);
        match action_from_json(&items[i]) {
            Some(a) => {
                out.push(a);
                assert(crate::llm::records(out@) =~= before + seq![out@.last()@]);
            },
            None => {
                assert(before + seq![] =~= before);
            },
        }
        i = i + 1;
    }
    assert(items@.take(items@.len() as int) =~= items@);
    out
}

/// The records a parsed reply holds; records that do not decode are dropped.
pub fn actions_from_json(j: &Json) -> (r: Result<Vec<crate::models::LlmAction>, ReplyError>)
    ensures
        match r {
            Ok(v) => reply_records(*j) == Ok::<Seq<crate::models::ActionRecord>, ReplyError>(
                crate::llm::records(v@),
            ),
            Err(e) => reply_records(*j) == Err::<Seq<crate::models::ActionRecord>, ReplyError>(e),
        },
{
    match j {
        Json::Array(items) => Ok(decode_each(items)),
        Json::Object(_) => match j.get("actions") {
            Some(a) => match a.as_array() {
                Some(items) => Ok(decode_each(items)),
                None => Err(ReplyError::MissingActions),
            },
            None => Err(ReplyError::MissingActions),
        },
        _ => Err(ReplyError::UnexpectedShape),
    }
}

/// The records of a model reply text: its code fence (and language tag) removed, the rest
/// read as JSON. `None` when that is not JSON; otherwise what `actions_from_json` gives, an
/// error when the document is neither an array nor an object with an `actions` array.
pub fn parse_llm_text(text: &str) -> (r: Option<Result<Vec<crate::models::LlmAction>, ReplyError>>)
    ensures
        match json_document(unfenced(text@)) {
            None => r is None,
            Some(j) => r matches Some(x) && match x {
                Ok(v) => reply_records(j) == Ok::<Seq<crate::models::ActionRecord>, ReplyError>(
                    crate::llm::records(v@),
                ),
                Err(e) => reply_records(j) == Err::<Seq<crate::models::ActionRecord>, ReplyError>(
                    e,
                ),
            },
        },
{
    let stripped = strip_code_fences(text);
    match parse_json(stripped.as_str()) {
        Some(j) => Some(actions_from_json(&j)),
        None => None,
    }
}

/// The string elements of `items`, in order.
pub open spec fn string_items(items: Seq<Json>) -> Seq<Seq<char>>
    decreases items.len(),
{
    if items.len() == 0 {
        seq![]
    } else {
        string_items(items.drop_last()) + match json_str(items.last()) {
            Some(s) => seq![s],
            None => seq![],
        }
    }
}

/// The non-empty groups of ids among `gs`: each array element read as its string
/// elements; non-arrays and groups without a string are dropped.
pub open spec fn id_groups(gs: Seq<Json>) -> Seq<Seq<Seq<char>>>
    decreases gs.len(),
{
    if gs.len() == 0 {
        seq![]
    } else {
        id_groups(gs.drop_last()) + match json_array(gs.last()) {
            Some(a) => if string_items(a).len() > 0 {
                seq![string_items(a)]
            } else {
                seq![]
            },
            None => seq![],
        }
    }
}

/// The duplicate groups of a reply: the `groups` array read by `id_groups`.
pub open spec fn reply_groups(j: Json) -> Result<Seq<Seq<Seq<char>>>, ReplyError> {
    match get_opt(Some(j), "groups"@) {
        Some(g) => match json_array(g) {
            Some(gs) => Ok(id_groups(gs)),
            None => Err(ReplyError::MissingGroups),
        },
        None => Err(ReplyError::MissingGroups),
    }
}

/// The views of a sequence of id groups.
pub open spec fn group_views(v: Seq<Vec<String>>) -> Seq<Seq<Seq<char>>> {
    v.map_values(|g: Vec<String>| strs(g@))
}

/// The string elements of `items`.
fn strings_of(items: &Vec<Json>) -> (r: Vec<String>)
    ensures
        strs(r@) == string_items(items@),
{
    let mut out: Vec<String> = Vec::new();
    let mut i: usize = 0;
    assert(items@.take(0) =~= seq![]);
    assert(strs(out@) =~= seq![]);
    while i < items.len()
        invariant
            i <= items@.len(),
            strs(out@) == string_items(items@.take(i as int)),
        decreases items@.len() - i,
    {
        assert(items@.take(i + 1).drop_last() =~= items@.take(i as int));
        assert(items@.take(i + 1).last() == items@[i as int]);
        let ghost before = strs(out@);
        match items[i].as_str() {
            Some(s) => {
                out.push(s.clone());
                assert(strs(out@) =~= before + seq![s@]);
            },
            None => {
                assert(before + seq![] =~= before);
            },
        }
        i = i + 1;
    }
    assert(items@.take(items@.len() as int) =~= items@);
    out
}

/// The duplicate groups a parsed reply names.
pub fn groups_from_json(j: &Json) -> (r: Result<Vec<Vec<String>>, ReplyError>)
    ensures
        match r {
            Ok(v) => reply_groups(*j) == Ok::<Seq<Seq<Seq<char>>>, ReplyError>(group_views(v@)),
            Err(e) => reply_groups(*j) == Err::<Seq<Seq<Seq<char>>>, ReplyError>(e),
        },
{
    let gs = match j.get("groups") {
        Some(g) => match g.as_array() {
            Some(a) => a,
            None => return Err(ReplyError::MissingGroups),
        },
        None => return Err(ReplyError::MissingGroups),
    };
    let mut out: Vec<Vec<String>> = Vec::new();
    let mut i: usize = 0;
    assert(gs@.take(0) =~= seq![]);
    assert(group_views(out@) =~= seq![]);
    while i < gs.len()
        invariant
            i <= gs@.len(),
            group_views(out@) == id_groups(gs@.take(i as int)),
        decreases gs@.len() - i,
    {
        assert(gs@.take(i + 1).drop_last() =~= gs@.take(i as int));
        assert(gs@.take(i + 1).last() == gs@[i as int]);
        let ghost before = group_views(out@);
        match gs[i].as_array() {
            Some(a) => {
                let ids = strings_of(a);
                if ids.len() > 0 {
                    out.push(ids);
                    assert(group_views(out@) =~= before + seq![string_items(a@)]);
                } else {
                    assert(before + seq![] =~= before);
                }
            },
            None => {
                assert(before + seq![] =~= before);
            },
        }
        i = i + 1;
    }
    assert(gs@.take(gs@.len() as int) =~= gs@);
    Ok(out)
}

/// The duplicate groups a reply text holds: the text trimmed, its code fence removed, the
/// rest read as JSON. `None` when that is not JSON; otherwise the groups of the document,
/// or the error when it has no `groups` array.
pub open spec fn read_groups(text: Seq<char>) -> Option<Result<Seq<Seq<Seq<char>>>, ReplyError>> {
    match json_document(unfenced(trim(text))) {
        None => None,
        Some(j) => Some(reply_groups(j)),
    }
}

/// The view of what `parse_groups` returns.
pub open spec fn parsed_groups_view(r: Option<Result<Vec<Vec<String>>, ReplyError>>) -> Option<
    Result<Seq<Seq<Seq<char>>>, ReplyError>,
> {
    match r {
        None => None,
        Some(Ok(v)) => Some(Ok(group_views(v@))),
        Some(Err(e)) => Some(Err(e)),
    }
}

/// The duplicate groups of a reply text: trimmed, its code fence removed, the rest read
/// as JSON. `None` when that is not JSON; otherwise what `groups_from_json` gives, an
/// error when the document has no `groups` array.
pub fn parse_groups(text: &str) -> (r: Option<Result<Vec<Vec<String>>, ReplyError>>)
    ensures
        parsed_groups_view(r) == read_groups(text@),
{
    let t = crate::text::trim_str(text);
    let stripped = strip_code_fences(t.as_str());
    match parse_json(stripped.as_str()) {
        Some(j) => Some(groups_from_json(&j)),
        None => None,
    }
}

/// A decimal digit.
pub open spec fn is_digit(c: char) -> bool {
    '0' <= c <= '9'
}

/// The value of the decimal digits `s`.
pub open spec fn digits_value(s: Seq<char>) -> int
    decreases s.len(),
{
    if s.len() == 0 {
        0
    } else {
        digits_value(s.drop_last()) * 10 + (s.last() as int - '0' as int)
    }
}

/// `s` without one leading `+`.
pub open spec fn unsigned_digits(s: Seq<char>) -> Seq<char> {
    if s.len() > 0 && s[0] == '+' {
        s.drop_first()
    } else {
        s
    }
}

/// The `usize` that `str::parse` reads from `s`: an optional `+` and at least one decimal
/// digit, with a value that fits.
pub open spec fn parse_index(s: Seq<char>) -> Option<usize> {
    let d = unsigned_digits(s);
    if d.len() > 0 && (forall|k: int| 0 <= k < d.len() ==> is_digit(#[trigger] d[k])) && 0
        <= digits_value(d) <= usize::MAX {
        Some(digits_value(d) as usize)
    } else {
        None
    }
}

/// The index a new-record id `N<index>` names.
pub open spec fn new_index(id: Seq<char>) -> Option<usize> {
    if id.len() > 0 && id[0] == 'N' {
        parse_index(id.drop_first())
    } else {
        None
    }
}

/// Group `g` names new record `i`, an index below `n`.
pub open spec fn in_news(g: Seq<Seq<char>>, n: usize, i: usize) -> bool {
    i < n && exists|k: int| 0 <= k < g.len() && new_index(#[trigger] g[k]) == Some(i)
}

/// The index a stored-record id `K<index>` names.
pub open spec fn known_index(id: Seq<char>) -> Option<usize> {
    if id.len() > 0 && id[0] == 'K' {
        parse_index(id.drop_first())
    } else {
        None
    }
}

/// The id names one of the `m` stored records shown to the model: `K` and the decimal
/// index of one of them. Any other id starting with `K` is unknown and ignored.
pub open spec fn is_known_id(id: Seq<char>, m: usize) -> bool {
    known_index(id) matches Some(j) && j < m
}

/// Group `g` includes one of the `m` records already stored.
pub open spec fn touches_known(g: Seq<Seq<char>>, m: usize) -> bool {
    exists|k: int| 0 <= k < g.len() && is_known_id(#[trigger] g[k], m)
}

/// Group `g` makes new record `i` a re-report: the group includes a stored record, or
/// it names a lower-indexed new record that is kept as the event's record.
pub open spec fn dropped_by(g: Seq<Seq<char>>, n: usize, m: usize, i: usize) -> bool {
    &&& in_news(g, n, i)
    &&& (touches_known(g, m) || exists|j: usize| j < i && #[trigger] in_news(g, n, j))
}

/// Some group among `gs` makes new record `i` a re-report.
pub open spec fn dropped(gs: Seq<Seq<Seq<char>>>, n: usize, m: usize, i: usize) -> bool {
    exists|q: int| 0 <= q < gs.len() && #[trigger] dropped_by(gs[q], n, m, i)
}

/// The values of `v` strictly increase.
pub open spec fn increasing(v: Seq<usize>) -> bool {
    forall|a: int, b: int| 0 <= a < b < v.len() ==> v[a] < v[b]
}

/// The in-range new-record indices that `g` names, in order of the ids.
pub open spec fn news_seq(g: Seq<Seq<char>>, n: usize) -> Seq<usize>
    decreases g.len(),
{
    if g.len() == 0 {
        seq![]
    } else {
        news_seq(g.drop_last(), n) + match new_index(g.last()) {
            Some(i) => if i < n {
                seq![i]
            } else {
                seq![]
            },
            None => seq![],
        }
    }
}

/// Some id of `g` is a stored record's.
pub open spec fn known_in(g: Seq<Seq<char>>, m: usize) -> bool
    decreases g.len(),
{
    g.len() > 0 && (known_in(g.drop_last(), m) || is_known_id(g.last(), m))
}

proof fn lemma_news_seq(g: Seq<Seq<char>>, n: usize, m: usize)
    ensures
        forall|i: usize| news_seq(g, n).contains(i) <==> in_news(g, n, i),
        known_in(g, m) == touches_known(g, m),
    decreases g.len(),
{
    if g.len() > 0 {
        let h = g.drop_last();
        lemma_news_seq(h, n, m);
        assert forall|i: usize| news_seq(g, n).contains(i) <==> in_news(g, n, i) by {
            let tail: Seq<usize> = match new_index(g.last()) {
                Some(x) => if x < n {
                    seq![x]
                } else {
                    seq![]
                },
                None => seq![],
            };
            assert(news_seq(g, n) == news_seq(h, n) + tail);
            if news_seq(g, n).contains(i) {
                let t = choose|t: int| 0 <= t < news_seq(g, n).len() && news_seq(g, n)[t] == i;
                if t < news_seq(h, n).len() {
                    assert(news_seq(h, n)[t] == i);
                    assert(news_seq(h, n).contains(i));
                    assert(in_news(h, n, i));
                    let k = choose|k: int| 0 <= k < h.len() && new_index(#[trigger] h[k]) == Some(i);
                    assert(g[k] == h[k]);
                } else {
                    assert(new_index(g[g.len() - 1]) == Some(i));
                }
            }
            if in_news(g, n, i) {
                let k = choose|k: int| 0 <= k < g.len() && new_index(#[trigger] g[k]) == Some(i);
                if k < h.len() {
                    assert(h[k] == g[k]);
                    assert(in_news(h, n, i));
                    let t = choose|t: int| 0 <= t < news_seq(h, n).len() && news_seq(h, n)[t] == i;
                    assert(news_seq(g, n)[t] == i);
                } else {
                    assert(news_seq(g, n)[news_seq(h, n).len() as int] == i);
                }
            }
        }
        if touches_known(g, m) {
            let k = choose|k: int| 0 <= k < g.len() && is_known_id(#[trigger] g[k], m);
            if k < h.len() {
                assert(h[k] == g[k]);
            }
        }
        if known_in(h, m) {
            let k = choose|k: int| 0 <= k < h.len() && is_known_id(#[trigger] h[k], m);
            assert(g[k] == h[k]);
        }
    } else {
        assert(news_seq(g, n) =~= seq![]);
    }
}

proof fn lemma_digits_prefix(d: Seq<char>, k: int)
    requires
        0 <= k <= d.len(),
        forall|q: int| 0 <= q < d.len() ==> is_digit(#[trigger] d[q]),
    ensures
        digits_value(d.take(k)) <= digits_value(d),
        digits_value(d.take(k)) >= 0,
    decreases d.len() - k,
{
    if k < d.len() {
        lemma_digits_prefix(d, k + 1);
        assert(d.take(k + 1).drop_last() =~= d.take(k));
        lemma_digits_nonneg(d.take(k));
    } else {
        assert(d.take(k) =~= d);
        lemma_digits_nonneg(d);
    }
}

proof fn lemma_digits_nonneg(d: Seq<char>)
    requires
        forall|q: int| 0 <= q < d.len() ==> is_digit(#[trigger] d[q]),
    ensures
        digits_value(d) >= 0,
    decreases d.len(),
{
    if d.len() > 0 {
        lemma_digits_nonneg(d.drop_last());
    }
}

/// The index `str::parse::<usize>` reads from `s`, if it reads one.
fn parse_usize(s: &[char]) -> (r: Option<usize>)
    ensures
        r == parse_index(s@),
{
    let start: usize = if s.len() > 0 && s[0] == '+' {
        1
    } else {
        0
    };
    let ghost d = s@.skip(start as int);
    assert(d =~= if s@.len() > 0 && s@[0] == '+' {
        s@.drop_first()
    } else {
        s@
    });
    if start >= s.len() {
        return None;
    }
    let mut v: usize = 0;
    let mut i: usize = start;
    assert(d.take(0) =~= seq![]);
    while i < s.len()
        invariant
            start <= i <= s@.len(),
            start < s@.len(),
            d == s@.skip(start as int),
            d == unsigned_digits(s@),
            d.len() == s@.len() - start,
            forall|q: int| 0 <= q < i - start ==> is_digit(#[trigger] d[q]),
            v == digits_value(d.take(i - start)),
        decreases s@.len() - i,
    {
        let c = s[i];
        assert(d[i - start] == c);
        if !('0' <= c && c <= '9') {
            assert(!is_digit(d[i - start]));
            assert(!(forall|k: int| 0 <= k < d.len() ==> is_digit(#[trigger] d[k])));
            assert(parse_index(s@) is None);
            return None;
        }
        let digit = (c as u32 - '0' as u32) as usize;
        assert(d.take(i - start + 1).drop_last() =~= d.take(i - start));
        assert(d.take(i - start + 1).last() == c);
        assert(digits_value(d.take(i - start + 1)) == v * 10 + digit);
        if v > (usize::MAX - digit) / 10 {
            proof {
                assert(v * 10 + digit > usize::MAX) by (nonlinear_arith)
                    requires
                        v > (usize::MAX - digit) / 10,
                        digit <= 9,
                ;
                if forall|q: int| 0 <= q < d.len() ==> is_digit(#[trigger] d[q]) {
                    lemma_digits_prefix(d, i - start + 1);
                    assert(digits_value(d) > usize::MAX);
                }
                assert(parse_index(s@) is None);
            }
            return None;
        }
        assert(v * 10 + digit <= usize::MAX) by (nonlinear_arith)
            requires
                v <= (usize::MAX - digit) / 10,
                digit <= 9,
        ;
        v = v * 10 + digit;
        i = i + 1;
    }
    assert(d.take(d.len() as int) =~= d);
    Some(v)
}

/// The index an id names after its one-letter `prefix`, if it names one.
fn prefixed_index(id: &String, prefix: char) -> (r: Option<usize>)
    ensures
        r == (if id@.len() > 0 && id@[0] == prefix {
            parse_index(id@.drop_first())
        } else {
            None
        }),
{
    let cs = chars_of(id.as_str());
    if cs.len() > 0 && cs[0] == prefix {
        let mut rest: Vec<char> = Vec::new();
        let mut i: usize = 1;
        while i < cs.len()
            invariant
                1 <= i <= cs@.len(),
                rest@ == cs@.subrange(1, i as int),
            decreases cs@.len() - i,
        {
            rest.push(cs[i]);
            i = i + 1;
            assert(rest@ =~= cs@.subrange(1, i as int));
        }
        assert(rest@ =~= cs@.drop_first());
        parse_usize(rest.as_slice())
    } else {
        None
    }
}

/// Adds `x` to the strictly increasing `v`.
#[verifier::spinoff_prover]
fn insert_sorted(v0: Vec<usize>, x: usize) -> (r: Vec<usize>)
    requires
        increasing(v0@),
    ensures
        increasing(r@),
        forall|y: usize| r@.contains(y) <==> (v0@.contains(y) || y == x),
{
    let mut v = v0;
    let mut p: usize = 0;
    while p < v.len() && v[p] < x
        invariant
            p <= v@.len(),
            forall|q: int| 0 <= q < p ==> v@[q] < x,
        decreases v@.len() - p,
    {
        p = p + 1;
    }
    if p < v.len() && v[p] == x {
        assert(v@[p as int] == x);
        assert(v@.contains(x));
        return v;
    }
    let ghost before = v@;
    assert(before == v0@);
    v.insert(p, x);
    assert(v@ =~= before.take(p as int).push(x) + before.skip(p as int));
    assert forall|a: int, b: int| 0 <= a < b < v@.len() implies v@[a] < v@[b] by {
        if p < before.len() {
            assert(before[p as int] > x);
        }
        if a < p && b > p {
            assert(v@[a] == before[a]);
            assert(v@[b] == before[b - 1]);
        } else if a > p {
            assert(v@[a] == before[a - 1]);
            assert(v@[b] == before[b - 1]);
        } else if b < p {
            assert(v@[a] == before[a]);
            assert(v@[b] == before[b]);
        } else if a == p {
            assert(v@[b] == before[b - 1]);
            if b - 1 > p {
                assert(before[p as int] < before[b - 1]);
            }
        }
    }
    assert forall|y: usize| v@.contains(y) <==> (v0@.contains(y) || y == x) by {
        if v@.contains(y) {
            let k = choose|k: int| 0 <= k < v@.len() && v@[k] == y;
            if k < p {
                assert(before[k] == y);
            } else if k > p {
                assert(before[k - 1] == y);
            }
        }
        if v0@.contains(y) {
            let k = choose|k: int| 0 <= k < before.len() && before[k] == y;
            if k < p {
                assert(v@[k] == y);
            } else {
                assert(v@[k + 1] == y);
            }
        }
        if y == x {
            assert(v@[p as int] == x);
        }
    }
    v
}

/// Adds to `drop` the indices of `news` that a group drops: all of them when the group
/// includes a stored record, all but `min` otherwise.
#[verifier::spinoff_prover]
fn add_group_drops(drop0: Vec<usize>, news: &Vec<usize>, known: bool, min: usize) -> (r: Vec<
    usize,
>)
    requires
        increasing(drop0@),
    ensures
        increasing(r@),
        forall|i: usize|
            r@.contains(i) <==> (drop0@.contains(i) || (news@.contains(i) && (known || i != min))),
{
    let ghost start = drop0@;
    let mut drop = drop0;
    let mut t: usize = 0;
    assert(news@.take(0) =~= seq![]);
    while t < news.len()
        invariant
            t <= news@.len(),
            increasing(drop@),
            forall|i: usize|
                drop@.contains(i) <==> (start.contains(i) || (news@.take(t as int).contains(i) && (
                known || i != min))),
        decreases news@.len() - t,
    {
        let x = news[t];
        let ghost before = drop@;
        let ghost pre = news@.take(t as int);
        let ghost post = news@.take(t + 1);
        assert(post =~= pre.push(x));
        assert forall|i: usize| post.contains(i) <==> (pre.contains(i) || i == x) by {
            if post.contains(i) {
                let u = choose|u: int| 0 <= u < post.len() && #[trigger] post[u] == i;
                if u < pre.len() {
                    assert(pre[u] == i);
                }
            }
            if pre.contains(i) {
                let u = choose|u: int| 0 <= u < pre.len() && #[trigger] pre[u] == i;
                assert(post[u] == i);
            }
            if i == x {
                assert(post[pre.len() as int] == i);
            }
        }
        if known || x != min {
            drop = insert_sorted(drop, x);
        }
        assert forall|i: usize|
            drop@.contains(i) <==> (start.contains(i) || (post.contains(i) && (known || i
                != min))) by {
            if drop@.contains(i) && !start.contains(i) {
                if before.contains(i) {
                    assert(pre.contains(i));
                } else {
                    assert(i == x);
                }
            }
        }
        t = t + 1;
    }
    assert(news@.take(news@.len() as int) =~= news@);
    assert(start == drop0@);
    assert forall|i: usize|
        drop@.contains(i) <==> (drop0@.contains(i) || (news@.contains(i) && (known || i
            != min))) by {
        assert(news@.take(t as int) == news@);
    }
    drop
}

/// The in-range new indices a group names, and whether it includes a stored record.
fn group_news(g: &Vec<String>, n_new: usize, n_known: usize) -> (r: (Vec<usize>, bool))
    ensures
        forall|i: usize| r.0@.contains(i) <==> in_news(strs(g@), n_new, i),
        r.1 == touches_known(strs(g@), n_known),
{
    let ghost gv = strs(g@);
    let mut news: Vec<usize> = Vec::new();
    let mut known = false;
    let mut k: usize = 0;
    assert(gv.take(0) =~= seq![]);
    while k < g.len()
        invariant
            k <= g@.len(),
            gv == strs(g@),
            news@ == news_seq(gv.take(k as int), n_new),
            known == known_in(gv.take(k as int), n_known),
        decreases g@.len() - k,
    {
        assert(gv.take(k + 1).drop_last() =~= gv.take(k as int));
        assert(gv.take(k + 1).last() == g@[k as int]@);
        let ghost before = news@;
        match prefixed_index(&g[k], 'N') {
            Some(ix) => {
                if ix < n_new {
                    news.push(ix);
                    assert(news@ =~= before + seq![ix]);
                } else {
                    assert(news@ =~= before + seq![]);
                }
            },
            None => {
                assert(news@ =~= before + seq![]);
            },
        }
        match prefixed_index(&g[k], 'K') {
            Some(j) => {
                if j < n_known {
                    known = true;
                }
            },
            None => {},
        }
        k = k + 1;
    }
    assert(gv.take(g@.len() as int) =~= gv);
    proof {
        lemma_news_seq(gv, n_new, n_known);
    }
    (news, known)
}

/// The new records that the duplicate groups mark as re-reports, in increasing order.
/// A group means "these ids are one event". If it touches a known row, every new id in
/// it is a re-report and is dropped; otherwise the lowest-indexed new id survives as the
/// canonical record. Unknown or out-of-range ids are ignored: a new id is `N` and the
/// index of one of the `n_new` new rows, a known id `K` and the index of one of the
/// `n_known` stored events shown to the model.
pub fn drops_from_groups(groups: &[Vec<String>], n_new: usize, n_known: usize) -> (r: Vec<usize>)
    ensures
        increasing(r@),
        forall|i: usize| r@.contains(i) <==> dropped(group_views(groups@), n_new, n_known, i),
{
    let ghost gs = group_views(groups@);
    let mut drop: Vec<usize> = Vec::new();
    let mut q: usize = 0;
    while q < groups.len()
        invariant
            q <= groups@.len(),
            gs == group_views(groups@),
            increasing(drop@),
            forall|i: usize|
                drop@.contains(i) <==> exists|p: int| 0 <= p < q && #[trigger] dropped_by(
                    gs[p],
                    n_new,
                    n_known,
                    i,
                ),
        decreases groups@.len() - q,
    {
        let ghost gv = gs[q as int];
        assert(gv == strs(groups@[q as int]@));
        let (news, known) = group_news(&groups[q], n_new, n_known);
        let ghost start = drop@;
        if news.len() > 0 {
            let mut min = news[0];
            let mut t: usize = 1;
            while t < news.len()
                invariant
                    1 <= t <= news@.len(),
                    news@.contains(min),
                    forall|u: int| 0 <= u < t ==> min <= news@[u],
                decreases news@.len() - t,
            {
                if news[t] < min {
                    min = news[t];
                }
                t = t + 1;
            }
            drop = add_group_drops(drop, &news, known, min);
            assert forall|i: usize| dropped_by(gv, n_new, n_known, i) <==> (news@.contains(i) && (known
                || i != min)) by {
                if dropped_by(gv, n_new, n_known, i) && !known {
                    let j = choose|j: usize| j < i && #[trigger] in_news(gv, n_new, j);
                    assert(news@.contains(j));
                    let u = choose|u: int| 0 <= u < news@.len() && news@[u] == j;
                    assert(min <= news@[u]);
                }
                if news@.contains(i) && !known && i != min {
                    assert(in_news(gv, n_new, min));
                    let u = choose|u: int| 0 <= u < news@.len() && news@[u] == i;
                    assert(min <= news@[u]);
                    assert(min < i);
                }
            }
        } else {
            assert forall|i: usize| !dropped_by(gv, n_new, n_known, i) by {
                if in_news(gv, n_new, i) {
                    assert(news@.contains(i));
                }
            }
        }
        assert forall|i: usize|
            drop@.contains(i) <==> exists|p: int| 0 <= p < q + 1 && #[trigger] dropped_by(
                gs[p],
                n_new,
                n_known,
                i,
            ) by {
            if exists|p: int| 0 <= p < q + 1 && #[trigger] dropped_by(gs[p], n_new, n_known, i) {
                let p = choose|p: int| 0 <= p < q + 1 && #[trigger] dropped_by(gs[p], n_new, n_known, i);
                if p < q {
                    assert(start.contains(i));
                } else {
                    assert(dropped_by(gv, n_new, n_known, i));
                }
            }
            if drop@.contains(i) {
                if start.contains(i) {
                    let p = choose|p: int| 0 <= p < q && #[trigger] dropped_by(gs[p], n_new, n_known, i);
                    assert(0 <= p < q + 1 && dropped_by(gs[p], n_new, n_known, i));
                } else {
                    assert(dropped_by(gv, n_new, n_known, i));
                    assert(dropped_by(gs[q as int], n_new, n_known, i));
                }
            }
        }
        q = q + 1;
    }
    drop
}

/// A character that can belong to a delay such as `58s` or `6.13s`.
pub open spec fn is_delay_char(c: char) -> bool {
    is_digit(c) || c == '.'
}

/// The number of leading digits and dots of `s`.
pub open spec fn delay_prefix_len(s: Seq<char>) -> int
    decreases s.len(),
{
    if s.len() > 0 && is_delay_char(s[0]) {
        1 + delay_prefix_len(s.drop_first())
    } else {
        0
    }
}

/// For each detail with a string `retryDelay`, the leading digits and dots of it.
pub open spec fn delay_numbers(details: Seq<Json>) -> Seq<Seq<char>>
    decreases details.len(),
{
    if details.len() == 0 {
        seq![]
    } else {
        delay_numbers(details.drop_last()) + match get_opt(Some(details.last()), "retryDelay"@) {
            Some(v) => match json_str(v) {
                Some(t) => seq![t.take(delay_prefix_len(t))],
                None => seq![],
            },
            None => seq![],
        }
    }
}

/// The retry delays, as number texts, that an error reply's `error.details` carry.
pub open spec fn retry_hints(body: Json) -> Seq<Seq<char>> {
    match get_opt(get_opt(Some(body), "error"@), "details"@) {
        Some(d) => match json_array(d) {
            Some(ds) => delay_numbers(ds),
            None => seq![],
        },
        None => seq![],
    }
}

/// The leading digits and dots of `s`.
fn delay_prefix(s: &[char]) -> (r: Vec<char>)
    ensures
        r@ == s@.take(delay_prefix_len(s@)),
{
    let mut i: usize = 0;
    assert(s@.skip(0) =~= s@);
    while i < s.len() && (('0' <= s[i] && s[i] <= '9') || s[i] == '.')
        invariant
            i <= s@.len(),
            delay_prefix_len(s@) == i + delay_prefix_len(s@.skip(i as int)),
        decreases s@.len() - i,
    {
        assert(s@.skip(i as int)[0] == s@[i as int]);
        assert(s@.skip(i as int).drop_first() =~= s@.skip(i + 1));
        i = i + 1;
    }
    if i < s.len() {
        assert(s@.skip(i as int)[0] == s@[i as int]);
    }
    crate::text::take_chars(s, i)
}

/// The retry delays that a Gemini error reply suggests (Google's `RetryInfo.retryDelay`,
/// such as `"58s"`), each as its leading number text, in order.
pub fn retry_delay_hints(body: &Json) -> (r: Vec<String>)
    ensures
        strs(r@) == retry_hints(*body),
{
    let details = match body.get("error") {
        Some(e) => match e.get("details") {
            Some(d) => match d.as_array() {
                Some(a) => a,
                None => return Vec::new(),
            },
            None => return Vec::new(),
        },
        None => return Vec::new(),
    };
    let mut out: Vec<String> = Vec::new();
    let mut i: usize = 0;
    assert(details@.take(0) =~= seq![]);
    assert(strs(out@) =~= seq![]);
    while i < details.len()
        invariant
            i <= details@.len(),
            strs(out@) == delay_numbers(details@.take(i as int)),
        decreases details@.len() - i,
    {
        assert(details@.take(i + 1).drop_last() =~= details@.take(i as int));
        assert(details@.take(i + 1).last() == details@[i as int]);
        let ghost before = strs(out@);
        match details[i].get("retryDelay") {
            Some(v) => match v.as_str() {
                Some(t) => {
                    let cs = chars_of(t.as_str());
                    let num = string_of(delay_prefix(cs.as_slice()).as_slice());
                    out.push(num);
                    assert(strs(out@) =~= before + seq![t@.take(delay_prefix_len(t@))]);
                },
                None => {
                    assert(before + seq![] =~= before);
                },
            },
            None => {
                assert(before + seq![] =~= before);
            },
        }
        i = i + 1;
    }
    assert(details@.take(details@.len() as int) =~= details@);
    out
}

/// The retry delays, as number texts, that an error reply body suggests; none when the
/// body is not JSON.
pub fn retry_delay_hints_in(body: &str) -> (r: Vec<String>)
    ensures
        strs(r@) == match json_document(body@) {
            Some(j) => retry_hints(j),
            None => Seq::<Seq<char>>::empty(),
        },
{
    match parse_json(body) {
        Some(j) => retry_delay_hints(&j),
        None => {
            let v: Vec<String> = Vec::new();
            assert(strs(v@) =~= Seq::<Seq<char>>::empty());
            v
        },
    }
}

/// The comma-separated pieces of `s`, the piece `cur` being already open.
pub open spec fn pieces_from(s: Seq<char>, cur: Seq<char>) -> Seq<Seq<char>>
    decreases s.len(),
{
    if s.len() == 0 {
        seq![cur]
    } else if s[0] == ',' {
        seq![cur] + pieces_from(s.drop_first(), seq![])
    } else {
        pieces_from(s.drop_first(), cur.push(s[0]))
    }
}

/// The entries of `list`, trimmed, other than empty ones and `model`.
pub open spec fn other_models(list: Seq<Seq<char>>, model: Seq<char>) -> Seq<Seq<char>>
    decreases list.len(),
{
    if list.len() == 0 {
        seq![]
    } else {
        let m = trim(list.last());
        other_models(list.drop_last(), model) + if m.len() == 0 || m == model {
            seq![]
        } else {
            seq![m]
        }
    }
}

/// The built-in fallback models, in order of preference.
pub open spec fn default_fallbacks() -> Seq<Seq<char>> {
    seq![
        "cohere/north-mini-code:free"@,
        "nvidia/nemotron-3-super-120b-a12b:free"@,
        "z-ai/glm-5.2:free"@,
    ]
}

/// The fallback models for an OpenRouter call to `model`: the comma-separated list
/// configured, when there is one, else the built-in list; in both cases trimmed, without
/// empty entries and without `model` itself.
pub open spec fn fallback_models(configured: Option<Seq<char>>, model: Seq<char>) -> Seq<Seq<char>> {
    match configured {
        Some(s) => other_models(pieces_from(s, seq![]), model),
        None => other_models(default_fallbacks(), model),
    }
}

/// Appends `piece`, trimmed, to `out` unless it is empty or names `model`.
fn push_model(out: &mut Vec<String>, piece: &[char], model: &String)
    ensures
        strs(final(out)@) == strs(old(out)@) + {
            let m = trim(piece@);
            if m.len() == 0 || m == model@ {
                seq![]
            } else {
                seq![m]
            }
        },
{
    let t = crate::text::trim_chars(piece);
    let m = string_of(t.as_slice());
    let ghost before = strs(out@);
    if t.len() == 0 || m == *model {
        assert(before + seq![] =~= before);
    } else {
        out.push(m);
        assert(strs(out@) =~= before + seq![t@]);
    }
}

/// The fallback models for an OpenRouter call to `model`, from the configured
/// comma-separated list when there is one, else the built-in list.
pub fn openrouter_fallbacks(configured: Option<&str>, model: &str) -> (r: Vec<String>)
    ensures
        strs(r@) == fallback_models(
            match configured {
                Some(s) => Some(s@),
                None => None,
            },
            model@,
        ),
{
    let model_s = String::from_str(model);
    let mut out: Vec<String> = Vec::new();
    assert(strs(out@) =~= seq![]);
    match configured {
        Some(s) => {
            let cs = chars_of(s);
            let mut cur: Vec<char> = Vec::new();
            let mut i: usize = 0;
            assert(cs@.skip(0) =~= cs@);
            assert(strs(out@) + other_models(pieces_from(cs@, seq![]), model@) =~= other_models(
                pieces_from(cs@, seq![]),
                model@,
            ));
            while i < cs.len()
                invariant
                    i <= cs@.len(),
                    model_s@ == model@,
                    strs(out@) + other_models(pieces_from(cs@.skip(i as int), cur@), model@)
                        == other_models(pieces_from(cs@, seq![]), model@),
                decreases cs@.len() - i,
            {
                let ghost rest = cs@.skip(i as int);
                assert(rest[0] == cs@[i as int]);
                assert(rest.drop_first() =~= cs@.skip(i + 1));
                if cs[i] == ',' {
                    let ghost before = strs(out@);
                    let ghost piece = cur@;
                    push_model(&mut out, cur.as_slice(), &model_s);
                    proof {
                        let tail = pieces_from(cs@.skip(i + 1), seq![]);
                        assert(pieces_from(rest, piece) == seq![piece] + tail);
                        lemma_other_models_concat(seq![piece], tail, model@);
                        lemma_other_models_one(piece, model@);
                    }
                    cur = Vec::new();
                } else {
                    cur.push(cs[i]);
                }
                i = i + 1;
            }
            assert(cs@.skip(i as int) =~= seq![]);
            let ghost piece = cur@;
            push_model(&mut out, cur.as_slice(), &model_s);
            proof {
                lemma_other_models_one(piece, model@);
            }
            out
        },
        None => {
            let a = chars_of("cohere/north-mini-code:free");
            let b = chars_of("nvidia/nemotron-3-super-120b-a12b:free");
            let c = chars_of("z-ai/glm-5.2:free");
            push_model(&mut out, a.as_slice(), &model_s);
            push_model(&mut out, b.as_slice(), &model_s);
            push_model(&mut out, c.as_slice(), &model_s);
            proof {
                let d = default_fallbacks();
                assert(d =~= seq![a@] + seq![b@] + seq![c@]);
                lemma_other_models_concat(seq![a@] + seq![b@], seq![c@], model@);
                lemma_other_models_concat(seq![a@], seq![b@], model@);
                lemma_other_models_one(a@, model@);
                lemma_other_models_one(b@, model@);
                lemma_other_models_one(c@, model@);
            }
            out
        },
    }
}

/// What one entry contributes.
proof fn lemma_other_models_one(m: Seq<char>, model: Seq<char>)
    ensures
        other_models(seq![m], model) == (if trim(m).len() == 0 || trim(m) == model {
            seq![]
        } else {
            seq![trim(m)]
        }),
{
    assert(seq![m].drop_last() =~= seq![]);
    assert(other_models(seq![], model) =~= seq![]);
}

/// The filtered models of two lists one after the other are those of each, one after
/// the other.
proof fn lemma_other_models_concat(a: Seq<Seq<char>>, b: Seq<Seq<char>>, model: Seq<char>)
    ensures
        other_models(a + b, model) == other_models(a, model) + other_models(b, model),
    decreases b.len(),
{
    if b.len() == 0 {
        assert(a + b =~= a);
        assert(other_models(b, model) =~= seq![]);
        assert(other_models(a, model) + seq![] =~= other_models(a, model));
    } else {
        lemma_other_models_concat(a, b.drop_last(), model);
        assert((a + b).drop_last() =~= a + b.drop_last());
        assert((a + b).last() == b.last());
    }
}

/// How one HTTP call to a model service ended.
#[derive(Debug)]
pub enum ModelReply {
    /// The request could not be sent or no response came back.
    SendFailed,
    /// A success status; the body as JSON, or `None` when it is not JSON.
    Success(Option<Json>),
    /// An error status with the body's text.
    Failure { status: u16, text: String },
}

/// How an HTTP call with status `status` and body `body` ended: a 2xx status is a
/// success whose body is read as JSON, any other status a failure with the body's text.
pub fn model_reply(status: u16, body: &str) -> (r: ModelReply)
    ensures
        200 <= status <= 299 ==> r == ModelReply::Success(json_document(body@)),
        !(200 <= status <= 299) ==> (r matches ModelReply::Failure { status: s, text } && s
            == status && text@ == body@),
{
    if 200 <= status && status <= 299 {
        ModelReply::Success(parse_json(body))
    } else {
        ModelReply::Failure { status, text: body.to_string() }
    }
}

/// The most Gemini calls made for one batch before it goes to OpenRouter.
pub const GEMINI_MAX_ATTEMPTS: usize = 6;

/// The most OpenRouter calls made for one batch.
pub const OPENROUTER_MAX_ATTEMPTS: usize = 3;

/// The token budget of the first OpenRouter call.
pub const OPENROUTER_MAX_TOKENS: u64 = 32768;

/// What follows a wait: another call, or the end of the attempts.
#[derive(Debug, Clone, Copy, PartialEq, Eq, Structural)]
pub enum Then {
    CallAgain,
    Stop,
}

/// After call number `attempt` (from 0) of at most `max`, another call may follow.
pub open spec fn then_after(attempt: usize, max: usize) -> Then {
    if attempt + 1 < max {
        Then::CallAgain
    } else {
        Then::Stop
    }
}

/// Whether another call may follow call number `attempt` of at most `max`.
fn next_after(attempt: usize, max: usize) -> (r: Then)
    ensures
        r == then_after(attempt, max),
{
    if attempt < max && attempt + 1 < max {
        Then::CallAgain
    } else {
        Then::Stop
    }
}

/// What to do after a Gemini call.
#[derive(Debug)]
pub enum GeminiStep {
    /// Read the records from this reply text.
    Parse(String),
    /// The success body is not JSON: give up on this batch.
    BadBody,
    /// Wait the ordinary backoff, then call again or, when the attempts are spent, send
    /// the batch to OpenRouter.
    Backoff(Then),
    /// Rate limited or overloaded: wait what the server suggests (else the backoff), then
    /// call again or, when the attempts are spent, send the batch to OpenRouter.
    RateLimited(Then),
    /// The quota is spent: send the batch to the OpenRouter fallback at once.
    UseFallback,
    /// A status that retrying cannot fix: give up on this batch.
    Fail,
}

/// A status that a retry may cure: too many requests, or a server error.
pub open spec fn retryable_status(status: u16) -> bool {
    status == 429 || (500 <= status <= 599)
}

/// The step after Gemini call number `attempt` (from 0) that ended as `reply`.
pub open spec fn gemini_next(attempt: usize, reply: ModelReply) -> GeminiStep {
    let then = then_after(attempt, GEMINI_MAX_ATTEMPTS);
    match reply {
        ModelReply::SendFailed => GeminiStep::Backoff(then),
        ModelReply::Success(None) => GeminiStep::BadBody,
        ModelReply::Success(Some(body)) => if trim(reply_text(body)).len() == 0 {
            GeminiStep::Backoff(then)
        } else {
            GeminiStep::Parse(arbitrary())
        },
        ModelReply::Failure { status, text } => if retryable_status(status) {
            if quota_exhausted(text@) {
                GeminiStep::UseFallback
            } else {
                GeminiStep::RateLimited(then)
            }
        } else {
            GeminiStep::Fail
        },
    }
}

/// Decides what follows Gemini call number `attempt` (from 0; at most
/// `GEMINI_MAX_ATTEMPTS` are made): a non-empty reply text is parsed, an empty one (a
/// thinking model that spent its budget) is retried, a 429 or 5xx is retried unless the
/// quota is spent, and any other error status ends the batch. Once the attempts are spent,
/// a retry becomes a wait followed by the OpenRouter fallback.
pub fn gemini_step(attempt: usize, reply: &ModelReply) -> (r: GeminiStep)
    ensures
        match (r, gemini_next(attempt, *reply)) {
            (GeminiStep::Parse(t), GeminiStep::Parse(_)) => reply matches ModelReply::Success(
                Some(body),
            ) && t@ == reply_text(*body),
            (GeminiStep::Parse(_), _) => false,
            (_, GeminiStep::Parse(_)) => false,
            (a, b) => a == b,
        },
{
    let then = next_after(attempt, GEMINI_MAX_ATTEMPTS);
    match reply {
        ModelReply::SendFailed => GeminiStep::Backoff(then),
        ModelReply::Success(None) => GeminiStep::BadBody,
        ModelReply::Success(Some(body)) => {
            let t = response_text(body);
            let trimmed = crate::text::trim_str(t.as_str());
            if trimmed.as_str().is_empty() {
                GeminiStep::Backoff(then)
            } else {
                GeminiStep::Parse(t)
            }
        },
        ModelReply::Failure { status, text } => {
            if *status == 429 || (500 <= *status && *status <= 599) {
                if crate::llm::is_quota_exhausted(text.as_str()) {
                    GeminiStep::UseFallback
                } else {
                    GeminiStep::RateLimited(then)
                }
            } else {
                GeminiStep::Fail
            }
        },
    }
}

/// Why an OpenRouter call ends the batch.
#[derive(Debug, Clone, Copy, PartialEq, Eq, Structural)]
pub enum OpenRouterFailure {
    /// 400, 401, 403 or 404: guardrails that never pass on retry.
    NonRetryable,
    /// 402 and the account has no credits.
    NoCredits,
    /// 402 and the token budget is already as low as it goes.
    LowBalance,
    /// Every attempt was used without a usable reply.
    Exhausted,
}

/// What to do after an OpenRouter call.
#[derive(Debug)]
pub enum OpenRouterStep {
    /// Read the records from this reply text.
    Parse(String),
    /// The success body is not JSON: give up on this batch.
    BadBody,
    /// The success body has no message text: give up on this batch.
    NoText,
    /// Wait the ordinary backoff, then call again or, when the attempts are spent, give up
    /// on this batch.
    Backoff(Then),
    /// Wait what the server's `retry-after` suggests (else the backoff), then call again
    /// or, when the attempts are spent, give up on this batch.
    RateLimited(Then),
    /// Call again at once with this smaller token budget.
    LowerMaxTokens(u64),
    /// Give up on this batch.
    Fail(OpenRouterFailure),
}

/// The message text of an OpenRouter reply: `choices[0].message.content`.
pub open spec fn message_text(body: Json) -> Option<Seq<char>> {
    match get_opt(get_opt(first_of(json_get(body, "choices"@)), "message"@), "content"@) {
        Some(c) => json_str(c),
        None => None,
    }
}

/// The step after OpenRouter call number `attempt` (from 0) that ended as `reply`, the
/// request having asked for at most `max_tokens` tokens.
pub open spec fn openrouter_next(attempt: usize, reply: ModelReply, max_tokens: u64) -> OpenRouterStep {
    let then = then_after(attempt, OPENROUTER_MAX_ATTEMPTS);
    match reply {
        ModelReply::SendFailed => OpenRouterStep::Backoff(then),
        ModelReply::Success(None) => OpenRouterStep::BadBody,
        ModelReply::Success(Some(body)) => match message_text(body) {
            Some(_) => OpenRouterStep::Parse(arbitrary()),
            None => OpenRouterStep::NoText,
        },
        ModelReply::Failure { status, text } => if status == 400 || status == 401 || status
            == 403 || status == 404 {
            OpenRouterStep::Fail(OpenRouterFailure::NonRetryable)
        } else if status == 402 {
            if contains(text@, "Insufficient credits"@) || contains(
                text@,
                "never purchased credits"@,
            ) {
                OpenRouterStep::Fail(OpenRouterFailure::NoCredits)
            } else if max_tokens > 8192 {
                if then == Then::CallAgain {
                    OpenRouterStep::LowerMaxTokens(max_tokens / 2)
                } else {
                    OpenRouterStep::Fail(OpenRouterFailure::Exhausted)
                }
            } else {
                OpenRouterStep::Fail(OpenRouterFailure::LowBalance)
            }
        } else {
            OpenRouterStep::RateLimited(then)
        },
    }
}

/// Decides what follows OpenRouter call number `attempt` (from 0; at most
/// `OPENROUTER_MAX_ATTEMPTS` are made): a reply with message text is parsed, guardrail
/// statuses end the batch at once, a low balance first halves the token budget (while an
/// attempt remains), and anything else is retried until the attempts are spent.
pub fn openrouter_step(attempt: usize, reply: &ModelReply, max_tokens: u64) -> (r: OpenRouterStep)
    ensures
        match (r, openrouter_next(attempt, *reply, max_tokens)) {
            (OpenRouterStep::Parse(t), OpenRouterStep::Parse(_)) => reply matches ModelReply::Success(
                Some(body),
            ) && message_text(*body) == Some(t@),
            (OpenRouterStep::Parse(_), _) => false,
            (_, OpenRouterStep::Parse(_)) => false,
            (a, b) => a == b,
        },
{
    let then = next_after(attempt, OPENROUTER_MAX_ATTEMPTS);
    match reply {
        ModelReply::SendFailed => OpenRouterStep::Backoff(then),
        ModelReply::Success(None) => OpenRouterStep::BadBody,
        ModelReply::Success(Some(body)) => {
            let first = match body.get("choices") {
                Some(c) => match c.as_array() {
                    Some(a) => if a.len() > 0 {
                        Some(&a[0])
                    } else {
                        None
                    },
                    None => None,
                },
                None => None,
            };
            let content = match first {
                Some(f) => match f.get("message") {
                    Some(m) => m.get("content"),
                    None => None,
                },
                None => None,
            };
            match content {
                Some(c) => match c.as_str() {
                    Some(t) => OpenRouterStep::Parse(t.clone()),
                    None => OpenRouterStep::NoText,
                },
                None => OpenRouterStep::NoText,
            }
        },
        ModelReply::Failure { status, text } => {
            let code = *status;
            if code == 400 || code == 401 || code == 403 || code == 404 {
                OpenRouterStep::Fail(OpenRouterFailure::NonRetryable)
            } else if code == 402 {
                if contains_str(text.as_str(), "Insufficient credits") || contains_str(
                    text.as_str(),
                    "never purchased credits",
                ) {
                    OpenRouterStep::Fail(OpenRouterFailure::NoCredits)
                } else if max_tokens > 8192 {
                    match then {
                        Then::CallAgain => OpenRouterStep::LowerMaxTokens(max_tokens / 2),
                        Then::Stop => OpenRouterStep::Fail(OpenRouterFailure::Exhausted),
                    }
                } else {
                    OpenRouterStep::Fail(OpenRouterFailure::LowBalance)
                }
            } else {
                OpenRouterStep::RateLimited(then)
            }
        },
    }
}

} // verus!
