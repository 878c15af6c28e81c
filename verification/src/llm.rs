//! The decisions around language-model extraction: which articles are worth a call,
//! how a reply's text and records are read, how records are cleaned and de-duplicated,
//! how retries back off, and the keyword rules that stand in when a call fails.
use vstd::prelude::*;
use vstd::string::StringExecFns;

use crate::models::{
    action_name, opt_chars, strs, ActionRecord, ActionType, LlmAction, NewsItem, NewsRecord,
};
use crate::text::{
    ascii_text, chars_of, concat_chars, contains, contains_str, lower_ascii_text, lowercase,
    starts_with,
    starts_with_chars, string_of, take_chars, to_lower, trim, trim_chars,
};

verus! {

/// `s` without its trailing occurrences of `c`.
pub open spec fn drop_trailing(s: Seq<char>, c: char) -> Seq<char>
    decreases s.len(),
{
    if s.len() > 0 && s.last() == c {
        drop_trailing(s.drop_last(), c)
    } else {
        s
    }
}

/// The position of the first `c` in `s`.
pub open spec fn first_index(s: Seq<char>, c: char) -> Option<int>
    decreases s.len(),
{
    if s.len() == 0 {
        None
    } else if s[0] == c {
        Some(0)
    } else {
        match first_index(s.drop_first(), c) {
            Some(i) => Some(i + 1),
            None => None,
        }
    }
}

/// The text of a reply with a Markdown code fence removed: when the trimmed text opens
/// with three backticks, those and the closing backticks go, and so does the rest of the
/// opening line (its language tag) when that line is not empty; what is left is trimmed.
/// After a bare opening fence, whose line ends at once, everything is kept.
pub open spec fn unfenced(s: Seq<char>) -> Seq<char> {
    let t = trim(s);
    if starts_with(t, "```"@) {
        let after = drop_trailing(t.skip(3), '`');
        match first_index(after, '\n') {
            Some(i) => if i > 0 {
                trim(after.skip(i + 1))
            } else {
                trim(after)
            },
            None => trim(after),
        }
    } else {
        t
    }
}

/// The characters of `s` without its trailing occurrences of `c`.
fn drop_trailing_chars(s: &[char], c: char) -> (r: Vec<char>)
    ensures
        r@ == drop_trailing(s@, c),
{
    let mut k: usize = s.len();
    assert(s@.take(s@.len() as int) =~= s@);
    while k > 0 && s[k - 1] == c
        invariant
            k <= s@.len(),
            drop_trailing(s@, c) == drop_trailing(s@.take(k as int), c),
        decreases k,
    {
        assert(s@.take(k as int).drop_last() =~= s@.take(k - 1));
        k = k - 1;
    }
    take_chars(s, k)
}

/// The position of the first `c` in `s`.
fn find_char(s: &[char], c: char) -> (r: Option<usize>)
    ensures
        match r {
            Some(i) => first_index(s@, c) == Some(i as int),
            None => first_index(s@, c) is None,
        },
        r matches Some(i) ==> i < s@.len(),
{
    let mut i: usize = 0;
    assert(s@.skip(0) =~= s@);
    while i < s.len()
        invariant
            i <= s@.len(),
            first_index(s@, c) == match first_index(s@.skip(i as int), c) {
                Some(k) => Some(k + i),
                None => None,
            },
        decreases s@.len() - i,
    {
        assert(s@.skip(i as int)[0] == s@[i as int]);
        assert(s@.skip(i as int).drop_first() =~= s@.skip(i + 1));
        if s[i] == c {
            return Some(i);
        }
        i = i + 1;
    }
    None
}

/// The characters of `s` from position `i` on.
fn skip_chars(s: &[char], i: usize) -> (r: Vec<char>)
    requires
        i <= s@.len(),
    ensures
        r@ == s@.skip(i as int),
{
    let mut r: Vec<char> = Vec::new();
    let mut p: usize = i;
    while p < s.len()
        invariant
            i <= p <= s@.len(),
            r@ == s@.subrange(i as int, p as int),
        decreases s@.len() - p,
    {
        r.push(s[p]);
        p = p + 1;
        assert(r@ =~= s@.subrange(i as int, p as int));
    }
    assert(s@.subrange(i as int, s@.len() as int) =~= s@.skip(i as int));
    r
}

/// Removes a Markdown code fence (and its language tag) around a reply's text.
pub fn strip_code_fences(s: &str) -> (r: String)
    ensures
        r@ == unfenced(s@),
{
    let all = chars_of(s);
    let t = trim_chars(all.as_slice());
    let fence = chars_of("```");
    proof {
        reveal_strlit("```");
    }
    if !starts_with_chars(t.as_slice(), fence.as_slice()) {
        return string_of(t.as_slice());
    }
    let rest = skip_chars(t.as_slice(), 3);
    let after = drop_trailing_chars(rest.as_slice(), '`');
    match find_char(after.as_slice(), '\n') {
        Some(i) => {
            assert(i < after.len());
            if i > 0 {
                let body = skip_chars(after.as_slice(), i + 1);
                string_of(trim_chars(body.as_slice()).as_slice())
            } else {
                string_of(trim_chars(after.as_slice()).as_slice())
            }
        },
        None => string_of(trim_chars(after.as_slice()).as_slice()),
    }
}

/// `s` cut to its first `max` characters, with `…` appended when anything was cut.
pub open spec fn truncated(s: Seq<char>, max: usize) -> Seq<char> {
    if s.len() > max {
        s.take(max as int) + seq!['…']
    } else {
        s
    }
}

/// Cuts `s` to its first `max` characters, marking the cut with `…`.
pub fn truncate(s: &str, max: usize) -> (r: String)
    ensures
        r@ == truncated(s@, max),
{
    let cs = chars_of(s);
    let out = take_chars(cs.as_slice(), max);
    if cs.len() > max {
        let mut m = out;
        m.push('…');
        string_of(m.as_slice())
    } else {
        string_of(out.as_slice())
    }
}

/// `s` trimmed and cut to its first `max` characters.
pub open spec fn clamped(s: Seq<char>, max: usize) -> Seq<char> {
    let t = trim(s);
    if t.len() > max {
        t.take(max as int)
    } else {
        t
    }
}

/// Trims `s` and cuts it to its first `max` characters.
pub fn clamp(s: String, max: usize) -> (r: String)
    ensures
        r@ == clamped(s@, max),
{
    let cs = chars_of(s.as_str());
    let t = trim_chars(cs.as_slice());
    string_of(take_chars(t.as_slice(), max).as_slice())
}

/// `clamped` lifted over an absent value.
pub open spec fn clamped_opt(o: Option<Seq<char>>, max: usize) -> Option<Seq<char>> {
    match o {
        Some(s) => Some(clamped(s, max)),
        None => None,
    }
}

/// Trims and cuts a present optional value in place.
pub fn clamp_opt(field: &mut Option<String>, max: usize)
    ensures
        opt_chars(*final(field)) == clamped_opt(opt_chars(*old(field)), max),
{
    if let Some(v) = field.take() {
        *field = Some(clamp(v, max));
    }
}

/// Each entry trimmed and cut to `max` characters, empty results dropped.
pub open spec fn clamp_list(v: Seq<Seq<char>>, max: usize) -> Seq<Seq<char>>
    decreases v.len(),
{
    if v.len() == 0 {
        seq![]
    } else {
        let c = clamped(v.last(), max);
        clamp_list(v.drop_last(), max) + if c.len() == 0 {
            seq![]
        } else {
            seq![c]
        }
    }
}

/// Each entry trimmed and lower-cased, empty results dropped.
pub open spec fn platform_list(v: Seq<Seq<char>>) -> Seq<Seq<char>>
    decreases v.len(),
{
    if v.len() == 0 {
        seq![]
    } else {
        let c = lowercase(trim(v.last()));
        platform_list(v.drop_last()) + if c.len() == 0 {
            seq![]
        } else {
            seq![c]
        }
    }
}

/// The first `n` entries of `v`, or all of them.
pub open spec fn at_most<T>(v: Seq<T>, n: int) -> Seq<T> {
    if v.len() > n {
        v.take(n)
    } else {
        v
    }
}

/// A record with every text bounded: the name to 200 characters, place and brand to 120,
/// operator to 200, licence number to 64, details to 2000, at most 5 non-empty violations
/// of at most 300 characters, and at most 6 non-empty lower-cased platform names.
pub open spec fn sanitized(a: ActionRecord) -> ActionRecord {
    ActionRecord {
        establishment: clamped(a.establishment, 200),
        area: clamped_opt(a.area, 120),
        city: clamped_opt(a.city, 120),
        brand: clamped_opt(a.brand, 120),
        operator: clamped_opt(a.operator, 200),
        fssai_number: clamped_opt(a.fssai_number, 64),
        details: clamped_opt(a.details, 2000),
        violations: at_most(clamp_list(a.violations, 300), 5),
        platforms: at_most(platform_list(a.platforms), 6),
        ..a
    }
}

/// Every platform name of `a` is ASCII text.
pub open spec fn ascii_platforms(a: ActionRecord) -> bool {
    forall|k: int| 0 <= k < a.platforms.len() ==> ascii_text(#[trigger] a.platforms[k])
}

/// Every platform name of `a` is ASCII text that lower-casing leaves as it is.
pub open spec fn lower_ascii_platforms(a: ActionRecord) -> bool {
    forall|k: int| 0 <= k < a.platforms.len() ==> lower_ascii_text(#[trigger] a.platforms[k])
}

/// Bounds every text of an extracted record. When the platform names given are ASCII,
/// each one kept is its own lower case.
pub fn sanitize_action(a: LlmAction) -> (r: LlmAction)
    ensures
        r@ == sanitized(a@),
        ascii_platforms(a@) ==> lower_ascii_platforms(r@),
{
    let ghost asc = ascii_platforms(a@);
    let mut a = a;
    a.establishment = clamp(a.establishment, 200);
    clamp_opt(&mut a.area, 120);
    clamp_opt(&mut a.city, 120);
    clamp_opt(&mut a.brand, 120);
    clamp_opt(&mut a.operator, 200);
    clamp_opt(&mut a.fssai_number, 64);
    clamp_opt(&mut a.details, 2000);
    let mut violations: Vec<String> = Vec::new();
    let mut i: usize = 0;
    let ghost vs = strs(a.violations@);
    assert(vs.take(0) =~= seq![]);
    assert(strs(violations@) =~= seq![]);
    while i < a.violations.len()
        invariant
            i <= a.violations@.len(),
            vs == strs(a.violations@),
            strs(violations@) == clamp_list(vs.take(i as int), 300),
        decreases a.violations@.len() - i,
    {
        assert(vs.take(i + 1).drop_last() =~= vs.take(i as int));
        let c = clamp(a.violations[i].clone(), 300);
        if !c.as_str().is_empty() {
            let ghost before = strs(violations@);
            violations.push(c);
            assert(strs(violations@) =~= before + seq![vs.take(i + 1).last()].map_values(
                |s: Seq<char>| clamped(s, 300),
            ));
        } else {
            assert(strs(violations@) =~= strs(violations@) + seq![]);
        }
        i = i + 1;
    }
    assert(vs.take(vs.len() as int) =~= vs);
    violations.truncate(5);
    assert(strs(violations@) =~= at_most(clamp_list(vs, 300), 5));
    let mut platforms: Vec<String> = Vec::new();
    let mut j: usize = 0;
    let ghost ps = strs(a.platforms@);
    assert(ps.take(0) =~= seq![]);
    assert(strs(platforms@) =~= seq![]);
    while j < a.platforms.len()
        invariant
            j <= a.platforms@.len(),
            ps == strs(a.platforms@),
            strs(platforms@) == platform_list(ps.take(j as int)),
            asc ==> forall|k: int| 0 <= k < ps.len() ==> ascii_text(#[trigger] ps[k]),
            asc ==> forall|q: int|
                0 <= q < platforms@.len() ==> lower_ascii_text(#[trigger] platforms@[q]@),
        decreases a.platforms@.len() - j,
    {
        assert(ps.take(j + 1).drop_last() =~= ps.take(j as int));
        let t = crate::text::trim_str(a.platforms[j].as_str());
        proof {
            if asc {
                assert(ascii_text(ps[j as int]));
                crate::text::lemma_trim_ascii(ps[j as int]);
            }
        }
        let c = to_lower(t.as_str());
        proof {
            if asc {
                crate::text::lemma_ascii_lowered(t@);
            }
        }
        if !c.as_str().is_empty() {
            let ghost before = strs(platforms@);
            platforms.push(c);
            assert(strs(platforms@) =~= before + seq![c@]);
        } else {
            assert(strs(platforms@) =~= strs(platforms@) + seq![]);
        }
        j = j + 1;
    }
    assert(ps.take(ps.len() as int) =~= ps);
    let ghost full = platforms@;
    platforms.truncate(6);
    assert(strs(platforms@) =~= at_most(platform_list(ps), 6));
    assert(forall|q: int| 0 <= q < platforms@.len() ==> platforms@[q] == full[q]);
    a.violations = violations;
    a.platforms = platforms;
    a
}

/// The reply text reports that the daily quota is spent.
pub open spec fn quota_exhausted(text: Seq<char>) -> bool {
    contains(text, "Quota exceeded"@) || contains(text, "RESOURCE_EXHAUSTED"@)
}

/// Whether an error reply says that the quota is spent, so retrying cannot help.
pub fn is_quota_exhausted(text: &str) -> (r: bool)
    ensures
        r == quota_exhausted(text@),
{
    contains_str(text, "Quota exceeded") || contains_str(text, "RESOURCE_EXHAUSTED")
}

/// The most seconds a retry ever waits.
pub open spec fn max_delay() -> int {
    120
}

/// The base wait before retry `attempt`: the server's hint when it gave one, else
/// 15 s doubled per attempt up to four doublings; never more than 120 s.
pub open spec fn base_delay(attempt: usize, retry_after: Option<u64>) -> int {
    let b: int = match retry_after {
        Some(s) => s as int,
        None => if attempt == 0 {
            15
        } else if attempt == 1 {
            30
        } else if attempt == 2 {
            60
        } else if attempt == 3 {
            120
        } else {
            240
        },
    };
    if b <= max_delay() {
        b
    } else {
        max_delay()
    }
}

/// The wait before retry `attempt` with full jitter: the base wait less up to half of it,
/// the amount taken from `nanos`.
pub open spec fn jittered_delay(attempt: usize, retry_after: Option<u64>, nanos: u64) -> int {
    let secs = base_delay(attempt, retry_after);
    secs - (nanos as int) % (secs / 2 + 1)
}

/// The wait in seconds before retry `attempt`, jittered by `nanos`.
pub fn retry_delay_with(attempt: usize, retry_after: Option<u64>, nanos: u64) -> (r: u64)
    ensures
        r == jittered_delay(attempt, retry_after, nanos),
{
    let secs: u64 = match retry_after {
        Some(s) => if s <= 120 {
            s
        } else {
            120
        },
        None => {
            let b: u64 = if attempt == 0 {
                15
            } else if attempt == 1 {
                30
            } else if attempt == 2 {
                60
            } else if attempt == 3 {
                120
            } else {
                240
            };
            if b <= 120 {
                b
            } else {
                120
            }
        },
    };
    secs - nanos % (secs / 2 + 1)
}

/// Calls `SystemTime::now` and returns the sub-second nanoseconds since the Unix epoch
/// (0 when the clock reads before the epoch); only that it is under one billion is stated.
#[verifier::external_body]
fn clock_subsec_nanos() -> (r: u64)
    ensures
        r < 1_000_000_000,
{
    std::time::SystemTime::now().duration_since(std::time::UNIX_EPOCH).map(
        |t| t.subsec_nanos() as u64,
    ).unwrap_or(0)
}

/// The wait in seconds before retry `attempt`, jittered by the clock so that concurrent
/// batches do not retry in lockstep.
pub fn retry_delay(attempt: usize, retry_after: Option<u64>) -> (r: u64)
    ensures
        exists|n: u64| n < 1_000_000_000 && r == jittered_delay(attempt, retry_after, n),
{
    let n = clock_subsec_nanos();
    retry_delay_with(attempt, retry_after, n)
}

/// Every wait lies between half the base wait (rounded up) and the base wait, and so
/// never exceeds 120 seconds.
pub proof fn retry_delay_bounds(attempt: usize, retry_after: Option<u64>, nanos: u64)
    ensures
        base_delay(attempt, retry_after) - base_delay(attempt, retry_after) / 2
            <= jittered_delay(attempt, retry_after, nanos) <= base_delay(attempt, retry_after)
            <= max_delay(),
{
}

/// Without a hint, the base wait doubles with each attempt until it reaches 120 seconds.
pub proof fn retry_delay_doubles(attempt: usize)
    requires
        attempt < usize::MAX,
    ensures
        base_delay((attempt + 1) as usize, None) == if 2 * base_delay(attempt, None)
            <= max_delay() {
            2 * base_delay(attempt, None)
        } else {
            max_delay()
        },
{
}

/// The lower-cased text searched for signals: title, snippet and source joined by spaces.
pub open spec fn haystack_of(it: NewsRecord) -> Seq<char> {
    let snippet = match it.snippet {
        Some(s) => s,
        None => seq![],
    };
    let source = match it.source {
        Some(s) => s,
        None => seq![],
    };
    lowercase(it.title + seq![' '] + snippet + seq![' '] + source)
}

/// The text of an optional string, empty when absent.
fn or_empty(o: &Option<String>) -> (r: String)
    ensures
        r@ == match opt_chars(*o) {
            Some(s) => s,
            None => seq![],
        },
{
    match o {
        Some(s) => s.clone(),
        None => String::new(),
    }
}

/// The lower-cased title, snippet and source of an item, joined by spaces.
pub fn haystack(it: &NewsItem) -> (r: String)
    ensures
        r@ == haystack_of(it@),
{
    let mut h = it.title.clone();
    h.append(" ");
    h.append(or_empty(&it.snippet).as_str());
    h.append(" ");
    h.append(or_empty(&it.source).as_str());
    proof {
        reveal_strlit(" ");
        assert(h@ =~= it@.title + seq![' '] + match it@.snippet {
            Some(s) => s,
            None => seq![],
        } + seq![' '] + match it@.source {
            Some(s) => s,
            None => seq![],
        });
    }
    to_lower(h.as_str())
}

/// The enforcement action that keywords in the lower-cased text `t` point to, checked
/// from the most specific kind down to a bare mention of a raid, an inspection or the FDA.
pub open spec fn signal(t: Seq<char>) -> Option<ActionType> {
    if contains(t, "improvement notice"@) {
        Some(ActionType::ImprovementNotice)
    } else if (contains(t, "licence"@) && contains(t, "suspend"@)) || (contains(t, "license"@)
        && contains(t, "suspend"@)) {
        Some(ActionType::LicenceSuspension)
    } else if contains(t, "stop business"@) || (contains(t, "closure"@) && contains(t, "order"@))
        || (contains(t, "shut down"@) && contains(t, "fda"@)) {
        Some(ActionType::StopBusiness)
    } else if contains(t, "seal"@) {
        Some(ActionType::Sealing)
    } else if contains(t, "seiz"@) {
        Some(ActionType::Seizure)
    } else if contains(t, "reopen"@) {
        Some(ActionType::Reopened)
    } else if contains(t, "raid"@) || contains(t, "inspect"@) || contains(t, "fda"@) {
        Some(ActionType::Inspection)
    } else {
        None
    }
}

/// The enforcement action that keywords in the lower-cased text point to.
pub fn action_signal(text: &str) -> (r: Option<ActionType>)
    ensures
        r == signal(text@),
{
    if contains_str(text, "improvement notice") {
        Some(ActionType::ImprovementNotice)
    } else if contains_str(text, "licence") && contains_str(text, "suspend") || contains_str(
        text,
        "license",
    ) && contains_str(text, "suspend") {
        Some(ActionType::LicenceSuspension)
    } else if contains_str(text, "stop business") || contains_str(text, "closure")
        && contains_str(text, "order") || contains_str(text, "shut down") && contains_str(
        text,
        "fda",
    ) {
        Some(ActionType::StopBusiness)
    } else if contains_str(text, "seal") {
        Some(ActionType::Sealing)
    } else if contains_str(text, "seiz") {
        Some(ActionType::Seizure)
    } else if contains_str(text, "reopen") {
        Some(ActionType::Reopened)
    } else if contains_str(text, "raid") || contains_str(text, "inspect") || contains_str(
        text,
        "fda",
    ) {
        Some(ActionType::Inspection)
    } else {
        None
    }
}

/// An item is worth a model call when its text carries an action signal and mentions
/// the FDA, food safety, a licence, sealing, seizure, a raid or an inspection.
pub open spec fn relevant(it: NewsRecord) -> bool {
    let h = haystack_of(it);
    &&& signal(h) is Some
    &&& {
        ||| contains(h, "fda"@)
        ||| contains(h, "food safety"@)
        ||| contains(h, "licence"@)
        ||| contains(h, "license"@)
        ||| contains(h, "seal"@)
        ||| contains(h, "seiz"@)
        ||| contains(h, "raid"@)
        ||| contains(h, "inspect"@)
    }
}

/// Whether an item carries an FDA or enforcement signal worth spending quota on.
pub fn is_likely_relevant(it: &NewsItem) -> (r: bool)
    ensures
        r == relevant(it@),
{
    let h = haystack(it);
    let hs = h.as_str();
    action_signal(hs).is_some() && (contains_str(hs, "fda") || contains_str(hs, "food safety")
        || contains_str(hs, "licence") || contains_str(hs, "license") || contains_str(hs, "seal")
        || contains_str(hs, "seiz") || contains_str(hs, "raid") || contains_str(hs, "inspect"))
}

/// A title separator for the keyword fallback.
pub open spec fn is_title_sep(c: char) -> bool {
    c == '|' || c == '-' || c == ':'
}

/// The number of characters of `s` before its first separator.
pub open spec fn segment_len(s: Seq<char>) -> int
    decreases s.len(),
{
    if s.len() == 0 || is_title_sep(s[0]) {
        0
    } else {
        1 + segment_len(s.drop_first())
    }
}

/// The establishment name the keyword fallback reads from a title: the part before the
/// first `|`, `-` or `:`, trimmed, cut to 120 characters and trimmed again.
pub open spec fn title_name(title: Seq<char>) -> Seq<char> {
    let seg = trim(title.take(segment_len(title)));
    trim(if seg.len() > 120 {
        seg.take(120)
    } else {
        seg
    })
}

/// The record a keyword rule keeps for item `it` found at position `orig`: one with the
/// signalled action kind and the title's name, or none when there is no signal or no name.
pub open spec fn rule_record(orig: usize, it: NewsRecord) -> Option<ActionRecord> {
    match signal(haystack_of(it)) {
        Some(t) => if title_name(it.title).len() == 0 {
            None
        } else {
            Some(
                ActionRecord {
                    establishment: title_name(it.title),
                    area: None,
                    city: None,
                    brand: None,
                    operator: None,
                    outlet_type: None,
                    action_type: t,
                    action_date: None,
                    violations: seq![],
                    compliance_score: None,
                    fssai_number: None,
                    details: it.snippet,
                    platforms: seq![],
                    source_index: orig,
                },
            )
        },
        None => None,
    }
}

/// The records the keyword rules keep for `items`, in order.
pub open spec fn rule_records(items: Seq<(usize, NewsItem)>) -> Seq<ActionRecord>
    decreases items.len(),
{
    if items.len() == 0 {
        seq![]
    } else {
        rule_records(items.drop_last()) + match rule_record(items.last().0, items.last().1@) {
            Some(a) => seq![a],
            None => seq![],
        }
    }
}

/// The views of a sequence of records.
pub open spec fn records(v: Seq<LlmAction>) -> Seq<ActionRecord> {
    v.map_values(|a: LlmAction| a@)
}

/// The characters of `s` before its first title separator.
fn title_segment(s: &[char]) -> (r: Vec<char>)
    ensures
        r@ == s@.take(segment_len(s@)),
{
    let mut i: usize = 0;
    assert(s@.skip(0) =~= s@);
    while i < s.len() && !(s[i] == '|' || s[i] == '-' || s[i] == ':')
        invariant
            i <= s@.len(),
            segment_len(s@) == i + segment_len(s@.skip(i as int)),
        decreases s@.len() - i,
    {
        assert(s@.skip(i as int)[0] == s@[i as int]);
        assert(s@.skip(i as int).drop_first() =~= s@.skip(i + 1));
        i = i + 1;
    }
    if i < s.len() {
        assert(s@.skip(i as int)[0] == s@[i as int]);
    }
    take_chars(s, i)
}

/// The keyword-rule record for one item, if any.
fn rule_one(orig: usize, it: &NewsItem) -> (r: Option<LlmAction>)
    ensures
        match r {
            Some(a) => rule_record(orig, it@) == Some(a@),
            None => rule_record(orig, it@) is None,
        },
{
    let h = haystack(it);
    let action_type = match action_signal(h.as_str()) {
        Some(t) => t,
        None => return None,
    };
    let title = chars_of(it.title.as_str());
    let seg = trim_chars(title_segment(title.as_slice()).as_slice());
    let cut = take_chars(seg.as_slice(), 120);
    assert(cut@ =~= (if seg@.len() > 120 {
        seg@.take(120)
    } else {
        seg@
    }));
    let name = trim_chars(cut.as_slice());
    assert(name@ == title_name(it@.title));
    if name.len() == 0 {
        return None;
    }
    let a = LlmAction::minimal(string_of(name.as_slice()), action_type, orig, crate::models::copy_opt(&it.snippet));
    assert(a@.violations =~= seq![]);
    assert(a@.platforms =~= seq![]);
    assert(a@ == rule_record(orig, it@)->0);
    Some(a)
}

/// Deterministic safety net: when a batch's model call fails, keeps one minimal
/// record per signal-bearing item so the run degrades instead of zeroing out.
pub fn rule_extract(indexed: &[(usize, NewsItem)]) -> (r: Vec<LlmAction>)
    ensures
        records(r@) == rule_records(indexed@),
{
    let mut out: Vec<LlmAction> = Vec::new();
    let mut i: usize = 0;
    assert(indexed@.take(0) =~= seq![]);
    assert(records(out@) =~= seq![]);
    while i < indexed.len()
        invariant
            i <= indexed@.len(),
            records(out@) == rule_records(indexed@.take(i as int)),
        decreases indexed@.len() - i,
    {
        assert(indexed@.take(i + 1).drop_last() =~= indexed@.take(i as int));
        let (orig, it) = (indexed[i].0, &indexed[i].1);
        let ghost before = records(out@);
        match rule_one(orig, it) {
            Some(a) => {
                out.push(a);
                assert(records(out@) =~= before + seq![out@.last()@]);
            },
            None => {
                assert(before + seq![] =~= before);
            },
        }
        i = i + 1;
    }
    assert(indexed@.take(indexed@.len() as int) =~= indexed@);
    out
}

/// The positions of the items worth a model call, in order.
pub open spec fn relevant_positions(items: Seq<NewsItem>) -> Seq<usize>
    decreases items.len(),
{
    if items.len() == 0 {
        seq![]
    } else {
        relevant_positions(items.drop_last()) + if relevant(items.last()@) {
            seq![(items.len() - 1) as usize]
        } else {
            seq![]
        }
    }
}

/// The positions of the items worth a model call: the pre-filter that keeps quota for
/// items with an FDA or enforcement signal.
pub fn relevant_indices(items: &[NewsItem]) -> (r: Vec<usize>)
    ensures
        r@ == relevant_positions(items@),
{
    let mut out: Vec<usize> = Vec::new();
    let mut i: usize = 0;
    assert(items@.take(0) =~= seq![]);
    while i < items.len()
        invariant
            i <= items@.len(),
            out@ == relevant_positions(items@.take(i as int)),
        decreases items@.len() - i,
    {
        assert(items@.take(i + 1).drop_last() =~= items@.take(i as int));
        assert(items@.take(i + 1).last() == items@[i as int]);
        if is_likely_relevant(&items[i]) {
            out.push(i);
        } else {
            assert(out@ + seq![] =~= out@);
        }
        i = i + 1;
    }
    assert(items@.take(items@.len() as int) =~= items@);
    out
}

/// The number of items sent to the model in one call.
pub open spec fn batch_size() -> int {
    20
}

/// `s` cut into consecutive chunks of `batch_size` (the last one possibly shorter).
pub open spec fn chunks(s: Seq<usize>) -> Seq<Seq<usize>>
    decreases s.len(),
{
    if s.len() == 0 {
        seq![]
    } else if s.len() <= batch_size() {
        seq![s]
    } else {
        seq![s.take(batch_size())] + chunks(s.skip(batch_size()))
    }
}

/// The views of a list of index lists.
pub open spec fn index_lists(v: Seq<Vec<usize>>) -> Seq<Seq<usize>> {
    v.map_values(|b: Vec<usize>| b@)
}

/// The positions of `positions` from `start` on.
fn tail_from(positions: &[usize], start: usize) -> (r: Vec<usize>)
    requires
        start <= positions@.len(),
    ensures
        r@ == positions@.skip(start as int),
{
    let mut r: Vec<usize> = Vec::new();
    let mut p: usize = start;
    while p < positions.len()
        invariant
            start <= p <= positions@.len(),
            r@ == positions@.subrange(start as int, p as int),
        decreases positions@.len() - p,
    {
        r.push(positions[p]);
        p = p + 1;
        assert(r@ =~= positions@.subrange(start as int, p as int));
    }
    assert(positions@.subrange(start as int, positions@.len() as int) =~= positions@.skip(
        start as int,
    ));
    r
}

/// The batches for the model: the positions cut into chunks of 20.
pub fn batch_plan(positions: &[usize]) -> (r: Vec<Vec<usize>>)
    ensures
        index_lists(r@) == chunks(positions@),
{
    let mut out: Vec<Vec<usize>> = Vec::new();
    let mut start: usize = 0;
    assert(positions@.skip(0) =~= positions@);
    assert(index_lists(out@) =~= seq![]);
    while start < positions.len()
        invariant
            start <= positions@.len(),
            index_lists(out@) + chunks(positions@.skip(start as int)) == chunks(positions@),
        decreases positions@.len() - start,
    {
        let rest = tail_from(positions, start);
        let ghost before = index_lists(out@);
        if rest.len() <= 20 {
            out.push(rest);
            assert(index_lists(out@) =~= before + seq![positions@.skip(start as int)]);
            assert(positions@.skip(positions@.len() as int) =~= seq![]);
            assert(index_lists(out@) + chunks(positions@.skip(positions@.len() as int))
                =~= index_lists(out@));
            start = positions.len();
        } else {
            let chunk = take_usizes(rest.as_slice(), 20);
            out.push(chunk);
            assert(positions@.skip(start as int).skip(20) =~= positions@.skip(start + 20));
            assert(index_lists(out@) =~= before + seq![positions@.skip(start as int).take(20)]);
            start = start + 20;
        }
    }
    out
}

/// The first `n` positions of `v`.
fn take_usizes(v: &[usize], n: usize) -> (r: Vec<usize>)
    requires
        n <= v@.len(),
    ensures
        r@ == v@.take(n as int),
{
    let mut r: Vec<usize> = Vec::new();
    let mut i: usize = 0;
    while i < n
        invariant
            i <= n <= v@.len(),
            r@ == v@.take(i as int),
        decreases n - i,
    {
        r.push(v[i]);
        i = i + 1;
        assert(r@ =~= v@.take(i as int));
    }
    r
}

/// The records of a batch whose `source_index` addresses the batch, re-pointed at the
/// positions of the full item list that `map` gives; the others are dropped.
pub open spec fn remapped(batch: Seq<ActionRecord>, map: Seq<usize>) -> Seq<ActionRecord>
    decreases batch.len(),
{
    if batch.len() == 0 {
        seq![]
    } else {
        let a = batch.last();
        remapped(batch.drop_last(), map) + if a.source_index < map.len() {
            seq![ActionRecord { source_index: map[a.source_index as int], ..a }]
        } else {
            seq![]
        }
    }
}

/// Re-points a batch's records from positions in the batch to positions in the full
/// item list, dropping records whose position is outside the batch.
pub fn remap_batch(batch: &Vec<LlmAction>, map: &[usize]) -> (r: Vec<LlmAction>)
    ensures
        records(r@) == remapped(records(batch@), map@),
{
    let mut out: Vec<LlmAction> = Vec::new();
    let mut i: usize = 0;
    let ghost bs = records(batch@);
    assert(bs.take(0) =~= seq![]);
    assert(records(out@) =~= seq![]);
    while i < batch.len()
        invariant
            i <= batch@.len(),
            bs == records(batch@),
            records(out@) == remapped(bs.take(i as int), map@),
        decreases batch@.len() - i,
    {
        assert(bs.take(i + 1).drop_last() =~= bs.take(i as int));
        assert(bs.take(i + 1).last() == batch@[i as int]@);
        let ghost before = records(out@);
        let src = batch[i].source_index;
        if src < map.len() {
            let mut a = batch[i].copy();
            a.source_index = map[src];
            out.push(a);
            assert(records(out@) =~= before + seq![out@.last()@]);
        } else {
            assert(before + seq![] =~= before);
        }
        i = i + 1;
    }
    assert(bs.take(bs.len() as int) =~= bs);
    out
}

/// The key under which records count as duplicates: source item, lower-cased
/// establishment and action kind.
pub open spec fn action_key(a: ActionRecord) -> (usize, Seq<char>, ActionType) {
    (a.source_index, lowercase(a.establishment), a.action_type)
}

/// The records whose establishment is not blank.
pub open spec fn named(v: Seq<ActionRecord>) -> Seq<ActionRecord>
    decreases v.len(),
{
    if v.len() == 0 {
        seq![]
    } else {
        named(v.drop_last()) + if trim(v.last().establishment).len() > 0 {
            seq![v.last()]
        } else {
            seq![]
        }
    }
}

/// The first record of each key, in order.
pub open spec fn first_per_key(v: Seq<ActionRecord>) -> Seq<ActionRecord>
    decreases v.len(),
{
    if v.len() == 0 {
        seq![]
    } else {
        first_per_key(v.drop_last()) + if exists|j: int|
            0 <= j < v.len() - 1 && action_key(#[trigger] v[j]) == action_key(v.last()) {
            seq![]
        } else {
            seq![v.last()]
        }
    }
}

/// The records kept from a run: named ones, the first of each key, each sanitized.
pub open spec fn finalized(v: Seq<ActionRecord>) -> Seq<ActionRecord> {
    first_per_key(named(v)).map_values(|a: ActionRecord| sanitized(a))
}

/// Keeps the named records, the first of each (source, lower-cased establishment,
/// action kind), and bounds their texts. When every platform name given is ASCII, each
/// one kept is its own lower case.
pub fn finalize_actions(actions: Vec<LlmAction>) -> (r: Vec<LlmAction>)
    ensures
        records(r@) == finalized(records(actions@)),
        (forall|k: int| 0 <= k < actions@.len() ==> ascii_platforms(#[trigger] actions@[k]@))
            ==> forall|k: int| 0 <= k < r@.len() ==> lower_ascii_platforms(#[trigger] r@[k]@),
{
    let ghost all = records(actions@);
    let ghost hyp = forall|k: int| 0 <= k < actions@.len() ==> ascii_platforms(#[trigger] actions@[k]@);
    let mut kept: Vec<LlmAction> = Vec::new();
    let mut keys: Vec<(usize, String, ActionType)> = Vec::new();
    let ghost mut seen: Seq<ActionRecord> = seq![];
    let mut i: usize = 0;
    assert(all.take(0) =~= seq![]);
    assert(records(kept@) =~= seq![]);
    while i < actions.len()
        invariant
            i <= actions@.len(),
            all == records(actions@),
            seen == named(all.take(i as int)),
            keys@.len() == seen.len(),
            forall|j: int|
                0 <= j < seen.len() ==> (#[trigger] keys@[j]).0 == action_key(seen[j]).0
                    && keys@[j].1@ == action_key(seen[j]).1 && keys@[j].2 == action_key(
                    seen[j],
                ).2,
            records(kept@) == first_per_key(seen),
            hyp == forall|k: int| 0 <= k < actions@.len() ==> ascii_platforms(#[trigger] actions@[k]@),
            hyp ==> forall|q: int| 0 <= q < kept@.len() ==> ascii_platforms(#[trigger] kept@[q]@),
        decreases actions@.len() - i,
    {
        assert(all.take(i + 1).drop_last() =~= all.take(i as int));
        assert(all.take(i + 1).last() == actions@[i as int]@);
        let a = &actions[i];
        let t = crate::text::trim_str(a.establishment.as_str());
        if !t.as_str().is_empty() {
            let low = to_lower(a.establishment.as_str());
            let mut dup = false;
            let mut j: usize = 0;
            while j < keys.len()
                invariant
                    j <= keys@.len(),
                    keys@.len() == seen.len(),
                    forall|q: int|
                        0 <= q < seen.len() ==> (#[trigger] keys@[q]).0 == action_key(seen[q]).0
                            && keys@[q].1@ == action_key(seen[q]).1 && keys@[q].2 == action_key(
                            seen[q],
                        ).2,
                    dup <==> exists|q: int|
                        0 <= q < j && action_key(#[trigger] seen[q]) == action_key(a@),
                    low@ == lowercase(a@.establishment),
                decreases keys@.len() - j,
            {
                let same = keys[j].0 == a.source_index && keys[j].1 == low && keys[j].2
                    == a.action_type;
                assert(same == (action_key(seen[j as int]) == action_key(a@)));
                if same {
                    dup = true;
                }
                j = j + 1;
            }
            let ghost prev = seen;
            proof {
                seen = seen.push(a@);
                assert(seen.drop_last() =~= prev);
            }
            keys.push((a.source_index, low, a.action_type));
            if !dup {
                let ghost before = records(kept@);
                let ghost prev_kept = kept@;
                kept.push(a.copy());
                assert(records(kept@) =~= before + seq![a@]);
                assert(forall|q: int| 0 <= q < prev_kept.len() ==> kept@[q] == prev_kept[q]);
                assert(hyp ==> ascii_platforms(actions@[i as int]@));
            } else {
                assert(records(kept@) + seq![] =~= records(kept@));
            }
        } else {
            assert(named(all.take(i + 1)) =~= named(all.take(i as int)) + seq![]);
        }
        i = i + 1;
    }
    assert(all.take(all.len() as int) =~= all);
    let mut out: Vec<LlmAction> = Vec::new();
    let mut k: usize = 0;
    let ghost fk = records(kept@);
    assert(records(out@) =~= fk.take(0).map_values(|a: ActionRecord| sanitized(a)));
    while k < kept.len()
        invariant
            k <= kept@.len(),
            fk == records(kept@),
            records(out@) == fk.take(k as int).map_values(|a: ActionRecord| sanitized(a)),
            hyp ==> forall|q: int| 0 <= q < kept@.len() ==> ascii_platforms(#[trigger] kept@[q]@),
            hyp ==> forall|q: int| 0 <= q < out@.len() ==> lower_ascii_platforms(#[trigger] out@[q]@),
        decreases kept@.len() - k,
    {
        let ghost before = records(out@);
        let ghost prev_out = out@;
        let c = sanitize_action(kept[k].copy());
        assert(c@ == sanitized(fk[k as int]));
        assert(hyp ==> ascii_platforms(kept@[k as int]@));
        out.push(c);
        assert(forall|q: int| 0 <= q < prev_out.len() ==> out@[q] == prev_out[q]);
        assert(records(out@) =~= before.push(sanitized(fk[k as int])));
        assert(fk.take(k + 1).map_values(|a: ActionRecord| sanitized(a)) =~= fk.take(
            k as int,
        ).map_values(|a: ActionRecord| sanitized(a)).push(sanitized(fk[k as int])));
        k = k + 1;
    }
    assert(fk.take(fk.len() as int) =~= fk);
    out
}

/// The items a batch covers, each with its position in the full list.
pub open spec fn batch_pairs(items: Seq<NewsItem>, map: Seq<usize>) -> Seq<(usize, NewsItem)> {
    Seq::new(map.len(), |k: int| (map[k], items[map[k] as int]))
}

/// What a batch contributes: its model records re-pointed at the full list, or, when
/// its call failed, the keyword-rule records of its items.
pub open spec fn batch_records(
    items: Seq<NewsItem>,
    map: Seq<usize>,
    result: Option<Seq<ActionRecord>>,
) -> Seq<ActionRecord> {
    match result {
        Some(b) => remapped(b, map),
        None => rule_records(batch_pairs(items, map)),
    }
}

/// A batch counts as failed when its call failed and the keyword rules kept nothing.
pub open spec fn batch_failed(
    items: Seq<NewsItem>,
    map: Seq<usize>,
    result: Option<Seq<ActionRecord>>,
) -> bool {
    result is None && rule_records(batch_pairs(items, map)).len() == 0
}

/// The records of all batches, batch by batch.
pub open spec fn merged(
    items: Seq<NewsItem>,
    plan: Seq<Seq<usize>>,
    results: Seq<Option<Seq<ActionRecord>>>,
) -> Seq<ActionRecord>
    decreases plan.len(),
{
    if plan.len() == 0 {
        seq![]
    } else {
        merged(items, plan.drop_last(), results) + batch_records(
            items,
            plan.last(),
            results[plan.len() - 1],
        )
    }
}

/// The number of failed batches.
pub open spec fn failures(
    items: Seq<NewsItem>,
    plan: Seq<Seq<usize>>,
    results: Seq<Option<Seq<ActionRecord>>>,
) -> int
    decreases plan.len(),
{
    if plan.len() == 0 {
        0
    } else {
        failures(items, plan.drop_last(), results) + if batch_failed(
            items,
            plan.last(),
            results[plan.len() - 1],
        ) {
            1int
        } else {
            0int
        }
    }
}

/// The views of the batch results.
pub open spec fn result_views(v: Seq<Option<Vec<LlmAction>>>) -> Seq<Option<Seq<ActionRecord>>> {
    v.map_values(
        |o: Option<Vec<LlmAction>>|
            match o {
                Some(b) => Some(records(b@)),
                None => None,
            },
    )
}

/// Every record of every batch result names its platforms in ASCII.
pub open spec fn ascii_batches(results: Seq<Option<Seq<ActionRecord>>>) -> bool {
    forall|b: int|
        #![trigger results[b]]
        0 <= b < results.len() ==> match results[b] {
            Some(v) => forall|k: int| 0 <= k < v.len() ==> ascii_platforms(#[trigger] v[k]),
            None => true,
        }
}

/// Re-pointing records keeps their platform names.
proof fn lemma_remapped_ascii(batch: Seq<ActionRecord>, map: Seq<usize>)
    requires
        forall|k: int| 0 <= k < batch.len() ==> ascii_platforms(#[trigger] batch[k]),
    ensures
        forall|k: int|
            0 <= k < remapped(batch, map).len() ==> ascii_platforms(#[trigger] remapped(batch, map)[k]),
    decreases batch.len(),
{
    if batch.len() > 0 {
        let init = batch.drop_last();
        assert forall|k: int| 0 <= k < init.len() implies ascii_platforms(#[trigger] init[k]) by {
            assert(init[k] == batch[k]);
        }
        lemma_remapped_ascii(init, map);
        let before = remapped(init, map);
        let all = remapped(batch, map);
        assert(ascii_platforms(batch[batch.len() - 1]));
        assert forall|k: int| 0 <= k < all.len() implies ascii_platforms(#[trigger] all[k]) by {
            if k < before.len() {
                assert(all[k] == before[k]);
            } else {
                assert(all[k].platforms == batch.last().platforms);
            }
        }
    }
}

/// The keyword-rule records name no platform.
proof fn lemma_rule_records_ascii(items: Seq<(usize, NewsItem)>)
    ensures
        forall|k: int|
            0 <= k < rule_records(items).len() ==> ascii_platforms(#[trigger] rule_records(items)[k]),
    decreases items.len(),
{
    if items.len() > 0 {
        lemma_rule_records_ascii(items.drop_last());
        let before = rule_records(items.drop_last());
        let all = rule_records(items);
        assert forall|k: int| 0 <= k < all.len() implies ascii_platforms(#[trigger] all[k]) by {
            if k < before.len() {
                assert(all[k] == before[k]);
            } else {
                assert(all[k].platforms.len() == 0);
            }
        }
    }
}

/// When every batch result names its platforms in ASCII, so does every merged record.
proof fn lemma_merged_ascii(
    items: Seq<NewsItem>,
    plan: Seq<Seq<usize>>,
    results: Seq<Option<Seq<ActionRecord>>>,
)
    requires
        plan.len() <= results.len(),
        ascii_batches(results),
    ensures
        forall|k: int|
            0 <= k < merged(items, plan, results).len() ==> ascii_platforms(
                #[trigger] merged(items, plan, results)[k],
            ),
    decreases plan.len(),
{
    if plan.len() > 0 {
        lemma_merged_ascii(items, plan.drop_last(), results);
        let before = merged(items, plan.drop_last(), results);
        let r = results[plan.len() - 1];
        let c = batch_records(items, plan.last(), r);
        match r {
            Some(b) => lemma_remapped_ascii(b, plan.last()),
            None => lemma_rule_records_ascii(batch_pairs(items, plan.last())),
        }
        let all = merged(items, plan, results);
        assert forall|k: int| 0 <= k < all.len() implies ascii_platforms(#[trigger] all[k]) by {
            if k < before.len() {
                assert(all[k] == before[k]);
            } else {
                assert(all[k] == c[k - before.len()]);
            }
        }
    }
}

/// Why extraction produced nothing.
#[derive(Debug, Clone, Copy, PartialEq, Eq, Structural)]
pub enum ExtractError {
    /// Every batch failed and the keyword rules kept nothing for any of them.
    AllBatchesFailed(usize),
}

/// The items a batch covers, each with its position.
fn pairs_for(items: &[NewsItem], map: &Vec<usize>) -> (r: Vec<(usize, NewsItem)>)
    requires
        forall|k: int| 0 <= k < map@.len() ==> #[trigger] map@[k] < items@.len(),
    ensures
        r@.len() == map@.len(),
        forall|k: int|
            0 <= k < map@.len() ==> (#[trigger] r@[k]).0 == map@[k]
                && r@[k].1@ == items@[map@[k] as int]@,
{
    let mut out: Vec<(usize, NewsItem)> = Vec::new();
    let mut k: usize = 0;
    while k < map.len()
        invariant
            k <= map@.len(),
            forall|q: int| 0 <= q < map@.len() ==> #[trigger] map@[q] < items@.len(),
            out@.len() == k,
            forall|q: int|
                0 <= q < k ==> (#[trigger] out@[q]).0 == map@[q]
                    && out@[q].1@ == items@[map@[q] as int]@,
        decreases map@.len() - k,
    {
        let p = map[k];
        out.push((p, items[p].copy()));
        k = k + 1;
    }
    out
}

/// The keyword-rule records depend only on the views of the items.
proof fn lemma_rule_records_views(a: Seq<(usize, NewsItem)>, b: Seq<(usize, NewsItem)>)
    requires
        a.len() == b.len(),
        forall|k: int| 0 <= k < a.len() ==> (#[trigger] a[k]).0 == b[k].0 && a[k].1@ == b[k].1@,
    ensures
        rule_records(a) == rule_records(b),
    decreases a.len(),
{
    if a.len() > 0 {
        lemma_rule_records_views(a.drop_last(), b.drop_last());
        assert(a.last().0 == b.last().0 && a.last().1@ == b.last().1@);
    }
}

/// Merges the outcome of every batch: a batch whose call returned records contributes
/// them re-pointed at the full item list; a failed batch contributes the keyword-rule
/// records of its items instead, and counts as failed when there are none. When there
/// was at least one batch and every batch failed, the whole extraction fails; otherwise
/// the merged records are finalized (no batch at all gives no records).
pub fn collect_extractions(
    items: &[NewsItem],
    plan: &Vec<Vec<usize>>,
    results: &Vec<Option<Vec<LlmAction>>>,
) -> (r: Result<Vec<LlmAction>, ExtractError>)
    requires
        plan@.len() == results@.len(),
        forall|b: int, k: int|
            0 <= b < plan@.len() && 0 <= k < plan@[b]@.len() ==> #[trigger] plan@[b]@[k]
                < items@.len(),
    ensures
        match r {
            Ok(v) => (plan@.len() == 0 || failures(
                items@,
                index_lists(plan@),
                result_views(results@),
            ) < plan@.len()) && records(v@) == finalized(
                merged(items@, index_lists(plan@), result_views(results@)),
            ) && (ascii_batches(result_views(results@)) ==> forall|k: int|
                0 <= k < v@.len() ==> lower_ascii_platforms(#[trigger] v@[k]@)),
            Err(ExtractError::AllBatchesFailed(n)) => n == plan@.len() && n > 0 && failures(
                items@,
                index_lists(plan@),
                result_views(results@),
            ) == plan@.len(),
        },
{
    let ghost pl = index_lists(plan@);
    let ghost rs = result_views(results@);
    let mut all: Vec<LlmAction> = Vec::new();
    let mut failed: usize = 0;
    let mut b: usize = 0;
    assert(pl.take(0) =~= seq![]);
    assert(records(all@) =~= seq![]);
    while b < plan.len()
        invariant
            b <= plan@.len() == results@.len(),
            pl == index_lists(plan@),
            rs == result_views(results@),
            forall|c: int, k: int|
                0 <= c < plan@.len() && 0 <= k < plan@[c]@.len() ==> #[trigger] plan@[c]@[k]
                    < items@.len(),
            records(all@) == merged(items@, pl.take(b as int), rs),
            failed == failures(items@, pl.take(b as int), rs),
            failed <= b,
        decreases plan@.len() - b,
    {
        assert(pl.take(b + 1).drop_last() =~= pl.take(b as int));
        assert(pl.take(b + 1).last() == plan@[b as int]@);
        let ghost before = records(all@);
        let map = &plan[b];
        let contribution: Vec<LlmAction> = match &results[b] {
            Some(batch) => remap_batch(batch, map.as_slice()),
            None => {
                assert forall|k: int| 0 <= k < map@.len() implies #[trigger] map@[k]
                    < items@.len() by {
                    assert(plan@[b as int]@[k] < items@.len());
                }
                let pairs = pairs_for(items, map);
                let fallback = rule_extract(pairs.as_slice());
                proof {
                    lemma_rule_records_views(pairs@, batch_pairs(items@, map@));
                }
                if fallback.len() == 0 {
                    failed = failed + 1;
                }
                fallback
            },
        };
        assert(records(contribution@) == batch_records(items@, map@, rs[b as int]));
        let mut k: usize = 0;
        let ghost mid = records(all@);
        while k < contribution.len()
            invariant
                k <= contribution@.len(),
                records(all@) == mid + records(contribution@).take(k as int),
            decreases contribution@.len() - k,
        {
            let ghost prev = all@;
            let c = contribution[k].copy();
            all.push(c);
            assert(all@ =~= prev.push(c));
            assert(records(all@) =~= records(prev).push(c@));
            assert(records(contribution@).take(k + 1) =~= records(contribution@).take(
                k as int,
            ).push(c@));
            k = k + 1;
        }
        assert(records(contribution@).take(contribution@.len() as int) =~= records(
            contribution@,
        ));
        b = b + 1;
    }
    assert(pl.take(plan@.len() as int) =~= pl);
    if plan.len() > 0 && failed == plan.len() {
        return Err(ExtractError::AllBatchesFailed(failed));
    }
    proof {
        if ascii_batches(rs) {
            lemma_merged_ascii(items@, pl, rs);
            assert forall|k: int| 0 <= k < all@.len() implies ascii_platforms(
                #[trigger] all@[k]@,
            ) by {
                assert(records(all@)[k] == all@[k]@);
            }
        }
    }
    Ok(finalize_actions(all))
}

/// The instructions given to the model: the base prompt, followed by the delivery-mode
/// addendum when the run looks only for outlets listed on delivery platforms.
pub fn system_prompt(base: &str, delivery_mode: &str, delivery: bool) -> (r: String)
    ensures
        r@ == if delivery {
            base@ + delivery_mode@
        } else {
            base@
        },
{
    if delivery {
        string_of(concat_chars(chars_of(base).as_slice(), chars_of(delivery_mode).as_slice()).as_slice())
    } else {
        base.to_string()
    }
}

/// The batches of an extraction run: the positions of the items worth a model call, cut
/// into chunks of 20.
pub fn extraction_plan(items: &[NewsItem]) -> (r: Vec<Vec<usize>>)
    ensures
        index_lists(r@) == chunks(relevant_positions(items@)),
{
    let positions = relevant_indices(items);
    batch_plan(positions.as_slice())
}

/// The chunks of `s`, put back together.
pub open spec fn joined_chunks(c: Seq<Seq<usize>>) -> Seq<usize>
    decreases c.len(),
{
    if c.len() == 0 {
        seq![]
    } else {
        c[0] + joined_chunks(c.drop_first())
    }
}

/// Cutting into batches loses, repeats and reorders nothing, and every batch holds
/// between 1 and 20 positions.
pub proof fn chunks_partition(s: Seq<usize>)
    ensures
        joined_chunks(chunks(s)) == s,
        forall|b: int|
            0 <= b < chunks(s).len() ==> 0 < (#[trigger] chunks(s)[b]).len() <= batch_size(),
    decreases s.len(),
{
    if s.len() > batch_size() {
        let rest = s.skip(batch_size());
        chunks_partition(rest);
        let c = chunks(s);
        assert(c == seq![s.take(batch_size())] + chunks(rest));
        assert(c.drop_first() =~= chunks(rest));
        assert(c[0] == s.take(batch_size()));
        assert(joined_chunks(c) == c[0] + joined_chunks(c.drop_first()));
        assert(s.take(batch_size()) + rest =~= s);
        assert forall|b: int| 0 <= b < c.len() implies 0 < (#[trigger] c[b]).len()
            <= batch_size() by {
            if b > 0 {
                assert(c[b] == chunks(rest)[b - 1]);
            }
        }
    } else if s.len() > 0 {
        let c = chunks(s);
        assert(c == seq![s]);
        assert(c.drop_first() =~= Seq::<Seq<usize>>::empty());
        assert(joined_chunks(c.drop_first()) == Seq::<usize>::empty());
        assert(joined_chunks(c) == c[0] + joined_chunks(c.drop_first()));
        assert(s + Seq::<usize>::empty() =~= s);
    }
}

/// The positions the pre-filter keeps increase, address items, and only name items
/// worth a call.
pub proof fn relevant_positions_are_relevant(items: Seq<NewsItem>)
    requires
        items.len() <= usize::MAX,
    ensures
        forall|k: int|
            0 <= k < relevant_positions(items).len() ==> {
                let p = #[trigger] relevant_positions(items)[k];
                p < items.len() && relevant(items[p as int]@)
            },
        forall|a: int, b: int|
            0 <= a < b < relevant_positions(items).len() ==> #[trigger] relevant_positions(
                items,
            )[a] < #[trigger] relevant_positions(items)[b],
    decreases items.len(),
{
    if items.len() > 0 {
        let init = items.drop_last();
        relevant_positions_are_relevant(init);
        let before = relevant_positions(init);
        let all = relevant_positions(items);
        assert(init =~= items.drop_last());
        let n = items.len() - 1;
        if relevant(items.last()@) {
            assert(all == before + seq![n as usize]);
        } else {
            assert(all =~= before);
        }
        assert forall|k: int| 0 <= k < all.len() implies {
            let p = #[trigger] all[k];
            p < items.len() && relevant(items[p as int]@)
        } by {
            if k < before.len() {
                assert(all[k] == before[k]);
                assert(items[before[k] as int] == init[before[k] as int]);
            } else {
                assert(all[k] == n);
            }
        }
        assert forall|a: int, b: int| 0 <= a < b < all.len() implies #[trigger] all[a]
            < #[trigger] all[b] by {
            assert(all[a] == before[a]);
            if b < before.len() {
                assert(all[b] == before[b]);
            }
        }
    }
}

/// The items a batch covers, in the batch's order.
pub fn batch_items(items: &[NewsItem], map: &[usize]) -> (r: Vec<NewsItem>)
    requires
        forall|k: int| 0 <= k < map@.len() ==> #[trigger] map@[k] < items@.len(),
    ensures
        r@.len() == map@.len(),
        forall|k: int| 0 <= k < map@.len() ==> (#[trigger] r@[k])@ == items@[map@[k] as int]@,
{
    let mut out: Vec<NewsItem> = Vec::new();
    let mut k: usize = 0;
    while k < map.len()
        invariant
            k <= map@.len(),
            forall|q: int| 0 <= q < map@.len() ==> #[trigger] map@[q] < items@.len(),
            out@.len() == k,
            forall|q: int| 0 <= q < k ==> (#[trigger] out@[q])@ == items@[map@[q] as int]@,
        decreases map@.len() - k,
    {
        out.push(items[map[k]].copy());
        k = k + 1;
    }
    out
}

/// Every entry of `clamp_list(v, max)` is non-empty and at most `max` characters long.
proof fn lemma_clamp_list_bounded(v: Seq<Seq<char>>, max: usize)
    ensures
        forall|k: int|
            0 <= k < clamp_list(v, max).len() ==> 0 < (#[trigger] clamp_list(v, max)[k]).len()
                <= max,
    decreases v.len(),
{
    if v.len() > 0 {
        lemma_clamp_list_bounded(v.drop_last(), max);
        let before = clamp_list(v.drop_last(), max);
        let all = clamp_list(v, max);
        assert forall|k: int| 0 <= k < all.len() implies 0 < (#[trigger] all[k]).len() <= max by {
            if k < before.len() {
                assert(all[k] == before[k]);
            }
        }
    }
}

/// Every entry of `platform_list(v)` is non-empty.
proof fn lemma_platform_list_nonempty(v: Seq<Seq<char>>)
    ensures
        forall|k: int|
            0 <= k < platform_list(v).len() ==> (#[trigger] platform_list(v)[k]).len() > 0,
    decreases v.len(),
{
    if v.len() > 0 {
        lemma_platform_list_nonempty(v.drop_last());
        let before = platform_list(v.drop_last());
        let all = platform_list(v);
        assert forall|k: int| 0 <= k < all.len() implies (#[trigger] all[k]).len() > 0 by {
            if k < before.len() {
                assert(all[k] == before[k]);
            }
        }
    }
}

/// A sanitized record respects every bound: name at most 200 characters, area, city and
/// brand at most 120, operator 200, licence number 64, details 2000; at most 5
/// violations, each non-empty and at most 300 characters; at most 6 platforms, each
/// non-empty. Fields without text are left as they are.
pub proof fn sanitized_fields_are_bounded(a: ActionRecord)
    ensures
        ({
            let s = sanitized(a);
            &&& s.establishment.len() <= 200
            &&& (s.area matches Some(t) ==> t.len() <= 120)
            &&& (s.city matches Some(t) ==> t.len() <= 120)
            &&& (s.brand matches Some(t) ==> t.len() <= 120)
            &&& (s.operator matches Some(t) ==> t.len() <= 200)
            &&& (s.fssai_number matches Some(t) ==> t.len() <= 64)
            &&& (s.details matches Some(t) ==> t.len() <= 2000)
            &&& s.violations.len() <= 5
            &&& forall|k: int|
                0 <= k < s.violations.len() ==> 0 < (#[trigger] s.violations[k]).len() <= 300
            &&& s.platforms.len() <= 6
            &&& forall|k: int| 0 <= k < s.platforms.len() ==> (#[trigger] s.platforms[k]).len() > 0
            &&& s.action_type == a.action_type
            &&& s.source_index == a.source_index
            &&& s.compliance_score == a.compliance_score
        }),
{
    lemma_clamp_list_bounded(a.violations, 300);
    lemma_platform_list_nonempty(a.platforms);
    let s = sanitized(a);
    let vs = clamp_list(a.violations, 300);
    assert forall|k: int| 0 <= k < s.violations.len() implies 0 < (
    #[trigger] s.violations[k]).len() <= 300 by {
        assert(s.violations[k] == vs[k]);
    }
    let ps = platform_list(a.platforms);
    assert forall|k: int| 0 <= k < s.platforms.len() implies (#[trigger] s.platforms[k]).len()
        > 0 by {
        assert(s.platforms[k] == ps[k]);
    }
}

/// Records before sanitizing: the named ones, the first of each key.
proof fn lemma_first_per_key(v: Seq<ActionRecord>)
    ensures
        forall|a: int, b: int|
            0 <= a < b < first_per_key(v).len() ==> action_key(#[trigger] first_per_key(v)[a])
                != action_key(#[trigger] first_per_key(v)[b]),
        forall|i: int|
            #![trigger v[i]]
            0 <= i < v.len() ==> exists|j: int|
                0 <= j < first_per_key(v).len() && action_key(#[trigger] first_per_key(v)[j])
                    == action_key(v[i]),
        forall|j: int|
            0 <= j < first_per_key(v).len() ==> exists|i: int|
                0 <= i < v.len() && v[i] == #[trigger] first_per_key(v)[j],
    decreases v.len(),
{
    if v.len() > 0 {
        let init = v.drop_last();
        lemma_first_per_key(init);
        let before = first_per_key(init);
        let all = first_per_key(v);
        let fresh = !exists|j: int|
            0 <= j < v.len() - 1 && action_key(#[trigger] v[j]) == action_key(v.last());
        if fresh {
            assert(all == before + seq![v.last()]);
        } else {
            assert(all =~= before);
        }
        assert forall|a: int, b: int| 0 <= a < b < all.len() implies action_key(
            #[trigger] all[a],
        ) != action_key(#[trigger] all[b]) by {
            if b < before.len() {
                assert(all[a] == before[a] && all[b] == before[b]);
            } else {
                assert(all[a] == before[a]);
                assert(all[b] == v.last());
                let i = choose|i: int| 0 <= i < init.len() && init[i] == #[trigger] before[a];
                assert(v[i] == init[i]);
            }
        }
        assert forall|i: int| #![trigger v[i]] 0 <= i < v.len() implies exists|j: int|
            0 <= j < all.len() && action_key(#[trigger] all[j]) == action_key(v[i]) by {
            if i < init.len() {
                assert(v[i] == init[i]);
                let j = choose|j: int|
                    0 <= j < before.len() && action_key(#[trigger] before[j]) == action_key(init[i]);
                assert(all[j] == before[j]);
            } else if fresh {
                assert(all[before.len() as int] == v.last());
            } else {
                let q = choose|q: int|
                    0 <= q < v.len() - 1 && action_key(#[trigger] v[q]) == action_key(v.last());
                assert(v[q] == init[q]);
                let j = choose|j: int|
                    0 <= j < before.len() && action_key(#[trigger] before[j]) == action_key(init[q]);
                assert(all[j] == before[j]);
            }
        }
        assert forall|j: int| 0 <= j < all.len() implies exists|i: int|
            0 <= i < v.len() && v[i] == #[trigger] all[j] by {
            if j < before.len() {
                assert(all[j] == before[j]);
                let i = choose|i: int| 0 <= i < init.len() && init[i] == #[trigger] before[j];
                assert(v[i] == init[i]);
            } else {
                assert(all[j] == v[v.len() - 1]);
            }
        }
    }
}

/// Every record of `named(v)` has a non-blank establishment and comes from `v`.
proof fn lemma_named(v: Seq<ActionRecord>)
    ensures
        forall|j: int|
            0 <= j < named(v).len() ==> trim((#[trigger] named(v)[j]).establishment).len() > 0,
        forall|i: int|
            0 <= i < v.len() && trim(v[i].establishment).len() > 0 ==> exists|j: int|
                0 <= j < named(v).len() && #[trigger] named(v)[j] == v[i],
    decreases v.len(),
{
    if v.len() > 0 {
        let init = v.drop_last();
        lemma_named(init);
        let before = named(init);
        let all = named(v);
        if trim(v.last().establishment).len() > 0 {
            assert(all == before + seq![v.last()]);
        } else {
            assert(all =~= before);
        }
        assert forall|j: int| 0 <= j < all.len() implies trim(
            (#[trigger] all[j]).establishment,
        ).len() > 0 by {
            if j < before.len() {
                assert(all[j] == before[j]);
            }
        }
        assert forall|i: int|
            0 <= i < v.len() && trim(v[i].establishment).len() > 0 implies exists|j: int|
            0 <= j < all.len() && #[trigger] all[j] == v[i] by {
            if i < init.len() {
                assert(v[i] == init[i]);
                let j = choose|j: int| 0 <= j < before.len() && #[trigger] before[j] == init[i];
                assert(all[j] == before[j]);
            } else {
                assert(all[before.len() as int] == v.last());
            }
        }
    }
}

/// Every record of `named(v)` is a record of `v`.
proof fn lemma_named_sources(v: Seq<ActionRecord>)
    ensures
        forall|j: int|
            0 <= j < named(v).len() ==> exists|i: int|
                0 <= i < v.len() && v[i] == #[trigger] named(v)[j],
    decreases v.len(),
{
    if v.len() > 0 {
        let init = v.drop_last();
        lemma_named_sources(init);
        let before = named(init);
        let all = named(v);
        if trim(v.last().establishment).len() > 0 {
            assert(all == before + seq![v.last()]);
        } else {
            assert(all =~= before);
        }
        assert forall|j: int| 0 <= j < all.len() implies exists|i: int|
            0 <= i < v.len() && v[i] == #[trigger] all[j] by {
            if j < before.len() {
                assert(all[j] == before[j]);
                let i = choose|i: int| 0 <= i < init.len() && init[i] == #[trigger] before[j];
                assert(v[i] == init[i]);
            } else {
                assert(all[j] == v[v.len() - 1]);
            }
        }
    }
}

/// The records a run keeps: each has a non-blank establishment; no two share a source
/// item, lower-cased establishment and action kind; and every record with a non-blank
/// establishment has its key among them. The output is these records, sanitized.
pub proof fn finalized_keeps_one_record_per_key(v: Seq<ActionRecord>)
    ensures
        ({
            let kept = first_per_key(named(v));
            &&& finalized(v) == kept.map_values(|a: ActionRecord| sanitized(a))
            &&& forall|j: int|
                0 <= j < kept.len() ==> trim((#[trigger] kept[j]).establishment).len() > 0
            &&& forall|a: int, b: int|
                0 <= a < b < kept.len() ==> action_key(#[trigger] kept[a]) != action_key(
                    #[trigger] kept[b],
                )
            &&& forall|i: int|
                0 <= i < v.len() && trim(v[i].establishment).len() > 0 ==> exists|j: int|
                    0 <= j < kept.len() && action_key(#[trigger] kept[j]) == action_key(v[i])
        }),
{
    let n = named(v);
    lemma_named(v);
    lemma_first_per_key(n);
    let kept = first_per_key(n);
    assert forall|j: int| 0 <= j < kept.len() implies trim((#[trigger] kept[j]).establishment).len()
        > 0 by {
        let i = choose|i: int| 0 <= i < n.len() && n[i] == #[trigger] kept[j];
        assert(trim(n[i].establishment).len() > 0);
    }
    assert forall|i: int| 0 <= i < v.len() && trim(v[i].establishment).len() > 0 implies exists|
        j: int,
    | 0 <= j < kept.len() && action_key(#[trigger] kept[j]) == action_key(v[i]) by {
        let q = choose|q: int| 0 <= q < n.len() && #[trigger] n[q] == v[i];
        let j = choose|j: int| 0 <= j < kept.len() && action_key(#[trigger] kept[j]) == action_key(n[q]);
    }
}

/// Every record that re-pointing a batch keeps points at one of the batch's positions.
proof fn lemma_remapped_points_into(batch: Seq<ActionRecord>, map: Seq<usize>)
    ensures
        forall|k: int|
            0 <= k < remapped(batch, map).len() ==> map.contains(
                (#[trigger] remapped(batch, map)[k]).source_index,
            ),
    decreases batch.len(),
{
    if batch.len() > 0 {
        lemma_remapped_points_into(batch.drop_last(), map);
        let before = remapped(batch.drop_last(), map);
        let all = remapped(batch, map);
        let a = batch.last();
        assert forall|k: int| 0 <= k < all.len() implies map.contains(
            (#[trigger] all[k]).source_index,
        ) by {
            if k < before.len() {
                assert(all[k] == before[k]);
            } else {
                assert(all[k].source_index == map[a.source_index as int]);
            }
        }
    }
}

/// Every record the keyword rules keep points at the position its item came with.
proof fn lemma_rule_records_point_into(pairs: Seq<(usize, NewsItem)>)
    ensures
        forall|k: int|
            0 <= k < rule_records(pairs).len() ==> exists|j: int|
                0 <= j < pairs.len() && pairs[j].0 == (#[trigger] rule_records(
                    pairs,
                )[k]).source_index,
    decreases pairs.len(),
{
    if pairs.len() > 0 {
        let init = pairs.drop_last();
        lemma_rule_records_point_into(init);
        let before = rule_records(init);
        let all = rule_records(pairs);
        assert forall|k: int| 0 <= k < all.len() implies exists|j: int|
            0 <= j < pairs.len() && pairs[j].0 == (#[trigger] all[k]).source_index by {
            if k < before.len() {
                assert(all[k] == before[k]);
                let j = choose|j: int|
                    0 <= j < init.len() && init[j].0 == (#[trigger] before[k]).source_index;
                assert(pairs[j] == init[j]);
            } else {
                assert(all[k].source_index == pairs.last().0);
                assert(pairs[pairs.len() - 1] == pairs.last());
            }
        }
    }
}

/// Every record that the batches contribute points at a position named by the plan.
proof fn lemma_merged_points_into(
    items: Seq<NewsItem>,
    plan: Seq<Seq<usize>>,
    results: Seq<Option<Seq<ActionRecord>>>,
)
    ensures
        forall|k: int|
            0 <= k < merged(items, plan, results).len() ==> exists|b: int|
                0 <= b < plan.len() && plan[b].contains(
                    (#[trigger] merged(items, plan, results)[k]).source_index,
                ),
    decreases plan.len(),
{
    if plan.len() > 0 {
        let init = plan.drop_last();
        lemma_merged_points_into(items, init, results);
        let before = merged(items, init, results);
        let map = plan.last();
        let tail = batch_records(items, map, results[plan.len() - 1]);
        let all = merged(items, plan, results);
        assert(all == before + tail);
        match results[plan.len() - 1] {
            Some(b) => lemma_remapped_points_into(b, map),
            None => lemma_rule_records_point_into(batch_pairs(items, map)),
        }
        assert forall|k: int| 0 <= k < all.len() implies exists|b: int|
            0 <= b < plan.len() && plan[b].contains((#[trigger] all[k]).source_index) by {
            if k < before.len() {
                assert(all[k] == before[k]);
                let b = choose|b: int|
                    0 <= b < init.len() && init[b].contains((#[trigger] before[k]).source_index);
                assert(plan[b] == init[b]);
            } else {
                let t = k - before.len();
                assert(all[k] == tail[t]);
                assert(plan[plan.len() - 1] == map);
                if results[plan.len() - 1] is None {
                    let pairs = batch_pairs(items, map);
                    let j = choose|j: int|
                        0 <= j < pairs.len() && pairs[j].0 == (#[trigger] rule_records(
                            pairs,
                        )[t]).source_index;
                    assert(pairs[j].0 == map[j]);
                }
            }
        }
    }
}

/// The records an extraction run returns point at items of the run: whether they came
/// from a model reply or from the keyword rules, their source index addresses the full
/// list of items, as building rows needs.
pub proof fn extracted_records_address_items(
    items: Seq<NewsItem>,
    plan: Seq<Seq<usize>>,
    results: Seq<Option<Seq<ActionRecord>>>,
)
    requires
        forall|b: int, k: int|
            0 <= b < plan.len() && 0 <= k < plan[b].len() ==> #[trigger] plan[b][k] < items.len(),
    ensures
        forall|k: int|
            0 <= k < finalized(merged(items, plan, results)).len() ==> (#[trigger] finalized(
                merged(items, plan, results),
            )[k]).source_index < items.len(),
{
    let m = merged(items, plan, results);
    lemma_merged_points_into(items, plan, results);
    lemma_named_sources(m);
    let n = named(m);
    lemma_first_per_key(n);
    let kept = first_per_key(n);
    let out = finalized(m);
    assert forall|k: int| 0 <= k < out.len() implies (#[trigger] out[k]).source_index
        < items.len() by {
        assert(out[k] == sanitized(kept[k]));
        let i = choose|i: int| 0 <= i < n.len() && n[i] == #[trigger] kept[k];
        let q = choose|q: int| 0 <= q < m.len() && m[q] == #[trigger] n[i];
        let b = choose|b: int| 0 <= b < plan.len() && plan[b].contains((#[trigger] m[q]).source_index);
        let j = choose|j: int| 0 <= j < plan[b].len() && plan[b][j] == m[q].source_index;
        assert(plan[b][j] < items.len());
    }
}

/// The first `c` of `p + q` is the first of `q` when `p` holds none and `q` opens with it.
proof fn lemma_first_index_after(p: Seq<char>, q: Seq<char>, c: char)
    requires
        forall|k: int| 0 <= k < p.len() ==> p[k] != c,
        q.len() > 0,
        q[0] == c,
    ensures
        first_index(p + q, c) == Some(p.len() as int),
    decreases p.len(),
{
    if p.len() > 0 {
        assert((p + q).drop_first() =~= p.drop_first() + q);
        lemma_first_index_after(p.drop_first(), q, c);
    } else {
        assert(p + q =~= q);
    }
}

/// Text that does not open with a fence is only trimmed.
pub proof fn unfenced_text_is_trimmed(s: Seq<char>)
    ensures
        !starts_with(trim(s), "```"@) ==> unfenced(s) == trim(s),
{
}

/// A fenced reply with a language tag gives back its body, trimmed: only the fence and
/// the tag line are removed.
pub proof fn fenced_text_unwraps(lang: Seq<char>, body: Seq<char>)
    requires
        lang.len() > 0,
        forall|k: int| 0 <= k < lang.len() ==> #[trigger] lang[k] != '\n',
    ensures
        unfenced("```"@ + lang + seq!['\n'] + body + seq!['\n'] + "```"@) == trim(body),
{
    reveal_strlit("```");
    let fence: Seq<char> = seq!['`', '`', '`'];
    assert("```"@ =~= fence);
    let mid = lang + seq!['\n'] + body + seq!['\n'];
    let s = fence + mid + fence;
    assert("```"@ + lang + seq!['\n'] + body + seq!['\n'] + "```"@ =~= s);
    crate::text::lemma_trim_unchanged(s);
    assert(trim(s) == s);
    assert(s.subrange(0, 3) =~= fence);
    assert(starts_with(s, "```"@));
    let y = lang + seq!['\n'] + body + seq!['\n'];
    assert(s.skip(3) =~= y + fence);
    let y1 = y.push('`');
    let y2 = y1.push('`');
    assert(y + fence =~= y2.push('`'));
    assert((y2.push('`')).drop_last() =~= y2);
    assert(y2.drop_last() =~= y1);
    assert(y1.drop_last() =~= y);
    assert(drop_trailing(y, '`') == y);
    assert(drop_trailing(y1, '`') == y);
    assert(drop_trailing(y2, '`') == y);
    assert(drop_trailing(y + fence, '`') == y);
    let q = seq!['\n'] + body + seq!['\n'];
    assert(y =~= lang + q);
    lemma_first_index_after(lang, q, '\n');
    let i = lang.len() as int;
    assert(y.take(i) =~= lang);
    assert(y.skip(i + 1) =~= body.push('\n'));
    crate::text::lemma_trim_push_ws(body, '\n');
}

/// A name that is not blank stays non-blank once clamped.
proof fn lemma_clamped_not_blank(e: Seq<char>, max: usize)
    requires
        trim(e).len() > 0,
        max > 0,
    ensures
        trim(clamped(e, max)).len() > 0,
{
    let a = crate::text::trim_start(e);
    crate::text::lemma_trim_start_no_lead(e);
    crate::text::lemma_trim_end_shape(a);
    let t = trim(e);
    assert(t[0] == a[0]);
    let c = clamped(e, max);
    assert(c[0] == t[0]);
    crate::text::lemma_trim_keeps_first(c);
}

/// Every position of a batch is one of the positions that were cut into batches.
proof fn lemma_chunk_members(s: Seq<usize>)
    ensures
        forall|b: int, k: int|
            0 <= b < chunks(s).len() && 0 <= k < chunks(s)[b].len() ==> s.contains(
                #[trigger] chunks(s)[b][k],
            ),
    decreases s.len(),
{
    let c = chunks(s);
    if s.len() > batch_size() {
        let rest = s.skip(batch_size());
        lemma_chunk_members(rest);
        assert(c == seq![s.take(batch_size())] + chunks(rest));
        assert forall|b: int, k: int| 0 <= b < c.len() && 0 <= k < c[b].len() implies s.contains(
            #[trigger] c[b][k],
        ) by {
            if b == 0 {
                assert(c[0] == s.take(batch_size()));
                assert(s[k] == c[b][k]);
            } else {
                assert(c[b] == chunks(rest)[b - 1]);
                let j = choose|j: int| 0 <= j < rest.len() && rest[j] == c[b][k];
                assert(s[j + batch_size()] == rest[j]);
            }
        }
    } else if s.len() > 0 {
        assert(c == seq![s]);
        assert forall|b: int, k: int| 0 <= b < c.len() && 0 <= k < c[b].len() implies s.contains(
            #[trigger] c[b][k],
        ) by {
            assert(c[b] == s);
            assert(s[k] == c[b][k]);
        }
    }
}

/// The records an extraction run returns (with the batches `extraction_plan` gives and any
/// model results): each points at an item that the pre-filter found worth a call, has a
/// non-blank name of at most 200 characters, at most 5 violations and at most 6 platforms,
/// none of them empty.
pub proof fn extraction_results_are_well_formed(
    items: Seq<NewsItem>,
    results: Seq<Option<Seq<ActionRecord>>>,
)
    requires
        items.len() <= usize::MAX,
    ensures
        forall|k: int|
            0 <= k < finalized(merged(items, chunks(relevant_positions(items)), results)).len()
                ==> {
                let a = #[trigger] finalized(
                    merged(items, chunks(relevant_positions(items)), results),
                )[k];
                &&& a.source_index < items.len()
                &&& relevant(items[a.source_index as int]@)
                &&& trim(a.establishment).len() > 0
                &&& a.establishment.len() <= 200
                &&& a.violations.len() <= 5
                &&& a.platforms.len() <= 6
                &&& forall|p: int| 0 <= p < a.platforms.len() ==> (#[trigger] a.platforms[p]).len() > 0
            },
{
    let rp = relevant_positions(items);
    let plan = chunks(rp);
    lemma_chunk_members(rp);
    relevant_positions_are_relevant(items);
    let m = merged(items, plan, results);
    lemma_merged_points_into(items, plan, results);
    lemma_named(m);
    lemma_named_sources(m);
    let n = named(m);
    lemma_first_per_key(n);
    let kept = first_per_key(n);
    let out = finalized(m);
    assert forall|k: int| 0 <= k < out.len() implies {
        let a = #[trigger] out[k];
        &&& a.source_index < items.len()
        &&& relevant(items[a.source_index as int]@)
        &&& trim(a.establishment).len() > 0
        &&& a.establishment.len() <= 200
        &&& a.violations.len() <= 5
        &&& a.platforms.len() <= 6
        &&& forall|p: int| 0 <= p < a.platforms.len() ==> (#[trigger] a.platforms[p]).len() > 0
    } by {
        let e = kept[k];
        assert(out[k] == sanitized(e));
        let i = choose|i: int| 0 <= i < n.len() && n[i] == #[trigger] kept[k];
        assert(trim(n[i].establishment).len() > 0);
        let q = choose|q: int| 0 <= q < m.len() && m[q] == #[trigger] n[i];
        let b = choose|b: int| 0 <= b < plan.len() && plan[b].contains((#[trigger] m[q]).source_index);
        let j = choose|j: int| 0 <= j < plan[b].len() && plan[b][j] == m[q].source_index;
        assert(rp.contains(plan[b][j]));
        let r = choose|r: int| 0 <= r < rp.len() && rp[r] == plan[b][j];
        assert(rp[r] < items.len() && relevant(items[rp[r] as int]@));
        sanitized_fields_are_bounded(e);
        lemma_clamped_not_blank(e.establishment, 200);
    }
}

/// The keyword-rule records of `pairs` are exactly the rule records of its entries.
proof fn lemma_rule_records_members(pairs: Seq<(usize, NewsItem)>)
    ensures
        forall|k: int|
            0 <= k < rule_records(pairs).len() ==> exists|j: int|
                0 <= j < pairs.len() && rule_record(pairs[j].0, pairs[j].1@) == Some(
                    #[trigger] rule_records(pairs)[k],
                ),
        forall|j: int|
            0 <= j < pairs.len() && (#[trigger] rule_record(pairs[j].0, pairs[j].1@)) is Some
                ==> exists|k: int|
                0 <= k < rule_records(pairs).len() && Some(rule_records(pairs)[k])
                    == rule_record(pairs[j].0, pairs[j].1@),
    decreases pairs.len(),
{
    if pairs.len() > 0 {
        let init = pairs.drop_last();
        lemma_rule_records_members(init);
        let before = rule_records(init);
        let all = rule_records(pairs);
        let last = pairs.last();
        assert(pairs[pairs.len() - 1] == last);
        match rule_record(last.0, last.1@) {
            Some(a) => assert(all == before + seq![a]),
            None => assert(all =~= before),
        }
        assert forall|k: int| 0 <= k < all.len() implies exists|j: int|
            0 <= j < pairs.len() && rule_record(pairs[j].0, pairs[j].1@) == Some(
                #[trigger] all[k],
            ) by {
            if k < before.len() {
                assert(all[k] == before[k]);
                let j = choose|j: int|
                    0 <= j < init.len() && rule_record(init[j].0, init[j].1@) == Some(
                        #[trigger] before[k],
                    );
                assert(pairs[j] == init[j]);
            }
        }
        assert forall|j: int|
            0 <= j < pairs.len() && (#[trigger] rule_record(pairs[j].0, pairs[j].1@)) is Some
                implies exists|k: int|
            0 <= k < all.len() && Some(all[k]) == rule_record(pairs[j].0, pairs[j].1@) by {
            if j < init.len() {
                assert(pairs[j] == init[j]);
                assert(rule_record(init[j].0, init[j].1@) is Some);
                let k = choose|k: int|
                    0 <= k < before.len() && Some(before[k]) == rule_record(init[j].0, init[j].1@);
                assert(all[k] == before[k]);
            } else {
                assert(all[before.len() as int] == rule_record(last.0, last.1@)->0);
            }
        }
    }
}

/// The rule record of position `p`.
pub open spec fn rule_record_at(items: Seq<NewsItem>, p: usize) -> Option<ActionRecord> {
    rule_record(p, items[p as int]@)
}

/// The rule records of a batch are those of its positions.
proof fn lemma_batch_rule_records(items: Seq<NewsItem>, map: Seq<usize>)
    ensures
        forall|k: int|
            0 <= k < rule_records(batch_pairs(items, map)).len() ==> exists|j: int|
                0 <= j < map.len() && rule_record_at(items, map[j]) == Some(
                    #[trigger] rule_records(batch_pairs(items, map))[k],
                ),
        forall|j: int|
            0 <= j < map.len() && (#[trigger] rule_record_at(items, map[j])) is Some
                ==> exists|k: int|
                0 <= k < rule_records(batch_pairs(items, map)).len() && Some(
                    rule_records(batch_pairs(items, map))[k],
                ) == rule_record_at(items, map[j]),
{
    let pairs = batch_pairs(items, map);
    lemma_rule_records_members(pairs);
    let rr = rule_records(pairs);
    assert forall|j: int|
        0 <= j < map.len() && (#[trigger] rule_record_at(items, map[j])) is Some implies exists|
        k: int,
    | 0 <= k < rr.len() && Some(rr[k]) == rule_record_at(items, map[j]) by {
        assert(pairs[j].0 == map[j] && pairs[j].1 == items[map[j] as int]);
        assert(rule_record(pairs[j].0, pairs[j].1@) is Some);
    }
    assert forall|k: int| 0 <= k < rr.len() implies exists|j: int|
        0 <= j < map.len() && rule_record_at(items, map[j]) == Some(#[trigger] rr[k]) by {
        let j = choose|j: int|
            0 <= j < pairs.len() && rule_record(pairs[j].0, pairs[j].1@) == Some(#[trigger] rr[k]);
        assert(pairs[j].0 == map[j] && pairs[j].1 == items[map[j] as int]);
    }
}

/// When every batch failed, each record the batches contribute is the rule record of one
/// of their positions.
#[verifier::spinoff_prover]
proof fn lemma_failed_merged_members(
    items: Seq<NewsItem>,
    plan: Seq<Seq<usize>>,
    results: Seq<Option<Seq<ActionRecord>>>,
)
    requires
        forall|b: int| 0 <= b < plan.len() ==> (#[trigger] results[b]) is None,
    ensures
        forall|k: int|
            0 <= k < merged(items, plan, results).len() ==> exists|b: int, j: int|
                0 <= b < plan.len() && 0 <= j < plan[b].len() && rule_record_at(
                    items,
                    #[trigger] plan[b][j],
                ) == Some(#[trigger] merged(items, plan, results)[k]),
    decreases plan.len(),
{
    if plan.len() > 0 {
        let init = plan.drop_last();
        assert forall|b: int| 0 <= b < init.len() implies (#[trigger] results[b]) is None by {
            assert(results[b] is None);
        }
        lemma_failed_merged_members(items, init, results);
        let map = plan.last();
        let last = plan.len() - 1;
        assert(results[last] is None);
        lemma_batch_rule_records(items, map);
        let before = merged(items, init, results);
        let tail = rule_records(batch_pairs(items, map));
        let all = merged(items, plan, results);
        assert(all == before + tail);
        assert forall|k: int| 0 <= k < all.len() implies exists|b: int, j: int|
            0 <= b < plan.len() && 0 <= j < plan[b].len() && rule_record_at(
                items,
                #[trigger] plan[b][j],
            ) == Some(#[trigger] all[k]) by {
            if k < before.len() {
                assert(all[k] == before[k]);
                let (b, j) = choose|b: int, j: int|
                    0 <= b < init.len() && 0 <= j < init[b].len() && rule_record_at(
                        items,
                        #[trigger] init[b][j],
                    ) == Some(#[trigger] before[k]);
                assert(plan[b] == init[b]);
            } else {
                let t = k - before.len();
                assert(all[k] == tail[t]);
                let j = choose|j: int|
                    0 <= j < map.len() && rule_record_at(items, map[j]) == Some(#[trigger] tail[t]);
                assert(plan[last] == map);
            }
        }
    }
}

/// When every batch failed, the rule record of each of their positions is contributed.
#[verifier::spinoff_prover]
proof fn lemma_failed_merged_cover(
    items: Seq<NewsItem>,
    plan: Seq<Seq<usize>>,
    results: Seq<Option<Seq<ActionRecord>>>,
)
    requires
        forall|b: int| 0 <= b < plan.len() ==> (#[trigger] results[b]) is None,
    ensures
        forall|b: int, j: int|
            0 <= b < plan.len() && 0 <= j < plan[b].len() && (#[trigger] rule_record_at(
                items,
                plan[b][j],
            )) is Some ==> exists|k: int|
                0 <= k < merged(items, plan, results).len() && Some(
                    merged(items, plan, results)[k],
                ) == rule_record_at(items, plan[b][j]),
    decreases plan.len(),
{
    if plan.len() > 0 {
        let init = plan.drop_last();
        assert forall|b: int| 0 <= b < init.len() implies (#[trigger] results[b]) is None by {
            assert(results[b] is None);
        }
        lemma_failed_merged_cover(items, init, results);
        let map = plan.last();
        let last = plan.len() - 1;
        assert(results[last] is None);
        lemma_batch_rule_records(items, map);
        let before = merged(items, init, results);
        let tail = rule_records(batch_pairs(items, map));
        let all = merged(items, plan, results);
        assert(all == before + tail);
        assert forall|b: int, j: int|
            0 <= b < plan.len() && 0 <= j < plan[b].len() && (#[trigger] rule_record_at(
                items,
                plan[b][j],
            )) is Some implies exists|k: int|
            0 <= k < all.len() && Some(all[k]) == rule_record_at(items, plan[b][j]) by {
            if b < init.len() {
                assert(plan[b] == init[b]);
                assert(rule_record_at(items, init[b][j]) is Some);
                let k = choose|k: int|
                    0 <= k < before.len() && Some(before[k]) == rule_record_at(items, init[b][j]);
                assert(all[k] == before[k]);
            } else {
                assert(plan[b] == map);
                assert(rule_record_at(items, map[j]) is Some);
                let k = choose|k: int|
                    0 <= k < tail.len() && Some(tail[k]) == rule_record_at(items, map[j]);
                assert(all[before.len() + k] == tail[k]);
            }
        }
    }
}

/// When every batch failed, every batch counts as failed exactly when none of its
/// positions has a rule record.
#[verifier::spinoff_prover]
proof fn lemma_failed_failures(
    items: Seq<NewsItem>,
    plan: Seq<Seq<usize>>,
    results: Seq<Option<Seq<ActionRecord>>>,
)
    requires
        forall|b: int| 0 <= b < plan.len() ==> (#[trigger] results[b]) is None,
    ensures
        failures(items, plan, results) <= plan.len(),
        failures(items, plan, results) == plan.len() <==> forall|b: int, j: int|
            0 <= b < plan.len() && 0 <= j < plan[b].len() ==> (#[trigger] rule_record_at(
                items,
                plan[b][j],
            )) is None,
    decreases plan.len(),
{
    if plan.len() > 0 {
        let init = plan.drop_last();
        assert forall|b: int| 0 <= b < init.len() implies (#[trigger] results[b]) is None by {
            assert(results[b] is None);
        }
        lemma_failed_failures(items, init, results);
        let map = plan.last();
        let last = plan.len() - 1;
        assert(results[last] is None);
        assert(plan[last] == map);
        lemma_batch_rule_records(items, map);
        let tail = rule_records(batch_pairs(items, map));
        let failed_last = batch_failed(items, map, results[last]);
        assert(failed_last == (tail.len() == 0));
        if failures(items, plan, results) == plan.len() {
            assert(failures(items, init, results) == init.len());
            assert forall|b: int, j: int|
                0 <= b < plan.len() && 0 <= j < plan[b].len() implies (#[trigger] rule_record_at(
                items,
                plan[b][j],
            )) is None by {
                if b < init.len() {
                    assert(plan[b] == init[b]);
                    assert(rule_record_at(items, init[b][j]) is None);
                } else {
                    assert(plan[b] == map);
                }
            }
        }
        if forall|b: int, j: int|
            0 <= b < plan.len() && 0 <= j < plan[b].len() ==> (#[trigger] rule_record_at(
                items,
                plan[b][j],
            )) is None {
            assert forall|b: int, j: int|
                0 <= b < init.len() && 0 <= j < init[b].len() implies (#[trigger] rule_record_at(
                items,
                init[b][j],
            )) is None by {
                assert(plan[b] == init[b]);
                assert(rule_record_at(items, plan[b][j]) is None);
            }
            if tail.len() > 0 {
                let j = choose|j: int|
                    0 <= j < map.len() && rule_record_at(items, map[j]) == Some(#[trigger] tail[0]);
                assert(rule_record_at(items, plan[last][j]) is None);
            }
        }
    }
}

/// Every position cut into batches lands in some batch.
proof fn lemma_chunk_cover(s: Seq<usize>)
    ensures
        forall|x: usize| #[trigger] s.contains(x) ==> exists|b: int, k: int|
            0 <= b < chunks(s).len() && 0 <= k < chunks(s)[b].len() && chunks(s)[b][k] == x,
    decreases s.len(),
{
    let c = chunks(s);
    if s.len() > batch_size() {
        let rest = s.skip(batch_size());
        lemma_chunk_cover(rest);
        assert(c == seq![s.take(batch_size())] + chunks(rest));
        assert forall|x: usize| #[trigger] s.contains(x) implies exists|b: int, k: int|
            0 <= b < c.len() && 0 <= k < c[b].len() && c[b][k] == x by {
            let i = choose|i: int| 0 <= i < s.len() && s[i] == x;
            if i < batch_size() {
                assert(c[0] == s.take(batch_size()));
                assert(c[0][i] == x);
            } else {
                assert(rest[i - batch_size()] == x);
                assert(rest.contains(x));
                let (b, k) = choose|b: int, k: int|
                    0 <= b < chunks(rest).len() && 0 <= k < chunks(rest)[b].len() && chunks(
                        rest,
                    )[b][k] == x;
                assert(c[b + 1] == chunks(rest)[b]);
            }
        }
    } else if s.len() > 0 {
        assert(c == seq![s]);
        assert forall|x: usize| #[trigger] s.contains(x) implies exists|b: int, k: int|
            0 <= b < c.len() && 0 <= k < c[b].len() && c[b][k] == x by {
            let i = choose|i: int| 0 <= i < s.len() && s[i] == x;
            assert(c[0][i] == x);
        }
    }
}

/// The plan and result shape of a run whose every call failed.
pub open spec fn all_calls_failed(items: Seq<NewsItem>, results: Seq<Option<Seq<ActionRecord>>>) -> bool {
    forall|b: int|
        0 <= b < chunks(relevant_positions(items)).len() ==> (#[trigger] results[b]) is None
}

/// With every call failed, each record kept is the rule record of its own item, an item
/// worth a call.
#[verifier::spinoff_prover]
proof fn lemma_failed_kept_are_rule_records(
    items: Seq<NewsItem>,
    results: Seq<Option<Seq<ActionRecord>>>,
)
    requires
        all_calls_failed(items, results),
    ensures
        ({
            let rp = relevant_positions(items);
            let kept = first_per_key(named(merged(items, chunks(rp), results)));
            forall|k: int|
                0 <= k < kept.len() ==> rp.contains((#[trigger] kept[k]).source_index)
                    && rule_record_at(items, kept[k].source_index) == Some(kept[k])
        }),
{
    let rp = relevant_positions(items);
    let plan = chunks(rp);
    let m = merged(items, plan, results);
    lemma_failed_merged_members(items, plan, results);
    lemma_chunk_members(rp);
    lemma_named_sources(m);
    let n = named(m);
    lemma_first_per_key(n);
    let kept = first_per_key(n);
    assert forall|k: int| 0 <= k < kept.len() implies rp.contains((#[trigger] kept[k]).source_index)
        && rule_record_at(items, kept[k].source_index) == Some(kept[k]) by {
        let i = choose|i: int| 0 <= i < n.len() && n[i] == #[trigger] kept[k];
        let q = choose|q: int| 0 <= q < m.len() && m[q] == #[trigger] n[i];
        let (b, j) = choose|b: int, j: int|
            0 <= b < plan.len() && 0 <= j < plan[b].len() && rule_record_at(
                items,
                #[trigger] plan[b][j],
            ) == Some(#[trigger] m[q]);
        assert(m[q].source_index == plan[b][j]);
    }
}

/// A rule record's name is not blank.
proof fn lemma_rule_record_named(items: Seq<NewsItem>, p: usize)
    requires
        rule_record_at(items, p) is Some,
    ensures
        trim(rule_record_at(items, p)->0.establishment).len() > 0,
        rule_record_at(items, p)->0.source_index == p,
{
    let it = items[p as int]@;
    let seg = trim(it.title.take(segment_len(it.title)));
    let y = if seg.len() > 120 {
        seg.take(120)
    } else {
        seg
    };
    crate::text::lemma_trim_idempotent(y);
}

/// With every call failed, each item worth a call that has a rule record has a kept
/// record.
#[verifier::spinoff_prover]
proof fn lemma_failed_rule_records_kept(
    items: Seq<NewsItem>,
    results: Seq<Option<Seq<ActionRecord>>>,
)
    requires
        all_calls_failed(items, results),
    ensures
        ({
            let rp = relevant_positions(items);
            let kept = first_per_key(named(merged(items, chunks(rp), results)));
            forall|p: usize|
                #[trigger] rp.contains(p) && rule_record_at(items, p) is Some ==> exists|k: int|
                    0 <= k < kept.len() && kept[k].source_index == p
        }),
{
    let rp = relevant_positions(items);
    let plan = chunks(rp);
    let m = merged(items, plan, results);
    lemma_failed_merged_cover(items, plan, results);
    lemma_chunk_cover(rp);
    lemma_named(m);
    let n = named(m);
    lemma_first_per_key(n);
    let kept = first_per_key(n);
    assert forall|p: usize| #[trigger] rp.contains(p) && rule_record_at(items, p) is Some implies exists|
        k: int,
    | 0 <= k < kept.len() && kept[k].source_index == p by {
        let (b, j) = choose|b: int, j: int|
            0 <= b < plan.len() && 0 <= j < plan[b].len() && plan[b][j] == p;
        assert(rule_record_at(items, plan[b][j]) is Some);
        let q = choose|q: int| 0 <= q < m.len() && Some(m[q]) == rule_record_at(items, plan[b][j]);
        lemma_rule_record_named(items, p);
        let i = choose|i: int| 0 <= i < n.len() && #[trigger] n[i] == m[q];
        let k = choose|k: int| 0 <= k < kept.len() && action_key(#[trigger] kept[k]) == action_key(n[i]);
    }
}

/// With every call failed, the run fails exactly when no item worth a call has a rule
/// record.
#[verifier::spinoff_prover]
proof fn lemma_failed_run_fails(items: Seq<NewsItem>, results: Seq<Option<Seq<ActionRecord>>>)
    requires
        all_calls_failed(items, results),
    ensures
        ({
            let rp = relevant_positions(items);
            failures(items, chunks(rp), results) == chunks(rp).len() <==> forall|p: usize|
                #[trigger] rp.contains(p) ==> rule_record_at(items, p) is None
        }),
{
    let rp = relevant_positions(items);
    let plan = chunks(rp);
    lemma_failed_failures(items, plan, results);
    lemma_chunk_members(rp);
    lemma_chunk_cover(rp);
    if failures(items, plan, results) == plan.len() {
        assert forall|p: usize| #[trigger] rp.contains(p) implies rule_record_at(items, p) is None by {
            let (b, j) = choose|b: int, j: int|
                0 <= b < plan.len() && 0 <= j < plan[b].len() && plan[b][j] == p;
            assert(rule_record_at(items, plan[b][j]) is None);
        }
    }
    if forall|p: usize| #[trigger] rp.contains(p) ==> rule_record_at(items, p) is None {
        assert forall|b: int, j: int| 0 <= b < plan.len() && 0 <= j < plan[b].len() implies (
        #[trigger] rule_record_at(items, plan[b][j])) is None by {
            assert(rp.contains(plan[b][j]));
        }
    }
}

/// When every model call of an extraction run fails, the run falls back on the keyword
/// rules alone: it fails exactly when no item worth a call yields a rule record; otherwise
/// it returns, for each such item, one record (the item's rule record, sanitized, with the
/// action kind its keywords signal), and no two records share an item.
pub proof fn failed_calls_keep_one_rule_record_per_item(
    items: Seq<NewsItem>,
    results: Seq<Option<Seq<ActionRecord>>>,
)
    requires
        all_calls_failed(items, results),
    ensures
        ({
            let rp = relevant_positions(items);
            let plan = chunks(rp);
            let out = finalized(merged(items, plan, results));
            &&& (failures(items, plan, results) == plan.len() <==> forall|p: usize|
                #[trigger] rp.contains(p) ==> rule_record_at(items, p) is None)
            &&& forall|k: int|
                0 <= k < out.len() ==> {
                    let a = #[trigger] out[k];
                    &&& rp.contains(a.source_index)
                    &&& rule_record_at(items, a.source_index) matches Some(r) && a == sanitized(r)
                    &&& Some(a.action_type) == signal(haystack_of(items[a.source_index as int]@))
                }
            &&& forall|a: int, b: int|
                0 <= a < b < out.len() ==> (#[trigger] out[a]).source_index != (
                #[trigger] out[b]).source_index
            &&& forall|p: usize|
                #[trigger] rp.contains(p) && rule_record_at(items, p) is Some ==> exists|k: int|
                    0 <= k < out.len() && out[k].source_index == p
        }),
{
    let rp = relevant_positions(items);
    let plan = chunks(rp);
    let m = merged(items, plan, results);
    let n = named(m);
    let kept = first_per_key(n);
    let out = finalized(m);
    lemma_failed_run_fails(items, results);
    lemma_failed_kept_are_rule_records(items, results);
    lemma_failed_rule_records_kept(items, results);
    lemma_first_per_key(n);
    assert forall|k: int| 0 <= k < out.len() implies {
        let a = #[trigger] out[k];
        &&& rp.contains(a.source_index)
        &&& rule_record_at(items, a.source_index) matches Some(r) && a == sanitized(r)
        &&& Some(a.action_type) == signal(haystack_of(items[a.source_index as int]@))
    } by {
        assert(out[k] == sanitized(kept[k]));
        assert(rp.contains(kept[k].source_index));
    }
    assert forall|a: int, b: int| 0 <= a < b < out.len() implies (#[trigger] out[a]).source_index
        != (#[trigger] out[b]).source_index by {
        assert(out[a] == sanitized(kept[a]) && out[b] == sanitized(kept[b]));
        assert(rp.contains(kept[a].source_index) && rp.contains(kept[b].source_index));
        if kept[a].source_index == kept[b].source_index {
            assert(kept[a] == kept[b]);
        }
    }
    assert forall|p: usize| #[trigger] rp.contains(p) && rule_record_at(items, p) is Some implies exists|
        k: int,
    | 0 <= k < out.len() && out[k].source_index == p by {
        let k = choose|k: int| 0 <= k < kept.len() && kept[k].source_index == p;
        assert(out[k] == sanitized(kept[k]));
    }
}


/// Which action kind a lower-cased text signals, keyword by keyword in order of
/// precedence: an improvement notice; a licence (or license) suspension; a stop-business
/// order, a closure order or an FDA shut-down; a sealing; a seizure; a reopening; a raid,
/// an inspection or a bare mention of the FDA. Text with none of these signals nothing.
pub proof fn signals_follow_keyword_precedence(t: Seq<char>)
    ensures
        contains(t, "improvement notice"@) ==> signal(t) == Some(ActionType::ImprovementNotice),
        !contains(t, "improvement notice"@) && contains(t, "suspend"@) && (contains(
            t,
            "licence"@,
        ) || contains(t, "license"@)) ==> signal(t) == Some(ActionType::LicenceSuspension),
        ({
            let notice = contains(t, "improvement notice"@);
            let suspension = contains(t, "suspend"@) && (contains(t, "licence"@) || contains(
                t,
                "license"@,
            ));
            let stop = contains(t, "stop business"@) || (contains(t, "closure"@) && contains(
                t,
                "order"@,
            )) || (contains(t, "shut down"@) && contains(t, "fda"@));
            let seal = contains(t, "seal"@);
            let seize = contains(t, "seiz"@);
            let reopen = contains(t, "reopen"@);
            let inspect = contains(t, "raid"@) || contains(t, "inspect"@) || contains(t, "fda"@);
            &&& !notice && !suspension && stop ==> signal(t) == Some(ActionType::StopBusiness)
            &&& !notice && !suspension && !stop && seal ==> signal(t) == Some(ActionType::Sealing)
            &&& !notice && !suspension && !stop && !seal && seize ==> signal(t) == Some(
                ActionType::Seizure,
            )
            &&& !notice && !suspension && !stop && !seal && !seize && reopen ==> signal(t) == Some(
                ActionType::Reopened,
            )
            &&& !notice && !suspension && !stop && !seal && !seize && !reopen && inspect ==> signal(
                t,
            ) == Some(ActionType::Inspection)
            &&& !notice && !suspension && !stop && !seal && !seize && !reopen && !inspect ==> signal(
                t,
            ) is None
        }),
{
}

/// An item is worth a model call exactly when its lower-cased text signals an action and
/// mentions the FDA, food safety, a licence or license, sealing, seizure, a raid or an
/// inspection.
pub proof fn relevance_needs_a_signal_and_an_enforcement_word(it: NewsRecord)
    ensures
        ({
            let h = haystack_of(it);
            let word = contains(h, "fda"@) || contains(h, "food safety"@) || contains(
                h,
                "licence"@,
            ) || contains(h, "license"@) || contains(h, "seal"@) || contains(h, "seiz"@)
                || contains(h, "raid"@) || contains(h, "inspect"@);
            &&& relevant(it) ==> signal(h) is Some
            &&& relevant(it) ==> word
            &&& signal(h) is Some && word ==> relevant(it)
        }),
{
}

/// `s` has its first title separator (`|`, `-` or `:`) at position `k`, or none at all
/// when `k` is its length.
proof fn lemma_segment_len_at(s: Seq<char>, k: int)
    requires
        0 <= k <= s.len(),
        forall|j: int| 0 <= j < k ==> !(#[trigger] s[j] == '|' || s[j] == '-' || s[j] == ':'),
        k == s.len() || s[k] == '|' || s[k] == '-' || s[k] == ':',
    ensures
        segment_len(s) == k,
    decreases k,
{
    if k > 0 {
        assert(!(s[0] == '|' || s[0] == '-' || s[0] == ':'));
        let d = s.drop_first();
        assert forall|j: int| 0 <= j < k - 1 implies !(#[trigger] d[j] == '|' || d[j] == '-'
            || d[j] == ':') by {
            assert(d[j] == s[j + 1]);
        }
        if k < s.len() {
            assert(d[k - 1] == s[k]);
        }
        lemma_segment_len_at(d, k - 1);
    }
}

/// The name the keyword fallback reads from a title is the part before its first `|`,
/// `-` or `:` (the whole title when it has none), trimmed; when that is longer than 120
/// characters, its first 120, trimmed again.
pub proof fn title_name_is_the_text_before_the_first_separator(title: Seq<char>, k: int)
    requires
        0 <= k <= title.len(),
        forall|j: int|
            0 <= j < k ==> !(#[trigger] title[j] == '|' || title[j] == '-' || title[j] == ':'),
        k == title.len() || title[k] == '|' || title[k] == '-' || title[k] == ':',
    ensures
        trim(title.take(k)).len() <= 120 ==> title_name(title) == trim(title.take(k)),
        trim(title.take(k)).len() > 120 ==> title_name(title) == trim(
            trim(title.take(k)).take(120),
        ),
{
    lemma_segment_len_at(title, k);
    crate::text::lemma_trim_idempotent(title.take(k));
}

/// `out` is `s` trimmed and cut to its first `max` characters.
pub open spec fn is_cut_of(s: Seq<char>, out: Seq<char>, max: int) -> bool {
    &&& out.len() == if trim(s).len() > max {
        max
    } else {
        trim(s).len() as int
    }
    &&& out == trim(s).take(out.len() as int)
}

/// `out` is present exactly when `s` is, and then is `s` trimmed and cut to `max`.
pub open spec fn is_opt_cut_of(s: Option<Seq<char>>, out: Option<Seq<char>>, max: int) -> bool {
    match s {
        Some(x) => out matches Some(y) && is_cut_of(x, y, max),
        None => out is None,
    }
}

/// A clamped text is its text trimmed and cut.
proof fn lemma_clamped_is_cut(s: Seq<char>, max: usize)
    ensures
        is_cut_of(s, clamped(s, max), max as int),
{
    let t = trim(s);
    assert(t.take(t.len() as int) =~= t);
}

/// A clamped optional text is its text trimmed and cut, or stays absent.
proof fn lemma_clamped_opt_is_cut(o: Option<Seq<char>>, max: usize)
    ensures
        is_opt_cut_of(o, clamped_opt(o, max), max as int),
{
    if let Some(x) = o {
        lemma_clamped_is_cut(x, max);
    }
}

/// With entries that are not blank, cutting a list keeps every entry, each trimmed and cut.
proof fn lemma_clamp_list_keeps_all(v: Seq<Seq<char>>, max: usize)
    requires
        max > 0,
        forall|k: int| 0 <= k < v.len() ==> trim(#[trigger] v[k]).len() > 0,
    ensures
        clamp_list(v, max).len() == v.len(),
        forall|k: int| 0 <= k < v.len() ==> #[trigger] clamp_list(v, max)[k] == clamped(v[k], max),
    decreases v.len(),
{
    if v.len() > 0 {
        let init = v.drop_last();
        assert forall|k: int| 0 <= k < init.len() implies trim(#[trigger] init[k]).len() > 0 by {
            assert(init[k] == v[k]);
        }
        lemma_clamp_list_keeps_all(init, max);
        assert(trim(v[v.len() - 1]).len() > 0);
        let all = clamp_list(v, max);
        let before = clamp_list(init, max);
        assert forall|k: int| 0 <= k < v.len() implies #[trigger] all[k] == clamped(v[k], max) by {
            if k < init.len() {
                assert(all[k] == before[k]);
                assert(init[k] == v[k]);
            }
        }
    }
}

/// With names that lower-case to something, the platform list keeps every name, each
/// trimmed and lower-cased.
proof fn lemma_platform_list_keeps_all(v: Seq<Seq<char>>)
    requires
        forall|k: int| 0 <= k < v.len() ==> lowercase(trim(#[trigger] v[k])).len() > 0,
    ensures
        platform_list(v).len() == v.len(),
        forall|k: int| 0 <= k < v.len() ==> #[trigger] platform_list(v)[k] == lowercase(trim(v[k])),
    decreases v.len(),
{
    if v.len() > 0 {
        let init = v.drop_last();
        assert forall|k: int| 0 <= k < init.len() implies lowercase(trim(#[trigger] init[k])).len()
            > 0 by {
            assert(init[k] == v[k]);
        }
        lemma_platform_list_keeps_all(init);
        assert(lowercase(trim(v[v.len() - 1])).len() > 0);
        let all = platform_list(v);
        let before = platform_list(init);
        assert forall|k: int| 0 <= k < v.len() implies #[trigger] all[k] == lowercase(trim(v[k])) by {
            if k < init.len() {
                assert(all[k] == before[k]);
                assert(init[k] == v[k]);
            }
        }
    }
}

/// What sanitizing does to each field of a record: the name is trimmed and cut to 200
/// characters; area, city and brand, when present, stay present, trimmed and cut to 120;
/// operator to 200, licence number to 64 and details to 2000; absent ones stay absent.
/// The outlet kind, action kind, date, score and source are untouched. Violations that
/// are not blank are all kept, in order and each trimmed and cut to 300, up to the first
/// five; platform names that lower-case to something are all kept, in order and each
/// trimmed and lower-cased, up to the first six.
pub proof fn sanitizing_trims_and_cuts_each_field(a: ActionRecord)
    ensures
        ({
            let s = sanitized(a);
            &&& is_cut_of(a.establishment, s.establishment, 200)
            &&& is_opt_cut_of(a.area, s.area, 120)
            &&& is_opt_cut_of(a.city, s.city, 120)
            &&& is_opt_cut_of(a.brand, s.brand, 120)
            &&& is_opt_cut_of(a.operator, s.operator, 200)
            &&& is_opt_cut_of(a.fssai_number, s.fssai_number, 64)
            &&& is_opt_cut_of(a.details, s.details, 2000)
            &&& s.outlet_type == a.outlet_type
            &&& s.action_type == a.action_type
            &&& s.action_date == a.action_date
            &&& s.compliance_score == a.compliance_score
            &&& s.source_index == a.source_index
        }),
        (forall|k: int| 0 <= k < a.violations.len() ==> trim(#[trigger] a.violations[k]).len() > 0)
            ==> ({
            let s = sanitized(a);
            &&& s.violations.len() == if a.violations.len() > 5 {
                5
            } else {
                a.violations.len() as int
            }
            &&& forall|k: int|
                0 <= k < s.violations.len() ==> is_cut_of(
                    a.violations[k],
                    #[trigger] s.violations[k],
                    300,
                )
        }),
        (forall|k: int|
            0 <= k < a.platforms.len() ==> lowercase(trim(#[trigger] a.platforms[k])).len() > 0)
            ==> ({
            let s = sanitized(a);
            &&& s.platforms.len() == if a.platforms.len() > 6 {
                6
            } else {
                a.platforms.len() as int
            }
            &&& forall|k: int|
                0 <= k < s.platforms.len() ==> #[trigger] s.platforms[k] == lowercase(
                    trim(a.platforms[k]),
                )
        }),
{
    let s = sanitized(a);
    lemma_clamped_is_cut(a.establishment, 200);
    lemma_clamped_opt_is_cut(a.area, 120);
    lemma_clamped_opt_is_cut(a.city, 120);
    lemma_clamped_opt_is_cut(a.brand, 120);
    lemma_clamped_opt_is_cut(a.operator, 200);
    lemma_clamped_opt_is_cut(a.fssai_number, 64);
    lemma_clamped_opt_is_cut(a.details, 2000);
    if forall|k: int| 0 <= k < a.violations.len() ==> trim(#[trigger] a.violations[k]).len() > 0 {
        lemma_clamp_list_keeps_all(a.violations, 300);
        let c = clamp_list(a.violations, 300);
        assert forall|k: int| 0 <= k < s.violations.len() implies is_cut_of(
            a.violations[k],
            #[trigger] s.violations[k],
            300,
        ) by {
            assert(s.violations[k] == c[k]);
            lemma_clamped_is_cut(a.violations[k], 300);
        }
    }
    if forall|k: int|
        0 <= k < a.platforms.len() ==> lowercase(trim(#[trigger] a.platforms[k])).len() > 0 {
        lemma_platform_list_keeps_all(a.platforms);
        let c = platform_list(a.platforms);
        assert forall|k: int| 0 <= k < s.platforms.len() implies #[trigger] s.platforms[k]
            == lowercase(trim(a.platforms[k])) by {
            assert(s.platforms[k] == c[k]);
        }
    }
}


/// The text searched for signals is the title, the snippet and the source of the item,
/// in that order and separated by single spaces (a missing snippet or source counting as
/// empty), lower-cased.
pub proof fn haystack_joins_title_snippet_and_source(it: NewsRecord, snippet: Seq<char>, source: Seq<char>)
    requires
        it.snippet == Some(snippet) || (it.snippet is None && snippet.len() == 0),
        it.source == Some(source) || (it.source is None && source.len() == 0),
    ensures
        haystack_of(it) == lowercase(it.title + " "@ + snippet + " "@ + source),
{
    reveal_strlit(" ");
    assert(" "@ =~= seq![' ']);
}

/// The keyword fallback keeps a record for an item exactly when the item's text signals
/// an action and its title yields a name; that record carries the signalled kind, the
/// title's name, the item's snippet as details and the item's position, and nothing else.
pub proof fn rule_records_carry_the_signal_and_the_title_name(orig: usize, it: NewsRecord)
    ensures
        rule_record(orig, it) is Some <==> signal(haystack_of(it)) is Some && title_name(
            it.title,
        ).len() > 0,
        rule_record(orig, it) matches Some(r) ==> {
            &&& Some(r.action_type) == signal(haystack_of(it))
            &&& r.establishment == title_name(it.title)
            &&& r.details == it.snippet
            &&& r.source_index == orig
            &&& r.area is None && r.city is None && r.brand is None && r.operator is None
            &&& r.outlet_type is None && r.action_date is None && r.compliance_score is None
            &&& r.fssai_number is None
            &&& r.violations.len() == 0 && r.platforms.len() == 0
        },
{
}

} // verus!
