//! The duplicate-grouping pass: the records shown to the model, each with an id that
//! the model echoes back, and the reading of its reply into the new rows to drop.
use vstd::prelude::*;

use crate::db::{ActionInsert, RecentEvent};
use crate::models::{copy_opt, opt_chars, Date};
use crate::reply::{
    digits_value, dropped, dropped_by, drops_from_groups, in_news, increasing, is_digit,
    is_known_id, known_index, new_index, parse_groups, read_groups, reply_text, response_text,
    touches_known, unsigned_digits, ModelReply,
};
use crate::text::{chars_of, string_of, trim};

verus! {

/// One record as the duplicate-grouping pass sees it.
#[derive(Debug)]
pub struct DupeRecord {
    /// `N` and the row's position for a new row, `K` and the position for a stored one.
    pub id: String,
    pub establishment: String,
    pub action_type: String,
    pub action_date: Date,
    pub city: Option<String>,
    pub area: Option<String>,
}

/// The decimal digit character for `d` in 0..10.
pub open spec fn digit_char(d: int) -> char {
    (48 + d) as char
}

/// The decimal digits of `n`, most significant first, without leading zeros.
pub open spec fn decimal(n: nat) -> Seq<char>
    decreases n,
{
    if n < 10 {
        seq![digit_char(n as int)]
    } else {
        decimal(n / 10).push(digit_char((n % 10) as int))
    }
}

/// The id of the record at position `i` among those marked `prefix`.
pub open spec fn record_id(prefix: char, i: nat) -> Seq<char> {
    seq![prefix] + decimal(i)
}

/// The decimal digits of `n`.
fn decimal_chars(n: usize) -> (r: Vec<char>)
    ensures
        r@ == decimal(n as nat),
    decreases n,
{
    let d = (n % 10) as u8;
    let c = (48u8 + d) as char;
    assert(c == digit_char(d as int));
    if n < 10 {
        vec![c]
    } else {
        let mut v = decimal_chars(n / 10);
        v.push(c);
        v
    }
}

/// The id `prefix` followed by the decimal digits of `i`.
fn id_of(prefix: char, i: usize) -> (r: String)
    ensures
        r@ == record_id(prefix, i as nat),
{
    let mut v: Vec<char> = vec![prefix];
    let digits = decimal_chars(i);
    let mut k: usize = 0;
    while k < digits.len()
        invariant
            k <= digits@.len(),
            v@ == seq![prefix] + digits@.take(k as int),
        decreases digits@.len() - k,
    {
        v.push(digits[k]);
        k = k + 1;
        assert(v@ =~= seq![prefix] + digits@.take(k as int));
    }
    assert(digits@.take(digits@.len() as int) =~= digits@);
    string_of(v.as_slice())
}

/// The records shown to the duplicate-grouping pass: the new rows as `N0`, `N1`, … and
/// the stored events as `K0`, `K1`, …, each with its name, action kind, day, city and
/// area.
pub fn dupe_records(rows: &[ActionInsert], recent: &[RecentEvent]) -> (r: (
    Vec<DupeRecord>,
    Vec<DupeRecord>,
))
    ensures
        r.0@.len() == rows@.len(),
        forall|k: int|
            #![trigger r.0@[k]]
            0 <= k < rows@.len() ==> {
                &&& r.0@[k].id@ == record_id('N', k as nat)
                &&& r.0@[k].establishment@ == rows@[k].establishment@
                &&& r.0@[k].action_type@ == rows@[k].action_type@
                &&& r.0@[k].action_date == rows@[k].action_date
                &&& opt_chars(r.0@[k].city) == opt_chars(rows@[k].city)
                &&& opt_chars(r.0@[k].area) == opt_chars(rows@[k].area)
            },
        r.1@.len() == recent@.len(),
        forall|k: int|
            #![trigger r.1@[k]]
            0 <= k < recent@.len() ==> {
                &&& r.1@[k].id@ == record_id('K', k as nat)
                &&& r.1@[k].establishment@ == recent@[k].establishment@
                &&& r.1@[k].action_type@ == recent@[k].action_type@
                &&& r.1@[k].action_date == recent@[k].action_date
                &&& opt_chars(r.1@[k].city) == opt_chars(recent@[k].city)
                &&& opt_chars(r.1@[k].area) == opt_chars(recent@[k].area)
            },
{
    let mut news: Vec<DupeRecord> = Vec::new();
    let mut i: usize = 0;
    while i < rows.len()
        invariant
            i <= rows@.len(),
            news@.len() == i,
            forall|k: int|
                #![trigger news@[k]]
                0 <= k < i ==> {
                    &&& news@[k].id@ == record_id('N', k as nat)
                    &&& news@[k].establishment@ == rows@[k].establishment@
                    &&& news@[k].action_type@ == rows@[k].action_type@
                    &&& news@[k].action_date == rows@[k].action_date
                    &&& opt_chars(news@[k].city) == opt_chars(rows@[k].city)
                    &&& opt_chars(news@[k].area) == opt_chars(rows@[k].area)
                },
        decreases rows@.len() - i,
    {
        let r = &rows[i];
        news.push(
            DupeRecord {
                id: id_of('N', i),
                establishment: r.establishment.clone(),
                action_type: r.action_type.clone(),
                action_date: r.action_date,
                city: copy_opt(&r.city),
                area: copy_opt(&r.area),
            },
        );
        i = i + 1;
    }
    let mut known: Vec<DupeRecord> = Vec::new();
    let mut j: usize = 0;
    while j < recent.len()
        invariant
            j <= recent@.len(),
            known@.len() == j,
            forall|k: int|
                #![trigger known@[k]]
                0 <= k < j ==> {
                    &&& known@[k].id@ == record_id('K', k as nat)
                    &&& known@[k].establishment@ == recent@[k].establishment@
                    &&& known@[k].action_type@ == recent@[k].action_type@
                    &&& known@[k].action_date == recent@[k].action_date
                    &&& opt_chars(known@[k].city) == opt_chars(recent@[k].city)
                    &&& opt_chars(known@[k].area) == opt_chars(recent@[k].area)
                },
        decreases recent@.len() - j,
    {
        let e = &recent[j];
        known.push(
            DupeRecord {
                id: id_of('K', j),
                establishment: e.establishment.clone(),
                action_type: e.action_type.clone(),
                action_date: e.action_date,
                city: copy_opt(&e.city),
                area: copy_opt(&e.area),
            },
        );
        j = j + 1;
    }
    (news, known)
}

/// Every character of `decimal(n)` is a digit, and the digits read back as `n`.
proof fn lemma_decimal_reads_back(n: nat)
    ensures
        decimal(n).len() > 0,
        forall|k: int| 0 <= k < decimal(n).len() ==> is_digit(#[trigger] decimal(n)[k]),
        digits_value(decimal(n)) == n,
    decreases n,
{
    if n >= 10 {
        lemma_decimal_reads_back(n / 10);
        let d = decimal(n / 10);
        let full = decimal(n);
        assert(full == d.push(digit_char((n % 10) as int)));
        assert(full.drop_last() =~= d);
        assert(full.last() == digit_char((n % 10) as int));
        assert(digit_char((n % 10) as int) as int == 48 + n % 10);
        assert(digits_value(full) == digits_value(d) * 10 + (full.last() as int - '0' as int));
        assert forall|k: int| 0 <= k < full.len() implies is_digit(#[trigger] full[k]) by {
            if k < d.len() {
                assert(full[k] == d[k]);
            }
        }
    } else {
        assert(decimal(n).drop_last() =~= Seq::<char>::empty());
        assert(digit_char(n as int) as int == 48 + n);
        assert(digits_value(decimal(n)) == digits_value(decimal(n).drop_last()) * 10 + (
        decimal(n).last() as int - '0' as int));
    }
}

/// An id handed out for a new row reads back, in a duplicate group, as that row's
/// position; an id handed out for a stored event reads back as that event's position,
/// counts as a stored record's when it is among the `n_known` shown, and never reads as a
/// new row's.
pub proof fn record_ids_read_back(i: usize, n_known: usize)
    ensures
        new_index(record_id('N', i as nat)) == Some(i),
        known_index(record_id('K', i as nat)) == Some(i),
        is_known_id(record_id('K', i as nat), n_known) <==> i < n_known,
        new_index(record_id('K', i as nat)) is None,
        !is_known_id(record_id('N', i as nat), n_known),
{
    lemma_decimal_reads_back(i as nat);
    let d = decimal(i as nat);
    assert(record_id('N', i as nat).drop_first() =~= d);
    assert(record_id('K', i as nat).drop_first() =~= d);
    assert(is_digit(d[0]));
    assert(unsigned_digits(d) == d);
}

/// What the duplicate-grouping call yields: when the call succeeded with a JSON body whose
/// reply text is not blank, the groups that `parse_groups` reads from that text, if it
/// reads any; otherwise nothing, and the call counts as failed.
pub open spec fn collapse_groups(reply: ModelReply) -> Option<Seq<Seq<Seq<char>>>> {
    match reply {
        ModelReply::Success(Some(body)) => if trim(reply_text(body)).len() > 0 {
            match read_groups(reply_text(body)) {
                Some(Ok(gs)) => Some(gs),
                _ => None,
            }
        } else {
            None
        },
        _ => None,
    }
}

/// Reads the duplicate-grouping reply into the new rows to drop, in increasing order, for
/// `n_new` new rows and `n_known` stored events shown. `None` when the call failed, its
/// body was not JSON, its text was blank, that text is not JSON, or it has no `groups`
/// array; the pass is best effort, and name matching at write time stays the safety net.
pub fn collapse_reply(reply: &ModelReply, n_new: usize, n_known: usize) -> (r: Option<Vec<usize>>)
    ensures
        match collapse_groups(*reply) {
            None => r is None,
            Some(gs) => r matches Some(v) && increasing(v@) && forall|i: usize|
                v@.contains(i) <==> dropped(gs, n_new, n_known, i),
        },
{
    match reply {
        ModelReply::Success(Some(body)) => {
            let text = response_text(body);
            let t = crate::text::trim_str(text.as_str());
            if t.as_str().is_empty() {
                return None;
            }
            match parse_groups(text.as_str()) {
                Some(Ok(gs)) => Some(drops_from_groups(gs.as_slice(), n_new, n_known)),
                _ => None,
            }
        },
        _ => None,
    }
}

/// What the duplicate groups promise, with `n` new rows and `m` stored events shown: a
/// new record named in a group that includes one of the stored records is always dropped; only new records that exist are dropped; and when
/// there is a single group naming no stored record shown (unknown ids are ignored), every new record in it but the
/// lowest-indexed one is dropped and that one is kept.
pub proof fn duplicate_groups_keep_one_per_event(gs: Seq<Seq<Seq<char>>>, n: usize, m: usize)
    ensures
        forall|q: int, i: usize|
            0 <= q < gs.len() && touches_known(gs[q], m) && #[trigger] in_news(gs[q], n, i)
                ==> dropped(gs, n, m, i),
        forall|i: usize| #[trigger] dropped(gs, n, m, i) ==> i < n,
        gs.len() == 1 && !touches_known(gs[0], m) ==> forall|i: usize|
            #[trigger] in_news(gs[0], n, i) ==> (dropped(gs, n, m, i) <==> exists|j: usize|
                j < i && #[trigger] in_news(gs[0], n, j)),
{
    assert forall|q: int, i: usize|
        0 <= q < gs.len() && touches_known(gs[q], m) && #[trigger] in_news(gs[q], n, i) implies dropped(
        gs,
        n,
        m,
        i,
    ) by {
        assert(dropped_by(gs[q], n, m, i));
    }
    if gs.len() == 1 && !touches_known(gs[0], m) {
        assert forall|i: usize| #[trigger] in_news(gs[0], n, i) implies (dropped(gs, n, m, i)
            <==> exists|j: usize| j < i && #[trigger] in_news(gs[0], n, j)) by {
            if exists|j: usize| j < i && #[trigger] in_news(gs[0], n, j) {
                assert(dropped_by(gs[0], n, m, i));
            }
        }
    }
}

} // verus!
