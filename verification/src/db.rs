//! The rows that are stored, and the decisions taken before one is written: whether
//! an equivalent event is already on record, and which rows of a fresh batch stand for
//! distinct events.
use vstd::prelude::*;

use crate::events::{same_event, same_event_spec};
use crate::models::{opt_chars, strs, Date};

verus! {

/// One enforcement action, ready to be stored.
#[derive(Debug, Clone)]
pub struct ActionInsert {
    pub establishment: String,
    pub area: Option<String>,
    pub city: Option<String>,
    pub brand: Option<String>,
    pub operator: Option<String>,
    pub outlet_type: Option<String>,
    pub action_type: String,
    pub action_date: Date,
    pub violations: Vec<String>,
    pub compliance_score: Option<i32>,
    pub fssai_number: Option<String>,
    pub details: Option<String>,
    pub platforms: Vec<String>,
    pub source_url: String,
    pub source_publisher: Option<String>,
    pub source_headline: Option<String>,
    /// Publication time of the source, in seconds since the Unix epoch.
    pub published_at: Option<i64>,
}

/// The content of a stored row.
pub struct InsertRecord {
    pub establishment: Seq<char>,
    pub area: Option<Seq<char>>,
    pub city: Option<Seq<char>>,
    pub brand: Option<Seq<char>>,
    pub operator: Option<Seq<char>>,
    pub outlet_type: Option<Seq<char>>,
    pub action_type: Seq<char>,
    pub action_date: Date,
    pub violations: Seq<Seq<char>>,
    pub compliance_score: Option<i32>,
    pub fssai_number: Option<Seq<char>>,
    pub details: Option<Seq<char>>,
    pub platforms: Seq<Seq<char>>,
    pub source_url: Seq<char>,
    pub source_publisher: Option<Seq<char>>,
    pub source_headline: Option<Seq<char>>,
    pub published_at: Option<i64>,
}

impl View for ActionInsert {
    type V = InsertRecord;

    open spec fn view(&self) -> InsertRecord {
        InsertRecord {
            establishment: self.establishment@,
            area: opt_chars(self.area),
            city: opt_chars(self.city),
            brand: opt_chars(self.brand),
            operator: opt_chars(self.operator),
            outlet_type: opt_chars(self.outlet_type),
            action_type: self.action_type@,
            action_date: self.action_date,
            violations: strs(self.violations@),
            compliance_score: self.compliance_score,
            fssai_number: opt_chars(self.fssai_number),
            details: opt_chars(self.details),
            platforms: strs(self.platforms@),
            source_url: self.source_url@,
            source_publisher: opt_chars(self.source_publisher),
            source_headline: opt_chars(self.source_headline),
            published_at: self.published_at,
        }
    }
}

/// An establishment acted against recently, as shown to the duplicate-grouping pass.
#[derive(Debug, Clone)]
pub struct RecentEvent {
    pub establishment: String,
    pub action_type: String,
    pub action_date: Date,
    pub city: Option<String>,
    pub area: Option<String>,
}

/// The views of a sequence of rows.
pub open spec fn insert_views(v: Seq<ActionInsert>) -> Seq<InsertRecord> {
    v.map_values(|r: ActionInsert| r@)
}

/// Some name among `candidates` refers to the same outlet as `establishment`.
pub open spec fn reported_among(candidates: Seq<Seq<char>>, establishment: Seq<char>) -> bool {
    exists|k: int|
        0 <= k < candidates.len() && same_event_spec(#[trigger] candidates[k], establishment)
}

/// Whether one of the establishments already on record near the new row's date (the
/// `candidates`) names the same outlet as the new row; such a row is a re-report of an
/// event already stored and is not written.
pub fn already_reported(candidates: &[String], establishment: &str) -> (r: bool)
    ensures
        r == reported_among(candidates@.map_values(|c: String| c@), establishment@),
{
    let ghost cs = candidates@.map_values(|c: String| c@);
    let mut k: usize = 0;
    while k < candidates.len()
        invariant
            k <= candidates@.len(),
            cs == candidates@.map_values(|c: String| c@),
            forall|q: int| 0 <= q < k ==> !same_event_spec(#[trigger] cs[q], establishment@),
        decreases candidates@.len() - k,
    {
        if same_event(candidates[k].as_str(), establishment) {
            assert(same_event_spec(cs[k as int], establishment@));
            return true;
        }
        k = k + 1;
    }
    false
}

/// Two rows of one batch report the same event: same city, dates at most five days
/// apart, and names that refer to the same outlet.
pub open spec fn same_batch_event(kept: InsertRecord, row: InsertRecord) -> bool {
    &&& kept.city == row.city
    &&& -5 <= kept.action_date.days - row.action_date.days <= 5
    &&& same_event_spec(kept.establishment, row.establishment)
}

/// The positions of the rows that stand for distinct events, taking rows in order and
/// keeping a row unless it reports the same event as a row already kept.
pub open spec fn distinct_positions(rows: Seq<InsertRecord>) -> Seq<int>
    decreases rows.len(),
{
    if rows.len() == 0 {
        seq![]
    } else {
        let before = distinct_positions(rows.drop_last());
        if exists|j: int|
            0 <= j < before.len() && same_batch_event(rows[#[trigger] before[j]], rows.last()) {
            before
        } else {
            before.push(rows.len() - 1)
        }
    }
}

/// Whether the row `r` reports the same event as one of the rows at `kept`.
fn matches_kept(rows: &[ActionInsert], kept: &Vec<usize>, r: usize) -> (m: bool)
    requires
        r < rows@.len(),
        forall|j: int| 0 <= j < kept@.len() ==> #[trigger] kept@[j] < rows@.len(),
    ensures
        m == exists|j: int|
            0 <= j < kept@.len() && same_batch_event(
                rows@[#[trigger] kept@[j] as int]@,
                rows@[r as int]@,
            ),
{
    let row = &rows[r];
    let mut j: usize = 0;
    while j < kept.len()
        invariant
            j <= kept@.len(),
            r < rows@.len(),
            *row == rows@[r as int],
            forall|q: int| 0 <= q < kept@.len() ==> #[trigger] kept@[q] < rows@.len(),
            forall|q: int|
                0 <= q < j ==> !same_batch_event(rows@[#[trigger] kept@[q] as int]@, row@),
        decreases kept@.len() - j,
    {
        let k = &rows[kept[j]];
        let same_city = match (&k.city, &row.city) {
            (Some(a), Some(b)) => crate::text::str_eq(a.as_str(), b.as_str()),
            (None, None) => true,
            _ => false,
        };
        assert(same_city == (opt_chars(k.city) == opt_chars(row.city)));
        let diff: i128 = k.action_date.days as i128 - row.action_date.days as i128;
        if same_city && -5 <= diff && diff <= 5 && same_event(
            k.establishment.as_str(),
            row.establishment.as_str(),
        ) {
            assert(same_batch_event(rows@[kept@[j as int] as int]@, row@));
            return true;
        }
        j = j + 1;
    }
    false
}

/// The views of a sequence of positions, as integers.
pub open spec fn positions(v: Seq<usize>) -> Seq<int> {
    v.map_values(|p: usize| p as int)
}

/// Which rows of a fresh batch are written when a date window is replaced: rows are
/// taken in order, and a row is skipped when a row already kept is in the same city,
/// within five days of it, and names the same outlet. Returns the kept positions.
pub fn distinct_events(rows: &[ActionInsert]) -> (r: Vec<usize>)
    ensures
        positions(r@) == distinct_positions(insert_views(rows@)),
{
    let ghost views = insert_views(rows@);
    let mut kept: Vec<usize> = Vec::new();
    let mut i: usize = 0;
    assert(views.take(0) =~= seq![]);
    assert(positions(kept@) =~= seq![]);
    while i < rows.len()
        invariant
            i <= rows@.len(),
            views == insert_views(rows@),
            positions(kept@) == distinct_positions(views.take(i as int)),
            forall|j: int| 0 <= j < kept@.len() ==> #[trigger] kept@[j] < i,
        decreases rows@.len() - i,
    {
        let ghost pre = views.take(i as int);
        let ghost cur = views.take(i + 1);
        assert(cur.drop_last() =~= pre);
        assert(cur.last() == rows@[i as int]@);
        let m = matches_kept(rows, &kept, i);
        proof {
            let before = distinct_positions(pre);
            assert(before == positions(kept@));
            if m {
                let j = choose|j: int|
                    0 <= j < kept@.len() && same_batch_event(
                        rows@[#[trigger] kept@[j] as int]@,
                        rows@[i as int]@,
                    );
                assert(cur[before[j]] == rows@[kept@[j] as int]@);
                assert(same_batch_event(cur[before[j]], cur.last()));
            } else {
                assert forall|j: int|
                    0 <= j < before.len() implies !same_batch_event(
                    cur[#[trigger] before[j]],
                    cur.last(),
                ) by {
                    assert(cur[before[j]] == rows@[kept@[j] as int]@);
                }
            }
        }
        if !m {
            kept.push(i);
            assert(positions(kept@) =~= distinct_positions(pre).push(i as int));
        }
        i = i + 1;
    }
    assert(views.take(rows@.len() as int) =~= views);
    kept
}

/// The kept positions increase strictly and each names a row.
proof fn lemma_positions_increase(rows: Seq<InsertRecord>)
    ensures
        forall|a: int, b: int|
            0 <= a < b < distinct_positions(rows).len() ==> #[trigger] distinct_positions(
                rows,
            )[a] < #[trigger] distinct_positions(rows)[b],
        forall|a: int|
            0 <= a < distinct_positions(rows).len() ==> 0 <= #[trigger] distinct_positions(
                rows,
            )[a] < rows.len(),
    decreases rows.len(),
{
    if rows.len() > 0 {
        let init = rows.drop_last();
        lemma_positions_increase(init);
        let before = distinct_positions(init);
        let all = distinct_positions(rows);
        if all != before {
            assert(all == before.push(rows.len() - 1));
            assert forall|a: int, b: int| 0 <= a < b < all.len() implies #[trigger] all[a]
                < #[trigger] all[b] by {
                if b < before.len() {
                    assert(all[a] == before[a] && all[b] == before[b]);
                } else {
                    assert(all[a] == before[a]);
                }
            }
        }
    }
}

/// Of the rows of one batch, no two that are kept report the same event (the later
/// compared against the earlier), and every row that is skipped reports the same event
/// as a kept row that comes before it.
pub proof fn distinct_events_keep_one_per_event(rows: Seq<InsertRecord>)
    ensures
        forall|a: int, b: int|
            0 <= a < b < distinct_positions(rows).len() ==> !same_batch_event(
                rows[#[trigger] distinct_positions(rows)[a]],
                rows[#[trigger] distinct_positions(rows)[b]],
            ),
        forall|p: int|
            0 <= p < rows.len() && !distinct_positions(rows).contains(p) ==> exists|a: int|
                0 <= a < distinct_positions(rows).len() && distinct_positions(rows)[a] < p
                    && same_batch_event(rows[#[trigger] distinct_positions(rows)[a]], rows[p]),
    decreases rows.len(),
{
    if rows.len() > 0 {
        let init = rows.drop_last();
        distinct_events_keep_one_per_event(init);
        lemma_positions_increase(init);
        let before = distinct_positions(init);
        let all = distinct_positions(rows);
        assert forall|j: int| 0 <= j < before.len() implies rows[before[j]] == init[before[j]] by {}
        assert forall|a: int, b: int|
            0 <= a < b < all.len() implies !same_batch_event(
            rows[#[trigger] all[a]],
            rows[#[trigger] all[b]],
        ) by {
            if b < before.len() {
                assert(all[a] == before[a] && all[b] == before[b]);
                assert(rows[before[a]] == init[before[a]]);
                assert(rows[before[b]] == init[before[b]]);
            } else {
                assert(all[a] == before[a]);
                assert(all[b] == rows.len() - 1);
            }
        }
        assert forall|p: int|
            0 <= p < rows.len() && !all.contains(p) implies exists|a: int|
            0 <= a < all.len() && all[a] < p && same_batch_event(
                rows[#[trigger] all[a]],
                rows[p],
            ) by {
            if p == rows.len() - 1 {
                if all == before {
                    let j = choose|j: int|
                        0 <= j < before.len() && same_batch_event(
                            rows[#[trigger] before[j]],
                            rows.last(),
                        );
                    assert(all[j] == before[j]);
                } else {
                    assert(all.last() == p);
                    assert(all.contains(p));
                }
            } else {
                assert(!before.contains(p)) by {
                    if before.contains(p) {
                        let q = choose|q: int| 0 <= q < before.len() && before[q] == p;
                        assert(all[q] == p);
                    }
                }
                let a = choose|a: int|
                    0 <= a < before.len() && before[a] < p && same_batch_event(
                        init[#[trigger] before[a]],
                        init[p],
                    );
                assert(all[a] == before[a]);
                assert(rows[p] == init[p]);
            }
        }
    }
}

} // verus!
