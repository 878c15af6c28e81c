//! Deciding when two establishment names describe the same outlet, and keeping one
//! record per real-world event when several reports of it arrive.
use vstd::prelude::*;

use crate::text::{
    alphanumeric, byte_len, chars_eq, chars_of, contains, contains_chars, is_alnum, lowercase,
    str_eq, string_of, to_lower, utf8_len,
};

verus! {

/// The views of a sequence of character vectors.
pub open spec fn vviews(v: Seq<Vec<char>>) -> Seq<Seq<char>> {
    v.map_values(|w: Vec<char>| w@)
}

/// The views of a sequence of strings.
pub open spec fn sviews(v: Seq<String>) -> Seq<Seq<char>> {
    v.map_values(|w: String| w@)
}

/// The maximal runs of alphanumeric characters of `s`, the run `cur` being already open.
pub open spec fn words_from(s: Seq<char>, cur: Seq<char>) -> Seq<Seq<char>>
    decreases s.len(),
{
    if s.len() == 0 {
        if cur.len() > 0 {
            seq![cur]
        } else {
            seq![]
        }
    } else if alphanumeric(s[0]) {
        words_from(s.drop_first(), cur.push(s[0]))
    } else {
        (if cur.len() > 0 {
            seq![cur]
        } else {
            seq![]
        }) + words_from(s.drop_first(), seq![])
    }
}

/// The words of `s`: its maximal runs of alphanumeric characters, in order.
pub open spec fn words(s: Seq<char>) -> Seq<Seq<char>> {
    words_from(s, seq![])
}

/// The words `ws` joined by single spaces.
pub open spec fn join_words(ws: Seq<Seq<char>>) -> Seq<char>
    decreases ws.len(),
{
    if ws.len() == 0 {
        seq![]
    } else if ws.len() == 1 {
        ws[0]
    } else {
        join_words(ws.drop_last()) + seq![' '] + ws.last()
    }
}

/// A name compared without case or punctuation: its lower-cased words joined by spaces.
pub open spec fn normalized(s: Seq<char>) -> Seq<char> {
    join_words(words(lowercase(s)))
}

/// Venue-type words that vary between reports of the same outlet.
pub open spec fn is_generic(t: Seq<char>) -> bool {
    ||| t == "club"@
    ||| t == "facility"@
    ||| t == "canteen"@
    ||| t == "restaurant"@
    ||| t == "hotel"@
    ||| t == "outlet"@
    ||| t == "kitchen"@
}

/// The words of `ws` that are not venue-type words, in order.
pub open spec fn drop_generic(ws: Seq<Seq<char>>) -> Seq<Seq<char>>
    decreases ws.len(),
{
    if ws.len() == 0 {
        seq![]
    } else {
        drop_generic(ws.drop_last()) + if is_generic(ws.last()) {
            seq![]
        } else {
            seq![ws.last()]
        }
    }
}

/// The distinguishing words of a name: its lower-cased words other than venue-type words.
pub open spec fn name_tokens(s: Seq<char>) -> Seq<Seq<char>> {
    drop_generic(words(lowercase(s)))
}

/// `acro` spells the initials of the first words of `ws`: it is not empty, has no more
/// bytes than `ws` has words, and each of its characters begins the word at its position.
pub open spec fn acronym_of(acro: Seq<char>, ws: Seq<Seq<char>>) -> bool {
    &&& acro.len() > 0
    &&& byte_len(acro) <= ws.len()
    &&& forall|i: int|
        0 <= i < acro.len() && i < ws.len() ==> #[trigger] ws[i].len() > 0 && ws[i][0] == acro[i]
}

/// `a - b`, or 0 when `b` exceeds `a`.
pub open spec fn sat_sub(a: int, b: int) -> int {
    if a >= b {
        a - b
    } else {
        0
    }
}

/// The token `t` occurs among `ws`, or spells the initials of a consecutive run of them
/// starting at an index no greater than the number of words less the bytes of `t`.
pub open spec fn token_found(t: Seq<char>, ws: Seq<Seq<char>>) -> bool {
    ||| ws.contains(t)
    ||| exists|i: int|
        0 <= i <= sat_sub(ws.len() as int, byte_len(t) as int) && #[trigger] acronym_of(
            t,
            ws.skip(i),
        )
}

/// The total number of bytes of the tokens `ws`.
pub open spec fn token_bytes(ws: Seq<Seq<char>>) -> int
    decreases ws.len(),
{
    if ws.len() == 0 {
        0
    } else {
        token_bytes(ws.drop_last()) + byte_len(ws.last())
    }
}

/// Every token of `from` is found in `to` (literally or as an acronym), the tokens of `from`
/// add up to at least 6 bytes, and one token of at least 3 bytes occurs literally in `to`.
pub open spec fn side_matches(from: Seq<Seq<char>>, to: Seq<Seq<char>>) -> bool {
    &&& token_bytes(from) >= 6
    &&& forall|k: int| 0 <= k < from.len() ==> token_found(#[trigger] from[k], to)
    &&& exists|k: int| 0 <= k < from.len() && byte_len(#[trigger] from[k]) >= 3 && to.contains(from[k])
}

/// Two establishment names refer to the same outlet: equal once normalized; or one
/// normalized name contains the other and both have at least 6 bytes; or, on one side,
/// every distinguishing token appears in the other name's tokens as `side_matches` says.
pub open spec fn same_event_spec(a: Seq<char>, b: Seq<char>) -> bool {
    let na = normalized(a);
    let nb = normalized(b);
    if na == nb {
        true
    } else if (if byte_len(na) <= byte_len(nb) {
        byte_len(na)
    } else {
        byte_len(nb)
    }) >= 6 && (contains(na, nb) || contains(nb, na)) {
        true
    } else {
        let ta = name_tokens(na);
        let tb = name_tokens(nb);
        side_matches(ta, tb) || side_matches(tb, ta)
    }
}

/// Every name refers to the same outlet as itself.
pub proof fn same_event_reflexive(a: Seq<char>)
    ensures
        same_event_spec(a, a),
{
}

/// Whether two names refer to the same outlet does not depend on their order.
pub proof fn same_event_symmetric(a: Seq<char>, b: Seq<char>)
    ensures
        same_event_spec(a, b) == same_event_spec(b, a),
{
}

/// Names that lower-case alike are matched alike: case never decides a match.
pub proof fn same_event_ignores_case(a: Seq<char>, a2: Seq<char>, b: Seq<char>)
    requires
        lowercase(a) == lowercase(a2),
    ensures
        same_event_spec(a, b) == same_event_spec(a2, b),
{
}

/// The words of `s`.
fn words_of(s: &[char]) -> (r: Vec<Vec<char>>)
    ensures
        vviews(r@) == words(s@),
{
    let mut out: Vec<Vec<char>> = Vec::new();
    let mut cur: Vec<char> = Vec::new();
    let mut i: usize = 0;
    assert(s@.skip(0) =~= s@);
    assert(vviews(out@) =~= seq![]);
    while i < s.len()
        invariant
            i <= s@.len(),
            vviews(out@) + words_from(s@.skip(i as int), cur@) == words(s@),
        decreases s@.len() - i,
    {
        let c = s[i];
        let ghost rest = s@.skip(i as int);
        assert(rest[0] == c);
        assert(rest.drop_first() =~= s@.skip(i + 1));
        if is_alnum(c) {
            cur.push(c);
        } else {
            if cur.len() > 0 {
                let ghost before = vviews(out@);
                let ghost cw = cur@;
                out.push(cur);
                cur = Vec::new();
                assert(vviews(out@) =~= before + seq![cw]);
                assert(before + (seq![cw] + words_from(s@.skip(i + 1), seq![])) =~= vviews(out@)
                    + words_from(s@.skip(i + 1), cur@));
            } else {
                assert(cur@ =~= seq![]);
                assert(seq![] + words_from(s@.skip(i + 1), seq![]) =~= words_from(
                    s@.skip(i + 1),
                    seq![],
                ));
            }
        }
        i = i + 1;
    }
    assert(s@.skip(i as int).len() == 0);
    if cur.len() > 0 {
        let ghost before = vviews(out@);
        let ghost cw = cur@;
        out.push(cur);
        assert(vviews(out@) =~= before + seq![cw]);
    } else {
        assert(vviews(out@) + seq![] =~= vviews(out@));
    }
    out
}

/// The words `ws` joined by single spaces.
fn join_spaced(ws: &Vec<Vec<char>>) -> (r: Vec<char>)
    ensures
        r@ == join_words(vviews(ws@)),
{
    let mut r: Vec<char> = Vec::new();
    let mut k: usize = 0;
    assert(vviews(ws@).take(0) =~= seq![]);
    while k < ws.len()
        invariant
            k <= ws@.len(),
            r@ == join_words(vviews(ws@).take(k as int)),
        decreases ws@.len() - k,
    {
        let ghost prev = vviews(ws@).take(k as int);
        let ghost next = vviews(ws@).take(k + 1);
        assert(next.drop_last() =~= prev);
        assert(next.last() == ws@[k as int]@);
        if k > 0 {
            r.push(' ');
        }
        let w = &ws[k];
        let mut j: usize = 0;
        let ghost base = r@;
        while j < w.len()
            invariant
                j <= w@.len(),
                r@ == base + w@.take(j as int),
            decreases w@.len() - j,
        {
            r.push(w[j]);
            j = j + 1;
            assert(r@ =~= base + w@.take(j as int));
        }
        assert(w@.take(w@.len() as int) =~= w@);
        if k == 0 {
            assert(r@ =~= next[0]);
        } else {
            assert(r@ =~= join_words(prev) + seq![' '] + next.last());
        }
        k = k + 1;
    }
    assert(vviews(ws@).take(ws@.len() as int) =~= vviews(ws@));
    r
}

/// The normalized form of a name.
fn normalize(s: &str) -> (r: Vec<char>)
    ensures
        r@ == normalized(s@),
{
    let low = to_lower(s);
    let cs = chars_of(low.as_str());
    let ws = words_of(cs.as_slice());
    join_spaced(&ws)
}

/// Whether `t` is one of the venue-type words.
fn generic_word(t: &String) -> (r: bool)
    ensures
        r == is_generic(t@),
{
    *t == String::from_str("club") || *t == String::from_str("facility") || *t
        == String::from_str("canteen") || *t == String::from_str("restaurant") || *t
        == String::from_str("hotel") || *t == String::from_str("outlet") || *t
        == String::from_str("kitchen")
}

/// The distinguishing tokens of a name.
pub fn tokens(s: &str) -> (r: Vec<String>)
    ensures
        sviews(r@) == name_tokens(s@),
{
    let low = to_lower(s);
    let cs = chars_of(low.as_str());
    let ws = words_of(cs.as_slice());
    let ghost all = vviews(ws@);
    let mut r: Vec<String> = Vec::new();
    let mut k: usize = 0;
    assert(all.take(0) =~= seq![]);
    assert(sviews(r@) =~= seq![]);
    while k < ws.len()
        invariant
            k <= ws@.len(),
            all == vviews(ws@),
            sviews(r@) == drop_generic(all.take(k as int)),
        decreases ws@.len() - k,
    {
        let t = string_of(ws[k].as_slice());
        let ghost prev = all.take(k as int);
        let ghost next = all.take(k + 1);
        assert(next.drop_last() =~= prev);
        assert(next.last() == t@);
        if !generic_word(&t) {
            let ghost before = sviews(r@);
            r.push(t);
            assert(sviews(r@) =~= before + seq![next.last()]);
        } else {
            assert(sviews(r@) =~= sviews(r@) + seq![]);
        }
        k = k + 1;
    }
    assert(all.take(ws@.len() as int) =~= all);
    r
}

/// Whether `acro` spells the initials of the words of `words` starting at `start`.
fn acronym_at(acro: &[char], acro_bytes: usize, words: &[String], start: usize) -> (r: bool)
    requires
        start <= words@.len(),
        acro_bytes == byte_len(acro@),
    ensures
        r == acronym_of(acro@, sviews(words@).skip(start as int)),
{
    let ghost ws = sviews(words@).skip(start as int);
    let n = words.len() - start;
    assert(ws.len() == n);
    if acro.len() == 0 || acro_bytes > n {
        return false;
    }
    let mut i: usize = 0;
    while i < acro.len() && i < n
        invariant
            start <= words@.len(),
            n == words@.len() - start,
            n + start == words.len(),
            ws == sviews(words@).skip(start as int),
            i <= acro@.len(),
            forall|q: int|
                0 <= q < i && q < ws.len() ==> #[trigger] ws[q].len() > 0 && ws[q][0] == acro@[q],
        decreases acro@.len() - i,
    {
        let w = chars_of(words[start + i].as_str());
        assert(w@ == ws[i as int]);
        if w.len() == 0 || w[0] != acro[i] {
            return false;
        }
        i = i + 1;
    }
    true
}

/// "mca" = initials of the consecutive run "mumbai cricket association".
pub fn is_acronym_of(acro: &str, words: &[String]) -> (r: bool)
    ensures
        r == acronym_of(acro@, sviews(words@)),
{
    let cs = chars_of(acro);
    assert(sviews(words@).skip(0) =~= sviews(words@));
    acronym_at(cs.as_slice(), utf8_len(acro), words, 0)
}

/// Whether some word of `words` equals `t`.
fn has_word(words: &[String], t: &str) -> (r: bool)
    ensures
        r == sviews(words@).contains(t@),
{
    let mut i: usize = 0;
    while i < words.len()
        invariant
            i <= words@.len(),
            forall|q: int| 0 <= q < i ==> words@[q]@ != t@,
        decreases words@.len() - i,
    {
        if str_eq(words[i].as_str(), t) {
            assert(sviews(words@)[i as int] == t@);
            return true;
        }
        i = i + 1;
    }
    proof {
        if sviews(words@).contains(t@) {
            let q = choose|q: int| 0 <= q < sviews(words@).len() && sviews(words@)[q] == t@;
            assert(words@[q]@ == t@);
        }
    }
    false
}

/// Whether token `t` is one of `words` or spells the initials of a run of them.
pub fn token_matches(t: &str, words: &[String]) -> (r: bool)
    ensures
        r == token_found(t@, sviews(words@)),
{
    if has_word(words, t) {
        return true;
    }
    let cs = chars_of(t);
    let tb = utf8_len(t);
    let bound = words.len().saturating_sub(tb);
    let mut i: usize = 0;
    loop
        invariant
            i <= bound <= words@.len(),
            bound == sat_sub(words@.len() as int, tb as int),
            tb == byte_len(t@),
            cs@ == t@,
            !sviews(words@).contains(t@),
            forall|q: int| 0 <= q < i ==> !acronym_of(t@, #[trigger] sviews(words@).skip(q)),
        decreases bound - i,
    {
        if acronym_at(cs.as_slice(), tb, words, i) {
            return true;
        }
        if i == bound {
            proof {
                assert forall|q: int|
                    0 <= q <= sat_sub(sviews(words@).len() as int, byte_len(t@) as int) implies !acronym_of(
                    t@,
                    #[trigger] sviews(words@).skip(q),
                ) by {
                    if q < i {
                    }
                }
            }
            return false;
        }
        i = i + 1;
    }
}

/// The total bytes of `from`, or `usize::MAX` when that is larger.
fn capped_token_bytes(from: &[String]) -> (r: usize)
    ensures
        r == (if token_bytes(sviews(from@)) <= usize::MAX {
            token_bytes(sviews(from@))
        } else {
            usize::MAX as int
        }),
{
    let mut acc: usize = 0;
    let mut k: usize = 0;
    assert(sviews(from@).take(0) =~= seq![]);
    while k < from.len()
        invariant
            k <= from@.len(),
            token_bytes(sviews(from@).take(k as int)) >= 0,
            acc == (if token_bytes(sviews(from@).take(k as int)) <= usize::MAX {
                token_bytes(sviews(from@).take(k as int))
            } else {
                usize::MAX as int
            }),
        decreases from@.len() - k,
    {
        let ghost prev = sviews(from@).take(k as int);
        let ghost next = sviews(from@).take(k + 1);
        assert(next.drop_last() =~= prev);
        assert(next.last() == from@[k as int]@);
        let b = utf8_len(from[k].as_str());
        acc = acc.saturating_add(b);
        k = k + 1;
    }
    assert(sviews(from@).take(from@.len() as int) =~= sviews(from@));
    acc
}

/// Whether every token of `from` is found in `to` and `from` carries enough literal
/// overlap, as `side_matches` states.
fn side_matches_exec(from: &[String], to: &[String]) -> (r: bool)
    ensures
        r == side_matches(sviews(from@), sviews(to@)),
{
    let ghost f = sviews(from@);
    let ghost g = sviews(to@);
    if capped_token_bytes(from) < 6 {
        return false;
    }
    let mut k: usize = 0;
    while k < from.len()
        invariant
            k <= from@.len(),
            f == sviews(from@),
            g == sviews(to@),
            forall|q: int| 0 <= q < k ==> token_found(#[trigger] f[q], g),
        decreases from@.len() - k,
    {
        if !token_matches(from[k].as_str(), to) {
            assert(!token_found(f[k as int], g));
            return false;
        }
        k = k + 1;
    }
    let mut k: usize = 0;
    while k < from.len()
        invariant
            k <= from@.len(),
            f == sviews(from@),
            g == sviews(to@),
            forall|q: int| 0 <= q < k ==> !(byte_len(#[trigger] f[q]) >= 3 && g.contains(f[q])),
            forall|q: int| 0 <= q < f.len() ==> token_found(#[trigger] f[q], g),
            token_bytes(f) >= 6,
        decreases from@.len() - k,
    {
        if utf8_len(from[k].as_str()) >= 3 && has_word(to, &from[k]) {
            assert(byte_len(f[k as int]) >= 3 && g.contains(f[k as int]));
            return true;
        }
        k = k + 1;
    }
    false
}

/// True when two establishment names refer to the same outlet: exact
/// (case/punctuation-insensitive), one name containing the other, or every
/// token of one name appearing in the other — literally or as an acronym
/// ("MCA" ~ "Mumbai Cricket Association") — with at least one literal word
/// of 3+ chars in common so a bare acronym can't match on initials alone.
pub fn same_event(a: &str, b: &str) -> (r: bool)
    ensures
        r == same_event_spec(a@, b@),
{
    let na = normalize(a);
    let nb = normalize(b);
    if chars_eq(na.as_slice(), nb.as_slice()) {
        return true;
    }
    let sa = string_of(na.as_slice());
    let sb = string_of(nb.as_slice());
    let la = utf8_len(sa.as_str());
    let lb = utf8_len(sb.as_str());
    let shorter = if la <= lb {
        la
    } else {
        lb
    };
    if shorter >= 6 && (contains_chars(na.as_slice(), nb.as_slice()) || contains_chars(
        nb.as_slice(),
        na.as_slice(),
    )) {
        return true;
    }
    let ta = tokens(sa.as_str());
    let tb = tokens(sb.as_str());
    side_matches_exec(ta.as_slice(), tb.as_slice()) || side_matches_exec(
        tb.as_slice(),
        ta.as_slice(),
    )
}

} // verus!
