//! Character-level text primitives shared by the record, feed and matching logic.
use vstd::prelude::*;
use vstd::string::StringSliceAdditionalSpecFns;

verus! {

/// Unicode `White_Space`, which is what `char::is_whitespace` tests.
pub open spec fn is_ws(c: char) -> bool {
    let u = c as u32;
    ||| 9 <= u <= 13
    ||| u == 32
    ||| u == 0x85
    ||| u == 0xA0
    ||| u == 0x1680
    ||| 0x2000 <= u <= 0x200A
    ||| u == 0x2028
    ||| u == 0x2029
    ||| u == 0x202F
    ||| u == 0x205F
    ||| u == 0x3000
}

/// `s` without its leading white space.
pub open spec fn trim_start(s: Seq<char>) -> Seq<char>
    decreases s.len(),
{
    if s.len() > 0 && is_ws(s[0]) {
        trim_start(s.drop_first())
    } else {
        s
    }
}

/// `s` without its trailing white space.
pub open spec fn trim_end(s: Seq<char>) -> Seq<char>
    decreases s.len(),
{
    if s.len() > 0 && is_ws(s.last()) {
        trim_end(s.drop_last())
    } else {
        s
    }
}

/// `s` without leading and trailing white space, as `str::trim` gives it.
pub open spec fn trim(s: Seq<char>) -> Seq<char> {
    trim_end(trim_start(s))
}

/// ASCII-only lower-casing of one character.
pub open spec fn ascii_lower(c: char) -> char {
    if 'A' <= c <= 'Z' {
        ((c as u32) + 32) as char
    } else {
        c
    }
}

/// Every character of `s` is ASCII.
pub open spec fn ascii_text(s: Seq<char>) -> bool {
    forall|k: int| 0 <= k < s.len() ==> ((#[trigger] s[k]) as u32) < 128
}

/// ASCII text that ASCII lower-casing gives back unchanged; by the contract of
/// `to_lower`, `str::to_lowercase` returns such text as it is.
pub open spec fn lower_ascii_text(s: Seq<char>) -> bool {
    ascii_text(s) && s.map_values(|c: char| ascii_lower(c)) == s
}

/// `a` and `b` are equal up to ASCII case, as `str::eq_ignore_ascii_case` tests.
pub open spec fn eq_ignore_ascii_case(a: Seq<char>, b: Seq<char>) -> bool {
    &&& a.len() == b.len()
    &&& forall|i: int| 0 <= i < a.len() ==> ascii_lower(#[trigger] a[i]) == ascii_lower(b[i])
}

/// `pat` occurs in `s` starting at position `i`.
pub open spec fn occurs_at(s: Seq<char>, pat: Seq<char>, i: int) -> bool {
    0 <= i && i + pat.len() <= s.len() && s.subrange(i, i + pat.len()) == pat
}

/// `pat` occurs somewhere in `s`, as `str::contains` with a string pattern tests.
pub open spec fn contains(s: Seq<char>, pat: Seq<char>) -> bool {
    exists|i: int| #[trigger] occurs_at(s, pat, i)
}

/// `s` begins with `p`.
pub open spec fn starts_with(s: Seq<char>, p: Seq<char>) -> bool {
    p.len() <= s.len() && s.subrange(0, p.len() as int) == p
}

/// The number of bytes of the UTF-8 encoding of `s`, as the `usize` that `str::len` returns.
pub open spec fn byte_len(s: Seq<char>) -> usize {
    vstd::utf8::encode_utf8(s).len() as usize
}

/// What `str::to_lowercase` gives for a string with these characters.
pub uninterp spec fn lowercase(s: Seq<char>) -> Seq<char>;

/// Whether `char::is_alphanumeric` holds of `c`.
pub uninterp spec fn alphanumeric(c: char) -> bool;

/// The characters of `s`, in order.
pub fn chars_of(s: &str) -> (r: Vec<char>)
    ensures
        r@ == s@,
{
    let mut r: Vec<char> = Vec::new();
    for c in it: s.chars()
        invariant
            r@ == it.seq().take(it.index() as int),
    {
        r.push(c);
    }
    r
}

/// A `String` holding exactly the characters `cs`; calls `FromIterator<char>` of `String`.
#[verifier::external_body]
pub(crate) fn string_of(cs: &[char]) -> (r: String)
    ensures
        r@ == cs@,
{
    cs.iter().collect()
}

/// Calls `str::to_lowercase`; the result is named by `lowercase`. On text that is all
/// ASCII, lower-casing maps `A`..`Z` to `a`..`z` and keeps every other character. Of other
/// text nothing more is stated, not even that lower-casing the result again gives it back.
#[verifier::external_body]
pub(crate) fn to_lower(s: &str) -> (r: String)
    ensures
        r@ == lowercase(s@),
        ascii_text(s@) ==> r@ == s@.map_values(|c: char| ascii_lower(c)),
{
    s.to_lowercase()
}

/// Calls `char::is_alphanumeric`; the result is named by `alphanumeric`. An ASCII
/// character is alphanumeric exactly when it is a letter or a digit.
#[verifier::external_body]
pub(crate) fn is_alnum(c: char) -> (r: bool)
    ensures
        r == alphanumeric(c),
        (c as u32) < 128 ==> r == (('0' <= c <= '9') || ('A' <= c <= 'Z') || ('a' <= c <= 'z')),
{
    c.is_alphanumeric()
}

/// Whether `c` is white space, as `char::is_whitespace` decides.
pub fn is_whitespace(c: char) -> (r: bool)
    ensures
        r == is_ws(c),
{
    let u = c as u32;
    (9 <= u && u <= 13) || u == 32 || u == 0x85 || u == 0xA0 || u == 0x1680 || (0x2000 <= u
        && u <= 0x200A) || u == 0x2028 || u == 0x2029 || u == 0x202F || u == 0x205F || u == 0x3000
}

proof fn lemma_trim_start_skip(s: Seq<char>, i: int)
    requires
        0 <= i <= s.len(),
        forall|j: int| 0 <= j < i ==> is_ws(#[trigger] s[j]),
    ensures
        trim_start(s) == trim_start(s.subrange(i, s.len() as int)),
    decreases i,
{
    if i > 0 {
        assert(s.drop_first().subrange(i - 1, s.drop_first().len() as int) =~= s.subrange(
            i,
            s.len() as int,
        ));
        lemma_trim_start_skip(s.drop_first(), i - 1);
    } else {
        assert(s.subrange(0, s.len() as int) =~= s);
    }
}

proof fn lemma_trim_end_skip(s: Seq<char>, k: int)
    requires
        0 <= k <= s.len(),
        forall|j: int| k <= j < s.len() ==> is_ws(#[trigger] s[j]),
    ensures
        trim_end(s) == trim_end(s.subrange(0, k)),
    decreases s.len() - k,
{
    if k < s.len() {
        assert(s.drop_last().subrange(0, k) =~= s.subrange(0, k));
        lemma_trim_end_skip(s.drop_last(), k);
    } else {
        assert(s.subrange(0, s.len() as int) =~= s);
    }
}

pub proof fn lemma_trim_start_no_lead(s: Seq<char>)
    ensures
        trim_start(s).len() == 0 || !is_ws(trim_start(s)[0]),
        trim_start(s).len() <= s.len(),
    decreases s.len(),
{
    if s.len() > 0 && is_ws(s[0]) {
        lemma_trim_start_no_lead(s.drop_first());
    }
}

pub proof fn lemma_trim_end_shape(s: Seq<char>)
    ensures
        trim_end(s).len() == 0 || !is_ws(trim_end(s).last()),
        trim_end(s).len() <= s.len(),
        trim_end(s) == s.subrange(0, trim_end(s).len() as int),
    decreases s.len(),
{
    if s.len() > 0 && is_ws(s.last()) {
        lemma_trim_end_shape(s.drop_last());
        assert(s.drop_last().subrange(0, trim_end(s).len() as int) =~= s.subrange(
            0,
            trim_end(s).len() as int,
        ));
    } else {
        assert(s.subrange(0, s.len() as int) =~= s);
    }
}

/// Text that neither starts nor ends with white space is its own trim.
pub proof fn lemma_trim_unchanged(s: Seq<char>)
    requires
        s.len() > 0 ==> !is_ws(s[0]) && !is_ws(s.last()),
    ensures
        trim(s) == s,
{
}

/// Trimming the leading white space of `x` and one more white-space character.
proof fn lemma_trim_start_push_ws(x: Seq<char>, w: char)
    requires
        is_ws(w),
    ensures
        trim_start(x.push(w)) == if trim_start(x).len() == 0 {
            Seq::<char>::empty()
        } else {
            trim_start(x).push(w)
        },
    decreases x.len(),
{
    if x.len() > 0 && is_ws(x[0]) {
        assert(x.push(w)[0] == x[0]);
        assert(x.push(w).drop_first() =~= x.drop_first().push(w));
        lemma_trim_start_push_ws(x.drop_first(), w);
        assert(trim_start(x) == trim_start(x.drop_first()));
        assert(trim_start(x.push(w)) == trim_start(x.drop_first().push(w)));
    } else if x.len() == 0 {
        assert(x.push(w) =~= seq![w]);
        assert(seq![w].drop_first() =~= Seq::<char>::empty());
        assert(trim_start(Seq::<char>::empty()) == Seq::<char>::empty());
        assert(trim_start(seq![w]) == trim_start(seq![w].drop_first()));
    } else {
        assert(x.push(w)[0] == x[0]);
        assert(trim_start(x) == x);
        assert(trim_start(x.push(w)) == x.push(w));
    }
}

/// A white-space character added at the end makes no difference to the trim.
pub proof fn lemma_trim_push_ws(x: Seq<char>, w: char)
    requires
        is_ws(w),
    ensures
        trim(x.push(w)) == trim(x),
{
    lemma_trim_start_push_ws(x, w);
    let a = trim_start(x);
    if a.len() > 0 {
        assert(a.push(w).drop_last() =~= a);
    }
}

/// Text that opens with a non-white-space character keeps something when trimmed.
pub proof fn lemma_trim_keeps_first(x: Seq<char>)
    requires
        x.len() > 0,
        !is_ws(x[0]),
    ensures
        trim(x).len() > 0,
    decreases x.len(),
{
    assert(trim_start(x) == x);
    if is_ws(x.last()) {
        assert(x.len() > 1);
        assert(x.drop_last()[0] == x[0]);
        lemma_trim_keeps_first(x.drop_last());
        assert(trim_start(x.drop_last()) == x.drop_last());
    }
}

/// Trimming a trimmed text changes nothing.
pub proof fn lemma_trim_idempotent(s: Seq<char>)
    ensures
        trim(trim(s)) == trim(s),
{
    let a = trim_start(s);
    let t = trim_end(a);
    lemma_trim_start_no_lead(s);
    lemma_trim_end_shape(a);
    if t.len() > 0 {
        assert(t[0] == a[0]);
        assert(trim_start(t) == t);
    } else {
        assert(trim_start(t) == t);
    }
    assert(trim_end(t) == t);
}

/// The characters of `cs` without leading and trailing white space.
pub fn trim_chars(cs: &[char]) -> (r: Vec<char>)
    ensures
        r@ == trim(cs@),
{
    let n = cs.len();
    let mut i: usize = 0;
    while i < n && is_whitespace(cs[i])
        invariant
            i <= n == cs@.len(),
            forall|j: int| 0 <= j < i ==> is_ws(#[trigger] cs@[j]),
        decreases n - i,
    {
        i = i + 1;
    }
    proof {
        lemma_trim_start_skip(cs@, i as int);
    }
    let ghost mid = cs@.subrange(i as int, n as int);
    assert(trim_start(mid) == mid);
    let mut k: usize = n;
    while k > i && is_whitespace(cs[k - 1])
        invariant
            i <= k <= n == cs@.len(),
            forall|j: int| k <= j < n ==> is_ws(#[trigger] cs@[j]),
        decreases k,
    {
        k = k - 1;
    }
    proof {
        assert forall|j: int| (k - i) <= j < mid.len() implies is_ws(#[trigger] mid[j]) by {
            assert(mid[j] == cs@[j + i]);
        }
        lemma_trim_end_skip(mid, k - i);
        assert(mid.subrange(0, k - i) =~= cs@.subrange(i as int, k as int));
    }
    let mut r: Vec<char> = Vec::new();
    let mut p: usize = i;
    while p < k
        invariant
            i <= p <= k <= n == cs@.len(),
            r@ == cs@.subrange(i as int, p as int),
        decreases k - p,
    {
        r.push(cs[p]);
        p = p + 1;
        assert(r@ =~= cs@.subrange(i as int, p as int));
    }
    r
}

/// Dropping leading white space keeps text ASCII.
proof fn lemma_trim_start_ascii(s: Seq<char>)
    requires
        ascii_text(s),
    ensures
        ascii_text(trim_start(s)),
    decreases s.len(),
{
    if s.len() > 0 && is_ws(s[0]) {
        let d = s.drop_first();
        assert forall|k: int| 0 <= k < d.len() implies ((#[trigger] d[k]) as u32) < 128 by {
            assert(d[k] == s[k + 1]);
        }
        lemma_trim_start_ascii(d);
    }
}

/// Dropping trailing white space keeps text ASCII.
proof fn lemma_trim_end_ascii(s: Seq<char>)
    requires
        ascii_text(s),
    ensures
        ascii_text(trim_end(s)),
    decreases s.len(),
{
    if s.len() > 0 && is_ws(s.last()) {
        let d = s.drop_last();
        assert forall|k: int| 0 <= k < d.len() implies ((#[trigger] d[k]) as u32) < 128 by {
            assert(d[k] == s[k]);
        }
        lemma_trim_end_ascii(d);
    }
}

/// Trimming keeps text ASCII.
pub proof fn lemma_trim_ascii(s: Seq<char>)
    requires
        ascii_text(s),
    ensures
        ascii_text(trim(s)),
{
    lemma_trim_start_ascii(s);
    lemma_trim_end_ascii(trim_start(s));
}

/// ASCII text lower-cased by the ASCII rule is left unchanged by that rule.
pub proof fn lemma_ascii_lowered(s: Seq<char>)
    requires
        ascii_text(s),
    ensures
        lower_ascii_text(s.map_values(|c: char| ascii_lower(c))),
{
    let l = s.map_values(|c: char| ascii_lower(c));
    assert forall|k: int| 0 <= k < l.len() implies ((#[trigger] l[k]) as u32) < 128 by {
        assert(l[k] == ascii_lower(s[k]));
        assert((s[k] as u32) < 128);
    }
    assert forall|k: int| 0 <= k < l.len() implies #[trigger] ascii_lower(l[k]) == l[k] by {
        assert(l[k] == ascii_lower(s[k]));
    }
    assert(l.map_values(|c: char| ascii_lower(c)) =~= l);
}

/// `s` without leading and trailing white space, as `str::trim` gives it.
pub fn trim_str(s: &str) -> (r: String)
    ensures
        r@ == trim(s@),
{
    let cs = chars_of(s);
    let t = trim_chars(cs.as_slice());
    string_of(t.as_slice())
}

/// Whether `pat` occurs at position `i` of `s`.
pub fn occurs_at_exec(s: &[char], pat: &[char], i: usize) -> (r: bool)
    ensures
        r == occurs_at(s@, pat@, i as int),
{
    if i > s.len() || pat.len() > s.len() - i {
        return false;
    }
    let mut j: usize = 0;
    while j < pat.len()
        invariant
            i + pat@.len() <= s@.len(),
            s@.len() == s.len(),
            j <= pat@.len(),
            forall|q: int| 0 <= q < j ==> s@[i + q] == pat@[q],
        decreases pat@.len() - j,
    {
        if s[i + j] != pat[j] {
            assert(s@.subrange(i as int, i + pat@.len())[j as int] != pat@[j as int]);
            return false;
        }
        j = j + 1;
    }
    assert(s@.subrange(i as int, i + pat@.len()) =~= pat@);
    true
}

/// Whether `pat` occurs somewhere in `s`.
pub fn contains_chars(s: &[char], pat: &[char]) -> (r: bool)
    ensures
        r == contains(s@, pat@),
{
    if pat.len() > s.len() {
        assert forall|i: int| !occurs_at(s@, pat@, i) by {}
        return false;
    }
    let last = s.len() - pat.len();
    let mut i: usize = 0;
    while i <= last
        invariant
            last + pat@.len() == s@.len(),
            forall|q: int| 0 <= q < i ==> !occurs_at(s@, pat@, q),
        decreases last + 1 - i,
    {
        if occurs_at_exec(s, pat, i) {
            return true;
        }
        if i == last {
            assert forall|q: int| !occurs_at(s@, pat@, q) by {
                if 0 <= q <= last {
                }
            }
            return false;
        }
        i = i + 1;
    }
    false
}

/// Whether `pat` occurs somewhere in `s`, as `str::contains` with a string pattern tests.
pub fn contains_str(s: &str, pat: &str) -> (r: bool)
    ensures
        r == contains(s@, pat@),
{
    let a = chars_of(s);
    let b = chars_of(pat);
    contains_chars(a.as_slice(), b.as_slice())
}

/// Whether `s` begins with `p`.
pub fn starts_with_chars(s: &[char], p: &[char]) -> (r: bool)
    ensures
        r == starts_with(s@, p@),
{
    let r = occurs_at_exec(s, p, 0);
    proof {
        if r {
            assert(starts_with(s@, p@));
        }
        if starts_with(s@, p@) {
            assert(occurs_at(s@, p@, 0));
        }
    }
    r
}

/// The first `n` characters of `cs` (all of them when there are fewer).
pub fn take_chars(cs: &[char], n: usize) -> (r: Vec<char>)
    ensures
        r@ == cs@.take(if n <= cs@.len() { n as int } else { cs@.len() as int }),
{
    let m = if n <= cs.len() {
        n
    } else {
        cs.len()
    };
    let mut r: Vec<char> = Vec::new();
    let mut i: usize = 0;
    while i < m
        invariant
            i <= m <= cs@.len(),
            r@ == cs@.take(i as int),
        decreases m - i,
    {
        r.push(cs[i]);
        i = i + 1;
        assert(r@ =~= cs@.take(i as int));
    }
    r
}

/// The characters of `a` followed by those of `b`.
pub fn concat_chars(a: &[char], b: &[char]) -> (r: Vec<char>)
    ensures
        r@ == a@ + b@,
{
    let mut r: Vec<char> = Vec::new();
    let mut i: usize = 0;
    while i < a.len()
        invariant
            i <= a@.len(),
            r@ == a@.take(i as int),
        decreases a@.len() - i,
    {
        r.push(a[i]);
        i = i + 1;
        assert(r@ =~= a@.take(i as int));
    }
    assert(a@.take(a@.len() as int) =~= a@);
    let mut j: usize = 0;
    while j < b.len()
        invariant
            j <= b@.len(),
            r@ == a@ + b@.take(j as int),
        decreases b@.len() - j,
    {
        r.push(b[j]);
        j = j + 1;
        assert(r@ =~= a@ + b@.take(j as int));
    }
    assert(b@.take(b@.len() as int) =~= b@);
    r
}

/// Whether two character slices are equal.
pub fn chars_eq(a: &[char], b: &[char]) -> (r: bool)
    ensures
        r == (a@ == b@),
{
    if a.len() != b.len() {
        return false;
    }
    let mut i: usize = 0;
    while i < a.len()
        invariant
            a@.len() == b@.len(),
            i <= a@.len(),
            forall|q: int| 0 <= q < i ==> a@[q] == b@[q],
        decreases a@.len() - i,
    {
        if a[i] != b[i] {
            return false;
        }
        i = i + 1;
    }
    assert(a@ =~= b@);
    true
}

/// Whether two strings hold the same characters.
pub fn str_eq(a: &str, b: &str) -> (r: bool)
    ensures
        r == (a@ == b@),
{
    let x = chars_of(a);
    let y = chars_of(b);
    chars_eq(x.as_slice(), y.as_slice())
}

/// Whether `a` and `b` are equal up to ASCII case.
pub fn eq_ignore_ascii_case_chars(a: &[char], b: &[char]) -> (r: bool)
    ensures
        r == eq_ignore_ascii_case(a@, b@),
{
    if a.len() != b.len() {
        return false;
    }
    let mut i: usize = 0;
    while i < a.len()
        invariant
            a@.len() == b@.len(),
            i <= a@.len(),
            forall|q: int| 0 <= q < i ==> ascii_lower(#[trigger] a@[q]) == ascii_lower(b@[q]),
        decreases a@.len() - i,
    {
        let x = a[i];
        let y = b[i];
        let lx = if 'A' <= x && x <= 'Z' {
            ((x as u32) + 32) as u32
        } else {
            x as u32
        };
        let ly = if 'A' <= y && y <= 'Z' {
            ((y as u32) + 32) as u32
        } else {
            y as u32
        };
        if lx != ly {
            assert(ascii_lower(a@[i as int]) != ascii_lower(b@[i as int]));
            return false;
        }
        assert(ascii_lower(a@[i as int]) == ascii_lower(b@[i as int]));
        i = i + 1;
    }
    true
}

/// The number of bytes of the UTF-8 encoding of `s`.
pub fn utf8_len(s: &str) -> (r: usize)
    ensures
        r == byte_len(s@),
{
    assert(s.spec_bytes() == vstd::utf8::encode_utf8(s@));
    s.len()
}

} // verus!
