//! Fuzzy, scored search over the track library.
//!
//! A field is scored against the query, best rule first: the whole field
//! equals the query (1000), the field starts with the query (800), the field
//! contains the query as a run (600, plus 50 when the run starts right after
//! a space, '-', '_' or '('), the query's characters appear in the field
//! in order (300), or each of them appears somewhere in the field (100). The
//! artist counts at half the title's weight, the album and the path at a
//! quarter of it. Fields and query are compared case-insensitively: each
//! character is lower-cased on its own.

use vstd::prelude::*;
use crate::text::{
    char_width, chars_of, lemma_encode_concat, lemma_utf8_len_concat, lemma_utf8_len_take,
    is_white_space, lemma_lower_shape, lower_chars, lower_of, lower_origins, lower_string,
    lower_with_origins, trim, trim_end, trim_start, trimmed, utf8_len, utf8_width,
};
use vstd::utf8::{encode_scalar, encode_utf8, last_continuation_byte};
use crate::library::Track;

verus! {

/// `q` occurs in `f` as a run starting at character `p`.
pub open spec fn occurs_at(f: Seq<char>, q: Seq<char>, p: int) -> bool {
    0 <= p && p + q.len() <= f.len() && f.subrange(p, p + q.len()) == q
}

/// `q` occurs somewhere in `f` as a run.
pub open spec fn contains_run(f: Seq<char>, q: Seq<char>) -> bool {
    exists|p: int| occurs_at(f, q, p)
}

/// `p` is the leftmost position at which `q` occurs in `f`.
pub open spec fn is_first_occurrence(f: Seq<char>, q: Seq<char>, p: int) -> bool {
    &&& occurs_at(f, q, p)
    &&& forall|k: int| 0 <= k < p ==> !occurs_at(f, q, k)
}

/// The leftmost position at which `q` occurs in `f`.
pub open spec fn first_occurrence(f: Seq<char>, q: Seq<char>) -> int {
    choose|p: int| is_first_occurrence(f, q, p)
}

/// `m` maps each character of `q` to a position of `f` holding it, with the
/// positions strictly increasing.
pub open spec fn embeds(m: Seq<int>, q: Seq<char>, f: Seq<char>) -> bool {
    &&& m.len() == q.len()
    &&& forall|i: int| 0 <= i < m.len() ==> 0 <= #[trigger] m[i] < f.len() && f[m[i]] == q[i]
    &&& forall|i: int, j: int| 0 <= i < j < m.len() ==> m[i] < m[j]
}

/// The characters of `q` appear in `f` in order, not necessarily adjacent.
pub open spec fn is_subsequence(q: Seq<char>, f: Seq<char>) -> bool {
    exists|m: Seq<int>| embeds(m, q, f)
}

/// Every character of `q` appears somewhere in `f`.
pub open spec fn all_chars_present(q: Seq<char>, f: Seq<char>) -> bool {
    forall|i: int| 0 <= i < q.len() ==> f.contains(#[trigger] q[i])
}

/// Characters after which a match counts as starting a word.
pub open spec fn is_boundary_char(c: char) -> bool {
    c == ' ' || c == '-' || c == '_' || c == '('
}

/// Bonus for a match starting at character `p` of `f`. A position past the
/// end counts as following a space.
pub open spec fn boundary_bonus(f: Seq<char>, p: int, w: int) -> int {
    if p <= 0 {
        0
    } else if p - 1 >= f.len() || is_boundary_char(f[p - 1]) {
        50 * w
    } else {
        0
    }
}

/// Score of field `f` against query `q` at weight `w`.
pub open spec fn field_score(f: Seq<char>, q: Seq<char>, w: int) -> int {
    if f.len() == 0 {
        0
    } else if f == q {
        1000 * w
    } else if occurs_at(f, q, 0) {
        800 * w
    } else if contains_run(f, q) {
        600 * w + boundary_bonus(f, first_occurrence(f, q), w)
    } else if is_subsequence(q, f) {
        300 * w
    } else if all_chars_present(q, f) {
        100 * w
    } else {
        0
    }
}

/// Score of a track against an already normalised query `q`.
pub open spec fn track_score(t: Track, q: Seq<char>) -> int {
    field_score(lower_chars(t.title@), q, 4) + field_score(lower_chars(t.artist@), q, 2)
        + field_score(lower_chars(t.album@), q, 1) + field_score(lower_chars(t.path@), q, 1)
}

/// The query as the search compares it: trimmed, then lower-cased.
pub open spec fn normalized_query(query: Seq<char>) -> Seq<char> {
    lower_chars(trimmed(query))
}

/// Lower-casing character by character distributes over concatenation.
pub proof fn lemma_lower_concat(a: Seq<char>, b: Seq<char>)
    ensures
        lower_chars(a + b) == lower_chars(a) + lower_chars(b),
    decreases b.len(),
{
    if b.len() == 0 {
        assert(a + b =~= a);
        assert(lower_chars(a) + lower_chars(b) =~= lower_chars(a));
    } else {
        assert((a + b).drop_last() =~= a + b.drop_last());
        assert((a + b).last() == b.last());
        lemma_lower_concat(a, b.drop_last());
        assert(lower_chars(a + b) =~= lower_chars(a) + lower_chars(b));
    }
}

/// A field scores above zero against `q` exactly when it is not empty and
/// holds every character of `q`; it never scores below zero.
pub proof fn lemma_field_score_positive(f: Seq<char>, q: Seq<char>, w: int)
    requires
        w > 0,
    ensures
        field_score(f, q, w) >= 0,
        field_score(f, q, w) > 0 <==> (f.len() > 0 && all_chars_present(q, f)),
{
    if f.len() > 0 {
        if f == q {
            assert forall|i: int| 0 <= i < q.len() implies f.contains(#[trigger] q[i]) by {
                assert(f[i] == q[i]);
            }
        } else if occurs_at(f, q, 0) {
            assert forall|i: int| 0 <= i < q.len() implies f.contains(#[trigger] q[i]) by {
                assert(f.subrange(0, q.len() as int)[i] == f[i]);
            }
        } else if contains_run(f, q) {
            let p = choose|p: int| occurs_at(f, q, p);
            assert forall|i: int| 0 <= i < q.len() implies f.contains(#[trigger] q[i]) by {
                assert(f.subrange(p, p + q.len())[i] == f[p + i]);
            }
        } else if is_subsequence(q, f) {
            let m = choose|m: Seq<int>| embeds(m, q, f);
            assert forall|i: int| 0 <= i < q.len() implies f.contains(#[trigger] q[i]) by {
                assert(f[m[i]] == q[i]);
            }
        }
    }
}

/// A field matches a query when it is not empty and, lower-cased, holds
/// every character of the query.
pub open spec fn field_matches(f: Seq<char>, q: Seq<char>) -> bool {
    f.len() > 0 && all_chars_present(q, lower_chars(f))
}

/// A track scores above zero, and so is listed by the search, exactly when
/// one of its title, artist, album or path matches the query.
pub proof fn law_score_positive(t: Track, q: Seq<char>)
    ensures
        track_score(t, q) > 0 <==> (field_matches(t.title@, q) || field_matches(t.artist@, q)
            || field_matches(t.album@, q) || field_matches(t.path@, q)),
{
    lemma_lower_shape(t.title@);
    lemma_lower_shape(t.artist@);
    lemma_lower_shape(t.album@);
    lemma_lower_shape(t.path@);
    lemma_field_score_positive(lower_chars(t.title@), q, 4);
    lemma_field_score_positive(lower_chars(t.artist@), q, 2);
    lemma_field_score_positive(lower_chars(t.album@), q, 1);
    lemma_field_score_positive(lower_chars(t.path@), q, 1);
}

/// A query compares as nothing exactly when it trims to nothing, such as
/// an empty query or one of white space only.
pub proof fn law_normalized_query_empty(query: Seq<char>)
    ensures
        normalized_query(query).len() == 0 <==> trimmed(query).len() == 0,
{
    lemma_lower_shape(trimmed(query));
}

/// Text after white space that is not itself all white space keeps its
/// start when more text follows it.
proof fn lemma_trim_start_extend(a: Seq<char>, b: Seq<char>)
    requires
        trim_start(a).len() > 0,
    ensures
        trim_start(a + b) == trim_start(a) + b,
    decreases a.len(),
{
    assert((a + b)[0] == a[0]);
    if is_white_space(a[0]) {
        assert((a + b).drop_first() =~= a.drop_first() + b);
        lemma_trim_start_extend(a.drop_first(), b);
    }
}

/// Dropping trailing white space leaves a prefix.
proof fn lemma_trim_end_prefix(x: Seq<char>)
    ensures
        trim_end(x).len() <= x.len(),
        x.take(trim_end(x).len() as int) == trim_end(x),
    decreases x.len(),
{
    if x.len() > 0 && is_white_space(x.last()) {
        lemma_trim_end_prefix(x.drop_last());
        assert(x.take(trim_end(x).len() as int) =~= x.drop_last().take(trim_end(x).len() as int));
    } else {
        assert(x.take(x.len() as int) =~= x);
    }
}

/// What is left of `x` without trailing white space starts what is left of
/// `x + y`.
proof fn lemma_trim_end_extend(x: Seq<char>, y: Seq<char>)
    ensures
        trim_end(x).len() <= trim_end(x + y).len(),
        trim_end(x + y).take(trim_end(x).len() as int) == trim_end(x),
    decreases y.len(),
{
    lemma_trim_end_prefix(x);
    if y.len() == 0 {
        assert(x + y =~= x);
    } else if is_white_space(y.last()) {
        assert((x + y).drop_last() =~= x + y.drop_last());
        assert((x + y).last() == y.last());
        lemma_trim_end_extend(x, y.drop_last());
    } else {
        assert((x + y).last() == y.last());
        assert((x + y).take(trim_end(x).len() as int) =~= x.take(trim_end(x).len() as int));
    }
}

/// Typing more characters only narrows the search: when a query that does
/// not trim to nothing is extended, a track listed for the longer query is
/// listed for the shorter one too. (A query that trims to nothing lists
/// every track.)
pub proof fn law_longer_query_narrows(t: Track, q1: Seq<char>, q2: Seq<char>)
    requires
        q1.len() <= q2.len(),
        q2.take(q1.len() as int) == q1,
        normalized_query(q1).len() > 0,
    ensures
        track_score(t, normalized_query(q2)) > 0 ==> track_score(t, normalized_query(q1)) > 0,
{
    let rest = q2.skip(q1.len() as int);
    assert(q2 =~= q1 + rest);
    law_normalized_query_empty(q1);
    let s1 = trim_start(q1);
    assert(s1.len() > 0) by {
        if s1.len() == 0 {
            assert(trim_end(s1) =~= s1);
        }
    }
    lemma_trim_start_extend(q1, rest);
    lemma_trim_end_extend(s1, rest);
    let t1 = trimmed(q1);
    let t2 = trimmed(q2);
    assert(t2 =~= t1 + t2.skip(t1.len() as int));
    lemma_lower_concat(t1, t2.skip(t1.len() as int));
    let l1 = normalized_query(q1);
    let l2 = normalized_query(q2);
    assert forall|f: Seq<char>| #[trigger] all_chars_present(l2, f) implies all_chars_present(l1, f) by {
        assert forall|i: int| 0 <= i < l1.len() implies f.contains(#[trigger] l1[i]) by {
            assert(l2[i] == l1[i]);
        }
    }
    law_score_positive(t, l1);
    law_score_positive(t, l2);
}

/// Characters in order stay in order when both texts are lower-cased.
proof fn lemma_lower_keeps_subsequence(p: Seq<char>, q: Seq<char>, m: Seq<int>)
    requires
        embeds(m, p, q),
    ensures
        is_subsequence(lower_chars(p), lower_chars(q)),
    decreases q.len(),
{
    if p.len() == 0 {
        assert(lower_chars(p) =~= Seq::<char>::empty());
        assert(embeds(Seq::<int>::empty(), lower_chars(p), lower_chars(q)));
    } else {
        let k = m.last();
        let p0 = p.drop_last();
        let m0 = m.drop_last();
        assert(embeds(m0, p0, q.take(k))) by {
            assert forall|i: int| 0 <= i < m0.len() implies 0 <= #[trigger] m0[i] < q.take(k).len()
                && q.take(k)[m0[i]] == p0[i] by {
                assert(m[i] < m[m.len() - 1]);
            }
        }
        lemma_lower_keeps_subsequence(p0, q.take(k), m0);
        let m2 = choose|m2: Seq<int>| embeds(m2, lower_chars(p0), lower_chars(q.take(k)));
        let lk = lower_chars(q.take(k));
        let blk = lower_of(q[k]);
        assert(q.take(k + 1).drop_last() =~= q.take(k));
        assert(q =~= q.take(k + 1) + q.skip(k + 1));
        lemma_lower_concat(q.take(k + 1), q.skip(k + 1));
        let lq = lower_chars(q);
        assert(lower_chars(q.take(k + 1)) == lk + blk);
        assert(lq == lk + blk + lower_chars(q.skip(k + 1)));
        assert(p.last() == q[k]);
        let lp = lower_chars(p);
        assert(lp == lower_chars(p0) + blk);
        let m3 = m2 + Seq::new(blk.len(), |t: int| lk.len() + t);
        assert(embeds(m3, lp, lq)) by {
            assert forall|i: int| 0 <= i < m3.len() implies 0 <= #[trigger] m3[i] < lq.len() && lq[m3[i]]
                == lp[i] by {
                if i >= m2.len() {
                    let t = i - m2.len();
                    assert(lq[lk.len() + t] == blk[t]);
                    assert(lp[i] == blk[t]);
                } else {
                    assert(lq[m2[i]] == lk[m2[i]]);
                    assert(lp[i] == lower_chars(p0)[i]);
                }
            }
        }
    }
}

/// Characters in order in `b`, which are in order in `c`, are in order in `c`.
proof fn lemma_subsequence_transitive(a: Seq<char>, b: Seq<char>, c: Seq<char>)
    requires
        is_subsequence(a, b),
        is_subsequence(b, c),
    ensures
        is_subsequence(a, c),
{
    let m1 = choose|m: Seq<int>| embeds(m, a, b);
    let m2 = choose|m: Seq<int>| embeds(m, b, c);
    let m3 = Seq::new(a.len(), |i: int| m2[m1[i]]);
    assert(embeds(m3, a, c));
}

/// Fuzzy matching only grows as the field grows and the query shrinks: if
/// `field` matches `q`, a text `g` that holds the characters of `field` in
/// order matches a query `p` whose characters appear in `q` in order. Every
/// text matches the empty query and itself.
pub proof fn law_fuzzy_monotone(field: Seq<char>, q: Seq<char>, g: Seq<char>, p: Seq<char>)
    requires
        is_subsequence(lower_chars(q), lower_chars(field)),
        is_subsequence(p, q),
        is_subsequence(field, g),
    ensures
        is_subsequence(lower_chars(p), lower_chars(g)),
        is_subsequence(lower_chars(Seq::empty()), lower_chars(g)),
        is_subsequence(lower_chars(g), lower_chars(g)),
{
    lemma_lower_keeps_subsequence(p, q, choose|m: Seq<int>| embeds(m, p, q));
    lemma_lower_keeps_subsequence(field, g, choose|m: Seq<int>| embeds(m, field, g));
    lemma_subsequence_transitive(lower_chars(p), lower_chars(q), lower_chars(field));
    lemma_subsequence_transitive(lower_chars(p), lower_chars(field), lower_chars(g));
    assert(lower_chars(Seq::<char>::empty()) =~= Seq::<char>::empty());
    assert(embeds(Seq::<int>::empty(), lower_chars(Seq::empty()), lower_chars(g)));
    let lg = lower_chars(g);
    assert(embeds(Seq::new(lg.len(), |i: int| i), lg, lg));
}

/// Track `i` is listed before track `j`: higher score first, then library order.
pub open spec fn ranked_before(tracks: Seq<Track>, q: Seq<char>, i: int, j: int) -> bool {
    let si = track_score(tracks[i], q);
    let sj = track_score(tracks[j], q);
    si > sj || (si == sj && i < j)
}

/// `r` lists exactly the tracks that score above zero, best first, ties in
/// library order.
pub open spec fn is_ranking(tracks: Seq<Track>, q: Seq<char>, r: Seq<usize>) -> bool {
    &&& forall|k: int| 0 <= k < r.len() ==> #[trigger] r[k] < tracks.len()
    &&& forall|k: int| 0 <= k < r.len() ==> track_score(tracks[#[trigger] r[k] as int], q) > 0
    &&& forall|i: int| 0 <= i < tracks.len() && track_score(tracks[i], q) > 0 ==> r.contains(
        i as usize,
    )
    &&& forall|a: int, b: int|
        0 <= a < b < r.len() ==> ranked_before(tracks, q, #[trigger] r[a] as int, #[trigger] r[b] as int)
}

/// The run `q` matches `f` at `p`.
fn matches_at(f: &Vec<char>, q: &Vec<char>, p: usize) -> (r: bool)
    requires
        p + q.len() <= f.len(),
    ensures
        r == occurs_at(f@, q@, p as int),
{
    let mut i: usize = 0;
    while i < q.len()
        invariant
            p + q.len() <= f.len(),
            i <= q.len(),
            forall|j: int| 0 <= j < i ==> f@[p + j] == q@[j],
        decreases q.len() - i,
    {
        if f[p + i] != q[i] {
            assert(f@.subrange(p as int, p + q.len())[i as int] != q@[i as int]);
            return false;
        }
        i += 1;
    }
    assert(f@.subrange(p as int, p + q.len()) =~= q@);
    true
}

/// Leftmost occurrence of the run `q` in `f`.
fn find(f: &Vec<char>, q: &Vec<char>) -> (r: Option<usize>)
    ensures
        match r {
            Some(p) => is_first_occurrence(f@, q@, p as int),
            None => !contains_run(f@, q@),
        },
{
    if q.len() > f.len() {
        assert forall|p: int| !occurs_at(f@, q@, p) by {}
        return None;
    }
    let last = f.len() - q.len();
    let mut p: usize = 0;
    loop
        invariant
            q.len() <= f.len(),
            last == f.len() - q.len(),
            p <= last,
            forall|k: int| 0 <= k < p ==> !occurs_at(f@, q@, k),
        ensures
            forall|k: int| 0 <= k <= last ==> !occurs_at(f@, q@, k),
        decreases last - p,
    {
        if matches_at(f, q, p) {
            return Some(p);
        }
        if p == last {
            break;
        }
        p += 1;
    }
    assert forall|k: int| !occurs_at(f@, q@, k) by {
        if 0 <= k <= last {
        }
    }
    None
}

/// Once found, the leftmost occurrence is the one `first_occurrence` names.
proof fn lemma_first_occurrence_unique(f: Seq<char>, q: Seq<char>, p: int)
    requires
        is_first_occurrence(f, q, p),
    ensures
        first_occurrence(f, q) == p,
        contains_run(f, q),
{
    let c = first_occurrence(f, q);
    assert(is_first_occurrence(f, q, c));
    if c < p {
        assert(!occurs_at(f, q, c));
    }
    if p < c {
        assert(!occurs_at(f, q, p));
    }
}

/// The two character sequences are equal.
fn chars_equal(a: &Vec<char>, b: &Vec<char>) -> (r: bool)
    ensures
        r == (a@ == b@),
{
    if a.len() != b.len() {
        return false;
    }
    let r = matches_at(a, b, 0);
    assert(a@.subrange(0, b.len() as int) =~= a@);
    r
}

/// Dropping a matched first character keeps a subsequence a subsequence.
proof fn lemma_subsequence_step_match(q: Seq<char>, f: Seq<char>)
    requires
        is_subsequence(q, f),
        q.len() > 0,
        f.len() > 0,
        f[0] == q[0],
    ensures
        is_subsequence(q.drop_first(), f.drop_first()),
{
    let m = choose|m: Seq<int>| embeds(m, q, f);
    let m2 = Seq::new((m.len() - 1) as nat, |i: int| m[i + 1] - 1);
    assert forall|i: int| 0 <= i < m2.len() implies 0 <= #[trigger] m2[i] < f.drop_first().len()
        && f.drop_first()[m2[i]] == q.drop_first()[i] by {
        assert(m[0] < m[i + 1]);
    }
    assert forall|i: int, j: int| 0 <= i < j < m2.len() implies m2[i] < m2[j] by {
        assert(m[i + 1] < m[j + 1]);
    }
    assert(embeds(m2, q.drop_first(), f.drop_first()));
}

/// A first character of `f` that differs from the next wanted one can be skipped.
proof fn lemma_subsequence_step_skip(q: Seq<char>, f: Seq<char>)
    requires
        is_subsequence(q, f),
        q.len() > 0,
        f.len() > 0,
        f[0] != q[0],
    ensures
        is_subsequence(q, f.drop_first()),
{
    let m = choose|m: Seq<int>| embeds(m, q, f);
    let m2 = Seq::new(m.len(), |i: int| m[i] - 1);
    assert(m[0] != 0);
    assert forall|i: int| 0 <= i < m2.len() implies 0 <= #[trigger] m2[i] < f.drop_first().len()
        && f.drop_first()[m2[i]] == q[i] by {
        if i > 0 {
            assert(m[0] < m[i]);
        }
    }
    assert forall|i: int, j: int| 0 <= i < j < m2.len() implies m2[i] < m2[j] by {
        assert(m[i] < m[j]);
    }
    assert(embeds(m2, q, f.drop_first()));
}

/// The characters of `q` appear in `f` in order (exact character comparison).
fn subsequence_chars(f: &Vec<char>, q: &Vec<char>) -> (r: bool)
    ensures
        r == is_subsequence(q@, f@),
{
    let mut qi: usize = 0;
    let mut fi: usize = 0;
    let ghost mut m: Seq<int> = Seq::empty();
    assert(q@.skip(0) =~= q@);
    assert(f@.skip(0) =~= f@);
    assert(q@.take(0) =~= Seq::<char>::empty());
    while qi < q.len()
        invariant
            qi <= q.len(),
            fi <= f.len(),
            embeds(m, q@.take(qi as int), f@),
            forall|k: int| 0 <= k < m.len() ==> #[trigger] m[k] < fi,
            is_subsequence(q@, f@) ==> is_subsequence(q@.skip(qi as int), f@.skip(fi as int)),
        decreases q.len() - qi + f.len() - fi,
    {
        if fi >= f.len() {
            proof {
                if is_subsequence(q@, f@) {
                    let w = choose|w: Seq<int>|
                        embeds(w, q@.skip(qi as int), f@.skip(fi as int));
                    assert(w[0] < f@.skip(fi as int).len());
                }
            }
            return false;
        }
        let ghost qs = q@.skip(qi as int);
        let ghost fs = f@.skip(fi as int);
        if f[fi] == q[qi] {
            proof {
                if is_subsequence(q@, f@) {
                    lemma_subsequence_step_match(qs, fs);
                    assert(qs.drop_first() =~= q@.skip(qi + 1));
                    assert(fs.drop_first() =~= f@.skip(fi + 1));
                }
                let m2 = m.push(fi as int);
                assert forall|i: int| 0 <= i < m2.len() implies 0 <= #[trigger] m2[i] < f@.len()
                    && f@[m2[i]] == q@.take(qi + 1)[i] by {
                    if i < m.len() {
                        assert(m2[i] == m[i]);
                        assert(q@.take(qi + 1)[i] == q@.take(qi as int)[i]);
                    }
                }
                m = m2;
            }
            qi += 1;
            fi += 1;
        } else {
            proof {
                if is_subsequence(q@, f@) {
                    lemma_subsequence_step_skip(qs, fs);
                    assert(fs.drop_first() =~= f@.skip(fi + 1));
                }
            }
            fi += 1;
        }
    }
    assert(q@.take(q.len() as int) =~= q@);
    assert(embeds(m, q@, f@));
    true
}

/// `c` occurs in `f`.
fn contains_char(f: &Vec<char>, c: char) -> (r: bool)
    ensures
        r == f@.contains(c),
{
    let mut i: usize = 0;
    while i < f.len()
        invariant
            i <= f.len(),
            forall|j: int| 0 <= j < i ==> f@[j] != c,
        decreases f.len() - i,
    {
        if f[i] == c {
            assert(f@[i as int] == c);
            return true;
        }
        i += 1;
    }
    false
}

/// Every character of `q` occurs somewhere in `f`.
fn all_present(f: &Vec<char>, q: &Vec<char>) -> (r: bool)
    ensures
        r == all_chars_present(q@, f@),
{
    let mut i: usize = 0;
    while i < q.len()
        invariant
            i <= q.len(),
            forall|j: int| 0 <= j < i ==> f@.contains(#[trigger] q@[j]),
        decreases q.len() - i,
    {
        if !contains_char(f, q[i]) {
            return false;
        }
        i += 1;
    }
    true
}

/// Bytes after which a match counts as starting a word: the encodings of
/// ' ', '-', '_' and '('.
pub open spec fn is_boundary_byte(b: u8) -> bool {
    b == 0x20 || b == 0x2D || b == 0x5F || b == 0x28
}

/// Bonus for a match that starts at byte `pos` of the encoded field `bytes`.
/// A position past the end counts as following a space.
pub open spec fn byte_boundary_bonus(bytes: Seq<u8>, pos: int, w: int) -> int {
    if pos <= 0 {
        0
    } else if pos - 1 >= bytes.len() || is_boundary_byte(bytes[pos - 1]) {
        50 * w
    } else {
        0
    }
}

/// The last byte of a character's encoding is a word-separator byte exactly
/// when the character is a word separator.
proof fn lemma_last_byte_boundary(c: char)
    ensures
        is_boundary_byte(encode_scalar(c as u32).last()) == is_boundary_char(c),
{
    let v = c as u32;
    if v <= 0x7F {
        assert(((v & 0x7F) as u8) as u32 == v) by (bit_vector)
            requires
                v <= 0x7F,
        ;
    } else {
        assert(0x80 <= (0x80 | (v & 0x3F) as u8)) by (bit_vector);
        assert(encode_scalar(v).last() == last_continuation_byte(v));
    }
}

/// Where a match starts after `p` characters of `f`, its bonus is the same
/// whether the start is counted in characters or in bytes of `f`'s UTF-8
/// encoding.
pub proof fn law_bonus_chars_or_bytes(f: Seq<char>, p: int, w: int)
    requires
        0 <= p <= f.len(),
    ensures
        boundary_bonus(f, p, w) == byte_boundary_bonus(encode_utf8(f), utf8_len(f.take(p)) as int, w),
{
    if p == 0 {
        assert(f.take(0) =~= Seq::<char>::empty());
        assert(encode_utf8(f.take(0)) =~= Seq::<u8>::empty());
    } else {
        let k = p - 1;
        let c = f[k];
        let t = seq![c];
        assert(f =~= f.take(p) + f.skip(p));
        lemma_encode_concat(f.take(p), f.skip(p));
        assert(f.take(p) =~= f.take(k) + t);
        lemma_encode_concat(f.take(k), t);
        assert(t.drop_first() =~= Seq::<char>::empty());
        assert(encode_utf8(t.drop_first()) =~= Seq::<u8>::empty());
        assert(encode_utf8(t) =~= encode_scalar(c as u32));
        let e = encode_scalar(c as u32);
        let head = encode_utf8(f.take(k));
        let b = utf8_len(f.take(p)) as int;
        assert(e.len() >= 1);
        assert(b == head.len() + e.len());
        assert(encode_utf8(f)[b - 1] == e[e.len() - 1]);
        lemma_last_byte_boundary(c);
    }
}

/// Bonus at weight `weight` for a match that starts at byte `pos` of
/// `field`: granted when the byte before it is a space, '-', '_' or '(',
/// or when `pos` lies past the end of `field`.
pub fn word_boundary_bonus(field: &str, pos: usize, weight: i32) -> (r: i32)
    requires
        -42_949_672 <= weight <= 42_949_672,
    ensures
        r == byte_boundary_bonus(encode_utf8(field@), pos as int, weight as int),
{
    if pos == 0 {
        return 0;
    }
    let bytes = field.as_bytes();
    let before: u8 = if pos - 1 < bytes.len() {
        bytes[pos - 1]
    } else {
        0x20
    };
    if before == 0x20 || before == 0x2D || before == 0x5F || before == 0x28 {
        50 * weight
    } else {
        0
    }
}

/// Score of `field` against the query `q` at weight `weight`. Both are
/// compared as given; the search lower-cases them first.
pub fn score_field(field: &str, q: &str, weight: i32) -> (r: i32)
    requires
        -2_147_483 <= weight <= 2_147_483,
    ensures
        r == field_score(field@, q@, weight as int),
{
    let f = chars_of(field);
    let qc = chars_of(q);
    if f.len() == 0 {
        return 0;
    }
    if chars_equal(&f, &qc) {
        return 1000 * weight;
    }
    if qc.len() <= f.len() && matches_at(&f, &qc, 0) {
        return 800 * weight + word_boundary_bonus(field, 0, weight);
    }
    match find(&f, &qc) {
        Some(pos) => {
            let at = prefix_bytes(&f, pos, field.as_bytes().len());
            proof {
                lemma_first_occurrence_unique(f@, qc@, pos as int);
                law_bonus_chars_or_bytes(f@, pos as int, weight as int);
            }
            return 600 * weight + word_boundary_bonus(field, at, weight);
        },
        None => {},
    }
    if subsequence_chars(&f, &qc) {
        return 300 * weight;
    }
    if all_present(&f, &qc) {
        return 100 * weight;
    }
    0
}

/// Score of `field` once lower-cased.
fn score_lowered(field: &String, q: &String, weight: i32) -> (r: i32)
    requires
        0 <= weight <= 10,
    ensures
        r == field_score(lower_chars(field@), q@, weight as int),
        0 <= r <= 1000 * weight,
{
    let lowered = lower_string(field.as_str());
    score_field(lowered.as_str(), q.as_str(), weight)
}

/// Score of a track against the normalised query `q`.
fn score_track(t: &Track, q: &String) -> (r: i32)
    ensures
        r == track_score(*t, q@),
        0 <= r <= 8000,
{
    let a = score_lowered(&t.title, q, 4);
    let b = score_lowered(&t.artist, q, 2);
    let c = score_lowered(&t.album, q, 1);
    let d = score_lowered(&t.path, q, 1);
    a + b + c + d
}

/// Inserting entry `x` of score `s` at `k` keeps a ranked list ranked when
/// the entries before `k` score at least `s`, the one at `k` scores less,
/// and every entry comes before `x` in the library.
proof fn lemma_ranked_insert(
    tracks: Seq<Track>,
    qs: Seq<char>,
    old_res: Seq<usize>,
    old_scores: Seq<i32>,
    res: Seq<usize>,
    k: int,
    x: usize,
    s: int,
)
    requires
        0 <= k <= old_res.len(),
        old_res.len() == old_scores.len(),
        res == old_res.insert(k, x),
        x < tracks.len(),
        s == track_score(tracks[x as int], qs),
        forall|j: int| 0 <= j < k ==> #[trigger] old_scores[j] >= s,
        k < old_res.len() ==> old_scores[k] < s,
        forall|j: int| 0 <= j < old_res.len() ==> #[trigger] old_res[j] < x,
        forall|j: int|
            0 <= j < old_res.len() ==> #[trigger] old_scores[j] == track_score(
                tracks[old_res[j] as int],
                qs,
            ),
        forall|a: int, b: int|
            0 <= a < b < old_res.len() ==> ranked_before(
                tracks,
                qs,
                #[trigger] old_res[a] as int,
                #[trigger] old_res[b] as int,
            ),
    ensures
        forall|a: int, b: int|
            0 <= a < b < res.len() ==> ranked_before(
                tracks,
                qs,
                #[trigger] res[a] as int,
                #[trigger] res[b] as int,
            ),
{
    assert forall|a: int, b: int| 0 <= a < b < res.len() implies ranked_before(
        tracks,
        qs,
        #[trigger] res[a] as int,
        #[trigger] res[b] as int,
    ) by {
        if a < k && b == k {
            assert(old_scores[a] >= s);
        } else if a == k && b > k {
            if b - 1 > k {
                assert(ranked_before(tracks, qs, old_res[k] as int, old_res[b - 1] as int));
            }
            assert(old_res[b - 1] < x);
            assert(old_scores[b - 1] == track_score(tracks[old_res[b - 1] as int], qs));
        } else if b < k {
            assert(ranked_before(tracks, qs, old_res[a] as int, old_res[b] as int));
        } else if a < k && b > k {
            assert(ranked_before(tracks, qs, old_res[a] as int, old_res[b - 1] as int));
        } else {
            assert(ranked_before(tracks, qs, old_res[a - 1] as int, old_res[b - 1] as int));
        }
    }
}

/// Indices of `tracks` ranked by relevance to `query`.
///
/// The query is trimmed and lower-cased first. When nothing is left of it,
/// every index is returned in library order. Otherwise the result lists each
/// track that scores above zero exactly once, by descending score, ties in
/// library order.
#[verifier::rlimit(80)]
#[verifier::spinoff_prover]
pub fn ranked_search(tracks: &[Track], query: &str) -> (r: Vec<usize>)
    ensures
        trimmed(query@).len() == 0 ==> r@ == Seq::new(tracks@.len(), |i: int| i as usize),
        normalized_query(query@).len() == 0 ==> r@ == Seq::new(
            tracks@.len(),
            |i: int| i as usize,
        ),
        normalized_query(query@).len() > 0 ==> is_ranking(
            tracks@,
            normalized_query(query@),
            r@,
        ),
{
    proof {
        law_normalized_query_empty(query@);
    }
    let trimmed_query = trim(query);
    let lowered = lower_string(trimmed_query);
    let q = chars_of(lowered.as_str());
    let ghost qs = normalized_query(query@);
    assert(q@ == qs);
    if q.len() == 0 {
        let mut all: Vec<usize> = Vec::new();
        let mut i: usize = 0;
        while i < tracks.len()
            invariant
                i <= tracks@.len(),
                all@ =~= Seq::new(i as nat, |k: int| k as usize),
            decreases tracks.len() - i,
        {
            all.push(i);
            i += 1;
        }
        return all;
    }
    let mut res: Vec<usize> = Vec::new();
    let mut res_scores: Vec<i32> = Vec::new();
    let mut i: usize = 0;
    while i < tracks.len()
        invariant
            i <= tracks@.len(),
            lowered@ == qs,
            res.len() == res_scores.len(),
            forall|k: int| 0 <= k < res.len() ==> #[trigger] res@[k] < i,
            forall|k: int|
                0 <= k < res.len() ==> #[trigger] res_scores@[k] == track_score(
                    tracks@[res@[k] as int],
                    qs,
                ),
            forall|k: int| 0 <= k < res.len() ==> #[trigger] res_scores@[k] > 0,
            forall|j: int| 0 <= j < i && track_score(tracks@[j], qs) > 0 ==> res@.contains(j as usize),
            forall|a: int, b: int|
                0 <= a < b < res.len() ==> ranked_before(
                    tracks@,
                    qs,
                    #[trigger] res@[a] as int,
                    #[trigger] res@[b] as int,
                ),
        decreases tracks.len() - i,
    {
        let s = score_track(&tracks[i], &lowered);
        if s > 0 {
            let mut k: usize = 0;
            while k < res.len() && res_scores[k] >= s
                invariant
                    k <= res.len(),
                    res.len() == res_scores.len(),
                    forall|j: int| 0 <= j < k ==> #[trigger] res_scores@[j] >= s,
                decreases res.len() - k,
            {
                k += 1;
            }
            let ghost old_res = res@;
            let ghost old_scores = res_scores@;
            res.insert(k, i);
            res_scores.insert(k, s);
            proof {
                lemma_ranked_insert(tracks@, qs, old_res, old_scores, res@, k as int, i, s as int);
                assert forall|j: int| 0 <= j < i + 1 && track_score(tracks@[j], qs) > 0 implies res@.contains(j as usize) by {
                    if j < i {
                        let w = choose|w: int| 0 <= w < old_res.len() && old_res[w] == j as usize;
                        if w < k {
                            assert(res@[w] == j as usize);
                        } else {
                            assert(res@[w + 1] == j as usize);
                        }
                    } else {
                        assert(res@[k as int] == i);
                    }
                }
            }
        }
        i += 1;
    }
    assert forall|k: int| 0 <= k < res.len() implies track_score(
        tracks@[#[trigger] res@[k] as int],
        qs,
    ) > 0 by {
        assert(res_scores@[k] > 0);
    }
    res
}

/// Returns true if every character of `q` appears in `field` in order,
/// ignoring case: both are lower-cased, character by character, before
/// they are compared.
pub fn fuzzy_match(field: &str, q: &str) -> (r: bool)
    ensures
        r == is_subsequence(lower_chars(q@), lower_chars(field@)),
{
    let (fc, _) = lower_with_origins(&chars_of(field));
    let (qc, _) = lower_with_origins(&chars_of(q));
    subsequence_chars(&fc, &qc)
}

/// Byte span in `f` of its character at position `i`.
pub open spec fn char_span(f: Seq<char>, i: int) -> (usize, usize) {
    (utf8_len(f.take(i)) as usize, utf8_len(f.take(i + 1)) as usize)
}

/// `r` is the byte range of a run of whole characters of `f`.
pub open spec fn on_char_boundaries(f: Seq<char>, r: (usize, usize)) -> bool {
    exists|a: int, b: int|
        0 <= a < b <= f.len() && r == (utf8_len(#[trigger] f.take(a)) as usize, utf8_len(
            #[trigger] f.take(b),
        ) as usize)
}

/// Spans of `f` highlighted when the lowered query `ql` does not occur as a
/// run in the lowered field `fl` (whose characters come from the positions
/// `org` of `f`): each query character, from `qi` on, is matched with the
/// next equal lowered character, from `j` on, and the character of `f` it
/// comes from is highlighted, once even when several of its lowered
/// characters match; `last` is the position highlighted last.
pub open spec fn scattered_spans(
    f: Seq<char>,
    fl: Seq<char>,
    org: Seq<int>,
    ql: Seq<char>,
    qi: int,
    j: int,
    last: int,
) -> Seq<(usize, usize)>
    decreases fl.len() - j,
{
    if qi < 0 || j < 0 || qi >= ql.len() || j >= fl.len() {
        Seq::empty()
    } else if fl[j] == ql[qi] {
        (if org[j] == last {
            Seq::empty()
        } else {
            seq![char_span(f, org[j])]
        }) + scattered_spans(f, fl, org, ql, qi + 1, j + 1, org[j])
    } else {
        scattered_spans(f, fl, org, ql, qi, j + 1, last)
    }
}

/// Byte ranges of `field` to highlight for the query `q`, matched
/// case-insensitively: nothing for an empty query; where the lowered query
/// occurs as a run in the lowered field, the characters of `field` that its
/// leftmost occurrence comes from; otherwise the characters matched one by
/// one.
pub open spec fn highlight_spec(field: Seq<char>, q: Seq<char>) -> Seq<(usize, usize)> {
    let fl = lower_chars(field);
    let org = lower_origins(field);
    let ql = lower_chars(q);
    if q.len() == 0 {
        Seq::empty()
    } else if contains_run(fl, ql) {
        let a = first_occurrence(fl, ql);
        seq![
            (utf8_len(field.take(org[a])) as usize, utf8_len(field.take(org[a + ql.len() - 1] + 1)) as usize),
        ]
    } else {
        scattered_spans(field, fl, org, ql, 0, 0, -1)
    }
}

/// A prefix is no longer in bytes than the whole.
proof fn lemma_utf8_len_prefix(s: Seq<char>, i: int)
    requires
        0 <= i <= s.len(),
    ensures
        utf8_len(s.take(i)) <= utf8_len(s),
{
    assert(s =~= s.take(i) + s.skip(i));
    lemma_utf8_len_concat(s.take(i), s.skip(i));
}

/// Byte length of the first `n` characters of `s`.
fn prefix_bytes(s: &Vec<char>, n: usize, total: usize) -> (b: usize)
    requires
        n <= s.len(),
        total == utf8_len(s@),
    ensures
        b == utf8_len(s@.take(n as int)),
{
    let mut b: usize = 0;
    let mut i: usize = 0;
    assert(s@.take(0) =~= Seq::<char>::empty());
    while i < n
        invariant
            i <= n <= s.len(),
            total == utf8_len(s@),
            b == utf8_len(s@.take(i as int)),
        decreases n - i,
    {
        proof {
            lemma_utf8_len_take(s@, i as int);
            lemma_utf8_len_prefix(s@, i + 1);
        }
        b = b + char_width(s[i]);
        i += 1;
    }
    b
}

/// Highlight ranges: the (start, end) byte offsets of the portions of
/// `field` that match the query `q`, for search highlights. Each range
/// covers whole characters of `field`.
///
/// An empty query highlights nothing. When the lower-cased query occurs in
/// the lower-cased field as a run, the characters of its leftmost occurrence
/// are the one range. Otherwise each query character is highlighted where it
/// is next found.
pub fn highlight_ranges(field: &str, q: &str) -> (r: Vec<(usize, usize)>)
    ensures
        r@ == highlight_spec(field@, q@),
        forall|k: int| 0 <= k < r@.len() ==> on_char_boundaries(field@, #[trigger] r@[k]),
{
    if q.is_empty() {
        return Vec::new();
    }
    let fc = chars_of(field);
    let qc = chars_of(q);
    let (fl, org) = lower_with_origins(&fc);
    let (ql, _) = lower_with_origins(&qc);
    let total = field.as_bytes().len();
    let ghost orgs = lower_origins(field@);
    proof {
        lemma_lower_shape(field@);
        lemma_lower_shape(q@);
    }
    match find(&fl, &ql) {
        Some(pos) => {
            proof {
                lemma_first_occurrence_unique(fl@, ql@, pos as int);
            }
            assert(ql@.len() >= q@.len() && q@.len() > 0);
            assert(occurs_at(fl@, ql@, pos as int));
            let n = ql.len();
            assert(n >= 1);
            assert(pos + n <= fl.len());
            let last_pos: usize = pos + n - 1;
            let a = org[pos];
            let b = org[last_pos];
            assert(orgs[pos as int] <= orgs[last_pos as int]);
            let start = prefix_bytes(&fc, a, total);
            let end = prefix_bytes(&fc, b + 1, total);
            let mut one: Vec<(usize, usize)> = Vec::new();
            one.push((start, end));
            assert(one@[0] == (utf8_len(field@.take(a as int)) as usize, utf8_len(field@.take(b + 1)) as usize));
            return one;
        },
        None => {},
    }
    let mut ranges: Vec<(usize, usize)> = Vec::new();
    let mut qi: usize = 0;
    let mut j: usize = 0;
    let mut last: usize = 0;
    let mut has_last = false;
    while qi < ql.len() && j < fl.len()
        invariant
            qi <= ql@.len(),
            j <= fl@.len(),
            fc@ == field@,
            fl@ == lower_chars(field@),
            orgs == lower_origins(field@),
            org@.len() == fl@.len(),
            orgs.len() == fl@.len(),
            forall|k: int| 0 <= k < org@.len() ==> #[trigger] org@[k] as int == orgs[k],
            forall|k: int| 0 <= k < orgs.len() ==> 0 <= #[trigger] orgs[k] < field@.len(),
            total == utf8_len(field@),
            ranges@ + scattered_spans(field@, fl@, orgs, ql@, qi as int, j as int, if has_last { last as int } else { -1 })
                == scattered_spans(field@, fl@, orgs, ql@, 0, 0, -1),
            forall|k: int| 0 <= k < ranges@.len() ==> on_char_boundaries(field@, #[trigger] ranges@[k]),
        decreases fl.len() - j,
    {
        let ghost lastv: int = if has_last { last as int } else { -1 };
        if fl[j] == ql[qi] {
            let o = org[j];
            let ghost rest = scattered_spans(field@, fl@, orgs, ql@, qi + 1, j + 1, o as int);
            if has_last && last == o {
                assert(scattered_spans(field@, fl@, orgs, ql@, qi as int, j as int, lastv) =~= rest);
            } else {
                let start = prefix_bytes(&fc, o, total);
                let end = prefix_bytes(&fc, o + 1, total);
                let ghost before = ranges@;
                ranges.push((start, end));
                proof {
                    assert(ranges@[ranges@.len() - 1] == (utf8_len(field@.take(o as int)) as usize, utf8_len(field@.take(o + 1)) as usize));
                    assert(scattered_spans(field@, fl@, orgs, ql@, qi as int, j as int, lastv)
                        == seq![char_span(field@, o as int)] + rest);
                    assert(ranges@ + rest =~= before + (seq![char_span(field@, o as int)] + rest));
                }
            }
            last = o;
            has_last = true;
            qi += 1;
        }
        j += 1;
    }
    assert(scattered_spans(field@, fl@, orgs, ql@, qi as int, j as int, if has_last { last as int } else { -1 })
        =~= Seq::<(usize, usize)>::empty());
    assert(ranges@ =~= ranges@ + Seq::<(usize, usize)>::empty());
    ranges
}

} // verus!
