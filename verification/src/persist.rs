//! State kept between sessions: recent folders, play counts and times, the
//! last track and the volume.

use vstd::prelude::*;
use crate::text::{chars_of, same_text, string_from_chars};

verus! {

/// The value stored under `key`: the first entry with that key, if any.
pub open spec fn lookup<V>(entries: Seq<(String, V)>, key: Seq<char>) -> Option<V>
    decreases entries.len(),
{
    if entries.len() == 0 {
        None
    } else if entries[0].0@ == key {
        Some(entries[0].1)
    } else {
        lookup(entries.drop_first(), key)
    }
}

/// The pieces of `s` between slashes, in order; `s` itself when it has no
/// slash.
pub open spec fn path_parts(s: Seq<char>) -> Seq<Seq<char>>
    decreases s.len(),
{
    if s.len() == 0 {
        seq![Seq::empty()]
    } else {
        let init = path_parts(s.drop_last());
        if s.last() == '/' {
            init.push(Seq::empty())
        } else {
            init.drop_last().push(init.last().push(s.last()))
        }
    }
}

/// A piece of a path that names a directory or file: not empty, not ".".
pub open spec fn names_something(part: Seq<char>) -> bool {
    part.len() > 0 && part != seq!['.']
}

/// The pieces that name something, in order.
pub open spec fn named_parts(parts: Seq<Seq<char>>) -> Seq<Seq<char>>
    decreases parts.len(),
{
    if parts.len() == 0 {
        Seq::empty()
    } else if names_something(parts.last()) {
        named_parts(parts.drop_last()).push(parts.last())
    } else {
        named_parts(parts.drop_last())
    }
}

/// The pieces joined with single slashes.
pub open spec fn joined(parts: Seq<Seq<char>>) -> Seq<char>
    decreases parts.len(),
{
    if parts.len() == 0 {
        Seq::empty()
    } else if parts.len() == 1 {
        parts[0]
    } else {
        joined(parts.drop_last()) + seq!['/'] + parts.last()
    }
}

/// The form in which two paths are compared as paths, as std's `Path`
/// equality compares their components: a leading slash when it is absolute,
/// then the pieces that name something separated by single slashes.
/// Doubled and trailing slashes and "." pieces do not change a path (a
/// leading "." piece neither); ".." pieces are kept, and links are not
/// followed, as that would need the file system.
pub open spec fn normal_path(s: Seq<char>) -> Seq<char> {
    (if s.len() > 0 && s[0] == '/' {
        seq!['/']
    } else {
        Seq::empty()
    }) + joined(named_parts(path_parts(s)))
}

/// The form in which the path `path` is compared as a path.
pub fn normalize_path(path: &str) -> (r: String)
    ensures
        r@ == normal_path(path@),
{
    let cs = chars_of(path);
    let mut out: Vec<char> = Vec::new();
    let mut seg: Vec<char> = Vec::new();
    let mut any = false;
    let mut i: usize = 0;
    assert(cs@.take(0) =~= Seq::<char>::empty());
    while i < cs.len()
        invariant
            i <= cs@.len(),
            cs@ == path@,
            path_parts(cs@.take(i as int)).len() >= 1,
            seg@ == path_parts(cs@.take(i as int)).last(),
            out@ == joined(named_parts(path_parts(cs@.take(i as int)).drop_last())),
            any == (named_parts(path_parts(cs@.take(i as int)).drop_last()).len() > 0),
        decreases cs.len() - i,
    {
        let ghost p = path_parts(cs@.take(i as int));
        let ghost t = cs@.take(i + 1);
        assert(t.drop_last() =~= cs@.take(i as int));
        assert(t.last() == cs@[i as int]);
        let c = cs[i];
        if c == '/' {
            assert(path_parts(t) == p.push(Seq::<char>::empty()));
            assert(path_parts(t).drop_last() =~= p);
            assert(p =~= p.drop_last().push(p.last()));
            if seg.len() > 0 && !(seg.len() == 1 && seg[0] == '.') {
                assert(seg@ != seq!['.']) by {
                    if seg@.len() == 1 {
                        assert(seg@[0] != '.');
                    }
                }
                let ghost kept = named_parts(p.drop_last());
                assert(named_parts(p) == kept.push(p.last()));
                if any {
                    out.push('/');
                }
                let mut k: usize = 0;
                let ghost base = out@;
                while k < seg.len()
                    invariant
                        k <= seg@.len(),
                        out@ == base + seg@.take(k as int),
                    decreases seg.len() - k,
                {
                    out.push(seg[k]);
                    assert(seg@.take(k + 1) =~= seg@.take(k as int).push(seg@[k as int]));
                    k += 1;
                }
                assert(seg@.take(seg@.len() as int) =~= seg@);
                assert(kept.push(p.last()).drop_last() =~= kept);
                assert(out@ =~= joined(kept.push(p.last())));
                any = true;
            } else {
                assert(!names_something(p.last())) by {
                    if seg@.len() == 1 && seg@[0] == '.' {
                        assert(seg@ =~= seq!['.']);
                    }
                }
                assert(named_parts(p) == named_parts(p.drop_last()));
            }
            seg = Vec::new();
        } else {
            assert(path_parts(t) == p.drop_last().push(p.last().push(c)));
            assert(path_parts(t).drop_last() =~= p.drop_last());
            seg.push(c);
        }
        i += 1;
    }
    assert(cs@.take(cs@.len() as int) =~= cs@);
    let ghost p = path_parts(cs@);
    assert(p =~= p.drop_last().push(p.last()));
    if seg.len() > 0 && !(seg.len() == 1 && seg[0] == '.') {
        assert(seg@ != seq!['.']) by {
            if seg@.len() == 1 {
                assert(seg@[0] != '.');
            }
        }
        let ghost kept = named_parts(p.drop_last());
        assert(named_parts(p) == kept.push(p.last()));
        if any {
            out.push('/');
        }
        let mut k: usize = 0;
        let ghost base = out@;
        while k < seg.len()
            invariant
                k <= seg@.len(),
                out@ == base + seg@.take(k as int),
            decreases seg.len() - k,
        {
            out.push(seg[k]);
            assert(seg@.take(k + 1) =~= seg@.take(k as int).push(seg@[k as int]));
            k += 1;
        }
        assert(seg@.take(seg@.len() as int) =~= seg@);
        assert(kept.push(p.last()).drop_last() =~= kept);
        assert(out@ =~= joined(kept.push(p.last())));
    } else {
        assert(!names_something(p.last())) by {
            if seg@.len() == 1 && seg@[0] == '.' {
                assert(seg@ =~= seq!['.']);
            }
        }
    }
    let mut r: Vec<char> = Vec::new();
    if cs.len() > 0 && cs[0] == '/' {
        r.push('/');
    }
    let mut k: usize = 0;
    let ghost base = r@;
    while k < out.len()
        invariant
            k <= out@.len(),
            r@ == base + out@.take(k as int),
        decreases out.len() - k,
    {
        r.push(out[k]);
        assert(out@.take(k + 1) =~= out@.take(k as int).push(out@[k as int]));
        k += 1;
    }
    assert(out@.take(out@.len() as int) =~= out@);
    assert(r@ =~= normal_path(path@));
    string_from_chars(&r)
}

/// The characters of each string.
pub open spec fn texts(v: Seq<String>) -> Seq<Seq<char>> {
    v.map_values(|s: String| s@)
}

/// `a` and `b` are the same entry of a recent list: the same text, or, when
/// `by_path`, the same path.
pub open spec fn same_entry(a: Seq<char>, b: Seq<char>, by_path: bool) -> bool {
    if by_path {
        normal_path(a) == normal_path(b)
    } else {
        a == b
    }
}

/// `s` without the entries that are the same as `x`, the rest in order.
pub open spec fn remove_matching(s: Seq<Seq<char>>, x: Seq<char>, by_path: bool) -> Seq<Seq<char>>
    decreases s.len(),
{
    if s.len() == 0 {
        s
    } else if same_entry(s.last(), x, by_path) {
        remove_matching(s.drop_last(), x, by_path)
    } else {
        remove_matching(s.drop_last(), x, by_path).push(s.last())
    }
}

/// The first eight items of `s`.
pub open spec fn cap8(s: Seq<Seq<char>>) -> Seq<Seq<char>> {
    if s.len() > 8 {
        s.take(8)
    } else {
        s
    }
}

/// The recent list after `x` is used: `x` first, then the entries that are
/// not the same as `x` in their order, at most eight in all.
pub open spec fn promoted_by(s: Seq<Seq<char>>, x: Seq<char>, by_path: bool) -> Seq<Seq<char>> {
    cap8(seq![x] + remove_matching(s, x, by_path))
}

/// The remembered recent list after `x` is used: entries with the same text
/// as `x` give way to it.
pub open spec fn promoted(s: Seq<Seq<char>>, x: Seq<char>) -> Seq<Seq<char>> {
    promoted_by(s, x, false)
}

/// The player's recent list after the folder `x` is used: entries that are
/// the same path as `x` give way to it.
pub open spec fn promoted_path(s: Seq<Seq<char>>, x: Seq<char>) -> Seq<Seq<char>> {
    promoted_by(s, x, true)
}

/// Removing the entries that are the same as `x` leaves none behind.
pub proof fn lemma_remove_matching_excludes(s: Seq<Seq<char>>, x: Seq<char>, by_path: bool)
    ensures
        forall|j: int|
            0 <= j < remove_matching(s, x, by_path).len() ==> !same_entry(
                #[trigger] remove_matching(s, x, by_path)[j],
                x,
                by_path,
            ),
        remove_matching(s, x, by_path).len() <= s.len(),
    decreases s.len(),
{
    if s.len() > 0 {
        lemma_remove_matching_excludes(s.drop_last(), x, by_path);
        let r = remove_matching(s.drop_last(), x, by_path);
        if !same_entry(s.last(), x, by_path) {
            assert forall|j: int| 0 <= j < r.push(s.last()).len() implies !same_entry(
                #[trigger] r.push(s.last())[j],
                x,
                by_path,
            ) by {
                if j < r.len() {
                    assert(r.push(s.last())[j] == r[j]);
                }
            }
        }
    }
}

/// After `x` is promoted it comes first, no other entry is the same as it,
/// and the list holds at most eight items.
pub proof fn law_promoted_front(s: Seq<Seq<char>>, x: Seq<char>, by_path: bool)
    ensures
        promoted_by(s, x, by_path).len() >= 1,
        promoted_by(s, x, by_path)[0] == x,
        forall|j: int|
            1 <= j < promoted_by(s, x, by_path).len() ==> !same_entry(
                #[trigger] promoted_by(s, x, by_path)[j],
                x,
                by_path,
            ),
        promoted_by(s, x, by_path).len() <= 8,
{
    lemma_remove_matching_excludes(s, x, by_path);
    let full = seq![x] + remove_matching(s, x, by_path);
    assert forall|j: int| 1 <= j < promoted_by(s, x, by_path).len() implies !same_entry(
        #[trigger] promoted_by(s, x, by_path)[j],
        x,
        by_path,
    ) by {
        assert(promoted_by(s, x, by_path)[j] == full[j]);
        assert(full[j] == remove_matching(s, x, by_path)[j - 1]);
    }
}

/// Moves `item` to the front of `list`, dropping the entries that are the
/// same as it (the same text, or the same path when `by_path`) and keeping
/// at most eight entries.
fn promote(list: &mut Vec<String>, item: &str, by_path: bool)
    ensures
        texts(final(list)@) == promoted_by(texts(old(list)@), item@, by_path),
{
    let ghost old_texts = texts(list@);
    let key = normalize_path(item);
    let mut out: Vec<String> = Vec::new();
    out.push(item.to_owned());
    let mut i: usize = 0;
    assert(texts(list@).take(0) =~= Seq::<Seq<char>>::empty());
    assert(texts(out@) =~= cap8(seq![item@] + remove_matching(old_texts.take(0), item@, by_path)));
    while i < list.len()
        invariant
            i <= list@.len(),
            old_texts == texts(list@),
            key@ == normal_path(item@),
            texts(out@) == cap8(seq![item@] + remove_matching(old_texts.take(i as int), item@, by_path)),
        decreases list.len() - i,
    {
        let ghost before = remove_matching(old_texts.take(i as int), item@, by_path);
        assert(old_texts.take(i + 1).drop_last() =~= old_texts.take(i as int));
        assert(old_texts.take(i + 1).last() == list@[i as int]@);
        let same = if by_path {
            let entry_key = normalize_path(list[i].as_str());
            same_text(entry_key.as_str(), key.as_str())
        } else {
            same_text(list[i].as_str(), item)
        };
        if !same {
            if out.len() < 8 {
                let ghost out_before = out@;
                let copy = list[i].clone();
                assert(copy@ == list@[i as int]@);
                out.push(copy);
                assert(texts(out@) =~= texts(out_before).push(list@[i as int]@));
                assert(texts(out@) =~= cap8(seq![item@] + before.push(list@[i as int]@)));
            } else {
                assert(cap8(seq![item@] + before.push(list@[i as int]@)) =~= cap8(
                    seq![item@] + before,
                ));
            }
        } else {
            assert(remove_matching(old_texts.take(i + 1), item@, by_path) == before);
        }
        i += 1;
    }
    assert(old_texts.take(list@.len() as int) =~= old_texts);
    *list = out;
}

/// Moves `item` to the front of `list`, dropping the entries with the same
/// text and keeping at most eight entries.
pub fn promote_recent(list: &mut Vec<String>, item: &str)
    ensures
        texts(final(list)@) == promoted(texts(old(list)@), item@),
{
    promote(list, item, false);
}

/// Moves the folder `item` to the front of `list`, dropping the entries that
/// are the same path and keeping at most eight entries.
pub fn promote_recent_path(list: &mut Vec<String>, item: &str)
    ensures
        texts(final(list)@) == promoted_path(texts(old(list)@), item@),
{
    promote(list, item, true);
}

/// The first entry of `entries` with key `key`, if any.
fn find_key<V>(entries: &Vec<(String, V)>, key: &str) -> (r: Option<usize>)
    ensures
        match r {
            Some(i) => i < entries@.len() && entries@[i as int].0@ == key@ && forall|j: int|
                0 <= j < i ==> #[trigger] entries@[j].0@ != key@,
            None => forall|j: int| 0 <= j < entries@.len() ==> #[trigger] entries@[j].0@ != key@,
        },
{
    let mut i: usize = 0;
    while i < entries.len()
        invariant
            i <= entries@.len(),
            forall|j: int| 0 <= j < i ==> #[trigger] entries@[j].0@ != key@,
        decreases entries.len() - i,
    {
        if same_text(entries[i].0.as_str(), key) {
            return Some(i);
        }
        i += 1;
    }
    None
}

/// Lookup finds the first entry with the key, or nothing.
proof fn lemma_lookup_first<V>(entries: Seq<(String, V)>, key: Seq<char>, i: int)
    requires
        0 <= i <= entries.len(),
        forall|j: int| 0 <= j < i ==> #[trigger] entries[j].0@ != key,
        i < entries.len() ==> entries[i].0@ == key,
    ensures
        lookup(entries, key) == if i < entries.len() {
            Some(entries[i].1)
        } else {
            None::<V>
        },
    decreases i,
{
    if i > 0 {
        let rest = entries.drop_first();
        assert forall|j: int| 0 <= j < i - 1 implies #[trigger] rest[j].0@ != key by {
            assert(rest[j] == entries[j + 1]);
        }
        assert(entries[0].0@ != key);
        lemma_lookup_first(rest, key, i - 1);
    }
}

/// Changing the value of an entry changes only the lookup of the key whose
/// first entry it is.
proof fn lemma_lookup_update<V>(entries: Seq<(String, V)>, i: int, v: V, key: Seq<char>)
    requires
        0 <= i < entries.len(),
        forall|j: int| 0 <= j < i ==> #[trigger] entries[j].0@ != entries[i].0@,
    ensures
        lookup(entries.update(i, (entries[i].0, v)), key) == if key == entries[i].0@ {
            Some(v)
        } else {
            lookup(entries, key)
        },
    decreases i,
{
    let e2 = entries.update(i, (entries[i].0, v));
    if i == 0 {
        assert(e2.drop_first() =~= entries.drop_first());
    } else {
        let rest = entries.drop_first();
        assert(e2.drop_first() =~= rest.update(i - 1, (rest[i - 1].0, v)));
        assert forall|j: int| 0 <= j < i - 1 implies #[trigger] rest[j].0@ != rest[i - 1].0@ by {
            assert(rest[j] == entries[j + 1]);
        }
        lemma_lookup_update(rest, i - 1, v, key);
        assert(e2[0] == entries[0]);
    }
}

/// Appending an entry only adds a key that was absent.
proof fn lemma_lookup_push<V>(entries: Seq<(String, V)>, e: (String, V), key: Seq<char>)
    ensures
        lookup(entries.push(e), key) == match lookup(entries, key) {
            Some(x) => Some(x),
            None => if e.0@ == key {
                Some(e.1)
            } else {
                None::<V>
            },
        },
    decreases entries.len(),
{
    if entries.len() > 0 {
        assert(entries.push(e)[0] == entries[0]);
        assert(entries.push(e).drop_first() =~= entries.drop_first().push(e));
        lemma_lookup_push(entries.drop_first(), e, key);
    } else {
        assert(entries.push(e).drop_first() =~= Seq::<(String, V)>::empty());
        assert(lookup(Seq::<(String, V)>::empty(), key) == None::<V>);
        assert(entries.push(e)[0] == e);
    }
}

/// Stores `value` under `key`: in the first entry with that key, else in a
/// new entry at the end.
fn store<V>(entries: &mut Vec<(String, V)>, key: &str, value: V)
    ensures
        lookup(final(entries)@, key@) == Some(value),
        forall|k: Seq<char>| k != key@ ==> lookup(final(entries)@, k) == lookup(old(entries)@, k),
{
    match find_key(entries, key) {
        Some(i) => {
            let ghost before = entries@;
            let (k, _) = entries.remove(i);
            entries.insert(i, (k, value));
            proof {
                assert(entries@ =~= before.update(i as int, (before[i as int].0, value)));
                assert forall|k2: Seq<char>| true implies lookup(entries@, k2) == if k2 == key@ {
                    Some(value)
                } else {
                    lookup(before, k2)
                } by {
                    lemma_lookup_update(before, i as int, value, k2);
                }
            }
        },
        None => {
            let ghost before = entries@;
            entries.push((key.to_owned(), value));
            proof {
                let e = entries@[before.len() as int];
                assert(entries@ =~= before.push(e));
                lemma_lookup_first(before, key@, before.len() as int);
                assert forall|k2: Seq<char>| true implies lookup(entries@, k2) == match lookup(before, k2) {
                    Some(x) => Some(x),
                    None => if key@ == k2 { Some(value) } else { None::<V> },
                } by {
                    lemma_lookup_push(before, e, k2);
                }
            }
        },
    }
}

/// The stored play count of `key`, zero when there is none.
pub open spec fn count_or_zero(entries: Seq<(String, u32)>, key: Seq<char>) -> u32 {
    match lookup(entries, key) {
        Some(c) => c,
        None => 0,
    }
}

/// Listening state kept between sessions.
#[derive(Debug, Clone)]
pub struct PersistState {
    /// Last folder whose scan finished.
    pub last_folder: Option<String>,
    /// Up to eight recent folders, most recent first.
    pub recent_folders: Vec<String>,
    /// Play count per track, keyed by the canonical path of its file as
    /// text (the path the program resolved when it read the file).
    pub play_counts: Vec<(String, u32)>,
    /// Last time each track was played, in seconds since the Unix epoch,
    /// keyed as the play counts are.
    pub last_played: Vec<(String, u64)>,
    /// Path of the last played track.
    pub last_track: Option<String>,
    /// Bit pattern of the volume level, a float between 0 and 1.
    pub volume_bits: Option<u32>,
}

/// `after` is `before` with a play of `path` at `now` seconds since the Unix
/// epoch recorded: under the key `path`, the count is one more and the
/// last-played time is `now`; it is the last track; the counts and times
/// under other keys, the folders and the volume are as they were.
pub open spec fn play_recorded(before: PersistState, after: PersistState, path: Seq<char>, now: u64) -> bool {
    &&& lookup(after.play_counts@, path) == Some((count_or_zero(before.play_counts@, path) + 1) as u32)
    &&& forall|k: Seq<char>|
        k != path ==> #[trigger] lookup(after.play_counts@, k) == lookup(before.play_counts@, k)
    &&& lookup(after.last_played@, path) == Some(now)
    &&& forall|k: Seq<char>|
        k != path ==> #[trigger] lookup(after.last_played@, k) == lookup(before.last_played@, k)
    &&& after.last_track matches Some(t) && t@ == path
    &&& after.last_folder == before.last_folder
    &&& after.recent_folders == before.recent_folders
    &&& after.volume_bits == before.volume_bits
}

/// A recorded play raises the play count of its key by one and leaves the
/// count under every other key as it was.
pub proof fn law_recorded_play_counts(
    before: PersistState,
    after: PersistState,
    path: Seq<char>,
    now: u64,
    other: Seq<char>,
)
    requires
        count_or_zero(before.play_counts@, path) < u32::MAX,
        play_recorded(before, after, path, now),
    ensures
        count_or_zero(after.play_counts@, path) == count_or_zero(before.play_counts@, path) + 1,
        other != path ==> count_or_zero(after.play_counts@, other) == count_or_zero(
            before.play_counts@,
            other,
        ),
{
    if other != path {
        assert(lookup(after.play_counts@, other) == lookup(before.play_counts@, other));
    }
}

impl PersistState {
    /// Nothing remembered yet.
    pub fn new() -> (p: PersistState)
        ensures
            p.last_folder is None,
            p.recent_folders@.len() == 0,
            p.play_counts@.len() == 0,
            p.last_played@.len() == 0,
            p.last_track is None,
            p.volume_bits is None,
    {
        PersistState {
            last_folder: None,
            recent_folders: Vec::new(),
            play_counts: Vec::new(),
            last_played: Vec::new(),
            last_track: None,
            volume_bits: None,
        }
    }

    /// Records a play of `path` at `now` seconds since the Unix epoch: its
    /// count goes up by one, its last-played time becomes `now`, and it
    /// becomes the last track. The count must be below `u32::MAX`.
    pub fn record_play_at(&mut self, path: &str, now: u64)
        requires
            count_or_zero(old(self).play_counts@, path@) < u32::MAX,
        ensures
            play_recorded(*old(self), *final(self), path@, now),
    {
        let current = self.play_count_for(path);
        store(&mut self.play_counts, path, current + 1);
        store(&mut self.last_played, path, now);
        self.last_track = Some(path.to_owned());
    }

    /// Records a play of `path` now.
    pub fn record_play(&mut self, path: &str)
        requires
            count_or_zero(old(self).play_counts@, path@) < u32::MAX,
        ensures
            exists|now: u64| play_recorded(*old(self), *final(self), path@, now),
    {
        let now = unix_now_secs();
        self.record_play_at(path, now);
    }

    /// How many times `path` has been played.
    pub fn play_count_for(&self, path: &str) -> (r: u32)
        ensures
            r == count_or_zero(self.play_counts@, path@),
    {
        match find_key(&self.play_counts, path) {
            Some(i) => {
                proof {
                    lemma_lookup_first(self.play_counts@, path@, i as int);
                }
                self.play_counts[i].1
            },
            None => {
                proof {
                    lemma_lookup_first(self.play_counts@, path@, self.play_counts@.len() as int);
                }
                0
            },
        }
    }

    /// Puts `path` first among the recent folders, dropping entries with the
    /// same text (at most eight are kept).
    /// The last folder is set only once a scan of it has finished.
    pub fn push_recent(&mut self, path: &str)
        ensures
            texts(final(self).recent_folders@) == promoted(texts(old(self).recent_folders@), path@),
            *final(self) == (PersistState { recent_folders: final(self).recent_folders, ..*old(self) }),
    {
        promote_recent(&mut self.recent_folders, path);
    }
}

/// Calls `SystemTime::now` and measures from the Unix epoch. Trusted for
/// nothing: the clock may read anything, and a clock set before the epoch
/// reads as zero.
#[verifier::external_body]
fn unix_now_secs() -> (r: u64) {
    std::time::SystemTime::now()
        .duration_since(std::time::UNIX_EPOCH)
        .map(|d| d.as_secs())
        .unwrap_or(0)
}

} // verus!
