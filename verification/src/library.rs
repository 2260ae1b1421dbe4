//! The scanned music library: tracks, the artist list and the album index.

use vstd::prelude::*;
use crate::text::{
    chars_less, chars_of, compare_chars, decimal, lemma_chars_less_irreflexive,
    lemma_chars_less_total, lemma_chars_less_transitive, push_decimal, push_decimal2, push_str,
    same_text, string_from_chars, lower_string, lower_chars, zero_pad2,
};

verus! {

/// One audio file of the library with the metadata read from its tags.
#[derive(Debug, Clone)]
pub struct Track {
    /// Location of the file: the canonical path of the file, as text, as
    /// the program resolved it when it read the file. Play counts are kept
    /// under it.
    pub path: String,
    pub title: String,
    pub artist: String,
    pub album: String,
    pub track_number: u32,
    pub duration_secs: u64,
    /// Container name shown to the user, such as "MP3" or "FLAC".
    pub format: String,
    /// Audio bitrate in kbps, when the file reports one.
    pub bitrate: Option<u32>,
    /// Size of the file in bytes.
    pub file_size: u64,
    /// Encoded bytes of the first embedded picture.
    pub album_art: Option<Vec<u8>>,
}

/// What the library is sorted by: artist, album, track number, title.
pub type KeyView = (Seq<char>, Seq<char>, u32, Seq<char>);

/// The sort key of a track.
pub open spec fn track_key(t: Track) -> KeyView {
    (t.artist@, t.album@, t.track_number, t.title@)
}

/// Key `a` sorts strictly before key `b`, field by field.
pub open spec fn key_less(a: KeyView, b: KeyView) -> bool {
    ||| chars_less(a.0, b.0)
    ||| a.0 == b.0 && chars_less(a.1, b.1)
    ||| a.0 == b.0 && a.1 == b.1 && a.2 < b.2
    ||| a.0 == b.0 && a.1 == b.1 && a.2 == b.2 && chars_less(a.3, b.3)
}

/// Track `a` sorts strictly before track `b`.
pub open spec fn track_less(a: Track, b: Track) -> bool {
    key_less(track_key(a), track_key(b))
}

/// The key order is a strict total order.
pub proof fn lemma_key_order(a: KeyView, b: KeyView, c: KeyView)
    ensures
        !key_less(a, a),
        a != b ==> key_less(a, b) || key_less(b, a),
        !(key_less(a, b) && key_less(b, a)),
        key_less(a, b) && key_less(b, c) ==> key_less(a, c),
{
    lemma_chars_less_irreflexive(a.0);
    lemma_chars_less_irreflexive(a.1);
    lemma_chars_less_irreflexive(a.3);
    lemma_chars_less_total(a.0, b.0);
    lemma_chars_less_total(a.1, b.1);
    lemma_chars_less_total(a.3, b.3);
    lemma_chars_less_total(b.0, c.0);
    lemma_chars_less_total(b.1, c.1);
    lemma_chars_less_total(b.3, c.3);
    if chars_less(a.0, b.0) && chars_less(b.0, c.0) {
        lemma_chars_less_transitive(a.0, b.0, c.0);
    }
    if chars_less(a.1, b.1) && chars_less(b.1, c.1) {
        lemma_chars_less_transitive(a.1, b.1, c.1);
    }
    if chars_less(a.3, b.3) && chars_less(b.3, c.3) {
        lemma_chars_less_transitive(a.3, b.3, c.3);
    }
}

/// `out` is `inp` sorted by key, where `out[j]` is `inp[perm[j]]` and tracks
/// with equal keys keep their relative order.
pub open spec fn is_stable_sort(inp: Seq<Track>, out: Seq<Track>, perm: Seq<int>) -> bool {
    &&& out.len() == inp.len()
    &&& perm.len() == inp.len()
    &&& forall|j: int| 0 <= j < out.len() ==> 0 <= #[trigger] perm[j] < inp.len() && out[j] == inp[perm[j]]
    &&& forall|j: int, k: int| 0 <= j < k < out.len() ==> #[trigger] perm[j] != #[trigger] perm[k]
    &&& forall|j: int, k: int|
        0 <= j < k < out.len() ==> track_less(#[trigger] out[j], #[trigger] out[k]) || (track_key(
            out[j],
        ) == track_key(out[k]) && perm[j] < perm[k])
}

/// The sort key of a track, held as characters.
struct SortKey {
    artist: Vec<char>,
    album: Vec<char>,
    number: u32,
    title: Vec<char>,
}

impl SortKey {
    spec fn view(&self) -> KeyView {
        (self.artist@, self.album@, self.number, self.title@)
    }

    fn of(t: &Track) -> (k: SortKey)
        ensures
            k.view() == track_key(*t),
    {
        SortKey {
            artist: chars_of(t.artist.as_str()),
            album: chars_of(t.album.as_str()),
            number: t.track_number,
            title: chars_of(t.title.as_str()),
        }
    }

    /// `self` sorts strictly after `other`.
    fn after(&self, other: &SortKey) -> (r: bool)
        ensures
            r == key_less(other.view(), self.view()),
    {
        proof {
            lemma_key_order(self.view(), other.view(), self.view());
        }
        let c = compare_chars(&self.artist, &other.artist);
        if c != 0 {
            return c > 0;
        }
        let c = compare_chars(&self.album, &other.album);
        if c != 0 {
            return c > 0;
        }
        if self.number != other.number {
            return self.number > other.number;
        }
        let c = compare_chars(&self.title, &other.title);
        c > 0
    }
}

/// The tracks sorted by artist, album, track number and title; tracks with
/// equal keys keep their order.
pub fn sort_tracks(tracks: Vec<Track>) -> (r: Vec<Track>)
    ensures
        exists|perm: Seq<int>| is_stable_sort(tracks@, r@, perm),
{
    let ghost inp = tracks@;
    let n = tracks.len();
    let mut v = tracks;
    let mut keys: Vec<SortKey> = Vec::new();
    let mut j: usize = 0;
    while j < n
        invariant
            v@ == inp,
            n == inp.len(),
            j <= n,
            keys.len() == j,
            forall|m: int| 0 <= m < j ==> #[trigger] keys@[m].view() == track_key(v@[m]),
        decreases n - j,
    {
        keys.push(SortKey::of(&v[j]));
        j += 1;
    }
    let ghost mut perm: Seq<int> = Seq::new(n as nat, |m: int| m);
    let mut i: usize = 0;
    while i < n
        invariant
            n == inp.len(),
            i <= n,
            v.len() == n,
            keys.len() == n,
            perm.len() == n,
            forall|m: int| 0 <= m < n ==> #[trigger] keys@[m].view() == track_key(v@[m]),
            forall|m: int| 0 <= m < n ==> 0 <= #[trigger] perm[m] < n && v@[m] == inp[perm[m]],
            forall|m: int| i <= m < n ==> #[trigger] perm[m] == m,
            forall|m: int| 0 <= m < i ==> #[trigger] perm[m] < i,
            forall|a: int, b: int| 0 <= a < b < n ==> #[trigger] perm[a] != #[trigger] perm[b],
            forall|a: int, b: int|
                0 <= a < b < i ==> track_less(#[trigger] v@[a], #[trigger] v@[b]) || (track_key(
                    v@[a],
                ) == track_key(v@[b]) && perm[a] < perm[b]),
        decreases n - i,
    {
        let ghost v0 = v@;
        let ghost p0 = perm;
        let t = v.remove(i);
        let k = keys.remove(i);
        let mut pos: usize = i;
        while pos > 0 && keys[pos - 1].after(&k)
            invariant
                pos <= i,
                i < n,
                keys.len() == n - 1,
                v.len() == n - 1,
                k.view() == track_key(t),
                forall|m: int| 0 <= m < n - 1 ==> #[trigger] keys@[m].view() == track_key(v@[m]),
                forall|m: int| pos <= m < i ==> track_less(t, #[trigger] v@[m]),
            decreases pos,
        {
            pos -= 1;
        }
        proof {
            assert(t == v0[i as int]);
            assert forall|m: int| 0 <= m < i implies #[trigger] v@[m] == v0[m] by {}
        }
        v.insert(pos, t);
        keys.insert(pos, k);
        proof {
            let np = p0.subrange(0, pos as int).push(i as int) + p0.subrange(pos as int, i as int)
                + p0.subrange(i + 1, n as int);
            assert(np.len() == n);
            assert forall|m: int| 0 <= m < n implies 0 <= #[trigger] np[m] < n && v@[m] == inp[np[m]] by {
                if m < pos {
                    assert(np[m] == p0[m]);
                } else if m == pos {
                    assert(np[m] == i);
                } else if m <= i {
                    assert(np[m] == p0[m - 1]);
                } else {
                    assert(np[m] == p0[m]);
                }
            }
            assert forall|m: int| i + 1 <= m < n implies #[trigger] np[m] == m by {
                assert(np[m] == p0[m]);
            }
            assert forall|m: int| 0 <= m < i + 1 implies #[trigger] np[m] < i + 1 by {
                if m < pos {
                    assert(np[m] == p0[m]);
                } else if m == pos {
                } else {
                    assert(np[m] == p0[m - 1]);
                }
            }
            assert forall|a: int, b: int| 0 <= a < b < n implies #[trigger] np[a] != #[trigger] np[b] by {
                let oa = if a < pos { a } else if a == pos { i as int } else if a <= i { a - 1 } else { a };
                let ob = if b < pos { b } else if b == pos { i as int } else if b <= i { b - 1 } else { b };
                assert(np[a] == p0[oa]);
                assert(np[b] == p0[ob]);
                assert(oa != ob);
            }
            assert forall|a: int, b: int| 0 <= a < b < i + 1 implies track_less(
                #[trigger] v@[a],
                #[trigger] v@[b],
            ) || (track_key(v@[a]) == track_key(v@[b]) && np[a] < np[b]) by {
                let oa = if a < pos { a } else if a == pos { i as int } else { a - 1 };
                let ob = if b < pos { b } else if b == pos { i as int } else { b - 1 };
                assert(np[a] == p0[oa]);
                assert(np[b] == p0[ob]);
                if b == pos {
                    // a < pos: v0[a] sorts no later than v0[pos - 1], which does not sort after t
                    let last = pos - 1;
                    assert(!key_less(track_key(t), track_key(v0[last])));
                    lemma_key_order(track_key(v0[a]), track_key(v0[last]), track_key(t));
                    lemma_key_order(track_key(v0[last]), track_key(t), track_key(t));
                    assert(p0[a] < i);
                } else if a == pos {
                    assert(track_less(t, v0[ob]));
                } else {
                    assert(track_less(v0[oa], v0[ob]) || (track_key(v0[oa]) == track_key(v0[ob])
                        && p0[oa] < p0[ob]));
                }
            }
            perm = np;
        }
        i += 1;
    }
    assert(is_stable_sort(inp, v@, perm));
    v
}

/// `m:ss` style clock text: minutes and seconds of `secs`, each padded with
/// zeros to two digits.
pub open spec fn clock_text(secs: nat) -> Seq<char> {
    zero_pad2(decimal(secs / 60)) + seq![':'] + zero_pad2(decimal(secs % 60))
}

/// Writes `secs` as minutes and seconds, each at least two digits.
pub fn clock_string(secs: u64) -> (r: String)
    ensures
        r@ == clock_text(secs as nat),
{
    let mut out: Vec<char> = Vec::new();
    push_decimal2(&mut out, secs / 60);
    out.push(':');
    push_decimal2(&mut out, secs % 60);
    assert(out@ =~= clock_text(secs as nat));
    string_from_chars(&out)
}

/// Text shown for a bitrate: the number and " kbps" when it is known and
/// above zero, a dash otherwise.
pub open spec fn bitrate_text(bitrate: Option<u32>) -> Seq<char> {
    match bitrate {
        Some(b) if b > 0 => decimal(b as nat) + seq![' ', 'k', 'b', 'p', 's'],
        _ => seq!['\u{2014}'],
    }
}

/// Unit in which a file size is shown.
#[derive(Debug, Clone, Copy, PartialEq, Eq)]
pub enum SizeUnit {
    Bytes,
    Kilobytes,
    Megabytes,
    Gigabytes,
}

/// The largest binary unit that the size reaches, bytes below one kilobyte.
pub open spec fn size_unit_of(bytes: u64) -> SizeUnit {
    if bytes >= 1024 * 1024 * 1024 {
        SizeUnit::Gigabytes
    } else if bytes >= 1024 * 1024 {
        SizeUnit::Megabytes
    } else if bytes >= 1024 {
        SizeUnit::Kilobytes
    } else {
        SizeUnit::Bytes
    }
}

impl Track {
    /// The duration as minutes and seconds, e.g. "03:25".
    pub fn duration_display(&self) -> (r: String)
        ensures
            r@ == clock_text(self.duration_secs as nat),
    {
        clock_string(self.duration_secs)
    }

    /// The unit in which `file_size_display` shows the file's size.
    pub fn file_size_unit(&self) -> (u: SizeUnit)
        ensures
            u == size_unit_of(self.file_size),
    {
        if self.file_size >= 1024 * 1024 * 1024 {
            SizeUnit::Gigabytes
        } else if self.file_size >= 1024 * 1024 {
            SizeUnit::Megabytes
        } else if self.file_size >= 1024 {
            SizeUnit::Kilobytes
        } else {
            SizeUnit::Bytes
        }
    }

    /// The bitrate, e.g. "320 kbps", or a dash when unknown.
    pub fn bitrate_display(&self) -> (r: String)
        ensures
            r@ == bitrate_text(self.bitrate),
    {
        let mut out: Vec<char> = Vec::new();
        match self.bitrate {
            Some(b) if b > 0 => {
                push_decimal(&mut out, b as u64);
                out.push(' ');
                out.push('k');
                out.push('b');
                out.push('p');
                out.push('s');
            },
            _ => {
                out.push('\u{2014}');
            },
        }
        assert(out@ =~= bitrate_text(self.bitrate));
        string_from_chars(&out)
    }
}

/// `s` lists, in increasing order, exactly the indices of the tracks whose
/// album is `name`.
pub open spec fn lists_album(s: Seq<usize>, tracks: Seq<Track>, name: Seq<char>) -> bool {
    &&& forall|k: int| 0 <= k < s.len() ==> (#[trigger] s[k]) < tracks.len() && tracks[s[k] as int].album@ == name
    &&& forall|i: int| 0 <= i < tracks.len() && (#[trigger] tracks[i]).album@ == name ==> s.contains(i as usize)
    &&& forall|a: int, b: int| 0 <= a < b < s.len() ==> s[a] < s[b]
}

/// `s` lists, in increasing order, exactly the indices of the tracks whose
/// artist is `name`.
pub open spec fn lists_artist(s: Seq<usize>, tracks: Seq<Track>, name: Seq<char>) -> bool {
    &&& forall|k: int| 0 <= k < s.len() ==> (#[trigger] s[k]) < tracks.len() && tracks[s[k] as int].artist@ == name
    &&& forall|i: int| 0 <= i < tracks.len() && (#[trigger] tracks[i]).artist@ == name ==> s.contains(i as usize)
    &&& forall|a: int, b: int| 0 <= a < b < s.len() ==> s[a] < s[b]
}

/// Some track among the first `upto` has artist `name`.
pub open spec fn artist_among(tracks: Seq<Track>, upto: int, name: Seq<char>) -> bool {
    exists|j: int| 0 <= j < upto && j < tracks.len() && (#[trigger] tracks[j]).artist@ == name
}

/// One of `names` is `name`.
pub open spec fn names_contain(names: Seq<String>, name: Seq<char>) -> bool {
    exists|a: int| 0 <= a < names.len() && (#[trigger] names[a])@ == name
}

/// One of the album entries is named `name`.
pub open spec fn entries_contain(albums: Seq<AlbumEntry>, name: Seq<char>) -> bool {
    exists|a: int| 0 <= a < albums.len() && (#[trigger] albums[a]).album@ == name
}

/// The tracks are in key order (equal keys allowed).
pub open spec fn sorted_by_key(tracks: Seq<Track>) -> bool {
    forall|j: int, k: int|
        0 <= j < k < tracks.len() ==> track_less(#[trigger] tracks[j], #[trigger] tracks[k])
            || track_key(tracks[j]) == track_key(tracks[k])
}

/// An album and the indices of its tracks in the library.
#[derive(Debug, Clone)]
pub struct AlbumEntry {
    pub album: String,
    /// Indices into `Library::tracks`, in increasing order.
    pub tracks: Vec<usize>,
}

/// The scanned library: tracks in sort order, the artist list and the album index.
#[derive(Debug, Clone)]
pub struct Library {
    pub tracks: Vec<Track>,
    /// Each artist once, in sort order.
    pub artists: Vec<String>,
    /// One entry per album, each listing its tracks.
    pub albums: Vec<AlbumEntry>,
}

/// The track indices stored for `name`: those of the first entry with that
/// album name, none when there is no such entry.
pub open spec fn album_lookup(albums: Seq<AlbumEntry>, name: Seq<char>) -> Seq<usize>
    decreases albums.len(),
{
    if albums.len() == 0 {
        Seq::empty()
    } else if albums[0].album@ == name {
        albums[0].tracks@
    } else {
        album_lookup(albums.drop_first(), name)
    }
}

/// Sum of the track durations.
pub open spec fn total_duration(tracks: Seq<Track>) -> nat
    decreases tracks.len(),
{
    if tracks.len() == 0 {
        0
    } else {
        total_duration(tracks.drop_last()) + tracks.last().duration_secs as nat
    }
}

/// `out` is `inp` stably sorted by the track number of the track each index
/// names: `out[j]` is `inp[perm[j]]`.
pub open spec fn is_number_sort(
    tracks: Seq<Track>,
    inp: Seq<usize>,
    out: Seq<usize>,
    perm: Seq<int>,
) -> bool {
    &&& out.len() == inp.len()
    &&& perm.len() == inp.len()
    &&& forall|j: int| 0 <= j < out.len() ==> 0 <= #[trigger] perm[j] < inp.len() && out[j] == inp[perm[j]]
    &&& forall|j: int, k: int| 0 <= j < k < out.len() ==> #[trigger] perm[j] != #[trigger] perm[k]
    &&& forall|j: int, k: int|
        0 <= j < k < out.len() ==> ({
            let nj = tracks[#[trigger] out[j] as int].track_number;
            let nk = tracks[#[trigger] out[k] as int].track_number;
            nj < nk || (nj == nk && perm[j] < perm[k])
        })
}

impl Library {
    /// The artist list names each artist of the tracks once, in sort order.
    pub open spec fn artists_indexed(&self) -> bool {
        &&& forall|a: int, b: int|
            0 <= a < b < self.artists@.len() ==> chars_less(
                #[trigger] self.artists@[a]@,
                #[trigger] self.artists@[b]@,
            )
        &&& forall|a: int|
            0 <= a < self.artists@.len() ==> artist_among(
                self.tracks@,
                self.tracks@.len() as int,
                (#[trigger] self.artists@[a])@,
            )
        &&& forall|i: int|
            0 <= i < self.tracks@.len() ==> names_contain(
                self.artists@,
                (#[trigger] self.tracks@[i]).artist@,
            )
    }

    /// The album index has one entry per album of the tracks, each listing
    /// all of that album's track indices in increasing order.
    pub open spec fn albums_indexed(&self) -> bool {
        &&& forall|a: int, b: int|
            0 <= a < b < self.albums@.len() ==> #[trigger] self.albums@[a].album@
                != #[trigger] self.albums@[b].album@
        &&& forall|a: int|
            0 <= a < self.albums@.len() ==> lists_album(
                (#[trigger] self.albums@[a]).tracks@,
                self.tracks@,
                self.albums@[a].album@,
            )
        &&& forall|a: int| 0 <= a < self.albums@.len() ==> (#[trigger] self.albums@[a]).tracks@.len() > 0
        &&& forall|i: int|
            0 <= i < self.tracks@.len() ==> entries_contain(
                self.albums@,
                (#[trigger] self.tracks@[i]).album@,
            )
    }

    /// The artist list and album index agree with the tracks.
    pub open spec fn well_formed(&self) -> bool {
        self.artists_indexed() && self.albums_indexed()
    }
}

impl Default for Library {
    fn default() -> (lib: Library)
        ensures
            lib.tracks@.len() == 0,
            lib.artists@.len() == 0,
            lib.albums@.len() == 0,
    {
        Library { tracks: Vec::new(), artists: Vec::new(), albums: Vec::new() }
    }
}

/// Indices of the tracks whose album is `album`, in increasing order.
fn indices_with_album(tracks: &Vec<Track>, album: &String) -> (r: Vec<usize>)
    ensures
        lists_album(r@, tracks@, album@),
{
    let mut r: Vec<usize> = Vec::new();
    let mut i: usize = 0;
    while i < tracks.len()
        invariant
            i <= tracks.len(),
            forall|k: int| 0 <= k < r.len() ==> (#[trigger] r@[k]) < i && tracks@[r@[k] as int].album@ == album@,
            forall|j: int| 0 <= j < i && (#[trigger] tracks@[j]).album@ == album@ ==> r@.contains(j as usize),
            forall|a: int, b: int| 0 <= a < b < r.len() ==> r@[a] < r@[b],
        decreases tracks.len() - i,
    {
        if tracks[i].album == *album {
            let ghost old_r = r@;
            r.push(i);
            proof {
                assert forall|j: int| 0 <= j < i + 1 && (#[trigger] tracks@[j]).album@ == album@ implies r@.contains(j as usize) by {
                    if j < i {
                        assert(old_r.contains(j as usize));
                        let w = choose|w: int| 0 <= w < old_r.len() && old_r[w] == j as usize;
                        assert(r@[w] == j as usize);
                    } else {
                        assert(r@[r.len() - 1] == i);
                    }
                }
            }
        }
        i += 1;
    }
    r
}

/// Some entry of `albums` has the name `album`.
fn has_album(albums: &Vec<AlbumEntry>, album: &String) -> (r: bool)
    ensures
        r == exists|a: int| 0 <= a < albums@.len() && #[trigger] albums@[a].album@ == album@,
{
    let mut a: usize = 0;
    while a < albums.len()
        invariant
            a <= albums.len(),
            forall|k: int| 0 <= k < a ==> #[trigger] albums@[k].album@ != album@,
        decreases albums.len() - a,
    {
        if albums[a].album == *album {
            return true;
        }
        a += 1;
    }
    false
}

/// Each artist of the sorted tracks once, in sort order.
fn build_artists(v: &Vec<Track>) -> (artists: Vec<String>)
    requires
        sorted_by_key(v@),
    ensures
        forall|a: int, b: int|
            0 <= a < b < artists@.len() ==> chars_less(
                #[trigger] artists@[a]@,
                #[trigger] artists@[b]@,
            ),
        forall|a: int|
            0 <= a < artists@.len() ==> artist_among(v@, v@.len() as int, (#[trigger] artists@[a])@),
        forall|j: int| 0 <= j < v@.len() ==> names_contain(artists@, (#[trigger] v@[j]).artist@),
{
    let n = v.len();
    let mut artists: Vec<String> = Vec::new();
    let mut i: usize = 0;
    while i < n
        invariant
            n == v@.len(),
            i <= n,
            sorted_by_key(v@),
            forall|a: int, b: int|
                0 <= a < b < artists@.len() ==> chars_less(
                    #[trigger] artists@[a]@,
                    #[trigger] artists@[b]@,
                ),
            forall|a: int|
                0 <= a < artists@.len() ==> artist_among(v@, i as int, (#[trigger] artists@[a])@),
            forall|j: int| 0 <= j < i ==> names_contain(artists@, (#[trigger] v@[j]).artist@),
            i > 0 ==> artists@.len() > 0 && artists@.last()@ == v@[i - 1].artist@,
        decreases n - i,
    {
        let ghost old_artists = artists@;
        if artists.len() == 0 || artists[artists.len() - 1] != v[i].artist {
            proof {
                if i > 0 {
                    let p = (i - 1) as int;
                    assert(track_less(v@[p], v@[i as int]) || track_key(v@[p]) == track_key(
                        v@[i as int],
                    ));
                    let last = old_artists.len() - 1;
                    assert(chars_less(old_artists[last]@, v@[i as int].artist@));
                    assert forall|a: int| 0 <= a < last implies chars_less(
                        old_artists[a]@,
                        v@[i as int].artist@,
                    ) by {
                        lemma_chars_less_transitive(
                            old_artists[a]@,
                            old_artists[last]@,
                            v@[i as int].artist@,
                        );
                    }
                }
            }
            artists.push(v[i].artist.clone());
        }
        proof {
            assert forall|a: int| 0 <= a < artists@.len() implies artist_among(
                v@,
                i + 1,
                (#[trigger] artists@[a])@,
            ) by {
                if a < old_artists.len() {
                    assert(artists@[a] == old_artists[a]);
                    assert(artist_among(v@, i as int, old_artists[a]@));
                    let j = choose|j: int|
                        0 <= j < i && j < v@.len() && (#[trigger] v@[j]).artist@ == old_artists[a]@;
                    assert(v@[j].artist@ == artists@[a]@);
                } else {
                    assert(v@[i as int].artist@ == artists@[a]@);
                }
            }
            assert forall|j: int| 0 <= j < i + 1 implies names_contain(
                artists@,
                (#[trigger] v@[j]).artist@,
            ) by {
                if j < i {
                    assert(names_contain(old_artists, v@[j].artist@));
                    let a = choose|a: int|
                        0 <= a < old_artists.len() && (#[trigger] old_artists[a])@ == v@[j].artist@;
                    assert(artists@[a] == old_artists[a]);
                } else {
                    assert(artists@[artists@.len() - 1]@ == v@[j].artist@);
                }
            }
        }
        i += 1;
    }
    artists
}

/// One entry per album of the tracks, in order of first appearance, each
/// listing all of the album's track indices.
fn build_albums(v: &Vec<Track>) -> (albums: Vec<AlbumEntry>)
    ensures
        forall|a: int, b: int|
            0 <= a < b < albums@.len() ==> #[trigger] albums@[a].album@
                != #[trigger] albums@[b].album@,
        forall|a: int|
            0 <= a < albums@.len() ==> lists_album(
                (#[trigger] albums@[a]).tracks@,
                v@,
                albums@[a].album@,
            ),
        forall|a: int| 0 <= a < albums@.len() ==> (#[trigger] albums@[a]).tracks@.len() > 0,
        forall|j: int| 0 <= j < v@.len() ==> entries_contain(albums@, (#[trigger] v@[j]).album@),
{
    let n = v.len();
    let mut albums: Vec<AlbumEntry> = Vec::new();
    let mut i: usize = 0;
    while i < n
        invariant
            n == v@.len(),
            i <= n,
            forall|a: int, b: int|
                0 <= a < b < albums@.len() ==> #[trigger] albums@[a].album@
                    != #[trigger] albums@[b].album@,
            forall|a: int|
                0 <= a < albums@.len() ==> lists_album(
                    (#[trigger] albums@[a]).tracks@,
                    v@,
                    albums@[a].album@,
                ),
            forall|a: int| 0 <= a < albums@.len() ==> (#[trigger] albums@[a]).tracks@.len() > 0,
            forall|j: int| 0 <= j < i ==> entries_contain(albums@, (#[trigger] v@[j]).album@),
        decreases n - i,
    {
        let ghost old_albums = albums@;
        let found = has_album(&albums, &v[i].album);
        if !found {
            let list = indices_with_album(v, &v[i].album);
            assert(list@.contains(i));
            albums.push(AlbumEntry { album: v[i].album.clone(), tracks: list });
            proof {
                assert forall|a: int| 0 <= a < albums@.len() implies lists_album(
                    (#[trigger] albums@[a]).tracks@,
                    v@,
                    albums@[a].album@,
                ) && albums@[a].tracks@.len() > 0 by {
                    if a < old_albums.len() {
                        assert(albums@[a] == old_albums[a]);
                    }
                }
                assert forall|a: int, b: int|
                    0 <= a < b < albums@.len() implies #[trigger] albums@[a].album@
                    != #[trigger] albums@[b].album@ by {
                    assert(albums@[a] == old_albums[a]);
                    if b < old_albums.len() {
                        assert(albums@[b] == old_albums[b]);
                    }
                }
            }
        }
        proof {
            assert forall|j: int| 0 <= j < i + 1 implies entries_contain(
                albums@,
                (#[trigger] v@[j]).album@,
            ) by {
                if j < i {
                    assert(entries_contain(old_albums, v@[j].album@));
                    let a = choose|a: int|
                        0 <= a < old_albums.len() && (#[trigger] old_albums[a]).album@ == v@[j].album@;
                    assert(albums@[a] == old_albums[a]);
                } else if !found {
                    assert(albums@[albums@.len() - 1].album@ == v@[j].album@);
                } else {
                    let a = choose|a: int|
                        0 <= a < old_albums.len() && #[trigger] old_albums[a].album@ == v@[i as int].album@;
                    assert(albums@[a].album@ == v@[j].album@);
                }
            }
        }
        i += 1;
    }
    albums
}

impl Library {
    /// Builds the library from the tracks read from disk: the tracks are
    /// sorted by artist, album, track number and title (equal keys keep their
    /// order), and the artist list and album index are built from them.
    pub fn from_tracks(tracks: Vec<Track>) -> (lib: Library)
        ensures
            exists|perm: Seq<int>| is_stable_sort(tracks@, lib.tracks@, perm),
            lib.well_formed(),
    {
        let v = sort_tracks(tracks);
        let ghost perm = choose|perm: Seq<int>| is_stable_sort(tracks@, v@, perm);
        assert(sorted_by_key(v@)) by {
            assert forall|j: int, k: int|
                0 <= j < k < v@.len() implies track_less(#[trigger] v@[j], #[trigger] v@[k])
                || track_key(v@[j]) == track_key(v@[k]) by {
                assert(is_stable_sort(tracks@, v@, perm));
            }
        }
        let artists = build_artists(&v);
        let albums = build_albums(&v);
        let lib = Library { tracks: v, artists, albums };
        assert(is_stable_sort(tracks@, lib.tracks@, perm));
        lib
    }
}

/// Indices of the tracks whose artist is `artist`, in increasing order.
fn indices_with_artist(tracks: &Vec<Track>, artist: &str) -> (r: Vec<usize>)
    ensures
        lists_artist(r@, tracks@, artist@),
{
    let mut r: Vec<usize> = Vec::new();
    let mut i: usize = 0;
    while i < tracks.len()
        invariant
            i <= tracks.len(),
            forall|k: int| 0 <= k < r.len() ==> (#[trigger] r@[k]) < i && tracks@[r@[k] as int].artist@ == artist@,
            forall|j: int| 0 <= j < i && (#[trigger] tracks@[j]).artist@ == artist@ ==> r@.contains(j as usize),
            forall|a: int, b: int| 0 <= a < b < r.len() ==> r@[a] < r@[b],
        decreases tracks.len() - i,
    {
        if same_text(tracks[i].artist.as_str(), artist) {
            let ghost old_r = r@;
            r.push(i);
            proof {
                assert forall|j: int| 0 <= j < i + 1 && (#[trigger] tracks@[j]).artist@ == artist@ implies r@.contains(j as usize) by {
                    if j < i {
                        assert(old_r.contains(j as usize));
                        let w = choose|w: int| 0 <= w < old_r.len() && old_r[w] == j as usize;
                        assert(r@[w] == j as usize);
                    } else {
                        assert(r@[r.len() - 1] == i);
                    }
                }
            }
        }
        i += 1;
    }
    r
}

/// Some track by `artist` is on album `album`.
pub open spec fn artist_has_album(tracks: Seq<Track>, artist: Seq<char>, album: Seq<char>) -> bool {
    exists|i: int| 0 <= i < tracks.len() && (#[trigger] tracks[i]).artist@ == artist && tracks[i].album@ == album
}

impl Library {
    /// Indices of the tracks by `artist`, in library order.
    pub fn tracks_for_artist(&self, artist: &str) -> (r: Vec<usize>)
        ensures
            lists_artist(r@, self.tracks@, artist@),
    {
        indices_with_artist(&self.tracks, artist)
    }

    /// The albums on which `artist` appears, each once, in sort order.
    pub fn albums_for_artist(&self, artist: &str) -> (r: Vec<String>)
        ensures
            forall|a: int, b: int|
                0 <= a < b < r@.len() ==> chars_less(#[trigger] r@[a]@, #[trigger] r@[b]@),
            forall|a: int|
                0 <= a < r@.len() ==> artist_has_album(self.tracks@, artist@, (#[trigger] r@[a])@),
            forall|i: int|
                0 <= i < self.tracks@.len() && (#[trigger] self.tracks@[i]).artist@ == artist@
                    ==> names_contain(r@, self.tracks@[i].album@),
    {
        let tracks = &self.tracks;
        let mut names: Vec<String> = Vec::new();
        let mut keys: Vec<Vec<char>> = Vec::new();
        let mut i: usize = 0;
        while i < tracks.len()
            invariant
                i <= tracks@.len(),
                tracks == &self.tracks,
                names.len() == keys.len(),
                forall|a: int| 0 <= a < keys.len() ==> (#[trigger] keys@[a])@ == names@[a]@,
                forall|a: int, b: int|
                    0 <= a < b < names@.len() ==> chars_less(#[trigger] names@[a]@, #[trigger] names@[b]@),
                forall|a: int|
                    0 <= a < names@.len() ==> artist_has_album(tracks@, artist@, (#[trigger] names@[a])@),
                forall|j: int|
                    0 <= j < i && (#[trigger] tracks@[j]).artist@ == artist@ ==> names_contain(
                        names@,
                        tracks@[j].album@,
                    ),
            decreases tracks.len() - i,
        {
            if same_text(tracks[i].artist.as_str(), artist) {
                let key = chars_of(tracks[i].album.as_str());
                let mut pos: usize = 0;
                while pos < keys.len() && compare_chars(&keys[pos], &key) < 0
                    invariant
                        pos <= keys.len(),
                        names.len() == keys.len(),
                        forall|a: int| 0 <= a < keys.len() ==> (#[trigger] keys@[a])@ == names@[a]@,
                        forall|a: int| 0 <= a < pos ==> chars_less((#[trigger] keys@[a])@, key@),
                    decreases keys.len() - pos,
                {
                    pos += 1;
                }
                let c: i8 = if pos < keys.len() {
                    compare_chars(&keys[pos], &key)
                } else {
                    1
                };
                let ghost old_names = names@;
                let ghost old_keys = keys@;
                proof {
                    if pos < keys.len() {
                        lemma_chars_less_total(keys@[pos as int]@, key@);
                    }
                }
                if pos < keys.len() && c == 0 {
                    assert(names@[pos as int]@ == tracks@[i as int].album@);
                } else {
                    proof {
                        if pos < keys.len() {
                            assert(chars_less(key@, names@[pos as int]@));
                        }
                        assert forall|a: int| pos < a < old_names.len() implies chars_less(
                            key@,
                            old_names[a]@,
                        ) by {
                            lemma_chars_less_transitive(key@, old_names[pos as int]@, old_names[a]@);
                        }
                    }
                    names.insert(pos, tracks[i].album.clone());
                    keys.insert(pos, key);
                    proof {
                        assert forall|a: int, b: int|
                            0 <= a < b < names@.len() implies chars_less(
                            #[trigger] names@[a]@,
                            #[trigger] names@[b]@,
                        ) by {
                            if b < pos {
                                assert(names@[a] == old_names[a] && names@[b] == old_names[b]);
                            } else if b == pos {
                                assert(names@[a] == old_names[a]);
                                assert(chars_less(old_keys[a]@, key@));
                            } else if a == pos {
                                assert(names@[b] == old_names[b - 1]);
                            } else if a < pos {
                                assert(names@[a] == old_names[a] && names@[b] == old_names[b - 1]);
                            } else {
                                assert(names@[a] == old_names[a - 1] && names@[b] == old_names[b - 1]);
                            }
                        }
                        assert forall|a: int| 0 <= a < keys.len() implies (#[trigger] keys@[a])@ == names@[a]@ by {
                            if a < pos {
                            } else if a == pos {
                            } else {
                                assert(names@[a] == old_names[a - 1]);
                            }
                        }
                        assert forall|a: int| 0 <= a < names@.len() implies artist_has_album(
                            tracks@,
                            artist@,
                            (#[trigger] names@[a])@,
                        ) by {
                            if a < pos {
                                assert(names@[a] == old_names[a]);
                            } else if a == pos {
                                assert(tracks@[i as int].artist@ == artist@);
                            } else {
                                assert(names@[a] == old_names[a - 1]);
                            }
                        }
                        assert forall|j: int|
                            0 <= j < i && (#[trigger] tracks@[j]).artist@ == artist@ implies names_contain(
                            names@,
                            tracks@[j].album@,
                        ) by {
                            assert(names_contain(old_names, tracks@[j].album@));
                            let a = choose|a: int|
                                0 <= a < old_names.len() && (#[trigger] old_names[a])@ == tracks@[j].album@;
                            if a < pos {
                                assert(names@[a] == old_names[a]);
                            } else {
                                assert(names@[a + 1] == old_names[a]);
                            }
                        }
                    }
                }
                assert(names@[pos as int]@ == tracks@[i as int].album@);
            }
            i += 1;
        }
        names
    }

    /// Sum of the track durations, in seconds. The sum must fit in a `u64`.
    pub fn total_duration_secs(&self) -> (r: u64)
        requires
            total_duration(self.tracks@) <= u64::MAX,
        ensures
            r == total_duration(self.tracks@),
    {
        let mut sum: u64 = 0;
        let mut i: usize = 0;
        while i < self.tracks.len()
            invariant
                i <= self.tracks@.len(),
                total_duration(self.tracks@) <= u64::MAX,
                sum == total_duration(self.tracks@.take(i as int)),
            decreases self.tracks.len() - i,
        {
            proof {
                lemma_total_duration_prefix(self.tracks@, i as int + 1);
                assert(self.tracks@.take(i + 1).drop_last() =~= self.tracks@.take(i as int));
            }
            sum = sum + self.tracks[i].duration_secs;
            i += 1;
        }
        assert(self.tracks@.take(i as int) =~= self.tracks@);
        sum
    }
}

/// A prefix's duration is at most the whole.
proof fn lemma_total_duration_prefix(tracks: Seq<Track>, i: int)
    requires
        0 <= i <= tracks.len(),
    ensures
        total_duration(tracks.take(i)) <= total_duration(tracks),
    decreases tracks.len(),
{
    if i < tracks.len() {
        assert(tracks.drop_last().take(i) =~= tracks.take(i));
        lemma_total_duration_prefix(tracks.drop_last(), i);
    } else {
        assert(tracks.take(i) =~= tracks);
    }
}

/// The indices stably sorted by the track number of the track each names.
fn sort_by_number(tracks: &Vec<Track>, inp: Vec<usize>) -> (r: Vec<usize>)
    requires
        forall|k: int| 0 <= k < inp@.len() ==> #[trigger] inp@[k] < tracks@.len(),
    ensures
        exists|perm: Seq<int>| is_number_sort(tracks@, inp@, r@, perm),
{
    let ghost orig = inp@;
    let n = inp.len();
    let mut v = inp;
    let ghost mut perm: Seq<int> = Seq::new(n as nat, |m: int| m);
    let mut i: usize = 0;
    while i < n
        invariant
            n == orig.len(),
            i <= n,
            v.len() == n,
            perm.len() == n,
            forall|m: int| 0 <= m < n ==> 0 <= #[trigger] perm[m] < n && v@[m] == orig[perm[m]],
            forall|m: int| 0 <= m < n ==> #[trigger] v@[m] < tracks@.len(),
            forall|m: int| i <= m < n ==> #[trigger] perm[m] == m,
            forall|m: int| 0 <= m < i ==> #[trigger] perm[m] < i,
            forall|a: int, b: int| 0 <= a < b < n ==> #[trigger] perm[a] != #[trigger] perm[b],
            forall|a: int, b: int|
                0 <= a < b < i ==> ({
                    let na = tracks@[#[trigger] v@[a] as int].track_number;
                    let nb = tracks@[#[trigger] v@[b] as int].track_number;
                    na < nb || (na == nb && perm[a] < perm[b])
                }),
        decreases n - i,
    {
        let ghost v0 = v@;
        let ghost p0 = perm;
        let t = v.remove(i);
        let key = tracks[t].track_number;
        let mut pos: usize = i;
        while pos > 0 && tracks[v[pos - 1]].track_number > key
            invariant
                pos <= i,
                i < n,
                v.len() == n - 1,
                key == tracks@[t as int].track_number,
                forall|m: int| 0 <= m < n - 1 ==> #[trigger] v@[m] < tracks@.len(),
                forall|m: int| pos <= m < i ==> tracks@[#[trigger] v@[m] as int].track_number > key,
            decreases pos,
        {
            pos -= 1;
        }
        proof {
            assert(t == v0[i as int]);
            assert forall|m: int| 0 <= m < i implies #[trigger] v@[m] == v0[m] by {}
        }
        v.insert(pos, t);
        proof {
            let np = p0.subrange(0, pos as int).push(i as int) + p0.subrange(pos as int, i as int)
                + p0.subrange(i + 1, n as int);
            assert(np.len() == n);
            assert forall|m: int| 0 <= m < n implies 0 <= #[trigger] np[m] < n && v@[m] == orig[np[m]] by {
                if m < pos {
                    assert(np[m] == p0[m]);
                } else if m == pos {
                    assert(np[m] == i);
                } else if m <= i {
                    assert(np[m] == p0[m - 1]);
                } else {
                    assert(np[m] == p0[m]);
                }
            }
            assert forall|m: int| 0 <= m < n implies #[trigger] v@[m] < tracks@.len() by {
                if m < pos {
                } else if m == pos {
                } else if m <= i {
                    assert(v@[m] == v0[m - 1]);
                } else {
                    assert(v@[m] == v0[m]);
                }
            }
            assert forall|m: int| i + 1 <= m < n implies #[trigger] np[m] == m by {
                assert(np[m] == p0[m]);
            }
            assert forall|m: int| 0 <= m < i + 1 implies #[trigger] np[m] < i + 1 by {
                if m < pos {
                    assert(np[m] == p0[m]);
                } else if m == pos {
                } else {
                    assert(np[m] == p0[m - 1]);
                }
            }
            assert forall|a: int, b: int| 0 <= a < b < n implies #[trigger] np[a] != #[trigger] np[b] by {
                let oa = if a < pos { a } else if a == pos { i as int } else if a <= i { a - 1 } else { a };
                let ob = if b < pos { b } else if b == pos { i as int } else if b <= i { b - 1 } else { b };
                assert(np[a] == p0[oa]);
                assert(np[b] == p0[ob]);
                assert(oa != ob);
            }
            assert forall|a: int, b: int| 0 <= a < b < i + 1 implies ({
                let na = tracks@[#[trigger] v@[a] as int].track_number;
                let nb = tracks@[#[trigger] v@[b] as int].track_number;
                na < nb || (na == nb && np[a] < np[b])
            }) by {
                let oa = if a < pos { a } else if a == pos { i as int } else { a - 1 };
                let ob = if b < pos { b } else if b == pos { i as int } else { b - 1 };
                assert(np[a] == p0[oa]);
                assert(np[b] == p0[ob]);
                if b == pos {
                    let last = pos - 1;
                    assert(tracks@[v0[last] as int].track_number <= key);
                    assert(p0[a] < i);
                } else if a == pos {
                    assert(tracks@[v0[ob] as int].track_number > key);
                } else {
                    assert(v@[a] == v0[oa]);
                    assert(v@[b] == v0[ob]);
                }
            }
            perm = np;
        }
        i += 1;
    }
    assert(is_number_sort(tracks@, orig, v@, perm));
    v
}

impl Library {
    /// Indices of the tracks of `album`, by track number; tracks with equal
    /// numbers keep the order in which the album index lists them. Every
    /// index listed for the album must name a track.
    pub fn tracks_for_album(&self, album: &str) -> (r: Vec<usize>)
        requires
            forall|k: int|
                0 <= k < album_lookup(self.albums@, album@).len() ==> #[trigger] album_lookup(
                    self.albums@,
                    album@,
                )[k] < self.tracks@.len(),
        ensures
            exists|perm: Seq<int>| is_number_sort(
                self.tracks@,
                album_lookup(self.albums@, album@),
                r@,
                perm,
            ),
    {
        let mut a: usize = 0;
        assert(self.albums@.skip(0) =~= self.albums@);
        while a < self.albums.len()
            invariant
                a <= self.albums@.len(),
                album_lookup(self.albums@, album@) == album_lookup(self.albums@.skip(a as int), album@),
                forall|k: int|
                    0 <= k < album_lookup(self.albums@, album@).len() ==> #[trigger] album_lookup(
                        self.albums@,
                        album@,
                    )[k] < self.tracks@.len(),
            decreases self.albums.len() - a,
        {
            if same_text(self.albums[a].album.as_str(), album) {
                let list = &self.albums[a].tracks;
                let mut found: Vec<usize> = Vec::new();
                let mut k: usize = 0;
                assert(list@.take(0) =~= Seq::<usize>::empty());
                while k < list.len()
                    invariant
                        k <= list@.len(),
                        found@ == list@.take(k as int),
                    decreases list.len() - k,
                {
                    found.push(list[k]);
                    proof {
                        assert(list@.take(k + 1) =~= list@.take(k as int).push(list@[k as int]));
                    }
                    k += 1;
                }
                proof {
                    assert(list@.take(list@.len() as int) =~= list@);
                    assert(found@ == list@);
                    assert(self.albums@.skip(a as int)[0] == self.albums@[a as int]);
                    assert(album_lookup(self.albums@, album@) == self.albums@[a as int].tracks@);
                    assert forall|m: int| 0 <= m < found@.len() implies #[trigger] found@[m] < self.tracks@.len() by {
                        assert(found@[m] == album_lookup(self.albums@, album@)[m]);
                    }
                }
                return sort_by_number(&self.tracks, found);
            }
            proof {
                assert(self.albums@.skip(a as int).drop_first() =~= self.albums@.skip(a + 1));
            }
            a += 1;
        }
        let found: Vec<usize> = Vec::new();
        proof {
            assert(self.albums@.skip(a as int).len() == 0);
            assert(album_lookup(self.albums@, album@) =~= found@);
        }
        assert(is_number_sort(self.tracks@, found@, found@, Seq::<int>::empty()));
        found
    }
}

/// The display name of the container for a lower-case file extension, "?"
/// for one that is not an audio extension.
pub open spec fn format_name(ext: Seq<char>) -> Seq<char> {
    if ext == seq!['m', 'p', '3'] {
        seq!['M', 'P', '3']
    } else if ext == seq!['f', 'l', 'a', 'c'] {
        seq!['F', 'L', 'A', 'C']
    } else if ext == seq!['o', 'g', 'g'] {
        seq!['O', 'G', 'G']
    } else if ext == seq!['o', 'p', 'u', 's'] {
        seq!['O', 'P', 'U', 'S']
    } else if ext == seq!['m', '4', 'a'] {
        seq!['M', '4', 'A']
    } else if ext == seq!['w', 'a', 'v'] {
        seq!['W', 'A', 'V']
    } else if ext == seq!['a', 'a', 'c'] {
        seq!['A', 'A', 'C']
    } else if ext == seq!['a', 'i', 'f', 'f'] || ext == seq!['a', 'i', 'f'] {
        seq!['A', 'I', 'F', 'F']
    } else {
        seq!['?']
    }
}

/// The extension, in lower case, is one the library scans: mp3, flac, ogg,
/// opus, m4a, wav, aac, aiff or aif.
pub open spec fn is_audio_ext(ext: Seq<char>) -> bool {
    format_name(ext) != seq!['?']
}

/// The library scans exactly the files with extension mp3, flac, ogg,
/// opus, m4a, wav, aac, aiff or aif, and names each format by its extension
/// in capitals, aif as AIFF.
pub proof fn law_audio_extensions(ext: Seq<char>)
    ensures
        is_audio_ext(ext) <==> (ext == seq!['m', 'p', '3'] || ext == seq!['f', 'l', 'a', 'c'] || ext
            == seq!['o', 'g', 'g'] || ext == seq!['o', 'p', 'u', 's'] || ext == seq!['m', '4', 'a']
            || ext == seq!['w', 'a', 'v'] || ext == seq!['a', 'a', 'c'] || ext == seq![
            'a',
            'i',
            'f',
            'f',
        ] || ext == seq!['a', 'i', 'f']),
        ext == seq!['m', 'p', '3'] ==> format_name(ext) == seq!['M', 'P', '3'],
        ext == seq!['f', 'l', 'a', 'c'] ==> format_name(ext) == seq!['F', 'L', 'A', 'C'],
        ext == seq!['o', 'g', 'g'] ==> format_name(ext) == seq!['O', 'G', 'G'],
        ext == seq!['o', 'p', 'u', 's'] ==> format_name(ext) == seq!['O', 'P', 'U', 'S'],
        ext == seq!['m', '4', 'a'] ==> format_name(ext) == seq!['M', '4', 'A'],
        ext == seq!['w', 'a', 'v'] ==> format_name(ext) == seq!['W', 'A', 'V'],
        ext == seq!['a', 'a', 'c'] ==> format_name(ext) == seq!['A', 'A', 'C'],
        ext == seq!['a', 'i', 'f', 'f'] ==> format_name(ext) == seq!['A', 'I', 'F', 'F'],
        ext == seq!['a', 'i', 'f'] ==> format_name(ext) == seq!['A', 'I', 'F', 'F'],
{
}

/// The title a track gets: its tag's title when the tag has one; otherwise
/// the file name without its extension, when there is one; otherwise
/// "Unknown". A file without tags is named after its file.
pub proof fn law_title_defaults(tag: Option<TagInfo>, stem: Option<String>)
    ensures
        tag is Some && tag->0.title is Some ==> title_for(tag, stem) == tag->0.title->0@,
        (match tag {
            Some(t) => t.title is None,
            None => true,
        }) && stem is Some ==> title_for(tag, stem) == stem->0@,
        (match tag {
            Some(t) => t.title is None,
            None => true,
        }) && stem is None ==> title_for(tag, stem) == seq!['U', 'n', 'k', 'n', 'o', 'w', 'n'],
{
}

/// In a well-formed library an artist whose name starts another artist's
/// name is listed before it.
pub proof fn law_artist_prefix_first(lib: Library, i: int, j: int, rest: Seq<char>)
    requires
        lib.well_formed(),
        0 <= i < lib.artists@.len(),
        0 <= j < lib.artists@.len(),
        rest.len() > 0,
        lib.artists@[j]@ == lib.artists@[i]@ + rest,
    ensures
        i < j,
{
    crate::text::law_prefix_sorts_first(lib.artists@[i]@, rest);
    if j < i {
        assert(chars_less(lib.artists@[j]@, lib.artists@[i]@));
    } else if j == i {
        assert((lib.artists@[i]@ + rest).len() > lib.artists@[i]@.len());
    }
}

/// The display name of the container for a lower-case file extension.
pub fn format_from_ext(ext: &str) -> (r: &'static str)
    ensures
        r@ == format_name(ext@),
{
    proof {
        reveal_strlit("mp3");
        assert("mp3"@ =~= seq!['m', 'p', '3']);
        reveal_strlit("flac");
        assert("flac"@ =~= seq!['f', 'l', 'a', 'c']);
        reveal_strlit("ogg");
        assert("ogg"@ =~= seq!['o', 'g', 'g']);
        reveal_strlit("opus");
        assert("opus"@ =~= seq!['o', 'p', 'u', 's']);
        reveal_strlit("m4a");
        assert("m4a"@ =~= seq!['m', '4', 'a']);
        reveal_strlit("wav");
        assert("wav"@ =~= seq!['w', 'a', 'v']);
        reveal_strlit("aac");
        assert("aac"@ =~= seq!['a', 'a', 'c']);
        reveal_strlit("aiff");
        assert("aiff"@ =~= seq!['a', 'i', 'f', 'f']);
        reveal_strlit("aif");
        assert("aif"@ =~= seq!['a', 'i', 'f']);
        reveal_strlit("MP3");
        assert("MP3"@ =~= seq!['M', 'P', '3']);
        reveal_strlit("FLAC");
        assert("FLAC"@ =~= seq!['F', 'L', 'A', 'C']);
        reveal_strlit("OGG");
        assert("OGG"@ =~= seq!['O', 'G', 'G']);
        reveal_strlit("OPUS");
        assert("OPUS"@ =~= seq!['O', 'P', 'U', 'S']);
        reveal_strlit("M4A");
        assert("M4A"@ =~= seq!['M', '4', 'A']);
        reveal_strlit("WAV");
        assert("WAV"@ =~= seq!['W', 'A', 'V']);
        reveal_strlit("AAC");
        assert("AAC"@ =~= seq!['A', 'A', 'C']);
        reveal_strlit("AIFF");
        assert("AIFF"@ =~= seq!['A', 'I', 'F', 'F']);
        reveal_strlit("?");
        assert("?"@ =~= seq!['?']);
    }
    if same_text(ext, "mp3") {
        "MP3"
    } else if same_text(ext, "flac") {
        "FLAC"
    } else if same_text(ext, "ogg") {
        "OGG"
    } else if same_text(ext, "opus") {
        "OPUS"
    } else if same_text(ext, "m4a") {
        "M4A"
    } else if same_text(ext, "wav") {
        "WAV"
    } else if same_text(ext, "aac") {
        "AAC"
    } else if same_text(ext, "aiff") || same_text(ext, "aif") {
        "AIFF"
    } else {
        "?"
    }
}

/// For a file extension as found on disk: its lower-case form when the
/// library scans files with it, `None` otherwise.
pub fn audio_extension(ext: &str) -> (r: Option<String>)
    ensures
        match r {
            Some(e) => e@ == lower_chars(ext@) && is_audio_ext(e@),
            None => !is_audio_ext(lower_chars(ext@)),
        },
{
    let lowered = lower_string(ext);
    let f = format_from_ext(lowered.as_str());
    proof {
        reveal_strlit("?");
        assert("?"@ =~= seq!['?']);
    }
    if same_text(f, "?") {
        None
    } else {
        Some(lowered)
    }
}

/// What the tags of a file hold, as far as the library uses it.
#[derive(Debug, Clone)]
pub struct TagInfo {
    pub title: Option<String>,
    pub artist: Option<String>,
    pub album: Option<String>,
    pub track: Option<u32>,
    /// Encoded bytes of the first embedded picture.
    pub picture: Option<Vec<u8>>,
}

/// The text of `s`, or `default` when there is none.
pub open spec fn text_or(s: Option<String>, default: Seq<char>) -> Seq<char> {
    match s {
        Some(t) => t@,
        None => default,
    }
}

/// The title a track gets: its tag's title, else the file name without its
/// extension, else "Unknown".
pub open spec fn title_for(tag: Option<TagInfo>, stem: Option<String>) -> Seq<char> {
    match tag {
        Some(t) if t.title is Some => t.title->0@,
        _ => text_or(stem, seq!['U', 'n', 'k', 'n', 'o', 'w', 'n']),
    }
}

/// The artist a track gets: its tag's artist, else "Unknown Artist".
pub open spec fn artist_for(tag: Option<TagInfo>) -> Seq<char> {
    match tag {
        Some(t) if t.artist is Some => t.artist->0@,
        _ => "Unknown Artist"@,
    }
}

/// The album a track gets: its tag's album, else "Unknown Album".
pub open spec fn album_for(tag: Option<TagInfo>) -> Seq<char> {
    match tag {
        Some(t) if t.album is Some => t.album->0@,
        _ => "Unknown Album"@,
    }
}

fn or_text(s: Option<String>, default: &str) -> (r: String)
    ensures
        r@ == text_or(s, default@),
{
    match s {
        Some(t) => t,
        None => default.to_owned(),
    }
}

impl Track {
    /// Builds a track from what was read of a file: its path, its name without
    /// the extension (when that is valid text), its lower-case extension, size,
    /// duration, bitrate and tags. Missing tag values get defaults.
    pub fn from_metadata(
        path: String,
        file_stem: Option<String>,
        ext: &str,
        file_size: u64,
        duration_secs: u64,
        bitrate: Option<u32>,
        tag: Option<TagInfo>,
    ) -> (t: Track)
        ensures
            t.path == path,
            t.title@ == title_for(tag, file_stem),
            t.artist@ == artist_for(tag),
            t.album@ == album_for(tag),
            t.track_number == (match tag {
                Some(info) => info.track.unwrap_or(0),
                None => 0,
            }),
            t.duration_secs == duration_secs,
            t.format@ == format_name(ext@),
            t.bitrate == bitrate,
            t.file_size == file_size,
            t.album_art == (match tag {
                Some(info) => info.picture,
                None => None,
            }),
    {
        proof {
            reveal_strlit("Unknown");
        }
        let format = format_from_ext(ext).to_owned();
        let ghost tag0 = tag;
        let ghost stem0 = file_stem;
        match tag {
            Some(info) => {
                let title = match info.title {
                    Some(t) => t,
                    None => or_text(file_stem, "Unknown"),
                };
                let artist = or_text(info.artist, "Unknown Artist");
                let album = or_text(info.album, "Unknown Album");
                let track_number = match info.track {
                    Some(n) => n,
                    None => 0,
                };
                Track {
                    path,
                    title,
                    artist,
                    album,
                    track_number,
                    duration_secs,
                    format,
                    bitrate,
                    file_size,
                    album_art: info.picture,
                }
            },
            None => Track {
                path,
                title: or_text(file_stem, "Unknown"),
                artist: "Unknown Artist".to_owned(),
                album: "Unknown Album".to_owned(),
                track_number: 0,
                duration_secs,
                format,
                bitrate,
                file_size,
                album_art: None,
            },
        }
    }
}

/// In a well-formed library every index stored in the album index names a
/// track, so `tracks_for_album` may be asked for any album name.
pub proof fn lemma_album_indices_in_range(lib: Library, name: Seq<char>)
    requires
        lib.well_formed(),
    ensures
        forall|a: int, k: int|
            0 <= a < lib.albums@.len() && 0 <= k < lib.albums@[a].tracks@.len()
                ==> #[trigger] lib.albums@[a].tracks@[k] < lib.tracks@.len(),
        forall|k: int|
            0 <= k < album_lookup(lib.albums@, name).len() ==> #[trigger] album_lookup(
                lib.albums@,
                name,
            )[k] < lib.tracks@.len(),
{
    assert forall|a: int, k: int|
        0 <= a < lib.albums@.len() && 0 <= k < lib.albums@[a].tracks@.len()
            implies #[trigger] lib.albums@[a].tracks@[k] < lib.tracks@.len() by {
        assert(lists_album(lib.albums@[a].tracks@, lib.tracks@, lib.albums@[a].album@));
    }
    lemma_album_lookup(lib.albums@, name);
    if entries_contain(lib.albums@, name) {
        let a = choose|a: int| 0 <= a < lib.albums@.len() && (#[trigger] lib.albums@[a]).album@ == name;
        assert(album_lookup(lib.albums@, name) == lib.albums@[a].tracks@);
    }
}

/// With distinct album names, the lookup finds the entry with that name, or
/// nothing when there is none.
proof fn lemma_album_lookup(albums: Seq<AlbumEntry>, name: Seq<char>)
    requires
        forall|a: int, b: int| 0 <= a < b < albums.len() ==> #[trigger] albums[a].album@ != #[trigger] albums[b].album@,
    ensures
        forall|a: int| 0 <= a < albums.len() && (#[trigger] albums[a]).album@ == name ==> album_lookup(albums, name) == albums[a].tracks@,
        !entries_contain(albums, name) ==> album_lookup(albums, name) == Seq::<usize>::empty(),
    decreases albums.len(),
{
    if albums.len() > 0 {
        let rest = albums.drop_first();
        assert forall|a: int, b: int| 0 <= a < b < rest.len() implies #[trigger] rest[a].album@ != #[trigger] rest[b].album@ by {
            assert(rest[a] == albums[a + 1] && rest[b] == albums[b + 1]);
        }
        lemma_album_lookup(rest, name);
        assert forall|a: int| 0 <= a < albums.len() && (#[trigger] albums[a]).album@ == name implies album_lookup(albums, name) == albums[a].tracks@ by {
            if a > 0 {
                assert(albums[0].album@ != albums[a].album@);
                assert(rest[a - 1] == albums[a]);
            }
        }
        if !entries_contain(albums, name) {
            assert(albums[0].album@ != name);
            assert forall|a: int| 0 <= a < rest.len() implies (#[trigger] rest[a]).album@ != name by {
                assert(rest[a] == albums[a + 1]);
            }
        }
    }
}

/// `perm` holds `n` distinct values below `n`, so it holds each of them.
proof fn lemma_perm_onto(perm: Seq<int>, n: int, w: int)
    requires
        perm.len() == n,
        forall|j: int| 0 <= j < n ==> 0 <= #[trigger] perm[j] < n,
        forall|a: int, b: int| 0 <= a < b < n ==> #[trigger] perm[a] != #[trigger] perm[b],
        0 <= w < n,
    ensures
        exists|j: int| 0 <= j < perm.len() && perm[j] == w,
{
    broadcast use vstd::seq_lib::seq_to_set_is_finite;
    assert(perm.no_duplicates()) by {
        assert forall|a: int, b: int| 0 <= a < perm.len() && 0 <= b < perm.len() && a != b implies perm[a] != perm[b] by {
            if a < b {
            } else {
                assert(perm[b] != perm[a]);
            }
        }
    }
    perm.unique_seq_to_set();
    let range = vstd::set_lib::set_int_range(0, n);
    vstd::set_lib::lemma_int_range(0, n);
    assert(perm.to_set().subset_of(range));
    vstd::set_lib::lemma_subset_equality(perm.to_set(), range);
    assert(range.contains(w));
    assert(perm.to_set().contains(w));
}

/// In a library built by `from_tracks`, the tracks of an album come back as
/// exactly the tracks whose album it is, by track number and, for equal
/// numbers, in library order.
pub proof fn law_album_tracks_by_number(lib: Library, album: Seq<char>, out: Seq<usize>, perm: Seq<int>)
    requires
        lib.well_formed(),
        is_number_sort(lib.tracks@, album_lookup(lib.albums@, album), out, perm),
    ensures
        forall|k: int| 0 <= k < out.len() ==> (#[trigger] out[k]) < lib.tracks@.len() && lib.tracks@[out[k] as int].album@ == album,
        forall|i: int| 0 <= i < lib.tracks@.len() && (#[trigger] lib.tracks@[i]).album@ == album ==> out.contains(i as usize),
        forall|j: int, k: int|
            0 <= j < k < out.len() ==> ({
                let nj = lib.tracks@[#[trigger] out[j] as int].track_number;
                let nk = lib.tracks@[#[trigger] out[k] as int].track_number;
                nj < nk || (nj == nk && out[j] < out[k])
            }),
{
    let inp = album_lookup(lib.albums@, album);
    lemma_album_lookup(lib.albums@, album);
    if entries_contain(lib.albums@, album) {
        let a = choose|a: int| 0 <= a < lib.albums@.len() && (#[trigger] lib.albums@[a]).album@ == album;
        assert(inp == lib.albums@[a].tracks@);
        assert(lists_album(inp, lib.tracks@, album));
    } else {
        assert forall|i: int| 0 <= i < lib.tracks@.len() implies (#[trigger] lib.tracks@[i]).album@ != album by {
            assert(entries_contain(lib.albums@, lib.tracks@[i].album@));
        }
        assert(lists_album(inp, lib.tracks@, album));
    }
    assert(lists_album(inp, lib.tracks@, album));
    assert forall|k: int| 0 <= k < out.len() implies (#[trigger] out[k]) < lib.tracks@.len() && lib.tracks@[out[k] as int].album@ == album by {
        assert(out[k] == inp[perm[k]]);
    }
    assert forall|i: int| 0 <= i < lib.tracks@.len() && (#[trigger] lib.tracks@[i]).album@ == album implies out.contains(i as usize) by {
        assert(inp.contains(i as usize));
        let w = choose|w: int| 0 <= w < inp.len() && inp[w] == i as usize;
        // the permutation is onto: some position of `out` holds inp[w]
        lemma_perm_onto(perm, inp.len() as int, w);
        let j = choose|j: int| 0 <= j < perm.len() && perm[j] == w;
        assert(out[j] == inp[w]);
    }
    assert forall|j: int, k: int| 0 <= j < k < out.len() implies ({
        let nj = lib.tracks@[#[trigger] out[j] as int].track_number;
        let nk = lib.tracks@[#[trigger] out[k] as int].track_number;
        nj < nk || (nj == nk && out[j] < out[k])
    }) by {
        assert(out[j] == inp[perm[j]] && out[k] == inp[perm[k]]);
    }
}

} // verus!
