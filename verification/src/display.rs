//! Text and layout decisions of the player's screens: shortened labels,
//! counts, keyboard selection and search-highlight segments.

use vstd::prelude::*;
use crate::player::{find_position, position_of};
use crate::text::{chars_of, decimal, push_decimal, push_str, string_from_chars};

verus! {

/// `s` shortened to `max` characters: when longer, its first `max - 1`
/// characters and an ellipsis.
pub open spec fn truncated(s: Seq<char>, max: nat) -> Seq<char> {
    if s.len() <= max {
        s
    } else {
        s.take(if max >= 1 { max - 1 } else { 0 }) + seq!['\u{2026}']
    }
}

/// `s` shortened to `max` characters from the left: when longer, an
/// ellipsis and its last `max - 1` characters.
pub open spec fn truncated_left(s: Seq<char>, max: nat) -> Seq<char> {
    if s.len() <= max {
        s
    } else {
        seq!['\u{2026}'] + s.skip(s.len() - if max >= 1 { max - 1 } else { 0 })
    }
}

/// A shortened text fits in its limit when the limit leaves room for at
/// least the ellipsis, and a text that already fits is left as it is.
pub proof fn law_truncation_fits(s: Seq<char>, max: nat)
    ensures
        max >= 1 ==> truncated(s, max).len() <= max,
        max >= 1 ==> truncated_left(s, max).len() <= max,
        s.len() <= max ==> truncated(s, max) == s && truncated_left(s, max) == s,
{
}

/// Shortens `s` to at most `max_chars` characters, ending it with an ellipsis.
pub fn truncate(s: &str, max_chars: usize) -> (r: String)
    ensures
        r@ == truncated(s@, max_chars as nat),
{
    let chars = chars_of(s);
    if chars.len() <= max_chars {
        return s.to_owned();
    }
    let keep = if max_chars >= 1 {
        max_chars - 1
    } else {
        0
    };
    let mut out: Vec<char> = Vec::new();
    let mut i: usize = 0;
    while i < keep
        invariant
            i <= keep < chars@.len(),
            out@ == chars@.take(i as int),
        decreases keep - i,
    {
        out.push(chars[i]);
        assert(chars@.take(i + 1) =~= chars@.take(i as int).push(chars@[i as int]));
        i += 1;
    }
    out.push('\u{2026}');
    assert(out@ =~= truncated(s@, max_chars as nat));
    string_from_chars(&out)
}

/// Shortens the path `s` to at most `max_chars` characters, keeping its end
/// and starting it with an ellipsis.
pub fn truncate_path(s: &str, max_chars: usize) -> (r: String)
    ensures
        r@ == truncated_left(s@, max_chars as nat),
{
    let chars = chars_of(s);
    if chars.len() <= max_chars {
        return s.to_owned();
    }
    let n = if max_chars >= 1 {
        max_chars - 1
    } else {
        0
    };
    let skip = chars.len() - n;
    let mut out: Vec<char> = Vec::new();
    out.push('\u{2026}');
    let mut i: usize = skip;
    while i < chars.len()
        invariant
            skip <= i <= chars@.len(),
            out@ == seq!['\u{2026}'] + chars@.subrange(skip as int, i as int),
        decreases chars.len() - i,
    {
        out.push(chars[i]);
        assert(chars@.subrange(skip as int, i + 1) =~= chars@.subrange(skip as int, i as int).push(
            chars@[i as int],
        ));
        i += 1;
    }
    assert(chars@.subrange(skip as int, chars@.len() as int) =~= chars@.skip(skip as int));
    string_from_chars(&out)
}

/// The line above the track list: how many tracks match a search, or how
/// many there are.
pub open spec fn count_label_text(matches: nat, total: nat, has_query: bool) -> Seq<char> {
    if matches == 0 {
        if has_query {
            "no matches \u{b7} "@ + decimal(total) + " tracks"@
        } else {
            "no tracks"@
        }
    } else if has_query {
        decimal(matches) + " of "@ + decimal(total) + " tracks"@
    } else {
        decimal(total) + " tracks"@
    }
}

/// The line above the track list.
pub fn count_label(matches: usize, total: usize, has_query: bool) -> (r: String)
    ensures
        r@ == count_label_text(matches as nat, total as nat, has_query),
{
    let mut out: Vec<char> = Vec::new();
    if matches == 0 {
        if has_query {
            push_str(&mut out, "no matches \u{b7} ");
            push_decimal(&mut out, total as u64);
            push_str(&mut out, " tracks");
        } else {
            push_str(&mut out, "no tracks");
        }
    } else if has_query {
        push_decimal(&mut out, matches as u64);
        push_str(&mut out, " of ");
        push_decimal(&mut out, total as u64);
        push_str(&mut out, " tracks");
    } else {
        push_decimal(&mut out, total as u64);
        push_str(&mut out, " tracks");
    }
    assert(out@ =~= count_label_text(matches as nat, total as nat, has_query));
    string_from_chars(&out)
}

/// "played N time(s)" for a play count.
pub open spec fn play_count_text(plays: nat) -> Seq<char> {
    "played "@ + decimal(plays) + if plays == 1 {
        " time"@
    } else {
        " times"@
    }
}

/// How often the current track was played, for the now-playing panel.
pub fn play_count_label(plays: u32) -> (r: String)
    ensures
        r@ == play_count_text(plays as nat),
{
    let mut out: Vec<char> = Vec::new();
    push_str(&mut out, "played ");
    push_decimal(&mut out, plays as u64);
    if plays == 1 {
        push_str(&mut out, " time");
    } else {
        push_str(&mut out, " times");
    }
    assert(out@ =~= play_count_text(plays as nat));
    string_from_chars(&out)
}

/// The library summary under the navigation: track count and total time in
/// hours and minutes.
pub open spec fn library_summary_text(tracks: nat, secs: nat) -> Seq<char> {
    decimal(tracks) + " tracks \u{b7} "@ + decimal(secs / 3600) + "h "@ + decimal((secs % 3600) / 60)
        + "m"@
}

/// The library summary under the navigation.
pub fn library_summary(tracks: usize, secs: u64) -> (r: String)
    ensures
        r@ == library_summary_text(tracks as nat, secs as nat),
{
    let mut out: Vec<char> = Vec::new();
    push_decimal(&mut out, tracks as u64);
    push_str(&mut out, " tracks \u{b7} ");
    push_decimal(&mut out, secs / 3600);
    push_str(&mut out, "h ");
    push_decimal(&mut out, (secs % 3600) / 60);
    push_str(&mut out, "m");
    assert(out@ =~= library_summary_text(tracks as nat, secs as nat));
    string_from_chars(&out)
}

/// Position of the first `x` in `s`, zero when absent.
pub open spec fn position_or_zero(s: Seq<usize>, x: usize) -> int {
    match position_of(s, x) {
        Some(p) => p,
        None => 0,
    }
}

/// The entry of the shown list that the J/K keys move to: `move_by` steps
/// from the current track's place in the list (its start when absent),
/// kept within the list; the first entry when there is no current track.
pub open spec fn stepped(indices: Seq<usize>, current: Option<usize>, move_by: int) -> usize {
    match current {
        Some(c) => {
            let next = position_or_zero(indices, c) + move_by;
            let clamped = if next < 0 {
                0
            } else if next > indices.len() - 1 {
                indices.len() - 1
            } else {
                next
            };
            indices[clamped]
        },
        None => indices[0],
    }
}

/// The track that J (`move_by` 1) or K (`move_by` -1) selects in the shown
/// list `indices`.
pub fn step_selection(indices: &Vec<usize>, current: Option<usize>, move_by: i32) -> (r: usize)
    requires
        indices@.len() > 0,
        indices@.len() <= i32::MAX,
        match current {
            Some(c) => i32::MIN <= position_or_zero(indices@, c) + move_by <= i32::MAX,
            None => true,
        },
    ensures
        r == stepped(indices@, current, move_by as int),
        indices@.contains(r),
{
    match current {
        Some(cur) => {
            let pos: usize = match find_position(indices, cur) {
                Some(p) => p,
                None => 0,
            };
            let next = pos as i32 + move_by;
            let last = indices.len() as i32 - 1;
            let clamped = if next < 0 {
                0
            } else if next > last {
                last
            } else {
                next
            };
            let r = indices[clamped as usize];
            assert(indices@[clamped as int] == r);
            r
        },
        None => {
            assert(indices@[0] == indices[0]);
            indices[0]
        },
    }
}

/// A piece of a title: its byte range and whether it is highlighted.
pub type Segment = (usize, usize, bool);

/// The pieces of a title of `len` bytes, given the highlight ranges from
/// `i` on, the text before them starting at `pos`: plain text up to each
/// range, the range itself (both cut at `len`), and plain text after the last.
pub open spec fn segments_from(len: usize, ranges: Seq<(usize, usize)>, i: int, pos: usize) -> Seq<Segment>
    decreases ranges.len() - i,
{
    if i < 0 || i >= ranges.len() {
        if pos < len {
            seq![(pos, len, false)]
        } else {
            Seq::empty()
        }
    } else {
        let s = if ranges[i].0 < len { ranges[i].0 } else { len };
        let e = if ranges[i].1 < len { ranges[i].1 } else { len };
        (if pos < s {
            seq![(pos, s, false)]
        } else {
            Seq::empty()
        }) + (if s < e {
            seq![(s, e, true)]
        } else {
            Seq::empty()
        }) + segments_from(len, ranges, i + 1, e)
    }
}

/// Splits a title of `len` bytes into plain and highlighted pieces.
pub fn title_segments(len: usize, ranges: &Vec<(usize, usize)>) -> (r: Vec<Segment>)
    ensures
        r@ == segments_from(len, ranges@, 0, 0),
{
    let mut out: Vec<Segment> = Vec::new();
    let mut pos: usize = 0;
    let mut i: usize = 0;
    while i < ranges.len()
        invariant
            i <= ranges@.len(),
            out@ + segments_from(len, ranges@, i as int, pos) == segments_from(len, ranges@, 0, 0),
        decreases ranges.len() - i,
    {
        let ghost before = out@;
        let ghost rest = segments_from(len, ranges@, i + 1, if ranges@[i as int].1 < len { ranges@[i as int].1 } else { len });
        let (a, b) = ranges[i];
        let start = if a < len {
            a
        } else {
            len
        };
        let end = if b < len {
            b
        } else {
            len
        };
        if pos < start {
            out.push((pos, start, false));
        }
        if start < end {
            out.push((start, end, true));
        }
        assert(out@ + rest =~= before + segments_from(len, ranges@, i as int, pos));
        pos = end;
        i += 1;
    }
    if pos < len {
        out.push((pos, len, false));
    }
    assert(out@ =~= out@ + Seq::<Segment>::empty());
    out
}

} // verus!
