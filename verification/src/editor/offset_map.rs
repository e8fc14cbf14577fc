//! The map between the offsets of a shown text and those of the text it shows.

use vstd::prelude::*;

verus! {

use crate::text::{chars_in_utf16, is_utf16_boundary, lemma_chars_in_utf16, lemma_chars_in_utf16_grows, lemma_cut,
    lemma_offset_of_char, lemma_utf16_concat, min_of, utf16_len};

/// A stretch of the shown text that stands in the stored text as it is.
#[derive(Debug, Clone, Copy, PartialEq, Eq, Structural)]
pub struct OffsetMapSeg {
    pub vis_start: u32,
    pub raw_start: u32,
    pub len: u32,
}

/// An `OffsetMapSeg` in unbounded numbers.
pub struct SegView {
    pub vis_start: int,
    pub raw_start: int,
    pub len: int,
}

impl View for OffsetMapSeg {
    type V = SegView;

    open spec fn view(&self) -> SegView {
        SegView {
            vis_start: self.vis_start as int,
            raw_start: self.raw_start as int,
            len: self.len as int,
        }
    }
}

impl SegView {
    /// Where the stretch ends in the shown text.
    pub open spec fn vis_end(self) -> int {
        self.vis_start + self.len
    }

    /// Where the stretch ends in the stored text.
    pub open spec fn raw_end(self) -> int {
        self.raw_start + self.len
    }
}

/// The segments of a map, in unbounded numbers.
pub open spec fn seg_views(map: Seq<OffsetMapSeg>) -> Seq<SegView> {
    Seq::new(map.len(), |i: int| map[i]@)
}

/// A map with one more stretch, joined to the last where both go on in one piece.
pub open spec fn with_segment(map: Seq<SegView>, seg: SegView) -> Seq<SegView> {
    if seg.len == 0 {
        map
    } else if map.len() > 0 && map.last().vis_end() == seg.vis_start && map.last().raw_end()
        == seg.raw_start {
        map.update(
            map.len() - 1,
            SegView {
                vis_start: map.last().vis_start,
                raw_start: map.last().raw_start,
                len: map.last().len + seg.len,
            },
        )
    } else {
        map.push(seg)
    }
}

/// Whether a map describes a shown text of `vis` units over a stored text of `raw`
/// units: it covers the shown text without gaps, and runs forward in the stored
/// text, with something hidden between any two stretches.
pub open spec fn map_wf(map: Seq<SegView>, vis: int, raw: int) -> bool {
    &&& map.len() == 0 ==> vis == 0
    &&& map.len() > 0 ==> map[0].vis_start == 0 && map.last().vis_end() == vis
        && map.last().raw_end() <= raw
    &&& forall|k: int|
        0 <= k < map.len() ==> (#[trigger] map[k]).len > 0 && 0 <= map[k].vis_start
            <= map[k].raw_start && map[k].vis_end() <= vis && map[k].raw_end() <= raw
    &&& forall|k: int|
        0 < k < map.len() ==> (#[trigger] map[k]).vis_start == map[k - 1].vis_end()
            && map[k].raw_start > map[k - 1].raw_end()
}

/// Appending a stretch of `len` units with `hidden` units before it keeps a map
/// well-formed.
pub proof fn lemma_with_segment_wf(
    map: Seq<SegView>,
    vis: int,
    raw: int,
    hidden: int,
    len: int,
    raw2: int,
)
    requires
        map_wf(map, vis, raw),
        0 <= vis <= raw,
        0 <= hidden,
        0 < len,
        raw + hidden + len <= raw2,
    ensures
        map_wf(
            with_segment(map, SegView { vis_start: vis, raw_start: raw + hidden, len }),
            vis + len,
            raw2,
        ),
{
    let m2 = with_segment(map, SegView { vis_start: vis, raw_start: raw + hidden, len });
    let n = map.len() as int;
    assert forall|k: int| 0 <= k < m2.len() implies (#[trigger] m2[k]).len > 0 && 0
        <= m2[k].vis_start <= m2[k].raw_start && m2[k].vis_end() <= vis + len && m2[k].raw_end()
        <= raw2 by {
        if k < n {
            assert(map[k].len > 0);
        }
    }
    assert forall|k: int| 0 < k < m2.len() implies (#[trigger] m2[k]).vis_start == m2[k
        - 1].vis_end() && m2[k].raw_start > m2[k - 1].raw_end() by {
        if k < n {
            assert(map[k].vis_start == map[k - 1].vis_end());
        }
        assert(map[k - 1].len > 0);
    }
}

/// Appends one stretch to a map.
pub fn push_map_segment(map: &mut Vec<OffsetMapSeg>, vis_start: u32, raw_start: u32, len: u32)
    requires
        old(map)@.len() > 0 ==> {
            let last = old(map)@.last()@;
            &&& last.vis_end() <= u32::MAX
            &&& last.raw_end() <= u32::MAX
            &&& last.vis_end() == vis_start && last.raw_end() == raw_start ==> last.len + len
                <= u32::MAX
        },
    ensures
        seg_views(final(map)@) == with_segment(
            seg_views(old(map)@),
            (SegView { vis_start: vis_start as int, raw_start: raw_start as int, len: len as int }),
        ),
{
    if len == 0 {
        return;
    }
    let ghost seg = SegView {
        vis_start: vis_start as int,
        raw_start: raw_start as int,
        len: len as int,
    };
    let n: usize = map.len();
    if n > 0 {
        let last: OffsetMapSeg = map[n - 1];
        assert(map@[n - 1] == map@.last());
        if last.vis_start + last.len == vis_start && last.raw_start + last.len == raw_start {
            map.set(
                n - 1,
                OffsetMapSeg {
                    vis_start: last.vis_start,
                    raw_start: last.raw_start,
                    len: last.len + len,
                },
            );
            assert(seg_views(map@) =~= with_segment(seg_views(old(map)@), seg));
            return;
        }
    }
    map.push(OffsetMapSeg { vis_start, raw_start, len });
    assert(seg_views(map@) =~= with_segment(seg_views(old(map)@), seg));
}

// ---- from the shown text to the stored text ----

/// The stored position of shown position `pos`, looked up from segment `k` on: in
/// the first segment that reaches `pos`, where the segment that begins at `pos`
/// goes before the one that ends there.
pub open spec fn visible_lookup(map: Seq<SegView>, k: int, pos: int, raw_len: int) -> int
    decreases map.len() - k,
{
    if k < 0 || k >= map.len() {
        raw_len
    } else if pos > map[k].vis_end() || (pos == map[k].vis_end() && k + 1 < map.len() && map[k
        + 1].vis_start == pos) {
        visible_lookup(map, k + 1, pos, raw_len)
    } else if pos <= map[k].vis_start {
        min_of(map[k].raw_start, raw_len)
    } else {
        min_of(map[k].raw_start + (pos - map[k].vis_start), raw_len)
    }
}

/// The stored position of a shown position. Without a map the two are the same.
pub open spec fn visible_to_raw(map: Seq<SegView>, pos: int, raw_len: int) -> int {
    if map.len() == 0 {
        min_of(pos, raw_len)
    } else {
        visible_lookup(map, 0, min_of(pos, map.last().vis_end()), raw_len)
    }
}

/// Whether the ends of all segments fit their type.
pub open spec fn map_fits(map: Seq<SegView>) -> bool {
    forall|k: int|
        0 <= k < map.len() ==> (#[trigger] map[k]).vis_end() <= u32::MAX && map[k].raw_end()
            <= u32::MAX
}

/// The stored position of a shown position.
pub fn visible_to_raw_utf16(map: &[OffsetMapSeg], pos_visible_utf16: u32, raw_len: u32) -> (r: u32)
    requires
        map_fits(seg_views(map@)),
    ensures
        r == visible_to_raw(seg_views(map@), pos_visible_utf16 as int, raw_len as int),
{
    let n: usize = map.len();
    if n == 0 {
        return if pos_visible_utf16 <= raw_len {
            pos_visible_utf16
        } else {
            raw_len
        };
    }
    let ghost m = seg_views(map@);
    assert(m[n - 1] == map@[n - 1]@);
    let last: OffsetMapSeg = map[n - 1];
    let vis_max: u32 = last.vis_start + last.len;
    let pos: u32 = if pos_visible_utf16 <= vis_max {
        pos_visible_utf16
    } else {
        vis_max
    };
    let mut k: usize = 0;
    while k < n
        invariant
            k <= n,
            n == map@.len(),
            m == seg_views(map@),
            map_fits(m),
            visible_lookup(m, k as int, pos as int, raw_len as int) == visible_to_raw(
                m,
                pos_visible_utf16 as int,
                raw_len as int,
            ),
        decreases n - k,
    {
        let seg: OffsetMapSeg = map[k];
        assert(m[k as int] == seg@);
        let vis_end: u32 = seg.vis_start + seg.len;
        let at_next: bool = k + 1 < n && map[k + 1].vis_start == pos;
        assert(k + 1 < n ==> m[k + 1] == map@[k + 1]@);
        if pos < vis_end || (pos == vis_end && !at_next) {
            let raw: u32 = if pos <= seg.vis_start {
                seg.raw_start
            } else {
                seg.raw_start + (pos - seg.vis_start)
            };
            return if raw <= raw_len {
                raw
            } else {
                raw_len
            };
        }
        k = k + 1;
    }
    raw_len
}

// ---- from the stored text to the shown text ----

/// The shown position of stored position `pos`, looked up from segment `k` on: in
/// the first segment that reaches `pos`, or the end of the segment before where
/// `pos` is hidden.
pub open spec fn raw_lookup(map: Seq<SegView>, k: int, pos: int, vis_len: int) -> int
    decreases map.len() - k,
{
    if k < 0 || k >= map.len() {
        vis_len
    } else if pos < map[k].raw_start {
        min_of(
            if k == 0 {
                map[k].vis_start
            } else {
                map[k - 1].vis_end()
            },
            vis_len,
        )
    } else if pos <= map[k].raw_end() {
        min_of(map[k].vis_start + (pos - map[k].raw_start), vis_len)
    } else {
        raw_lookup(map, k + 1, pos, vis_len)
    }
}

/// The shown position of a stored position. Without a map the two are the same.
pub open spec fn raw_to_visible(map: Seq<SegView>, pos: int, vis_len: int) -> int {
    if map.len() == 0 {
        min_of(pos, vis_len)
    } else {
        raw_lookup(map, 0, min_of(pos, map.last().raw_end()), vis_len)
    }
}

/// The shown position of a stored position. One inside a hidden stretch gives where
/// the stretch is left out.
pub fn raw_to_visible_utf16(map: &[OffsetMapSeg], pos_raw_utf16: u32, visible_len_utf16: u32) -> (r:
    u32)
    requires
        map_fits(seg_views(map@)),
    ensures
        r == raw_to_visible(seg_views(map@), pos_raw_utf16 as int, visible_len_utf16 as int),
{
    let n: usize = map.len();
    if n == 0 {
        return if pos_raw_utf16 <= visible_len_utf16 {
            pos_raw_utf16
        } else {
            visible_len_utf16
        };
    }
    let ghost m = seg_views(map@);
    assert(m[n - 1] == map@[n - 1]@);
    let last: OffsetMapSeg = map[n - 1];
    let raw_max: u32 = last.raw_start + last.len;
    let pos: u32 = if pos_raw_utf16 <= raw_max {
        pos_raw_utf16
    } else {
        raw_max
    };
    let mut k: usize = 0;
    while k < n
        invariant
            k <= n,
            n == map@.len(),
            m == seg_views(map@),
            map_fits(m),
            raw_lookup(m, k as int, pos as int, visible_len_utf16 as int) == raw_to_visible(
                m,
                pos_raw_utf16 as int,
                visible_len_utf16 as int,
            ),
        decreases n - k,
    {
        let seg: OffsetMapSeg = map[k];
        assert(m[k as int] == seg@);
        if pos < seg.raw_start {
            let vis: u32 = if k == 0 {
                seg.vis_start
            } else {
                let prev: OffsetMapSeg = map[k - 1];
                assert(m[k - 1] == prev@);
                prev.vis_start + prev.len
            };
            return if vis <= visible_len_utf16 {
                vis
            } else {
                visible_len_utf16
            };
        }
        if pos <= seg.raw_start + seg.len {
            let vis: u32 = seg.vis_start + (pos - seg.raw_start);
            return if vis <= visible_len_utf16 {
                vis
            } else {
                visible_len_utf16
            };
        }
        k = k + 1;
    }
    visible_len_utf16
}

// ---- laws ----

/// What `visible_to_raw` is on a map of a rendering: a position inside a stretch
/// keeps its distance from where the stretch begins.
pub proof fn law_visible_to_raw_in_segment(
    map: Seq<SegView>,
    vis_len: int,
    raw_len: int,
    k: int,
    pos: int,
)
    requires
        map_wf(map, vis_len, raw_len),
        0 <= k < map.len(),
        map[k].vis_start <= pos < map[k].vis_end() || (k == map.len() - 1 && pos
            == map[k].vis_end()),
    ensures
        visible_to_raw(map, pos, raw_len) == map[k].raw_start + (pos - map[k].vis_start),
{
    lemma_visible_lookup(map, vis_len, raw_len, 0, k, pos);
}

proof fn lemma_visible_lookup(
    map: Seq<SegView>,
    vis_len: int,
    raw_len: int,
    j: int,
    k: int,
    pos: int,
)
    requires
        map_wf(map, vis_len, raw_len),
        0 <= j <= k < map.len(),
        map[k].vis_start <= pos < map[k].vis_end() || (k == map.len() - 1 && pos
            == map[k].vis_end()),
    ensures
        visible_lookup(map, j, pos, raw_len) == map[k].raw_start + (pos - map[k].vis_start),
        map[j].vis_end() <= map.last().vis_end(),
    decreases k - j,
{
    if j < k {
        lemma_vis_ends_grow(map, vis_len, raw_len, j, k - 1);
        assert(map[k].vis_start == map[k - 1].vis_end());
        assert(map[j + 1].vis_start == map[j].vis_end());
        lemma_visible_lookup(map, vis_len, raw_len, j + 1, k, pos);
    } else if k + 1 < map.len() {
        assert(map[k + 1].vis_start == map[k].vis_end());
    }
}

proof fn lemma_vis_ends_grow(map: Seq<SegView>, vis_len: int, raw_len: int, j: int, k: int)
    requires
        map_wf(map, vis_len, raw_len),
        0 <= j <= k < map.len(),
    ensures
        map[j].vis_end() <= map[k].vis_end(),
        map[j].raw_end() <= map[k].raw_end(),
    decreases k - j,
{
    if j < k {
        lemma_vis_ends_grow(map, vis_len, raw_len, j, k - 1);
        assert(map[k].vis_start == map[k - 1].vis_end());
        assert(map[k].raw_start > map[k - 1].raw_end());
    }
}

/// Every shown position lies in some stretch of a rendering's map.
proof fn lemma_visible_segment(map: Seq<SegView>, vis_len: int, raw_len: int, j: int, pos: int) -> (k:
    int)
    requires
        map_wf(map, vis_len, raw_len),
        0 <= j < map.len(),
        map[j].vis_start <= pos <= vis_len,
    ensures
        0 <= k < map.len(),
        map[k].vis_start <= pos < map[k].vis_end() || (k == map.len() - 1 && pos
            == map[k].vis_end()),
    decreases map.len() - j,
{
    if j + 1 < map.len() && pos >= map[j].vis_end() {
        assert(map[j + 1].vis_start == map[j].vis_end());
        lemma_visible_segment(map, vis_len, raw_len, j + 1, pos)
    } else {
        j
    }
}

/// What `raw_to_visible` is on a map of a rendering: a position inside a stretch, or
/// at either end of it, keeps its distance from where the stretch begins.
pub proof fn law_raw_to_visible_in_segment(
    map: Seq<SegView>,
    vis_len: int,
    raw_len: int,
    k: int,
    pos: int,
)
    requires
        map_wf(map, vis_len, raw_len),
        0 <= k < map.len(),
        map[k].raw_start <= pos <= map[k].raw_end(),
    ensures
        raw_to_visible(map, pos, vis_len) == map[k].vis_start + (pos - map[k].raw_start),
{
    lemma_vis_ends_grow(map, vis_len, raw_len, k, map.len() - 1);
    lemma_raw_lookup(map, vis_len, raw_len, 0, k, pos);
}

proof fn lemma_raw_lookup(
    map: Seq<SegView>,
    vis_len: int,
    raw_len: int,
    j: int,
    k: int,
    pos: int,
)
    requires
        map_wf(map, vis_len, raw_len),
        0 <= j <= k < map.len(),
        map[k].raw_start <= pos <= map[k].raw_end(),
    ensures
        raw_lookup(map, j, pos, vis_len) == map[k].vis_start + (pos - map[k].raw_start),
    decreases k - j,
{
    if j < k {
        lemma_vis_ends_grow(map, vis_len, raw_len, j, k - 1);
        assert(map[k].raw_start > map[k - 1].raw_end());
        lemma_raw_lookup(map, vis_len, raw_len, j + 1, k, pos);
    }
}

/// A stored position between two stretches, which is hidden, is shown where the
/// first of the two ends.
pub proof fn law_raw_to_visible_in_gap(
    map: Seq<SegView>,
    vis_len: int,
    raw_len: int,
    k: int,
    pos: int,
)
    requires
        map_wf(map, vis_len, raw_len),
        0 < k < map.len(),
        map[k - 1].raw_end() < pos < map[k].raw_start,
    ensures
        raw_to_visible(map, pos, vis_len) == map[k - 1].vis_end(),
{
    lemma_vis_ends_grow(map, vis_len, raw_len, k, map.len() - 1);
    lemma_raw_gap(map, vis_len, raw_len, 0, k, pos);
}

proof fn lemma_raw_gap(map: Seq<SegView>, vis_len: int, raw_len: int, j: int, k: int, pos: int)
    requires
        map_wf(map, vis_len, raw_len),
        0 <= j <= k < map.len(),
        0 < k,
        map[k - 1].raw_end() < pos < map[k].raw_start,
    ensures
        raw_lookup(map, j, pos, vis_len) == map[k - 1].vis_end(),
    decreases k - j,
{
    if j < k {
        lemma_vis_ends_grow(map, vis_len, raw_len, j, k - 1);
        lemma_raw_gap(map, vis_len, raw_len, j + 1, k, pos);
    }
}

/// Going from a shown position to the stored text and back gives the position.
pub proof fn law_visible_raw_round_trip(map: Seq<SegView>, vis_len: int, raw_len: int, pos: int)
    requires
        map_wf(map, vis_len, raw_len),
        0 <= raw_len,
        0 <= pos <= vis_len,
    ensures
        raw_to_visible(map, visible_to_raw(map, pos, raw_len), vis_len) == pos,
        0 <= visible_to_raw(map, pos, raw_len) <= raw_len,
{
    if map.len() > 0 {
        let k = lemma_visible_segment(map, vis_len, raw_len, 0, pos);
        law_visible_to_raw_in_segment(map, vis_len, raw_len, k, pos);
        law_raw_to_visible_in_segment(
            map,
            vis_len,
            raw_len,
            k,
            visible_to_raw(map, pos, raw_len),
        );
    }
}

/// The characters of a text between two UTF-16 positions.
pub open spec fn utf16_slice(s: Seq<char>, from: int, to: int) -> Seq<char> {
    s.subrange(chars_in_utf16(s, from) as int, chars_in_utf16(s, to) as int)
}

/// Whether a stretch of the shown text reads the same in the stored text.
pub open spec fn seg_matches(visible: Seq<char>, raw: Seq<char>, seg: SegView) -> bool {
    &&& is_utf16_boundary(visible, seg.vis_start)
    &&& is_utf16_boundary(visible, seg.vis_end())
    &&& is_utf16_boundary(raw, seg.raw_start)
    &&& is_utf16_boundary(raw, seg.raw_end())
    &&& utf16_slice(visible, seg.vis_start, seg.vis_end()) == utf16_slice(
        raw,
        seg.raw_start,
        seg.raw_end(),
    )
}

/// Whether every stretch of a map reads the same in both texts.
pub open spec fn map_matches(visible: Seq<char>, raw: Seq<char>, map: Seq<SegView>) -> bool {
    forall|k: int| 0 <= k < map.len() ==> seg_matches(visible, raw, #[trigger] map[k])
}

proof fn lemma_boundary_append(s: Seq<char>, t: Seq<char>, pos: int)
    requires
        0 <= pos,
        is_utf16_boundary(s, pos),
    ensures
        is_utf16_boundary(s + t, pos),
        chars_in_utf16(s + t, pos) == chars_in_utf16(s, pos),
        chars_in_utf16(s, pos) <= s.len(),
{
    lemma_chars_in_utf16(s, pos);
    let k = chars_in_utf16(s, pos) as int;
    assert((s + t).take(k) =~= s.take(k));
    lemma_offset_of_char(s + t, k);
}

proof fn lemma_seg_matches_append(
    visible: Seq<char>,
    raw: Seq<char>,
    v: Seq<char>,
    r: Seq<char>,
    seg: SegView,
)
    requires
        seg_matches(visible, raw, seg),
        0 <= seg.vis_start,
        0 <= seg.raw_start,
        0 <= seg.len,
    ensures
        seg_matches(visible + v, raw + r, seg),
{
    lemma_boundary_append(visible, v, seg.vis_start);
    lemma_boundary_append(visible, v, seg.vis_end());
    lemma_boundary_append(raw, r, seg.raw_start);
    lemma_boundary_append(raw, r, seg.raw_end());
    lemma_chars_in_utf16_grows(visible, seg.vis_start, seg.vis_end());
    lemma_chars_in_utf16_grows(raw, seg.raw_start, seg.raw_end());
    assert(utf16_slice(visible + v, seg.vis_start, seg.vis_end()) =~= utf16_slice(
        visible,
        seg.vis_start,
        seg.vis_end(),
    ));
    assert(utf16_slice(raw + r, seg.raw_start, seg.raw_end()) =~= utf16_slice(
        raw,
        seg.raw_start,
        seg.raw_end(),
    ));
}

proof fn lemma_new_seg_matches(
    visible: Seq<char>,
    raw: Seq<char>,
    before: Seq<char>,
    part: Seq<char>,
    after: Seq<char>,
)
    ensures
        seg_matches(
            visible + part,
            raw + (before + part + after),
            SegView {
                vis_start: utf16_len(visible) as int,
                raw_start: (utf16_len(raw) + utf16_len(before)) as int,
                len: utf16_len(part) as int,
            },
        ),
{
    let v2 = visible + part;
    let r2 = raw + (before + part + after);
    lemma_cut(visible, part);
    lemma_utf16_concat(raw, before);
    lemma_utf16_concat(raw + before, part);
    assert(r2 =~= raw + before + (part + after));
    lemma_cut(raw + before, part + after);
    assert(r2 =~= raw + before + part + after);
    lemma_cut(raw + before + part, after);
    assert(v2.take(v2.len() as int) =~= v2);
    lemma_offset_of_char(v2, v2.len() as int);
    assert(v2.subrange(visible.len() as int, v2.len() as int) =~= part);
    assert(r2.subrange(
        (raw + before).len() as int,
        (raw + before + part).len() as int,
    ) =~= part);
}

proof fn lemma_joined_seg_matches(visible: Seq<char>, raw: Seq<char>, a: SegView, b: SegView)
    requires
        seg_matches(visible, raw, a),
        seg_matches(visible, raw, b),
        0 <= a.vis_start,
        0 <= a.raw_start,
        0 <= a.len,
        0 <= b.len,
        a.vis_end() == b.vis_start,
        a.raw_end() == b.raw_start,
    ensures
        seg_matches(
            visible,
            raw,
            SegView { vis_start: a.vis_start, raw_start: a.raw_start, len: a.len + b.len },
        ),
{
    lemma_joined_slices(visible, a.vis_start, b.vis_start, b.vis_end());
    lemma_joined_slices(raw, a.raw_start, b.raw_start, b.raw_end());
}

/// Appending a stretch that reads the same in both texts keeps a map true: `part` is
/// appended to the shown text, and `before + part + after` to the stored text.
pub proof fn lemma_with_segment_matches(
    visible: Seq<char>,
    raw: Seq<char>,
    map: Seq<SegView>,
    before: Seq<char>,
    part: Seq<char>,
    after: Seq<char>,
)
    requires
        map_matches(visible, raw, map),
        map_wf(map, utf16_len(visible) as int, utf16_len(raw) as int),
    ensures
        map_matches(
            visible + part,
            raw + (before + part + after),
            with_segment(
                map,
                SegView {
                    vis_start: utf16_len(visible) as int,
                    raw_start: (utf16_len(raw) + utf16_len(before)) as int,
                    len: utf16_len(part) as int,
                },
            ),
        ),
{
    let v2 = visible + part;
    let r2 = raw + (before + part + after);
    let seg = SegView {
        vis_start: utf16_len(visible) as int,
        raw_start: (utf16_len(raw) + utf16_len(before)) as int,
        len: utf16_len(part) as int,
    };
    let m2 = with_segment(map, seg);
    lemma_new_seg_matches(visible, raw, before, part, after);
    assert forall|k: int| 0 <= k < m2.len() implies seg_matches(v2, r2, #[trigger] m2[k]) by {
        if k < map.len() {
            assert(map[k].len > 0);
            lemma_seg_matches_append(visible, raw, part, before + part + after, map[k]);
            if m2[k] != map[k] {
                lemma_joined_seg_matches(v2, r2, map[k], seg);
            }
        }
    }
}

proof fn lemma_joined_slices(s: Seq<char>, a: int, b: int, c: int)
    requires
        0 <= a <= b <= c,
    ensures
        utf16_slice(s, a, b) + utf16_slice(s, b, c) == utf16_slice(s, a, c),
{
    lemma_chars_in_utf16_grows(s, a, b);
    lemma_chars_in_utf16_grows(s, b, c);
    let ka = chars_in_utf16(s, a) as int;
    let kb = chars_in_utf16(s, b) as int;
    let kc = chars_in_utf16(s, c) as int;
    assert(s.subrange(ka, kb) + s.subrange(kb, kc) =~= s.subrange(ka, kc));
}

/// A shown position behind the end counts as the end, and what is hidden behind the last
/// stretch is not passed. A stored position before the first stretch is shown at the
/// start, and one behind the last stretch where that ends.
pub proof fn law_positions_outside_count_as_the_ends(
    map: Seq<SegView>,
    vis: int,
    raw: int,
    pos: int,
)
    requires
        map_wf(map, vis, raw),
        map.len() > 0,
    ensures
        vis <= pos ==> visible_to_raw(map, pos, raw) == visible_to_raw(map, vis, raw),
        visible_to_raw(map, vis, raw) == map.last().raw_end(),
        pos < map[0].raw_start ==> raw_to_visible(map, pos, vis) == 0,
        map.last().raw_end() <= pos ==> raw_to_visible(map, pos, vis) == raw_to_visible(
            map,
            map.last().raw_end(),
            vis,
        ),
{
    lemma_end_is_in_the_last(map, vis, raw, 0);
    assert(map[map.len() - 1].len > 0);
    assert(map[0].len > 0);
}

proof fn lemma_end_is_in_the_last(map: Seq<SegView>, vis: int, raw: int, k: int)
    requires
        map_wf(map, vis, raw),
        0 <= k < map.len(),
    ensures
        visible_lookup(map, k, vis, raw) == map.last().raw_end(),
        map[k].vis_end() <= vis,
    decreases map.len() - k,
{
    assert(map[k].len > 0);
    if k + 1 < map.len() {
        assert(map[k + 1].vis_start == map[k].vis_end());
        assert(map[k + 1].len > 0);
        lemma_end_is_in_the_last(map, vis, raw, k + 1);
    }
}

} // verus!
