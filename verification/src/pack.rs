//! Deterministic shelf packing of sprite rectangles.
//!
//! Sprites are sorted by height, tallest first (stable, so equal heights keep
//! their insertion order), a starting canvas is sized from the average sprite
//! dimensions, and sprites are then placed left to right in rows. A row that
//! would overflow the canvas width wraps to a new row; a sprite that would
//! overflow the canvas height doubles the height until it fits. The width is
//! likewise grown up front until the widest sprite fits, so every placement
//! lies inside the final canvas and no two placements overlap.

use vstd::prelude::*;
use vstd::arithmetic::div_mod::{lemma_div_is_ordered, lemma_div_by_multiple};

verus! {

/// The dimensions of one sprite awaiting placement.
#[derive(Clone, Copy, PartialEq, Eq, Structural, Debug)]
pub struct SpriteDim {
    pub width: u32,
    pub height: u32,
}

/// The top-left corner assigned to one sprite.
#[derive(Clone, Copy, PartialEq, Eq, Structural, Debug)]
pub struct Placement {
    pub x: u32,
    pub y: u32,
}

/// A sprite's dimensions tagged with its position in the input sequence, so
/// that sorting for placement never loses track of which sprite is which.
#[derive(Clone, Copy, PartialEq, Eq, Structural, Debug)]
pub struct Entry {
    pub index: usize,
    pub width: u32,
    pub height: u32,
}

/// Packing fails only when the computed canvas would not fit the `u32`
/// coordinate space of the metadata.
#[derive(Clone, Copy, PartialEq, Eq, Structural, Debug)]
pub enum PackError {
    /// The canvas grew beyond the largest expressible dimension.
    AtlasTooLarge,
}

/// The result of packing: the final canvas dimensions and one placement per
/// input sprite, in input order.
pub struct Packing {
    /// Final canvas width.
    pub width: u32,
    /// Final canvas height.
    pub height: u32,
    /// `placements[i]` is where sprite `i` of the input goes.
    pub placements: Vec<Placement>,
}

/// Two axis-aligned rectangles share no pixel.
pub open spec fn rects_disjoint(
    x1: int, y1: int, w1: int, h1: int,
    x2: int, y2: int, w2: int, h2: int,
) -> bool {
    ||| w1 == 0 ||| h1 == 0 ||| w2 == 0 ||| h2 == 0
    ||| x1 + w1 <= x2 ||| x2 + w2 <= x1
    ||| y1 + h1 <= y2 ||| y2 + h2 <= y1
}

/// The input dimensions tagged with their positions.
pub open spec fn entries_of(dims: Seq<SpriteDim>) -> Seq<Entry> {
    Seq::new(dims.len(), |i: int| Entry {
        index: i as usize,
        width: dims[i].width,
        height: dims[i].height,
    })
}

/// Inserts `e` into `s` before the first element of strictly smaller height,
/// so that a fold of inserts yields a stable height-descending order.
pub open spec fn insert_by_height(s: Seq<Entry>, e: Entry) -> Seq<Entry>
    decreases s.len(),
{
    if s.len() == 0 {
        seq![e]
    } else if e.height > s[0].height {
        seq![e] + s
    } else {
        seq![s[0]] + insert_by_height(s.drop_first(), e)
    }
}

/// Stable sort by height, tallest first: equal heights keep their input
/// order.
pub open spec fn sort_by_height(s: Seq<Entry>) -> Seq<Entry>
    decreases s.len(),
{
    if s.len() == 0 {
        Seq::empty()
    } else {
        insert_by_height(sort_by_height(s.drop_last()), s.last())
    }
}

/// The sum of all sprite widths.
pub open spec fn sum_widths(dims: Seq<SpriteDim>) -> int
    decreases dims.len(),
{
    if dims.len() == 0 {
        0
    } else {
        sum_widths(dims.drop_last()) + dims.last().width
    }
}

/// The sum of all sprite heights.
pub open spec fn sum_heights(dims: Seq<SpriteDim>) -> int
    decreases dims.len(),
{
    if dims.len() == 0 {
        0
    } else {
        sum_heights(dims.drop_last()) + dims.last().height
    }
}

/// The largest sprite width, or `0` for no sprites.
pub open spec fn max_width(dims: Seq<SpriteDim>) -> int
    decreases dims.len(),
{
    if dims.len() == 0 {
        0
    } else {
        let m = max_width(dims.drop_last());
        if dims.last().width > m {
            dims.last().width as int
        } else {
            m
        }
    }
}

/// The smallest `c` with `c * c >= n`, found by counting up from `c`.
pub open spec fn ceil_sqrt_from(n: int, c: int) -> int
    decreases n - c,
{
    if c < 0 || c >= n {
        if c < 0 {
            0
        } else {
            c
        }
    } else if c * c >= n {
        c
    } else {
        ceil_sqrt_from(n, c + 1)
    }
}

/// The ceiling of the square root of `n`.
pub open spec fn ceil_sqrt(n: int) -> int {
    ceil_sqrt_from(n, 0)
}

/// Doubles `size` until it reaches `needed`.
pub open spec fn grow_to(size: int, needed: int) -> int
    decreases (if needed > size { needed - size } else { 0 })
        when 1 <= size
{
    if size >= needed {
        size
    } else {
        grow_to(size * 2, needed)
    }
}

/// The state threaded through shelf placement.
pub ghost struct ShelfState {
    /// Canvas width, fixed before placement starts.
    pub width: int,
    /// Canvas height so far; doubles whenever a sprite would overflow it.
    pub height: int,
    /// Horizontal cursor in the current row.
    pub x_pos: int,
    /// Top of the current row.
    pub y_pos: int,
    /// The tallest sprite placed in the current row.
    pub row_height: int,
    /// `placements[i]` is the corner assigned to input sprite `i`.
    pub placements: Seq<(int, int)>,
}

/// Places one sprite: wraps to a new row if the cursor would pass the canvas
/// width, doubles the height until the sprite fits below the row top, records
/// the corner, and advances the cursor.
pub open spec fn shelf_step(st: ShelfState, e: Entry) -> ShelfState {
    let wrapped = if st.x_pos + e.width > st.width {
        ShelfState {
            x_pos: 0,
            y_pos: st.y_pos + st.row_height,
            row_height: 0,
            ..st
        }
    } else {
        st
    };
    let grown = ShelfState {
        height: grow_to(wrapped.height, wrapped.y_pos + e.height),
        ..wrapped
    };
    ShelfState {
        x_pos: grown.x_pos + e.width,
        row_height: if e.height > grown.row_height { e.height as int } else { grown.row_height },
        placements: grown.placements.update(e.index as int, (grown.x_pos, grown.y_pos)),
        ..grown
    }
}

/// Folds shelf placement over a sequence of sprites.
pub open spec fn shelf_fold(st: ShelfState, es: Seq<Entry>) -> ShelfState
    decreases es.len(),
{
    if es.len() == 0 {
        st
    } else {
        shelf_fold(shelf_step(st, es[0]), es.drop_first())
    }
}

/// The complete packing computation over mathematical integers: the sort,
/// the canvas size heuristic, and the shelf placement, with no overflow.
pub open spec fn pack_spec(dims: Seq<SpriteDim>) -> ShelfState {
    if dims.len() == 0 {
        ShelfState {
            width: 0,
            height: 0,
            x_pos: 0,
            y_pos: 0,
            row_height: 0,
            placements: Seq::empty(),
        }
    } else {
        let n = dims.len() as int;
        let cols = ceil_sqrt(n);
        let avg_w = sum_widths(dims) / n;
        let avg_h = sum_heights(dims) / n;
        let width = grow_to(grow_to(2, avg_w * cols), max_width(dims));
        let height = grow_to(2, avg_h);
        let init = ShelfState {
            width,
            height,
            x_pos: 0,
            y_pos: 0,
            row_height: 0,
            placements: Seq::new(dims.len(), |i: int| (0, 0)),
        };
        shelf_fold(init, sort_by_height(entries_of(dims)))
    }
}

/// Whether the packed canvas fits the `u32` coordinate space; packing
/// succeeds exactly on such inputs.
pub open spec fn pack_fits(dims: Seq<SpriteDim>) -> bool {
    pack_spec(dims).width <= u32::MAX && pack_spec(dims).height <= u32::MAX
}

proof fn lemma_insert_by_height_contains(s: Seq<Entry>, e: Entry, x: Entry)
    ensures
        insert_by_height(s, e).contains(x) <==> (s.contains(x) || x == e),
    decreases s.len(),
{
    if s.len() == 0 {
        assert(insert_by_height(s, e) == seq![e]);
        assert(seq![e].contains(x) <==> x == e) by {
            if seq![e].contains(x) {
                let i = choose|i: int| 0 <= i < seq![e].len() && seq![e][i] == x;
                assert(i == 0);
            }
            if x == e {
                assert(seq![e][0] == x);
            }
        }
    } else if e.height > s[0].height {
        let r = seq![e] + s;
        assert(insert_by_height(s, e) == r);
        if r.contains(x) {
            let i = choose|i: int| 0 <= i < r.len() && r[i] == x;
            if i == 0 {
                assert(x == e);
            } else {
                assert(s[i - 1] == x);
            }
        }
        if s.contains(x) {
            let i = choose|i: int| 0 <= i < s.len() && s[i] == x;
            assert(r[i + 1] == x);
        }
        if x == e {
            assert(r[0] == x);
        }
    } else {
        lemma_insert_by_height_contains(s.drop_first(), e, x);
        let tail = insert_by_height(s.drop_first(), e);
        let r = seq![s[0]] + tail;
        assert(insert_by_height(s, e) == r);
        if r.contains(x) {
            let i = choose|i: int| 0 <= i < r.len() && r[i] == x;
            if i == 0 {
                assert(s[0] == x);
                assert(s.contains(x));
            } else {
                assert(tail[i - 1] == x);
                assert(tail.contains(x));
                if s.drop_first().contains(x) {
                    let j = choose|j: int| 0 <= j < s.drop_first().len() && s.drop_first()[j] == x;
                    assert(s[j + 1] == x);
                    assert(s.contains(x));
                }
            }
        }
        if s.contains(x) {
            let i = choose|i: int| 0 <= i < s.len() && s[i] == x;
            if i == 0 {
                assert(r[0] == x);
            } else {
                assert(s.drop_first()[i - 1] == x);
                assert(s.drop_first().contains(x));
                assert(tail.contains(x));
                let j = choose|j: int| 0 <= j < tail.len() && tail[j] == x;
                assert(r[j + 1] == x);
            }
        }
        if x == e {
            assert(tail.contains(x));
            let j = choose|j: int| 0 <= j < tail.len() && tail[j] == x;
            assert(r[j + 1] == x);
        }
    }
}

/// Sorting neither adds nor removes sprites: it holds exactly the elements
/// of its input.
pub proof fn lemma_sort_contains(s: Seq<Entry>, x: Entry)
    ensures
        sort_by_height(s).contains(x) <==> s.contains(x),
    decreases s.len(),
{
    if s.len() == 0 {
    } else {
        lemma_sort_contains(s.drop_last(), x);
        lemma_insert_by_height_contains(sort_by_height(s.drop_last()), s.last(), x);
        if s.contains(x) {
            let i = choose|i: int| 0 <= i < s.len() && s[i] == x;
            if i < s.len() - 1 {
                assert(s.drop_last()[i] == x);
                assert(s.drop_last().contains(x));
            } else {
                assert(x == s.last());
            }
        }
        if s.drop_last().contains(x) {
            let i = choose|i: int| 0 <= i < s.drop_last().len() && s.drop_last()[i] == x;
            assert(s[i] == x);
        }
        if x == s.last() {
            assert(s[s.len() - 1] == x);
        }
    }
}

/// Height-descending order: every earlier element is at least as tall.
pub open spec fn sorted_by_height_desc(s: Seq<Entry>) -> bool {
    forall|i: int, j: int| 0 <= i < j < s.len() ==> (#[trigger] s[i]).height >= (#[trigger] s[j]).height
}

proof fn lemma_insert_by_height_sorted(s: Seq<Entry>, e: Entry)
    requires
        sorted_by_height_desc(s),
    ensures
        sorted_by_height_desc(insert_by_height(s, e)),
    decreases s.len(),
{
    if s.len() == 0 {
    } else if e.height > s[0].height {
        let r = seq![e] + s;
        assert forall|i: int, j: int| 0 <= i < j < r.len() implies
            (#[trigger] r[i]).height >= (#[trigger] r[j]).height by {
            if i == 0 {
                assert(r[j] == s[j - 1]);
                if j > 1 {
                    assert(s[0].height >= s[j - 1].height);
                }
            } else {
                assert(r[i] == s[i - 1] && r[j] == s[j - 1]);
            }
        }
    } else {
        assert(sorted_by_height_desc(s.drop_first())) by {
            assert forall|i: int, j: int| 0 <= i < j < s.drop_first().len() implies
                (#[trigger] s.drop_first()[i]).height >= (#[trigger] s.drop_first()[j]).height by {
                assert(s.drop_first()[i] == s[i + 1] && s.drop_first()[j] == s[j + 1]);
            }
        }
        lemma_insert_by_height_sorted(s.drop_first(), e);
        let tail = insert_by_height(s.drop_first(), e);
        let r = seq![s[0]] + tail;
        assert forall|i: int, j: int| 0 <= i < j < r.len() implies
            (#[trigger] r[i]).height >= (#[trigger] r[j]).height by {
            if i == 0 {
                assert(r[j] == tail[j - 1]);
                lemma_insert_by_height_contains(s.drop_first(), e, tail[j - 1]);
                assert(tail.contains(tail[j - 1]));
                if tail[j - 1] == e {
                    assert(s[0].height >= e.height);
                } else {
                    let q = choose|q: int| 0 <= q < s.drop_first().len()
                        && s.drop_first()[q] == tail[j - 1];
                    assert(s[q + 1] == tail[j - 1]);
                    assert(s[0].height >= s[q + 1].height);
                }
            } else {
                assert(r[i] == tail[i - 1] && r[j] == tail[j - 1]);
            }
        }
    }
}

/// The sort really is height-descending: in its result every earlier sprite
/// is at least as tall as every later one; equal heights keep their input
/// order by construction of the insertion.
pub proof fn lemma_sort_by_height_sorted(s: Seq<Entry>)
    ensures
        sorted_by_height_desc(sort_by_height(s)),
    decreases s.len(),
{
    if s.len() > 0 {
        lemma_sort_by_height_sorted(s.drop_last());
        lemma_insert_by_height_sorted(sort_by_height(s.drop_last()), s.last());
    }
}

/// Sorting keeps the number of sprites.
pub proof fn lemma_sort_len(s: Seq<Entry>)
    ensures
        sort_by_height(s).len() == s.len(),
    decreases s.len(),
{
    if s.len() > 0 {
        lemma_sort_len(s.drop_last());
        lemma_insert_by_height_len(sort_by_height(s.drop_last()), s.last());
    }
}

proof fn lemma_insert_by_height_len(s: Seq<Entry>, e: Entry)
    ensures
        insert_by_height(s, e).len() == s.len() + 1,
    decreases s.len(),
{
    if s.len() > 0 && !(e.height > s[0].height) {
        lemma_insert_by_height_len(s.drop_first(), e);
    }
}

/// Inserting at the position found by a linear scan agrees with the
/// recursive insertion.
proof fn lemma_insert_by_height_at(s: Seq<Entry>, e: Entry, p: int)
    requires
        0 <= p <= s.len(),
        forall|j: int| 0 <= j < p ==> (#[trigger] s[j]).height >= e.height,
        p < s.len() ==> e.height > s[p].height,
    ensures
        insert_by_height(s, e) == s.insert(p, e),
    decreases s.len(),
{
    if s.len() == 0 {
        assert(insert_by_height(s, e) =~= s.insert(0, e));
    } else if e.height > s[0].height {
        assert(p == 0);
        assert(insert_by_height(s, e) =~= s.insert(0, e));
    } else {
        assert(p > 0);
        lemma_insert_by_height_at(s.drop_first(), e, p - 1);
        assert(seq![s[0]] + s.drop_first().insert(p - 1, e) =~= s.insert(p, e));
    }
}

/// Every sum of widths is bounded by the count times the largest width, and
/// sums are non-negative.
proof fn lemma_sum_bounds(dims: Seq<SpriteDim>)
    ensures
        0 <= sum_widths(dims),
        0 <= sum_heights(dims),
        sum_widths(dims) <= dims.len() * (u32::MAX as int),
        sum_heights(dims) <= dims.len() * (u32::MAX as int),
        max_width(dims) <= u32::MAX,
        0 <= max_width(dims),
        forall|k: int| 0 <= k < dims.len() ==> (#[trigger] dims[k]).width <= max_width(dims),
    decreases dims.len(),
{
    if dims.len() == 0 {
    } else {
        lemma_sum_bounds(dims.drop_last());
        let n = dims.len() as int;
        assert((n - 1) * (u32::MAX as int) + (u32::MAX as int) == n * (u32::MAX as int)) by (nonlinear_arith);
        assert(forall|k: int| 0 <= k < dims.len() - 1 ==> dims.drop_last()[k] == dims[k]);
        assert forall|k: int| 0 <= k < dims.len() implies (#[trigger] dims[k]).width <= max_width(dims) by {
            if k < dims.len() - 1 {
                assert(dims.drop_last()[k] == dims[k]);
            }
        }
    }
}

/// The average of the widths fits in `u32`, being at most the largest width.
proof fn lemma_avg_bound(dims: Seq<SpriteDim>)
    requires
        dims.len() > 0,
    ensures
        0 <= sum_widths(dims) / (dims.len() as int) <= max_width(dims),
        0 <= sum_heights(dims) / (dims.len() as int) <= u32::MAX,
{
    let n = dims.len() as int;
    lemma_sum_bounds(dims);
    lemma_max_ge_all(dims);
    assert(sum_widths(dims) <= n * max_width(dims));
    lemma_div_is_ordered(sum_widths(dims), n * max_width(dims), n);
    lemma_div_by_multiple(max_width(dims), n);
    assert((max_width(dims) * n) / n == max_width(dims));
    assert(n * max_width(dims) == max_width(dims) * n) by (nonlinear_arith);
    lemma_div_is_ordered(sum_heights(dims), n * (u32::MAX as int), n);
    lemma_div_by_multiple(u32::MAX as int, n);
    assert((u32::MAX as int) * n == n * (u32::MAX as int)) by (nonlinear_arith);
    assert(sum_widths(dims) / n >= 0) by {
        vstd::arithmetic::div_mod::lemma_div_pos_is_pos(sum_widths(dims), n);
    }
    assert(sum_heights(dims) / n >= 0) by {
        vstd::arithmetic::div_mod::lemma_div_pos_is_pos(sum_heights(dims), n);
    }
}

/// The sum of widths is bounded by the count times the largest width.
proof fn lemma_max_ge_all(dims: Seq<SpriteDim>)
    ensures
        sum_widths(dims) <= dims.len() * max_width(dims),
    decreases dims.len(),
{
    if dims.len() == 0 {
    } else {
        lemma_max_ge_all(dims.drop_last());
        let n = dims.len() as int;
        let m = max_width(dims);
        lemma_sum_bounds(dims.drop_last());
        assert(max_width(dims.drop_last()) <= m);
        assert(sum_widths(dims.drop_last()) <= (n - 1) * max_width(dims.drop_last()));
        assert((n - 1) * max_width(dims.drop_last()) <= (n - 1) * m) by (nonlinear_arith)
            requires
                max_width(dims.drop_last()) <= m,
                n >= 1;
        assert((n - 1) * m + m == n * m) by (nonlinear_arith);
    }
}

/// `grow_to` reaches at least what is needed and never shrinks.
proof fn lemma_grow_to_props(size: int, needed: int)
    requires
        1 <= size,
    ensures
        grow_to(size, needed) >= needed,
        grow_to(size, needed) >= size,
        1 <= grow_to(size, needed),
    decreases (if needed > size { needed - size } else { 0 }),
{
    if size < needed {
        lemma_grow_to_props(size * 2, needed);
    }
}

/// Shelf placement only ever grows the canvas height and fixes its width.
proof fn lemma_fold_monotone(st: ShelfState, es: Seq<Entry>)
    requires
        1 <= st.height,
        forall|j: int| 0 <= j < es.len() ==> (#[trigger] es[j]).index < st.placements.len(),
    ensures
        shelf_fold(st, es).height >= st.height,
        shelf_fold(st, es).width == st.width,
        1 <= shelf_fold(st, es).height,
        shelf_fold(st, es).placements.len() == st.placements.len(),
    decreases es.len(),
{
    if es.len() > 0 {
        let e = es[0];
        let wrapped = if st.x_pos + e.width > st.width {
            ShelfState { x_pos: 0, y_pos: st.y_pos + st.row_height, row_height: 0, ..st }
        } else {
            st
        };
        lemma_grow_to_props(wrapped.height, wrapped.y_pos + e.height);
        let st1 = shelf_step(st, e);
        assert(st1.placements.len() == st.placements.len());
        assert forall|j: int| 0 <= j < es.drop_first().len() implies
            (#[trigger] es.drop_first()[j]).index < st1.placements.len() by {
            assert(es.drop_first()[j] == es[j + 1]);
        }
        lemma_fold_monotone(st1, es.drop_first());
    }
}


/// The integer ceiling square root is between `0` and `n`.
proof fn lemma_ceil_sqrt_range(n: int, c: int)
    requires
        0 <= c <= n,
    ensures
        c <= ceil_sqrt_from(n, c) <= n,
    decreases n - c,
{
    if c < n && c * c < n {
        lemma_ceil_sqrt_range(n, c + 1);
    }
}

/// Computes the ceiling of the square root by counting up.
fn ceil_sqrt_exec(n: u64) -> (r: u64)
    ensures
        r as int == ceil_sqrt(n as int),
        r <= n,
{
    proof {
        lemma_ceil_sqrt_range(n as int, 0);
    }
    let mut c: u64 = 0;
    while c < n && (c as u128) * (c as u128) < (n as u128)
        invariant
            c <= n,
            (c as int) * (c as int) <= u128::MAX,
            ceil_sqrt(n as int) == ceil_sqrt_from(n as int, c as int),
        decreases n - c,
    {
        c = c + 1;
        proof {
            assert((c as int) * (c as int) <= u128::MAX) by (nonlinear_arith)
                requires
                    c <= 0xffff_ffff_ffff_ffffu64;
        }
    }
    c
}

/// Doubles `size` until it reaches `needed`.
fn grow_exec(size: u128, needed: u128) -> (r: u128)
    requires
        1 <= size,
        needed <= 0x1_0000_0000_0000_0000_0000_0000,
        size <= 0x2_0000_0000_0000_0000_0000_0000,
    ensures
        r as int == grow_to(size as int, needed as int),
        r >= needed,
        r >= size,
        r == size || r < 2 * needed,
{
    proof {
        lemma_grow_to_props(size as int, needed as int);
    }
    let mut sz: u128 = size;
    while sz < needed
        invariant
            1 <= sz,
            sz == size || sz < 2 * needed,
            sz <= 0x2_0000_0000_0000_0000_0000_0000,
            needed <= 0x1_0000_0000_0000_0000_0000_0000,
            grow_to(size as int, needed as int) == grow_to(sz as int, needed as int),
        decreases (if needed > sz { needed - sz } else { 0int }),
    {
        sz = sz * 2;
    }
    sz
}

/// Sorts entries by height, tallest first, keeping the input order of equal
/// heights.
fn sort_entries(entries: &Vec<Entry>) -> (r: Vec<Entry>)
    ensures
        r@ == sort_by_height(entries@),
{
    let n = entries.len();
    let mut out: Vec<Entry> = Vec::new();
    let mut i: usize = 0;
    while i < n
        invariant
            i <= n,
            n == entries@.len(),
            out@ == sort_by_height(entries@.take(i as int)),
            out@.len() == i,
        decreases n - i,
    {
        let e = entries[i];
        let mut p: usize = 0;
        while p < out.len() && out[p].height >= e.height
            invariant
                p <= out@.len(),
                forall|j: int| 0 <= j < p ==> (#[trigger] out@[j]).height >= e.height,
            decreases out@.len() - p,
        {
            p = p + 1;
        }
        proof {
            lemma_insert_by_height_at(out@, e, p as int);
            lemma_insert_by_height_len(out@, e);
            assert(entries@.take(i + 1).drop_last() =~= entries@.take(i as int));
            assert(entries@.take(i + 1).last() == e);
        }
        out.insert(p, e);
        i = i + 1;
    }
    proof {
        assert(entries@.take(n as int) =~= entries@);
    }
    out
}


/// The placement coordinates of a vector of placements, as integer pairs.
pub open spec fn placements_ints(ps: Seq<Placement>) -> Seq<(int, int)> {
    Seq::new(ps.len(), |k: int| (ps[k].x as int, ps[k].y as int))
}

/// The shelf state described by the packing loop's machine words.
spec fn exec_state(width: u64, height: u64, x_pos: u64, y_pos: u64, row_h: u64, ps: Seq<Placement>) -> ShelfState {
    ShelfState {
        width: width as int,
        height: height as int,
        x_pos: x_pos as int,
        y_pos: y_pos as int,
        row_height: row_h as int,
        placements: placements_ints(ps),
    }
}

/// Builds the tagged entry list for a dimension list.
fn build_entries(dims: &Vec<SpriteDim>) -> (r: Vec<Entry>)
    ensures
        r@ == entries_of(dims@),
{
    let n = dims.len();
    let mut out: Vec<Entry> = Vec::new();
    let mut i: usize = 0;
    while i < n
        invariant
            i <= n,
            n == dims@.len(),
            out@.len() == i,
            forall|j: int| 0 <= j < i ==> #[trigger] out@[j] == entries_of(dims@)[j],
        decreases n - i,
    {
        let d = dims[i];
        out.push(Entry { index: i, width: d.width, height: d.height });
        i = i + 1;
    }
    proof {
        assert(out@ =~= entries_of(dims@));
    }
    out
}

/// Sums all sprite widths.
fn sum_widths_exec(dims: &Vec<SpriteDim>) -> (r: u128)
    ensures
        r as int == sum_widths(dims@),
{
    let n = dims.len();
    let mut acc: u128 = 0;
    let mut i: usize = 0;
    while i < n
        invariant
            i <= n,
            n == dims@.len(),
            acc as int == sum_widths(dims@.take(i as int)),
            acc as int <= (i as int) * (u32::MAX as int),
        decreases n - i,
    {
        proof {
            assert(dims@.take(i + 1).drop_last() =~= dims@.take(i as int));
            assert(dims@.take(i + 1).last() == dims@[i as int]);
            assert((i as int) * (u32::MAX as int) + (u32::MAX as int) == (i + 1) * (u32::MAX as int))
                by (nonlinear_arith);
            assert((i + 1) * (u32::MAX as int) <= 0xffff_ffff_ffff_ffff * (u32::MAX as int))
                by (nonlinear_arith)
                requires
                    0 <= i,
                    i + 1 <= 0xffff_ffff_ffff_ffff;
        }
        acc = acc + (dims[i].width as u128);
        i = i + 1;
    }
    proof {
        assert(dims@.take(n as int) =~= dims@);
    }
    acc
}

/// Sums all sprite heights.
fn sum_heights_exec(dims: &Vec<SpriteDim>) -> (r: u128)
    ensures
        r as int == sum_heights(dims@),
{
    let n = dims.len();
    let mut acc: u128 = 0;
    let mut i: usize = 0;
    while i < n
        invariant
            i <= n,
            n == dims@.len(),
            acc as int == sum_heights(dims@.take(i as int)),
            acc as int <= (i as int) * (u32::MAX as int),
        decreases n - i,
    {
        proof {
            assert(dims@.take(i + 1).drop_last() =~= dims@.take(i as int));
            assert(dims@.take(i + 1).last() == dims@[i as int]);
            assert((i as int) * (u32::MAX as int) + (u32::MAX as int) == (i + 1) * (u32::MAX as int))
                by (nonlinear_arith);
            assert((i + 1) * (u32::MAX as int) <= 0xffff_ffff_ffff_ffff * (u32::MAX as int))
                by (nonlinear_arith)
                requires
                    0 <= i,
                    i + 1 <= 0xffff_ffff_ffff_ffff;
        }
        acc = acc + (dims[i].height as u128);
        i = i + 1;
    }
    proof {
        assert(dims@.take(n as int) =~= dims@);
    }
    acc
}

/// Finds the largest sprite width.
fn max_width_exec(dims: &Vec<SpriteDim>) -> (r: u32)
    ensures
        r as int == max_width(dims@),
{
    let n = dims.len();
    let mut m: u32 = 0;
    let mut i: usize = 0;
    while i < n
        invariant
            i <= n,
            n == dims@.len(),
            m as int == max_width(dims@.take(i as int)),
        decreases n - i,
    {
        proof {
            assert(dims@.take(i + 1).drop_last() =~= dims@.take(i as int));
            assert(dims@.take(i + 1).last() == dims@[i as int]);
        }
        if dims[i].width > m {
            m = dims[i].width;
        }
        i = i + 1;
    }
    proof {
        assert(dims@.take(n as int) =~= dims@);
    }
    m
}

/// Packs the given sprite dimensions. Returns the final canvas size and one
/// placement per sprite, in input order; every placement lies inside the
/// canvas and no two placements overlap. Fails exactly when the computed
/// canvas would not fit `u32` dimensions.
#[verifier::loop_isolation(false)]
#[verifier::rlimit(100)]
pub fn pack(dims: &Vec<SpriteDim>) -> (r: Result<Packing, PackError>)
    ensures
        r is Ok <==> pack_fits(dims@),
        match r {
            Ok(p) => {
                &&& p.width as int == pack_spec(dims@).width
                &&& p.height as int == pack_spec(dims@).height
                &&& p.placements@.len() == dims@.len()
                &&& placements_ints(p.placements@) == pack_spec(dims@).placements
                &&& forall|k: int| 0 <= k < dims@.len() ==>
                    (#[trigger] p.placements@[k]).x + dims@[k].width <= p.width
                    && p.placements@[k].y + dims@[k].height <= p.height
                &&& forall|k1: int, k2: int|
                    0 <= k1 < dims@.len() && 0 <= k2 < dims@.len() && k1 != k2 ==>
                    rects_disjoint(
                        p.placements@[k1].x as int, p.placements@[k1].y as int,
                        dims@[k1].width as int, dims@[k1].height as int,
                        p.placements@[k2].x as int, p.placements@[k2].y as int,
                        dims@[k2].width as int, dims@[k2].height as int,
                    )
            },
            Err(e) => e == PackError::AtlasTooLarge,
        },
{
    let n = dims.len();
    if n == 0 {
        proof {
            assert(placements_ints(Seq::<Placement>::empty()) =~= pack_spec(dims@).placements);
        }
        return Ok(Packing { width: 0, height: 0, placements: Vec::new() });
    }

    let entries = build_entries(dims);
    let sorted = sort_entries(&entries);
    proof {
        lemma_sort_len(entries_of(dims@));
        lemma_sum_bounds(dims@);
    }

    // Every sorted entry carries the dimensions of the input sprite it is
    // tagged with, and every input index appears among the sorted entries.
    proof {
        let ents = entries_of(dims@);
        assert forall|j: int| 0 <= j < n implies (#[trigger] sorted@[j]).index < n
            && dims@[sorted@[j].index as int].width == sorted@[j].width
            && dims@[sorted@[j].index as int].height == sorted@[j].height
            && sorted@[j].width <= max_width(dims@) by {
            assert(sorted@.contains(sorted@[j]));
            lemma_sort_contains(ents, sorted@[j]);
            let k = choose|k: int| 0 <= k < ents.len() && ents[k] == sorted@[j];
            assert(ents[k].index == k as usize);
        }
    }

    let cols: u64 = ceil_sqrt_exec(n as u64);
    let sum_w = sum_widths_exec(dims);
    let sum_h = sum_heights_exec(dims);
    let avg_w: u128 = sum_w / (n as u128);
    let avg_h: u128 = sum_h / (n as u128);
    proof {
        lemma_avg_bound(dims@);
        assert(avg_w as int == sum_widths(dims@) / (n as int));
        assert(avg_h as int == sum_heights(dims@) / (n as int));
        assert((avg_w as int) * (cols as int) <= 0xffff_ffff * 0xffff_ffff_ffff_ffff)
            by (nonlinear_arith)
            requires
                0 <= avg_w <= 0xffff_ffff,
                0 <= cols <= 0xffff_ffff_ffff_ffff;
    }
    let target: u128 = avg_w * (cols as u128);
    let maxw = max_width_exec(dims);
    let width_grown = grow_exec(grow_exec(2, target), maxw as u128);
    let height_grown = grow_exec(2, avg_h);

    let ghost st0 = ShelfState {
        width: width_grown as int,
        height: height_grown as int,
        x_pos: 0,
        y_pos: 0,
        row_height: 0,
        placements: Seq::new(dims@.len(), |i: int| (0, 0)),
    };
    proof {
        assert(target as int == (sum_widths(dims@) / (n as int)) * ceil_sqrt(n as int));
        assert(st0.width == grow_to(grow_to(2, (sum_widths(dims@) / (n as int)) * ceil_sqrt(n as int)), max_width(dims@)));
        assert(st0.height == grow_to(2, sum_heights(dims@) / (n as int)));
        assert(shelf_fold(st0, sort_by_height(entries_of(dims@))) == pack_spec(dims@));
    }

    if width_grown > (u32::MAX as u128) || height_grown > (u32::MAX as u128) {
        proof {
            lemma_fold_monotone(st0, sorted@);
        }
        return Err(PackError::AtlasTooLarge);
    }

    let width: u64 = width_grown as u64;
    let mut height: u64 = height_grown as u64;
    let mut x_pos: u64 = 0;
    let mut y_pos: u64 = 0;
    let mut row_h: u64 = 0;

    let mut places: Vec<Placement> = Vec::new();
    let mut z: usize = 0;
    while z < n
        invariant
            z <= n,
            places@.len() == z,
            forall|k: int| 0 <= k < z ==> #[trigger] places@[k] == (Placement { x: 0u32, y: 0u32 }),
        decreases n - z,
    {
        places.push(Placement { x: 0, y: 0 });
        z = z + 1;
    }
    proof {
        assert(placements_ints(places@) =~= st0.placements);
        assert(sorted@.skip(0) =~= sorted@);
        assert(exec_state(width, height, x_pos, y_pos, row_h, places@) == st0);
    }

    let ghost mut pl: Seq<(int, int)> = Seq::empty();
    let mut i: usize = 0;
    while i < n
        invariant
            i <= n,
            places@.len() == n,
            1 <= height <= u32::MAX,
            x_pos <= width,
            y_pos <= height,
            row_h <= height,
            shelf_fold(exec_state(width, height, x_pos, y_pos, row_h, places@), sorted@.skip(i as int))
                == shelf_fold(st0, sorted@),
            pl.len() == i,
            forall|j: int| 0 <= j < i ==> 0 <= (#[trigger] pl[j]).0
                && 0 <= pl[j].1
                && pl[j].0 + sorted@[j].width <= width
                && pl[j].1 + sorted@[j].height <= height,
            forall|j1: int, j2: int| 0 <= j1 < j2 < i ==> rects_disjoint(
                (#[trigger] pl[j1]).0, pl[j1].1, sorted@[j1].width as int, sorted@[j1].height as int,
                (#[trigger] pl[j2]).0, pl[j2].1, sorted@[j2].width as int, sorted@[j2].height as int,
            ),
            forall|j: int| 0 <= j < i ==> (#[trigger] pl[j]).1 <= y_pos,
            forall|j: int| 0 <= j < i && (#[trigger] pl[j]).1 == y_pos && sorted@[j].height > 0
                ==> pl[j].0 + sorted@[j].width <= x_pos && sorted@[j].height <= row_h,
            forall|j: int| 0 <= j < i && (#[trigger] pl[j]).1 < y_pos
                ==> pl[j].1 + sorted@[j].height <= y_pos,
            forall|k: int| #![trigger places@[k]] 0 <= k < n
                && (exists|j: int| 0 <= j < i && (#[trigger] sorted@[j]).index as int == k)
                ==> exists|j: int| 0 <= j < i && (#[trigger] sorted@[j]).index as int == k
                    && places@[k].x as int == pl[j].0 && places@[k].y as int == pl[j].1,
        decreases n - i,
    {
        let e = sorted[i];
        let ghost pre = exec_state(width, height, x_pos, y_pos, row_h, places@);

        if x_pos + (e.width as u64) > width {
            x_pos = 0;
            y_pos = y_pos + row_h;
            row_h = 0;
        }
        proof {
            assert forall|j: int| 0 <= j < i implies (#[trigger] pl[j]).1 <= y_pos
                && (pl[j].1 < y_pos ==> pl[j].1 + sorted@[j].height <= y_pos)
                && (pl[j].1 == y_pos && sorted@[j].height > 0
                    ==> pl[j].0 + sorted@[j].width <= x_pos && sorted@[j].height <= row_h) by {
            }
        }

        let ghost h_before = height;
        let needed: u64 = y_pos + (e.height as u64);
        while needed > height
            invariant
                1 <= height,
                height <= 0xf_ffff_ffff,
                height == h_before || height <= 2 * needed,
                grow_to(h_before as int, needed as int) == grow_to(height as int, needed as int),
            decreases (if needed > height { needed as int - height } else { 0int }),
        {
            height = height * 2;
        }
        proof {
            assert(height as int == grow_to(h_before as int, needed as int));
        }

        if height > (u32::MAX as u64) {
            proof {
                let stepped = shelf_step(pre, e);
                assert(stepped.height == height);
                assert(stepped.placements.len() == n);
                assert forall|j: int| 0 <= j < sorted@.skip(i as int + 1).len() implies
                    (#[trigger] sorted@.skip(i as int + 1)[j]).index < stepped.placements.len() by {
                    assert(sorted@.skip(i as int + 1)[j] == sorted@[i as int + 1 + j]);
                }
                lemma_fold_monotone(stepped, sorted@.skip(i as int + 1));
                assert(sorted@.skip(i as int)[0] == sorted@[i as int]);
                assert(sorted@.skip(i as int).drop_first() =~= sorted@.skip(i as int + 1));
                assert(shelf_fold(pre, sorted@.skip(i as int))
                    == shelf_fold(stepped, sorted@.skip(i as int + 1)));
                assert(pack_spec(dims@).height > u32::MAX);
            }
            return Err(PackError::AtlasTooLarge);
        }

        let px: u32 = x_pos as u32;
        let py: u32 = y_pos as u32;
        places.set(e.index, Placement { x: px, y: py });
        proof {
            pl = pl.push((x_pos as int, y_pos as int));
        }
        x_pos = x_pos + (e.width as u64);
        if (e.height as u64) > row_h {
            row_h = e.height as u64;
        }

        proof {
            let post = exec_state(width, height, x_pos, y_pos, row_h, places@);
            let stepped = shelf_step(pre, e);
            assert(placements_ints(places@) =~= pre.placements.update(e.index as int, (px as int, py as int)));
            assert(post == stepped);
            assert(sorted@.skip(i as int)[0] == sorted@[i as int]);
            assert(sorted@.skip(i as int).drop_first() =~= sorted@.skip(i as int + 1));
            assert(shelf_fold(pre, sorted@.skip(i as int)) == shelf_fold(post, sorted@.skip(i as int + 1)));

            // The new placement is disjoint from every earlier one: earlier
            // rows end at or above the current row top, and earlier sprites
            // of this row end at or left of the cursor.
            assert forall|j: int| 0 <= j < i implies rects_disjoint(
                (#[trigger] pl[j]).0, pl[j].1, sorted@[j].width as int, sorted@[j].height as int,
                px as int, py as int, e.width as int, e.height as int,
            ) by {
                if sorted@[j].width != 0 && sorted@[j].height != 0 && e.width != 0 && e.height != 0 {
                    if pl[j].1 == py as int {
                        assert(pl[j].0 + sorted@[j].width <= px as int);
                    } else {
                        assert(pl[j].1 + sorted@[j].height <= py as int);
                    }
                }
            }
        }
        i = i + 1;
    }

    proof {
        assert(sorted@.skip(n as int) =~= Seq::<Entry>::empty());
        let fin = exec_state(width, height, x_pos, y_pos, row_h, places@);
        assert(fin == pack_spec(dims@));
        assert(pack_fits(dims@));

        assert forall|k: int| 0 <= k < n implies
            (#[trigger] places@[k]).x + dims@[k].width <= width
            && places@[k].y + dims@[k].height <= height by {
            let ents = entries_of(dims@);
            assert(ents.contains(ents[k]));
            lemma_sort_contains(ents, ents[k]);
            let j0 = choose|j: int| 0 <= j < sorted@.len() && sorted@[j] == ents[k];
            assert(0 <= j0 < n && (sorted@[j0]).index as int == k);
            assert(exists|j: int| 0 <= j < n && (#[trigger] sorted@[j]).index as int == k);
            let j = choose|j: int| 0 <= j < n && (#[trigger] sorted@[j]).index as int == k
                && places@[k].x as int == pl[j].0 && places@[k].y as int == pl[j].1;
            assert(pl[j].0 + sorted@[j].width <= width);
        }
        assert forall|k1: int, k2: int|
            0 <= k1 < n && 0 <= k2 < n && k1 != k2 implies
            rects_disjoint(
                (#[trigger] places@[k1]).x as int, places@[k1].y as int,
                dims@[k1].width as int, dims@[k1].height as int,
                (#[trigger] places@[k2]).x as int, places@[k2].y as int,
                dims@[k2].width as int, dims@[k2].height as int,
            ) by {
            let ents = entries_of(dims@);
            assert(ents.contains(ents[k1]));
            assert(ents.contains(ents[k2]));
            lemma_sort_contains(ents, ents[k1]);
            lemma_sort_contains(ents, ents[k2]);
            let c1 = choose|j: int| 0 <= j < sorted@.len() && sorted@[j] == ents[k1];
            let c2 = choose|j: int| 0 <= j < sorted@.len() && sorted@[j] == ents[k2];
            assert(exists|j: int| 0 <= j < n && (#[trigger] sorted@[j]).index as int == k1);
            assert(exists|j: int| 0 <= j < n && (#[trigger] sorted@[j]).index as int == k2);
            let j1 = choose|j: int| 0 <= j < n && (#[trigger] sorted@[j]).index as int == k1
                && places@[k1].x as int == pl[j].0 && places@[k1].y as int == pl[j].1;
            let j2 = choose|j: int| 0 <= j < n && (#[trigger] sorted@[j]).index as int == k2
                && places@[k2].x as int == pl[j].0 && places@[k2].y as int == pl[j].1;
            assert(j1 != j2);
        }
    }
    Ok(Packing { width: width as u32, height: height as u32, placements: places })
}

} // verus!


