//! Walking the image: in one pass, or tile by tile with a merge at the end.
//!
//! What is computed for a pixel is up to the caller, who passes it as the
//! closure `shade`, from column and row to a value of any type. Both ways
//! of walking the image yield one value for each pixel, in raster order.

use vstd::prelude::*;
use vstd::seq_lib::*;
use crate::merge::{
    in_key_order, into_values, is_stable_sort_of, key_of, keys, lemma_same_entries_same_keys,
    sort_by_pixel, values,
};
use crate::raster::{
    lemma_raster_order_sorted, lemma_row_major_is_total_order, row_major_le, Raster,
};
use crate::tiling::{lemma_tile_start, split, tile_count, tile_start, tiling, Tile};

verus! {

/// The pixels at the positions of `tile`, as far as those positions exist
/// in `order`.
pub open spec fn span(order: Seq<(u32, u32)>, tile: Tile) -> Seq<(u32, u32)> {
    let lo = if tile.start <= order.len() { tile.start as int } else { order.len() as int };
    let hi = if tile.end <= order.len() { tile.end as int } else { order.len() as int };
    if lo <= hi {
        order.subrange(lo, hi)
    } else {
        Seq::empty()
    }
}

/// `shade` accepts every pixel of the raster.
pub open spec fn can_shade<T, F: Fn(u32, u32) -> T>(shade: F, raster: Raster) -> bool {
    forall|i: u32, j: u32| #[trigger] raster.spec_holds(i, j) ==> call_requires(shade, (i, j))
}

/// Every entry of `s` carries a value that `shade` gave for its pixel.
pub open spec fn shaded_by<T, F: Fn(u32, u32) -> T>(shade: F, s: Seq<(u32, u32, T)>) -> bool {
    forall|n: int| 0 <= n < s.len() ==> call_ensures(shade, (s[n].0, s[n].1), (#[trigger] s[n]).2)
}

/// Each pixel of `order` joined with the value at the same position.
pub open spec fn tagged<T>(order: Seq<(u32, u32)>, vals: Seq<T>) -> Seq<(u32, u32, T)>
    recommends
        order.len() == vals.len(),
{
    Seq::new(order.len(), |k: int| (order[k].0, order[k].1, vals[k]))
}

/// What holds of the tile buffers once every worker has shaded its tile.
pub open spec fn tiles_rendered<T, F: Fn(u32, u32) -> T>(
    raster: Raster,
    workers: nat,
    shade: F,
    buffers: Seq<Seq<(u32, u32, T)>>,
) -> bool {
    &&& buffers.len() == tile_count(workers)
    &&& forall|t: int|
        0 <= t < buffers.len() ==> keys(#[trigger] buffers[t]) == span(
            raster.order(),
            tiling(raster.spec_pixel_count(), workers)[t],
        )
    &&& forall|t: int| 0 <= t < buffers.len() ==> shaded_by(shade, #[trigger] buffers[t])
}

/// Shades the pixels of one tile, in raster order, and tags each value with
/// its pixel. Positions of the tile beyond the image are passed over.
pub fn render_tile<T, F: Fn(u32, u32) -> T>(raster: &Raster, tile: Tile, shade: &F) -> (out: Vec<
    (u32, u32, T),
>)
    requires
        can_shade(*shade, *raster),
    ensures
        keys(out@) == span(raster.order(), tile),
        shaded_by(*shade, out@),
{
    let count: u64 = raster.pixel_count();
    let lo: u64 = if tile.start <= count { tile.start } else { count };
    let end: u64 = if tile.end <= count { tile.end } else { count };
    let hi: u64 = if end < lo { lo } else { end };
    let mut out: Vec<(u32, u32, T)> = Vec::new();
    let mut k: u64 = lo;
    while k < hi
        invariant
            can_shade(*shade, *raster),
            count == raster.spec_pixel_count(),
            lo <= k <= hi <= count,
            out@.len() == k - lo,
            forall|n: int|
                0 <= n < out@.len() ==> key_of(#[trigger] out@[n]) == raster.order()[lo + n],
            shaded_by(*shade, out@),
        decreases hi - k,
    {
        match raster.pixel_at(k) {
            Some((i, j)) => {
                let value = shade(i, j);
                out.push((i, j, value));
            },
            None => {},
        }
        k += 1;
    }
    proof {
        let order = raster.order();
        assert(order.len() == count);
        if lo <= end {
            assert(keys(out@).len() == order.subrange(lo as int, hi as int).len());
            assert forall|n: int| 0 <= n < keys(out@).len() implies keys(out@)[n]
                == order.subrange(lo as int, hi as int)[n] by {
                assert(key_of(out@[n]) == order[lo + n]);
            }
            assert(keys(out@) =~= order.subrange(lo as int, hi as int));
        } else {
            assert(keys(out@) =~= Seq::<(u32, u32)>::empty());
        }
    }
    out
}

/// Shades every pixel of the image in a single pass, row by row from the
/// top and from left to right within a row.
pub fn render_sequential<T, F: Fn(u32, u32) -> T>(raster: &Raster, shade: &F) -> (out: Vec<T>)
    requires
        can_shade(*shade, *raster),
    ensures
        out@.len() == raster.spec_pixel_count(),
        shaded_by(*shade, tagged(raster.order(), out@)),
{
    let whole = Tile { start: 0, end: raster.pixel_count() };
    let entries = render_tile(raster, whole, shade);
    let ghost order = raster.order();
    proof {
        assert(span(order, whole) =~= order);
        lemma_tagged_rebuilds(entries@, order);
    }
    into_values(entries)
}

/// Whether the entries name every pixel of the image once, in raster order.
pub fn in_raster_order<T>(raster: &Raster, entries: &Vec<(u32, u32, T)>) -> (b: bool)
    ensures
        b <==> keys(entries@) == raster.order(),
{
    let count: u64 = raster.pixel_count();
    if entries.len() as u64 != count {
        assert(keys(entries@).len() != raster.order().len());
        return false;
    }
    let mut k: usize = 0;
    while k < entries.len()
        invariant
            entries@.len() == count,
            count == raster.spec_pixel_count(),
            k <= entries@.len(),
            forall|n: int| 0 <= n < k ==> key_of(#[trigger] entries@[n]) == raster.order()[n],
        decreases entries@.len() - k,
    {
        match raster.pixel_at(k as u64) {
            Some((i, j)) => {
                if entries[k].0 != i || entries[k].1 != j {
                    assert(keys(entries@)[k as int] != raster.order()[k as int]);
                    return false;
                }
            },
            None => {},
        }
        k += 1;
    }
    assert(keys(entries@) =~= raster.order());
    true
}

/// Puts the shaded pixels that the workers handed back into raster order
/// and returns their values. `None` when the workers did not, between
/// them, shade every pixel of the image exactly once.
pub fn merge_tiles<T>(raster: &Raster, parts: Vec<(u32, u32, T)>) -> (out: Option<Vec<T>>)
    ensures
        out.is_some() <==> keys(parts@).to_multiset() == raster.order().to_multiset(),
        out matches Some(vals) ==> vals@.len() == raster.spec_pixel_count() && is_stable_sort_of(
            tagged(raster.order(), vals@),
            parts@,
        ),
{
    let ghost order = raster.order();
    let sorted = sort_by_pixel(parts);
    proof {
        lemma_same_entries_same_keys(sorted@, parts@);
    }
    if in_raster_order(raster, &sorted) {
        proof {
            lemma_tagged_rebuilds(sorted@, order);
        }
        Some(into_values(sorted))
    } else {
        proof {
            if keys(parts@).to_multiset() == order.to_multiset() {
                lemma_sorted_cover_is_raster_order(*raster, sorted@);
            }
        }
        None
    }
}

/// Shades every pixel of the image tile by tile: the image is split for
/// `workers` workers, each tile is shaded into a buffer of its own, and the
/// buffers are merged. The result is what a single pass promises.
pub fn render_tiled<T, F: Fn(u32, u32) -> T>(raster: &Raster, workers: usize, shade: &F) -> (out:
    Vec<T>)
    requires
        can_shade(*shade, *raster),
    ensures
        out@.len() == raster.spec_pixel_count(),
        shaded_by(*shade, tagged(raster.order(), out@)),
{
    let tiles = split(raster.pixel_count(), workers);
    let mut parts: Vec<(u32, u32, T)> = Vec::new();
    let ghost mut buffers: Seq<Seq<(u32, u32, T)>> = Seq::empty();
    let mut t: usize = 0;
    while t < tiles.len()
        invariant
            can_shade(*shade, *raster),
            tiles@ == tiling(raster.spec_pixel_count(), workers as nat),
            t <= tiles@.len(),
            buffers.len() == t,
            parts@ == buffers.flatten(),
            forall|u: int|
                0 <= u < t ==> keys(#[trigger] buffers[u]) == span(raster.order(), tiles@[u]),
            forall|u: int| 0 <= u < t ==> shaded_by(*shade, #[trigger] buffers[u]),
        decreases tiles@.len() - t,
    {
        let mut buffer = render_tile(raster, tiles[t], shade);
        proof {
            buffers.lemma_flatten_push(buffer@);
            buffers = buffers.push(buffer@);
        }
        parts.append(&mut buffer);
        t += 1;
    }
    let ghost gathered = parts@;
    let merged = merge_tiles(raster, parts);
    proof {
        assert(tiles_rendered(*raster, workers as nat, *shade, buffers));
        lemma_tiles_name_each_pixel_once(*raster, workers as nat, *shade, buffers, gathered);
    }
    let out = merged.unwrap();
    proof {
        lemma_merge_keeps_shading(*shade, gathered, tagged(raster.order(), out@));
    }
    out
}

/// Entries whose pixels are `order` are `order` tagged with their values.
proof fn lemma_tagged_rebuilds<T>(entries: Seq<(u32, u32, T)>, order: Seq<(u32, u32)>)
    requires
        keys(entries) == order,
    ensures
        tagged(order, values(entries)) == entries,
{
    assert(keys(entries).len() == entries.len());
    assert forall|n: int| 0 <= n < entries.len() implies tagged(order, values(entries))[n]
        == entries[n] by {
        assert(keys(entries)[n] == key_of(entries[n]));
    }
    assert(tagged(order, values(entries)) =~= entries);
}

/// Sorted entries that name every pixel of the image exactly once name
/// them in raster order.
pub proof fn lemma_sorted_cover_is_raster_order<T>(raster: Raster, s: Seq<(u32, u32, T)>)
    requires
        in_key_order(s),
        keys(s).to_multiset() == raster.order().to_multiset(),
    ensures
        keys(s) == raster.order(),
{
    let leq = |a: (u32, u32), b: (u32, u32)| row_major_le(a, b);
    lemma_row_major_is_total_order();
    lemma_raster_order_sorted(raster.spec_width() as nat, raster.spec_height() as nat);
    assert forall|a: int, b: int| 0 <= a < b < keys(s).len() implies #[trigger] leq(
        keys(s)[a],
        keys(s)[b],
    ) by {
        assert(row_major_le(key_of(s[a]), key_of(s[b])));
    }
    lemma_sorted_unique(keys(s), raster.order(), leq);
}

/// The buffers of the first `n` tiles, one after another, hold the first
/// pixels of the image in raster order, up to where tile `n` begins.
proof fn lemma_buffers_prefix<T, F: Fn(u32, u32) -> T>(
    raster: Raster,
    workers: nat,
    shade: F,
    buffers: Seq<Seq<(u32, u32, T)>>,
    n: nat,
)
    requires
        tiles_rendered(raster, workers, shade, buffers),
        n <= buffers.len(),
    ensures
        tile_start(raster.spec_pixel_count(), tile_count(workers), n) <= raster.order().len(),
        keys(buffers.take(n as int).flatten()) == raster.order().take(
            tile_start(raster.spec_pixel_count(), tile_count(workers), n) as int,
        ),
        shaded_by(shade, buffers.take(n as int).flatten()),
    decreases n,
{
    let total = raster.spec_pixel_count();
    let count = tile_count(workers);
    let order = raster.order();
    assert(total <= u64::MAX) by (nonlinear_arith)
        requires
            total == raster.spec_width() * raster.spec_height(),
            raster.spec_width() <= u32::MAX,
            raster.spec_height() <= u32::MAX,
    ;
    if n == 0 {
        lemma_tile_start(total, count, 0);
        assert(buffers.take(0) =~= Seq::<Seq<(u32, u32, T)>>::empty());
        assert(keys(buffers.take(0).flatten()) =~= order.take(0));
    } else {
        let t = (n - 1) as nat;
        lemma_buffers_prefix(raster, workers, shade, buffers, t);
        lemma_tile_start(total, count, t);
        let before = buffers.take(t as int);
        let buffer = buffers[t as int];
        assert(buffers.take(n as int) =~= before.push(buffer));
        before.lemma_flatten_push(buffer);
        let lo = tile_start(total, count, t);
        let hi = tile_start(total, count, n);
        let tile = tiling(total, workers)[t as int];
        assert(tile.start == lo && tile.end == hi);
        assert(keys(buffer) == order.subrange(lo as int, hi as int));
        assert(keys(before.flatten() + buffer) =~= keys(before.flatten()) + keys(buffer));
        assert(order.take(lo as int) + order.subrange(lo as int, hi as int) =~= order.take(
            hi as int,
        ));
        assert forall|m: int| 0 <= m < (before.flatten() + buffer).len() implies call_ensures(
            shade,
            ((before.flatten() + buffer)[m].0, (before.flatten() + buffer)[m].1),
            (#[trigger] (before.flatten() + buffer)[m]).2,
        ) by {
            if m < before.flatten().len() {
                assert((before.flatten() + buffer)[m] == before.flatten()[m]);
            } else {
                assert((before.flatten() + buffer)[m] == buffer[m - before.flatten().len()]);
            }
        }
    }
}

/// Merging leaves every value with the pixel it was computed for: what
/// held of each entry before the merge holds of each entry after it.
pub proof fn lemma_merge_keeps_shading<T, F: Fn(u32, u32) -> T>(
    shade: F,
    parts: Seq<(u32, u32, T)>,
    merged: Seq<(u32, u32, T)>,
)
    requires
        shaded_by(shade, parts),
        merged.to_multiset() == parts.to_multiset(),
    ensures
        shaded_by(shade, merged),
{
    broadcast use group_to_multiset_ensures;

    assert forall|n: int| 0 <= n < merged.len() implies call_ensures(
        shade,
        (merged[n].0, merged[n].1),
        (#[trigger] merged[n]).2,
    ) by {
        assert(merged.contains(merged[n]));
        assert(merged.to_multiset().count(merged[n]) > 0);
        assert(parts.contains(merged[n]));
        let m = choose|m: int| 0 <= m < parts.len() && parts[m] == merged[n];
        assert(call_ensures(shade, (parts[m].0, parts[m].1), parts[m].2));
    }
}

/// Once every worker has shaded its tile of a split of the image, the
/// entries of all buffers, arranged in any way, name every pixel of the
/// image exactly once, and each carries a value that `shade` gave for its
/// pixel.
pub proof fn lemma_tiles_name_each_pixel_once<T, F: Fn(u32, u32) -> T>(
    raster: Raster,
    workers: nat,
    shade: F,
    buffers: Seq<Seq<(u32, u32, T)>>,
    parts: Seq<(u32, u32, T)>,
)
    requires
        tiles_rendered(raster, workers, shade, buffers),
        parts.to_multiset() == buffers.flatten().to_multiset(),
    ensures
        keys(parts).to_multiset() == raster.order().to_multiset(),
        shaded_by(shade, parts),
{
    let total = raster.spec_pixel_count();
    let count = tile_count(workers);
    let order = raster.order();
    let whole = buffers.flatten();
    lemma_buffers_prefix(raster, workers, shade, buffers, count);
    assert(buffers.take(count as int) =~= buffers);
    lemma_tile_start(total, count, 0);
    assert(order.take(total as int) =~= order);
    lemma_same_entries_same_keys(parts, whole);
    lemma_merge_keeps_shading(shade, whole, parts);
}

/// The tiled walk emits what the single pass emits. Let every worker
/// shade its tile of a split of the image, and let `parts` hold the
/// entries of all their buffers, arranged in any way. Then `parts` names
/// every pixel exactly once, so the merge succeeds; and the values `vals`
/// that it returns, one for each pixel, stand in raster order, each
/// computed by `shade` for the pixel at its position.
pub proof fn lemma_tiled_walk_matches_single_pass<T, F: Fn(u32, u32) -> T>(
    raster: Raster,
    workers: nat,
    shade: F,
    buffers: Seq<Seq<(u32, u32, T)>>,
    parts: Seq<(u32, u32, T)>,
    vals: Seq<T>,
)
    requires
        tiles_rendered(raster, workers, shade, buffers),
        parts.to_multiset() == buffers.flatten().to_multiset(),
        vals.len() == raster.spec_pixel_count(),
        is_stable_sort_of(tagged(raster.order(), vals), parts),
    ensures
        keys(parts).to_multiset() == raster.order().to_multiset(),
        shaded_by(shade, tagged(raster.order(), vals)),
{
    lemma_tiles_name_each_pixel_once(raster, workers, shade, buffers, parts);
    lemma_merge_keeps_shading(shade, parts, tagged(raster.order(), vals));
}

} // verus!
