//! What holds of the map operations together.
use vstd::prelude::*;

use crate::chunk::{
    add_pixel_children, add_pixel_view, add_session_children, add_session_view, children_full,
    full_grids, get_children, get_view, is_full_grid, lemma_paint_shape, paint, fits, add_pixel_fits,
    children_fit,
    ChunkView, Session, GetError,
};
use crate::pixel::Pixel;

verus! {

// ---------------------------------------------------------------------------
// What `get_chunk` finds
// ---------------------------------------------------------------------------

/// Law: `get_chunk` only ever finds a leaf whose id is the address, and only a
/// leaf answers `NotAdress`.
pub proof fn lemma_get_finds_leaf(v: ChunkView, a: Seq<char>)
    ensures
        get_view(v, a) matches Ok(l) ==> (l matches ChunkView::Leaf { id, .. } && id == a),
        get_view(v, a) == Err::<ChunkView, GetError>(GetError::NotAdress) ==> (
        v matches ChunkView::Leaf { id, .. } && id != a),
    decreases v, 0int,
{
    match v {
        ChunkView::Leaf { .. } => {},
        ChunkView::Container { children, .. } => {
            lemma_get_children_finds_leaf(children, 0, a);
        },
    }
}

proof fn lemma_get_children_finds_leaf(cs: Seq<ChunkView>, i: int, a: Seq<char>)
    ensures
        get_children(cs, i, a) matches Ok(l) ==> (l matches ChunkView::Leaf { id, .. } && id == a),
        get_children(cs, i, a) != Err::<ChunkView, GetError>(GetError::NotAdress),
    decreases cs, cs.len() - i,
{
    if 0 <= i < cs.len() {
        lemma_get_finds_leaf(cs[i], a);
        lemma_get_children_finds_leaf(cs, i + 1, a);
    }
}

// ---------------------------------------------------------------------------
// A registered session is found again
// ---------------------------------------------------------------------------

/// The leaf `l` with `s` added to its sessions.
pub open spec fn with_session(l: ChunkView, s: Session) -> ChunkView {
    match l {
        ChunkView::Leaf { id, sessions, pixels } => ChunkView::Leaf { id, sessions: sessions.push(s), pixels },
        _ => l,
    }
}

/// Law: when `get_chunk(a)` finds a leaf, `add_session(s, a)` succeeds, and
/// afterwards `get_chunk(a)` finds that leaf with `s` at the end of its
/// sessions.
pub proof fn lemma_session_then_get(v: ChunkView, s: Session, a: Seq<char>)
    requires
        get_view(v, a) is Ok,
    ensures
        add_session_view(v, s, a) matches Ok(w) && get_view(w, a) == Ok::<ChunkView, GetError>(
            with_session(get_view(v, a)->Ok_0, s),
        ),
    decreases v, 0int,
{
    match v {
        ChunkView::Leaf { .. } => {},
        ChunkView::Container { id, children } => {
            lemma_session_then_get_children(children, 0, s, a);
            let cs2 = add_session_children(children, 0, s, a)->Ok_0;
            let w = ChunkView::Container { id, children: cs2 };
            assert(get_view(w, a) == get_children(cs2, 0, a));
        },
    }
}

proof fn lemma_session_then_get_children(cs: Seq<ChunkView>, i: int, s: Session, a: Seq<char>)
    requires
        0 <= i,
        get_children(cs, i, a) is Ok,
    ensures
        add_session_children(cs, i, s, a) matches Ok(cs2) && cs2.len() == cs.len() && (forall|k: int|
            0 <= k < i ==> #[trigger] cs2[k] == cs[k]) && get_children(cs2, i, a) == Ok::<
            ChunkView,
            GetError,
        >(with_session(get_children(cs, i, a)->Ok_0, s)),
    decreases cs, cs.len() - i,
{
    if 0 <= i < cs.len() {
        match get_view(cs[i], a) {
            Ok(r) => {
                lemma_session_then_get(cs[i], s, a);
                let w = add_session_view(cs[i], s, a)->Ok_0;
                let cs2 = cs.update(i, w);
                assert(cs2[i] == w);
            },
            Err(e) => {
                lemma_get_finds_leaf(cs[i], a);
                assert(e == GetError::NotAdress);
                lemma_session_then_get_children(cs, i + 1, s, a);
                let cs2 = add_session_children(cs, i + 1, s, a)->Ok_0;
                assert(cs2[i] == cs[i]);
                assert(add_session_view(cs[i], s, a) == Err::<ChunkView, crate::chunk::AddSessionError>(
                    crate::chunk::AddSessionError::NotFound,
                ));
            },
        }
    }
}

// ---------------------------------------------------------------------------
// Every leaf keeps a full grid
// ---------------------------------------------------------------------------

/// Law: painting keeps every grid of the map full (`SIZE` by `SIZE`).
pub proof fn lemma_add_pixel_keeps_full(v: ChunkView, adds: Seq<Pixel>)
    requires
        full_grids(v),
    ensures
        add_pixel_view(v, adds) matches Some((w, _)) ==> full_grids(w),
    decreases v, 0int,
{
    match v {
        ChunkView::Leaf { pixels, .. } => {
            assert(fits(pixels, adds));
            lemma_paint_shape(pixels, adds);
        },
        ChunkView::Container { id, children } => {
            lemma_add_pixel_children_keep_full(children, 0, adds);
        },
    }
}

proof fn lemma_add_pixel_children_keep_full(cs: Seq<ChunkView>, i: int, adds: Seq<Pixel>)
    requires
        0 <= i,
        children_full(cs, i),
    ensures
        add_pixel_children(cs, i, adds) matches Some((cs2, _)) ==> (children_full(cs2, i)
            && cs2.len() == cs.len() && forall|k: int| 0 <= k < i ==> #[trigger] cs2[k] == cs[k]),
    decreases cs, cs.len() - i,
{
    if 0 <= i < cs.len() {
        lemma_add_pixel_keeps_full(cs[i], adds);
        lemma_add_pixel_children_keep_full(cs, i + 1, adds);
        match add_pixel_view(cs[i], adds) {
            Some((c, _)) => {
                lemma_children_full_update(cs, i, i, c);
            },
            None => {
                if add_pixel_children(cs, i + 1, adds) is Some {
                    let cs2 = add_pixel_children(cs, i + 1, adds)->Some_0.0;
                    assert(cs2[i] == cs[i]);
                }
            },
        }
    }
}

/// Replacing the `j`-th chunk by one with full grids keeps the children from the `i`-th on full.
proof fn lemma_children_full_update(cs: Seq<ChunkView>, i: int, j: int, c: ChunkView)
    requires
        0 <= i <= j < cs.len(),
        children_full(cs, i),
        full_grids(c),
    ensures
        children_full(cs.update(j, c), i),
    decreases cs.len() - i,
{
    if i < cs.len() {
        if i + 1 <= j {
            lemma_children_full_update(cs, i + 1, j, c);
        } else {
            lemma_children_full_unchanged(cs, cs.update(j, c), i + 1);
        }
    }
}

proof fn lemma_children_full_unchanged(cs: Seq<ChunkView>, ds: Seq<ChunkView>, i: int)
    requires
        0 <= i,
        cs.len() == ds.len(),
        forall|k: int| i <= k < cs.len() ==> #[trigger] cs[k] == ds[k],
        children_full(cs, i),
    ensures
        children_full(ds, i),
    decreases cs.len() - i,
{
    if i < cs.len() {
        lemma_children_full_unchanged(cs, ds, i + 1);
    }
}

/// Law: registering a session keeps every grid of the map full.
pub proof fn lemma_add_session_keeps_full(v: ChunkView, s: Session, a: Seq<char>)
    requires
        full_grids(v),
    ensures
        add_session_view(v, s, a) matches Ok(w) ==> full_grids(w),
    decreases v, 0int,
{
    match v {
        ChunkView::Leaf { .. } => {},
        ChunkView::Container { children, .. } => {
            lemma_add_session_children_keep_full(children, 0, s, a);
        },
    }
}

proof fn lemma_add_session_children_keep_full(cs: Seq<ChunkView>, i: int, s: Session, a: Seq<char>)
    requires
        0 <= i,
        children_full(cs, i),
    ensures
        add_session_children(cs, i, s, a) matches Ok(cs2) ==> (children_full(cs2, i)
            && cs2.len() == cs.len() && forall|k: int| 0 <= k < i ==> #[trigger] cs2[k] == cs[k]),
    decreases cs, cs.len() - i,
{
    if 0 <= i < cs.len() {
        lemma_add_session_keeps_full(cs[i], s, a);
        lemma_add_session_children_keep_full(cs, i + 1, s, a);
        match add_session_view(cs[i], s, a) {
            Ok(c) => {
                lemma_children_full_update(cs, i, i, c);
            },
            Err(_) => {
                if add_session_children(cs, i + 1, s, a) is Ok {
                    let cs2 = add_session_children(cs, i + 1, s, a)->Ok_0;
                    assert(cs2[i] == cs[i]);
                }
            },
        }
    }
}

// ---------------------------------------------------------------------------
// The last pixel written at a place wins
// ---------------------------------------------------------------------------

/// The colour at `(x, y)` after `adds`: that of the last pixel of `adds` at
/// `(x, y)`, or the grid's own when there is none.
pub open spec fn last_color(g: Seq<Seq<Pixel>>, adds: Seq<Pixel>, x: int, y: int) -> i8
    decreases adds.len(),
{
    if adds.len() == 0 {
        g[x][y].color
    } else if adds.last().x == x && adds.last().y == y {
        adds.last().color
    } else {
        last_color(g, adds.drop_last(), x, y)
    }
}

/// Law: after painting, each cell holds the colour of the last pixel painted
/// at its place (its own colour when none was), and keeps its coordinates.
pub proof fn lemma_paint_cell(g: Seq<Seq<Pixel>>, adds: Seq<Pixel>, x: int, y: int)
    requires
        fits(g, adds),
        0 <= x < g.len(),
        0 <= y < g[x].len(),
    ensures
        paint(g, adds)[x][y] == (Pixel { color: last_color(g, adds, x, y), x: g[x][y].x, y: g[x][y].y }),
    decreases adds.len(),
{
    if adds.len() > 0 {
        let front = adds.drop_last();
        assert(fits(g, front)) by {
            assert forall|i: int| 0 <= i < front.len() implies (#[trigger] front[i].x as int) < g.len()
                && (front[i].y as int) < g[front[i].x as int].len() by {
                assert(front[i] == adds[i]);
            }
        }
        lemma_paint_cell(g, front, x, y);
        lemma_paint_shape(g, front);
        assert(adds.last() == adds[adds.len() - 1]);
    }
}

} // verus!

verus! {

// ---------------------------------------------------------------------------
// Painting changes pixels only
// ---------------------------------------------------------------------------

/// `v` and `w` differ at most in the pixels of their leaves: same shape of
/// tree, same ids, same sessions.
pub open spec fn same_but_pixels(v: ChunkView, w: ChunkView) -> bool
    decreases v, 0int,
{
    match v {
        ChunkView::Leaf { id, sessions, .. } => match w {
            ChunkView::Leaf { id: id2, sessions: sessions2, .. } => id == id2 && sessions == sessions2,
            _ => false,
        },
        ChunkView::Container { id, children } => match w {
            ChunkView::Container { id: id2, children: children2 } => id == id2 && children.len()
                == children2.len() && children_same(children, children2, 0),
            _ => false,
        },
    }
}

/// The children from the `i`-th on pair up as `same_but_pixels`.
pub open spec fn children_same(cs: Seq<ChunkView>, ds: Seq<ChunkView>, i: int) -> bool
    decreases cs, cs.len() - i,
{
    if i < 0 || i >= cs.len() {
        true
    } else {
        i < ds.len() && same_but_pixels(cs[i], ds[i]) && children_same(cs, ds, i + 1)
    }
}

proof fn lemma_same_refl(v: ChunkView)
    ensures
        same_but_pixels(v, v),
    decreases v, 0int,
{
    match v {
        ChunkView::Leaf { .. } => {},
        ChunkView::Container { children, .. } => {
            lemma_children_same_refl(children, children, 0);
        },
    }
}

proof fn lemma_children_same_refl(cs: Seq<ChunkView>, ds: Seq<ChunkView>, i: int)
    requires
        0 <= i,
        cs.len() == ds.len(),
        forall|k: int| i <= k < cs.len() ==> #[trigger] ds[k] == cs[k],
    ensures
        children_same(cs, ds, i),
    decreases cs, cs.len() - i,
{
    if i < cs.len() {
        lemma_same_refl(cs[i]);
        lemma_children_same_refl(cs, ds, i + 1);
    }
}

proof fn lemma_add_pixel_same(v: ChunkView, adds: Seq<Pixel>)
    ensures
        add_pixel_view(v, adds) matches Some((w, _)) ==> same_but_pixels(v, w),
    decreases v, 0int,
{
    match v {
        ChunkView::Leaf { .. } => {},
        ChunkView::Container { children, .. } => {
            lemma_add_pixel_children_same(children, 0, adds);
        },
    }
}

proof fn lemma_add_pixel_children_same(cs: Seq<ChunkView>, i: int, adds: Seq<Pixel>)
    requires
        0 <= i,
    ensures
        add_pixel_children(cs, i, adds) matches Some((cs2, _)) ==> (children_same(cs, cs2, i)
            && cs2.len() == cs.len() && forall|k: int| 0 <= k < i ==> #[trigger] cs2[k] == cs[k]),
    decreases cs, cs.len() - i,
{
    if i < cs.len() {
        lemma_add_pixel_same(cs[i], adds);
        lemma_add_pixel_children_same(cs, i + 1, adds);
        match add_pixel_view(cs[i], adds) {
            Some((c, _)) => {
                let cs2 = cs.update(i, c);
                lemma_children_same_refl(cs, cs2, i + 1);
            },
            None => {
                if add_pixel_children(cs, i + 1, adds) is Some {
                    let cs2 = add_pixel_children(cs, i + 1, adds)->Some_0.0;
                    assert(cs2[i] == cs[i]);
                    lemma_same_refl(cs[i]);
                }
            },
        }
    }
}

/// Maps that differ only in pixels answer `get_chunk` alike: the same errors,
/// and leaves that differ only in pixels.
pub open spec fn same_answers(r: Result<ChunkView, GetError>, q: Result<ChunkView, GetError>) -> bool {
    match r {
        Ok(l) => q matches Ok(m) && same_but_pixels(l, m),
        Err(e) => q == Err::<ChunkView, GetError>(e),
    }
}

proof fn lemma_same_get(v: ChunkView, w: ChunkView, a: Seq<char>)
    requires
        same_but_pixels(v, w),
    ensures
        same_answers(get_view(v, a), get_view(w, a)),
    decreases v, 0int,
{
    match v {
        ChunkView::Leaf { .. } => {},
        ChunkView::Container { children, .. } => {
            let ds = w->Container_children;
            lemma_same_get_children(children, ds, 0, a);
        },
    }
}

proof fn lemma_same_get_children(cs: Seq<ChunkView>, ds: Seq<ChunkView>, i: int, a: Seq<char>)
    requires
        0 <= i,
        cs.len() == ds.len(),
        children_same(cs, ds, i),
    ensures
        same_answers(get_children(cs, i, a), get_children(ds, i, a)),
    decreases cs, cs.len() - i,
{
    if i < cs.len() {
        lemma_same_get(cs[i], ds[i], a);
        lemma_same_get_children(cs, ds, i + 1, a);
    }
}

/// Law: painting changes pixels only. Afterwards the map has the same tree,
/// ids and sessions, and `get_chunk` answers every address as before: the
/// same errors, and the same leaf up to its pixels.
pub proof fn lemma_add_pixel_changes_pixels_only(v: ChunkView, adds: Seq<Pixel>, a: Seq<char>)
    requires
        add_pixel_view(v, adds) is Some,
    ensures
        same_but_pixels(v, add_pixel_view(v, adds)->Some_0.0),
        same_answers(get_view(v, a), get_view(add_pixel_view(v, adds)->Some_0.0, a)),
{
    lemma_add_pixel_same(v, adds);
    lemma_same_get(v, add_pixel_view(v, adds)->Some_0.0, a);
}

// ---------------------------------------------------------------------------
// A fresh map
// ---------------------------------------------------------------------------

/// Law: a fresh leaf, and the map a server starts with, hold full grids.
pub proof fn lemma_fresh_full(parent: Seq<char>, x: nat, y: nat)
    ensures
        full_grids(crate::chunk::fresh_leaf(parent, x, y)),
        full_grids(ChunkView::Container { id: "map"@, children: seq![crate::chunk::fresh_leaf("map"@, 0, 0)] }),
{
    let g = crate::chunk::blank_grid();
    assert(is_full_grid(g));
    let cs = seq![crate::chunk::fresh_leaf("map"@, 0, 0)];
    assert(full_grids(cs[0]));
    assert(children_full(cs, 1));
}

} // verus!

verus! {

// ---------------------------------------------------------------------------
// Painting twice is painting once
// ---------------------------------------------------------------------------

/// Two grids that agree at `(x, y)` after `adds` agree on the colour `adds` leaves there.
proof fn lemma_last_color_grid(g: Seq<Seq<Pixel>>, h: Seq<Seq<Pixel>>, adds: Seq<Pixel>, x: int, y: int)
    requires
        h[x][y].color == last_color(g, adds, x, y),
    ensures
        last_color(h, adds, x, y) == last_color(g, adds, x, y),
    decreases adds.len(),
{
    if adds.len() > 0 && !(adds.last().x == x && adds.last().y == y) {
        lemma_last_color_grid(g, h, adds.drop_last(), x, y);
    }
}

/// Law: painting the same pixels twice is painting them once.
pub proof fn lemma_paint_twice(g: Seq<Seq<Pixel>>, adds: Seq<Pixel>)
    requires
        fits(g, adds),
    ensures
        paint(paint(g, adds), adds) == paint(g, adds),
{
    let h = paint(g, adds);
    lemma_paint_shape(g, adds);
    assert(fits(h, adds)) by {
        assert forall|i: int| 0 <= i < adds.len() implies (#[trigger] adds[i].x as int) < h.len() && (
        adds[i].y as int) < h[adds[i].x as int].len() by {
            assert(h[adds[i].x as int].len() == g[adds[i].x as int].len());
        }
    }
    lemma_paint_shape(h, adds);
    let hh = paint(h, adds);
    assert forall|x: int| 0 <= x < hh.len() implies #[trigger] hh[x] =~= h[x] by {
        assert forall|y: int| 0 <= y < hh[x].len() implies #[trigger] hh[x][y] == h[x][y] by {
            lemma_paint_cell(g, adds, x, y);
            lemma_paint_cell(h, adds, x, y);
            lemma_last_color_grid(g, h, adds, x, y);
        }
    }
    assert(hh =~= h);
}

/// Law: painting the same pixels again on a painted map answers the same
/// sessions and leaves the map as it is.
pub proof fn lemma_add_pixel_twice(v: ChunkView, adds: Seq<Pixel>)
    requires
        add_pixel_fits(v, adds),
        add_pixel_view(v, adds) is Some,
    ensures
        add_pixel_view(add_pixel_view(v, adds)->Some_0.0, adds) == add_pixel_view(v, adds),
    decreases v, 0int,
{
    match v {
        ChunkView::Leaf { pixels, .. } => {
            lemma_paint_twice(pixels, adds);
        },
        ChunkView::Container { id, children } => {
            lemma_add_pixel_children_twice(children, 0, adds);
        },
    }
}

proof fn lemma_add_pixel_children_twice(cs: Seq<ChunkView>, i: int, adds: Seq<Pixel>)
    requires
        0 <= i,
        children_fit(cs, i, adds),
        add_pixel_children(cs, i, adds) is Some,
    ensures
        ({
            let (cs2, ss) = add_pixel_children(cs, i, adds)->Some_0;
            &&& cs2.len() == cs.len()
            &&& forall|k: int| 0 <= k < i ==> #[trigger] cs2[k] == cs[k]
            &&& add_pixel_children(cs2, i, adds) == Some((cs2, ss))
        }),
    decreases cs, cs.len() - i,
{
    if 0 <= i < cs.len() {
        match add_pixel_view(cs[i], adds) {
            Some((c, ss)) => {
                lemma_add_pixel_twice(cs[i], adds);
                let cs2 = cs.update(i, c);
                assert(cs2.update(i, c) =~= cs2);
            },
            None => {
                lemma_add_pixel_children_twice(cs, i + 1, adds);
                let cs2 = add_pixel_children(cs, i + 1, adds)->Some_0.0;
                assert(cs2[i] == cs[i]);
            },
        }
    }
}

} // verus!
