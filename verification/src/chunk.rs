//! The map: a tree of chunks whose leaves hold square grids of pixels and the
//! sessions that watch them.
use vstd::prelude::*;

use crate::pixel::{blank_pixel, Pixel};
use crate::text::{decimal, push_char, push_decimal};
use crate::SIZE;

verus! {

/// A connected client, known by the number of its connection.
#[derive(Debug, Clone, Copy, PartialEq, Eq, Structural)]
pub struct Session {
    pub id: usize,
}

/// A node of the map: a container of further chunks, or a leaf with a grid
/// of pixels (`pixels[x][y]`) and the sessions registered on it.
#[derive(Debug)]
pub enum Chunk {
    Container { id: String, childrens: Vec<Chunk> },
    Leaf { id: String, sessions: Vec<Session>, pixels: Vec<Vec<Pixel>> },
}

/// The value of a chunk: ids as characters, vectors as sequences.
pub ghost enum ChunkView {
    Container { id: Seq<char>, children: Seq<ChunkView> },
    Leaf { id: Seq<char>, sessions: Seq<Session>, pixels: Seq<Seq<Pixel>> },
}

pub open spec fn view_chunk(c: Chunk) -> ChunkView
    decreases c, 0int,
{
    match c {
        Chunk::Container { id, childrens } => ChunkView::Container {
            id: id@,
            children: view_children(childrens@, childrens@.len() as int),
        },
        Chunk::Leaf { id, sessions, pixels } => ChunkView::Leaf {
            id: id@,
            sessions: sessions@,
            pixels: pixels@.map_values(|row: Vec<Pixel>| row@),
        },
    }
}

/// The values of the first `n` chunks of `cs`.
pub open spec fn view_children(cs: Seq<Chunk>, n: int) -> Seq<ChunkView>
    decreases cs, n,
{
    if n <= 0 || n > cs.len() {
        Seq::empty()
    } else {
        view_children(cs, n - 1).push(view_chunk(cs[n - 1]))
    }
}

impl View for Chunk {
    type V = ChunkView;

    open spec fn view(&self) -> ChunkView {
        view_chunk(*self)
    }
}

/// The values of all the chunks of `cs`.
pub open spec fn children_view(cs: Seq<Chunk>) -> Seq<ChunkView> {
    view_children(cs, cs.len() as int)
}

pub proof fn lemma_view_children(cs: Seq<Chunk>, n: int)
    requires
        0 <= n <= cs.len(),
    ensures
        view_children(cs, n).len() == n,
        forall|i: int| 0 <= i < n ==> #[trigger] view_children(cs, n)[i] == view_chunk(cs[i]),
    decreases n,
{
    if n > 0 {
        lemma_view_children(cs, n - 1);
    }
}

/// `children_view` has one value per chunk, each the chunk's own value.
pub proof fn lemma_children_view(cs: Seq<Chunk>)
    ensures
        children_view(cs).len() == cs.len(),
        forall|i: int| 0 <= i < cs.len() ==> #[trigger] children_view(cs)[i] == view_chunk(cs[i]),
{
    lemma_view_children(cs, cs.len() as int);
}

/// Replacing one chunk replaces its value only.
pub proof fn lemma_children_view_update(cs: Seq<Chunk>, i: int, c: Chunk)
    requires
        0 <= i < cs.len(),
    ensures
        children_view(cs.update(i, c)) == children_view(cs).update(i, view_chunk(c)),
{
    lemma_children_view(cs);
    lemma_children_view(cs.update(i, c));
    assert(children_view(cs.update(i, c)) =~= children_view(cs).update(i, view_chunk(c)));
}

/// A copy of the grid `pixels`.
fn copy_grid(pixels: &Vec<Vec<Pixel>>) -> (r: Vec<Vec<Pixel>>)
    ensures
        grid_view(r@) == grid_view(pixels@),
{
    let mut r: Vec<Vec<Pixel>> = Vec::new();
    for x in 0..pixels.len()
        invariant
            r@.len() == x,
            forall|i: int| 0 <= i < x ==> #[trigger] r@[i]@ == pixels@[i]@,
    {
        let src = &pixels[x];
        let mut row: Vec<Pixel> = Vec::new();
        for y in 0..src.len()
            invariant
                row@ == src@.take(y as int),
        {
            row.push(src[y]);
            assert(row@ =~= src@.take(y + 1));
        }
        assert(src@.take(src@.len() as int) =~= src@);
        r.push(row);
    }
    assert(grid_view(r@) =~= grid_view(pixels@));
    r
}

/// A copy of the chunk `c`, with the same value.
#[verifier::loop_isolation(false)]
fn copy_chunk(c: &Chunk) -> (r: Chunk)
    ensures
        r@ == c@,
    decreases c,
{
    match c {
        Chunk::Container { id, childrens } => {
            let mut copies: Vec<Chunk> = Vec::new();
            for i in 0..childrens.len()
                invariant
                    copies@.len() == i,
                    forall|j: int| 0 <= j < i ==> view_chunk(#[trigger] copies@[j]) == view_chunk(childrens@[j]),
            {
                proof {
                    assert(decreases_to!(c => childrens@[i as int]));
                }
                let one = copy_chunk(&childrens[i]);
                copies.push(one);
            }
            proof {
                lemma_children_view(copies@);
                lemma_children_view(childrens@);
                assert(children_view(copies@) =~= children_view(childrens@));
            }
            Chunk::Container { id: id.clone(), childrens: copies }
        },
        Chunk::Leaf { id, sessions, pixels } => {
            Chunk::Leaf { id: id.clone(), sessions: copy_sessions(sessions), pixels: copy_grid(pixels) }
        },
    }
}

impl Clone for Chunk {
    /// A copy with the same value.
    fn clone(&self) -> (r: Self)
        ensures
            r@ == self@,
    {
        copy_chunk(self)
    }
}

/// The rows of a grid, each as a sequence.
pub open spec fn grid_view(pixels: Seq<Vec<Pixel>>) -> Seq<Seq<Pixel>> {
    pixels.map_values(|row: Vec<Pixel>| row@)
}

// ---------------------------------------------------------------------------
// Errors
// ---------------------------------------------------------------------------

#[derive(Debug, Clone, Copy, PartialEq, Eq, Structural)]
pub enum AddError {
    NotLeaf,
}

#[derive(Debug, Clone, Copy, PartialEq, Eq, Structural)]
pub enum GetError {
    NotFound,
    NotAdress,
}

#[derive(Debug, Clone, Copy, PartialEq, Eq, Structural)]
pub enum AddSessionError {
    NotLeaf,
    NotFound,
}

// ---------------------------------------------------------------------------
// Finding a leaf by its address
// ---------------------------------------------------------------------------

/// What `get_chunk` finds: a leaf answers itself when its id is the address
/// and `NotAdress` otherwise; a container asks its children in order, goes on
/// past a child that answers `NotAdress`, stops at the first other answer, and
/// answers `NotFound` when every child answered `NotAdress`.
pub open spec fn get_view(v: ChunkView, a: Seq<char>) -> Result<ChunkView, GetError>
    decreases v, 0int,
{
    match v {
        ChunkView::Leaf { id, .. } => if id == a {
            Ok(v)
        } else {
            Err(GetError::NotAdress)
        },
        ChunkView::Container { children, .. } => get_children(children, 0, a),
    }
}

/// What a container finds among its children from the `i`-th on.
pub open spec fn get_children(cs: Seq<ChunkView>, i: int, a: Seq<char>) -> Result<ChunkView, GetError>
    decreases cs, cs.len() - i,
{
    if i < 0 || i >= cs.len() {
        Err(GetError::NotFound)
    } else {
        match get_view(cs[i], a) {
            Ok(r) => Ok(r),
            Err(GetError::NotAdress) => get_children(cs, i + 1, a),
            Err(e) => Err(e),
        }
    }
}

/// `id` and `adress` hold the same text.
fn id_is(id: &String, adress: &str) -> (r: bool)
    ensures
        r == (id@ == adress@),
{
    let a = adress.to_owned();
    *id == a
}

impl Chunk {
    /// The leaf whose id is `adress`, found as `get_view` says.
    #[verifier::loop_isolation(false)]
    pub fn get_chunk(&self, adress: &str) -> (r: Result<&Chunk, GetError>)
        ensures
            match r {
                Ok(c) => get_view(self@, adress@) == Ok::<ChunkView, GetError>(c@),
                Err(e) => get_view(self@, adress@) == Err::<ChunkView, GetError>(e),
            },
        decreases self,
    {
        match self {
            Chunk::Container { id: _, childrens } => {
                let ghost cv = children_view(childrens@);
                proof {
                    lemma_children_view(childrens@);
                }
                let n = childrens.len();
                let mut i: usize = 0;
                while i < n
                    invariant
                        n == childrens.len(),
                        0 <= i <= n,
                        cv == children_view(childrens@),
                        cv.len() == n,
                        forall|j: int| 0 <= j < n ==> #[trigger] cv[j] == view_chunk(childrens@[j]),
                        get_children(cv, 0, adress@) == get_children(cv, i as int, adress@),
                    decreases n - i,
                {
                    proof {
                        assert(decreases_to!(self => childrens@[i as int]));
                    }
                    match childrens[i].get_chunk(adress) {
                        Ok(c) => {
                            return Ok(c);
                        },
                        Err(e) => {
                            match e {
                                GetError::NotAdress => {},
                                _ => {
                                    return Err(e);
                                },
                            }
                        },
                    }
                    i = i + 1;
                }
                Err(GetError::NotFound)
            },
            Chunk::Leaf { id, sessions: _, pixels: _ } => {
                if id_is(id, adress) {
                    Ok(self)
                } else {
                    Err(GetError::NotAdress)
                }
            },
        }
    }
}

} // verus!

verus! {

// ---------------------------------------------------------------------------
// Registering a session on a leaf
// ---------------------------------------------------------------------------

/// What `add_session` does: a leaf whose id is the address takes the session
/// at the end of its sessions, any other leaf answers `NotFound`; a container
/// asks its children in order, goes on past a child that answers `NotFound`,
/// and answers `NotFound` when none took the session.
pub open spec fn add_session_view(v: ChunkView, s: Session, a: Seq<char>) -> Result<ChunkView, AddSessionError>
    decreases v, 0int,
{
    match v {
        ChunkView::Leaf { id, sessions, pixels } => if id == a {
            Ok(ChunkView::Leaf { id, sessions: sessions.push(s), pixels })
        } else {
            Err(AddSessionError::NotFound)
        },
        ChunkView::Container { id, children } => match add_session_children(children, 0, s, a) {
            Ok(cs) => Ok(ChunkView::Container { id, children: cs }),
            Err(e) => Err(e),
        },
    }
}

/// What a container's children from the `i`-th on do with the session.
pub open spec fn add_session_children(cs: Seq<ChunkView>, i: int, s: Session, a: Seq<char>) -> Result<Seq<ChunkView>, AddSessionError>
    decreases cs, cs.len() - i,
{
    if i < 0 || i >= cs.len() {
        Err(AddSessionError::NotFound)
    } else {
        match add_session_view(cs[i], s, a) {
            Ok(c) => Ok(cs.update(i, c)),
            Err(AddSessionError::NotFound) => add_session_children(cs, i + 1, s, a),
            Err(e) => Err(e),
        }
    }
}

impl Chunk {
    /// Registers `session` on the leaf whose id is `adress`, as
    /// `add_session_view` says; on an error the map is unchanged.
    #[verifier::loop_isolation(false)]
    pub fn add_session(&mut self, session: &Session, adress: &str) -> (r: Result<(), AddSessionError>)
        ensures
            match r {
                Ok(()) => add_session_view(old(self)@, *session, adress@) == Ok::<
                    ChunkView,
                    AddSessionError,
                >(final(self)@),
                Err(e) => add_session_view(old(self)@, *session, adress@) == Err::<
                    ChunkView,
                    AddSessionError,
                >(e) && final(self)@ == old(self)@,
            },
        decreases *old(self),
    {
        match self {
            Chunk::Container { id: _, childrens } => {
                let ghost cs0 = childrens@;
                let ghost cv = children_view(cs0);
                proof {
                    lemma_children_view(cs0);
                }
                let n = childrens.len();
                let mut i: usize = 0;
                while i < n
                    invariant
                        n == childrens.len(),
                        0 <= i <= n,
                        childrens@.len() == cs0.len(),
                        forall|j: int| i <= j < n ==> #[trigger] childrens@[j] == cs0[j],
                        children_view(childrens@) == cv,
                        add_session_children(cv, 0, *session, adress@) == add_session_children(
                            cv,
                            i as int,
                            *session,
                            adress@,
                        ),
                    decreases n - i,
                {
                    proof {
                        assert(decreases_to!(*old(self) => cs0[i as int]));
                    }
                    let ghost before = childrens@;
                    match childrens[i].add_session(session, adress) {
                        Ok(()) => {
                            proof {
                                lemma_children_view_update(before, i as int, childrens@[i as int]);
                                assert(childrens@ =~= before.update(i as int, childrens@[i as int]));
                            }
                            return Ok(());
                        },
                        Err(e) => {
                            proof {
                                lemma_children_view_update(before, i as int, childrens@[i as int]);
                                assert(childrens@ =~= before.update(i as int, childrens@[i as int]));
                                lemma_children_view(before);
                                assert(children_view(before).update(i as int, view_chunk(childrens@[i as int])) =~= cv);
                            }
                            match e {
                                AddSessionError::NotFound => {},
                                _ => {
                                    return Err(e);
                                },
                            }
                        },
                    }
                    i = i + 1;
                }
                Err(AddSessionError::NotFound)
            },
            Chunk::Leaf { id, sessions, pixels: _ } => {
                if id_is(id, adress) {
                    sessions.push(*session);
                    Ok(())
                } else {
                    Err(AddSessionError::NotFound)
                }
            },
        }
    }
}

} // verus!

verus! {

// ---------------------------------------------------------------------------
// Painting pixels on the first leaf
// ---------------------------------------------------------------------------

/// `grid` after each pixel of `adds`, in order, has set the colour at its
/// `(x, y)`; the coordinates stored in the grid stay.
pub open spec fn paint(grid: Seq<Seq<Pixel>>, adds: Seq<Pixel>) -> Seq<Seq<Pixel>>
    decreases adds.len(),
{
    if adds.len() == 0 {
        grid
    } else {
        let g = paint(grid, adds.drop_last());
        let p = adds.last();
        let x = p.x as int;
        let y = p.y as int;
        g.update(x, g[x].update(y, Pixel { color: p.color, x: g[x][y].x, y: g[x][y].y }))
    }
}

/// Every pixel of `adds` lies inside `grid`.
pub open spec fn fits(grid: Seq<Seq<Pixel>>, adds: Seq<Pixel>) -> bool {
    forall|i: int|
        0 <= i < adds.len() ==> (#[trigger] adds[i].x as int) < grid.len() && (adds[i].y as int)
            < grid[adds[i].x as int].len()
}

/// Two grids have the same rows, of the same lengths.
pub open spec fn same_shape(g: Seq<Seq<Pixel>>, h: Seq<Seq<Pixel>>) -> bool {
    &&& g.len() == h.len()
    &&& forall|x: int| 0 <= x < g.len() ==> (#[trigger] g[x]).len() == h[x].len()
}

pub proof fn lemma_paint_shape(grid: Seq<Seq<Pixel>>, adds: Seq<Pixel>)
    requires
        fits(grid, adds),
    ensures
        same_shape(paint(grid, adds), grid),
    decreases adds.len(),
{
    if adds.len() > 0 {
        assert(fits(grid, adds.drop_last())) by {
            assert forall|i: int| 0 <= i < adds.drop_last().len() implies (
            #[trigger] adds.drop_last()[i].x as int) < grid.len() && (adds.drop_last()[i].y as int)
                < grid[adds.drop_last()[i].x as int].len() by {
                assert(adds.drop_last()[i] == adds[i]);
            }
        }
        lemma_paint_shape(grid, adds.drop_last());
        assert(adds.last() == adds[adds.len() - 1]);
    }
}

/// What `add_pixel` does: a leaf paints `adds` on its grid and answers its
/// sessions; a container hands the pixels to its first child that answers
/// (`None` from a child without any leaf), and has no answer when none does.
pub open spec fn add_pixel_view(v: ChunkView, adds: Seq<Pixel>) -> Option<(ChunkView, Seq<Session>)>
    decreases v, 0int,
{
    match v {
        ChunkView::Leaf { id, sessions, pixels } => Some(
            (ChunkView::Leaf { id, sessions, pixels: paint(pixels, adds) }, sessions),
        ),
        ChunkView::Container { id, children } => match add_pixel_children(children, 0, adds) {
            Some((cs, ss)) => Some((ChunkView::Container { id, children: cs }, ss)),
            None => None,
        },
    }
}

/// What a container's children from the `i`-th on do with the pixels.
pub open spec fn add_pixel_children(cs: Seq<ChunkView>, i: int, adds: Seq<Pixel>) -> Option<(Seq<ChunkView>, Seq<Session>)>
    decreases cs, cs.len() - i,
{
    if i < 0 || i >= cs.len() {
        None
    } else {
        match add_pixel_view(cs[i], adds) {
            Some((c, ss)) => Some((cs.update(i, c), ss)),
            None => add_pixel_children(cs, i + 1, adds),
        }
    }
}

/// The pixels fit the grid of the leaf that `add_pixel` paints.
pub open spec fn add_pixel_fits(v: ChunkView, adds: Seq<Pixel>) -> bool
    decreases v, 0int,
{
    match v {
        ChunkView::Leaf { pixels, .. } => fits(pixels, adds),
        ChunkView::Container { children, .. } => children_fit(children, 0, adds),
    }
}

pub open spec fn children_fit(cs: Seq<ChunkView>, i: int, adds: Seq<Pixel>) -> bool
    decreases cs, cs.len() - i,
{
    if i < 0 || i >= cs.len() {
        true
    } else if add_pixel_view(cs[i], adds) is Some {
        add_pixel_fits(cs[i], adds)
    } else {
        children_fit(cs, i + 1, adds)
    }
}

/// A map without a leaf constrains no pixel.
pub proof fn lemma_leafless_fits(v: ChunkView, adds: Seq<Pixel>)
    requires
        add_pixel_view(v, adds) is None,
    ensures
        add_pixel_fits(v, adds),
    decreases v, 0int,
{
    match v {
        ChunkView::Leaf { .. } => {},
        ChunkView::Container { children, .. } => {
            lemma_leafless_children_fit(children, 0, adds);
        },
    }
}

pub proof fn lemma_leafless_children_fit(cs: Seq<ChunkView>, i: int, adds: Seq<Pixel>)
    requires
        add_pixel_children(cs, i, adds) is None,
    ensures
        children_fit(cs, i, adds),
    decreases cs, cs.len() - i,
{
    if 0 <= i < cs.len() {
        lemma_leafless_children_fit(cs, i + 1, adds);
    }
}

/// A copy of `sessions`.
fn copy_sessions(sessions: &Vec<Session>) -> (r: Vec<Session>)
    ensures
        r@ == sessions@,
{
    let mut r: Vec<Session> = Vec::new();
    for k in 0..sessions.len()
        invariant
            r@ == sessions@.take(k as int),
    {
        r.push(sessions[k]);
        assert(r@ =~= sessions@.take(k + 1));
    }
    assert(r@ =~= sessions@);
    r
}

/// Paints `adds` on `pixels`, as `paint` says.
fn paint_grid(pixels: &mut Vec<Vec<Pixel>>, adds: &[Pixel])
    requires
        fits(grid_view(old(pixels)@), adds@),
    ensures
        grid_view(final(pixels)@) == paint(grid_view(old(pixels)@), adds@),
{
    let ghost g0 = grid_view(pixels@);
    for k in 0..adds.len()
        invariant
            fits(g0, adds@),
            grid_view(pixels@) == paint(g0, adds@.take(k as int)),
    {
        let ghost before = pixels@;
        proof {
            assert(fits(g0, adds@.take(k as int))) by {
                assert forall|i: int| 0 <= i < adds@.take(k as int).len() implies (
                #[trigger] adds@.take(k as int)[i].x as int) < g0.len() && (adds@.take(
                    k as int,
                )[i].y as int) < g0[adds@.take(k as int)[i].x as int].len() by {
                    assert(adds@.take(k as int)[i] == adds@[i]);
                }
            }
            lemma_paint_shape(g0, adds@.take(k as int));
            assert(adds@[k as int].x < g0.len());
        }
        let p = adds[k];
        let x = p.x as usize;
        let y = p.y as usize;
        assert(grid_view(before)[x as int] == before[x as int]@);
        pixels[x][y].color = p.color;
        proof {
            let t = adds@.take(k + 1);
            assert(t.drop_last() =~= adds@.take(k as int));
            assert(t.last() == p);
            assert(grid_view(pixels@) =~= paint(g0, t)) by {
                assert forall|r: int| 0 <= r < grid_view(pixels@).len() implies #[trigger] grid_view(
                    pixels@,
                )[r] =~= paint(g0, t)[r] by {
                    if r == x {
                        assert(pixels@[r]@ =~= before[r]@.update(
                            y as int,
                            Pixel { color: p.color, x: before[r]@[y as int].x, y: before[r]@[y as int].y },
                        ));
                    }
                }
            }
        }
    }
    assert(adds@.take(adds.len() as int) =~= adds@);
}

impl Chunk {
    /// Paints `pixels_adds` on the first leaf of the map (the first in
    /// depth-first order) and answers that leaf's sessions, as
    /// `add_pixel_view` says; `NotLeaf` when the map has no leaf, and then the
    /// map is unchanged. The address is not consulted.
    #[verifier::loop_isolation(false)]
    pub fn add_pixel(&mut self, pixels_adds: &[Pixel], adress: &str) -> (r: Result<Vec<Session>, AddError>)
        requires
            add_pixel_fits(old(self)@, pixels_adds@),
        ensures
            match r {
                Ok(ss) => add_pixel_view(old(self)@, pixels_adds@) == Some((final(self)@, ss@)),
                Err(e) => e == AddError::NotLeaf && add_pixel_view(old(self)@, pixels_adds@) is None
                    && final(self)@ == old(self)@,
            },
        decreases *old(self),
    {
        match self {
            Chunk::Container { id: _, childrens } => {
                let ghost cs0 = childrens@;
                let ghost cv = children_view(cs0);
                proof {
                    lemma_children_view(cs0);
                }
                let n = childrens.len();
                let mut i: usize = 0;
                while i < n
                    invariant
                        n == childrens.len(),
                        0 <= i <= n,
                        childrens@.len() == cs0.len(),
                        forall|j: int| i <= j < n ==> #[trigger] childrens@[j] == cs0[j],
                        children_view(childrens@) == cv,
                        add_pixel_children(cv, 0, pixels_adds@) == add_pixel_children(
                            cv,
                            i as int,
                            pixels_adds@,
                        ),
                        children_fit(cv, i as int, pixels_adds@),
                    decreases n - i,
                {
                    proof {
                        assert(decreases_to!(*old(self) => cs0[i as int]));
                        if add_pixel_view(cv[i as int], pixels_adds@) is None {
                            lemma_leafless_fits(cv[i as int], pixels_adds@);
                        }
                    }
                    let ghost before = childrens@;
                    match childrens[i].add_pixel(pixels_adds, adress) {
                        Ok(ss) => {
                            proof {
                                lemma_children_view_update(before, i as int, childrens@[i as int]);
                                assert(childrens@ =~= before.update(i as int, childrens@[i as int]));
                            }
                            return Ok(ss);
                        },
                        Err(_) => {
                            proof {
                                lemma_children_view_update(before, i as int, childrens@[i as int]);
                                assert(childrens@ =~= before.update(i as int, childrens@[i as int]));
                                lemma_children_view(before);
                                assert(children_view(before).update(
                                    i as int,
                                    view_chunk(childrens@[i as int]),
                                ) =~= cv);
                            }
                        },
                    }
                    i = i + 1;
                }
                Err(AddError::NotLeaf)
            },
            Chunk::Leaf { id: _, sessions, pixels } => {
                paint_grid(pixels, pixels_adds);
                Ok(copy_sessions(sessions))
            },
        }
    }
}

} // verus!

verus! {

// ---------------------------------------------------------------------------
// Fresh chunks
// ---------------------------------------------------------------------------

/// The grid of a fresh leaf: `SIZE` rows of `SIZE` blank pixels.
pub open spec fn blank_grid() -> Seq<Seq<Pixel>> {
    Seq::new(SIZE as nat, |_x: int| Seq::new(SIZE as nat, |_y: int| blank_pixel()))
}

/// The id of the leaf at `(x, y)` under `parent`: `parent/x_y`.
pub open spec fn leaf_id(parent: Seq<char>, x: nat, y: nat) -> Seq<char> {
    parent + seq!['/'] + decimal(x) + seq!['_'] + decimal(y)
}

/// The value of a fresh leaf at `(x, y)` under `parent`.
pub open spec fn fresh_leaf(parent: Seq<char>, x: nat, y: nat) -> ChunkView {
    ChunkView::Leaf { id: leaf_id(parent, x, y), sessions: Seq::empty(), pixels: blank_grid() }
}

fn blank_pixels() -> (g: Vec<Vec<Pixel>>)
    ensures
        grid_view(g@) == blank_grid(),
{
    let mut g: Vec<Vec<Pixel>> = Vec::new();
    for x in 0..SIZE
        invariant
            g@.len() == x,
            forall|i: int| 0 <= i < x ==> #[trigger] g@[i]@ == Seq::new(SIZE as nat, |_y: int| blank_pixel()),
    {
        let mut row: Vec<Pixel> = Vec::new();
        for y in 0..SIZE
            invariant
                row@ == Seq::new(y as nat, |_y: int| blank_pixel()),
        {
            row.push(Pixel::default());
            assert(row@ =~= Seq::new((y + 1) as nat, |_y: int| blank_pixel()));
        }
        g.push(row);
    }
    assert(grid_view(g@) =~= blank_grid());
    g
}

impl Chunk {
    /// A fresh leaf at `coords` under `parent_adress`: id `parent_adress/x_y`,
    /// no session, a `SIZE` by `SIZE` grid of blank pixels.
    pub fn new_leaf(parent_adress: &str, coords: (usize, usize)) -> (c: Chunk)
        ensures
            c@ == fresh_leaf(parent_adress@, coords.0 as nat, coords.1 as nat),
    {
        let mut id = parent_adress.to_owned();
        push_char(&mut id, '/');
        push_decimal(&mut id, coords.0);
        push_char(&mut id, '_');
        push_decimal(&mut id, coords.1);
        let pixels = blank_pixels();
        assert(id@ =~= leaf_id(parent_adress@, coords.0 as nat, coords.1 as nat));
        let sessions: Vec<Session> = Vec::new();
        assert(sessions@ =~= Seq::<Session>::empty());
        Chunk::Leaf { id, sessions, pixels }
    }

    /// The map a server starts with: a container `map` holding the fresh leaf
    /// `map/0_0`.
    pub fn new_root() -> (c: Chunk)
        ensures
            c@ == (ChunkView::Container { id: "map"@, children: seq![fresh_leaf("map"@, 0, 0)] }),
    {
        let leaf = Chunk::new_leaf("map", (0, 0));
        let mut childrens: Vec<Chunk> = Vec::new();
        childrens.push(leaf);
        let c = Chunk::Container { id: "map".to_owned(), childrens };
        proof {
            lemma_children_view(childrens@);
            assert(children_view(childrens@) =~= seq![fresh_leaf("map"@, 0, 0)]);
        }
        c
    }
}

// ---------------------------------------------------------------------------
// Every leaf holds a full grid
// ---------------------------------------------------------------------------

/// `SIZE` rows of `SIZE` pixels.
pub open spec fn is_full_grid(g: Seq<Seq<Pixel>>) -> bool {
    &&& g.len() == SIZE
    &&& forall|x: int| 0 <= x < g.len() ==> (#[trigger] g[x]).len() == SIZE
}

/// Every leaf of the map holds a full grid.
pub open spec fn full_grids(v: ChunkView) -> bool
    decreases v, 0int,
{
    match v {
        ChunkView::Leaf { pixels, .. } => is_full_grid(pixels),
        ChunkView::Container { children, .. } => children_full(children, 0),
    }
}

pub open spec fn children_full(cs: Seq<ChunkView>, i: int) -> bool
    decreases cs, cs.len() - i,
{
    if i < 0 || i >= cs.len() {
        true
    } else {
        full_grids(cs[i]) && children_full(cs, i + 1)
    }
}

/// In a map whose leaves hold full grids, any pixels fit.
pub proof fn lemma_full_grids_fit(v: ChunkView, adds: Seq<Pixel>)
    requires
        full_grids(v),
    ensures
        add_pixel_fits(v, adds),
    decreases v, 0int,
{
    match v {
        ChunkView::Leaf { pixels, .. } => {},
        ChunkView::Container { children, .. } => {
            lemma_full_children_fit(children, 0, adds);
        },
    }
}

pub proof fn lemma_full_children_fit(cs: Seq<ChunkView>, i: int, adds: Seq<Pixel>)
    requires
        children_full(cs, i),
    ensures
        children_fit(cs, i, adds),
    decreases cs, cs.len() - i,
{
    if 0 <= i < cs.len() {
        lemma_full_grids_fit(cs[i], adds);
        lemma_full_children_fit(cs, i + 1, adds);
    }
}

} // verus!

verus! {

/// Whether the pixels of `adds` lie inside the grid `pixels`.
fn grid_fits(pixels: &Vec<Vec<Pixel>>, adds: &[Pixel]) -> (r: bool)
    ensures
        r == fits(grid_view(pixels@), adds@),
{
    let ghost g = grid_view(pixels@);
    for k in 0..adds.len()
        invariant
            g == grid_view(pixels@),
            forall|i: int|
                0 <= i < k ==> (#[trigger] adds@[i].x as int) < g.len() && (adds@[i].y as int)
                    < g[adds@[i].x as int].len(),
    {
        let p = adds[k];
        if p.x as usize >= pixels.len() {
            return false;
        }
        if p.y as usize >= pixels[p.x as usize].len() {
            return false;
        }
    }
    true
}

impl Chunk {
    /// For a map with a leaf, whether `adds` fits the leaf `add_pixel` paints.
    #[verifier::loop_isolation(false)]
    fn first_leaf_fit(&self, adds: &[Pixel]) -> (r: Option<bool>)
        ensures
            r is Some <==> add_pixel_view(self@, adds@) is Some,
            r matches Some(b) ==> b == add_pixel_fits(self@, adds@),
            r is None ==> add_pixel_fits(self@, adds@),
        decreases self,
    {
        match self {
            Chunk::Container { id: _, childrens } => {
                let ghost cv = children_view(childrens@);
                proof {
                    lemma_children_view(childrens@);
                }
                let n = childrens.len();
                let mut i: usize = 0;
                while i < n
                    invariant
                        0 <= i <= n,
                        n == childrens.len(),
                        add_pixel_children(cv, 0, adds@) == add_pixel_children(cv, i as int, adds@),
                        children_fit(cv, 0, adds@) == children_fit(cv, i as int, adds@),
                    decreases n - i,
                {
                    proof {
                        assert(decreases_to!(self => childrens@[i as int]));
                        assert(cv[i as int] == view_chunk(childrens@[i as int]));
                    }
                    match childrens[i].first_leaf_fit(adds) {
                        Some(b) => {
                            return Some(b);
                        },
                        None => {},
                    }
                    i = i + 1;
                }
                None
            },
            Chunk::Leaf { id: _, sessions: _, pixels } => Some(grid_fits(pixels, adds)),
        }
    }

    /// Whether `add_pixel` may be called with `adds`: every pixel lies inside
    /// the grid of the leaf it would paint (true when the map has no leaf).
    pub fn pixels_fit(&self, adds: &[Pixel]) -> (r: bool)
        ensures
            r == add_pixel_fits(self@, adds@),
    {
        match self.first_leaf_fit(adds) {
            Some(b) => b,
            None => true,
        }
    }
}

} // verus!
