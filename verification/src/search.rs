//! Which leaf each search of the map reaches, stated over the leaves of the
//! map in depth-first order (`leaves`, the order in which the map is saved).
use vstd::prelude::*;

use crate::chunk::{
    add_pixel_children, add_pixel_view, add_session_children, add_session_view, get_children,
    get_view, paint, AddSessionError, ChunkView, GetError, Session,
};
use crate::pixel::Pixel;
use crate::properties::{lemma_add_pixel_changes_pixels_only, lemma_get_finds_leaf, same_but_pixels, with_session};
use crate::store::{leaves, leaves_of};

verus! {

// ---------------------------------------------------------------------------
// The leaves of a map, depth first
// ---------------------------------------------------------------------------

/// The leaves under the chunks `cs[i]`, ..., `cs[n - 1]`, in order.
pub open spec fn leaves_between(cs: Seq<ChunkView>, i: int, n: int) -> Seq<ChunkView>
    decreases n - i,
{
    if i < 0 || i >= n || n > cs.len() {
        Seq::empty()
    } else {
        leaves(cs[i]) + leaves_between(cs, i + 1, n)
    }
}

/// `l` is a leaf whose id is `a`.
pub open spec fn leaf_named(l: ChunkView, a: Seq<char>) -> bool {
    l matches ChunkView::Leaf { id, .. } && id == a
}

/// Some leaf of `ls` has the id `a`.
pub open spec fn some_named(ls: Seq<ChunkView>, a: Seq<char>) -> bool {
    exists|k: int| 0 <= k < ls.len() && leaf_named(#[trigger] ls[k], a)
}

/// `ls[k]` is the first leaf of `ls` whose id is `a`.
pub open spec fn first_named(ls: Seq<ChunkView>, a: Seq<char>, k: int) -> bool {
    &&& 0 <= k < ls.len()
    &&& leaf_named(ls[k], a)
    &&& forall|j: int| 0 <= j < k ==> !leaf_named(#[trigger] ls[j], a)
}

proof fn lemma_leaves_of_between(cs: Seq<ChunkView>, i: int, n: int)
    requires
        0 <= i <= n <= cs.len(),
    ensures
        leaves_of(cs, n) == leaves_of(cs, i) + leaves_between(cs, i, n),
    decreases n - i,
{
    if i == n {
        assert(leaves_of(cs, n) + leaves_between(cs, i, n) =~= leaves_of(cs, n));
    } else {
        lemma_leaves_of_between(cs, i + 1, n);
        assert(leaves_of(cs, i + 1) == leaves_of(cs, i) + leaves(cs[i]));
        assert(leaves_of(cs, n) =~= leaves_of(cs, i) + leaves_between(cs, i, n));
    }
}

/// The leaves of a container are those of its children, in order.
pub proof fn lemma_leaves_container(id: Seq<char>, cs: Seq<ChunkView>)
    ensures
        leaves(ChunkView::Container { id, children: cs }) == leaves_between(cs, 0, cs.len() as int),
{
    lemma_leaves_of_between(cs, 0, cs.len() as int);
    assert(leaves_of(cs, 0) + leaves_between(cs, 0, cs.len() as int) =~= leaves_between(
        cs,
        0,
        cs.len() as int,
    ));
}

proof fn lemma_between_agree(cs: Seq<ChunkView>, ds: Seq<ChunkView>, i: int, n: int)
    requires
        0 <= i,
        n <= cs.len() == ds.len(),
        forall|j: int| i <= j < n ==> #[trigger] cs[j] == ds[j],
    ensures
        leaves_between(cs, i, n) == leaves_between(ds, i, n),
    decreases n - i,
{
    if i < n {
        lemma_between_agree(cs, ds, i + 1, n);
    }
}

proof fn lemma_some_named_concat(x: Seq<ChunkView>, y: Seq<ChunkView>, a: Seq<char>)
    ensures
        some_named(x + y, a) <==> some_named(x, a) || some_named(y, a),
{
    if some_named(x + y, a) {
        let k = choose|k: int| 0 <= k < (x + y).len() && leaf_named(#[trigger] (x + y)[k], a);
        if k < x.len() {
            assert(leaf_named(x[k], a));
        } else {
            assert(leaf_named(y[k - x.len()], a));
        }
    }
    if some_named(x, a) {
        let k = choose|k: int| 0 <= k < x.len() && leaf_named(#[trigger] x[k], a);
        assert(leaf_named((x + y)[k], a));
    }
    if some_named(y, a) {
        let k = choose|k: int| 0 <= k < y.len() && leaf_named(#[trigger] y[k], a);
        assert(leaf_named((x + y)[x.len() + k], a));
    }
}

/// The first named leaf of `x` is the first named leaf of `x + y`.
proof fn lemma_first_named_front(x: Seq<ChunkView>, y: Seq<ChunkView>, a: Seq<char>, k: int)
    requires
        first_named(x, a, k),
    ensures
        first_named(x + y, a, k),
{
    assert forall|j: int| 0 <= j < k implies !leaf_named(#[trigger] (x + y)[j], a) by {
        assert((x + y)[j] == x[j]);
    }
}

/// With no named leaf in `x`, the first named leaf of `y` comes first in `x + y`.
proof fn lemma_first_named_back(x: Seq<ChunkView>, y: Seq<ChunkView>, a: Seq<char>, k: int)
    requires
        !some_named(x, a),
        first_named(y, a, k),
    ensures
        first_named(x + y, a, x.len() + k),
{
    assert((x + y)[x.len() + k] == y[k]);
    assert forall|j: int| 0 <= j < x.len() + k implies !leaf_named(#[trigger] (x + y)[j], a) by {
        if j < x.len() {
            assert((x + y)[j] == x[j]);
            if leaf_named(x[j], a) {
                assert(some_named(x, a));
            }
        } else {
            assert((x + y)[j] == y[j - x.len()]);
        }
    }
}

// ---------------------------------------------------------------------------
// Registering a session reaches every leaf
// ---------------------------------------------------------------------------

/// Law: `add_session` reaches every leaf of the map, in and under any
/// container. It succeeds exactly when some leaf has the address as its id;
/// then the first such leaf (depth first) gains the session at the end of its
/// sessions and every other leaf stays as it was. Otherwise it answers
/// `NotFound`, and never any other error.
pub proof fn lemma_add_session_reaches_every_leaf(v: ChunkView, s: Session, a: Seq<char>)
    ensures
        add_session_view(v, s, a) is Ok <==> some_named(leaves(v), a),
        add_session_view(v, s, a) is Err ==> add_session_view(v, s, a) == Err::<
            ChunkView,
            AddSessionError,
        >(AddSessionError::NotFound),
        add_session_view(v, s, a) matches Ok(w) ==> exists|k: int|
            first_named(leaves(v), a, k) && #[trigger] leaves(w) == leaves(v).update(
                k,
                with_session(leaves(v)[k], s),
            ),
    decreases v, 0int,
{
    match v {
        ChunkView::Leaf { id, sessions, pixels } => {
            let ls = leaves(v);
            if id == a {
                let w = ChunkView::Leaf { id, sessions: sessions.push(s), pixels };
                assert(leaf_named(ls[0], a));
                assert(first_named(ls, a, 0));
                assert(leaves(w) =~= ls.update(0, with_session(ls[0], s)));
            } else {
                assert forall|k: int| 0 <= k < ls.len() implies !leaf_named(#[trigger] ls[k], a) by {
                    assert(ls[k] == v);
                }
            }
        },
        ChunkView::Container { id, children } => {
            lemma_leaves_container(id, children);
            lemma_add_session_children_reach(children, 0, s, a);
            if let Ok(cs2) = add_session_children(children, 0, s, a) {
                lemma_leaves_container(id, cs2);
            }
        },
    }
}

proof fn lemma_add_session_children_reach(cs: Seq<ChunkView>, i: int, s: Session, a: Seq<char>)
    requires
        0 <= i <= cs.len(),
    ensures
        ({
            let l = leaves_between(cs, i, cs.len() as int);
            &&& add_session_children(cs, i, s, a) is Ok <==> some_named(l, a)
            &&& add_session_children(cs, i, s, a) is Err ==> add_session_children(cs, i, s, a)
                == Err::<Seq<ChunkView>, AddSessionError>(AddSessionError::NotFound)
            &&& add_session_children(cs, i, s, a) matches Ok(cs2) ==> {
                &&& cs2.len() == cs.len()
                &&& forall|j: int| 0 <= j < i ==> #[trigger] cs2[j] == cs[j]
                &&& exists|k: int|
                    first_named(l, a, k) && #[trigger] leaves_between(cs2, i, cs.len() as int)
                        == l.update(k, with_session(l[k], s))
            }
        }),
    decreases cs, cs.len() - i,
{
    let n = cs.len() as int;
    let l = leaves_between(cs, i, n);
    if i == n {
        assert(l.len() == 0);
    } else {
        let x = leaves(cs[i]);
        let y = leaves_between(cs, i + 1, n);
        assert(l == x + y);
        lemma_add_session_reaches_every_leaf(cs[i], s, a);
        lemma_add_session_children_reach(cs, i + 1, s, a);
        lemma_some_named_concat(x, y, a);
        match add_session_view(cs[i], s, a) {
            Ok(c) => {
                let cs2 = cs.update(i, c);
                let k = choose|k: int|
                    first_named(x, a, k) && #[trigger] leaves(c) == x.update(k, with_session(x[k], s));
                lemma_between_agree(cs, cs2, i + 1, n);
                assert(cs2[i] == c);
                assert(leaves_between(cs2, i, n) == leaves(c) + leaves_between(cs2, i + 1, n));
                lemma_first_named_front(x, y, a, k);
                assert(l[k] == x[k]);
                assert(leaves_between(cs2, i, n) =~= l.update(k, with_session(l[k], s)));
            },
            Err(_) => {
                if let Ok(cs2) = add_session_children(cs, i + 1, s, a) {
                    let ly = y;
                    let k = choose|k: int|
                        first_named(ly, a, k) && #[trigger] leaves_between(cs2, i + 1, n)
                            == ly.update(k, with_session(ly[k], s));
                    assert(cs2[i] == cs[i]);
                    lemma_first_named_back(x, y, a, k);
                    assert(l[x.len() + k] == y[k]);
                    assert(leaves_between(cs2, i, n) == leaves(cs2[i]) + leaves_between(cs2, i + 1, n));
                    assert(leaves_between(cs2, i, n) =~= l.update(x.len() + k, with_session(
                        l[x.len() + k],
                        s,
                    )));
                }
            },
        }
    }
}

// ---------------------------------------------------------------------------
// Finding a leaf by its address
// ---------------------------------------------------------------------------

/// A leaf named `a` can be reached from `v`: `v` is that leaf, or `v` is a
/// container with a child from which it can be reached and before which
/// every child is a leaf.
pub open spec fn reachable(v: ChunkView, a: Seq<char>) -> bool
    decreases v, 0int,
{
    match v {
        ChunkView::Leaf { id, .. } => id == a,
        ChunkView::Container { children, .. } => reachable_from(children, 0, a),
    }
}

/// A leaf named `a` can be reached from a child `cs[j]`, `j >= i`, before
/// which every child from the `i`-th on is a leaf.
pub open spec fn reachable_from(cs: Seq<ChunkView>, i: int, a: Seq<char>) -> bool
    decreases cs, cs.len() - i,
{
    if i < 0 || i >= cs.len() {
        false
    } else {
        reachable(cs[i], a) || (cs[i] is Leaf && reachable_from(cs, i + 1, a))
    }
}

/// Law: `get_chunk` finds every leaf that can be reached, and only those: it
/// looks past any leaf whose id is not the address and gives up at a
/// container that does not hold it. What it finds is the first leaf of the
/// map (depth first) named by the address.
pub proof fn lemma_get_finds_reachable(v: ChunkView, a: Seq<char>)
    ensures
        get_view(v, a) is Ok <==> reachable(v, a),
        get_view(v, a) matches Ok(l) ==> exists|k: int| first_named(leaves(v), a, k) && #[trigger] leaves(v)[k] == l,
    decreases v, 0int,
{
    match v {
        ChunkView::Leaf { id, .. } => {
            if id == a {
                assert(first_named(leaves(v), a, 0));
                assert(leaves(v)[0] == v);
            }
        },
        ChunkView::Container { id, children } => {
            lemma_leaves_container(id, children);
            lemma_get_children_finds_reachable(children, 0, a);
        },
    }
}

proof fn lemma_get_children_finds_reachable(cs: Seq<ChunkView>, i: int, a: Seq<char>)
    requires
        0 <= i <= cs.len(),
    ensures
        get_children(cs, i, a) is Ok <==> reachable_from(cs, i, a),
        get_children(cs, i, a) matches Ok(l) ==> exists|k: int|
            first_named(leaves_between(cs, i, cs.len() as int), a, k)
                && #[trigger] leaves_between(cs, i, cs.len() as int)[k] == l,
    decreases cs, cs.len() - i,
{
    let n = cs.len() as int;
    if i < n {
        let x = leaves(cs[i]);
        let y = leaves_between(cs, i + 1, n);
        assert(leaves_between(cs, i, n) == x + y);
        lemma_get_finds_reachable(cs[i], a);
        lemma_get_finds_leaf(cs[i], a);
        lemma_get_children_finds_reachable(cs, i + 1, a);
        match get_view(cs[i], a) {
            Ok(l) => {
                let k = choose|k: int| first_named(x, a, k) && #[trigger] x[k] == l;
                lemma_first_named_front(x, y, a, k);
                assert((x + y)[k] == x[k]);
            },
            Err(e) => {
                if e == GetError::NotAdress {
                    assert(cs[i] is Leaf);
                    assert(x == seq![cs[i]]);
                    assert(!leaf_named(x[0], a));
                    assert(!some_named(x, a)) by {
                        assert forall|k: int| 0 <= k < x.len() implies !leaf_named(#[trigger] x[k], a) by {
                            assert(k == 0);
                        }
                    }
                    if let Ok(l) = get_children(cs, i + 1, a) {
                        let k = choose|k: int| first_named(y, a, k) && #[trigger] y[k] == l;
                        lemma_first_named_back(x, y, a, k);
                        assert((x + y)[x.len() + k] == y[k]);
                    }
                } else {
                    assert(!(cs[i] is Leaf));
                }
            },
        }
    }
}

/// Law: among leaves, `get_chunk` finds the leaf named by the address whenever
/// one is: for a container whose children are all leaves, it answers `Ok`
/// exactly when some child's id is the address, and then with the first such
/// child.
pub proof fn lemma_get_among_leaves(id: Seq<char>, cs: Seq<ChunkView>, a: Seq<char>)
    requires
        forall|j: int| 0 <= j < cs.len() ==> #[trigger] cs[j] is Leaf,
    ensures
        get_view(ChunkView::Container { id, children: cs }, a) is Ok <==> some_named(cs, a),
        get_view(ChunkView::Container { id, children: cs }, a) matches Ok(l) ==> exists|k: int|
            first_named(cs, a, k) && #[trigger] cs[k] == l,
{
    let v = ChunkView::Container { id, children: cs };
    lemma_get_finds_reachable(v, a);
    lemma_leaves_of_leaves(cs, 0);
    lemma_leaves_container(id, cs);
    assert(leaves_between(cs, 0, cs.len() as int) =~= cs.skip(0));
    assert(cs.skip(0) =~= cs);
    lemma_reachable_among_leaves(cs, 0, a);
    assert(some_named(cs, a) <==> some_named(cs.skip(0), a));
}

proof fn lemma_leaves_of_leaves(cs: Seq<ChunkView>, i: int)
    requires
        0 <= i <= cs.len(),
        forall|j: int| 0 <= j < cs.len() ==> #[trigger] cs[j] is Leaf,
    ensures
        leaves_between(cs, i, cs.len() as int) == cs.skip(i),
    decreases cs.len() - i,
{
    if i < cs.len() {
        lemma_leaves_of_leaves(cs, i + 1);
        assert(leaves(cs[i]) == seq![cs[i]]);
        assert(cs.skip(i) =~= seq![cs[i]] + cs.skip(i + 1));
    } else {
        assert(cs.skip(i) =~= Seq::<ChunkView>::empty());
    }
}

proof fn lemma_reachable_among_leaves(cs: Seq<ChunkView>, i: int, a: Seq<char>)
    requires
        0 <= i <= cs.len(),
        forall|j: int| 0 <= j < cs.len() ==> #[trigger] cs[j] is Leaf,
    ensures
        reachable_from(cs, i, a) <==> some_named(cs.skip(i), a),
    decreases cs.len() - i,
{
    if i < cs.len() {
        lemma_reachable_among_leaves(cs, i + 1, a);
        assert(cs.skip(i) =~= seq![cs[i]] + cs.skip(i + 1));
        lemma_some_named_concat(seq![cs[i]], cs.skip(i + 1), a);
        let one = seq![cs[i]];
        assert(cs[i] is Leaf);
        assert(reachable(cs[i], a) == leaf_named(cs[i], a));
        assert(reachable_from(cs, i, a) == (leaf_named(cs[i], a) || reachable_from(cs, i + 1, a)));
        if leaf_named(cs[i], a) {
            assert(leaf_named(one[0], a));
        }
        if some_named(one, a) {
            let k = choose|k: int| 0 <= k < one.len() && leaf_named(#[trigger] one[k], a);
            assert(one[k] == cs[i]);
        }
    } else {
        assert(cs.skip(i).len() == 0);
    }
}

// ---------------------------------------------------------------------------
// Painting reaches the first leaf and answers all its sessions
// ---------------------------------------------------------------------------

/// The leaf `l` with `adds` painted on its grid.
pub open spec fn painted(l: ChunkView, adds: Seq<Pixel>) -> ChunkView {
    match l {
        ChunkView::Leaf { id, sessions, pixels } => ChunkView::Leaf { id, sessions, pixels: paint(pixels, adds) },
        _ => l,
    }
}

/// Law: `add_pixel` paints the first leaf of the map (depth first), wherever
/// it sits, and answers every session registered on that leaf, in order. It
/// fails only on a map without any leaf. No other leaf changes.
pub proof fn lemma_add_pixel_first_leaf(v: ChunkView, adds: Seq<Pixel>)
    ensures
        add_pixel_view(v, adds) is Some <==> leaves(v).len() > 0,
        add_pixel_view(v, adds) matches Some((w, ss)) ==> {
            &&& leaves(v)[0] is Leaf
            &&& ss == leaves(v)[0]->Leaf_sessions
            &&& leaves(w) == leaves(v).update(0, painted(leaves(v)[0], adds))
        },
    decreases v, 0int,
{
    match v {
        ChunkView::Leaf { .. } => {
            assert(leaves(v)[0] == v);
            assert(leaves(painted(v, adds)) =~= leaves(v).update(0, painted(v, adds)));
        },
        ChunkView::Container { id, children } => {
            lemma_leaves_container(id, children);
            lemma_add_pixel_children_first_leaf(children, 0, adds);
            if let Some((cs2, _)) = add_pixel_children(children, 0, adds) {
                lemma_leaves_container(id, cs2);
            }
        },
    }
}

proof fn lemma_add_pixel_children_first_leaf(cs: Seq<ChunkView>, i: int, adds: Seq<Pixel>)
    requires
        0 <= i <= cs.len(),
    ensures
        ({
            let l = leaves_between(cs, i, cs.len() as int);
            &&& add_pixel_children(cs, i, adds) is Some <==> l.len() > 0
            &&& add_pixel_children(cs, i, adds) matches Some((cs2, ss)) ==> {
                &&& cs2.len() == cs.len()
                &&& forall|j: int| 0 <= j < i ==> #[trigger] cs2[j] == cs[j]
                &&& l[0] is Leaf
                &&& ss == l[0]->Leaf_sessions
                &&& leaves_between(cs2, i, cs.len() as int) == l.update(0, painted(l[0], adds))
            }
        }),
    decreases cs, cs.len() - i,
{
    let n = cs.len() as int;
    if i < n {
        let x = leaves(cs[i]);
        let y = leaves_between(cs, i + 1, n);
        let l = leaves_between(cs, i, n);
        assert(l == x + y);
        lemma_add_pixel_first_leaf(cs[i], adds);
        lemma_add_pixel_children_first_leaf(cs, i + 1, adds);
        match add_pixel_view(cs[i], adds) {
            Some((c, ss)) => {
                let cs2 = cs.update(i, c);
                lemma_between_agree(cs, cs2, i + 1, n);
                assert(cs2[i] == c);
                assert(leaves_between(cs2, i, n) == leaves(c) + leaves_between(cs2, i + 1, n));
                assert(l[0] == x[0]);
                assert(leaves_between(cs2, i, n) =~= l.update(0, painted(l[0], adds)));
            },
            None => {
                assert(x.len() == 0);
                assert(l =~= y);
                if let Some((cs2, ss)) = add_pixel_children(cs, i + 1, adds) {
                    assert(cs2[i] == cs[i]);
                    assert(leaves_between(cs2, i, n) == leaves(cs2[i]) + leaves_between(cs2, i + 1, n));
                    assert(leaves_between(cs2, i, n) =~= leaves_between(cs2, i + 1, n));
                }
            },
        }
    }
}

/// Law: the sessions `add_pixel` answers are the sessions `get_chunk` sees on
/// the painted leaf, before painting and after: when the first leaf can be
/// found by its id, both lookups find it with exactly those sessions.
pub proof fn lemma_add_pixel_answers_watchers(v: ChunkView, adds: Seq<Pixel>)
    requires
        add_pixel_view(v, adds) is Some,
        get_view(v, leaves(v)[0]->Leaf_id) is Ok,
    ensures
        ({
            let (w, ss) = add_pixel_view(v, adds)->Some_0;
            let a = leaves(v)[0]->Leaf_id;
            &&& get_view(v, a)->Ok_0 is Leaf
            &&& get_view(v, a)->Ok_0->Leaf_sessions == ss
            &&& get_view(w, a) matches Ok(l) && l is Leaf && l->Leaf_sessions == ss
        }),
{
    let (w, ss) = add_pixel_view(v, adds)->Some_0;
    lemma_add_pixel_first_leaf(v, adds);
    let a = leaves(v)[0]->Leaf_id;
    lemma_get_finds_reachable(v, a);
    let l = get_view(v, a)->Ok_0;
    let k = choose|k: int| first_named(leaves(v), a, k) && #[trigger] leaves(v)[k] == l;
    assert(leaf_named(leaves(v)[0], a));
    assert(k == 0);
    lemma_add_pixel_changes_pixels_only(v, adds, a);
    let m = get_view(w, a)->Ok_0;
    lemma_get_finds_leaf(w, a);
    assert(same_but_pixels(l, m));
}

} // verus!
