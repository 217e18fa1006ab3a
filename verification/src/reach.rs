//! Reachability over the tile grid: paths of walkable tiles, and the
//! lemmas that chain them together. The dungeon generator uses these to
//! establish that every accepted room can be walked to from every other.

use vstd::prelude::*;
use crate::map::{in_bounds, on_hseg, on_vseg, Tile};

verus! {

/// Whether `q` is one orthogonal step away from `p`.
pub open spec fn adjacent(p: (int, int), q: (int, int)) -> bool {
    (q.0 == p.0 + 1 && q.1 == p.1) || (q.0 == p.0 - 1 && q.1 == p.1) || (q.0 == p.0 && q.1 == p.1
        + 1) || (q.0 == p.0 && q.1 == p.1 - 1)
}

/// Whether `p` is an in-bounds, walkable tile of grid `t`.
pub open spec fn open_at(t: Seq<Seq<Tile>>, p: (int, int)) -> bool {
    in_bounds(p.0, p.1) && !t[p.0][p.1].solid
}

/// Whether `path` steps through walkable tiles of `t`, one orthogonal
/// move at a time.
pub open spec fn is_path(t: Seq<Seq<Tile>>, path: Seq<(int, int)>) -> bool {
    (forall|k: int| 0 <= k < path.len() ==> open_at(t, #[trigger] path[k])) && (forall|k: int|
        #![trigger path[k], path[k + 1]]
        0 <= k < path.len() - 1 ==> adjacent(path[k], path[k + 1]))
}

/// Whether a path of walkable tiles leads from `a` to `b` in `t`.
pub open spec fn connected(t: Seq<Seq<Tile>>, a: (int, int), b: (int, int)) -> bool {
    exists|path: Seq<(int, int)>|
        #[trigger] is_path(t, path) && path.len() > 0 && path[0] == a && path.last() == b
}

/// One step of a path is an adjacency (a convenience instantiation).
proof fn lemma_path_adjacent(t: Seq<Seq<Tile>>, path: Seq<(int, int)>, k: int)
    requires
        is_path(t, path),
        0 <= k < path.len() - 1,
    ensures
        adjacent(path[k], path[k + 1]),
{
}

/// A walkable tile is connected to itself.
pub proof fn lemma_connected_refl(t: Seq<Seq<Tile>>, a: (int, int))
    requires
        open_at(t, a),
    ensures
        connected(t, a, a),
{
    let path = seq![a];
    assert(is_path(t, path));
    assert(path.last() == a);
}

/// Two adjacent walkable tiles are connected.
pub proof fn lemma_connected_step(t: Seq<Seq<Tile>>, a: (int, int), b: (int, int))
    requires
        open_at(t, a),
        open_at(t, b),
        adjacent(a, b),
    ensures
        connected(t, a, b),
{
    let path = seq![a, b];
    assert(is_path(t, path));
    assert(path.last() == b);
}

/// Connectivity runs both ways: a path can be walked in reverse.
pub proof fn lemma_connected_sym(t: Seq<Seq<Tile>>, a: (int, int), b: (int, int))
    requires
        connected(t, a, b),
    ensures
        connected(t, b, a),
{
    let path = choose|path: Seq<(int, int)>|
        #[trigger] is_path(t, path) && path.len() > 0 && path[0] == a && path.last() == b;
    let n = path.len() as int;
    let rev = Seq::new(path.len(), |k: int| path[n - 1 - k]);
    assert forall|k: int| 0 <= k < rev.len() implies open_at(t, #[trigger] rev[k]) by {
        assert(open_at(t, path[n - 1 - k]));
    }
    assert forall|k: int| #![trigger rev[k], rev[k + 1]] 0 <= k < rev.len() - 1 implies adjacent(
        rev[k],
        rev[k + 1],
    ) by {
        lemma_path_adjacent(t, path, n - 2 - k);
        assert(rev[k] == path[n - 1 - k]);
        assert(rev[k + 1] == path[n - 2 - k]);
    }
    assert(is_path(t, rev));
    assert(rev[0] == b && rev.last() == a);
}

/// Connectivity chains: paths to `b` and from `b` concatenate.
#[verifier::rlimit(50)]
pub proof fn lemma_connected_trans(t: Seq<Seq<Tile>>, a: (int, int), b: (int, int), c: (int, int))
    requires
        connected(t, a, b),
        connected(t, b, c),
    ensures
        connected(t, a, c),
{
    let p1 = choose|path: Seq<(int, int)>|
        #[trigger] is_path(t, path) && path.len() > 0 && path[0] == a && path.last() == b;
    let p2 = choose|path: Seq<(int, int)>|
        #[trigger] is_path(t, path) && path.len() > 0 && path[0] == b && path.last() == c;
    let n1 = p1.len() as int;
    let joined = p1 + p2.subrange(1, p2.len() as int);
    assert forall|k: int| 0 <= k < joined.len() implies open_at(t, #[trigger] joined[k]) by {
        if k < n1 {
            assert(open_at(t, p1[k]));
        } else {
            assert(joined[k] == p2[k - n1 + 1]);
            assert(open_at(t, p2[k - n1 + 1]));
        }
    }
    assert forall|k: int| #![trigger joined[k], joined[k + 1]] 0 <= k < joined.len() - 1 implies
        adjacent(joined[k], joined[k + 1]) by {
        if k + 1 < n1 {
            lemma_path_adjacent(t, p1, k);
        } else if k + 1 == n1 {
            assert(joined[k] == p1[n1 - 1]);
            assert(p2.len() >= 2);
            assert(joined[k + 1] == p2.subrange(1, p2.len() as int)[0]);
            assert(joined[k + 1] == p2[1]);
            lemma_path_adjacent(t, p2, 0);
            assert(p1[n1 - 1] == b && p2[0] == b);
        } else {
            assert(joined[k] == p2[k - n1 + 1]);
            assert(joined[k + 1] == p2[k - n1 + 2]);
            lemma_path_adjacent(t, p2, k - n1 + 1);
        }
    }
    assert(is_path(t, joined));
    if p2.len() == 1 {
        assert(b == c);
        assert(joined =~= p1);
        assert(joined.last() == c);
    } else {
        assert(joined.last() == p2.subrange(1, p2.len() as int).last());
        assert(joined.last() == c);
    }
    assert(joined[0] == a);
}

/// Opening more tiles never disconnects anything: a path through `t1`
/// is still a path through a grid `t2` whose walkable set contains
/// `t1`'s.
pub proof fn lemma_connected_monotone(
    t1: Seq<Seq<Tile>>,
    t2: Seq<Seq<Tile>>,
    a: (int, int),
    b: (int, int),
)
    requires
        connected(t1, a, b),
        forall|p: (int, int)| #[trigger] open_at(t1, p) ==> open_at(t2, p),
    ensures
        connected(t2, a, b),
{
    let path = choose|path: Seq<(int, int)>|
        #[trigger] is_path(t1, path) && path.len() > 0 && path[0] == a && path.last() == b;
    assert forall|k: int| 0 <= k < path.len() implies open_at(t2, #[trigger] path[k]) by {
        assert(open_at(t1, path[k]));
    }
    assert(is_path(t2, path));
}

/// A fully walkable horizontal segment connects its two endpoints.
pub proof fn lemma_hseg_connected(t: Seq<Seq<Tile>>, x1: int, x2: int, y: int)
    requires
        forall|p: (int, int)| on_hseg(x1, x2, y, p) ==> #[trigger] open_at(t, p),
    ensures
        connected(t, (x1, y), (x2, y)),
    decreases
            (if x1 <= x2 {
                x2 - x1
            } else {
                x1 - x2
            }),
{
    assert(on_hseg(x1, x2, y, (x1, y)));
    assert(on_hseg(x1, x2, y, (x2, y)));
    if x1 == x2 {
        lemma_connected_refl(t, (x1, y));
    } else if x1 < x2 {
        assert forall|p: (int, int)| on_hseg(x1, x2 - 1, y, p) implies #[trigger] open_at(t, p) by {
            assert(on_hseg(x1, x2, y, p));
        }
        lemma_hseg_connected(t, x1, x2 - 1, y);
        assert(on_hseg(x1, x2, y, (x2 - 1, y)));
        lemma_connected_step(t, (x2 - 1, y), (x2, y));
        lemma_connected_trans(t, (x1, y), (x2 - 1, y), (x2, y));
    } else {
        assert forall|p: (int, int)| on_hseg(x1, x2 + 1, y, p) implies #[trigger] open_at(t, p) by {
            assert(on_hseg(x1, x2, y, p));
        }
        lemma_hseg_connected(t, x1, x2 + 1, y);
        assert(on_hseg(x1, x2, y, (x2 + 1, y)));
        lemma_connected_step(t, (x2 + 1, y), (x2, y));
        lemma_connected_trans(t, (x1, y), (x2 + 1, y), (x2, y));
    }
}

/// A fully walkable vertical segment connects its two endpoints.
pub proof fn lemma_vseg_connected(t: Seq<Seq<Tile>>, y1: int, y2: int, x: int)
    requires
        forall|p: (int, int)| on_vseg(y1, y2, x, p) ==> #[trigger] open_at(t, p),
    ensures
        connected(t, (x, y1), (x, y2)),
    decreases
            (if y1 <= y2 {
                y2 - y1
            } else {
                y1 - y2
            }),
{
    assert(on_vseg(y1, y2, x, (x, y1)));
    assert(on_vseg(y1, y2, x, (x, y2)));
    if y1 == y2 {
        lemma_connected_refl(t, (x, y1));
    } else if y1 < y2 {
        assert forall|p: (int, int)| on_vseg(y1, y2 - 1, x, p) implies #[trigger] open_at(t, p) by {
            assert(on_vseg(y1, y2, x, p));
        }
        lemma_vseg_connected(t, y1, y2 - 1, x);
        assert(on_vseg(y1, y2, x, (x, y2 - 1)));
        lemma_connected_step(t, (x, y2 - 1), (x, y2));
        lemma_connected_trans(t, (x, y1), (x, y2 - 1), (x, y2));
    } else {
        assert forall|p: (int, int)| on_vseg(y1, y2 + 1, x, p) implies #[trigger] open_at(t, p) by {
            assert(on_vseg(y1, y2, x, p));
        }
        lemma_vseg_connected(t, y1, y2 + 1, x);
        assert(on_vseg(y1, y2, x, (x, y2 + 1)));
        lemma_connected_step(t, (x, y2 + 1), (x, y2));
        lemma_connected_trans(t, (x, y1), (x, y2 + 1), (x, y2));
    }
}

} // verus!
