//! Mathematical model of a mesh's topology: which faces belong to which
//! cell, which cells neighbour each other, and which points a cell touches.
use vstd::prelude::*;

verus! {

/// The rows of a table of index lists, each as a sequence.
pub open spec fn rows(t: Seq<Vec<usize>>) -> Seq<Seq<usize>> {
    t.map_values(|r: Vec<usize>| r@)
}

/// Every entry of `s` is below `bound`.
pub open spec fn all_below(s: Seq<usize>, bound: int) -> bool {
    forall|i: int| 0 <= i < s.len() ==> #[trigger] s[i] < bound
}

/// The first `k` entries of `s` are below `bound`.
pub open spec fn prefix_below(s: Seq<usize>, k: int, bound: int) -> bool {
    forall|i: int| 0 <= i < k ==> #[trigger] s[i] < bound
}

/// Every point index of every face is below `n_points`.
pub open spec fn faces_in_range(faces: Seq<Seq<usize>>, n_points: int) -> bool {
    forall|f: int| 0 <= f < faces.len() ==> all_below(#[trigger] faces[f], n_points)
}

/// Strictly ascending, hence free of duplicates.
pub open spec fn strictly_increasing(s: Seq<usize>) -> bool {
    forall|i: int, j: int| 0 <= i < j < s.len() ==> s[i] < s[j]
}

/// The indices `f < k`, ascending, at which `side[f] == c`.
///
/// With `side` the owner array this lists the faces that cell `c` owns; with
/// the neighbour array, the internal faces on whose negative side it lies.
pub open spec fn faces_with(side: Seq<usize>, c: int, k: int) -> Seq<usize>
    decreases k,
{
    if k <= 0 {
        seq![]
    } else {
        let prev = faces_with(side, c, k - 1);
        if side[k - 1] == c {
            prev.push((k - 1) as usize)
        } else {
            prev
        }
    }
}

/// The faces of cell `c`: those it owns in face order, then the internal
/// faces it neighbours in face order.
pub open spec fn faces_of_cell(owner: Seq<usize>, neighbour: Seq<usize>, n_internal: int, c: int) -> Seq<usize> {
    faces_with(owner, c, owner.len() as int) + faces_with(neighbour, c, n_internal)
}

/// The face list of every cell `c < n_cells`.
pub open spec fn cell_faces_of(owner: Seq<usize>, neighbour: Seq<usize>, n_internal: int, n_cells: int) -> Seq<Seq<usize>> {
    Seq::new(n_cells as nat, |c: int| faces_of_cell(owner, neighbour, n_internal, c))
}

/// The cells adjacent to `c` across the internal faces `f < k`, in face
/// order: for each face, the neighbour if `c` owns it, then the owner if `c`
/// neighbours it. A cell that shares several faces with `c` appears once per
/// shared face.
pub open spec fn cells_next_to(owner: Seq<usize>, neighbour: Seq<usize>, c: int, k: int) -> Seq<usize>
    decreases k,
{
    if k <= 0 {
        seq![]
    } else {
        let prev = cells_next_to(owner, neighbour, c, k - 1);
        let with_owned = if owner[k - 1] == c {
            prev.push(neighbour[k - 1])
        } else {
            prev
        };
        if neighbour[k - 1] == c {
            with_owned.push(owner[k - 1])
        } else {
            with_owned
        }
    }
}

/// The adjacency list of every cell `c < n_cells`.
pub open spec fn cell_cells_of(owner: Seq<usize>, neighbour: Seq<usize>, n_internal: int, n_cells: int) -> Seq<Seq<usize>> {
    Seq::new(n_cells as nat, |c: int| cells_next_to(owner, neighbour, c, n_internal))
}

/// The points that appear in any of the faces listed in `fs`.
pub open spec fn points_of_faces(faces: Seq<Seq<usize>>, fs: Seq<usize>) -> Set<usize> {
    Set::new(|p: usize| exists|j: int| 0 <= j < fs.len() && #[trigger] faces[fs[j] as int].contains(p))
}

/// `pts` lists, ascending and once each, the points of the faces in `fs`.
pub open spec fn is_point_list(faces: Seq<Seq<usize>>, fs: Seq<usize>, pts: Seq<usize>) -> bool {
    strictly_increasing(pts) && pts.to_set() == points_of_faces(faces, fs)
}

/// `table` holds, for each cell, the point list of its faces in `cell_faces`.
pub open spec fn is_point_table(faces: Seq<Seq<usize>>, cell_faces: Seq<Seq<usize>>, table: Seq<Seq<usize>>) -> bool {
    &&& table.len() == cell_faces.len()
    &&& forall|c: int| 0 <= c < table.len() ==> is_point_list(faces, #[trigger] cell_faces[c], table[c])
}

/// Taking one more face into `fs.take(j)` adds the points of that face.
pub proof fn lemma_points_of_faces_step(faces: Seq<Seq<usize>>, fs: Seq<usize>, j: int)
    requires
        0 <= j < fs.len(),
    ensures
        points_of_faces(faces, fs.take(j + 1)) == points_of_faces(faces, fs.take(j)).union(
            faces[fs[j] as int].to_set(),
        ),
{
    let lhs = points_of_faces(faces, fs.take(j + 1));
    let rhs = points_of_faces(faces, fs.take(j)).union(faces[fs[j] as int].to_set());
    assert forall|p: usize| lhs.contains(p) implies rhs.contains(p) by {
        let i = choose|i: int| 0 <= i < fs.take(j + 1).len() && #[trigger] faces[fs.take(j + 1)[i] as int].contains(p);
        if i < j {
            assert(faces[fs.take(j)[i] as int].contains(p));
        } else {
            assert(faces[fs[j] as int].contains(p));
        }
    }
    assert forall|p: usize| rhs.contains(p) implies lhs.contains(p) by {
        if points_of_faces(faces, fs.take(j)).contains(p) {
            let i = choose|i: int| 0 <= i < fs.take(j).len() && #[trigger] faces[fs.take(j)[i] as int].contains(p);
            assert(faces[fs.take(j + 1)[i] as int].contains(p));
        } else {
            assert(faces[fs.take(j + 1)[j] as int].contains(p));
        }
    }
    assert(lhs =~= rhs);
}

/// Taking one more element of `s` adds that element to the set.
pub proof fn lemma_take_to_set_step(s: Seq<usize>, k: int)
    requires
        0 <= k < s.len(),
    ensures
        s.take(k + 1).to_set() == s.take(k).to_set().insert(s[k]),
{
    let lhs = s.take(k + 1).to_set();
    let rhs = s.take(k).to_set().insert(s[k]);
    assert forall|p: usize| lhs.contains(p) implies rhs.contains(p) by {
        let i = choose|i: int| 0 <= i < s.take(k + 1).len() && #[trigger] s.take(k + 1)[i] == p;
        if i < k {
            assert(s.take(k)[i] == p);
        }
    }
    assert forall|p: usize| rhs.contains(p) implies lhs.contains(p) by {
        if p == s[k] {
            assert(s.take(k + 1)[k] == p);
        } else {
            let i = choose|i: int| 0 <= i < s.take(k).len() && #[trigger] s.take(k)[i] == p;
            assert(s.take(k + 1)[i] == p);
        }
    }
    assert(lhs =~= rhs);
}

/// The first index `i < k` with `s[i] >= bound`, if any.
pub open spec fn first_at_least(s: Seq<usize>, bound: int, k: int) -> Option<int>
    decreases k,
{
    if k <= 0 {
        None
    } else {
        match first_at_least(s, bound, k - 1) {
            Some(i) => Some(i),
            None => if s[k - 1] >= bound {
                Some(k - 1)
            } else {
                None
            },
        }
    }
}

/// The first face `f < k`, and the first position in it, that names a point
/// index of at least `n_points`, if any.
pub open spec fn first_bad_point(faces: Seq<Seq<usize>>, n_points: int, k: int) -> Option<(int, int)>
    decreases k,
{
    if k <= 0 {
        None
    } else {
        match first_bad_point(faces, n_points, k - 1) {
            Some(at) => Some(at),
            None => match first_at_least(faces[k - 1], n_points, faces[k - 1].len() as int) {
                Some(j) => Some((k - 1, j)),
                None => None,
            },
        }
    }
}

/// No entry below `k` reaches `bound` exactly when `first_at_least` finds none.
pub proof fn lemma_first_at_least_none(s: Seq<usize>, bound: int, k: int)
    requires
        0 <= k <= s.len(),
    ensures
        first_at_least(s, bound, k) is None <==> prefix_below(s, k, bound),
    decreases k,
{
    if k > 0 {
        lemma_first_at_least_none(s, bound, k - 1);
    }
}

/// Once an entry at `i` reaches `bound` after a clean prefix, it is the
/// first one in every longer prefix.
pub proof fn lemma_first_at_least_found(s: Seq<usize>, bound: int, i: int, k: int)
    requires
        0 <= i < k <= s.len(),
        prefix_below(s, i, bound),
        s[i] >= bound,
    ensures
        first_at_least(s, bound, k) == Some(i),
    decreases k,
{
    if k == i + 1 {
        lemma_first_at_least_none(s, bound, i);
    } else {
        lemma_first_at_least_found(s, bound, i, k - 1);
    }
}

/// No face below `k` names a point of at least `n_points` exactly when
/// `first_bad_point` finds none.
pub proof fn lemma_first_bad_point_none(faces: Seq<Seq<usize>>, n_points: int, k: int)
    requires
        0 <= k <= faces.len(),
    ensures
        first_bad_point(faces, n_points, k) is None <==> (forall|f: int|
            0 <= f < k ==> all_below(#[trigger] faces[f], n_points)),
    decreases k,
{
    if k > 0 {
        lemma_first_bad_point_none(faces, n_points, k - 1);
        lemma_first_at_least_none(faces[k - 1], n_points, faces[k - 1].len() as int);
        if first_bad_point(faces, n_points, k) is None {
            assert forall|f: int| 0 <= f < k implies all_below(#[trigger] faces[f], n_points) by {
                if f == k - 1 {
                    assert(prefix_below(faces[f], faces[f].len() as int, n_points));
                }
            }
        } else if (forall|f: int| 0 <= f < k ==> all_below(#[trigger] faces[f], n_points)) {
            assert(all_below(faces[k - 1], n_points));
        }
    }
}

/// A bad point at face `f`, position `j`, after clean faces and a clean
/// start of face `f`, is the first one in every longer run of faces.
pub proof fn lemma_first_bad_point_found(faces: Seq<Seq<usize>>, n_points: int, f: int, j: int, k: int)
    requires
        0 <= f < k <= faces.len(),
        forall|g: int| 0 <= g < f ==> all_below(#[trigger] faces[g], n_points),
        0 <= j < faces[f].len(),
        prefix_below(faces[f], j, n_points),
        faces[f][j] >= n_points,
    ensures
        first_bad_point(faces, n_points, k) == Some((f, j)),
    decreases k,
{
    if k == f + 1 {
        lemma_first_bad_point_none(faces, n_points, f);
        lemma_first_at_least_found(faces[f], n_points, j, faces[f].len() as int);
    } else {
        lemma_first_bad_point_found(faces, n_points, f, j, k - 1);
    }
}

/// The faces listed by `faces_with(side, c, k)` all lie below `k`.
pub proof fn lemma_faces_with_below(side: Seq<usize>, c: int, k: int)
    ensures
        all_below(faces_with(side, c, k), k),
    decreases k,
{
    if k > 0 {
        lemma_faces_with_below(side, c, k - 1);
        let prev = faces_with(side, c, k - 1);
        assert forall|i: int| 0 <= i < faces_with(side, c, k).len() implies #[trigger] faces_with(side, c, k)[i] < k by {
            if i < prev.len() {
                assert(prev[i] < k - 1);
            }
        }
    }
}

/// Every face listed for a cell is a face of the mesh.
pub proof fn lemma_cell_faces_in_range(owner: Seq<usize>, neighbour: Seq<usize>, n_internal: int, n_cells: int, n_faces: int)
    requires
        owner.len() == n_faces,
        0 <= n_internal <= n_faces,
    ensures
        forall|c: int| 0 <= c < n_cells ==> all_below(#[trigger] cell_faces_of(owner, neighbour, n_internal, n_cells)[c], n_faces),
{
    assert forall|c: int| 0 <= c < n_cells implies all_below(#[trigger] cell_faces_of(owner, neighbour, n_internal, n_cells)[c], n_faces) by {
        let a = faces_with(owner, c, owner.len() as int);
        let b = faces_with(neighbour, c, n_internal);
        lemma_faces_with_below(owner, c, owner.len() as int);
        lemma_faces_with_below(neighbour, c, n_internal);
        let s = a + b;
        assert forall|i: int| 0 <= i < s.len() implies #[trigger] s[i] < n_faces by {
            if i < a.len() {
                assert(a[i] < n_faces);
            } else {
                assert(b[i - a.len()] < n_internal);
            }
        }
    }
}

/// Two ascending lists of distinct indices that hold the same indices are
/// the same list.
pub proof fn lemma_sorted_lists_unique(a: Seq<usize>, b: Seq<usize>)
    requires
        strictly_increasing(a),
        strictly_increasing(b),
        a.to_set() == b.to_set(),
    ensures
        a == b,
    decreases a.len(),
{
    if a.len() == 0 {
        if b.len() > 0 {
            assert(b.to_set().contains(b[0]));
        }
        assert(a =~= b);
    } else if b.len() == 0 {
        assert(a.to_set().contains(a[0]));
    } else {
        assert(b.to_set().contains(a[0]));
        assert(a.to_set().contains(b[0]));
        let i = choose|i: int| 0 <= i < a.len() && a[i] == b[0];
        let j = choose|j: int| 0 <= j < b.len() && b[j] == a[0];
        assert(a[0] <= a[i]);
        assert(b[0] <= b[j]);
        let ta = a.drop_first();
        let tb = b.drop_first();
        assert forall|p: usize| ta.to_set().contains(p) implies tb.to_set().contains(p) by {
            let k = choose|k: int| 0 <= k < ta.len() && ta[k] == p;
            assert(a[k + 1] == p);
            assert(b.to_set().contains(p));
            let m = choose|m: int| 0 <= m < b.len() && b[m] == p;
            if m == 0 {
                assert(a[0] < a[k + 1]);
            } else {
                assert(tb[m - 1] == p);
            }
        }
        assert forall|p: usize| tb.to_set().contains(p) implies ta.to_set().contains(p) by {
            let k = choose|k: int| 0 <= k < tb.len() && tb[k] == p;
            assert(b[k + 1] == p);
            assert(a.to_set().contains(p));
            let m = choose|m: int| 0 <= m < a.len() && a[m] == p;
            if m == 0 {
                assert(b[0] < b[k + 1]);
            } else {
                assert(ta[m - 1] == p);
            }
        }
        assert(ta.to_set() =~= tb.to_set());
        lemma_sorted_lists_unique(ta, tb);
        assert(a[0] == b[0]);
        assert forall|k: int| 0 <= k < a.len() implies a[k] == b[k] by {
            if k > 0 {
                assert(a[k] == ta[k - 1]);
                assert(b[k] == tb[k - 1]);
            }
        }
        assert(a =~= b);
    }
}

/// The point list of a cell repeats no index, and holds a point exactly
/// when one of the cell's faces names it.
pub proof fn lemma_point_list_is_union(faces: Seq<Seq<usize>>, cell_faces: Seq<Seq<usize>>, table: Seq<Seq<usize>>, c: int)
    requires
        is_point_table(faces, cell_faces, table),
        0 <= c < table.len(),
    ensures
        table[c].no_duplicates(),
        forall|p: usize| #[trigger] table[c].contains(p) <==> exists|j: int|
            0 <= j < cell_faces[c].len() && #[trigger] faces[cell_faces[c][j] as int].contains(p),
{
    let pts = table[c];
    assert(is_point_list(faces, cell_faces[c], pts));
    assert forall|i: int, j: int| 0 <= i < pts.len() && 0 <= j < pts.len() && i != j implies pts[i] != pts[j] by {
        if i < j {
            assert(pts[i] < pts[j]);
        } else {
            assert(pts[j] < pts[i]);
        }
    }
    assert forall|p: usize| #[trigger] pts.contains(p) <==> exists|j: int|
        0 <= j < cell_faces[c].len() && #[trigger] faces[cell_faces[c][j] as int].contains(p) by {
        assert(pts.contains(p) <==> pts.to_set().contains(p));
        assert(points_of_faces(faces, cell_faces[c]).contains(p) <==> exists|j: int|
            0 <= j < cell_faces[c].len() && #[trigger] faces[cell_faces[c][j] as int].contains(p));
    }
}

} // verus!
