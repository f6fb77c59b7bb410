//! Per-cell adjacency derived from the owner and neighbour arrays.
use vstd::prelude::*;

use crate::topology::{
    all_below, cell_cells_of, cell_faces_of, cells_next_to, faces_with, is_point_list,
    lemma_points_of_faces_step, lemma_take_to_set_step, points_of_faces, prefix_below, rows,
    strictly_increasing,
};

verus! {

/// One empty list per cell.
fn empty_rows(n_cells: usize) -> (r: Vec<Vec<usize>>)
    ensures
        r@.len() == n_cells,
        forall|c: int| 0 <= c < n_cells ==> (#[trigger] r@[c])@ == Seq::<usize>::empty(),
{
    let mut r: Vec<Vec<usize>> = Vec::new();
    let mut i: usize = 0;
    while i < n_cells
        invariant
            i <= n_cells,
            r@.len() == i,
            forall|c: int| 0 <= c < i ==> (#[trigger] r@[c])@ == Seq::<usize>::empty(),
        decreases n_cells - i,
    {
        r.push(Vec::new());
        i = i + 1;
    }
    r
}

/// Lists, for each cell, the faces it owns in face order followed by the
/// internal faces it neighbours in face order.
pub fn compute_cell_faces(owner: &[usize], neighbor: &[usize], n_internal_faces: usize, n_cells: usize) -> (r: Vec<Vec<usize>>)
    requires
        all_below(owner@, n_cells as int),
        n_internal_faces <= neighbor@.len(),
        prefix_below(neighbor@, n_internal_faces as int, n_cells as int),
    ensures
        rows(r@) == cell_faces_of(owner@, neighbor@, n_internal_faces as int, n_cells as int),
{
    let mut result = empty_rows(n_cells);
    let mut fi: usize = 0;
    while fi < owner.len()
        invariant
            fi <= owner@.len(),
            all_below(owner@, n_cells as int),
            result@.len() == n_cells,
            forall|c: int| 0 <= c < n_cells ==> (#[trigger] result@[c])@ == faces_with(owner@, c, fi as int),
        decreases owner@.len() - fi,
    {
        let o = owner[fi];
        result[o].push(fi);
        fi = fi + 1;
    }
    let mut fi: usize = 0;
    while fi < n_internal_faces
        invariant
            fi <= n_internal_faces <= neighbor@.len(),
            prefix_below(neighbor@, n_internal_faces as int, n_cells as int),
            result@.len() == n_cells,
            forall|c: int| 0 <= c < n_cells ==> (#[trigger] result@[c])@ == faces_with(owner@, c, owner@.len() as int) + faces_with(neighbor@, c, fi as int),
        decreases n_internal_faces - fi,
    {
        let nb = neighbor[fi];
        result[nb].push(fi);
        fi = fi + 1;
    }
    assert(rows(result@) =~= cell_faces_of(owner@, neighbor@, n_internal_faces as int, n_cells as int));
    result
}

/// Lists, for each cell, the cells across its internal faces, in face order.
/// A cell sharing several faces with another lists it once per face.
/// `cell_faces` is not read.
pub fn compute_cell_cells(
    cell_faces: &[Vec<usize>],
    owner: &[usize],
    neighbor: &[usize],
    n_internal_faces: usize,
    n_cells: usize,
) -> (r: Vec<Vec<usize>>)
    requires
        n_internal_faces <= owner@.len(),
        n_internal_faces <= neighbor@.len(),
        prefix_below(owner@, n_internal_faces as int, n_cells as int),
        prefix_below(neighbor@, n_internal_faces as int, n_cells as int),
    ensures
        rows(r@) == cell_cells_of(owner@, neighbor@, n_internal_faces as int, n_cells as int),
{
    let mut result = empty_rows(n_cells);
    let mut fi: usize = 0;
    while fi < n_internal_faces
        invariant
            fi <= n_internal_faces <= owner@.len(),
            n_internal_faces <= neighbor@.len(),
            prefix_below(owner@, n_internal_faces as int, n_cells as int),
            prefix_below(neighbor@, n_internal_faces as int, n_cells as int),
            result@.len() == n_cells,
            forall|c: int| 0 <= c < n_cells ==> (#[trigger] result@[c])@ == cells_next_to(owner@, neighbor@, c, fi as int),
        decreases n_internal_faces - fi,
    {
        let o = owner[fi];
        let nb = neighbor[fi];
        result[o].push(nb);
        result[nb].push(o);
        fi = fi + 1;
    }
    assert(rows(result@) =~= cell_cells_of(owner@, neighbor@, n_internal_faces as int, n_cells as int));
    result
}

/// Adds `x` to an ascending list of distinct indices, keeping it so.
fn insert_sorted(v: &mut Vec<usize>, x: usize)
    requires
        strictly_increasing(old(v)@),
    ensures
        strictly_increasing(final(v)@),
        final(v)@.to_set() == old(v)@.to_set().insert(x),
{
    let mut i: usize = 0;
    while i < v.len() && v[i] < x
        invariant
            i <= v@.len(),
            v@ == old(v)@,
            forall|j: int| 0 <= j < i ==> v@[j] < x,
        decreases v@.len() - i,
    {
        i = i + 1;
    }
    if i < v.len() && v[i] == x {
        proof {
            assert(v@.to_set() =~= v@.to_set().insert(x));
        }
        return;
    }
    let ghost s = v@;
    v.insert(i, x);
    proof {
        let t = v@;
        assert(t =~= s.insert(i as int, x));
        assert forall|a: int, b: int| 0 <= a < b < t.len() implies t[a] < t[b] by {
            if b < i {
            } else if b == i {
            } else if a < i {
                assert(s[b - 1] > x);
            } else if a == i {
                assert(s[b - 1] > x);
            }
        }
        assert forall|p: usize| t.to_set().contains(p) implies s.to_set().insert(x).contains(p) by {
            let k = choose|k: int| 0 <= k < t.len() && #[trigger] t[k] == p;
            if k < i {
                assert(s[k] == p);
            } else if k > i {
                assert(s[k - 1] == p);
            }
        }
        assert forall|p: usize| s.to_set().insert(x).contains(p) implies t.to_set().contains(p) by {
            if p == x {
                assert(t[i as int] == p);
            } else {
                let k = choose|k: int| 0 <= k < s.len() && #[trigger] s[k] == p;
                if k < i {
                    assert(t[k] == p);
                } else {
                    assert(t[k + 1] == p);
                }
            }
        }
        assert(t.to_set() =~= s.to_set().insert(x));
    }
}

/// The points of the faces listed in `fs`, ascending and once each.
fn collect_points(fs: &Vec<usize>, faces: &[Vec<usize>]) -> (r: Vec<usize>)
    requires
        all_below(fs@, faces@.len() as int),
    ensures
        is_point_list(rows(faces@), fs@, r@),
{
    let ghost fv = rows(faces@);
    let mut pts: Vec<usize> = Vec::new();
    proof {
        assert(pts@.to_set() =~= points_of_faces(fv, fs@.take(0)));
    }
    let mut j: usize = 0;
    while j < fs.len()
        invariant
            j <= fs@.len(),
            all_below(fs@, faces@.len() as int),
            fv == rows(faces@),
            strictly_increasing(pts@),
            pts@.to_set() == points_of_faces(fv, fs@.take(j as int)),
        decreases fs@.len() - j,
    {
        let face = &faces[fs[j]];
        assert(face@ == fv[fs@[j as int] as int]);
        let ghost before = points_of_faces(fv, fs@.take(j as int));
        proof {
            assert(face@.take(0).to_set() =~= Set::<usize>::empty());
            assert(before.union(face@.take(0).to_set()) =~= before);
        }
        let mut k: usize = 0;
        while k < face.len()
            invariant
                k <= face@.len(),
                strictly_increasing(pts@),
                pts@.to_set() == before.union(face@.take(k as int).to_set()),
            decreases face@.len() - k,
        {
            insert_sorted(&mut pts, face[k]);
            proof {
                lemma_take_to_set_step(face@, k as int);
                assert(before.union(face@.take(k as int).to_set()).insert(face@[k as int]) =~= before.union(
                    face@.take(k as int + 1).to_set(),
                ));
            }
            k = k + 1;
        }
        proof {
            assert(face@.take(face@.len() as int) =~= face@);
            lemma_points_of_faces_step(fv, fs@, j as int);
        }
        j = j + 1;
    }
    proof {
        assert(fs@.take(fs@.len() as int) =~= fs@);
    }
    pts
}

/// Lists, for each of the first `n_cells` cells of `cell_faces`, the points
/// of its faces in ascending order and without repetition.
pub fn compute_cell_points(cell_faces: &[Vec<usize>], faces: &[Vec<usize>], n_cells: usize) -> (r: Vec<Vec<usize>>)
    requires
        forall|c: int| 0 <= c < cell_faces@.len() && c < n_cells ==> all_below(#[trigger] cell_faces@[c]@, faces@.len() as int),
    ensures
        r@.len() == if n_cells < cell_faces@.len() { n_cells as int } else { cell_faces@.len() as int },
        forall|c: int| 0 <= c < r@.len() ==> is_point_list(rows(faces@), #[trigger] cell_faces@[c]@, r@[c]@),
{
    let count = if n_cells < cell_faces.len() { n_cells } else { cell_faces.len() };
    let mut result: Vec<Vec<usize>> = Vec::new();
    let mut ci: usize = 0;
    while ci < count
        invariant
            ci <= count,
            count == (if n_cells < cell_faces@.len() { n_cells as int } else { cell_faces@.len() as int }),
            forall|c: int| 0 <= c < cell_faces@.len() && c < n_cells ==> all_below(#[trigger] cell_faces@[c]@, faces@.len() as int),
            result@.len() == ci,
            forall|c: int| 0 <= c < ci ==> is_point_list(rows(faces@), #[trigger] cell_faces@[c]@, result@[c]@),
        decreases count - ci,
    {
        let pts = collect_points(&cell_faces[ci], faces);
        result.push(pts);
        ci = ci + 1;
    }
    result
}

} // verus!
