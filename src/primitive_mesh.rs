//! A validated, immutable mesh topology whose derived connectivity is
//! computed on first request and shared by every later request.
use std::sync::Arc;
use vstd::prelude::*;
use vstd::rwlock::RwLock;

use crate::connectivity::{compute_cell_cells, compute_cell_faces, compute_cell_points};
use crate::error::MeshError;
use crate::topology::{
    all_below, cell_cells_of, is_point_list, lemma_cell_faces_in_range, lemma_sorted_lists_unique, cell_faces_of, faces_in_range, first_at_least, is_point_table, first_bad_point, lemma_first_at_least_found,
    lemma_first_at_least_none, lemma_first_bad_point_found, lemma_first_bad_point_none,
    prefix_below, rows,
};

verus! {

/// The error that validation reports for the given arrays, if any: the
/// checks run in order (owner length, neighbour length, owner range,
/// neighbour range, point range, internal face count) and the first that fails, at
/// its first offending index, decides.
pub open spec fn construction_error(
    n_points: usize,
    faces: Seq<Seq<usize>>,
    owner: Seq<usize>,
    neighbor: Seq<usize>,
    n_internal_faces: usize,
    n_cells: usize,
) -> Option<MeshError> {
    if owner.len() != faces.len() {
        Some(MeshError::OwnerLengthMismatch { expected: faces.len() as usize, got: owner.len() as usize })
    } else if neighbor.len() != n_internal_faces {
        Some(MeshError::NeighbourLengthMismatch { expected: n_internal_faces, got: neighbor.len() as usize })
    } else {
        match first_at_least(owner, n_cells as int, owner.len() as int) {
            Some(f) => Some(MeshError::OwnerIndexOutOfRange { face: f as usize, cell: owner[f], n_cells }),
            None => match first_at_least(neighbor, n_cells as int, neighbor.len() as int) {
                Some(f) => Some(MeshError::NeighbourIndexOutOfRange { face: f as usize, cell: neighbor[f], n_cells }),
                None => match first_bad_point(faces, n_points as int, faces.len() as int) {
                    Some((f, j)) => Some(MeshError::PointIndexOutOfRange { face: f as usize, point: faces[f][j], n_points }),
                    None => if n_internal_faces > faces.len() {
                        Some(MeshError::InternalFaceCountOutOfRange { n_internal_faces, n_faces: faces.len() as usize })
                    } else {
                        None
                    },
                },
            },
        }
    }
}

/// The arrays describe a mesh: the counts agree and every index names an
/// existing cell or point.
pub open spec fn valid_topology(
    n_points: usize,
    faces: Seq<Seq<usize>>,
    owner: Seq<usize>,
    neighbor: Seq<usize>,
    n_internal_faces: usize,
    n_cells: usize,
) -> bool {
    &&& owner.len() == faces.len()
    &&& neighbor.len() == n_internal_faces
    &&& n_internal_faces <= faces.len()
    &&& all_below(owner, n_cells as int)
    &&& all_below(neighbor, n_cells as int)
    &&& faces_in_range(faces, n_points as int)
}

/// Validation succeeds exactly on the arrays that describe a mesh.
pub proof fn lemma_no_error_iff_valid(
    n_points: usize,
    faces: Seq<Seq<usize>>,
    owner: Seq<usize>,
    neighbor: Seq<usize>,
    n_internal_faces: usize,
    n_cells: usize,
)
    ensures
        construction_error(n_points, faces, owner, neighbor, n_internal_faces, n_cells) is None
            <==> valid_topology(n_points, faces, owner, neighbor, n_internal_faces, n_cells),
{
    lemma_first_at_least_none(owner, n_cells as int, owner.len() as int);
    lemma_first_at_least_none(neighbor, n_cells as int, neighbor.len() as int);
    lemma_first_bad_point_none(faces, n_points as int, faces.len() as int);
}

/// A table of index lists, shared by every holder.
pub type SharedTable = Arc<Vec<Vec<usize>>>;

/// A write-once slot for a table: empty until first filled, then fixed.
type TableSlot = RwLock<Option<SharedTable>, spec_fn(Option<SharedTable>) -> bool>;

/// The slots that may hold only the table `expected`.
pub open spec fn holds_table(expected: Seq<Seq<usize>>) -> spec_fn(Option<SharedTable>) -> bool {
    |v: Option<SharedTable>|
        match v {
            Some(t) => rows(t@) == expected,
            None => true,
        }
}

/// The slots that may hold only a point table for `faces` and `cell_faces`.
pub open spec fn holds_point_table(faces: Seq<Seq<usize>>, cell_faces: Seq<Seq<usize>>) -> spec_fn(Option<SharedTable>) -> bool {
    |v: Option<SharedTable>|
        match v {
            Some(t) => is_point_table(faces, cell_faces, rows(t@)),
            None => true,
        }
}

/// The table in `slot`, if it has been filled.
fn filled(slot: &TableSlot) -> (r: Option<SharedTable>)
    ensures
        r matches Some(t) ==> slot.inv(Some(t)),
{
    let read = slot.acquire_read();
    let r = match read.borrow() {
        Some(t) => Some(t.clone()),
        None => None,
    };
    read.release_read();
    r
}

/// A mesh given by point coordinates of type `P`, the point index lists of
/// its faces, and the owner and neighbour cell of each face. The first
/// `n_internal_faces` faces are internal and have a neighbour; the others
/// lie on the boundary.
pub struct PrimitiveMesh<P> {
    points: Vec<P>,
    faces: Vec<Vec<usize>>,
    owner: Vec<usize>,
    neighbor: Vec<usize>,
    n_internal_faces: usize,
    n_cells: usize,
    cell_faces: TableSlot,
    cell_cells: TableSlot,
    cell_points: TableSlot,
}

impl<P> PrimitiveMesh<P> {
    #[verifier::type_invariant]
    spec fn well_formed(self) -> bool {
        &&& valid_topology(
            self.points@.len() as usize,
            rows(self.faces@),
            self.owner@,
            self.neighbor@,
            self.n_internal_faces,
            self.n_cells,
        )
        &&& self.cell_faces.pred() == holds_table(self.cell_faces_spec())
        &&& self.cell_cells.pred() == holds_table(self.cell_cells_spec())
        &&& self.cell_points.pred() == holds_point_table(rows(self.faces@), self.cell_faces_spec())
    }

    /// The face list of each cell: owned faces, then neighboured faces.
    pub open spec fn cell_faces_spec(&self) -> Seq<Seq<usize>> {
        cell_faces_of(
            self.owner_view(),
            self.neighbor_view(),
            self.n_internal_faces_view() as int,
            self.n_cells_view() as int,
        )
    }

    /// The adjacency list of each cell, one entry per shared internal face.
    pub open spec fn cell_cells_spec(&self) -> Seq<Seq<usize>> {
        cell_cells_of(
            self.owner_view(),
            self.neighbor_view(),
            self.n_internal_faces_view() as int,
            self.n_cells_view() as int,
        )
    }

    /// The point coordinates.
    pub closed spec fn points_view(&self) -> Seq<P> {
        self.points@
    }

    /// The point index list of each face.
    pub closed spec fn faces_view(&self) -> Seq<Seq<usize>> {
        rows(self.faces@)
    }

    /// The owner cell of each face.
    pub closed spec fn owner_view(&self) -> Seq<usize> {
        self.owner@
    }

    /// The neighbour cell of each internal face.
    pub closed spec fn neighbor_view(&self) -> Seq<usize> {
        self.neighbor@
    }

    /// The number of internal faces.
    pub closed spec fn n_internal_faces_view(&self) -> usize {
        self.n_internal_faces
    }

    /// The number of cells.
    pub closed spec fn n_cells_view(&self) -> usize {
        self.n_cells
    }

    /// The mesh's arrays describe a mesh: the counts agree, and every
    /// owner, neighbour and point index is in range. Every mesh meets it;
    /// the accessors that hand out index data say so.
    pub open spec fn is_valid(&self) -> bool {
        valid_topology(
            self.points_view().len() as usize,
            self.faces_view(),
            self.owner_view(),
            self.neighbor_view(),
            self.n_internal_faces_view(),
            self.n_cells_view(),
        )
    }

    /// Validates the arrays and builds the mesh, or reports the first
    /// structural fault.
    pub fn new(
        points: Vec<P>,
        faces: Vec<Vec<usize>>,
        owner: Vec<usize>,
        neighbor: Vec<usize>,
        n_internal_faces: usize,
        n_cells: usize,
    ) -> (r: Result<Self, MeshError>)
        ensures
            match r {
                Ok(m) => {
                    &&& construction_error(points@.len() as usize, rows(faces@), owner@, neighbor@, n_internal_faces, n_cells) is None
                    &&& m.points_view() == points@
                    &&& m.faces_view() == rows(faces@)
                    &&& m.owner_view() == owner@
                    &&& m.neighbor_view() == neighbor@
                    &&& m.n_internal_faces_view() == n_internal_faces
                    &&& m.n_cells_view() == n_cells
                    &&& m.is_valid()
                },
                Err(e) => construction_error(points@.len() as usize, rows(faces@), owner@, neighbor@, n_internal_faces, n_cells) == Some(e),
            },
    {
        let ghost fv = rows(faces@);
        if owner.len() != faces.len() {
            return Err(MeshError::OwnerLengthMismatch { expected: faces.len(), got: owner.len() });
        }
        if neighbor.len() != n_internal_faces {
            return Err(MeshError::NeighbourLengthMismatch { expected: n_internal_faces, got: neighbor.len() });
        }
        let mut face: usize = 0;
        while face < owner.len()
            invariant
                face <= owner@.len(),
                prefix_below(owner@, face as int, n_cells as int),
                owner@.len() == faces@.len(),
                neighbor@.len() == n_internal_faces,
            decreases owner@.len() - face,
        {
            let cell = owner[face];
            if cell >= n_cells {
                proof {
                    lemma_first_at_least_found(owner@, n_cells as int, face as int, owner@.len() as int);
                }
                return Err(MeshError::OwnerIndexOutOfRange { face, cell, n_cells });
            }
            face = face + 1;
        }
        proof {
            lemma_first_at_least_none(owner@, n_cells as int, owner@.len() as int);
        }
        let mut face: usize = 0;
        while face < neighbor.len()
            invariant
                face <= neighbor@.len(),
                prefix_below(neighbor@, face as int, n_cells as int),
                owner@.len() == faces@.len(),
                neighbor@.len() == n_internal_faces,
                first_at_least(owner@, n_cells as int, owner@.len() as int) is None,
            decreases neighbor@.len() - face,
        {
            let cell = neighbor[face];
            if cell >= n_cells {
                proof {
                    lemma_first_at_least_found(neighbor@, n_cells as int, face as int, neighbor@.len() as int);
                }
                return Err(MeshError::NeighbourIndexOutOfRange { face, cell, n_cells });
            }
            face = face + 1;
        }
        proof {
            lemma_first_at_least_none(neighbor@, n_cells as int, neighbor@.len() as int);
        }
        let n_points = points.len();
        let mut face: usize = 0;
        while face < faces.len()
            invariant
                face <= faces@.len(),
                fv == rows(faces@),
                fv.len() == faces@.len(),
                owner@.len() == faces@.len(),
                neighbor@.len() == n_internal_faces,
                first_at_least(owner@, n_cells as int, owner@.len() as int) is None,
                first_at_least(neighbor@, n_cells as int, neighbor@.len() as int) is None,
                n_points == points@.len(),
                forall|g: int| 0 <= g < face ==> all_below(#[trigger] fv[g], n_points as int),
            decreases faces@.len() - face,
        {
            let f = &faces[face];
            assert(f@ == fv[face as int]);
            let mut j: usize = 0;
            while j < f.len()
                invariant
                    j <= f@.len(),
                    prefix_below(f@, j as int, n_points as int),
                    face < faces@.len(),
                    fv == rows(faces@),
                    fv.len() == faces@.len(),
                    f@ == fv[face as int],
                    n_points == points@.len(),
                    forall|g: int| 0 <= g < face ==> all_below(#[trigger] fv[g], n_points as int),
                    owner@.len() == faces@.len(),
                    neighbor@.len() == n_internal_faces,
                    first_at_least(owner@, n_cells as int, owner@.len() as int) is None,
                    first_at_least(neighbor@, n_cells as int, neighbor@.len() as int) is None,
                decreases f@.len() - j,
            {
                let point = f[j];
                if point >= n_points {
                    proof {
                        lemma_first_bad_point_found(fv, n_points as int, face as int, j as int, fv.len() as int);
                    }
                    return Err(MeshError::PointIndexOutOfRange { face, point, n_points });
                }
                j = j + 1;
            }
            assert(all_below(fv[face as int], n_points as int));
            face = face + 1;
        }
        proof {
            lemma_first_bad_point_none(fv, n_points as int, fv.len() as int);
        }
        if n_internal_faces > faces.len() {
            return Err(MeshError::InternalFaceCountOutOfRange { n_internal_faces, n_faces: faces.len() });
        }
        proof {
            lemma_no_error_iff_valid(n_points, fv, owner@, neighbor@, n_internal_faces, n_cells);
        }
        let ghost cf = cell_faces_of(owner@, neighbor@, n_internal_faces as int, n_cells as int);
        let ghost cc = cell_cells_of(owner@, neighbor@, n_internal_faces as int, n_cells as int);
        let cell_faces = RwLock::new(None, Ghost(holds_table(cf)));
        let cell_cells = RwLock::new(None, Ghost(holds_table(cc)));
        let cell_points = RwLock::new(None, Ghost(holds_point_table(fv, cf)));
        Ok(PrimitiveMesh { points, faces, owner, neighbor, n_internal_faces, n_cells, cell_faces, cell_cells, cell_points })
    }
}

impl<P> PrimitiveMesh<P> {
    /// The point coordinates.
    pub fn points(&self) -> (r: &[P])
        ensures
            r@ == self.points_view(),
    {
        self.points.as_slice()
    }

    /// The point index list of each face.
    pub fn faces(&self) -> (r: &[Vec<usize>])
        ensures
            rows(r@) == self.faces_view(),
            self.is_valid(),
    {
        proof {
            use_type_invariant(self);
        }
        self.faces.as_slice()
    }

    /// The owner cell of each face.
    pub fn owner(&self) -> (r: &[usize])
        ensures
            r@ == self.owner_view(),
            self.is_valid(),
    {
        proof {
            use_type_invariant(self);
        }
        self.owner.as_slice()
    }

    /// The neighbour cell of each internal face.
    pub fn neighbor(&self) -> (r: &[usize])
        ensures
            r@ == self.neighbor_view(),
            self.is_valid(),
    {
        proof {
            use_type_invariant(self);
        }
        self.neighbor.as_slice()
    }

    /// The number of internal faces.
    pub fn n_internal_faces(&self) -> (r: usize)
        ensures
            r == self.n_internal_faces_view(),
    {
        self.n_internal_faces
    }

    /// The number of cells.
    pub fn n_cells(&self) -> (r: usize)
        ensures
            r == self.n_cells_view(),
    {
        self.n_cells
    }

    /// The number of faces.
    pub fn n_faces(&self) -> (r: usize)
        ensures
            r == self.faces_view().len(),
    {
        self.faces.len()
    }

    /// The number of points.
    pub fn n_points(&self) -> (r: usize)
        ensures
            r == self.points_view().len(),
    {
        self.points.len()
    }

    /// The face indices of each cell: the faces it owns in face order, then
    /// the internal faces it neighbours in face order. Computed on the first
    /// call; every call returns the same shared table.
    pub fn cell_faces(&self) -> (r: SharedTable)
        ensures
            rows(r@) == self.cell_faces_spec(),
            self.is_valid(),
    {
        proof {
            use_type_invariant(self);
        }
        if let Some(t) = filled(&self.cell_faces) {
            return t;
        }
        let (current, write) = self.cell_faces.acquire_write();
        let t = match current {
            Some(t) => t,
            None => Arc::new(
                compute_cell_faces(self.owner.as_slice(), self.neighbor.as_slice(), self.n_internal_faces, self.n_cells),
            ),
        };
        let r = t.clone();
        write.release_write(Some(t));
        r
    }

    /// The cells across the internal faces of each cell, in face order, one
    /// entry per shared face. Computed on the first call; every call returns
    /// the same shared table.
    pub fn cell_cells(&self) -> (r: SharedTable)
        ensures
            rows(r@) == self.cell_cells_spec(),
            self.is_valid(),
    {
        proof {
            use_type_invariant(self);
        }
        if let Some(t) = filled(&self.cell_cells) {
            return t;
        }
        let (current, write) = self.cell_cells.acquire_write();
        let t = match current {
            Some(t) => t,
            None => {
                let cf = self.cell_faces();
                Arc::new(
                    compute_cell_cells(
                        cf.as_slice(),
                        self.owner.as_slice(),
                        self.neighbor.as_slice(),
                        self.n_internal_faces,
                        self.n_cells,
                    ),
                )
            },
        };
        let r = t.clone();
        write.release_write(Some(t));
        r
    }

    /// The points of each cell's faces, ascending and once each. Computed on
    /// the first call; every call returns the same shared table.
    pub fn cell_points(&self) -> (r: SharedTable)
        ensures
            is_point_table(self.faces_view(), self.cell_faces_spec(), rows(r@)),
            self.is_valid(),
    {
        proof {
            use_type_invariant(self);
        }
        if let Some(t) = filled(&self.cell_points) {
            return t;
        }
        let (current, write) = self.cell_points.acquire_write();
        let t = match current {
            Some(t) => t,
            None => {
                let cf = self.cell_faces();
                proof {
                    lemma_cell_faces_in_range(
                        self.owner@,
                        self.neighbor@,
                        self.n_internal_faces as int,
                        self.n_cells as int,
                        self.faces@.len() as int,
                    );
                    assert forall|c: int| 0 <= c < cf@.len() && c < self.n_cells implies all_below(
                        #[trigger] cf@[c]@,
                        self.faces@.len() as int,
                    ) by {
                        assert(cf@[c]@ == rows(cf@)[c]);
                        assert(all_below(self.cell_faces_spec()[c], self.faces@.len() as int));
                    }
                }
                let table = compute_cell_points(cf.as_slice(), self.faces.as_slice(), self.n_cells);
                proof {
                    assert(forall|c: int| 0 <= c < table@.len() ==> table@[c]@ == #[trigger] rows(table@)[c]);
                }
                Arc::new(table)
            },
        };
        let r = t.clone();
        write.release_write(Some(t));
        r
    }
}

/// Repeated requests for a derived table of one mesh agree: any two tables
/// that `cell_faces`, `cell_cells` or `cell_points` may return for the same
/// mesh are equal.
pub proof fn lemma_repeated_requests_agree<P>(m: &PrimitiveMesh<P>, first: Seq<Seq<usize>>, second: Seq<Seq<usize>>)
    ensures
        first == m.cell_faces_spec() && second == m.cell_faces_spec() ==> first == second,
        first == m.cell_cells_spec() && second == m.cell_cells_spec() ==> first == second,
        is_point_table(m.faces_view(), m.cell_faces_spec(), first) && is_point_table(
            m.faces_view(),
            m.cell_faces_spec(),
            second,
        ) ==> first == second,
{
    let faces = m.faces_view();
    let cf = m.cell_faces_spec();
    if is_point_table(faces, cf, first) && is_point_table(faces, cf, second) {
        assert forall|c: int| 0 <= c < first.len() implies first[c] == second[c] by {
            assert(is_point_list(faces, cf[c], first[c]));
            assert(is_point_list(faces, cf[c], second[c]));
            lemma_sorted_lists_unique(first[c], second[c]);
        }
        assert(first =~= second);
    }
}

} // verus!
