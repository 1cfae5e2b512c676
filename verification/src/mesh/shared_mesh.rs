use vstd::prelude::*;
use super::group::Group;
use crate::base::u32vec3::U32Vec3;

verus! {

/// A flat indexed triangle mesh: the form in which meshes are exchanged.
///
/// Each triangle holds three indices into `positions`, in winding order.
/// Where the mesh has normals or colors, the same indices address them.
pub struct SharedMesh<V> {
    pub groups: Vec<Group>,
    pub triangles: Vec<U32Vec3>,
    pub positions: Vec<V>,
    pub normals: Option<Vec<V>>,
    pub colors: Option<Vec<V>>,
}

/// The vertex index at corner `j` of a triangle list, counting the corners
/// of all triangles in order.
pub open spec fn corner(triangles: Seq<U32Vec3>, j: int) -> u32 {
    triangles[j / 3].at(j % 3)
}

impl<V> SharedMesh<V> {
    /// The length of the normal array, where the mesh has one.
    pub open spec fn normal_slots(&self) -> Option<int> {
        match self.normals {
            Some(v) => Some(v@.len() as int),
            None => None,
        }
    }

    /// The normal array as a sequence, where the mesh has one.
    pub open spec fn normal_seq(&self) -> Option<Seq<V>> {
        match self.normals {
            Some(v) => Some(v@),
            None => None,
        }
    }

    /// Every index of every triangle addresses a position, and a normal
    /// where the mesh has normals; and the corners can be numbered in 32
    /// bits.
    pub open spec fn wf(&self) -> bool {
        &&& 3 * self.triangles@.len() <= u32::MAX
        &&& forall|j: int|
            0 <= j < 3 * self.triangles@.len() ==> {
                &&& (#[trigger] corner(self.triangles@, j)) < self.positions@.len()
                &&& self.normal_slots() matches Some(n) ==> corner(self.triangles@, j) < n
            }
    }

    /// Whether the mesh is well formed.
    pub fn is_valid(&self) -> (b: bool)
        ensures
            b == self.wf(),
    {
        if self.triangles.len() > (u32::MAX / 3) as usize {
            return false;
        }
        let limit = match &self.normals {
            Some(v) => if v.len() < self.positions.len() {
                v.len()
            } else {
                self.positions.len()
            },
            None => self.positions.len(),
        };
        let mut t: usize = 0;
        while t < self.triangles.len()
            invariant
                t <= self.triangles@.len(),
                3 * self.triangles@.len() <= u32::MAX,
                limit <= self.positions@.len(),
                self.normal_slots() matches Some(n) ==> limit <= n,
                limit == self.positions@.len() || self.normal_slots() == Some(limit as int),
                forall|j: int|
                    0 <= j < 3 * t ==> (#[trigger] corner(self.triangles@, j)) < limit,
            decreases self.triangles@.len() - t,
        {
            let tri = self.triangles[t];
            if tri.0 as usize >= limit || tri.1 as usize >= limit || tri.2 as usize >= limit {
                proof {
                    let c: int = if tri.0 >= limit {
                        0
                    } else if tri.1 >= limit {
                        1
                    } else {
                        2
                    };
                    assert(corner(self.triangles@, 3 * t + c) >= limit);
                }
                return false;
            }
            proof {
                assert forall|j: int| 0 <= j < 3 * (t + 1) implies (#[trigger] corner(
                    self.triangles@,
                    j,
                )) < limit by {
                    if j >= 3 * t {
                        assert(j / 3 == t as int);
                    }
                }
            }
            t = t + 1;
        }
        true
    }
}

/// The triangle with `dv` added to each of its indices.
pub open spec fn shifted(t: U32Vec3, dv: u32) -> U32Vec3 {
    U32Vec3((t.0 + dv) as u32, (t.1 + dv) as u32, (t.2 + dv) as u32)
}

impl<V> SharedMesh<V> {
    /// Puts two meshes together: the positions and the triangles of `b`
    /// follow those of `a`, and the triangles of `b` address the positions
    /// at their new places. The groups, normals and colors are those of
    /// `a`.
    pub fn combine(a: Self, b: Self) -> (r: Self)
        requires
            a.positions@.len() <= u32::MAX,
            forall|j: int|
                0 <= j < 3 * b.triangles@.len() ==> (#[trigger] corner(b.triangles@, j))
                    + a.positions@.len() <= u32::MAX,
        ensures
            r.positions@ == a.positions@ + b.positions@,
            r.triangles@ == a.triangles@ + Seq::new(
                b.triangles@.len(),
                |t: int| shifted(b.triangles@[t], a.positions@.len() as u32),
            ),
            r.groups == a.groups,
            r.normals == a.normals,
            r.colors == a.colors,
    {
        let mut out = a;
        let mut rest = b;
        let dv: u32 = out.positions.len() as u32;
        let ghost first = out.triangles@;
        let ghost added = Seq::new(rest.triangles@.len(), |t: int| shifted(rest.triangles@[t], dv));
        out.positions.append(&mut rest.positions);
        let mut t: usize = 0;
        while t < rest.triangles.len()
            invariant
                t <= rest.triangles@.len(),
                rest.triangles@ == b.triangles@,
                out.positions@ == a.positions@ + b.positions@,
                out.groups == a.groups,
                out.normals == a.normals,
                out.colors == a.colors,
                out.triangles@ == first + added.take(t as int),
                added == Seq::new(rest.triangles@.len(), |t: int| shifted(rest.triangles@[t], dv)),
                forall|j: int|
                    0 <= j < 3 * rest.triangles@.len() ==> (#[trigger] corner(rest.triangles@, j)) + dv
                        <= u32::MAX,
            decreases rest.triangles@.len() - t,
        {
            let tri = rest.triangles[t];
            proof {
                assert(corner(rest.triangles@, 3 * t) == tri.0) by {
                    assert((3 * t) / 3 == t as int);
                }
                assert(corner(rest.triangles@, 3 * t + 1) == tri.1) by {
                    assert((3 * t + 1) / 3 == t as int);
                }
                assert(corner(rest.triangles@, 3 * t + 2) == tri.2) by {
                    assert((3 * t + 2) / 3 == t as int);
                }
            }
            out.triangles.push(U32Vec3(tri.0 + dv, tri.1 + dv, tri.2 + dv));
            proof {
                assert(added.take(t as int).push(added[t as int]) =~= added.take(t + 1));
                assert(out.triangles@ =~= first + added.take(t + 1));
            }
            t = t + 1;
        }
        proof {
            assert(added.take(added.len() as int) =~= added);
        }
        out
    }
}

impl<V> Default for SharedMesh<V> {
    fn default() -> (r: Self)
        ensures
            r.groups@.len() == 0,
            r.triangles@.len() == 0,
            r.positions@.len() == 0,
            r.normals matches Some(n) && n@.len() == 0,
            r.colors matches Some(c) && c@.len() == 0,
            r.wf(),
    {
        SharedMesh {
            groups: Vec::new(),
            triangles: Vec::new(),
            positions: Vec::new(),
            normals: Some(Vec::new()),
            colors: Some(Vec::new()),
        }
    }
}

} // verus!
