//! Meshes: four parallel vertex attribute arrays and an index list, checked
//! once when the mesh is created and immutable afterwards.
use vstd::prelude::*;

verus! {

#[verifier::external_type_specification]
#[verifier::external_body]
pub struct ExVec2(glam::Vec2);

#[verifier::external_type_specification]
#[verifier::external_body]
pub struct ExU8Vec4(glam::U8Vec4);

/// The vertex attributes that a material can ask of a mesh.
#[derive(Clone, Copy, Debug, PartialEq, Eq, Structural)]
pub enum VertexAttributeKind {
    Positions,
    Uv,
    Colors,
}

/// The number of variants of [`VertexAttributeKind`].
pub const VERTEX_ATTRIBUTE_KIND_COUNT: usize = 3;

impl VertexAttributeKind {
    pub open spec fn name_spec(self) -> Seq<char> {
        match self {
            VertexAttributeKind::Positions => "vertices"@,
            VertexAttributeKind::Uv => "uv"@,
            VertexAttributeKind::Colors => "colors"@,
        }
    }

    /// The name of the mesh attribute that holds this kind of data.
    pub fn attribute_name(&self) -> (r: &'static str)
        ensures
            r@ == self.name_spec(),
    {
        match self {
            VertexAttributeKind::Positions => "vertices",
            VertexAttributeKind::Uv => "uv",
            VertexAttributeKind::Colors => "colors",
        }
    }

    /// The position of this kind in a per-kind table.
    pub fn index(&self) -> (r: usize)
        ensures
            r < VERTEX_ATTRIBUTE_KIND_COUNT,
            r == match self {
                VertexAttributeKind::Positions => 0usize,
                VertexAttributeKind::Uv => 1usize,
                VertexAttributeKind::Colors => 2usize,
            },
    {
        match self {
            VertexAttributeKind::Positions => 0,
            VertexAttributeKind::Uv => 1,
            VertexAttributeKind::Colors => 2,
        }
    }
}

/// The shortest non-empty attribute among vertices, UVs and colors, given
/// their lengths; the first listed wins a tie. `None` when all are empty.
pub open spec fn shortest_attribute(v: nat, u: nat, c: nat) -> Option<(nat, VertexAttributeKind)> {
    if v > 0 && (u == 0 || v <= u) && (c == 0 || v <= c) {
        Some((v, VertexAttributeKind::Positions))
    } else if u > 0 && (v == 0 || u < v) && (c == 0 || u <= c) {
        Some((u, VertexAttributeKind::Uv))
    } else if c > 0 {
        Some((c, VertexAttributeKind::Colors))
    } else {
        None
    }
}

/// The largest element of `s` (0 for an empty sequence).
pub open spec fn max_index(s: Seq<usize>) -> nat
    decreases s.len(),
{
    if s.len() == 0 {
        0
    } else {
        let m = max_index(s.drop_last());
        if s.last() as nat > m {
            s.last() as nat
        } else {
            m
        }
    }
}

/// What a mesh holds.
pub struct MeshModel {
    pub vertices: Seq<glam::Vec3>,
    pub indices: Seq<usize>,
    pub uv: Seq<glam::Vec2>,
    pub colors: Seq<glam::U8Vec4>,
}

impl MeshModel {
    pub open spec fn shortest(self) -> Option<(nat, VertexAttributeKind)> {
        shortest_attribute(self.vertices.len(), self.uv.len(), self.colors.len())
    }

    /// Whole triangles, every index within every non-empty attribute, and no
    /// indices at all when every attribute is empty.
    pub open spec fn valid(self) -> bool {
        &&& self.indices.len() % 3 == 0
        &&& match self.shortest() {
            None => self.indices.len() == 0,
            Some((len, _)) => forall|i: int| 0 <= i < self.indices.len() ==> self.indices[i] < len,
        }
    }

    /// The indices to draw: the stored ones, or `0, 1, ..., L - 1` for the
    /// length `L` of the shortest non-empty attribute when none are stored.
    pub open spec fn drawn_indices(self) -> Seq<usize> {
        if self.indices.len() > 0 {
            self.indices
        } else {
            match self.shortest() {
                None => Seq::empty(),
                Some((len, _)) => Seq::new(len, |i: int| i as usize),
            }
        }
    }
}

#[derive(Debug, PartialEq, Eq)]
pub enum MeshCreationError {
    IndicesLengthNotMultipleOf3 { indices_length: usize },
    IndicesOutOfBounds {
        out_of_bounds_vertex_attribute_name: &'static str,
        out_of_bounds_vertex_attribute_length: usize,
        max_index: usize,
    },
    EmptyMeshWithNonemptyIndices { indices_length: usize },
}

/// A mesh whose indices are known to be valid for its attributes.
pub struct Mesh {
    vertices: Vec<glam::Vec3>,
    indices: Vec<usize>,
    uv: Vec<glam::Vec2>,
    colors: Vec<glam::U8Vec4>,
}

impl View for Mesh {
    type V = MeshModel;

    closed spec fn view(&self) -> MeshModel {
        MeshModel { vertices: self.vertices@, indices: self.indices@, uv: self.uv@, colors: self.colors@ }
    }
}

impl Mesh {
    #[verifier::type_invariant]
    closed spec fn inv(self) -> bool {
        self@.valid()
    }

    /// Checks the attributes and indices and builds a mesh of them.
    pub fn new(
        vertices: Vec<glam::Vec3>,
        indices: Vec<usize>,
        uv: Vec<glam::Vec2>,
        colors: Vec<glam::U8Vec4>,
    ) -> (r: Result<Mesh, MeshCreationError>)
        ensures
            indices@.len() % 3 != 0 ==> r == Err::<Mesh, MeshCreationError>(
                MeshCreationError::IndicesLengthNotMultipleOf3 { indices_length: indices@.len() as usize },
            ),
            indices@.len() % 3 == 0 && indices@.len() > 0 && shortest_attribute(
                vertices@.len(),
                uv@.len(),
                colors@.len(),
            ) is None ==> r == Err::<Mesh, MeshCreationError>(
                MeshCreationError::EmptyMeshWithNonemptyIndices { indices_length: indices@.len() as usize },
            ),
            ({
                let s = shortest_attribute(vertices@.len(), uv@.len(), colors@.len());
                indices@.len() % 3 == 0 && indices@.len() > 0 && s is Some && max_index(indices@) >= s.unwrap().0
            }) ==> match r {
                Err(
                    MeshCreationError::IndicesOutOfBounds {
                        out_of_bounds_vertex_attribute_name: name,
                        out_of_bounds_vertex_attribute_length: length,
                        max_index: m,
                    },
                ) => {
                    let s = shortest_attribute(vertices@.len(), uv@.len(), colors@.len()).unwrap();
                    name@ == s.1.name_spec() && length == s.0 && m == max_index(indices@)
                },
                _ => false,
            },
            r is Ok <==> (MeshModel { vertices: vertices@, indices: indices@, uv: uv@, colors: colors@ }).valid(),
            r matches Ok(mesh) ==> mesh@ == (MeshModel {
                vertices: vertices@,
                indices: indices@,
                uv: uv@,
                colors: colors@,
            }),
    {
        let ghost model = MeshModel { vertices: vertices@, indices: indices@, uv: uv@, colors: colors@ };
        if indices.len() % 3 != 0 {
            return Err(MeshCreationError::IndicesLengthNotMultipleOf3 { indices_length: indices.len() });
        }
        match shortest_nonempty(vertices.len(), uv.len(), colors.len()) {
            None => {
                if indices.len() > 0 {
                    return Err(
                        MeshCreationError::EmptyMeshWithNonemptyIndices { indices_length: indices.len() },
                    );
                }
                Ok(Mesh { vertices, indices, uv, colors })
            },
            Some((len, kind)) => {
                if indices.len() == 0 {
                    return Ok(Mesh { vertices, indices, uv, colors });
                }
                let max = largest(&indices);
                if max >= len {
                    proof {
                        lemma_max_index_attained(indices@);
                    }
                    return Err(
                        MeshCreationError::IndicesOutOfBounds {
                            out_of_bounds_vertex_attribute_name: kind.attribute_name(),
                            out_of_bounds_vertex_attribute_length: len,
                            max_index: max,
                        },
                    );
                }
                proof {
                    lemma_max_index_bounds(indices@);
                }
                Ok(Mesh { vertices, indices, uv, colors })
            },
        }
    }

    pub fn vertices(&self) -> (r: &Vec<glam::Vec3>)
        ensures
            r@ == self@.vertices,
    {
        &self.vertices
    }

    /// The stored indices; empty when the implied ones are meant.
    pub fn indices(&self) -> (r: &Vec<usize>)
        ensures
            r@ == self@.indices,
    {
        &self.indices
    }

    pub fn uv(&self) -> (r: &Vec<glam::Vec2>)
        ensures
            r@ == self@.uv,
    {
        &self.uv
    }

    pub fn colors(&self) -> (r: &Vec<glam::U8Vec4>)
        ensures
            r@ == self@.colors,
    {
        &self.colors
    }

    /// The indices to draw, with the implied ones spelled out.
    pub fn drawn_indices(&self) -> (r: Vec<usize>)
        ensures
            r@ == self@.drawn_indices(),
    {
        if self.indices.len() > 0 {
            let mut r: Vec<usize> = Vec::new();
            let n = self.indices.len();
            let mut k: usize = 0;
            while k < n
                invariant
                    n == self.indices@.len(),
                    0 <= k <= n,
                    r@ == self.indices@.subrange(0, k as int),
                decreases n - k,
            {
                r.push(self.indices[k]);
                k = k + 1;
            }
            assert(r@ == self.indices@);
            return r;
        }
        let mut r: Vec<usize> = Vec::new();
        match shortest_nonempty(self.vertices.len(), self.uv.len(), self.colors.len()) {
            None => {
                assert(r@ =~= self@.drawn_indices());
            },
            Some((len, _)) => {
                let mut k: usize = 0;
                while k < len
                    invariant
                        0 <= k <= len,
                        r@ == Seq::new(k as nat, |i: int| i as usize),
                    decreases len - k,
                {
                    r.push(k);
                    k = k + 1;
                    assert(r@ =~= Seq::new(k as nat, |i: int| i as usize));
                }
            },
        }
        r
    }
}

fn shortest_nonempty(v: usize, u: usize, c: usize) -> (r: Option<(usize, VertexAttributeKind)>)
    ensures
        match shortest_attribute(v as nat, u as nat, c as nat) {
            None => r is None,
            Some((len, kind)) => r == Some((len as usize, kind)),
        },
{
    if v > 0 && (u == 0 || v <= u) && (c == 0 || v <= c) {
        Some((v, VertexAttributeKind::Positions))
    } else if u > 0 && (v == 0 || u < v) && (c == 0 || u <= c) {
        Some((u, VertexAttributeKind::Uv))
    } else if c > 0 {
        Some((c, VertexAttributeKind::Colors))
    } else {
        None
    }
}

/// The largest element of a non-empty list.
fn largest(s: &Vec<usize>) -> (r: usize)
    requires
        s@.len() > 0,
    ensures
        r == max_index(s@),
{
    let mut m: usize = 0;
    let n = s.len();
    let mut k: usize = 0;
    while k < n
        invariant
            n == s@.len(),
            0 <= k <= n,
            m == max_index(s@.subrange(0, k as int)),
        decreases n - k,
    {
        assert(s@.subrange(0, k + 1).drop_last() == s@.subrange(0, k as int));
        if s[k] > m {
            m = s[k];
        }
        k = k + 1;
    }
    assert(s@.subrange(0, n as int) == s@);
    m
}

proof fn lemma_max_index_bounds(s: Seq<usize>)
    ensures
        forall|i: int| 0 <= i < s.len() ==> s[i] <= max_index(s),
    decreases s.len(),
{
    if s.len() > 0 {
        lemma_max_index_bounds(s.drop_last());
        assert forall|i: int| 0 <= i < s.len() implies s[i] <= max_index(s) by {
            if i < s.len() - 1 {
                assert(s[i] == s.drop_last()[i]);
            }
        }
    }
}

proof fn lemma_max_index_attained(s: Seq<usize>)
    requires
        s.len() > 0,
    ensures
        exists|i: int| 0 <= i < s.len() && s[i] == max_index(s),
    decreases s.len(),
{
    if s.len() > 1 {
        lemma_max_index_attained(s.drop_last());
        let i = choose|i: int| 0 <= i < s.len() - 1 && s.drop_last()[i] == max_index(s.drop_last());
        assert(s[i] == s.drop_last()[i]);
        if s.last() as nat > max_index(s.drop_last()) {
            assert(s[s.len() - 1] == max_index(s));
        } else {
            assert(s[i] == max_index(s));
        }
    } else {
        assert(s.drop_last().len() == 0);
        assert(max_index(s.drop_last()) == 0);
        assert(s.last() == s[0]);
        assert(s[0] == max_index(s));
    }
}

} // verus!
