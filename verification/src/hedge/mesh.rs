//! The half-edge mesh and the queries and edits on its topology.
use vstd::prelude::*;

use super::keys::{EdgeKey, FaceKey, OpaqueKey, VertexKey, INVALID_ID};
use super::storage::{Storable, Storage};
use vstd::arithmetic::div_mod::{lemma_fundamental_div_mod_converse, lemma_small_mod};
use crate::hash_tables::{id_map_contents, id_set_contents, pair_map_contents, IdMap, IdSet, PairMap};

verus! {

/// Whether `b` is a clone of a clone of `a`.
pub open spec fn cloned_twice<V: Clone>(a: V, b: V) -> bool {
    exists|m: V| cloned(a, m) && cloned(m, b)
}

/// A half-edge within a half-edge mesh.
#[derive(Clone, Copy, Debug, PartialEq, Eq, Structural)]
pub struct Edge {
    /// The key of the half-edge itself.
    pub id: EdgeKey,
    /// The vertex the half-edge starts at.
    pub origin_vertex: VertexKey,
    /// The vertex the half-edge ends at.
    pub target_vertex: VertexKey,
    /// The face the half-edge bounds.
    pub face: FaceKey,
    /// The next half-edge around the face.
    pub next_edge: EdgeKey,
    /// The previous half-edge around the face.
    pub prev_edge: EdgeKey,
    /// The half-edge running the opposite way along the same two vertices.
    pub twin_edge: Option<EdgeKey>,
}

impl Storable for Edge {
    type Key = EdgeKey;
}

/// A face within a half-edge mesh.
#[derive(Clone, Debug)]
pub struct Face {
    /// The key of the face itself.
    pub id: FaceKey,
    /// The half-edges bounding the face.
    pub edges: Vec<EdgeKey>,
}

impl Storable for Face {
    type Key = FaceKey;
}

/// A vertex within a half-edge mesh.
///
/// Vertex data is stored with the vertex for fast access.
#[derive(Clone, Debug)]
pub struct Vertex<D> {
    /// The key of the vertex itself.
    pub id: VertexKey,
    /// The data of the vertex.
    pub data: D,
}

impl<D: Clone> Storable for Vertex<D> {
    type Key = VertexKey;
}

/// Represents the ways that a face can be invalid.
#[derive(Debug, Clone, Copy, PartialEq, Eq, Structural)]
pub enum InvalidFaceError {
    /// The face has less than 3 edges.
    TooFewEdges(usize),
    /// One or more edges in the face don't exist.
    EdgeDoesNotExist(EdgeKey),
    /// An edge has the wrong parent face.
    EdgeHasWrongParentFace(EdgeKey, FaceKey),
    /// An edge cycles too early.
    EdgeCycledTooEarly(EdgeKey),
    /// An edge cycles too late.
    EdgeCycledTooLate(EdgeKey),
    /// The face does not contain the next edge.
    FaceDoesNotContainNextEdge(EdgeKey),
}

/// A half-edge mesh.
#[derive(Debug)]
pub struct HedgeMesh<D> {
    vertices: Storage<VertexKey, Vertex<D>>,
    edges: Storage<EdgeKey, Edge>,
    faces: Storage<FaceKey, Face>,
}

/// Whether the twin of `e` is among `es`.
pub open spec fn twin_in(e: Edge, es: Seq<EdgeKey>) -> bool {
    match e.twin_edge {
        Some(t) => es.contains(t),
        None => false,
    }
}

/// Whether `e` has no twin, or its twin is in `emap`.
pub open spec fn twin_present(emap: Map<u64, Edge>, e: Edge) -> bool {
    match e.twin_edge {
        Some(t) => emap.dom().contains(t.key_id()),
        None => true,
    }
}

/// The faces across the half-edges `es`, in order: for each half-edge with a
/// twin, the face of the twin.
pub open spec fn twin_faces(emap: Map<u64, Edge>, es: Seq<EdgeKey>) -> Seq<FaceKey>
    decreases es.len(),
{
    if es.len() == 0 {
        Seq::empty()
    } else {
        let rest = twin_faces(emap, es.drop_last());
        match emap[es.last().key_id()].twin_edge {
            Some(t) => rest.push(emap[t.key_id()].face),
            None => rest,
        }
    }
}

/// The outcome of walking `steps` more half-edges of face `f` along
/// `next_edge`, from `cur`, having visited the half-edges in `visited`.
pub open spec fn face_walk(
    emap: Map<u64, Edge>,
    f: Face,
    steps: nat,
    cur: EdgeKey,
    visited: Set<u64>,
) -> Result<(), InvalidFaceError>
    decreases steps,
{
    if steps == 0 {
        if visited.len() != f.edges@.len() {
            Err(InvalidFaceError::EdgeCycledTooLate(cur))
        } else {
            Ok(())
        }
    } else if !emap.dom().contains(cur.key_id()) {
        Err(InvalidFaceError::EdgeDoesNotExist(cur))
    } else if emap[cur.key_id()].face != f.id {
        Err(InvalidFaceError::EdgeHasWrongParentFace(cur, f.id))
    } else if visited.contains(cur.key_id()) && visited.len() != f.edges@.len() - 1 {
        Err(InvalidFaceError::EdgeCycledTooEarly(cur))
    } else if !f.edges@.contains(cur) {
        Err(InvalidFaceError::FaceDoesNotContainNextEdge(cur))
    } else {
        face_walk(emap, f, (steps - 1) as nat, emap[cur.key_id()].next_edge, visited.insert(cur.key_id()))
    }
}

/// Whether face `f` is valid: it has at least three half-edges, and walking
/// `next_edge` from its first half-edge passes through exactly its half-edges,
/// each bounding `f`, once each before coming back.
pub open spec fn face_check(emap: Map<u64, Edge>, f: Face) -> Result<(), InvalidFaceError> {
    if f.edges@.len() < 3 {
        Err(InvalidFaceError::TooFewEdges(f.edges@.len() as usize))
    } else {
        face_walk(emap, f, f.edges@.len(), f.edges@[0], Set::empty())
    }
}

/// The half-edges of a face once the half-edge `k` and its link from its twin
/// are removed.
pub open spec fn remove_edge_step(emap: Map<u64, Edge>, k: EdgeKey) -> Map<u64, Edge> {
    if !emap.dom().contains(k.key_id()) {
        emap
    } else {
        let removed = emap.remove(k.key_id());
        match emap[k.key_id()].twin_edge {
            Some(t) => if removed.dom().contains(t.key_id()) {
                removed.insert(t.key_id(), Edge { twin_edge: None, ..removed[t.key_id()] })
            } else {
                removed
            },
            None => removed,
        }
    }
}

/// The half-edges left after removing, in order, each of `es` with its link
/// from its twin.
pub open spec fn remove_edges(emap: Map<u64, Edge>, es: Seq<EdgeKey>) -> Map<u64, Edge>
    decreases es.len(),
{
    if es.len() == 0 {
        emap
    } else {
        remove_edge_step(remove_edges(emap, es.drop_last()), es.last())
    }
}

/// Whether `a` has a half-edge whose twin bounds `b` (is among `b`'s
/// half-edges).
pub open spec fn borders(emap: Map<u64, Edge>, a: Face, b: Face) -> bool {
    exists|i: int|
        0 <= i < a.edges@.len() && twin_in(#[trigger] emap[a.edges@[i].key_id()], b.edges@)
}

/// The half-edges of `a` whose twins are among `b`'s half-edges.
pub open spec fn border_set(emap: Map<u64, Edge>, a: Face, b: Face) -> Set<u64> {
    Set::new(
        |id: u64|
            exists|i: int|
                0 <= i < a.edges@.len() && (#[trigger] a.edges@[i]).key_id() == id
                    && twin_in(emap[id], b.edges@),
    )
}

/// The largest number of half-edges of the faces in `fs`, at least `m`.
pub open spec fn max_arity(fmap: Map<u64, Face>, ids: Seq<u64>, m: int) -> int
    decreases ids.len(),
{
    if ids.len() == 0 {
        m
    } else {
        let rest = max_arity(fmap, ids.drop_last(), m);
        let n = fmap[ids.last()].edges@.len() as int;
        if n > rest {
            n
        } else {
            rest
        }
    }
}

/// Vertex `v`, or `master` where the identifier of `v` is in `moved`.
pub open spec fn moved_vertex(v: VertexKey, moved: Set<u64>, master: VertexKey) -> VertexKey {
    if moved.contains(v.key_id()) {
        master
    } else {
        v
    }
}

/// Half-edge `e` with each of its ends among `moved` moved to `master`.
pub open spec fn redirect_edge(e: Edge, moved: Set<u64>, master: VertexKey) -> Edge {
    Edge {
        origin_vertex: moved_vertex(e.origin_vertex, moved, master),
        target_vertex: moved_vertex(e.target_vertex, moved, master),
        ..e
    }
}

/// The identifiers of the first `n` keys, but for that of `master`.
pub open spec fn moved_ids(keys: Seq<VertexKey>, n: int, master: VertexKey) -> Set<u64> {
    Set::new(|id: u64| id != master.key_id() && exists|j: int| 0 <= j < n && (#[trigger] keys[j]).key_id() == id)
}

/// The half-edge with each end at `to_replace` moved to `replacement`.
pub open spec fn replace_in_edge(e: Edge, to_replace: VertexKey, replacement: VertexKey) -> Edge {
    Edge {
        origin_vertex: if e.origin_vertex == to_replace {
            replacement
        } else {
            e.origin_vertex
        },
        target_vertex: if e.target_vertex == to_replace {
            replacement
        } else {
            e.target_vertex
        },
        ..e
    }
}

impl<D> HedgeMesh<D> {
    /// The vertices, by key identifier.
    pub closed spec fn vmap(self) -> Map<u64, Vertex<D>> {
        self.vertices.map()
    }

    /// The half-edges, by key identifier.
    pub closed spec fn emap(self) -> Map<u64, Edge> {
        self.edges.map()
    }

    /// The faces, by key identifier.
    pub closed spec fn fmap(self) -> Map<u64, Face> {
        self.faces.map()
    }

    /// The identifiers of the vertices, ascending.
    pub closed spec fn vertex_ids(self) -> Seq<u64> {
        self.vertices.key_ids()
    }

    /// The identifiers of the half-edges, ascending.
    pub closed spec fn edge_ids(self) -> Seq<u64> {
        self.edges.key_ids()
    }

    /// The identifiers of the faces, ascending.
    pub closed spec fn face_ids(self) -> Seq<u64> {
        self.faces.key_ids()
    }

    /// The identifiers that the next added vertex, half-edge and face get.
    pub closed spec fn next_ids(self) -> (u64, u64, u64) {
        (self.vertices.next_id(), self.edges.next_id(), self.faces.next_id())
    }

    /// The storages of the mesh are consistent.
    pub closed spec fn wf(self) -> bool {
        self.vertices.wf() && self.edges.wf() && self.faces.wf()
    }

    /// The key identifiers of each kind are exactly the keys of its map,
    /// strictly ascending.
    pub proof fn lemma_ids(self)
        requires
            self.wf(),
        ensures
            forall|id: u64| self.vertex_ids().contains(id) <==> #[trigger] self.vmap().dom().contains(id),
            forall|id: u64| self.edge_ids().contains(id) <==> #[trigger] self.emap().dom().contains(id),
            forall|id: u64| self.face_ids().contains(id) <==> #[trigger] self.fmap().dom().contains(id),
            forall|i: int, j: int|
                0 <= i < j < self.vertex_ids().len() ==> self.vertex_ids()[i] < self.vertex_ids()[j],
            forall|i: int, j: int|
                0 <= i < j < self.edge_ids().len() ==> self.edge_ids()[i] < self.edge_ids()[j],
            forall|i: int, j: int|
                0 <= i < j < self.face_ids().len() ==> self.face_ids()[i] < self.face_ids()[j],
            self.vmap().dom().finite(),
            self.emap().dom().finite(),
            self.fmap().dom().finite(),
            self.vertex_ids().len() == self.vmap().dom().len(),
            self.edge_ids().len() == self.emap().dom().len(),
            self.face_ids().len() == self.fmap().dom().len(),
            forall|id: u64| #[trigger] self.fmap().dom().contains(id) ==> id < self.next_ids().2,
    {
        self.vertices.lemma_key_ids();
        self.edges.lemma_key_ids();
        self.faces.lemma_key_ids();
    }

    /// Whether every half-edge of face `f` is in the mesh.
    pub open spec fn face_edges_exist(self, f: FaceKey) -> bool {
        forall|i: int|
            0 <= i < self.fmap()[f.key_id()].edges@.len() ==> self.emap().dom().contains(
                (#[trigger] self.fmap()[f.key_id()].edges@[i]).key_id(),
            )
    }

    /// Returns the keys of the faces of the mesh, ascending.
    pub fn faces(&self) -> (r: Vec<FaceKey>)
        requires
            self.wf(),
        ensures
            r.len() == self.face_ids().len(),
            forall|i: int| 0 <= i < r.len() ==> (#[trigger] r@[i]).key_id() == self.face_ids()[i],
    {
        self.faces.iter_keys()
    }

    /// The identifier that the next face added gets.
    pub fn next_face_id(&self) -> (r: u64)
        ensures
            r == self.next_ids().2,
    {
        self.faces.next_key_id()
    }

    /// Returns the vertices, by ascending key, each as the key it holds as
    /// its own (the placeholder until keys are regenerated) and its data.
    pub fn vertex_entries(&self) -> (r: Vec<(VertexKey, &D)>)
        requires
            self.wf(),
        ensures
            r@.len() == self.vertex_ids().len(),
            forall|i: int|
                0 <= i < r@.len() ==> (#[trigger] r@[i]).0 == self.vmap()[self.vertex_ids()[i]].id && *r@[i].1
                    == self.vmap()[self.vertex_ids()[i]].data,
    {
        let values = self.vertices.iter();
        let mut entries: Vec<(VertexKey, &D)> = Vec::new();
        let mut i: usize = 0;
        while i < values.len()
            invariant
                i <= values@.len(),
                values@.len() == self.vertex_ids().len(),
                forall|k: int| 0 <= k < values@.len() ==> *(#[trigger] values@[k]) == self.vmap()[self.vertex_ids()[k]],
                entries@.len() == i,
                forall|k: int|
                    0 <= k < i ==> (#[trigger] entries@[k]).0 == self.vmap()[self.vertex_ids()[k]].id && *entries@[k].1
                        == self.vmap()[self.vertex_ids()[k]].data,
            decreases values@.len() - i,
        {
            let vertex: &Vertex<D> = values[i];
            entries.push((vertex.id, &vertex.data));
            i = i + 1;
        }
        entries
    }

    /// Returns the data of the vertices that the half-edges of a face start
    /// at, in the face's order; `None` when the face, one of its half-edges
    /// or one of their start vertices is missing.
    pub fn face_vertex_data(&self, face: FaceKey) -> (r: Option<Vec<&D>>)
        ensures
            r is Some <==> {
                &&& self.fmap().dom().contains(face.key_id())
                &&& self.face_edges_exist(face)
                &&& forall|i: int|
                    0 <= i < self.fmap()[face.key_id()].edges@.len() ==> self.vmap().dom().contains(
                        self.emap()[(#[trigger] self.fmap()[face.key_id()].edges@[i]).key_id()].origin_vertex.key_id(),
                    )
            },
            r matches Some(data) ==> {
                &&& data@.len() == self.fmap()[face.key_id()].edges@.len()
                &&& forall|i: int|
                    0 <= i < data@.len() ==> *(#[trigger] data@[i]) == self.vmap()[self.emap()[self.fmap()[face.key_id()].edges@[i].key_id()].origin_vertex.key_id()].data
            },
    {
        let f = match self.faces.get(face) {
            Some(f) => f,
            None => {
                return None;
            },
        };
        let mut data: Vec<&D> = Vec::new();
        let mut i: usize = 0;
        while i < f.edges.len()
            invariant
                i <= f.edges@.len(),
                *f == self.fmap()[face.key_id()],
                self.fmap().dom().contains(face.key_id()),
                forall|k: int| 0 <= k < i ==> self.emap().dom().contains((#[trigger] f.edges@[k]).key_id()),
                forall|k: int|
                    0 <= k < i ==> self.vmap().dom().contains(
                        self.emap()[(#[trigger] f.edges@[k]).key_id()].origin_vertex.key_id(),
                    ),
                data@.len() == i,
                forall|k: int|
                    0 <= k < i ==> *(#[trigger] data@[k]) == self.vmap()[self.emap()[f.edges@[k].key_id()].origin_vertex.key_id()].data,
            decreases f.edges@.len() - i,
        {
            let edge = match self.edges.get(f.edges[i]) {
                Some(e) => e,
                None => {
                    return None;
                },
            };
            let vertex = match self.vertices.get(edge.origin_vertex) {
                Some(v) => v,
                None => {
                    return None;
                },
            };
            data.push(&vertex.data);
            i = i + 1;
        }
        Some(data)
    }

    /// Returns the neighbors of a face: for each of its half-edges that has a
    /// twin, the face of the twin.
    pub fn face_neighbors(&self, face: FaceKey) -> (r: Vec<FaceKey>)
        requires
            self.fmap().dom().contains(face.key_id()),
            self.face_edges_exist(face),
            forall|i: int|
                0 <= i < self.fmap()[face.key_id()].edges@.len() ==> twin_present(self.emap(), #[trigger] self.emap()[self.fmap()[face.key_id()].edges@[i].key_id()]),
        ensures
            r@ == twin_faces(self.emap(), self.fmap()[face.key_id()].edges@),
    {
        let f = self.faces.get(face).unwrap();
        let ghost es = f.edges@;
        let mut neighbors: Vec<FaceKey> = Vec::new();
        let mut i: usize = 0;
        while i < f.edges.len()
            invariant
                i <= es.len(),
                es == f.edges@,
                es == self.fmap()[face.key_id()].edges@,
                self.face_edges_exist(face),
                forall|j: int|
                    0 <= j < es.len() ==> twin_present(self.emap(), #[trigger] self.emap()[es[j].key_id()]),
                neighbors@ == twin_faces(self.emap(), es.take(i as int)),
            decreases es.len() - i,
        {
            assert(es.take(i + 1).drop_last() =~= es.take(i as int));
            let edge = self.edges.get(f.edges[i]).unwrap();
            if let Some(twin) = edge.twin_edge {
                let twin_edge = self.edges.get(twin).unwrap();
                neighbors.push(twin_edge.face);
            }
            i = i + 1;
        }
        assert(es.take(es.len() as int) =~= es);
        neighbors
    }

    /// Determines whether two faces are neighbors: whether a half-edge of `a`
    /// has its twin among the half-edges of `b`.
    pub fn is_neighbors(&self, a: FaceKey, b: FaceKey) -> (r: bool)
        requires
            self.fmap().dom().contains(a.key_id()),
            self.fmap().dom().contains(b.key_id()),
            self.face_edges_exist(a),
        ensures
            r == borders(self.emap(), self.fmap()[a.key_id()], self.fmap()[b.key_id()]),
    {
        let a_face = self.faces.get(a).unwrap();
        let b_face = self.faces.get(b).unwrap();
        let mut i: usize = 0;
        while i < a_face.edges.len()
            invariant
                i <= a_face.edges@.len(),
                *a_face == self.fmap()[a.key_id()],
                *b_face == self.fmap()[b.key_id()],
                self.face_edges_exist(a),
                forall|j: int|
                    0 <= j < i ==> !twin_in(#[trigger] self.emap()[a_face.edges@[j].key_id()], b_face.edges@),
            decreases a_face.edges@.len() - i,
        {
            let edge = self.edges.get(a_face.edges[i]).unwrap();
            if let Some(twin) = edge.twin_edge {
                if vec_contains_edge(&b_face.edges, twin) {
                    return true;
                }
            }
            i = i + 1;
        }
        false
    }

    /// Determines whether a face is valid.
    ///
    /// # Criteria
    /// A face is valid if:
    /// - It has at least 3 edges.
    /// - When traversing the edges through the `next_edge` key, the set of edges
    ///   traversed is equal to the set of edges in the face.
    /// - The `face` key of each edge is equal to the face's key.
    pub fn is_valid_face(&self, face: FaceKey) -> (r: Result<(), InvalidFaceError>)
        requires
            self.fmap().dom().contains(face.key_id()),
        ensures
            r == face_check(self.emap(), self.fmap()[face.key_id()]),
    {
        let f = self.faces.get(face).unwrap();
        let n = f.edges.len();
        if n < 3 {
            return Err(InvalidFaceError::TooFewEdges(n));
        }
        let mut visited_edges = IdSet::new();
        let ghost mut visited: Set<u64> = Set::empty();
        let mut next_edge_key = f.edges[0];
        let mut step: usize = 0;
        while step < n
            invariant
                *f == self.fmap()[face.key_id()],
                n == f.edges@.len(),
                n >= 3,
                step <= n,
                id_set_contents(visited_edges) == visited,
                visited.finite(),
                face_walk(self.emap(), *f, n as nat, f.edges@[0], Set::empty()) == face_walk(
                    self.emap(),
                    *f,
                    (n - step) as nat,
                    next_edge_key,
                    visited,
                ),
            decreases n - step,
        {
            let edge = match self.edges.get(next_edge_key) {
                Some(e) => *e,
                None => {
                    return Err(InvalidFaceError::EdgeDoesNotExist(next_edge_key));
                },
            };
            if edge.face != f.id {
                return Err(InvalidFaceError::EdgeHasWrongParentFace(next_edge_key, f.id));
            }
            if visited_edges.contains(next_edge_key.get()) && visited_edges.len() != n - 1 {
                return Err(InvalidFaceError::EdgeCycledTooEarly(next_edge_key));
            }
            if !vec_contains_edge(&f.edges, next_edge_key) {
                return Err(InvalidFaceError::FaceDoesNotContainNextEdge(next_edge_key));
            }
            visited_edges.insert(next_edge_key.get());
            proof {
                visited = visited.insert(next_edge_key.key_id());
            }
            next_edge_key = edge.next_edge;
            step = step + 1;
        }
        if visited_edges.len() != n {
            return Err(InvalidFaceError::EdgeCycledTooLate(next_edge_key));
        }
        Ok(())
    }

    /// Removes a face and its half-edges from the mesh, unlinking the twins of
    /// the removed half-edges. Returns the key if the face existed.
    pub fn remove_face_and_edges(&mut self, face_key: FaceKey) -> (r: Option<FaceKey>)
        requires
            old(self).wf(),
        ensures
            final(self).wf(),
            final(self).next_ids() == old(self).next_ids(),
            final(self).vmap() == old(self).vmap(),
            r is Some <==> old(self).fmap().dom().contains(face_key.key_id()),
            r matches Some(k) ==> k == face_key,
            final(self).fmap() == old(self).fmap().remove(face_key.key_id()),
            final(self).emap() == if r is Some {
                remove_edges(old(self).emap(), old(self).fmap()[face_key.key_id()].edges@)
            } else {
                old(self).emap()
            },
    {
        let edge_keys = match self.faces.get(face_key) {
            Some(face) => face.edges.clone(),
            None => {
                assert(old(self).fmap().remove(face_key.key_id()) =~= old(self).fmap());
                return None;
            },
        };
        let ghost es = edge_keys@;
        let mut i: usize = 0;
        while i < edge_keys.len()
            invariant
                self.wf(),
                i <= es.len(),
                es == edge_keys@,
                self.next_ids() == old(self).next_ids(),
                self.vmap() == old(self).vmap(),
                self.fmap() == old(self).fmap(),
                self.emap() == remove_edges(old(self).emap(), es.take(i as int)),
            decreases es.len() - i,
        {
            assert(es.take(i + 1).drop_last() =~= es.take(i as int));
            let edge_key = edge_keys[i];
            if let Some(edge) = self.edges.remove(edge_key) {
                if let Some(twin_key) = edge.twin_edge {
                    if let Some(twin) = self.edges.get(twin_key) {
                        let unlinked = Edge { twin_edge: None, ..*twin };
                        self.edges.set(twin_key, unlinked);
                    }
                }
            }
            i = i + 1;
        }
        assert(es.take(es.len() as int) =~= es);
        self.faces.remove(face_key);
        Some(face_key)
    }

    /// Returns the half-edges of face `a` whose twins bound face `b`, each
    /// once; like the set they are gathered in, in no stated order.
    pub fn bordering_edges(&self, a: FaceKey, b: FaceKey) -> (r: Vec<EdgeKey>)
        requires
            self.fmap().dom().contains(a.key_id()),
            self.fmap().dom().contains(b.key_id()),
            self.face_edges_exist(a),
        ensures
            r@.no_duplicates(),
            forall|k: EdgeKey|
                #[trigger] r@.contains(k) <==> border_set(self.emap(), self.fmap()[a.key_id()], self.fmap()[b.key_id()]).contains(
                    k.key_id(),
                ),
    {
        let ids = self.border_ids(a, b);
        let members = ids.to_vec();
        let ghost bset = id_set_contents(ids);
        let mut r: Vec<EdgeKey> = Vec::new();
        let mut i: usize = 0;
        while i < members.len()
            invariant
                i <= members@.len(),
                members@.no_duplicates(),
                r@.len() == i,
                forall|j: int| 0 <= j < i ==> (#[trigger] r@[j]).key_id() == members@[j],
            decreases members@.len() - i,
        {
            r.push(EdgeKey::new(members[i]));
            i = i + 1;
        }
        proof {
            assert forall|j: int, l: int| 0 <= j < l < r@.len() implies r@[j] != r@[l] by {
                assert(r@[j].key_id() == members@[j]);
                assert(r@[l].key_id() == members@[l]);
            }
            assert forall|k: EdgeKey| #[trigger] r@.contains(k) <==> bset.contains(k.key_id()) by {
                if r@.contains(k) {
                    let j = choose|j: int| 0 <= j < r@.len() && r@[j] == k;
                    assert(members@.contains(members@[j]));
                }
                if bset.contains(k.key_id()) {
                    assert(members@.to_set().contains(k.key_id()));
                    let j = choose|j: int| 0 <= j < members@.len() && members@[j] == k.key_id();
                    EdgeKey::lemma_key_id(k, k.key_id());
                    EdgeKey::lemma_key_id(r@[j], members@[j]);
                    assert(r@[j] == k);
                }
            }
        }
        r
    }

    /// The identifiers of the half-edges of face `a` whose twins bound face
    /// `b`.
    fn border_ids(&self, a: FaceKey, b: FaceKey) -> (r: IdSet)
        requires
            self.fmap().dom().contains(a.key_id()),
            self.fmap().dom().contains(b.key_id()),
            self.face_edges_exist(a),
        ensures
            id_set_contents(r) == border_set(self.emap(), self.fmap()[a.key_id()], self.fmap()[b.key_id()]),
    {
        let mut bordering = IdSet::new();
        let a_face = self.faces.get(a).unwrap();
        let b_face = self.faces.get(b).unwrap();
        let ghost af = *a_face;
        let ghost bf = *b_face;
        let mut i: usize = 0;
        while i < a_face.edges.len()
            invariant
                i <= af.edges@.len(),
                *a_face == af,
                *b_face == bf,
                af == self.fmap()[a.key_id()],
                bf == self.fmap()[b.key_id()],
                self.face_edges_exist(a),
                id_set_contents(bordering) == Set::new(
                    |id: u64|
                        exists|j: int|
                            0 <= j < i && (#[trigger] af.edges@[j]).key_id() == id
                                && twin_in(self.emap()[id], bf.edges@),
                ),
            decreases af.edges@.len() - i,
        {
            let edge_key = a_face.edges[i];
            let edge = self.edges.get(edge_key).unwrap();
            let ghost before = id_set_contents(bordering);
            if let Some(twin) = edge.twin_edge {
                if vec_contains_edge(&b_face.edges, twin) {
                    bordering.insert(edge_key.get());
                }
            }
            i = i + 1;
            assert(id_set_contents(bordering) =~= Set::new(
                |id: u64|
                    exists|j: int|
                        0 <= j < i && (#[trigger] af.edges@[j]).key_id() == id
                            && twin_in(self.emap()[id], bf.edges@),
            )) by {
                assert forall|id: u64|
                    id_set_contents(bordering).contains(id) implies exists|j: int|
                        0 <= j < i && (#[trigger] af.edges@[j]).key_id() == id
                            && twin_in(self.emap()[id], bf.edges@) by {
                    if !before.contains(id) {
                        assert(af.edges@[i - 1].key_id() == id);
                    }
                }
            }
        }
        assert(id_set_contents(bordering) =~= border_set(self.emap(), af, bf));
        bordering
    }

    /// Counts the maxiumum arity of the total mesh: the largest number of
    /// half-edges of a face. Panics on a mesh with no faces.
    pub fn arity(&self) -> (n: usize)
        requires
            self.wf(),
            self.face_ids().len() > 0,
        ensures
            n == max_arity(self.fmap(), self.face_ids(), 0),
    {
        let faces = self.faces.iter();
        let ghost ids = self.face_ids();
        let mut best: usize = 0;
        let mut i: usize = 0;
        while i < faces.len()
            invariant
                i <= faces.len(),
                faces.len() == ids.len(),
                ids == self.face_ids(),
                forall|j: int| 0 <= j < faces.len() ==> *(#[trigger] faces@[j]) == self.fmap()[ids[j]],
                best == max_arity(self.fmap(), ids.take(i as int), 0),
            decreases faces.len() - i,
        {
            assert(ids.take(i + 1).drop_last() =~= ids.take(i as int));
            let n = faces[i].edges.len();
            if n > best {
                best = n;
            }
            i = i + 1;
        }
        assert(ids.take(ids.len() as int) =~= ids);
        best
    }

    /// Sets the twin of every half-edge to the half-edge running the opposite
    /// way between the same two vertices (the one with the largest key, when
    /// there are several), or to none.
    pub(crate) fn fix_edge_twin_keys(&mut self)
        requires
            old(self).wf(),
        ensures
            final(self).wf(),
            final(self).next_ids() == old(self).next_ids(),
            final(self).vmap() == old(self).vmap(),
            final(self).fmap() == old(self).fmap(),
            final(self).edge_ids() == old(self).edge_ids(),
            final(self).face_ids() == old(self).face_ids(),
            final(self).emap() == with_twins(old(self).emap(), old(self).edge_ids()),
    {
        let keys = self.edges.iter_keys();
        proof {
            self.edges.lemma_key_ids();
        }
        let ghost ids = self.edge_ids();
        let ghost emap0 = self.emap();
        let mut pairs = PairMap::new();
        let mut i: usize = 0;
        while i < keys.len()
            invariant
                *self == *old(self),
                i <= keys.len(),
                keys.len() == ids.len(),
                forall|j: int| 0 <= j < keys.len() ==> (#[trigger] keys@[j]).key_id() == ids[j],
                ids == self.edge_ids(),
                emap0 == self.emap(),
                forall|id: u64| ids.contains(id) <==> #[trigger] emap0.dom().contains(id),
                forall|a: u64, b: u64|
                    #![trigger pair_map_contents(pairs).dom().contains((a, b))]
                    pair_map_contents(pairs).dom().contains((a, b)) <==> pair_owner(
                        emap0,
                        ids.take(i as int),
                        VertexKey::from_id(a),
                        VertexKey::from_id(b),
                    ) is Some,
                forall|a: u64, b: u64|
                    #[trigger] pair_map_contents(pairs).dom().contains((a, b)) ==> pair_map_contents(
                        pairs,
                    )[(a, b)] == pair_owner(
                        emap0,
                        ids.take(i as int),
                        VertexKey::from_id(a),
                        VertexKey::from_id(b),
                    )->0.key_id(),
            decreases keys.len() - i,
        {
            assert(ids.take(i + 1).drop_last() =~= ids.take(i as int));
            assert(ids.contains(ids[i as int]));
            let edge = self.edges.get(keys[i]).unwrap();
            let o = edge.origin_vertex.get();
            let t = edge.target_vertex.get();
            pairs.insert((o, t), edge.id.get());
            proof {
                VertexKey::lemma_key_id(edge.origin_vertex, o);
                VertexKey::lemma_key_id(edge.target_vertex, t);
                assert forall|a: u64, b: u64| #[trigger] pair_map_contents(pairs).dom().contains((a, b)) <==> pair_owner(
                    emap0,
                    ids.take(i + 1),
                    VertexKey::from_id(a),
                    VertexKey::from_id(b),
                ) is Some by {
                    if (a, b) != (o, t) {
                        if VertexKey::from_id(a) == edge.origin_vertex && VertexKey::from_id(b)
                            == edge.target_vertex {
                            VertexKey::lemma_key_id(edge.origin_vertex, a);
                            VertexKey::lemma_key_id(edge.target_vertex, b);
                        }
                    }
                }
                assert forall|a: u64, b: u64| #[trigger] pair_map_contents(pairs).dom().contains((a, b)) implies pair_map_contents(
                    pairs,
                )[(a, b)] == pair_owner(
                    emap0,
                    ids.take(i + 1),
                    VertexKey::from_id(a),
                    VertexKey::from_id(b),
                )->0.key_id() by {
                    if (a, b) != (o, t) {
                        if VertexKey::from_id(a) == edge.origin_vertex && VertexKey::from_id(b)
                            == edge.target_vertex {
                            VertexKey::lemma_key_id(edge.origin_vertex, a);
                            VertexKey::lemma_key_id(edge.target_vertex, b);
                        }
                    }
                }
            }
            i = i + 1;
        }
        assert(ids.take(ids.len() as int) =~= ids);
        let mut i: usize = 0;
        while i < keys.len()
            invariant
                self.wf(),
                i <= keys.len(),
                keys.len() == ids.len(),
                forall|j: int| 0 <= j < keys.len() ==> (#[trigger] keys@[j]).key_id() == ids[j],
                ids == old(self).edge_ids(),
                emap0 == old(self).emap(),
                forall|id: u64| ids.contains(id) <==> #[trigger] emap0.dom().contains(id),
                ids.no_duplicates(),
                forall|a: u64, b: u64|
                    #![trigger pair_map_contents(pairs).dom().contains((a, b))]
                    pair_map_contents(pairs).dom().contains((a, b)) <==> pair_owner(
                        emap0,
                        ids,
                        VertexKey::from_id(a),
                        VertexKey::from_id(b),
                    ) is Some,
                forall|a: u64, b: u64|
                    #[trigger] pair_map_contents(pairs).dom().contains((a, b)) ==> pair_map_contents(
                        pairs,
                    )[(a, b)] == pair_owner(emap0, ids, VertexKey::from_id(a), VertexKey::from_id(b))->0.key_id(),
                self.next_ids() == old(self).next_ids(),
                self.fmap() == old(self).fmap(),
                self.vmap() == old(self).vmap(),
                self.face_ids() == old(self).face_ids(),
                self.edge_ids() == old(self).edge_ids(),
                self.emap().dom() == emap0.dom(),
                forall|id: u64|
                    #[trigger] self.emap().dom().contains(id) ==> self.emap()[id] == if seen_before(
                        ids,
                        i as int,
                        id,
                    ) {
                        with_twins(emap0, ids)[id]
                    } else {
                        emap0[id]
                    },
            decreases keys.len() - i,
        {
            let key = keys[i];
            assert(ids.contains(ids[i as int]));
            let edge = *self.edges.get(key).unwrap();
            let t = edge.target_vertex.get();
            let o = edge.origin_vertex.get();
            let twin = match pairs.get((t, o)) {
                Some(id) => Some(EdgeKey::new(id)),
                None => None,
            };
            proof {
                VertexKey::lemma_key_id(edge.origin_vertex, o);
                VertexKey::lemma_key_id(edge.target_vertex, t);
                let po = pair_owner(emap0, ids, edge.target_vertex, edge.origin_vertex);
                if po is Some {
                    EdgeKey::lemma_key_id(po->0, 0);
                }
                assert(twin == po);
            }
            self.edges.set(key, Edge { twin_edge: twin, ..edge });
            proof {
                assert forall|id: u64| seen_before(ids, i + 1, id) <==> (seen_before(ids, i as int, id) || id == key.key_id()) by {
                    if seen_before(ids, i + 1, id) && id != key.key_id() {
                        let j = choose|j: int| 0 <= j < i + 1 && #[trigger] ids[j] == id;
                        assert(j < i);
                    }
                    if id == key.key_id() {
                        assert(ids[i as int] == id);
                    }
                }
                assert forall|id: u64| seen_before(ids, i as int, id) implies id != key.key_id() by {
                    let j = choose|j: int| 0 <= j < i && #[trigger] ids[j] == id;
                    assert(j != i);
                    assert(ids[j] != ids[i as int]);
                }
            }
            i = i + 1;
        }
        proof {
            assert forall|id: u64| #[trigger] emap0.dom().contains(id) implies seen_before(ids, ids.len() as int, id) by {
                assert(ids.contains(id));
            }
            assert(self.emap() =~= with_twins(emap0, ids));
        }
    }

    /// Prunes vertices that are not used by any edges: keeps exactly the
    /// vertices that some half-edge starts at.
    pub fn prune_unused_vertices(&mut self)
        requires
            old(self).wf(),
        ensures
            final(self).wf(),
            final(self).next_ids() == old(self).next_ids(),
            final(self).emap() == old(self).emap(),
            final(self).fmap() == old(self).fmap(),
            final(self).vmap() == old(self).vmap().restrict(used_vertex_ids(old(self).emap())),
    {
        proof {
            self.lemma_ids();
        }
        let ghost ids = self.edge_ids();
        let edges = self.edges.iter();
        let mut used_vertices = IdSet::new();
        let mut i: usize = 0;
        while i < edges.len()
            invariant
                i <= edges.len(),
                edges.len() == ids.len(),
                ids == self.edge_ids(),
                forall|j: int| 0 <= j < edges.len() ==> *(#[trigger] edges@[j]) == self.emap()[ids[j]],
                id_set_contents(used_vertices) == Set::new(
                    |v: u64| exists|j: int| 0 <= j < i && (#[trigger] edges@[j]).origin_vertex.key_id() == v,
                ),
            decreases edges.len() - i,
        {
            let ghost before = id_set_contents(used_vertices);
            used_vertices.insert(edges[i].origin_vertex.get());
            i = i + 1;
            assert(id_set_contents(used_vertices) =~= Set::new(
                |v: u64| exists|j: int| 0 <= j < i && (#[trigger] edges@[j]).origin_vertex.key_id() == v,
            )) by {
                assert forall|v: u64| #[trigger] id_set_contents(used_vertices).contains(v) implies exists|j: int|
                    0 <= j < i && (#[trigger] edges@[j]).origin_vertex.key_id() == v by {
                    if !before.contains(v) {
                        assert(edges@[i - 1].origin_vertex.key_id() == v);
                    }
                }
            }
        }
        proof {
            assert(id_set_contents(used_vertices) =~= used_vertex_ids(self.emap())) by {
                assert forall|v: u64| id_set_contents(used_vertices).contains(v) implies #[trigger] used_vertex_ids(self.emap()).contains(v) by {
                    let j = choose|j: int| 0 <= j < i && (#[trigger] edges@[j]).origin_vertex.key_id() == v;
                    assert(ids.contains(ids[j]));
                    assert(self.emap().dom().contains(ids[j]));
                }
                assert forall|v: u64| #[trigger] used_vertex_ids(self.emap()).contains(v) implies id_set_contents(used_vertices).contains(v) by {
                    let e = choose|e: u64| #[trigger] self.emap().dom().contains(e) && self.emap()[e].origin_vertex.key_id() == v;
                    assert(ids.contains(e));
                    let j = choose|j: int| 0 <= j < ids.len() && ids[j] == e;
                    assert(edges@[j].origin_vertex.key_id() == v);
                }
            }
        }
        let ghost used = id_set_contents(used_vertices);
        let used_ref = &used_vertices;
        let is_used = |k: &VertexKey, v: &Vertex<D>| -> (keep: bool)
            ensures
                keep == id_set_contents(*used_ref).contains(k.key_id()),
            {
                used_ref.contains(k.get())
            };
        self.vertices.retain(is_used);
        proof {
            assert forall|id: u64| #[trigger] old(self).vmap().dom().contains(id) implies VertexKey::from_id(id).key_id() == id by {
                VertexKey::lemma_key_id(VertexKey::from_id(id), id);
            }
            assert(self.vmap() =~= old(self).vmap().restrict(used_vertex_ids(old(self).emap())));
        }
    }

    /// Whether the half-edges of face `a` bordering face `b` form a single
    /// contiguous run, i.e. the border breaks off exactly twice.
    pub fn faces_share_contiguous_border(&self, a: FaceKey, b: FaceKey) -> (r: bool)
        requires
            self.fmap().dom().contains(a.key_id()),
            self.fmap().dom().contains(b.key_id()),
            self.face_edges_exist(a),
        ensures
            r == (border_breaks(
                self.emap(),
                border_set(self.emap(), self.fmap()[a.key_id()], self.fmap()[b.key_id()]),
            ) == 2),
    {
        let border = self.border_ids(a, b);
        let ghost bset = id_set_contents(border);
        let members = border.to_vec();
        let ghost pn = |e: u64| !bset.contains(self.emap()[e].next_edge.key_id());
        let ghost pp = |e: u64| !bset.contains(self.emap()[e].prev_edge.key_id());
        let mut disconnected_edges: u64 = 0;
        let mut i: usize = 0;
        while i < members.len()
            invariant
                i <= members.len(),
                bset == id_set_contents(border),
                forall|e: u64| #[trigger] pn(e) == !bset.contains(self.emap()[e].next_edge.key_id()),
                forall|e: u64| #[trigger] pp(e) == !bset.contains(self.emap()[e].prev_edge.key_id()),
                self.fmap().dom().contains(a.key_id()),
                self.fmap().dom().contains(b.key_id()),
                bset == border_set(self.emap(), self.fmap()[a.key_id()], self.fmap()[b.key_id()]),
                members@.to_set() == bset,
                self.face_edges_exist(a),
                disconnected_edges <= 3,
                disconnected_edges == if seq_count(members@.take(i as int), pn) + seq_count(
                    members@.take(i as int),
                    pp,
                ) < 3 {
                    seq_count(members@.take(i as int), pn) + seq_count(members@.take(i as int), pp)
                } else {
                    3
                },
            decreases members.len() - i,
        {
            assert(members@.take(i + 1).drop_last() =~= members@.take(i as int));
            let id = members[i];
            assert(members@.to_set().contains(id));
            proof {
                let fa = self.fmap()[a.key_id()];
                let j = choose|j: int| 0 <= j < fa.edges@.len() && (#[trigger] fa.edges@[j]).key_id() == id;
                assert(self.emap().dom().contains(fa.edges@[j].key_id()));
                EdgeKey::lemma_key_id(EdgeKey::from_id(id), id);
            }
            let edge = *self.edges.get(EdgeKey::new(id)).unwrap();
            proof {
                assert(edge == self.emap()[id]);
                assert(members@.take(i + 1).last() == id);
                assert(seq_count(members@.take(i + 1), pn) == seq_count(members@.take(i as int), pn) + if pn(id) { 1nat } else { 0 });
                assert(seq_count(members@.take(i + 1), pp) == seq_count(members@.take(i as int), pp) + if pp(id) { 1nat } else { 0 });
            }
            let next_in = border.contains(edge.next_edge.get());
            let prev_in = border.contains(edge.prev_edge.get());
            let ghost before = seq_count(members@.take(i as int), pn) + seq_count(members@.take(i as int), pp);
            proof {
                assert(pn(id) == !next_in);
                assert(pp(id) == !prev_in);
            }
            if !next_in && disconnected_edges < 3 {
                disconnected_edges = disconnected_edges + 1;
            }
            if !prev_in && disconnected_edges < 3 {
                disconnected_edges = disconnected_edges + 1;
            }
            i = i + 1;
        }
        proof {
            assert(members@.take(members@.len() as int) =~= members@);
            lemma_seq_count(members@, pn);
            lemma_seq_count(members@, pp);
        }
        disconnected_edges == 2
    }

    /// Relinks the half-edges of face `fk`: each to the last half-edge of the
    /// face starting where it ends, and that one back to it.
    fn relink_face(&mut self, fk: FaceKey, Ghost(emap0): Ghost<Map<u64, Edge>>)
        requires
            old(self).wf(),
            old(self).fmap().dom().contains(fk.key_id()),
            forall|i: int|
                0 <= i < old(self).fmap()[fk.key_id()].edges@.len() ==> {
                    let k = #[trigger] old(self).fmap()[fk.key_id()].edges@[i];
                    &&& emap0.dom().contains(k.key_id())
                    &&& emap0[k.key_id()].id == k
                    &&& last_origin(emap0, old(self).fmap()[fk.key_id()].edges@, emap0[k.key_id()].target_vertex) is Some
                },
            old(self).emap().dom() == emap0.dom(),
            forall|id: u64| #[trigger] emap0.dom().contains(id) ==> same_but_links(old(self).emap()[id], emap0[id]),
            forall|k: EdgeKey|
                #[trigger] old(self).fmap()[fk.key_id()].edges@.contains(k) ==> old(self).emap()[k.key_id()]
                    == emap0[k.key_id()],
        ensures
            final(self).wf(),
            final(self).next_ids() == old(self).next_ids(),
            final(self).vmap() == old(self).vmap(),
            final(self).fmap() == old(self).fmap(),
            final(self).edge_ids() == old(self).edge_ids(),
            final(self).emap().dom() == emap0.dom(),
            forall|id: u64| #[trigger] emap0.dom().contains(id) ==> same_but_links(final(self).emap()[id], emap0[id]),
            forall|k: EdgeKey|
                #[trigger] old(self).fmap()[fk.key_id()].edges@.contains(k) ==> final(self).emap()[k.key_id()]
                    == relinked(emap0, old(self).fmap()[fk.key_id()].edges@, k),
            forall|id: u64|
                #[trigger] emap0.dom().contains(id) && !old(self).fmap()[fk.key_id()].edges@.contains(EdgeKey::from_id(id))
                    ==> final(self).emap()[id] == old(self).emap()[id],
    {
        let es = self.faces.get(fk).unwrap().edges.clone();
        let ghost esq = es@;
        let ghost fmap0 = self.fmap();
        let ghost emap1 = self.emap();

        // the last half-edge of the face starting at each vertex
        let mut origin_map = IdMap::new();
        let mut j: usize = 0;
        while j < es.len()
            invariant
                self.wf(),
                j <= es.len(),
                esq == es@,
                esq == fmap0[fk.key_id()].edges@,
                *self == *old(self),
                fmap0 == self.fmap(),
                forall|i: int|
                    0 <= i < esq.len() ==> {
                        let k = #[trigger] esq[i];
                        &&& emap0.dom().contains(k.key_id())
                        &&& emap0[k.key_id()].id == k
                        &&& last_origin(emap0, esq, emap0[k.key_id()].target_vertex) is Some
                    },
                self.emap().dom() == emap0.dom(),
                forall|id: u64| #[trigger] emap0.dom().contains(id) ==> same_but_links(self.emap()[id], emap0[id]),
                forall|o: u64|
                    #[trigger] id_map_contents(origin_map).dom().contains(o) <==> last_origin(
                        emap0,
                        esq.take(j as int),
                        VertexKey::from_id(o),
                    ) is Some,
                forall|o: u64|
                    #[trigger] id_map_contents(origin_map).dom().contains(o) ==> id_map_contents(
                        origin_map,
                    )[o] == last_origin(emap0, esq.take(j as int), VertexKey::from_id(o))->0.key_id(),
            decreases es.len() - j,
        {
            assert(esq.take(j + 1).drop_last() =~= esq.take(j as int));
            let k = es[j];
            assert(emap0.dom().contains(esq[j as int].key_id()));
            let e = *self.edges.get(k).unwrap();
            let o = e.origin_vertex.get();
            origin_map.insert(o, e.id.get());
            proof {
                VertexKey::lemma_key_id(e.origin_vertex, o);
                assert forall|v: u64| #[trigger] id_map_contents(origin_map).dom().contains(v) <==> last_origin(
                    emap0,
                    esq.take(j + 1),
                    VertexKey::from_id(v),
                ) is Some by {
                    if v != o && VertexKey::from_id(v) == e.origin_vertex {
                        VertexKey::lemma_key_id(e.origin_vertex, v);
                    }
                }
                assert forall|v: u64| #[trigger] id_map_contents(origin_map).dom().contains(v) implies id_map_contents(
                    origin_map,
                )[v] == last_origin(emap0, esq.take(j + 1), VertexKey::from_id(v))->0.key_id() by {
                    if v != o && VertexKey::from_id(v) == e.origin_vertex {
                        VertexKey::lemma_key_id(e.origin_vertex, v);
                    }
                }
            }
            j = j + 1;
        }
        assert(esq.take(esq.len() as int) =~= esq);
        proof {
            assert(esq.take(0) =~= Seq::<EdgeKey>::empty());
        }

        // link each half-edge to its successor
        let mut j: usize = 0;
        while j < es.len()
            invariant
                self.wf(),
                j <= es.len(),
                esq == es@,
                esq == fmap0[fk.key_id()].edges@,
                fmap0 == old(self).fmap(),
                emap1 == old(self).emap(),
                forall|i: int|
                    0 <= i < esq.len() ==> {
                        let k = #[trigger] esq[i];
                        &&& emap0.dom().contains(k.key_id())
                        &&& emap0[k.key_id()].id == k
                        &&& last_origin(emap0, esq, emap0[k.key_id()].target_vertex) is Some
                    },
                self.next_ids() == old(self).next_ids(),
                self.vmap() == old(self).vmap(),
                self.fmap() == fmap0,
                self.edge_ids() == old(self).edge_ids(),
                self.emap().dom() == emap0.dom(),
                forall|id: u64| #[trigger] emap0.dom().contains(id) ==> same_but_links(self.emap()[id], emap0[id]),
                forall|o: u64|
                    #[trigger] id_map_contents(origin_map).dom().contains(o) <==> last_origin(
                        emap0,
                        esq,
                        VertexKey::from_id(o),
                    ) is Some,
                forall|o: u64|
                    #[trigger] id_map_contents(origin_map).dom().contains(o) ==> id_map_contents(
                        origin_map,
                    )[o] == last_origin(emap0, esq, VertexKey::from_id(o))->0.key_id(),
                forall|k: EdgeKey|
                    #[trigger] esq.contains(k) ==> self.emap()[k.key_id()] == partly_relinked(
                        emap0,
                        esq,
                        j as int,
                        k,
                    ),
                forall|id: u64|
                    #[trigger] emap0.dom().contains(id) && !esq.contains(EdgeKey::from_id(id))
                        ==> self.emap()[id] == emap1[id],
            decreases es.len() - j,
        {
            let cur = es[j];
            assert(emap0.dom().contains(esq[j as int].key_id()));
            let e = *self.edges.get(cur).unwrap();
            let t = e.target_vertex.get();
            proof {
                VertexKey::lemma_key_id(e.target_vertex, t);
                assert(esq.contains(cur)) by {
                    assert(esq[j as int] == cur);
                }
                VertexKey::lemma_key_id(emap0[cur.key_id()].target_vertex, t);
            }
            let next_id = origin_map.get(t).unwrap();
            let next_key = EdgeKey::new(next_id);
            let ghost lo = last_origin(emap0, esq, emap0[cur.key_id()].target_vertex)->0;
            proof {
                EdgeKey::lemma_key_id(lo, next_id);
                assert(next_key == lo);
                assert forall|i: int| 0 <= i < esq.len() implies emap0[(#[trigger] esq[i]).key_id()].id == esq[i] by {
                }
                lemma_last_origin_in(emap0, esq, emap0[cur.key_id()].target_vertex);
                let w = choose|w: int| 0 <= w < esq.len() && esq[w] == lo;
                assert(emap0.dom().contains(esq[w].key_id()));
            }
            self.edges.set(cur, Edge { next_edge: next_key, ..e });
            let n = *self.edges.get(next_key).unwrap();
            self.edges.set(next_key, Edge { prev_edge: cur, ..n });
            proof {
                let after = self.emap();
                assert(esq.take(j + 1).drop_last() =~= esq.take(j as int));
                assert(esq.take(j + 1).last() == cur);
                assert forall|k: EdgeKey| #[trigger] esq.take(j + 1).contains(k) <==> (esq.take(j as int).contains(k) || k == cur) by {
                    let t1 = esq.take(j + 1);
                    let t0 = esq.take(j as int);
                    if t1.contains(k) && k != cur {
                        let w = choose|w: int| 0 <= w < j + 1 && #[trigger] t1[w] == k;
                        assert(t0[w] == k);
                    }
                    if t0.contains(k) {
                        let w = choose|w: int| 0 <= w < j && #[trigger] t0[w] == k;
                        assert(t1[w] == k);
                    }
                    if k == cur {
                        assert(t1[j as int] == k);
                    }
                }
                assert forall|k: EdgeKey| #[trigger] esq.contains(k) implies after[k.key_id()] == partly_relinked(
                    emap0,
                    esq,
                    j + 1,
                    k,
                ) by {
                    EdgeKey::lemma_key_id(k, k.key_id());
                    EdgeKey::lemma_key_id(cur, k.key_id());
                    EdgeKey::lemma_key_id(next_key, k.key_id());
                    if k.key_id() == cur.key_id() {
                        assert(k == cur);
                    }
                    if k.key_id() == next_key.key_id() {
                        assert(k == next_key);
                    }
                }
                assert forall|id: u64|
                    #[trigger] emap0.dom().contains(id) && !esq.contains(EdgeKey::from_id(id))
                        implies after[id] == emap1[id] by {
                    EdgeKey::lemma_key_id(cur, id);
                    EdgeKey::lemma_key_id(next_key, id);
                }
            }
            j = j + 1;
        }
        proof {
            assert forall|k: EdgeKey| #[trigger] esq.contains(k) implies self.emap()[k.key_id()] == relinked(emap0, esq, k) by {
                assert(partly_relinked(emap0, esq, esq.len() as int, k) == relinked(emap0, esq, k));
            }
        }
    }

    /// Fixes the `next_edge` and `prev_edge` keys for each edge: within each
    /// face, each half-edge is linked to the half-edge of the face starting
    /// where it ends.
    ///
    /// # Invariants
    /// The `face` keys of each edge must be correct.
    fn fix_edge_next_prev_keys(&mut self)
        requires
            old(self).wf(),
            faces_consistent(old(self).emap(), old(self).fmap()),
        ensures
            final(self).wf(),
            final(self).next_ids() == old(self).next_ids(),
            final(self).vmap() == old(self).vmap(),
            final(self).fmap() == old(self).fmap(),
            final(self).edge_ids() == old(self).edge_ids(),
            final(self).emap() == with_next_prev(old(self).emap(), old(self).fmap()),
    {
        proof {
            self.lemma_ids();
        }
        let ghost emap0 = self.emap();
        let ghost fmap0 = self.fmap();
        let ghost fids = self.face_ids();
        let face_keys = self.faces.iter_keys();
        let mut fi: usize = 0;
        while fi < face_keys.len()
            invariant
                self.wf(),
                fi <= face_keys.len(),
                face_keys.len() == fids.len(),
                forall|i: int| 0 <= i < face_keys.len() ==> (#[trigger] face_keys@[i]).key_id() == fids[i],
                forall|id: u64| fids.contains(id) <==> #[trigger] fmap0.dom().contains(id),
                fids.no_duplicates(),
                faces_consistent(emap0, fmap0),
                emap0 == old(self).emap(),
                fmap0 == old(self).fmap(),
                self.next_ids() == old(self).next_ids(),
                self.vmap() == old(self).vmap(),
                self.fmap() == fmap0,
                self.edge_ids() == old(self).edge_ids(),
                self.emap().dom() == emap0.dom(),
                forall|id: u64| #[trigger] emap0.dom().contains(id) ==> same_but_links(self.emap()[id], emap0[id]),
                forall|i: int, k: EdgeKey|
                    0 <= i < fi && #[trigger] fmap0[fids[i]].edges@.contains(k) ==> self.emap()[k.key_id()]
                        == relinked(emap0, fmap0[fids[i]].edges@, k),
                forall|id: u64|
                    #[trigger] emap0.dom().contains(id) && !(exists|i: int|
                        0 <= i < fi && #[trigger] fmap0[fids[i]].edges@.contains(EdgeKey::from_id(id)))
                        ==> self.emap()[id] == emap0[id],
            decreases face_keys.len() - fi,
        {
            let fk = face_keys[fi];
            let ghost fid = fids[fi as int];
            proof {
                assert(fids.contains(fid));
                let esq = fmap0[fid].edges@;
                assert forall|k: EdgeKey| #[trigger] esq.contains(k) implies self.emap()[k.key_id()] == emap0[k.key_id()] by {
                    let w = choose|w: int| 0 <= w < esq.len() && esq[w] == k;
                    assert(fmap0.dom().contains(fid) && 0 <= w < fmap0[fid].edges@.len());
                    assert(emap0.dom().contains(k.key_id()));
                    EdgeKey::lemma_key_id(k, k.key_id());
                    if exists|i: int| 0 <= i < fi && #[trigger] fmap0[fids[i]].edges@.contains(EdgeKey::from_id(k.key_id())) {
                        let i = choose|i: int| 0 <= i < fi && #[trigger] fmap0[fids[i]].edges@.contains(EdgeKey::from_id(k.key_id()));
                        assert(fids.contains(fids[i]));
                        assert(fids[i] == fid);
                        assert(false);
                    }
                }
                assert forall|i: int| 0 <= i < esq.len() implies {
                    let k = #[trigger] esq[i];
                    &&& emap0.dom().contains(k.key_id())
                    &&& emap0[k.key_id()].id == k
                    &&& last_origin(emap0, esq, emap0[k.key_id()].target_vertex) is Some
                } by {
                    assert(fmap0.dom().contains(fid) && 0 <= i < fmap0[fid].edges@.len());
                }
            }
            let ghost emap_before = self.emap();
            self.relink_face(fk, Ghost(emap0));
            proof {
                let esq = fmap0[fid].edges@;
                assert forall|i: int, k: EdgeKey|
                    0 <= i < fi + 1 && #[trigger] fmap0[fids[i]].edges@.contains(k) implies self.emap()[k.key_id()]
                        == relinked(emap0, fmap0[fids[i]].edges@, k) by {
                    if i < fi {
                        assert(fids.contains(fids[i]));
                        EdgeKey::lemma_key_id(k, k.key_id());
                        if esq.contains(EdgeKey::from_id(k.key_id())) {
                            assert(fids[i] == fid);
                            assert(false);
                        }
                        assert(fmap0.dom().contains(fids[i]) && 0 <= 0);
                        let w = choose|w: int| 0 <= w < fmap0[fids[i]].edges@.len() && fmap0[fids[i]].edges@[w] == k;
                        assert(emap0.dom().contains(fmap0[fids[i]].edges@[w].key_id()));
                    }
                }
                assert forall|id: u64|
                    #[trigger] emap0.dom().contains(id) && !(exists|i: int|
                        0 <= i < fi + 1 && #[trigger] fmap0[fids[i]].edges@.contains(EdgeKey::from_id(id)))
                        implies self.emap()[id] == emap0[id] by {
                    if esq.contains(EdgeKey::from_id(id)) {
                        assert(fmap0[fids[fi as int]].edges@.contains(EdgeKey::from_id(id)));
                    }
                }
            }
            fi = fi + 1;
        }
        proof {
            assert forall|id: u64| #[trigger] emap0.dom().contains(id) implies self.emap()[id] == with_next_prev(emap0, fmap0)[id] by {
                let k = EdgeKey::from_id(id);
                EdgeKey::lemma_key_id(k, id);
                if in_some_face(fmap0, k) {
                    let f = choose|f: u64| #[trigger] fmap0.dom().contains(f) && fmap0[f].edges@.contains(k);
                    assert(fids.contains(f));
                    let i = choose|i: int| 0 <= i < fids.len() && fids[i] == f;
                    assert(fmap0[fids[i]].edges@.contains(k));
                } else {
                    assert forall|i: int| 0 <= i < fids.len() implies !(#[trigger] fmap0[fids[i]].edges@.contains(k)) by {
                        assert(fids.contains(fids[i]));
                        assert(fmap0.dom().contains(fids[i]));
                        assert(!(fmap0.dom().contains(fids[i]) && fmap0[fids[i]].edges@.contains(k)));
                    }
                }
            }
            assert(self.emap() =~= with_next_prev(emap0, fmap0));
        }
    }

    /// The map from each half-edge listed by a face to the `id` of the last
    /// face (in key order) listing it.
    fn edge_to_face_map(&self) -> (m: IdMap)
        requires
            self.wf(),
        ensures
            forall|k: u64|
                #[trigger] id_map_contents(m).dom().contains(k) <==> face_owner(
                    self.fmap(),
                    self.face_ids(),
                    EdgeKey::from_id(k),
                ) is Some,
            forall|k: u64|
                #[trigger] id_map_contents(m).dom().contains(k) ==> id_map_contents(m)[k] == face_owner(
                    self.fmap(),
                    self.face_ids(),
                    EdgeKey::from_id(k),
                )->0.key_id(),
    {
        let faces = self.faces.iter();
        let ghost fids = self.face_ids();
        let ghost fmap = self.fmap();
        let mut map = IdMap::new();
        let mut i: usize = 0;
        while i < faces.len()
            invariant
                i <= faces.len(),
                faces.len() == fids.len(),
                fids == self.face_ids(),
                fmap == self.fmap(),
                forall|j: int| 0 <= j < faces.len() ==> *(#[trigger] faces@[j]) == fmap[fids[j]],
                forall|k: u64|
                    #[trigger] id_map_contents(map).dom().contains(k) <==> face_owner(
                        fmap,
                        fids.take(i as int),
                        EdgeKey::from_id(k),
                    ) is Some,
                forall|k: u64|
                    #[trigger] id_map_contents(map).dom().contains(k) ==> id_map_contents(map)[k]
                        == face_owner(fmap, fids.take(i as int), EdgeKey::from_id(k))->0.key_id(),
            decreases faces.len() - i,
        {
            let face = faces[i];
            let ghost es = face.edges@;
            let mut j: usize = 0;
            while j < face.edges.len()
                invariant
                    j <= es.len(),
                    es == face.edges@,
                    *face == fmap[fids[i as int]],
                    forall|k: u64|
                        #[trigger] id_map_contents(map).dom().contains(k) <==> (es.take(j as int).contains(
                            EdgeKey::from_id(k),
                        ) || face_owner(fmap, fids.take(i as int), EdgeKey::from_id(k)) is Some),
                    forall|k: u64|
                        #[trigger] id_map_contents(map).dom().contains(k) ==> id_map_contents(map)[k] == if es.take(
                            j as int,
                        ).contains(EdgeKey::from_id(k)) {
                            face.id.key_id()
                        } else {
                            face_owner(fmap, fids.take(i as int), EdgeKey::from_id(k))->0.key_id()
                        },
                decreases es.len() - j,
            {
                let k = face.edges[j];
                map.insert(k.get(), face.id.get());
                proof {
                    let t1 = es.take(j + 1);
                    let t0 = es.take(j as int);
                    assert forall|x: EdgeKey| #[trigger] t1.contains(x) <==> (t0.contains(x) || x == k) by {
                        if t1.contains(x) && x != k {
                            let w = choose|w: int| 0 <= w < j + 1 && #[trigger] t1[w] == x;
                            assert(t0[w] == x);
                        }
                        if t0.contains(x) {
                            let w = choose|w: int| 0 <= w < j && #[trigger] t0[w] == x;
                            assert(t1[w] == x);
                        }
                        if x == k {
                            assert(t1[j as int] == x);
                        }
                    }
                    assert forall|v: u64| (#[trigger] EdgeKey::from_id(v) == k) <==> v == k.key_id() by {
                        EdgeKey::lemma_key_id(k, v);
                    }
                }
                j = j + 1;
            }
            proof {
                assert(es.take(es.len() as int) =~= es);
                assert(fids.take(i + 1).drop_last() =~= fids.take(i as int));
                assert(fids.take(i + 1).last() == fids[i as int]);
                assert forall|v: u64| es.contains(EdgeKey::from_id(v)) || !es.contains(EdgeKey::from_id(v)) by {
                }
            }
            i = i + 1;
        }
        proof {
            assert(fids.take(fids.len() as int) =~= fids);
        }
        map
    }

    /// Gives each half-edge in `map` the face that `map` names for it (only
    /// those holding the placeholder parent, when `only_placeholders`).
    fn apply_face_map(&mut self, map: &IdMap, only_placeholders: bool)
        requires
            old(self).wf(),
        ensures
            final(self).wf(),
            final(self).next_ids() == old(self).next_ids(),
            final(self).vmap() == old(self).vmap(),
            final(self).fmap() == old(self).fmap(),
            final(self).edge_ids() == old(self).edge_ids(),
            final(self).face_ids() == old(self).face_ids(),
            final(self).emap() == old(self).emap().map_entries(
                |id: u64, e: Edge|
                    if id_map_contents(*map).dom().contains(id) && (!only_placeholders || e.face.key_id()
                        == INVALID_ID) {
                        Edge { face: FaceKey::from_id(id_map_contents(*map)[id]), ..e }
                    } else {
                        e
                    },
            ),
    {
        let keys = self.edges.iter_keys();
        proof {
            self.edges.lemma_key_ids();
        }
        let ghost ids = self.edge_ids();
        let ghost target = old(self).emap().map_entries(
            |id: u64, e: Edge|
                if id_map_contents(*map).dom().contains(id) && (!only_placeholders || e.face.key_id()
                    == INVALID_ID) {
                    Edge { face: FaceKey::from_id(id_map_contents(*map)[id]), ..e }
                } else {
                    e
                },
        );
        let mut i: usize = 0;
        while i < keys.len()
            invariant
                self.wf(),
                i <= keys.len(),
                keys.len() == ids.len(),
                forall|j: int| 0 <= j < keys.len() ==> (#[trigger] keys@[j]).key_id() == ids[j],
                ids == old(self).edge_ids(),
                forall|id: u64| ids.contains(id) <==> #[trigger] old(self).emap().dom().contains(id),
                ids.no_duplicates(),
                self.next_ids() == old(self).next_ids(),
                self.fmap() == old(self).fmap(),
                self.vmap() == old(self).vmap(),
                self.face_ids() == old(self).face_ids(),
                self.edge_ids() == old(self).edge_ids(),
                self.emap().dom() == old(self).emap().dom(),
                target.dom() == old(self).emap().dom(),
                forall|id: u64|
                    #[trigger] old(self).emap().dom().contains(id) ==> target[id] == if id_map_contents(*map).dom().contains(id) && (!only_placeholders
                        || old(self).emap()[id].face.key_id() == INVALID_ID) {
                        Edge { face: FaceKey::from_id(id_map_contents(*map)[id]), ..old(self).emap()[id] }
                    } else {
                        old(self).emap()[id]
                    },
                forall|id: u64|
                    #[trigger] self.emap().dom().contains(id) ==> self.emap()[id] == if seen_before(
                        ids,
                        i as int,
                        id,
                    ) {
                        target[id]
                    } else {
                        old(self).emap()[id]
                    },
            decreases keys.len() - i,
        {
            let key = keys[i];
            assert(ids.contains(ids[i as int]));
            let edge = *self.edges.get(key).unwrap();
            if let Some(face_id) = map.get(key.get()) {
                if !only_placeholders || edge.face == FaceKey::invalid() {
                    self.edges.set(key, Edge { face: FaceKey::new(face_id), ..edge });
                }
            }
            proof {
                FaceKey::lemma_key_id(edge.face, INVALID_ID);
                assert forall|id: u64| seen_before(ids, i + 1, id) <==> (seen_before(ids, i as int, id) || id == key.key_id()) by {
                    if seen_before(ids, i + 1, id) && id != key.key_id() {
                        let j = choose|j: int| 0 <= j < i + 1 && #[trigger] ids[j] == id;
                        assert(j < i);
                    }
                    if id == key.key_id() {
                        assert(ids[i as int] == id);
                    }
                }
                assert forall|id: u64| seen_before(ids, i as int, id) implies id != key.key_id() by {
                    let j = choose|j: int| 0 <= j < i && #[trigger] ids[j] == id;
                    assert(j != i);
                    assert(ids[j] != ids[i as int]);
                }
            }
            i = i + 1;
        }
        proof {
            assert forall|id: u64| #[trigger] old(self).emap().dom().contains(id) implies seen_before(ids, ids.len() as int, id) by {
                assert(ids.contains(id));
            }
            assert(self.emap() =~= target);
        }
    }

    /// Fixes edge parent keys: each half-edge listed by a face gets that face
    /// (the last one, in key order, if several list it) as parent.
    ///
    /// # Invariants
    /// The `face` keys of each edge must be correct.
    fn fix_edge_parent_keys(&mut self)
        requires
            old(self).wf(),
        ensures
            final(self).wf(),
            final(self).next_ids() == old(self).next_ids(),
            final(self).vmap() == old(self).vmap(),
            final(self).fmap() == old(self).fmap(),
            final(self).edge_ids() == old(self).edge_ids(),
            final(self).face_ids() == old(self).face_ids(),
            final(self).emap() == with_parents(old(self).emap(), old(self).fmap(), old(self).face_ids(), false),
    {
        let map = self.edge_to_face_map();
        self.apply_face_map(&map, false);
        proof {
            lemma_parents_from_map(old(self).emap(), old(self).fmap(), old(self).face_ids(), map, false);
        }
    }

    /// Regenerates invalid keys: fills in the own key of every vertex,
    /// half-edge and face that holds the placeholder, gives each half-edge
    /// listed by a face that face as parent, and relinks twins and the next
    /// and previous half-edges around each face.
    ///
    /// # Invariants
    /// Requires that faces have valid and consistently edge keys.
    pub fn regenerate_invalid_keys(&mut self)
        requires
            old(self).wf(),
            faces_consistent(edges_with_ids(old(self).emap()), old(self).fmap()),
        ensures
            final(self).wf(),
            final(self).next_ids() == old(self).next_ids(),
            final(self).vmap() == vertices_with_ids(old(self).vmap()),
            final(self).fmap() == faces_with_ids(old(self).fmap()),
            final(self).emap() == regenerated_edges(
                old(self).emap(),
                old(self).fmap(),
                old(self).edge_ids(),
                old(self).face_ids(),
            ),
    {
        proof {
            self.lemma_ids();
        }
        let ghost eids = self.edge_ids();
        let ghost fids = self.face_ids();

        // start with `self.id` keys: vertices
        let keys = self.vertices.iter_keys();
        let ghost ids = self.vertex_ids();
        let mut i: usize = 0;
        while i < keys.len()
            invariant
                self.wf(),
                i <= keys.len(),
                keys.len() == ids.len(),
                forall|j: int| 0 <= j < keys.len() ==> (#[trigger] keys@[j]).key_id() == ids[j],
                ids == old(self).vertex_ids(),
                forall|id: u64| ids.contains(id) <==> #[trigger] old(self).vmap().dom().contains(id),
                ids.no_duplicates(),
                self.next_ids() == old(self).next_ids(),
                self.fmap() == old(self).fmap(),
                self.emap() == old(self).emap(),
                self.edge_ids() == eids,
                self.face_ids() == fids,
                self.vmap().dom() == old(self).vmap().dom(),
                forall|id: u64|
                    #[trigger] self.vmap().dom().contains(id) ==> self.vmap()[id] == if seen_before(
                        ids,
                        i as int,
                        id,
                    ) {
                        vertex_with_id(id, old(self).vmap()[id])
                    } else {
                        old(self).vmap()[id]
                    },
            decreases keys.len() - i,
        {
            let key = keys[i];
            assert(ids.contains(ids[i as int]));
            let invalid = VertexKey::invalid();
            match self.vertices.get_mut(key) {
                Some(v) => {
                    if v.id == invalid {
                        v.id = key;
                    }
                },
                None => {},
            }
            proof {
                VertexKey::lemma_key_id(old(self).vmap()[key.key_id()].id, INVALID_ID);
                VertexKey::lemma_key_id(key, key.key_id());
                assert forall|id: u64| seen_before(ids, i + 1, id) <==> (seen_before(ids, i as int, id) || id == key.key_id()) by {
                    if seen_before(ids, i + 1, id) && id != key.key_id() {
                        let j = choose|j: int| 0 <= j < i + 1 && #[trigger] ids[j] == id;
                        assert(j < i);
                    }
                    if id == key.key_id() {
                        assert(ids[i as int] == id);
                    }
                }
                assert forall|id: u64| seen_before(ids, i as int, id) implies id != key.key_id() by {
                    let j = choose|j: int| 0 <= j < i && #[trigger] ids[j] == id;
                    assert(j != i);
                    assert(ids[j] != ids[i as int]);
                }
            }
            i = i + 1;
        }
        proof {
            assert forall|id: u64| #[trigger] old(self).vmap().dom().contains(id) implies seen_before(ids, ids.len() as int, id) by {
                assert(ids.contains(id));
            }
            assert(self.vmap() =~= vertices_with_ids(old(self).vmap()));
        }

        // half-edges
        let keys = self.edges.iter_keys();
        let mut i: usize = 0;
        while i < keys.len()
            invariant
                self.wf(),
                i <= keys.len(),
                keys.len() == eids.len(),
                forall|j: int| 0 <= j < keys.len() ==> (#[trigger] keys@[j]).key_id() == eids[j],
                eids == old(self).edge_ids(),
                forall|id: u64| eids.contains(id) <==> #[trigger] old(self).emap().dom().contains(id),
                eids.no_duplicates(),
                self.next_ids() == old(self).next_ids(),
                self.fmap() == old(self).fmap(),
                self.vmap() == vertices_with_ids(old(self).vmap()),
                self.edge_ids() == eids,
                self.face_ids() == fids,
                self.emap().dom() == old(self).emap().dom(),
                forall|id: u64|
                    #[trigger] self.emap().dom().contains(id) ==> self.emap()[id] == if seen_before(
                        eids,
                        i as int,
                        id,
                    ) {
                        edge_with_id(id, old(self).emap()[id])
                    } else {
                        old(self).emap()[id]
                    },
            decreases keys.len() - i,
        {
            let key = keys[i];
            assert(eids.contains(eids[i as int]));
            let edge = *self.edges.get(key).unwrap();
            if edge.id == EdgeKey::invalid() {
                self.edges.set(key, Edge { id: key, ..edge });
            }
            proof {
                EdgeKey::lemma_key_id(edge.id, INVALID_ID);
                EdgeKey::lemma_key_id(key, key.key_id());
                assert forall|id: u64| seen_before(eids, i + 1, id) <==> (seen_before(eids, i as int, id) || id == key.key_id()) by {
                    if seen_before(eids, i + 1, id) && id != key.key_id() {
                        let j = choose|j: int| 0 <= j < i + 1 && #[trigger] eids[j] == id;
                        assert(j < i);
                    }
                    if id == key.key_id() {
                        assert(eids[i as int] == id);
                    }
                }
                assert forall|id: u64| seen_before(eids, i as int, id) implies id != key.key_id() by {
                    let j = choose|j: int| 0 <= j < i && #[trigger] eids[j] == id;
                    assert(j != i);
                    assert(eids[j] != eids[i as int]);
                }
            }
            i = i + 1;
        }
        proof {
            assert forall|id: u64| #[trigger] old(self).emap().dom().contains(id) implies seen_before(eids, eids.len() as int, id) by {
                assert(eids.contains(id));
            }
            assert(self.emap() =~= edges_with_ids(old(self).emap()));
        }

        // faces
        let keys = self.faces.iter_keys();
        let mut i: usize = 0;
        while i < keys.len()
            invariant
                self.wf(),
                i <= keys.len(),
                keys.len() == fids.len(),
                forall|j: int| 0 <= j < keys.len() ==> (#[trigger] keys@[j]).key_id() == fids[j],
                fids == old(self).face_ids(),
                forall|id: u64| fids.contains(id) <==> #[trigger] old(self).fmap().dom().contains(id),
                fids.no_duplicates(),
                self.next_ids() == old(self).next_ids(),
                self.emap() == edges_with_ids(old(self).emap()),
                self.vmap() == vertices_with_ids(old(self).vmap()),
                self.edge_ids() == eids,
                self.fmap().dom() == old(self).fmap().dom(),
                forall|id: u64|
                    #[trigger] self.fmap().dom().contains(id) ==> self.fmap()[id] == if seen_before(
                        fids,
                        i as int,
                        id,
                    ) {
                        faces_with_ids(old(self).fmap())[id]
                    } else {
                        old(self).fmap()[id]
                    },
            decreases keys.len() - i,
        {
            let key = keys[i];
            assert(fids.contains(fids[i as int]));
            let invalid = FaceKey::invalid();
            match self.faces.get_mut(key) {
                Some(f) => {
                    if f.id == invalid {
                        f.id = key;
                    }
                },
                None => {},
            }
            proof {
                FaceKey::lemma_key_id(old(self).fmap()[key.key_id()].id, INVALID_ID);
                FaceKey::lemma_key_id(key, key.key_id());
                assert forall|id: u64| seen_before(fids, i + 1, id) <==> (seen_before(fids, i as int, id) || id == key.key_id()) by {
                    if seen_before(fids, i + 1, id) && id != key.key_id() {
                        let j = choose|j: int| 0 <= j < i + 1 && #[trigger] fids[j] == id;
                        assert(j < i);
                    }
                    if id == key.key_id() {
                        assert(fids[i as int] == id);
                    }
                }
                assert forall|id: u64| seen_before(fids, i as int, id) implies id != key.key_id() by {
                    let j = choose|j: int| 0 <= j < i && #[trigger] fids[j] == id;
                    assert(j != i);
                    assert(fids[j] != fids[i as int]);
                }
            }
            i = i + 1;
        }
        proof {
            assert forall|id: u64| #[trigger] old(self).fmap().dom().contains(id) implies seen_before(fids, fids.len() as int, id) by {
                assert(fids.contains(id));
            }
            assert(self.fmap() =~= faces_with_ids(old(self).fmap()));
            self.faces.lemma_same_key_ids(old(self).faces);
        }
        let ghost e1 = self.emap();
        let ghost f1 = self.fmap();

        // fix edges with invalid face keys
        let map = self.edge_to_face_map();
        self.apply_face_map(&map, true);
        proof {
            lemma_parents_from_map(e1, f1, fids, map, true);
        }
        self.fix_edge_parent_keys();
        self.fix_edge_twin_keys();
        proof {
            let e4 = self.emap();
            let e0 = edges_with_ids(old(self).emap());
            assert forall|id: u64| #[trigger] e0.dom().contains(id) implies e4[id].origin_vertex == e0[id].origin_vertex
                && e4[id].target_vertex == e0[id].target_vertex && e4[id].id == e0[id].id by {
            }
            assert forall|f: u64, v: VertexKey| f1.dom().contains(f) implies #[trigger] last_origin(e4, f1[f].edges@, v)
                == last_origin(e0, old(self).fmap()[f].edges@, v) by {
                assert(f1[f].edges@ == old(self).fmap()[f].edges@);
                let es = f1[f].edges@;
                assert forall|i: int| 0 <= i < es.len() implies #[trigger] e4[es[i].key_id()].origin_vertex
                    == e0[es[i].key_id()].origin_vertex && e4[es[i].key_id()].id == e0[es[i].key_id()].id by {
                    assert(old(self).fmap().dom().contains(f) && 0 <= i < old(self).fmap()[f].edges@.len());
                }
                lemma_last_origin_frame(e4, e0, es, v);
            }
            assert(faces_consistent(e4, f1)) by {
                assert forall|f: u64, i: int| #[trigger] f1.dom().contains(f) && 0 <= i < f1[f].edges@.len() implies {
                    let k = #[trigger] f1[f].edges@[i];
                    &&& e4.dom().contains(k.key_id())
                    &&& e4[k.key_id()].id == k
                    &&& last_origin(e4, f1[f].edges@, e4[k.key_id()].target_vertex) is Some
                } by {
                    assert(old(self).fmap().dom().contains(f) && 0 <= i < old(self).fmap()[f].edges@.len());
                    assert(f1[f].edges@[i] == old(self).fmap()[f].edges@[i]);
                }
            }
        }
        self.fix_edge_next_prev_keys();
    }

    /// Whether `a` and `b` are the same face the other way round: as many
    /// half-edges, each of `a`'s with its twin among `b`'s.
    fn is_reversed_pair(&self, a: FaceKey, b: FaceKey) -> (r: bool)
        requires
            self.fmap().dom().contains(a.key_id()),
            self.fmap().dom().contains(b.key_id()),
            self.face_edges_exist(a),
        ensures
            r == reversed_pair(self.emap(), self.fmap()[a.key_id()], self.fmap()[b.key_id()]),
    {
        let a_face = self.faces.get(a).unwrap();
        let b_face = self.faces.get(b).unwrap();
        if a_face.edges.len() != b_face.edges.len() {
            return false;
        }
        let mut i: usize = 0;
        while i < a_face.edges.len()
            invariant
                i <= a_face.edges@.len(),
                *a_face == self.fmap()[a.key_id()],
                *b_face == self.fmap()[b.key_id()],
                self.face_edges_exist(a),
                a_face.edges@.len() == b_face.edges@.len(),
                forall|j: int|
                    0 <= j < i ==> (#[trigger] self.emap()[a_face.edges@[j].key_id()]).twin_edge is Some
                        && twin_in(self.emap()[a_face.edges@[j].key_id()], b_face.edges@),
            decreases a_face.edges@.len() - i,
        {
            let edge = self.edges.get(a_face.edges[i]).unwrap();
            match edge.twin_edge {
                Some(twin) => {
                    if !vec_contains_edge(&b_face.edges, twin) {
                        return false;
                    }
                },
                None => {
                    return false;
                },
            }
            i = i + 1;
        }
        true
    }

    /// The half-edge before the run `border` of the ring `w` (its last one).
    fn border_pre_edge(&self, border: &IdSet, Ghost(f): Ghost<Face>, Ghost(w): Ghost<Seq<EdgeKey>>, Ghost(l): Ghost<int>) -> (r: EdgeKey)
        requires
            is_ring(self.emap(), f, w),
            is_front_arc(w, id_set_contents(*border), l),
        ensures
            r == w[w.len() - 1],
    {
        let ghost n = w.len() as int;
        let ghost bset = id_set_contents(*border);
        let members = border.to_vec();
        let mut i: usize = 0;
        while i < members.len()
            invariant
                i <= members.len(),
                is_ring(self.emap(), f, w),
                is_front_arc(w, bset, l),
                bset == id_set_contents(*border),
                n == w.len(),
                members@.to_set() == bset,
                forall|k: int| 0 <= k < i ==> members@[k] != w[0].key_id(),
            decreases members.len() - i,
        {
            let id = members[i];
            proof {
                assert(members@.to_set().contains(id));
                let j = choose|j: int| 0 <= j < w.len() && (#[trigger] w[j]).key_id() == id;
                assert(bset.contains(w[j].key_id()));
                EdgeKey::lemma_key_id(w[j], id);
                assert(self.emap().dom().contains(w[j].key_id()));
            }
            let edge = *self.edges.get(EdgeKey::new(id)).unwrap();
            if !border.contains(edge.prev_edge.get()) {
                proof {
                    let j = choose|j: int| 0 <= j < w.len() && (#[trigger] w[j]).key_id() == id;
                    assert(bset.contains(w[j].key_id()));
                    lemma_mod_near(j + n - 1, n);
                    if j > 0 {
                        assert(bset.contains(w[j - 1].key_id()));
                    }
                    assert(j == 0);
                }
                return edge.prev_edge;
            }
            proof {
                let j = choose|j: int| 0 <= j < w.len() && (#[trigger] w[j]).key_id() == id;
                if j == 0 {
                    lemma_mod_near(n - 1, n);
                    assert(!bset.contains(w[n - 1].key_id()));
                    assert(false);
                }
                EdgeKey::lemma_key_id(w[j], 0);
                EdgeKey::lemma_key_id(w[0], 0);
                if id == w[0].key_id() {
                    assert(w[j] == w[0]);
                }
            }
            i = i + 1;
        }
        proof {
            assert(bset.contains(w[0].key_id()));
            assert(members@.to_set().contains(w[0].key_id()));
            let k = choose|k: int| 0 <= k < members.len() && members@[k] == w[0].key_id();
            assert(false);
        }
        EdgeKey::invalid()
    }

    /// The half-edge after the run `border` of the ring `w`.
    fn border_post_edge(&self, border: &IdSet, Ghost(f): Ghost<Face>, Ghost(w): Ghost<Seq<EdgeKey>>, Ghost(l): Ghost<int>) -> (r: EdgeKey)
        requires
            is_ring(self.emap(), f, w),
            is_front_arc(w, id_set_contents(*border), l),
        ensures
            r == w[l],
    {
        let ghost n = w.len() as int;
        let ghost bset = id_set_contents(*border);
        let members = border.to_vec();
        let mut i: usize = 0;
        while i < members.len()
            invariant
                i <= members.len(),
                is_ring(self.emap(), f, w),
                is_front_arc(w, bset, l),
                bset == id_set_contents(*border),
                n == w.len(),
                members@.to_set() == bset,
                forall|k: int| 0 <= k < i ==> members@[k] != w[l - 1].key_id(),
            decreases members.len() - i,
        {
            let id = members[i];
            proof {
                assert(members@.to_set().contains(id));
                let j = choose|j: int| 0 <= j < w.len() && (#[trigger] w[j]).key_id() == id;
                assert(bset.contains(w[j].key_id()));
                EdgeKey::lemma_key_id(w[j], id);
                assert(self.emap().dom().contains(w[j].key_id()));
            }
            let edge = *self.edges.get(EdgeKey::new(id)).unwrap();
            if !border.contains(edge.next_edge.get()) {
                proof {
                    let j = choose|j: int| 0 <= j < w.len() && (#[trigger] w[j]).key_id() == id;
                    assert(bset.contains(w[j].key_id()));
                    lemma_mod_near(j + 1, n);
                    if j + 1 < l {
                        assert(bset.contains(w[j + 1].key_id()));
                    }
                    assert(j == l - 1);
                }
                return edge.next_edge;
            }
            proof {
                let j = choose|j: int| 0 <= j < w.len() && (#[trigger] w[j]).key_id() == id;
                lemma_mod_near(j + 1, n);
                if j == l - 1 {
                    assert(!bset.contains(w[l].key_id()));
                    assert(false);
                }
                EdgeKey::lemma_key_id(w[j], 0);
                EdgeKey::lemma_key_id(w[l - 1], 0);
                if id == w[l - 1].key_id() {
                    assert(w[j] == w[l - 1]);
                }
            }
            i = i + 1;
        }
        proof {
            assert(bset.contains(w[l - 1].key_id()));
            assert(members@.to_set().contains(w[l - 1].key_id()));
            let k = choose|k: int| 0 <= k < members.len() && members@[k] == w[l - 1].key_id();
            assert(false);
        }
        EdgeKey::invalid()
    }

    /// The half-edges met walking `next_edge` from the one after the run (at
    /// index `l` of the ring `w`), up to the one before the one before the
    /// run, exclusive of both ends.
    fn walk_between(&self, post: EdgeKey, pre: EdgeKey, Ghost(f): Ghost<Face>, Ghost(w): Ghost<Seq<EdgeKey>>, Ghost(l): Ghost<int>) -> (r: Vec<EdgeKey>)
        requires
            is_ring(self.emap(), f, w),
            1 <= l < w.len(),
            post == w[l],
            pre == w[w.len() - 1],
        ensures
            r@ == Seq::new(
                (if w.len() - l >= 2 { w.len() - l - 2 } else { w.len() - 1 }) as nat,
                |u: int| w[(l + 1 + u) % (w.len() as int)],
            ),
    {
        let ghost n = w.len() as int;
        let ghost stop = if n - l >= 2 { n - l - 2 } else { n - 1 };
        let mut others: Vec<EdgeKey> = Vec::new();
        let mut edge_key = post;
        let ghost mut t: int = 0;
        proof {
            lemma_mod_near(l, n);
        }
        loop
            invariant
                is_ring(self.emap(), f, w),
                n == w.len(),
                1 <= l < n,
                pre == w[n - 1],
                stop == if n - l >= 2 { n - l - 2 } else { n - 1 },
                0 <= t <= stop,
                edge_key == w[(l + t) % n],
                others@ == Seq::new(t as nat, |u: int| w[(l + 1 + u) % n]),
            ensures
                others@ == Seq::new(stop as nat, |u: int| w[(l + 1 + u) % n]),
            decreases stop - t,
        {
            proof {
                lemma_mod_near(l + t, n);
                lemma_mod_near(l + t + 1, n);
                assert(0 <= (l + t) % n < n);
            }
            let edge = *self.edges.get(edge_key).unwrap();
            proof {
                let i = (l + t) % n;
                lemma_mod_near(i + 1, n);
                assert(edge.next_edge == w[(i + 1) % n]);
                assert((i + 1) % n == (l + t + 1) % n);
                if t < stop {
                    assert((l + t + 1) % n != n - 1);
                    assert(w[(l + t + 1) % n] != w[n - 1]);
                } else {
                    assert((l + t + 1) % n == n - 1);
                }
            }
            if edge.next_edge == pre {
                break;
            }
            edge_key = edge.next_edge;
            others.push(edge_key);
            proof {
                t = t + 1;
                assert(others@ =~= Seq::new(t as nat, |u: int| w[(l + 1 + u) % n]));
            }
        }
        others
    }

    /// Merges two adjacent faces into a new face bounded by the half-edges of
    /// both faces off their common border, and returns the new face's key.
    ///
    /// When the two are the same face the other way round, `b` is removed
    /// and `a` returned; when all of `b` borders `a`, `b` is removed and `a`
    /// returned (and the same with `a` and `b` swapped).
    ///
    /// # Invariants
    /// - The faces must be adjacent.
    /// - The faces must be coplanar.
    /// - Both faces must be valid according to `is_valid_face`.
    /// - The faces must share a contiguous border, i.e. if not triangular, they
    ///   can't have more than one bordering section, because merging them would
    ///   produce a hole.
    pub fn merge_face_pair(&mut self, a: FaceKey, b: FaceKey) -> (r: FaceKey)
        requires
            old(self).wf(),
            old(self).next_ids().2 < INVALID_ID,
            merge_pair_safe(old(self).emap(), old(self).fmap(), a, b),
        ensures
            final(self).wf(),
            final(self).vmap() == old(self).vmap(),
            old(self).next_ids().2 <= final(self).next_ids().2 <= old(self).next_ids().2 + 1,
            pair_outcome(old(self).fmap(), final(self).fmap(), a.key_id(), b.key_id(), r.key_id(), old(self).next_ids().2),
            merged_as(*old(self), *final(self), a, b, r),
    {
        let ghost emap0 = self.emap();
        let ghost fmap0 = self.fmap();
        let ghost fa = fmap0[a.key_id()];
        let ghost fb = fmap0[b.key_id()];
        let ghost ab = border_set(emap0, fa, fb);
        let ghost ba = border_set(emap0, fb, fa);
        proof {
            lemma_ring_edges_exist(emap0, fa);
            lemma_ring_edges_exist(emap0, fb);
            lemma_border_finite(emap0, fa, fb);
            lemma_border_finite(emap0, fb, fa);
        }
        let a_len = self.faces.get(a).unwrap().edges.len();
        let b_len = self.faces.get(b).unwrap().edges.len();

        // the same face the other way round: keep one of them
        if self.is_reversed_pair(a, b) {
            self.remove_face_and_edges(b);
            return a;
        }
        let a_border = self.border_ids(a, b);
        let b_border = self.border_ids(b, a);

        // a face entirely on the border of the other is dropped
        if a_border.len() == a_len {
            self.remove_face_and_edges(a);
            return b;
        } else if b_border.len() == b_len {
            self.remove_face_and_edges(b);
            return a;
        }
        self.merge_rings(a, b, &a_border, &b_border)
    }

    /// Merges faces `a` and `b`, neither lying wholly on the other, into a
    /// new face bounded by the half-edges of both off their common border.
    fn merge_rings(&mut self, a: FaceKey, b: FaceKey, a_border: &IdSet, b_border: &IdSet) -> (r: FaceKey)
        requires
            old(self).wf(),
            old(self).next_ids().2 < INVALID_ID,
            merge_pair_safe(old(self).emap(), old(self).fmap(), a, b),
            !reversed_pair(old(self).emap(), old(self).fmap()[a.key_id()], old(self).fmap()[b.key_id()]),
            id_set_contents(*a_border) == border_set(
                old(self).emap(),
                old(self).fmap()[a.key_id()],
                old(self).fmap()[b.key_id()],
            ),
            id_set_contents(*b_border) == border_set(
                old(self).emap(),
                old(self).fmap()[b.key_id()],
                old(self).fmap()[a.key_id()],
            ),
            id_set_contents(*b_border).len() != old(self).fmap()[b.key_id()].edges@.len(),
        ensures
            final(self).wf(),
            final(self).vmap() == old(self).vmap(),
            final(self).next_ids().2 == old(self).next_ids().2 + 1,
            !old(self).fmap().dom().contains(old(self).next_ids().2),
            ({
                let emap = old(self).emap();
                let fmap = old(self).fmap();
                let fa = fmap[a.key_id()];
                let fb = fmap[b.key_id()];
                let order = outer_edges(emap, fa, border_set(emap, fa, fb)) + outer_edges(
                    emap,
                    fb,
                    border_set(emap, fb, fa),
                );
                &&& r.key_id() == old(self).next_ids().2
                &&& final(self).fmap().dom()
                    == fmap.dom().remove(a.key_id()).remove(b.key_id()).insert(r.key_id())
                &&& forall|f: u64|
                    #[trigger] final(self).fmap().dom().contains(f) && f != r.key_id()
                        ==> final(self).fmap()[f] == fmap[f]
                &&& final(self).fmap()[r.key_id()].id == r
                &&& final(self).fmap()[r.key_id()].edges@ == order
                &&& final(self).emap() == merged_edges(emap, order, r)
                &&& face_ring(final(self).emap(), final(self).fmap()[r.key_id()])
                &&& face_check(final(self).emap(), final(self).fmap()[r.key_id()]) == Ok::<(), InvalidFaceError>(())
            }),
    {
        let ghost emap0 = self.emap();
        let edge_order = self.merged_ring_order(a, b, a_border, b_border);
        let new_face_key = self.add_merged_face(&edge_order, a, b);
        self.link_ring(&edge_order, new_face_key);
        proof {
            let order = edge_order@;
            let r = new_face_key;
            assert(self.fmap().dom() =~= old(self).fmap().dom().remove(a.key_id()).remove(b.key_id()).insert(
                r.key_id(),
            ));
            lemma_merged_ring(emap0, order, r, self.fmap()[r.key_id()]);
            lemma_ring_valid(self.emap(), self.fmap()[r.key_id()]);
        }
        new_face_key
    }

    /// The ring of the face that merging `a` and `b` makes: the half-edges of
    /// `a` off its border with `b`, from the one after the border to the one
    /// before it, then likewise those of `b`.
    fn merged_ring_order(&self, a: FaceKey, b: FaceKey, a_border: &IdSet, b_border: &IdSet) -> (r: Vec<EdgeKey>)
        requires
            merge_pair_safe(self.emap(), self.fmap(), a, b),
            !reversed_pair(self.emap(), self.fmap()[a.key_id()], self.fmap()[b.key_id()]),
            id_set_contents(*a_border) == border_set(self.emap(), self.fmap()[a.key_id()], self.fmap()[b.key_id()]),
            id_set_contents(*b_border) == border_set(self.emap(), self.fmap()[b.key_id()], self.fmap()[a.key_id()]),
            id_set_contents(*b_border).len() != self.fmap()[b.key_id()].edges@.len(),
        ensures
            ({
                let fa = self.fmap()[a.key_id()];
                let fb = self.fmap()[b.key_id()];
                let order = outer_edges(self.emap(), fa, border_set(self.emap(), fa, fb)) + outer_edges(
                    self.emap(),
                    fb,
                    border_set(self.emap(), fb, fa),
                );
                &&& r@ == order
                &&& order.len() >= 3
                &&& order.no_duplicates()
                &&& forall|j: int|
                    0 <= j < order.len() ==> self.emap().dom().contains((#[trigger] order[j]).key_id())
                        && self.emap()[order[j].key_id()].id == order[j]
            }),
    {
        let ghost emap0 = self.emap();
        let ghost fmap0 = self.fmap();
        let ghost fa = fmap0[a.key_id()];
        let ghost fb = fmap0[b.key_id()];
        let ghost ab = border_set(emap0, fa, fb);
        let ghost ba = border_set(emap0, fb, fa);
        let ghost wa = ring_of(emap0, fa, ab).0;
        let ghost la = ring_of(emap0, fa, ab).1;
        let ghost wb = ring_of(emap0, fb, ba).0;
        let ghost lb = ring_of(emap0, fb, ba).1;
        let ghost outer_a = outer_edges(emap0, fa, ab);
        let ghost outer_b = outer_edges(emap0, fb, ba);
        let (a_pre, a_post, a_other) = self.outer_parts(a_border, Ghost(fa));
        let (b_pre, b_post, b_other) = self.outer_parts(b_border, Ghost(fb));
        proof {
            lemma_front_arc_len(wa, ab, la);
            lemma_front_arc_len(wb, ba, lb);
            assert(outer_a.len() == wa.len() - la && outer_b.len() == wb.len() - lb);
            assert(!(outer_a.len() == 1 && outer_b.len() == 1));
        }

        // the whole new ring: a_post -> a_other -> a_pre -> b_post -> b_other
        // -> b_pre, where a side with a single half-edge off the border
        // contributes just that half-edge
        let mut edge_order: Vec<EdgeKey> = Vec::new();
        if a_pre == a_post {
            edge_order.push(a_pre);
            edge_order.push(b_post);
            push_all(&mut edge_order, &b_other);
            edge_order.push(b_pre);
        } else if b_pre == b_post {
            edge_order.push(a_post);
            push_all(&mut edge_order, &a_other);
            edge_order.push(a_pre);
            edge_order.push(b_pre);
        } else {
            edge_order.push(a_post);
            push_all(&mut edge_order, &a_other);
            edge_order.push(a_pre);
            edge_order.push(b_post);
            push_all(&mut edge_order, &b_other);
            edge_order.push(b_pre);
        }
        proof {
            assert(edge_order@ =~= outer_a + outer_b);
            lemma_outer_distinct(emap0, fa, wa, la, fb, wb, lb);
        }
        edge_order
    }

    /// The half-edges of face `f` off the proper run `border` of its ring:
    /// the one before the run, the one after it, and those strictly between
    /// the two following `next_edge` (empty when the two are one).
    fn outer_parts(&self, border: &IdSet, Ghost(f): Ghost<Face>) -> (r: (EdgeKey, EdgeKey, Vec<EdgeKey>))
        requires
            border_arc(self.emap(), f, id_set_contents(*border)),
        ensures
            ({
                let outer = outer_edges(self.emap(), f, id_set_contents(*border));
                &&& outer.len() >= 1
                &&& (r.0 == r.1) == (outer.len() == 1)
                &&& outer.len() == 1 ==> outer == seq![r.0]
                &&& outer.len() > 1 ==> outer == seq![r.1] + r.2@ + seq![r.0]
            }),
    {
        let ghost b = id_set_contents(*border);
        let ghost w = ring_of(self.emap(), f, b).0;
        let ghost l = ring_of(self.emap(), f, b).1;
        let ghost n = w.len() as int;
        let pre = self.border_pre_edge(border, Ghost(f), Ghost(w), Ghost(l));
        let post = self.border_post_edge(border, Ghost(f), Ghost(w), Ghost(l));
        let other = self.walk_between(post, pre, Ghost(f), Ghost(w), Ghost(l));
        proof {
            lemma_outer_split(w, l, pre, post, other@);
        }
        (pre, post, other)
    }

    /// Adds a face bounded by `order` under a fresh key carrying that key, and
    /// removes the faces `a` and `b`; returns the new key.
    fn add_merged_face(&mut self, order: &Vec<EdgeKey>, a: FaceKey, b: FaceKey) -> (r: FaceKey)
        requires
            old(self).wf(),
            old(self).next_ids().2 < INVALID_ID,
        ensures
            final(self).wf(),
            final(self).vmap() == old(self).vmap(),
            final(self).emap() == old(self).emap(),
            r.key_id() == old(self).next_ids().2,
            final(self).next_ids().2 == old(self).next_ids().2 + 1,
            !old(self).fmap().dom().contains(r.key_id()),
            final(self).fmap().dom() == old(self).fmap().dom().insert(r.key_id()).remove(a.key_id()).remove(
                b.key_id(),
            ),
            forall|f: u64|
                #[trigger] final(self).fmap().dom().contains(f) && f != r.key_id() ==> final(self).fmap()[f]
                    == old(self).fmap()[f],
            final(self).fmap().dom().contains(r.key_id()) ==> final(self).fmap()[r.key_id()].id == r
                && final(self).fmap()[r.key_id()].edges@ == order@,
    {
        let mut face_edges: Vec<EdgeKey> = Vec::new();
        push_all(&mut face_edges, order);
        let new_face_key = self.faces.add(Face { id: FaceKey::invalid(), edges: face_edges });
        if let Some(new_face) = self.faces.get_mut(new_face_key) {
            new_face.id = new_face_key;
        }
        proof {
            old(self).faces.lemma_key_ids();
        }
        self.faces.remove(a);
        self.faces.remove(b);
        new_face_key
    }

    /// Makes the distinct half-edges `order`, at least three, the ring of
    /// `face`, in that order.
    fn link_ring(&mut self, edge_order: &Vec<EdgeKey>, new_face_key: FaceKey)
        requires
            old(self).wf(),
            edge_order@.len() >= 3,
            edge_order@.no_duplicates(),
            forall|j: int|
                0 <= j < edge_order@.len() ==> old(self).emap().dom().contains((#[trigger] edge_order@[j]).key_id())
                    && old(self).emap()[edge_order@[j].key_id()].id == edge_order@[j],
        ensures
            final(self).wf(),
            final(self).next_ids() == old(self).next_ids(),
            final(self).vmap() == old(self).vmap(),
            final(self).fmap() == old(self).fmap(),
            final(self).emap() == merged_edges(old(self).emap(), edge_order@, new_face_key),
    {
        let ghost emap0 = self.emap();
        let ghost order = edge_order@;
        let m = edge_order.len();
        // fix the edges
        let mut i: usize = 0;
        while i < m
            invariant
                self.wf(),
                i <= m,
                m == order.len(),
                m >= 3,
                edge_order@ == order,
                order.no_duplicates(),
                forall|j: int|
                    0 <= j < order.len() ==> emap0.dom().contains((#[trigger] order[j]).key_id())
                        && emap0[order[j].key_id()].id == order[j],
                self.next_ids() == old(self).next_ids(),
                self.vmap() == old(self).vmap(),
                self.fmap() == old(self).fmap(),
                self.emap().dom() == emap0.dom(),
                forall|j: int|
                    0 <= j < i ==> #[trigger] self.emap()[order[j].key_id()] == (Edge {
                        face: new_face_key,
                        next_edge: order[(j + 1) % (m as int)],
                        prev_edge: order[(j + m - 1) % (m as int)],
                        ..emap0[order[j].key_id()]
                    }),
                forall|id: u64|
                    (forall|j: int| 0 <= j < i ==> (#[trigger] order[j]).key_id() != id) ==> #[trigger] self.emap()[id]
                        == emap0[id],
            decreases m - i,
        {
            let edge_key = edge_order[i];
            let next_i: usize = if i + 1 == m { 0 } else { i + 1 };
            let prev_i: usize = if i == 0 { m - 1 } else { i - 1 };
            proof {
                lemma_mod_near(i + 1, m as int);
                lemma_mod_near(i + m - 1, m as int);
                assert forall|j: int| 0 <= j < i implies (#[trigger] order[j]).key_id() != edge_key.key_id() by {
                    EdgeKey::lemma_key_id(order[j], 0);
                    EdgeKey::lemma_key_id(edge_key, 0);
                }
            }
            let next_key = edge_order[next_i];
            let prev_key = edge_order[prev_i];
            if let Some(edge) = self.edges.get(edge_key) {
                let updated = Edge { face: new_face_key, next_edge: next_key, prev_edge: prev_key, ..*edge };
                self.edges.set(edge_key, updated);
            }
            i = i + 1;
        }
        proof {
            let r = new_face_key;
            assert(self.emap() =~= merged_edges(emap0, order, r)) by {
                assert forall|id: u64| #[trigger] self.emap().dom().contains(id) implies self.emap()[id]
                    == merged_edges(emap0, order, r)[id] by {
                    if exists|i: int| 0 <= i < order.len() && (#[trigger] order[i]).key_id() == id {
                        let i = choose|i: int| 0 <= i < order.len() && (#[trigger] order[i]).key_id() == id;
                        assert(self.emap()[order[i].key_id()] == self.emap()[id]);
                    }
                }
            }
        }
    }

    /// Replaces a vertex with another vertex, by key: every half-edge end at
    /// `to_replace` moves to `replacement`, and `to_replace` is removed.
    pub fn replace_vertex(&mut self, to_replace: VertexKey, replacement: VertexKey)
        requires
            old(self).wf(),
        ensures
            final(self).wf(),
            final(self).next_ids() == old(self).next_ids(),
            final(self).fmap() == old(self).fmap(),
            final(self).vmap() == old(self).vmap().remove(to_replace.key_id()),
            final(self).emap() == old(self).emap().map_values(
                |e: Edge| replace_in_edge(e, to_replace, replacement),
            ),
    {
        let keys = self.edges.iter_keys();
        proof {
            self.edges.lemma_key_ids();
        }
        let ghost ids = self.edge_ids();
        let mut i: usize = 0;
        while i < keys.len()
            invariant
                self.wf(),
                i <= keys.len(),
                keys.len() == ids.len(),
                forall|j: int| 0 <= j < keys.len() ==> (#[trigger] keys@[j]).key_id() == ids[j],
                ids == old(self).edge_ids(),
                forall|id: u64| ids.contains(id) <==> #[trigger] old(self).emap().dom().contains(id),
                ids.no_duplicates(),
                self.next_ids() == old(self).next_ids(),
                self.fmap() == old(self).fmap(),
                self.vmap() == old(self).vmap(),
                self.emap().dom() == old(self).emap().dom(),
                forall|id: u64|
                    #[trigger] self.emap().dom().contains(id) ==> self.emap()[id] == if seen_before(
                        ids,
                        i as int,
                        id,
                    ) {
                        replace_in_edge(old(self).emap()[id], to_replace, replacement)
                    } else {
                        old(self).emap()[id]
                    },
            decreases keys.len() - i,
        {
            let key = keys[i];
            let edge = *self.edges.get(key).unwrap();
            let mut changed = edge;
            if changed.origin_vertex == to_replace {
                changed.origin_vertex = replacement;
            }
            if changed.target_vertex == to_replace {
                changed.target_vertex = replacement;
            }
            self.edges.set(key, changed);
            proof {
                assert forall|id: u64| seen_before(ids, i + 1, id) <==> (seen_before(ids, i as int, id) || id == key.key_id()) by {
                    if seen_before(ids, i + 1, id) && id != key.key_id() {
                        let j = choose|j: int| 0 <= j < i + 1 && #[trigger] ids[j] == id;
                        assert(j < i);
                    }
                    if id == key.key_id() {
                        assert(ids[i as int] == id);
                    }
                }
                assert forall|id: u64| seen_before(ids, i as int, id) implies id != key.key_id() by {
                    let j = choose|j: int| 0 <= j < i && #[trigger] ids[j] == id;
                    assert(j != i);
                    assert(ids[j] != ids[i as int]);
                }
            }
            i = i + 1;
        }
        proof {
            assert forall|id: u64| #[trigger] old(self).emap().dom().contains(id) implies seen_before(ids, ids.len() as int, id) by {
                assert(ids.contains(id));
            }
        }
        self.vertices.remove(to_replace);
        assert(self.emap() =~= old(self).emap().map_values(
            |e: Edge| replace_in_edge(e, to_replace, replacement),
        ));
    }

    /// Merges a group of vertices into the one with the largest key, which
    /// it returns: every half-edge end at another vertex of the group moves
    /// to it, and the others are removed. An empty group leaves the mesh as
    /// it is.
    pub fn merge_vertex_group(&mut self, keys: &[VertexKey]) -> (r: Option<VertexKey>)
        requires
            old(self).wf(),
        ensures
            final(self).wf(),
            keys@.len() == 0 ==> r is None && *final(self) == *old(self),
            keys@.len() > 0 ==> (r matches Some(master) && {
                let moved = moved_ids(keys@, keys@.len() as int, master);
                &&& keys@.contains(master)
                &&& forall|j: int| 0 <= j < keys@.len() ==> (#[trigger] keys@[j]).key_id() <= master.key_id()
                &&& final(self).next_ids() == old(self).next_ids()
                &&& final(self).fmap() == old(self).fmap()
                &&& final(self).vmap() == old(self).vmap().remove_keys(moved)
                &&& final(self).emap() == old(self).emap().map_values(|e: Edge| redirect_edge(e, moved, master))
            }),
    {
        if keys.len() == 0 {
            return None;
        }
        let mut master = keys[0];
        assert(keys@.subrange(0, 1)[0] == master);
        let mut i: usize = 1;
        while i < keys.len()
            invariant
                1 <= i <= keys@.len(),
                keys@.subrange(0, i as int).contains(master),
                forall|j: int| 0 <= j < i ==> (#[trigger] keys@[j]).key_id() <= master.key_id(),
            decreases keys@.len() - i,
        {
            if keys[i].get() > master.get() {
                master = keys[i];
            }
            assert(keys@.subrange(0, i as int).is_prefix_of(keys@.subrange(0, i + 1)));
            assert(keys@.subrange(0, i + 1)[i as int] == keys@[i as int]);
            i = i + 1;
        }
        assert(keys@.subrange(0, i as int) =~= keys@);
        let ghost vmap0 = self.vmap();
        let ghost emap0 = self.emap();
        let mut k: usize = 0;
        while k < keys.len()
            invariant
                k <= keys@.len(),
                self.wf(),
                self.next_ids() == old(self).next_ids(),
                self.fmap() == old(self).fmap(),
                vmap0 == old(self).vmap(),
                emap0 == old(self).emap(),
                self.vmap() == vmap0.remove_keys(moved_ids(keys@, k as int, master)),
                self.emap() == emap0.map_values(|e: Edge| redirect_edge(e, moved_ids(keys@, k as int, master), master)),
            decreases keys@.len() - k,
        {
            let ghost before = moved_ids(keys@, k as int, master);
            let ghost after = moved_ids(keys@, k + 1, master);
            let key = keys[k];
            proof {
                VertexKey::lemma_key_id(key, key.key_id());
                VertexKey::lemma_key_id(master, master.key_id());
            }
            if key != master {
                let ghost prev = self.emap();
                self.replace_vertex(key, master);
                assert(after =~= before.insert(key.key_id()));
                assert(self.vmap() =~= vmap0.remove_keys(after));
                assert(self.emap() =~= emap0.map_values(|e: Edge| redirect_edge(e, after, master))) by {
                    assert forall|id: u64| #[trigger] self.emap().dom().contains(id) implies self.emap()[id] == redirect_edge(
                        emap0[id],
                        after,
                        master,
                    ) by {
                        let e = emap0[id];
                        VertexKey::lemma_key_id(e.origin_vertex, e.origin_vertex.key_id());
                        VertexKey::lemma_key_id(e.target_vertex, e.target_vertex.key_id());
                        assert(prev[id] == redirect_edge(e, before, master));
                    }
                }
            } else {
                assert(after =~= before);
            }
            k = k + 1;
        }
        Some(master)
    }
}

/// The half-edge recorded for the vertex pair `(o, t)` after recording, in
/// the order of `ids`, each half-edge under its (origin, target) pair: the
/// key of the last half-edge running from `o` to `t`.
pub open spec fn pair_owner(emap: Map<u64, Edge>, ids: Seq<u64>, o: VertexKey, t: VertexKey) -> Option<
    EdgeKey,
>
    decreases ids.len(),
{
    if ids.len() == 0 {
        None
    } else {
        let e = emap[ids.last()];
        if e.origin_vertex == o && e.target_vertex == t {
            Some(e.id)
        } else {
            pair_owner(emap, ids.drop_last(), o, t)
        }
    }
}

/// The half-edges with each twin set to the half-edge running the opposite
/// way, as recorded by `pair_owner` over `ids`.
pub open spec fn with_twins(emap: Map<u64, Edge>, ids: Seq<u64>) -> Map<u64, Edge> {
    emap.map_values(
        |e: Edge| Edge { twin_edge: pair_owner(emap, ids, e.target_vertex, e.origin_vertex), ..e },
    )
}

/// The identifiers of the vertices that some half-edge starts at.
pub open spec fn used_vertex_ids(emap: Map<u64, Edge>) -> Set<u64> {
    Set::new(
        |v: u64| exists|e: u64| #[trigger] emap.dom().contains(e) && emap[e].origin_vertex.key_id() == v,
    )
}

/// The number of members `x` of `s` for which `p(x)` holds, counted along
/// the sequence.
pub open spec fn seq_count(s: Seq<u64>, p: spec_fn(u64) -> bool) -> nat
    decreases s.len(),
{
    if s.len() == 0 {
        0
    } else {
        seq_count(s.drop_last(), p) + if p(s.last()) { 1nat } else { 0 }
    }
}

/// Counting along a sequence without repeats counts the members of its set.
pub proof fn lemma_seq_count(s: Seq<u64>, p: spec_fn(u64) -> bool)
    requires
        s.no_duplicates(),
    ensures
        seq_count(s, p) == s.to_set().filter(p).len(),
        s.to_set().filter(p).finite(),
    decreases s.len(),
{
    vstd::seq_lib::seq_to_set_is_finite(s);
    if s.len() == 0 {
        assert(s.to_set().filter(p) =~= Set::empty());
    } else {
        let init = s.drop_last();
        let x = s.last();
        assert(init.no_duplicates()) by {
            assert forall|i: int, j: int| 0 <= i < init.len() && 0 <= j < init.len() && i != j implies init[i] != init[j] by {
                assert(init[i] == s[i] && init[j] == s[j]);
            }
        }
        lemma_seq_count(init, p);
        assert(s =~= init.push(x));
        assert(!init.to_set().contains(x)) by {
            if init.to_set().contains(x) {
                let i = choose|i: int| 0 <= i < init.len() && init[i] == x;
                assert(s[i] == s[s.len() - 1]);
            }
        }
        assert(s.to_set() =~= init.to_set().insert(x));
        if p(x) {
            assert(s.to_set().filter(p) =~= init.to_set().filter(p).insert(x));
        } else {
            assert(s.to_set().filter(p) =~= init.to_set().filter(p));
        }
    }
}

/// How many times the border `b` of a face breaks off: the half-edges of `b`
/// whose next half-edge is not in `b`, plus those whose previous half-edge
/// is not in `b`. A single contiguous border breaks off exactly twice.
pub open spec fn border_breaks(emap: Map<u64, Edge>, b: Set<u64>) -> nat {
    b.filter(|e: u64| !b.contains(emap[e].next_edge.key_id())).len() + b.filter(
        |e: u64| !b.contains(emap[e].prev_edge.key_id()),
    ).len()
}

/// The vertex with its own key filled in where it held the placeholder.
pub open spec fn vertex_with_id<D>(id: u64, v: Vertex<D>) -> Vertex<D> {
    if v.id.key_id() == INVALID_ID {
        Vertex { id: VertexKey::from_id(id), data: v.data }
    } else {
        v
    }
}

/// The half-edge with its own key filled in where it held the placeholder.
pub open spec fn edge_with_id(id: u64, e: Edge) -> Edge {
    if e.id.key_id() == INVALID_ID {
        Edge { id: EdgeKey::from_id(id), ..e }
    } else {
        e
    }
}

/// The key a face holds once its own key is filled in where it held the
/// placeholder.
pub open spec fn face_id_fixed(id: u64, f: Face) -> FaceKey {
    if f.id.key_id() == INVALID_ID {
        FaceKey::from_id(id)
    } else {
        f.id
    }
}

/// The `id` of the last face, among `fids` in order, whose half-edges
/// include `k`.
pub open spec fn face_owner(fmap: Map<u64, Face>, fids: Seq<u64>, k: EdgeKey) -> Option<FaceKey>
    decreases fids.len(),
{
    if fids.len() == 0 {
        None
    } else if fmap[fids.last()].edges@.contains(k) {
        Some(fmap[fids.last()].id)
    } else {
        face_owner(fmap, fids.drop_last(), k)
    }
}

/// The half-edges with each one listed by a face given that face as parent
/// (only those holding the placeholder parent, when `only_placeholders`).
pub open spec fn with_parents(
    emap: Map<u64, Edge>,
    fmap: Map<u64, Face>,
    fids: Seq<u64>,
    only_placeholders: bool,
) -> Map<u64, Edge> {
    emap.map_entries(
        |id: u64, e: Edge|
            match face_owner(fmap, fids, EdgeKey::from_id(id)) {
                Some(f) => if !only_placeholders || e.face.key_id() == INVALID_ID {
                    Edge { face: f, ..e }
                } else {
                    e
                },
                None => e,
            },
    )
}

/// The `id` of the last of `es` starting at vertex `v`.
pub open spec fn last_origin(emap: Map<u64, Edge>, es: Seq<EdgeKey>, v: VertexKey) -> Option<EdgeKey>
    decreases es.len(),
{
    if es.len() == 0 {
        None
    } else if emap[es.last().key_id()].origin_vertex == v {
        Some(emap[es.last().key_id()].id)
    } else {
        last_origin(emap, es.drop_last(), v)
    }
}

/// The last of `prefix` whose successor in the face with half-edges `es`
/// (the last of `es` starting where it ends) is `x`.
pub open spec fn last_pointer(
    emap: Map<u64, Edge>,
    es: Seq<EdgeKey>,
    prefix: Seq<EdgeKey>,
    x: EdgeKey,
) -> Option<EdgeKey>
    decreases prefix.len(),
{
    if prefix.len() == 0 {
        None
    } else if last_origin(emap, es, emap[prefix.last().key_id()].target_vertex) == Some(x) {
        Some(prefix.last())
    } else {
        last_pointer(emap, es, prefix.drop_last(), x)
    }
}

/// A half-edge of the face with half-edges `es`, relinked: its next is the
/// last half-edge of the face starting where it ends, and its previous the
/// last half-edge of the face whose next it became (kept when there is none).
pub open spec fn relinked(emap: Map<u64, Edge>, es: Seq<EdgeKey>, k: EdgeKey) -> Edge {
    let e = emap[k.key_id()];
    Edge {
        next_edge: last_origin(emap, es, e.target_vertex)->0,
        prev_edge: match last_pointer(emap, es, es, k) {
            Some(p) => p,
            None => e.prev_edge,
        },
        ..e
    }
}

/// Whether some face lists the half-edge `k`.
pub open spec fn in_some_face(fmap: Map<u64, Face>, k: EdgeKey) -> bool {
    exists|f: u64| #[trigger] fmap.dom().contains(f) && fmap[f].edges@.contains(k)
}

/// The half-edges with those of every face relinked around the face.
pub open spec fn with_next_prev(emap: Map<u64, Edge>, fmap: Map<u64, Face>) -> Map<u64, Edge> {
    emap.map_entries(
        |id: u64, e: Edge|
            if in_some_face(fmap, EdgeKey::from_id(id)) {
                let f = choose|f: u64| #[trigger]
                    fmap.dom().contains(f) && fmap[f].edges@.contains(EdgeKey::from_id(id));
                relinked(emap, fmap[f].edges@, EdgeKey::from_id(id))
            } else {
                e
            },
    )
}

/// The documented conditions on faces for relinking their half-edges: each
/// face lists existing half-edges carrying their own keys, no half-edge is
/// listed by two faces, and each half-edge of a face ends where some
/// half-edge of that face starts.
pub open spec fn faces_consistent(emap: Map<u64, Edge>, fmap: Map<u64, Face>) -> bool {
    &&& forall|f: u64, i: int|
        #[trigger] fmap.dom().contains(f) && 0 <= i < fmap[f].edges@.len() ==> {
            let k = #[trigger] fmap[f].edges@[i];
            &&& emap.dom().contains(k.key_id())
            &&& emap[k.key_id()].id == k
            &&& last_origin(emap, fmap[f].edges@, emap[k.key_id()].target_vertex) is Some
        }
    &&& forall|f: u64, g: u64, k: EdgeKey|
        fmap.dom().contains(f) && fmap.dom().contains(g) && #[trigger] fmap[f].edges@.contains(k)
            && #[trigger] fmap[g].edges@.contains(k) ==> f == g
}

/// A half-edge of the face with half-edges `es` after relinking the first
/// `j` of them: `relinked` for the links set so far, the old links otherwise.
pub open spec fn partly_relinked(emap: Map<u64, Edge>, es: Seq<EdgeKey>, j: int, k: EdgeKey) -> Edge {
    let e = emap[k.key_id()];
    Edge {
        next_edge: if es.take(j).contains(k) {
            last_origin(emap, es, e.target_vertex)->0
        } else {
            e.next_edge
        },
        prev_edge: match last_pointer(emap, es, es.take(j), k) {
            Some(p) => p,
            None => e.prev_edge,
        },
        ..e
    }
}

/// Whether two half-edges agree on everything but their next and previous
/// links.
pub open spec fn same_but_links(a: Edge, b: Edge) -> bool {
    a.id == b.id && a.origin_vertex == b.origin_vertex && a.target_vertex == b.target_vertex
        && a.face == b.face && a.twin_edge == b.twin_edge
}

/// The half-edge found by `last_origin` is one of `es`, when the half-edges
/// of `es` carry their own keys.
pub proof fn lemma_last_origin_in(emap: Map<u64, Edge>, es: Seq<EdgeKey>, v: VertexKey)
    requires
        forall|i: int| 0 <= i < es.len() ==> emap[(#[trigger] es[i]).key_id()].id == es[i],
    ensures
        last_origin(emap, es, v) matches Some(k) ==> es.contains(k),
    decreases es.len(),
{
    if es.len() > 0 {
        let init = es.drop_last();
        assert forall|i: int| 0 <= i < init.len() implies emap[(#[trigger] init[i]).key_id()].id == init[i] by {
            assert(init[i] == es[i]);
        }
        lemma_last_origin_in(emap, init, v);
        if emap[es.last().key_id()].origin_vertex == v {
            assert(es[es.len() - 1] == es.last());
        } else if last_origin(emap, init, v) is Some {
            let k = last_origin(emap, init, v)->0;
            let i = choose|i: int| 0 <= i < init.len() && init[i] == k;
            assert(es[i] == k);
        }
    }
}

/// `last_origin` reads only the origins and keys of the half-edges of `es`.
pub proof fn lemma_last_origin_frame(e1: Map<u64, Edge>, e2: Map<u64, Edge>, es: Seq<EdgeKey>, v: VertexKey)
    requires
        forall|i: int|
            0 <= i < es.len() ==> #[trigger] e1[es[i].key_id()].origin_vertex == e2[es[i].key_id()].origin_vertex
                && e1[es[i].key_id()].id == e2[es[i].key_id()].id,
    ensures
        last_origin(e1, es, v) == last_origin(e2, es, v),
    decreases es.len(),
{
    if es.len() > 0 {
        let init = es.drop_last();
        assert forall|i: int| 0 <= i < init.len() implies #[trigger] e1[init[i].key_id()].origin_vertex
            == e2[init[i].key_id()].origin_vertex && e1[init[i].key_id()].id == e2[init[i].key_id()].id by {
            assert(init[i] == es[i]);
            assert(e1[es[i].key_id()].origin_vertex == e2[es[i].key_id()].origin_vertex);
        }
        lemma_last_origin_frame(e1, e2, init, v);
        assert(e1[es[es.len() - 1].key_id()].origin_vertex == e2[es[es.len() - 1].key_id()].origin_vertex);
    }
}

/// Applying the face map of `edge_to_face_map` gives `with_parents`.
proof fn lemma_parents_from_map(
    emap: Map<u64, Edge>,
    fmap: Map<u64, Face>,
    fids: Seq<u64>,
    map: IdMap,
    only_placeholders: bool,
)
    requires
        forall|k: u64|
            #[trigger] id_map_contents(map).dom().contains(k) <==> face_owner(fmap, fids, EdgeKey::from_id(k)) is Some,
        forall|k: u64|
            #[trigger] id_map_contents(map).dom().contains(k) ==> id_map_contents(map)[k] == face_owner(
                fmap,
                fids,
                EdgeKey::from_id(k),
            )->0.key_id(),
    ensures
        emap.map_entries(
            |id: u64, e: Edge|
                if id_map_contents(map).dom().contains(id) && (!only_placeholders || e.face.key_id()
                    == INVALID_ID) {
                    Edge { face: FaceKey::from_id(id_map_contents(map)[id]), ..e }
                } else {
                    e
                },
        ) == with_parents(emap, fmap, fids, only_placeholders),
{
    assert forall|id: u64| #[trigger] id_map_contents(map).dom().contains(id) implies FaceKey::from_id(id_map_contents(map)[id]) == face_owner(
        fmap,
        fids,
        EdgeKey::from_id(id),
    )->0 by {
        FaceKey::lemma_key_id(face_owner(fmap, fids, EdgeKey::from_id(id))->0, 0);
    }
    assert(emap.map_entries(
        |id: u64, e: Edge|
            if id_map_contents(map).dom().contains(id) && (!only_placeholders || e.face.key_id()
                == INVALID_ID) {
                Edge { face: FaceKey::from_id(id_map_contents(map)[id]), ..e }
            } else {
                e
            },
    ) =~= with_parents(emap, fmap, fids, only_placeholders));
}

/// The vertices with their own keys filled in where they held the
/// placeholder.
pub open spec fn vertices_with_ids<D>(vmap: Map<u64, Vertex<D>>) -> Map<u64, Vertex<D>> {
    vmap.map_entries(|id: u64, v: Vertex<D>| vertex_with_id(id, v))
}

/// The half-edges with their own keys filled in where they held the
/// placeholder.
pub open spec fn edges_with_ids(emap: Map<u64, Edge>) -> Map<u64, Edge> {
    emap.map_entries(|id: u64, e: Edge| edge_with_id(id, e))
}

/// The faces with their own keys filled in where they held the placeholder.
pub open spec fn faces_with_ids(fmap: Map<u64, Face>) -> Map<u64, Face> {
    fmap.map_entries(|id: u64, f: Face| Face { id: face_id_fixed(id, f), edges: f.edges })
}

/// The half-edges as `regenerate_invalid_keys` leaves them.
pub open spec fn regenerated_edges(
    emap: Map<u64, Edge>,
    fmap: Map<u64, Face>,
    eids: Seq<u64>,
    fids: Seq<u64>,
) -> Map<u64, Edge> {
    let e1 = edges_with_ids(emap);
    let f1 = faces_with_ids(fmap);
    let e2 = with_parents(e1, f1, fids, true);
    let e3 = with_parents(e2, f1, fids, false);
    let e4 = with_twins(e3, eids);
    with_next_prev(e4, f1)
}

/// Whether `w` lists the half-edges of face `f` around the face: `f` lists
/// exactly the (distinct) half-edges of `w`, at least three, each carrying its
/// own key and `f`'s key as parent, each one's next being the following one
/// (the first after the last) and each one's previous the preceding one.
pub open spec fn is_ring(emap: Map<u64, Edge>, f: Face, w: Seq<EdgeKey>) -> bool {
    let n = w.len() as int;
    &&& n >= 3
    &&& n == f.edges@.len()
    &&& w.no_duplicates()
    &&& forall|j: int| 0 <= j < n ==> w.contains(#[trigger] f.edges@[j])
    &&& forall|i: int|
        0 <= i < n ==> {
            let e = #[trigger] w[i];
            &&& f.edges@.contains(e)
            &&& emap.dom().contains(e.key_id())
            &&& emap[e.key_id()].id == e
            &&& emap[e.key_id()].face == f.id
            &&& emap[e.key_id()].next_edge == w[(i + 1) % n]
            &&& emap[e.key_id()].prev_edge == w[(i + n - 1) % n]
        }
}

/// Whether the half-edges of face `f` form a ring around it.
pub open spec fn face_ring(emap: Map<u64, Edge>, f: Face) -> bool {
    exists|w: Seq<EdgeKey>| is_ring(emap, f, w)
}

/// The identifiers of the first `t` half-edges of `w`.
pub open spec fn prefix_ids(w: Seq<EdgeKey>, t: int) -> Set<u64> {
    Set::new(|id: u64| exists|i: int| 0 <= i < t && (#[trigger] w[i]).key_id() == id)
}

proof fn lemma_prefix_ids_finite(w: Seq<EdgeKey>, t: int)
    requires
        0 <= t <= w.len(),
    ensures
        prefix_ids(w, t).finite(),
    decreases t,
{
    if t == 0 {
        assert(prefix_ids(w, 0) =~= Set::empty());
    } else {
        lemma_prefix_ids_finite(w, t - 1);
        assert(prefix_ids(w, t) =~= prefix_ids(w, t - 1).insert(w[t - 1].key_id()));
    }
}

proof fn lemma_prefix_ids(w: Seq<EdgeKey>, t: int)
    requires
        0 <= t <= w.len(),
        w.no_duplicates(),
    ensures
        prefix_ids(w, t).finite(),
        prefix_ids(w, t).len() == t,
    decreases t,
{
    if t == 0 {
        assert(prefix_ids(w, 0) =~= Set::empty());
    } else {
        lemma_prefix_ids(w, t - 1);
        assert(prefix_ids(w, t) =~= prefix_ids(w, t - 1).insert(w[t - 1].key_id()));
        if prefix_ids(w, t - 1).contains(w[t - 1].key_id()) {
            let i = choose|i: int| 0 <= i < t - 1 && (#[trigger] w[i]).key_id() == w[t - 1].key_id();
            EdgeKey::lemma_key_id(w[i], 0);
            EdgeKey::lemma_key_id(w[t - 1], 0);
            assert(w[i] == w[t - 1]);
        }
    }
}

proof fn lemma_ring_walk(emap: Map<u64, Edge>, f: Face, w: Seq<EdgeKey>, t: int)
    requires
        is_ring(emap, f, w),
        0 <= t <= w.len(),
    ensures
        face_walk(emap, f, (w.len() - t) as nat, w[t % (w.len() as int)], prefix_ids(w, t)) == Ok::<(), InvalidFaceError>(()),
    decreases w.len() - t,
{
    let n = w.len() as int;
    lemma_prefix_ids(w, t);
    if t < n {
        lemma_small_mod(t as nat, n as nat);
        lemma_ring_walk(emap, f, w, t + 1);
        let e = w[t];
        assert(emap.dom().contains(e.key_id()));
        if prefix_ids(w, t).contains(e.key_id()) {
            let i = choose|i: int| 0 <= i < t && (#[trigger] w[i]).key_id() == e.key_id();
            EdgeKey::lemma_key_id(w[i], 0);
            EdgeKey::lemma_key_id(e, 0);
            assert(w[i] == e);
        }
        assert(prefix_ids(w, t).insert(e.key_id()) =~= prefix_ids(w, t + 1));
        assert(emap[e.key_id()].next_edge == w[(t + 1) % n]);
    }
}

/// The sequence `w` rotated to start at index `i`.
pub open spec fn rotate(w: Seq<EdgeKey>, i: int) -> Seq<EdgeKey> {
    Seq::new(w.len(), |j: int| w[(i + j) % (w.len() as int)])
}

/// A ring rotated to start anywhere is still a ring of the face.
pub proof fn lemma_ring_rotate(emap: Map<u64, Edge>, f: Face, w: Seq<EdgeKey>, i: int)
    requires
        is_ring(emap, f, w),
        0 <= i < w.len(),
    ensures
        is_ring(emap, f, rotate(w, i)),
{
    let n = w.len() as int;
    let r = rotate(w, i);
    assert forall|a: int, b: int| 0 <= a < n && 0 <= b < n && a != b implies r[a] != r[b] by {
        assert((i + a) % n != (i + b) % n) by (nonlinear_arith)
            requires
                0 <= a < n,
                0 <= b < n,
                a != b,
                0 <= i < n,
        ;
    }
    assert forall|j: int| 0 <= j < n implies r.contains(#[trigger] f.edges@[j]) by {
        assert(w.contains(f.edges@[j]));
        let k = choose|k: int| 0 <= k < n && w[k] == f.edges@[j];
        let jj = if k >= i { k - i } else { k - i + n };
        assert((i + jj) % n == k) by (nonlinear_arith)
            requires
                jj == if k >= i { k - i } else { k - i + n },
                0 <= k < n,
                0 <= i < n,
        ;
        assert(r[jj] == f.edges@[j]);
    }
    assert forall|j: int| 0 <= j < n implies {
        let e = #[trigger] r[j];
        &&& f.edges@.contains(e)
        &&& emap.dom().contains(e.key_id())
        &&& emap[e.key_id()].id == e
        &&& emap[e.key_id()].face == f.id
        &&& emap[e.key_id()].next_edge == r[(j + 1) % n]
        &&& emap[e.key_id()].prev_edge == r[(j + n - 1) % n]
    } by {
        let k = (i + j) % n;
        assert(0 <= k < n);
        assert(r[j] == w[k]);
        assert((k + 1) % n == (i + (j + 1) % n) % n) by (nonlinear_arith)
            requires
                k == (i + j) % n,
                0 <= i < n,
                0 <= j < n,
        ;
        assert((k + n - 1) % n == (i + (j + n - 1) % n) % n) by (nonlinear_arith)
            requires
                k == (i + j) % n,
                0 <= i < n,
                0 <= j < n,
        ;
    }
}

/// Two rings of a face that agree up to one half-edge agree on the next.
proof fn lemma_ring_prefix(emap: Map<u64, Edge>, f: Face, w: Seq<EdgeKey>, u: Seq<EdgeKey>, k: int)
    requires
        is_ring(emap, f, w),
        is_ring(emap, f, u),
        w[0] == u[0],
        0 <= k < w.len(),
    ensures
        w[k] == u[k],
    decreases k,
{
    if k > 0 {
        let n = w.len() as int;
        lemma_ring_prefix(emap, f, w, u, k - 1);
        lemma_mod_near(k, n);
        assert(emap[w[k - 1].key_id()].next_edge == w[((k - 1) + 1) % n]);
        assert(emap[u[k - 1].key_id()].next_edge == u[((k - 1) + 1) % n]);
    }
}

/// Two rings of a face that start with the same half-edge are the same.
pub proof fn lemma_ring_same_start(emap: Map<u64, Edge>, f: Face, w: Seq<EdgeKey>, u: Seq<EdgeKey>)
    requires
        is_ring(emap, f, w),
        is_ring(emap, f, u),
        w[0] == u[0],
    ensures
        w == u,
{
    assert forall|k: int| 0 <= k < w.len() implies w[k] == u[k] by {
        lemma_ring_prefix(emap, f, w, u, k);
    }
    assert(w =~= u);
}

/// Every ring of a face is another ring of it rotated.
pub proof fn lemma_ring_is_rotation(emap: Map<u64, Edge>, f: Face, w: Seq<EdgeKey>, u: Seq<EdgeKey>) -> (q: int)
    requires
        is_ring(emap, f, w),
        is_ring(emap, f, u),
    ensures
        0 <= q < w.len(),
        u == rotate(w, q),
        w[q] == u[0],
{
    let n = w.len() as int;
    assert(u.contains(f.edges@[0]));
    let k = choose|k: int| 0 <= k < n && u[k] == f.edges@[0];
    assert(f.edges@.contains(u[0]));
    let j = choose|j: int| 0 <= j < n && f.edges@[j] == u[0];
    assert(w.contains(f.edges@[j]));
    let q = choose|q: int| 0 <= q < n && w[q] == f.edges@[j];
    lemma_ring_rotate(emap, f, w, q);
    lemma_small_mod(q as nat, n as nat);
    assert(rotate(w, q)[0] == w[q]);
    lemma_ring_same_start(emap, f, rotate(w, q), u);
    q
}

/// Whether the half-edge at index `s` of the ring `w` is in `b` and the one
/// before it is not: where a run of `b` starts.
pub open spec fn run_start(w: Seq<EdgeKey>, b: Set<u64>, s: int) -> bool {
    let n = w.len() as int;
    let before = if s == 0 {
        n - 1
    } else {
        s - 1
    };
    b.contains(w[s].key_id()) && !b.contains(w[before].key_id())
}

/// When a rotation of ring `w` starting at `q` starts with the run `b`,
/// the run starts at `q` and nowhere else.
proof fn lemma_run_start_unique(w: Seq<EdgeKey>, b: Set<u64>, w2: Seq<EdgeKey>, l2: int, q: int, s: int)
    requires
        w.len() >= 3,
        0 <= q < w.len(),
        w2 == rotate(w, q),
        is_front_arc(w2, b, l2),
        0 <= s < w.len(),
    ensures
        run_start(w, b, q),
        run_start(w, b, s) ==> s == q,
{
    let n = w.len() as int;
    lemma_small_mod(q as nat, n as nat);
    assert(w2[0] == w[q]);
    lemma_mod_near(q + n - 1, n);
    assert(w2[n - 1] == w[(q + (n - 1)) % n]);
    if run_start(w, b, s) {
        let j = if s >= q { s - q } else { s - q + n };
        lemma_mod_near(q + j, n);
        assert(w2[j] == w[s]);
        if j >= 1 {
            lemma_mod_near(q + j - 1, n);
            let before = if s == 0 { n - 1 } else { s - 1 };
            assert(w2[j - 1] == w[before]);
            assert(b.contains(w2[j].key_id()));
            assert(j < l2);
            assert(b.contains(w2[j - 1].key_id()));
        }
    }
}

/// A walk along a ring that has followed its first `step` half-edges comes
/// next to one of the face's half-edges, in the mesh, not met before, whose
/// next is the one after it.
proof fn lemma_walk_step(emap: Map<u64, Edge>, f: Face, u: Seq<EdgeKey>, w: Seq<EdgeKey>, step: int, cur: EdgeKey)
    requires
        is_ring(emap, f, u),
        0 <= step < u.len(),
        w.len() == step,
        forall|i: int| 0 <= i < step ==> #[trigger] w[i] == u[i],
        cur == u[step % (u.len() as int)],
    ensures
        cur == u[step],
        !w.contains(cur),
        f.edges@.contains(cur),
        emap.dom().contains(cur.key_id()),
        emap[cur.key_id()].id == cur,
        emap[cur.key_id()].face == f.id,
        emap[cur.key_id()].next_edge == u[(step + 1) % (u.len() as int)],
        w.push(cur) == u.subrange(0, step + 1),
{
    lemma_small_mod(step as nat, u.len() as nat);
    if w.contains(cur) {
        let i = choose|i: int| 0 <= i < step && w[i] == cur;
        assert(u[i] == u[step]);
    }
    assert(w.push(cur) =~= u.subrange(0, step + 1));
}

/// Where the half-edges `b` are a proper run of a ring of face `f`, they
/// are one in any ring `w` of `f`: the run starts at one index `q` of `w`
/// only, and `w` rotated to start there starts with the run, of length `l`.
proof fn lemma_arc_in_ring(emap: Map<u64, Edge>, f: Face, w: Seq<EdgeKey>, b: Set<u64>) -> (ql: (int, int))
    requires
        is_ring(emap, f, w),
        border_arc(emap, f, b),
    ensures
        0 <= ql.0 < w.len(),
        run_start(w, b, ql.0),
        forall|s: int| 0 <= s < w.len() && #[trigger] run_start(w, b, s) ==> s == ql.0,
        is_front_arc(rotate(w, ql.0), b, ql.1),
{
    let (w2, l2) = ring_of(emap, f, b);
    let q = lemma_ring_is_rotation(emap, f, w, w2);
    lemma_run_start_unique(w, b, w2, l2, q, q);
    assert forall|s: int| 0 <= s < w.len() && #[trigger] run_start(w, b, s) implies s == q by {
        lemma_run_start_unique(w, b, w2, l2, q, s);
    }
    (q, l2)
}

/// Half-edges met walking `next_edge` around face `f`, back to the first,
/// each with the one before it as previous and together listing all of
/// `f`'s half-edges, form a ring of `f`.
proof fn lemma_walk_ring(emap: Map<u64, Edge>, f: Face, w: Seq<EdgeKey>)
    requires
        w.len() == f.edges@.len(),
        w.len() >= 3,
        w.no_duplicates(),
        emap[w[w.len() - 1].key_id()].next_edge == w[0],
        forall|i: int|
            0 <= i < w.len() ==> {
                let e = #[trigger] w[i];
                &&& f.edges@.contains(e)
                &&& emap.dom().contains(e.key_id())
                &&& emap[e.key_id()].id == e
                &&& emap[e.key_id()].face == f.id
                &&& (i + 1 < w.len() ==> emap[e.key_id()].next_edge == w[i + 1])
            },
        forall|k: int| 0 <= k < w.len() ==> emap[(#[trigger] w[k]).key_id()].prev_edge == w[(k + w.len() - 1) % (w.len() as int)],
        forall|k: int| 0 <= k < f.edges@.len() ==> w.contains(#[trigger] f.edges@[k]),
    ensures
        is_ring(emap, f, w),
{
    let nn = w.len() as int;
    assert forall|k: int| 0 <= k < nn implies emap[(#[trigger] w[k]).key_id()].next_edge == w[(k + 1) % nn] by {
        lemma_mod_near(k + 1, nn);
    }
}

/// The ring of a face that starts with its first listed half-edge.
pub open spec fn start_ring(emap: Map<u64, Edge>, f: Face) -> Seq<EdgeKey> {
    choose|u: Seq<EdgeKey>| is_ring(emap, f, u) && u[0] == f.edges@[0]
}

/// A face bounded by a ring is bounded by one starting with its first
/// listed half-edge.
proof fn lemma_start_ring(emap: Map<u64, Edge>, f: Face)
    requires
        face_ring(emap, f),
    ensures
        is_ring(emap, f, start_ring(emap, f)),
        start_ring(emap, f)[0] == f.edges@[0],
{
    let w = choose|w: Seq<EdgeKey>| is_ring(emap, f, w);
    let n = w.len() as int;
    assert(w.contains(f.edges@[0]));
    let p = choose|p: int| 0 <= p < n && w[p] == f.edges@[0];
    lemma_ring_rotate(emap, f, w, p);
    lemma_small_mod(p as nat, n as nat);
    assert(rotate(w, p)[0] == f.edges@[0]);
}

/// A face whose half-edges form a ring passes `is_valid_face`.
pub proof fn lemma_ring_valid(emap: Map<u64, Edge>, f: Face)
    requires
        face_ring(emap, f),
    ensures
        face_check(emap, f) == Ok::<(), InvalidFaceError>(()),
{
    let w0 = choose|w: Seq<EdgeKey>| is_ring(emap, f, w);
    assert(w0.contains(f.edges@[0]));
    let i = choose|i: int| 0 <= i < w0.len() && w0[i] == f.edges@[0];
    let w = rotate(w0, i);
    lemma_ring_rotate(emap, f, w0, i);
    lemma_ring_walk(emap, f, w, 0);
    assert(prefix_ids(w, 0) =~= Set::empty());
    assert(0int % (w.len() as int) == 0);
    lemma_small_mod(i as nat, w0.len() as nat);
    assert(w[0] == w0[i % (w0.len() as int)]);
}

/// Whether the identifiers `b` are exactly those of the first `l` half-edges
/// of `w`, with `1 <= l < w.len()`: a proper run of consecutive half-edges
/// starting the ring `w`.
pub open spec fn is_front_arc(w: Seq<EdgeKey>, b: Set<u64>, l: int) -> bool {
    &&& 1 <= l < w.len()
    &&& forall|j: int| 0 <= j < w.len() ==> (b.contains((#[trigger] w[j]).key_id()) <==> j < l)
    &&& forall|id: u64| #[trigger] b.contains(id) ==> exists|j: int| 0 <= j < w.len() && (#[trigger] w[j]).key_id() == id
}

/// Whether the half-edges `b` of face `f` are a proper, contiguous run of the
/// ring of `f`: some ring of `f` starts with exactly them.
pub open spec fn border_arc(emap: Map<u64, Edge>, f: Face, b: Set<u64>) -> bool {
    exists|w: Seq<EdgeKey>, l: int| is_ring(emap, f, w) && is_front_arc(w, b, l)
}

/// A ring of face `f` that starts with the run `b`, and the run's length.
pub open spec fn ring_of(emap: Map<u64, Edge>, f: Face, b: Set<u64>) -> (Seq<EdgeKey>, int) {
    choose|w: Seq<EdgeKey>, l: int| is_ring(emap, f, w) && is_front_arc(w, b, l)
}

/// The half-edges of face `f` outside the run `b`, in ring order: from the
/// one after the run to the one before it.
pub open spec fn outer_edges(emap: Map<u64, Edge>, f: Face, b: Set<u64>) -> Seq<EdgeKey> {
    let (w, l) = ring_of(emap, f, b);
    w.subrange(l, w.len() as int)
}

/// Whether `fa` and `fb` are the same face the other way round: as many
/// half-edges, each of `fa`'s with a twin, and that twin among `fb`'s.
pub open spec fn reversed_pair(emap: Map<u64, Edge>, fa: Face, fb: Face) -> bool {
    &&& fa.edges@.len() == fb.edges@.len()
    &&& forall|i: int|
        0 <= i < fa.edges@.len() ==> (#[trigger] emap[fa.edges@[i].key_id()]).twin_edge is Some
            && twin_in(emap[fa.edges@[i].key_id()], fb.edges@)
}

/// How `merge_face_pair` leaves the mesh `before`, merging faces `a` and
/// `b` into `r`, giving `after`: when the two are the same face the other
/// way round, `b` is removed with its half-edges and `a` returned; when all
/// of one borders the other, it is removed with its half-edges and the other
/// returned; otherwise both are replaced by a new face `r`, under the next
/// identifier, bounded by their half-edges off the common border, `a`'s
/// first.
pub open spec fn merged_as<D>(before: HedgeMesh<D>, after: HedgeMesh<D>, a: FaceKey, b: FaceKey, r: FaceKey) -> bool {
    let emap = before.emap();
    let fmap = before.fmap();
    let fa = fmap[a.key_id()];
    let fb = fmap[b.key_id()];
    let ab = border_set(emap, fa, fb);
    let ba = border_set(emap, fb, fa);
    if reversed_pair(emap, fa, fb) {
        &&& r == a
        &&& after.fmap() == fmap.remove(b.key_id())
        &&& after.emap() == remove_edges(emap, fb.edges@)
    } else if ab.len() == fa.edges@.len() {
        &&& r == b
        &&& after.fmap() == fmap.remove(a.key_id())
        &&& after.emap() == remove_edges(emap, fa.edges@)
    } else if ba.len() == fb.edges@.len() {
        &&& r == a
        &&& after.fmap() == fmap.remove(b.key_id())
        &&& after.emap() == remove_edges(emap, fb.edges@)
    } else {
        let order = outer_edges(emap, fa, ab) + outer_edges(emap, fb, ba);
        &&& r.key_id() == before.next_ids().2
        &&& after.fmap().dom()
            == fmap.dom().remove(a.key_id()).remove(b.key_id()).insert(r.key_id())
        &&& forall|f: u64|
            #[trigger] after.fmap().dom().contains(f) && f != r.key_id()
                ==> after.fmap()[f] == fmap[f]
        &&& after.fmap()[r.key_id()].id == r
        &&& after.fmap()[r.key_id()].edges@ == order
        &&& after.emap() == merged_edges(emap, order, r)
        &&& face_ring(after.emap(), after.fmap()[r.key_id()])
        &&& face_check(after.emap(), after.fmap()[r.key_id()]) == Ok::<(), InvalidFaceError>(())
    }
}

/// The conditions under which `merge_face_pair(a, b)` merges without
/// panicking: two distinct faces carrying their own keys, each bounded by a
/// ring of half-edges, adjacent, with the border of `a` along `b` one
/// proper contiguous run; and, when the faces are actually merged, the
/// border of `b` along `a` a proper contiguous run too, not both faces
/// having a single half-edge off the border.
pub open spec fn merge_pair_safe(emap: Map<u64, Edge>, fmap: Map<u64, Face>, a: FaceKey, b: FaceKey) -> bool {
    let fa = fmap[a.key_id()];
    let fb = fmap[b.key_id()];
    let ab = border_set(emap, fa, fb);
    let ba = border_set(emap, fb, fa);
    &&& a != b
    &&& fmap.dom().contains(a.key_id())
    &&& fmap.dom().contains(b.key_id())
    &&& fa.id == a
    &&& fb.id == b
    &&& face_ring(emap, fa)
    &&& face_ring(emap, fb)
    &&& borders(emap, fa, fb)
    &&& border_arc(emap, fa, ab)
    &&& (!reversed_pair(emap, fa, fb) && ba.len() != fb.edges@.len()) ==> {
        &&& border_arc(emap, fb, ba)
        &&& !(ab.len() + 1 == fa.edges@.len() && ba.len() + 1 == fb.edges@.len())
    }
}

/// How the faces change when faces `a` and `b` merge into `r`: one of the
/// two is removed and the other returned, or both are removed and a new face
/// `r`, under the next identifier, is added.
pub open spec fn pair_outcome(fmap: Map<u64, Face>, after: Map<u64, Face>, a: u64, b: u64, r: u64, next: u64) -> bool {
    ||| r == a && after == fmap.remove(b)
    ||| r == b && after == fmap.remove(a)
    ||| {
        &&& r == next
        &&& !fmap.dom().contains(r)
        &&& after.dom() == fmap.dom().remove(a).remove(b).insert(r)
        &&& forall|f: u64| #[trigger] after.dom().contains(f) && f != r ==> after[f] == fmap[f]
    }
}

/// The half-edges with those of `order` made the ring of face `r`, in that
/// order.
pub open spec fn merged_edges(emap: Map<u64, Edge>, order: Seq<EdgeKey>, r: FaceKey) -> Map<u64, Edge> {
    emap.map_entries(
        |id: u64, e: Edge|
            if exists|i: int| 0 <= i < order.len() && (#[trigger] order[i]).key_id() == id {
                let i = choose|i: int| 0 <= i < order.len() && (#[trigger] order[i]).key_id() == id;
                let m = order.len() as int;
                Edge { face: r, next_edge: order[(i + 1) % m], prev_edge: order[(i + m - 1) % m], ..e }
            } else {
                e
            },
    )
}

/// The half-edges of two faces' rings, off two runs, listed one after the
/// other, are distinct and in the mesh under their own keys.
proof fn lemma_outer_distinct(
    emap: Map<u64, Edge>,
    fa: Face,
    wa: Seq<EdgeKey>,
    la: int,
    fb: Face,
    wb: Seq<EdgeKey>,
    lb: int,
)
    requires
        is_ring(emap, fa, wa),
        is_ring(emap, fb, wb),
        0 <= la < wa.len(),
        0 <= lb < wb.len(),
        fa.id != fb.id,
    ensures
        ({
            let order = wa.subrange(la, wa.len() as int) + wb.subrange(lb, wb.len() as int);
            &&& order.no_duplicates()
            &&& forall|j: int|
                0 <= j < order.len() ==> emap.dom().contains((#[trigger] order[j]).key_id())
                    && emap[order[j].key_id()].id == order[j]
            &&& forall|j: int|
                0 <= j < order.len() ==> emap[(#[trigger] order[j]).key_id()].face == if j < wa.len() - la {
                    fa.id
                } else {
                    fb.id
                }
        }),
{
    let oa = wa.subrange(la, wa.len() as int);
    let ob = wb.subrange(lb, wb.len() as int);
    let order = oa + ob;
    assert forall|j: int| 0 <= j < order.len() implies {
        &&& emap.dom().contains((#[trigger] order[j]).key_id())
        &&& emap[order[j].key_id()].id == order[j]
        &&& emap[order[j].key_id()].face == if j < wa.len() - la { fa.id } else { fb.id }
    } by {
        if j < oa.len() {
            assert(order[j] == wa[la + j]);
        } else {
            assert(order[j] == wb[lb + j - oa.len()]);
        }
    }
    assert forall|i: int, j: int| 0 <= i < j < order.len() implies order[i] != order[j] by {
        if j < oa.len() {
            assert(order[i] == wa[la + i] && order[j] == wa[la + j]);
        } else if i >= oa.len() {
            assert(order[i] == wb[lb + i - oa.len()] && order[j] == wb[lb + j - oa.len()]);
        } else {
            assert(emap[order[i].key_id()].face == fa.id);
            assert(emap[order[j].key_id()].face == fb.id);
        }
    }
}

/// Distinct half-edges in the mesh under their own keys, at least three,
/// made the ring of face `f` by `merged_edges`, form a ring of `f`.
proof fn lemma_merged_ring(emap: Map<u64, Edge>, order: Seq<EdgeKey>, r: FaceKey, f: Face)
    requires
        order.len() >= 3,
        order.no_duplicates(),
        f.id == r,
        f.edges@ == order,
        forall|j: int|
            0 <= j < order.len() ==> emap.dom().contains((#[trigger] order[j]).key_id())
                && emap[order[j].key_id()].id == order[j],
    ensures
        is_ring(merged_edges(emap, order, r), f, order),
{
    let m = order.len() as int;
    let me = merged_edges(emap, order, r);
    assert forall|j: int| 0 <= j < m implies order.contains(#[trigger] f.edges@[j]) by {
        assert(order[j] == f.edges@[j]);
    }
    assert forall|i: int| 0 <= i < m implies {
        let e = #[trigger] order[i];
        &&& f.edges@.contains(e)
        &&& me.dom().contains(e.key_id())
        &&& me[e.key_id()].id == e
        &&& me[e.key_id()].face == f.id
        &&& me[e.key_id()].next_edge == order[(i + 1) % m]
        &&& me[e.key_id()].prev_edge == order[(i + m - 1) % m]
    } by {
        let e = order[i];
        let id = e.key_id();
        assert(f.edges@[i] == e);
        assert(exists|k: int| 0 <= k < order.len() && (#[trigger] order[k]).key_id() == id);
        let k = choose|k: int| 0 <= k < order.len() && (#[trigger] order[k]).key_id() == id;
        EdgeKey::lemma_key_id(order[k], 0);
        EdgeKey::lemma_key_id(e, 0);
        assert(order[k] == e);
        assert(k == i);
    }
}

/// The tail `w[l..]` of a ring, cut into its last half-edge, its first one
/// and those between (one half-edge when the first is the last).
proof fn lemma_outer_split(w: Seq<EdgeKey>, l: int, pre: EdgeKey, post: EdgeKey, other: Seq<EdgeKey>)
    requires
        1 <= l < w.len(),
        w.no_duplicates(),
        pre == w[w.len() - 1],
        post == w[l],
        other == Seq::new(
            (if w.len() - l >= 2 { w.len() - l - 2 } else { w.len() - 1 }) as nat,
            |u: int| w[(l + 1 + u) % (w.len() as int)],
        ),
    ensures
        ({
            let outer = w.subrange(l, w.len() as int);
            &&& outer.len() >= 1
            &&& (pre == post) == (outer.len() == 1)
            &&& outer.len() == 1 ==> outer == seq![pre]
            &&& outer.len() > 1 ==> outer == seq![post] + other + seq![pre]
        }),
{
    let n = w.len() as int;
    let outer = w.subrange(l, n);
    assert((pre == post) == (l == n - 1)) by {
        if pre == post && l != n - 1 {
            assert(w[l] == w[n - 1]);
        }
    }
    if l < n - 1 {
        assert(other =~= w.subrange(l + 1, n - 1)) by {
            assert forall|u: int| 0 <= u < n - l - 2 implies other[u] == w[l + 1 + u] by {
                lemma_small_mod((l + 1 + u) as nat, n as nat);
            }
        }
        assert(outer =~= seq![post] + other + seq![pre]);
    } else {
        assert(outer =~= seq![pre]);
    }
}

/// A run `b` at the front of a ring has as many identifiers as half-edges.
proof fn lemma_front_arc_len(w: Seq<EdgeKey>, b: Set<u64>, l: int)
    requires
        w.no_duplicates(),
        is_front_arc(w, b, l),
    ensures
        b.finite(),
        b.len() == l,
{
    assert(b =~= prefix_ids(w, l)) by {
        assert forall|id: u64| b.contains(id) implies prefix_ids(w, l).contains(id) by {
            let j = choose|j: int| 0 <= j < w.len() && (#[trigger] w[j]).key_id() == id;
            assert(b.contains(w[j].key_id()));
        }
    }
    lemma_prefix_ids(w, l);
}

/// The border of one face along another is finite.
proof fn lemma_border_finite(emap: Map<u64, Edge>, fa: Face, fb: Face)
    ensures
        border_set(emap, fa, fb).finite(),
{
    lemma_prefix_ids_finite(fa.edges@, fa.edges@.len() as int);
    assert(border_set(emap, fa, fb).subset_of(prefix_ids(fa.edges@, fa.edges@.len() as int)));
    vstd::set_lib::lemma_set_subset_finite(prefix_ids(fa.edges@, fa.edges@.len() as int), border_set(emap, fa, fb));
}

/// `x % n` for `x` within one period of `[0, n)`.
proof fn lemma_mod_near(x: int, n: int)
    requires
        0 < n,
        -n <= x < 2 * n,
    ensures
        x % n == if x < 0 {
            x + n
        } else if x < n {
            x
        } else {
            x - n
        },
{
    if x < 0 {
        lemma_fundamental_div_mod_converse(x, n, -1, x + n);
    } else if x < n {
        lemma_fundamental_div_mod_converse(x, n, 0, x);
    } else {
        lemma_fundamental_div_mod_converse(x, n, 1, x - n);
    }
}

/// The half-edges of a face bounded by a ring are all in the mesh.
pub proof fn lemma_ring_edges_exist(emap: Map<u64, Edge>, f: Face)
    requires
        face_ring(emap, f),
    ensures
        forall|j: int| 0 <= j < f.edges@.len() ==> emap.dom().contains((#[trigger] f.edges@[j]).key_id()),
{
    let w = choose|w: Seq<EdgeKey>| is_ring(emap, f, w);
    assert forall|j: int| 0 <= j < f.edges@.len() implies emap.dom().contains((#[trigger] f.edges@[j]).key_id()) by {
        assert(w.contains(f.edges@[j]));
        let i = choose|i: int| 0 <= i < w.len() && w[i] == f.edges@[j];
        assert(emap.dom().contains(w[i].key_id()));
    }
}

/// Whether `n` is a face of `m` across a half-edge of face `f` of `m`,
/// sharing one contiguous border with it.
pub open spec fn contiguous_neighbors<D>(m: HedgeMesh<D>, f: FaceKey, n: FaceKey) -> bool {
    &&& m.fmap().dom().contains(f.key_id())
    &&& m.fmap().dom().contains(n.key_id())
    &&& twin_faces(m.emap(), m.fmap()[f.key_id()].edges@).contains(n)
    &&& border_breaks(m.emap(), border_set(m.emap(), m.fmap()[f.key_id()], m.fmap()[n.key_id()])) == 2
}

/// Whether `after` is `before` with one pair merged by `merge_face_pair`:
/// a face and a neighbor sharing one contiguous border with it, which the
/// coplanarity test called coplanar with the face.
pub open spec fn merge_step<D, C>(before: HedgeMesh<D>, coplanar: C, after: HedgeMesh<D>) -> bool where
    C: Fn(&HedgeMesh<D>, FaceKey, FaceKey) -> bool,
 {
    exists|a: FaceKey, b: FaceKey, r: FaceKey|
        #[trigger] merged_as(before, after, a, b, r) && contiguous_neighbors(before, a, b) && call_ensures(
            coplanar,
            (&before, a, b),
            true,
        )
}

/// Whether, for every face of `m` and every neighbor sharing one contiguous
/// border with it, the coplanarity test can call the two not coplanar.
pub open spec fn none_to_merge<D, C>(m: HedgeMesh<D>, coplanar: C) -> bool where C: Fn(&HedgeMesh<D>, FaceKey, FaceKey) -> bool {
    forall|f: FaceKey, n: FaceKey| #[trigger] contiguous_neighbors(m, f, n) ==> call_ensures(coplanar, (&m, f, n), false)
}

/// Whether merging coplanar faces of `m` cannot go on: a face is missing
/// one of its half-edges or twins, or has a neighbor missing from `m`, or
/// two neighbors the coplanarity test can call coplanar, sharing one
/// contiguous border, cannot be merged.
pub open spec fn merging_blocked<D, C>(m: HedgeMesh<D>, coplanar: C) -> bool where C: Fn(&HedgeMesh<D>, FaceKey, FaceKey) -> bool {
    ||| exists|f: FaceKey| m.fmap().dom().contains(f.key_id()) && !#[trigger] m.well_linked(f)
    ||| exists|f: FaceKey, n: FaceKey|
        m.fmap().dom().contains(f.key_id()) && #[trigger] twin_faces(m.emap(), m.fmap()[f.key_id()].edges@).contains(n)
            && !m.fmap().dom().contains(n.key_id())
    ||| exists|f: FaceKey, n: FaceKey|
        #[trigger] contiguous_neighbors(m, f, n) && call_ensures(coplanar, (&m, f, n), true) && !merge_pair_safe(
            m.emap(),
            m.fmap(),
            f,
            n,
        )
}

/// How a round of merging coplanar faces ends.
enum RoundEnd {
    /// A pair was merged.
    Merged,
    /// No pair was found.
    Nothing,
    /// Merging cannot go on.
    Blocked,
}

impl<D> HedgeMesh<D> {
    /// Finds, among the neighbors of `face` in order, the first that the
    /// coplanarity test calls coplanar with it and that shares one
    /// contiguous border with it; `Err` at a neighbor called coplanar that
    /// is missing from the mesh.
    fn find_coplanar_partner<C>(&self, face: FaceKey, coplanar: &C) -> (r: Result<Option<FaceKey>, ()>) where
        C: Fn(&HedgeMesh<D>, FaceKey, FaceKey) -> bool,

        requires
            self.well_linked(face),
            forall|m: &HedgeMesh<D>, a: FaceKey, b: FaceKey| coplanar.requires((m, a, b)),
        ensures
            r matches Ok(Some(n)) ==> contiguous_neighbors(*self, face, n) && call_ensures(*coplanar, (self, face, n), true),
            r is Err ==> exists|n: FaceKey|
                #[trigger] twin_faces(self.emap(), self.fmap()[face.key_id()].edges@).contains(n) && !self.fmap().dom().contains(
                    n.key_id(),
                ),
            r matches Ok(None) ==> forall|n: FaceKey|
                #[trigger] contiguous_neighbors(*self, face, n) ==> call_ensures(*coplanar, (self, face, n), false),
    {
        let neighbors = self.face_neighbors(face);
        let ghost ns = neighbors@;
        let mut j: usize = 0;
        while j < neighbors.len()
            invariant
                j <= ns.len(),
                ns == neighbors@,
                ns == twin_faces(self.emap(), self.fmap()[face.key_id()].edges@),
                self.well_linked(face),
                forall|m: &HedgeMesh<D>, a: FaceKey, b: FaceKey| coplanar.requires((m, a, b)),
                forall|k: int|
                    0 <= k < j && #[trigger] contiguous_neighbors(*self, face, ns[k]) ==> call_ensures(
                        *coplanar,
                        (self, face, ns[k]),
                        false,
                    ),
            decreases ns.len() - j,
        {
            let n = neighbors[j];
            assert(ns.contains(ns[j as int]));
            if coplanar(self, face, n) {
                if !self.faces.contains(n) {
                    return Err(());
                }
                if self.faces_share_contiguous_border(face, n) {
                    return Ok(Some(n));
                }
            }
            j = j + 1;
        }
        proof {
            assert forall|n: FaceKey| #[trigger] contiguous_neighbors(*self, face, n) implies call_ensures(*coplanar, (self, face, n), false) by {
                let k = choose|k: int| 0 <= k < ns.len() && ns[k] == n;
                assert(contiguous_neighbors(*self, face, ns[k]));
            }
        }
        Ok(None)
    }

    /// Merges adjacent coplanar faces, a pair a round, while `keep_merging`,
    /// given the number of pairs merged so far and the number of faces at
    /// the start, says to go on. A round tries first the faces that earlier
    /// rounds made, then all faces by key, and merges the first one with a
    /// neighbor that `coplanar` calls coplanar with it and that shares one
    /// contiguous border with it. Merging stops when a round finds no such
    /// pair, and also, leaving the mesh as it is, at a face missing one of
    /// its half-edges or twins, at a neighbor called coplanar that is missing
    /// from the mesh, or at a pair that cannot be merged. Each round that
    /// merges leaves the mesh as `merge_face_pair` leaves it.
    pub fn merge_coplanar_faces<C, K>(&mut self, coplanar: &C, keep_merging: &K) where
        C: Fn(&HedgeMesh<D>, FaceKey, FaceKey) -> bool,
        K: Fn(usize, usize) -> bool,

        requires
            old(self).wf(),
            old(self).next_ids().2 + old(self).fmap().dom().len() < INVALID_ID,
            forall|m: &HedgeMesh<D>, a: FaceKey, b: FaceKey| coplanar.requires((m, a, b)),
            forall|merged: usize, original: usize| keep_merging.requires((merged, original)),
        ensures
            final(self).wf(),
            final(self).vmap() == old(self).vmap(),
            final(self).fmap().dom().len() <= old(self).fmap().dom().len(),
            ({
                let original = old(self).fmap().dom().len();
                let merged = (original - final(self).fmap().dom().len()) as usize;
                ||| call_ensures(*keep_merging, (merged, original as usize), false)
                ||| none_to_merge(*final(self), *coplanar)
                ||| merging_blocked(*final(self), *coplanar)
            }),
            exists|trace: Seq<HedgeMesh<D>>|
                {
                    &&& trace.len() + final(self).fmap().dom().len() == old(self).fmap().dom().len() + 1
                    &&& trace[0] == *old(self)
                    &&& trace.last() == *final(self)
                    &&& forall|j: int| 0 <= j < trace.len() - 1 ==> #[trigger] merge_step(trace[j], *coplanar, trace[j + 1])
                },
    {
        let original_count = self.faces.len();
        let ghost mut trace: Seq<HedgeMesh<D>> = seq![*self];
        proof {
            self.lemma_ids();
        }
        let mut merged_count: usize = 0;
        let mut merged_faces = IdSet::new();
        loop
            invariant
                self.wf(),
                self.vmap() == old(self).vmap(),
                original_count == old(self).fmap().dom().len(),
                self.fmap().dom().len() + merged_count == original_count,
                self.next_ids().2 + self.fmap().dom().len() < INVALID_ID,
                forall|x: u64| #[trigger] id_set_contents(merged_faces).contains(x) ==> self.fmap().dom().contains(x),
                forall|m: &HedgeMesh<D>, a: FaceKey, b: FaceKey| coplanar.requires((m, a, b)),
                forall|merged: usize, original: usize| keep_merging.requires((merged, original)),
                trace.len() == merged_count + 1,
                trace[0] == *old(self),
                trace.last() == *self,
                forall|j: int| 0 <= j < trace.len() - 1 ==> #[trigger] merge_step(trace[j], *coplanar, trace[j + 1]),
            ensures
                self.wf(),
                self.vmap() == old(self).vmap(),
                self.fmap().dom().len() + merged_count == original_count,
                trace.len() == merged_count + 1,
                trace[0] == *old(self),
                trace.last() == *self,
                forall|j: int| 0 <= j < trace.len() - 1 ==> #[trigger] merge_step(trace[j], *coplanar, trace[j + 1]),
                original_count == old(self).fmap().dom().len(),
                ({
                    ||| call_ensures(*keep_merging, (merged_count, original_count), false)
                    ||| none_to_merge(*self, *coplanar)
                    ||| merging_blocked(*self, *coplanar)
                }),
            decreases self.fmap().dom().len(),
        {
            if !keep_merging(merged_count, original_count) {
                break;
            }
            proof {
                self.lemma_ids();
            }
            let ghost before = *self;
            match self.merge_round(&mut merged_faces, coplanar) {
                RoundEnd::Merged => {
                    merged_count = merged_count + 1;
                    proof {
                        let tr = trace.push(*self);
                        assert forall|j: int| 0 <= j < tr.len() - 1 implies #[trigger] merge_step(tr[j], *coplanar, tr[j + 1]) by {
                            if j < trace.len() - 1 {
                                assert(tr[j] == trace[j] && tr[j + 1] == trace[j + 1]);
                            } else {
                                assert(tr[j] == before && tr[j + 1] == *self);
                            }
                        }
                        trace = tr;
                    }
                },
                RoundEnd::Nothing => {
                    break;
                },
                RoundEnd::Blocked => {
                    break;
                },
            }
        }
    }

    /// One round of merging coplanar faces: tries the faces of `merged`,
    /// then all faces, and merges the first with a neighbor that the
    /// coplanarity test calls coplanar with it and that shares one
    /// contiguous border with it; the merged face then takes the place of
    /// the two in `merged`. Stops, leaving the mesh as it is, at a face
    /// missing one of its half-edges or twins, at a neighbor called
    /// coplanar that is missing, or at a pair that cannot be merged.
    fn merge_round<C>(&mut self, merged: &mut IdSet, coplanar: &C) -> (r: RoundEnd) where
        C: Fn(&HedgeMesh<D>, FaceKey, FaceKey) -> bool,

        requires
            old(self).wf(),
            old(self).next_ids().2 < INVALID_ID,
            forall|m: &HedgeMesh<D>, a: FaceKey, b: FaceKey| coplanar.requires((m, a, b)),
            forall|x: u64| #[trigger] id_set_contents(*old(merged)).contains(x) ==> old(self).fmap().dom().contains(x),
        ensures
            final(self).wf(),
            final(self).vmap() == old(self).vmap(),
            forall|x: u64| #[trigger] id_set_contents(*final(merged)).contains(x) ==> final(self).fmap().dom().contains(x),
            r is Merged ==> final(self).fmap().dom().len() + 1 == old(self).fmap().dom().len() && final(self).next_ids().2
                <= old(self).next_ids().2 + 1,
            !(r is Merged) ==> *final(self) == *old(self),
            r is Merged ==> merge_step(*old(self), *coplanar, *final(self)),
            r is Nothing ==> none_to_merge(*old(self), *coplanar),
            r is Blocked ==> merging_blocked(*old(self), *coplanar),
    {
        let cands = self.round_candidates(merged);
        proof {
            self.lemma_ids();
        }
        let mut k: usize = 0;
        while k < cands.len()
            invariant
                k <= cands@.len(),
                self.wf(),
                forall|m: &HedgeMesh<D>, a: FaceKey, b: FaceKey| coplanar.requires((m, a, b)),
                forall|j: int| 0 <= j < cands@.len() ==> self.fmap().dom().contains((#[trigger] cands@[j]).key_id()),
                forall|f: FaceKey| self.fmap().dom().contains(f.key_id()) ==> #[trigger] cands@.contains(f),
                forall|j: int, n: FaceKey|
                    0 <= j < k && #[trigger] contiguous_neighbors(*self, cands@[j], n) ==> call_ensures(
                        *coplanar,
                        (&*self, cands@[j], n),
                        false,
                    ),
                *self == *old(self),
                *merged == *old(merged),
                self.next_ids().2 < INVALID_ID,
                forall|x: u64| #[trigger] id_set_contents(*merged).contains(x) ==> self.fmap().dom().contains(x),
            decreases cands@.len() - k,
        {
            let face = cands[k];
            if !self.face_well_linked(face) {
                assert(self.fmap().dom().contains(cands@[k as int].key_id()));
                return RoundEnd::Blocked;
            }
            match self.find_coplanar_partner(face, coplanar) {
                Err(()) => {
                    assert(self.fmap().dom().contains(cands@[k as int].key_id()));
                    return RoundEnd::Blocked;
                },
                Ok(None) => {},
                Ok(Some(n)) => {
                    if !self.can_merge_pair(face, n) {
                        return RoundEnd::Blocked;
                    }
                    self.merge_tracked(merged, face, n);
                    return RoundEnd::Merged;
                },
            }
            k = k + 1;
        }
        proof {
            assert forall|f: FaceKey, n: FaceKey| #[trigger] contiguous_neighbors(*self, f, n) implies call_ensures(
                *coplanar,
                (&*self, f, n),
                false,
            ) by {
                assert(cands@.contains(f));
                let j = choose|j: int| 0 <= j < cands@.len() && cands@[j] == f;
                assert(contiguous_neighbors(*self, cands@[j], n));
            }
        }
        RoundEnd::Nothing
    }

    /// Merges faces `a` and `b`, and puts the merged face in their place in
    /// `merged`.
    #[verifier::spinoff_prover]
    fn merge_tracked(&mut self, merged: &mut IdSet, a: FaceKey, b: FaceKey)
        requires
            old(self).wf(),
            old(self).next_ids().2 < INVALID_ID,
            merge_pair_safe(old(self).emap(), old(self).fmap(), a, b),
            forall|x: u64| #[trigger] id_set_contents(*old(merged)).contains(x) ==> old(self).fmap().dom().contains(x),
        ensures
            final(self).wf(),
            final(self).vmap() == old(self).vmap(),
            forall|x: u64| #[trigger] id_set_contents(*final(merged)).contains(x) ==> final(self).fmap().dom().contains(x),
            final(self).fmap().dom().len() + 1 == old(self).fmap().dom().len(),
            final(self).next_ids().2 <= old(self).next_ids().2 + 1,
            exists|r: FaceKey| #[trigger] merged_as(*old(self), *final(self), a, b, r),
    {
        proof {
            self.lemma_ids();
        }
        let ghost f0 = self.fmap();
        let ghost before = id_set_contents(*merged);
        let ghost next0 = self.next_ids().2;
        let new_face = self.merge_face_pair(a, b);
        assert(merged_as(*old(self), *self, a, b, new_face));
        merged.insert(new_face.get());
        merged.remove(b.get());
        merged.remove(a.get());
        proof {
            let f1 = self.fmap();
            assert(f0.dom().contains(a.key_id()) && f0.dom().contains(b.key_id()) && a != b);
            FaceKey::lemma_key_id(a, a.key_id());
            FaceKey::lemma_key_id(b, b.key_id());
            assert(a.key_id() != b.key_id());
            lemma_pair_outcome_len(f0, f1, a.key_id(), b.key_id(), new_face.key_id(), next0);
            assert forall|x: u64| #[trigger] id_set_contents(*merged).contains(x) implies f1.dom().contains(x) by {
                if x != new_face.key_id() {
                    assert(before.contains(x));
                    assert(x != a.key_id() && x != b.key_id());
                }
            }
        }
    }

    /// The faces to try in a round of merging coplanar faces: those of
    /// `merged`, in the order its set lists them, then all faces by key.
    fn round_candidates(&self, merged: &IdSet) -> (r: Vec<FaceKey>)
        requires
            self.wf(),
            forall|x: u64| #[trigger] id_set_contents(*merged).contains(x) ==> self.fmap().dom().contains(x),
        ensures
            forall|j: int| 0 <= j < r@.len() ==> self.fmap().dom().contains((#[trigger] r@[j]).key_id()),
            forall|f: FaceKey| self.fmap().dom().contains(f.key_id()) ==> #[trigger] r@.contains(f),
    {
        let members = merged.to_vec();
        let mut r: Vec<FaceKey> = Vec::new();
        let mut i: usize = 0;
        while i < members.len()
            invariant
                i <= members@.len(),
                members@.to_set() == id_set_contents(*merged),
                forall|x: u64| #[trigger] id_set_contents(*merged).contains(x) ==> self.fmap().dom().contains(x),
                forall|j: int| 0 <= j < r@.len() ==> self.fmap().dom().contains((#[trigger] r@[j]).key_id()),
            decreases members@.len() - i,
        {
            assert(members@.to_set().contains(members@[i as int]));
            r.push(FaceKey::new(members[i]));
            i = i + 1;
        }
        let all = self.faces();
        proof {
            self.lemma_ids();
        }
        let ghost before = r@;
        let mut k: usize = 0;
        while k < all.len()
            invariant
                k <= all@.len(),
                all@.len() == self.face_ids().len(),
                forall|i: int| 0 <= i < all@.len() ==> (#[trigger] all@[i]).key_id() == self.face_ids()[i],
                forall|id: u64| self.face_ids().contains(id) <==> #[trigger] self.fmap().dom().contains(id),
                forall|j: int| 0 <= j < r@.len() ==> self.fmap().dom().contains((#[trigger] r@[j]).key_id()),
                r@.len() == before.len() + k,
                forall|i: int| 0 <= i < k ==> r@[before.len() + i] == #[trigger] all@[i],
            decreases all@.len() - k,
        {
            assert(self.face_ids().contains(self.face_ids()[k as int]));
            r.push(all[k]);
            k = k + 1;
        }
        proof {
            assert forall|f: FaceKey| self.fmap().dom().contains(f.key_id()) implies #[trigger] r@.contains(f) by {
                assert(self.face_ids().contains(f.key_id()));
                let i = choose|i: int| 0 <= i < self.face_ids().len() && self.face_ids()[i] == f.key_id();
                FaceKey::lemma_key_id(f, f.key_id());
                FaceKey::lemma_key_id(all@[i], all@[i].key_id());
                assert(all@[i] == f);
                assert(r@[before.len() + i] == f);
            }
        }
        r
    }
}

/// Whether `id` is among the first `n` of `ids`.
pub open spec fn seen_before(ids: Seq<u64>, n: int, id: u64) -> bool {
    exists|j: int| 0 <= j < n && #[trigger] ids[j] == id
}

/// Appends the keys of `extra` to `v`.
pub fn push_all(v: &mut Vec<EdgeKey>, extra: &Vec<EdgeKey>)
    ensures
        final(v)@ == old(v)@ + extra@,
{
    let mut i: usize = 0;
    while i < extra.len()
        invariant
            i <= extra.len(),
            v@ == old(v)@ + extra@.take(i as int),
        decreases extra.len() - i,
    {
        v.push(extra[i]);
        i = i + 1;
        assert(v@ =~= old(v)@ + extra@.take(i as int));
    }
    assert(extra@.take(extra.len() as int) =~= extra@);
}

/// The one identifier of a set that holds exactly one.
fn sole_member(set: &IdSet) -> (r: Option<u64>)
    ensures
        r is Some <==> id_set_contents(*set).len() == 1,
        r matches Some(x) ==> forall|y: u64| #[trigger] id_set_contents(*set).contains(y) <==> y == x,
{
    if set.len() != 1 {
        return None;
    }
    let members = set.to_vec();
    proof {
        members@.unique_seq_to_set();
    }
    let x = members[0];
    proof {
        assert forall|y: u64| #[trigger] id_set_contents(*set).contains(y) <==> y == x by {
            if id_set_contents(*set).contains(y) {
                assert(members@.to_set().contains(y));
                let j = choose|j: int| 0 <= j < members@.len() && members@[j] == y;
                assert(j == 0);
            }
            if y == x {
                assert(members@.to_set().contains(x));
            }
        }
    }
    Some(x)
}

/// Finds where a run of `border` starts in the ring `w`: a half-edge in
/// `border` after one that is not.
fn find_run_start(w: &Vec<EdgeKey>, border: &IdSet) -> (r: Option<usize>)
    requires
        w@.len() >= 3,
    ensures
        r matches Some(s) ==> s < w@.len() && run_start(w@, id_set_contents(*border), s as int),
        r is None ==> forall|s: int| 0 <= s < w@.len() ==> !#[trigger] run_start(w@, id_set_contents(*border), s),
{
    let ghost b = id_set_contents(*border);
    let n = w.len();
    let mut start: usize = 0;
    while start < n
        invariant
            start <= n,
            n == w@.len(),
            n >= 3,
            b == id_set_contents(*border),
            forall|s: int| 0 <= s < start ==> !#[trigger] run_start(w@, b, s),
        decreases n - start,
    {
        let before = if start == 0 {
            n - 1
        } else {
            start - 1
        };
        if border.contains(w[start].get()) && !border.contains(w[before].get()) {
            return Some(start);
        }
        start = start + 1;
    }
    None
}

/// The ring `w` rotated to start at index `start`.
fn rotate_vec(w: &Vec<EdgeKey>, start: usize) -> (r: Vec<EdgeKey>)
    requires
        start < w@.len(),
    ensures
        r@ == rotate(w@, start as int),
{
    let n = w.len();
    let mut rotated: Vec<EdgeKey> = Vec::new();
    let mut j: usize = 0;
    while j < n
        invariant
            j <= n,
            n == w@.len(),
            start < n,
            rotated@ == Seq::new(j as nat, |k: int| w@[(start + k) % (n as int)]),
        decreases n - j,
    {
        let k = if j < n - start {
            start + j
        } else {
            j - (n - start)
        };
        proof {
            lemma_mod_near(start + j, n as int);
        }
        rotated.push(w[k]);
        j = j + 1;
        assert(rotated@ =~= Seq::new(j as nat, |k: int| w@[(start + k) % (n as int)]));
    }
    assert(rotated@ =~= rotate(w@, start as int));
    rotated
}

/// The number of half-edges at the front of `w` that are in `border`.
fn run_length(w: &Vec<EdgeKey>, border: &IdSet) -> (l: usize)
    ensures
        l <= w@.len(),
        forall|k: int| 0 <= k < l ==> id_set_contents(*border).contains((#[trigger] w@[k]).key_id()),
        l < w@.len() ==> !id_set_contents(*border).contains(w@[l as int].key_id()),
{
    let n = w.len();
    let mut l: usize = 0;
    while l < n && border.contains(w[l].get())
        invariant
            l <= n,
            n == w@.len(),
            forall|k: int| 0 <= k < l ==> id_set_contents(*border).contains((#[trigger] w@[k]).key_id()),
        decreases n - l,
    {
        l = l + 1;
    }
    l
}

/// Whether no half-edge of `w` from index `l` on is in `border`.
fn none_after(w: &Vec<EdgeKey>, border: &IdSet, l: usize) -> (r: bool)
    ensures
        r == forall|k: int| l <= k < w@.len() ==> !id_set_contents(*border).contains((#[trigger] w@[k]).key_id()),
{
    let n = w.len();
    let mut k: usize = l;
    while k < n
        invariant
            l <= k,
            n == w@.len(),
            forall|kk: int| l <= kk < k && kk < n ==> !id_set_contents(*border).contains((#[trigger] w@[kk]).key_id()),
        decreases n - k,
    {
        if border.contains(w[k].get()) {
            return false;
        }
        k = k + 1;
    }
    true
}

/// Whether every half-edge of `es` is among `w`.
fn all_listed(w: &Vec<EdgeKey>, es: &Vec<EdgeKey>) -> (r: bool)
    ensures
        r == forall|k: int| 0 <= k < es@.len() ==> w@.contains(#[trigger] es@[k]),
{
    let mut j: usize = 0;
    while j < es.len()
        invariant
            j <= es@.len(),
            forall|k: int| 0 <= k < j ==> w@.contains(#[trigger] es@[k]),
        decreases es@.len() - j,
    {
        if !vec_contains_edge(w, es[j]) {
            return false;
        }
        j = j + 1;
    }
    true
}

/// Whether the half-edge key `k` is among `es`.
pub fn vec_contains_edge(es: &Vec<EdgeKey>, k: EdgeKey) -> (b: bool)
    ensures
        b == es@.contains(k),
{
    let mut i: usize = 0;
    while i < es.len()
        invariant
            i <= es.len(),
            forall|j: int| 0 <= j < i ==> es@[j] != k,
        decreases es.len() - i,
    {
        if es[i] == k {
            return true;
        }
        i = i + 1;
    }
    false
}


// Conversion between half-edge meshes and triangle and vertex buffers.


/// The `j`-th corner (0, 1 or 2) of a triangle.
pub open spec fn corner(t: (usize, usize, usize), j: int) -> usize {
    if j == 0 {
        t.0
    } else if j == 1 {
        t.1
    } else {
        t.2
    }
}

/// The half-edge with identifier `id` as built from the triangles, before
/// twins are linked: half-edge `3t + j` runs from corner `j` to corner
/// `j + 1` (mod 3) of triangle `t` and bounds face `t`.
pub open spec fn built_edge(triangles: Seq<(usize, usize, usize)>, id: int) -> Edge {
    let t = id / 3;
    let j = id % 3;
    Edge {
        id: EdgeKey::from_id(id as u64),
        origin_vertex: VertexKey::from_id(corner(triangles[t], j) as u64),
        target_vertex: VertexKey::from_id(corner(triangles[t], (j + 1) % 3) as u64),
        face: FaceKey::from_id(t as u64),
        next_edge: EdgeKey::from_id((3 * t + (j + 1) % 3) as u64),
        prev_edge: EdgeKey::from_id((3 * t + (j + 2) % 3) as u64),
        twin_edge: None,
    }
}

/// The half-edges built from the triangles, before twins are linked.
pub open spec fn built_edges(triangles: Seq<(usize, usize, usize)>) -> Map<u64, Edge> {
    Map::new(|id: u64| id < 3 * triangles.len(), |id: u64| built_edge(triangles, id as int))
}

/// The identifiers `0, 1, ..., n - 1`.
pub open spec fn id_range(n: nat) -> Seq<u64> {
    Seq::new(n as nat, |i: int| i as u64)
}

impl<D> HedgeMesh<D> {
    /// Whether each half-edge of `w`, taken as a ring, has the one before it
    /// as its previous one.
    fn prevs_match(&self, w: &Vec<EdgeKey>) -> (r: bool)
        requires
            w@.len() >= 3,
            forall|k: int| 0 <= k < w@.len() ==> self.emap().dom().contains((#[trigger] w@[k]).key_id()),
        ensures
            r == forall|k: int|
                0 <= k < w@.len() ==> self.emap()[(#[trigger] w@[k]).key_id()].prev_edge == w@[(k + w@.len() - 1) % (
                w@.len() as int)],
    {
        let n = w.len();
        let mut i: usize = 0;
        while i < n
            invariant
                i <= n,
                n == w@.len(),
                n >= 3,
                forall|k: int| 0 <= k < n ==> self.emap().dom().contains((#[trigger] w@[k]).key_id()),
                forall|k: int| 0 <= k < i ==> self.emap()[(#[trigger] w@[k]).key_id()].prev_edge == w@[(k + n - 1) % (n as int)],
            decreases n - i,
        {
            let prev_index = if i == 0 {
                n - 1
            } else {
                i - 1
            };
            proof {
                lemma_mod_near(i + n - 1, n as int);
            }
            let e = *self.edges.get(w[i]).unwrap();
            if e.prev_edge != w[prev_index] {
                assert(self.emap()[w@[i as int].key_id()].prev_edge != w@[(i + n - 1) % (n as int)]);
                return false;
            }
            i = i + 1;
        }
        true
    }

    /// Follows `next_edge` from the first half-edge of `f` for as many steps
    /// as `f` has half-edges, each met in the mesh under its own key, with
    /// `f` as parent, listed by `f` and not met before; returns the ones met
    /// and the one the last points to, or `None` where one of these fails,
    /// which never happens when `f` is bounded by a ring.
    #[verifier::spinoff_prover]
    fn walk_next_edges(&self, f: &Face) -> (r: Option<(Vec<EdgeKey>, EdgeKey)>)
        requires
            f.edges@.len() >= 3,
        ensures
            r matches Some(p) ==> {
                let (w, cur) = p;
                let n = f.edges@.len() as int;
                &&& w@.len() == n
                &&& w@.no_duplicates()
                &&& cur == self.emap()[w@[n - 1].key_id()].next_edge
                &&& forall|i: int|
                    0 <= i < n ==> {
                        let e = #[trigger] w@[i];
                        &&& f.edges@.contains(e)
                        &&& self.emap().dom().contains(e.key_id())
                        &&& self.emap()[e.key_id()].id == e
                        &&& self.emap()[e.key_id()].face == f.id
                        &&& (i + 1 < n ==> self.emap()[e.key_id()].next_edge == w@[i + 1])
                    }
            },
            face_ring(self.emap(), *f) ==> (r matches Some(p) && p.0@ == start_ring(self.emap(), *f) && p.1 == p.0@[0]),
    {
        let ghost ring = face_ring(self.emap(), *f);
        let ghost u = start_ring(self.emap(), *f);
        proof {
            if ring {
                lemma_start_ring(self.emap(), *f);
            }
        }
        let n = f.edges.len();
        let mut w: Vec<EdgeKey> = Vec::new();
        let mut cur = f.edges[0];
        let mut step: usize = 0;
        while step < n
            invariant
                n == f.edges@.len(),
                n >= 3,
                step <= n,
                w@.len() == step,
                step > 0 ==> cur == self.emap()[w@[step - 1].key_id()].next_edge,
                step == 0 ==> cur == f.edges@[0],
                forall|i: int|
                    0 <= i < step ==> {
                        let e = #[trigger] w@[i];
                        &&& f.edges@.contains(e)
                        &&& self.emap().dom().contains(e.key_id())
                        &&& self.emap()[e.key_id()].id == e
                        &&& self.emap()[e.key_id()].face == f.id
                        &&& (i + 1 < step ==> self.emap()[e.key_id()].next_edge == w@[i + 1])
                    },
                w@.no_duplicates(),
                ring == face_ring(self.emap(), *f),
                ring ==> is_ring(self.emap(), *f, u) && u[0] == f.edges@[0],
                ring ==> w@ == u.subrange(0, step as int),
                ring ==> cur == u[(step as int) % (n as int)],
            decreases n - step,
        {
            proof {
                if ring {
                    assert forall|i: int| 0 <= i < step implies #[trigger] w@[i] == u[i] by {
                        assert(w@[i] == u.subrange(0, step as int)[i]);
                    }
                    lemma_walk_step(self.emap(), *f, u, w@, step as int, cur);
                }
            }
            let e = match self.edges.get(cur) {
                Some(e) => *e,
                None => {
                    return None;
                },
            };
            if e.id != cur || e.face != f.id || vec_contains_edge(&w, cur) || !vec_contains_edge(&f.edges, cur) {
                return None;
            }
            let ghost prev_w = w@;
            w.push(cur);
            proof {
                assert forall|i: int, j: int| 0 <= i < j < w@.len() implies w@[i] != w@[j] by {
                    if j == step {
                        assert(prev_w.contains(prev_w[i]));
                    } else {
                        assert(prev_w[i] != prev_w[j]);
                    }
                }
            }
            cur = e.next_edge;
            step = step + 1;
        }
        proof {
            if ring {
                assert((n as int) % (n as int) == 0) by {
                    lemma_fundamental_div_mod_converse(n as int, n as int, 1, 0);
                }
                assert(u.subrange(0, n as int) =~= u);
            }
        }
        Some((w, cur))
    }

    /// Walks the ring of face `face` from its first half-edge, following
    /// `next_edge`; returns the half-edges met when they form a ring of the
    /// face, which they do whenever the face is bounded by a ring.
    #[verifier::spinoff_prover]
    fn face_ring_walk(&self, face: FaceKey) -> (r: Option<Vec<EdgeKey>>)
        ensures
            r matches Some(w) ==> self.fmap().dom().contains(face.key_id()) && is_ring(
                self.emap(),
                self.fmap()[face.key_id()],
                w@,
            ),
            self.fmap().dom().contains(face.key_id()) && face_ring(self.emap(), self.fmap()[face.key_id()]) ==> r is Some,
    {
        let f = match self.faces.get(face) {
            Some(f) => f,
            None => {
                return None;
            },
        };
        let ghost fv = *f;
        let n = f.edges.len();
        if n < 3 {
            return None;
        }
        let (w, cur) = match self.walk_next_edges(f) {
            Some(p) => p,
            None => {
                return None;
            },
        };
        if cur != w[0] {
            return None;
        }
        proof {
            if face_ring(self.emap(), fv) {
                lemma_start_ring(self.emap(), fv);
                assert(is_ring(self.emap(), fv, w@));
            }
        }
        if !self.prevs_match(&w) || !all_listed(&w, &f.edges) {
            return None;
        }
        proof {
            lemma_walk_ring(self.emap(), fv, w@);
        }
        Some(w)
    }

    /// Rotates the ring `w` of face `f` to start the run of half-edges in
    /// `border`, when `border` is one proper run of it.
    #[verifier::spinoff_prover]
    fn border_front(&self, w: &Vec<EdgeKey>, border: &IdSet, Ghost(f): Ghost<Face>, Ghost(g): Ghost<Face>) -> (r: Option<(Vec<EdgeKey>, usize)>)
        requires
            is_ring(self.emap(), f, w@),
            id_set_contents(*border) == border_set(self.emap(), f, g),
        ensures
            r matches Some(p) ==> is_ring(self.emap(), f, p.0@) && is_front_arc(p.0@, id_set_contents(*border), p.1 as int),
            border_arc(self.emap(), f, id_set_contents(*border)) ==> r is Some,
    {
        let ghost b = id_set_contents(*border);
        let ghost arc = border_arc(self.emap(), f, b);
        let ghost mut ql: (int, int) = (0, 0);
        proof {
            if arc {
                ql = lemma_arc_in_ring(self.emap(), f, w@, b);
            }
        }
        let n = w.len();
        // the start of the run: in the border, after one that is not
        let start = match find_run_start(w, border) {
            Some(s) => s,
            None => {
                proof {
                    if arc {
                        assert(run_start(w@, b, ql.0));
                    }
                }
                return None;
            },
        };
        let rotated = rotate_vec(w, start);
        proof {
            lemma_ring_rotate(self.emap(), f, w@, start as int);
        }
        // the length of the run
        let l = run_length(&rotated, border);
        let ghost w2 = rotated@;
        let ghost l2 = ql.1;
        proof {
            if arc {
                assert(start == ql.0);
                assert(is_front_arc(w2, b, l2));
                if l < l2 {
                    assert(b.contains(w2[l as int].key_id()));
                }
                if l > l2 {
                    assert(b.contains(w2[l2].key_id()));
                }
                assert(l == l2);
            }
        }
        if l == 0 || l == n {
            return None;
        }
        // nothing after the run is in the border
        if !none_after(&rotated, border, l) {
            proof {
                if arc {
                    let k = choose|k: int| l <= k < n && b.contains((#[trigger] rotated@[k]).key_id());
                    assert(b.contains(w2[k].key_id()));
                }
            }
            return None;
        }
        proof {
            let w3 = rotated@;
            assert forall|id: u64| #[trigger] b.contains(id) implies exists|j: int| 0 <= j < w3.len() && (#[trigger] w3[j]).key_id() == id by {
                let i = choose|i: int| 0 <= i < f.edges@.len() && (#[trigger] f.edges@[i]).key_id() == id && twin_in(self.emap()[id], g.edges@);
                assert(w3.contains(f.edges@[i]));
                let j = choose|j: int| 0 <= j < w3.len() && w3[j] == f.edges@[i];
                assert(w3[j].key_id() == id);
            }
            assert(is_front_arc(w3, b, l as int));
        }
        Some((rotated, l))
    }

    /// Whether `merge_face_pair(a, b)` can run: checks, on the mesh as it
    /// is, what `merge_pair_safe` asks (the faces differ, exist and carry
    /// their own keys, each is bounded by a ring of half-edges, they are
    /// adjacent, and each border is one proper contiguous run).
    #[verifier::spinoff_prover]
    pub fn can_merge_pair(&self, a: FaceKey, b: FaceKey) -> (r: bool)
        ensures
            r == merge_pair_safe(self.emap(), self.fmap(), a, b),
    {
        let ghost safe = merge_pair_safe(self.emap(), self.fmap(), a, b);
        proof {
            if safe {
                lemma_safe_parts(self.emap(), self.fmap(), a, b);
            }
        }
        if a == b {
            return false;
        }
        let a_id = match self.faces.get(a) {
            Some(f) => f.id,
            None => {
                return false;
            },
        };
        let b_id = match self.faces.get(b) {
            Some(f) => f.id,
            None => {
                return false;
            },
        };
        if a_id != a || b_id != b {
            return false;
        }
        let ghost fa = self.fmap()[a.key_id()];
        let ghost fb = self.fmap()[b.key_id()];
        let wa = match self.face_ring_walk(a) {
            Some(w) => w,
            None => {
                return false;
            },
        };
        let wb = match self.face_ring_walk(b) {
            Some(w) => w,
            None => {
                return false;
            },
        };
        proof {
            lemma_ring_edges_exist(self.emap(), fa);
            lemma_ring_edges_exist(self.emap(), fb);
        }
        if !self.is_neighbors(a, b) {
            return false;
        }
        let a_border = self.border_ids(a, b);
        if self.border_front(&wa, &a_border, Ghost(fa), Ghost(fb)).is_none() {
            return false;
        }
        let b_border = self.border_ids(b, a);
        let a_len = wa.len();
        let b_len = wb.len();
        if !self.is_reversed_pair(a, b) && b_border.len() != b_len {
            if self.border_front(&wb, &b_border, Ghost(fb), Ghost(fa)).is_none() {
                return false;
            }
            if a_border.len() == a_len - 1 && b_border.len() == b_len - 1 {
                return false;
            }
        }
        true
    }
}

/// Merging two distinct faces of a finite set of faces leaves one face
/// fewer, whichever way it goes, and the merged face among them.
proof fn lemma_pair_outcome_len(f0: Map<u64, Face>, f1: Map<u64, Face>, a: u64, b: u64, r: u64, next: u64)
    requires
        f0.dom().finite(),
        f0.dom().contains(a),
        f0.dom().contains(b),
        a != b,
        pair_outcome(f0, f1, a, b, r, next),
    ensures
        f1.dom().finite(),
        f1.dom().len() + 1 == f0.dom().len(),
        f1.dom().contains(r),
        forall|x: u64| f0.dom().contains(x) && x != a && x != b ==> #[trigger] f1.dom().contains(x),
{
    if r == a && f1 == f0.remove(b) {
    } else if r == b && f1 == f0.remove(a) {
    } else {
        assert(f0.dom().remove(a).remove(b).len() + 2 == f0.dom().len());
    }
}

/// What merging two faces asks of them, spelled out.
proof fn lemma_safe_parts(emap: Map<u64, Edge>, fmap: Map<u64, Face>, a: FaceKey, b: FaceKey)
    requires
        merge_pair_safe(emap, fmap, a, b),
    ensures
        a != b,
        fmap.dom().contains(a.key_id()),
        fmap.dom().contains(b.key_id()),
        fmap[a.key_id()].id == a,
        fmap[b.key_id()].id == b,
        face_ring(emap, fmap[a.key_id()]),
        face_ring(emap, fmap[b.key_id()]),
        borders(emap, fmap[a.key_id()], fmap[b.key_id()]),
        border_arc(emap, fmap[a.key_id()], border_set(emap, fmap[a.key_id()], fmap[b.key_id()])),
        (!reversed_pair(emap, fmap[a.key_id()], fmap[b.key_id()]) && border_set(emap, fmap[b.key_id()], fmap[a.key_id()]).len()
            != fmap[b.key_id()].edges@.len()) ==> {
            &&& border_arc(emap, fmap[b.key_id()], border_set(emap, fmap[b.key_id()], fmap[a.key_id()]))
            &&& !(border_set(emap, fmap[a.key_id()], fmap[b.key_id()]).len() + 1 == fmap[a.key_id()].edges@.len()
                && border_set(emap, fmap[b.key_id()], fmap[a.key_id()]).len() + 1 == fmap[b.key_id()].edges@.len())
        },
{
}

/// The identifiers of the faces of a group.
pub open spec fn group_ids(group: Seq<FaceKey>) -> Set<u64> {
    Set::new(|id: u64| exists|i: int| 0 <= i < group.len() && (#[trigger] group[i]).key_id() == id)
}

/// Whether `group` lists one face only (once or more), a face of `m`
/// bounded by half-edges that are in `m` with their twins, and not a
/// neighbor of itself.
pub open spec fn lone_face<D>(m: HedgeMesh<D>, group: Seq<FaceKey>) -> bool {
    &&& group.len() > 0
    &&& group_ids(group) == set![group[0].key_id()]
    &&& m.well_linked(group[0])
    &&& !twin_faces(m.emap(), m.fmap()[group[0].key_id()].edges@).contains(group[0])
}

/// Whether half-edge `e` has a twin, and the twin bounds face `n`.
pub open spec fn crosses_to(emap: Map<u64, Edge>, e: EdgeKey, n: FaceKey) -> bool {
    match emap[e.key_id()].twin_edge {
        Some(t) => emap[t.key_id()].face == n,
        None => false,
    }
}

/// A face is among the faces across half-edges `es` exactly when one of
/// them has a twin bounding it.
proof fn lemma_twin_faces(emap: Map<u64, Edge>, es: Seq<EdgeKey>, n: FaceKey)
    ensures
        twin_faces(emap, es).contains(n) <==> exists|i: int| 0 <= i < es.len() && #[trigger] crosses_to(emap, es[i], n),
    decreases es.len(),
{
    if es.len() > 0 {
        let rest = es.drop_last();
        lemma_twin_faces(emap, rest, n);
        let last = es.len() - 1;
        let tf = twin_faces(emap, es);
        let tr = twin_faces(emap, rest);
        assert(es.last() == es[last]);
        assert(forall|k: int| 0 <= k < rest.len() ==> rest[k] == es[k]);
        // the faces across `es` are those across `rest`, then the one across the last, if any
        assert(tr.len() <= tf.len() && forall|k: int| 0 <= k < tr.len() ==> tf[k] == tr[k]);
        assert(tf.len() == tr.len() + 1 ==> crosses_to(emap, es[last], tf[tr.len() as int]));
        assert(tf.len() == tr.len() + 1 || tf.len() == tr.len());
        assert(tf.len() == tr.len() ==> !(exists|t: EdgeKey| emap[es[last].key_id()].twin_edge == Some(t)));
        if tf.contains(n) {
            let k = choose|k: int| 0 <= k < tf.len() && tf[k] == n;
            if k < tr.len() {
                assert(tr[k] == n);
                assert(tr.contains(n));
                let i = choose|i: int| 0 <= i < rest.len() && #[trigger] crosses_to(emap, rest[i], n);
                assert(crosses_to(emap, es[i], n));
            } else {
                assert(crosses_to(emap, es[last], n));
            }
        }
        if exists|i: int| 0 <= i < es.len() && #[trigger] crosses_to(emap, es[i], n) {
            let i = choose|i: int| 0 <= i < es.len() && #[trigger] crosses_to(emap, es[i], n);
            if i < last {
                assert(crosses_to(emap, rest[i], n));
                assert(tr.contains(n));
                let k = choose|k: int| 0 <= k < tr.len() && tr[k] == n;
                assert(tf[k] == n);
            } else {
                assert(tf.len() == tr.len() + 1);
                assert(tf[tr.len() as int] == n);
            }
        }
    }
}

/// Whether merging faces `fa` and `fb` makes a new face: they are not the
/// same face the other way round, and neither borders the other all round.
pub open spec fn makes_new_face(emap: Map<u64, Edge>, fa: Face, fb: Face) -> bool {
    &&& !reversed_pair(emap, fa, fb)
    &&& border_set(emap, fa, fb).len() != fa.edges@.len()
    &&& border_set(emap, fb, fa).len() != fb.edges@.len()
}

/// Whether face `f` of `m` is well linked, does not border itself, and has
/// every face across its half-edges in `m`.
pub open spec fn neighbors_in_mesh<D>(m: HedgeMesh<D>, f: FaceKey) -> bool {
    &&& m.well_linked(f)
    &&& !twin_faces(m.emap(), m.fmap()[f.key_id()].edges@).contains(f)
    &&& forall|n: FaceKey| #[trigger] twin_faces(m.emap(), m.fmap()[f.key_id()].edges@).contains(n) ==> m.fmap().dom().contains(n.key_id())
}

/// `is_ring`, kept from unfolding where many half-edges of the ring are
/// named.
#[verifier::opaque]
spec fn ring_hidden(emap: Map<u64, Edge>, f: Face, w: Seq<EdgeKey>) -> bool {
    is_ring(emap, f, w)
}

/// Half-edge `e`, in the ring `w` of face `f` past its first `l`, is one of
/// `f`'s half-edges, bounding it, and outside the run `b`.
proof fn lemma_outer_edge(emap: Map<u64, Edge>, f: Face, w: Seq<EdgeKey>, b: Set<u64>, l: int, x: int) -> (i: int)
    requires
        ring_hidden(emap, f, w),
        is_front_arc(w, b, l),
        l <= x < w.len(),
    ensures
        0 <= i < f.edges@.len(),
        f.edges@[i] == w[x],
        emap[w[x].key_id()].face == f.id,
        emap.dom().contains(w[x].key_id()),
        !b.contains(w[x].key_id()),
{
    reveal(ring_hidden);
    assert(f.edges@.contains(w[x]));
    choose|i: int| 0 <= i < f.edges@.len() && f.edges@[i] == w[x]
}

/// How merging `a` and `b` into a new face `r` leaves the mesh: `r`, under
/// the next identifier, is in the mesh, bounded by the half-edges of `a` and
/// then of `b` off their common border, each now bounding `r`.
pub open spec fn new_face_shape<D>(m0: HedgeMesh<D>, m1: HedgeMesh<D>, a: FaceKey, b: FaceKey, r: FaceKey) -> bool {
    let emap = m0.emap();
    let fa = m0.fmap()[a.key_id()];
    let fb = m0.fmap()[b.key_id()];
    let order = outer_edges(emap, fa, border_set(emap, fa, fb)) + outer_edges(emap, fb, border_set(emap, fb, fa));
    &&& r.key_id() == m0.next_ids().2
    &&& m1.fmap().dom().contains(r.key_id())
    &&& m1.fmap()[r.key_id()].edges@ == order
    &&& m1.emap() == merged_edges(emap, order, r)
}

/// Merging two faces that make a new face leaves the mesh in that shape,
/// and the two faces' borders along each other are proper runs.
proof fn lemma_merged_shape<D>(m0: HedgeMesh<D>, m1: HedgeMesh<D>, a: FaceKey, b: FaceKey, r: FaceKey)
    requires
        merge_pair_safe(m0.emap(), m0.fmap(), a, b),
        merged_as(m0, m1, a, b, r),
        makes_new_face(m0.emap(), m0.fmap()[a.key_id()], m0.fmap()[b.key_id()]),
    ensures
        new_face_shape(m0, m1, a, b, r),
        a != b,
        m0.fmap()[a.key_id()].id == a,
        m0.fmap()[b.key_id()].id == b,
        border_arc(m0.emap(), m0.fmap()[a.key_id()], border_set(m0.emap(), m0.fmap()[a.key_id()], m0.fmap()[b.key_id()])),
        border_arc(m0.emap(), m0.fmap()[b.key_id()], border_set(m0.emap(), m0.fmap()[b.key_id()], m0.fmap()[a.key_id()])),
{
}

/// The new face that merging two well-linked faces makes is well linked.
#[verifier::spinoff_prover]
proof fn lemma_new_face_linked<D>(m0: HedgeMesh<D>, m1: HedgeMesh<D>, a: FaceKey, b: FaceKey, r: FaceKey)
    requires
        m0.wf(),
        a != b,
        m0.fmap()[a.key_id()].id == a,
        m0.fmap()[b.key_id()].id == b,
        border_arc(m0.emap(), m0.fmap()[a.key_id()], border_set(m0.emap(), m0.fmap()[a.key_id()], m0.fmap()[b.key_id()])),
        border_arc(m0.emap(), m0.fmap()[b.key_id()], border_set(m0.emap(), m0.fmap()[b.key_id()], m0.fmap()[a.key_id()])),
        new_face_shape(m0, m1, a, b, r),
        neighbors_in_mesh(m0, a),
        neighbors_in_mesh(m0, b),
    ensures
        m1.well_linked(r),
{
    let emap = m0.emap();
    let fmap = m0.fmap();
    let fa = fmap[a.key_id()];
    let fb = fmap[b.key_id()];
    let ab = border_set(emap, fa, fb);
    let ba = border_set(emap, fb, fa);
    let (wa, la) = ring_of(emap, fa, ab);
    let (wb, lb) = ring_of(emap, fb, ba);
    assert(fa.id != fb.id);
    assert(is_ring(emap, fa, wa) && is_front_arc(wa, ab, la));
    assert(is_ring(emap, fb, wb) && is_front_arc(wb, ba, lb));
    assert(ring_hidden(emap, fa, wa) && ring_hidden(emap, fb, wb)) by {
        reveal(ring_hidden);
    }
    let oa = wa.subrange(la, wa.len() as int);
    let ob = wb.subrange(lb, wb.len() as int);
    let order = oa + ob;
    assert(order == outer_edges(emap, fa, ab) + outer_edges(emap, fb, ba));
    lemma_outer_distinct(emap, fa, wa, la, fb, wb, lb);
    m0.lemma_ids();
    let e1 = m1.emap();
    assert(e1 == merged_edges(emap, order, r));
    assert(m1.fmap()[r.key_id()].edges@ == order);
    // each half-edge of the new face is one of `a`'s or `b`'s
    assert forall|j: int| 0 <= j < order.len() implies e1.dom().contains((#[trigger] order[j]).key_id())
        && e1[order[j].key_id()].twin_edge == emap[order[j].key_id()].twin_edge
        && twin_present(e1, e1[order[j].key_id()]) by {
        if j < oa.len() {
            assert(order[j] == wa[la + j]);
            let i = lemma_outer_edge(emap, fa, wa, ab, la, la + j);
            assert(twin_present(emap, emap[fa.edges@[i].key_id()]));
        } else {
            assert(order[j] == wb[lb + j - oa.len()]);
            let i = lemma_outer_edge(emap, fb, wb, ba, lb, lb + j - oa.len());
            assert(twin_present(emap, emap[fb.edges@[i].key_id()]));
        }
    }
}

/// The twin of a half-edge of face `fx` off its border with `fy` is no
/// half-edge of either face, when `fx` does not border itself; and it bounds
/// a face below `next`, when every face across `fx` is in `dom`, all below
/// `next`.
#[verifier::spinoff_prover]
proof fn lemma_outer_twin(
    emap: Map<u64, Edge>,
    fx: Face,
    fy: Face,
    wx: Seq<EdgeKey>,
    lx: int,
    wy: Seq<EdgeKey>,
    p: int,
    dom: Set<u64>,
    next: u64,
)
    requires
        ring_hidden(emap, fx, wx),
        is_front_arc(wx, border_set(emap, fx, fy), lx),
        ring_hidden(emap, fy, wy),
        lx <= p < wx.len(),
        !twin_faces(emap, fx.edges@).contains(fx.id),
        forall|n: FaceKey| #[trigger] twin_faces(emap, fx.edges@).contains(n) ==> dom.contains(n.key_id()),
        forall|id: u64| #[trigger] dom.contains(id) ==> id < next,
    ensures
        emap[wx[p].key_id()].twin_edge matches Some(t) ==> {
            &&& !fx.edges@.contains(t)
            &&& !fy.edges@.contains(t)
            &&& emap[t.key_id()].face.key_id() != next
        },
{
    reveal(ring_hidden);
    let bx = border_set(emap, fx, fy);
    let i = lemma_outer_edge(emap, fx, wx, bx, lx, p);
    let e = wx[p];
    if emap[e.key_id()].twin_edge is Some {
        let t = emap[e.key_id()].twin_edge->0;
        let n = emap[t.key_id()].face;
        assert(crosses_to(emap, fx.edges@[i], n));
        lemma_twin_faces(emap, fx.edges@, n);
        assert(dom.contains(n.key_id()));
        if fx.edges@.contains(t) {
            assert(wx.contains(t));
            let q = choose|q: int| 0 <= q < wx.len() && wx[q] == t;
            assert(emap[wx[q].key_id()].face == fx.id);
            assert(false);
        }
        if fy.edges@.contains(t) {
            assert(twin_in(emap[e.key_id()], fy.edges@));
            assert(bx.contains(e.key_id()));
            assert(false);
        }
    }
}

/// What `merged_edges` leaves of a half-edge not in `order`: the same.
proof fn lemma_merged_elsewhere(emap: Map<u64, Edge>, order: Seq<EdgeKey>, r: FaceKey, id: u64)
    requires
        emap.dom().contains(id),
        !(exists|k: int| 0 <= k < order.len() && (#[trigger] order[k]).key_id() == id),
    ensures
        merged_edges(emap, order, r)[id] == emap[id],
{
}

/// A half-edge of neither face is on the ring made of their half-edges off
/// their border.
proof fn lemma_off_both(fa: Face, fb: Face, emap: Map<u64, Edge>, wa: Seq<EdgeKey>, la: int, wb: Seq<EdgeKey>, lb: int, t: EdgeKey)
    requires
        ring_hidden(emap, fa, wa),
        ring_hidden(emap, fb, wb),
        0 <= la < wa.len(),
        0 <= lb < wb.len(),
        !fa.edges@.contains(t),
        !fb.edges@.contains(t),
    ensures
        !(exists|k: int|
            0 <= k < wa.len() - la + wb.len() - lb && (#[trigger] (wa.subrange(la, wa.len() as int) + wb.subrange(
                lb,
                wb.len() as int,
            ))[k]).key_id() == t.key_id()),
{
    reveal(ring_hidden);
    let oa = wa.subrange(la, wa.len() as int);
    let order = oa + wb.subrange(lb, wb.len() as int);
    if exists|k: int| 0 <= k < order.len() && (#[trigger] order[k]).key_id() == t.key_id() {
        let k = choose|k: int| 0 <= k < order.len() && (#[trigger] order[k]).key_id() == t.key_id();
        EdgeKey::lemma_key_id(order[k], 0);
        EdgeKey::lemma_key_id(t, 0);
        if k < oa.len() {
            assert(order[k] == wa[la + k]);
            assert(fa.edges@.contains(wa[la + k]));
        } else {
            assert(order[k] == wb[lb + k - oa.len()]);
            assert(fb.edges@.contains(wb[lb + k - oa.len()]));
        }
    }
}

/// No half-edge of the ring `order` that merging makes, of the half-edges of
/// `fa` and `fb` off their common border, has its twin on that ring or on a
/// face numbered `next`, when neither face borders itself and the faces
/// across them are all below `next`.
#[verifier::spinoff_prover]
proof fn lemma_order_not_own(
    emap: Map<u64, Edge>,
    dom: Set<u64>,
    fa: Face,
    fb: Face,
    wa: Seq<EdgeKey>,
    la: int,
    wb: Seq<EdgeKey>,
    lb: int,
    r: FaceKey,
    next: u64,
    e1: Map<u64, Edge>,
)
    requires
        e1.dom() == emap.dom(),
        forall|id: u64| #[trigger] e1.dom().contains(id) ==> e1[id].twin_edge == emap[id].twin_edge,
        forall|id: u64|
            #[trigger] e1.dom().contains(id) && !(exists|k: int|
                0 <= k < wa.len() - la + wb.len() - lb && (#[trigger] (wa.subrange(la, wa.len() as int) + wb.subrange(
                    lb,
                    wb.len() as int,
                ))[k]).key_id() == id) ==> e1[id].face == emap[id].face,
        ring_hidden(emap, fa, wa),
        is_front_arc(wa, border_set(emap, fa, fb), la),
        ring_hidden(emap, fb, wb),
        is_front_arc(wb, border_set(emap, fb, fa), lb),
        !twin_faces(emap, fa.edges@).contains(fa.id),
        !twin_faces(emap, fb.edges@).contains(fb.id),
        forall|n: FaceKey| #[trigger] twin_faces(emap, fa.edges@).contains(n) ==> dom.contains(n.key_id()),
        forall|n: FaceKey| #[trigger] twin_faces(emap, fb.edges@).contains(n) ==> dom.contains(n.key_id()),
        forall|id: u64| #[trigger] dom.contains(id) ==> id < next,
        forall|i: int| 0 <= i < fa.edges@.len() ==> twin_present(emap, #[trigger] emap[fa.edges@[i].key_id()]),
        forall|i: int| 0 <= i < fb.edges@.len() ==> twin_present(emap, #[trigger] emap[fb.edges@[i].key_id()]),
        r.key_id() == next,
    ensures
        !twin_faces(e1, wa.subrange(la, wa.len() as int) + wb.subrange(lb, wb.len() as int)).contains(r),
{
    let oa = wa.subrange(la, wa.len() as int);
    let ob = wb.subrange(lb, wb.len() as int);
    let order = oa + ob;
    lemma_twin_faces(e1, order, r);
    if twin_faces(e1, order).contains(r) {
        let j = choose|j: int| 0 <= j < order.len() && #[trigger] crosses_to(e1, order[j], r);
        let e = order[j];
        if j < oa.len() {
            assert(e == wa[la + j]);
            lemma_outer_twin(emap, fa, fb, wa, la, wb, la + j, dom, next);
            let i = lemma_outer_edge(emap, fa, wa, border_set(emap, fa, fb), la, la + j);
            assert(twin_present(emap, emap[fa.edges@[i].key_id()]));
        } else {
            assert(e == wb[lb + j - oa.len()]);
            lemma_outer_twin(emap, fb, fa, wb, lb, wa, lb + j - oa.len(), dom, next);
            let i = lemma_outer_edge(emap, fb, wb, border_set(emap, fb, fa), lb, lb + j - oa.len());
            assert(twin_present(emap, emap[fb.edges@[i].key_id()]));
        }
        assert(emap.dom().contains(e.key_id()));
        assert(e1[e.key_id()].twin_edge == emap[e.key_id()].twin_edge);
        let t = emap[e.key_id()].twin_edge->0;
        lemma_off_both(fa, fb, emap, wa, la, wb, lb, t);
        assert(emap.dom().contains(t.key_id()));
        assert(e1[t.key_id()].face == emap[t.key_id()].face);
    }
}

/// The new face that merging two faces makes, when neither borders itself
/// and each has its neighbors in the mesh, does not border itself.
#[verifier::spinoff_prover]
proof fn lemma_new_face_not_own<D>(m0: HedgeMesh<D>, m1: HedgeMesh<D>, a: FaceKey, b: FaceKey, r: FaceKey)
    requires
        m0.wf(),
        a != b,
        m0.fmap()[a.key_id()].id == a,
        m0.fmap()[b.key_id()].id == b,
        border_arc(m0.emap(), m0.fmap()[a.key_id()], border_set(m0.emap(), m0.fmap()[a.key_id()], m0.fmap()[b.key_id()])),
        border_arc(m0.emap(), m0.fmap()[b.key_id()], border_set(m0.emap(), m0.fmap()[b.key_id()], m0.fmap()[a.key_id()])),
        new_face_shape(m0, m1, a, b, r),
        neighbors_in_mesh(m0, a),
        neighbors_in_mesh(m0, b),
    ensures
        !twin_faces(m1.emap(), m1.fmap()[r.key_id()].edges@).contains(r),
{
    let emap = m0.emap();
    let fmap = m0.fmap();
    let fa = fmap[a.key_id()];
    let fb = fmap[b.key_id()];
    let ab = border_set(emap, fa, fb);
    let ba = border_set(emap, fb, fa);
    let (wa, la) = ring_of(emap, fa, ab);
    let (wb, lb) = ring_of(emap, fb, ba);
    assert(is_ring(emap, fa, wa) && is_front_arc(wa, ab, la));
    assert(is_ring(emap, fb, wb) && is_front_arc(wb, ba, lb));
    assert forall|id: u64| #[trigger] fmap.dom().contains(id) implies id < m0.next_ids().2 by {
        m0.lemma_ids();
    }
    let order = wa.subrange(la, wa.len() as int) + wb.subrange(lb, wb.len() as int);
    assert(order == outer_edges(emap, fa, ab) + outer_edges(emap, fb, ba));
    let e1 = m1.emap();
    assert(e1 == merged_edges(emap, order, r));
    assert forall|id: u64| #[trigger] e1.dom().contains(id) implies e1[id].twin_edge == emap[id].twin_edge && (!(exists|k: int|
        0 <= k < order.len() && (#[trigger] order[k]).key_id() == id) ==> e1[id].face == emap[id].face) by {
        if !(exists|k: int| 0 <= k < order.len() && (#[trigger] order[k]).key_id() == id) {
            lemma_merged_elsewhere(emap, order, r, id);
        }
    }
    assert(e1.dom() =~= emap.dom());
    assert(ring_hidden(emap, fa, wa) && ring_hidden(emap, fb, wb)) by {
        reveal(ring_hidden);
    }
    lemma_order_not_own(emap, fmap.dom(), fa, fb, wa, la, wb, lb, r, m0.next_ids().2, e1);
}

/// The face that merging two faces makes, when each is well linked, does
/// not border itself and has its neighbors in the mesh, is well linked and
/// does not border itself.
proof fn lemma_merged_face_settles<D>(m0: HedgeMesh<D>, m1: HedgeMesh<D>, a: FaceKey, b: FaceKey, r: FaceKey)
    requires
        m0.wf(),
        merge_pair_safe(m0.emap(), m0.fmap(), a, b),
        merged_as(m0, m1, a, b, r),
        makes_new_face(m0.emap(), m0.fmap()[a.key_id()], m0.fmap()[b.key_id()]),
        neighbors_in_mesh(m0, a),
        neighbors_in_mesh(m0, b),
    ensures
        m1.well_linked(r),
        !twin_faces(m1.emap(), m1.fmap()[r.key_id()].edges@).contains(r),
        r.key_id() == m0.next_ids().2,
{
    lemma_merged_shape(m0, m1, a, b, r);
    lemma_new_face_linked(m0, m1, a, b, r);
    lemma_new_face_not_own(m0, m1, a, b, r);
}

/// Whether faces `a` and `b` can be merged as a group of two into a new
/// face, whichever is found first: they are distinct, each in the mesh with
/// all its half-edges and twins, not bordering itself and with every face
/// across it in the mesh; they share one contiguous border, can be merged in
/// either order, and merging them makes a new face.
#[verifier::opaque]
pub open spec fn mergeable_pair<D>(m: HedgeMesh<D>, a: FaceKey, b: FaceKey) -> bool {
    &&& a != b
    &&& neighbors_in_mesh(m, a)
    &&& neighbors_in_mesh(m, b)
    &&& contiguous_neighbors(m, a, b)
    &&& merge_pair_safe(m.emap(), m.fmap(), a, b)
    &&& merge_pair_safe(m.emap(), m.fmap(), b, a)
    &&& makes_new_face(m.emap(), m.fmap()[a.key_id()], m.fmap()[b.key_id()])
    &&& makes_new_face(m.emap(), m.fmap()[b.key_id()], m.fmap()[a.key_id()])
}

/// Whether `all` holds one face only, numbered `next`, well linked in `m`
/// and not bordering itself.
pub open spec fn settled_new_face<D>(m: HedgeMesh<D>, all: Set<u64>, next: u64) -> bool {
    &&& all == set![next]
    &&& m.well_linked(FaceKey::from_id(next))
    &&& !twin_faces(m.emap(), m.fmap()[next].edges@).contains(FaceKey::from_id(next))
}

/// Whether a face of `all` is missing from `m` (or a half-edge or twin of
/// it), or has a neighbor in `all` missing from `m`.
pub open spec fn face_missing<D>(m: HedgeMesh<D>, all: Set<u64>) -> bool {
    exists|x: u64|
        #[trigger] all.contains(x) && {
            ||| !m.well_linked(FaceKey::from_id(x))
            ||| exists|n: FaceKey|
                #[trigger] twin_faces(m.emap(), m.fmap()[x].edges@).contains(n) && all.contains(n.key_id())
                    && !m.fmap().dom().contains(n.key_id())
        }
}

/// Whether `p` is a pair of faces of `all` sharing one contiguous border,
/// the first well linked and the second in `m`.
pub open spec fn pair_in<D>(m: HedgeMesh<D>, all: Set<u64>, p: (FaceKey, FaceKey)) -> bool {
    &&& all.contains(p.0.key_id())
    &&& all.contains(p.1.key_id())
    &&& m.well_linked(p.0)
    &&& twin_faces(m.emap(), m.fmap()[p.0.key_id()].edges@).contains(p.1)
    &&& m.fmap().dom().contains(p.1.key_id())
    &&& border_breaks(m.emap(), border_set(m.emap(), m.fmap()[p.0.key_id()], m.fmap()[p.1.key_id()])) == 2
}

/// What the search for two faces of `all` to merge may find: such a pair;
/// nothing, every face of `all` being settled; or a failure, a face of
/// `all` or a neighbor of it in `all` being missing.
pub open spec fn search_found<D>(m: HedgeMesh<D>, all: Set<u64>, found: Result<Option<(FaceKey, FaceKey)>, ()>) -> bool {
    &&& found matches Ok(Some(p)) ==> pair_in(m, all, p)
    &&& found == Ok::<Option<(FaceKey, FaceKey)>, ()>(None) ==> group_settled(m, all)
    &&& found is Err ==> face_missing(m, all)
}

/// Whether the faces `left` of a group cannot be merged into one: one of
/// them is missing from `m` (or a half-edge or twin of it), or has a
/// neighbor among them missing from `m`; or two of them sharing one
/// contiguous border cannot be merged; or no two of them share one
/// contiguous border and there are at least two.
pub open spec fn group_stuck<D>(m: HedgeMesh<D>, left: Set<u64>) -> bool {
    ||| face_missing(m, left)
    ||| exists|a: FaceKey, b: FaceKey|
        #[trigger] contiguous_neighbors(m, a, b) && left.contains(a.key_id()) && left.contains(b.key_id())
            && !merge_pair_safe(m.emap(), m.fmap(), a, b)
    ||| group_settled(m, left) && left.len() >= 2
}

/// A pair found that cannot be merged leaves the group stuck.
proof fn lemma_refused_stuck<D>(m: HedgeMesh<D>, all: Set<u64>, p: (FaceKey, FaceKey))
    requires
        pair_in(m, all, p),
        !merge_pair_safe(m.emap(), m.fmap(), p.0, p.1),
    ensures
        group_stuck(m, all),
{
    assert(contiguous_neighbors(m, p.0, p.1));
}

/// In a group of one face, well linked and not its own neighbor, the
/// search finds nothing.
proof fn lemma_lone_search<D>(m: HedgeMesh<D>, all: Set<u64>, f: FaceKey, found: Result<Option<(FaceKey, FaceKey)>, ()>)
    requires
        search_found(m, all, found),
        all == set![f.key_id()],
        m.well_linked(f),
        !twin_faces(m.emap(), m.fmap()[f.key_id()].edges@).contains(f),
    ensures
        found == Ok::<Option<(FaceKey, FaceKey)>, ()>(None),
{
    FaceKey::lemma_key_id(f, f.key_id());
    match found {
        Err(()) => {
            let x = choose|x: u64|
                #[trigger] all.contains(x) && {
                    ||| !m.well_linked(FaceKey::from_id(x))
                    ||| exists|n: FaceKey|
                        #[trigger] twin_faces(m.emap(), m.fmap()[x].edges@).contains(n) && all.contains(n.key_id())
                            && !m.fmap().dom().contains(n.key_id())
                };
            assert(x == f.key_id());
            if m.well_linked(FaceKey::from_id(x)) {
                let n = choose|n: FaceKey|
                    #[trigger] twin_faces(m.emap(), m.fmap()[x].edges@).contains(n) && all.contains(n.key_id())
                        && !m.fmap().dom().contains(n.key_id());
                FaceKey::lemma_key_id(n, n.key_id());
                assert(n == f);
            }
            assert(false);
        },
        Ok(Some(p)) => {
            FaceKey::lemma_key_id(p.0, p.0.key_id());
            FaceKey::lemma_key_id(p.1, p.1.key_id());
            assert(p.0 == f);
            assert(p.1 == f);
            assert(false);
        },
        Ok(None) => {},
    }
}

/// In an empty group the search finds nothing.
proof fn lemma_empty_search<D>(m: HedgeMesh<D>, all: Set<u64>, found: Result<Option<(FaceKey, FaceKey)>, ()>)
    requires
        search_found(m, all, found),
        all == Set::<u64>::empty(),
    ensures
        found == Ok::<Option<(FaceKey, FaceKey)>, ()>(None),
{
    match found {
        Err(()) => {
            let x = choose|x: u64|
                #[trigger] all.contains(x) && {
                    ||| !m.well_linked(FaceKey::from_id(x))
                    ||| exists|n: FaceKey|
                        #[trigger] twin_faces(m.emap(), m.fmap()[x].edges@).contains(n) && all.contains(n.key_id())
                            && !m.fmap().dom().contains(n.key_id())
                };
            assert(false);
        },
        Ok(Some(p)) => {
            assert(all.contains(p.0.key_id()));
        },
        Ok(None) => {},
    }
}

/// Whether `left` is what is left of `group` in `fmap`, the faces at or
/// past `next0` being the ones merging made: each face of `left` is one of
/// the group's or a new face of `fmap`, and the group's faces not in `left`
/// are gone from `fmap`.
pub open spec fn group_left(fmap: Map<u64, Face>, group: Set<u64>, next0: u64, left: Set<u64>) -> bool {
    &&& left.finite()
    &&& forall|x: u64| #[trigger] left.contains(x) ==> group.contains(x) || (next0 <= x && fmap.dom().contains(x))
    &&& forall|g: u64| #[trigger] group.contains(g) && !left.contains(g) ==> !fmap.dom().contains(g)
}

/// In a group of two faces that can be merged as a pair, the search for a
/// pair finds the two, in one order or the other.
proof fn lemma_pair_found<D>(
    m: HedgeMesh<D>,
    all: Set<u64>,
    a: FaceKey,
    b: FaceKey,
    found: Result<Option<(FaceKey, FaceKey)>, ()>,
)
    requires
        mergeable_pair(m, a, b),
        all == set![a.key_id(), b.key_id()],
        search_found(m, all, found),
    ensures
        found matches Ok(Some(p)) && merge_pair_safe(m.emap(), m.fmap(), p.0, p.1) && ((p.0 == a && p.1 == b) || (p.0
            == b && p.1 == a)),
{
    reveal(mergeable_pair);
    FaceKey::lemma_key_id(a, a.key_id());
    FaceKey::lemma_key_id(b, b.key_id());
    match found {
        Err(()) => {
            let x = choose|x: u64|
                #[trigger] all.contains(x) && {
                    ||| !m.well_linked(FaceKey::from_id(x))
                    ||| exists|n: FaceKey|
                        #[trigger] twin_faces(m.emap(), m.fmap()[x].edges@).contains(n) && all.contains(n.key_id())
                            && !m.fmap().dom().contains(n.key_id())
                };
            assert(x == a.key_id() || x == b.key_id());
            if !m.well_linked(FaceKey::from_id(x)) {
            } else {
                let n = choose|n: FaceKey|
                    #[trigger] twin_faces(m.emap(), m.fmap()[x].edges@).contains(n) && all.contains(n.key_id())
                        && !m.fmap().dom().contains(n.key_id());
                assert(n.key_id() == a.key_id() || n.key_id() == b.key_id());
            }
            assert(false);
        },
        Ok(None) => {
            assert(all.contains(a.key_id()));
            assert(settled_face(m, all, a.key_id()));
            assert(twin_faces(m.emap(), m.fmap()[a.key_id()].edges@).contains(b));
            assert(false);
        },
        Ok(Some(p)) => {
            FaceKey::lemma_key_id(p.0, p.0.key_id());
            FaceKey::lemma_key_id(p.1, p.1.key_id());
            assert(p.0 == a || p.0 == b);
            assert(p.1 == a || p.1 == b);
        },
    }
}

/// With at most one face left in a group, two faces of the group are not
/// both still in the mesh.
proof fn lemma_pair_gone(fmap: Map<u64, Face>, all: Set<u64>, group: Set<u64>, a: u64, b: u64)
    requires
        all.finite(),
        all.len() <= 1,
        a != b,
        group.contains(a),
        group.contains(b),
        forall|g: u64| #[trigger] group.contains(g) && !all.contains(g) ==> !fmap.dom().contains(g),
    ensures
        !(fmap.dom().contains(a) && fmap.dom().contains(b)),
{
    if fmap.dom().contains(a) && fmap.dom().contains(b) {
        assert(all.contains(a));
        assert(all.contains(b));
        let both = set![a, b];
        assert(both.subset_of(all));
        vstd::set_lib::lemma_len_subset(both, all);
        assert(both.len() == 2);
    }
}

/// Whether face `x` of the set `all` is in `m`, well linked, and each of
/// its neighbors in `all` is in `m` and does not share one contiguous border
/// with it.
pub open spec fn settled_face<D>(m: HedgeMesh<D>, all: Set<u64>, x: u64) -> bool {
    &&& m.well_linked(FaceKey::from_id(x))
    &&& forall|n: FaceKey|
        #[trigger] twin_faces(m.emap(), m.fmap()[x].edges@).contains(n) && all.contains(n.key_id()) ==> m.fmap().dom().contains(
            n.key_id(),
        ) && border_breaks(m.emap(), border_set(m.emap(), m.fmap()[x], m.fmap()[n.key_id()])) != 2
}

/// Whether every face of the set `all` is settled: in the mesh, well
/// linked, and sharing no contiguous border with a neighbor in `all`.
pub open spec fn group_settled<D>(m: HedgeMesh<D>, all: Set<u64>) -> bool {
    forall|x: u64| #[trigger] all.contains(x) ==> settled_face(m, all, x)
}

/// Whether the faces of `before` outside `group` are in `after`,
/// unchanged.
pub open spec fn untouched_outside(before: Map<u64, Face>, after: Map<u64, Face>, group: Set<u64>) -> bool {
    forall|f: u64|
        before.dom().contains(f) && !group.contains(f) ==> #[trigger] after.dom().contains(f) && after[f] == before[f]
}

/// Whether face `k` is what is left of `group` in `fmap`: it is one of the
/// group's faces or a face of `fmap`, and no other face of the group is in
/// `fmap`.
pub open spec fn merged_into(fmap: Map<u64, Face>, group: Set<u64>, k: u64) -> bool {
    &&& group.contains(k) || fmap.dom().contains(k)
    &&& forall|g: u64| #[trigger] group.contains(g) && g != k ==> !fmap.dom().contains(g)
}

/// What merging a group keeps true, from the mesh as it was (`fmap0`, with
/// the next face identifier `next0`), for the faces `all` still in the
/// group: faces outside the group are untouched; the group holds only its
/// own faces and new ones, each in the mesh unless it is one of its own;
/// the group's own faces that left it are gone from the mesh; and the next
/// identifier, plus the group's size, stays within `bound`.
pub open spec fn group_kept<D>(
    m: HedgeMesh<D>,
    all: Set<u64>,
    group: Set<u64>,
    next0: u64,
    fmap0: Map<u64, Face>,
    bound: int,
) -> bool {
    &&& all.finite()
    &&& next0 <= m.next_ids().2
    &&& m.next_ids().2 + all.len() <= bound
    &&& bound < INVALID_ID
    &&& untouched_outside(fmap0, m.fmap(), group)
    &&& forall|f: u64| #[trigger] fmap0.dom().contains(f) ==> f < next0
    &&& forall|x: u64| #[trigger] all.contains(x) ==> group.contains(x) || next0 <= x
    &&& forall|x: u64| #[trigger] all.contains(x) ==> group.contains(x) || m.fmap().dom().contains(x)
    &&& forall|g: u64| #[trigger] group.contains(g) && !all.contains(g) ==> !m.fmap().dom().contains(g)
}

/// Merging two faces `a` and `b` of the group into `r`, and putting `r` in
/// their place, keeps what merging a group keeps true, and shrinks the group.
#[verifier::spinoff_prover]
#[verifier::rlimit(30)]
proof fn lemma_group_step<D>(
    m0: HedgeMesh<D>,
    m1: HedgeMesh<D>,
    all0: Set<u64>,
    a: u64,
    b: u64,
    r: u64,
    group: Set<u64>,
    next0: u64,
    fmap0: Map<u64, Face>,
    bound: int,
)
    requires
        group_kept(m0, all0, group, next0, fmap0, bound),
        all0.contains(a),
        all0.contains(b),
        a != b,
        m0.fmap().dom().contains(a),
        m0.fmap().dom().contains(b),
        forall|id: u64| #[trigger] m0.fmap().dom().contains(id) ==> id < m0.next_ids().2,
        m0.next_ids().2 <= m1.next_ids().2 <= m0.next_ids().2 + 1,
        pair_outcome(m0.fmap(), m1.fmap(), a, b, r, m0.next_ids().2),
    ensures
        group_kept(m1, all0.remove(a).remove(b).insert(r), group, next0, fmap0, bound),
        all0.remove(a).remove(b).insert(r).len() < all0.len(),
{
    let all1 = all0.remove(a).remove(b).insert(r);
    let s2 = all0.remove(a).remove(b);
    assert(s2.len() == all0.len() - 2);
    assert(all1.len() <= s2.len() + 1);
    // how the faces changed, whatever the case
    let f0 = m0.fmap();
    let f1 = m1.fmap();
    assert(f1.dom().contains(r));
    assert(r != a ==> !f1.dom().contains(a));
    assert(r != b ==> !f1.dom().contains(b));
    assert(r == a || r == b || (r == m0.next_ids().2 && !f0.dom().contains(r)));
    assert forall|f: u64| f != a && f != b && f != r implies (#[trigger] f1.dom().contains(f) == f0.dom().contains(f)) && (
    f0.dom().contains(f) ==> f1[f] == f0[f]) by {
    }
    assert(untouched_outside(fmap0, f1, group)) by {
        assert forall|f: u64| fmap0.dom().contains(f) && !group.contains(f) implies #[trigger] f1.dom().contains(f) && f1[f]
            == fmap0[f] by {
            assert(untouched_outside(fmap0, m0.fmap(), group));
            assert(m0.fmap().dom().contains(f));
            assert(f0.dom().contains(f) && f0[f] == fmap0[f]);
            assert(f < next0);
            assert(!all0.contains(f));
            assert(f != r);
        }
    }
    assert forall|x: u64| #[trigger] all1.contains(x) implies group.contains(x) || next0 <= x by {
        if x != r {
            assert(all0.contains(x));
        }
    }
    assert forall|x: u64| #[trigger] all1.contains(x) implies group.contains(x) || f1.dom().contains(x) by {
        if x != r {
            assert(all0.contains(x));
        }
    }
    assert forall|g: u64| #[trigger] group.contains(g) && !all1.contains(g) implies !f1.dom().contains(g) by {
        if g != a && g != b {
            assert(!all0.contains(g));
            assert(!f0.dom().contains(g));
        }
    }
}

impl<D> HedgeMesh<D> {
    /// Whether face `f` is in the mesh, with all its half-edges, each of
    /// whose twins, if any, is in the mesh too.
    pub open spec fn well_linked(&self, f: FaceKey) -> bool {
        &&& self.fmap().dom().contains(f.key_id())
        &&& self.face_edges_exist(f)
        &&& forall|i: int|
            0 <= i < self.fmap()[f.key_id()].edges@.len() ==> twin_present(
                self.emap(),
                #[trigger] self.emap()[self.fmap()[f.key_id()].edges@[i].key_id()],
            )
    }

    /// Whether face `f` is in the mesh, with all its half-edges, each of
    /// whose twins, if any, is in the mesh too.
    pub fn face_well_linked(&self, f: FaceKey) -> (r: bool)
        ensures
            r == self.well_linked(f),
    {
        let face = match self.faces.get(f) {
            Some(face) => face,
            None => {
                return false;
            },
        };
        let mut i: usize = 0;
        while i < face.edges.len()
            invariant
                i <= face.edges@.len(),
                *face == self.fmap()[f.key_id()],
                forall|k: int| 0 <= k < i ==> self.emap().dom().contains((#[trigger] face.edges@[k]).key_id()),
                forall|k: int|
                    0 <= k < i ==> twin_present(self.emap(), #[trigger] self.emap()[face.edges@[k].key_id()]),
            decreases face.edges@.len() - i,
        {
            let edge = match self.edges.get(face.edges[i]) {
                Some(e) => *e,
                None => {
                    assert(!self.emap().dom().contains(self.fmap()[f.key_id()].edges@[i as int].key_id()));
                    return false;
                },
            };
            if let Some(twin) = edge.twin_edge {
                if !self.edges.contains(twin) {
                    assert(!twin_present(self.emap(), self.emap()[self.fmap()[f.key_id()].edges@[i as int].key_id()]));
                    return false;
                }
            }
            i = i + 1;
        }
        true
    }

    /// Finds a face of the group, in the order in which the group's set lists
    /// them, with a neighbor in the group sharing one contiguous border with
    /// it; `Err` when a face met is missing from the mesh, or one of its
    /// half-edges or twins is.
    fn find_mergeable(&self, all_faces: &IdSet) -> (r: Result<Option<(FaceKey, FaceKey)>, ()>)
        ensures
            search_found(*self, id_set_contents(*all_faces), r),
    {
        let members = all_faces.to_vec();
        let ghost all = id_set_contents(*all_faces);
        let mut k: usize = 0;
        while k < members.len()
            invariant
                k <= members@.len(),
                all == id_set_contents(*all_faces),
                members@.to_set() == all,
                forall|kk: int| 0 <= kk < k ==> #[trigger] settled_face(*self, all, members@[kk]),
            decreases members@.len() - k,
        {
            let f = FaceKey::new(members[k]);
            assert(members@.to_set().contains(members@[k as int]));
            if !self.face_well_linked(f) {
                assert(id_set_contents(*all_faces).contains(members@[k as int]));
                return Err(());
            }
            let neighbors = self.face_neighbors(f);
            let mut j: usize = 0;
            while j < neighbors.len()
                invariant
                    j <= neighbors@.len(),
                    self.well_linked(f),
                    neighbors@ == twin_faces(self.emap(), self.fmap()[f.key_id()].edges@),
                    id_set_contents(*all_faces).contains(f.key_id()),
                    all == id_set_contents(*all_faces),
                    f == FaceKey::from_id(members@[k as int]),
                    f.key_id() == members@[k as int],
                    forall|jj: int|
                        0 <= jj < j && all.contains((#[trigger] neighbors@[jj]).key_id()) ==> self.fmap().dom().contains(
                            neighbors@[jj].key_id(),
                        ) && border_breaks(
                            self.emap(),
                            border_set(self.emap(), self.fmap()[f.key_id()], self.fmap()[neighbors@[jj].key_id()]),
                        ) != 2,
                decreases neighbors@.len() - j,
            {
                let n = neighbors[j];
                assert(neighbors@.contains(neighbors@[j as int]));
                if all_faces.contains(n.get()) {
                    if !self.faces.contains(n) {
                        assert(twin_faces(self.emap(), self.fmap()[f.key_id()].edges@).contains(n));
                        return Err(());
                    }
                    if self.faces_share_contiguous_border(f, n) {
                        return Ok(Some((f, n)));
                    }
                }
                j = j + 1;
            }
            proof {
                assert forall|n: FaceKey|
                    #[trigger] twin_faces(self.emap(), self.fmap()[members@[k as int]].edges@).contains(n) && all.contains(
                        n.key_id(),
                    ) implies self.fmap().dom().contains(n.key_id()) && border_breaks(
                    self.emap(),
                    border_set(self.emap(), self.fmap()[members@[k as int]], self.fmap()[n.key_id()]),
                ) != 2 by {
                    let jj = choose|jj: int| 0 <= jj < neighbors@.len() && neighbors@[jj] == n;
                }
                assert(settled_face(*self, all, members@[k as int]));
            }
            k = k + 1;
        }
        proof {
            assert forall|x: u64| #[trigger] all.contains(x) implies settled_face(*self, all, x) by {
                assert(members@.to_set().contains(x));
                let kk = choose|kk: int| 0 <= kk < members@.len() && members@[kk] == x;
                assert(settled_face(*self, all, members@[kk]));
            }
        }
        Ok(None)
    }

    /// Merges two faces, stating only how the faces change.
    fn merge_pair_in_group(&mut self, a: FaceKey, b: FaceKey) -> (r: FaceKey)
        requires
            old(self).wf(),
            old(self).next_ids().2 < INVALID_ID,
            merge_pair_safe(old(self).emap(), old(self).fmap(), a, b),
        ensures
            final(self).wf(),
            final(self).vmap() == old(self).vmap(),
            old(self).next_ids().2 <= final(self).next_ids().2 <= old(self).next_ids().2 + 1,
            pair_outcome(old(self).fmap(), final(self).fmap(), a.key_id(), b.key_id(), r.key_id(), old(self).next_ids().2),
            merged_as(*old(self), *final(self), a, b, r),
    {
        self.merge_face_pair(a, b)
    }

    /// Merges two faces of the group, and puts the merged face in their
    /// place in the group.
    fn merge_into_group(
        &mut self,
        all_faces: &mut IdSet,
        face: FaceKey,
        neighbor: FaceKey,
        Ghost(group): Ghost<Set<u64>>,
        Ghost(next0): Ghost<u64>,
        Ghost(fmap0): Ghost<Map<u64, Face>>,
        Ghost(bound): Ghost<int>,
    )
        requires
            old(self).wf(),
            merge_pair_safe(old(self).emap(), old(self).fmap(), face, neighbor),
            id_set_contents(*old(all_faces)).contains(face.key_id()),
            id_set_contents(*old(all_faces)).contains(neighbor.key_id()),
            group_kept(*old(self), id_set_contents(*old(all_faces)), group, next0, fmap0, bound),
        ensures
            final(self).wf(),
            final(self).vmap() == old(self).vmap(),
            group_kept(*final(self), id_set_contents(*final(all_faces)), group, next0, fmap0, bound),
            id_set_contents(*final(all_faces)).len() < id_set_contents(*old(all_faces)).len(),
            id_set_contents(*final(all_faces)).len() > 0,
            exists|r: FaceKey|
                #[trigger] merged_as(*old(self), *final(self), face, neighbor, r) && id_set_contents(*final(all_faces))
                    == id_set_contents(*old(all_faces)).remove(face.key_id()).remove(neighbor.key_id()).insert(r.key_id()),
    {
        let ghost set_before = id_set_contents(*all_faces);
        let ghost m0 = *self;
        proof {
            self.lemma_ids();
        }
        let new_face = self.merge_pair_in_group(face, neighbor);
        all_faces.remove(face.get());
        all_faces.remove(neighbor.get());
        all_faces.insert(new_face.get());
        proof {
            lemma_group_step(m0, *self, set_before, face.key_id(), neighbor.key_id(), new_face.key_id(), group, next0, fmap0, bound);
            if id_set_contents(*all_faces).len() == 0 {
                id_set_contents(*all_faces).lemma_len0_is_empty();
                assert(id_set_contents(*all_faces).contains(new_face.key_id()));
            }
        }
    }

    /// Merges a group of faces: while some face of the group has a neighbor
    /// in the group sharing one contiguous border with it, the two are merged
    /// and the merged face takes their place in the group. Returns the one
    /// face left; `None` when none or more than one is left, or when a face met is
    /// missing from the mesh (or a half-edge of it), or a pair found cannot
    /// be merged.
    ///
    /// # Invariants
    /// - The faces must form a contiguous group.
    /// - The faces must be coplanar.
    /// - All faces must be valid according to `is_valid_face`.
    /// - Adjacent faces must share a contiguous border.
    #[verifier::rlimit(60)]
    #[verifier::spinoff_prover]
    pub fn merge_face_group(&mut self, face_group: &[FaceKey]) -> (r: Option<FaceKey>)
        requires
            old(self).wf(),
            old(self).next_ids().2 + face_group@.len() < INVALID_ID,
        ensures
            final(self).wf(),
            final(self).vmap() == old(self).vmap(),
            untouched_outside(old(self).fmap(), final(self).fmap(), group_ids(face_group@)),
            r matches Some(k) ==> merged_into(final(self).fmap(), group_ids(face_group@), k.key_id()),
            face_group@.len() == 0 ==> r is None && *final(self) == *old(self),
            lone_face(*old(self), face_group@) ==> r == Some(face_group@[0]) && *final(self) == *old(self),
            r is None ==> face_group@.len() == 0 || exists|left: Set<u64>|
                group_left(final(self).fmap(), group_ids(face_group@), old(self).next_ids().2, left)
                    && #[trigger] group_stuck(*final(self), left),
            face_group@.len() == 2 && mergeable_pair(*old(self), face_group@[0], face_group@[1])
                ==> !(final(self).fmap().dom().contains(face_group@[0].key_id())
                && final(self).fmap().dom().contains(face_group@[1].key_id())),
            face_group@.len() == 2 && mergeable_pair(*old(self), face_group@[0], face_group@[1]) ==> (r matches Some(k)
                && k.key_id() == old(self).next_ids().2),
    {
        let ghost group = group_ids(face_group@);
        let ghost pair = face_group@.len() == 2 && mergeable_pair(*old(self), face_group@[0], face_group@[1]);
        let ghost next0 = self.next_ids().2;
        let ghost lone = lone_face(*self, face_group@);
        let mut all_faces = IdSet::new();
        let mut i: usize = 0;
        while i < face_group.len()
            invariant
                i <= face_group@.len(),
                id_set_contents(all_faces) == group_ids(face_group@.take(i as int)),
                id_set_contents(all_faces).finite(),
                id_set_contents(all_faces).len() <= i,
            decreases face_group@.len() - i,
        {
            all_faces.insert(face_group[i].get());
            i = i + 1;
            assert(id_set_contents(all_faces) =~= group_ids(face_group@.take(i as int))) by {
                assert forall|id: u64| id_set_contents(all_faces).contains(id) implies group_ids(face_group@.take(i as int)).contains(id) by {
                    if id == face_group@[i - 1].key_id() {
                        assert(face_group@.take(i as int)[i - 1] == face_group@[i - 1]);
                    } else {
                        let k = choose|k: int| 0 <= k < i - 1 && (#[trigger] face_group@.take(i - 1)[k]).key_id() == id;
                        assert(face_group@.take(i as int)[k] == face_group@.take(i - 1)[k]);
                    }
                }
                assert forall|id: u64| group_ids(face_group@.take(i as int)).contains(id) implies id_set_contents(all_faces).contains(id) by {
                    let k = choose|k: int| 0 <= k < i && (#[trigger] face_group@.take(i as int)[k]).key_id() == id;
                    if k < i - 1 {
                        assert(face_group@.take(i - 1)[k] == face_group@.take(i as int)[k]);
                        assert(group_ids(face_group@.take(i - 1)).contains(id));
                    }
                }
            }
        }
        assert(face_group@.take(face_group@.len() as int) =~= face_group@);
        proof {
            self.lemma_ids();
        }
        let ghost fmap0 = self.fmap();
        let ghost bound = next0 + face_group@.len();
        let ghost mut merged = false;
        proof {
            if face_group@.len() > 0 && id_set_contents(all_faces).len() == 0 {
                id_set_contents(all_faces).lemma_len0_is_empty();
                assert(group.contains(face_group@[0].key_id()));
            }
        }
        loop
            invariant
                self.wf(),
                self.vmap() == old(self).vmap(),
                fmap0 == old(self).fmap(),
                group == group_ids(face_group@),
                group_kept(*self, id_set_contents(all_faces), group, next0, fmap0, bound),
                !merged ==> *self == *old(self) && id_set_contents(all_faces) == group,
                lone || face_group@.len() == 0 ==> !merged,
                lone == lone_face(*old(self), face_group@),
                face_group@.len() > 0 ==> id_set_contents(all_faces).len() > 0,
                pair == (face_group@.len() == 2 && mergeable_pair(*old(self), face_group@[0], face_group@[1])),
                pair && merged ==> id_set_contents(all_faces).len() <= 1,
                pair && merged ==> settled_new_face(*self, id_set_contents(all_faces), next0),
                next0 == old(self).next_ids().2,
            ensures
                group_settled(*self, id_set_contents(all_faces)),
                pair ==> merged,
            decreases id_set_contents(all_faces).len(),
        {
            let found = self.find_mergeable(&all_faces);
            proof {
                if lone {
                    assert(id_set_contents(all_faces) == set![face_group@[0].key_id()]);
                    lemma_lone_search(*self, id_set_contents(all_faces), face_group@[0], found);
                }
                if face_group@.len() == 0 {
                    assert(group =~= Set::<u64>::empty());
                    lemma_empty_search(*self, id_set_contents(all_faces), found);
                }
                if pair {
                    let a = face_group@[0];
                    let b = face_group@[1];
                    assert(group.contains(a.key_id()));
                    assert(group.contains(b.key_id()));
                    FaceKey::lemma_key_id(a, a.key_id());
                    FaceKey::lemma_key_id(b, b.key_id());
                    assert(a != b) by {
                        reveal(mergeable_pair);
                    }
                    if !merged {
                        assert(group =~= set![a.key_id(), b.key_id()]);
                        lemma_pair_found(*self, id_set_contents(all_faces), a, b, found);
                    } else {
                        lemma_pair_gone(self.fmap(), id_set_contents(all_faces), group, a.key_id(), b.key_id());
                        let x = FaceKey::from_id(next0);
                        FaceKey::lemma_key_id(x, next0);
                        lemma_lone_search(*self, id_set_contents(all_faces), x, found);
                    }
                }
            }
            let (face, neighbor) = match found {
                Err(()) => {
                    proof {
                        assert(group_left(self.fmap(), group, next0, id_set_contents(all_faces)));
                        assert(group_stuck(*self, id_set_contents(all_faces)));
                    }
                    return None;
                },
                Ok(None) => {
                    break;
                },
                Ok(Some(p)) => p,
            };
            if !self.can_merge_pair(face, neighbor) {
                proof {
                    lemma_refused_stuck(*self, id_set_contents(all_faces), (face, neighbor));
                    assert(group_left(self.fmap(), group, next0, id_set_contents(all_faces)));
                }
                return None;
            }
            let ghost m_before = *self;
            let ghost all_before = id_set_contents(all_faces);
            self.merge_into_group(&mut all_faces, face, neighbor, Ghost(group), Ghost(next0), Ghost(fmap0), Ghost(bound));
            proof {
                if pair && !merged {
                    let a = face_group@[0];
                    let b = face_group@[1];
                    let r = choose|r: FaceKey|
                        #[trigger] merged_as(m_before, *self, face, neighbor, r) && id_set_contents(all_faces)
                            == all_before.remove(face.key_id()).remove(neighbor.key_id()).insert(r.key_id());
                    reveal(mergeable_pair);
                    assert(group.contains(a.key_id()));
                    assert(group.contains(b.key_id()));
                    FaceKey::lemma_key_id(a, a.key_id());
                    FaceKey::lemma_key_id(b, b.key_id());
                    assert(all_before =~= set![a.key_id(), b.key_id()]);
                    assert((face == a && neighbor == b) || (face == b && neighbor == a));
                    lemma_merged_face_settles(m_before, *self, face, neighbor, r);
                    FaceKey::lemma_key_id(r, r.key_id());
                    assert(id_set_contents(all_faces) =~= set![next0]);
                }
                merged = true;
            }
        }
        proof {
            if lone {
                let f = face_group@[0];
                assert(group =~= set![f.key_id()]);
                assert(id_set_contents(all_faces).len() == 1) by {
                    assert(set![f.key_id()].len() == 1);
                }
            }
            if face_group@.len() == 0 {
                assert(group =~= Set::<u64>::empty());
            }
        }
        proof {
            if pair {
                let a = face_group@[0];
                let b = face_group@[1];
                assert(group.contains(a.key_id()));
                assert(group.contains(b.key_id()));
                FaceKey::lemma_key_id(a, a.key_id());
                FaceKey::lemma_key_id(b, b.key_id());
                assert(a != b) by {
                    reveal(mergeable_pair);
                }
                lemma_pair_gone(self.fmap(), id_set_contents(all_faces), group, a.key_id(), b.key_id());
            }
        }
        proof {
            if pair {
                assert(set![next0].len() == 1);
            }
        }
        match sole_member(&all_faces) {
            Some(id) => {
                let k = FaceKey::new(id);
                proof {
                    if pair {
                        assert(id_set_contents(all_faces).contains(next0));
                    }
                }
                proof {
                    if lone {
                        let f = face_group@[0];
                        assert(id_set_contents(all_faces).contains(f.key_id()));
                        FaceKey::lemma_key_id(f, f.key_id());
                        assert(k == f);
                    }
                }
                assert(merged_into(self.fmap(), group, k.key_id())) by {
                    assert(id_set_contents(all_faces).contains(id));
                }
                Some(k)
            },
            None => {
                proof {
                    if face_group@.len() > 0 {
                        assert(group_left(self.fmap(), group, next0, id_set_contents(all_faces)));
                        assert(group_stuck(*self, id_set_contents(all_faces)));
                    }
                }
                None
            },
        }
    }
}

/// What building a mesh from triangles and vertices gives: vertex `i`
/// (a clone of `vertices[i]`), face `t` bounded by half-edges `3t`, `3t + 1`
/// and `3t + 2` (the sides of triangle `t`), each key not yet filled in, and
/// twins linked between half-edges running both ways between two vertices.
pub open spec fn built_from<D: Clone>(m: HedgeMesh<D>, triangles: Seq<(usize, usize, usize)>, vertices: Seq<D>) -> bool {
    &&& m.wf()
    &&& m.next_ids() == (vertices.len() as u64, (3 * triangles.len()) as u64, triangles.len() as u64)
    &&& forall|id: u64| #[trigger] m.vmap().dom().contains(id) <==> id < vertices.len()
    &&& forall|id: u64|
        #[trigger] m.vmap().dom().contains(id) ==> m.vmap()[id].id == VertexKey::from_id(INVALID_ID) && cloned(
            vertices[id as int],
            m.vmap()[id].data,
        )
    &&& forall|id: u64| #[trigger] m.fmap().dom().contains(id) <==> id < triangles.len()
    &&& forall|id: u64|
        #[trigger] m.fmap().dom().contains(id) ==> m.fmap()[id].id == FaceKey::from_id(INVALID_ID)
            && m.fmap()[id].edges@ == seq![
            EdgeKey::from_id((3 * id) as u64),
            EdgeKey::from_id((3 * id + 1) as u64),
            EdgeKey::from_id((3 * id + 2) as u64),
        ]
    &&& m.emap() == with_twins(built_edges(triangles), id_range(3 * triangles.len()))
}

/// What reading a triangular mesh back gives: nothing for a mesh without
/// faces; otherwise clones of the vertices' data in ascending key order,
/// and for each face in ascending key order the positions, in that order,
/// of the vertices its half-edges start at.
pub open spec fn read_back<D: Clone>(m: HedgeMesh<D>, triangles: Seq<(usize, usize, usize)>, vertices: Seq<D>) -> bool {
    &&& m.face_ids().len() == 0 ==> triangles.len() == 0 && vertices.len() == 0
    &&& m.face_ids().len() > 0 ==> {
        &&& vertices.len() == m.vertex_ids().len()
        &&& forall|i: int| 0 <= i < vertices.len() ==> cloned(m.vmap()[m.vertex_ids()[i]].data, #[trigger] vertices[i])
        &&& triangles.len() == m.face_ids().len()
        &&& forall|i: int, j: int|
            0 <= i < triangles.len() && 0 <= j < 3 ==> #[trigger] corner(triangles[i], j) < m.vertex_ids().len()
                && m.vertex_ids()[corner(triangles[i], j) as int] == m.emap()[m.fmap()[m.face_ids()[i]].edges@[j].key_id()].origin_vertex.key_id()
    }
}

/// Building a mesh from triangles and reading it back gives the same
/// triangles, and a clone of a clone of each vertex's data.
pub proof fn lemma_buffers_roundtrip<D: Clone>(
    m: HedgeMesh<D>,
    triangles: Seq<(usize, usize, usize)>,
    vertices: Seq<D>,
    out_triangles: Seq<(usize, usize, usize)>,
    out_vertices: Seq<D>,
)
    requires
        built_from(m, triangles, vertices),
        read_back(m, out_triangles, out_vertices),
        triangles.len() > 0,
        vertices.len() < INVALID_ID,
        3 * triangles.len() < INVALID_ID,
    ensures
        out_triangles == triangles,
        out_vertices.len() == vertices.len(),
        forall|i: int| 0 <= i < vertices.len() ==> cloned_twice(vertices[i], #[trigger] out_vertices[i]),
{
    assert forall|id: u64| id < m.vertices.next_id() implies #[trigger] m.vertices.map().dom().contains(id) by {
        assert(m.vmap().dom().contains(id));
    }
    assert forall|id: u64| id < m.faces.next_id() implies #[trigger] m.faces.map().dom().contains(id) by {
        assert(m.fmap().dom().contains(id));
    }
    m.vertices.lemma_key_ids_full();
    m.faces.lemma_key_ids_full();
    m.lemma_ids();
    let nv = vertices.len();
    let nt = triangles.len();
    assert(m.vertex_ids() == Seq::new(nv as nat, |i: int| i as u64));
    assert(m.face_ids() == Seq::new(nt as nat, |i: int| i as u64));
    assert(m.fmap().dom().contains(0));
    assert forall|i: int| 0 <= i < nv implies cloned_twice(vertices[i], #[trigger] out_vertices[i]) by {
        assert(m.vertex_ids()[i] == i as u64);
        assert(m.vmap().dom().contains(i as u64));
        let x = m.vmap()[i as u64].data;
        assert(cloned(vertices[i], x));
        assert(cloned(x, out_vertices[i]));
    }
    assert forall|i: int| 0 <= i < nt implies #[trigger] out_triangles[i] == triangles[i] by {
        let f = i as u64;
        assert(m.face_ids()[i] == f);
        assert(m.fmap().dom().contains(f));
        assert forall|j: int| 0 <= j < 3 implies #[trigger] corner(out_triangles[i], j) == corner(triangles[i], j) by {
            let eid = (3 * i + j) as u64;
            EdgeKey::lemma_key_id(EdgeKey::from_id(eid), eid);
            assert(m.fmap()[f].edges@[j] == EdgeKey::from_id(eid));
            assert(eid / 3 == i && eid % 3 == j);
            let c = corner(triangles[i], j) as u64;
            VertexKey::lemma_key_id(VertexKey::from_id(c), c);
            assert(m.emap()[eid].origin_vertex == VertexKey::from_id(c));
            let k = corner(out_triangles[i], j);
            assert(m.vertex_ids()[k as int] == k as u64);
        }
        assert(corner(out_triangles[i], 0) == corner(triangles[i], 0));
        assert(corner(out_triangles[i], 1) == corner(triangles[i], 1));
        assert(corner(out_triangles[i], 2) == corner(triangles[i], 2));
    }
    assert(out_triangles =~= triangles);
}

impl<D: Clone> HedgeMesh<D> {
    /// Builds a mesh from a list of triangles and vertices.
    ///
    /// Vertex `i` gets key `i`, triangle `t` becomes face `t`, bounded by
    /// half-edges `3t`, `3t + 1` and `3t + 2`; each half-edge is then linked
    /// to its twin. The vertices and faces keep the placeholder key as their
    /// own `id` until `regenerate_invalid_keys` is called.
    pub fn from_buffers(triangles: &[(usize, usize, usize)], vertices: &[D]) -> (m: Self)
        requires
            vertices@.len() < INVALID_ID,
            3 * triangles@.len() < INVALID_ID,
            forall|t: int, j: int|
                0 <= t < triangles@.len() && 0 <= j < 3 ==> #[trigger] corner(triangles@[t], j)
                    < vertices@.len(),
        ensures
            built_from(m, triangles@, vertices@),
    {
        let mut vertex_storage: Storage<VertexKey, Vertex<D>> = Storage::new();
        let mut edge_storage: Storage<EdgeKey, Edge> = Storage::new();
        let mut face_storage: Storage<FaceKey, Face> = Storage::new();

        // all the vertices as keys in the original order
        let mut vertex_keys: Vec<VertexKey> = Vec::new();
        let mut i: usize = 0;
        while i < vertices.len()
            invariant
                i <= vertices@.len(),
                vertices@.len() < INVALID_ID,
                vertex_storage.wf(),
                vertex_storage.next_id() == i,
                vertex_keys.len() == i,
                forall|j: int| 0 <= j < i ==> (#[trigger] vertex_keys@[j]).key_id() == j,
                forall|id: u64| #[trigger] vertex_storage.map().dom().contains(id) <==> id < i,
                forall|id: u64|
                    #[trigger] vertex_storage.map().dom().contains(id) ==> vertex_storage.map()[id].id
                        == VertexKey::from_id(INVALID_ID) && cloned(
                        vertices@[id as int],
                        vertex_storage.map()[id].data,
                    ),
            decreases vertices@.len() - i,
        {
            let key = vertex_storage.add(Vertex { id: VertexKey::invalid(), data: vertices[i].clone() });
            proof {
                VertexKey::lemma_key_id(key, INVALID_ID);
            }
            vertex_keys.push(key);
            i = i + 1;
        }

        let mut t: usize = 0;
        while t < triangles.len()
            invariant
                t <= triangles@.len(),
                3 * triangles@.len() < INVALID_ID,
                forall|t: int, j: int|
                    0 <= t < triangles@.len() && 0 <= j < 3 ==> #[trigger] corner(triangles@[t], j)
                        < vertices@.len(),
                vertex_keys.len() == vertices@.len(),
                forall|j: int| 0 <= j < vertex_keys.len() ==> (#[trigger] vertex_keys@[j]).key_id() == j,
                edge_storage.wf(),
                face_storage.wf(),
                edge_storage.next_id() == 3 * t,
                face_storage.next_id() == t,
                forall|id: u64| #[trigger] edge_storage.map().dom().contains(id) <==> id < 3 * t,
                forall|id: u64|
                    #[trigger] edge_storage.map().dom().contains(id) ==> edge_storage.map()[id]
                        == built_edge(triangles@, id as int),
                forall|id: u64| #[trigger] face_storage.map().dom().contains(id) <==> id < t,
                forall|id: u64|
                    #[trigger] face_storage.map().dom().contains(id) ==> face_storage.map()[id].id
                        == FaceKey::from_id(INVALID_ID) && face_storage.map()[id].edges@ == seq![
                        EdgeKey::from_id((3 * id) as u64),
                        EdgeKey::from_id((3 * id + 1) as u64),
                        EdgeKey::from_id((3 * id + 2) as u64),
                    ],
            decreases triangles@.len() - t,
        {
            let (a, b, c) = triangles[t];
            assert(corner(triangles@[t as int], 0) < vertices@.len());
            assert(corner(triangles@[t as int], 1) < vertices@.len());
            assert(corner(triangles@[t as int], 2) < vertices@.len());
            let face_key = face_storage.add(Face { id: FaceKey::invalid(), edges: Vec::new() });
            let placeholder = Edge {
                id: EdgeKey::invalid(),
                origin_vertex: vertex_keys[a],
                target_vertex: vertex_keys[b],
                face: face_key,
                next_edge: EdgeKey::invalid(),
                prev_edge: EdgeKey::invalid(),
                twin_edge: None,
            };
            let ab = edge_storage.add(placeholder);
            let bc = edge_storage.add(
                Edge { origin_vertex: vertex_keys[b], target_vertex: vertex_keys[c], ..placeholder },
            );
            let ca = edge_storage.add(
                Edge { origin_vertex: vertex_keys[c], target_vertex: vertex_keys[a], ..placeholder },
            );
            edge_storage.set(
                ab,
                Edge {
                    id: ab,
                    origin_vertex: vertex_keys[a],
                    target_vertex: vertex_keys[b],
                    face: face_key,
                    next_edge: bc,
                    prev_edge: ca,
                    twin_edge: None,
                },
            );
            edge_storage.set(
                bc,
                Edge {
                    id: bc,
                    origin_vertex: vertex_keys[b],
                    target_vertex: vertex_keys[c],
                    face: face_key,
                    next_edge: ca,
                    prev_edge: ab,
                    twin_edge: None,
                },
            );
            edge_storage.set(
                ca,
                Edge {
                    id: ca,
                    origin_vertex: vertex_keys[c],
                    target_vertex: vertex_keys[a],
                    face: face_key,
                    next_edge: ab,
                    prev_edge: bc,
                    twin_edge: None,
                },
            );
            face_storage.set(face_key, Face { id: FaceKey::invalid(), edges: vec![ab, bc, ca] });
            proof {
                let tt = t as int;
                FaceKey::lemma_key_id(face_key, tt as u64);
                EdgeKey::lemma_key_id(ab, (3 * tt) as u64);
                EdgeKey::lemma_key_id(bc, (3 * tt + 1) as u64);
                EdgeKey::lemma_key_id(ca, (3 * tt + 2) as u64);
                VertexKey::lemma_key_id(vertex_keys@[a as int], a as u64);
                VertexKey::lemma_key_id(vertex_keys@[b as int], b as u64);
                VertexKey::lemma_key_id(vertex_keys@[c as int], c as u64);
                assert((3 * tt) / 3 == tt && (3 * tt) % 3 == 0);
                assert((3 * tt + 1) / 3 == tt && (3 * tt + 1) % 3 == 1);
                assert((3 * tt + 2) / 3 == tt && (3 * tt + 2) % 3 == 2);
                assert(edge_storage.map()[(3 * tt) as u64] == built_edge(triangles@, 3 * tt));
                assert(edge_storage.map()[(3 * tt + 1) as u64] == built_edge(triangles@, 3 * tt + 1));
                assert(edge_storage.map()[(3 * tt + 2) as u64] == built_edge(triangles@, 3 * tt + 2));
            }
            t = t + 1;
        }

        let mut hedge_mesh = Self { vertices: vertex_storage, edges: edge_storage, faces: face_storage };
        proof {
            edge_storage.lemma_key_ids_full();
            assert(edge_storage.map() =~= built_edges(triangles@));
            assert(hedge_mesh.edge_ids() == id_range(3 * triangles@.len()));
        }
        hedge_mesh.fix_edge_twin_keys();
        hedge_mesh
    }

    /// Converts a mesh to a list of triangles and vertices.
    ///
    /// The vertices come in ascending key order; each face, in ascending key
    /// order, gives the triangle of the positions (in that vertex list) of the
    /// origins of its three half-edges.
    ///
    /// # Invariants
    /// The arity of the mesh must be exactly 3.
    pub fn to_buffers(&self) -> (r: (Vec<(usize, usize, usize)>, Vec<D>))
        requires
            self.wf(),
            forall|f: u64| #[trigger] self.fmap().dom().contains(f) ==> self.fmap()[f].edges@.len() == 3,
            forall|f: u64, j: int|
                #[trigger] self.fmap().dom().contains(f) && 0 <= j < 3 ==> self.emap().dom().contains(
                    (#[trigger] self.fmap()[f].edges@[j]).key_id(),
                ) && self.vmap().dom().contains(
                    self.emap()[self.fmap()[f].edges@[j].key_id()].origin_vertex.key_id(),
                ),
        ensures
            read_back(*self, r.0@, r.1@),
    {
        proof {
            self.lemma_ids();
        }
        if self.faces.is_empty() {
            return (Vec::new(), Vec::new());
        }
        let ghost vids = self.vertex_ids();
        let ghost fids = self.face_ids();
        let mut triangles: Vec<(usize, usize, usize)> = Vec::new();
        let mut vertices: Vec<D> = Vec::new();

        // A map from vertex keys to indices in the new vertex array, in
        // ascending key order.
        let mut vertex_map = IdMap::new();
        let vertex_keys = self.vertices.iter_keys();
        let mut i: usize = 0;
        while i < vertex_keys.len()
            invariant
                self.wf(),
                i <= vertex_keys.len(),
                vertex_keys.len() == vids.len(),
                vids == self.vertex_ids(),
                forall|j: int| 0 <= j < vertex_keys.len() ==> (#[trigger] vertex_keys@[j]).key_id() == vids[j],
                forall|id: u64| vids.contains(id) <==> #[trigger] self.vmap().dom().contains(id),
                forall|a: int, b: int| 0 <= a < b < vids.len() ==> vids[a] < vids[b],
                vertices.len() == i,
                forall|j: int|
                    0 <= j < i ==> cloned(self.vmap()[vids[j]].data, #[trigger] vertices@[j]),
                forall|id: u64|
                    #[trigger] id_map_contents(vertex_map).dom().contains(id) <==> seen_prefix(
                        vids,
                        i as int,
                        id,
                    ),
                forall|id: u64|
                    #[trigger] id_map_contents(vertex_map).dom().contains(id) ==> {
                        let p = id_map_contents(vertex_map)[id];
                        p < i && vids[p as int] == id
                    },
            decreases vertex_keys.len() - i,
        {
            let key = vertex_keys[i];
            assert(vids.contains(vids[i as int]));
            assert(self.vmap().dom().contains(key.key_id()));
            vertex_map.insert(key.get(), i as u64);
            vertices.push(self.vertices.get(key).unwrap().data.clone());
            proof {
                assert forall|id: u64| seen_prefix(vids, i + 1, id) <==> (seen_prefix(vids, i as int, id) || id == key.key_id()) by {
                    if seen_prefix(vids, i + 1, id) && id != key.key_id() {
                        let j = choose|j: int| 0 <= j < i + 1 && #[trigger] vids[j] == id;
                        assert(j < i);
                    }
                    if id == key.key_id() {
                        assert(vids[i as int] == id);
                    }
                }
            }
            i = i + 1;
        }

        // build the triangle array
        let faces = self.faces.iter();
        let mut k: usize = 0;
        while k < faces.len()
            invariant
                self.wf(),
                k <= faces.len(),
                faces.len() == fids.len(),
                fids == self.face_ids(),
                vids == self.vertex_ids(),
                forall|j: int| 0 <= j < faces.len() ==> *(#[trigger] faces@[j]) == self.fmap()[fids[j]],
                forall|id: u64| fids.contains(id) <==> #[trigger] self.fmap().dom().contains(id),
                forall|id: u64| vids.contains(id) <==> #[trigger] self.vmap().dom().contains(id),
                forall|f: u64| #[trigger] self.fmap().dom().contains(f) ==> self.fmap()[f].edges@.len() == 3,
                forall|f: u64, j: int|
                    #[trigger] self.fmap().dom().contains(f) && 0 <= j < 3 ==> self.emap().dom().contains(
                        (#[trigger] self.fmap()[f].edges@[j]).key_id(),
                    ) && self.vmap().dom().contains(
                        self.emap()[self.fmap()[f].edges@[j].key_id()].origin_vertex.key_id(),
                    ),
                forall|id: u64|
                    #[trigger] id_map_contents(vertex_map).dom().contains(id) <==> seen_prefix(
                        vids,
                        vids.len() as int,
                        id,
                    ),
                forall|id: u64|
                    #[trigger] id_map_contents(vertex_map).dom().contains(id) ==> {
                        let p = id_map_contents(vertex_map)[id];
                        p < vids.len() && vids[p as int] == id
                    },
                triangles.len() == k,
                vids.len() <= usize::MAX,
                forall|i: int, j: int|
                    0 <= i < k && 0 <= j < 3 ==> #[trigger] corner(triangles@[i], j) < vids.len()
                        && vids[corner(triangles@[i], j) as int]
                        == self.emap()[self.fmap()[fids[i]].edges@[j].key_id()].origin_vertex.key_id(),
            decreases faces.len() - k,
        {
            let face = faces[k];
            assert(fids.contains(fids[k as int]));
            assert(self.fmap().dom().contains(fids[k as int]));
            let mut corners: Vec<usize> = Vec::new();
            let mut j: usize = 0;
            while j < 3
                invariant
                    j <= 3,
                    *face == self.fmap()[fids[k as int]],
                    self.fmap().dom().contains(fids[k as int]),
                    face.edges@.len() == 3,
                    forall|jj: int|
                        0 <= jj < 3 ==> self.emap().dom().contains(
                            (#[trigger] face.edges@[jj]).key_id(),
                        ) && self.vmap().dom().contains(
                            self.emap()[face.edges@[jj].key_id()].origin_vertex.key_id(),
                        ),
                    forall|id: u64| vids.contains(id) <==> #[trigger] self.vmap().dom().contains(id),
                    forall|id: u64|
                        #[trigger] id_map_contents(vertex_map).dom().contains(id) <==> seen_prefix(
                            vids,
                            vids.len() as int,
                            id,
                        ),
                    forall|id: u64|
                        #[trigger] id_map_contents(vertex_map).dom().contains(id) ==> {
                            let p = id_map_contents(vertex_map)[id];
                            p < vids.len() && vids[p as int] == id
                        },
                    corners.len() == j,
                    vids.len() <= usize::MAX,
                    forall|jj: int|
                        0 <= jj < j ==> (#[trigger] corners@[jj]) < vids.len() && vids[corners@[jj] as int]
                            == self.emap()[face.edges@[jj].key_id()].origin_vertex.key_id(),
                decreases 3 - j,
            {
                assert(self.fmap().dom().contains(fids[k as int]) && 0 <= j < 3);
                assert(self.emap().dom().contains(face.edges@[j as int].key_id()));
                let edge = self.edges.get(face.edges[j]).unwrap();
                let v = edge.origin_vertex.get();
                assert(vids.contains(v));
                assert(self.vmap().dom().contains(v));
                assert(seen_prefix(vids, vids.len() as int, v)) by {
                    let w = choose|w: int| 0 <= w < vids.len() && vids[w] == v;
                    assert(vids[w] == v);
                }
                let p = vertex_map.get(v).unwrap();
                assert(vids[p as int] == v);
                assert(v == self.emap()[face.edges@[j as int].key_id()].origin_vertex.key_id());
                corners.push(p as usize);
                j = j + 1;
            }
            triangles.push((corners[0], corners[1], corners[2]));
            k = k + 1;
        }

        (triangles, vertices)
    }
}

/// Whether `id` is among the first `n` of `ids`.
pub open spec fn seen_prefix(ids: Seq<u64>, n: int, id: u64) -> bool {
    exists|j: int| 0 <= j < n && #[trigger] ids[j] == id
}

} // verus!
