//! A graph over a fixed vocabulary, stored as an adjacency matrix.

use crate::graph::index_trie::{
    lemma_rank_of_member, rank_of, strictly_sorted, IndexTrieIterator,
};
use crate::graph::lower_triangular::{
    checked_triangle, col_of, lemma_row_col_of_slot, lemma_slot_in_range, lemma_triangle_monotonic,
    lemma_triangle_step, row_of, slot, triangle, triangle_of, LowerTriangular,
};
use crate::graph::IndexMap;
use vstd::prelude::*;
use vstd::utf8::encode_utf8;

verus! {

/// An undirected graph whose vertices are the strings of an index fixed when
/// the graph is made, and whose edges carry an optional value each. The
/// values stand in a lower-triangular matrix by the ranks of their two
/// vertices, so an edge and its reverse are one.
#[derive(Default, Debug)]
pub struct AMGraph<E> {
    map: IndexMap,
    edges: LowerTriangular<Option<E>>,
}

impl<E: Clone> Clone for AMGraph<E> {
    /// A graph over the same vertices, with a copy of each edge value.
    fn clone(&self) -> (copy: Self)
        ensures
            copy.vocabulary() == self.vocabulary(),
            copy.wf() == self.wf(),
            copy.slots().len() == self.slots().len(),
            forall|p: int|
                0 <= p < self.slots().len() ==> cloned(self.slots()[p], #[trigger] copy.slots()[p]),
    {
        AMGraph { map: self.map.clone(), edges: LowerTriangular(self.edges.0.clone()) }
    }
}

impl<E> AMGraph<E> {
    /// The vertex labels as byte strings, by rank.
    pub closed spec fn vocabulary(&self) -> Seq<Seq<u8>> {
        self.map@
    }

    /// The edge values, by slot.
    pub closed spec fn slots(&self) -> Seq<Option<E>> {
        self.edges@
    }

    /// The invariant of the index that holds the vertex labels.
    pub closed spec fn index_wf(&self) -> bool {
        self.map.wf()
    }

    /// The invariant of the graph: its labels are distinct, in ascending
    /// order, and there is one slot for each unordered pair of vertices.
    pub open spec fn wf(&self) -> bool {
        &&& self.index_wf()
        &&& strictly_sorted(self.vocabulary())
        &&& self.slots().len() == triangle(self.vocabulary().len())
    }

    /// The value of the edge between the vertices of ranks `i` and `j`.
    pub open spec fn edge(&self, i: nat, j: nat) -> Option<E> {
        self.slots()[slot(i, j) as int]
    }

    /// The value of the edge between two labels of the vocabulary.
    pub open spec fn edge_between(&self, a: Seq<u8>, b: Seq<u8>) -> Option<E> {
        self.edge(rank_of(self.vocabulary(), a) as nat, rank_of(self.vocabulary(), b) as nat)
    }

    /// Creates a graph without edges over the vertices in `map`.
    pub fn new(map: IndexMap) -> (g: Self)
        requires
            map.wf(),
            triangle(map@.len()) <= usize::MAX,
        ensures
            g.wf(),
            g.vocabulary() == map@,
            g.slots().len() == triangle(map@.len()),
            forall|p: int| 0 <= p < g.slots().len() ==> g.slots()[p] is None,
    {
        let vert_len = map.len();
        let edge_len = triangle_of(vert_len);
        let mut slots: Vec<Option<E>> = Vec::new();
        while slots.len() < edge_len
            invariant
                slots@.len() <= edge_len,
                forall|p: int| 0 <= p < slots@.len() ==> slots@[p] is None,
            decreases edge_len - slots@.len(),
        {
            slots.push(None);
        }
        AMGraph { edges: LowerTriangular(slots), map }
    }

    /// The graph over the vertices in `map` with the edge values `edges`, by
    /// slot, if there is one value, present or not, for each unordered pair
    /// of vertices.
    pub fn from_parts(map: IndexMap, edges: Vec<Option<E>>) -> (g: Option<Self>)
        requires
            map.wf(),
        ensures
            g is Some <==> edges@.len() == triangle(map@.len()),
            g matches Some(graph) ==> graph.wf() && graph.vocabulary() == map@ && graph.slots()
                == edges@,
    {
        let given = edges.len();
        match checked_triangle(map.len()) {
            Some(n) => if given == n {
                Some(AMGraph { map, edges: LowerTriangular(edges) })
            } else {
                None
            },
            None => None,
        }
    }

    /// The index that holds the vertex labels.
    pub fn index(&self) -> (map: &IndexMap)
        ensures
            map@ == self.vocabulary(),
            self.wf() ==> map.wf(),
    {
        &self.map
    }

    /// The edge values, by slot.
    pub fn edge_slots(&self) -> (slots: &Vec<Option<E>>)
        ensures
            slots@ == self.slots(),
    {
        &self.edges.0
    }

    /// Returns the number of vertices in the graph.
    pub fn len(&self) -> (n: usize)
        requires
            self.wf(),
        ensures
            n == self.vocabulary().len(),
    {
        self.map.len()
    }

    /// Returns an iterator over the vertices in the graph, in the order of
    /// their ranks.
    pub fn vertices(&self) -> (it: IndexTrieIterator<'_>)
        requires
            self.wf(),
        ensures
            it.wf(),
            it.remaining() == self.vocabulary(),
    {
        self.map.iter()
    }

    /// Returns an iterator over the edges of the graph.
    ///
    /// The edges come in the order of their slots: row by row, and within a
    /// row by column, each as the labels of its row and its column and the
    /// value it carries.
    pub fn edges(&self) -> (it: Edges<'_, E>)
        requires
            self.wf(),
        ensures
            it.wf(),
            it.graph() == *self,
            it.position() == 0,
    {
        Edges { graph: self, row: 0, col: 0 }
    }

    /// Returns `true` if the graph contains no vertices.
    pub fn is_empty(&self) -> (b: bool)
        requires
            self.wf(),
        ensures
            b == (self.vocabulary().len() == 0),
    {
        self.map.is_empty()
    }

    /// Returns a reference to the edge between the given vertices.
    ///
    /// The result is `Err` if one of the vertices is not in the graph.
    pub fn get(&self, v1: &str, v2: &str) -> (r: Result<&Option<E>, ()>)
        requires
            self.wf(),
        ensures
            match r {
                Ok(edge) => {
                    &&& self.vocabulary().contains(encode_utf8(v1@))
                    &&& self.vocabulary().contains(encode_utf8(v2@))
                    &&& *edge == self.edge_between(encode_utf8(v1@), encode_utf8(v2@))
                },
                Err(_) => !(self.vocabulary().contains(encode_utf8(v1@))
                    && self.vocabulary().contains(encode_utf8(v2@))),
            },
    {
        let i = match self.map.get(v1) {
            Some(i) => i,
            None => {
                return Err(());
            },
        };
        let j = match self.map.get(v2) {
            Some(j) => j,
            None => {
                return Err(());
            },
        };
        proof {
            lemma_rank_of_member(self.map@, i as int);
            lemma_rank_of_member(self.map@, j as int);
            lemma_slot_in_range(i as nat, j as nat, self.map@.len());
        }
        Ok(self.edges.index((i, j)))
    }

    /// Gives the edge between the given vertices the value `value`, or takes
    /// the edge away where `value` is `None`.
    ///
    /// The result is `Err` if one of the vertices is not in the graph, which
    /// then stays as it was.
    pub fn set(&mut self, v1: &str, v2: &str, value: Option<E>) -> (r: Result<(), ()>)
        requires
            old(self).wf(),
        ensures
            final(self).wf(),
            final(self).vocabulary() == old(self).vocabulary(),
            r is Ok <==> (old(self).vocabulary().contains(encode_utf8(v1@)) && old(
                self,
            ).vocabulary().contains(encode_utf8(v2@))),
            r is Ok ==> final(self).slots() == old(self).slots().update(
                slot(
                    rank_of(old(self).vocabulary(), encode_utf8(v1@)) as nat,
                    rank_of(old(self).vocabulary(), encode_utf8(v2@)) as nat,
                ) as int,
                value,
            ),
            r is Err ==> final(self).slots() == old(self).slots(),
    {
        match self.get_mut(v1, v2) {
            Ok(edge) => {
                *edge = value;
                Ok(())
            },
            Err(_) => Err(()),
        }
    }

    /// Returns `true` if the graph contains the given vertex.
    pub fn contains_vertex(&self, v: &str) -> (b: bool)
        requires
            self.wf(),
        ensures
            b == self.vocabulary().contains(encode_utf8(v@)),
    {
        self.map.get(v).is_some()
    }

    /// Returns a mutable reference to the edge between the given vertices.
    ///
    /// The result is `Err` if one of the vertices is not in the graph.
    pub fn get_mut(&mut self, v1: &str, v2: &str) -> (r: Result<&mut Option<E>, ()>)
        requires
            old(self).wf(),
        ensures
            final(self).vocabulary() == old(self).vocabulary(),
            match r {
                Ok(edge) => {
                    &&& old(self).vocabulary().contains(encode_utf8(v1@))
                    &&& old(self).vocabulary().contains(encode_utf8(v2@))
                    &&& *edge == old(self).edge_between(encode_utf8(v1@), encode_utf8(v2@))
                    &&& final(self).wf()
                    &&& final(self).slots() == old(self).slots().update(
                        slot(
                            rank_of(old(self).vocabulary(), encode_utf8(v1@)) as nat,
                            rank_of(old(self).vocabulary(), encode_utf8(v2@)) as nat,
                        ) as int,
                        *final(edge),
                    )
                },
                Err(_) => {
                    &&& !(old(self).vocabulary().contains(encode_utf8(v1@)) && old(
                        self,
                    ).vocabulary().contains(encode_utf8(v2@)))
                    &&& final(self).wf()
                    &&& final(self).slots() == old(self).slots()
                },
            },
    {
        let i = match self.map.get(v1) {
            Some(i) => i,
            None => {
                return Err(());
            },
        };
        let j = match self.map.get(v2) {
            Some(j) => j,
            None => {
                return Err(());
            },
        };
        proof {
            lemma_rank_of_member(self.map@, i as int);
            lemma_rank_of_member(self.map@, j as int);
            lemma_slot_in_range(i as nat, j as nat, self.map@.len());
        }
        Ok(self.edges.index_mut((i, j)))
    }
}

/// An edge and its reverse are one: between two labels the graph has the same
/// value in either order.
pub proof fn lemma_edge_symmetric<E>(graph: AMGraph<E>, a: Seq<u8>, b: Seq<u8>)
    ensures
        graph.edge_between(a, b) == graph.edge_between(b, a),
{
}

/// The edge between two vertices of a graph has its slot among the slots of
/// the graph.
pub proof fn lemma_edge_in_range<E>(graph: AMGraph<E>, a: Seq<u8>, b: Seq<u8>)
    requires
        graph.wf(),
        graph.vocabulary().contains(a),
        graph.vocabulary().contains(b),
    ensures
        0 <= rank_of(graph.vocabulary(), a) < graph.vocabulary().len(),
        0 <= rank_of(graph.vocabulary(), b) < graph.vocabulary().len(),
        graph.vocabulary()[rank_of(graph.vocabulary(), a)] == a,
        graph.vocabulary()[rank_of(graph.vocabulary(), b)] == b,
        slot(
            rank_of(graph.vocabulary(), a) as nat,
            rank_of(graph.vocabulary(), b) as nat,
        ) < graph.slots().len(),
{
    let v = graph.vocabulary();
    let i = choose|i: int| 0 <= i < v.len() && v[i] == a;
    let j = choose|j: int| 0 <= j < v.len() && v[j] == b;
    lemma_rank_of_member(v, i);
    lemma_rank_of_member(v, j);
    lemma_slot_in_range(i as nat, j as nat, v.len());
}

/// After a value is set for a pair of vertices, the graph has that value
/// between the two in either order, and what it has between any other two
/// vertices is as before.
pub proof fn lemma_set_get<E>(
    before: AMGraph<E>,
    after: AMGraph<E>,
    a: Seq<u8>,
    b: Seq<u8>,
    value: Option<E>,
)
    requires
        before.wf(),
        before.vocabulary().contains(a),
        before.vocabulary().contains(b),
        after.vocabulary() == before.vocabulary(),
        after.slots() == before.slots().update(
            slot(
                rank_of(before.vocabulary(), a) as nat,
                rank_of(before.vocabulary(), b) as nat,
            ) as int,
            value,
        ),
    ensures
        after.edge_between(a, b) == value,
        after.edge_between(b, a) == value,
        forall|c: Seq<u8>, d: Seq<u8>|
            before.vocabulary().contains(c) && before.vocabulary().contains(d) && !(c == a && d
                == b) && !(c == b && d == a) ==> #[trigger] after.edge_between(c, d)
                == before.edge_between(c, d),
{
    let v = before.vocabulary();
    let i = choose|i: int| 0 <= i < v.len() && v[i] == a;
    let j = choose|j: int| 0 <= j < v.len() && v[j] == b;
    lemma_rank_of_member(v, i);
    lemma_rank_of_member(v, j);
    lemma_slot_in_range(i as nat, j as nat, v.len());
    assert forall|c: Seq<u8>, d: Seq<u8>|
        v.contains(c) && v.contains(d) && !(c == a && d == b) && !(c == b && d == a)
            implies #[trigger] after.edge_between(c, d) == before.edge_between(c, d) by {
        let m = choose|m: int| 0 <= m < v.len() && v[m] == c;
        let n = choose|n: int| 0 <= n < v.len() && v[n] == d;
        lemma_rank_of_member(v, m);
        lemma_rank_of_member(v, n);
        lemma_slot_in_range(m as nat, n as nat, v.len());
        if slot(m as nat, n as nat) == slot(i as nat, j as nat) {
            crate::graph::lower_triangular::lemma_slot_injective(
                m as nat,
                n as nat,
                i as nat,
                j as nat,
            );
        }
    }
}

/// An iterator over the edges of an `AMGraph`.
#[derive(Clone, Debug)]
pub struct Edges<'a, E> {
    graph: &'a AMGraph<E>,
    row: usize,
    col: usize,
}

impl<'a, E> Edges<'a, E> {
    /// The graph whose edges the iterator yields.
    pub closed spec fn graph(&self) -> AMGraph<E> {
        *self.graph
    }

    /// The slot at which the iterator stands: those in front of it are done.
    pub closed spec fn position(&self) -> nat {
        slot(self.row as nat, self.col as nat)
    }

    /// The invariant of the iterator: it stands at a slot of its graph, or
    /// behind the last.
    pub closed spec fn wf(&self) -> bool {
        &&& self.graph.wf()
        &&& self.col <= self.row <= self.graph.map@.len()
        &&& self.row == self.graph.map@.len() ==> self.col == 0
    }

    /// The next edge of the graph: the labels of its row and of its column,
    /// and its value. Slots without a value are passed over.
    pub fn next(&mut self) -> (r: Option<(String, String, &'a E)>)
        requires
            old(self).wf(),
        ensures
            final(self).wf(),
            final(self).graph() == old(self).graph(),
            old(self).position() <= final(self).position() <= old(self).graph().slots().len(),
            match r {
                Some((row_label, col_label, value)) => {
                    let p = (final(self).position() - 1) as nat;
                    &&& final(self).position() >= 1
                    &&& old(self).position() <= p
                    &&& old(self).graph().slots()[p as int] == Some(*value)
                    &&& row_of(p) < old(self).graph().vocabulary().len()
                    &&& encode_utf8(row_label@) == old(self).graph().vocabulary()[row_of(p) as int]
                    &&& encode_utf8(col_label@) == old(self).graph().vocabulary()[col_of(p) as int]
                    &&& forall|x: int|
                        old(self).position() <= x < p ==> old(self).graph().slots()[x] is None
                },
                None => {
                    &&& final(self).position() == old(self).graph().slots().len()
                    &&& forall|x: int|
                        old(self).position() <= x < old(self).graph().slots().len() ==> old(
                            self,
                        ).graph().slots()[x] is None
                },
            },
    {
        let len = self.graph.len();
        let ghost start = self.position();
        let ghost n = self.graph.map@.len();
        proof {
            if self.row < len {
                lemma_slot_in_range(self.row as nat, self.col as nat, n);
            }
        }
        while self.row < len
            invariant
                self.wf(),
                self.graph == old(self).graph,
                len == n,
                n == self.graph.map@.len(),
                start == old(self).position(),
                start <= self.position() <= triangle(n),
                forall|x: int| start <= x < self.position() ==> self.graph.slots()[x] is None,
            decreases triangle(n) - self.position(),
        {
            let (row, col) = (self.row, self.col);
            proof {
                lemma_slot_in_range(row as nat, col as nat, n);
                lemma_triangle_step(row as nat);
                lemma_triangle_monotonic((row + 1) as nat, n);
                lemma_row_col_of_slot(row as nat, col as nat);
            }
            let res = self.graph.edges.index((row, col));
            self.col += 1;
            if self.col > self.row {
                self.row += 1;
                self.col = 0;
            }
            if let Some(e) = res {
                let row_label = self.graph.map.get(row).unwrap();
                let col_label = self.graph.map.get(col).unwrap();
                return Some((row_label, col_label, e));
            }
        }
        proof {
            lemma_triangle_step(0);
        }
        None
    }

    /// Bounds on the number of edges still to come: none is promised, and
    /// there are no more than slots left.
    pub fn size_hint(&self) -> (r: (usize, Option<usize>))
        requires
            self.wf(),
        ensures
            r.0 == 0,
            r.1 == Some((self.graph().slots().len() - self.position()) as usize),
            self.position() <= self.graph().slots().len(),
    {
        let len = self.graph.len();
        proof {
            if self.row < len {
                lemma_slot_in_range(self.row as nat, self.col as nat, len as nat);
            }
            lemma_triangle_monotonic(self.row as nat, len as nat);
        }
        let total = self.graph.edges.0.len();
        let done = triangle_of(self.row) + self.col;
        (0, Some(total - done))
    }
}

} // verus!
