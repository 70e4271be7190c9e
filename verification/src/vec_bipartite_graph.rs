//! A weighted bipartite graph between keys and grams, stored in two CSR-like
//! structures of plain vectors.
use vstd::prelude::*;

verus! {

/// The sequence never decreases.
pub open spec fn nondecreasing(s: Seq<u64>) -> bool {
    forall|i: int, j: int| 0 <= i <= j < s.len() ==> s[i] <= s[j]
}

/// `<[u64]>::binary_search`: on a sorted slice, `Ok` with the index of an
/// element equal to `x`, or `Err` with the index where `x` could be inserted
/// keeping the order. Which of several equal elements is found, and anything
/// about an unsorted slice, is left unsaid, as the documentation leaves it.
#[verifier::external_body]
fn binary_search_u64(s: &[u64], x: u64) -> (r: Result<usize, usize>)
    ensures
        nondecreasing(s@) ==> match r {
            Ok(i) => i < s@.len() && s@[i as int] == x,
            Err(i) => i <= s@.len() && (forall|k: int| 0 <= k < i ==> s@[k] < x) && (forall|k: int|
                i <= k < s@.len() ==> x < s@[k]),
        },
{
    s.binary_search(&x)
}

/// An edge of the graph: from a key to a gram, weighted by the number of
/// times the gram appears in the key, or from a gram back to a key.
#[derive(Debug, Clone, Copy, PartialEq, Eq)]
pub struct Edge {
    /// The source of the edge.
    src: usize,
    /// The destination of the edge.
    dst: usize,
    /// The weight of the edge, when it goes from a key to a gram.
    weight: Option<usize>,
}

impl Edge {
    /// The source of the edge.
    pub closed spec fn src_of(&self) -> usize {
        self.src
    }

    /// The destination of the edge.
    pub closed spec fn dst_of(&self) -> usize {
        self.dst
    }

    /// The weight of the edge.
    pub closed spec fn weight_of(&self) -> Option<usize> {
        self.weight
    }

    /// Returns the source of the edge.
    pub fn src(&self) -> (r: usize)
        ensures
            r == self.src_of(),
    {
        self.src
    }

    /// Returns the destination of the edge.
    pub fn dst(&self) -> (r: usize)
        ensures
            r == self.dst_of(),
    {
        self.dst
    }

    /// Returns the weight of the edge.
    pub fn weight(&self) -> (r: Option<usize>)
        ensures
            r == self.weight_of(),
    {
        self.weight
    }

    /// Returns the tuple (src, dst) of the edge.
    pub fn endpoints(self) -> (r: (usize, usize))
        ensures
            r == (self.src_of(), self.dst_of()),
    {
        (self.src, self.dst)
    }
}

/// A bipartite graph stored in two CSR-like structures.
#[derive(Debug, Clone)]
pub struct WeightedVecBipartiteGraph {
    /// The number of times a given gram appears in a given key, one per edge
    /// from a key to a gram.
    pub(crate) srcs_to_dsts_weights: Vec<usize>,
    /// The cumulative outbound degree of the keys: one more entry than there
    /// are keys, the last being the number of edges.
    srcs_offsets: Vec<u64>,
    /// The cumulative inbound degree of the grams: one more entry than there
    /// are grams, the last being the number of edges.
    dsts_offsets: Vec<u64>,
    /// The destinations of the edges from keys to grams.
    srcs_to_dsts: Vec<usize>,
    /// The sources of the edges from grams to keys.
    dsts_to_srcs: Vec<usize>,
}

impl WeightedVecBipartiteGraph {
    /// The weights of the edges from keys to grams.
    pub closed spec fn weights_view(&self) -> Seq<usize> {
        self.srcs_to_dsts_weights@
    }

    /// The cumulative outbound degrees of the keys.
    pub closed spec fn srcs_offsets_view(&self) -> Seq<u64> {
        self.srcs_offsets@
    }

    /// The cumulative inbound degrees of the grams.
    pub closed spec fn dsts_offsets_view(&self) -> Seq<u64> {
        self.dsts_offsets@
    }

    /// The destinations of the edges from keys to grams.
    pub closed spec fn srcs_to_dsts_view(&self) -> Seq<usize> {
        self.srcs_to_dsts@
    }

    /// The sources of the edges from grams to keys.
    pub closed spec fn dsts_to_srcs_view(&self) -> Seq<usize> {
        self.dsts_to_srcs@
    }

    /// The number of edges, counted once per direction.
    pub open spec fn edge_count(&self) -> nat {
        self.weights_view().len()
    }

    /// The number of keys.
    pub open spec fn source_count(&self) -> int {
        self.srcs_offsets_view().len() - 1
    }

    /// The number of grams.
    pub open spec fn destination_count(&self) -> int {
        self.dsts_offsets_view().len() - 1
    }

    /// Both offset vectors start at zero, never decrease and end at the
    /// number of edges, and the edge vectors all have one entry per edge.
    pub open spec fn layout_wf(&self) -> bool {
        let so = self.srcs_offsets_view();
        let dof = self.dsts_offsets_view();
        let e = self.edge_count();
        &&& so.len() >= 1
        &&& dof.len() >= 1
        &&& so[0] == 0
        &&& dof[0] == 0
        &&& so.last() == e
        &&& dof.last() == e
        &&& nondecreasing(so)
        &&& nondecreasing(dof)
        &&& self.srcs_to_dsts_view().len() == e
        &&& self.dsts_to_srcs_view().len() == e
        &&& e <= usize::MAX
    }

    /// The full edge listing fits in memory: twice the number of edges, and
    /// the node ids, with the grams shifted by the number of keys, are at most
    /// `usize::MAX`.
    pub open spec fn ids_fit(&self) -> bool {
        &&& 2 * self.edge_count() <= usize::MAX
        &&& self.source_count() + self.destination_count() <= usize::MAX
        &&& forall|k: int|
            0 <= k < self.edge_count() ==> #[trigger] self.dsts_to_srcs_view()[k] + self.source_count() <= usize::MAX
    }

    /// The edge at position `e` of the full edge listing: first the edges
    /// from keys to grams, grams shifted by the number of keys, then the edges
    /// from grams back to keys.
    pub open spec fn is_edge_at(&self, e: int, edge: Edge) -> bool {
        let so = self.srcs_offsets_view();
        let dof = self.dsts_offsets_view();
        let n = self.source_count();
        if e < self.edge_count() {
            exists|s: int|
                #![trigger so[s]]
                0 <= s < n && so[s] <= e < so[s + 1] && edge.src_of() == s && edge.dst_of()
                    == self.dsts_to_srcs_view()[e] + n && edge.weight_of() == Some(
                    self.weights_view()[e] as usize,
                )
        } else {
            let f = e - self.edge_count();
            exists|d: int|
                #![trigger dof[d]]
                0 <= d < self.destination_count() && dof[d] <= f < dof[d + 1] && edge.src_of() == d
                    + n && edge.dst_of() == self.srcs_to_dsts_view()[f] && edge.weight_of() is None
        }
    }

    /// Creates a new `WeightedVecBipartiteGraph`.
    ///
    /// # Arguments
    /// * `srcs_to_dsts_weights` - The weights of the edges from keys to grams.
    /// * `srcs_offsets` - The comulative outbound degree from a given key to grams.
    /// * `dsts_offsets` - The comulative inbound degree from a given gram to keys.
    /// * `srcs_to_dsts` - The destinations of the edges from keys to grams.
    /// * `dsts_to_srcs` - The sources of the edges from grams to keys.
    pub fn new(
        srcs_to_dsts_weights: Vec<usize>,
        srcs_offsets: Vec<u64>,
        dsts_offsets: Vec<u64>,
        srcs_to_dsts: Vec<usize>,
        dsts_to_srcs: Vec<usize>,
    ) -> (g: Self)
        requires
            srcs_to_dsts@.len() == srcs_to_dsts_weights@.len(),
            srcs_to_dsts@.len() == dsts_to_srcs@.len(),
        ensures
            g.weights_view() == srcs_to_dsts_weights@,
            g.srcs_offsets_view() == srcs_offsets@,
            g.dsts_offsets_view() == dsts_offsets@,
            g.srcs_to_dsts_view() == srcs_to_dsts@,
            g.dsts_to_srcs_view() == dsts_to_srcs@,
    {
        WeightedVecBipartiteGraph {
            srcs_to_dsts_weights,
            srcs_offsets,
            dsts_offsets,
            srcs_to_dsts,
            dsts_to_srcs,
        }
    }

    /// Returns the comulative outbound degree from a source id.
    pub fn src_comulative_outbound_degree(&self, src_id: usize) -> (r: usize)
        requires
            src_id < self.srcs_offsets_view().len(),
        ensures
            r == self.srcs_offsets_view()[src_id as int] as usize,
    {
        self.srcs_offsets[src_id] as usize
    }

    /// Returns the comulative inbound degree from a destination id.
    pub fn dst_comulative_inbound_degree(&self, dst_id: usize) -> (r: usize)
        requires
            dst_id < self.dsts_offsets_view().len(),
        ensures
            r == self.dsts_offsets_view()[dst_id as int] as usize,
    {
        self.dsts_offsets[dst_id] as usize
    }

    /// Returns the src_id from a given edge_id: the key whose range of
    /// outbound edges holds the edge, found by a binary search of the edge id
    /// among the cumulative outbound degrees.
    pub fn src_id_from_edge_id(&self, edge_id: usize) -> (r: usize)
        ensures
            nondecreasing(self.srcs_offsets_view()) && self.srcs_offsets_view().len() >= 1
                ==> owner_of(self.srcs_offsets_view(), edge_id as int, r as int),
    {
        owning_node(&self.srcs_offsets, edge_id)
    }

    /// Returns the dst_id from a given edge_id: the gram whose range of
    /// inbound edges holds the edge, found by a binary search of the edge id
    /// among the cumulative inbound degrees.
    pub fn dst_id_from_edge_id(&self, edge_id: usize) -> (r: usize)
        ensures
            nondecreasing(self.dsts_offsets_view()) && self.dsts_offsets_view().len() >= 1
                ==> owner_of(self.dsts_offsets_view(), edge_id as int, r as int),
    {
        owning_node(&self.dsts_offsets, edge_id)
    }

    /// Returns the number of source nodes.
    pub fn number_of_source_nodes(&self) -> (r: usize)
        requires
            self.srcs_offsets_view().len() >= 1,
        ensures
            r == self.source_count(),
    {
        self.srcs_offsets.len() - 1
    }

    /// Returns the number of destination nodes.
    pub fn number_of_destination_nodes(&self) -> (r: usize)
        requires
            self.dsts_offsets_view().len() >= 1,
        ensures
            r == self.destination_count(),
    {
        self.dsts_offsets.len() - 1
    }

    /// Returns the number of edges, counting each pair of opposite edges once.
    pub fn number_of_edges(&self) -> (r: usize)
        ensures
            r == self.edge_count(),
    {
        self.srcs_to_dsts_weights.len()
    }

    /// Returns the degree of a given source node id.
    pub fn src_degree(&self, src_id: usize) -> (r: usize)
        requires
            src_id + 1 < self.srcs_offsets_view().len(),
            self.srcs_offsets_view()[src_id as int] <= self.srcs_offsets_view()[src_id + 1],
        ensures
            r == (self.srcs_offsets_view()[src_id + 1] - self.srcs_offsets_view()[src_id as int]) as usize,
    {
        let len = self.srcs_offsets.len();
        assert(src_id + 1 < len);
        let start = self.srcs_offsets[src_id];
        let end = self.srcs_offsets[src_id + 1];
        (end - start) as usize
    }

    /// Returns the degree of a given destination node id.
    pub fn dst_degree(&self, dst_id: usize) -> (r: usize)
        requires
            dst_id + 1 < self.dsts_offsets_view().len(),
            self.dsts_offsets_view()[dst_id as int] <= self.dsts_offsets_view()[dst_id + 1],
        ensures
            r == (self.dsts_offsets_view()[dst_id + 1] - self.dsts_offsets_view()[dst_id as int]) as usize,
    {
        let len = self.dsts_offsets.len();
        assert(dst_id + 1 < len);
        let start = self.dsts_offsets[dst_id];
        let end = self.dsts_offsets[dst_id + 1];
        (end - start) as usize
    }

    /// Returns the sources associated to a given destination: the entries of
    /// `srcs_to_dsts` between the cumulative inbound degrees of `dst_id` and
    /// of the next destination.
    pub fn srcs_from_dst(&self, dst_id: usize) -> (r: Vec<usize>)
        requires
            dst_id + 1 < self.dsts_offsets_view().len(),
            self.dsts_offsets_view()[dst_id as int] <= self.dsts_offsets_view()[dst_id + 1],
            self.dsts_offsets_view()[dst_id + 1] <= self.srcs_to_dsts_view().len(),
        ensures
            r@ == entries_between(
                self.srcs_to_dsts_view(),
                self.dsts_offsets_view()[dst_id as int] as int,
                self.dsts_offsets_view()[dst_id + 1] as int,
            ),
    {
        let len = self.dsts_offsets.len();
        let vlen = self.srcs_to_dsts.len();
        assert(dst_id + 1 < len);
        let start = self.dsts_offsets[dst_id] as usize;
        let end = self.dsts_offsets[dst_id + 1] as usize;
        copy_range(&self.srcs_to_dsts, start, end)
    }

    /// Returns the destinations associated to a given source: the entries of
    /// `dsts_to_srcs` between the cumulative outbound degrees of `src_id` and
    /// of the next source.
    pub fn dsts_from_src(&self, src_id: usize) -> (r: Vec<usize>)
        requires
            src_id + 1 < self.srcs_offsets_view().len(),
            self.srcs_offsets_view()[src_id as int] <= self.srcs_offsets_view()[src_id + 1],
            self.srcs_offsets_view()[src_id + 1] <= self.dsts_to_srcs_view().len(),
        ensures
            r@ == entries_between(
                self.dsts_to_srcs_view(),
                self.srcs_offsets_view()[src_id as int] as int,
                self.srcs_offsets_view()[src_id + 1] as int,
            ),
    {
        let len = self.srcs_offsets.len();
        let vlen = self.dsts_to_srcs.len();
        assert(src_id + 1 < len);
        let start = self.srcs_offsets[src_id] as usize;
        let end = self.srcs_offsets[src_id + 1] as usize;
        copy_range(&self.dsts_to_srcs, start, end)
    }

    /// Returns the weights associated to a given source: the entries of the
    /// weights between the cumulative outbound degrees of `src_id` and of the
    /// next source.
    pub fn weights_from_src(&self, src_id: usize) -> (r: Vec<usize>)
        requires
            src_id + 1 < self.srcs_offsets_view().len(),
            self.srcs_offsets_view()[src_id as int] <= self.srcs_offsets_view()[src_id + 1],
            self.srcs_offsets_view()[src_id + 1] <= self.weights_view().len(),
        ensures
            r@ == entries_between(
                self.weights_view(),
                self.srcs_offsets_view()[src_id as int] as int,
                self.srcs_offsets_view()[src_id + 1] as int,
            ),
    {
        let len = self.srcs_offsets.len();
        let vlen = self.srcs_to_dsts_weights.len();
        assert(src_id + 1 < len);
        let start = self.srcs_offsets[src_id] as usize;
        let end = self.srcs_offsets[src_id + 1] as usize;
        copy_range(&self.srcs_to_dsts_weights, start, end)
    }

    /// Returns the weights of all the edges from keys to grams.
    pub fn weights(&self) -> (r: Vec<usize>)
        ensures
            r@ == entries_between(self.weights_view(), 0, self.weights_view().len() as int),
    {
        copy_range(&self.srcs_to_dsts_weights, 0, self.srcs_to_dsts_weights.len())
    }

    /// Returns the degrees of all the nodes: first those of the source nodes,
    /// then those of the destination nodes.
    pub fn degrees(&self) -> (r: Vec<usize>)
        requires
            self.srcs_offsets_view().len() >= 1,
            self.dsts_offsets_view().len() >= 1,
            nondecreasing(self.srcs_offsets_view()),
            nondecreasing(self.dsts_offsets_view()),
        ensures
            r@ == deltas(self.srcs_offsets_view()) + deltas(self.dsts_offsets_view()),
    {
        let mut out: Vec<usize> = Vec::new();
        push_deltas(&mut out, &self.srcs_offsets);
        push_deltas(&mut out, &self.dsts_offsets);
        out
    }

    /// Returns every edge of the graph, in the order in which they are stored:
    /// first the edges from keys to grams, key by key, with the grams shifted
    /// by the number of keys, then the edges from grams to keys, gram by gram,
    /// with the grams shifted likewise.
    pub fn edges(&self) -> (r: Vec<Edge>)
        requires
            self.layout_wf(),
            self.ids_fit(),
        ensures
            r@.len() == 2 * self.edge_count(),
            forall|e: int| 0 <= e < r@.len() ==> self.is_edge_at(e, #[trigger] r@[e]),
    {
        let n = self.number_of_source_nodes();
        let m = self.number_of_destination_nodes();
        let ghost so = self.srcs_offsets_view();
        let ghost dof = self.dsts_offsets_view();
        let ghost total = self.edge_count();
        let mut out: Vec<Edge> = Vec::new();
        let mut src: usize = 0;
        while src < n
            invariant
                self.layout_wf(),
                self.ids_fit(),
                n == self.source_count(),
                so == self.srcs_offsets_view(),
                total == self.edge_count(),
                src <= n,
                out@.len() == so[src as int],
                forall|e: int| 0 <= e < out@.len() ==> self.is_edge_at(e, #[trigger] out@[e]),
            decreases n - src,
        {
            proof {
                assert(so[src as int] <= so[src + 1]);
                assert(so[src + 1] <= so.last());
            }
            let dsts = self.dsts_from_src(src);
            let weights = self.weights_from_src(src);
            let mut k: usize = 0;
            while k < dsts.len()
                invariant
                    self.layout_wf(),
                    self.ids_fit(),
                self.ids_fit(),
                    n == self.source_count(),
                    so == self.srcs_offsets_view(),
                    src < n,
                    so[src as int] <= so[src + 1] <= total,
                    total == self.edge_count(),
                    dsts@ == entries_between(self.dsts_to_srcs_view(), so[src as int] as int, so[src + 1] as int),
                    weights@ == entries_between(self.weights_view(), so[src as int] as int, so[src + 1] as int),
                    k <= dsts@.len(),
                    out@.len() == so[src as int] + k,
                    forall|e: int| 0 <= e < out@.len() ==> self.is_edge_at(e, #[trigger] out@[e]),
                decreases dsts@.len() - k,
            {
                let ghost e = so[src as int] + k;
                proof {
                    assert(self.dsts_to_srcs_view()[e] + self.source_count() <= usize::MAX);
                }
                let edge = Edge { src, dst: dsts[k] + n, weight: Some(weights[k]) };
                proof {
                    assert(so[src as int] <= e < so[src + 1]);
                    assert(self.is_edge_at(e, edge));
                }
                out.push(edge);
                k = k + 1;
            }
            src = src + 1;
        }
        proof {
            assert(out@.len() == total);
        }
        let mut dst: usize = 0;
        while dst < m
            invariant
                self.layout_wf(),
                self.ids_fit(),
                n == self.source_count(),
                m == self.destination_count(),
                dof == self.dsts_offsets_view(),
                total == self.edge_count(),
                dst <= m,
                out@.len() == total + dof[dst as int],
                forall|e: int| 0 <= e < out@.len() ==> self.is_edge_at(e, #[trigger] out@[e]),
            decreases m - dst,
        {
            proof {
                assert(dof[dst as int] <= dof[dst + 1]);
                assert(dof[dst + 1] <= dof.last());
            }
            let srcs = self.srcs_from_dst(dst);
            let mut k: usize = 0;
            while k < srcs.len()
                invariant
                    self.layout_wf(),
                    self.ids_fit(),
                self.ids_fit(),
                    n == self.source_count(),
                    m == self.destination_count(),
                    dof == self.dsts_offsets_view(),
                    total == self.edge_count(),
                    dst < m,
                    dof[dst as int] <= dof[dst + 1] <= total,
                    srcs@ == entries_between(self.srcs_to_dsts_view(), dof[dst as int] as int, dof[dst + 1] as int),
                    k <= srcs@.len(),
                    out@.len() == total + dof[dst as int] + k,
                    forall|e: int| 0 <= e < out@.len() ==> self.is_edge_at(e, #[trigger] out@[e]),
                decreases srcs@.len() - k,
            {
                let ghost e = total + dof[dst as int] + k;
                let edge = Edge { src: dst + n, dst: srcs[k], weight: None };
                proof {
                    let f = e - total;
                    assert(dof[dst as int] <= f < dof[dst + 1]);
                    assert(self.is_edge_at(e, edge));
                }
                out.push(edge);
                k = k + 1;
            }
            dst = dst + 1;
        }
        out
    }
}

/// The node `r` whose range of edges in the cumulative degrees `s` holds
/// the edge `e`: `s[r] <= e < s[r + 1]`. An edge before the first offset
/// gives the first index, one equal to the last offset the last index, and
/// one past the last offset the index where it would be inserted, `s.len()`.
pub open spec fn owner_of(s: Seq<u64>, e: int, r: int) -> bool {
    &&& 0 <= r <= s.len()
    &&& (e < s[0] ==> r == 0)
    &&& (s[0] <= e < s.last() ==> r + 1 < s.len() && s[r] <= e < s[r + 1])
    &&& (e == s.last() ==> r == s.len() - 1)
    &&& (s.last() < e ==> r == s.len())
}

/// The node whose range in the cumulative degrees `offsets` holds `edge_id`.
fn owning_node(offsets: &Vec<u64>, edge_id: usize) -> (r: usize)
    ensures
        nondecreasing(offsets@) && offsets@.len() >= 1 ==> owner_of(
            offsets@,
            edge_id as int,
            r as int,
        ),
{
    if offsets.len() == 0 {
        return 0;
    }
    let x: u64 = edge_id as u64;
    match binary_search_u64(offsets.as_slice(), x) {
        Ok(i) => {
            // On sorted offsets the index found is that of an equal entry; the
            // owner is the last node whose range starts there.
            let mut j: usize = if i < offsets.len() {
                i
            } else {
                offsets.len() - 1
            };
            proof {
                if nondecreasing(offsets@) {
                    assert(j == i);
                }
            }
            let n: usize = offsets.len();
            while j + 1 < n && offsets[j + 1] <= x
                invariant
                    n == offsets@.len(),
                    j < offsets@.len(),
                    nondecreasing(offsets@) ==> offsets@[j as int] == x,
                decreases offsets@.len() - j,
            {
                j = j + 1;
            }
            proof {
                if nondecreasing(offsets@) && offsets@.len() >= 1 {
                    assert(offsets@[0] <= offsets@[j as int]);
                    assert(offsets@[j as int] <= offsets@.last());
                    if j + 1 < offsets@.len() {
                        assert(offsets@[j + 1] <= offsets@.last());
                    }
                }
            }
            j
        },
        Err(i) => {
            if i == 0 {
                0
            } else if i >= offsets.len() {
                offsets.len()
            } else {
                proof {
                    if nondecreasing(offsets@) && offsets@.len() >= 1 {
                        assert(offsets@[i - 1] < x);
                        if i < offsets@.len() {
                            assert(x < offsets@[i as int]);
                            assert(offsets@[i as int] <= offsets@.last());
                        }
                    }
                }
                i - 1
            }
        },
    }
}

/// The entries of `s` from `start` to `end`.
pub open spec fn entries_between(s: Seq<usize>, start: int, end: int) -> Seq<usize> {
    Seq::new((end - start) as nat, |k: int| s[start + k] as usize)
}

/// The differences between consecutive entries of `s`.
pub open spec fn deltas(s: Seq<u64>) -> Seq<usize> {
    Seq::new((s.len() - 1) as nat, |k: int| (s[k + 1] - s[k]) as usize)
}

/// A copy of the entries of `v` from `start` to `end`.
fn copy_range(v: &Vec<usize>, start: usize, end: usize) -> (r: Vec<usize>)
    requires
        start <= end <= v@.len(),
    ensures
        r@ == entries_between(v@, start as int, end as int),
{
    let mut out: Vec<usize> = Vec::new();
    let mut k: usize = start;
    while k < end
        invariant
            start <= k <= end <= v@.len(),
            out@ == entries_between(v@, start as int, k as int),
        decreases end - k,
    {
        out.push(v[k]);
        k = k + 1;
        proof {
            assert(out@ =~= entries_between(v@, start as int, k as int));
        }
    }
    out
}

/// Appends to `out` the differences between consecutive entries of `offsets`.
fn push_deltas(out: &mut Vec<usize>, offsets: &Vec<u64>)
    requires
        offsets@.len() >= 1,
        nondecreasing(offsets@),
    ensures
        final(out)@ == old(out)@ + deltas(offsets@),
{
    let ghost start = old(out)@;
    let mut k: usize = 1;
    while k < offsets.len()
        invariant
            1 <= k <= offsets@.len(),
            nondecreasing(offsets@),
            out@ == start + deltas(offsets@.take(k as int)),
        decreases offsets@.len() - k,
    {
        proof {
            assert(offsets@[k - 1] <= offsets@[k as int]);
        }
        out.push((offsets[k] - offsets[k - 1]) as usize);
        k = k + 1;
        proof {
            assert(deltas(offsets@.take(k as int)) =~= deltas(offsets@.take(k - 1)).push(
                (offsets@[k - 1] - offsets@[k - 2]) as usize,
            ));
            assert(out@ =~= start + deltas(offsets@.take(k as int)));
        }
    }
    proof {
        assert(offsets@.take(k as int) =~= offsets@);
    }
}

} // verus!
