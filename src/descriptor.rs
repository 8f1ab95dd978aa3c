//! The canonical, deduplicated and sorted description of excluded keys
//! (full nodes) and excluded relationships between two keys (edges).
use crate::codec::copy_bytes;
use crate::keys::{
    edge_order, key_eq, key_lt, lemma_lex_irreflexive, lemma_lex_total,
    lemma_lex_transitive, lex_lt, ordered_pair,
};
use vstd::prelude::*;

verus! {

/// A key excluded with all of its relationships.
pub struct Node {
    pub key: Vec<u8>,
    pub reason: String,
    pub carryover: u32,
}

/// An excluded relationship, its two keys given as positions in `Edges::keys`.
pub struct Edge {
    pub source: u32,
    pub target: u32,
    pub reason: String,
    pub carryover: u32,
}

/// The keys that edges refer to, and the edges.
pub struct Edges {
    pub keys: Vec<Vec<u8>>,
    pub edges: Vec<Edge>,
}

/// All excluded keys and relationships.
pub struct Descriptor {
    pub nodes: Vec<Node>,
    pub edges: Option<Edges>,
}

impl Edges {
    /// Every edge refers to keys that exist.
    pub open spec fn well_formed(&self) -> bool {
        forall|i: int|
            0 <= i < self.edges@.len() ==> (#[trigger] self.edges@[i]).source < self.keys@.len()
                && self.edges@[i].target < self.keys@.len()
    }

    /// The two keys of edge `i`.
    pub open spec fn endpoints(&self, i: int) -> (Seq<u8>, Seq<u8>) {
        (self.keys@[self.edges@[i].source as int]@, self.keys@[self.edges@[i].target as int]@)
    }
}

impl Descriptor {
    /// Every edge refers to keys that exist.
    pub open spec fn well_formed(&self) -> bool {
        match self.edges {
            Some(e) => e.well_formed(),
            None => true,
        }
    }

    /// The edges, or none.
    pub open spec fn edge_list(&self) -> Seq<Edge> {
        match self.edges {
            Some(e) => e.edges@,
            None => Seq::empty(),
        }
    }

    /// The two keys of edge `i`.
    pub open spec fn edge_endpoints(&self, i: int) -> (Seq<u8>, Seq<u8>) {
        match self.edges {
            Some(e) => e.endpoints(i),
            None => (Seq::empty(), Seq::empty()),
        }
    }

    /// Whether the descriptor has fewer than 2^31 nodes and fewer than 2^31
    /// edges, so that a filter can be built over it.
    pub fn fits_filter(&self) -> (r: bool)
        ensures
            r ==> self.nodes@.len() + self.edge_list().len() < 0x1_0000_0000,
            r <== self.nodes@.len() < 0x8000_0000 && self.edge_list().len() < 0x8000_0000,
    {
        let edge_count: usize = match &self.edges {
            Some(e) => e.edges.len(),
            None => 0,
        };
        self.nodes.len() < 0x8000_0000 && edge_count < 0x8000_0000
    }

    /// Whether every edge refers to keys that exist; a descriptor read from
    /// elsewhere is checked with this before use.
    pub fn is_well_formed(&self) -> (r: bool)
        ensures
            r == self.well_formed(),
    {
        match &self.edges {
            None => true,
            Some(e) => {
                let n = e.keys.len();
                let mut i: usize = 0;
                while i < e.edges.len()
                    invariant
                        self.edges == Some(*e),
                        n == e.keys@.len(),
                        i <= e.edges@.len(),
                        forall|j: int|
                            0 <= j < i ==> (#[trigger] e.edges@[j]).source < n && e.edges@[j].target
                                < n,
                    decreases e.edges@.len() - i,
                {
                    if e.edges[i].source as usize >= n || e.edges[i].target as usize >= n {
                        assert(!(e.edges@[i as int].source < e.keys@.len() && e.edges@[i as int].target
                            < e.keys@.len()));
                        return false;
                    }
                    i = i + 1;
                }
                true
            }
        }
    }
}

/// One input row: a key alone excludes the key; a key with a target key
/// excludes the relationship between the two.
pub struct Row {
    pub public_key: Vec<u8>,
    pub target_key: Option<Vec<u8>>,
    pub reason: Option<String>,
    pub carryover: Option<u32>,
}

/// A full node as reported by lookups.
pub struct FullNode {
    pub key: Vec<u8>,
    pub reason: Option<String>,
    pub carryover: u32,
}

/// An edge as reported by lookups: its two keys, the smaller one first.
pub struct EdgeNode {
    pub source: Vec<u8>,
    pub target: Vec<u8>,
    pub reason: Option<String>,
    pub carryover: u32,
}

/// The text of an optional reason.
pub open spec fn reason_view(r: Option<String>) -> Option<Seq<char>> {
    match r {
        Some(s) => Some(s@),
        None => None,
    }
}

/// The text of an optional reason, empty when there is none.
pub open spec fn reason_text(r: Option<String>) -> Seq<char> {
    match r {
        Some(s) => s@,
        None => Seq::empty(),
    }
}

/// The carryover of a row, 0 when it has none.
pub open spec fn carryover_of(c: Option<u32>) -> u32 {
    match c {
        Some(v) => v,
        None => 0,
    }
}

/// Edges are ordered by their first key, then by their second.
pub open spec fn pair_lt(a: (Seq<u8>, Seq<u8>), b: (Seq<u8>, Seq<u8>)) -> bool {
    lex_lt(a.0, b.0) || (a.0 == b.0 && lex_lt(a.1, b.1))
}

proof fn lemma_pair_order(a: (Seq<u8>, Seq<u8>), b: (Seq<u8>, Seq<u8>), c: (Seq<u8>, Seq<u8>))
    ensures
        !pair_lt(a, a),
        a != b ==> pair_lt(a, b) || pair_lt(b, a),
        pair_lt(a, b) && pair_lt(b, c) ==> pair_lt(a, c),
{
    lemma_lex_irreflexive(a.0);
    lemma_lex_irreflexive(a.1);
    lemma_lex_total(a.0, b.0);
    lemma_lex_total(a.1, b.1);
    if lex_lt(a.0, b.0) && lex_lt(b.0, c.0) {
        lemma_lex_transitive(a.0, b.0, c.0);
    }
    if lex_lt(a.1, b.1) && lex_lt(b.1, c.1) {
        lemma_lex_transitive(a.1, b.1, c.1);
    }
}

impl Row {
    /// The row names a single key.
    pub open spec fn is_node(&self) -> bool {
        self.target_key is None
    }

    /// The row's two keys in canonical order.
    pub open spec fn pair(&self) -> (Seq<u8>, Seq<u8>) {
        ordered_pair(self.public_key@, self.target_key->0@)
    }
}

/// Some row names `key` as a full node.
pub open spec fn is_node_key(rows: Seq<Row>, key: Seq<u8>) -> bool {
    exists|j: int| 0 <= j < rows.len() && (#[trigger] rows[j]).is_node() && rows[j].public_key@ == key
}

/// Row `j` is an edge row neither of whose keys is a full node.
pub open spec fn survives(rows: Seq<Row>, j: int) -> bool {
    &&& 0 <= j < rows.len()
    &&& !rows[j].is_node()
    &&& !is_node_key(rows, rows[j].pair().0)
    &&& !is_node_key(rows, rows[j].pair().1)
}

/// `ks` with `k` added at the end unless it is there already.
pub open spec fn add_key(ks: Seq<Seq<u8>>, k: Seq<u8>) -> Seq<Seq<u8>> {
    if ks.contains(k) {
        ks
    } else {
        ks.push(k)
    }
}

/// The keys of the surviving edges among the first `n` rows, each once, in
/// the order in which they first appear (first key of a pair first).
pub open spec fn edge_key_order(rows: Seq<Row>, n: int) -> Seq<Seq<u8>>
    decreases n,
{
    if n <= 0 {
        Seq::empty()
    } else {
        let prev = edge_key_order(rows, n - 1);
        if survives(rows, n - 1) {
            add_key(add_key(prev, rows[n - 1].pair().0), rows[n - 1].pair().1)
        } else {
            prev
        }
    }
}

/// The bytes of each key.
pub open spec fn key_views(ks: Seq<Vec<u8>>) -> Seq<Seq<u8>> {
    ks.map_values(|k: Vec<u8>| k@)
}

/// Full nodes strictly ascending by key.
pub open spec fn full_nodes_sorted(s: Seq<FullNode>) -> bool {
    forall|i: int, j: int| 0 <= i < j < s.len() ==> lex_lt(s[i].key@, s[j].key@)
}

/// Edges strictly ascending by their pair of keys.
pub open spec fn edge_nodes_sorted(s: Seq<EdgeNode>) -> bool {
    forall|i: int, j: int|
        0 <= i < j < s.len() ==> pair_lt((s[i].source@, s[i].target@), (s[j].source@, s[j].target@))
}

fn clone_reason(r: &Option<String>) -> (c: Option<String>)
    ensures
        reason_view(c) == reason_view(*r),
{
    match r {
        Some(s) => Some(s.clone()),
        None => None,
    }
}

/// Where `key` is, or belongs, among full nodes sorted by key.
fn search_full_nodes(nodes: &Vec<FullNode>, key: &[u8]) -> (r: (bool, usize))
    requires
        full_nodes_sorted(nodes@),
    ensures
        r.1 <= nodes@.len(),
        r.0 ==> r.1 < nodes@.len() && nodes@[r.1 as int].key@ == key@,
        !r.0 ==> forall|i: int| 0 <= i < nodes@.len() ==> nodes@[i].key@ != key@,
        !r.0 ==> forall|i: int| 0 <= i < r.1 ==> lex_lt(nodes@[i].key@, key@),
        !r.0 ==> forall|i: int| r.1 <= i < nodes@.len() ==> lex_lt(key@, nodes@[i].key@),
{
    let mut lo: usize = 0;
    let mut hi: usize = nodes.len();
    while lo < hi
        invariant
            lo <= hi <= nodes@.len(),
            full_nodes_sorted(nodes@),
            forall|i: int| 0 <= i < lo ==> lex_lt(nodes@[i].key@, key@),
            forall|i: int| hi <= i < nodes@.len() ==> lex_lt(key@, nodes@[i].key@),
        decreases hi - lo,
    {
        let mid = lo + (hi - lo) / 2;
        if key_lt(nodes[mid].key.as_slice(), key) {
            proof {
                assert forall|i: int| 0 <= i < mid + 1 implies lex_lt(nodes@[i].key@, key@) by {
                    if i < mid {
                        lemma_lex_transitive(nodes@[i].key@, nodes@[mid as int].key@, key@);
                    }
                }
            }
            lo = mid + 1;
        } else if key_lt(key, nodes[mid].key.as_slice()) {
            proof {
                assert forall|i: int| mid <= i < nodes@.len() implies lex_lt(key@, nodes@[i].key@) by {
                    if i > mid {
                        lemma_lex_transitive(key@, nodes@[mid as int].key@, nodes@[i].key@);
                    }
                }
            }
            hi = mid;
        } else {
            proof {
                lemma_lex_total(nodes@[mid as int].key@, key@);
            }
            return (true, mid);
        }
    }
    proof {
        assert forall|i: int| 0 <= i < nodes@.len() implies nodes@[i].key@ != key@ by {
            lemma_lex_irreflexive(key@);
        }
    }
    (false, lo)
}

/// Where the pair `(a, b)` is, or belongs, among edges sorted by pair.
fn search_edge_nodes(edges: &Vec<EdgeNode>, a: &[u8], b: &[u8]) -> (r: (bool, usize))
    requires
        edge_nodes_sorted(edges@),
    ensures
        r.1 <= edges@.len(),
        r.0 ==> r.1 < edges@.len() && (edges@[r.1 as int].source@, edges@[r.1 as int].target@) == (
        a@, b@),
        !r.0 ==> forall|i: int|
            0 <= i < edges@.len() ==> (edges@[i].source@, edges@[i].target@) != (a@, b@),
        !r.0 ==> forall|i: int|
            0 <= i < r.1 ==> pair_lt((edges@[i].source@, edges@[i].target@), (a@, b@)),
        !r.0 ==> forall|i: int|
            r.1 <= i < edges@.len() ==> pair_lt((a@, b@), (edges@[i].source@, edges@[i].target@)),
{
    let mut lo: usize = 0;
    let mut hi: usize = edges.len();
    let ghost p = (a@, b@);
    while lo < hi
        invariant
            lo <= hi <= edges@.len(),
            p == (a@, b@),
            edge_nodes_sorted(edges@),
            forall|i: int|
                0 <= i < lo ==> pair_lt((edges@[i].source@, edges@[i].target@), p),
            forall|i: int|
                hi <= i < edges@.len() ==> pair_lt(p, (edges@[i].source@, edges@[i].target@)),
        decreases hi - lo,
    {
        let mid = lo + (hi - lo) / 2;
        let ms = edges[mid].source.as_slice();
        let mt = edges[mid].target.as_slice();
        let ghost m = (ms@, mt@);
        let m_lt = key_lt(ms, a) || (key_eq(ms, a) && key_lt(mt, b));
        let p_lt = key_lt(a, ms) || (key_eq(a, ms) && key_lt(b, mt));
        if m_lt {
            proof {
                assert forall|i: int| 0 <= i < mid + 1 implies pair_lt(
                    (edges@[i].source@, edges@[i].target@),
                    p,
                ) by {
                    if i < mid {
                        lemma_pair_order((edges@[i].source@, edges@[i].target@), m, p);
                    }
                }
            }
            lo = mid + 1;
        } else if p_lt {
            proof {
                assert forall|i: int| mid <= i < edges@.len() implies pair_lt(
                    p,
                    (edges@[i].source@, edges@[i].target@),
                ) by {
                    if i > mid {
                        lemma_pair_order(p, m, (edges@[i].source@, edges@[i].target@));
                    }
                }
            }
            hi = mid;
        } else {
            proof {
                lemma_pair_order(m, p, p);
            }
            return (true, mid);
        }
    }
    proof {
        assert forall|i: int| 0 <= i < edges@.len() implies (
        edges@[i].source@,
        edges@[i].target@,
        ) != p by {
            lemma_pair_order(p, p, p);
        }
    }
    (false, lo)
}

/// Adds a key to the edge keys unless it is there already, and returns its
/// position.
fn insert_key(keys: &mut Vec<Vec<u8>>, key: &[u8]) -> (idx: usize)
    ensures
        key_views(final(keys)@) == add_key(key_views(old(keys)@), key@),
        idx < final(keys)@.len(),
        final(keys)@[idx as int]@ == key@,
{
    let mut i: usize = 0;
    while i < keys.len()
        invariant
            i <= keys@.len(),
            keys@ == old(keys)@,
            forall|j: int| 0 <= j < i ==> keys@[j]@ != key@,
        decreases keys@.len() - i,
    {
        if key_eq(keys[i].as_slice(), key) {
            proof {
                assert(key_views(keys@)[i as int] == key@);
            }
            return i;
        }
        i = i + 1;
    }
    proof {
        assert forall|j: int| 0 <= j < key_views(keys@).len() implies key_views(keys@)[j]
            != key@ by {}
    }
    let ghost before = keys@;
    keys.push(copy_bytes(key));
    proof {
        assert(key_views(keys@) =~= key_views(before).push(key@));
    }
    keys.len() - 1
}

/// The position of a key that the edge keys are known to hold.
fn position_of(keys: &Vec<Vec<u8>>, key: &[u8]) -> (idx: usize)
    requires
        key_views(keys@).contains(key@),
    ensures
        idx < keys@.len(),
        keys@[idx as int]@ == key@,
{
    let mut i: usize = 0;
    while i < keys.len()
        invariant
            i <= keys@.len(),
            key_views(keys@).contains(key@),
            forall|j: int| 0 <= j < i ==> keys@[j]@ != key@,
        decreases keys@.len() - i,
    {
        if key_eq(keys[i].as_slice(), key) {
            return i;
        }
        i = i + 1;
    }
    proof {
        let j = choose|j: int| 0 <= j < key_views(keys@).len() && key_views(keys@)[j] == key@;
        assert(keys@[j]@ == key@);
    }
    0
}

proof fn lemma_add_key_keeps(ks: Seq<Seq<u8>>, k: Seq<u8>, x: Seq<u8>)
    ensures
        ks.contains(x) ==> add_key(ks, k).contains(x),
        add_key(ks, k).contains(k),
{
    if ks.contains(x) && !ks.contains(k) {
        let j = choose|j: int| 0 <= j < ks.len() && ks[j] == x;
        assert(ks.push(k)[j] == x);
    }
    if !ks.contains(k) {
        assert(ks.push(k)[ks.len() as int] == k);
    }
}

impl EdgeNode {
    /// An edge with the given keys and payload.
    pub fn new(source: Vec<u8>, target: Vec<u8>, reason: Option<String>, carryover: u32) -> (r:
        EdgeNode)
        ensures
            r.source@ == source@,
            r.target@ == target@,
            reason_view(r.reason) == reason_view(reason),
            r.carryover == carryover,
    {
        EdgeNode { source, target, reason, carryover }
    }
}

/// Some node row among the first `i` names `key`.
pub open spec fn node_row_before(rows: Seq<Row>, i: int, key: Seq<u8>) -> bool {
    exists|j: int| 0 <= j < i && (#[trigger] rows[j]).is_node() && rows[j].public_key@ == key
}

/// Some surviving row among the first `i` has the canonical pair `p`.
pub open spec fn surviving_pair_before(rows: Seq<Row>, i: int, p: (Seq<u8>, Seq<u8>)) -> bool {
    exists|j: int| 0 <= j < i && #[trigger] survives(rows, j) && rows[j].pair() == p
}

/// The position of the first node row for `key` among the first `n` rows,
/// or -1 when there is none.
pub open spec fn first_node_at(rows: Seq<Row>, key: Seq<u8>, n: int) -> int
    decreases n,
{
    if n <= 0 {
        -1
    } else {
        let p = first_node_at(rows, key, n - 1);
        if p >= 0 {
            p
        } else if rows[n - 1].is_node() && rows[n - 1].public_key@ == key {
            n - 1
        } else {
            -1
        }
    }
}

/// The position of the first surviving row with the canonical pair `p`
/// among the first `n` rows, or -1 when there is none.
pub open spec fn first_edge_at(rows: Seq<Row>, p: (Seq<u8>, Seq<u8>), n: int) -> int
    decreases n,
{
    if n <= 0 {
        -1
    } else {
        let q = first_edge_at(rows, p, n - 1);
        if q >= 0 {
            q
        } else if survives(rows, n - 1) && rows[n - 1].pair() == p {
            n - 1
        } else {
            -1
        }
    }
}

/// The node carries the reason (empty when there is none) and carryover (0
/// when there is none) of the first node row for its key.
pub open spec fn node_first_payload(rows: Seq<Row>, n: Node) -> bool {
    let j = first_node_at(rows, n.key@, rows.len() as int);
    &&& 0 <= j < rows.len()
    &&& n.reason@ == reason_text(rows[j].reason)
    &&& n.carryover == carryover_of(rows[j].carryover)
}

/// The edge with keys `p` carries the reason (empty when there is none) and
/// carryover (0 when there is none) of the first surviving row with pair `p`.
pub open spec fn edge_first_payload(rows: Seq<Row>, e: Edge, p: (Seq<u8>, Seq<u8>)) -> bool {
    let j = first_edge_at(rows, p, rows.len() as int);
    &&& 0 <= j < rows.len()
    &&& e.reason@ == reason_text(rows[j].reason)
    &&& e.carryover == carryover_of(rows[j].carryover)
}

/// The full node carries the payload of the first node row for its key.
spec fn full_payload_ok(rows: Seq<Row>, n: FullNode, i: int) -> bool {
    let j = first_node_at(rows, n.key@, i);
    &&& 0 <= j < rows.len()
    &&& reason_view(n.reason) == reason_view(rows[j].reason)
    &&& n.carryover == carryover_of(rows[j].carryover)
}

/// The edge carries the payload of the first surviving row with its pair.
spec fn edge_payload_ok(rows: Seq<Row>, e: EdgeNode, i: int) -> bool {
    let j = first_edge_at(rows, (e.source@, e.target@), i);
    &&& 0 <= j < rows.len()
    &&& reason_view(e.reason) == reason_view(rows[j].reason)
    &&& e.carryover == carryover_of(rows[j].carryover)
}

proof fn lemma_first_node_at(rows: Seq<Row>, key: Seq<u8>, n: int)
    requires
        0 <= n <= rows.len(),
    ensures
        first_node_at(rows, key, n) >= 0 <==> node_row_before(rows, n, key),
        first_node_at(rows, key, n) >= 0 ==> first_node_at(rows, key, n) < n
            && rows[first_node_at(rows, key, n)].is_node()
            && rows[first_node_at(rows, key, n)].public_key@ == key,
        first_node_at(rows, key, n) >= -1,
    decreases n,
{
    if n > 0 {
        lemma_first_node_at(rows, key, n - 1);
        if node_row_before(rows, n, key) && first_node_at(rows, key, n - 1) < 0 {
            let j = choose|j: int| 0 <= j < n && (#[trigger] rows[j]).is_node() && rows[j].public_key@ == key;
            if j < n - 1 {
                assert(node_row_before(rows, n - 1, key));
            }
        }
        if first_node_at(rows, key, n - 1) >= 0 {
            let j = first_node_at(rows, key, n - 1);
            assert(rows[j].is_node());
        }
    }
}

proof fn lemma_first_edge_at(rows: Seq<Row>, p: (Seq<u8>, Seq<u8>), n: int)
    requires
        0 <= n <= rows.len(),
    ensures
        first_edge_at(rows, p, n) >= 0 <==> surviving_pair_before(rows, n, p),
        first_edge_at(rows, p, n) >= 0 ==> first_edge_at(rows, p, n) < n && survives(
            rows,
            first_edge_at(rows, p, n),
        ) && rows[first_edge_at(rows, p, n)].pair() == p,
        first_edge_at(rows, p, n) >= -1,
    decreases n,
{
    if n > 0 {
        lemma_first_edge_at(rows, p, n - 1);
        if surviving_pair_before(rows, n, p) && first_edge_at(rows, p, n - 1) < 0 {
            let j = choose|j: int| 0 <= j < n && #[trigger] survives(rows, j) && rows[j].pair() == p;
            if j < n - 1 {
                assert(surviving_pair_before(rows, n - 1, p));
            }
        }
    }
}

/// The full nodes built from the first `i` rows: one per key of a node row,
/// ascending by key.
#[verifier::opaque]
spec fn full_nodes_inv(rows: Seq<Row>, full: Seq<FullNode>, i: int) -> bool {
    &&& full.len() <= i
    &&& full_nodes_sorted(full)
    &&& forall|k: int| 0 <= k < full.len() ==> node_row_before(rows, i, (#[trigger] full[k]).key@)
    &&& forall|k: int| 0 <= k < full.len() ==> full_payload_ok(rows, #[trigger] full[k], i)
    &&& forall|j: int|
        0 <= j < i && (#[trigger] rows[j]).is_node() ==> exists|k: int|
            0 <= k < full.len() && #[trigger] full[k].key@ == rows[j].public_key@
}

/// The edges built from the first `i` rows: one per canonical pair of a
/// surviving row, ascending by pair; and the keys they use, in order of
/// first appearance.
#[verifier::opaque]
spec fn edge_nodes_inv(rows: Seq<Row>, edges: Seq<EdgeNode>, keys: Seq<Vec<u8>>, i: int) -> bool {
    &&& edges.len() <= i
    &&& edge_nodes_sorted(edges)
    &&& forall|k: int|
        0 <= k < edges.len() ==> surviving_pair_before(
            rows,
            i,
            ((#[trigger] edges[k]).source@, edges[k].target@),
        )
    &&& forall|j: int|
        0 <= j < i && #[trigger] survives(rows, j) ==> exists|k: int|
            0 <= k < edges.len() && (#[trigger] edges[k].source@, edges[k].target@) == rows[j].pair()
    &&& forall|k: int| 0 <= k < edges.len() ==> edge_payload_ok(rows, #[trigger] edges[k], i)
    &&& key_views(keys) == edge_key_order(rows, i)
    &&& key_views(keys).len() <= 2 * i
    &&& forall|k: int|
        0 <= k < edges.len() ==> key_views(keys).contains((#[trigger] edges[k]).source@)
            && key_views(keys).contains(edges[k].target@)
}

proof fn lemma_insert_shift<T>(before: Seq<T>, after: Seq<T>, pos: int, x: T)
    requires
        0 <= pos <= before.len(),
        after == before.insert(pos, x),
    ensures
        after.len() == before.len() + 1,
        after[pos] == x,
        forall|k: int| 0 <= k < pos ==> after[k] == before[k],
        forall|k: int| pos < k < after.len() ==> after[k] == before[k - 1],
{
}

proof fn lemma_full_nodes_step(
    rows: Seq<Row>,
    before: Seq<FullNode>,
    after: Seq<FullNode>,
    i: int,
    pos: int,
    node: FullNode,
)
    requires
        0 <= i < rows.len(),
        rows[i].is_node(),
        node.key@ == rows[i].public_key@,
        full_nodes_inv(rows, before, i),
        0 <= pos <= before.len(),
        forall|k: int| 0 <= k < pos ==> lex_lt(before[k].key@, node.key@),
        forall|k: int| pos <= k < before.len() ==> lex_lt(node.key@, before[k].key@),
        forall|k: int| 0 <= k < before.len() ==> before[k].key@ != node.key@,
        reason_view(node.reason) == reason_view(rows[i].reason),
        node.carryover == carryover_of(rows[i].carryover),
        after == before.insert(pos, node),
    ensures
        full_nodes_inv(rows, after, i + 1),
{
    reveal(full_nodes_inv);
    lemma_insert_shift(before, after, pos, node);
    assert forall|k: int| 0 <= k < after.len() implies full_payload_ok(rows, #[trigger] after[k], i + 1) by {
        if k == pos {
            lemma_first_node_at(rows, node.key@, i);
            if node_row_before(rows, i, node.key@) {
                let j = choose|j: int| 0 <= j < i && (#[trigger] rows[j]).is_node() && rows[j].public_key@ == node.key@;
                let m = choose|m: int| 0 <= m < before.len() && #[trigger] before[m].key@ == rows[j].public_key@;
                assert(before[m].key@ == node.key@);
            }
            assert(first_node_at(rows, node.key@, i + 1) == i);
        } else {
            let b = if k < pos { before[k] } else { before[k - 1] };
            assert(after[k] == b);
            assert(full_payload_ok(rows, b, i));
            assert(first_node_at(rows, b.key@, i + 1) == first_node_at(rows, b.key@, i));
        }
    }
    assert(node_row_before(rows, i + 1, node.key@)) by {
        assert(rows[i].is_node());
    }
    assert forall|a: int, b: int| 0 <= a < b < after.len() implies lex_lt(
        after[a].key@,
        after[b].key@,
    ) by {
        if a < pos && b > pos {
            lemma_lex_transitive(after[a].key@, node.key@, after[b].key@);
        }
    }
    assert forall|k: int| 0 <= k < after.len() implies node_row_before(
        rows,
        i + 1,
        (#[trigger] after[k]).key@,
    ) by {
        if k < pos {
            assert(node_row_before(rows, i, before[k].key@));
        } else if k > pos {
            assert(node_row_before(rows, i, before[k - 1].key@));
        }
    }
    assert forall|j: int| 0 <= j < i + 1 && (#[trigger] rows[j]).is_node() implies exists|k: int|
        0 <= k < after.len() && #[trigger] after[k].key@ == rows[j].public_key@ by {
        if j == i {
            assert(after[pos].key@ == rows[j].public_key@);
        } else {
            let m = choose|m: int| 0 <= m < before.len() && #[trigger] before[m].key@ == rows[j].public_key@;
            if m < pos {
                assert(after[m].key@ == rows[j].public_key@);
            } else {
                assert(after[m + 1].key@ == rows[j].public_key@);
            }
        }
    }
}

proof fn lemma_full_nodes_found(rows: Seq<Row>, full: Seq<FullNode>, i: int, pos: int)
    requires
        0 <= i < rows.len(),
        full_nodes_inv(rows, full, i),
        0 <= pos < full.len(),
        full[pos].key@ == rows[i].public_key@,
    ensures
        full_nodes_inv(rows, full, i + 1),
{
    reveal(full_nodes_inv);
    assert forall|k: int| 0 <= k < full.len() implies full_payload_ok(rows, #[trigger] full[k], i + 1) by {
        assert(full_payload_ok(rows, full[k], i));
        assert(first_node_at(rows, full[k].key@, i + 1) == first_node_at(rows, full[k].key@, i));
    }
    assert forall|k: int| 0 <= k < full.len() implies node_row_before(
        rows,
        i + 1,
        (#[trigger] full[k]).key@,
    ) by {
        assert(node_row_before(rows, i, full[k].key@));
    }
    assert forall|j: int| 0 <= j < i + 1 && (#[trigger] rows[j]).is_node() implies exists|k: int|
        0 <= k < full.len() && #[trigger] full[k].key@ == rows[j].public_key@ by {
        if j == i {
            assert(full[pos].key@ == rows[j].public_key@);
        }
    }
}

proof fn lemma_full_nodes_skip(rows: Seq<Row>, full: Seq<FullNode>, i: int)
    requires
        0 <= i < rows.len(),
        !rows[i].is_node(),
        full_nodes_inv(rows, full, i),
    ensures
        full_nodes_inv(rows, full, i + 1),
{
    reveal(full_nodes_inv);
    assert forall|k: int| 0 <= k < full.len() implies full_payload_ok(rows, #[trigger] full[k], i + 1) by {
        assert(full_payload_ok(rows, full[k], i));
        assert(first_node_at(rows, full[k].key@, i + 1) == first_node_at(rows, full[k].key@, i));
    }
    assert forall|k: int| 0 <= k < full.len() implies node_row_before(
        rows,
        i + 1,
        (#[trigger] full[k]).key@,
    ) by {
        assert(node_row_before(rows, i, full[k].key@));
    }
    assert forall|j: int| 0 <= j < i + 1 && (#[trigger] rows[j]).is_node() implies exists|k: int|
        0 <= k < full.len() && #[trigger] full[k].key@ == rows[j].public_key@ by {
        assert(j < i);
    }
}

/// Adds the full node of row `i`, a node row, unless its key is there already.
fn add_full_node(rows: &Vec<Row>, full: &mut Vec<FullNode>, i: usize)
    requires
        i < rows@.len(),
        rows@[i as int].is_node(),
        full_nodes_inv(rows@, old(full)@, i as int),
    ensures
        full_nodes_inv(rows@, final(full)@, i + 1),
{
    proof {
        reveal(full_nodes_inv);
    }
    let (found, pos) = search_full_nodes(full, rows[i].public_key.as_slice());
    if found {
        proof {
            lemma_full_nodes_found(rows@, full@, i as int, pos as int);
        }
        return;
    }
    let node = FullNode {
        key: copy_bytes(rows[i].public_key.as_slice()),
        reason: clone_reason(&rows[i].reason),
        carryover: match rows[i].carryover {
            Some(c) => c,
            None => 0,
        },
    };
    let ghost before = full@;
    assert(node.carryover == carryover_of(rows@[i as int].carryover));
    full.insert(pos, node);
    proof {
        lemma_full_nodes_step(rows@, before, full@, i as int, pos as int, node);
    }
}

/// With all node rows seen, a key is a full node exactly when some row names it.
proof fn lemma_full_nodes_complete(rows: Seq<Row>, full: Seq<FullNode>, key: Seq<u8>)
    requires
        full_nodes_inv(rows, full, rows.len() as int),
    ensures
        is_node_key(rows, key) <==> exists|k: int| 0 <= k < full.len() && full[k].key@ == key,
{
    reveal(full_nodes_inv);
    if is_node_key(rows, key) {
        let j = choose|j: int|
            0 <= j < rows.len() && (#[trigger] rows[j]).is_node() && rows[j].public_key@ == key;
        let k = choose|k: int| 0 <= k < full.len() && #[trigger] full[k].key@ == rows[j].public_key@;
        assert(full[k].key@ == key);
    }
    if exists|k: int| 0 <= k < full.len() && full[k].key@ == key {
        let k = choose|k: int| 0 <= k < full.len() && full[k].key@ == key;
        assert(node_row_before(rows, rows.len() as int, full[k].key@));
        let j = choose|j: int|
            0 <= j < rows.len() && (#[trigger] rows[j]).is_node() && rows[j].public_key@ == key;
        assert(rows[j].is_node());
    }
}

proof fn lemma_edge_skip(rows: Seq<Row>, edges: Seq<EdgeNode>, keys: Seq<Vec<u8>>, i: int)
    requires
        0 <= i < rows.len(),
        !survives(rows, i),
        edge_nodes_inv(rows, edges, keys, i),
    ensures
        edge_nodes_inv(rows, edges, keys, i + 1),
{
    reveal(edge_nodes_inv);
    assert forall|k: int| 0 <= k < edges.len() implies edge_payload_ok(rows, #[trigger] edges[k], i + 1) by {
        assert(edge_payload_ok(rows, edges[k], i));
        let p = (edges[k].source@, edges[k].target@);
        assert(first_edge_at(rows, p, i + 1) == first_edge_at(rows, p, i));
    }
    assert(edge_key_order(rows, i + 1) == edge_key_order(rows, i));
    assert forall|k: int| 0 <= k < edges.len() implies surviving_pair_before(
        rows,
        i + 1,
        ((#[trigger] edges[k]).source@, edges[k].target@),
    ) by {
        assert(surviving_pair_before(rows, i, (edges[k].source@, edges[k].target@)));
    }
    assert forall|j: int| 0 <= j < i + 1 && #[trigger] survives(rows, j) implies exists|k: int|
        0 <= k < edges.len() && (#[trigger] edges[k].source@, edges[k].target@) == rows[j].pair() by {
        assert(j < i);
    }
}

proof fn lemma_edge_keys_step(
    rows: Seq<Row>,
    edges: Seq<EdgeNode>,
    k0: Seq<Vec<u8>>,
    k2: Seq<Vec<u8>>,
    i: int,
)
    requires
        0 <= i < rows.len(),
        survives(rows, i),
        edge_nodes_inv(rows, edges, k0, i),
        key_views(k2) == add_key(add_key(key_views(k0), rows[i].pair().0), rows[i].pair().1),
    ensures
        key_views(k2) == edge_key_order(rows, i + 1),
        key_views(k2).len() <= 2 * (i + 1),
        key_views(k2).contains(rows[i].pair().0),
        key_views(k2).contains(rows[i].pair().1),
        forall|k: int|
            0 <= k < edges.len() ==> key_views(k2).contains((#[trigger] edges[k]).source@)
                && key_views(k2).contains(edges[k].target@),
{
    reveal(edge_nodes_inv);
    let p = rows[i].pair();
    let k1 = add_key(key_views(k0), p.0);
    lemma_add_key_keeps(key_views(k0), p.0, p.0);
    lemma_add_key_keeps(k1, p.1, p.0);
    lemma_add_key_keeps(k1, p.1, p.1);
    assert forall|k: int| 0 <= k < edges.len() implies key_views(k2).contains(
        (#[trigger] edges[k]).source@,
    ) && key_views(k2).contains(edges[k].target@) by {
        lemma_add_key_keeps(key_views(k0), p.0, edges[k].source@);
        lemma_add_key_keeps(k1, p.1, edges[k].source@);
        lemma_add_key_keeps(key_views(k0), p.0, edges[k].target@);
        lemma_add_key_keeps(k1, p.1, edges[k].target@);
    }
}

proof fn lemma_edge_found(
    rows: Seq<Row>,
    edges: Seq<EdgeNode>,
    k0: Seq<Vec<u8>>,
    k2: Seq<Vec<u8>>,
    i: int,
    pos: int,
)
    requires
        0 <= i < rows.len(),
        survives(rows, i),
        edge_nodes_inv(rows, edges, k0, i),
        key_views(k2) == edge_key_order(rows, i + 1),
        key_views(k2).len() <= 2 * (i + 1),
        forall|k: int|
            0 <= k < edges.len() ==> key_views(k2).contains((#[trigger] edges[k]).source@)
                && key_views(k2).contains(edges[k].target@),
        0 <= pos < edges.len(),
        (edges[pos].source@, edges[pos].target@) == rows[i].pair(),
    ensures
        edge_nodes_inv(rows, edges, k2, i + 1),
{
    reveal(edge_nodes_inv);
    assert forall|k: int| 0 <= k < edges.len() implies edge_payload_ok(rows, #[trigger] edges[k], i + 1) by {
        assert(edge_payload_ok(rows, edges[k], i));
        let p = (edges[k].source@, edges[k].target@);
        assert(first_edge_at(rows, p, i + 1) == first_edge_at(rows, p, i));
    }
    assert forall|k: int| 0 <= k < edges.len() implies surviving_pair_before(
        rows,
        i + 1,
        ((#[trigger] edges[k]).source@, edges[k].target@),
    ) by {
        assert(surviving_pair_before(rows, i, (edges[k].source@, edges[k].target@)));
    }
    assert forall|j: int| 0 <= j < i + 1 && #[trigger] survives(rows, j) implies exists|k: int|
        0 <= k < edges.len() && (#[trigger] edges[k].source@, edges[k].target@) == rows[j].pair() by {
        if j == i {
            assert((edges[pos].source@, edges[pos].target@) == rows[j].pair());
        }
    }
}

#[verifier::rlimit(30)]
proof fn lemma_edge_inserted(
    rows: Seq<Row>,
    e0: Seq<EdgeNode>,
    e1: Seq<EdgeNode>,
    k0: Seq<Vec<u8>>,
    k2: Seq<Vec<u8>>,
    i: int,
    pos: int,
    edge: EdgeNode,
)
    requires
        0 <= i < rows.len(),
        survives(rows, i),
        edge_nodes_inv(rows, e0, k0, i),
        key_views(k2) == edge_key_order(rows, i + 1),
        key_views(k2).len() <= 2 * (i + 1),
        key_views(k2).contains(rows[i].pair().0),
        key_views(k2).contains(rows[i].pair().1),
        forall|k: int|
            0 <= k < e0.len() ==> key_views(k2).contains((#[trigger] e0[k]).source@)
                && key_views(k2).contains(e0[k].target@),
        (edge.source@, edge.target@) == rows[i].pair(),
        0 <= pos <= e0.len(),
        forall|k: int|
            0 <= k < pos ==> pair_lt((e0[k].source@, e0[k].target@), (edge.source@, edge.target@)),
        forall|k: int|
            pos <= k < e0.len() ==> pair_lt((edge.source@, edge.target@), (e0[k].source@, e0[k].target@)),
        forall|k: int| 0 <= k < e0.len() ==> (e0[k].source@, e0[k].target@) != (edge.source@, edge.target@),
        reason_view(edge.reason) == reason_view(rows[i].reason),
        edge.carryover == carryover_of(rows[i].carryover),
        e1 == e0.insert(pos, edge),
    ensures
        edge_nodes_inv(rows, e1, k2, i + 1),
{
    reveal(edge_nodes_inv);
    lemma_insert_shift(e0, e1, pos, edge);
    let p = (edge.source@, edge.target@);
    assert forall|k: int| 0 <= k < e1.len() implies edge_payload_ok(rows, #[trigger] e1[k], i + 1) by {
        if k == pos {
            lemma_first_edge_at(rows, p, i);
            if surviving_pair_before(rows, i, p) {
                let j = choose|j: int| 0 <= j < i && #[trigger] survives(rows, j) && rows[j].pair() == p;
                let m = choose|m: int|
                    0 <= m < e0.len() && (#[trigger] e0[m].source@, e0[m].target@) == rows[j].pair();
                assert((e0[m].source@, e0[m].target@) == p);
            }
            assert(first_edge_at(rows, p, i + 1) == i);
        } else {
            let b = if k < pos { e0[k] } else { e0[k - 1] };
            assert(e1[k] == b);
            assert(edge_payload_ok(rows, b, i));
            let q = (b.source@, b.target@);
            assert(first_edge_at(rows, q, i + 1) == first_edge_at(rows, q, i));
        }
    }
    assert forall|a: int, b: int| 0 <= a < b < e1.len() implies pair_lt(
        (e1[a].source@, e1[a].target@),
        (e1[b].source@, e1[b].target@),
    ) by {
        if a < pos && b > pos {
            lemma_pair_order((e1[a].source@, e1[a].target@), p, (e1[b].source@, e1[b].target@));
        }
    }
    assert(surviving_pair_before(rows, i + 1, p)) by {
        assert(survives(rows, i));
    }
    assert forall|k: int| 0 <= k < e1.len() implies surviving_pair_before(
        rows,
        i + 1,
        ((#[trigger] e1[k]).source@, e1[k].target@),
    ) by {
        if k < pos {
            assert(surviving_pair_before(rows, i, (e0[k].source@, e0[k].target@)));
        } else if k > pos {
            assert(surviving_pair_before(rows, i, (e0[k - 1].source@, e0[k - 1].target@)));
        }
    }
    assert forall|j: int| 0 <= j < i + 1 && #[trigger] survives(rows, j) implies exists|k: int|
        0 <= k < e1.len() && (#[trigger] e1[k].source@, e1[k].target@) == rows[j].pair() by {
        if j == i {
            assert((e1[pos].source@, e1[pos].target@) == rows[j].pair());
        } else {
            let m = choose|m: int|
                0 <= m < e0.len() && (#[trigger] e0[m].source@, e0[m].target@) == rows[j].pair();
            if m < pos {
                assert((e1[m].source@, e1[m].target@) == rows[j].pair());
            } else {
                assert((e1[m + 1].source@, e1[m + 1].target@) == rows[j].pair());
            }
        }
    }
    assert forall|k: int| 0 <= k < e1.len() implies key_views(k2).contains(
        (#[trigger] e1[k]).source@,
    ) && key_views(k2).contains(e1[k].target@) by {
        if k < pos {
            assert(e1[k] == e0[k]);
        } else if k > pos {
            assert(e1[k] == e0[k - 1]);
        }
    }
}

/// Handles row `i` for the edges: a surviving edge row registers its keys
/// and, unless its pair is there already, adds its edge.
fn add_edge_row(
    rows: &Vec<Row>,
    full: &Vec<FullNode>,
    edges: &mut Vec<EdgeNode>,
    keys: &mut Vec<Vec<u8>>,
    i: usize,
)
    requires
        i < rows@.len(),
        full_nodes_inv(rows@, full@, rows@.len() as int),
        edge_nodes_inv(rows@, old(edges)@, old(keys)@, i as int),
    ensures
        edge_nodes_inv(rows@, final(edges)@, final(keys)@, i + 1),
{
    let target = match &rows[i].target_key {
        Some(t) => t,
        None => {
            proof {
                lemma_edge_skip(rows@, edges@, keys@, i as int);
            }
            return;
        },
    };
    let (s, t) = edge_order(rows[i].public_key.as_slice(), target.as_slice());
    proof {
        reveal(full_nodes_inv);
    }
    let (in_s, _) = search_full_nodes(full, s);
    let (in_t, _) = search_full_nodes(full, t);
    proof {
        lemma_full_nodes_complete(rows@, full@, s@);
        lemma_full_nodes_complete(rows@, full@, t@);
    }
    if in_s || in_t {
        proof {
            lemma_edge_skip(rows@, edges@, keys@, i as int);
        }
        return;
    }
    let ghost k0 = keys@;
    insert_key(keys, s);
    insert_key(keys, t);
    proof {
        lemma_edge_keys_step(rows@, edges@, k0, keys@, i as int);
        reveal(edge_nodes_inv);
    }
    let (found, pos) = search_edge_nodes(edges, s, t);
    if found {
        proof {
            lemma_edge_found(rows@, edges@, k0, keys@, i as int, pos as int);
        }
        return;
    }
    let edge = EdgeNode {
        source: copy_bytes(s),
        target: copy_bytes(t),
        reason: clone_reason(&rows[i].reason),
        carryover: match rows[i].carryover {
            Some(c) => c,
            None => 0,
        },
    };
    let ghost e0 = edges@;
    assert(edge.carryover == carryover_of(rows@[i as int].carryover));
    edges.insert(pos, edge);
    proof {
        lemma_edge_inserted(rows@, e0, edges@, k0, keys@, i as int, pos as int, edge);
    }
}

fn reason_or_empty(r: &Option<String>) -> (s: String)
    ensures
        s@ == reason_text(*r),
{
    match r {
        Some(text) => text.clone(),
        None => String::new(),
    }
}

proof fn lemma_reason_text(a: Option<String>, b: Option<String>)
    requires
        reason_view(a) == reason_view(b),
    ensures
        reason_text(a) == reason_text(b),
{
}

/// What the built descriptor says of the rows, from the full nodes and edges
/// it was converted from.
proof fn lemma_descriptor_facts(
    rows: Seq<Row>,
    full: Seq<FullNode>,
    edge_nodes: Seq<EdgeNode>,
    d: Descriptor,
)
    requires
        d.edges is Some,
        full_nodes_inv(rows, full, rows.len() as int),
        edge_nodes_inv(rows, edge_nodes, d.edges->0.keys@, rows.len() as int),
        d.nodes@.len() == full.len(),
        forall|m: int|
            0 <= m < full.len() ==> (#[trigger] d.nodes@[m]).key@ == full[m].key@ && d.nodes@[m].reason@
                == reason_text(full[m].reason) && d.nodes@[m].carryover == full[m].carryover,
        d.edges->0.edges@.len() == edge_nodes.len(),
        forall|m: int|
            0 <= m < edge_nodes.len() ==> (#[trigger] d.edges->0.edges@[m]).source
                < d.edges->0.keys@.len() && d.edges->0.edges@[m].target < d.edges->0.keys@.len()
                && d.edges->0.keys@[d.edges->0.edges@[m].source as int]@ == edge_nodes[m].source@
                && d.edges->0.keys@[d.edges->0.edges@[m].target as int]@ == edge_nodes[m].target@
                && d.edges->0.edges@[m].reason@ == reason_text(edge_nodes[m].reason)
                && d.edges->0.edges@[m].carryover == edge_nodes[m].carryover,
    ensures
        d.canonical_for(rows),
{
    reveal(full_nodes_inv);
    reveal(edge_nodes_inv);
    let e = d.edges->0;
    assert(d.edge_list() == e.edges@);
    assert forall|m: int| 0 <= m < e.edges@.len() implies #[trigger] d.edge_endpoints(m) == (
    edge_nodes[m].source@,
    edge_nodes[m].target@,
    ) by {}
    assert forall|a: int| 0 <= a < e.edges@.len() implies (#[trigger] e.edges@[a]).source
        < e.keys@.len() && e.edges@[a].target < e.keys@.len() by {}
    assert forall|a: int| 0 <= a < d.nodes@.len() implies is_node_key(
        rows,
        (#[trigger] d.nodes@[a]).key@,
    ) by {
        assert(node_row_before(rows, rows.len() as int, full[a].key@));
    }
    assert forall|a: int| 0 <= a < d.edge_list().len() implies surviving_pair_before(
        rows,
        rows.len() as int,
        #[trigger] d.edge_endpoints(a),
    ) by {
        assert(surviving_pair_before(
            rows,
            rows.len() as int,
            (edge_nodes[a].source@, edge_nodes[a].target@),
        ));
    }
    assert forall|j: int| #[trigger] survives(rows, j) implies exists|a: int|
        0 <= a < d.edge_list().len() && #[trigger] d.edge_endpoints(a) == rows[j].pair() by {
        let a = choose|a: int|
            0 <= a < edge_nodes.len() && (#[trigger] edge_nodes[a].source@, edge_nodes[a].target@)
                == rows[j].pair();
        assert(d.edge_endpoints(a) == rows[j].pair());
    }
    assert forall|j: int| 0 <= j < rows.len() && (#[trigger] rows[j]).is_node() implies exists|i: int|
        0 <= i < d.nodes@.len() && #[trigger] d.nodes@[i].key@ == rows[j].public_key@ by {
        let k = choose|k: int| 0 <= k < full.len() && #[trigger] full[k].key@ == rows[j].public_key@;
        assert(d.nodes@[k].key@ == rows[j].public_key@);
    }
    assert forall|a: int, b: int|
        0 <= a < d.edge_list().len() && 0 <= b < d.nodes@.len() implies (
    #[trigger] d.edge_endpoints(a)).0 != (#[trigger] d.nodes@[b]).key@ && d.edge_endpoints(a).1
        != d.nodes@[b].key@ by {
        assert(surviving_pair_before(rows, rows.len() as int, d.edge_endpoints(a)));
        assert(is_node_key(rows, d.nodes@[b].key@));
    }
    assert forall|a: int| 0 <= a < d.nodes@.len() implies node_first_payload(rows, #[trigger] d.nodes@[a]) by {
        assert(full_payload_ok(rows, full[a], rows.len() as int));
        let j = first_node_at(rows, full[a].key@, rows.len() as int);
        lemma_reason_text(full[a].reason, rows[j].reason);
    }
    assert forall|a: int| 0 <= a < d.edge_list().len() implies edge_first_payload(
        rows,
        #[trigger] d.edge_list()[a],
        d.edge_endpoints(a),
    ) by {
        assert(edge_payload_ok(rows, edge_nodes[a], rows.len() as int));
        let j = first_edge_at(rows, (edge_nodes[a].source@, edge_nodes[a].target@), rows.len() as int);
        lemma_reason_text(edge_nodes[a].reason, rows[j].reason);
    }
}

impl Descriptor {
    /// What `from_rows` makes of the rows. The full nodes ascend strictly by
    /// key, each key one that a node row names, and every key that a node row
    /// names is among them. The edges ascend strictly by their pair of keys,
    /// each the canonical pair of a surviving edge row (one neither of whose
    /// keys is a full node's), and every surviving row's pair is among them.
    /// The edge keys are those of the surviving rows in order of first
    /// appearance. No edge touches a full node's key. A full node carries the
    /// reason and carryover of the first row that names its key, an edge
    /// those of the first surviving row with its pair.
    pub open spec fn canonical_for(&self, rows: Seq<Row>) -> bool {
        &&& self.well_formed()
        &&& self.edges is Some
        &&& self.nodes@.len() <= rows.len()
        &&& self.edge_list().len() <= rows.len()
        &&& forall|i: int, j: int|
            0 <= i < j < self.nodes@.len() ==> lex_lt(self.nodes@[i].key@, self.nodes@[j].key@)
        &&& forall|i: int| 0 <= i < self.nodes@.len() ==> is_node_key(rows, (#[trigger] self.nodes@[i]).key@)
        &&& forall|j: int|
            0 <= j < rows.len() && (#[trigger] rows[j]).is_node() ==> exists|i: int|
                0 <= i < self.nodes@.len() && #[trigger] self.nodes@[i].key@ == rows[j].public_key@
        &&& key_views(self.edges->0.keys@) == edge_key_order(rows, rows.len() as int)
        &&& forall|i: int, j: int|
            0 <= i < j < self.edge_list().len() ==> pair_lt(
                self.edge_endpoints(i),
                self.edge_endpoints(j),
            )
        &&& forall|i: int|
            0 <= i < self.edge_list().len() ==> surviving_pair_before(
                rows,
                rows.len() as int,
                #[trigger] self.edge_endpoints(i),
            )
        &&& forall|j: int|
            #[trigger] survives(rows, j) ==> exists|i: int|
                0 <= i < self.edge_list().len() && #[trigger] self.edge_endpoints(i) == rows[j].pair()
        &&& forall|i: int, k: int|
            0 <= i < self.edge_list().len() && 0 <= k < self.nodes@.len() ==> (
            #[trigger] self.edge_endpoints(i)).0 != (#[trigger] self.nodes@[k]).key@
                && self.edge_endpoints(i).1 != self.nodes@[k].key@
        &&& forall|i: int| 0 <= i < self.nodes@.len() ==> node_first_payload(rows, #[trigger] self.nodes@[i])
        &&& forall|i: int|
            0 <= i < self.edge_list().len() ==> edge_first_payload(rows, #[trigger] self.edge_list()[i], self.edge_endpoints(i))
    }

    /// Canonicalizes rows into a descriptor, as `canonical_for` states.
    pub fn from_rows(rows: &Vec<Row>) -> (d: Descriptor)
        requires
            rows@.len() <= 0x7fff_ffff,
        ensures
            d.canonical_for(rows@),
    {
        let mut full: Vec<FullNode> = Vec::new();
        let mut i: usize = 0;
        proof {
            reveal(full_nodes_inv);
        }
        while i < rows.len()
            invariant
                i <= rows@.len(),
                full_nodes_inv(rows@, full@, i as int),
            decreases rows@.len() - i,
        {
            if rows[i].target_key.is_none() {
                add_full_node(rows, &mut full, i);
            } else {
                proof {
                    lemma_full_nodes_skip(rows@, full@, i as int);
                }
            }
            i = i + 1;
        }
        let mut edge_nodes: Vec<EdgeNode> = Vec::new();
        let mut keys: Vec<Vec<u8>> = Vec::new();
        let mut i: usize = 0;
        proof {
            reveal(edge_nodes_inv);
            assert(key_views(keys@) =~= edge_key_order(rows@, 0));
        }
        while i < rows.len()
            invariant
                i <= rows@.len(),
                rows@.len() <= 0x7fff_ffff,
                full_nodes_inv(rows@, full@, rows@.len() as int),
                edge_nodes_inv(rows@, edge_nodes@, keys@, i as int),
            decreases rows@.len() - i,
        {
            add_edge_row(rows, &full, &mut edge_nodes, &mut keys, i);
            i = i + 1;
        }
        proof {
            reveal(edge_nodes_inv);
        }
        let mut nodes: Vec<Node> = Vec::new();
        let mut k: usize = 0;
        while k < full.len()
            invariant
                k <= full@.len(),
                nodes@.len() == k,
                forall|m: int|
                    0 <= m < k ==> (#[trigger] nodes@[m]).key@ == full@[m].key@ && nodes@[m].reason@
                        == reason_text(full@[m].reason) && nodes@[m].carryover == full@[m].carryover,
            decreases full@.len() - k,
        {
            let node = Node {
                key: copy_bytes(full[k].key.as_slice()),
                reason: reason_or_empty(&full[k].reason),
                carryover: full[k].carryover,
            };
            nodes.push(node);
            k = k + 1;
        }
        let mut edges: Vec<Edge> = Vec::new();
        let mut k: usize = 0;
        while k < edge_nodes.len()
            invariant
                k <= edge_nodes@.len(),
                edges@.len() == k,
                key_views(keys@).len() <= 2 * rows@.len(),
                rows@.len() <= 0x7fff_ffff,
                forall|m: int|
                    0 <= m < edge_nodes@.len() ==> key_views(keys@).contains(
                        (#[trigger] edge_nodes@[m]).source@,
                    ) && key_views(keys@).contains(edge_nodes@[m].target@),
                forall|m: int|
                    0 <= m < k ==> (#[trigger] edges@[m]).source < keys@.len() && edges@[m].target
                        < keys@.len() && keys@[edges@[m].source as int]@ == edge_nodes@[m].source@
                        && keys@[edges@[m].target as int]@ == edge_nodes@[m].target@
                        && edges@[m].reason@ == reason_text(edge_nodes@[m].reason)
                        && edges@[m].carryover == edge_nodes@[m].carryover,
            decreases edge_nodes@.len() - k,
        {
            let source = position_of(&keys, edge_nodes[k].source.as_slice());
            let target = position_of(&keys, edge_nodes[k].target.as_slice());
            let edge = Edge {
                source: source as u32,
                target: target as u32,
                reason: reason_or_empty(&edge_nodes[k].reason),
                carryover: edge_nodes[k].carryover,
            };
            edges.push(edge);
            k = k + 1;
        }
        let d = Descriptor { nodes, edges: Some(Edges { keys, edges }) };
        proof {
            lemma_descriptor_facts(rows@, full@, edge_nodes@, d);
        }
        d
    }
}

/// How many endpoints among the first `n` edges are the key at position `k`.
pub open spec fn endpoint_count(edges: Seq<Edge>, k: int, n: int) -> int
    decreases n,
{
    if n <= 0 {
        0
    } else {
        endpoint_count(edges, k, n - 1) + (if edges[n - 1].source == k {
            1int
        } else {
            0int
        }) + (if edges[n - 1].target == k {
            1int
        } else {
            0int
        })
    }
}

/// Some full node has this key.
pub open spec fn has_node(nodes: Seq<Node>, key: Seq<u8>) -> bool {
    exists|i: int| 0 <= i < nodes.len() && (#[trigger] nodes[i]).key@ == key
}

/// The reason of an edge as a lookup reports it: none when it is empty.
pub open spec fn reported_reason(r: String) -> Option<Seq<char>> {
    if r@.len() == 0 {
        None
    } else {
        Some(r@)
    }
}

/// The edges among the first `n` that touch the key at position `k`, as
/// (source key, target key, reported reason, carryover).
pub open spec fn touching(e: Edges, k: int, n: int) -> Seq<
    (Seq<u8>, Seq<u8>, Option<Seq<char>>, u32),
>
    decreases n,
{
    if n <= 0 {
        Seq::empty()
    } else if e.edges@[n - 1].source == k || e.edges@[n - 1].target == k {
        touching(e, k, n - 1).push(
            (
                e.keys@[e.edges@[n - 1].source as int]@,
                e.keys@[e.edges@[n - 1].target as int]@,
                reported_reason(e.edges@[n - 1].reason),
                e.edges@[n - 1].carryover,
            ),
        )
    } else {
        touching(e, k, n - 1)
    }
}

impl Descriptor {
    /// The edge keys among the first `n`, with their endpoint counts, that are
    /// not full nodes' keys and that some edge touches.
    pub open spec fn counted_prefix(&self, n: int) -> Seq<(Seq<u8>, int)>
        decreases n,
    {
        match self.edges {
            None => Seq::empty(),
            Some(e) => if n <= 0 {
                Seq::empty()
            } else {
                let c = endpoint_count(e.edges@, n - 1, e.edges@.len() as int);
                if !has_node(self.nodes@, e.keys@[n - 1]@) && c > 0 {
                    self.counted_prefix(n - 1).push((e.keys@[n - 1]@, c))
                } else {
                    self.counted_prefix(n - 1)
                }
            },
        }
    }

    /// Every edge key that is not a full node's key and that some edge
    /// touches, with its endpoint count, in key order.
    pub open spec fn counted_keys(&self) -> Seq<(Seq<u8>, int)> {
        match self.edges {
            None => Seq::empty(),
            Some(e) => self.counted_prefix(e.keys@.len() as int),
        }
    }

    /// Whether some full node has the key.
    fn has_node_key(&self, key: &[u8]) -> (r: bool)
        ensures
            r == has_node(self.nodes@, key@),
    {
        let mut i: usize = 0;
        while i < self.nodes.len()
            invariant
                i <= self.nodes@.len(),
                forall|j: int| 0 <= j < i ==> self.nodes@[j].key@ != key@,
            decreases self.nodes@.len() - i,
        {
            if crate::keys::key_eq(self.nodes[i].key.as_slice(), key) {
                assert(self.nodes@[i as int].key@ == key@);
                return true;
            }
            i = i + 1;
        }
        false
    }

    /// Each full node's key with -1 ("every edge"), in node order, then
    /// each other edge key that an edge touches with its number of edge
    /// endpoints, in key order.
    pub fn edge_counts(&self) -> (r: Vec<(Vec<u8>, i64)>)
        requires
            self.well_formed(),
            self.edge_list().len() < 0x1000_0000_0000_0000,
        ensures
            r@.len() == self.nodes@.len() + self.counted_keys().len(),
            forall|i: int|
                0 <= i < self.nodes@.len() ==> (#[trigger] r@[i]).0@ == self.nodes@[i].key@
                    && r@[i].1 == -1,
            forall|i: int|
                0 <= i < self.counted_keys().len() ==> (#[trigger] r@[self.nodes@.len() + i]).0@
                    == self.counted_keys()[i].0 && r@[self.nodes@.len() + i].1
                    == self.counted_keys()[i].1,
    {
        let mut out: Vec<(Vec<u8>, i64)> = Vec::new();
        let mut i: usize = 0;
        while i < self.nodes.len()
            invariant
                i <= self.nodes@.len(),
                out@.len() == i,
                forall|j: int|
                    0 <= j < i ==> (#[trigger] out@[j]).0@ == self.nodes@[j].key@ && out@[j].1 == -1,
            decreases self.nodes@.len() - i,
        {
            out.push((crate::codec::copy_bytes(self.nodes[i].key.as_slice()), -1));
            i = i + 1;
        }
        let ghost base = out@.len();
        match &self.edges {
            None => {},
            Some(e) => {
                let mut counts: Vec<i64> = Vec::new();
                let mut k: usize = 0;
                while k < e.keys.len()
                    invariant
                        k <= e.keys@.len(),
                        counts@.len() == k,
                        forall|m: int| 0 <= m < k ==> counts@[m] == 0,
                    decreases e.keys@.len() - k,
                {
                    counts.push(0);
                    k = k + 1;
                }
                let mut j: usize = 0;
                while j < e.edges.len()
                    invariant
                        self.edges == Some(*e),
                        e.well_formed(),
                        e.edges@.len() < 0x1000_0000_0000_0000,
                        j <= e.edges@.len(),
                        counts@.len() == e.keys@.len(),
                        forall|m: int|
                            0 <= m < counts@.len() ==> counts@[m] == endpoint_count(
                                e.edges@,
                                m,
                                j as int,
                            ) && 0 <= #[trigger] counts@[m] <= 2 * j,
                    decreases e.edges@.len() - j,
                {
                    let s = e.edges[j].source as usize;
                    let t = e.edges[j].target as usize;
                    assert(s < counts@.len() && t < counts@.len());
                    let cs = counts[s];
                    counts.set(s, cs + 1);
                    let ct = counts[t];
                    counts.set(t, ct + 1);
                    j = j + 1;
                }
                let mut k: usize = 0;
                while k < e.keys.len()
                    invariant
                        self.edges == Some(*e),
                        k <= e.keys@.len(),
                        counts@.len() == e.keys@.len(),
                        forall|m: int|
                            0 <= m < counts@.len() ==> #[trigger] counts@[m] == endpoint_count(
                                e.edges@,
                                m,
                                e.edges@.len() as int,
                            ),
                        out@.len() == self.nodes@.len() + self.counted_prefix(k as int).len(),
                        forall|m: int|
                            0 <= m < self.nodes@.len() ==> (#[trigger] out@[m]).0@
                                == self.nodes@[m].key@ && out@[m].1 == -1,
                        forall|m: int|
                            0 <= m < self.counted_prefix(k as int).len() ==> (#[trigger] out@[self.nodes@.len()
                                + m]).0@ == self.counted_prefix(k as int)[m].0 && out@[self.nodes@.len()
                                + m].1 == self.counted_prefix(k as int)[m].1,
                    decreases e.keys@.len() - k,
                {
                    let c = counts[k];
                    if c > 0 && !self.has_node_key(e.keys[k].as_slice()) {
                        out.push((crate::codec::copy_bytes(e.keys[k].as_slice()), c));
                    }
                    k = k + 1;
                }
            },
        }
        out
    }

    /// The first full node with the key, if any, its reason present (and
    /// possibly empty).
    pub fn find_node(&self, key: &[u8]) -> (r: Option<FullNode>)
        ensures
            r is None <==> !has_node(self.nodes@, key@),
            r matches Some(n) ==> exists|i: int|
                0 <= i < self.nodes@.len() && #[trigger] self.nodes@[i].key@ == key@ && (forall|j: int|
                    0 <= j < i ==> self.nodes@[j].key@ != key@) && n.key@ == key@ && reason_view(
                    n.reason,
                ) == Some(self.nodes@[i].reason@) && n.carryover == self.nodes@[i].carryover,
    {
        let mut i: usize = 0;
        while i < self.nodes.len()
            invariant
                i <= self.nodes@.len(),
                forall|j: int| 0 <= j < i ==> self.nodes@[j].key@ != key@,
            decreases self.nodes@.len() - i,
        {
            if crate::keys::key_eq(self.nodes[i].key.as_slice(), key) {
                let n = FullNode {
                    key: crate::codec::copy_bytes(self.nodes[i].key.as_slice()),
                    reason: Some(self.nodes[i].reason.clone()),
                    carryover: self.nodes[i].carryover,
                };
                assert(self.nodes@[i as int].key@ == key@);
                return Some(n);
            }
            i = i + 1;
        }
        None
    }

    /// The edges that touch the key, in edge order, each with its two keys;
    /// an empty reason is reported as none. No edges when the key is not an
    /// edge key.
    pub fn find_edges(&self, key: &[u8]) -> (r: Vec<EdgeNode>)
        requires
            self.well_formed(),
        ensures
            match self.edges {
                None => r@.len() == 0,
                Some(e) => if key_views(e.keys@).contains(key@) {
                    exists|k: int|
                        0 <= k < e.keys@.len() && #[trigger] e.keys@[k]@ == key@ && r@.len()
                            == touching(e, k, e.edges@.len() as int).len() && forall|m: int|
                            0 <= m < r@.len() ==> ((#[trigger] r@[m]).source@, r@[m].target@,
                            reason_view(r@[m].reason), r@[m].carryover) == touching(e, k, e.edges@.len() as int)[m]
                } else {
                    r@.len() == 0
                },
            },
    {
        match &self.edges {
            None => Vec::new(),
            Some(e) => {
                let mut k: usize = 0;
                while k < e.keys.len()
                    invariant
                        k <= e.keys@.len(),
                        forall|j: int| 0 <= j < k ==> e.keys@[j]@ != key@,
                    ensures
                        k <= e.keys@.len(),
                        forall|j: int| 0 <= j < k ==> e.keys@[j]@ != key@,
                        k < e.keys@.len() ==> e.keys@[k as int]@ == key@,
                    decreases e.keys@.len() - k,
                {
                    if crate::keys::key_eq(e.keys[k].as_slice(), key) {
                        break;
                    }
                    k = k + 1;
                }
                if k == e.keys.len() {
                    proof {
                        assert forall|j: int| 0 <= j < key_views(e.keys@).len() implies key_views(
                            e.keys@,
                        )[j] != key@ by {}
                    }
                    return Vec::new();
                }
                assert(key_views(e.keys@)[k as int] == key@);
                let mut out: Vec<EdgeNode> = Vec::new();
                let mut j: usize = 0;
                while j < e.edges.len()
                    invariant
                        self.edges == Some(*e),
                        e.well_formed(),
                        k < e.keys@.len(),
                        e.keys@[k as int]@ == key@,
                        j <= e.edges@.len(),
                        out@.len() == touching(*e, k as int, j as int).len(),
                        forall|m: int|
                            0 <= m < out@.len() ==> ((#[trigger] out@[m]).source@, out@[m].target@,
                            reason_view(out@[m].reason), out@[m].carryover) == touching(*e, k as int, j as int)[m],
                    decreases e.edges@.len() - j,
                {
                    let edge = &e.edges[j];
                    if edge.source as usize == k || edge.target as usize == k {
                        assert(edge.source < e.keys@.len() && edge.target < e.keys@.len());
                        let reason = if edge.reason.as_str().is_empty() {
                            None
                        } else {
                            Some(edge.reason.clone())
                        };
                        out.push(
                            EdgeNode::new(
                                crate::codec::copy_bytes(e.keys[edge.source as usize].as_slice()),
                                crate::codec::copy_bytes(e.keys[edge.target as usize].as_slice()),
                                reason,
                                edge.carryover,
                            ),
                        );
                    }
                    j = j + 1;
                }
                out
            },
        }
    }
}
/// A strict order on `T`: irreflexive, transitive and total on distinct values.
pub open spec fn strict_total<T>(lt: spec_fn(T, T) -> bool) -> bool {
    &&& forall|a: T| !#[trigger] lt(a, a)
    &&& forall|a: T, b: T, c: T| #[trigger] lt(a, b) && #[trigger] lt(b, c) ==> lt(a, c)
    &&& forall|a: T, b: T| a != b ==> #[trigger] lt(a, b) || #[trigger] lt(b, a)
}

/// Strictly ascending under `lt`.
pub open spec fn ascending<T>(s: Seq<T>, lt: spec_fn(T, T) -> bool) -> bool {
    forall|i: int, j: int| 0 <= i < j < s.len() ==> #[trigger] lt(s[i], s[j])
}

/// Two strictly ascending sequences with the same elements are the same.
pub proof fn lemma_ascending_unique<T>(s1: Seq<T>, s2: Seq<T>, lt: spec_fn(T, T) -> bool)
    requires
        strict_total(lt),
        ascending(s1, lt),
        ascending(s2, lt),
        forall|x: T| s1.contains(x) <==> s2.contains(x),
    ensures
        s1 == s2,
    decreases s1.len(),
{
    if s1.len() == 0 {
        if s2.len() > 0 {
            assert(s2.contains(s2[0]));
        }
        assert(s1 =~= s2);
    } else {
        assert(s1.contains(s1[0]));
        assert(s2.len() > 0);
        assert(s2.contains(s2[0]));
        let j = choose|j: int| 0 <= j < s2.len() && s2[j] == s1[0];
        let i = choose|i: int| 0 <= i < s1.len() && s1[i] == s2[0];
        if j > 0 {
            assert(lt(s2[0], s2[j]));
            if i > 0 {
                assert(lt(s1[0], s1[i]));
                assert(lt(s2[0], s2[0]));
            } else {
                assert(lt(s2[0], s2[0]));
            }
        }
        assert(s1[0] == s2[0]);
        let t1 = s1.drop_first();
        let t2 = s2.drop_first();
        assert forall|x: T| t1.contains(x) <==> t2.contains(x) by {
            if t1.contains(x) {
                let a = choose|a: int| 0 <= a < t1.len() && t1[a] == x;
                assert(lt(s1[0], s1[a + 1]));
                assert(s2.contains(x));
                let b = choose|b: int| 0 <= b < s2.len() && s2[b] == x;
                if b == 0 {
                    assert(lt(x, x));
                }
                assert(t2[b - 1] == x);
            }
            if t2.contains(x) {
                let a = choose|a: int| 0 <= a < t2.len() && t2[a] == x;
                assert(lt(s2[0], s2[a + 1]));
                assert(s1.contains(x));
                let b = choose|b: int| 0 <= b < s1.len() && s1[b] == x;
                if b == 0 {
                    assert(lt(x, x));
                }
                assert(t1[b - 1] == x);
            }
        }
        assert forall|a: int, b: int| 0 <= a < b < t1.len() implies #[trigger] lt(t1[a], t1[b]) by {
            assert(lt(s1[a + 1], s1[b + 1]));
        }
        assert forall|a: int, b: int| 0 <= a < b < t2.len() implies #[trigger] lt(t2[a], t2[b]) by {
            assert(lt(s2[a + 1], s2[b + 1]));
        }
        lemma_ascending_unique(t1, t2, lt);
        assert(s1 =~= seq![s1[0]] + t1);
        assert(s2 =~= seq![s2[0]] + t2);
    }
}

/// The keys and target (if any) of a row: what decides where it goes.
pub open spec fn row_keys(r: Row) -> (Seq<u8>, Option<Seq<u8>>) {
    (
        r.public_key@,
        match r.target_key {
            Some(t) => Some(t@),
            None => None,
        },
    )
}

/// Every row of `a` has a row with the same keys in `b`.
pub open spec fn rows_covered(a: Seq<Row>, b: Seq<Row>) -> bool {
    forall|j: int|
        #![trigger a[j]]
        0 <= j < a.len() ==> exists|k: int| 0 <= k < b.len() && row_keys(#[trigger] b[k]) == row_keys(a[j])
}

/// The keys of the full nodes, in order.
pub open spec fn node_key_seq(d: Descriptor) -> Seq<Seq<u8>> {
    d.nodes@.map_values(|n: Node| n.key@)
}

/// The pairs of keys of the edges, in order.
pub open spec fn edge_pair_seq(d: Descriptor) -> Seq<(Seq<u8>, Seq<u8>)> {
    Seq::new(d.edge_list().len(), |i: int| d.edge_endpoints(i))
}

proof fn lemma_lex_strict_total()
    ensures
        strict_total(|a: Seq<u8>, b: Seq<u8>| lex_lt(a, b)),
{
    assert forall|a: Seq<u8>, b: Seq<u8>, c: Seq<u8>| lex_lt(a, b) && lex_lt(b, c) implies lex_lt(
        a,
        c,
    ) by {
        lemma_lex_transitive(a, b, c);
    }
    assert forall|a: Seq<u8>| !lex_lt(a, a) by {
        lemma_lex_irreflexive(a);
    }
    assert forall|a: Seq<u8>, b: Seq<u8>| a != b implies lex_lt(a, b) || lex_lt(b, a) by {
        lemma_lex_total(a, b);
    }
}

proof fn lemma_pair_strict_total()
    ensures
        strict_total(|a: (Seq<u8>, Seq<u8>), b: (Seq<u8>, Seq<u8>)| pair_lt(a, b)),
{
    assert forall|a: (Seq<u8>, Seq<u8>), b: (Seq<u8>, Seq<u8>), c: (Seq<u8>, Seq<u8>)|
        pair_lt(a, b) && pair_lt(b, c) implies pair_lt(a, c) by {
        lemma_pair_order(a, b, c);
    }
    assert forall|a: (Seq<u8>, Seq<u8>)| !pair_lt(a, a) by {
        lemma_pair_order(a, a, a);
    }
    assert forall|a: (Seq<u8>, Seq<u8>), b: (Seq<u8>, Seq<u8>)| a != b implies pair_lt(a, b)
        || pair_lt(b, a) by {
        lemma_pair_order(a, b, a);
    }
}

proof fn lemma_same_node_keys(r1: Seq<Row>, r2: Seq<Row>, key: Seq<u8>)
    requires
        rows_covered(r1, r2),
        rows_covered(r2, r1),
    ensures
        is_node_key(r1, key) <==> is_node_key(r2, key),
{
    if is_node_key(r1, key) {
        let j = choose|j: int| 0 <= j < r1.len() && (#[trigger] r1[j]).is_node() && r1[j].public_key@ == key;
        let k = choose|k: int| 0 <= k < r2.len() && row_keys(#[trigger] r2[k]) == row_keys(r1[j]);
        assert(r2[k].is_node() && r2[k].public_key@ == key);
    }
    if is_node_key(r2, key) {
        let j = choose|j: int| 0 <= j < r2.len() && (#[trigger] r2[j]).is_node() && r2[j].public_key@ == key;
        let k = choose|k: int| 0 <= k < r1.len() && row_keys(#[trigger] r1[k]) == row_keys(r2[j]);
        assert(r1[k].is_node() && r1[k].public_key@ == key);
    }
}

proof fn lemma_same_surviving_pairs(r1: Seq<Row>, r2: Seq<Row>, p: (Seq<u8>, Seq<u8>))
    requires
        rows_covered(r1, r2),
        rows_covered(r2, r1),
    ensures
        surviving_pair_before(r1, r1.len() as int, p) ==> surviving_pair_before(r2, r2.len() as int, p),
{
    if surviving_pair_before(r1, r1.len() as int, p) {
        let j = choose|j: int| 0 <= j < r1.len() && #[trigger] survives(r1, j) && r1[j].pair() == p;
        let k = choose|k: int| 0 <= k < r2.len() && row_keys(#[trigger] r2[k]) == row_keys(r1[j]);
        assert(r2[k].pair() == r1[j].pair());
        lemma_same_node_keys(r1, r2, p.0);
        lemma_same_node_keys(r1, r2, p.1);
        assert(survives(r2, k));
    }
}

proof fn lemma_node_keys_exact(rows: Seq<Row>, d: Descriptor, key: Seq<u8>)
    requires
        d.canonical_for(rows),
    ensures
        node_key_seq(d).contains(key) <==> is_node_key(rows, key),
{
    if node_key_seq(d).contains(key) {
        let i = choose|i: int| 0 <= i < node_key_seq(d).len() && node_key_seq(d)[i] == key;
        assert(is_node_key(rows, d.nodes@[i].key@));
    }
    if is_node_key(rows, key) {
        let j = choose|j: int| 0 <= j < rows.len() && (#[trigger] rows[j]).is_node() && rows[j].public_key@ == key;
        let i = choose|i: int| 0 <= i < d.nodes@.len() && #[trigger] d.nodes@[i].key@ == rows[j].public_key@;
        assert(node_key_seq(d)[i] == key);
    }
}

proof fn lemma_edge_pairs_exact(rows: Seq<Row>, d: Descriptor, p: (Seq<u8>, Seq<u8>))
    requires
        d.canonical_for(rows),
    ensures
        edge_pair_seq(d).contains(p) <==> surviving_pair_before(rows, rows.len() as int, p),
{
    if edge_pair_seq(d).contains(p) {
        let i = choose|i: int| 0 <= i < edge_pair_seq(d).len() && edge_pair_seq(d)[i] == p;
        assert(surviving_pair_before(rows, rows.len() as int, d.edge_endpoints(i)));
    }
    if surviving_pair_before(rows, rows.len() as int, p) {
        let j = choose|j: int| 0 <= j < rows.len() && #[trigger] survives(rows, j) && rows[j].pair() == p;
        let i = choose|i: int| 0 <= i < d.edge_list().len() && #[trigger] d.edge_endpoints(i) == rows[j].pair();
        assert(edge_pair_seq(d)[i] == p);
    }
}

/// Building from rows that hold the same keys and targets, in any order and
/// with any repetition, gives the same full node keys in the same order and
/// the same edges (by their pair of keys) in the same order.
pub proof fn lemma_order_independent(rows1: Seq<Row>, rows2: Seq<Row>, d1: Descriptor, d2: Descriptor)
    requires
        rows_covered(rows1, rows2),
        rows_covered(rows2, rows1),
        d1.canonical_for(rows1),
        d2.canonical_for(rows2),
    ensures
        node_key_seq(d1) == node_key_seq(d2),
        edge_pair_seq(d1) == edge_pair_seq(d2),
{
    let klt = |a: Seq<u8>, b: Seq<u8>| lex_lt(a, b);
    let plt = |a: (Seq<u8>, Seq<u8>), b: (Seq<u8>, Seq<u8>)| pair_lt(a, b);
    lemma_lex_strict_total();
    lemma_pair_strict_total();
    assert forall|x: Seq<u8>| node_key_seq(d1).contains(x) <==> node_key_seq(d2).contains(x) by {
        lemma_node_keys_exact(rows1, d1, x);
        lemma_node_keys_exact(rows2, d2, x);
        lemma_same_node_keys(rows1, rows2, x);
    }
    assert forall|p: (Seq<u8>, Seq<u8>)| edge_pair_seq(d1).contains(p) <==> edge_pair_seq(d2).contains(p) by {
        lemma_edge_pairs_exact(rows1, d1, p);
        lemma_edge_pairs_exact(rows2, d2, p);
        lemma_same_surviving_pairs(rows1, rows2, p);
        lemma_same_surviving_pairs(rows2, rows1, p);
    }
    assert(ascending(node_key_seq(d1), klt));
    assert(ascending(node_key_seq(d2), klt));
    assert(ascending(edge_pair_seq(d1), plt));
    assert(ascending(edge_pair_seq(d2), plt));
    lemma_ascending_unique(node_key_seq(d1), node_key_seq(d2), klt);
    lemma_ascending_unique(edge_pair_seq(d1), edge_pair_seq(d2), plt);
}

/// Some row names a full node, or some edge row survives: what a descriptor
/// of the rows needs to be non-empty.
pub open spec fn has_entries(rows: Seq<Row>) -> bool {
    (exists|j: int| 0 <= j < rows.len() && (#[trigger] rows[j]).is_node()) || (exists|j: int|
        #[trigger] survives(rows, j))
}

/// The canonical descriptor of the rows has a node or an edge exactly when
/// some row names a full node or some edge row survives.
pub proof fn lemma_has_entries(rows: Seq<Row>, d: Descriptor)
    requires
        d.canonical_for(rows),
    ensures
        d.nodes@.len() + d.edge_list().len() > 0 <==> has_entries(rows),
{
    if exists|j: int| 0 <= j < rows.len() && (#[trigger] rows[j]).is_node() {
        let j = choose|j: int| 0 <= j < rows.len() && (#[trigger] rows[j]).is_node();
        let i = choose|i: int| 0 <= i < d.nodes@.len() && #[trigger] d.nodes@[i].key@ == rows[j].public_key@;
    }
    if exists|j: int| #[trigger] survives(rows, j) {
        let j = choose|j: int| #[trigger] survives(rows, j);
        let i = choose|i: int| 0 <= i < d.edge_list().len() && #[trigger] d.edge_endpoints(i) == rows[j].pair();
    }
    if d.nodes@.len() > 0 {
        assert(is_node_key(rows, d.nodes@[0].key@));
        let j = choose|j: int| 0 <= j < rows.len() && (#[trigger] rows[j]).is_node() && rows[j].public_key@ == d.nodes@[0].key@;
    }
    if d.edge_list().len() > 0 {
        assert(surviving_pair_before(rows, rows.len() as int, d.edge_endpoints(0)));
        let j = choose|j: int| 0 <= j < rows.len() && #[trigger] survives(rows, j) && rows[j].pair() == d.edge_endpoints(0);
    }
}

} // verus!
