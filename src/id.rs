//! Identifiers and their total order.
use vstd::prelude::*;

verus! {

/// Tags a `Node`. Supplied by the client and globally unique.
#[derive(PartialEq, Eq, Structural, PartialOrd, Ord, Clone, Copy, Debug, Hash)]
pub struct NodeId(u32);

impl View for NodeId {
    type V = u32;

    closed spec fn view(&self) -> u32 {
        self.0
    }
}

impl NodeId {
    pub fn new(i: u32) -> (r: NodeId)
        ensures
            r@ == i,
    {
        NodeId(i)
    }

    /// The tag as a plain integer.
    pub fn as_u32(self) -> (r: u32)
        ensures
            r == self@,
    {
        self.0
    }
}

/// The mathematical value of an [`Id`].
pub struct IdView {
    pub indices: Seq<u64>,
    pub node: u32,
}

/// `s` and `t` agree on their first `n` entries.
pub open spec fn agree(s: Seq<u64>, t: Seq<u64>, n: int) -> bool {
    &&& 0 <= n <= s.len()
    &&& n <= t.len()
    &&& forall|j: int| 0 <= j < n ==> #[trigger] s[j] == t[j]
}

/// `s` is below `t`, and the two first part at position `i`: either `s`
/// ends there while `t` goes on, or both go on and `s[i] < t[i]`.
pub open spec fn lt_at(s: Seq<u64>, t: Seq<u64>, i: int) -> bool {
    &&& agree(s, t, i)
    &&& i < t.len()
    &&& (i == s.len() || s[i] < t[i])
}

/// Lexicographic order on index paths: a proper prefix is smaller.
pub open spec fn seq_lt(s: Seq<u64>, t: Seq<u64>) -> bool {
    exists|i: int| lt_at(s, t, i)
}

/// Identifiers compare by indices first, then by replica tag.
pub open spec fn id_lt(a: IdView, b: IdView) -> bool {
    seq_lt(a.indices, b.indices) || (a.indices == b.indices && a.node < b.node)
}

pub open spec fn id_le(a: IdView, b: IdView) -> bool {
    id_lt(a, b) || a == b
}

/// An LSEQ identifier, created by a `Node`.
#[derive(Eq, Ord, Clone, Debug, Hash)]
pub struct Id {
    // Indices into the tree of identifiers: entry `k` names a node on level
    // `k` of the tree. Declared before `node` so that the derived `Ord`
    // compares the indices first.
    indices: Vec<u64>,
    /// The `Node` that created this id.
    pub node: NodeId,
}

impl View for Id {
    type V = IdView;

    closed spec fn view(&self) -> IdView {
        IdView { indices: self.indices@, node: self.node@ }
    }
}

impl PartialEq for Id {
    fn eq(&self, o: &Id) -> (r: bool) {
        let same = compare_indices(&self.indices, &o.indices);
        proof {
            assert(self@ == o@ <==> (self.indices@ == o.indices@ && self.node@ == o.node@));
        }
        match same {
            std::cmp::Ordering::Equal => self.node.0 == o.node.0,
            _ => false,
        }
    }
}

impl vstd::std_specs::cmp::PartialEqSpecImpl for Id {
    open spec fn obeys_eq_spec() -> bool {
        true
    }

    open spec fn eq_spec(&self, o: &Id) -> bool {
        self@ == o@
    }
}

impl PartialOrd for Id {
    fn partial_cmp(&self, o: &Id) -> (r: Option<std::cmp::Ordering>) {
        let by_indices = compare_indices(&self.indices, &o.indices);
        match by_indices {
            std::cmp::Ordering::Equal => {
                if self.node.0 < o.node.0 {
                    Some(std::cmp::Ordering::Less)
                } else if self.node.0 == o.node.0 {
                    Some(std::cmp::Ordering::Equal)
                } else {
                    Some(std::cmp::Ordering::Greater)
                }
            },
            _ => Some(by_indices),
        }
    }
}

impl vstd::std_specs::cmp::PartialOrdSpecImpl for Id {
    open spec fn obeys_partial_cmp_spec() -> bool {
        true
    }

    open spec fn partial_cmp_spec(&self, o: &Id) -> Option<std::cmp::Ordering> {
        Some(
            if id_lt(self@, o@) {
                std::cmp::Ordering::Less
            } else if self@ == o@ {
                std::cmp::Ordering::Equal
            } else {
                std::cmp::Ordering::Greater
            },
        )
    }
}

impl Id {
    /// An identifier made of the given path and tag.
    pub fn new(indices: Vec<u64>, node: NodeId) -> (r: Id)
        ensures
            r@ == (IdView { indices: indices@, node: node@ }),
    {
        Id { indices, node }
    }

    /// The number of levels in the path.
    pub fn depth(&self) -> (r: usize)
        ensures
            r == self@.indices.len(),
    {
        self.indices.len()
    }

    /// The index at `level`.
    pub fn index(&self, level: usize) -> (r: u64)
        requires
            level < self@.indices.len(),
        ensures
            r == self@.indices[level as int],
    {
        self.indices[level]
    }

    /// The whole path.
    pub fn indices(&self) -> (r: &Vec<u64>)
        ensures
            r@ == self@.indices,
    {
        &self.indices
    }

    /// The tag of the node that created this id.
    pub fn node_id(&self) -> (r: NodeId)
        ensures
            r@ == self@.node,
    {
        self.node
    }

    /// A copy of this path with `index` added as a new last level, tagged
    /// `node`.
    pub fn appended(&self, index: u64, node: NodeId) -> (r: Id)
        ensures
            r@ == (IdView { indices: self@.indices.push(index), node: node@ }),
    {
        let mut indices = prefix_of(&self.indices, self.indices.len());
        indices.push(index);
        proof {
            assert(indices@ =~= self@.indices.push(index));
        }
        Id { indices, node }
    }

    /// A copy of the first `level` levels of this path followed by `index`,
    /// tagged `node`.
    pub fn truncated_replaced(&self, level: usize, index: u64, node: NodeId) -> (r: Id)
        requires
            level < self@.indices.len(),
        ensures
            r@ == (IdView { indices: self@.indices.subrange(0, level as int).push(index), node: node@ }),
    {
        let mut indices = prefix_of(&self.indices, level);
        indices.push(index);
        Id { indices, node }
    }
}

/// A fresh vector holding the first `n` entries of `v`.
fn prefix_of(v: &Vec<u64>, n: usize) -> (r: Vec<u64>)
    requires
        n <= v@.len(),
    ensures
        r@ == v@.subrange(0, n as int),
{
    let mut r: Vec<u64> = Vec::new();
    let mut i: usize = 0;
    while i < n
        invariant
            n <= v@.len(),
            i <= n,
            r@ == v@.subrange(0, i as int),
        decreases n - i,
    {
        r.push(v[i]);
        i += 1;
        proof {
            assert(r@ =~= v@.subrange(0, i as int));
        }
    }
    r
}

/// Compares two index paths; `Less`, `Equal` or `Greater` as `seq_lt` says.
fn compare_indices(s: &Vec<u64>, t: &Vec<u64>) -> (r: std::cmp::Ordering)
    ensures
        r == std::cmp::Ordering::Less <==> seq_lt(s@, t@),
        r == std::cmp::Ordering::Equal <==> s@ == t@,
        r == std::cmp::Ordering::Greater <==> seq_lt(t@, s@),
{
    let mut i: usize = 0;
    while i < s.len() && i < t.len()
        invariant
            agree(s@, t@, i as int),
        decreases s.len() - i,
    {
        if s[i] < t[i] {
            proof {
                assert(lt_at(s@, t@, i as int));
                lemma_seq_lt_asym(s@, t@);
            }
            return std::cmp::Ordering::Less;
        }
        if s[i] > t[i] {
            proof {
                assert(lt_at(t@, s@, i as int));
                lemma_seq_lt_asym(t@, s@);
            }
            return std::cmp::Ordering::Greater;
        }
        i += 1;
    }
    if i < t.len() {
        proof {
            assert(lt_at(s@, t@, i as int));
            lemma_seq_lt_asym(s@, t@);
        }
        std::cmp::Ordering::Less
    } else if i < s.len() {
        proof {
            assert(lt_at(t@, s@, i as int));
            lemma_seq_lt_asym(t@, s@);
        }
        std::cmp::Ordering::Greater
    } else {
        proof {
            assert(s@ =~= t@);
            lemma_seq_lt_irrefl(s@);
        }
        std::cmp::Ordering::Equal
    }
}

/// No path is below itself.
pub proof fn lemma_seq_lt_irrefl(s: Seq<u64>)
    ensures
        !seq_lt(s, s),
{
}

/// Of two paths, at most one is below the other, and equal paths are not
/// below each other.
pub proof fn lemma_seq_lt_asym(s: Seq<u64>, t: Seq<u64>)
    requires
        seq_lt(s, t),
    ensures
        !seq_lt(t, s),
        s != t,
{
    let i = choose|i: int| lt_at(s, t, i);
    if seq_lt(t, s) {
        let k = choose|k: int| lt_at(t, s, k);
        if k < i {
            assert(s[k] == t[k]);
        } else if i < k {
            assert(s[i] == t[i]);
        }
    }
}

/// A proper prefix is below the path it starts.
pub proof fn lemma_prefix_lt(s: Seq<u64>, t: Seq<u64>)
    requires
        s.len() < t.len(),
        agree(s, t, s.len() as int),
    ensures
        seq_lt(s, t),
{
    assert(lt_at(s, t, s.len() as int));
}

/// Paths that agree up to `i` and then differ at `i` are ordered by that
/// entry.
pub proof fn lemma_first_difference(s: Seq<u64>, t: Seq<u64>, i: int)
    requires
        agree(s, t, i),
        i < s.len(),
        i < t.len(),
        s[i] < t[i],
    ensures
        seq_lt(s, t),
{
    assert(lt_at(s, t, i));
}

/// Agreement on a prefix is symmetric and transitive, and holds on every
/// shorter prefix.
pub proof fn lemma_agree(s: Seq<u64>, t: Seq<u64>, u: Seq<u64>, n: int, m: int)
    requires
        agree(s, t, n),
    ensures
        agree(t, s, n),
        agree(t, u, n) ==> agree(s, u, n),
        0 <= m <= n ==> agree(s, t, m),
{
    if agree(t, u, n) {
        assert forall|j: int| 0 <= j < n implies #[trigger] s[j] == u[j] by {
            assert(s[j] == t[j]);
            assert(t[j] == u[j]);
        }
    }
    assert forall|j: int| 0 <= j < n implies #[trigger] t[j] == s[j] by {
        assert(s[j] == t[j]);
    }
}

/// The order on paths is transitive.
pub proof fn lemma_seq_lt_trans(s: Seq<u64>, t: Seq<u64>, u: Seq<u64>)
    requires
        seq_lt(s, t),
        seq_lt(t, u),
    ensures
        seq_lt(s, u),
{
    let i = choose|i: int| lt_at(s, t, i);
    let k = choose|k: int| lt_at(t, u, k);
    if i <= k {
        assert(lt_at(s, u, i));
    } else {
        assert(lt_at(s, u, k));
    }
}

/// Any two distinct paths are ordered one way or the other.
pub proof fn lemma_seq_lt_total(s: Seq<u64>, t: Seq<u64>)
    ensures
        s == t || seq_lt(s, t) || seq_lt(t, s),
{
    if s != t {
        let n = if s.len() < t.len() { s.len() } else { t.len() };
        if agree(s, t, n as int) {
            if s.len() < t.len() {
                lemma_prefix_lt(s, t);
            } else if t.len() < s.len() {
                assert(lt_at(t, s, n as int));
            } else {
                assert(s =~= t);
            }
        } else {
            let j = choose|j: int| 0 <= j < n && s[j] != t[j];
            lemma_first_split(s, t, j);
        }
    }
}

/// Where two paths differ, the first place they differ orders them.
proof fn lemma_first_split(s: Seq<u64>, t: Seq<u64>, j: int)
    requires
        0 <= j < s.len(),
        j < t.len(),
        s[j] != t[j],
    ensures
        seq_lt(s, t) || seq_lt(t, s),
    decreases j,
{
    if agree(s, t, j) {
        if s[j] < t[j] {
            assert(lt_at(s, t, j));
        } else {
            assert(lt_at(t, s, j));
        }
    } else {
        let k = choose|k: int| 0 <= k < j && s[k] != t[k];
        lemma_first_split(s, t, k);
    }
}

/// The order on identifiers is a strict total order: irreflexive,
/// transitive, and any two distinct identifiers are comparable.
pub proof fn lemma_id_order_total(a: IdView, b: IdView, c: IdView)
    ensures
        !id_lt(a, a),
        id_lt(a, b) ==> !id_lt(b, a),
        id_lt(a, b) && id_lt(b, c) ==> id_lt(a, c),
        a == b || id_lt(a, b) || id_lt(b, a),
{
    lemma_seq_lt_irrefl(a.indices);
    if seq_lt(a.indices, b.indices) {
        lemma_seq_lt_asym(a.indices, b.indices);
    }
    if seq_lt(b.indices, a.indices) {
        lemma_seq_lt_asym(b.indices, a.indices);
    }
    if id_lt(a, b) && id_lt(b, c) {
        if seq_lt(a.indices, b.indices) && seq_lt(b.indices, c.indices) {
            lemma_seq_lt_trans(a.indices, b.indices, c.indices);
        }
    }
    lemma_seq_lt_total(a.indices, b.indices);
}

/// An identifier whose path is a proper prefix of another's is below it,
/// whatever the tags; identifiers with equal paths are ordered by tag.
pub proof fn lemma_id_prefix_and_tag(a: IdView, b: IdView)
    ensures
        a.indices.len() < b.indices.len() && agree(a.indices, b.indices, a.indices.len() as int)
            ==> id_lt(a, b),
        a.indices == b.indices ==> (id_lt(a, b) <==> a.node < b.node),
{
    if a.indices.len() < b.indices.len() && agree(a.indices, b.indices, a.indices.len() as int) {
        lemma_prefix_lt(a.indices, b.indices);
    }
    lemma_seq_lt_irrefl(a.indices);
}

} // verus!
