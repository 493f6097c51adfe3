//! The allocator: one `Node` per replica mints identifiers between bounds.
use bit_vec::BitVec;
use vstd::arithmetic::mul::lemma_mul_inequality;
use vstd::arithmetic::power2::{
    lemma2_to64, lemma_pow2_strictly_increases, lemma_pow2_unfold, pow2,
};
use vstd::prelude::*;

use crate::bits::{bits_get, bits_len, bits_new, bits_of, bits_push};
use crate::id::{
    agree, id_le, id_lt, lemma_agree, lemma_first_difference, lemma_prefix_lt, lemma_seq_lt_asym,
    lemma_id_order_total, lemma_seq_lt_irrefl, seq_lt, Id, IdView, NodeId,
};
use crate::random::random_range;

verus! {

/// Width of level 0 for a node made by [`Node::new`].
pub const INITIAL_WIDTH: u64 = 16;

/// How many candidates `pick_index` considers next to the favoured end of
/// the gap.
pub const DEFAULT_BOUNDARY: u64 = 10;

/// Mints unique identifiers. There should be one `Node` per replicated
/// instance.
pub struct Node {
    pub id: NodeId,
    // Per-level strategy: true favours the upper end of a gap, false the
    // lower end.
    directions: BitVec,
    initial_width: u64,
}

/// The mathematical value of a [`Node`].
pub struct NodeView {
    pub id: u32,
    pub directions: Seq<bool>,
    pub initial_width: nat,
}

impl View for Node {
    type V = NodeView;

    closed spec fn view(&self) -> NodeView {
        NodeView {
            id: self.id@,
            directions: bits_of(self.directions),
            initial_width: self.initial_width as nat,
        }
    }
}

/// Number of indices available on `level` when level 0 has `w0`.
pub open spec fn width_spec(w0: nat, level: nat) -> nat {
    w0 * pow2(level)
}

/// Every entry of `s` is a valid index of its level.
pub open spec fn within_widths(s: Seq<u64>, w0: nat) -> bool {
    forall|k: int| 0 <= k < s.len() ==> (#[trigger] s[k]) < width_spec(w0, k as nat)
}

/// `t` is `s` followed by zero or more zeros: no path lies strictly
/// between the two.
pub open spec fn zero_extension(s: Seq<u64>, t: Seq<u64>) -> bool {
    &&& s.len() <= t.len()
    &&& agree(s, t, s.len() as int)
    &&& forall|k: int| s.len() <= k < t.len() ==> #[trigger] t[k] == 0
}

/// `s` is below `t`, and `t` is not `s` followed by zeros: some path fits
/// strictly between the two.
pub open spec fn has_room(s: Seq<u64>, t: Seq<u64>) -> bool {
    seq_lt(s, t) && !zero_extension(s, t)
}

pub open spec fn max_len(s: Seq<u64>, t: Seq<u64>) -> nat {
    if s.len() < t.len() {
        t.len()
    } else {
        s.len()
    }
}

/// `later` is `earlier` after some calls: same tag and widths, and every
/// direction chosen before is still there.
pub open spec fn keeps_settings(earlier: NodeView, later: NodeView) -> bool {
    &&& later.id == earlier.id
    &&& later.initial_width == earlier.initial_width
    &&& earlier.directions.len() <= later.directions.len()
    &&& later.directions.subrange(0, earlier.directions.len() as int) == earlier.directions
}

/// Some entry before `level` is the first where `lo` and `hi` differ, and
/// there `lo` is the smaller.
spec fn parted_before(lo: Seq<u64>, hi: Seq<u64>, level: int) -> bool {
    exists|j: int| 0 <= j < level && j < lo.len() && j < hi.len() && agree(lo, hi, j) && lo[j] < hi[j]
}

/// The bounds as allocation at `level` takes them. Either the two paths
/// agree before `level` and are ordered at it (if they are equal there, `lo`
/// ends there), or they have already parted, with `lo` below, and `lo`
/// ends at `level` with a zero.
spec fn level_bounds(level: int, lo: Seq<u64>, hi: Seq<u64>) -> bool {
    &&& 0 <= level < lo.len()
    &&& level < hi.len()
    &&& {
        ||| agree(lo, hi, level) && lo[level] <= hi[level] && (lo[level] == hi[level] ==> lo.len()
            == level + 1)
        ||| parted_before(lo, hi, level) && lo.len() == level + 1 && lo[level] == 0
    }
}

/// What allocation at `level` between `lo` and `hi` promises of its result
/// `r`: above `lo`, below `hi` where a path fits between them, the first
/// `level` entries of `lo` kept, one level deeper than the longer bound at
/// most, a last entry that is not zero, and valid indices where the bounds
/// had them.
spec fn placed(lo: Seq<u64>, hi: Seq<u64>, r: Seq<u64>, level: int, w0: nat) -> bool {
    &&& seq_lt(lo, r)
    &&& !zero_extension(lo, hi) ==> seq_lt(r, hi)
    &&& agree(lo, r, level)
    &&& level < r.len() <= max_len(lo, hi) + 1
    &&& r.last() > 0
    &&& within_widths(lo, w0) && within_widths(hi, w0) ==> within_widths(r, w0)
}

/// Widths grow with the level.
pub proof fn lemma_width_grows(w0: nat, i: nat, j: nat)
    requires
        i <= j,
    ensures
        width_spec(w0, i) <= width_spec(w0, j),
{
    if i < j {
        lemma_pow2_strictly_increases(i, j);
        lemma_mul_inequality(pow2(i) as int, pow2(j) as int, w0 as int);
        assert(w0 * pow2(i) == pow2(i) * w0) by (nonlinear_arith);
        assert(w0 * pow2(j) == pow2(j) * w0) by (nonlinear_arith);
    }
}

/// A level whose width fits in `u64` is below 64, and every level's width
/// is at least the initial one.
proof fn lemma_width_facts(w0: nat, level: nat)
    requires
        2 <= w0,
    ensures
        width_spec(w0, level) >= w0,
        width_spec(w0, level) <= u64::MAX ==> level < 64,
{
    lemma_width_grows(w0, 0, level);
    assert(pow2(0) == 1) by {
        lemma2_to64();
    }
    if level >= 64 {
        lemma_width_grows(w0, 64, level);
        lemma2_to64();
        assert(w0 * pow2(64) >= 2 * pow2(64)) by (nonlinear_arith)
            requires
                w0 >= 2,
        ;
    }
}

/// The sentinels' paths are valid indices for every initial width of at
/// least 2, and the upper one ends in a non-zero index.
pub proof fn lemma_sentinels_within_widths(w0: nat)
    requires
        2 <= w0,
    ensures
        within_widths(seq![0u64], w0),
        w0 <= u64::MAX ==> within_widths(seq![(w0 - 1) as u64], w0),
        w0 <= u64::MAX ==> seq![(w0 - 1) as u64].last() > 0,
{
    lemma_width_facts(w0, 0);
}

/// Two ordered identifiers of one node, the upper one ending in a non-zero
/// index (as every minted identifier and `end` do), leave room between
/// them. So bounds taken from a node's own output always get a result
/// strictly between them.
pub proof fn lemma_own_bounds_have_room(low: IdView, high: IdView)
    requires
        low.node == high.node,
        id_lt(low, high),
        1 <= high.indices.len(),
        high.indices.last() > 0,
    ensures
        has_room(low.indices, high.indices),
{
    if zero_extension(low.indices, high.indices) {
        if low.indices.len() == high.indices.len() {
            assert(low.indices =~= high.indices);
        } else {
            assert(high.indices[high.indices.len() - 1] == 0);
        }
    }
}

/// An identifier strictly between two bounds is new to any set of
/// identifiers in which nothing lies strictly between the bounds: it differs
/// from each of them and is ordered against each.
pub proof fn lemma_fresh_between(existing: Set<IdView>, low: IdView, high: IdView, x: IdView)
    requires
        forall|y: IdView| #[trigger] existing.contains(y) ==> id_le(y, low) || id_le(high, y),
        id_lt(low, x),
        id_lt(x, high),
    ensures
        !existing.contains(x),
        forall|y: IdView| #[trigger] existing.contains(y) ==> id_lt(y, x) || id_lt(x, y),
{
    assert forall|y: IdView| #[trigger] existing.contains(y) implies id_lt(y, x) || id_lt(x, y) by {
        lemma_id_order_total(y, low, x);
        lemma_id_order_total(x, high, y);
        lemma_id_order_total(x, y, y);
    }
    lemma_id_order_total(x, x, x);
}

/// An identifier above the largest of a set is new to it: it differs from
/// each member and is above each.
pub proof fn lemma_fresh_above(existing: Set<IdView>, low: IdView, x: IdView)
    requires
        forall|y: IdView| #[trigger] existing.contains(y) ==> id_le(y, low),
        id_lt(low, x),
    ensures
        !existing.contains(x),
        forall|y: IdView| #[trigger] existing.contains(y) ==> id_lt(y, x),
{
    assert forall|y: IdView| #[trigger] existing.contains(y) implies id_lt(y, x) by {
        lemma_id_order_total(y, low, x);
    }
    lemma_id_order_total(x, x, x);
}

impl Node {
    /// The node's state is usable: level 0 has room for two indices.
    pub open spec fn wf(&self) -> bool {
        2 <= self@.initial_width <= u64::MAX
    }

    pub open spec fn width(&self, level: nat) -> nat {
        width_spec(self@.initial_width, level)
    }

    /// The width of `level` can be computed in `u64`.
    pub open spec fn fits(&self, level: nat) -> bool {
        self.width(level) <= u64::MAX
    }

    /// A node with the default initial width; the direction of level 0 is
    /// chosen at once.
    pub fn new(id: NodeId) -> (r: Node)
        ensures
            r.wf(),
            r@.id == id@,
            r@.initial_width == INITIAL_WIDTH,
            r@.directions.len() == 1,
    {
        Node::with_initial_width(id, INITIAL_WIDTH)
    }

    /// A node whose level 0 has `initial_width` indices.
    pub fn with_initial_width(id: NodeId, initial_width: u64) -> (r: Node)
        requires
            2 <= initial_width,
        ensures
            r.wf(),
            r@.id == id@,
            r@.initial_width == initial_width,
            r@.directions.len() == 1,
    {
        let mut result = Node { id, directions: bits_new(), initial_width };
        result.level_direction(0);
        result
    }

    /// The identifier below all content: path `[0]`.
    pub fn begin(&self) -> (r: Id)
        ensures
            r@ == (IdView { indices: seq![0u64], node: self@.id }),
    {
        let r = Id::new(vec![0], self.id);
        proof {
            assert(r@.indices =~= seq![0u64]);
        }
        r
    }

    /// The identifier above all content: path `[initial_width - 1]`.
    pub fn end(&self) -> (r: Id)
        requires
            self.wf(),
        ensures
            r@ == (IdView { indices: seq![(self@.initial_width - 1) as u64], node: self@.id }),
    {
        let r = Id::new(vec![self.initial_width - 1], self.id);
        proof {
            assert(r@.indices =~= seq![(self@.initial_width - 1) as u64]);
        }
        r
    }

    /// The tag of this node.
    pub fn node_id(&self) -> (r: NodeId)
        ensures
            r@ == self@.id,
    {
        self.id
    }

    /// The number of indices on `level`: the initial width times `2^level`.
    pub fn width_at(&self, level: usize) -> (r: u64)
        requires
            self.fits(level as nat),
        ensures
            r == self.width(level as nat),
    {
        let mut w: u64 = self.initial_width;
        let mut i: usize = 0;
        proof {
            lemma2_to64();
        }
        while i < level
            invariant
                i <= level,
                w == self.width(i as nat),
                self.fits(level as nat),
            decreases level - i,
        {
            proof {
                lemma_pow2_unfold((i + 1) as nat);
                lemma_width_grows(self@.initial_width, (i + 1) as nat, level as nat);
                assert(self@.initial_width * pow2((i + 1) as nat) == 2 * (self@.initial_width * pow2(i as nat))) by (nonlinear_arith)
                    requires
                        pow2((i + 1) as nat) == 2 * pow2(i as nat),
                ;
            }
            w = w * 2;
            i += 1;
        }
        w
    }

    /// The strategy of `level`: true favours the upper end of a gap. The
    /// first query of a level draws it at random, for it and every level
    /// below it not yet drawn; later queries return the same value.
    pub fn level_direction(&mut self, level: usize) -> (r: bool)
        requires
            level < usize::MAX,
        ensures
            keeps_settings(old(self)@, final(self)@),
            final(self)@.directions.len() == if level < old(self)@.directions.len() {
                old(self)@.directions.len()
            } else {
                (level + 1) as nat
            },
            r == final(self)@.directions[level as int],
            level < old(self)@.directions.len() ==> r == old(self)@.directions[level as int],
    {
        proof {
            assert(self@.directions.subrange(0, self@.directions.len() as int) =~= self@.directions);
        }
        while level >= bits_len(&self.directions)
            invariant
                level < usize::MAX,
                keeps_settings(old(self)@, self@),
                self@.directions.len() <= if level < old(self)@.directions.len() {
                    old(self)@.directions.len()
                } else {
                    (level + 1) as nat
                },
            decreases level + 1 - self@.directions.len(),
        {
            let bit = crate::random::random_bool();
            bits_push(&mut self.directions, bit);
            proof {
                assert(self@.directions.subrange(0, old(self)@.directions.len() as int)
                    =~= old(self)@.directions);
            }
        }
        let r = bits_get(&self.directions, level);
        proof {
            if level < old(self)@.directions.len() {
                assert(old(self)@.directions[level as int]
                    == self@.directions.subrange(0, old(self)@.directions.len() as int)[level as int]);
            }
        }
        r
    }

    /// A new index strictly between `lower_bound` and `upper_bound`, drawn
    /// from at most `DEFAULT_BOUNDARY` candidates next to the end that the
    /// direction of `level` favours.
    pub fn pick_index(&mut self, level: usize, lower_bound: u64, upper_bound: u64) -> (r: u64)
        requires
            lower_bound + 1 < upper_bound,
            level < usize::MAX,
        ensures
            keeps_settings(old(self)@, final(self)@),
            level < final(self)@.directions.len(),
            lower_bound < r < upper_bound,
            final(self)@.directions[level as int] ==> upper_bound < r + DEFAULT_BOUNDARY + 1,
            !final(self)@.directions[level as int] ==> r < lower_bound + DEFAULT_BOUNDARY,
    {
        if self.level_direction(level) {
            let mut boundary = upper_bound.saturating_sub(DEFAULT_BOUNDARY + 1);
            if boundary < lower_bound {
                boundary = lower_bound;
            }
            random_range(boundary, upper_bound)
        } else {
            let mut boundary = upper_bound;
            if upper_bound - lower_bound > DEFAULT_BOUNDARY {
                boundary = lower_bound + DEFAULT_BOUNDARY;
            }
            random_range(lower_bound, boundary)
        }
    }

    /// A new identifier above `lower_bound` and, where some identifier fits
    /// between the two, below `upper_bound`. Equal bounds give an identifier
    /// just above them. Every level that it consults gets its direction, and
    /// no direction already drawn changes.
    pub fn new_id_with_bounds(&mut self, lower_bound: &Id, upper_bound: &Id) -> (r: Id)
        requires
            old(self).wf(),
            1 <= lower_bound@.indices.len(),
            1 <= upper_bound@.indices.len(),
            id_le(lower_bound@, upper_bound@),
            old(self).fits(max_len(lower_bound@.indices, upper_bound@.indices)),
        ensures
            final(self).wf(),
            keeps_settings(old(self)@, final(self)@),
            r@.node == old(self)@.id,
            id_lt(lower_bound@, r@),
            seq_lt(lower_bound@.indices, r@.indices),
            has_room(lower_bound@.indices, upper_bound@.indices) ==> id_lt(r@, upper_bound@),
            has_room(lower_bound@.indices, upper_bound@.indices) ==> seq_lt(
                r@.indices,
                upper_bound@.indices,
            ),
            1 <= r@.indices.len() <= max_len(lower_bound@.indices, upper_bound@.indices) + 1,
            r@.indices.last() > 0,
            within_widths(lower_bound@.indices, old(self)@.initial_width) && within_widths(
                upper_bound@.indices,
                old(self)@.initial_width,
            ) ==> within_widths(r@.indices, old(self)@.initial_width),
    {
        let ghost lo = lower_bound@.indices;
        let ghost hi = upper_bound@.indices;
        let ghost w0 = self@.initial_width;
        proof {
            lemma_width_facts(w0, max_len(lo, hi));
            lemma_width_grows(w0, (lo.len() - 1) as nat, max_len(lo, hi));
            lemma_width_grows(w0, lo.len(), max_len(lo, hi));
            lemma_seq_lt_irrefl(lo);
        }
        // The shortcut for equal bounds: anything above them will do.
        if lower_bound == upper_bound {
            let last_level = lower_bound.depth() - 1;
            let last_level_index = lower_bound.index(last_level);
            let width = self.width_at(last_level);
            proof {
                lemma_width_facts(w0, last_level as nat);
            }
            if last_level_index < width - 1 {
                let new_index = self.pick_index(last_level, last_level_index, width);
                let r = self.truncate_and_replace_index(lower_bound, last_level, new_index);
                proof {
                    lemma_first_difference(lo, r@.indices, last_level as int);
                }
                return r;
            } else {
                let next_width = self.width_at(last_level + 1);
                let new_index = self.pick_index(last_level + 1, 0, next_width);
                let r = self.append_index(lower_bound, new_index);
                proof {
                    lemma_prefix_lt(lo, r@.indices);
                }
                return r;
            }
        }
        // Walk down both bounds in tandem until one runs out of levels or
        // the two part.

        let mut level: usize = 0;
        loop
            invariant
                level < lo.len(),
                level < hi.len(),
                agree(lo, hi, level as int),
                lo == lower_bound@.indices,
                hi == upper_bound@.indices,
                id_le(lower_bound@, upper_bound@),
                lower_bound@ != upper_bound@,
                self.wf(),
                self@ == old(self)@,
                w0 == self@.initial_width,
                self.fits(max_len(lo, hi)),
            decreases lo.len() - level,
        {
            proof {
                if lo[level as int] > hi[level as int] {
                    lemma_first_difference(hi, lo, level as int);
                    lemma_seq_lt_asym(hi, lo);
                }
            }
            if level == lower_bound.depth() - 1 || level == upper_bound.depth() - 1
                || lower_bound.index(level) < upper_bound.index(level) {
                proof {
                    if lo[level as int] == hi[level as int] && lo.len() > level + 1 {
                        assert(agree(hi, lo, hi.len() as int));
                        lemma_prefix_lt(hi, lo);
                        lemma_seq_lt_asym(hi, lo);
                    }
                    assert(level_bounds(level as int, lo, hi));
                }
                let r = self.new_id_at_level_bounded(level, lower_bound, upper_bound);
                proof {
                    if has_room(lo, hi) {
                        lemma_seq_lt_asym(r@.indices, hi);
                    }
                }
                return r;
            }
            level += 1;
        }
    }

    /// Allocation at `level`, with both bounds reaching it.
    fn new_id_at_level_bounded(&mut self, level: usize, lower_bound: &Id, upper_bound: &Id) -> (r: Id)
        requires
            old(self).wf(),
            level_bounds(level as int, lower_bound@.indices, upper_bound@.indices),
            old(self).fits(max_len(lower_bound@.indices, upper_bound@.indices)),
        ensures
            keeps_settings(old(self)@, final(self)@),
            r@.node == old(self)@.id,
            placed(
                lower_bound@.indices,
                upper_bound@.indices,
                r@.indices,
                level as int,
                old(self)@.initial_width,
            ),
        decreases max_len(lower_bound@.indices, upper_bound@.indices) - level, 0int,
    {
        let ghost lo = lower_bound@.indices;
        let ghost hi = upper_bound@.indices;
        let ghost w0 = self@.initial_width;
        proof {
            lemma_width_facts(w0, max_len(lo, hi));
            lemma_width_facts(w0, (level + 1) as nat);
            lemma_width_grows(w0, lo.len(), max_len(lo, hi));
        }
        let level_lower_bound = lower_bound.index(level);
        let level_upper_bound = upper_bound.index(level);

        if level_lower_bound < level_upper_bound && level_upper_bound - level_lower_bound > 1 {
            // There is room for an index between the two.
            let new_index = self.pick_index(level, level_lower_bound, level_upper_bound);
            let r = self.truncate_and_replace_index(lower_bound, level, new_index);
            proof {
                let rs = r@.indices;
                assert(agree(lo, rs, level as int));
                lemma_first_difference(lo, rs, level as int);
                if agree(lo, hi, level as int) {
                    lemma_first_difference(rs, hi, level as int);
                } else {
                    let j = choose|j: int|
                        0 <= j < level && j < lo.len() && j < hi.len() && agree(lo, hi, j) && lo[j]
                            < hi[j];
                    assert(rs[j] == lo[j]);
                    lemma_first_difference(rs, hi, j);
                }
            }
            return r;
        }
        if level_lower_bound <= level_upper_bound {
            if lower_bound.depth() > level + 1 || upper_bound.depth() == level + 1 {
                let r = self.new_id_at_level_bounded_below(level + 1, lower_bound);
                proof {
                    let rs = r@.indices;
                    lemma_agree(lo, rs, hi, level + 1, level as int);
                    assert(rs[level as int] == lo[level as int]);
                    if agree(lo, hi, level as int) {
                        lemma_agree(rs, lo, hi, level as int, 0);
                        if lo[level as int] == hi[level as int] {
                            assert(agree(lo, hi, lo.len() as int));
                        } else {
                            lemma_first_difference(rs, hi, level as int);
                        }
                    } else {
                        let j = choose|j: int|
                            0 <= j < level && j < lo.len() && j < hi.len() && agree(lo, hi, j)
                                && lo[j] < hi[j];
                        assert(rs[j] == lo[j]);
                        lemma_first_difference(rs, hi, j);
                    }
                }
                return r;
            }
        }
        // `lower_bound` ends here while `upper_bound` goes on: go one level
        // down below `lower_bound`.

        let lhs = self.append_index(lower_bound, 0);
        proof {
            let ls = lhs@.indices;
            if agree(lo, hi, level as int) && lo[level as int] == hi[level as int] {
                assert(agree(ls, hi, level + 1));
            } else if agree(lo, hi, level as int) {
                assert(agree(ls, hi, level as int));
                assert(parted_before(ls, hi, level + 1));
            } else {
                let j = choose|j: int|
                    0 <= j < level && j < lo.len() && j < hi.len() && agree(lo, hi, j) && lo[j]
                        < hi[j];
                assert(agree(ls, hi, j));
                assert(parted_before(ls, hi, level + 1));
            }
            assert(level_bounds(level + 1, ls, hi));
        }
        let r = self.new_id_at_level_bounded(level + 1, &lhs, upper_bound);
        proof {
            let ls = lhs@.indices;
            let rs = r@.indices;
            lemma_agree(ls, rs, hi, level + 1, level as int);
            assert(agree(lo, ls, level + 1));
            lemma_agree(lo, ls, rs, level + 1, 0);
            lemma_prefix_lt(lo, rs);
            lemma_agree(lo, rs, hi, level + 1, level as int);
            if zero_extension(ls, hi) {
                assert(zero_extension(lo, hi));
            }
            if within_widths(lo, w0) {
                assert(within_widths(ls, w0));
            }
        }
        r
    }

    /// Allocation at `level` with no upper bound of its own: the implicit
    /// one is the last index of the level.
    fn new_id_at_level_bounded_below(&mut self, level: usize, lower_bound: &Id) -> (r: Id)
        requires
            old(self).wf(),
            level <= lower_bound@.indices.len(),
            old(self).fits(lower_bound@.indices.len()),
        ensures
            keeps_settings(old(self)@, final(self)@),
            r@.node == old(self)@.id,
            seq_lt(lower_bound@.indices, r@.indices),
            agree(lower_bound@.indices, r@.indices, level as int),
            level < r@.indices.len() <= lower_bound@.indices.len() + 1,
            r@.indices.last() > 0,
            within_widths(lower_bound@.indices, old(self)@.initial_width) ==> within_widths(
                r@.indices,
                old(self)@.initial_width,
            ),
        decreases lower_bound@.indices.len() - level, 1int,
    {
        let ghost lo = lower_bound@.indices;
        let ghost w0 = self@.initial_width;
        proof {
            lemma_width_grows(w0, level as nat, lo.len());
            lemma_width_facts(w0, lo.len());
            lemma_width_facts(w0, level as nat);
        }
        let width = self.width_at(level);
        if lower_bound.depth() > level {
            if lower_bound.index(level) < width - 1 {
                let rhs = self.truncate_and_replace_index(lower_bound, level, width - 1);
                proof {
                    let hs = rhs@.indices;
                    assert(agree(lo, hs, level as int));
                    assert(level_bounds(level as int, lo, hs));
                    assert(max_len(lo, hs) == lo.len());
                    assert(within_widths(lo, w0) ==> within_widths(hs, w0));
                }
                self.new_id_at_level_bounded(level, lower_bound, &rhs)
            } else {
                // `lower_bound` already holds the last index of this level:
                // continue on the next one.
                let r = self.new_id_at_level_bounded_below(level + 1, lower_bound);
                proof {
                    lemma_agree(lo, r@.indices, lo, level + 1, level as int);
                }
                r
            }
        } else {
            let new_index = self.pick_index(level, 0, width);
            let r = self.append_index(lower_bound, new_index);
            proof {
                let rs = r@.indices;
                assert(agree(lo, rs, lo.len() as int));
                lemma_prefix_lt(lo, rs);
                assert(rs[lo.len() as int] == new_index);
            }
            r
        }
    }

    /// A copy of `id` with `new_index` added as a new last level, tagged
    /// with this node.
    pub fn append_index(&self, id: &Id, new_index: u64) -> (r: Id)
        ensures
            r@ == (IdView { indices: id@.indices.push(new_index), node: self@.id }),
    {
        id.appended(new_index, self.id)
    }

    /// A copy of the first `level` levels of `id` followed by `new_index`,
    /// tagged with this node.
    pub fn truncate_and_replace_index(&self, id: &Id, level: usize, new_index: u64) -> (r: Id)
        requires
            level < id@.indices.len(),
        ensures
            r@ == (IdView {
                indices: id@.indices.subrange(0, level as int).push(new_index),
                node: self@.id,
            }),
    {
        id.truncated_replaced(level, new_index, self.id)
    }
}

} // verus!
