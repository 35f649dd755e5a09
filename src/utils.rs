use vstd::prelude::*;

use crate::memory::OutOfBoundsError;

verus! {

/// Number of occupied cells among `cells[lo..hi]`.
pub open spec fn count_occupied(cells: Seq<Option<u8>>, lo: int, hi: int) -> nat
    decreases hi - lo,
{
    if hi <= lo {
        0
    } else {
        count_occupied(cells, lo, hi - 1) + if cells[hi - 1] is Some {
            1nat
        } else {
            0nat
        }
    }
}

/// Bytes held by the occupied cells among `cells[lo..hi]`, in address order.
pub open spec fn bytes_in(cells: Seq<Option<u8>>, lo: int, hi: int) -> Seq<u8>
    decreases hi - lo,
{
    if hi <= lo {
        Seq::empty()
    } else {
        bytes_in(cells, lo, hi - 1) + match cells[hi - 1] {
            Some(b) => seq![b],
            None => Seq::empty(),
        }
    }
}

/// Bytes occupied within the inclusive cell range `[l, r]`, where each
/// occupied cell accounts for `cell_width` bytes; zero when `l > r`.
pub open spec fn occupied_width(cells: Seq<Option<u8>>, cell_width: nat, l: int, r: int) -> nat {
    if l > r {
        0
    } else {
        cell_width * count_occupied(cells, l, r + 1)
    }
}

/// What a read of a cell yields: its byte, or zero while nothing was written there.
pub open spec fn byte_or_zero(c: Option<u8>) -> u8 {
    match c {
        Some(b) => b,
        None => 0,
    }
}

/// How many of `len` bytes written one per cell from `pos` on land inside `n` cells.
pub open spec fn run_length(n: int, len: int, pos: int) -> int {
    if pos >= n {
        0
    } else if len <= n - pos {
        len
    } else {
        n - pos
    }
}

/// `cells` once the first `k` bytes of `elems` were written to consecutive cells from `pos` on.
pub open spec fn write_run(cells: Seq<Option<u8>>, elems: Seq<u8>, pos: int, k: int) -> Seq<Option<u8>> {
    Seq::new(cells.len(), |j: int| if pos <= j < pos + k { Some(elems[j - pos]) } else { cells[j] })
}

/// A fresh sequence of `n` unwritten cells.
pub open spec fn empty_cells(n: nat) -> Seq<Option<u8>> {
    Seq::new(n, |j: int| None)
}

/// Splitting a range splits its occupied count and its bytes.
pub proof fn lemma_count_split(cells: Seq<Option<u8>>, lo: int, mid: int, hi: int)
    requires
        lo <= mid <= hi,
    ensures
        count_occupied(cells, lo, hi) == count_occupied(cells, lo, mid) + count_occupied(cells, mid, hi),
        bytes_in(cells, lo, hi) == bytes_in(cells, lo, mid) + bytes_in(cells, mid, hi),
    decreases hi - mid,
{
    if hi == mid {
        assert(bytes_in(cells, lo, mid) + bytes_in(cells, mid, hi) =~= bytes_in(cells, lo, mid));
    } else {
        lemma_count_split(cells, lo, mid, hi - 1);
        let tail: Seq<u8> = match cells[hi - 1] {
            Some(b) => seq![b],
            None => Seq::empty(),
        };
        assert(bytes_in(cells, lo, mid) + (bytes_in(cells, mid, hi - 1) + tail)
            =~= (bytes_in(cells, lo, mid) + bytes_in(cells, mid, hi - 1)) + tail);
    }
}

/// A range holds at most as many occupied cells as it has cells, and one byte for each.
pub proof fn lemma_count_bound(cells: Seq<Option<u8>>, lo: int, hi: int)
    requires
        lo <= hi,
    ensures
        count_occupied(cells, lo, hi) <= hi - lo,
        bytes_in(cells, lo, hi).len() == count_occupied(cells, lo, hi),
    decreases hi - lo,
{
    if lo < hi {
        lemma_count_bound(cells, lo, hi - 1);
    }
}

/// Occupancy of a range depends only on the cells inside it.
pub proof fn lemma_count_frame(c1: Seq<Option<u8>>, c2: Seq<Option<u8>>, lo: int, hi: int)
    requires
        forall|j: int| lo <= j < hi ==> c1[j] == c2[j],
    ensures
        count_occupied(c1, lo, hi) == count_occupied(c2, lo, hi),
        bytes_in(c1, lo, hi) == bytes_in(c2, lo, hi),
    decreases hi - lo,
{
    if lo < hi {
        lemma_count_frame(c1, c2, lo, hi - 1);
    }
}

/// A range of unwritten cells has no occupied cell.
pub proof fn lemma_count_unwritten(cells: Seq<Option<u8>>, lo: int, hi: int)
    requires
        forall|j: int| lo <= j < hi ==> cells[j] is None,
    ensures
        count_occupied(cells, lo, hi) == 0,
    decreases hi - lo,
{
    if lo < hi {
        lemma_count_unwritten(cells, lo, hi - 1);
    }
}


/// For `lo <= hi`, the occupied width of the cells `lo..hi`.
proof fn lemma_width_as_count(cells: Seq<Option<u8>>, cw: nat, lo: int, hi: int)
    requires
        lo <= hi,
    ensures
        occupied_width(cells, cw, lo, hi - 1) == cw * count_occupied(cells, lo, hi),
{
    if lo == hi {
        assert(count_occupied(cells, lo, hi) == 0);
        assert(cw * 0 == 0) by (nonlinear_arith);
    }
}

/// Widening a range never lowers its occupied width.
pub proof fn lemma_occupied_width_monotonic(cells: Seq<Option<u8>>, cw: nat, l: int, r: int, l2: int, r2: int)
    requires
        l2 <= l,
        r <= r2,
    ensures
        occupied_width(cells, cw, l, r) <= occupied_width(cells, cw, l2, r2),
{
    if l <= r {
        lemma_count_split(cells, l2, l, r2 + 1);
        lemma_count_split(cells, l, r + 1, r2 + 1);
        let inner = count_occupied(cells, l, r + 1);
        let outer = count_occupied(cells, l2, r2 + 1);
        assert(cw * inner <= cw * outer) by (nonlinear_arith)
            requires
                inner <= outer,
        ;
    }
}

/// Cutting `[l, r]` after cell `m` splits its occupied width between the two parts.
pub proof fn lemma_occupied_width_split(cells: Seq<Option<u8>>, cw: nat, l: int, m: int, r: int)
    requires
        l <= m <= r,
    ensures
        occupied_width(cells, cw, l, r) == occupied_width(cells, cw, l, m) + occupied_width(cells, cw, m + 1, r),
{
    lemma_count_split(cells, l, m + 1, r + 1);
    lemma_width_as_count(cells, cw, m + 1, r + 1);
    let a = count_occupied(cells, l, m + 1);
    let b = count_occupied(cells, m + 1, r + 1);
    assert(cw * (a + b) == cw * a + cw * b) by (nonlinear_arith);
}

/// Sum of the occupied widths of the consecutive ranges `[cuts[i], cuts[i + 1] - 1]`.
pub open spec fn partition_width(cells: Seq<Option<u8>>, cw: nat, cuts: Seq<int>) -> nat
    decreases cuts.len(),
{
    if cuts.len() < 2 {
        0
    } else {
        partition_width(cells, cw, cuts.drop_last()) + occupied_width(
            cells,
            cw,
            cuts[cuts.len() - 2],
            cuts[cuts.len() - 1] - 1,
        )
    }
}

/// However `[first, last - 1]` is cut into consecutive ranges at the ordered
/// points `cuts`, the occupied widths of the pieces add up to that of the whole.
pub proof fn lemma_occupied_width_partition(cells: Seq<Option<u8>>, cw: nat, cuts: Seq<int>)
    requires
        cuts.len() >= 2,
        forall|i: int, j: int| 0 <= i <= j < cuts.len() ==> cuts[i] <= cuts[j],
    ensures
        partition_width(cells, cw, cuts) == occupied_width(cells, cw, cuts[0], cuts.last() - 1),
    decreases cuts.len(),
{
    let n = cuts.len();
    let front = cuts.drop_last();
    assert(partition_width(cells, cw, cuts) == partition_width(cells, cw, front) + occupied_width(
        cells,
        cw,
        cuts[n - 2],
        cuts[n - 1] - 1,
    ));
    if n == 2 {
        assert(partition_width(cells, cw, front) == 0);
    } else {
        assert forall|i: int, j: int| 0 <= i <= j < front.len() implies front[i] <= front[j] by {
            assert(cuts[i] <= cuts[j]);
        }
        lemma_occupied_width_partition(cells, cw, front);
        assert(front[0] == cuts[0]);
        assert(front.last() == cuts[n - 2]);
        assert(cuts[0] <= cuts[n - 2] && cuts[n - 2] <= cuts[n - 1]);
        let a = cuts[0];
        let m = cuts[n - 2];
        let b = cuts[n - 1];
        lemma_width_as_count(cells, cw, a, m);
        lemma_width_as_count(cells, cw, m, b);
        lemma_width_as_count(cells, cw, a, b);
        lemma_count_split(cells, a, m, b);
        let x = count_occupied(cells, a, m);
        let y = count_occupied(cells, m, b);
        assert(cw * (x + y) == cw * x + cw * y) by (nonlinear_arith);
    }
}

/// Unwritten cells occupy nothing, whatever the range.
pub proof fn lemma_unwritten_width_zero(n: nat, cw: nat, l: int, r: int)
    requires
        l > r || (0 <= l && r < n),
    ensures
        occupied_width(empty_cells(n), cw, l, r) == 0,
{
    if l <= r {
        lemma_count_unwritten(empty_cells(n), l, r + 1);
        assert(cw * 0 == 0) by (nonlinear_arith);
    }
}

#[derive(Debug)]
struct BlockMetadata {
    width: usize,
    contents: Vec<u8>,
}

/// A node of the aggregation tree: nothing written in its interval yet, or
/// the occupied width and the written bytes of its interval.
#[derive(Debug)]
enum Block {
    Empty,
    Full(BlockMetadata),
}

spec fn block_width(b: Block) -> nat {
    match b {
        Block::Empty => 0,
        Block::Full(d) => d.width as nat,
    }
}

spec fn block_contents(b: Block) -> Seq<u8> {
    match b {
        Block::Empty => Seq::empty(),
        Block::Full(d) => d.contents@,
    }
}

/// `b` summarises the cells `cells[lo..hi]`.
spec fn block_matches(b: Block, cells: Seq<Option<u8>>, cw: nat, lo: int, hi: int) -> bool {
    &&& (b is Full <==> count_occupied(cells, lo, hi) > 0)
    &&& block_width(b) == cw * count_occupied(cells, lo, hi)
    &&& block_contents(b) == bytes_in(cells, lo, hi)
}

/// Node `v` covers cells `[tl, tr]`, and it and all nodes below it summarise their intervals.
spec fn node_wf(s: Seq<Block>, cells: Seq<Option<u8>>, cw: nat, v: int, tl: int, tr: int) -> bool
    decreases tr - tl,
{
    &&& 1 <= v < s.len()
    &&& 0 <= tl <= tr < cells.len()
    &&& block_matches(s[v], cells, cw, tl, tr + 1)
    &&& (tl < tr ==> {
        &&& node_wf(s, cells, cw, 2 * v, tl, (tl + tr) / 2)
        &&& node_wf(s, cells, cw, 2 * v + 1, (tl + tr) / 2 + 1, tr)
    })
}

/// Slot `u` lies in the subtree rooted at slot `v` (binary-heap numbering).
spec fn in_subtree(u: int, v: int) -> bool
    decreases u,
{
    u == v || (u > v && u >= 2 && in_subtree(u / 2, v))
}

proof fn lemma_subtree_ge(u: int, v: int)
    requires
        in_subtree(u, v),
    ensures
        u >= v,
    decreases u,
{
}

proof fn lemma_subtree_of_child(u: int, v: int)
    requires
        v >= 1,
        in_subtree(u, 2 * v) || in_subtree(u, 2 * v + 1),
    ensures
        in_subtree(u, v),
    decreases u,
{
    if u != 2 * v && u != 2 * v + 1 {
        if in_subtree(u, 2 * v) {
            lemma_subtree_ge(u, 2 * v);
        } else {
            lemma_subtree_ge(u, 2 * v + 1);
        }
        lemma_subtree_of_child(u / 2, v);
    } else {
        assert(in_subtree(u / 2, v));
    }
}

proof fn lemma_subtree_nested(u: int, a: int, b: int)
    requires
        1 <= a <= b,
        in_subtree(u, a),
        in_subtree(u, b),
    ensures
        in_subtree(b, a),
    decreases u,
{
    if u != b {
        if u == a {
            lemma_subtree_ge(u, b);
        } else {
            lemma_subtree_nested(u / 2, a, b);
        }
    }
}

/// The subtrees of two siblings share no slot.
proof fn lemma_siblings_disjoint(u: int, v: int)
    requires
        v >= 1,
    ensures
        !(in_subtree(u, 2 * v) && in_subtree(u, 2 * v + 1)),
{
    if in_subtree(u, 2 * v) && in_subtree(u, 2 * v + 1) {
        lemma_subtree_nested(u, 2 * v, 2 * v + 1);
        assert(in_subtree(v, 2 * v));
        lemma_subtree_ge(v, 2 * v);
    }
}

/// A node stays well formed when neither the slots of its subtree nor the
/// cells of its interval change.
proof fn lemma_node_frame(
    s1: Seq<Block>,
    c1: Seq<Option<u8>>,
    s2: Seq<Block>,
    c2: Seq<Option<u8>>,
    cw: nat,
    v: int,
    tl: int,
    tr: int,
)
    requires
        node_wf(s1, c1, cw, v, tl, tr),
        s2.len() == s1.len(),
        c2.len() == c1.len(),
        forall|u: int| 0 <= u < s1.len() && #[trigger] in_subtree(u, v) ==> s2[u] == s1[u],
        forall|j: int| tl <= j <= tr ==> c2[j] == c1[j],
    ensures
        node_wf(s2, c2, cw, v, tl, tr),
    decreases tr - tl,
{
    assert(in_subtree(v, v));
    lemma_count_frame(c1, c2, tl, tr + 1);
    if tl < tr {
        let tm = (tl + tr) / 2;
        assert forall|u: int| 0 <= u < s1.len() && #[trigger] in_subtree(u, 2 * v) implies s2[u] == s1[u] by {
            lemma_subtree_of_child(u, v);
        }
        assert forall|u: int| 0 <= u < s1.len() && #[trigger] in_subtree(u, 2 * v + 1) implies s2[u] == s1[u] by {
            lemma_subtree_of_child(u, v);
        }
        lemma_node_frame(s1, c1, s2, c2, cw, 2 * v, tl, tm);
        lemma_node_frame(s1, c1, s2, c2, cw, 2 * v + 1, tm + 1, tr);
    }
}

/// Over unwritten cells, a store of empty blocks is well formed at every node
/// reached from the root; `p` is the power of two of the node's depth.
proof fn lemma_empty_node(s: Seq<Block>, cells: Seq<Option<u8>>, cw: nat, v: int, tl: int, tr: int, p: int)
    requires
        forall|u: int| 0 <= u < s.len() ==> s[u] is Empty,
        forall|j: int| 0 <= j < cells.len() ==> cells[j] is None,
        s.len() == 4 * cells.len(),
        0 <= tl <= tr < cells.len(),
        1 <= p <= v < 2 * p,
        v < s.len(),
        (tr - tl) * p < cells.len(),
    ensures
        node_wf(s, cells, cw, v, tl, tr),
    decreases tr - tl,
{
    lemma_count_unwritten(cells, tl, tr + 1);
    lemma_count_bound(cells, tl, tr + 1);
    assert(bytes_in(cells, tl, tr + 1) =~= Seq::empty());
    if tl < tr {
        let tm = (tl + tr) / 2;
        let n = cells.len() as int;
        assert(p < n) by (nonlinear_arith)
            requires
                (tr - tl) * p < n,
                tr - tl >= 1,
                p >= 1,
        ;
        assert((tm - tl) * (2 * p) < n) by (nonlinear_arith)
            requires
                2 * (tm - tl) <= tr - tl,
                tm - tl >= 0,
                (tr - tl) * p < n,
                p >= 1,
        ;
        assert((tr - (tm + 1)) * (2 * p) < n) by (nonlinear_arith)
            requires
                2 * (tr - (tm + 1)) <= tr - tl,
                tr - (tm + 1) >= 0,
                (tr - tl) * p < n,
                p >= 1,
        ;
        lemma_empty_node(s, cells, cw, 2 * v, tl, tm, 2 * p);
        lemma_empty_node(s, cells, cw, 2 * v + 1, tm + 1, tr, 2 * p);
    }
}


/// Interval tree over cells `0..n`, stored as an arena in binary-heap order
/// (root at slot 1, children of `v` at `2v` and `2v + 1`). Each node caches the
/// occupied width and the written bytes of its interval.
pub struct ByteSegmentTree {
    start: usize,
    end: usize,
    cell_width: usize,
    store: Vec<Block>,
    cells: Ghost<Seq<Option<u8>>>,
}

impl View for ByteSegmentTree {
    type V = Seq<Option<u8>>;

    /// The cells in address order: `None` where nothing was written yet.
    closed spec fn view(&self) -> Seq<Option<u8>> {
        self.cells@
    }
}

impl ByteSegmentTree {
    /// Bytes that one occupied cell accounts for.
    pub closed spec fn spec_cell_width(&self) -> nat {
        self.cell_width as nat
    }

    /// The arena's shape and bounds.
    pub closed spec fn inv(&self) -> bool {
        &&& 1 <= self.cells@.len() <= usize::MAX / 4
        &&& self.start == 0
        &&& self.end == self.cells@.len() - 1
        &&& self.store@.len() == 4 * self.cells@.len()
        &&& self.cell_width * self.cells@.len() <= usize::MAX
    }

    /// Slot `v` is the node for cells `[tl, tr]`, and its subtree is consistent with the cells.
    pub closed spec fn node_wf_at(&self, v: int, tl: int, tr: int) -> bool {
        node_wf(self.store@, self.cells@, self.cell_width as nat, v, tl, tr)
    }

    pub open spec fn wf(&self) -> bool {
        &&& self.inv()
        &&& self.node_wf_at(1, 0, self@.len() - 1)
    }

    /// A tree over `cells` unwritten cells, each of which counts `cell_width` bytes once written.
    pub fn new(cells: usize, cell_width: usize) -> (t: Self)
        requires
            cells >= 1,
            cells <= usize::MAX / 4,
            cell_width * cells <= usize::MAX,
        ensures
            t.wf(),
            t@ == empty_cells(cells as nat),
            t.spec_cell_width() == cell_width,
    {
        let store = Self::build_tree_from(cells);
        let t = ByteSegmentTree {
            start: 0,
            end: cells - 1,
            cell_width,
            store,
            cells: Ghost(empty_cells(cells as nat)),
        };
        proof {
            lemma_empty_node(t.store@, t.cells@, cell_width as nat, 1, 0, cells - 1, 1);
        }
        t
    }

    /// Occupied width of the cells `[l, r]`, answered from node `v`, which covers `[tl, tr]`.
    pub fn memsize(&self, v: usize, tl: usize, tr: usize, l: usize, r: usize) -> (w: usize)
        requires
            self.inv(),
            self.node_wf_at(v as int, tl as int, tr as int),
            l > r || (tl <= l && r <= tr),
        ensures
            w == occupied_width(self@, self.spec_cell_width(), l as int, r as int),
        decreases tr - tl,
    {
        let ghost cells = self.cells@;
        let ghost cw = self.cell_width as nat;
        proof {
            if l <= r {
                lemma_count_bound(cells, l as int, r + 1);
                assert(cw * count_occupied(cells, l as int, r + 1) <= cw * cells.len()) by (nonlinear_arith)
                    requires
                        count_occupied(cells, l as int, r + 1) <= cells.len(),
                ;
            }
        }
        if l > r {
            0
        } else if tl == l && tr == r {
            match &self.store[v] {
                Block::Empty => 0,
                Block::Full(d) => d.width,
            }
        } else {
            let tm = (tl + tr) / 2;
            let left_r = if r < tm { r } else { tm };
            let right_l = if l > tm + 1 { l } else { tm + 1 };
            proof {
                assert(tl < tr);
                assert(node_wf(self.store@, cells, cw, 2 * v, tl as int, tm as int));
            }
            let a = self.memsize(v * 2, tl, tm, l, left_r);
            let b = self.memsize(v * 2 + 1, tm + 1, tr, right_l, r);
            proof {
                if l <= tm && tm < r {
                    lemma_count_split(cells, l as int, tm + 1, r + 1);
                    assert(cw * count_occupied(cells, l as int, r + 1) == cw * count_occupied(
                        cells,
                        l as int,
                        tm + 1,
                    ) + cw * count_occupied(cells, tm + 1, r + 1)) by (nonlinear_arith)
                        requires
                            count_occupied(cells, l as int, r + 1) == count_occupied(
                                cells,
                                l as int,
                                tm + 1,
                            ) + count_occupied(cells, tm + 1, r + 1),
                    ;
                }
            }
            a + b
        }
    }

    /// The byte at `pos`, or zero while the cell is unwritten, read from node `v`, which covers `[tl, tr]`.
    pub fn get(&self, v: usize, tl: usize, tr: usize, pos: usize) -> (b: u8)
        requires
            self.inv(),
            self.node_wf_at(v as int, tl as int, tr as int),
            tl <= pos <= tr,
        ensures
            b == byte_or_zero(self@[pos as int]),
        decreases tr - tl,
    {
        if tl == tr {
            proof {
                assert(count_occupied(self.cells@, tl as int, tl + 1) == count_occupied(self.cells@, tl as int, tl as int) + if self.cells@[tl as int] is Some { 1nat } else { 0nat });
                assert(bytes_in(self.cells@, tl as int, tl as int) =~= Seq::empty());
            }
            return match &self.store[v] {
                Block::Full(d) => d.contents[0],
                Block::Empty => 0,
            };
        }
        let tm = (tl + tr) / 2;
        proof {
            assert(node_wf(self.store@, self.cells@, self.cell_width as nat, 2 * v, tl as int, tm as int));
        }
        if pos <= tm {
            self.get(v * 2, tl, tm, pos)
        } else {
            self.get(v * 2 + 1, tm + 1, tr, pos)
        }
    }

    /// Writes `elems` to consecutive cells from `pos` on and stops at the first
    /// position past the last cell. Returns the width written: `cell_width` for
    /// each byte that landed.
    pub fn update_from(&mut self, elems: Vec<u8>, pos: usize) -> (w: usize)
        requires
            old(self).wf(),
        ensures
            final(self).wf(),
            final(self).spec_cell_width() == old(self).spec_cell_width(),
            final(self)@ == write_run(
                old(self)@,
                elems@,
                pos as int,
                run_length(old(self)@.len() as int, elems@.len() as int, pos as int),
            ),
            w == run_length(old(self)@.len() as int, elems@.len() as int, pos as int)
                * old(self).spec_cell_width(),
    {
        let ghost c0 = self@;
        let ghost n = c0.len() as int;
        let ghost k = run_length(n, elems@.len() as int, pos as int);
        let mut mem_changed: usize = 0;
        let mut index: usize = 0;
        proof {
            assert(write_run(c0, elems@, pos as int, 0) =~= c0);
        }
        while index < elems.len()
            invariant
                self.wf(),
                self.spec_cell_width() == old(self).spec_cell_width(),
                self@.len() == n,
                n == old(self)@.len(),
                c0 == old(self)@,
                k == run_length(n, elems@.len() as int, pos as int),
                0 <= index <= k,
                self@ == write_run(c0, elems@, pos as int, index as int),
                mem_changed == index * self.spec_cell_width(),
            ensures
                index == k,
                self@ == write_run(c0, elems@, pos as int, index as int),
                mem_changed == index * self.spec_cell_width(),
            decreases elems.len() - index,
        {
            if pos > usize::MAX - index {
                break;
            }
            let ghost before = self@;
            match self.update(1, self.start, self.end, pos + index, elems[index]) {
                Ok(width) => {
                    proof {
                        assert(index + 1 <= n);
                        let cwi = self.cell_width as int;
                        assert((index + 1) * cwi <= n * cwi) by (nonlinear_arith)
                            requires
                                index + 1 <= n,
                                cwi >= 0,
                        ;
                        assert(index * cwi + cwi == (index + 1) * cwi) by (nonlinear_arith);
                        assert(self@ =~= write_run(c0, elems@, pos as int, index + 1));
                    }
                    mem_changed = mem_changed + width;
                },
                Err(_) => {
                    break;
                },
            }
            index = index + 1;
        }
        mem_changed
    }

    /// Writes `val` to the cell `pos` below node `v`, which covers `[tl, tr]`,
    /// and recombines every node on the way back up.
    fn update(&mut self, v: usize, tl: usize, tr: usize, pos: usize, val: u8) -> (r: Result<
        usize,
        OutOfBoundsError,
    >)
        requires
            old(self).inv(),
            old(self).node_wf_at(v as int, tl as int, tr as int),
            tl <= pos,
        ensures
            final(self).inv(),
            final(self).start == old(self).start,
            final(self).end == old(self).end,
            final(self).cell_width == old(self).cell_width,
            final(self).store@.len() == old(self).store@.len(),
            forall|u: int|
                0 <= u < old(self).store@.len() && !in_subtree(u, v as int) ==> #[trigger] final(self).store@[u]
                    == old(self).store@[u],
            pos > tr ==> r is Err && final(self)@ == old(self)@ && final(self).store@ == old(self).store@,
            pos <= tr ==> {
                &&& r == Ok::<usize, OutOfBoundsError>(old(self).cell_width)
                &&& final(self)@ == old(self)@.update(pos as int, Some(val))
                &&& final(self).node_wf_at(v as int, tl as int, tr as int)
            },
        decreases tr - tl,
    {
        if pos > tr {
            return Err(OutOfBoundsError);
        }
        let ghost s0 = self.store@;
        let ghost c0 = self.cells@;
        let ghost cw = self.cell_width as nat;
        if tl == tr {
            let leaf = Self::make_block(self.cell_width, val);
            self.store.set(v, leaf);
            self.cells = Ghost(self.cells@.update(pos as int, Some(val)));
            proof {
                let c1 = self.cells@;
                assert(count_occupied(c1, tl as int, tl + 1) == count_occupied(c1, tl as int, tl as int) + 1);
                assert(bytes_in(c1, tl as int, tl as int) =~= Seq::empty());
                assert(bytes_in(c1, tl as int, tl + 1) =~= seq![val]);
                assert(self.cell_width * 1 == self.cell_width);
            }
            Ok(self.cell_width)
        } else {
            let tm = (tl + tr) / 2;
            proof {
                assert(node_wf(s0, c0, cw, 2 * v, tl as int, tm as int));
            }
            let result = if pos <= tm {
                let res = self.update(v * 2, tl, tm, pos, val);
                proof {
                    assert forall|u: int| 0 <= u < s0.len() && #[trigger] in_subtree(u, 2 * v + 1) implies self.store@[u] == s0[u] by {
                        lemma_siblings_disjoint(u, v as int);
                    }
                    lemma_node_frame(s0, c0, self.store@, self.cells@, cw, 2 * v + 1, tm + 1, tr as int);
                }
                res
            } else {
                let res = self.update(v * 2 + 1, tm + 1, tr, pos, val);
                proof {
                    assert forall|u: int| 0 <= u < s0.len() && #[trigger] in_subtree(u, 2 * v) implies self.store@[u] == s0[u] by {
                        lemma_siblings_disjoint(u, v as int);
                    }
                    lemma_node_frame(s0, c0, self.store@, self.cells@, cw, 2 * v, tl as int, tm as int);
                }
                res
            };
            let ghost s1 = self.store@;
            let c1 = Ghost(self.cells@);
            proof {
                lemma_count_split(c1@, tl as int, tm + 1, tr + 1);
                lemma_count_bound(c1@, tl as int, tr + 1);
                let a = count_occupied(c1@, tl as int, tm + 1);
                let b = count_occupied(c1@, tm + 1, tr + 1);
                assert(cw * a + cw * b == cw * (a + b)) by (nonlinear_arith);
                assert(cw * (a + b) <= cw * c1@.len()) by (nonlinear_arith)
                    requires
                        a + b <= c1@.len(),
                ;
            }
            let nb = Self::combine(&self.store[v * 2], &self.store[v * 2 + 1]);
            self.store.set(v, nb);
            proof {
                assert forall|u: int| 0 <= u < s1.len() && #[trigger] in_subtree(u, 2 * v) implies self.store@[u] == s1[u] by {
                    lemma_subtree_ge(u, 2 * v);
                }
                assert forall|u: int| 0 <= u < s1.len() && #[trigger] in_subtree(u, 2 * v + 1) implies self.store@[u] == s1[u] by {
                    lemma_subtree_ge(u, 2 * v + 1);
                }
                lemma_node_frame(s1, c1@, self.store@, c1@, cw, 2 * v, tl as int, tm as int);
                lemma_node_frame(s1, c1@, self.store@, c1@, cw, 2 * v + 1, tm + 1, tr as int);
                assert forall|u: int| 0 <= u < s0.len() && !in_subtree(u, v as int) implies #[trigger] self.store@[u] == s0[u] by {
                    if in_subtree(u, 2 * v) || in_subtree(u, 2 * v + 1) {
                        lemma_subtree_of_child(u, v as int);
                    }
                }
            }
            result
        }
    }

    /// Empty slots for a tree over `cells` cells: four slots per cell.
    fn build_tree_from(cells: usize) -> (store: Vec<Block>)
        requires
            cells <= usize::MAX / 4,
        ensures
            store@.len() == 4 * cells,
            forall|u: int| 0 <= u < store@.len() ==> store@[u] is Empty,
    {
        let mut store: Vec<Block> = Vec::new();
        let total: usize = cells * 4;
        let mut i: usize = 0;
        while i < total
            invariant
                i <= total,
                store@.len() == i,
                forall|u: int| 0 <= u < store@.len() ==> store@[u] is Empty,
            decreases total - i,
        {
            store.push(Block::Empty);
            i = i + 1;
        }
        store
    }

    /// A leaf that holds the single byte `val` and counts `cell_width` bytes.
    fn make_block(cell_width: usize, val: u8) -> (b: Block)
        ensures
            b is Full,
            block_width(b) == cell_width,
            block_contents(b) == seq![val],
    {
        Block::Full(BlockMetadata { width: cell_width, contents: vec![val] })
    }

    /// The parent of two adjacent nodes: its width is the sum of theirs, its
    /// bytes the left node's followed by the right node's; it is empty only
    /// where both are.
    fn combine(b1: &Block, b2: &Block) -> (b: Block)
        requires
            block_width(*b1) + block_width(*b2) <= usize::MAX,
        ensures
            b is Full <==> (*b1 is Full || *b2 is Full),
            block_width(b) == block_width(*b1) + block_width(*b2),
            block_contents(b) == block_contents(*b1) + block_contents(*b2),
    {
        match (b1, b2) {
            (Block::Empty, Block::Empty) => Block::Empty,
            _ => {
                let mut width: usize = 0;
                let mut contents: Vec<u8> = Vec::new();
                if let Block::Full(d1) = b1 {
                    width = d1.width;
                    let mut i: usize = 0;
                    while i < d1.contents.len()
                        invariant
                            i <= d1.contents@.len(),
                            contents@ == d1.contents@.subrange(0, i as int),
                        decreases d1.contents@.len() - i,
                    {
                        contents.push(d1.contents[i]);
                        i = i + 1;
                    }
                    assert(contents@ =~= d1.contents@);
                }
                let ghost left = contents@;
                if let Block::Full(d2) = b2 {
                    width = width + d2.width;
                    let mut i: usize = 0;
                    while i < d2.contents.len()
                        invariant
                            i <= d2.contents@.len(),
                            contents@ == left + d2.contents@.subrange(0, i as int),
                        decreases d2.contents@.len() - i,
                    {
                        contents.push(d2.contents[i]);
                        i = i + 1;
                        assert(contents@ =~= left + d2.contents@.subrange(0, i as int));
                    }
                    assert(d2.contents@.subrange(0, i as int) =~= d2.contents@);
                } else {
                    assert(contents@ =~= left + Seq::<u8>::empty());
                }
                Block::Full(BlockMetadata { width, contents })
            }
        }
    }
}

} // verus!