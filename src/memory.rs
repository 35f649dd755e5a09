use vstd::prelude::*;

use vstd::arithmetic::div_mod::lemma_fundamental_div_mod;

use crate::utils::{
    byte_or_zero, empty_cells, lemma_unwritten_width_zero, occupied_width, run_length, write_run,
    ByteSegmentTree,
};

verus! {

/// Raised when a requested position or length lies outside the modeled memory.
#[derive(Debug, Clone, Copy, PartialEq, Eq, Structural)]
pub struct OutOfBoundsError;

impl OutOfBoundsError {
    /// Human-readable description of the fault.
    pub fn message(&self) -> (s: &'static str)
        ensures
            s@ == "Request memory range is out of bounds for the simulation"@,
    {
        "Request memory range is out of bounds for the simulation"
    }
}

/// The most basic memory: one contiguous block of `rows` cells of
/// `cell_size` bytes each, starting at address 0. Allocations write their
/// bytes sequentially from cell 0 on.
pub struct BasicMemory {
    pub cell_size: usize,
    rows: usize,
    tree: ByteSegmentTree,
}

/// Memory seen through a partition of its cells into `bin_count` bins.
pub struct PartitionedMemory {
    memory: BasicMemory,
    pub bin_count: usize,
    spread_factor: MemCustomizer,
}

/// One bin of a partition: its starting byte address and the bytes
/// currently occupied within it.
#[derive(Debug, Clone, Copy, PartialEq, Eq, Structural)]
pub struct Bin {
    pub width: usize,
    pub address: usize,
}

/// How cells are distributed over bins.
#[derive(Debug, Clone, Copy, PartialEq, Eq, Structural)]
pub enum MemCustomizer {
    /// `rows / bin_count` cells per bin; trailing cells that do not fill a bin belong to none.
    DistributeBinsEvenly,
}

pub trait CustomizeMemoryInit {
    /// Default `(cell_size, rows)` of a memory.
    fn default_mem_capacity() -> (r: (usize, usize))
        ensures
            r.0 >= 1,
            r.1 >= 1,
            r.1 <= usize::MAX / 4,
            r.0 * r.1 <= usize::MAX,
    ;
}

/// What both views of memory offer: capacity, cell width, sequential
/// allocation and reading a single cell.
pub trait Memory {
    /// The memory's internal consistency, which every operation keeps.
    spec fn mem_wf(&self) -> bool;

    /// Bytes per cell.
    spec fn spec_cell_width(&self) -> nat;

    /// Number of cells.
    spec fn spec_rows(&self) -> nat;

    /// The cells in address order: `None` where nothing was written yet.
    spec fn spec_cells(&self) -> Seq<Option<u8>>;

    fn capacity(&self) -> (c: usize)
        requires
            self.mem_wf(),
        ensures
            c == self.spec_cell_width() * self.spec_rows(),
    ;

    fn get_cell_width(&self) -> (w: usize)
        requires
            self.mem_wf(),
        ensures
            w == self.spec_cell_width(),
    ;

    /// Writes `elems` to cells `0..elems.len()` and returns the bytes now
    /// occupied by them; fails, changing nothing, unless the payload is
    /// strictly shorter than the number of cells.
    fn mem_alloc(&mut self, elems: Vec<u8>) -> (r: Result<usize, OutOfBoundsError>)
        requires
            old(self).mem_wf(),
        ensures
            final(self).mem_wf(),
            final(self).spec_cell_width() == old(self).spec_cell_width(),
            final(self).spec_rows() == old(self).spec_rows(),
            elems@.len() < old(self).spec_rows() ==> {
                &&& r == Ok::<usize, OutOfBoundsError>((elems@.len() * old(self).spec_cell_width()) as usize)
                &&& final(self).spec_cells() == write_run(
                    old(self).spec_cells(),
                    elems@,
                    0,
                    elems@.len() as int,
                )
            },
            elems@.len() >= old(self).spec_rows() ==> {
                &&& r == Err::<usize, OutOfBoundsError>(OutOfBoundsError)
                &&& final(self).spec_cells() == old(self).spec_cells()
            },
    ;

    /// The byte at cell `pos`, or zero while it is unwritten.
    fn loc(&self, pos: usize) -> (b: u8)
        requires
            self.mem_wf(),
            pos < self.spec_rows(),
        ensures
            b == byte_or_zero(self.spec_cells()[pos as int]),
    ;
}

impl BasicMemory {
    /// Number of cells.
    /// Bytes per cell.
    pub closed spec fn cell_bytes(&self) -> nat {
        self.cell_size as nat
    }

    /// Number of cells.
    pub closed spec fn row_count(&self) -> nat {
        self.rows as nat
    }

    /// The cells in address order: `None` where nothing was written yet.
    pub closed spec fn cells(&self) -> Seq<Option<u8>> {
        self.tree@
    }

    /// The tree spans exactly the memory's cells, with the memory's cell size.
    pub closed spec fn tree_wf(&self) -> bool {
        &&& self.tree.wf()
        &&& self.tree@.len() == self.rows
        &&& self.tree.spec_cell_width() == self.cell_size
    }

    pub open spec fn wf(&self) -> bool {
        &&& self.cell_bytes() >= 1
        &&& 1 <= self.row_count() <= usize::MAX / 4
        &&& self.cell_bytes() * self.row_count() <= usize::MAX
        &&& self.cells().len() == self.row_count()
        &&& self.tree_wf()
    }

    /// A memory of `dims.1` unwritten cells of `dims.0` bytes each.
    pub fn new(dims: (usize, usize)) -> (m: Self)
        requires
            dims.0 >= 1,
            dims.1 >= 1,
            dims.1 <= usize::MAX / 4,
            dims.0 * dims.1 <= usize::MAX,
        ensures
            m.wf(),
            m.cell_bytes() == dims.0,
            m.row_count() == dims.1,
            m.cells() == empty_cells(dims.1 as nat),
    {
        let (cell_size, rows) = dims;
        BasicMemory { cell_size, rows, tree: ByteSegmentTree::new(rows, cell_size) }
    }
}

impl Memory for BasicMemory {
    open spec fn mem_wf(&self) -> bool {
        self.wf()
    }

    open spec fn spec_cell_width(&self) -> nat {
        self.cell_bytes()
    }

    open spec fn spec_rows(&self) -> nat {
        self.row_count()
    }

    open spec fn spec_cells(&self) -> Seq<Option<u8>> {
        self.cells()
    }

    fn capacity(&self) -> (c: usize) {
        self.cell_size * self.rows
    }

    fn get_cell_width(&self) -> (w: usize) {
        self.cell_size
    }

    fn mem_alloc(&mut self, elems: Vec<u8>) -> (r: Result<usize, OutOfBoundsError>) {
        if elems.len() < self.rows {
            let ghost len = elems@.len() as int;
            let updated: usize = self.tree.update_from(elems, 0);
            proof {
                assert(run_length(self.rows as int, len, 0) == len);
            }
            Ok(updated)
        } else {
            Err(OutOfBoundsError)
        }
    }

    fn loc(&self, pos: usize) -> (b: u8) {
        self.tree.get(1, 0, self.rows - 1, pos)
    }
}

impl PartitionedMemory {
    /// The memory that is partitioned.
    pub closed spec fn memory(&self) -> BasicMemory {
        self.memory
    }

    /// The distribution policy of cells over bins.
    pub closed spec fn policy(&self) -> MemCustomizer {
        self.spread_factor
    }

    /// Number of bins.
    pub closed spec fn bins(&self) -> nat {
        self.bin_count as nat
    }

    pub open spec fn wf(&self) -> bool {
        &&& self.memory().wf()
        &&& self.bins() >= 1
    }

    /// Cells per bin.
    pub open spec fn spec_bin_cells(&self) -> nat {
        self.memory().row_count() / self.bins()
    }

    /// Nominal width in bytes of each bin.
    pub open spec fn spec_bin_width(&self) -> nat {
        self.spec_bin_cells() * (self.memory().cell_bytes())
    }

    /// Starting byte address of bin `i`.
    pub open spec fn spec_bin_address(&self, i: int) -> int {
        i * self.spec_bin_cells() * self.memory().cell_bytes()
    }

    /// Bytes occupied in bin `i`, whose cells are `[i * b, i * b + b - 1]`.
    pub open spec fn spec_bin_occupied(&self, i: int) -> nat {
        occupied_width(
            self.memory().cells(),
            self.memory().cell_bytes(),
            i * self.spec_bin_cells(),
            i * self.spec_bin_cells() + self.spec_bin_cells() - 1,
        )
    }

    /// Takes over `memory`, seen as a single bin spanning all of it.
    pub fn new(memory: BasicMemory) -> (p: Self)
        requires
            memory.wf(),
        ensures
            p.wf(),
            p.memory() == memory,
            p.bins() == 1,
            p.policy() == MemCustomizer::DistributeBinsEvenly,
    {
        PartitionedMemory { memory, bin_count: 1, spread_factor: MemCustomizer::DistributeBinsEvenly }
    }

    /// Partitions the memory into `num` bins under `spread_factor`; the bins
    /// themselves are computed when asked for.
    pub fn allocate_bins(&mut self, num: usize, spread_factor: MemCustomizer)
        requires
            old(self).wf(),
            num >= 1,
        ensures
            final(self).wf(),
            final(self).memory() == old(self).memory(),
            final(self).bins() == num,
            final(self).policy() == spread_factor,
    {
        self.bin_count = num;
        self.spread_factor = spread_factor;
    }

    /// Nominal width in bytes of each bin: `(rows / bin_count) * cell_size`.
    pub fn get_bin_width(&self) -> (w: usize)
        requires
            self.wf(),
        ensures
            w == self.spec_bin_width(),
    {
        let rows = self.memory.rows;
        let cell_size = self.memory.cell_size;
        proof {
            let b = rows / self.bin_count;
            assert(b <= rows) by (nonlinear_arith)
                requires
                    b == rows / self.bin_count,
                    self.bin_count >= 1,
            ;
            assert(b * cell_size <= cell_size * rows) by (nonlinear_arith)
                requires
                    b <= rows,
            ;
        }
        rows / self.bin_count * cell_size
    }

    /// The bins in address order, each with its byte address and the bytes
    /// currently occupied within it.
    pub fn get_bins(&self) -> (bins: Vec<Bin>)
        requires
            self.wf(),
        ensures
            bins@.len() == self.bins(),
            forall|i: int| 0 <= i < bins@.len() ==> #[trigger] bins@[i].address == self.spec_bin_address(i),
            forall|i: int| 0 <= i < bins@.len() ==> #[trigger] bins@[i].width == self.spec_bin_occupied(i),
    {
        match self.spread_factor {
            MemCustomizer::DistributeBinsEvenly => {
                let mut bins: Vec<Bin> = Vec::new();
                let rows = self.memory.rows;
                let cell_size = self.memory.cell_size;
                let b_width = rows / self.bin_count;
                proof {
                    assert(b_width * self.bin_count <= rows) by (nonlinear_arith)
                        requires
                            b_width == rows / self.bin_count,
                            self.bin_count >= 1,
                    ;
                }
                let mut start: usize = 0;
                let mut i: usize = 0;
                while i < self.bin_count
                    invariant
                        self.wf(),
                        rows == self.memory().row_count(),
                        cell_size == self.memory().cell_bytes(),
                        b_width == self.spec_bin_cells(),
                        b_width * self.bin_count <= rows,
                        i <= self.bin_count,
                        start == i * b_width,
                        bins@.len() == i,
                        forall|j: int| 0 <= j < i ==> #[trigger] bins@[j].address == self.spec_bin_address(j),
                        forall|j: int| 0 <= j < i ==> #[trigger] bins@[j].width == self.spec_bin_occupied(j),
                    decreases self.bin_count - i,
                {
                    proof {
                        assert((i + 1) * b_width <= rows) by (nonlinear_arith)
                            requires
                                i + 1 <= self.bin_count,
                                b_width * self.bin_count <= rows,
                        ;
                        assert(start + b_width <= rows) by (nonlinear_arith)
                            requires
                                start == i * b_width,
                                (i + 1) * b_width <= rows,
                        ;
                        assert(start * cell_size <= rows * cell_size) by (nonlinear_arith)
                            requires
                                start <= rows,
                        ;
                        assert(start * cell_size == i * b_width * cell_size) by (nonlinear_arith)
                            requires
                                start == i * b_width,
                        ;
                    }
                    let address = start * cell_size;
                    let width = if b_width == 0 {
                        0
                    } else {
                        self.memory.tree.memsize(1, 0, rows - 1, start, start + b_width - 1)
                    };
                    bins.push(Bin { address, width });
                    start = start + b_width;
                    i = i + 1;
                    proof {
                        assert(start == i * b_width) by (nonlinear_arith)
                            requires
                                start == (i - 1) * b_width + b_width,
                        ;
                    }
                }
                bins
            },
        }
    }
}

/// When the number of bins divides the number of cells, the nominal widths
/// of all bins add up to the capacity.
pub proof fn lemma_even_bins_fill_capacity(p: &PartitionedMemory)
    requires
        p.wf(),
        p.memory().row_count() % p.bins() == 0,
    ensures
        p.bins() * p.spec_bin_width() == p.spec_cell_width() * p.spec_rows(),
{
    let k = p.bins() as int;
    let rows = p.memory().row_count() as int;
    let cs = p.memory().cell_bytes() as int;
    lemma_fundamental_div_mod(rows, k);
    let b = rows / k;
    assert(k * (b * cs) == (k * b) * cs) by (nonlinear_arith);
    assert((k * b) * cs == cs * rows) by (nonlinear_arith)
        requires
            rows == k * b,
    ;
}

/// Before anything is written, every bin occupies zero bytes.
pub proof fn lemma_fresh_bins_unoccupied(p: &PartitionedMemory, i: int)
    requires
        p.wf(),
        p.memory().cells() == empty_cells(p.memory().row_count()),
        0 <= i < p.bins(),
    ensures
        p.spec_bin_occupied(i) == 0,
{
    let k = p.bins() as int;
    let rows = p.memory().row_count() as int;
    let b = p.spec_bin_cells() as int;
    lemma_fundamental_div_mod(rows, k);
    assert(i * b + b <= rows) by (nonlinear_arith)
        requires
            0 <= i < k,
            b >= 0,
            k * b <= rows,
    ;
    assert(0 <= i * b) by (nonlinear_arith)
        requires
            0 <= i,
            b >= 0,
    ;
    lemma_unwritten_width_zero(p.memory().row_count(), p.memory().cell_bytes(), i * b, i * b + b - 1);
}

impl Memory for PartitionedMemory {
    open spec fn mem_wf(&self) -> bool {
        self.wf()
    }

    open spec fn spec_cell_width(&self) -> nat {
        self.memory().cell_bytes()
    }

    open spec fn spec_rows(&self) -> nat {
        self.memory().row_count()
    }

    open spec fn spec_cells(&self) -> Seq<Option<u8>> {
        self.memory().cells()
    }

    fn capacity(&self) -> (c: usize) {
        self.memory.capacity()
    }

    fn get_cell_width(&self) -> (w: usize) {
        self.memory.cell_size
    }

    fn mem_alloc(&mut self, elems: Vec<u8>) -> (r: Result<usize, OutOfBoundsError>)
        ensures
            final(self).bins() == old(self).bins(),
            final(self).policy() == old(self).policy(),
    {
        self.memory.mem_alloc(elems)
    }

    fn loc(&self, pos: usize) -> (b: u8) {
        self.memory.loc(pos)
    }
}

impl CustomizeMemoryInit for MemCustomizer {
    fn default_mem_capacity() -> (r: (usize, usize))
        ensures
            r == (8usize, 32usize),
    {
        (8, 32)
    }
}

} // verus!
