use aluviz::memory::{
    BasicMemory, CustomizeMemoryInit, MemCustomizer, Memory, OutOfBoundsError, PartitionedMemory,
};

fn setup_basic_mem() -> BasicMemory {
    BasicMemory::new(MemCustomizer::default_mem_capacity())
}

fn setup_partitioned_memory(basic_mem: BasicMemory) -> PartitionedMemory {
    PartitionedMemory::new(basic_mem)
}

#[test]
fn test_memory_init() {
    let mem = setup_basic_mem();
    let mem = PartitionedMemory::new(mem);
    let default_cap: usize = 32 * 8;
    assert_eq!(mem.capacity(), default_cap);
}

#[test]
fn test_memory_bin_setup() {
    let mem = setup_basic_mem();
    let mut mem = setup_partitioned_memory(mem);
    let bin_count = 4;
    let bin_width = 64;
    mem.allocate_bins(4, MemCustomizer::DistributeBinsEvenly);
    // test bin count
    assert_eq!(mem.bin_count, bin_count);
    // test bin interval capacity
    assert_eq!(mem.get_bin_width(), bin_width);
}

#[test]
fn test_get_bins() {
    let mem = setup_basic_mem();
    let mut mem = setup_partitioned_memory(mem);
    let bin_count = 4;
    let bin_width = 64;
    mem.allocate_bins(bin_count, MemCustomizer::DistributeBinsEvenly);
    assert_eq!(mem.get_bin_width(), bin_width);
    let bins = mem.get_bins();
    assert_eq!(bins.len(), bin_count);
    for (i, bin) in bins.iter().enumerate() {
        // nothing is allocated yet, so no bin holds any bytes
        assert_eq!(bin.width, 0);
        // bins start at byte offsets, one nominal bin width apart
        assert_eq!(bin.address, bin_width * i);
    }
}

#[test]
fn test_allocate_cells_default() {
    let mem = setup_basic_mem();
    let value: u8 = 10;
    // test if mem_alloc is successful
    let mut mem = PartitionedMemory::new(mem);
    let result = mem.mem_alloc(vec![value]);
    assert!(result.is_ok());
    let alloc_address: usize = 0;
    let stored_value = mem.loc(alloc_address);
    assert_eq!(stored_value, value);
}

#[test]
fn test_default_bin_allocation() {
    let mem = setup_basic_mem();
    let mem = PartitionedMemory::new(mem);
    let alloc_address = 0;
    let bins = mem.get_bins();
    assert_eq!(bins.len(), 1);
    assert_eq!(bins[0].address, alloc_address);
    // a fresh memory has nothing occupied in its single bin
    assert_eq!(bins[0].width, 0);
}

#[test]
fn default_capacity_is_eight_by_thirty_two() {
    assert_eq!(MemCustomizer::default_mem_capacity(), (8, 32));
    let mem = setup_basic_mem();
    assert_eq!(mem.capacity(), 256);
    assert_eq!(mem.get_cell_width(), 8);
}

#[test]
fn capacity_is_cell_size_times_rows() {
    for (cell_size, rows) in [(1usize, 1usize), (4, 10), (3, 7), (16, 64)] {
        let mem = BasicMemory::new((cell_size, rows));
        assert_eq!(mem.capacity(), cell_size * rows);
        assert_eq!(mem.get_cell_width(), cell_size);
        let part = PartitionedMemory::new(mem);
        assert_eq!(part.capacity(), cell_size * rows);
        assert_eq!(part.get_cell_width(), cell_size);
    }
}

#[test]
fn even_bins_add_up_to_capacity() {
    for bin_count in [1usize, 2, 4, 8, 16, 32] {
        let mut mem = setup_partitioned_memory(setup_basic_mem());
        mem.allocate_bins(bin_count, MemCustomizer::DistributeBinsEvenly);
        assert_eq!(mem.get_bin_width() * bin_count, mem.capacity());
        assert_eq!(mem.get_bins().len(), bin_count);
    }
}

#[test]
fn one_byte_allocation_occupies_one_cell_of_first_bin() {
    let mut mem = setup_partitioned_memory(setup_basic_mem());
    let result = mem.mem_alloc(vec![10]);
    assert_eq!(result, Ok(8));
    assert_eq!(mem.loc(0), 10);
    assert_eq!(mem.loc(1), 0);
    let bins = mem.get_bins();
    assert_eq!(bins[0].width, 8);

    mem.allocate_bins(4, MemCustomizer::DistributeBinsEvenly);
    let bins = mem.get_bins();
    assert_eq!(bins[0].width, 8);
    assert_eq!(bins[1].width, 0);
    assert_eq!(bins[2].width, 0);
    assert_eq!(bins[3].width, 0);
}

#[test]
fn allocation_fills_bins_in_order() {
    let mut mem = setup_partitioned_memory(setup_basic_mem());
    mem.allocate_bins(4, MemCustomizer::DistributeBinsEvenly);
    let payload: Vec<u8> = (1..=10).collect();
    assert_eq!(mem.mem_alloc(payload), Ok(80));
    for pos in 0..10usize {
        assert_eq!(mem.loc(pos), (pos + 1) as u8);
    }
    assert_eq!(mem.loc(10), 0);
    let widths: Vec<usize> = mem.get_bins().iter().map(|b| b.width).collect();
    assert_eq!(widths, vec![64, 16, 0, 0]);
}

#[test]
fn largest_allocation_is_one_below_row_count() {
    let mut mem = setup_basic_mem();
    assert_eq!(mem.mem_alloc(vec![7; 31]), Ok(248));
    assert_eq!(mem.loc(30), 7);
    assert_eq!(mem.loc(31), 0);
}

#[test]
fn oversized_allocation_fails_and_changes_nothing() {
    let mut mem = setup_partitioned_memory(setup_basic_mem());
    mem.allocate_bins(4, MemCustomizer::DistributeBinsEvenly);
    assert_eq!(mem.mem_alloc(vec![1; 32]), Err(OutOfBoundsError));
    assert_eq!(mem.mem_alloc(vec![1; 32]), Err(OutOfBoundsError));
    assert_eq!(mem.mem_alloc(vec![1; 40]), Err(OutOfBoundsError));
    for bin in mem.get_bins() {
        assert_eq!(bin.width, 0);
    }
    assert_eq!(mem.loc(0), 0);

    assert_eq!(mem.mem_alloc(vec![5, 6]), Ok(16));
    assert_eq!(mem.mem_alloc(vec![9; 32]), Err(OutOfBoundsError));
    assert_eq!(mem.loc(0), 5);
    assert_eq!(mem.loc(1), 6);
    assert_eq!(mem.get_bins()[0].width, 16);
}

#[test]
fn uneven_bins_leave_trailing_cells_out() {
    let mut mem = PartitionedMemory::new(BasicMemory::new((2, 10)));
    mem.allocate_bins(3, MemCustomizer::DistributeBinsEvenly);
    assert_eq!(mem.get_bin_width(), 6);
    assert_eq!(mem.mem_alloc(vec![1; 9]), Ok(18));
    let bins = mem.get_bins();
    assert_eq!(bins.len(), 3);
    for (i, bin) in bins.iter().enumerate() {
        assert_eq!(bin.address, 6 * i);
        assert_eq!(bin.width, 6);
    }
}

#[test]
fn more_bins_than_cells_gives_empty_bins() {
    let mut mem = PartitionedMemory::new(BasicMemory::new((4, 2)));
    mem.allocate_bins(5, MemCustomizer::DistributeBinsEvenly);
    assert_eq!(mem.get_bin_width(), 0);
    assert_eq!(mem.mem_alloc(vec![3]), Ok(4));
    let bins = mem.get_bins();
    assert_eq!(bins.len(), 5);
    for bin in bins {
        assert_eq!(bin.address, 0);
        assert_eq!(bin.width, 0);
    }
}

#[test]
fn out_of_bounds_error_has_a_message() {
    assert_eq!(
        OutOfBoundsError.message(),
        "Request memory range is out of bounds for the simulation"
    );
}
