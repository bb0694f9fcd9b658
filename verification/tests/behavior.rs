use bumpalo::{AllocError, Bump, Layout};
use bumpalo::chunk::{CHUNK_FOOTER_SIZE, DEFAULT_CHUNK_SIZE_WITH_FOOTER};
use bumpalo::round_up_to;

#[test]
fn round_up_to_exact_values() {
    assert_eq!(round_up_to(0, 1), 0);
    assert_eq!(round_up_to(13, 8), 16);
    assert_eq!(round_up_to(16, 8), 16);
    assert_eq!(round_up_to(1, 8), 8);
    assert_eq!(round_up_to(17, 16), 32);
}

#[test]
fn first_chunk_has_default_layout() {
    let bump = Bump::new();
    assert_eq!(bump.chunks.len(), 1);
    assert_eq!(bump.chunks[0].size, DEFAULT_CHUNK_SIZE_WITH_FOOTER);
    assert_eq!(DEFAULT_CHUNK_SIZE_WITH_FOOTER, 496);
    assert_eq!(bump.chunks[0].align, 8);
    assert_eq!(bump.chunks[0].ptr, bump.chunks[0].data);
    assert_eq!(bump.chunks[0].data % 8, 0);
    assert_eq!(
        bump.chunks[0].buf.len(),
        DEFAULT_CHUNK_SIZE_WITH_FOOTER - CHUNK_FOOTER_SIZE
    );
}

#[test]
fn returned_addresses_are_aligned() {
    let mut bump = Bump::new();
    for &align in &[1usize, 2, 4, 8, 16, 32, 64, 128] {
        let addr = bump.alloc_layout(Layout { size: 3, align });
        assert_eq!(addr % align, 0, "address 0x{:x} not aligned to {}", addr, align);
    }
}

#[test]
fn bump_regions_do_not_overlap() {
    let mut bump = Bump::new();
    let data = bump.chunks[0].data;
    let footer = data + bump.chunks[0].size - CHUNK_FOOTER_SIZE;
    let mut prev_end = data;
    for &(size, align) in &[(1usize, 1usize), (8, 8), (3, 2), (16, 16), (5, 1)] {
        let addr = bump.alloc_layout(Layout { size, align });
        assert!(prev_end <= addr, "regions must not overlap");
        assert!(data <= addr && addr + size <= footer, "region must stay inside the chunk");
        prev_end = addr + size;
    }
}

#[test]
fn growth_creates_one_larger_chunk() {
    let mut bump = Bump::new();
    bump.alloc_val(7);
    assert_eq!(bump.chunks.len(), 1);

    // Larger than the whole first chunk: must grow exactly once.
    let addr = bump.alloc_layout(Layout { size: 1024, align: 8 });
    assert_eq!(bump.chunks.len(), 2);
    assert!(bump.chunks[1].size >= 2 * 496, "at least double the previous chunk");
    assert!(bump.chunks[1].size >= 1024, "at least the rounded request");
    assert_eq!(addr, bump.chunks[1].data, "served from the new chunk's start");
    assert_eq!(bump.chunks[1].ptr, addr + 1024);
}

#[test]
fn growth_doubles_when_request_is_small() {
    let mut bump = Bump::new();
    // Fill the first chunk's 456 usable bytes completely.
    for i in 0..57 {
        bump.alloc_val(i);
    }
    assert_eq!(bump.chunks.len(), 1);
    bump.alloc_val(57);
    assert_eq!(bump.chunks.len(), 2);
    // max(2 * 496, 8 rounded up + footer) = 992.
    assert_eq!(bump.chunks[1].size, 992);
}

#[test]
fn reset_keeps_newest_chunk_and_rewinds() {
    let mut bump = Bump::new();
    for i in 0..200u64 {
        bump.alloc_val(i);
    }
    assert!(bump.chunks.len() >= 2);
    let n = bump.chunks.len();
    let newest = bump.chunks[n - 1].data;
    let oldest_regions: Vec<(usize, usize, usize)> = bump.chunks[..n - 1]
        .iter()
        .map(|c| (c.data, c.size, c.align))
        .collect();

    bump.reset();

    assert_eq!(bump.chunks.len(), 1, "exactly one chunk remains");
    assert_eq!(bump.chunks[0].data, newest, "the newest chunk is the one kept");
    assert_eq!(bump.chunks[0].ptr, bump.chunks[0].data, "finger rewound to the start");
    assert_eq!(bump.source.released.len(), n - 1, "every older chunk went back");
    for (i, r) in bump.source.released.iter().enumerate() {
        assert_eq!((r.data, r.size, r.align), oldest_regions[i]);
    }
}

#[test]
fn reset_replays_the_same_addresses() {
    let mut bump = Bump::new();
    let first: Vec<usize> = (0..5u64).map(|i| bump.alloc_val(i * 3)).collect();
    bump.reset();
    let second: Vec<usize> = (0..5u64).map(|i| bump.alloc_val(i * 3)).collect();
    assert_eq!(first, second, "the same requests reuse the same address range");
}

#[test]
fn destroy_releases_every_chunk_once() {
    let mut bump = Bump::new();
    for i in 0..500u64 {
        bump.alloc_val(i);
    }
    let n = bump.chunks.len();
    assert!(n >= 3, "the arena should have grown");
    let regions: Vec<(usize, usize, usize)> = bump
        .chunks
        .iter()
        .map(|c| (c.data, c.size, c.align))
        .collect();

    let source = bump.destroy();

    assert_eq!(source.released.len(), n);
    for (i, r) in source.released.iter().enumerate() {
        assert_eq!((r.data, r.size, r.align), regions[i], "released with the exact layout");
    }
    for i in 0..n {
        for j in 0..n {
            if i != j {
                assert_ne!(source.released[i], source.released[j], "each region exactly once");
            }
        }
    }
}

#[test]
fn exhausted_when_source_cannot_supply() {
    let mut bump = Bump::new();
    // The arithmetic fits but no such region can be granted any more.
    let r = bump.try_alloc_layout(Layout { size: usize::MAX - 500, align: 1 });
    assert!(matches!(r, Err(AllocError::Exhausted)));
    assert_eq!(bump.chunks.len(), 1, "a failed request leaves the arena unchanged");
    assert_eq!(bump.chunks[0].ptr, bump.chunks[0].data);
}

#[test]
fn allocated_value_round_trips_its_bytes() {
    let mut bump = Bump::new();
    let addr = bump.alloc_val(0xDEAD_BEEF_CAFE_F00D);
    let out = bump.each_allocated_chunk();
    assert_eq!(out.len(), 1);
    let (start, bytes) = &out[0];
    let off = addr - start;
    let mut arr = [0u8; 8];
    arr.copy_from_slice(&bytes[off..off + 8]);
    assert_eq!(u64::from_le_bytes(arr), 0xDEAD_BEEF_CAFE_F00D);
    assert_eq!(bump.read_u64(0, addr), 0xDEAD_BEEF_CAFE_F00D);
}

#[test]
fn every_written_value_reads_back() {
    let mut bump = Bump::new();
    let mut addrs = vec![];
    for i in 0..300u64 {
        addrs.push(bump.alloc_val(i * i));
    }
    // Locate each address in its chunk and read the value back.
    for (i, &addr) in addrs.iter().enumerate() {
        let idx = bump
            .chunks
            .iter()
            .position(|c| c.data <= addr && addr + 8 <= c.ptr)
            .expect("every returned address lies in a chunk's used range");
        assert_eq!(bump.read_u64(idx, addr), (i as u64) * (i as u64));
    }
}
