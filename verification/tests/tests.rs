use bumpalo::{AllocError, Bump, Layout};
use std::mem;

#[test]
fn chunk_footer_is_three_words() {
    assert_eq!(bumpalo::CHUNK_FOOTER_SIZE, mem::size_of::<usize>() * 5);
}

#[test]
fn can_iterate_over_allocated_things() {
    let mut bump = Bump::new();

    const MAX: u64 = 131072;

    let mut chunks = vec![];
    let mut last = None;

    for i in 0..MAX {
        let this = bump.alloc_val(i);

        if match last {
            Some(last) if last + mem::size_of::<u64>() == this => false,
            _ => true,
        } {
            println!("new chunk @ 0x{:x}", this);
            assert!(
                !chunks.contains(&this),
                "should not have already allocated this chunk"
            );
            chunks.push(this);
        }

        last = Some(this);
    }

    let mut seen = vec![false; MAX as usize];
    chunks.reverse();

    let out = bump.each_allocated_chunk();
    let total: usize = out.iter().map(|(_, ch)| ch.len()).sum();
    assert_eq!(total, MAX as usize * mem::size_of::<u64>());

    for (addr, ch) in out {
        println!("iter chunk @ 0x{:x}", addr);
        assert_eq!(
            chunks.pop().unwrap(),
            addr,
            "should iterate over each chunk once, in order they were allocated in"
        );

        assert_eq!(ch.len() % mem::size_of::<u64>(), 0);
        for w in ch.chunks(mem::size_of::<u64>()) {
            let mut arr = [0u8; 8];
            arr.copy_from_slice(w);
            let i = u64::from_le_bytes(arr);
            assert!(i < MAX, "{} < {} (aka {:x} < {:x})", i, MAX, i, MAX);
            seen[i as usize] = true;
        }
    }

    assert!(seen.iter().all(|s| *s));
}

#[test]
fn alloc_overflow() {
    let mut bump = Bump::new();
    let p = bump.alloc_layout(Layout { size: 1, align: 1 });

    // A size guaranteed to overflow the address arithmetic.
    let size = usize::MAX - p + 1;
    let align = 1;
    let layout = Layout { size, align };

    let r = bump.try_alloc_layout(layout);
    assert!(matches!(r, Err(AllocError::Overflow)));
    // The failed attempt must not have corrupted the bump finger.
    assert_eq!(bump.chunks[0].ptr, p + 1);
}
