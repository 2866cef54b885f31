use perlin_core::block_iter::BlockIter;
use perlin_core::page::{Block, BlockId, PageId, Pages, UnfullPage, BLOCKSIZE, PAGESIZE};
use perlin_core::page_manager::{PageManager, RamPageCache};

fn new_cache() -> RamPageCache {
    RamPageCache::new(PageManager::new())
}

#[test]
fn block_iter_basic() {
    let mut cache = new_cache();
    for i in 0..2048 {
        assert_eq!(cache.store_block(Block([(i % 255) as u8; BLOCKSIZE])), PageId(i));
        for j in 1..PAGESIZE {
            cache.store_in_place(
                PageId(i),
                BlockId(j as u16),
                Block([(j % 255) as u8; BLOCKSIZE]),
            );
        }
        cache.flush_page(PageId(i));
    }
    let pages = Pages((0..2048).map(PageId).collect::<Vec<_>>(), None);
    let mut iter = BlockIter::new(&cache, pages);
    for i in 0..2048 {
        assert_eq!(iter.next(), Some(Block([(i % 255) as u8; BLOCKSIZE])));
        for j in 1..PAGESIZE {
            assert_eq!(iter.next(), Some(Block([(j % 255) as u8; BLOCKSIZE])));
        }
    }
}

#[test]
fn unfull() {
    let mut cache = new_cache();
    assert_eq!(cache.store_block(Block([1; BLOCKSIZE])), PageId(0));
    assert_eq!(
        cache.flush_unfull(PageId(0), BlockId(1)),
        UnfullPage::new(PageId(0), BlockId(1), BlockId(2))
    );
    let mut iter = BlockIter::new(
        &cache,
        Pages(
            Vec::new(),
            Some(UnfullPage::new(PageId(0), BlockId(1), BlockId(2))),
        ),
    );
    assert_eq!(iter.next(), Some(Block([1; BLOCKSIZE])));
    assert_eq!(iter.next(), None);
}

#[test]
fn full_unfull() {
    let mut cache = new_cache();
    for i in 0..2048 {
        assert_eq!(cache.store_block(Block([(i % 255) as u8; BLOCKSIZE])), PageId(i));
        for j in 1..PAGESIZE {
            cache.store_in_place(
                PageId(i),
                BlockId(j as u16),
                Block([(j % 255) as u8; BLOCKSIZE]),
            );
        }
        cache.flush_page(PageId(i));
    }
    assert_eq!(cache.store_block(Block([1; BLOCKSIZE])), PageId(2048));
    assert_eq!(
        cache.flush_unfull(PageId(2048), BlockId(1)),
        UnfullPage::new(PageId(2048), BlockId(1), BlockId(2))
    );
    let mut iter = BlockIter::new(
        &cache,
        Pages(
            (0..2048).map(PageId).collect::<Vec<_>>(),
            Some(UnfullPage::new(PageId(2048), BlockId(1), BlockId(2))),
        ),
    );
    for i in 0..2048 {
        assert_eq!(iter.next(), Some(Block([(i % 255) as u8; BLOCKSIZE])));
        for j in 1..PAGESIZE {
            assert_eq!(iter.next(), Some(Block([(j % 255) as u8; BLOCKSIZE])));
        }
    }
    assert_eq!(iter.next(), Some(Block([1; BLOCKSIZE])));
    assert_eq!(iter.next(), None);
}

#[test]
fn filled_unfull() {
    let mut cache = new_cache();
    assert_eq!(cache.store_block(Block([0; BLOCKSIZE])), PageId(0));
    for i in 1..PAGESIZE - 1 {
        cache.store_in_place(
            PageId(0),
            BlockId(i as u16),
            Block([(i % 255) as u8; BLOCKSIZE]),
        );
    }
    let unfull_page = cache.flush_unfull(PageId(0), BlockId::last());
    let mut iter = BlockIter::new(&cache, Pages(Vec::new(), Some(unfull_page)));
    for i in 0..PAGESIZE - 1 {
        assert_eq!(iter.next(), Some(Block([(i % 255) as u8; BLOCKSIZE])));
    }
    assert_eq!(iter.next(), None);
}

#[test]
fn multiple_readers() {
    let mut cache = new_cache();
    for i in 0..2048 {
        assert_eq!(cache.store_block(Block([(i % 255) as u8; BLOCKSIZE])), PageId(i));
        for j in 1..PAGESIZE {
            cache.store_in_place(
                PageId(i),
                BlockId(j as u16),
                Block([(j % 255) as u8; BLOCKSIZE]),
            );
        }
        cache.flush_page(PageId(i));
    }
    let pages1 = Pages((0..1024).map(PageId).collect::<Vec<_>>(), None);
    let pages2 = Pages((1024..2048).map(PageId).collect::<Vec<_>>(), None);
    let mut iter1 = BlockIter::new(&cache, pages1);
    let mut iter2 = BlockIter::new(&cache, pages2);
    for i in 0..1024 {
        assert_eq!(iter1.next(), Some(Block([(i % 255) as u8; BLOCKSIZE])));
        assert_eq!(iter2.next(), Some(Block([((i + 1024) % 255) as u8; BLOCKSIZE])));
        for j in 1..PAGESIZE {
            assert_eq!(iter1.next(), Some(Block([(j % 255) as u8; BLOCKSIZE])));
            assert_eq!(iter2.next(), Some(Block([(j % 255) as u8; BLOCKSIZE])));
        }
    }
}

#[test]
fn skip_blocks() {
    let mut cache = new_cache();
    for i in 0..2048 {
        assert_eq!(cache.store_block(Block([(i % 255) as u8; BLOCKSIZE])), PageId(i));
        for j in 1..PAGESIZE {
            cache.store_in_place(
                PageId(i),
                BlockId(j as u16),
                Block([(j % 255) as u8; BLOCKSIZE]),
            );
        }
        cache.flush_page(PageId(i));
    }

    let pages = Pages((0..2048).map(PageId).collect::<Vec<_>>(), None);
    let mut iter = BlockIter::new(&cache, pages);
    assert_eq!(iter.next(), Some(Block([0; BLOCKSIZE])));
    iter.skip_blocks(15);
    assert_eq!(iter.next(), Some(Block([16; BLOCKSIZE])));
    iter.skip_blocks(63);
    assert_eq!(iter.next(), Some(Block([16; BLOCKSIZE])));
    iter.skip_blocks(128);
    assert_eq!(iter.next(), Some(Block([17; BLOCKSIZE])));
    iter.skip_blocks(1);
    assert_eq!(iter.next(), Some(Block([19; BLOCKSIZE])));
}

#[test]
fn skip_blocks_unfull() {
    let mut cache = new_cache();
    for i in 0..10 {
        assert_eq!(cache.store_block(Block([(i % 255) as u8; BLOCKSIZE])), PageId(i));
        for j in 1..PAGESIZE {
            cache.store_in_place(
                PageId(i),
                BlockId(j as u16),
                Block([((j as usize) % 255) as u8; BLOCKSIZE]),
            );
        }
        cache.flush_page(PageId(i));
    }
    assert_eq!(cache.store_block(Block([110; BLOCKSIZE])), PageId(10));
    cache.store_in_place(PageId(10), BlockId(1), Block([111; BLOCKSIZE]));
    cache.store_in_place(PageId(10), BlockId(2), Block([112; BLOCKSIZE]));
    cache.store_in_place(PageId(10), BlockId(3), Block([113; BLOCKSIZE]));
    cache.store_in_place(PageId(10), BlockId(4), Block([114; BLOCKSIZE]));
    cache.store_in_place(PageId(10), BlockId(5), Block([115; BLOCKSIZE]));
    assert_eq!(
        cache.flush_unfull(PageId(10), BlockId(6)),
        UnfullPage::new(PageId(10), BlockId(1), BlockId(7))
    );
    let mut iter = BlockIter::new(
        &cache,
        Pages(
            (0..10).map(PageId).collect::<Vec<_>>(),
            Some(UnfullPage::new(PageId(10), BlockId(1), BlockId(6))),
        ),
    );

    assert_eq!(iter.next(), Some(Block([0; BLOCKSIZE])));
    iter.skip_blocks(1);
    assert_eq!(iter.next(), Some(Block([2; BLOCKSIZE])));
    iter.skip_blocks(63);
    assert_eq!(iter.next(), Some(Block([2; BLOCKSIZE])));
    iter.skip_blocks(573);
    assert_eq!(iter.next(), Some(Block([110; BLOCKSIZE])));
    iter.skip_blocks(1);
    assert_eq!(iter.next(), Some(Block([112; BLOCKSIZE])));
    assert_eq!(iter.next(), Some(Block([113; BLOCKSIZE])));
    iter.skip_blocks(200);
    assert_eq!(iter.next(), None);
    assert_eq!(iter.next(), None);

    let mut iter = BlockIter::new(
        &cache,
        Pages(
            (0..10).map(PageId).collect::<Vec<_>>(),
            Some(UnfullPage::new(PageId(10), BlockId(1), BlockId(6))),
        ),
    );
    iter.skip_blocks(646);
    assert_eq!(iter.next(), None);
    assert_eq!(iter.next(), None);

    let mut iter = BlockIter::new(
        &cache,
        Pages(
            (0..10).map(PageId).collect::<Vec<_>>(),
            Some(UnfullPage::new(PageId(10), BlockId(1), BlockId(6))),
        ),
    );
    iter.skip_blocks(639);
    assert_eq!(iter.next(), Some(Block([63; BLOCKSIZE])));
    iter.skip_blocks(1);
    assert_eq!(iter.next(), Some(Block([111; BLOCKSIZE])));
}
