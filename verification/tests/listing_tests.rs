use perlin_core::listing::Listing;
use perlin_core::page::BlockId;
use perlin_core::page_manager::{PageManager, RamPageCache};
use perlin_core::posting::{DocId, Posting};

fn new_cache() -> RamPageCache {
    RamPageCache::new(PageManager::new())
}

#[test]
fn basic_add() {
    let mut cache = new_cache();
    let mut listing = Listing::new();
    listing.add(&[Posting(DocId(0))], &mut cache);
    assert_eq!(listing.page_count(), 0);
    assert_eq!(listing.posting_buffer().count(), 1);
}

#[test]
fn commit() {
    let mut cache = new_cache();
    let mut listing = Listing::new();
    listing.add(&[Posting(DocId(0))], &mut cache);
    assert_eq!(listing.page_count(), 0);
    assert_eq!(listing.posting_buffer().count(), 1);
    listing.commit(&mut cache);
    assert_eq!(listing.page_count(), 1);
    assert_eq!(listing.posting_buffer().count(), 0);
    assert_eq!(listing.last_block_id(), BlockId::first());
}

#[test]
fn add() {
    let mut cache = new_cache();
    let mut listing = Listing::new();
    listing.add(&[Posting(DocId(0))], &mut cache);
    assert_eq!(listing.page_count(), 0);
    assert_eq!(listing.posting_buffer().count(), 1);
    for i in 0..100 {
        listing.add(&[Posting(DocId(i))], &mut cache);
    }
    assert!(listing.page_count() > 0);
    assert!(listing.posting_buffer().count() > 0);
    listing.commit(&mut cache);
    assert_eq!(listing.posting_buffer().count(), 0);
}

#[test]
fn add_much() {
    let mut cache = new_cache();
    let mut listing = Listing::new();
    listing.add(&[Posting(DocId(0))], &mut cache);
    assert_eq!(listing.page_count(), 0);
    assert_eq!(listing.posting_buffer().count(), 1);
    for i in 0..10000 {
        listing.add(&[Posting(DocId(i))], &mut cache);
    }
    assert!(listing.page_count() > 0);
    assert!(listing.posting_buffer().count() > 0);
    listing.commit(&mut cache);
    assert_eq!(listing.posting_buffer().count(), 0);
}

#[test]
fn listing_multiple_listings() {
    let mut cache = new_cache();
    let mut listings = (0..100).map(|_| Listing::new()).collect::<Vec<_>>();
    for i in 0..50000 {
        listings[i % 100].add(&[Posting(DocId(i as u32))], &mut cache);
    }
    for listing in listings.iter_mut() {
        assert!(listing.page_count() > 0);
        assert!(listing.posting_buffer().count() > 0);
        listing.commit(&mut cache);
    }
    for listing in listings {
        assert_eq!(listing.posting_buffer().count(), 0);
    }
}
