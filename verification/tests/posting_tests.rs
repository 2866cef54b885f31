use perlin_core::listing::Listing;
use perlin_core::page_manager::{PageManager, RamPageCache};
use perlin_core::posting::{
    estimate_intersection_size, DocId, Posting, PostingIterator,
};

fn new_cache() -> RamPageCache {
    RamPageCache::new(PageManager::new())
}

fn collect(listing: &Listing, cache: &RamPageCache) -> Vec<Posting> {
    PostingIterator::from_decoder(listing.posting_decoder(cache)).collect_vec()
}

#[test]
fn single() {
    let mut cache = new_cache();
    let mut listing = Listing::new();
    listing.add(&[Posting(DocId(0))], &mut cache);
    listing.commit(&mut cache);
    assert_eq!(collect(&listing, &cache), vec![Posting(DocId(0))]);
}

#[test]
fn overcall() {
    let mut cache = new_cache();
    let mut listing = Listing::new();
    listing.add(&[Posting(DocId(0))], &mut cache);
    listing.commit(&mut cache);
    let mut decoder = listing.posting_decoder(&cache);
    assert_eq!(decoder.next(), Some(Posting(DocId(0))));
    assert_eq!(decoder.next(), None);
    assert_eq!(decoder.next(), None);
}

#[test]
fn many() {
    let mut cache = new_cache();
    let mut listing = Listing::new();
    for i in 0..2048 {
        listing.add(&[Posting(DocId(i))], &mut cache);
    }
    listing.commit(&mut cache);
    let res = (0..2048).map(|i| Posting(DocId(i))).collect::<Vec<_>>();
    assert_eq!(collect(&listing, &cache), res);
}

#[test]
fn posting_multiple_listings() {
    let mut cache = new_cache();
    let mut listing1 = Listing::new();
    let mut listing2 = Listing::new();
    let mut listing3 = Listing::new();
    for i in 0..2049 {
        listing1.add(&[Posting(DocId(i))], &mut cache);
        listing2.add(&[Posting(DocId(i * 2))], &mut cache);
        listing3.add(&[Posting(DocId(i * 3))], &mut cache);
    }
    listing1.commit(&mut cache);
    listing2.commit(&mut cache);
    listing3.commit(&mut cache);
    let res1 = (0..2049).map(|i| Posting(DocId(i))).collect::<Vec<_>>();
    let res2 = (0..2049).map(|i| Posting(DocId(i * 2))).collect::<Vec<_>>();
    let res3 = (0..2049).map(|i| Posting(DocId(i * 3))).collect::<Vec<_>>();
    assert_eq!(collect(&listing1, &cache), res1);
    assert_eq!(collect(&listing2, &cache), res2);
    assert_eq!(collect(&listing3, &cache), res3);
}

#[test]
fn different_listings() {
    let mut cache = new_cache();
    let mut listing1 = Listing::new();
    let mut listing2 = Listing::new();
    let mut listing3 = Listing::new();
    for i in 0..4596 {
        listing1.add(&[Posting(DocId(i))], &mut cache);
        if i % 2 == 0 {
            listing2.add(&[Posting(DocId(i * 2))], &mut cache);
        }
        if i % 3 == 0 {
            listing3.add(&[Posting(DocId(i * 3))], &mut cache);
        }
    }
    listing1.commit(&mut cache);
    listing2.commit(&mut cache);
    listing3.commit(&mut cache);
    let res1 = (0..4596).map(|i| Posting(DocId(i))).collect::<Vec<_>>();
    let res2 = (0..4596)
        .filter(|i| i % 2 == 0)
        .map(|i| Posting(DocId(i * 2)))
        .collect::<Vec<_>>();
    let res3 = (0..4596)
        .filter(|i| i % 3 == 0)
        .map(|i| Posting(DocId(i * 3)))
        .collect::<Vec<_>>();
    assert_eq!(collect(&listing1, &cache), res1);
    assert_eq!(collect(&listing2, &cache), res2);
    assert_eq!(collect(&listing3, &cache), res3);
}

#[test]
fn intersection_size() {
    let mut cache = new_cache();
    let mut listing1 = Listing::new();
    let mut listing2 = Listing::new();
    let mut listing3 = Listing::new();
    for i in 0..100 {
        listing1.add(&[Posting(DocId(i))], &mut cache);
        listing2.add(&[Posting(DocId(i))], &mut cache);
        if i % 2 == 0 {
            listing3.add(&[Posting(DocId(i))], &mut cache);
        }
    }
    listing1.commit(&mut cache);
    listing2.commit(&mut cache);
    listing3.commit(&mut cache);

    assert_eq!(
        estimate_intersection_size(
            PostingIterator::from_decoder(listing1.posting_decoder(&cache)),
            PostingIterator::from_decoder(listing2.posting_decoder(&cache)),
            100
        ),
        100
    );

    assert_eq!(
        estimate_intersection_size(
            PostingIterator::from_decoder(listing1.posting_decoder(&cache)),
            PostingIterator::from_decoder(listing3.posting_decoder(&cache)),
            100
        ),
        50
    );
}

#[test]
fn seeking() {
    let mut cache = new_cache();
    let mut listing1 = Listing::new();
    for i in 0..100 {
        listing1.add(&[Posting(DocId(i))], &mut cache);
    }
    listing1.commit(&mut cache);
    let mut decoder = listing1.posting_decoder(&cache);
    assert_eq!(decoder.next_seek(&Posting(DocId(5))), Some(Posting(DocId(5))));
    assert_eq!(decoder.next_seek(&Posting(DocId(6))), Some(Posting(DocId(6))));
    assert_eq!(decoder.next_seek(&Posting(DocId(64))), Some(Posting(DocId(64))));
    assert_eq!(decoder.next_seek(&Posting(DocId(78))), Some(Posting(DocId(78))));
    assert_eq!(decoder.next_seek(&Posting(DocId(18))), Some(Posting(DocId(79))));
    assert_eq!(decoder.next_seek(&Posting(DocId(200))), None);
}

#[test]
fn multipage_seeking() {
    let mut cache = new_cache();
    let mut listing1 = Listing::new();
    for i in (0..100_000).map(|i| i * 7) {
        listing1.add(&[Posting(DocId(i))], &mut cache);
    }
    listing1.commit(&mut cache);
    let mut decoder = listing1.posting_decoder(&cache);

    assert_eq!(decoder.next(), Some(Posting(DocId(0))));
    assert_eq!(decoder.next(), Some(Posting(DocId(7))));
    assert_eq!(
        decoder.next_seek(&Posting(DocId(7000))),
        Some(Posting(DocId(7000)))
    );
    assert_eq!(
        decoder.next_seek(&Posting(DocId(14001))),
        Some(Posting(DocId(14007)))
    );
    assert_eq!(
        decoder.next_seek(&Posting(DocId(699_993))),
        Some(Posting(DocId(699_993)))
    );
    assert_eq!(decoder.next(), None);
    assert_eq!(decoder.next_seek(&Posting(DocId(14001))), None);
}

#[test]
fn ext_multipage_seeking() {
    let mut cache = new_cache();
    let mut listing1 = Listing::new();
    for i in 0..100_000 {
        listing1.add(&[Posting(DocId(i))], &mut cache);
    }
    listing1.commit(&mut cache);
    let mut decoder = listing1.posting_decoder(&cache);

    assert_eq!(decoder.next(), Some(Posting(DocId(0))));
    assert_eq!(decoder.next(), Some(Posting(DocId(1))));
    assert_eq!(decoder.next_seek(&Posting(DocId(2))), Some(Posting(DocId(2))));
    assert_eq!(decoder.next_seek(&Posting(DocId(3))), Some(Posting(DocId(3))));
    assert_eq!(
        decoder.next_seek(&Posting(DocId(1000))),
        Some(Posting(DocId(1000)))
    );
    assert_eq!(
        decoder.next_seek(&Posting(DocId(1001))),
        Some(Posting(DocId(1001)))
    );
    assert_eq!(
        decoder.next_seek(&Posting(DocId(99_990))),
        Some(Posting(DocId(99_990)))
    );
    assert_eq!(
        decoder.next_seek(&Posting(DocId(99_995))),
        Some(Posting(DocId(99_995)))
    );
    assert_eq!(decoder.next(), Some(Posting(DocId(99_996))));
    assert_eq!(decoder.next(), Some(Posting(DocId(99_997))));
    assert_eq!(decoder.next(), Some(Posting(DocId(99_998))));
    assert_eq!(decoder.next(), Some(Posting(DocId(99_999))));
}
