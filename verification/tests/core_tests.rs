use perlin_core::counter::Counter;
use perlin_core::index::Index;
use perlin_core::listing::Listing;
use perlin_core::page::{BlockId, PageId};
use perlin_core::page_manager::{PageManager, RamPageCache};
use perlin_core::posting::{
    estimate_intersection_size, get_intersection_size, DocId, Posting, PostingIterator,
    SAMPLING_THRESHOLD,
};
use perlin_core::vocabulary::SharedVocabulary;

fn new_cache() -> RamPageCache {
    RamPageCache::new(PageManager::new())
}

fn new_index() -> Index {
    Index::new(new_cache(), SharedVocabulary::new())
}

#[test]
fn doc_id_sentinel_and_inc() {
    assert_eq!(DocId::none().0, u32::MAX);
    let mut d = DocId::none();
    d.inc();
    assert_eq!(d, DocId(0));
    d.inc();
    assert_eq!(d, DocId(1));
    assert_eq!(Posting::none().0, DocId(u32::MAX));
    assert_eq!(Posting(DocId(7)).doc_id(), DocId(7));
    assert_eq!(Posting::default(), Posting(DocId(0)));
}

#[test]
fn block_and_page_ids() {
    assert_eq!(BlockId::first(), BlockId(0));
    assert_eq!(BlockId::last(), BlockId(63));
    assert_eq!(PageId::none(), PageId(u64::MAX));
}

#[test]
fn counter_hands_out_dense_values() {
    let mut c = Counter::new();
    assert_eq!(c.retrieve(), 0);
    assert_eq!(c.retrieve_and_inc(), 0);
    assert_eq!(c.retrieve_and_inc(), 1);
    assert_eq!(c.retrieve(), 2);
}

#[test]
fn vocabulary_assigns_dense_ids() {
    let mut v = SharedVocabulary::new();
    assert_eq!(v.get(42), None);
    let a = v.get_or_add(42);
    let b = v.get_or_add(99);
    let a2 = v.get_or_add(42);
    assert_eq!(a.0, 0);
    assert_eq!(b.0, 1);
    assert_eq!(a, a2);
    assert_eq!(v.get(42), Some(a));
    assert_eq!(v.get(99), Some(b));
    assert_eq!(v.get(7), None);
}

#[test]
fn round_trip_offset_values() {
    // the first coded block is biased against zero, later ones against
    // the last id of the block before them
    let mut cache = new_cache();
    let mut listing = Listing::new();
    let values = [5u32, 6, 100, 1000, 65536, 70000];
    for v in values {
        listing.add(&[Posting(DocId(v))], &mut cache);
    }
    listing.commit(&mut cache);
    let collected =
        PostingIterator::from_decoder(listing.posting_decoder(&cache)).collect_vec();
    let expected = values.iter().map(|v| Posting(DocId(*v))).collect::<Vec<_>>();
    assert_eq!(collected, expected);
}

#[test]
fn decoder_is_exact_sized() {
    let mut cache = new_cache();
    let mut listing = Listing::new();
    for i in 0..100 {
        listing.add(&[Posting(DocId(i * 3))], &mut cache);
    }
    listing.commit(&mut cache);
    let decoder = listing.posting_decoder(&cache);
    assert_eq!(decoder.len(), 100);
    assert_eq!(decoder.size_hint(), (100, Some(100)));
    let collected = PostingIterator::from_decoder(decoder).collect_vec();
    assert_eq!(collected.len(), 100);
}

#[test]
fn exact_intersection_of_overlapping_listings() {
    let mut cache = new_cache();
    let mut all = Listing::new();
    let mut evens = Listing::new();
    for i in 0..100 {
        all.add(&[Posting(DocId(i))], &mut cache);
        if i % 2 == 0 {
            evens.add(&[Posting(DocId(i))], &mut cache);
        }
    }
    all.commit(&mut cache);
    evens.commit(&mut cache);
    let n = get_intersection_size(
        PostingIterator::from_decoder(all.posting_decoder(&cache)),
        PostingIterator::from_decoder(evens.posting_decoder(&cache)),
    );
    assert_eq!(n, 50);
    let zero = get_intersection_size(
        PostingIterator::empty_iter(),
        PostingIterator::from_decoder(all.posting_decoder(&cache)),
    );
    assert_eq!(zero, 0);
}

#[test]
fn sampled_estimate_on_identical_listings() {
    // at the sampling threshold the estimate is extrapolated, and on
    // identical listings whose length the sample divides it is exact
    let n = SAMPLING_THRESHOLD as u32;
    let mut cache = new_cache();
    let mut a = Listing::new();
    let mut b = Listing::new();
    for i in 0..n {
        a.add(&[Posting(DocId(i * 5))], &mut cache);
        b.add(&[Posting(DocId(i * 5))], &mut cache);
    }
    a.commit(&mut cache);
    b.commit(&mut cache);
    let est = estimate_intersection_size(
        PostingIterator::from_decoder(a.posting_decoder(&cache)),
        PostingIterator::from_decoder(b.posting_decoder(&cache)),
        100,
    );
    assert_eq!(est, n as usize);
}

#[test]
fn three_documents_queried_per_term() {
    let mut index = new_index();
    assert_eq!(index.index_document((0..10).collect(), None), DocId(0));
    assert_eq!(
        index.index_document((0..10).map(|i| i * 2).collect(), None),
        DocId(1)
    );
    assert_eq!(
        index.index_document(vec![5, 4, 3, 2, 1, 0], None),
        DocId(2)
    );
    index.commit();

    assert_eq!(index.query_atom(7).collect_vec(), vec![Posting(DocId(0))]);
    assert_eq!(
        index.query_atom(5).collect_vec(),
        vec![Posting(DocId(0)), Posting(DocId(2))]
    );
    assert_eq!(
        index.query_atom(0).collect_vec(),
        vec![Posting(DocId(0)), Posting(DocId(1)), Posting(DocId(2))]
    );
    assert_eq!(index.query_atom(16).collect_vec(), vec![Posting(DocId(1))]);
    assert_eq!(index.query_atom(999).collect_vec(), vec![]);
}

#[test]
fn term_df_counts_documents() {
    let mut index = new_index();
    index.index_document((0..10).collect(), None);
    index.index_document((5..15).collect(), None);
    index.commit();
    let terms = index.iterate_terms();
    for (term, term_id) in terms {
        let expected = if term < 5 {
            1
        } else if term < 10 {
            2
        } else {
            1
        };
        assert_eq!(index.term_df(&term_id), expected);
    }
    assert_eq!(index.term_df(&perlin_core::vocabulary::TermId(999)), 0);
}

#[test]
fn repeated_terms_count_once_per_document() {
    let mut index = new_index();
    index.index_document(vec![3, 3, 3, 4], None);
    index.commit();
    let tid3 = index.iterate_terms()[0].1;
    assert_eq!(index.term_df(&tid3), 1);
    assert_eq!(index.query_atom(3).collect_vec(), vec![Posting(DocId(0))]);
}

#[test]
fn overlapping_ranges_queried() {
    let mut index = new_index();
    index.index_document((0..2000).collect(), None);
    index.index_document((2000..4000).collect(), None);
    index.index_document((500..600).collect(), None);
    index.commit();
    assert_eq!(index.query_atom(0).collect_vec(), vec![Posting(DocId(0))]);
    assert_eq!(
        index.query_atom(500).collect_vec(),
        vec![Posting(DocId(0)), Posting(DocId(2))]
    );
}

#[test]
fn shared_vocabulary_term_without_listing() {
    let mut vocab = SharedVocabulary::new();
    let tid = vocab.get_or_add(77);
    let mut index = Index::new(new_cache(), vocab);
    index.index_document(vec![1, 2, 3], None);
    index.commit();
    // the vocabulary knows the term, but this index holds no listing
    assert_eq!(index.query_atom(77).collect_vec(), vec![]);
    assert_eq!(index.query_term(&tid).collect_vec(), vec![]);
    assert_eq!(index.term_df(&tid), 0);
}
