use perlin_core::index::Index;
use perlin_core::page_manager::{PageManager, RamPageCache};
use perlin_core::posting::{DocId, Posting};
use perlin_core::vocabulary::SharedVocabulary;

fn new_index() -> Index {
    Index::new(RamPageCache::new(PageManager::new()), SharedVocabulary::new())
}

#[test]
fn basic_indexing() {
    let mut index = new_index();

    assert_eq!(index.index_document((0..2000).collect(), None), DocId(0));
    assert_eq!(index.index_document((2000..4000).collect(), None), DocId(1));
    assert_eq!(index.index_document((500..600).collect(), None), DocId(2));
    index.commit();

    assert_eq!(
        index.query_atom(0).collect_vec(),
        vec![Posting(DocId(0))]
    );
}

#[test]
fn term_indexing() {
    let mut index = new_index();
    index.index_term(100, DocId(0));
    index.index_term(200, DocId(0));
    index.index_term(100, DocId(1));
    index.index_term(150, DocId(1));
    index.commit();

    assert_eq!(
        index.query_atom(100).collect_vec(),
        vec![Posting(DocId(0)), Posting(DocId(1))]
    );
    assert_eq!(
        index.query_atom(150).collect_vec(),
        vec![Posting(DocId(1))]
    );
}

#[test]
fn extended_indexing() {
    let mut index = new_index();
    for i in 0..200u64 {
        assert_eq!(
            index.index_document((i..i + 200).collect(), None),
            DocId(i as u32)
        );
    }
    index.commit();

    assert_eq!(
        index.query_atom(0).collect_vec(),
        vec![Posting(DocId(0))]
    );
    assert_eq!(
        index.query_atom(99).collect_vec(),
        (0..100).map(|i| Posting(DocId(i))).collect::<Vec<_>>()
    );
}

#[test]
fn mutable_index() {
    let mut index = new_index();
    for i in 0..200u64 {
        assert_eq!(
            index.index_document((i..i + 200).collect(), None),
            DocId(i as u32)
        );
    }
    index.commit();

    assert_eq!(
        index.query_atom(0).collect_vec(),
        vec![Posting(DocId(0))]
    );
    assert_eq!(
        index.query_atom(99).collect_vec(),
        (0..100).map(|i| Posting(DocId(i))).collect::<Vec<_>>()
    );
    assert_eq!(index.index_document((0..400).collect(), None), DocId(200));
    index.commit();
    assert_eq!(
        index.query_atom(0).collect_vec(),
        vec![Posting(DocId(0)), Posting(DocId(200))]
    );
}

#[test]
fn shared_vocabulary() {
    let pmgr1 = PageManager::new();
    let pmgr2 = PageManager::new();
    let vocab = SharedVocabulary::new();

    let mut index1 = Index::new(RamPageCache::new(pmgr1), vocab.clone());
    let mut index2 = Index::new(RamPageCache::new(pmgr2), vocab.clone());

    for i in 0..200u64 {
        if i % 2 == 0 {
            assert_eq!(
                index1.index_document(
                    (i..i + 200).filter(|i| i % 2 == 0).collect(),
                    Some(DocId(i as u32))
                ),
                DocId(i as u32)
            );
        } else {
            assert_eq!(
                index2.index_document(
                    (i..i + 200).filter(|i| i % 2 != 0).collect(),
                    Some(DocId(i as u32))
                ),
                DocId(i as u32)
            );
        }
    }
    index1.commit();
    index2.commit();

    assert_eq!(index1.query_atom(99).collect_vec(), vec![]);
    assert_eq!(
        index2.query_atom(99).collect_vec(),
        (0..100)
            .filter(|i| i % 2 != 0)
            .map(|i| Posting(DocId(i)))
            .collect::<Vec<_>>()
    );

    assert_eq!(
        index1.query_atom(200).collect_vec(),
        (1..200)
            .filter(|i| i % 2 == 0)
            .map(|i| Posting(DocId(i)))
            .collect::<Vec<_>>()
    );
    assert_eq!(index2.query_atom(200).collect_vec(), vec![]);
}

#[test]
fn iterate_terms() {
    let mut index = new_index();
    index.index_document((0..10).collect(), Some(DocId(0)));
    let mut terms = index
        .iterate_terms()
        .into_iter()
        .map(|(term, _)| term)
        .collect::<Vec<_>>();
    terms.sort();
    assert_eq!(terms, vec![0, 1, 2, 3, 4, 5, 6, 7, 8, 9]);
}

#[test]
fn query_term_id() {
    let mut index = new_index();
    index.index_document((0..10).collect(), Some(DocId(0)));
    index.index_document((1..10).collect(), Some(DocId(1)));
    index.commit();
    for (term, term_id) in index.iterate_terms() {
        if term == 0 {
            assert_eq!(
                index.query_term(&term_id).collect_vec(),
                vec![Posting(DocId(0))]
            );
        }
    }
}

#[test]
fn overwritten_doc_id_rejected() {
    let mut index = new_index();
    index.index_document((0..10).collect(), Some(DocId(10)));
    let before: Vec<(u64, _)> = index.iterate_terms();
    assert_eq!(
        index.try_index_document((0..10).collect(), Some(DocId(5))),
        None
    );
    assert_eq!(
        index.try_index_document((0..10).collect(), Some(DocId(10))),
        None
    );
    assert_eq!(index.iterate_terms().len(), before.len());
    assert_eq!(
        index.try_index_document((0..10).collect(), Some(DocId(11))),
        Some(DocId(11))
    );
}
