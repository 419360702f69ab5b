use speedyf::gramindex::{signature_of, Candidates, GramIndex};

fn corpus() -> Vec<(String, Option<Vec<u8>>)> {
    vec![
        (
            "/a.pdf".to_string(),
            Some(b"variance collapse under smoothing".to_vec()),
        ),
        (
            "/b.pdf".to_string(),
            Some(b"quaternion algebra and smoothing".to_vec()),
        ),
        (
            "/c.pdf".to_string(),
            Some(b"variance of the estimator, smoothing".to_vec()),
        ),
    ]
}

#[test]
fn narrows_to_the_documents_that_can_match() {
    let index = GramIndex::build(corpus(), 1);
    let Candidates::Only(slots) = index.candidates("collapse") else {
        panic!("expected a narrowed set");
    };
    assert_eq!(slots, vec![0]);
    assert_eq!(index.document(0).unwrap(), "/a.pdf");
}

#[test]
fn a_gram_no_document_has_means_no_results() {
    let index = GramIndex::build(corpus(), 1);
    assert_eq!(
        index.candidates("zzzznotinanypaper"),
        Candidates::Only(Vec::new())
    );
}

#[test]
fn a_gram_in_everything_narrows_nothing_but_never_lies() {
    let index = GramIndex::build(corpus(), 1);
    assert_eq!(index.candidates("smoothing"), Candidates::Unknown);
}

#[test]
fn intersects_across_grams() {
    let index = GramIndex::build(corpus(), 1);
    let Candidates::Only(slots) = index.candidates("variance collapse") else {
        panic!("expected a narrowed set");
    };
    assert_eq!(slots, vec![0]);
}

#[test]
fn never_loses_a_document_that_does_contain_the_phrase() {
    let index = GramIndex::build(corpus(), 1);
    for (slot, (_, text)) in corpus().into_iter().enumerate() {
        let text = String::from_utf8(text.expect("indexed")).unwrap();
        for len in [4, 7, 12] {
            if text.len() < len {
                continue;
            }
            for start in 0..=text.len() - len {
                let Some(phrase) = text.get(start..start + len) else {
                    continue;
                };
                match index.candidates(phrase) {
                    Candidates::Unknown => {}
                    Candidates::Only(slots) => assert!(
                        slots.contains(&(slot as u32)),
                        "{phrase:?} is in document {slot} but was ruled out"
                    ),
                }
            }
        }
    }
}

#[test]
fn a_query_shorter_than_a_gram_cannot_be_judged() {
    let index = GramIndex::build(corpus(), 1);
    assert_eq!(index.candidates("of"), Candidates::Unknown);
    assert_eq!(index.candidates(""), Candidates::Unknown);
}

#[test]
fn gramindex_survives_a_round_trip_through_bytes() {
    let index = GramIndex::build(corpus(), 42);
    let restored = GramIndex::from_bytes(&index.to_bytes()).expect("valid index");
    assert_eq!(restored.signature(), 42);
    assert_eq!(restored.candidates("collapse"), Candidates::Only(vec![0]));
    assert_eq!(restored.document(1).unwrap(), "/b.pdf");
}

#[test]
fn refuses_anything_that_is_not_an_index() {
    assert!(GramIndex::from_bytes(b"").is_none());
    assert!(GramIndex::from_bytes(b"not an index at all").is_none());
    let index = GramIndex::build(corpus(), 1);
    let bytes = index.to_bytes();
    assert!(GramIndex::from_bytes(&bytes[..bytes.len() / 2]).is_none());
}

#[test]
fn a_document_with_no_text_is_always_a_candidate() {
    let mut documents = corpus();
    documents.push(("/unread.pdf".to_string(), None));
    let index = GramIndex::build(documents, 1);

    let Candidates::Only(slots) = index.candidates("collapse") else {
        panic!("expected a narrowed set");
    };
    assert_eq!(slots, vec![0, 3]);

    assert_eq!(
        index.candidates("zzzznotinanypaper"),
        Candidates::Only(vec![3])
    );
}

#[test]
fn the_signature_changes_when_the_documents_do() {
    let a = signature_of(&[("/a.pdf".to_string(), 1, 10)]);
    let b = signature_of(&[("/a.pdf".to_string(), 2, 10)]);
    let c = signature_of(&[("/b.pdf".to_string(), 1, 10)]);
    assert_ne!(a, b, "an edited file must invalidate the index");
    assert_ne!(a, c, "a different file must invalidate the index");
    let one = signature_of(&[
        ("/a.pdf".to_string(), 1, 10),
        ("/b.pdf".to_string(), 2, 20),
    ]);
    let other = signature_of(&[
        ("/b.pdf".to_string(), 2, 20),
        ("/a.pdf".to_string(), 1, 10),
    ]);
    assert_eq!(one, other);
}

#[test]
fn a_restored_index_answers_every_query_the_same() {
    let index = GramIndex::build(corpus(), 7);
    let restored = GramIndex::from_bytes(&index.to_bytes()).expect("valid index");
    for query in ["variance", "quaternion", "smoothing", "of", "zzzz"] {
        assert_eq!(index.candidates(query), restored.candidates(query), "{query}");
    }
    assert_eq!(restored.document(3), None);
}

#[test]
fn a_library_that_fits_is_indexed_as_built() {
    let index = GramIndex::try_build(corpus(), 7).expect("a small library fits");
    assert_eq!(index.signature(), 7);
    let Candidates::Only(slots) = index.candidates("quaternion") else {
        panic!("expected a narrowed set");
    };
    assert_eq!(slots, vec![1]);
}

#[test]
fn every_cut_short_copy_of_a_stored_index_is_refused() {
    let index = GramIndex::build(corpus(), 9);
    let bytes = index.to_bytes();
    for n in 0..bytes.len() {
        assert!(GramIndex::from_bytes(&bytes[..n]).is_none(), "prefix of {n} bytes");
    }
    assert!(GramIndex::from_bytes(&bytes).is_some());
}

#[test]
fn a_stored_index_reads_the_same_with_bytes_after_it() {
    let index = GramIndex::build(corpus(), 11);
    let mut bytes = index.to_bytes();
    bytes.extend_from_slice(b"trailing");
    let restored = GramIndex::from_bytes(&bytes).expect("an index followed by other bytes");
    assert_eq!(restored.signature(), 11);
    assert_eq!(restored.candidates("quaternion"), Candidates::Only(vec![1]));
}

#[test]
fn the_signature_ignores_any_reordering_of_the_documents() {
    let a = ("/a.pdf".to_string(), 1, 10);
    let b = ("/b.pdf".to_string(), 2, 20);
    let c = ("/c.pdf".to_string(), 3, 30);
    let abc = signature_of(&[a.clone(), b.clone(), c.clone()]);
    let cab = signature_of(&[c.clone(), a.clone(), b.clone()]);
    let bca = signature_of(&[b, c, a]);
    assert_eq!(abc, cab);
    assert_eq!(abc, bca);
}
