use duallity::edge_pages::{next_edge_page, EdgePageStep};

#[test]
fn consistent_pages_are_accepted_in_order() {
    let page = [u32::from('a'), u32::from('é'), 0, 0];
    assert_eq!(
        next_edge_page(0, 3, 4, true, 2, &page),
        EdgePageStep::Accepted { labels: vec!['a', 'é'], next_offset: 2, done: false }
    );
    assert_eq!(
        next_edge_page(2, 3, 4, true, 1, &[u32::from('z'), 0, 0, 0]),
        EdgePageStep::Accepted { labels: vec!['z'], next_offset: 3, done: true }
    );
    // An exhausted node may answer with an empty page.
    assert_eq!(
        next_edge_page(3, 3, 4, true, 0, &[0; 4]),
        EdgePageStep::Accepted { labels: vec![], next_offset: 3, done: true }
    );
}

#[test]
fn provider_failures_and_malformed_pages_are_rejected() {
    let page = [u32::from('a'); 4];
    assert_eq!(next_edge_page(0, 3, 4, false, 2, &page), EdgePageStep::ProviderFailed);
    // Over-fill, past the end, and no progress before the end.
    assert_eq!(next_edge_page(0, 9, 4, true, 5, &page), EdgePageStep::Malformed);
    assert_eq!(next_edge_page(4, 3, 4, true, 0, &page), EdgePageStep::Malformed);
    assert_eq!(next_edge_page(2, 3, 4, true, 2, &page), EdgePageStep::Malformed);
    assert_eq!(next_edge_page(1, 3, 4, true, 0, &page), EdgePageStep::Malformed);
    // A surrogate code or a code past the last scalar.
    assert_eq!(next_edge_page(0, 2, 4, true, 2, &[u32::from('a'), 0xd800, 0, 0]), EdgePageStep::Malformed);
    assert_eq!(next_edge_page(0, 1, 4, true, 1, &[0x11_0000, 0, 0, 0]), EdgePageStep::Malformed);
}
