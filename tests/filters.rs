use pagefind_web::index::{Page, SearchIndex};

fn text(out: &mut Vec<u8>, s: &str) {
    out.push(0x60 + s.len() as u8);
    out.extend_from_slice(s.as_bytes());
}

fn color_shard() -> Vec<u8> {
    let mut b = vec![0x82];
    text(&mut b, "color");
    b.push(0x82);
    b.push(0x82);
    text(&mut b, "red");
    b.extend_from_slice(&[0x82, 0x00, 0x02]);
    b.push(0x82);
    text(&mut b, "blue");
    b.extend_from_slice(&[0x81, 0x01]);
    b
}

fn pages(n: usize) -> SearchIndex {
    let mut idx = SearchIndex::new();
    for i in 0..n {
        idx.pages.push(Page { hash: format!("h{}", i), word_count: 1 });
    }
    idx
}

#[test]
fn decode_color_shard() {
    let mut idx = SearchIndex::new();
    assert!(idx.decode_filter_index_chunk(&color_shard()).is_ok());
    assert_eq!(idx.filters.len(), 1);
    assert_eq!(idx.filters[0].0, "color");
    assert_eq!(
        idx.filters[0].1,
        vec![("red".to_string(), vec![0, 2]), ("blue".to_string(), vec![1])]
    );
}

#[test]
fn second_shard_replaces_first() {
    let mut idx = SearchIndex::new();
    idx.decode_filter_index_chunk(&color_shard()).unwrap();
    let mut b = vec![0x82];
    text(&mut b, "color");
    b.extend_from_slice(&[0x81, 0x82]);
    text(&mut b, "green");
    b.extend_from_slice(&[0x81, 0x18, 0x20]);
    idx.decode_filter_index_chunk(&b).unwrap();
    assert_eq!(idx.filters.len(), 1);
    assert_eq!(idx.filters[0].1, vec![("green".to_string(), vec![32])]);
}

#[test]
fn truncated_shard_is_rejected_untouched() {
    let mut idx = SearchIndex::new();
    let b = color_shard();
    let cut = &b[..b.len() - 1];
    let e = idx.decode_filter_index_chunk(cut).err().unwrap();
    assert_eq!(e.position, b.len() - 1);
    assert!(idx.filters.is_empty());
}

#[test]
fn outer_array_must_be_a_pair() {
    let mut idx = SearchIndex::new();
    let mut b = vec![0x83];
    text(&mut b, "color");
    b.push(0x80);
    b.push(0x80);
    let e = idx.decode_filter_index_chunk(&b).err().unwrap();
    assert_eq!(e.position, 0);
}

#[test]
fn page_id_must_be_unsigned() {
    let mut idx = SearchIndex::new();
    let mut b = vec![0x82];
    text(&mut b, "c");
    b.extend_from_slice(&[0x81, 0x82]);
    text(&mut b, "v");
    b.extend_from_slice(&[0x81, 0x20]);
    let e = idx.decode_filter_index_chunk(&b).err().unwrap();
    assert_eq!(e.position, b.len() - 1);
}

#[test]
fn synthetic_filters_tag_every_page() {
    let mut idx = pages(3);
    idx.decode_synthetic_filter(r#"{"kind": "docs", "tags": ["a", 4, "b"], "n": 5, "e": []}"#);
    assert_eq!(idx.filters.len(), 2);
    assert_eq!(idx.filters[0].0, "kind");
    assert_eq!(idx.filters[0].1, vec![("docs".to_string(), vec![0, 1, 2])]);
    assert_eq!(idx.filters[1].0, "tags");
    assert_eq!(
        idx.filters[1].1,
        vec![("a".to_string(), vec![0, 1, 2]), ("b".to_string(), vec![0, 1, 2])]
    );
    idx.decode_synthetic_filter(r#"{"kind": "docs", "tags": ["a", 4, "b"], "n": 5, "e": []}"#);
    assert_eq!(idx.filters.len(), 2);
    assert_eq!(idx.filters[1].1.len(), 2);
}

#[test]
fn synthetic_filters_merge_into_shard() {
    let mut idx = pages(3);
    idx.decode_filter_index_chunk(&color_shard()).unwrap();
    idx.decode_synthetic_filter(r#"{"color": "red"}"#);
    assert_eq!(idx.filters.len(), 1);
    assert_eq!(
        idx.filters[0].1,
        vec![("red".to_string(), vec![0, 1, 2]), ("blue".to_string(), vec![1])]
    );
}

#[test]
fn malformed_synthetic_filters_are_ignored() {
    let mut idx = pages(2);
    idx.decode_synthetic_filter("{\"a\": ");
    idx.decode_synthetic_filter("[\"a\"]");
    assert!(idx.filters.is_empty());
}

#[test]
fn synthetic_filters_twice_change_nothing() {
    let mut idx = pages(2);
    let doc = r#"{"kind": ["a", "b", "a"], "lang": "en"}"#;
    idx.decode_synthetic_filter(doc);
    let once = idx.filters.clone();
    idx.decode_synthetic_filter(doc);
    assert_eq!(idx.filters, once);
    assert_eq!(once.len(), 2);
    assert_eq!(once[1].1, vec![("en".to_string(), vec![0, 1])]);
}

#[test]
fn synthetic_non_object_is_ignored() {
    let mut idx = pages(2);
    idx.decode_synthetic_filter("42");
    idx.decode_synthetic_filter("true");
    assert!(idx.filters.is_empty());
}

#[test]
fn cut_literals_and_trailing_text_change_nothing() {
    let mut idx = pages(2);
    for doc in ["t", "{\"a\":nul}", "[fals]", "{\"a\":\"x\"}\"b\"", "{\"a\":\"x\"}\"b", "{\"a\":\"x\"} t"] {
        idx.decode_synthetic_filter(doc);
    }
    assert!(idx.filters.is_empty());
}

#[test]
fn literals_in_documents_are_read() {
    let mut idx = pages(1);
    idx.decode_synthetic_filter("{\"a\": true, \"b\": [null, \"x\", false], \"c\": \"tnf\"}\n");
    assert_eq!(idx.filters.len(), 2);
    assert_eq!(idx.filters[0].0, "b");
    assert_eq!(idx.filters[0].1, vec![("x".to_string(), vec![0])]);
    assert_eq!(idx.filters[1].1, vec![("tnf".to_string(), vec![0])]);
}
