use pagefind_web::exact::{PageScore, PageSearchResult};
use pagefind_web::index::{Page, PageWord, SearchIndex};
use pagefind_web::locations::{sorted_by_pos, unique_word_locations};
use pagefind_web::pageset::PageSet;
use pagefind_web::text::split_term;

fn page(hash: &str, word_count: u32) -> Page {
    Page { hash: hash.to_string(), word_count }
}

fn posting(page: u32, locs: Vec<(u8, u32)>) -> PageWord {
    PageWord { page, locs }
}

fn index(pages: Vec<Page>, words: Vec<(&str, Vec<PageWord>)>) -> SearchIndex {
    SearchIndex {
        pages,
        words: words.into_iter().map(|(w, p)| (w.to_string(), p)).collect(),
        filters: vec![],
    }
}

fn cat_dog() -> SearchIndex {
    index(
        vec![page("h0", 10)],
        vec![("cat", vec![posting(0, vec![(1, 3)])]), ("dog", vec![posting(0, vec![(1, 4)])])],
    )
}

fn ranked(r: &PageSearchResult) -> (u128, u32, Vec<usize>) {
    match &r.page_score {
        PageScore::Ranked { weight_sum, word_count, length_distances } => {
            (*weight_sum, *word_count, length_distances.clone())
        }
        PageScore::Full => panic!("expected a ranked score"),
    }
}

#[test]
fn phrase_in_order_matches() {
    let idx = cat_dog();
    let (unfiltered, results) = idx.exact_term("cat dog", None);
    assert_eq!(unfiltered, vec![0]);
    assert_eq!(results.len(), 1);
    assert_eq!(results[0].page, "h0");
    assert_eq!(results[0].page_index, 0);
    assert!(matches!(results[0].page_score, PageScore::Full));
    assert_eq!(results[0].word_locations, vec![(1, 3), (1, 4)]);
}

#[test]
fn phrase_out_of_order_has_no_result() {
    let idx = cat_dog();
    let (unfiltered, results) = idx.exact_term("dog cat", None);
    assert_eq!(unfiltered, vec![0]);
    assert!(results.is_empty());
}

#[test]
fn phrase_with_unknown_word_is_empty() {
    let idx = cat_dog();
    let (unfiltered, results) = idx.exact_term("cat bird", Some(PageSet::from_ids(&vec![0])));
    assert!(unfiltered.is_empty());
    assert!(results.is_empty());
}

#[test]
fn phrase_single_word_keeps_locations() {
    let idx = index(vec![page("h0", 5)], vec![("cat", vec![posting(0, vec![(2, 1), (3, 7)])])]);
    let (unfiltered, results) = idx.exact_term("cat", None);
    assert_eq!(unfiltered, vec![0]);
    assert_eq!(results.len(), 1);
    assert_eq!(results[0].word_locations, vec![(2, 1), (3, 7)]);
}

#[test]
fn phrase_three_words_contiguous() {
    let idx = index(
        vec![page("h0", 20), page("h1", 20)],
        vec![
            ("a", vec![posting(0, vec![(1, 2), (1, 9)]), posting(1, vec![(1, 0)])]),
            ("b", vec![posting(0, vec![(1, 10)]), posting(1, vec![(1, 1)])]),
            ("c", vec![posting(0, vec![(1, 11)]), posting(1, vec![(1, 5)])]),
        ],
    );
    let (unfiltered, results) = idx.exact_term("a b c", None);
    assert_eq!(unfiltered, vec![0, 1]);
    assert_eq!(results.len(), 1);
    assert_eq!(results[0].page_index, 0);
    assert_eq!(results[0].word_locations, vec![(1, 9), (1, 10), (1, 11)]);
}

#[test]
fn phrase_filter_keeps_unfiltered() {
    let idx = index(
        vec![page("h0", 3), page("h1", 3)],
        vec![("x", vec![posting(0, vec![(1, 0)]), posting(1, vec![(1, 0)])])],
    );
    let (unfiltered, results) = idx.exact_term("x", Some(PageSet::from_ids(&vec![1])));
    assert_eq!(unfiltered, vec![0, 1]);
    assert_eq!(results.len(), 1);
    assert_eq!(results[0].page_index, 1);
    assert_eq!(results[0].page, "h1");
}

#[test]
fn extension_scores_half_boost() {
    let idx = index(vec![page("h0", 4)], vec![("cats", vec![posting(0, vec![(1, 0)])])]);
    let (unfiltered, results) = idx.search_term("cat", None);
    assert_eq!(unfiltered, vec![0]);
    assert_eq!(results.len(), 1);
    assert_eq!(results[0].page, "h0");
    assert_eq!(ranked(&results[0]), (1, 4, vec![1]));
    assert_eq!(results[0].word_locations, vec![(1, 0)]);
}

#[test]
fn longest_prefix_fallback() {
    let idx = index(
        vec![page("h0", 3), page("h1", 3)],
        vec![("ca", vec![posting(1, vec![(1, 0)])]), ("c", vec![posting(0, vec![(1, 2)])])],
    );
    assert_eq!(idx.find_word_extensions("cat"), vec![0]);
    let (unfiltered, results) = idx.search_term("cat", None);
    assert_eq!(unfiltered, vec![1]);
    assert_eq!(results.len(), 1);
    assert_eq!(results[0].page_index, 1);
    assert_eq!(ranked(&results[0]), (1, 3, vec![1]));
}

#[test]
fn extensions_take_precedence_over_prefix() {
    let idx = index(
        vec![page("h0", 3)],
        vec![
            ("ca", vec![posting(0, vec![(1, 0)])]),
            ("cats", vec![posting(0, vec![(1, 1)])]),
            ("dog", vec![posting(0, vec![(1, 2)])]),
            ("catalog", vec![posting(0, vec![(1, 3)])]),
        ],
    );
    assert_eq!(idx.find_word_extensions("cat"), vec![1, 3]);
    assert_eq!(idx.find_word_extensions("zebra"), Vec::<usize>::new());
}

#[test]
fn filtered_search_without_match_in_filter() {
    let idx = index(vec![page("h0", 3), page("h1", 3)], vec![("x", vec![posting(0, vec![(1, 0)])])]);
    let (unfiltered, results) = idx.search_term("x", Some(PageSet::from_ids(&vec![1])));
    assert_eq!(unfiltered, vec![0]);
    assert!(results.is_empty());
}

#[test]
fn empty_query_returns_every_page() {
    let idx = index(vec![page("h0", 3), page("h1", 5)], vec![("x", vec![posting(0, vec![(1, 0)])])]);
    let (unfiltered, results) = idx.search_term("", None);
    assert_eq!(unfiltered, vec![0, 1]);
    assert_eq!(results.len(), 2);
    for (i, r) in results.iter().enumerate() {
        assert_eq!(r.page_index, i);
        assert!(r.word_locations.is_empty());
        let (w, _, d) = ranked(r);
        assert_eq!(w, 0);
        assert!(d.is_empty());
    }
    let (unfiltered, results) = idx.search_term("", Some(PageSet::from_ids(&vec![1])));
    assert_eq!(unfiltered, vec![0, 1]);
    assert_eq!(results.len(), 1);
    assert_eq!(results[0].page_index, 1);
}

#[test]
fn unknown_stem_gives_no_pages() {
    let idx = index(vec![page("h0", 3)], vec![("x", vec![posting(0, vec![(1, 0)])])]);
    let (unfiltered, results) = idx.search_term("qqq", None);
    assert!(unfiltered.is_empty());
    assert!(results.is_empty());
}

#[test]
fn filter_intersection_on_values() {
    let idx = index(
        vec![page("h0", 3), page("h1", 3), page("h2", 3)],
        vec![("x", vec![posting(0, vec![(1, 0)]), posting(2, vec![(1, 1)])])],
    );
    let (u1, all) = idx.search_term("x", None);
    let (u2, some) = idx.search_term("x", Some(PageSet::from_ids(&vec![1, 2])));
    assert_eq!(u1, u2);
    let all_pages: Vec<usize> = all.iter().map(|r| r.page_index).collect();
    let some_pages: Vec<usize> = some.iter().map(|r| r.page_index).collect();
    assert_eq!(all_pages, vec![0, 2]);
    assert_eq!(some_pages, vec![2]);
}

#[test]
fn two_stems_intersect_and_boost() {
    let idx = index(
        vec![page("h0", 8), page("h1", 8)],
        vec![
            ("apple", vec![posting(0, vec![(2, 1)]), posting(1, vec![(1, 0)])]),
            ("apples", vec![posting(1, vec![(1, 4)])]),
            ("pie", vec![posting(1, vec![(1, 2)])]),
        ],
    );
    let (unfiltered, results) = idx.search_term("apple pie", None);
    assert_eq!(unfiltered, vec![1]);
    assert_eq!(results.len(), 1);
    assert_eq!(results[0].word_locations, vec![(1, 0), (1, 2), (1, 4)]);
    assert_eq!(ranked(&results[0]), (3, 8, vec![0, 1, 0]));
}

#[test]
fn shared_position_weights() {
    let idx = index(
        vec![page("h0", 8)],
        vec![
            ("sun", vec![posting(0, vec![(2, 5), (3, 9)])]),
            ("sunflower", vec![posting(0, vec![(2, 5), (1, 9)])]),
        ],
    );
    let (_, results) = idx.search_term("sun", None);
    assert_eq!(results.len(), 1);
    assert_eq!(results[0].word_locations, vec![(4, 5), (1, 9)]);
    assert_eq!(ranked(&results[0]).0, 5);
    assert_eq!(ranked(&results[0]).2, vec![0, 6]);
}

#[test]
fn collapse_rules() {
    assert_eq!(unique_word_locations(&vec![(3, 1), (1, 1), (1, 1), (5, 2)]), vec![(2, 1), (5, 2)]);
    assert_eq!(unique_word_locations(&vec![(1, 1), (4, 1)]), vec![(1, 1)]);
    assert_eq!(unique_word_locations(&vec![]), vec![]);
}

#[test]
fn collapse_twice_is_collapse_once() {
    let s = vec![(2, 4), (2, 4), (1, 6), (3, 6), (7, 8)];
    let once = unique_word_locations(&s);
    assert_eq!(unique_word_locations(&once), once);
}

#[test]
fn sort_is_stable_by_position() {
    assert_eq!(
        sorted_by_pos(&vec![(1, 5), (2, 3), (3, 5), (4, 1)]),
        vec![(4, 1), (2, 3), (1, 5), (3, 5)]
    );
}

#[test]
fn split_on_single_spaces() {
    assert_eq!(split_term("a  b"), vec!["a".to_string(), String::new(), "b".to_string()]);
    assert_eq!(split_term("héllo"), vec!["héllo".to_string()]);
}

#[test]
fn page_set_round_trip() {
    assert_eq!(PageSet::from_ids(&vec![5, 1, 3, 1]).to_vec(), vec![1, 3, 5]);
}

#[test]
fn equal_weights_saturate() {
    assert_eq!(unique_word_locations(&vec![(200, 1), (200, 1)]), vec![(255, 1)]);
}
