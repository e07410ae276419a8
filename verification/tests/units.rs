use wikisearch::app_state::{parse_thread_count, FoundInfo, SearchingInfo, State, TemplateApp};
use wikisearch::bench::{collect_benches, Bench};
use wikisearch::links::{extract_links, has_wiki_prefix, last_segment};
use wikisearch::trivial_search;

fn chars(s: &str) -> Vec<char> {
    s.chars().collect()
}

#[test]
fn trivial_search_same() {
    let r = trivial_search(&"Rust".to_string(), &"Rust".to_string());
    assert_eq!(r, Some(vec!["Rust".to_string()]));
}

#[test]
fn trivial_search_different() {
    let r = trivial_search(&"Rust".to_string(), &"Ada".to_string());
    assert_eq!(r, None);
}

#[test]
fn extract_links_simple_page() {
    let page = "<html><div id=\"mw-content-text\">\
                <a href=\"/wiki/Dog\">dogs</a> and <a href=\"/wiki/Cat\">cats</a>\
                </div></html>";
    let links = extract_links(&chars(page));
    assert_eq!(links, vec!["Dog".to_string(), "Cat".to_string()]);
}

#[test]
fn extract_links_drops_namespaced_names() {
    let page = "<div id=\"mw-content-text\">\
                <a href=\"/wiki/File:X.png\">img</a>\
                <a href=\"/wiki/Dog\">dog</a>\
                <a href=\"/wiki/Help:Here\">help</a>";
    let links = extract_links(&chars(page));
    assert_eq!(links, vec!["Dog".to_string()]);
}

#[test]
fn extract_links_without_marker() {
    let page = "<a href=\"/wiki/Dog\">dog</a>";
    let links = extract_links(&chars(page));
    assert!(links.is_empty());
}

#[test]
fn extract_links_anchor_before_marker_is_ignored() {
    let page = "<a href=\"/wiki/Early\">e</a><div id=\"mw-content-text\"><a href=\"/wiki/Late\">l</a>";
    let links = extract_links(&chars(page));
    assert_eq!(links, vec!["Late".to_string()]);
}

#[test]
fn extract_links_unclosed_name_stops() {
    let page = "<div id=\"mw-content-text\"><a href=\"/wiki/NoQuote";
    let links = extract_links(&chars(page));
    assert!(links.is_empty());
}

#[test]
fn wiki_prefix_accepted() {
    assert!(has_wiki_prefix(&chars("https://en.wikipedia.org/wiki/Dog")));
}

#[test]
fn wiki_prefix_rejected() {
    assert!(!has_wiki_prefix(&chars("http://en.wikipedia.org/wiki/Dog")));
    assert!(!has_wiki_prefix(&chars("Dog")));
    assert!(!has_wiki_prefix(&chars("")));
}

#[test]
fn last_segment_of_address() {
    assert_eq!(
        last_segment(&chars("https://en.wikipedia.org/wiki/Dog")),
        "Dog".to_string()
    );
}

#[test]
fn last_segment_without_slash() {
    assert_eq!(last_segment(&chars("Dog")), "Dog".to_string());
}

#[test]
fn last_segment_of_trailing_slash() {
    assert_eq!(last_segment(&chars("a/b/")), "".to_string());
}

#[test]
fn parse_thread_count_accepts_range() {
    assert_eq!(parse_thread_count(&chars("1")), Some(1));
    assert_eq!(parse_thread_count(&chars("42")), Some(42));
    assert_eq!(parse_thread_count(&chars("100")), Some(100));
    assert_eq!(parse_thread_count(&chars("007")), Some(7));
}

#[test]
fn parse_thread_count_rejects_bad_input() {
    assert_eq!(parse_thread_count(&chars("")), None);
    assert_eq!(parse_thread_count(&chars("0")), None);
    assert_eq!(parse_thread_count(&chars("101")), None);
    assert_eq!(parse_thread_count(&chars("abc")), None);
    assert_eq!(parse_thread_count(&chars("2x")), None);
    assert_eq!(parse_thread_count(&chars("-3")), None);
    assert_eq!(parse_thread_count(&chars("99999999999999999999999")), None);
}

#[test]
fn bench_accumulates_and_combines() {
    let mut a = Bench::new();
    a.add_sample(0, 5);
    a.add_sample(0, 7);
    a.add_sample(1, 100);
    let mut b = Bench::new();
    b.add_sample(0, 3);
    b.add_sample(255, 9);
    a.combine(&b);
    assert_eq!(a.get_duration(0), 15);
    assert_eq!(a.get_duration(1), 100);
    assert_eq!(a.get_duration(255), 9);
    assert_eq!(a.get_duration(2), 0);
}

#[test]
fn bench_saturates() {
    let mut a = Bench::new();
    a.add_sample(3, u64::MAX - 1);
    a.add_sample(3, 10);
    assert_eq!(a.get_duration(3), u64::MAX);
}

#[test]
fn collect_benches_sums_workers() {
    let mut a = Bench::new();
    a.add_sample(0, 2);
    let mut b = Bench::new();
    b.add_sample(0, 40);
    b.add_sample(9, 1);
    let total = collect_benches(&vec![a, b]);
    assert_eq!(total.get_duration(0), 42);
    assert_eq!(total.get_duration(9), 1);
    assert_eq!(total.get_duration(8), 0);
}

#[test]
fn collect_benches_of_nothing_is_zero() {
    let total = collect_benches(&Vec::new());
    assert_eq!(total.get_duration(0), 0);
}

#[test]
fn searching_info_starts_clean() {
    let info = SearchingInfo::new("from", "to", 4);
    assert_eq!(info.search_from, "from");
    assert_eq!(info.search_to, "to");
    assert_eq!(info.num_of_processed, 0);
    assert_eq!(info.num_in_queue, 0);
    assert_eq!(info.threads, 4);
    assert_eq!(info.threads_state, vec![true; 4]);
    assert_eq!(info.elapsed_nanos, 0);
}

#[test]
fn found_info_copies_the_search() {
    let mut info = SearchingInfo::new("from", "to", 2);
    info.num_of_processed = 17;
    info.elapsed_nanos = 1_000_000;
    let path = vec!["from".to_string(), "to".to_string()];
    let found = FoundInfo::new(&info, path.clone());
    assert_eq!(found.search_from, "from");
    assert_eq!(found.search_to, "to");
    assert_eq!(found.used_threads, 2);
    assert_eq!(found.num_of_processed, 17);
    assert_eq!(found.duration_nanos, 1_000_000);
    assert_eq!(found.path, path);
}

#[test]
fn template_app_default_is_input() {
    let app = TemplateApp::default();
    assert!(matches!(app.state, State::Input));
    assert_eq!(app.search_from, "https://en.wikipedia.org/wiki/Dave_Hollins");
    assert_eq!(app.search_to, "https://en.wikipedia.org/wiki/Dab_(dance)");
    assert_eq!(app.threads, "1");
}
