use readwise_epub::canonical::{apply_probe, is_mailto, prepare, ProbeOutcome};
use readwise_epub::fetch::{page_url, Fetcher, RateLimit};
use readwise_epub::grouping::{
    affinity_groups, batch_name, chunk_batches, group, remainder_items, Batch, CHUNK_WORDS,
};
use readwise_epub::item::{Item, Page, Timestamp};
use readwise_epub::naming::{candidate, decimal_text, output_identity, render_args};

fn stamp(unix_nanos: i128, year: i32, month: u8, day: u8) -> Timestamp {
    Timestamp { unix_nanos, year, month, day }
}

fn item(url: &str, author: Option<&str>, site: Option<&str>, words: u32, at: Timestamp) -> Item {
    Item {
        title: Some(format!("title of {url}")),
        author: author.map(String::from),
        site_name: site.map(String::from),
        source_url: url.to_string(),
        word_count: words,
        created_at: at,
        updated_at: at,
    }
}

fn day(d: u8) -> Timestamp {
    stamp(1_704_067_200_000_000_000 + (d as i128) * 86_400_000_000_000, 2024, 1, d)
}

fn urls(b: &Batch) -> Vec<String> {
    b.items.iter().map(|i| i.source_url.clone()).collect()
}

fn words(b: &Batch) -> Vec<u32> {
    b.items.iter().map(|i| i.word_count).collect()
}

#[test]
fn fetcher_accumulates_every_page() {
    let mut f = Fetcher::new();
    assert!(!f.needs_delay());
    assert_eq!(
        f.next_url().unwrap(),
        "https://readwise.io/api/v3/list/?location=new"
    );
    f.accept(Page {
        count: 3,
        next_page_cursor: Some("abc".to_string()),
        results: vec![
            item("https://a/1", None, None, 1, day(1)),
            item("https://a/2", None, None, 2, day(2)),
        ],
    });
    assert!(f.needs_delay());
    assert_eq!(
        f.next_url().unwrap(),
        "https://readwise.io/api/v3/list/?location=new&pageCursor=abc"
    );
    f.accept(Page {
        count: 3,
        next_page_cursor: None,
        results: vec![item("https://a/3", None, None, 3, day(3))],
    });
    assert!(f.done);
    assert!(f.next_url().is_none());
    assert!(f.cursor.is_none());
    let all = f.into_items();
    assert_eq!(all.len(), 3);
    let got: Vec<&str> = all.iter().map(|i| i.source_url.as_str()).collect();
    assert_eq!(got, vec!["https://a/1", "https://a/2", "https://a/3"]);
}

#[test]
fn empty_page_ends_walk() {
    let mut f = Fetcher::new();
    f.accept(Page { count: 0, next_page_cursor: None, results: vec![] });
    assert!(f.done);
    assert_eq!(f.into_items().len(), 0);
}

#[test]
fn page_urls() {
    assert_eq!(page_url(&None), "https://readwise.io/api/v3/list/?location=new");
    assert_eq!(
        page_url(&Some("x1".to_string())),
        "https://readwise.io/api/v3/list/?location=new&pageCursor=x1"
    );
}

#[test]
fn standard_rate_waits_three_seconds() {
    let r = RateLimit::standard();
    assert_eq!(r.max_requests, 20);
    assert_eq!(r.window_ms, 60000);
    assert_eq!(r.delay_ms(), 3000);
}

#[test]
fn mailto_detection() {
    assert!(is_mailto(&"mailto:someone@example.com".to_string()));
    assert!(is_mailto(&"mailto:".to_string()));
    assert!(!is_mailto(&"mailto".to_string()));
    assert!(!is_mailto(&"https://mailto:x".to_string()));
    assert!(!is_mailto(&"".to_string()));
    assert!(!is_mailto(&"MAILTO:x".to_string()));
}

#[test]
fn prepare_drops_mail_and_sorts_stably() {
    let items = vec![
        item("https://c", None, None, 1, day(3)),
        item("mailto:x@y", None, None, 1, day(1)),
        item("https://b1", None, None, 1, day(2)),
        item("https://a", None, None, 1, day(1)),
        item("https://b2", None, None, 1, day(2)),
    ];
    let r = prepare(&items);
    let got: Vec<&str> = r.iter().map(|i| i.source_url.as_str()).collect();
    assert_eq!(got, vec!["https://a", "https://b1", "https://b2", "https://c"]);
}

#[test]
fn mail_items_reach_no_batch() {
    let items = vec![
        item("mailto:a@b", Some("A"), Some("S"), 10, day(1)),
        item("mailto:c@d", Some("A"), Some("S"), 10, day(2)),
        item("https://x", Some("A"), Some("S"), 10, day(3)),
        item("mailto:e@f", None, None, 10, day(4)),
    ];
    let batches = group(&prepare(&items), CHUNK_WORDS);
    for b in &batches {
        for i in &b.items {
            assert!(!i.source_url.starts_with("mailto:"));
        }
    }
    let total: usize = batches.iter().map(|b| b.items.len()).sum();
    assert_eq!(total, 1);
}

#[test]
fn probe_redirect_failure_and_same() {
    let mut it = item("http://short/1", None, None, 1, day(1));
    let out = apply_probe(&mut it, Some("https://long/1".to_string()));
    assert_eq!(it.source_url, "https://long/1");
    assert_eq!(
        out.message().unwrap(),
        "Redirected from http://short/1 to https://long/1"
    );
    let out = apply_probe(&mut it, None);
    assert_eq!(it.source_url, "https://long/1");
    assert_eq!(out.message().unwrap(), "Failed to HEAD https://long/1");
    let out = apply_probe(&mut it, Some("https://long/1".to_string()));
    assert!(matches!(out, ProbeOutcome::Unchanged));
    assert!(out.message().is_none());
}

#[test]
fn canonicalizing_twice_changes_nothing() {
    let mut it = item("http://short/2", None, None, 1, day(1));
    let first = apply_probe(&mut it, Some("https://final/2".to_string()));
    assert!(first.message().is_some());
    let second = apply_probe(&mut it, Some("https://final/2".to_string()));
    assert_eq!(it.source_url, "https://final/2");
    assert!(second.message().is_none());
}

#[test]
fn affinity_batch_of_three() {
    let items = vec![
        item("https://1", Some("A"), Some("S1"), 100, day(1)),
        item("https://2", Some("A"), Some("S1"), 100, day(2)),
        item("https://3", Some("A"), Some("S1"), 100, day(3)),
    ];
    let batches = group(&items, CHUNK_WORDS);
    assert_eq!(batches.len(), 1);
    assert_eq!(batches[0].name, "A - S1");
    assert_eq!(urls(&batches[0]), vec!["https://1", "https://2", "https://3"]);
}

#[test]
fn singletons_and_anonymous_items_are_not_promoted() {
    let items = vec![
        item("https://1", None, None, 10, day(1)),
        item("https://2", None, None, 10, day(2)),
        item("https://3", Some("B"), None, 10, day(3)),
        item("https://4", None, Some("S"), 10, day(4)),
    ];
    assert_eq!(affinity_groups(&items).len(), 0);
    assert_eq!(remainder_items(&items).len(), 4);
    let batches = group(&items, CHUNK_WORDS);
    assert_eq!(batches.len(), 1);
    assert_eq!(batches[0].name, "2024-01-01");
    assert_eq!(batches[0].items.len(), 4);
}

#[test]
fn partitions_gather_items_that_are_not_adjacent() {
    let items = vec![
        item("https://1", Some("A"), None, 10, day(1)),
        item("https://2", None, Some("S"), 10, day(2)),
        item("https://3", Some("A"), None, 10, day(3)),
        item("https://4", None, Some("S"), 10, day(4)),
        item("https://5", None, None, 10, day(5)),
    ];
    let batches = group(&items, CHUNK_WORDS);
    assert_eq!(batches.len(), 3);
    assert_eq!(batches[0].name, "A");
    assert_eq!(urls(&batches[0]), vec!["https://1", "https://3"]);
    assert_eq!(batches[1].name, "S");
    assert_eq!(urls(&batches[1]), vec!["https://2", "https://4"]);
    assert_eq!(batches[2].name, "2024-01-05");
    assert_eq!(urls(&batches[2]), vec!["https://5"]);
}

#[test]
fn batch_names() {
    let a = Some("Ann".to_string());
    let s = Some("Site".to_string());
    assert_eq!(batch_name(&a, &s), "Ann - Site");
    assert_eq!(batch_name(&a, &None), "Ann");
    assert_eq!(batch_name(&None, &s), "Site");
}

#[test]
fn remainder_chunks_split_after_threshold() {
    let rem = vec![
        item("https://1", None, None, 3000, day(1)),
        item("https://2", None, None, 4000, day(2)),
        item("https://3", None, None, 3000, day(3)),
        item("https://4", None, None, 1000, day(4)),
    ];
    let batches = chunk_batches(&rem, CHUNK_WORDS);
    assert_eq!(batches.len(), 2);
    assert_eq!(words(&batches[0]), vec![3000, 4000, 3000]);
    assert_eq!(words(&batches[1]), vec![1000]);
    assert_eq!(batches[0].name, "2024-01-01");
    assert_eq!(batches[1].name, "2024-01-04");
}

#[test]
fn empty_remainder_gives_no_batch() {
    assert_eq!(chunk_batches(&vec![], CHUNK_WORDS).len(), 0);
    assert_eq!(group(&vec![], CHUNK_WORDS).len(), 0);
}

#[test]
fn chunk_total_exactly_at_threshold_starts_new_chunk() {
    let rem = vec![
        item("https://1", None, None, 8000, day(1)),
        item("https://2", None, None, 0, day(2)),
        item("https://3", None, None, 7999, day(3)),
        item("https://4", None, None, 5, day(4)),
    ];
    let batches = chunk_batches(&rem, CHUNK_WORDS);
    assert_eq!(batches.len(), 2);
    assert_eq!(words(&batches[0]), vec![8000]);
    assert_eq!(words(&batches[1]), vec![0, 7999, 5]);
}

#[test]
fn largest_word_counts_do_not_overflow() {
    let rem = vec![
        item("https://1", None, None, 7999, day(1)),
        item("https://2", None, None, u32::MAX, day(2)),
        item("https://3", None, None, u32::MAX, day(3)),
    ];
    let batches = chunk_batches(&rem, u32::MAX);
    assert_eq!(batches.len(), 2);
    assert_eq!(words(&batches[0]), vec![7999, u32::MAX]);
    assert_eq!(words(&batches[1]), vec![u32::MAX]);
}

#[test]
fn chunk_name_uses_first_item_date() {
    let rem = vec![
        item("https://1", None, None, 10, stamp(0, 987, 3, 9)),
        item("https://2", None, None, 10, stamp(1, 2024, 2, 29)),
    ];
    let batches = chunk_batches(&rem, CHUNK_WORDS);
    assert_eq!(batches[0].name, "0987-03-09");
}

#[test]
fn grouping_keeps_every_item_once() {
    let items = vec![
        item("https://1", Some("A"), Some("S"), 5000, day(1)),
        item("https://2", None, None, 5000, day(2)),
        item("https://3", Some("A"), Some("S"), 5000, day(3)),
        item("https://4", Some("B"), None, 5000, day(4)),
        item("https://5", None, None, 5000, day(5)),
    ];
    let batches = group(&items, CHUNK_WORDS);
    let mut all: Vec<String> = batches.iter().flat_map(urls).collect();
    all.sort();
    assert_eq!(all, vec!["https://1", "https://2", "https://3", "https://4", "https://5"]);
}

#[test]
fn decimal_texts() {
    assert_eq!(decimal_text(0), "0");
    assert_eq!(decimal_text(7), "7");
    assert_eq!(decimal_text(10), "10");
    assert_eq!(decimal_text(12345), "12345");
    assert_eq!(decimal_text(u64::MAX), u64::MAX.to_string());
}

#[test]
fn candidates() {
    let name = "2024-01-01".to_string();
    let c1 = candidate(&name, 1);
    assert_eq!(c1.filename, "readwise-2024-01-01.epub");
    assert_eq!(c1.title, "2024-01-01");
    let c3 = candidate(&name, 3);
    assert_eq!(c3.filename, "readwise-2024-01-01-3.epub");
    assert_eq!(c3.title, "2024-01-01 Pt. 3");
}

#[test]
fn naming_avoids_existing_file() {
    let name = "2024-01-01".to_string();
    let taken = vec!["readwise-2024-01-01.epub".to_string()];
    let id = output_identity(&name, &taken);
    assert_eq!(id.filename, "readwise-2024-01-01-2.epub");
    assert_eq!(id.title, "2024-01-01 Pt. 2");
}

#[test]
fn naming_without_collision_and_with_gaps() {
    let name = "A - S".to_string();
    let id = output_identity(&name, &vec![]);
    assert_eq!(id.filename, "readwise-A - S.epub");
    assert_eq!(id.title, "A - S");
    let taken = vec![
        "readwise-A - S-2.epub".to_string(),
        "readwise-A - S.epub".to_string(),
        "other.epub".to_string(),
    ];
    let id = output_identity(&name, &taken);
    assert_eq!(id.filename, "readwise-A - S-3.epub");
    assert_eq!(id.title, "A - S Pt. 3");
}

#[test]
fn render_arguments() {
    let b = Batch {
        name: "x".to_string(),
        items: vec![
            item("https://1", None, None, 1, day(1)),
            item("https://2", None, None, 1, day(2)),
        ],
    };
    let id = candidate(&b.name, 2);
    let args = render_args(&id, &b);
    assert_eq!(
        args,
        vec![
            "epub", "--output", "readwise-x-2.epub", "--title", "x Pt. 2", "--author", "readwise",
            "https://1", "https://2"
        ]
    );
}

#[test]
fn end_to_end_two_pages() {
    let mut f = Fetcher::new();
    f.accept(Page {
        count: 5,
        next_page_cursor: Some("next".to_string()),
        results: vec![
            item("https://aff/1", Some("A"), Some("S"), 900, day(1)),
            item("https://solo/1", None, None, 2000, day(2)),
            item("https://aff/2", Some("A"), Some("S"), 900, day(3)),
        ],
    });
    f.accept(Page {
        count: 5,
        next_page_cursor: None,
        results: vec![
            item("https://aff/3", Some("A"), Some("S"), 900, day(4)),
            item("https://solo/2", Some("Z"), None, 500, day(5)),
        ],
    });
    assert!(f.done);
    let prepared = prepare(&f.into_items());
    let batches = group(&prepared, CHUNK_WORDS);
    assert_eq!(batches.len(), 2);
    assert_eq!(batches[0].name, "A - S");
    assert_eq!(urls(&batches[0]), vec!["https://aff/1", "https://aff/2", "https://aff/3"]);
    assert_eq!(batches[1].name, "2024-01-02");
    assert_eq!(words(&batches[1]), vec![2000, 500]);
}
