use mgdl::bench::BenchCollector;
use mgdl::db::Db;
use mgdl::downloader::{
    chapters_to_download, existing_item_sequences, filter_chapters_by_range, pages_to_fetch,
    reconcile, skip_chaps,
};
use mgdl::error::MgdlError;
use mgdl::models::{Chapter, ChapterRange, Manga, Page};
use mgdl::retry::{RetryDecision, RetryPolicy, INITIAL_DELAY_MS};
use mgdl::scheduler::{Scheduler, DEFAULT_CONCURRENCY_LIMIT};
use mgdl::scrape::{
    chapter_dir_name, chapter_list_url, chapter_pages_url, file_ext_of_url, format_chapter_number,
    is_rate_limited, page_file_name, series_url,
};
use mgdl::utils::expand_tilde;

fn strings(v: &[&str]) -> Vec<String> {
    v.iter().map(|s| s.to_string()).collect()
}

// Skip-set computation: files 001.jpg and 002.jpg yield {1, 2}; an
// absent directory yields the empty listing and so the empty set.
#[test]
fn skip_set_from_listing() {
    let listing = strings(&["001.jpg", "002.jpg"]);
    assert_eq!(existing_item_sequences(&listing), vec![1, 2]);

    let empty: Vec<String> = Vec::new();
    assert_eq!(existing_item_sequences(&empty), Vec::<usize>::new());
}

#[test]
fn skip_set_ignores_unrelated_and_duplicates() {
    let listing = strings(&["002.jpg", "notes.txt", "002.png", "010.jpg", "cover"]);
    // "notes" and "cover" have no numeric stem; the duplicate stem 002
    // appears once.
    assert_eq!(existing_item_sequences(&listing), vec![2, 10]);
}

#[test]
fn skip_chaps_from_listing() {
    let listing = strings(&[
        "chapter_0001-01",
        "chapter_0012-05",
        "cover.jpg",
        "chapter_bad",
    ]);
    assert_eq!(skip_chaps(&listing), vec![1, 12]);
}

// Upsert idempotence: a second identical upsert leaves the store in
// the same observable state.
#[test]
fn upsert_twice_same_state() {
    let mut once = Db::new();
    let mut twice = Db::new();
    let m = || Manga::new("h1", "Test Manga", "test_manga", "A", "Ongoing");
    once.upsert_manga(m()).unwrap();
    twice.upsert_manga(m()).unwrap();
    twice.upsert_manga(m()).unwrap();

    let a = once.get_manga_by_normalized_name("test_manga").unwrap();
    let b = twice.get_manga_by_normalized_name("test_manga").unwrap();
    assert_eq!(a.hash, b.hash);
    assert_eq!(a.name, b.name);
    assert_eq!(a.authors, b.authors);
    assert_eq!(a.status, b.status);
    assert_eq!(
        once.get_ongoing_manga().unwrap().len(),
        twice.get_ongoing_manga().unwrap().len()
    );
}

#[test]
fn upsert_conflicting_slug_fails() {
    let mut db = Db::new();
    db.upsert_manga(Manga::new("h1", "Title One", "same_slug", "A", "Ongoing"))
        .unwrap();
    let r = db.upsert_manga(Manga::new("h2", "Title Two", "same_slug", "B", "Ongoing"));
    assert!(matches!(r, Err(MgdlError::Db(_))));
}

#[test]
fn upsert_after_drop_fails() {
    let mut db = Db::new();
    db.drop_table().unwrap();
    let r = db.upsert_manga(Manga::new("h1", "T", "t", "A", "Ongoing"));
    assert!(matches!(r, Err(MgdlError::Db(_))));
}

// Ordinal ordering: raw numbers [12], [5, 5] and [5] render as
// "0012-01", "0005-05" and "0005-01", and sorting the strings sorts
// the numbers.
#[test]
fn ordinal_rendering_and_order() {
    let a = format_chapter_number(&vec![12]).unwrap();
    let b = format_chapter_number(&vec![5, 5]).unwrap();
    let c = format_chapter_number(&vec![5]).unwrap();
    assert_eq!(a, "0012-01");
    assert_eq!(b, "0005-05");
    assert_eq!(c, "0005-01");

    let mut sorted = vec![a.clone(), b.clone(), c.clone()];
    sorted.sort();
    assert_eq!(sorted, vec![c, b, a]);
}

#[test]
fn ordinal_rendering_rejects_three_pieces() {
    assert!(matches!(
        format_chapter_number(&vec![1, 2, 3]),
        Err(MgdlError::Scrape(_))
    ));
}

// Range filter: majors {1,2,3,10} against "2..", "..2" and "5".
#[test]
fn range_filter_on_majors() {
    let chapters = vec![
        Chapter::new("a", "0001-01"),
        Chapter::new("b", "0002-01"),
        Chapter::new("c", "0003-01"),
        Chapter::new("d", "0010-01"),
    ];

    let majors = |cs: &Vec<Chapter>| -> Vec<usize> {
        cs.iter().map(|c| c.major_number().unwrap()).collect()
    };

    let from_two = filter_chapters_by_range(&chapters, &ChapterRange::parse("2..").unwrap());
    assert_eq!(majors(&from_two), vec![2, 3, 10]);

    let up_to_two = filter_chapters_by_range(&chapters, &ChapterRange::parse("..2").unwrap());
    assert_eq!(majors(&up_to_two), vec![1, 2]);

    let only_five = filter_chapters_by_range(&chapters, &ChapterRange::parse("5").unwrap());
    assert!(only_five.is_empty());
}

// Retry bound: a fetch that always fails makes exactly max_attempts
// tries, sleeping 300, 600, 1200, ... between them, and gives up on
// the last one.
#[test]
fn retry_exhausts_after_max_attempts() {
    let max_attempts = 20;
    let mut policy = RetryPolicy::new(max_attempts);
    assert_eq!(policy.delay_ms, INITIAL_DELAY_MS);

    let mut tries = 0;
    let mut delays: Vec<u64> = Vec::new();
    loop {
        // One more attempt happens, and fails.
        tries += 1;
        match policy.on_failure() {
            RetryDecision::RetryAfter(d) => delays.push(d),
            RetryDecision::GiveUp => break,
        }
    }
    assert_eq!(tries, max_attempts);
    assert_eq!(delays.len(), max_attempts - 1);
    for (k, d) in delays.iter().enumerate() {
        assert_eq!(*d, 300u64 << k);
    }
    assert!(policy.exhausted());
}

#[test]
fn retry_gives_up_immediately_with_one_attempt() {
    let mut policy = RetryPolicy::new(1);
    assert!(matches!(policy.on_failure(), RetryDecision::GiveUp));
}

// Concurrency bound: 100 tasks under 16 permits never have more than
// 16 in flight at once.
#[test]
fn scheduler_bounds_concurrency() {
    let mut s = Scheduler::new(100, DEFAULT_CONCURRENCY_LIMIT);
    let mut max_in_flight = 0;
    while !s.is_done() {
        while s.try_start() {
            if s.in_flight > max_in_flight {
                max_in_flight = s.in_flight;
            }
        }
        assert!(s.in_flight <= 16);
        s.finish(true);
    }
    assert_eq!(max_in_flight, 16);
    assert_eq!(s.completed, 100);
    assert_eq!(s.failed, 0);
    assert!(s.succeeded());
}

#[test]
fn scheduler_counts_failures() {
    let mut s = Scheduler::new(3, 2);
    assert!(s.try_start());
    assert!(s.try_start());
    assert!(!s.try_start());
    s.finish(false);
    s.finish(true);
    assert!(s.try_start());
    s.finish(true);
    assert!(s.is_done());
    assert_eq!(s.completed, 2);
    assert_eq!(s.failed, 1);
    assert!(!s.succeeded());
}

// End-to-end planning: a work with chapters 0001-01 and 0002-01, two
// pages each. Against an empty directory a download fetches all four
// pages; rerunning fetches none; forcing fetches all four again.
#[test]
fn download_plan_end_to_end() {
    let mut db = Db::new();
    db.upsert_manga(Manga::new("WORKHASH", "Test Manga", "test_manga", "A", "Ongoing"))
        .unwrap();
    let chapters = vec![Chapter::new("c1", "0001-01"), Chapter::new("c2", "0002-01")];
    let pages_of = |c: &str| -> Vec<Page> {
        vec![
            Page::new(&format!("https://img.example.com/{}/1.png", c), 1),
            Page::new(&format!("https://img.example.com/{}/2.png", c), 2),
        ]
    };

    // First run: the target directory is empty.
    let empty: Vec<String> = Vec::new();
    let todo = chapters_to_download(&chapters, &skip_chaps(&empty)).unwrap();
    assert_eq!(todo.len(), 2);
    let mut scheduled = 0;
    for ch in &todo {
        let existing = existing_item_sequences(&empty);
        scheduled += pages_to_fetch(&pages_of(&ch.hash), &existing, false).len();
    }
    assert_eq!(scheduled, 4);

    // Second run: both pages of both chapters are on disk.
    let listing = strings(&["001.png", "002.png"]);
    let mut rescheduled = 0;
    for ch in &todo {
        let existing = existing_item_sequences(&listing);
        rescheduled += pages_to_fetch(&pages_of(&ch.hash), &existing, false).len();
    }
    assert_eq!(rescheduled, 0);

    // Third run: force refetches everything.
    let mut forced = 0;
    for ch in &todo {
        let existing = existing_item_sequences(&listing);
        forced += pages_to_fetch(&pages_of(&ch.hash), &existing, true).len();
    }
    assert_eq!(forced, 4);
}

#[test]
fn update_plan_skips_existing_chapter_dirs() {
    let chapters = vec![Chapter::new("c1", "0001-01"), Chapter::new("c2", "0002-01")];
    let listing = strings(&["chapter_0001-01"]);
    let todo = chapters_to_download(&chapters, &skip_chaps(&listing)).unwrap();
    assert_eq!(todo.len(), 1);
    assert_eq!(todo[0].number, "0002-01");
}

#[test]
fn download_plan_rejects_bad_ordinal() {
    let chapters = vec![Chapter::new("c1", "000x-01")];
    let r = chapters_to_download(&chapters, &Vec::new());
    assert!(matches!(r, Err(MgdlError::Parse(_))));
}

#[test]
fn pages_deduplicate_within_batch() {
    let pages = vec![
        Page::new("https://x/1.png", 1),
        Page::new("https://x/1b.png", 1),
        Page::new("https://x/2.png", 2),
    ];
    let picked = pages_to_fetch(&pages, &Vec::new(), false);
    assert_eq!(picked.len(), 2);
    assert_eq!(picked[0].url, "https://x/1.png");
    assert_eq!(picked[1].url, "https://x/2.png");
}

#[test]
fn reconcile_splits_by_directory_presence() {
    let works = vec![
        Manga::new("h1", "A", "a", "x", "Ongoing"),
        Manga::new("h2", "B", "b", "x", "Ongoing"),
        Manga::new("h3", "C", "c", "x", "Ongoing"),
    ];
    let (keep, removed) = reconcile(&works, &vec![true, false, true]);
    let keep_names: Vec<_> = keep.iter().map(|m| m.name.as_str()).collect();
    let removed_names: Vec<_> = removed.iter().map(|m| m.name.as_str()).collect();
    assert_eq!(keep_names, vec!["A", "C"]);
    assert_eq!(removed_names, vec!["B"]);
}

#[test]
fn rate_limit_marker_detection() {
    assert!(is_rate_limited("<html>error code: 1015</html>"));
    assert!(!is_rate_limited("<html>all fine</html>"));
}

#[test]
fn url_builders_compose() {
    assert_eq!(
        series_url("https://example.com", "HASH"),
        "https://example.com/series/HASH"
    );
    assert_eq!(
        chapter_list_url("https://example.com", "HASH"),
        "https://example.com/series/HASH/full-chapter-list"
    );
    assert_eq!(
        chapter_pages_url("https://example.com", "CH"),
        "https://example.com/chapters/CH/images?is_prev=False&current_page=1&reading_style=long_strip"
    );
}

#[test]
fn page_file_names() {
    assert_eq!(file_ext_of_url("https://x.com/a/b.png?v=1"), "png");
    assert_eq!(file_ext_of_url("https://x.com/a/plain"), "com/a/plain");
    assert_eq!(file_ext_of_url("nodothere"), "nodothere");
    assert_eq!(page_file_name(3, "png"), "003.png");
    assert_eq!(page_file_name(123, "jpg"), "123.jpg");
    assert_eq!(chapter_dir_name("0005-05"), "chapter_0005-05");
}

#[test]
fn tilde_expansion() {
    assert_eq!(expand_tilde("~", "/home/me"), "/home/me");
    assert_eq!(expand_tilde("~/manga", "/home/me"), "/home/me/manga");
    assert_eq!(expand_tilde("/srv/manga", "/home/me"), "/srv/manga");
}

#[test]
fn error_messages_name_their_class() {
    assert_eq!(
        MgdlError::Db("boom".to_string()).message(),
        "DB error: boom"
    );
    assert_eq!(
        MgdlError::Scrape("x".to_string()).message(),
        "Scrape error: x"
    );
    assert_eq!(
        MgdlError::Parse("y".to_string()).message(),
        "Parse error: y"
    );
}

#[test]
fn bench_report_folds_events() {
    let mut c = BenchCollector::new();
    c.record_scrape(120);
    c.record_chapter_discovered(40);
    c.record_chapter_discovered(60);
    c.record_chapter_skipped();
    c.record_page_downloaded(10, 1000);
    c.record_page_downloaded(30, 3000);
    c.record_page_downloaded(20, 2000);
    c.record_page_skipped();
    let r = c.finish("Test Manga", 500);
    assert_eq!(r.manga_name, "Test Manga");
    assert_eq!(r.total_time_ms, 500);
    assert_eq!(r.scrape_time_ms, 120);
    assert_eq!(r.chapters_discovered, 2);
    assert_eq!(r.chapters_skipped, 1);
    assert_eq!(r.chapter_discovery_ms, 100);
    assert_eq!(r.pages_downloaded, 3);
    assert_eq!(r.pages_skipped, 1);
    assert_eq!(r.total_bytes, 6000);
    assert_eq!(r.sum_page_time_ms, 60);
    assert_eq!(r.min_page_time_ms, 10);
    assert_eq!(r.max_page_time_ms, 30);
}

#[test]
fn bench_report_empty_run() {
    let c = BenchCollector::new();
    let r = c.finish("Nothing", 1);
    assert_eq!(r.pages_downloaded, 0);
    assert_eq!(r.min_page_time_ms, 0);
    assert_eq!(r.max_page_time_ms, 0);
    assert_eq!(r.total_bytes, 0);
}
