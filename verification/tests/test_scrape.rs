use mgdl::scrape::{parse_chapters_from_html, parse_manga_from_html, parse_pages_from_html};

// URL only used for hash extraction; the domain is irrelevant.
const FIXTURE_MANGA_URL: &str =
    "https://example.com/series/01JK8N8A7W8ZGR7014BM2ZMGBB/tokyo-alien-bros";

// A work page in the shape the parser reads: a heading, and an info
// list carrying the author and status entries.
fn manga_page() -> String {
    let mut s = String::new();
    s.push_str("<html><body><main><div><section><section>");
    s.push_str("<h1> Tokyo Alien Bros. </h1>");
    s.push_str("<section><ul class=\"flex flex-col gap-4\">");
    s.push_str("<li><strong>Author(s): </strong>");
    s.push_str("<span><a href=\"/author/one\">Keigo Shinzo</a></span>");
    s.push_str("<span><a href=\"/author/two\">Other Person</a></span></li>");
    s.push_str("<li><strong>Status: </strong><a href=\"/status\">Complete</a></li>");
    s.push_str("</ul></section>");
    s.push_str("</section></section></div></main></body></html>");
    s
}

// A chapter list page: each entry is a div holding one link whose text
// names the chapter.
fn chapter_list() -> String {
    let mut s = String::new();
    s.push_str("<html><body>");
    s.push_str("<div><a href=\"/chapters/CHAPHASHA\"><span><span>Chapter 18</span></span></a></div>");
    s.push_str("<div><a href=\"/chapters/CHAPHASHB\"><span><span>Chapter 5.5</span></span></a></div>");
    s.push_str("<div><a href=\"/chapters/CHAPHASHC\"><span><span>Chapter 5</span></span></a></div>");
    s.push_str("</body></html>");
    s
}

// A chapter images page: one img tag per page, numbered in the alt
// text.
fn chapter_pages() -> String {
    let mut s = String::new();
    s.push_str("<html><body><section>");
    s.push_str("<img src=\"https://img.example.com/c1/001.png\" alt=\"Page 1\">");
    s.push_str("<img src=\"https://img.example.com/c1/002.png\" alt=\"Page 2\">");
    s.push_str("<img src=\"https://img.example.com/c1/003.png\" alt=\"Page 3\">");
    s.push_str("</section></body></html>");
    s
}

#[test]
fn parse_manga_name_and_hash() {
    let html = manga_page();
    let manga = parse_manga_from_html(&html, FIXTURE_MANGA_URL).unwrap();

    assert!(!manga.name.is_empty());
    assert!(
        manga.name.contains("Tokyo Alien Bros"),
        "Expected manga name to contain 'Tokyo Alien Bros', got: '{}'",
        manga.name
    );
    assert_eq!(manga.hash, "01JK8N8A7W8ZGR7014BM2ZMGBB");
    assert!(!manga.normalized_name.is_empty());
}

#[test]
fn parse_manga_authors_and_status() {
    let html = manga_page();
    let manga = parse_manga_from_html(&html, FIXTURE_MANGA_URL).unwrap();

    assert!(!manga.authors.is_empty());
    assert!(!manga.status.is_empty());
}

#[test]
fn parse_manga_exact_fields() {
    let html = manga_page();
    let manga = parse_manga_from_html(&html, FIXTURE_MANGA_URL).unwrap();

    assert_eq!(manga.name, "Tokyo Alien Bros.");
    assert_eq!(manga.normalized_name, "tokyo_alien_bros");
    assert_eq!(manga.authors, "Keigo Shinzo, Other Person");
    assert_eq!(manga.status, "Complete");
}

#[test]
fn parse_manga_bad_url_fails() {
    let html = manga_page();
    let result = parse_manga_from_html(&html, "https://example.com/no-series");
    assert!(result.is_err());
}

#[test]
fn parse_chapters_count_and_hashes() {
    let html = chapter_list();
    let chapters = parse_chapters_from_html(&html).unwrap();

    assert!(!chapters.is_empty());

    for ch in &chapters {
        assert!(!ch.hash.is_empty(), "Chapter hash should not be empty");
        assert!(
            ch.number.contains('-'),
            "Chapter number '{}' should be in XXXX-YY format",
            ch.number
        );
    }
}

#[test]
fn parse_chapters_number_format() {
    let html = chapter_list();
    let chapters = parse_chapters_from_html(&html).unwrap();

    for ch in &chapters {
        let parts: Vec<&str> = ch.number.split('-').collect();
        assert_eq!(
            parts.len(),
            2,
            "Expected XXXX-YY format, got: {}",
            ch.number
        );
        assert_eq!(
            parts[0].len(),
            4,
            "Major part should be 4 digits: {}",
            ch.number
        );
        assert_eq!(
            parts[1].len(),
            2,
            "Minor part should be 2 digits: {}",
            ch.number
        );
    }
}

#[test]
fn parse_chapters_exact_values() {
    let html = chapter_list();
    let chapters = parse_chapters_from_html(&html).unwrap();

    assert_eq!(chapters.len(), 3);
    assert_eq!(chapters[0].hash, "CHAPHASHA");
    assert_eq!(chapters[0].number, "0018-01");
    assert_eq!(chapters[1].hash, "CHAPHASHB");
    assert_eq!(chapters[1].number, "0005-05");
    assert_eq!(chapters[2].hash, "CHAPHASHC");
    assert_eq!(chapters[2].number, "0005-01");
}

#[test]
fn parse_pages_count_and_urls() {
    let html = chapter_pages();
    let pages = parse_pages_from_html(&html).unwrap();

    assert!(!pages.is_empty());

    for page in &pages {
        assert!(
            page.url.starts_with("http"),
            "Page URL should start with http: {}",
            page.url
        );
        assert!(page.number > 0, "Page number should be > 0");
    }
}

#[test]
fn parse_pages_sequential_numbers() {
    let html = chapter_pages();
    let pages = parse_pages_from_html(&html).unwrap();

    let mut numbers: Vec<usize> = pages.iter().map(|p| p.number).collect();
    numbers.sort();
    let expected: Vec<usize> = (1..=numbers.len()).collect();
    assert_eq!(
        numbers, expected,
        "Page numbers should be sequential starting at 1"
    );
}

#[test]
fn parse_pages_empty_html_fails() {
    let result = parse_pages_from_html("<html><body></body></html>");
    assert!(
        result.is_err(),
        "Empty HTML should fail with no pages error"
    );
}

#[test]
fn parse_chapters_empty_html() {
    let chapters = parse_chapters_from_html("<html><body></body></html>").unwrap();
    assert!(chapters.is_empty());
}
