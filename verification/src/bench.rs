//! Instrumentation of a run: what happened, counted and summed.
//!
//! The collector records plain events; timing values arrive as
//! milliseconds measured by the surrounding program. `finish` folds the
//! events into a report of counts, sums and extremes. Derived rates are
//! the surrounding program's concern: they need fractions, the report
//! carries exact integers.

use vstd::prelude::*;

verus! {

/// One recorded event of a run.
pub enum BenchEvent {
    ScrapeComplete { ms: u64 },
    ChapterDiscovered { ms: u64 },
    ChapterSkipped,
    PageDownloaded { ms: u64, bytes: usize },
    PageSkipped,
}

/// Collects the events of one run, in order.
pub struct BenchCollector {
    events: Vec<BenchEvent>,
}

impl View for BenchCollector {
    type V = Seq<BenchEvent>;

    closed spec fn view(&self) -> Seq<BenchEvent> {
        self.events@
    }
}

/// The milliseconds of the last completed scrape, zero before any.
pub open spec fn spec_scrape_time_ms(evs: Seq<BenchEvent>) -> u64
    decreases evs.len(),
{
    if evs.len() == 0 {
        0
    } else {
        match evs.last() {
            BenchEvent::ScrapeComplete { ms } => ms,
            _ => spec_scrape_time_ms(evs.drop_last()),
        }
    }
}

/// How many chapters were discovered.
pub open spec fn spec_chapters_discovered(evs: Seq<BenchEvent>) -> int
    decreases evs.len(),
{
    if evs.len() == 0 {
        0
    } else {
        spec_chapters_discovered(evs.drop_last()) + match evs.last() {
            BenchEvent::ChapterDiscovered { .. } => 1int,
            _ => 0int,
        }
    }
}

/// How many chapters were skipped as already present.
pub open spec fn spec_chapters_skipped(evs: Seq<BenchEvent>) -> int
    decreases evs.len(),
{
    if evs.len() == 0 {
        0
    } else {
        spec_chapters_skipped(evs.drop_last()) + match evs.last() {
            BenchEvent::ChapterSkipped => 1int,
            _ => 0int,
        }
    }
}

/// The milliseconds spent discovering chapters, summed.
pub open spec fn spec_chapter_discovery_ms(evs: Seq<BenchEvent>) -> int
    decreases evs.len(),
{
    if evs.len() == 0 {
        0
    } else {
        spec_chapter_discovery_ms(evs.drop_last()) + match evs.last() {
            BenchEvent::ChapterDiscovered { ms } => ms as int,
            _ => 0int,
        }
    }
}

/// How many pages were downloaded.
pub open spec fn spec_pages_downloaded(evs: Seq<BenchEvent>) -> int
    decreases evs.len(),
{
    if evs.len() == 0 {
        0
    } else {
        spec_pages_downloaded(evs.drop_last()) + match evs.last() {
            BenchEvent::PageDownloaded { .. } => 1int,
            _ => 0int,
        }
    }
}

/// How many pages were skipped as already present.
pub open spec fn spec_pages_skipped(evs: Seq<BenchEvent>) -> int
    decreases evs.len(),
{
    if evs.len() == 0 {
        0
    } else {
        spec_pages_skipped(evs.drop_last()) + match evs.last() {
            BenchEvent::PageSkipped => 1int,
            _ => 0int,
        }
    }
}

/// The bytes of every downloaded page, summed.
pub open spec fn spec_total_bytes(evs: Seq<BenchEvent>) -> int
    decreases evs.len(),
{
    if evs.len() == 0 {
        0
    } else {
        spec_total_bytes(evs.drop_last()) + match evs.last() {
            BenchEvent::PageDownloaded { bytes, .. } => bytes as int,
            _ => 0int,
        }
    }
}

/// The milliseconds of every downloaded page, summed.
pub open spec fn spec_sum_page_ms(evs: Seq<BenchEvent>) -> int
    decreases evs.len(),
{
    if evs.len() == 0 {
        0
    } else {
        spec_sum_page_ms(evs.drop_last()) + match evs.last() {
            BenchEvent::PageDownloaded { ms, .. } => ms as int,
            _ => 0int,
        }
    }
}

/// The fastest page download, when there was one.
pub open spec fn spec_min_page_ms(evs: Seq<BenchEvent>) -> Option<u64>
    decreases evs.len(),
{
    if evs.len() == 0 {
        None
    } else {
        let prev = spec_min_page_ms(evs.drop_last());
        match evs.last() {
            BenchEvent::PageDownloaded { ms, .. } => match prev {
                None => Some(ms),
                Some(p) => if ms < p {
                    Some(ms)
                } else {
                    Some(p)
                },
            },
            _ => prev,
        }
    }
}

/// The slowest page download, when there was one.
pub open spec fn spec_max_page_ms(evs: Seq<BenchEvent>) -> Option<u64>
    decreases evs.len(),
{
    if evs.len() == 0 {
        None
    } else {
        let prev = spec_max_page_ms(evs.drop_last());
        match evs.last() {
            BenchEvent::PageDownloaded { ms, .. } => match prev {
                None => Some(ms),
                Some(p) => if ms > p {
                    Some(ms)
                } else {
                    Some(p)
                },
            },
            _ => prev,
        }
    }
}

/// The folded report of one run: exact counts, sums and extremes of
/// the recorded events.
pub struct BenchReport {
    pub manga_name: String,
    pub total_time_ms: u64,
    pub scrape_time_ms: u64,
    pub chapters_discovered: usize,
    pub chapters_skipped: usize,
    pub chapter_discovery_ms: u128,
    pub pages_downloaded: usize,
    pub pages_skipped: usize,
    pub total_bytes: u128,
    pub sum_page_time_ms: u128,
    pub min_page_time_ms: u64,
    pub max_page_time_ms: u64,
}

impl BenchCollector {
    /// A collector with nothing recorded yet.
    pub fn new() -> (c: BenchCollector)
        ensures
            c@ == Seq::<BenchEvent>::empty(),
    {
        let c = BenchCollector { events: Vec::new() };
        proof {
            assert(c@ =~= Seq::<BenchEvent>::empty());
        }
        c
    }

    /// Records that the work's pages were scraped, and how long it took.
    pub fn record_scrape(&mut self, ms: u64)
        ensures
            final(self)@ == old(self)@.push(BenchEvent::ScrapeComplete { ms }),
    {
        self.events.push(BenchEvent::ScrapeComplete { ms });
    }

    /// Records that a chapter's items were discovered, and how long it
    /// took.
    pub fn record_chapter_discovered(&mut self, ms: u64)
        ensures
            final(self)@ == old(self)@.push(BenchEvent::ChapterDiscovered { ms }),
    {
        self.events.push(BenchEvent::ChapterDiscovered { ms });
    }

    /// Records that a chapter was skipped as already present.
    pub fn record_chapter_skipped(&mut self)
        ensures
            final(self)@ == old(self)@.push(BenchEvent::ChapterSkipped),
    {
        self.events.push(BenchEvent::ChapterSkipped);
    }

    /// Records one downloaded page: how long it took and how large it
    /// was.
    pub fn record_page_downloaded(&mut self, ms: u64, bytes: usize)
        ensures
            final(self)@ == old(self)@.push(BenchEvent::PageDownloaded { ms, bytes }),
    {
        self.events.push(BenchEvent::PageDownloaded { ms, bytes });
    }

    /// Records one page skipped as already present.
    pub fn record_page_skipped(&mut self)
        ensures
            final(self)@ == old(self)@.push(BenchEvent::PageSkipped),
    {
        self.events.push(BenchEvent::PageSkipped);
    }

    /// Folds the recorded events into the run's report. The name and
    /// the total elapsed time come from the caller.
    pub fn finish(self, manga_name: &str, total_time_ms: u64) -> (r: BenchReport)
        ensures
            r.manga_name@ == manga_name@,
            r.total_time_ms == total_time_ms,
            r.scrape_time_ms == spec_scrape_time_ms(self@),
            r.chapters_discovered == spec_chapters_discovered(self@),
            r.chapters_skipped == spec_chapters_skipped(self@),
            r.chapter_discovery_ms == spec_chapter_discovery_ms(self@),
            r.pages_downloaded == spec_pages_downloaded(self@),
            r.pages_skipped == spec_pages_skipped(self@),
            r.total_bytes == spec_total_bytes(self@),
            r.sum_page_time_ms == spec_sum_page_ms(self@),
            r.min_page_time_ms == match spec_min_page_ms(self@) {
                Some(v) => v,
                None => 0u64,
            },
            r.max_page_time_ms == match spec_max_page_ms(self@) {
                Some(v) => v,
                None => 0u64,
            },
    {
        let ghost evs = self@;
        let n = self.events.len();
        let mut scrape_time_ms: u64 = 0;
        let mut chapters_discovered: usize = 0;
        let mut chapters_skipped: usize = 0;
        let mut chapter_discovery_ms: u128 = 0;
        let mut pages_downloaded: usize = 0;
        let mut pages_skipped: usize = 0;
        let mut total_bytes: u128 = 0;
        let mut sum_page_time_ms: u128 = 0;
        let mut min_page_time_ms: u64 = 0;
        let mut max_page_time_ms: u64 = 0;
        let mut i: usize = 0;
        proof {
            assert(evs.take(0) =~= Seq::<BenchEvent>::empty());
        }
        while i < n
            invariant
                i <= n,
                n == self.events@.len(),
                evs == self.events@,
                scrape_time_ms == spec_scrape_time_ms(evs.take(i as int)),
                chapters_discovered == spec_chapters_discovered(evs.take(i as int)),
                chapters_skipped == spec_chapters_skipped(evs.take(i as int)),
                chapter_discovery_ms == spec_chapter_discovery_ms(evs.take(i as int)),
                pages_downloaded == spec_pages_downloaded(evs.take(i as int)),
                pages_skipped == spec_pages_skipped(evs.take(i as int)),
                total_bytes == spec_total_bytes(evs.take(i as int)),
                sum_page_time_ms == spec_sum_page_ms(evs.take(i as int)),
                chapters_discovered <= i,
                chapters_skipped <= i,
                pages_downloaded <= i,
                pages_skipped <= i,
                chapter_discovery_ms <= (i as int) * (u64::MAX as int),
                total_bytes <= (i as int) * (usize::MAX as int),
                sum_page_time_ms <= (i as int) * (u64::MAX as int),
                min_page_time_ms == match spec_min_page_ms(evs.take(i as int)) {
                    Some(v) => v,
                    None => 0u64,
                },
                max_page_time_ms == match spec_max_page_ms(evs.take(i as int)) {
                    Some(v) => v,
                    None => 0u64,
                },
                pages_downloaded == 0 <==> spec_min_page_ms(evs.take(i as int)) is None,
                pages_downloaded == 0 <==> spec_max_page_ms(evs.take(i as int)) is None,
            decreases n - i,
        {
            proof {
                assert(evs.take(i + 1).drop_last() =~= evs.take(i as int));
                assert(evs.take(i + 1).last() == evs[i as int]);
                assert((i as int) * (u64::MAX as int) + (u64::MAX as int) == ((i + 1) as int) * (
                u64::MAX as int)) by (nonlinear_arith);
                assert((i as int) * (usize::MAX as int) + (usize::MAX as int) == ((i + 1) as int)
                    * (usize::MAX as int)) by (nonlinear_arith);
                assert(((i + 1) as int) * (u64::MAX as int) < u128::MAX) by (nonlinear_arith)
                    requires
                        0 <= i < u64::MAX,
                ;
                assert(((i + 1) as int) * (usize::MAX as int) < u128::MAX) by (nonlinear_arith)
                    requires
                        0 <= i < usize::MAX,
                ;
            }
            match &self.events[i] {
                BenchEvent::ScrapeComplete { ms } => {
                    scrape_time_ms = *ms;
                },
                BenchEvent::ChapterDiscovered { ms } => {
                    chapters_discovered = chapters_discovered + 1;
                    chapter_discovery_ms = chapter_discovery_ms + (*ms as u128);
                },
                BenchEvent::ChapterSkipped => {
                    chapters_skipped = chapters_skipped + 1;
                },
                BenchEvent::PageDownloaded { ms, bytes } => {
                    if pages_downloaded == 0 || *ms < min_page_time_ms {
                        min_page_time_ms = *ms;
                    }
                    if pages_downloaded == 0 || *ms > max_page_time_ms {
                        max_page_time_ms = *ms;
                    }
                    pages_downloaded = pages_downloaded + 1;
                    sum_page_time_ms = sum_page_time_ms + (*ms as u128);
                    total_bytes = total_bytes + (*bytes as u128);
                },
                BenchEvent::PageSkipped => {
                    pages_skipped = pages_skipped + 1;
                },
            }
            i = i + 1;
        }
        proof {
            assert(evs.take(n as int) =~= evs);
        }
        BenchReport {
            manga_name: manga_name.to_owned(),
            total_time_ms,
            scrape_time_ms,
            chapters_discovered,
            chapters_skipped,
            chapter_discovery_ms,
            pages_downloaded,
            pages_skipped,
            total_bytes,
            sum_page_time_ms,
            min_page_time_ms,
            max_page_time_ms,
        }
    }
}

} // verus!
