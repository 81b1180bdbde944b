use crawler::frontier::{Frontier, PopPolicy};
use crawler::resolver::{normalize_seed, resolve, ResolutionError};
use crawler::worker::{page_links, poll_step, update_step, PollOutcome};

fn s(x: &str) -> String {
    x.to_string()
}

/// Drives one worker over a fake site: `pages` maps an address to its
/// markup, or to `None` for a failing fetch. Returns the visited
/// addresses, the number of polls made, and whether the run reached Done.
fn run_single_worker<F: Fn(&str) -> Option<String>>(
    seed: &str,
    max_links: usize,
    max_url_length: usize,
    pages: F,
    max_iters: usize,
) -> (Vec<String>, usize, bool) {
    let mut f = Frontier::new(s(seed), max_links, max_url_length, PopPolicy::Front);
    let mut iters = 0;
    let mut done = false;
    while iters < max_iters {
        iters += 1;
        match poll_step(&mut f) {
            PollOutcome::Done => {
                done = true;
                break;
            }
            PollOutcome::Idle => {
                break; // the fake site is exhausted; a real worker would back off
            }
            PollOutcome::Fetch(addr) => {
                let links = match pages(&addr) {
                    Some(html) => page_links(&addr, &html, max_url_length),
                    None => Vec::new(), // failed fetch: zero links
                };
                update_step(&mut f, addr, &links);
            }
        }
    }
    (f.visited_addresses().clone(), iters, done)
}

#[test]
fn resolve_absolute_unchanged() {
    let r = resolve(&s("https://x.com/a"), &s("https://other.example/"), 100).unwrap();
    assert_eq!(r, "https://x.com/a");
}

#[test]
fn resolve_absolute_normalized() {
    let r = resolve(&s("https://x.com"), &s("https://other.example/"), 100).unwrap();
    assert_eq!(r, "https://x.com/");
}

#[test]
fn resolve_joins_rooted_path() {
    let r = resolve(&s("/a/b"), &s("https://x.com/c/"), 100).unwrap();
    assert_eq!(r, "https://x.com/a/b");
}

#[test]
fn resolve_joins_parent_reference() {
    let r = resolve(&s("../d"), &s("https://x.com/c/e/"), 100).unwrap();
    assert_eq!(r, "https://x.com/c/d");
}

#[test]
fn resolve_rejects_long_absolute() {
    let r = resolve(&s("https://x.com/aaaaaaaaaaaaaaaaaa"), &s("https://x.com/"), 10);
    assert!(matches!(r, Err(ResolutionError::TooLong)));
}

#[test]
fn resolve_rejects_long_joined() {
    let r = resolve(&s("/abcdefghij"), &s("https://x.com/"), 12);
    assert!(matches!(r, Err(ResolutionError::TooLong)));
}

#[test]
fn resolve_rejects_malformed() {
    let r = resolve(&s("https://"), &s("https://x.com/"), 100);
    assert!(matches!(r, Err(ResolutionError::Malformed)));
}

#[test]
fn seed_normalizes() {
    assert_eq!(normalize_seed(&s("https://a.test"), 100).unwrap(), "https://a.test/");
}

#[test]
fn seed_rejects_relative() {
    let r = normalize_seed(&s("/just/a/path"), 100);
    assert!(matches!(r, Err(ResolutionError::Malformed)));
}

#[test]
fn seed_rejects_long() {
    let r = normalize_seed(&s("https://a.test/abcdef"), 10);
    assert!(matches!(r, Err(ResolutionError::TooLong)));
}

#[test]
fn frontier_counts_and_dedup() {
    let mut f = Frontier::new(s("https://a.test/"), 10, 100, PopPolicy::Front);
    assert_eq!(f.size_pending(), 1);
    assert_eq!(f.size_visited(), 0);
    f.offer(s("https://a.test/")); // already seen: dropped
    assert_eq!(f.size_pending(), 1);
    f.offer(s("https://a.test/p1"));
    f.offer(s("https://a.test/p1")); // duplicate discovery: dropped
    assert_eq!(f.size_pending(), 2);
}

#[test]
fn mark_visited_idempotent() {
    let mut f = Frontier::new(s("https://a.test/"), 10, 100, PopPolicy::Front);
    let a = f.try_take_next().unwrap();
    assert_eq!(a, "https://a.test/");
    f.mark_visited(a.clone());
    assert_eq!(f.size_visited(), 1);
    f.mark_visited(a.clone());
    assert_eq!(f.size_visited(), 1);
    // a visited address is never re-enqueued
    f.offer(a);
    assert_eq!(f.size_pending(), 0);
}

#[test]
fn visited_grows_monotonically() {
    let mut f = Frontier::new(s("https://a.test/"), 10, 100, PopPolicy::Front);
    let mut last = f.size_visited();
    let a = f.try_take_next().unwrap();
    assert!(f.size_visited() >= last);
    last = f.size_visited();
    f.offer(s("https://a.test/p1"));
    assert!(f.size_visited() >= last);
    last = f.size_visited();
    f.mark_visited(a);
    assert!(f.size_visited() >= last);
    last = f.size_visited();
    f.mark_visited(s("https://a.test/p1"));
    assert!(f.size_visited() >= last);
    assert_eq!(f.size_visited(), 2);
}

#[test]
fn pop_policy_back_takes_newest() {
    let mut f = Frontier::new(s("https://a.test/"), 10, 100, PopPolicy::Back);
    f.offer(s("https://a.test/p1"));
    assert_eq!(f.try_take_next().unwrap(), "https://a.test/p1");
    assert_eq!(f.try_take_next().unwrap(), "https://a.test/");
    assert!(f.try_take_next().is_none());
}

#[test]
fn pop_policy_random_takes_an_end() {
    let mut f = Frontier::new(s("https://a.test/"), 10, 100, PopPolicy::RandomEnd);
    f.offer(s("https://a.test/p1"));
    let got = f.try_take_next().unwrap();
    assert!(got == "https://a.test/" || got == "https://a.test/p1");
    assert_eq!(f.size_pending(), 1);
}

#[test]
fn page_links_resolves_anchors() {
    let html = s(
        "<html><body><a href=\"/p1\">one</a><a href=\"https://b.test/x\">two</a><a>none</a></body></html>",
    );
    let links = page_links(&s("https://a.test/"), &html, 100);
    assert_eq!(links, vec![s("https://a.test/p1"), s("https://b.test/x")]);
}

#[test]
fn page_links_drops_overlong() {
    let html = s("<a href=\"/a-very-long-path-that-wont-fit\">x</a><a href=\"/p\">y</a>");
    let links = page_links(&s("https://a.test/"), &html, 17);
    assert_eq!(links, vec![s("https://a.test/p")]);
}

#[test]
fn fetch_failure_contributes_nothing() {
    let mut f = Frontier::new(s("https://a.test/"), 10, 100, PopPolicy::Front);
    let addr = f.try_take_next().unwrap();
    let links: Vec<String> = Vec::new(); // transport error or non-200: zero links
    update_step(&mut f, addr, &links);
    assert_eq!(f.size_pending(), 0);
    assert_eq!(f.size_visited(), 1);
}

#[test]
fn failed_page_does_not_abort_run() {
    let pages = |addr: &str| -> Option<String> {
        if addr == "https://a.test/" {
            Some(s("<a href=\"/bad\">b</a><a href=\"/good\">g</a>"))
        } else if addr == "https://a.test/bad" {
            None
        } else {
            Some(s(""))
        }
    };
    let (visited, _iters, done) = run_single_worker("https://a.test/", 2, 100, pages, 50);
    assert!(visited.contains(&s("https://a.test/bad")));
    assert!(visited.contains(&s("https://a.test/good")));
    assert_eq!(visited.len(), 3);
    assert!(done);
}

#[test]
fn end_to_end_two_pages() {
    let pages = |addr: &str| -> Option<String> {
        if addr == "https://a.test/" {
            Some(s("<a href=\"/p1\">p1</a>"))
        } else if addr == "https://a.test/p1" {
            Some(s("<a href=\"https://a.test/\">back</a><a href=\"/p2\">p2</a>"))
        } else {
            Some(s(""))
        }
    };
    let (visited, _iters, done) = run_single_worker("https://a.test/", 2, 100, pages, 50);
    assert!(done);
    assert!(visited.len() >= 2);
    assert!(visited.len() <= 3);
    assert!(visited.contains(&s("https://a.test/")));
    assert!(visited.contains(&s("https://a.test/p1")));
    // the seed is never visited twice
    assert_eq!(visited.iter().filter(|v| *v == "https://a.test/").count(), 1);
}

#[test]
fn terminates_once_budget_exceeded() {
    // every page links to one fresh page, so only the budget can stop the run
    let pages = |addr: &str| -> Option<String> {
        let n: usize = addr.rsplit('/').next().unwrap_or("0").parse().unwrap_or(0);
        Some(format!("<a href=\"/{}\">next</a>", n + 1))
    };
    let (visited, iters, done) = run_single_worker("https://a.test/0", 5, 100, pages, 100);
    assert!(done);
    assert_eq!(visited.len(), 6); // the budget of 5 is exceeded at the sixth visit
    assert!(iters <= 8);
}
