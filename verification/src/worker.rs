//! The per-worker step logic: polling the frontier, turning a fetched
//! page's markup into discovered addresses, and feeding them back in.

use crate::frontier::{spec_mark_visited, spec_offer_all, views_of, Frontier};
use crate::resolver::{resolve, resolve_ok};
use vstd::prelude::*;

verus! {

broadcast use vstd::seq_lib::group_seq_properties;

/// What the markup extractor finds in a page: the raw href value of each
/// anchor element, in document order, a function of the markup alone.
pub uninterp spec fn anchor_hrefs(html: Seq<char>) -> Seq<Seq<char>>;

/// Relies on `scraper::Html::parse_document` and `scraper::Selector`: the
/// href attribute value of every anchor element in the document, in
/// order.
#[verifier::external_body]
fn extract_anchors(html: &String) -> (r: Vec<String>)
    ensures
        views_of(r@) == anchor_hrefs(html@),
{
    let document = scraper::Html::parse_document(html.as_str());
    match scraper::Selector::parse("a") {
        Ok(anchors) => document.select(&anchors).filter_map(
            |element| element.value().attr("href"),
        ).map(|href| href.to_string()).collect(),
        Err(_) => Vec::new(),
    }
}

/// The addresses the raw links resolve to against `base`, in order,
/// links that fail resolution silently dropped.
pub open spec fn resolved_seq(links: Seq<Seq<char>>, base: Seq<char>, max: nat) -> Seq<Seq<char>>
    decreases links.len(),
{
    if links.len() == 0 {
        Seq::empty()
    } else {
        resolved_seq(links.drop_last(), base, max) + (match resolve_ok(links.last(), base, max) {
            Some(c) => seq![c],
            None => Seq::<Seq<char>>::empty(),
        })
    }
}

/// Resolves every raw link against `base`, keeping the addresses that
/// resolve under the length bound, in order.
pub fn resolve_links(links: &Vec<String>, base: &String, max_url_length: usize) -> (r: Vec<String>)
    ensures
        views_of(r@) == resolved_seq(views_of(links@), base@, max_url_length as nat),
{
    let mut out: Vec<String> = Vec::new();
    let mut i: usize = 0;
    while i < links.len()
        invariant
            i <= links@.len(),
            views_of(out@) == resolved_seq(
                views_of(links@).take(i as int),
                base@,
                max_url_length as nat,
            ),
        decreases links@.len() - i,
    {
        let ghost pre = views_of(out@);
        match resolve(&links[i], base, max_url_length) {
            Ok(a) => {
                let ghost av = a@;
                out.push(a);
                proof {
                    assert(views_of(out@) =~= pre.push(av));
                }
            },
            Err(_) => {},
        }
        proof {
            let taken = views_of(links@).take(i as int + 1);
            assert(taken.drop_last() =~= views_of(links@).take(i as int));
            assert(taken.last() == views_of(links@)[i as int]);
            assert(views_of(out@) =~= resolved_seq(taken, base@, max_url_length as nat));
        }
        i += 1;
    }
    proof {
        assert(views_of(links@).take(links@.len() as int) =~= views_of(links@));
    }
    out
}

/// Fetched markup to discovered addresses: extracts every anchor's raw
/// href and resolves it against the page's own address.
pub fn page_links(addr: &String, html: &String, max_url_length: usize) -> (r: Vec<String>)
    ensures
        views_of(r@) == resolved_seq(anchor_hrefs(html@), addr@, max_url_length as nat),
{
    let anchors = extract_anchors(html);
    resolve_links(&anchors, addr, max_url_length)
}

/// What one poll of the frontier tells a worker to do next.
#[derive(Debug)]
pub enum PollOutcome {
    /// The visit budget is exhausted: the worker exits.
    Done,
    /// The queue is momentarily empty: back off briefly, then poll again.
    Idle,
    /// Fetch this address.
    Fetch(String),
}

/// One polling step of the worker loop. `Done` exactly when the budget is
/// exhausted — in particular a worker never exits on a momentarily empty
/// queue — and any address handed out for fetching has never been
/// visited.
pub fn poll_step(f: &mut Frontier) -> (r: PollOutcome)
    requires
        old(f).wf(),
    ensures
        final(f).wf(),
        final(f).seen_view() == old(f).seen_view(),
        final(f).visited_view() == old(f).visited_view(),
        final(f).spec_max_links() == old(f).spec_max_links(),
        final(f).spec_max_url_length() == old(f).spec_max_url_length(),
        final(f).spec_policy() == old(f).spec_policy(),
        (r is Done <==> old(f).visited_view().len() > old(f).spec_max_links()),
        (r is Done ==> final(f).pending_view() == old(f).pending_view()),
        (r is Idle ==> final(f).pending_view() == old(f).pending_view() && old(f).pending_view().len() == 0),
        (r matches PollOutcome::Fetch(a) ==> {
            &&& old(f).pending_view().len() > 0
            &&& old(f).visited_view().len() <= old(f).spec_max_links()
            &&& !old(f).visited_view().contains(a@)
            &&& old(f).seen_view().contains(a@)
            &&& ((a@ == old(f).pending_view().first() && final(f).pending_view() == old(f).pending_view().drop_first()) || (a@ == old(f).pending_view().last() && final(f).pending_view() == old(f).pending_view().drop_last()))
        }),
{
    if f.over_budget() {
        PollOutcome::Done
    } else {
        match f.try_take_next() {
            Some(a) => PollOutcome::Fetch(a),
            None => PollOutcome::Idle,
        }
    }
}

/// One updating step of the worker loop: offers every discovered address
/// to the frontier — addresses already seen are dropped, so a visited
/// address is never re-enqueued — then marks the fetched address visited.
pub fn update_step(f: &mut Frontier, addr: String, links: &Vec<String>)
    requires
        old(f).wf(),
    ensures
        final(f).wf(),
        ({
            let offered = spec_offer_all(
                old(f).pending_view(),
                old(f).seen_view(),
                views_of(links@),
            );
            let stepped = spec_mark_visited(offered.0, offered.1, old(f).visited_view(), addr@);
            final(f).pending_view() == stepped.0 && final(f).seen_view() == stepped.1 && final(f).visited_view() == stepped.2
        }),
        old(f).visited_view().is_prefix_of(final(f).visited_view()),
        final(f).visited_view().contains(addr@),
        !old(f).visited_view().contains(addr@) ==> final(f).visited_view().len() == old(f).visited_view().len() + 1,
        old(f).visited_view().contains(addr@) ==> final(f).visited_view() == old(f).visited_view(),
        final(f).spec_max_links() == old(f).spec_max_links(),
        final(f).spec_max_url_length() == old(f).spec_max_url_length(),
        final(f).spec_policy() == old(f).spec_policy(),
{
    let mut i: usize = 0;
    while i < links.len()
        invariant
            f.wf(),
            i <= links@.len(),
            spec_offer_all(f.pending_view(), f.seen_view(), views_of(links@).skip(i as int))
                == spec_offer_all(old(f).pending_view(), old(f).seen_view(), views_of(links@)),
            f.visited_view() == old(f).visited_view(),
            f.spec_max_links() == old(f).spec_max_links(),
            f.spec_max_url_length() == old(f).spec_max_url_length(),
            f.spec_policy() == old(f).spec_policy(),
        decreases links@.len() - i,
    {
        let ghost pre_p = f.pending_view();
        let ghost pre_s = f.seen_view();
        let ghost rem = views_of(links@).skip(i as int);
        f.offer(links[i].clone());
        proof {
            assert(rem[0] == views_of(links@)[i as int]);
            assert(rem.drop_first() =~= views_of(links@).skip(i as int + 1));
            assert(spec_offer_all(pre_p, pre_s, rem) == spec_offer_all(
                f.pending_view(),
                f.seen_view(),
                rem.drop_first(),
            ));
        }
        i += 1;
    }
    proof {
        let emptied = views_of(links@).skip(links@.len() as int);
        assert(emptied =~= Seq::<Seq<char>>::empty());
        assert(spec_offer_all(f.pending_view(), f.seen_view(), emptied) == (
            f.pending_view(),
            f.seen_view(),
        ));
    }
    f.mark_visited(addr);
}

/// The termination measure of a worker: a fetched address was never
/// visited before, so every completed fetch raises the visited count by
/// one; while the count is within the budget the remaining budget
/// strictly shrinks, and once past it `poll_step` answers `Done`. A
/// worker therefore completes only finitely many fetches after any point
/// of a run.
pub proof fn lemma_fetch_shrinks_budget(
    visited_before: nat,
    visited_after: nat,
    max_links: nat,
)
    requires
        visited_after == visited_before + 1,
    ensures
        visited_before <= max_links ==> max_links + 1 - visited_after < max_links + 1
            - visited_before,
        visited_before > max_links ==> visited_after > max_links,
{
}

} // verus!
