//! The shared crawl state: the pending work queue together with the seen
//! and visited sets, under one joint invariant.

use std::collections::VecDeque;
use vstd::prelude::*;

verus! {

broadcast use vstd::seq_lib::group_seq_properties;

/// The character views of a sequence of strings.
pub open spec fn views_of(s: Seq<String>) -> Seq<Seq<char>> {
    s.map_values(|x: String| x@)
}

/// Which end of the pending queue `try_take_next` removes from. The
/// randomized policy exists to spread concurrent workers over different
/// hosts; the choice affects traversal order only.
#[derive(Clone, Copy, Debug)]
pub enum PopPolicy {
    Front,
    Back,
    RandomEnd,
}

/// Relies on `rand::random`: a coin flip for the randomized pop policy.
/// Nothing is assumed of the outcome.
#[verifier::external_body]
fn coin_flip() -> bool {
    rand::random::<bool>()
}

/// One `offer` at the level of views: the address joins the pending queue
/// and the seen set unless it was already seen.
pub open spec fn spec_offer(
    pending: Seq<Seq<char>>,
    seen: Seq<Seq<char>>,
    addr: Seq<char>,
) -> (Seq<Seq<char>>, Seq<Seq<char>>) {
    if seen.contains(addr) {
        (pending, seen)
    } else {
        (pending.push(addr), seen.push(addr))
    }
}

/// `spec_offer` folded over a sequence of addresses, first to last.
pub open spec fn spec_offer_all(
    pending: Seq<Seq<char>>,
    seen: Seq<Seq<char>>,
    addrs: Seq<Seq<char>>,
) -> (Seq<Seq<char>>, Seq<Seq<char>>)
    decreases addrs.len(),
{
    if addrs.len() == 0 {
        (pending, seen)
    } else {
        let stepped = spec_offer(pending, seen, addrs[0]);
        spec_offer_all(stepped.0, stepped.1, addrs.drop_first())
    }
}

/// One `mark_visited` at the level of views: the address joins the
/// visited set (and the seen set) and leaves the pending queue.
pub open spec fn spec_mark_visited(
    pending: Seq<Seq<char>>,
    seen: Seq<Seq<char>>,
    visited: Seq<Seq<char>>,
    addr: Seq<char>,
) -> (Seq<Seq<char>>, Seq<Seq<char>>, Seq<Seq<char>>) {
    (
        pending.remove_value(addr),
        if seen.contains(addr) {
            seen
        } else {
            seen.push(addr)
        },
        if visited.contains(addr) {
            visited
        } else {
            visited.push(addr)
        },
    )
}

/// Marking is idempotent: repeating `spec_mark_visited` on the same
/// address changes nothing beyond the first application.
pub proof fn lemma_mark_visited_idempotent(
    pending: Seq<Seq<char>>,
    seen: Seq<Seq<char>>,
    visited: Seq<Seq<char>>,
    addr: Seq<char>,
)
    requires
        pending.no_duplicates(),
    ensures
        ({
            let once = spec_mark_visited(pending, seen, visited, addr);
            spec_mark_visited(once.0, once.1, once.2, addr) == once
        }),
{
    let once = spec_mark_visited(pending, seen, visited, addr);
    lemma_remove_value_all_gone(pending, addr);
    once.0.index_of_first_ensures(addr);
    assert(once.0.remove_value(addr) == once.0);
    assert(once.1.contains(addr)) by {
        if !seen.contains(addr) {
            assert(once.1 == seen.push(addr));
            assert(once.1[once.1.len() - 1] == addr);
        }
    }
    assert(once.2.contains(addr)) by {
        if !visited.contains(addr) {
            assert(once.2 == visited.push(addr));
            assert(once.2[once.2.len() - 1] == addr);
        }
    }
}

/// Removing a value from a duplicate-free sequence removes it entirely,
/// keeps every other element, and keeps the sequence duplicate-free.
proof fn lemma_remove_value_all_gone(s: Seq<Seq<char>>, a: Seq<char>)
    requires
        s.no_duplicates(),
    ensures
        !s.remove_value(a).contains(a),
        forall|x: Seq<char>| s.remove_value(a).contains(x) ==> s.contains(x),
        s.remove_value(a).no_duplicates(),
        !s.contains(a) ==> s.remove_value(a) == s,
{
    s.index_of_first_ensures(a);
    if s.contains(a) {
        let i = s.index_of_first(a).unwrap();
        s.remove_ensures(i);
        let r = s.remove(i);
        assert forall|j: int| 0 <= j < r.len() implies r[j] != a by {
            if j < i {
            } else {
                assert(r[j] == s[j + 1]);
                if s[j + 1] == a {
                    assert(s[i] == s[j + 1]);
                }
            }
        }
        assert forall|x: Seq<char>| r.contains(x) implies s.contains(x) by {
            let j = choose|j: int| 0 <= j < r.len() && r[j] == x;
            if j < i {
                assert(s[j] == x);
            } else {
                assert(s[j + 1] == x);
            }
        }
        assert forall|p: int, q: int| 0 <= p < q < r.len() implies r[p] != r[q] by {
            let sp: int = if p < i {
                p
            } else {
                p + 1
            };
            let sq: int = if q < i {
                q
            } else {
                q + 1
            };
            assert(r[p] == s[sp]);
            assert(r[q] == s[sq]);
        }
    }
}

/// The shared crawl state. `pending` is the queue of addresses waiting to
/// be fetched; `seen` holds every address ever enqueued, so an address is
/// enqueued at most once per run; `visited` holds the addresses actually
/// fetched. The configuration rides along so that every worker stops on
/// the same budget.
pub struct Frontier {
    pending: VecDeque<String>,
    seen: Vec<String>,
    visited: Vec<String>,
    max_links: usize,
    max_url_length: usize,
    policy: PopPolicy,
}

impl Frontier {
    /// The queue of addresses waiting to be fetched, front to back.
    pub closed spec fn pending_view(self) -> Seq<Seq<char>> {
        views_of(self.pending@)
    }

    /// Every address ever enqueued, in order of first discovery.
    pub closed spec fn seen_view(self) -> Seq<Seq<char>> {
        views_of(self.seen@)
    }

    /// Every address fetched so far, in order of first visit.
    pub closed spec fn visited_view(self) -> Seq<Seq<char>> {
        views_of(self.visited@)
    }

    /// The visit budget: the run stops once strictly more than this many
    /// addresses are visited.
    pub closed spec fn spec_max_links(self) -> usize {
        self.max_links
    }

    /// The length bound on addresses.
    pub closed spec fn spec_max_url_length(self) -> usize {
        self.max_url_length
    }

    /// The configured pop policy.
    pub closed spec fn spec_policy(self) -> PopPolicy {
        self.policy
    }

    /// The visit budget of the run.
    pub fn max_links(&self) -> (n: usize)
        ensures
            n == self.spec_max_links(),
    {
        self.max_links
    }

    /// The length bound on addresses.
    pub fn max_url_length(&self) -> (n: usize)
        ensures
            n == self.spec_max_url_length(),
    {
        self.max_url_length
    }

    /// The joint invariant: no address is queued or visited twice, only
    /// seen addresses are queued or visited, and no visited address sits
    /// in the queue.
    pub open spec fn wf(self) -> bool {
        &&& self.pending_view().no_duplicates()
        &&& self.visited_view().no_duplicates()
        &&& (forall|i: int|
            0 <= i < self.pending_view().len() ==> self.seen_view().contains(
                #[trigger] self.pending_view()[i],
            ))
        &&& (forall|i: int|
            0 <= i < self.visited_view().len() ==> self.seen_view().contains(
                #[trigger] self.visited_view()[i],
            ))
        &&& (forall|i: int|
            0 <= i < self.pending_view().len() ==> !self.visited_view().contains(
                #[trigger] self.pending_view()[i],
            ))
    }

    /// A frontier for a fresh run, holding the seed address as the one
    /// pending — and seen — entry.
    pub fn new(seed: String, max_links: usize, max_url_length: usize, policy: PopPolicy) -> (f:
        Frontier)
        ensures
            f.wf(),
            f.pending_view() == seq![seed@],
            f.seen_view() == seq![seed@],
            f.visited_view() == Seq::<Seq<char>>::empty(),
            f.spec_max_links() == max_links,
            f.spec_max_url_length() == max_url_length,
            f.spec_policy() == policy,
    {
        let mut pending: VecDeque<String> = VecDeque::new();
        let mut seen: Vec<String> = Vec::new();
        pending.push_back(seed.clone());
        seen.push(seed);
        let f = Frontier { pending, seen, visited: Vec::new(), max_links, max_url_length, policy };
        proof {
            assert(f.pending_view() =~= seq![seed@]);
            assert(f.seen_view() =~= seq![seed@]);
            assert(f.visited_view() =~= Seq::<Seq<char>>::empty());
            assert(f.seen_view().contains(seed@)) by {
                assert(f.seen_view()[0] == seed@);
            }
        }
        f
    }

    /// How many addresses have been visited.
    pub fn size_visited(&self) -> (n: usize)
        ensures
            n == self.visited_view().len(),
    {
        self.visited.len()
    }

    /// How many addresses wait in the queue.
    pub fn size_pending(&self) -> (n: usize)
        ensures
            n == self.pending_view().len(),
    {
        self.pending.len()
    }

    /// Whether the visit budget is exhausted: strictly more than
    /// `max_links` addresses visited.
    pub fn over_budget(&self) -> (r: bool)
        ensures
            r == (self.visited_view().len() > self.spec_max_links()),
    {
        self.visited.len() > self.max_links
    }

    /// The addresses visited so far, in order of first visit.
    pub fn visited_addresses(&self) -> (r: &Vec<String>)
        ensures
            views_of(r@) == self.visited_view(),
    {
        &self.visited
    }

    /// Appends `addr` to the pending queue unless it was already seen; in
    /// particular an address once visited is never re-enqueued. The
    /// visited set never changes here.
    pub fn offer(&mut self, addr: String)
        requires
            old(self).wf(),
        ensures
            final(self).wf(),
            (final(self).pending_view(), final(self).seen_view()) == spec_offer(
                old(self).pending_view(),
                old(self).seen_view(),
                addr@,
            ),
            final(self).visited_view() == old(self).visited_view(),
            final(self).spec_max_links() == old(self).spec_max_links(),
            final(self).spec_max_url_length() == old(self).spec_max_url_length(),
            final(self).spec_policy() == old(self).spec_policy(),
            old(self).seen_view().contains(addr@) ==> final(self).pending_view() == old(
                self,
            ).pending_view(),
            old(self).visited_view().contains(addr@) ==> final(self).pending_view() == old(
                self,
            ).pending_view(),
            old(self).pending_view().is_prefix_of(final(self).pending_view()),
    {
        let ghost p0 = self.pending_view();
        let ghost s0 = self.seen_view();
        if !vec_contains(&self.seen, &addr) {
            self.pending.push_back(addr.clone());
            self.seen.push(addr);
            proof {
                assert(self.pending_view() =~= p0.push(addr@));
                assert(self.seen_view() =~= s0.push(addr@));
                assert(final(self).wf()) by {
                    lemma_push_unseen_wf(*old(self), *self, addr@);
                }
                assert(p0.is_prefix_of(self.pending_view())) by {
                    assert(p0.push(addr@).take(p0.len() as int) =~= p0);
                }
            }
        }
    }

    /// Removes and returns one pending address from the end the policy
    /// picks; returns nothing when the queue is momentarily empty. The
    /// address handed out has never been visited.
    pub fn try_take_next(&mut self) -> (r: Option<String>)
        requires
            old(self).wf(),
        ensures
            final(self).wf(),
            final(self).seen_view() == old(self).seen_view(),
            final(self).visited_view() == old(self).visited_view(),
            final(self).spec_max_links() == old(self).spec_max_links(),
            final(self).spec_max_url_length() == old(self).spec_max_url_length(),
            final(self).spec_policy() == old(self).spec_policy(),
            (match r {
                None => old(self).pending_view().len() == 0 && final(self).pending_view() == old(
                    self,
                ).pending_view(),
                Some(a) => {
                    &&& old(self).pending_view().len() > 0
                    &&& !old(self).visited_view().contains(a@)
                    &&& old(self).seen_view().contains(a@)
                    &&& ((a@ == old(self).pending_view().first() && final(self).pending_view()
                        == old(self).pending_view().drop_first()) || (a@ == old(
                        self,
                    ).pending_view().last() && final(self).pending_view() == old(
                        self,
                    ).pending_view().drop_last()))
                    &&& (old(self).spec_policy() is Front ==> a@ == old(self).pending_view().first())
                    &&& (old(self).spec_policy() is Back ==> a@ == old(self).pending_view().last())
                },
            }),
    {
        let from_front = match self.policy {
            PopPolicy::Front => true,
            PopPolicy::Back => false,
            PopPolicy::RandomEnd => coin_flip(),
        };
        let ghost p0 = self.pending_view();
        let r = if from_front {
            self.pending.pop_front()
        } else {
            self.pending.pop_back()
        };
        proof {
            if r is Some {
                if from_front {
                    assert(self.pending_view() =~= p0.drop_first());
                } else {
                    assert(self.pending_view() =~= p0.drop_last());
                }
                assert(final(self).wf() && old(self).seen_view().contains(r.unwrap()@)
                    && !old(self).visited_view().contains(r.unwrap()@)) by {
                    lemma_sub_pending_wf(*old(self), *self, r.unwrap()@, from_front);
                }
            }
        }
        r
    }

    /// Records `addr` as visited: inserts it into the visited set — a
    /// no-op when it is already there — and, to keep the joint invariant,
    /// drops it from the pending queue if it still sits there.
    pub fn mark_visited(&mut self, addr: String)
        requires
            old(self).wf(),
        ensures
            final(self).wf(),
            ({
                let stepped = spec_mark_visited(
                    old(self).pending_view(),
                    old(self).seen_view(),
                    old(self).visited_view(),
                    addr@,
                );
                final(self).pending_view() == stepped.0 && final(self).seen_view() == stepped.1
                    && final(self).visited_view() == stepped.2
            }),
            old(self).visited_view().is_prefix_of(final(self).visited_view()),
            final(self).visited_view().contains(addr@),
            old(self).visited_view().contains(addr@) ==> final(self).visited_view() == old(
                self,
            ).visited_view(),
            !old(self).visited_view().contains(addr@) ==> final(self).visited_view().len() == old(
                self,
            ).visited_view().len() + 1,
            final(self).spec_max_links() == old(self).spec_max_links(),
            final(self).spec_max_url_length() == old(self).spec_max_url_length(),
            final(self).spec_policy() == old(self).spec_policy(),
    {
        let ghost p0 = self.pending_view();
        match deque_find(&self.pending, &addr) {
            Some(i) => {
                let _ = self.pending.remove(i);
                proof {
                    assert(self.pending_view() =~= p0.remove(i as int));
                    p0.index_of_first_ensures(addr@);
                    let k = p0.index_of_first(addr@).unwrap();
                    assert(p0[k] == addr@);
                    assert(k == i as int) by {
                        if k < i as int {
                            assert(p0[k] != addr@);
                        }
                        if (i as int) < k {
                            assert(p0[i as int] != addr@);
                        }
                    }
                    assert(self.pending_view() == p0.remove_value(addr@));
                }
            },
            None => {
                proof {
                    p0.index_of_first_ensures(addr@);
                    assert(p0.remove_value(addr@) == p0);
                }
            },
        }
        let in_visited = vec_contains(&self.visited, &addr);
        if !in_visited {
            let ghost s0 = self.seen_view();
            let ghost v0 = self.visited_view();
            if !vec_contains(&self.seen, &addr) {
                self.seen.push(addr.clone());
                proof {
                    assert(self.seen_view() =~= s0.push(addr@));
                }
            }
            self.visited.push(addr);
            proof {
                assert(self.visited_view() =~= v0.push(addr@));
                assert(self.visited_view()[v0.len() as int] == addr@);
                assert(v0.is_prefix_of(self.visited_view())) by {
                    assert(v0.push(addr@).take(v0.len() as int) =~= v0);
                }
            }
        }
        proof {
            lemma_mark_wf(*old(self), *self, addr@);
            if old(self).visited_view().contains(addr@) {
                assert(old(self).visited_view().is_prefix_of(final(self).visited_view())) by {
                    assert(final(self).visited_view().take(old(self).visited_view().len() as int)
                        =~= old(self).visited_view());
                }
            }
        }
    }
}

/// Whether `addr` occurs in `v`, by linear scan over exact string
/// equality.
fn vec_contains(v: &Vec<String>, addr: &String) -> (r: bool)
    ensures
        r == views_of(v@).contains(addr@),
{
    let mut i: usize = 0;
    while i < v.len()
        invariant
            i <= v@.len(),
            forall|j: int| 0 <= j < i ==> views_of(v@)[j] != addr@,
        decreases v@.len() - i,
    {
        if v[i] == *addr {
            proof {
                assert(views_of(v@)[i as int] == addr@);
            }
            return true;
        }
        i += 1;
    }
    proof {
        if views_of(v@).contains(addr@) {
            let j = choose|j: int| 0 <= j < views_of(v@).len() && views_of(v@)[j] == addr@;
            assert(views_of(v@)[j] != addr@);
        }
    }
    false
}

/// The position of the first occurrence of `addr` in the queue, if any.
fn deque_find(q: &VecDeque<String>, addr: &String) -> (r: Option<usize>)
    ensures
        (match r {
            Some(i) => i < q@.len() && views_of(q@)[i as int] == addr@ && (forall|j: int|
                0 <= j < i ==> views_of(q@)[j] != addr@),
            None => !views_of(q@).contains(addr@),
        }),
{
    let mut i: usize = 0;
    while i < q.len()
        invariant
            i <= q@.len(),
            forall|j: int| 0 <= j < i ==> views_of(q@)[j] != addr@,
        decreases q@.len() - i,
    {
        if q[i] == *addr {
            proof {
                assert(views_of(q@)[i as int] == addr@);
            }
            return Some(i);
        }
        i += 1;
    }
    proof {
        if views_of(q@).contains(addr@) {
            let j = choose|j: int| 0 <= j < views_of(q@).len() && views_of(q@)[j] == addr@;
            assert(views_of(q@)[j] != addr@);
        }
    }
    None
}

/// Pushing a never-seen address onto both the queue and the seen set
/// keeps the joint invariant.
proof fn lemma_push_unseen_wf(pre: Frontier, post: Frontier, addr: Seq<char>)
    requires
        pre.wf(),
        !pre.seen_view().contains(addr),
        post.pending_view() == pre.pending_view().push(addr),
        post.seen_view() == pre.seen_view().push(addr),
        post.visited_view() == pre.visited_view(),
    ensures
        post.wf(),
{
    let p1 = post.pending_view();
    assert forall|i: int, j: int| 0 <= i < j < p1.len() implies p1[i] != p1[j] by {
        if j == p1.len() - 1 {
            assert(p1[i] == pre.pending_view()[i]);
            if pre.pending_view()[i] == addr {
                assert(pre.seen_view().contains(pre.pending_view()[i]));
            }
        }
    }
    assert forall|i: int| 0 <= i < p1.len() implies post.seen_view().contains(#[trigger] p1[i]) by {
        if i < p1.len() - 1 {
            assert(pre.seen_view().contains(pre.pending_view()[i]));
        } else {
            assert(post.seen_view()[post.seen_view().len() - 1] == addr);
        }
    }
    assert forall|i: int| 0 <= i < post.visited_view().len() implies post.seen_view().contains(
        #[trigger] post.visited_view()[i],
    ) by {
        assert(pre.seen_view().contains(pre.visited_view()[i]));
    }
    assert forall|i: int| 0 <= i < p1.len() implies !post.visited_view().contains(
        #[trigger] p1[i],
    ) by {
        if i < p1.len() - 1 {
            assert(!pre.visited_view().contains(pre.pending_view()[i]));
        } else {
            if post.visited_view().contains(addr) {
                let j = choose|j: int|
                    0 <= j < pre.visited_view().len() && pre.visited_view()[j] == addr;
                assert(pre.seen_view().contains(pre.visited_view()[j]));
            }
        }
    }
}

/// Dropping one end of the queue keeps the joint invariant, and the
/// dropped address was seen but never visited.
proof fn lemma_sub_pending_wf(pre: Frontier, post: Frontier, addr: Seq<char>, from_front: bool)
    requires
        pre.wf(),
        pre.pending_view().len() > 0,
        from_front ==> addr == pre.pending_view().first() && post.pending_view()
            == pre.pending_view().drop_first(),
        !from_front ==> addr == pre.pending_view().last() && post.pending_view()
            == pre.pending_view().drop_last(),
        post.seen_view() == pre.seen_view(),
        post.visited_view() == pre.visited_view(),
    ensures
        post.wf(),
        pre.seen_view().contains(addr),
        !pre.visited_view().contains(addr),
{
    let p0 = pre.pending_view();
    let p1 = post.pending_view();
    let off: int = if from_front {
        1
    } else {
        0
    };
    assert(forall|j: int| 0 <= j < p1.len() ==> p1[j] == p0[j + off]);
    assert forall|i: int, j: int| 0 <= i < j < p1.len() implies p1[i] != p1[j] by {
        assert(p0[i + off] != p0[j + off]);
    }
    assert forall|i: int| 0 <= i < p1.len() implies post.seen_view().contains(#[trigger] p1[i]) by {
        assert(pre.seen_view().contains(p0[i + off]));
    }
    assert forall|i: int| 0 <= i < p1.len() implies !post.visited_view().contains(
        #[trigger] p1[i],
    ) by {
        assert(!pre.visited_view().contains(p0[i + off]));
    }
    if from_front {
        assert(pre.seen_view().contains(p0[0]));
        assert(!pre.visited_view().contains(p0[0]));
    } else {
        assert(pre.seen_view().contains(p0[p0.len() - 1]));
        assert(!pre.visited_view().contains(p0[p0.len() - 1]));
    }
}

/// `spec_mark_visited` keeps the joint invariant.
proof fn lemma_mark_wf(pre: Frontier, post: Frontier, addr: Seq<char>)
    requires
        pre.wf(),
        post.pending_view() == spec_mark_visited(
            pre.pending_view(),
            pre.seen_view(),
            pre.visited_view(),
            addr,
        ).0,
        post.seen_view() == spec_mark_visited(
            pre.pending_view(),
            pre.seen_view(),
            pre.visited_view(),
            addr,
        ).1,
        post.visited_view() == spec_mark_visited(
            pre.pending_view(),
            pre.seen_view(),
            pre.visited_view(),
            addr,
        ).2,
    ensures
        post.wf(),
{
    let p0 = pre.pending_view();
    let s0 = pre.seen_view();
    let v0 = pre.visited_view();
    let p1 = post.pending_view();
    let s1 = post.seen_view();
    let v1 = post.visited_view();
    lemma_remove_value_all_gone(p0, addr);
    if !s0.contains(addr) {
        assert(s1 == s0.push(addr));
        assert(s1[s1.len() - 1] == addr);
    } else {
        assert(s1 == s0);
    }
    assert(s1.contains(addr));
    assert forall|x: Seq<char>| s0.contains(x) implies s1.contains(x) by {
        if !s0.contains(addr) {
            let j = choose|j: int| 0 <= j < s0.len() && s0[j] == x;
            assert(s1[j] == x);
        }
    }
    if !v0.contains(addr) {
        assert(v1 == v0.push(addr));
        assert forall|i: int, j: int| 0 <= i < j < v1.len() implies v1[i] != v1[j] by {
            if j == v1.len() - 1 {
                if v0[i] == addr {
                    assert(v0.contains(v0[i]));
                }
            }
        }
        assert(v1[v1.len() - 1] == addr);
    } else {
        assert(v1 == v0);
    }
    assert(v1.contains(addr));
    assert forall|i: int| 0 <= i < p1.len() implies s1.contains(#[trigger] p1[i]) by {
        assert(p0.contains(p1[i]));
        let j = choose|j: int| 0 <= j < p0.len() && p0[j] == p1[i];
        assert(s0.contains(p0[j]));
    }
    assert forall|i: int| 0 <= i < v1.len() implies s1.contains(#[trigger] v1[i]) by {
        if i < v0.len() {
            assert(s0.contains(v0[i]));
        } else {
            assert(v1[i] == addr);
        }
    }
    assert forall|i: int| 0 <= i < p1.len() implies !v1.contains(#[trigger] p1[i]) by {
        assert(p0.contains(p1[i]));
        let j = choose|j: int| 0 <= j < p0.len() && p0[j] == p1[i];
        assert(!v0.contains(p0[j]));
        assert(p1[i] != addr);
        if v1.contains(p1[i]) {
            let k = choose|k: int| 0 <= k < v1.len() && v1[k] == p1[i];
            if k < v0.len() {
                assert(v0.contains(v0[k]));
            } else {
                assert(v1[k] == addr);
            }
        }
    }
}

} // verus!
