//! The fetch cache: which pages have been fetched, with the links found on
//! them, and which fetches are under way.
//!
//! The cache performs no retrieval itself. A caller claims an identifier,
//! learns whether to use the cached links, to wait for a fetch that is under
//! way, or to fetch; whoever fetched reports the outcome with `complete`.
//! Claiming and completing are single steps, so a caller that shares the
//! cache behind a lock gets at most one fetch in flight per identifier.

use vstd::prelude::*;
use crate::text::{copy_texts, texts};

verus! {

/// Why the links of a page could not be had.
#[derive(Clone, Copy, Debug, PartialEq, Eq, Structural)]
pub enum CrawlError {
    /// The retrieval failed: network, protocol or decoding.
    Fetch,
    /// The page was retrieved but no links could be read from it.
    Parse,
}

/// What a claim tells its caller to do.
#[derive(Debug, PartialEq, Eq)]
pub enum Claim {
    /// The page is cached; these are its links.
    Cached(Vec<String>),
    /// Another caller is fetching the page: wait for it, then claim again.
    Join,
    /// Nobody has the page: fetch it, then report with `complete`.
    Fetch,
}

/// The mathematical model of a `Claim`.
pub enum ClaimModel {
    Cached(Seq<Seq<char>>),
    Join,
    Fetch,
}

impl View for Claim {
    type V = ClaimModel;

    open spec fn view(&self) -> ClaimModel {
        match self {
            Claim::Cached(links) => ClaimModel::Cached(texts(links@)),
            Claim::Join => ClaimModel::Join,
            Claim::Fetch => ClaimModel::Fetch,
        }
    }
}

/// The outcome of a fetch, read as texts.
pub open spec fn outcome_texts(outcome: Result<Vec<String>, CrawlError>) -> Result<
    Seq<Seq<char>>,
    CrawlError,
> {
    match outcome {
        Ok(links) => Ok(texts(links@)),
        Err(e) => Err(e),
    }
}

/// A step that a caller takes on the cache.
pub enum CacheOp {
    /// A claim of this identifier.
    Claim(Seq<char>),
    /// The report that the fetch of this identifier ended with this outcome.
    Complete(Seq<char>, Result<Seq<Seq<char>>, CrawlError>),
}

/// The mathematical model of a `CrawlerCache`: the links of each cached
/// page, and the identifiers whose fetch is under way.
pub struct CacheModel {
    pub pages: Map<Seq<char>, Seq<Seq<char>>>,
    pub pending: Set<Seq<char>>,
}

impl CacheModel {
    /// The cache after a claim of `link`, and what the claimant is told.
    pub open spec fn claim(self, link: Seq<char>) -> (CacheModel, ClaimModel) {
        if self.pages.dom().contains(link) {
            (self, ClaimModel::Cached(self.pages[link]))
        } else if self.pending.contains(link) {
            (self, ClaimModel::Join)
        } else {
            (
                CacheModel { pages: self.pages, pending: self.pending.insert(link) },
                ClaimModel::Fetch,
            )
        }
    }

    /// The cache after the fetch of `link` ended with `outcome`, and what
    /// every caller that waited for it receives. A success is cached unless
    /// the page is cached already: an entry, once made, never changes.
    pub open spec fn complete(
        self,
        link: Seq<char>,
        outcome: Result<Seq<Seq<char>>, CrawlError>,
    ) -> (CacheModel, Result<Seq<Seq<char>>, CrawlError>) {
        if self.pages.dom().contains(link) {
            (
                CacheModel { pages: self.pages, pending: self.pending.remove(link) },
                Ok(self.pages[link]),
            )
        } else {
            match outcome {
                Ok(links) => (
                    CacheModel {
                        pages: self.pages.insert(link, links),
                        pending: self.pending.remove(link),
                    },
                    Ok(links),
                ),
                Err(e) => (
                    CacheModel { pages: self.pages, pending: self.pending.remove(link) },
                    Err(e),
                ),
            }
        }
    }

    /// The cache after the step `op`.
    pub open spec fn apply(self, op: CacheOp) -> CacheModel {
        match op {
            CacheOp::Claim(link) => self.claim(link).0,
            CacheOp::Complete(link, outcome) => self.complete(link, outcome).0,
        }
    }

    /// The cache after the steps `ops`, taken in order.
    pub open spec fn apply_all(self, ops: Seq<CacheOp>) -> CacheModel
        decreases ops.len(),
    {
        if ops.len() == 0 {
            self
        } else {
            self.apply_all(ops.drop_last()).apply(ops.last())
        }
    }

    /// How many of the claims of `link` among the steps `ops` are told to
    /// fetch.
    pub open spec fn fetches_of(self, link: Seq<char>, ops: Seq<CacheOp>) -> nat
        decreases ops.len(),
    {
        if ops.len() == 0 {
            0
        } else {
            let before = self.apply_all(ops.drop_last());
            self.fetches_of(link, ops.drop_last()) + if ops.last() == CacheOp::Claim(link)
                && before.claim(link).1 is Fetch {
                1nat
            } else {
                0nat
            }
        }
    }
}

/// Some step of `ops` claims `link`.
pub open spec fn claims(ops: Seq<CacheOp>, link: Seq<char>) -> bool {
    exists|i: int| 0 <= i < ops.len() && #[trigger] ops[i] == CacheOp::Claim(link)
}

/// Some step of `ops` completes a fetch of `link`.
pub open spec fn completes(ops: Seq<CacheOp>, link: Seq<char>) -> bool {
    exists|i: int|
        0 <= i < ops.len() && (#[trigger] ops[i]) is Complete && ops[i]->Complete_0 == link
}

/// However the callers' steps interleave, an identifier is fetched at most
/// once at a time. Take an identifier that is neither cached nor being
/// fetched, and any steps among which no fetch of it completes: if some of
/// them claim it, exactly one claim is told to fetch, and from then on its
/// fetch is under way; every other claim of it is told to wait.
pub proof fn lemma_one_fetch_per_identifier(m: CacheModel, link: Seq<char>, ops: Seq<CacheOp>)
    requires
        !m.pages.dom().contains(link),
        !m.pending.contains(link),
        !completes(ops, link),
    ensures
        m.fetches_of(link, ops) == if claims(ops, link) {
            1nat
        } else {
            0nat
        },
        m.apply_all(ops).pending.contains(link) == claims(ops, link),
        !m.apply_all(ops).pages.dom().contains(link),
    decreases ops.len(),
{
    if ops.len() > 0 {
        let front = ops.drop_last();
        assert forall|i: int| 0 <= i < front.len() implies !((#[trigger] front[i]) is Complete
            && front[i]->Complete_0 == link) by {
            assert(front[i] == ops[i]);
        }
        lemma_one_fetch_per_identifier(m, link, front);
        let last = ops[ops.len() - 1];
        assert(!(last is Complete && last->Complete_0 == link));
        if claims(front, link) {
            let i = choose|i: int| 0 <= i < front.len() && #[trigger] front[i] == CacheOp::Claim(link);
            assert(ops[i] == CacheOp::Claim(link));
        }
        if claims(ops, link) && last != CacheOp::Claim(link) {
            let i = choose|i: int| 0 <= i < ops.len() && #[trigger] ops[i] == CacheOp::Claim(link);
            assert(front[i] == CacheOp::Claim(link));
        }
    }
}

/// When the one fetch of an identifier completes, the callers that waited
/// all receive its outcome. After a success every claim of the identifier
/// hands out the links that were fetched; after a failure the identifier is
/// neither cached nor pending, so the next claim is told to fetch again.
pub proof fn lemma_waiters_share_outcome(
    m: CacheModel,
    link: Seq<char>,
    outcome: Result<Seq<Seq<char>>, CrawlError>,
)
    requires
        !m.pages.dom().contains(link),
    ensures
        m.complete(link, outcome).1 == outcome,
        outcome is Ok ==> m.complete(link, outcome).0.claim(link).1 == ClaimModel::Cached(
            outcome->Ok_0,
        ),
        outcome is Err ==> m.complete(link, outcome).0.pages == m.pages && m.complete(
            link,
            outcome,
        ).0.claim(link).1 is Fetch,
{
}

/// A cached entry is there to stay. Whatever steps the callers take, the
/// identifier stays cached with the same links, every claim of it hands out
/// those links, and none is told to fetch.
pub proof fn lemma_cached_entry_is_stable(m: CacheModel, link: Seq<char>, ops: Seq<CacheOp>)
    requires
        m.pages.dom().contains(link),
    ensures
        m.apply_all(ops).pages.dom().contains(link),
        m.apply_all(ops).pages[link] == m.pages[link],
        m.apply_all(ops).claim(link) == (
            m.apply_all(ops),
            ClaimModel::Cached(m.pages[link]),
        ),
        m.fetches_of(link, ops) == 0,
    decreases ops.len(),
{
    if ops.len() > 0 {
        lemma_cached_entry_is_stable(m, link, ops.drop_last());
    }
}

/// A cached entry never changes: claims and completions only add to the
/// cached pages, and what was cached before is cached after, with the same
/// links.
pub proof fn lemma_pages_only_grow(
    m: CacheModel,
    link: Seq<char>,
    outcome: Result<Seq<Seq<char>>, CrawlError>,
)
    ensures
        m.pages.submap_of(m.claim(link).0.pages),
        m.pages.submap_of(m.complete(link, outcome).0.pages),
{
}

/// A cached page.
struct Page {
    link: String,
    links: Vec<String>,
}

/// The map that a list of cached pages stands for; a later page would
/// replace an earlier one with the same identifier.
spec fn pages_of(pages: Seq<Page>) -> Map<Seq<char>, Seq<Seq<char>>>
    decreases pages.len(),
{
    if pages.len() == 0 {
        Map::empty()
    } else {
        pages_of(pages.drop_last()).insert(pages.last().link@, texts(pages.last().links@))
    }
}

/// The last page for `link` decides what the map holds for it.
proof fn lemma_pages_of_last_match(pages: Seq<Page>, at: int, link: Seq<char>)
    requires
        0 <= at < pages.len(),
        pages[at].link@ == link,
        forall|j: int| at < j < pages.len() ==> (#[trigger] pages[j]).link@ != link,
    ensures
        pages_of(pages).dom().contains(link),
        pages_of(pages)[link] == texts(pages[at].links@),
    decreases pages.len(),
{
    if at < pages.len() - 1 {
        let front = pages.drop_last();
        assert(front[at] == pages[at]);
        assert forall|j: int| at < j < front.len() implies (#[trigger] front[j]).link@ != link by {
            assert(front[j] == pages[j]);
        }
        assert(pages.last().link@ != link);
        lemma_pages_of_last_match(front, at, link);
    }
}

/// An identifier that no page carries is no key of the map.
proof fn lemma_pages_of_no_match(pages: Seq<Page>, link: Seq<char>)
    requires
        forall|j: int| 0 <= j < pages.len() ==> (#[trigger] pages[j]).link@ != link,
    ensures
        !pages_of(pages).dom().contains(link),
    decreases pages.len(),
{
    if pages.len() > 0 {
        let front = pages.drop_last();
        assert forall|j: int| 0 <= j < front.len() implies (#[trigger] front[j]).link@ != link by {
            assert(front[j] == pages[j]);
        }
        assert(pages.last().link@ != link);
        lemma_pages_of_no_match(front, link);
    }
}

/// A list of pages stands for a map with finitely many keys.
proof fn lemma_pages_of_finite(pages: Seq<Page>)
    ensures
        pages_of(pages).dom().finite(),
    decreases pages.len(),
{
    if pages.len() > 0 {
        lemma_pages_of_finite(pages.drop_last());
    }
}

/// The memo of fetched pages and of fetches under way.
pub struct CrawlerCache {
    pages: Vec<Page>,
    pending: Vec<String>,
}

impl View for CrawlerCache {
    type V = CacheModel;

    closed spec fn view(&self) -> CacheModel {
        CacheModel { pages: pages_of(self.pages@), pending: texts(self.pending@).to_set() }
    }
}

impl CrawlerCache {
    /// A cache that holds no page and knows of no fetch.
    pub fn new() -> (cache: Self)
        ensures
            cache@.pages == Map::<Seq<char>, Seq<Seq<char>>>::empty(),
            cache@.pending == Set::<Seq<char>>::empty(),
    {
        let cache = CrawlerCache { pages: Vec::new(), pending: Vec::new() };
        assert(cache@.pending =~= Set::<Seq<char>>::empty());
        cache
    }

    /// Position of the page that decides what the cache holds for `link`.
    fn position(&self, link: &String) -> (at: Option<usize>)
        ensures
            at is Some <==> self@.pages.dom().contains(link@),
            at is Some ==> at->0 < self.pages@.len() && self@.pages[link@] == texts(
                self.pages@[at->0 as int].links@,
            ),
    {
        let mut at: usize = self.pages.len();
        while at > 0
            invariant
                at <= self.pages@.len(),
                forall|j: int| at <= j < self.pages@.len() ==> (#[trigger] self.pages@[j]).link@
                    != link@,
            decreases at,
        {
            at = at - 1;
            if self.pages[at].link == *link {
                proof {
                    lemma_pages_of_last_match(self.pages@, at as int, link@);
                }
                return Some(at);
            }
        }
        proof {
            lemma_pages_of_no_match(self.pages@, link@);
        }
        None
    }

    /// Whether a fetch of `link` is under way.
    fn is_pending(&self, link: &String) -> (pending: bool)
        ensures
            pending == self@.pending.contains(link@),
    {
        let mut i: usize = 0;
        while i < self.pending.len()
            invariant
                i <= self.pending@.len(),
                forall|j: int| 0 <= j < i ==> texts(self.pending@)[j] != link@,
            decreases self.pending@.len() - i,
        {
            if self.pending[i] == *link {
                assert(texts(self.pending@)[i as int] == link@);
                return true;
            }
            i = i + 1;
        }
        false
    }

    /// Forgets that a fetch of `link` is under way.
    fn unpend(&mut self, link: &String)
        ensures
            final(self)@.pages == old(self)@.pages,
            final(self)@.pending == old(self)@.pending.remove(link@),
    {
        let ghost before = texts(self.pending@);
        let mut kept: Vec<String> = Vec::new();
        let mut i: usize = 0;
        while i < self.pending.len()
            invariant
                i <= self.pending@.len(),
                before == texts(self.pending@),
                forall|k: int| 0 <= k < kept@.len() ==> before.contains(#[trigger] texts(kept@)[k])
                    && texts(kept@)[k] != link@,
                forall|j: int|
                    0 <= j < i && #[trigger] before[j] != link@ ==> texts(kept@).contains(before[j]),
            decreases self.pending@.len() - i,
        {
            if self.pending[i] != *link {
                let ghost had = texts(kept@);
                kept.push(self.pending[i].clone());
                proof {
                    let now = texts(kept@);
                    assert(now =~= had.push(before[i as int]));
                    assert(now[had.len() as int] == before[i as int]);
                    assert forall|j: int|
                        0 <= j < i + 1 && #[trigger] before[j] != link@ implies now.contains(
                        before[j],
                    ) by {
                        if j < i {
                            let k = choose|k: int| 0 <= k < had.len() && had[k] == before[j];
                            assert(now[k] == before[j]);
                        }
                    }
                }
            }
            i = i + 1;
        }
        self.pending = kept;
        assert(self@.pending =~= old(self)@.pending.remove(link@));
    }

    /// The links cached for `link`, if its page is cached.
    pub fn get(&self, link: &str) -> (links: Option<&Vec<String>>)
        ensures
            links is Some <==> self@.pages.dom().contains(link@),
            links is Some ==> texts(links->0@) == self@.pages[link@],
    {
        let wanted = link.to_owned();
        match self.position(&wanted) {
            Some(at) => Some(&self.pages[at].links),
            None => None,
        }
    }

    /// Claims `link` for its caller: hands out the cached links, or tells the
    /// caller to wait for the fetch under way, or marks `link` as being
    /// fetched and tells the caller to fetch it.
    pub fn claim(&mut self, link: &str) -> (claim: Claim)
        ensures
            final(self)@.pages == old(self)@.claim(link@).0.pages,
            final(self)@.pending == old(self)@.claim(link@).0.pending,
            claim@ == old(self)@.claim(link@).1,
    {
        let wanted = link.to_owned();
        match self.position(&wanted) {
            Some(at) => Claim::Cached(copy_texts(&self.pages[at].links)),
            None => {
                if self.is_pending(&wanted) {
                    Claim::Join
                } else {
                    let ghost had = texts(self.pending@);
                    self.pending.push(wanted);
                    proof {
                        let now = texts(self.pending@);
                        assert(now =~= had.push(link@));
                        assert(now[had.len() as int] == link@);
                        assert(now.to_set() =~= had.to_set().insert(link@)) by {
                            assert forall|x: Seq<char>| had.to_set().insert(link@).contains(
                                x,
                            ) implies now.to_set().contains(x) by {
                                if x != link@ {
                                    let k = choose|k: int| 0 <= k < had.len() && had[k] == x;
                                    assert(now[k] == x);
                                }
                            }
                        }
                    }
                    Claim::Fetch
                }
            },
        }
    }

    /// Records that the fetch of `link` ended with `outcome` and returns what
    /// every caller that waited for it receives. A success is cached; a
    /// failure is not, so that a later claim is told to fetch again.
    pub fn complete(&mut self, link: &str, outcome: Result<Vec<String>, CrawlError>) -> (delivered:
        Result<Vec<String>, CrawlError>)
        ensures
            final(self)@.pages == old(self)@.complete(link@, outcome_texts(outcome)).0.pages,
            final(self)@.pending == old(self)@.complete(link@, outcome_texts(outcome)).0.pending,
            outcome_texts(delivered) == old(self)@.complete(link@, outcome_texts(outcome)).1,
    {
        let wanted = link.to_owned();
        self.unpend(&wanted);
        match self.position(&wanted) {
            Some(at) => Ok(copy_texts(&self.pages[at].links)),
            None => match outcome {
                Ok(links) => {
                    let copy = copy_texts(&links);
                    let ghost had = self.pages@;
                    self.pages.push(Page { link: wanted, links });
                    assert(self.pages@.drop_last() =~= had);
                    Ok(copy)
                },
                Err(e) => Err(e),
            },
        }
    }

    /// The cache holds finitely many pages.
    pub proof fn lemma_finite(&self)
        ensures
            self@.pages.dom().finite(),
    {
        lemma_pages_of_finite(self.pages@);
    }
}

} // verus!
