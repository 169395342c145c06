use vstd::prelude::*;

verus! {

/// Where the scan stands between two deliveries of the service.
#[derive(PartialEq, Eq, Structural, Clone, Copy, Debug)]
pub enum ScanPhase {
    /// A fetch is outstanding and its continuation has not run yet.
    AwaitingPage,
    /// A zero-length page arrived: the scan is exhausted.
    Drained,
    /// The continuation reported this non-zero status.
    Failed(i32),
}

/// One step that the continuation asks its caller to perform, in order.
#[derive(PartialEq, Eq, Structural, Clone, Copy, Debug)]
pub enum ScanAction {
    /// Materialize row `row` of page `page` (pages count from 0).
    Materialize { page: u64, row: usize },
    /// Release that row's result handle.
    Release { page: u64, row: usize },
    /// Request the next page against the same scanner and context.
    FetchNext,
    /// Set the completion signal and wake the waiting thread.
    SignalDone,
    /// Stop the process with this status.
    Abort(i32),
}

/// The state of one scan: its phase and how many pages and rows it has
/// processed.
#[derive(PartialEq, Eq, Structural, Clone, Copy, Debug)]
pub struct ScanLoop {
    pub phase: ScanPhase,
    pub pages: u64,
    pub rows: u64,
}

/// The steps for one delivery of page number `page`: on a non-zero status,
/// abort; on an empty page, signal completion; otherwise materialize then
/// release each row in delivery order, and fetch the next page last.
pub open spec fn page_plan(page: u64, status: i32, n: nat) -> Seq<ScanAction> {
    if status != 0 {
        seq![ScanAction::Abort(status)]
    } else if n == 0 {
        seq![ScanAction::SignalDone]
    } else {
        Seq::new(
            2 * n + 1,
            |i: int|
                if i == 2 * n {
                    ScanAction::FetchNext
                } else if i % 2 == 0 {
                    ScanAction::Materialize { page, row: (i / 2) as usize }
                } else {
                    ScanAction::Release { page, row: (i / 2) as usize }
                },
        )
    }
}

/// The state after one delivery.
pub open spec fn next_state(s: ScanLoop, status: i32, n: nat) -> ScanLoop {
    if status != 0 {
        ScanLoop { phase: ScanPhase::Failed(status), ..s }
    } else if n == 0 {
        ScanLoop { phase: ScanPhase::Drained, ..s }
    } else {
        ScanLoop { phase: ScanPhase::AwaitingPage, pages: (s.pages + 1) as u64, rows: (s.rows + n) as u64 }
    }
}

impl ScanLoop {
    /// A scan whose first fetch has just been issued.
    pub fn new() -> (r: ScanLoop)
        ensures
            r == (ScanLoop { phase: ScanPhase::AwaitingPage, pages: 0, rows: 0 }),
    {
        ScanLoop { phase: ScanPhase::AwaitingPage, pages: 0, rows: 0 }
    }

    /// Whether the continuation may run now: only while a fetch is
    /// outstanding, and while the counters can take the page.
    pub fn accepts(&self, num_results: usize) -> (r: bool)
        ensures
            r == (self.phase == ScanPhase::AwaitingPage && self.pages < u64::MAX && self.rows
                + num_results <= u64::MAX),
    {
        match self.phase {
            ScanPhase::AwaitingPage => self.pages < u64::MAX && num_results as u64 <= u64::MAX
                - self.rows,
            _ => false,
        }
    }

    /// Whether the scan has been drained, which is when the waiting thread
    /// may be woken.
    pub fn is_drained(&self) -> (r: bool)
        ensures
            r == (self.phase == ScanPhase::Drained),
    {
        match self.phase {
            ScanPhase::Drained => true,
            _ => false,
        }
    }

    /// The continuation: the service delivered a page of `num_results` rows
    /// with `status`. Returns the steps to perform, in order, and moves to
    /// the next phase.
    pub fn on_page(&mut self, status: i32, num_results: usize) -> (r: Vec<ScanAction>)
        requires
            old(self).phase == ScanPhase::AwaitingPage,
            old(self).pages < u64::MAX,
            old(self).rows + num_results <= u64::MAX,
        ensures
            r@ == page_plan(old(self).pages, status, num_results as nat),
            *final(self) == next_state(*old(self), status, num_results as nat),
    {
        let mut plan: Vec<ScanAction> = Vec::new();
        if status != 0 {
            plan.push(ScanAction::Abort(status));
            self.phase = ScanPhase::Failed(status);
            assert(plan@ =~= page_plan(old(self).pages, status, num_results as nat));
            return plan;
        }
        if num_results == 0 {
            plan.push(ScanAction::SignalDone);
            self.phase = ScanPhase::Drained;
            assert(plan@ =~= page_plan(old(self).pages, status, num_results as nat));
            return plan;
        }
        let page = self.pages;
        let ghost full = page_plan(page, status, num_results as nat);
        let mut i: usize = 0;
        while i < num_results
            invariant
                i <= num_results,
                num_results > 0,
                status == 0,
                full == page_plan(page, status, num_results as nat),
                plan@ == full.subrange(0, 2 * i),
            decreases num_results - i,
        {
            plan.push(ScanAction::Materialize { page, row: i });
            plan.push(ScanAction::Release { page, row: i });
            assert(plan@ =~= full.subrange(0, 2 * (i + 1)));
            i += 1;
        }
        plan.push(ScanAction::FetchNext);
        assert(plan@ =~= full);
        self.pages = self.pages + 1;
        self.rows = self.rows + num_results as u64;
        plan
    }
}

/// How many steps a successful delivery of `n` rows produces.
pub open spec fn plan_len(n: nat) -> nat {
    if n == 0 {
        1
    } else {
        2 * n + 1
    }
}

/// The steps of a scan that starts in `s` and is then delivered the
/// successful pages `pages`, in order. Once the scan stops awaiting a page,
/// nothing more is delivered.
pub open spec fn scan_trace(s: ScanLoop, pages: Seq<nat>) -> Seq<ScanAction>
    decreases pages.len(),
{
    if pages.len() == 0 || s.phase != ScanPhase::AwaitingPage {
        seq![]
    } else {
        page_plan(s.pages, 0, pages[0]) + scan_trace(next_state(s, 0, pages[0]), pages.drop_first())
    }
}

/// Where the steps of page `p` start in the trace of `pages`.
pub open spec fn page_offset(pages: Seq<nat>, p: nat) -> int
    decreases p,
{
    if p == 0 || pages.len() == 0 {
        0
    } else {
        plan_len(pages[0]) + page_offset(pages.drop_first(), (p - 1) as nat)
    }
}

/// A whole scan as the service delivers it: non-empty pages, then one
/// zero-length page that ends it.
pub open spec fn is_complete_scan(pages: Seq<nat>) -> bool {
    &&& pages.len() > 0
    &&& pages.last() == 0
    &&& forall|i: int| 0 <= i < pages.len() - 1 ==> pages[i] > 0
}

/// Within one delivery, a fetch is issued only as the very last step, at
/// most once, and the scan awaits a page again exactly when it was issued:
/// fetches are never concurrent.
pub proof fn lemma_single_flight(page: u64, status: i32, n: nat)
    ensures
        page_plan(page, status, n).len() > 0,
        forall|i: int|
            0 <= i < page_plan(page, status, n).len() && #[trigger] page_plan(page, status, n)[i]
                == ScanAction::FetchNext ==> i == page_plan(page, status, n).len() - 1,
        forall|s: ScanLoop|
            (#[trigger] next_state(s, status, n)).phase == ScanPhase::AwaitingPage
                <==> page_plan(page, status, n).last() == ScanAction::FetchNext,
{
}

proof fn lemma_layout(s: ScanLoop, pages: Seq<nat>, p: nat, j: nat)
    requires
        s.phase == ScanPhase::AwaitingPage,
        p < pages.len(),
        forall|i: int| 0 <= i < p ==> pages[i] > 0,
        j < plan_len(pages[p as int]),
        s.pages + pages.len() <= u64::MAX,
    ensures
        page_offset(pages, p) + j < scan_trace(s, pages).len(),
        scan_trace(s, pages)[page_offset(pages, p) + j] == page_plan(
            (s.pages + p) as u64,
            0,
            pages[p as int],
        )[j as int],
    decreases p,
{
    let first = page_plan(s.pages, 0, pages[0]);
    let rest = scan_trace(next_state(s, 0, pages[0]), pages.drop_first());
    assert(first.len() == plan_len(pages[0]));
    assert(scan_trace(s, pages) == first + rest);
    if p > 0 {
        let d = pages.drop_first();
        assert forall|i: int| 0 <= i < p - 1 implies d[i] > 0 by {
            assert(d[i] == pages[i + 1]);
        }
        assert(d[p - 1] == pages[p as int]);
        assert(pages[0] > 0);
        assert(next_state(s, 0, pages[0]).pages == s.pages + 1);
        lemma_layout(next_state(s, 0, pages[0]), d, (p - 1) as nat, j);
        assert(page_offset(pages, p) == plan_len(pages[0]) + page_offset(d, (p - 1) as nat));
        lemma_offset_grows(d, (p - 1) as nat);
        assert((first + rest)[page_offset(pages, p) + j] == rest[page_offset(d, (p - 1) as nat)
            + j]);
    } else {
        assert((first + rest)[j as int] == first[j as int]);
    }
}

proof fn lemma_locate(s: ScanLoop, pages: Seq<nat>, i: nat) -> (r: (nat, nat))
    requires
        s.phase == ScanPhase::AwaitingPage,
        forall|k: int| 0 <= k < pages.len() - 1 ==> pages[k] > 0,
        i < scan_trace(s, pages).len(),
    ensures
        r.0 < pages.len(),
        r.1 < plan_len(pages[r.0 as int]),
        i == page_offset(pages, r.0) + r.1,
    decreases pages.len(),
{
    let first = page_plan(s.pages, 0, pages[0]);
    assert(first.len() == plan_len(pages[0]));
    if i < plan_len(pages[0]) {
        (0, i)
    } else {
        let d = pages.drop_first();
        assert forall|k: int| 0 <= k < d.len() - 1 implies d[k] > 0 by {
            assert(d[k] == pages[k + 1]);
        }
        let r = lemma_locate(next_state(s, 0, pages[0]), d, (i - plan_len(pages[0])) as nat);
        assert(d[r.0 as int] == pages[(r.0 + 1) as int]);
        (r.0 + 1, r.1)
    }
}

/// A complete scan ends with exactly one completion signal, as its last
/// step, and issues exactly one fetch per page transition: at the end of
/// each non-empty page, and nowhere else.
pub proof fn lemma_exhaustion(s: ScanLoop, pages: Seq<nat>)
    requires
        s.phase == ScanPhase::AwaitingPage,
        is_complete_scan(pages),
        s.pages + pages.len() <= u64::MAX,
    ensures
        scan_trace(s, pages).len() == page_offset(pages, (pages.len() - 1) as nat) + 1,
        scan_trace(s, pages).last() == ScanAction::SignalDone,
        forall|i: int|
            0 <= i < scan_trace(s, pages).len() - 1 ==> #[trigger] scan_trace(s, pages)[i]
                != ScanAction::SignalDone,
        forall|p: nat|
            p < pages.len() - 1 ==> #[trigger] scan_trace(s, pages)[page_offset(pages, p) + 2
                * pages[p as int]] == ScanAction::FetchNext,
        forall|i: int|
            0 <= i < scan_trace(s, pages).len() && #[trigger] scan_trace(s, pages)[i]
                == ScanAction::FetchNext ==> exists|p: nat|
                p < pages.len() - 1 && i == page_offset(pages, p) + 2 * pages[p as int],
{
    let t = scan_trace(s, pages);
    let last = (pages.len() - 1) as nat;
    lemma_layout(s, pages, last, 0);
    lemma_trace_len(s, pages);
    assert forall|p: nat| p < pages.len() - 1 implies #[trigger] t[page_offset(pages, p) + 2
        * pages[p as int]] == ScanAction::FetchNext by {
        lemma_layout(s, pages, p, 2 * pages[p as int]);
    }
    assert forall|i: int| 0 <= i < t.len() && #[trigger] t[i] == ScanAction::FetchNext
        implies exists|p: nat| p < pages.len() - 1 && i == page_offset(pages, p) + 2 * pages[p as int] by {
        let r = lemma_locate(s, pages, i as nat);
        lemma_layout(s, pages, r.0, r.1);
        assert(r.0 < pages.len() - 1);
    }
    assert forall|i: int| 0 <= i < t.len() - 1 implies #[trigger] t[i] != ScanAction::SignalDone by {
        let r = lemma_locate(s, pages, i as nat);
        lemma_layout(s, pages, r.0, r.1);
        if r.0 == last {
            assert(r.1 == 0);
        }
    }
}

proof fn lemma_trace_len(s: ScanLoop, pages: Seq<nat>)
    requires
        s.phase == ScanPhase::AwaitingPage,
        is_complete_scan(pages),
    ensures
        scan_trace(s, pages).len() == page_offset(pages, (pages.len() - 1) as nat) + 1,
    decreases pages.len(),
{
    let d = pages.drop_first();
    let rest = scan_trace(next_state(s, 0, pages[0]), d);
    assert(scan_trace(s, pages) == page_plan(s.pages, 0, pages[0]) + rest);
    if pages.len() > 1 {
        assert forall|k: int| 0 <= k < d.len() - 1 implies d[k] > 0 by {
            assert(d[k] == pages[k + 1]);
        }
        assert(d.last() == pages.last());
        assert(pages[0] > 0);
        lemma_trace_len(next_state(s, 0, pages[0]), d);
        assert(page_offset(pages, (pages.len() - 1) as nat) == plan_len(pages[0]) + page_offset(
            d,
            (d.len() - 1) as nat,
        ));
    } else {
        assert(pages[0] == 0);
        assert(rest.len() == 0);
    }
}

/// Every row of a complete scan is materialized and then released: the
/// release of row `r` of page `p` directly follows its materialization, and
/// that release occurs nowhere else in the scan.
pub proof fn lemma_release_discipline(s: ScanLoop, pages: Seq<nat>, p: nat, r: nat)
    requires
        s.phase == ScanPhase::AwaitingPage,
        is_complete_scan(pages),
        s.pages + pages.len() <= u64::MAX,
        forall|q: int| 0 <= q < pages.len() ==> pages[q] <= usize::MAX,
        p < pages.len(),
        r < pages[p as int],
    ensures
        scan_trace(s, pages)[page_offset(pages, p) + 2 * r] == (ScanAction::Materialize {
            page: (s.pages + p) as u64,
            row: r as usize,
        }),
        scan_trace(s, pages)[page_offset(pages, p) + 2 * r + 1] == (ScanAction::Release {
            page: (s.pages + p) as u64,
            row: r as usize,
        }),
        forall|i: int|
            0 <= i < scan_trace(s, pages).len() && #[trigger] scan_trace(s, pages)[i] == (
            ScanAction::Release { page: (s.pages + p) as u64, row: r as usize }) ==> i
                == page_offset(pages, p) + 2 * r + 1,
{
    let t = scan_trace(s, pages);
    lemma_layout(s, pages, p, 2 * r);
    lemma_layout(s, pages, p, 2 * r + 1);
    assert forall|i: int|
        0 <= i < t.len() && #[trigger] t[i] == (ScanAction::Release {
            page: (s.pages + p) as u64,
            row: r as usize,
        }) implies i == page_offset(pages, p) + 2 * r + 1 by {
        let q = lemma_locate(s, pages, i as nat);
        lemma_layout(s, pages, q.0, q.1);
    }
}

/// Pages are processed in the order the service delivers them: every step
/// of a page comes before every step of the pages delivered after it. (Within
/// a page, row `r` is materialized at position `2 * r` of its steps; see
/// `lemma_release_discipline`.)
pub proof fn lemma_page_order(pages: Seq<nat>, p1: nat, p2: nat)
    requires
        p1 < p2 <= pages.len(),
    ensures
        page_offset(pages, p1) + plan_len(pages[p1 as int]) <= page_offset(pages, p2),
    decreases p1,
{
    if p1 > 0 {
        lemma_page_order(pages.drop_first(), (p1 - 1) as nat, (p2 - 1) as nat);
        assert(pages.drop_first()[p1 - 1] == pages[p1 as int]);
    } else {
        lemma_offset_grows(pages.drop_first(), (p2 - 1) as nat);
    }
}

proof fn lemma_offset_grows(pages: Seq<nat>, p: nat)
    ensures
        page_offset(pages, p) >= 0,
    decreases p,
{
    if p > 0 && pages.len() > 0 {
        lemma_offset_grows(pages.drop_first(), (p - 1) as nat);
    }
}

} // verus!
