//! The trade ingestion pipeline.
//!
//! The remote ledger serves two paginated collections: executed trades
//! and closed orders. This module holds the verified decisions of that
//! protocol — which page to ask for next, when to pause, when to stop,
//! what to keep from each page, and how the kept trades are filtered and
//! ordered at the end. An unverified driver performs the transport and
//! feeds each page back in; a remote failure is reported as an error
//! kind through [`IngestPipeline::outcome`], never as a partial result,
//! and the boundary decides the exit path.

use vstd::prelude::*;
use crate::trade::Trade;
use crate::trade::trade_views;
use crate::trade::trade_wf;
use crate::trade::trades_wf;

verus! {

/// The trades of a page that belong to the requested pair, in page order.
pub open spec fn pair_filter(ts: Seq<Trade>, sym: Seq<char>) -> Seq<Trade> {
    ts.filter(|t: Trade| t.pair@ == sym)
}

/// Records per page that the remote ledger serves.
pub const PAGE_SIZE: u64 = 50;

/// What the driver must do next.
#[derive(Clone, Copy, PartialEq, Eq, Structural, Debug)]
pub enum FetchAction {
    /// Request the trade page at this offset; when `pause_before` is set,
    /// suspend for the rate-tier delay first.
    RequestTrades { offset: u64, pause_before: bool },
    /// Request the closed-orders page at this offset, pausing first when
    /// `pause_before` is set.
    RequestOrders { offset: u64, pause_before: bool },
    /// Both collections are complete; call `finish`.
    Done,
}

/// Which collection the pipeline is currently paging through.
#[derive(Clone, Copy, PartialEq, Eq, Structural, Debug)]
pub enum IngestPhase {
    Trades,
    Orders,
    Complete,
    /// A remote failure ended the run; no trades will be returned.
    Failed,
}

/// Why a run ends without a trade sequence. Every remote failure is
/// fatal: FIFO accounting needs the complete, correctly ordered trade
/// set, so no partial result is ever handed out.
#[derive(Clone, Copy, PartialEq, Eq, Structural, Debug)]
pub enum IngestError {
    /// The remote service answered a page request with an error payload
    /// or a non-success status.
    Remote,
    /// A page's body could not be read as the expected record shape.
    MalformedResponse,
}

/// The pipeline's whole state between page requests.
pub struct IngestPipeline {
    /// Trading-pair symbol; a page record with any other pair is dropped.
    pub symbol: String,
    /// Whether a user-reference filter was requested, so that the
    /// closed-orders collection must be paged through as well.
    pub filter_by_orders: bool,
    /// Symbol-filtered trades collected so far, in fetch order.
    pub trades: Vec<Trade>,
    /// Closed-order identifiers collected so far.
    pub order_ids: Vec<String>,
    pub trade_offset: u64,
    pub order_offset: u64,
    pub phase: IngestPhase,
    /// The fatal failure that ended the run, if one did.
    pub error: Option<IngestError>,
}

impl IngestPipeline {
    /// Every trade the pipeline holds satisfies the data-model
    /// invariant, and an error is recorded exactly in the failed phase.
    pub open spec fn wf(self) -> bool {
        &&& trades_wf(trade_views(self.trades@))
        &&& (self.phase == IngestPhase::Failed) == (self.error is Some)
    }

    /// Start a run: the first thing to do is to fetch the trade page at
    /// offset zero, with no pause.
    pub fn begin(symbol: String, filter_by_orders: bool) -> (r: (IngestPipeline, FetchAction))
        ensures
            r.0.wf(),
            r.0.symbol == symbol,
            r.0.filter_by_orders == filter_by_orders,
            r.0.trades@.len() == 0,
            r.0.order_ids@.len() == 0,
            r.0.trade_offset == 0,
            r.0.order_offset == 0,
            r.0.phase == IngestPhase::Trades,
            r.0.error is None,
            r.1 == (FetchAction::RequestTrades { offset: 0, pause_before: false }),
    {
        let p = IngestPipeline {
            symbol,
            filter_by_orders,
            trades: Vec::new(),
            order_ids: Vec::new(),
            trade_offset: 0,
            order_offset: 0,
            phase: IngestPhase::Trades,
            error: None,
        };
        (p, FetchAction::RequestTrades { offset: 0, pause_before: false })
    }

    /// Fold in one page of the trade collection.
    ///
    /// Only records of the requested pair are kept. Pagination stops as
    /// soon as the server-reported total fits within the pages fetched so
    /// far, i.e. `total_count <= offset + PAGE_SIZE`; otherwise the next
    /// page is requested after a pause.
    ///
    /// Every record the driver hands in is appended; none is invented or
    /// duplicated, but no deduplication beyond that happens here. The
    /// remote serves each page as a map keyed by trade identifier, which
    /// deduplicates within a page, and the identifier is not retained;
    /// distinctness across pages rests on the remote serving disjoint
    /// offsets.
    pub fn on_trades_page(&mut self, page: Vec<Trade>, total_count: u32) -> (a: FetchAction)
        requires
            old(self).wf(),
            old(self).phase == IngestPhase::Trades,
            trades_wf(trade_views(page@)),
            old(self).trade_offset <= 0xFFFF_FFFF_FFFF_FFFF - PAGE_SIZE,
        ensures
            final(self).wf(),
            final(self).symbol == old(self).symbol,
            final(self).filter_by_orders == old(self).filter_by_orders,
            final(self).order_ids == old(self).order_ids,
            final(self).error == old(self).error,
            final(self).trades@ == old(self).trades@ + pair_filter(page@, old(self).symbol@),
            total_count > old(self).trade_offset + PAGE_SIZE ==> {
                &&& final(self).phase == IngestPhase::Trades
                &&& final(self).trade_offset == old(self).trade_offset + PAGE_SIZE
                &&& a == (FetchAction::RequestTrades {
                    offset: (old(self).trade_offset + PAGE_SIZE) as u64,
                    pause_before: true,
                })
            },
            total_count <= old(self).trade_offset + PAGE_SIZE ==> {
                &&& final(self).trade_offset == old(self).trade_offset
                &&& if old(self).filter_by_orders {
                    final(self).phase == IngestPhase::Orders && final(self).order_offset == 0 && a
                        == (FetchAction::RequestOrders { offset: 0, pause_before: false })
                } else {
                    final(self).phase == IngestPhase::Complete && a == FetchAction::Done
                }
            },
    {
        let ghost page0 = page@;
        let ghost trades0 = self.trades@;
        let ghost sym = self.symbol@;
        let mut page = page;
        let plen = page.len();
        proof {
            assert(page0.len() == plen);
            reveal(Seq::filter);
            assert(page0.take(0) =~= Seq::<Trade>::empty());
            assert(pair_filter(page0.take(0), sym) =~= Seq::<Trade>::empty());
            assert(self.trades@ =~= trades0 + pair_filter(page0.take(0), sym));
        }
        let mut k: usize = 0;
        while page.len() > 0
            invariant
                k == page0.len() - page.len(),
                0 <= k <= page0.len(),
                page0.len() <= usize::MAX,
                page@ =~= page0.skip(k as int),
                self.trades@ == trades0 + pair_filter(page0.take(k as int), sym),
                trades_wf(trade_views(self.trades@)),
                trades_wf(trade_views(page0)),
                self.symbol@ == sym,
                self.symbol == old(self).symbol,
                self.filter_by_orders == old(self).filter_by_orders,
                self.order_ids == old(self).order_ids,
                self.trade_offset == old(self).trade_offset,
                self.order_offset == old(self).order_offset,
                self.phase == old(self).phase,
                self.error == old(self).error,
            decreases page.len(),
        {
            let t = page.remove(0);
            proof {
                assert(t == page0[k as int]);
                assert(trade_views(page0)[k as int] == page0[k as int]@);
                assert(page@ =~= page0.skip(k as int + 1));
                assert(page0.take(k as int + 1).drop_last() =~= page0.take(k as int));
                assert(page0.take(k as int + 1).last() == page0[k as int]);
            }
            let keep = t.pair == self.symbol;
            if keep {
                let ghost before = self.trades@;
                self.trades.push(t);
                proof {
                    reveal(Seq::filter);
                    assert(trade_views(self.trades@) =~= trade_views(before).push(t@));
                    assert(self.trades@ =~= trades0 + pair_filter(
                        page0.take(k as int + 1),
                        sym,
                    ));
                }
            } else {
                proof {
                    reveal(Seq::filter);
                    assert(pair_filter(page0.take(k as int + 1), sym) =~= pair_filter(
                        page0.take(k as int),
                        sym,
                    ));
                }
            }
            k = k + 1;
        }
        proof {
            assert(page0.take(page0.len() as int) =~= page0);
        }
        if total_count as u64 <= self.trade_offset + PAGE_SIZE {
            if self.filter_by_orders {
                self.phase = IngestPhase::Orders;
                self.order_offset = 0;
                FetchAction::RequestOrders { offset: 0, pause_before: false }
            } else {
                self.phase = IngestPhase::Complete;
                FetchAction::Done
            }
        } else {
            self.trade_offset = self.trade_offset + PAGE_SIZE;
            FetchAction::RequestTrades { offset: self.trade_offset, pause_before: true }
        }
    }

    /// Fold in one page of the closed-orders collection, keeping every
    /// identifier. Pagination stops once at least the server-reported
    /// total number of identifiers has been collected; otherwise the next
    /// page is requested after a pause.
    pub fn on_orders_page(&mut self, ids: Vec<String>, total_count: u32) -> (a: FetchAction)
        requires
            old(self).wf(),
            old(self).phase == IngestPhase::Orders,
            old(self).order_offset <= 0xFFFF_FFFF_FFFF_FFFF - PAGE_SIZE,
        ensures
            final(self).wf(),
            final(self).symbol == old(self).symbol,
            final(self).filter_by_orders == old(self).filter_by_orders,
            final(self).trades == old(self).trades,
            final(self).trade_offset == old(self).trade_offset,
            final(self).error == old(self).error,
            final(self).order_ids@ == old(self).order_ids@ + ids@,
            total_count > old(self).order_ids@.len() + ids@.len() ==> {
                &&& final(self).phase == IngestPhase::Orders
                &&& final(self).order_offset == old(self).order_offset + PAGE_SIZE
                &&& a == (FetchAction::RequestOrders {
                    offset: (old(self).order_offset + PAGE_SIZE) as u64,
                    pause_before: true,
                })
            },
            total_count <= old(self).order_ids@.len() + ids@.len() ==> {
                &&& final(self).phase == IngestPhase::Complete
                &&& final(self).order_offset == old(self).order_offset
                &&& a == FetchAction::Done
            },
    {
        let ghost ids0 = ids@;
        let ghost collected0 = self.order_ids@;
        let mut ids = ids;
        while ids.len() > 0
            invariant
                self.order_ids@ == collected0 + ids0.take(ids0.len() - ids.len()),
                ids@ =~= ids0.skip(ids0.len() - ids.len()),
                ids.len() <= ids0.len(),
                self.symbol == old(self).symbol,
                self.filter_by_orders == old(self).filter_by_orders,
                self.trades == old(self).trades,
                self.trade_offset == old(self).trade_offset,
                self.order_offset == old(self).order_offset,
                self.phase == old(self).phase,
                self.error == old(self).error,
            decreases ids.len(),
        {
            let ghost k = ids0.len() - ids@.len();
            let x = ids.remove(0);
            proof {
                assert(x == ids0[k]);
                assert(ids@ =~= ids0.skip(k + 1));
                assert(ids0.take(k + 1).drop_last() =~= ids0.take(k));
                assert(ids0.take(k + 1).last() == ids0[k]);
                assert(collected0 + ids0.take(k + 1) =~= (collected0 + ids0.take(k)).push(
                    ids0[k],
                ));
            }
            self.order_ids.push(x);
        }
        proof {
            assert(ids0.take(ids0.len() as int) =~= ids0);
        }
        if (total_count as usize) <= self.order_ids.len() {
            self.phase = IngestPhase::Complete;
            FetchAction::Done
        } else {
            self.order_offset = self.order_offset + PAGE_SIZE;
            FetchAction::RequestOrders { offset: self.order_offset, pause_before: true }
        }
    }
}

/// The views of a sequence of identifier strings.
pub open spec fn str_views(s: Seq<String>) -> Seq<Seq<char>> {
    s.map_values(|x: String| x@)
}

/// The trades whose parent order belongs to the collected order group.
pub open spec fn order_filter(ts: Seq<Trade>, ids: Seq<Seq<char>>) -> Seq<Trade> {
    ts.filter(|t: Trade| ids.contains(t.order_id@))
}

/// What the pipeline retains: everything when no user-reference filter
/// was requested, otherwise only trades cross-referenced by order id.
pub open spec fn selected_trades(ts: Seq<Trade>, ids: Seq<Seq<char>>, use_filter: bool) -> Seq<
    Trade,
> {
    if use_filter {
        order_filter(ts, ids)
    } else {
        ts
    }
}

/// Insert a trade into a sequence, behind every element whose timestamp
/// is at or before its own: the stable insertion step.
pub open spec fn insert_by_time(s: Seq<Trade>, t: Trade) -> Seq<Trade>
    decreases s.len(),
{
    if s.len() == 0 {
        seq![t]
    } else if s.last().timestamp_nanos <= t.timestamp_nanos {
        s.push(t)
    } else {
        insert_by_time(s.drop_last(), t).push(s.last())
    }
}

/// Stable sort ascending by timestamp: ties keep their fetch order.
pub open spec fn sort_by_time(s: Seq<Trade>) -> Seq<Trade>
    decreases s.len(),
{
    if s.len() == 0 {
        s
    } else {
        insert_by_time(sort_by_time(s.drop_last()), s.last())
    }
}

/// Non-decreasing by timestamp.
pub open spec fn time_sorted(s: Seq<Trade>) -> bool {
    forall|i: int, j: int|
        0 <= i < j < s.len() ==> s[i].timestamp_nanos <= s[j].timestamp_nanos
}

/// Where the insertion step really puts the trade: before the maximal
/// run of strictly later elements, everything else untouched.
pub proof fn lemma_insert_by_time_split(s: Seq<Trade>, t: Trade, k: int)
    requires
        0 <= k <= s.len(),
        k == 0 || s[k - 1].timestamp_nanos <= t.timestamp_nanos,
        forall|i: int| k <= i < s.len() ==> s[i].timestamp_nanos > t.timestamp_nanos,
    ensures
        insert_by_time(s, t) == s.take(k).push(t) + s.skip(k),
    decreases s.len(),
{
    if k == s.len() {
        if s.len() == 0 {
            assert(insert_by_time(s, t) =~= s.take(k).push(t) + s.skip(k));
        } else {
            assert(s.take(k).push(t) + s.skip(k) =~= s.push(t));
        }
    } else {
        assert(s[s.len() - 1].timestamp_nanos > t.timestamp_nanos);
        let dl = s.drop_last();
        assert(forall|i: int| 0 <= i < dl.len() ==> #[trigger] dl[i] == s[i]);
        lemma_insert_by_time_split(dl, t, k);
        assert((dl.take(k).push(t) + dl.skip(k)).push(s.last()) =~= s.take(k).push(t) + s.skip(
            k,
        ));
    }
}

/// Every element of the inserted sequence is the new trade or one of the
/// old ones, and the length grows by one.
pub proof fn lemma_insert_by_time_elements(s: Seq<Trade>, t: Trade)
    ensures
        insert_by_time(s, t).len() == s.len() + 1,
        forall|i: int|
            0 <= i < insert_by_time(s, t).len() ==> #[trigger] insert_by_time(s, t)[i] == t
                || exists|j: int| 0 <= j < s.len() && insert_by_time(s, t)[i] == s[j],
    decreases s.len(),
{
    if s.len() == 0 {
    } else if s.last().timestamp_nanos <= t.timestamp_nanos {
        assert(forall|i: int|
            0 <= i < s.len() ==> #[trigger] s.push(t)[i] == s[i]);
    } else {
        let dl = s.drop_last();
        lemma_insert_by_time_elements(dl, t);
        let ins = insert_by_time(s, t);
        assert forall|i: int| 0 <= i < ins.len() implies ins[i] == t || exists|j: int|
            0 <= j < s.len() && ins[i] == s[j] by {
            if i < ins.len() - 1 {
                assert(ins[i] == insert_by_time(dl, t)[i]);
                if insert_by_time(dl, t)[i] != t {
                    let j = choose|j: int| 0 <= j < dl.len() && insert_by_time(dl, t)[i] == dl[j];
                    assert(s[j] == dl[j]);
                }
            } else {
                assert(ins[i] == s[s.len() - 1]);
            }
        }
    }
}

/// The insertion step keeps the sequence sorted.
pub proof fn lemma_insert_by_time_sorted(s: Seq<Trade>, t: Trade)
    requires
        time_sorted(s),
    ensures
        time_sorted(insert_by_time(s, t)),
    decreases s.len(),
{
    if s.len() == 0 {
    } else if s.last().timestamp_nanos <= t.timestamp_nanos {
    } else {
        let dl = s.drop_last();
        assert(forall|i: int| 0 <= i < dl.len() ==> #[trigger] dl[i] == s[i]);
        lemma_insert_by_time_sorted(dl, t);
        lemma_insert_by_time_elements(dl, t);
        let ins = insert_by_time(dl, t);
        assert forall|i: int| 0 <= i < ins.len() implies ins[i].timestamp_nanos
            <= s.last().timestamp_nanos by {
            if ins[i] != t {
                let j = choose|j: int| 0 <= j < dl.len() && ins[i] == dl[j];
                assert(s[j].timestamp_nanos <= s[s.len() - 1].timestamp_nanos);
            }
        }
    }
}

/// The sort really sorts.
pub proof fn lemma_sort_by_time_sorted(s: Seq<Trade>)
    ensures
        time_sorted(sort_by_time(s)),
    decreases s.len(),
{
    if s.len() > 0 {
        lemma_sort_by_time_sorted(s.drop_last());
        lemma_insert_by_time_sorted(sort_by_time(s.drop_last()), s.last());
    }
}

/// The insertion step neither loses nor invents trades.
pub proof fn lemma_insert_by_time_multiset(s: Seq<Trade>, t: Trade)
    ensures
        insert_by_time(s, t).to_multiset() == s.to_multiset().insert(t),
    decreases s.len(),
{
    broadcast use vstd::seq_lib::group_to_multiset_ensures;

    if s.len() == 0 {
        assert(insert_by_time(s, t) =~= Seq::<Trade>::empty().push(t));
        assert(Seq::<Trade>::empty().push(t).to_multiset() =~= s.to_multiset().insert(t));
    } else if s.last().timestamp_nanos <= t.timestamp_nanos {
        assert(s.push(t).to_multiset() =~= s.to_multiset().insert(t));
    } else {
        let dl = s.drop_last();
        lemma_insert_by_time_multiset(dl, t);
        assert(insert_by_time(s, t).to_multiset() =~= insert_by_time(dl, t).to_multiset().insert(
            s.last(),
        ));
        assert(dl.push(s.last()) =~= s);
        assert(s.to_multiset() =~= dl.to_multiset().insert(s.last()));
        assert(dl.to_multiset().insert(t).insert(s.last()) =~= dl.to_multiset().insert(
            s.last(),
        ).insert(t));
    }
}

/// The sort is a permutation: same trades, same multiplicities.
pub proof fn lemma_sort_by_time_permutes(s: Seq<Trade>)
    ensures
        sort_by_time(s).to_multiset() == s.to_multiset(),
    decreases s.len(),
{
    broadcast use vstd::seq_lib::group_to_multiset_ensures;

    if s.len() > 0 {
        lemma_sort_by_time_permutes(s.drop_last());
        lemma_insert_by_time_multiset(sort_by_time(s.drop_last()), s.last());
        assert(s.drop_last().push(s.last()) =~= s);
        assert(s.to_multiset() =~= s.drop_last().to_multiset().insert(s.last()));
    }
}


/// The trades executed at one given instant, in order.
pub open spec fn time_filter(s: Seq<Trade>, c: i64) -> Seq<Trade> {
    s.filter(|t: Trade| t.timestamp_nanos == c)
}

/// A filter keeps a sequence it already accepted wholesale.
pub proof fn lemma_filter_all(s: Seq<Trade>, pred: spec_fn(Trade) -> bool)
    requires
        forall|i: int| 0 <= i < s.len() ==> pred(#[trigger] s[i]),
    ensures
        s.filter(pred) == s,
    decreases s.len(),
{
    reveal(Seq::filter);
    if s.len() > 0 {
        let dl = s.drop_last();
        assert(forall|i: int| 0 <= i < dl.len() ==> #[trigger] dl[i] == s[i]);
        lemma_filter_all(dl, pred);
        assert(s.filter(pred) =~= s);
    }
}

/// A filter drops a sequence it rejects wholesale.
pub proof fn lemma_filter_none(s: Seq<Trade>, pred: spec_fn(Trade) -> bool)
    requires
        forall|i: int| 0 <= i < s.len() ==> !pred(#[trigger] s[i]),
    ensures
        s.filter(pred) == Seq::<Trade>::empty(),
    decreases s.len(),
{
    reveal(Seq::filter);
    if s.len() == 0 {
        assert(s.filter(pred) =~= Seq::<Trade>::empty());
    } else {
        let dl = s.drop_last();
        assert(forall|i: int| 0 <= i < dl.len() ==> #[trigger] dl[i] == s[i]);
        lemma_filter_none(dl, pred);
    }
}

/// Idempotence of the cross-reference filter: filtering what was already
/// filtered changes nothing.
pub proof fn lemma_order_filter_idempotent(ts: Seq<Trade>, ids: Seq<Seq<char>>)
    ensures
        order_filter(order_filter(ts, ids), ids) == order_filter(ts, ids),
{
    let pred = |t: Trade| ids.contains(t.order_id@);
    ts.filter_lemma(pred);
    lemma_filter_all(ts.filter(pred), pred);
}

/// The pipeline's selection is a function of the collected data alone:
/// identical backing data gives the identical sorted trade sequence.
pub proof fn lemma_ingestion_deterministic(
    ts1: Seq<Trade>,
    ts2: Seq<Trade>,
    ids1: Seq<Seq<char>>,
    ids2: Seq<Seq<char>>,
    use_filter: bool,
)
    requires
        ts1 == ts2,
        ids1 == ids2,
    ensures
        sort_by_time(selected_trades(ts1, ids1, use_filter)) == sort_by_time(
            selected_trades(ts2, ids2, use_filter),
        ),
{
}

/// The cut of a sorted sequence for a trade: the length of the prefix
/// whose timestamps are at or before the trade's own.
pub open spec fn split_point(q: Seq<Trade>, t: Trade) -> int
    decreases q.len(),
{
    if q.len() == 0 {
        0
    } else if q.last().timestamp_nanos <= t.timestamp_nanos {
        q.len() as int
    } else {
        split_point(q.drop_last(), t)
    }
}

/// In a sorted sequence the cut is real: everything before it is at or
/// before the trade's time, everything from it on strictly later.
proof fn lemma_split_point_props(q: Seq<Trade>, t: Trade)
    requires
        time_sorted(q),
    ensures
        0 <= split_point(q, t) <= q.len(),
        split_point(q, t) == 0 || q[split_point(q, t) - 1].timestamp_nanos <= t.timestamp_nanos,
        forall|i: int|
            split_point(q, t) <= i < q.len() ==> q[i].timestamp_nanos > t.timestamp_nanos,
    decreases q.len(),
{
    if q.len() == 0 {
    } else if q.last().timestamp_nanos <= t.timestamp_nanos {
    } else {
        let dl = q.drop_last();
        assert(forall|i: int| 0 <= i < dl.len() ==> #[trigger] dl[i] == q[i]);
        lemma_split_point_props(dl, t);
        let k = split_point(q, t);
        assert forall|i: int| k <= i < q.len() implies q[i].timestamp_nanos
            > t.timestamp_nanos by {
            if i < q.len() - 1 {
                assert(dl[i] == q[i]);
                assert(dl[i].timestamp_nanos > t.timestamp_nanos);
            }
        }
        if k > 0 {
            assert(q[k - 1] == dl[k - 1]);
        }
    }
}

/// Inserting into a sorted sequence puts an equal-time trade after all
/// its equals and leaves every other instant's trades untouched.
proof fn lemma_insert_time_filter(q: Seq<Trade>, t: Trade, c: i64)
    requires
        time_sorted(q),
    ensures
        time_filter(insert_by_time(q, t), c) == if t.timestamp_nanos == c {
            time_filter(q, c).push(t)
        } else {
            time_filter(q, c)
        },
{
    broadcast use vstd::seq_lib::group_filter_ensures;

    let pred = |x: Trade| x.timestamp_nanos == c;
    lemma_split_point_props(q, t);
    let k = split_point(q, t);
    lemma_insert_by_time_split(q, t, k);
    let front = q.take(k);
    let back = q.skip(k);
    assert(front.push(t) =~= front + seq![t]);
    Seq::filter_distributes_over_add(front, seq![t], pred);
    Seq::filter_distributes_over_add(front + seq![t], back, pred);
    Seq::filter_distributes_over_add(front, back, pred);
    assert(q =~= front + back);
    reveal(Seq::filter);
    assert(seq![t].drop_last() =~= Seq::<Trade>::empty());
    if t.timestamp_nanos == c {
        assert(seq![t].filter(pred) =~= Seq::<Trade>::empty().push(t));
        lemma_filter_none(back, pred);
        assert(time_filter(insert_by_time(q, t), c) =~= time_filter(q, c).push(t));
    } else {
        lemma_filter_none(seq![t], pred);
        assert(time_filter(insert_by_time(q, t), c) =~= time_filter(q, c));
    }
}

/// Stability of the sort: for every instant, the trades executed at that
/// instant come out in exactly the order they went in.
pub proof fn lemma_sort_by_time_stable(s: Seq<Trade>, c: i64)
    ensures
        time_filter(sort_by_time(s), c) == time_filter(s, c),
    decreases s.len(),
{
    reveal(Seq::filter);
    if s.len() > 0 {
        let dl = s.drop_last();
        lemma_sort_by_time_stable(dl, c);
        lemma_sort_by_time_sorted(dl);
        lemma_insert_time_filter(sort_by_time(dl), s.last(), c);
        if s.last().timestamp_nanos == c {
            assert(time_filter(s, c) =~= time_filter(dl, c).push(s.last()));
        } else {
            assert(time_filter(s, c) =~= time_filter(dl, c));
        }
    }
}

/// Whether the collected order group contains the given identifier.
fn contains_order(ids: &Vec<String>, x: &String) -> (r: bool)
    ensures
        r == str_views(ids@).contains(x@),
{
    let mut i: usize = 0;
    while i < ids.len()
        invariant
            0 <= i <= ids@.len(),
            forall|j: int| 0 <= j < i ==> str_views(ids@)[j] != x@,
        decreases ids@.len() - i,
    {
        proof {
            assert(str_views(ids@)[i as int] == ids@[i as int]@);
        }
        if ids[i].eq(x) {
            proof {
                assert(str_views(ids@).contains(x@)) by {
                    assert(str_views(ids@)[i as int] == x@);
                }
            }
            return true;
        }
        i = i + 1;
    }
    proof {
        assert forall|j: int| 0 <= j < ids@.len() implies str_views(ids@)[j] != x@ by {}
    }
    false
}

impl IngestPipeline {
    /// Record a fatal remote failure: the run is over and will yield the
    /// error kind instead of trades.
    pub fn on_remote_error(&mut self, err: IngestError)
        requires
            old(self).wf(),
            old(self).phase == IngestPhase::Trades || old(self).phase == IngestPhase::Orders,
        ensures
            final(self).wf(),
            final(self).phase == IngestPhase::Failed,
            final(self).error == Option::Some(err),
            final(self).symbol == old(self).symbol,
            final(self).filter_by_orders == old(self).filter_by_orders,
            final(self).trades == old(self).trades,
            final(self).order_ids == old(self).order_ids,
    {
        self.phase = IngestPhase::Failed;
        self.error = Some(err);
    }

    /// Close the run either way: the sorted selection on success, the
    /// recorded error kind on failure, never a partial result.
    pub fn outcome(self) -> (r: Result<Vec<Trade>, IngestError>)
        requires
            self.wf(),
            self.phase == IngestPhase::Complete || self.phase == IngestPhase::Failed,
        ensures
            match r {
                Ok(res) => {
                    &&& self.phase == IngestPhase::Complete
                    &&& res@ == sort_by_time(
                        selected_trades(
                            self.trades@,
                            str_views(self.order_ids@),
                            self.filter_by_orders,
                        ),
                    )
                    &&& time_sorted(res@)
                    &&& trades_wf(trade_views(res@))
                },
                Err(e) => self.phase == IngestPhase::Failed && self.error == Option::Some(e),
            },
    {
        match self.error {
            Some(e) => Err(e),
            None => Ok(self.finish()),
        }
    }

    /// Close the run: apply the order-group cross-reference if one was
    /// requested, then stable-sort the retained trades by timestamp.
    pub fn finish(self) -> (res: Vec<Trade>)
        requires
            self.wf(),
            self.phase == IngestPhase::Complete,
        ensures
            res@ == sort_by_time(
                selected_trades(self.trades@, str_views(self.order_ids@), self.filter_by_orders),
            ),
            time_sorted(res@),
            trades_wf(trade_views(res@)),
    {
        proof {
            lemma_sort_by_time_sorted(
                selected_trades(self.trades@, str_views(self.order_ids@), self.filter_by_orders),
            );
        }
        let mut trades = self.trades;
        let order_ids = self.order_ids;
        let ghost trades0 = trades@;
        let ghost idsv = str_views(order_ids@);
        let mut kept: Vec<Trade>;
        if self.filter_by_orders {
            kept = Vec::new();
            let tlen = trades.len();
            proof {
                reveal(Seq::filter);
                assert(trades0.take(0) =~= Seq::<Trade>::empty());
                assert(order_filter(trades0.take(0), idsv) =~= Seq::<Trade>::empty());
            }
            let mut k: usize = 0;
            while trades.len() > 0
                invariant
                    k == trades0.len() - trades.len(),
                    0 <= k <= trades0.len(),
                    trades0.len() == tlen <= usize::MAX,
                    trades@ =~= trades0.skip(k as int),
                    kept@ == order_filter(trades0.take(k as int), idsv),
                    trades_wf(trade_views(trades0)),
                    trades_wf(trade_views(kept@)),
                    idsv == str_views(order_ids@),
                decreases trades.len(),
            {
                let t = trades.remove(0);
                proof {
                    assert(t == trades0[k as int]);
                    assert(trade_views(trades0)[k as int] == trades0[k as int]@);
                    assert(trades@ =~= trades0.skip(k as int + 1));
                    assert(trades0.take(k as int + 1).drop_last() =~= trades0.take(k as int));
                    assert(trades0.take(k as int + 1).last() == trades0[k as int]);
                }
                let keep = contains_order(&order_ids, &t.order_id);
                if keep {
                    let ghost before = kept@;
                    kept.push(t);
                    proof {
                        reveal(Seq::filter);
                        assert(trade_views(kept@) =~= trade_views(before).push(t@));
                        assert(kept@ =~= order_filter(trades0.take(k as int + 1), idsv));
                    }
                } else {
                    proof {
                        reveal(Seq::filter);
                        assert(order_filter(trades0.take(k as int + 1), idsv) =~= order_filter(
                            trades0.take(k as int),
                            idsv,
                        ));
                    }
                }
                k = k + 1;
            }
            proof {
                assert(trades0.take(trades0.len() as int) =~= trades0);
            }
        } else {
            kept = trades;
        }
        // Stable insertion sort ascending by timestamp.
        let ghost kept0 = kept@;
        let klen = kept.len();
        let mut out: Vec<Trade> = Vec::new();
        proof {
            assert(kept0.take(0) =~= Seq::<Trade>::empty());
        }
        let mut k: usize = 0;
        while kept.len() > 0
            invariant
                k == kept0.len() - kept.len(),
                0 <= k <= kept0.len(),
                kept0.len() == klen <= usize::MAX,
                kept@ =~= kept0.skip(k as int),
                out@ == sort_by_time(kept0.take(k as int)),
                out@.len() == k,
                trades_wf(trade_views(kept0)),
                trades_wf(trade_views(out@)),
            decreases kept.len(),
        {
            let t = kept.remove(0);
            proof {
                assert(t == kept0[k as int]);
                assert(trade_views(kept0)[k as int] == kept0[k as int]@);
                assert(kept@ =~= kept0.skip(k as int + 1));
                assert(kept0.take(k as int + 1).drop_last() =~= kept0.take(k as int));
                assert(kept0.take(k as int + 1).last() == kept0[k as int]);
            }
            let ghost out0 = out@;
            let mut j: usize = out.len();
            while j > 0 && out[j - 1].timestamp_nanos > t.timestamp_nanos
                invariant
                    0 <= j <= out@.len(),
                    out@ == out0,
                    forall|idx: int|
                        j <= idx < out@.len() ==> out@[idx].timestamp_nanos > t.timestamp_nanos,
                decreases j,
            {
                j = j - 1;
            }
            out.insert(j, t);
            k = k + 1;
            proof {
                lemma_insert_by_time_split(out0, t, j as int);
                assert(out@ =~= out0.take(j as int).push(t) + out0.skip(j as int));
                assert(out@ == insert_by_time(out0, t));
                assert forall|i: int| 0 <= i < out@.len() implies trade_wf(
                    #[trigger] trade_views(out@)[i],
                ) by {
                    assert(trade_views(out@)[i] == out@[i]@);
                    if i < j {
                        assert(out@[i] == out0[i]);
                        assert(trade_views(out0)[i] == out0[i]@);
                    } else if i == j {
                        assert(out@[i] == t);
                    } else {
                        assert(out@[i] == out0[i - 1]);
                        assert(trade_views(out0)[i - 1] == out0[i - 1]@);
                    }
                }
            }
        }
        proof {
            assert(kept0.take(kept0.len() as int) =~= kept0);
        }
        out
    }
}

} // verus!
