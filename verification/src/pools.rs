//! The registry of the pools that a gateway created, read from the log window by window.

use crate::amm::{
    decode_pool_created_log, default_gateway, named_gateway, pool_created_of, AmmPoolCreated,
    AmmPoolCreatedView,
};
use crate::api::{api_error, refuses, ApiError, Status};
use crate::logs::{
    log_views, normalized, option_str, sized_bytes, DecodeError, EthLog, LogView,
};
use crate::text::lowercase;
use vstd::prelude::*;

verus! {

/// The number of pools that is read where a request names none.
pub const DEFAULT_LIMIT: usize = 200;

/// The greatest number of pools that one request reads.
pub const MAX_LIMIT: usize = 1000;

/// What to read for a request.
#[derive(Clone, Debug, PartialEq, Eq)]
pub struct PoolsRequest {
    pub gateway: String,
    pub from_block: u64,
    pub limit: usize,
}

/// The number of pools to read: that which a request names, kept between 1 and the greatest.
pub open spec fn read_limit(requested: Option<usize>) -> usize {
    match requested {
        None => DEFAULT_LIMIT,
        Some(limit) => if limit < 1 {
            1
        } else if limit > MAX_LIMIT {
            MAX_LIMIT
        } else {
            limit
        },
    }
}

/// What to read for a request that names a gateway, a first block and a number of pools, each or
/// not, given the configured gateway and the block that the indexer starts from.
pub fn pools_request(
    configured: &Option<String>,
    start_block: u64,
    gateway: Option<&str>,
    from_block: Option<u64>,
    limit: Option<usize>,
) -> (r: Result<PoolsRequest, ApiError>)
    ensures
        match (named_gateway(option_str(gateway)), *configured) {
            (Some(named), _) if sized_bytes(named, 20) is None => refuses(
                r,
                Status::BadRequest,
                "invalid gateway address"@,
            ),
            (None, None) => refuses(
                r,
                Status::BadRequest,
                "gateway required (no PRIVACYBTC_INDEXER_AMM_SETTLEMENT configured)"@,
            ),
            (named, configured) => r matches Ok(request) && request.gateway@ == (match named {
                Some(named) => lowercase(normalized(named)),
                None => configured->0@,
            }) && request.from_block == (match from_block {
                Some(block) => block,
                None => start_block,
            }) && request.limit == read_limit(limit),
        },
{
    let gateway = match default_gateway(configured, gateway) {
        Err(error) => return Err(error),
        Ok(None) => return Err(
            api_error(
                Status::BadRequest,
                "gateway required (no PRIVACYBTC_INDEXER_AMM_SETTLEMENT configured)",
            ),
        ),
        Ok(Some(gateway)) => gateway,
    };
    let limit: usize = match limit {
        None => DEFAULT_LIMIT,
        Some(limit) => if limit < 1 {
            1
        } else if limit > MAX_LIMIT {
            MAX_LIMIT
        } else {
            limit
        },
    };
    let from_block: u64 = match from_block {
        Some(block) => block,
        None => start_block,
    };
    Ok(PoolsRequest { gateway, from_block, limit })
}

/// A scan of the log for the pools of one gateway.
#[derive(Clone, Debug)]
pub struct PoolScan {
    gateway: String,
    limit: usize,
    head: u64,
    next: u64,
    ended: bool,
    found: Vec<AmmPoolCreated>,
}

/// How far a scan is: the pools found, the block to read from, and whether no block is left.
#[verifier::ext_equal]
pub struct PoolScanView {
    pub gateway: Seq<char>,
    pub limit: usize,
    pub head: u64,
    pub next: u64,
    pub ended: bool,
    pub found: Seq<AmmPoolCreatedView>,
}

pub open spec fn pool_views(pools: Seq<AmmPoolCreated>) -> Seq<AmmPoolCreatedView> {
    pools.map_values(|pool: AmmPoolCreated| pool@)
}

impl View for PoolScan {
    type V = PoolScanView;

    closed spec fn view(&self) -> PoolScanView {
        PoolScanView {
            gateway: self.gateway@,
            limit: self.limit,
            head: self.head,
            next: self.next,
            ended: self.ended,
            found: pool_views(self.found@),
        }
    }
}

/// The block that a scan goes on from, unless it is past its head or has found what it may.
pub open spec fn next_block(scan: PoolScanView) -> Option<u64> {
    if !scan.ended && scan.next <= scan.head && scan.found.len() < scan.limit {
        Some(scan.next)
    } else {
        None
    }
}

/// The pools found after the first `count` logs, up to the limit, or what is wrong with a log that
/// was read for them.
pub open spec fn collected(
    found: Seq<AmmPoolCreatedView>,
    logs: Seq<LogView>,
    gateway: Seq<char>,
    limit: nat,
    count: nat,
) -> Result<Seq<AmmPoolCreatedView>, DecodeError>
    decreases count,
{
    if count == 0 {
        Ok(found)
    } else {
        match collected(found, logs, gateway, limit, (count - 1) as nat) {
            Err(error) => Err(error),
            Ok(before) => if before.len() >= limit {
                Ok(before)
            } else {
                match pool_created_of(logs[count - 1], Some(gateway)) {
                    Err(error) => Err(error),
                    Ok(None) => Ok(before),
                    Ok(Some(pool)) => Ok(before.push(pool)),
                }
            },
        }
    }
}

/// A scan that found `found` and read the log up to the block `end`.
pub open spec fn after_window(
    scan: PoolScanView,
    found: Seq<AmmPoolCreatedView>,
    end: u64,
) -> PoolScanView {
    PoolScanView {
        next: if end == u64::MAX {
            scan.next
        } else {
            (end + 1) as u64
        },
        ended: scan.ended || end == u64::MAX,
        found,
        ..scan
    }
}

/// What is wrong with the first logs stays wrong with more of them, and a scan that has found what
/// it may reads no more.
proof fn lemma_collected_stays(
    found: Seq<AmmPoolCreatedView>,
    logs: Seq<LogView>,
    gateway: Seq<char>,
    limit: nat,
    count: nat,
    more: nat,
)
    requires
        count <= more,
        match collected(found, logs, gateway, limit, count) {
            Err(_) => true,
            Ok(before) => before.len() >= limit,
        },
    ensures
        collected(found, logs, gateway, limit, more) == collected(
            found,
            logs,
            gateway,
            limit,
            count,
        ),
    decreases more,
{
    if count < more {
        lemma_collected_stays(found, logs, gateway, limit, count, (more - 1) as nat);
    }
}

impl PoolScan {
    /// A scan for at most `limit` pools of a gateway, from a block up to `head`.
    pub fn new(gateway: &str, start_block: u64, limit: usize, head: u64) -> (r: PoolScan)
        ensures
            r@ == (PoolScanView {
                gateway: gateway@,
                limit,
                head,
                next: start_block,
                ended: false,
                found: seq![],
            }),
    {
        let r = PoolScan {
            gateway: gateway.to_owned(),
            limit,
            head,
            next: start_block,
            ended: false,
            found: Vec::new(),
        };
        assert(r@.found =~= seq![]);
        r
    }

    /// The block to read from, if anything is left to read.
    pub fn next_block(&self) -> (r: Option<u64>)
        ensures
            r == next_block(self@),
            r is Some <==> !self@.ended && self@.next <= self@.head && self@.found.len()
                < self@.limit,
            r matches Some(block) ==> block == self@.next,
    {
        if !self.ended && self.next <= self.head && self.found.len() < self.limit {
            Some(self.next)
        } else {
            None
        }
    }

    /// The number of blocks that turned out too many where the window up to `end` was refused for
    /// its width, or nothing where the window is a single block and cannot be narrowed.
    pub fn refused_width(&self, end: u64) -> (r: Option<u64>)
        requires
            end - self@.next < u64::MAX,
        ensures
            r == if end > self@.next {
                Some((end - self@.next + 1) as u64)
            } else {
                None
            },
    {
        if end > self.next {
            Some(end - self.next + 1)
        } else {
            None
        }
    }

    /// Takes in the logs of the window up to the block `end`.
    pub fn read(self, end: u64, logs: &Vec<EthLog>) -> (r: Result<PoolScan, DecodeError>)
        ensures
            match collected(
                self@.found,
                log_views(logs@),
                self@.gateway,
                self@.limit as nat,
                logs@.len(),
            ) {
                Ok(found) => r matches Ok(scan) && scan@ == after_window(self@, found, end),
                Err(error) => r == Err::<PoolScan, _>(error),
            },
            r matches Ok(scan) ==> scan@.head == self@.head && scan@.limit == self@.limit
                && scan@.gateway == self@.gateway && (end < u64::MAX ==> scan@.next == end + 1
                && scan@.ended == self@.ended),
    {
        let ghost views = log_views(logs@);
        let ghost before = self@;
        let PoolScan { gateway, limit, head, next, ended, mut found } = self;
        let mut i: usize = 0;
        while i < logs.len() && found.len() < limit
            invariant
                i <= logs@.len(),
                views == log_views(logs@),
                before == self@,
                gateway@ == before.gateway,
                limit == before.limit,
                collected(before.found, views, before.gateway, before.limit as nat, i as nat)
                    == Ok::<_, DecodeError>(pool_views(found@)),
            decreases logs.len() - i,
        {
            assert(views[i as int] == logs@[i as int]@);
            match decode_pool_created_log(&logs[i], Some(gateway.as_str())) {
                Ok(Some(pool)) => {
                    let ghost earlier = found@;
                    found.push(pool);
                    assert(pool_views(found@) =~= pool_views(earlier).push(pool@));
                },
                Ok(None) => {},
                Err(error) => {
                    proof {
                        lemma_collected_stays(
                            before.found,
                            views,
                            before.gateway,
                            before.limit as nat,
                            (i + 1) as nat,
                            views.len(),
                        );
                    }
                    return Err(error);
                },
            }
            i = i + 1;
        }
        proof {
            if i < logs@.len() {
                lemma_collected_stays(
                    before.found,
                    views,
                    before.gateway,
                    before.limit as nat,
                    i as nat,
                    views.len(),
                );
            }
        }
        let (next, ended): (u64, bool) = if end == u64::MAX {
            (next, true)
        } else {
            (end + 1, ended)
        };
        Ok(PoolScan { gateway, limit, head, next, ended, found })
    }

    /// The pools found, in the order of the log.
    pub fn into_pools(self) -> (r: Vec<AmmPoolCreated>)
        ensures
            pool_views(r@) == self@.found,
    {
        self.found
    }
}

/// A scan finds no more pools than it may, and keeps those that it has found, in their order.
pub proof fn law_scan_keeps_limit(
    found: Seq<AmmPoolCreatedView>,
    logs: Seq<LogView>,
    gateway: Seq<char>,
    limit: nat,
    count: nat,
)
    requires
        found.len() <= limit,
    ensures
        collected(found, logs, gateway, limit, count) matches Ok(now) ==> now.len() <= limit
            && found.len() <= now.len() && now.take(found.len() as int) == found,
    decreases count,
{
    if count > 0 {
        law_scan_keeps_limit(found, logs, gateway, limit, (count - 1) as nat);
        if let Ok(now) = collected(found, logs, gateway, limit, count) {
            let before = collected(found, logs, gateway, limit, (count - 1) as nat)->Ok_0;
            assert(now.take(found.len() as int) =~= before.take(found.len() as int));
        }
    } else {
        assert(found.take(found.len() as int) =~= found);
    }
}

/// A scan that stayed below its limit has found every pool of the gateway in the logs.
pub proof fn law_scan_is_complete(
    found: Seq<AmmPoolCreatedView>,
    logs: Seq<LogView>,
    gateway: Seq<char>,
    limit: nat,
    count: nat,
    i: int,
)
    requires
        0 <= i < count,
        collected(found, logs, gateway, limit, count) is Ok,
        collected(found, logs, gateway, limit, count)->Ok_0.len() < limit,
    ensures
        pool_created_of(logs[i], Some(gateway)) matches Ok(Some(pool)) ==> collected(
            found,
            logs,
            gateway,
            limit,
            count,
        )->Ok_0.contains(pool),
    decreases count,
{
    let before = collected(found, logs, gateway, limit, (count - 1) as nat)->Ok_0;
    let now = collected(found, logs, gateway, limit, count)->Ok_0;
    if i < count - 1 {
        law_scan_is_complete(found, logs, gateway, limit, (count - 1) as nat, i);
        if let Ok(Some(pool)) = pool_created_of(logs[i], Some(gateway)) {
            let k = choose|k: int| 0 <= k < before.len() && before[k] == pool;
            assert(now[k] == pool);
        }
    } else if let Ok(Some(pool)) = pool_created_of(logs[i], Some(gateway)) {
        assert(now.last() == pool);
    }
}

/// Reading the log in two windows finds what reading it in one does.
pub proof fn law_windows_do_not_matter(
    found: Seq<AmmPoolCreatedView>,
    first: Seq<LogView>,
    second: Seq<LogView>,
    gateway: Seq<char>,
    limit: nat,
    count: nat,
)
    requires
        count <= second.len(),
    ensures
        collected(found, first + second, gateway, limit, first.len() + count) == match collected(
            found,
            first,
            gateway,
            limit,
            first.len(),
        ) {
            Err(error) => Err(error),
            Ok(between) => collected(between, second, gateway, limit, count),
        },
    decreases count,
{
    if count == 0 {
        lemma_collected_prefix(found, first, second, gateway, limit, first.len());
    } else {
        law_windows_do_not_matter(found, first, second, gateway, limit, (count - 1) as nat);
        assert((first + second)[first.len() + count - 1] == second[count - 1]);
    }
}

/// What the first logs give does not depend on those after them.
proof fn lemma_collected_prefix(
    found: Seq<AmmPoolCreatedView>,
    first: Seq<LogView>,
    second: Seq<LogView>,
    gateway: Seq<char>,
    limit: nat,
    count: nat,
)
    requires
        count <= first.len(),
    ensures
        collected(found, first + second, gateway, limit, count) == collected(
            found,
            first,
            gateway,
            limit,
            count,
        ),
    decreases count,
{
    if count > 0 {
        lemma_collected_prefix(found, first, second, gateway, limit, (count - 1) as nat);
        assert((first + second)[count - 1] == first[count - 1]);
    }
}

/// The number of pools to read is the one asked for where that is between 1 and 1000, the nearer of
/// these where it is not, and 200 where none is asked for.
pub proof fn law_read_limit(requested: usize)
    ensures
        read_limit(None) == 200,
        1 <= requested <= 1000 ==> read_limit(Some(requested)) == requested,
        requested == 0 ==> read_limit(Some(requested)) == 1,
        requested > 1000 ==> read_limit(Some(requested)) == 1000,
{
}

/// Pools say what they say one by one, in their order.
pub proof fn law_pool_list(pools: Seq<AmmPoolCreated>, i: int)
    ensures
        pool_views(pools).len() == pools.len(),
        0 <= i < pools.len() ==> pool_views(pools)[i] == pools[i]@,
{
}

/// One more log adds the pool that it tells of, if it tells of one, behind those found so far; a
/// log that is not in order ends the scan, and once the limit is reached no log is looked at.
pub proof fn law_scan_step(
    found: Seq<AmmPoolCreatedView>,
    logs: Seq<LogView>,
    gateway: Seq<char>,
    limit: nat,
    count: nat,
    before: Seq<AmmPoolCreatedView>,
)
    requires
        collected(found, logs, gateway, limit, count) == Ok::<_, DecodeError>(before),
    ensures
        collected(found, logs, gateway, limit, 0) == Ok::<_, DecodeError>(found),
        before.len() >= limit ==> collected(found, logs, gateway, limit, count + 1) == Ok::<
            _,
            DecodeError,
        >(before),
        before.len() < limit ==> ({
            let now = collected(found, logs, gateway, limit, count + 1);
            match pool_created_of(logs[count as int], Some(gateway)) {
                Ok(Some(pool)) => now == Ok::<_, DecodeError>(before.push(pool)),
                Ok(None) => now == Ok::<_, DecodeError>(before),
                Err(error) => now == Err::<Seq<AmmPoolCreatedView>, _>(error),
            }
        }),
{
}

/// A scan goes on with the block behind the window that was read, whatever the window held, until
/// it has read up to its head or has found as many pools as it may; then it is over. It changes
/// nothing but how far it is and what it has found.
pub proof fn law_scan_goes_on(scan: PoolScanView, found: Seq<AmmPoolCreatedView>, end: u64)
    requires
        next_block(scan) is Some,
    ensures
        end < scan.head && found.len() < scan.limit ==> next_block(after_window(scan, found, end))
            == Some((end + 1) as u64),
        end >= scan.head || found.len() >= scan.limit ==> next_block(
            after_window(scan, found, end),
        ) is None,
        after_window(scan, found, end).found == found,
        after_window(scan, found, end).gateway == scan.gateway,
        after_window(scan, found, end).limit == scan.limit,
        after_window(scan, found, end).head == scan.head,
{
}

/// A scan starts with its first block, unless that is past the head or no pool may be found.
pub proof fn law_scan_starts(scan: PoolScanView)
    requires
        !scan.ended,
        scan.found.len() == 0,
    ensures
        scan.next <= scan.head && scan.limit > 0 ==> next_block(scan) == Some(scan.next),
        scan.next > scan.head || scan.limit == 0 ==> next_block(scan) is None,
{
}

/// The logs of the first `count` windows, one window after the other.
pub open spec fn logs_of(windows: Seq<Seq<LogView>>, count: nat) -> Seq<LogView>
    decreases count,
{
    if count == 0 {
        seq![]
    } else {
        logs_of(windows, (count - 1) as nat) + windows[count - 1]
    }
}

/// Whether the states of a scan follow each other: each window is read from where the scan was, and
/// none of its logs is refused.
pub open spec fn is_scan(
    scans: Seq<PoolScanView>,
    ends: Seq<u64>,
    windows: Seq<Seq<LogView>>,
) -> bool {
    &&& scans.len() == windows.len() + 1
    &&& ends.len() == windows.len()
    &&& forall|k: int|
        0 <= k < windows.len() ==> {
            let before = #[trigger] scans[k];
            let read = collected(
                before.found,
                windows[k],
                before.gateway,
                before.limit as nat,
                windows[k].len(),
            );
            &&& next_block(before) is Some
            &&& read is Ok
            &&& scans[k + 1] == after_window(before, read->Ok_0, ends[k])
        }
}

/// A scan has found after any number of windows what the logs of all of them hold, up to its limit.
proof fn lemma_scan(
    scans: Seq<PoolScanView>,
    ends: Seq<u64>,
    windows: Seq<Seq<LogView>>,
    count: nat,
)
    requires
        is_scan(scans, ends, windows),
        count <= windows.len(),
    ensures
        scans[count as int].gateway == scans[0].gateway,
        scans[count as int].limit == scans[0].limit,
        scans[count as int].head == scans[0].head,
        collected(
            scans[0].found,
            logs_of(windows, count),
            scans[0].gateway,
            scans[0].limit as nat,
            logs_of(windows, count).len(),
        ) == Ok::<_, DecodeError>(scans[count as int].found),
    decreases count,
{
    if count > 0 {
        let last = (count - 1) as nat;
        lemma_scan(scans, ends, windows, last);
        let first = logs_of(windows, last);
        let second = windows[last as int];
        law_windows_do_not_matter(
            scans[0].found,
            first,
            second,
            scans[0].gateway,
            scans[0].limit as nat,
            second.len(),
        );
    }
}

/// A scan that is over has found all pools of its gateway in the logs of the windows that it read,
/// in their order, up to its limit; and if it has found fewer, it has read up to its head.
pub proof fn law_finished_scan(
    scans: Seq<PoolScanView>,
    ends: Seq<u64>,
    windows: Seq<Seq<LogView>>,
)
    requires
        is_scan(scans, ends, windows),
        windows.len() > 0,
        next_block(scans.last()) is None,
    ensures
        collected(
            scans[0].found,
            logs_of(windows, windows.len()),
            scans[0].gateway,
            scans[0].limit as nat,
            logs_of(windows, windows.len()).len(),
        ) == Ok::<_, DecodeError>(scans.last().found),
        scans.last().found.len() < scans[0].limit ==> ends.last() >= scans[0].head,
{
    lemma_scan(scans, ends, windows, windows.len());
    let last = windows.len() - 1;
    lemma_scan(scans, ends, windows, last as nat);
    law_scan_goes_on(scans[last], scans.last().found, ends[last]);
}

/// Windows follow each other without a gap: the next one starts behind the end of the one before.
pub proof fn law_windows_have_no_gap(
    scans: Seq<PoolScanView>,
    ends: Seq<u64>,
    windows: Seq<Seq<LogView>>,
    k: int,
)
    requires
        is_scan(scans, ends, windows),
        0 <= k,
        k + 1 < windows.len(),
    ensures
        next_block(scans[k + 1]) == Some((ends[k] + 1) as u64),
        ends[k] < scans[0].head,
{
    lemma_scan(scans, ends, windows, k as nat);
    law_scan_goes_on(scans[k], scans[k + 1].found, ends[k]);
}

} // verus!
