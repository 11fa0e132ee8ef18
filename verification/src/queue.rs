//! Torrent queue: which torrents are active, queued or manually paused, with
//! configurable limits on concurrent active downloads and uploads.
//!
//! Queued torrents wait in queue order: by position, and among equal
//! positions by the order in which they were registered.
use vstd::prelude::*;

verus! {

/// The id by which the session knows a torrent.
pub type TorrentId = usize;

/// Configuration for queue limits.
#[derive(Debug, Clone, Copy, Default)]
pub struct QueueLimitsConfig {
    /// Max concurrent downloading torrents. 0 means unlimited.
    pub max_active_downloads: u32,
    /// Max concurrent seeding (upload-only) torrents. 0 means unlimited.
    pub max_active_uploads: u32,
    /// Max total active (downloading + seeding) torrents. 0 means unlimited.
    pub max_active_total: u32,
}

/// The queue state of a torrent from the queue manager's perspective.
#[derive(Debug, Clone, Copy, PartialEq, Eq, Structural)]
pub enum QueueState {
    /// Torrent is actively downloading or seeding (has a slot).
    Active,
    /// Torrent is waiting for a slot to become available.
    Queued,
    /// Torrent was manually paused by the user (not managed by queue).
    ManuallyPaused,
}

/// Entry in the queue for a specific torrent.
#[derive(Debug, Clone, Copy)]
pub struct QueueEntry {
    pub id: TorrentId,
    /// Position in the queue (lower = higher priority). Only meaningful for Queued state.
    pub position: u32,
    pub state: QueueState,
}

/// The abstract state of a queue manager.
pub struct QueueView {
    pub limits: QueueLimitsConfig,
    pub entries: Seq<QueueEntry>,
}

/// The queue manager tracks which torrents are active, queued, or manually paused,
/// and enforces configurable limits on concurrent active downloads/uploads.
pub struct QueueManager {
    max_active_downloads: u32,
    max_active_uploads: u32,
    max_active_total: u32,
    entries: Vec<QueueEntry>,
}

impl View for QueueManager {
    type V = QueueView;

    closed spec fn view(&self) -> QueueView {
        QueueView {
            limits: QueueLimitsConfig {
                max_active_downloads: self.max_active_downloads,
                max_active_uploads: self.max_active_uploads,
                max_active_total: self.max_active_total,
            },
            entries: self.entries@,
        }
    }
}

// ----- the model -----

/// The number of entries in state `st`.
pub open spec fn count_state(es: Seq<QueueEntry>, st: QueueState) -> nat
    decreases es.len(),
{
    if es.len() == 0 {
        0
    } else {
        count_state(es.drop_last(), st) + if es.last().state == st { 1nat } else { 0nat }
    }
}

/// Whether one more torrent may become active: the total limit, and the
/// download or upload limit, each when positive, is above the number of
/// active torrents.
pub open spec fn slot_free(q: QueueLimitsConfig, es: Seq<QueueEntry>, is_downloading: bool) -> bool {
    let active = count_state(es, QueueState::Active) as u32;
    &&& !(q.max_active_total > 0 && active >= q.max_active_total)
    &&& if is_downloading {
        !(q.max_active_downloads > 0 && active >= q.max_active_downloads)
    } else {
        !(q.max_active_uploads > 0 && active >= q.max_active_uploads)
    }
}

/// The highest position among queued entries.
pub open spec fn max_queued_position(es: Seq<QueueEntry>) -> Option<u32>
    decreases es.len(),
{
    if es.len() == 0 {
        None
    } else {
        let prev = max_queued_position(es.drop_last());
        if es.last().state != QueueState::Queued {
            prev
        } else {
            match prev {
                Some(p) => Some(if es.last().position > p { es.last().position } else { p }),
                None => Some(es.last().position),
            }
        }
    }
}

/// The lowest position among queued entries.
pub open spec fn min_queued_position(es: Seq<QueueEntry>) -> Option<u32>
    decreases es.len(),
{
    if es.len() == 0 {
        None
    } else {
        let prev = min_queued_position(es.drop_last());
        if es.last().state != QueueState::Queued {
            prev
        } else {
            match prev {
                Some(p) => Some(if es.last().position < p { es.last().position } else { p }),
                None => Some(es.last().position),
            }
        }
    }
}

/// The position a newly queued torrent gets: one after the last queued one.
pub open spec fn next_queue_position(es: Seq<QueueEntry>) -> u32 {
    match max_queued_position(es) {
        Some(p) => (p + 1) as u32,
        None => 0,
    }
}

/// Giving a new position cannot overflow.
pub open spec fn positions_bounded(es: Seq<QueueEntry>) -> bool {
    match max_queued_position(es) {
        Some(p) => p < u32::MAX,
        None => true,
    }
}

/// The first index below `k` that `keep` admits.
pub open spec fn first_index_where(keep: spec_fn(int) -> bool, k: nat) -> Option<int>
    decreases k,
{
    if k == 0 {
        None
    } else {
        match first_index_where(keep, (k - 1) as nat) {
            Some(i) => Some(i),
            None => if keep(k - 1) { Some(k - 1) } else { None },
        }
    }
}

/// The index of the first entry for `id`.
pub open spec fn first_with_id(es: Seq<QueueEntry>, id: TorrentId) -> Option<int> {
    first_index_where(|i: int| es[i].id == id, es.len())
}

/// The index of the first queued entry for `id`, in registration order.
pub open spec fn first_queued_with_id(es: Seq<QueueEntry>, id: TorrentId) -> Option<int> {
    first_index_where(is_queued_with_id(es, id), es.len())
}

pub proof fn lemma_first_index_where(keep: spec_fn(int) -> bool, k: nat)
    ensures
        match first_index_where(keep, k) {
            Some(i) => 0 <= i < k && keep(i) && forall|j: int| 0 <= j < i ==> !#[trigger] keep(j),
            None => forall|j: int| 0 <= j < k ==> !#[trigger] keep(j),
        },
    decreases k,
{
    if k > 0 {
        lemma_first_index_where(keep, (k - 1) as nat);
    }
}

/// Queue order: entry `i` comes before entry `j`.
pub open spec fn before(es: Seq<QueueEntry>, i: int, j: int) -> bool {
    es[i].position < es[j].position || (es[i].position == es[j].position && i < j)
}

/// Among the first `k` entries, the one that comes first in queue order among
/// those `keep` admits.
pub open spec fn first_in_order(es: Seq<QueueEntry>, keep: spec_fn(int) -> bool, k: nat) -> Option<int>
    decreases k,
{
    if k == 0 {
        None
    } else {
        let i = k - 1;
        let r = first_in_order(es, keep, (k - 1) as nat);
        if keep(i) && (r is None || before(es, i, r->0)) {
            Some(i)
        } else {
            r
        }
    }
}

/// Among the first `k` entries, the one that comes last in queue order among
/// those `keep` admits.
pub open spec fn last_in_order(es: Seq<QueueEntry>, keep: spec_fn(int) -> bool, k: nat) -> Option<int>
    decreases k,
{
    if k == 0 {
        None
    } else {
        let i = k - 1;
        let r = last_in_order(es, keep, (k - 1) as nat);
        if keep(i) && (r is None || before(es, r->0, i)) {
            Some(i)
        } else {
            r
        }
    }
}

pub open spec fn is_queued(es: Seq<QueueEntry>) -> spec_fn(int) -> bool {
    |i: int| es[i].state == QueueState::Queued
}

pub open spec fn is_queued_with_id(es: Seq<QueueEntry>, id: TorrentId) -> spec_fn(int) -> bool {
    |i: int| es[i].state == QueueState::Queued && es[i].id == id
}

/// The queued entry that comes first in queue order.
pub open spec fn head_of_queue(es: Seq<QueueEntry>) -> Option<int> {
    first_in_order(es, is_queued(es), es.len())
}

/// The queued entry for `id` that comes first in queue order.
pub open spec fn queued_entry_of(es: Seq<QueueEntry>, id: TorrentId) -> Option<int> {
    first_in_order(es, is_queued_with_id(es, id), es.len())
}

/// The queued entry just before entry `b` in queue order.
pub open spec fn queued_before(es: Seq<QueueEntry>, b: int) -> Option<int> {
    last_in_order(es, |i: int| es[i].state == QueueState::Queued && before(es, i, b), es.len())
}

/// The queued entry just after entry `b` in queue order.
pub open spec fn queued_after(es: Seq<QueueEntry>, b: int) -> Option<int> {
    first_in_order(es, |i: int| es[i].state == QueueState::Queued && before(es, b, i), es.len())
}

/// How many queued entries come before entry `b` in queue order.
pub open spec fn queue_rank(es: Seq<QueueEntry>, b: int, k: nat) -> nat
    decreases k,
{
    if k == 0 {
        0
    } else {
        queue_rank(es, b, (k - 1) as nat) + if es[k - 1].state == QueueState::Queued && before(es, k - 1, b) {
            1nat
        } else {
            0nat
        }
    }
}

pub open spec fn with_state(e: QueueEntry, st: QueueState) -> QueueEntry {
    QueueEntry { id: e.id, position: e.position, state: st }
}

pub open spec fn with_position(e: QueueEntry, p: u32) -> QueueEntry {
    QueueEntry { id: e.id, position: p, state: e.state }
}

/// Promotion of queued torrents: while a download slot is free, the torrent at
/// the head of the queue becomes active. The entries after, and the ids
/// promoted in order.
pub open spec fn promote(q: QueueLimitsConfig, es: Seq<QueueEntry>) -> (Seq<QueueEntry>, Seq<TorrentId>)
    decreases count_state(es, QueueState::Queued),
{
    if !slot_free(q, es, true) {
        (es, Seq::empty())
    } else {
        match head_of_queue(es) {
            None => (es, Seq::empty()),
            Some(i) => {
                let es2 = es.update(i, with_state(es[i], QueueState::Active));
                proof {
                    lemma_first_in_order(es, is_queued(es), es.len());
                    lemma_count_update(es, i, with_state(es[i], QueueState::Active));
                }
                let rest = promote(q, es2);
                (rest.0, seq![es[i].id] + rest.1)
            },
        }
    }
}

/// `first_in_order` finds the entry that `keep` admits and that comes first.
pub proof fn lemma_first_in_order(es: Seq<QueueEntry>, keep: spec_fn(int) -> bool, k: nat)
    requires
        k <= es.len(),
    ensures
        match first_in_order(es, keep, k) {
            Some(i) => 0 <= i < k && keep(i) && forall|j: int| 0 <= j < k && #[trigger] keep(j) && j != i ==> before(es, i, j),
            None => forall|j: int| 0 <= j < k ==> !#[trigger] keep(j),
        },
    decreases k,
{
    if k > 0 {
        lemma_first_in_order(es, keep, (k - 1) as nat);
    }
}

/// `last_in_order` finds the entry that `keep` admits and that comes last.
pub proof fn lemma_last_in_order(es: Seq<QueueEntry>, keep: spec_fn(int) -> bool, k: nat)
    requires
        k <= es.len(),
    ensures
        match last_in_order(es, keep, k) {
            Some(i) => 0 <= i < k && keep(i) && forall|j: int| 0 <= j < k && #[trigger] keep(j) && j != i ==> before(es, j, i),
            None => forall|j: int| 0 <= j < k ==> !#[trigger] keep(j),
        },
    decreases k,
{
    if k > 0 {
        lemma_last_in_order(es, keep, (k - 1) as nat);
    }
}

/// Counting after replacing one entry.
pub proof fn lemma_count_update(es: Seq<QueueEntry>, i: int, e: QueueEntry)
    requires
        0 <= i < es.len(),
    ensures
        forall|st: QueueState| #[trigger] count_state(es.update(i, e), st)
            == count_state(es, st) - (if es[i].state == st { 1int } else { 0int }) + (if e.state == st { 1int } else { 0int }),
    decreases es.len(),
{
    let es2 = es.update(i, e);
    if i < es.len() - 1 {
        lemma_count_update(es.drop_last(), i, e);
        assert(es2.drop_last() =~= es.drop_last().update(i, e));
    } else {
        assert(es2.drop_last() =~= es.drop_last());
    }
    assert forall|st: QueueState| #[trigger] count_state(es2, st)
        == count_state(es, st) - (if es[i].state == st { 1int } else { 0int }) + (if e.state == st { 1int } else { 0int }) by {
        if i < es.len() - 1 {
            assert(count_state(es.drop_last().update(i, e), st) == count_state(es.drop_last(), st)
                - (if es[i].state == st { 1int } else { 0int }) + (if e.state == st { 1int } else { 0int }));
        }
    }
}

} // verus!

verus! {

/// The entry a new registration adds.
pub open spec fn registered_entry(q: QueueView, id: TorrentId, is_downloading: bool, manually_paused: bool) -> QueueEntry {
    if manually_paused {
        QueueEntry { id, position: next_queue_position(q.entries), state: QueueState::ManuallyPaused }
    } else if slot_free(q.limits, q.entries, is_downloading) {
        QueueEntry { id, position: 0, state: QueueState::Active }
    } else {
        QueueEntry { id, position: next_queue_position(q.entries), state: QueueState::Queued }
    }
}

/// A registration needs a new position only when it does not become active.
pub open spec fn register_needs_position(q: QueueView, is_downloading: bool, manually_paused: bool) -> bool {
    manually_paused || !slot_free(q.limits, q.entries, is_downloading)
}

/// The entries without those for `id`.
pub open spec fn without_id(es: Seq<QueueEntry>, id: TorrentId) -> Seq<QueueEntry>
    decreases es.len(),
{
    if es.len() == 0 {
        es
    } else if es.last().id == id {
        without_id(es.drop_last(), id)
    } else {
        without_id(es.drop_last(), id).push(es.last())
    }
}

/// The entries with the first entry for `id`, if any, manually paused.
pub open spec fn paused_entries(es: Seq<QueueEntry>, id: TorrentId) -> Seq<QueueEntry> {
    match first_with_id(es, id) {
        Some(i) => es.update(i, with_state(es[i], QueueState::ManuallyPaused)),
        None => es,
    }
}

/// The 1-based place of `id` among queued torrents, in queue order, when the
/// first entry for `id` is queued.
pub open spec fn queue_state_of(es: Seq<QueueEntry>, id: TorrentId) -> Option<(QueueState, Option<u32>)> {
    match first_with_id(es, id) {
        None => None,
        Some(i) => {
            let place = if es[i].state == QueueState::Queued {
                match queued_entry_of(es, id) {
                    Some(b) => Some((queue_rank(es, b, es.len()) + 1) as u32),
                    None => None,
                }
            } else {
                None
            };
            Some((es[i].state, place))
        },
    }
}

/// Exchanging the positions of entries `a` and `b`.
pub open spec fn swap_positions(es: Seq<QueueEntry>, a: int, b: int) -> Seq<QueueEntry> {
    es.update(a, with_position(es[a], es[b].position)).update(b, with_position(es[b], es[a].position))
}

pub open spec fn same_limits(a: QueueView, b: QueueView) -> bool {
    a.limits == b.limits
}

/// A queued entry moved one place back, to make room at position 0.
pub open spec fn bumped(e: QueueEntry) -> QueueEntry {
    with_position(e, if e.position < u32::MAX { (e.position + 1) as u32 } else { e.position })
}

/// Entry `j` once entry `i` takes position 0 and every other queued entry
/// moves one place back.
pub open spec fn shifted_entry(es: Seq<QueueEntry>, i: int, j: int) -> QueueEntry {
    if j == i {
        with_position(es[j], 0)
    } else if es[j].state == QueueState::Queued {
        bumped(es[j])
    } else {
        es[j]
    }
}

/// Entry `i` moved ahead of every other queued entry: just below the lowest
/// queued position when that is above 0, else at 0 with the others moved back.
pub open spec fn moved_to_top(es: Seq<QueueEntry>, i: int) -> Seq<QueueEntry> {
    match min_queued_position(es) {
        Some(m) => if m > 0 {
            es.update(i, with_position(es[i], (m - 1) as u32))
        } else {
            Seq::new(es.len(), |j: int| shifted_entry(es, i, j))
        },
        None => Seq::new(es.len(), |j: int| shifted_entry(es, i, j)),
    }
}

/// An index as `usize`.
pub open spec fn opt_index(o: Option<int>) -> Option<usize> {
    match o {
        Some(i) => Some(i as usize),
        None => None,
    }
}

fn count_in_state(es: &Vec<QueueEntry>, st: QueueState) -> (n: usize)
    ensures
        n == count_state(es@, st),
{
    let mut n: usize = 0;
    let mut k: usize = 0;
    while k < es.len()
        invariant
            0 <= k <= es@.len(),
            n == count_state(es@.take(k as int), st),
            n <= k,
        decreases es@.len() - k,
    {
        assert(es@.take(k + 1).drop_last() =~= es@.take(k as int));
        if es[k].state == st {
            n = n + 1;
        }
        k = k + 1;
    }
    assert(es@.take(k as int) =~= es@);
    n
}

fn max_queued(es: &Vec<QueueEntry>) -> (r: Option<u32>)
    ensures
        r == max_queued_position(es@),
{
    let mut r: Option<u32> = None;
    let mut k: usize = 0;
    while k < es.len()
        invariant
            0 <= k <= es@.len(),
            r == max_queued_position(es@.take(k as int)),
        decreases es@.len() - k,
    {
        assert(es@.take(k + 1).drop_last() =~= es@.take(k as int));
        let e = es[k];
        if e.state == QueueState::Queued {
            r = match r {
                Some(p) => Some(if e.position > p { e.position } else { p }),
                None => Some(e.position),
            };
        }
        k = k + 1;
    }
    assert(es@.take(k as int) =~= es@);
    r
}

fn min_queued(es: &Vec<QueueEntry>) -> (r: Option<u32>)
    ensures
        r == min_queued_position(es@),
{
    let mut r: Option<u32> = None;
    let mut k: usize = 0;
    while k < es.len()
        invariant
            0 <= k <= es@.len(),
            r == min_queued_position(es@.take(k as int)),
        decreases es@.len() - k,
    {
        assert(es@.take(k + 1).drop_last() =~= es@.take(k as int));
        let e = es[k];
        if e.state == QueueState::Queued {
            r = match r {
                Some(p) => Some(if e.position < p { e.position } else { p }),
                None => Some(e.position),
            };
        }
        k = k + 1;
    }
    assert(es@.take(k as int) =~= es@);
    r
}

/// The position a newly queued torrent gets.
fn next_position(es: &Vec<QueueEntry>) -> (p: u32)
    requires
        positions_bounded(es@),
    ensures
        p == next_queue_position(es@),
{
    match max_queued(es) {
        Some(p) => p + 1,
        None => 0,
    }
}

/// The index of the first entry for `id` (queued ones only, when `queued_only`).
fn find_first(es: &Vec<QueueEntry>, id: TorrentId, queued_only: bool) -> (r: Option<usize>)
    ensures
        match r {
            Some(i) => i < es@.len() && (if queued_only { first_queued_with_id(es@, id) } else { first_with_id(es@, id) }) == Some(i as int),
            None => (if queued_only { first_queued_with_id(es@, id) } else { first_with_id(es@, id) }) is None,
        },
{
    let ghost keep = if queued_only { is_queued_with_id(es@, id) } else { |i: int| es@[i].id == id };
    let mut k: usize = 0;
    while k < es.len()
        invariant
            0 <= k <= es@.len(),
            keep == (if queued_only { is_queued_with_id(es@, id) } else { |i: int| es@[i].id == id }),
            first_index_where(keep, k as nat) is None,
        decreases es@.len() - k,
    {
        if es[k].id == id && (!queued_only || es[k].state == QueueState::Queued) {
            assert(keep(k as int));
            assert(first_index_where(keep, (k + 1) as nat) == Some(k as int));
            proof {
                lemma_first_index_where(keep, es@.len());
                lemma_first_index_where(keep, (k + 1) as nat);
            }
            return Some(k);
        }
        assert(!keep(k as int));
        k = k + 1;
    }
    None
}

/// The queued entry, for `id` when given, that comes first in queue order.
fn first_queued_in_order(es: &Vec<QueueEntry>, id: Option<TorrentId>) -> (r: Option<usize>)
    ensures
        match r {
            Some(i) => i < es@.len() && (match id { None => head_of_queue(es@), Some(x) => queued_entry_of(es@, x) }) == Some(i as int),
            None => (match id { None => head_of_queue(es@), Some(x) => queued_entry_of(es@, x) }) is None,
        },
{
    let ghost keep = match id {
        None => is_queued(es@),
        Some(x) => is_queued_with_id(es@, x),
    };
    let mut r: Option<usize> = None;
    let mut k: usize = 0;
    while k < es.len()
        invariant
            0 <= k <= es@.len(),
            keep == (match id {
                None => is_queued(es@),
                Some(x) => is_queued_with_id(es@, x),
            }),
            r == opt_index(first_in_order(es@, keep, k as nat)),
            r matches Some(i) ==> i < k,
        decreases es@.len() - k,
    {
        proof {
            lemma_first_in_order(es@, keep, k as nat);
        }
        let e = es[k];
        let admitted = e.state == QueueState::Queued && match id {
            None => true,
            Some(x) => e.id == x,
        };
        assert(admitted == keep(k as int));
        let better = match r {
            None => true,
            Some(b) => e.position < es[b].position || (e.position == es[b].position && k < b),
        };
        if admitted && better {
            r = Some(k);
        }
        k = k + 1;
    }
    proof {
        lemma_first_in_order(es@, keep, es@.len());
    }
    r
}

/// The queued entry just before (or, when `after`, just after) entry `b` in queue order.
fn queued_neighbour(es: &Vec<QueueEntry>, b: usize, after: bool) -> (r: Option<usize>)
    requires
        b < es@.len(),
    ensures
        match r {
            Some(i) => i < es@.len() && (if after { queued_after(es@, b as int) } else { queued_before(es@, b as int) }) == Some(i as int),
            None => (if after { queued_after(es@, b as int) } else { queued_before(es@, b as int) }) is None,
        },
{
    let ghost keep = if after {
        |i: int| es@[i].state == QueueState::Queued && before(es@, b as int, i)
    } else {
        |i: int| es@[i].state == QueueState::Queued && before(es@, i, b as int)
    };
    let mut r: Option<usize> = None;
    let mut k: usize = 0;
    let pb = es[b].position;
    while k < es.len()
        invariant
            0 <= k <= es@.len(),
            b < es@.len(),
            pb == es@[b as int].position,
            keep == (if after {
                |i: int| es@[i].state == QueueState::Queued && before(es@, b as int, i)
            } else {
                |i: int| es@[i].state == QueueState::Queued && before(es@, i, b as int)
            }),
            after ==> r == opt_index(first_in_order(es@, keep, k as nat)),
            !after ==> r == opt_index(last_in_order(es@, keep, k as nat)),
            r matches Some(i) ==> i < k,
        decreases es@.len() - k,
    {
        proof {
            lemma_first_in_order(es@, keep, k as nat);
            lemma_last_in_order(es@, keep, k as nat);
        }
        let e = es[k];
        let admitted = e.state == QueueState::Queued && if after {
            pb < e.position || (pb == e.position && b < k)
        } else {
            e.position < pb || (e.position == pb && k < b)
        };
        assert(admitted == keep(k as int));
        let better = match r {
            None => true,
            Some(c) => if after {
                e.position < es[c].position || (e.position == es[c].position && k < c)
            } else {
                es[c].position < e.position || (es[c].position == e.position && c < k)
            },
        };
        if admitted && better {
            r = Some(k);
        }
        k = k + 1;
    }
    proof {
        lemma_first_in_order(es@, keep, es@.len());
        lemma_last_in_order(es@, keep, es@.len());
    }
    r
}

/// How many queued entries come before entry `b` in queue order.
fn rank_of(es: &Vec<QueueEntry>, b: usize) -> (n: usize)
    requires
        b < es@.len(),
    ensures
        n == queue_rank(es@, b as int, es@.len()),
        n < es@.len(),
{
    let mut n: usize = 0;
    let mut k: usize = 0;
    let pb = es[b].position;
    while k < es.len()
        invariant
            0 <= k <= es@.len(),
            b < es@.len(),
            pb == es@[b as int].position,
            n == queue_rank(es@, b as int, k as nat),
            n <= k,
            k > b ==> n < k,
        decreases es@.len() - k,
    {
        let e = es[k];
        if e.state == QueueState::Queued && (e.position < pb || (e.position == pb && k < b)) {
            n = n + 1;
        }
        k = k + 1;
    }
    n
}

impl QueueManager {
    pub fn new(config: QueueLimitsConfig) -> (m: QueueManager)
        ensures
            m@.limits == config,
            m@.entries == Seq::<QueueEntry>::empty(),
    {
        QueueManager {
            max_active_downloads: config.max_active_downloads,
            max_active_uploads: config.max_active_uploads,
            max_active_total: config.max_active_total,
            entries: Vec::new(),
        }
    }

    pub fn get_max_active_downloads(&self) -> (v: u32)
        ensures
            v == self@.limits.max_active_downloads,
    {
        self.max_active_downloads
    }

    pub fn set_max_active_downloads(&mut self, v: u32)
        ensures
            final(self)@ == (QueueView { limits: QueueLimitsConfig { max_active_downloads: v, ..old(self)@.limits }, ..old(self)@ }),
    {
        self.max_active_downloads = v;
    }

    pub fn get_max_active_uploads(&self) -> (v: u32)
        ensures
            v == self@.limits.max_active_uploads,
    {
        self.max_active_uploads
    }

    pub fn set_max_active_uploads(&mut self, v: u32)
        ensures
            final(self)@ == (QueueView { limits: QueueLimitsConfig { max_active_uploads: v, ..old(self)@.limits }, ..old(self)@ }),
    {
        self.max_active_uploads = v;
    }

    pub fn get_max_active_total(&self) -> (v: u32)
        ensures
            v == self@.limits.max_active_total,
    {
        self.max_active_total
    }

    pub fn set_max_active_total(&mut self, v: u32)
        ensures
            final(self)@ == (QueueView { limits: QueueLimitsConfig { max_active_total: v, ..old(self)@.limits }, ..old(self)@ }),
    {
        self.max_active_total = v;
    }

    /// Check if there's an available slot for a torrent.
    fn has_available_slot(&self, is_downloading: bool) -> (r: bool)
        ensures
            r == slot_free(self@.limits, self@.entries, is_downloading),
    {
        let max_total = self.max_active_total;
        let max_downloads = self.max_active_downloads;
        let max_uploads = self.max_active_uploads;
        let active_count = count_in_state(&self.entries, QueueState::Active) as u32;
        if max_total > 0 && active_count >= max_total {
            return false;
        }
        if is_downloading {
            if max_downloads > 0 {
                if active_count >= max_downloads {
                    return false;
                }
            }
        } else if max_uploads > 0 && active_count >= max_uploads {
            return false;
        }
        true
    }

    /// Register a new torrent in the queue. Returns the queue state it should be in.
    /// `is_downloading` indicates whether the torrent is still downloading (vs seeding).
    pub fn register_torrent(&mut self, id: TorrentId, is_downloading: bool, manually_paused: bool) -> (r: QueueState)
        requires
            register_needs_position(old(self)@, is_downloading, manually_paused) ==> positions_bounded(old(self)@.entries),
        ensures
            same_limits(final(self)@, old(self)@),
            final(self)@.entries == old(self)@.entries.push(registered_entry(old(self)@, id, is_downloading, manually_paused)),
            r == registered_entry(old(self)@, id, is_downloading, manually_paused).state,
    {
        if manually_paused {
            let position = next_position(&self.entries);
            self.entries.push(QueueEntry { id, position, state: QueueState::ManuallyPaused });
            return QueueState::ManuallyPaused;
        }
        if self.has_available_slot(is_downloading) {
            self.entries.push(QueueEntry { id, position: 0, state: QueueState::Active });
            QueueState::Active
        } else {
            let position = next_position(&self.entries);
            self.entries.push(QueueEntry { id, position, state: QueueState::Queued });
            QueueState::Queued
        }
    }

    /// Try to promote queued torrents to active state.
    /// Returns IDs of torrents that were promoted.
    fn promote_queued(&mut self) -> (promoted: Vec<TorrentId>)
        ensures
            same_limits(final(self)@, old(self)@),
            (final(self)@.entries, promoted@) == promote(old(self)@.limits, old(self)@.entries),
    {
        let mut promoted: Vec<TorrentId> = Vec::new();
        loop
            invariant
                same_limits(self@, old(self)@),
                promote(old(self)@.limits, old(self)@.entries) == (promote(old(self)@.limits, self@.entries).0, promoted@ + promote(old(self)@.limits, self@.entries).1),
            decreases count_state(self@.entries, QueueState::Queued),
        {
            let ghost es = self@.entries;
            if !self.has_available_slot(true) {
                assert(promoted@ + Seq::<TorrentId>::empty() =~= promoted@);
                return promoted;
            }
            match first_queued_in_order(&self.entries, None) {
                None => {
                    assert(promoted@ + Seq::<TorrentId>::empty() =~= promoted@);
                    return promoted;
                },
                Some(i) => {
                    proof {
                        lemma_first_in_order(es, is_queued(es), es.len());
                        lemma_count_update(es, i as int, with_state(es[i as int], QueueState::Active));
                    }
                    let e = self.entries[i];
                    self.entries.set(i, QueueEntry { id: e.id, position: e.position, state: QueueState::Active });
                    proof {
                        assert(self@.entries == es.update(i as int, with_state(es[i as int], QueueState::Active)));
                        assert(promoted@.push(e.id) + promote(old(self)@.limits, self@.entries).1
                            =~= promoted@ + (seq![e.id] + promote(old(self)@.limits, self@.entries).1));
                    }
                    promoted.push(e.id);
                },
            }
        }
    }

    /// Remove a torrent from the queue entirely (e.g., on delete/forget).
    /// Returns IDs of torrents that should be promoted from queued to active.
    pub fn remove_torrent(&mut self, id: TorrentId) -> (promoted: Vec<TorrentId>)
        ensures
            same_limits(final(self)@, old(self)@),
            (final(self)@.entries, promoted@) == promote(old(self)@.limits, without_id(old(self)@.entries, id)),
    {
        let mut kept: Vec<QueueEntry> = Vec::new();
        let mut k: usize = 0;
        while k < self.entries.len()
            invariant
                0 <= k <= self@.entries.len(),
                self@ == old(self)@,
                kept@ == without_id(self@.entries.take(k as int), id),
            decreases self@.entries.len() - k,
        {
            assert(self@.entries.take(k + 1).drop_last() =~= self@.entries.take(k as int));
            let e = self.entries[k];
            if e.id != id {
                kept.push(e);
            }
            k = k + 1;
        }
        assert(self@.entries.take(k as int) =~= self@.entries);
        self.entries = kept;
        self.promote_queued()
    }

    /// Mark a torrent as manually paused.
    /// Returns IDs of torrents that should be promoted from queued to active.
    pub fn pause_torrent(&mut self, id: TorrentId) -> (promoted: Vec<TorrentId>)
        ensures
            same_limits(final(self)@, old(self)@),
            (final(self)@.entries, promoted@) == promote(old(self)@.limits, paused_entries(old(self)@.entries, id)),
    {
        if let Some(i) = find_first(&self.entries, id, false) {
            let e = self.entries[i];
            self.entries.set(i, QueueEntry { id: e.id, position: e.position, state: QueueState::ManuallyPaused });
            assert(self@.entries =~= paused_entries(old(self)@.entries, id));
        }
        self.promote_queued()
    }

    /// Mark a torrent as wanting to be active (unpause).
    /// Returns the queue state it should be in.
    pub fn unpause_torrent(&mut self, id: TorrentId, is_downloading: bool) -> (r: QueueState)
        requires
            positions_bounded(old(self)@.entries),
        ensures
            same_limits(final(self)@, old(self)@),
            match first_with_id(old(self)@.entries, id) {
                Some(i) => if slot_free(old(self)@.limits, old(self)@.entries, is_downloading) {
                    &&& r == QueueState::Active
                    &&& final(self)@.entries == old(self)@.entries.update(i, with_state(old(self)@.entries[i], QueueState::Active))
                } else {
                    &&& r == QueueState::Queued
                    &&& final(self)@.entries == old(self)@.entries.update(i, QueueEntry {
                        id: old(self)@.entries[i].id,
                        position: next_queue_position(old(self)@.entries),
                        state: QueueState::Queued,
                    })
                },
                None => {
                    &&& final(self)@.entries == old(self)@.entries.push(registered_entry(old(self)@, id, is_downloading, false))
                    &&& r == registered_entry(old(self)@, id, is_downloading, false).state
                },
            },
    {
        match find_first(&self.entries, id, false) {
            Some(idx) => {
                let has_slot = self.has_available_slot(is_downloading);
                let e = self.entries[idx];
                if has_slot {
                    self.entries.set(idx, QueueEntry { id: e.id, position: e.position, state: QueueState::Active });
                    QueueState::Active
                } else {
                    let position = next_position(&self.entries);
                    self.entries.set(idx, QueueEntry { id: e.id, position, state: QueueState::Queued });
                    QueueState::Queued
                }
            },
            None => self.register_torrent(id, is_downloading, false),
        }
    }

    /// Notify that a torrent has completed downloading (now seeding).
    /// Returns IDs of torrents that should be promoted from queued to active.
    pub fn torrent_completed(&mut self, _id: TorrentId) -> (promoted: Vec<TorrentId>)
        ensures
            same_limits(final(self)@, old(self)@),
            (final(self)@.entries, promoted@) == promote(old(self)@.limits, old(self)@.entries),
    {
        self.promote_queued()
    }

    /// Get the queue state and position for a specific torrent.
    pub fn get_queue_state(&self, id: TorrentId) -> (r: Option<(QueueState, Option<u32>)>)
        ensures
            r == queue_state_of(self@.entries, id),
    {
        match find_first(&self.entries, id, false) {
            None => None,
            Some(i) => {
                let e = self.entries[i];
                let pos = if e.state == QueueState::Queued {
                    match first_queued_in_order(&self.entries, Some(id)) {
                        Some(b) => {
                            let n = rank_of(&self.entries, b);
                            let total = self.entries.len();
                            assert(n < total);
                            Some(#[verifier::truncate] ((n + 1) as u32))
                        },
                        None => None,
                    }
                } else {
                    None
                };
                Some((e.state, pos))
            },
        }
    }

    /// Move a torrent to the top of the queue.
    pub fn move_to_top(&mut self, id: TorrentId)
        ensures
            same_limits(final(self)@, old(self)@),
            final(self)@.entries == match first_queued_with_id(old(self)@.entries, id) {
                Some(i) => moved_to_top(old(self)@.entries, i),
                None => old(self)@.entries,
            },
    {
        if let Some(i) = find_first(&self.entries, id, true) {
            let lowest = min_queued(&self.entries);
            if let Some(m) = lowest {
                if m > 0 {
                    let e = self.entries[i];
                    self.entries.set(i, QueueEntry { id: e.id, position: m - 1, state: e.state });
                    return;
                }
            }
            let ghost es = self@.entries;
            let n = self.entries.len();
            let mut k: usize = 0;
            while k < n
                invariant
                    n == es.len(),
                    i < n,
                    self@.entries.len() == n,
                    same_limits(self@, old(self)@),
                    forall|j: int| 0 <= j < k ==> self@.entries[j] == shifted_entry(es, i as int, j),
                    forall|j: int| k <= j < n ==> self@.entries[j] == es[j],
                decreases n - k,
            {
                let e = self.entries[k];
                let p = if k == i {
                    0
                } else if e.state == QueueState::Queued {
                    if e.position < u32::MAX { e.position + 1 } else { e.position }
                } else {
                    e.position
                };
                self.entries.set(k, QueueEntry { id: e.id, position: p, state: e.state });
                k = k + 1;
            }
            assert(self@.entries =~= Seq::new(es.len(), |j: int| shifted_entry(es, i as int, j)));
        }
    }

    /// Move a torrent to the bottom of the queue.
    pub fn move_to_bottom(&mut self, id: TorrentId)
        requires
            positions_bounded(old(self)@.entries),
        ensures
            same_limits(final(self)@, old(self)@),
            final(self)@.entries == match first_queued_with_id(old(self)@.entries, id) {
                Some(i) => old(self)@.entries.update(i, with_position(old(self)@.entries[i], next_queue_position(old(self)@.entries))),
                None => old(self)@.entries,
            },
    {
        let position = next_position(&self.entries);
        if let Some(i) = find_first(&self.entries, id, true) {
            let e = self.entries[i];
            self.entries.set(i, QueueEntry { id: e.id, position, state: e.state });
        }
    }

    /// Move a torrent up one position in the queue.
    pub fn move_up(&mut self, id: TorrentId)
        ensures
            same_limits(final(self)@, old(self)@),
            final(self)@.entries == match queued_entry_of(old(self)@.entries, id) {
                Some(b) => match queued_before(old(self)@.entries, b) {
                    Some(a) => swap_positions(old(self)@.entries, a, b),
                    None => old(self)@.entries,
                },
                None => old(self)@.entries,
            },
    {
        self.swap_with_neighbour(id, false);
    }

    /// Move a torrent down one position in the queue.
    pub fn move_down(&mut self, id: TorrentId)
        ensures
            same_limits(final(self)@, old(self)@),
            final(self)@.entries == match queued_entry_of(old(self)@.entries, id) {
                Some(b) => match queued_after(old(self)@.entries, b) {
                    Some(a) => swap_positions(old(self)@.entries, a, b),
                    None => old(self)@.entries,
                },
                None => old(self)@.entries,
            },
    {
        self.swap_with_neighbour(id, true);
    }

    fn swap_with_neighbour(&mut self, id: TorrentId, after: bool)
        ensures
            same_limits(final(self)@, old(self)@),
            final(self)@.entries == match queued_entry_of(old(self)@.entries, id) {
                Some(b) => match (if after { queued_after(old(self)@.entries, b) } else { queued_before(old(self)@.entries, b) }) {
                    Some(a) => swap_positions(old(self)@.entries, a, b),
                    None => old(self)@.entries,
                },
                None => old(self)@.entries,
            },
    {
        if let Some(b) = first_queued_in_order(&self.entries, Some(id)) {
            proof {
                lemma_first_in_order(self@.entries, is_queued_with_id(self@.entries, id), self@.entries.len());
            }
            if let Some(a) = queued_neighbour(&self.entries, b, after) {
                proof {
                    let es = self@.entries;
                    if after {
                        lemma_first_in_order(es, |i: int| es[i].state == QueueState::Queued && before(es, b as int, i), es.len());
                    } else {
                        lemma_last_in_order(es, |i: int| es[i].state == QueueState::Queued && before(es, i, b as int), es.len());
                    }
                }
                let ea = self.entries[a];
                let eb = self.entries[b];
                self.entries.set(a, QueueEntry { id: ea.id, position: eb.position, state: ea.state });
                self.entries.set(b, QueueEntry { id: eb.id, position: ea.position, state: eb.state });
            }
        }
    }
}

} // verus!

verus! {

// ----- laws -----

/// Promotion stops only when no slot is free or nothing is queued.
pub proof fn lemma_promote_maximal(q: QueueLimitsConfig, es: Seq<QueueEntry>)
    ensures
        !slot_free(q, promote(q, es).0, true) || head_of_queue(promote(q, es).0) is None,
    decreases count_state(es, QueueState::Queued),
{
    if slot_free(q, es, true) {
        if let Some(i) = head_of_queue(es) {
            lemma_first_in_order(es, is_queued(es), es.len());
            let es2 = es.update(i, with_state(es[i], QueueState::Active));
            lemma_count_update(es, i, with_state(es[i], QueueState::Active));
            lemma_promote_maximal(q, es2);
        }
    }
}

/// Promotion changes states only: the same torrents, at the same positions, in the same order.
pub proof fn lemma_promote_keeps_ids(q: QueueLimitsConfig, es: Seq<QueueEntry>)
    ensures
        promote(q, es).0.len() == es.len(),
        forall|i: int| 0 <= i < es.len() ==> (#[trigger] promote(q, es).0[i]).id == es[i].id
            && promote(q, es).0[i].position == es[i].position,
    decreases count_state(es, QueueState::Queued),
{
    if slot_free(q, es, true) {
        if let Some(i) = head_of_queue(es) {
            lemma_first_in_order(es, is_queued(es), es.len());
            let es2 = es.update(i, with_state(es[i], QueueState::Active));
            lemma_count_update(es, i, with_state(es[i], QueueState::Active));
            lemma_promote_keeps_ids(q, es2);
        }
    }
}

/// Within a positive total limit: promotion never takes the number of active
/// torrents above it.
pub proof fn lemma_promote_within_total(q: QueueLimitsConfig, es: Seq<QueueEntry>)
    requires
        q.max_active_total > 0,
        count_state(es, QueueState::Active) <= q.max_active_total,
    ensures
        count_state(promote(q, es).0, QueueState::Active) <= q.max_active_total,
    decreases count_state(es, QueueState::Queued),
{
    if slot_free(q, es, true) {
        if let Some(i) = head_of_queue(es) {
            lemma_first_in_order(es, is_queued(es), es.len());
            let es2 = es.update(i, with_state(es[i], QueueState::Active));
            lemma_count_update(es, i, with_state(es[i], QueueState::Active));
            lemma_promote_within_total(q, es2);
        }
    }
}

/// Within a positive total limit: registering a torrent never takes the
/// number of active torrents above it.
pub proof fn lemma_register_within_total(q: QueueView, id: TorrentId, is_downloading: bool, manually_paused: bool)
    requires
        q.limits.max_active_total > 0,
        count_state(q.entries, QueueState::Active) <= q.limits.max_active_total,
    ensures
        count_state(q.entries.push(registered_entry(q, id, is_downloading, manually_paused)), QueueState::Active)
            <= q.limits.max_active_total,
{
    let es2 = q.entries.push(registered_entry(q, id, is_downloading, manually_paused));
    assert(es2.drop_last() =~= q.entries);
}

/// Registering a torrent that is not manually paused applies each limit that
/// is positive: when the active torrents already number at least the total
/// limit, or, for a downloading torrent, the download limit, or, for a
/// seeding torrent, the upload limit, the torrent is queued; when they number
/// fewer than every positive limit that applies to it, it becomes active.
/// A manually paused torrent stays paused whatever the limits.
pub proof fn lemma_register_applies_limits(q: QueueView, id: TorrentId, is_downloading: bool)
    requires
        count_state(q.entries, QueueState::Active) <= u32::MAX,
    ensures
        ({
            let n = count_state(q.entries, QueueState::Active);
            let st = registered_entry(q, id, is_downloading, false).state;
            &&& (q.limits.max_active_total > 0 && n >= q.limits.max_active_total) ==> st == QueueState::Queued
            &&& (is_downloading && q.limits.max_active_downloads > 0 && n >= q.limits.max_active_downloads)
                ==> st == QueueState::Queued
            &&& (!is_downloading && q.limits.max_active_uploads > 0 && n >= q.limits.max_active_uploads)
                ==> st == QueueState::Queued
            &&& ((q.limits.max_active_total == 0 || n < q.limits.max_active_total)
                && (is_downloading ==> (q.limits.max_active_downloads == 0 || n < q.limits.max_active_downloads))
                && (!is_downloading ==> (q.limits.max_active_uploads == 0 || n < q.limits.max_active_uploads)))
                ==> st == QueueState::Active
            &&& (st == QueueState::Active || st == QueueState::Queued)
        }),
        registered_entry(q, id, is_downloading, true).state == QueueState::ManuallyPaused,
{
}

/// A torrent that registering queues goes to the back of the queue: its
/// position is above that of every torrent already queued.
pub proof fn lemma_register_queues_last(q: QueueView, id: TorrentId, is_downloading: bool)
    requires
        positions_bounded(q.entries),
        registered_entry(q, id, is_downloading, false).state == QueueState::Queued,
    ensures
        forall|j: int| 0 <= j < q.entries.len() && (#[trigger] q.entries[j]).state == QueueState::Queued
            ==> q.entries[j].position < registered_entry(q, id, is_downloading, false).position,
{
    lemma_max_queued_position(q.entries);
}

/// What registering a new torrent answers is the state the queue then reports for it.
pub proof fn lemma_register_then_state(q: QueueView, id: TorrentId, is_downloading: bool, manually_paused: bool)
    requires
        first_with_id(q.entries, id) is None,
    ensures
        queue_state_of(q.entries.push(registered_entry(q, id, is_downloading, manually_paused)), id)
            matches Some((st, _)) && st == registered_entry(q, id, is_downloading, manually_paused).state,
{
    let e = registered_entry(q, id, is_downloading, manually_paused);
    let es2 = q.entries.push(e);
    let keep1 = |i: int| q.entries[i].id == id;
    let keep2 = |i: int| es2[i].id == id;
    lemma_first_index_where(keep1, q.entries.len());
    lemma_first_index_where_ext(keep1, keep2, q.entries.len(), q.entries.len());
    assert(first_index_where(keep2, q.entries.len()) is None);
    assert(keep2(q.entries.len() as int));
    assert(first_with_id(es2, id) == Some(q.entries.len() as int));
}

proof fn lemma_first_index_where_ext(a: spec_fn(int) -> bool, b: spec_fn(int) -> bool, k: nat, bound: nat)
    requires
        k <= bound,
        forall|i: int| 0 <= i < bound ==> #[trigger] a(i) == b(i),
    ensures
        first_index_where(a, k) == first_index_where(b, k),
    decreases k,
{
    if k > 0 {
        lemma_first_index_where_ext(a, b, (k - 1) as nat, bound);
    }
}

/// After removing a torrent, no entry for it is left.
pub proof fn lemma_remove_forgets(q: QueueLimitsConfig, es: Seq<QueueEntry>, id: TorrentId)
    ensures
        first_with_id(promote(q, without_id(es, id)).0, id) is None,
{
    let kept = without_id(es, id);
    lemma_without_id(es, id);
    lemma_promote_keeps_ids(q, kept);
    let r = promote(q, kept).0;
    lemma_first_index_where(|i: int| r[i].id == id, r.len());
}

/// The lowest queued position is at or below every queued position.
pub proof fn lemma_min_queued_position(es: Seq<QueueEntry>)
    ensures
        match min_queued_position(es) {
            Some(m) => forall|j: int| 0 <= j < es.len() && (#[trigger] es[j]).state == QueueState::Queued ==> m <= es[j].position,
            None => forall|j: int| 0 <= j < es.len() ==> (#[trigger] es[j]).state != QueueState::Queued,
        },
    decreases es.len(),
{
    if es.len() > 0 {
        lemma_min_queued_position(es.drop_last());
        assert forall|j: int| 0 <= j < es.len() - 1 implies #[trigger] es[j] == es.drop_last()[j] by {}
    }
}

/// The highest queued position is at or above every queued position.
pub proof fn lemma_max_queued_position(es: Seq<QueueEntry>)
    ensures
        match max_queued_position(es) {
            Some(m) => forall|j: int| 0 <= j < es.len() && (#[trigger] es[j]).state == QueueState::Queued ==> es[j].position <= m,
            None => forall|j: int| 0 <= j < es.len() ==> (#[trigger] es[j]).state != QueueState::Queued,
        },
    decreases es.len(),
{
    if es.len() > 0 {
        lemma_max_queued_position(es.drop_last());
        assert forall|j: int| 0 <= j < es.len() - 1 implies #[trigger] es[j] == es.drop_last()[j] by {}
    }
}

/// No queued entry comes before the one that comes before all others.
proof fn lemma_rank_of_first(es: Seq<QueueEntry>, i: int, k: nat)
    requires
        0 <= i < es.len(),
        k <= es.len(),
        forall|j: int| 0 <= j < es.len() && j != i && (#[trigger] es[j]).state == QueueState::Queued ==> before(es, i, j),
    ensures
        queue_rank(es, i, k) == 0,
    decreases k,
{
    if k > 0 {
        lemma_rank_of_first(es, i, (k - 1) as nat);
        let j = k - 1;
        if j != i && es[j].state == QueueState::Queued {
            assert(before(es, i, j));
        }
    }
}

/// Moving a queued torrent to the top puts it ahead of every other queued
/// torrent, so that it is first in the queue; states, ids and the entries that
/// are not queued stay as they were, and, while no queued position is at the
/// largest value, the other queued torrents keep their order.
pub proof fn lemma_move_to_top(es: Seq<QueueEntry>, i: int)
    requires
        0 <= i < es.len(),
        es[i].state == QueueState::Queued,
    ensures
        moved_to_top(es, i).len() == es.len(),
        forall|j: int| 0 <= j < es.len() ==> (#[trigger] moved_to_top(es, i)[j]).id == es[j].id
            && moved_to_top(es, i)[j].state == es[j].state,
        forall|j: int| 0 <= j < es.len() && es[j].state != QueueState::Queued ==> #[trigger] moved_to_top(es, i)[j] == es[j],
        forall|j: int| 0 <= j < es.len() && j != i && (#[trigger] es[j]).state == QueueState::Queued
            ==> before(moved_to_top(es, i), i, j),
        queue_rank(moved_to_top(es, i), i, es.len()) == 0,
        positions_bounded(es) ==> forall|j: int, k: int|
            0 <= j < es.len() && 0 <= k < es.len() && j != i && k != i
            && (#[trigger] es[j]).state == QueueState::Queued && (#[trigger] es[k]).state == QueueState::Queued
            ==> (before(moved_to_top(es, i), j, k) == before(es, j, k)),
{
    let r = moved_to_top(es, i);
    lemma_min_queued_position(es);
    lemma_max_queued_position(es);
    assert forall|j: int| 0 <= j < es.len() && j != i && (#[trigger] es[j]).state == QueueState::Queued
        implies before(r, i, j) by {
        assert(r[j].state == QueueState::Queued);
    }
    assert forall|j: int| 0 <= j < es.len() && j != i && (#[trigger] r[j]).state == QueueState::Queued
        implies before(r, i, j) by {
        assert(es[j].state == QueueState::Queued);
    }
    lemma_rank_of_first(r, i, es.len());
}

proof fn lemma_without_id(es: Seq<QueueEntry>, id: TorrentId)
    ensures
        forall|i: int| 0 <= i < without_id(es, id).len() ==> (#[trigger] without_id(es, id)[i]).id != id,
    decreases es.len(),
{
    if es.len() > 0 {
        lemma_without_id(es.drop_last(), id);
    }
}

} // verus!
