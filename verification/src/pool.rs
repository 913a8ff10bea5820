//! Pool manager and event bridge: the fixed set of window slots, the
//! assignment of client-visible window ids to slots, the FIFO queue of
//! callers waiting for a slot, and the table of deferred completions that
//! engine notifications release.
//!
//! All mutation happens through `handle_message` / `handle_hook`, each one
//! atomic step of the single owner; their contracts tie every step to the
//! spec-level transition functions (`spec_handle_message`,
//! `spec_handle_hook`), and the fairness and deferral laws are proved of
//! those transitions.

use std::collections::HashMap;
use std::collections::VecDeque;

use vstd::prelude::*;

use crate::messages::{
    HookView, InitializationParams, PBEvent, PBHook, PBRequest, PBRequestPayload, PBResponse,
    PBResponsePayload, PBWebviewEvent, ReqPayloadView, ReqView, RespPayloadView, RespView,
    WebviewEventView, webview_event_eq,
};

verus! {

broadcast use vstd::std_specs::hash::group_hash_axioms;

/// Where a window id currently lives: the index of its pool slot.
pub struct WindowReference {
    pub pool_index: usize,
}

/// One slot of the pool: its stable index, the window id leased on it (if
/// any), and the deferred completions waiting on engine events.
pub struct PoolItem {
    pub id: usize,
    pub assigned_to: Option<u32>,
    pub pending_responses: Vec<(PBWebviewEvent, PBResponse)>,
}

/// The worker's pool: slots, the id-to-slot assignment map, the next
/// window id to lease, and the FIFO queue of waiting `NewWindow` callers.
pub struct Pool {
    pub items: Vec<PoolItem>,
    pub assignments: HashMap<u32, WindowReference>,
    pub next_assignment: u32,
    pub waiting_for_windows: VecDeque<u32>,
}

/// A command the worker must forward to the embedded engine for a slot.
/// The engine is an external collaborator; the pool only decides.
#[derive(Debug, Clone, PartialEq, Eq)]
pub enum EngineAction {
    LoadUrl { slot: usize, url: String },
    SetSize { slot: usize, width: usize, height: usize },
    SetPosition { slot: usize, x: u32, y: u32 },
    RunScript { slot: usize, message_id: u32, script: String },
    CaptureImage { slot: usize, message_id: u32, path: String },
}

/// What one atomic step hands back: responses to write now, and engine
/// commands to perform.
#[derive(Debug)]
pub struct HandleOutcome {
    pub responses: Vec<PBResponse>,
    pub actions: Vec<EngineAction>,
}

// ------------------------------------------------------------------
// Views
// ------------------------------------------------------------------

#[verifier::ext_equal]
pub struct ItemView {
    pub id: usize,
    pub assigned_to: Option<u32>,
    pub pending: Seq<(WebviewEventView, RespView)>,
}

#[verifier::ext_equal]
pub struct PoolView {
    pub items: Seq<ItemView>,
    pub assignments: Map<u32, usize>,
    pub next_assignment: u32,
    pub waiting: Seq<u32>,
}

#[verifier::ext_equal]
pub enum ActionView {
    LoadUrl { slot: usize, url: Seq<char> },
    SetSize { slot: usize, width: usize, height: usize },
    SetPosition { slot: usize, x: u32, y: u32 },
    RunScript { slot: usize, message_id: u32, script: Seq<char> },
    CaptureImage { slot: usize, message_id: u32, path: Seq<char> },
}

impl View for PoolItem {
    type V = ItemView;

    open spec fn view(&self) -> ItemView {
        ItemView {
            id: self.id,
            assigned_to: self.assigned_to,
            pending: self.pending_responses@.map_values(
                |p: (PBWebviewEvent, PBResponse)| (p.0@, p.1@),
            ),
        }
    }
}

impl View for Pool {
    type V = PoolView;

    open spec fn view(&self) -> PoolView {
        PoolView {
            items: self.items@.map_values(|it: PoolItem| it@),
            assignments: self.assignments@.map_values(|w: WindowReference| w.pool_index),
            next_assignment: self.next_assignment,
            waiting: self.waiting_for_windows@,
        }
    }
}

impl View for EngineAction {
    type V = ActionView;

    open spec fn view(&self) -> ActionView {
        match self {
            EngineAction::LoadUrl { slot, url } => ActionView::LoadUrl {
                slot: *slot,
                url: url@,
            },
            EngineAction::SetSize { slot, width, height } => ActionView::SetSize {
                slot: *slot,
                width: *width,
                height: *height,
            },
            EngineAction::SetPosition { slot, x, y } => ActionView::SetPosition {
                slot: *slot,
                x: *x,
                y: *y,
            },
            EngineAction::RunScript { slot, message_id, script } => ActionView::RunScript {
                slot: *slot,
                message_id: *message_id,
                script: script@,
            },
            EngineAction::CaptureImage { slot, message_id, path } => ActionView::CaptureImage {
                slot: *slot,
                message_id: *message_id,
                path: path@,
            },
        }
    }
}

pub open spec fn resps_view(v: Seq<PBResponse>) -> Seq<RespView> {
    v.map_values(|r: PBResponse| r@)
}

pub open spec fn actions_view(v: Seq<EngineAction>) -> Seq<ActionView> {
    v.map_values(|a: EngineAction| a@)
}

// ------------------------------------------------------------------
// Well-formedness
// ------------------------------------------------------------------

pub open spec fn pending_keys_unique(s: Seq<(WebviewEventView, RespView)>) -> bool {
    forall|i: int, j: int| 0 <= i < j < s.len() ==> (#[trigger] s[i]).0 != (#[trigger] s[j]).0
}

/// The pool invariant: slot ids are their indices, the assignment map and
/// the slots' lease marks are two sides of one bijection, every assigned
/// id is below the allocation counter, and each slot's deferred
/// completions are keyed by distinct events.
pub open spec fn pool_wf(p: PoolView) -> bool {
    &&& forall|i: int| 0 <= i < p.items.len() ==> (#[trigger] p.items[i]).id == i
    &&& forall|w: u32| #[trigger] p.assignments.contains_key(w) ==> {
        &&& p.assignments[w] < p.items.len()
        &&& p.items[p.assignments[w] as int].assigned_to == Option::Some(w)
        &&& w < p.next_assignment
    }
    &&& forall|i: int| 0 <= i < p.items.len() ==> match (#[trigger] p.items[i]).assigned_to {
        Option::Some(w) => p.assignments.contains_key(w) && p.assignments[w] == i,
        Option::None => true,
    }
    &&& forall|i: int|
        0 <= i < p.items.len() ==> pending_keys_unique((#[trigger] p.items[i]).pending)
}

// ------------------------------------------------------------------
// The deferred-completion table of one slot
// ------------------------------------------------------------------

/// Index of the first pending completion keyed by `k`, if any.
pub open spec fn pending_find(
    s: Seq<(WebviewEventView, RespView)>,
    k: WebviewEventView,
) -> Option<int>
    decreases s.len(),
{
    if s.len() == 0 {
        Option::None
    } else if s[0].0 == k {
        Option::Some(0int)
    } else {
        match pending_find(s.drop_first(), k) {
            Option::Some(j) => Option::Some(j + 1),
            Option::None => Option::None,
        }
    }
}

pub proof fn lemma_pending_find(s: Seq<(WebviewEventView, RespView)>, k: WebviewEventView)
    ensures
        match pending_find(s, k) {
            Option::Some(j) => 0 <= j < s.len() && s[j].0 == k && (forall|l: int|
                0 <= l < j ==> (#[trigger] s[l]).0 != k),
            Option::None => forall|l: int| 0 <= l < s.len() ==> (#[trigger] s[l]).0 != k,
        },
    decreases s.len(),
{
    if s.len() > 0 && s[0].0 != k {
        let rest = s.drop_first();
        lemma_pending_find(rest, k);
        assert(forall|l: int| 0 <= l < rest.len() ==> #[trigger] rest[l] == s[l + 1]);
        match pending_find(s, k) {
            Option::Some(j) => {
                assert(rest[j - 1].0 == k);
                assert forall|l: int| 0 <= l < j implies (#[trigger] s[l]).0 != k by {
                    if l > 0 {
                        assert(rest[l - 1].0 != k);
                    }
                }
            },
            Option::None => {
                assert forall|l: int| 0 <= l < s.len() implies (#[trigger] s[l]).0 != k by {
                    if l > 0 {
                        assert(rest[l - 1].0 != k);
                    }
                }
            },
        }
    }
}

/// Registering a completion replaces any completion under the same key.
pub open spec fn spec_pending_insert(
    s: Seq<(WebviewEventView, RespView)>,
    k: WebviewEventView,
    r: RespView,
) -> Seq<(WebviewEventView, RespView)> {
    (match pending_find(s, k) {
        Option::Some(j) => s.remove(j),
        Option::None => s,
    }).push((k, r))
}

/// Delivering an event removes and yields the completion it matches.
pub open spec fn spec_pending_take(
    s: Seq<(WebviewEventView, RespView)>,
    k: WebviewEventView,
) -> (Seq<(WebviewEventView, RespView)>, Option<RespView>) {
    match pending_find(s, k) {
        Option::Some(j) => (s.remove(j), Option::Some(s[j].1)),
        Option::None => (s, Option::None),
    }
}

/// Finds the first pending completion of this slot keyed by `ev`.
fn find_pending(v: &Vec<(PBWebviewEvent, PBResponse)>, ev: &PBWebviewEvent) -> (r: Option<usize>)
    ensures
        ({
            let s = v@.map_values(|p: (PBWebviewEvent, PBResponse)| (p.0@, p.1@));
            match r {
                Option::Some(j) => pending_find(s, ev@) == Option::Some(j as int),
                Option::None => pending_find(s, ev@) is None,
            }
        }),
{
    let ghost s = v@.map_values(|p: (PBWebviewEvent, PBResponse)| (p.0@, p.1@));
    proof {
        lemma_pending_find(s, ev@);
    }
    let mut i: usize = 0;
    while i < v.len()
        invariant
            0 <= i <= v.len(),
            s == v@.map_values(|p: (PBWebviewEvent, PBResponse)| (p.0@, p.1@)),
            forall|l: int| 0 <= l < i ==> (#[trigger] s[l]).0 != ev@,
        decreases v.len() - i,
    {
        let hit = webview_event_eq(&v[i].0, ev);
        if hit {
            proof {
                lemma_pending_find(s, ev@);
                assert(s[i as int].0 == ev@);
                match pending_find(s, ev@) {
                    Option::Some(j) => {
                        if j < i as int {
                            assert(s[j].0 != ev@);
                        }
                        assert(j == i as int);
                    },
                    Option::None => {
                        assert(s[i as int].0 != ev@);
                    },
                }
            }
            return Option::Some(i);
        }
        i = i + 1;
    }
    Option::None
}

// ------------------------------------------------------------------
// The spec-level transition model
// ------------------------------------------------------------------

/// The first unassigned slot at or after `i` (assignment scans by index).
pub open spec fn first_free_slot_from(items: Seq<ItemView>, i: int) -> Option<int>
    decreases items.len() - i,
    when 0 <= i <= items.len()
{
    if i >= items.len() {
        Option::None
    } else if items[i].assigned_to is None {
        Option::Some(i)
    } else {
        first_free_slot_from(items, i + 1)
    }
}

pub open spec fn first_free_slot(items: Seq<ItemView>) -> Option<int> {
    first_free_slot_from(items, 0)
}

pub proof fn lemma_first_free_slot_from(items: Seq<ItemView>, i: int)
    requires
        0 <= i <= items.len(),
    ensures
        match first_free_slot_from(items, i) {
            Option::Some(j) => i <= j < items.len() && items[j].assigned_to is None && (forall|
                l: int,
            |
                i <= l < j ==> (#[trigger] items[l]).assigned_to is Some),
            Option::None => forall|l: int|
                i <= l < items.len() ==> (#[trigger] items[l]).assigned_to is Some,
        },
    decreases items.len() - i,
{
    if i < items.len() && !(items[i].assigned_to is None) {
        lemma_first_free_slot_from(items, i + 1);
    }
}

/// What one spec-level step yields: the next pool state, the responses
/// to write, and the engine commands to perform.
#[verifier::ext_equal]
pub struct PoolOutcomeView {
    pub pool: PoolView,
    pub responses: Seq<RespView>,
    pub actions: Seq<ActionView>,
}

/// The targeted diagnostic for a command naming an id with no assignment.
pub open spec fn unknown_window_error(mid: u32) -> RespView {
    RespView {
        message_id: Option::Some(mid),
        payload: RespPayloadView::Error {
            original_message: Option::None,
            message: "No window is assigned to the requested id"@,
        },
    }
}

pub open spec fn spec_tester(p: PoolView, mid: u32, text: Seq<char>) -> PoolOutcomeView {
    PoolOutcomeView {
        pool: p,
        responses: seq![
            RespView {
                message_id: Option::Some(mid),
                payload: RespPayloadView::Tester("Responding to ["@ + text + "]"@),
            },
        ],
        actions: seq![],
    }
}

pub open spec fn spec_initialize_again(p: PoolView, mid: u32) -> PoolOutcomeView {
    PoolOutcomeView {
        pool: p,
        responses: seq![
            RespView {
                message_id: Option::Some(mid),
                payload: RespPayloadView::Error {
                    original_message: Option::None,
                    message: "Pagebrowse is already initialized"@,
                },
            },
        ],
        actions: seq![],
    }
}

/// Leasing one slot: mark it, record the assignment, bump the counter.
pub open spec fn spec_assign(p: PoolView, slot: int) -> (PoolView, u32) {
    let w = p.next_assignment;
    (
        PoolView {
            items: p.items.update(
                slot,
                ItemView {
                    id: p.items[slot].id,
                    assigned_to: Option::Some(w),
                    pending: p.items[slot].pending,
                },
            ),
            assignments: p.assignments.insert(w, slot as usize),
            next_assignment: (w + 1) as u32,
            waiting: p.waiting,
        },
        w,
    )
}

/// `NewWindow`: the first free slot is leased and announced; with no free
/// slot the caller's id queues at the tail and nothing is answered yet.
pub open spec fn spec_new_window(p: PoolView, mid: u32) -> PoolOutcomeView {
    match first_free_slot(p.items) {
        Option::Some(slot) => {
            let (p1, w) = spec_assign(p, slot);
            PoolOutcomeView {
                pool: p1,
                responses: seq![
                    RespView {
                        message_id: Option::Some(mid),
                        payload: RespPayloadView::NewWindowCreated { id: w },
                    },
                ],
                actions: seq![],
            }
        },
        Option::None => PoolOutcomeView {
            pool: PoolView { waiting: p.waiting.push(mid), ..p },
            responses: seq![],
            actions: seq![],
        },
    }
}

/// `ReleaseWindow`: an unassigned id is answered with an error and nothing
/// changes; otherwise the slot is cleared (discarding its deferred
/// completions), the release is acknowledged, and if callers wait, the
/// queue head immediately receives the freed slot under a fresh id.
pub open spec fn spec_release_window(p: PoolView, mid: u32, window_id: u32) -> PoolOutcomeView {
    if !p.assignments.contains_key(window_id) {
        PoolOutcomeView { pool: p, responses: seq![unknown_window_error(mid)], actions: seq![] }
    } else {
        let slot = p.assignments[window_id] as int;
        let p1 = PoolView {
            items: p.items.update(
                slot,
                ItemView {
                    id: p.items[slot].id,
                    assigned_to: Option::None,
                    pending: Seq::empty(),
                },
            ),
            assignments: p.assignments.remove(window_id),
            next_assignment: p.next_assignment,
            waiting: p.waiting,
        };
        let ack = RespView {
            message_id: Option::Some(mid),
            payload: RespPayloadView::OperationComplete,
        };
        if p.waiting.len() > 0 {
            let waiter = p.waiting[0];
            let (p2, w) = spec_assign(p1, slot);
            PoolOutcomeView {
                pool: PoolView { waiting: p.waiting.drop_first(), ..p2 },
                responses: seq![
                    ack,
                    RespView {
                        message_id: Option::Some(waiter),
                        payload: RespPayloadView::NewWindowCreated { id: w },
                    },
                ],
                actions: seq![],
            }
        } else {
            PoolOutcomeView { pool: p1, responses: seq![ack], actions: seq![] }
        }
    }
}

/// `Navigate`: the engine is told to load the URL; with `wait_for_load`
/// the acknowledgement is deferred under the matching load-finish event,
/// otherwise it is answered at once.
pub open spec fn spec_navigate(
    p: PoolView,
    mid: u32,
    window_id: u32,
    url: Seq<char>,
    wait_for_load: bool,
) -> PoolOutcomeView {
    if !p.assignments.contains_key(window_id) {
        PoolOutcomeView { pool: p, responses: seq![unknown_window_error(mid)], actions: seq![] }
    } else {
        let slot = p.assignments[window_id] as int;
        let ack = RespView {
            message_id: Option::Some(mid),
            payload: RespPayloadView::OperationComplete,
        };
        let load = ActionView::LoadUrl { slot: slot as usize, url };
        if wait_for_load {
            PoolOutcomeView {
                pool: PoolView {
                    items: p.items.update(
                        slot,
                        ItemView {
                            id: p.items[slot].id,
                            assigned_to: p.items[slot].assigned_to,
                            pending: spec_pending_insert(
                                p.items[slot].pending,
                                WebviewEventView::PageLoadFinish { url },
                                ack,
                            ),
                        },
                    ),
                    ..p
                },
                responses: seq![],
                actions: seq![load],
            }
        } else {
            PoolOutcomeView { pool: p, responses: seq![ack], actions: seq![load] }
        }
    }
}

/// `ResizeWindow`: the window is resized and repositioned on a fixed grid
/// computed from its window id, then acknowledged.
pub open spec fn spec_resize_window(
    p: PoolView,
    mid: u32,
    window_id: u32,
    width: usize,
    height: usize,
) -> PoolOutcomeView {
    if !p.assignments.contains_key(window_id) {
        PoolOutcomeView { pool: p, responses: seq![unknown_window_error(mid)], actions: seq![] }
    } else {
        let slot = p.assignments[window_id] as int;
        PoolOutcomeView {
            pool: p,
            responses: seq![
                RespView {
                    message_id: Option::Some(mid),
                    payload: RespPayloadView::OperationComplete,
                },
            ],
            actions: seq![
                ActionView::SetSize { slot: slot as usize, width, height },
                ActionView::SetPosition {
                    slot: slot as usize,
                    x: ((window_id % 4) * 1920 / 2) as u32,
                    y: (((window_id / 4) % 4) * 1080 / 2) as u32,
                },
            ],
        }
    }
}

/// `EvaluateScript`: the script runs on the slot's engine window; the
/// answer comes from the engine's one-shot completion callback, not here.
pub open spec fn spec_evaluate_script(
    p: PoolView,
    mid: u32,
    window_id: u32,
    script: Seq<char>,
) -> PoolOutcomeView {
    if !p.assignments.contains_key(window_id) {
        PoolOutcomeView { pool: p, responses: seq![unknown_window_error(mid)], actions: seq![] }
    } else {
        let slot = p.assignments[window_id] as int;
        PoolOutcomeView {
            pool: p,
            responses: seq![],
            actions: seq![
                ActionView::RunScript {
                    slot: slot as usize,
                    message_id: mid,
                    script: script + "\n"@,
                },
            ],
        }
    }
}

/// `Screenshot`: the capture runs on the slot's engine window; the answer
/// comes from the engine's one-shot completion callback.
pub open spec fn spec_screenshot(
    p: PoolView,
    mid: u32,
    window_id: u32,
    path: Seq<char>,
) -> PoolOutcomeView {
    if !p.assignments.contains_key(window_id) {
        PoolOutcomeView { pool: p, responses: seq![unknown_window_error(mid)], actions: seq![] }
    } else {
        let slot = p.assignments[window_id] as int;
        PoolOutcomeView {
            pool: p,
            responses: seq![],
            actions: seq![
                ActionView::CaptureImage { slot: slot as usize, message_id: mid, path },
            ],
        }
    }
}

/// One atomic step of the owner for a decoded request.
pub open spec fn spec_handle_message(p: PoolView, v: ReqView) -> PoolOutcomeView {
    let mid = v.message_id->0;
    match v.payload {
        ReqPayloadView::Tester(text) => spec_tester(p, mid, text),
        ReqPayloadView::Initialize(_) => spec_initialize_again(p, mid),
        ReqPayloadView::NewWindow => spec_new_window(p, mid),
        ReqPayloadView::ReleaseWindow { window_id } => spec_release_window(p, mid, window_id),
        ReqPayloadView::Navigate { window_id, url, wait_for_load } => spec_navigate(
            p,
            mid,
            window_id,
            url,
            wait_for_load,
        ),
        ReqPayloadView::ResizeWindow { window_id, width, height } => spec_resize_window(
            p,
            mid,
            window_id,
            width,
            height,
        ),
        ReqPayloadView::EvaluateScript { window_id, script } => spec_evaluate_script(
            p,
            mid,
            window_id,
            script,
        ),
        ReqPayloadView::Screenshot { window_id, path } => spec_screenshot(p, mid, window_id, path),
    }
}

/// One atomic step of the owner for an engine notification: exactly the
/// deferred completion keyed by this event, if one is registered, is
/// removed and emitted.
pub open spec fn spec_handle_hook(p: PoolView, h: HookView) -> (PoolView, Seq<RespView>) {
    let slot = h.pool_item as int;
    let (pending, taken) = spec_pending_take(p.items[slot].pending, h.event);
    match taken {
        Option::Some(resp) => (
            PoolView {
                items: p.items.update(
                    slot,
                    ItemView {
                        id: p.items[slot].id,
                        assigned_to: p.items[slot].assigned_to,
                        pending,
                    },
                ),
                ..p
            },
            seq![resp],
        ),
        Option::None => (p, seq![]),
    }
}

// ------------------------------------------------------------------
// Executable pool
// ------------------------------------------------------------------

/// The pool as it stands right after initialization: `n` slots, none
/// leased, nothing pending, no ids handed out, nobody waiting.
pub open spec fn spec_pool_init(n: usize) -> PoolView {
    PoolView {
        items: Seq::new(
            n as nat,
            |i: int| ItemView { id: i as usize, assigned_to: Option::None, pending: Seq::empty() },
        ),
        assignments: Map::empty(),
        next_assignment: 0,
        waiting: Seq::empty(),
    }
}

impl Pool {
    /// Builds the fixed pool of slots. The engine windows standing behind
    /// the slots are the external collaborator's side, created by index.
    pub fn new(pool_size: usize) -> (r: Pool)
        ensures
            r@ =~= spec_pool_init(pool_size),
            pool_wf(r@),
    {
        let mut items: Vec<PoolItem> = Vec::new();
        let mut i: usize = 0;
        while i < pool_size
            invariant
                0 <= i <= pool_size,
                items@.len() == i,
                forall|l: int|
                    0 <= l < i ==> #[trigger] items@[l]@ =~= (ItemView {
                        id: l as usize,
                        assigned_to: Option::None,
                        pending: Seq::empty(),
                    }),
            decreases pool_size - i,
        {
            items.push(PoolItem { id: i, assigned_to: Option::None, pending_responses: Vec::new() });
            i = i + 1;
        }
        let r = Pool {
            items,
            assignments: HashMap::new(),
            next_assignment: 0,
            waiting_for_windows: VecDeque::new(),
        };
        proof {
            assert(r@.items =~~= spec_pool_init(pool_size).items);
            assert(r@.assignments =~= spec_pool_init(pool_size).assignments);
        }
        r
    }

    /// Resolves a window id to its slot index; an id with no assignment
    /// is reported, never a crash.
    pub fn get_assigned_window(&self, window_id: u32) -> (r: Result<usize, ()>)
        ensures
            match r {
                Result::Ok(slot) => self@.assignments.contains_key(window_id) && slot
                    == self@.assignments[window_id],
                Result::Err(()) => !self@.assignments.contains_key(window_id),
            },
    {
        match self.assignments.get(&window_id) {
            Option::Some(wr) => Result::Ok(wr.pool_index),
            Option::None => Result::Err(()),
        }
    }

    /// Forgets the assignment of one window id.
    pub fn release_assigned_window(&mut self, window_id: u32)
        ensures
            final(self)@ =~= (PoolView {
                assignments: old(self)@.assignments.remove(window_id),
                ..old(self)@
            }),
    {
        self.assignments.remove(&window_id);
        proof {
            assert(self@.assignments =~= old(self)@.assignments.remove(window_id));
        }
    }

    /// Leases the given slot under a fresh, process-lifetime-unique id.
    pub fn assign_window(&mut self, pool_index: usize) -> (window_id: u32)
        requires
            pool_index < old(self)@.items.len(),
            old(self).next_assignment < u32::MAX,
        ensures
            window_id == old(self)@.next_assignment,
            final(self)@ =~= spec_assign(old(self)@, pool_index as int).0,
    {
        proof {
            assert(self@.items.len() == self.items@.len());
        }
        let window_id = self.next_assignment;
        self.next_assignment = self.next_assignment + 1;
        self.assignments.insert(window_id, WindowReference { pool_index });
        self.items[pool_index].assigned_to = Option::Some(window_id);
        proof {
            assert(self@.assignments =~= old(self)@.assignments.insert(window_id, pool_index));
            assert(self@.items =~~= spec_assign(old(self)@, pool_index as int).0.items);
        }
        window_id
    }
}

fn unknown_window_response(mid: u32) -> (r: PBResponse)
    ensures
        r@ == unknown_window_error(mid),
{
    PBResponse {
        message_id: Option::Some(mid),
        payload: PBResponsePayload::Error {
            original_message: Option::None,
            message: String::from_str("No window is assigned to the requested id"),
        },
    }
}

fn handle_tester(message_id: u32, text: String) -> (out: Vec<PBResponse>)
    ensures
        resps_view(out@) =~= seq![
            RespView {
                message_id: Option::Some(message_id),
                payload: RespPayloadView::Tester("Responding to ["@ + text@ + "]"@),
            },
        ],
{
    let mut reply = String::from_str("Responding to [");
    reply.append(text.as_str());
    reply.append("]");
    let mut out: Vec<PBResponse> = Vec::new();
    out.push(
        PBResponse { message_id: Option::Some(message_id), payload: PBResponsePayload::Tester(reply) },
    );
    out
}

fn handle_new_window(pool: &mut Pool, message_id: u32) -> (out: Vec<PBResponse>)
    requires
        pool_wf(old(pool)@),
        old(pool).next_assignment < u32::MAX,
    ensures
        ({
            let o = spec_new_window(old(pool)@, message_id);
            final(pool)@ =~= o.pool && resps_view(out@) =~= o.responses
        }),
{
    let ghost items0 = pool@.items;
    let n = pool.items.len();
    let mut i: usize = 0;
    let mut free: Option<usize> = Option::None;
    while i < n && free.is_none()
        invariant
            0 <= i <= n,
            n == pool.items@.len(),
            *pool == *old(pool),
            items0 == pool@.items,
            free is None ==> forall|l: int| 0 <= l < i ==> (#[trigger] items0[l]).assigned_to
                is Some,
            free matches Option::Some(s) ==> i < n && s == i
                && items0[i as int].assigned_to is None && (forall|l: int|
                0 <= l < i ==> (#[trigger] items0[l]).assigned_to is Some),
        decreases n - i, (if free is None { 1int } else { 0int }),
    {
        if pool.items[i].assigned_to.is_none() {
            free = Option::Some(i);
        } else {
            i = i + 1;
        }
    }
    proof {
        lemma_first_free_slot_from(items0, 0);
        match free {
            Option::Some(slot) => {
                assert(items0[slot as int].assigned_to is None);
                match first_free_slot(items0) {
                    Option::Some(j) => {
                        if j < slot as int {
                            assert(items0[j].assigned_to is Some);
                        }
                        assert(j == slot as int);
                    },
                    Option::None => {
                        assert(items0[slot as int].assigned_to is Some);
                    },
                }
            },
            Option::None => {
                assert(i == n);
                match first_free_slot(items0) {
                    Option::Some(j) => {
                        assert(items0[j].assigned_to is Some);
                        assert(false);
                    },
                    Option::None => {},
                }
            },
        }
    }
    match free {
        Option::Some(slot) => {
            let assigned_to = pool.assign_window(slot);
            let mut out: Vec<PBResponse> = Vec::new();
            out.push(
                PBResponse {
                    message_id: Option::Some(message_id),
                    payload: PBResponsePayload::NewWindowCreated { id: assigned_to },
                },
            );
            out
        },
        Option::None => {
            pool.waiting_for_windows.push_back(message_id);
            proof {
                assert(pool@ =~= spec_new_window(old(pool)@, message_id).pool);
            }
            Vec::new()
        },
    }
}

fn handle_release_window(pool: &mut Pool, message_id: u32, window_id: u32) -> (out: Vec<
    PBResponse,
>)
    requires
        pool_wf(old(pool)@),
        old(pool).next_assignment < u32::MAX,
    ensures
        ({
            let o = spec_release_window(old(pool)@, message_id, window_id);
            final(pool)@ =~= o.pool && resps_view(out@) =~= o.responses
        }),
{
    let mut out: Vec<PBResponse> = Vec::new();
    match pool.get_assigned_window(window_id) {
        Result::Err(()) => {
            out.push(unknown_window_response(message_id));
            out
        },
        Result::Ok(slot) => {
            proof {
                assert(old(pool)@.assignments.contains_key(window_id));
                assert(slot < pool.items@.len());
            }
            pool.items[slot].assigned_to = Option::None;
            pool.items[slot].pending_responses = Vec::new();
            let released_id = pool.items[slot].id;
            proof {
                assert(released_id == slot);
            }
            pool.release_assigned_window(window_id);
            let ghost p1 = pool@;
            out.push(
                PBResponse {
                    message_id: Option::Some(message_id),
                    payload: PBResponsePayload::OperationComplete,
                },
            );
            match pool.waiting_for_windows.pop_front() {
                Option::Some(waiting) => {
                    proof {
                        assert(pool@ =~= (PoolView { waiting: p1.waiting.drop_first(), ..p1 }));
                        assert(released_id < pool@.items.len());
                    }
                    let assigned_to = pool.assign_window(released_id);
                    out.push(
                        PBResponse {
                            message_id: Option::Some(waiting),
                            payload: PBResponsePayload::NewWindowCreated { id: assigned_to },
                        },
                    );
                    proof {
                        let o = spec_release_window(old(pool)@, message_id, window_id);
                        assert(pool@ =~~= o.pool);
                        assert(resps_view(out@) =~= o.responses);
                    }
                    out
                },
                Option::None => {
                    proof {
                        let o = spec_release_window(old(pool)@, message_id, window_id);
                        assert(pool@ =~~= o.pool);
                        assert(resps_view(out@) =~= o.responses);
                    }
                    out
                },
            }
        },
    }
}

#[verifier::rlimit(80)]
#[verifier::spinoff_prover]
fn handle_navigate(
    pool: &mut Pool,
    message_id: u32,
    window_id: u32,
    url: String,
    wait_for_load: bool,
) -> (out: HandleOutcome)
    requires
        pool_wf(old(pool)@),
    ensures
        ({
            let o = spec_navigate(old(pool)@, message_id, window_id, url@, wait_for_load);
            final(pool)@ == o.pool && resps_view(out.responses@) == o.responses && actions_view(
                out.actions@,
            ) == o.actions
        }),
{
    let mut responses: Vec<PBResponse> = Vec::new();
    let mut actions: Vec<EngineAction> = Vec::new();
    match pool.get_assigned_window(window_id) {
        Result::Err(()) => {
            responses.push(unknown_window_response(message_id));
            proof {
                let o = spec_navigate(old(pool)@, message_id, window_id, url@, wait_for_load);
                assert(resps_view(responses@) =~= o.responses);
                assert(actions_view(actions@) =~= o.actions);
            }
        },
        Result::Ok(slot) => {
            proof {
                assert(slot < pool@.items.len());
                assert(pool@.items.len() == pool.items@.len());
            }
            let ack = PBResponse {
                message_id: Option::Some(message_id),
                payload: PBResponsePayload::OperationComplete,
            };
            if wait_for_load {
                let ev = PBWebviewEvent::PageLoadFinish { url: url.clone() };
                let ghost s0 = pool@.items[slot as int].pending;
                let found = find_pending(&pool.items[slot].pending_responses, &ev);
                proof {
                    lemma_pending_find(s0, ev@);
                }
                match found {
                    Option::Some(j) => {
                        let ghost v0 = pool.items@[slot as int].pending_responses@;
                        let _removed = pool.items[slot].pending_responses.remove(j);
                        proof {
                            assert(pool@.items[slot as int].pending =~= s0.remove(j as int));
                        }
                    },
                    Option::None => {},
                }
                pool.items[slot].pending_responses.push((ev, ack));
                proof {
                    let o = spec_navigate(old(pool)@, message_id, window_id, url@, wait_for_load);
                    let inserted = spec_pending_insert(
                        s0,
                        WebviewEventView::PageLoadFinish { url: url@ },
                        RespView {
                            message_id: Option::Some(message_id),
                            payload: RespPayloadView::OperationComplete,
                        },
                    );
                    assert(pool@.items[slot as int].pending =~= inserted);
                    assert(pool@.items =~~= o.pool.items);
                    assert(pool@ =~~= o.pool);
                }
                actions.push(EngineAction::LoadUrl { slot, url });
                proof {
                    let o = spec_navigate(old(pool)@, message_id, window_id, url@, wait_for_load);
                    assert(resps_view(responses@) =~= o.responses);
                    assert(actions_view(actions@) =~= o.actions);
                }
            } else {
                responses.push(ack);
                actions.push(EngineAction::LoadUrl { slot, url });
                proof {
                    let o = spec_navigate(old(pool)@, message_id, window_id, url@, wait_for_load);
                    assert(resps_view(responses@) =~= o.responses);
                    assert(actions_view(actions@) =~= o.actions);
                }
            }
        },
    }
    HandleOutcome { responses, actions }
}

fn handle_resize_window(
    pool: &mut Pool,
    message_id: u32,
    window_id: u32,
    width: usize,
    height: usize,
) -> (out: HandleOutcome)
    requires
        pool_wf(old(pool)@),
    ensures
        ({
            let o = spec_resize_window(old(pool)@, message_id, window_id, width, height);
            final(pool)@ == o.pool && resps_view(out.responses@) == o.responses && actions_view(
                out.actions@,
            ) == o.actions
        }),
{
    let mut responses: Vec<PBResponse> = Vec::new();
    let mut actions: Vec<EngineAction> = Vec::new();
    match pool.get_assigned_window(window_id) {
        Result::Err(()) => {
            responses.push(unknown_window_response(message_id));
        },
        Result::Ok(slot) => {
            let x = (window_id % 4) * 1920 / 2;
            let y = ((window_id / 4) % 4) * 1080 / 2;
            actions.push(EngineAction::SetSize { slot, width, height });
            actions.push(EngineAction::SetPosition { slot, x, y });
            responses.push(
                PBResponse {
                    message_id: Option::Some(message_id),
                    payload: PBResponsePayload::OperationComplete,
                },
            );
        },
    }
    proof {
        let o = spec_resize_window(old(pool)@, message_id, window_id, width, height);
        assert(resps_view(responses@) =~= o.responses);
        assert(actions_view(actions@) =~= o.actions);
    }
    HandleOutcome { responses, actions }
}

fn handle_evaluate_script(
    pool: &mut Pool,
    message_id: u32,
    window_id: u32,
    script: String,
) -> (out: HandleOutcome)
    requires
        pool_wf(old(pool)@),
    ensures
        ({
            let o = spec_evaluate_script(old(pool)@, message_id, window_id, script@);
            final(pool)@ == o.pool && resps_view(out.responses@) == o.responses && actions_view(
                out.actions@,
            ) == o.actions
        }),
{
    let mut responses: Vec<PBResponse> = Vec::new();
    let mut actions: Vec<EngineAction> = Vec::new();
    match pool.get_assigned_window(window_id) {
        Result::Err(()) => {
            responses.push(unknown_window_response(message_id));
        },
        Result::Ok(slot) => {
            let mut js = script;
            js.append("\n");
            actions.push(EngineAction::RunScript { slot, message_id, script: js });
        },
    }
    proof {
        let o = spec_evaluate_script(old(pool)@, message_id, window_id, script@);
        assert(resps_view(responses@) =~= o.responses);
        assert(actions_view(actions@) =~= o.actions);
    }
    HandleOutcome { responses, actions }
}

fn handle_screenshot(pool: &mut Pool, message_id: u32, window_id: u32, path: String) -> (out:
    HandleOutcome)
    requires
        pool_wf(old(pool)@),
    ensures
        ({
            let o = spec_screenshot(old(pool)@, message_id, window_id, path@);
            final(pool)@ == o.pool && resps_view(out.responses@) == o.responses && actions_view(
                out.actions@,
            ) == o.actions
        }),
{
    let mut responses: Vec<PBResponse> = Vec::new();
    let mut actions: Vec<EngineAction> = Vec::new();
    match pool.get_assigned_window(window_id) {
        Result::Err(()) => {
            responses.push(unknown_window_response(message_id));
        },
        Result::Ok(slot) => {
            actions.push(EngineAction::CaptureImage { slot, message_id, path });
        },
    }
    proof {
        let o = spec_screenshot(old(pool)@, message_id, window_id, path@);
        assert(resps_view(responses@) =~= o.responses);
        assert(actions_view(actions@) =~= o.actions);
    }
    HandleOutcome { responses, actions }
}

/// One atomic step of the owner for a decoded request: mutates the pool
/// and yields the responses to write and the engine commands to perform,
/// exactly as `spec_handle_message` says.
pub fn handle_message(pool: &mut Pool, msg: PBRequest) -> (out: HandleOutcome)
    requires
        pool_wf(old(pool)@),
        msg.message_id is Some,
        old(pool).next_assignment < u32::MAX,
    ensures
        ({
            let o = spec_handle_message(old(pool)@, msg@);
            final(pool)@ == o.pool && resps_view(out.responses@) == o.responses && actions_view(
                out.actions@,
            ) == o.actions
        }),
        pool_wf(final(pool)@),
{
    proof {
        lemma_handle_message_preserves_wf(pool@, msg@);
    }
    let message_id = match msg.message_id {
        Option::Some(m) => m,
        Option::None => {
            proof {
                assert(false);
            }
            0
        },
    };
    match msg.payload {
        PBRequestPayload::Tester(text) => {
            let responses = handle_tester(message_id, text);
            let out = HandleOutcome { responses, actions: Vec::new() };
            proof {
                let o = spec_handle_message(old(pool)@, msg@);
                assert(resps_view(out.responses@) =~= o.responses);
                assert(actions_view(out.actions@) =~= o.actions);
            }
            out
        },
        PBRequestPayload::Initialize(_) => {
            let mut responses: Vec<PBResponse> = Vec::new();
            responses.push(
                PBResponse {
                    message_id: Option::Some(message_id),
                    payload: PBResponsePayload::Error {
                        original_message: Option::None,
                        message: String::from_str("Pagebrowse is already initialized"),
                    },
                },
            );
            let out = HandleOutcome { responses, actions: Vec::new() };
            proof {
                let o = spec_handle_message(old(pool)@, msg@);
                assert(resps_view(out.responses@) =~= o.responses);
                assert(actions_view(out.actions@) =~= o.actions);
            }
            out
        },
        PBRequestPayload::NewWindow => {
            let responses = handle_new_window(pool, message_id);
            let out = HandleOutcome { responses, actions: Vec::new() };
            proof {
                let o = spec_handle_message(old(pool)@, msg@);
                assert(actions_view(out.actions@) =~= o.actions);
            }
            out
        },
        PBRequestPayload::ReleaseWindow { window_id } => {
            let responses = handle_release_window(pool, message_id, window_id);
            let out = HandleOutcome { responses, actions: Vec::new() };
            proof {
                let o = spec_handle_message(old(pool)@, msg@);
                assert(actions_view(out.actions@) =~= o.actions);
            }
            out
        },
        PBRequestPayload::Navigate { window_id, url, wait_for_load } => handle_navigate(
            pool,
            message_id,
            window_id,
            url,
            wait_for_load,
        ),
        PBRequestPayload::ResizeWindow { window_id, width, height } => handle_resize_window(
            pool,
            message_id,
            window_id,
            width,
            height,
        ),
        PBRequestPayload::EvaluateScript { window_id, script } => handle_evaluate_script(
            pool,
            message_id,
            window_id,
            script,
        ),
        PBRequestPayload::Screenshot { window_id, path } => handle_screenshot(
            pool,
            message_id,
            window_id,
            path,
        ),
    }
}

/// One atomic step of the owner for an engine notification: the deferred
/// completion keyed by exactly this event, if any, is removed and emitted.
pub fn handle_hook(pool: &mut Pool, hook: PBHook) -> (out: Vec<PBResponse>)
    requires
        pool_wf(old(pool)@),
        hook.pool_item < old(pool)@.items.len(),
    ensures
        ({
            let (p2, rs) = spec_handle_hook(old(pool)@, hook@);
            final(pool)@ == p2 && resps_view(out@) == rs
        }),
        pool_wf(final(pool)@),
{
    proof {
        lemma_handle_hook_preserves_wf(pool@, hook@);
    }
    let slot = hook.pool_item;
    proof {
        assert(pool@.items.len() == pool.items@.len());
    }
    let ghost s0 = pool@.items[slot as int].pending;
    proof {
        lemma_pending_find(s0, hook.event@);
    }
    let mut out: Vec<PBResponse> = Vec::new();
    let found = find_pending(&pool.items[slot].pending_responses, &hook.event);
    match found {
        Option::Some(j) => {
            let pair = pool.items[slot].pending_responses.remove(j);
            out.push(pair.1);
            proof {
                let (p2, rs) = spec_handle_hook(old(pool)@, hook@);
                assert(pool@.items[slot as int].pending =~= s0.remove(j as int));
                assert(pool@.items =~~= p2.items);
                assert(pool@ =~~= p2);
                assert(resps_view(out@) =~= rs);
            }
        },
        Option::None => {
            proof {
                let (p2, rs) = spec_handle_hook(old(pool)@, hook@);
                assert(pool@ =~~= p2);
                assert(resps_view(out@) =~= rs);
            }
        },
    }
    out
}

/// Dispatches one item of the worker's single ordered inbound queue.
pub fn handle_event(pool: &mut Pool, evt: PBEvent) -> (out: HandleOutcome)
    requires
        pool_wf(old(pool)@),
        old(pool).next_assignment < u32::MAX,
        evt matches PBEvent::Request(m) ==> m.message_id is Some,
        evt matches PBEvent::Hook(h) ==> h.pool_item < old(pool)@.items.len(),
    ensures
        evt matches PBEvent::Request(m) ==> ({
            let o = spec_handle_message(old(pool)@, m@);
            final(pool)@ == o.pool && resps_view(out.responses@) == o.responses && actions_view(
                out.actions@,
            ) == o.actions
        }),
        evt matches PBEvent::Hook(h) ==> ({
            let (p2, rs) = spec_handle_hook(old(pool)@, h@);
            final(pool)@ == p2 && resps_view(out.responses@) == rs && out.actions@.len() == 0
        }),
        pool_wf(final(pool)@),
{
    match evt {
        PBEvent::Request(msg) => handle_message(pool, msg),
        PBEvent::Hook(hook) => {
            let responses = handle_hook(pool, hook);
            HandleOutcome { responses, actions: Vec::new() }
        },
    }
}

/// The decision of the initialization handshake: until `Initialize`
/// arrives every request is rejected; `Initialize` is acknowledged and
/// its parameters are handed out.
pub fn pre_init_step(msg: PBRequest) -> (r: (Option<InitializationParams>, PBResponse))
    ensures
        match msg@.payload {
            ReqPayloadView::Initialize(ipv) => r.0 matches Option::Some(q) && q@ == ipv && r.1@
                == (RespView {
                message_id: msg@.message_id,
                payload: RespPayloadView::OperationComplete,
            }),
            _ => r.0 is None && r.1@ == (RespView {
                message_id: msg@.message_id,
                payload: RespPayloadView::Error {
                    original_message: Option::None,
                    message: "Initialize message has not been sent, Pagebrowse is not yet ready"@,
                },
            }),
        },
{
    let message_id = msg.message_id;
    match msg.payload {
        PBRequestPayload::Initialize(params) => (
            Option::Some(params),
            PBResponse { message_id, payload: PBResponsePayload::OperationComplete },
        ),
        _ => (
            Option::None,
            PBResponse {
                message_id,
                payload: PBResponsePayload::Error {
                    original_message: Option::None,
                    message: String::from_str(
                        "Initialize message has not been sent, Pagebrowse is not yet ready",
                    ),
                },
            },
        ),
    }
}

/// The response the engine's one-shot script callback produces.
pub fn script_evaluated_response(message_id: u32, output: String) -> (r: PBResponse)
    ensures
        r@ == (RespView {
            message_id: Option::Some(message_id),
            payload: RespPayloadView::ScriptEvaluated { output: output@ },
        }),
{
    PBResponse {
        message_id: Option::Some(message_id),
        payload: PBResponsePayload::ScriptEvaluated { output },
    }
}

/// The response the engine's one-shot snapshot callback produces once the
/// captured bytes are written out.
pub fn screenshot_complete_response(message_id: u32) -> (r: PBResponse)
    ensures
        r@ == (RespView {
            message_id: Option::Some(message_id),
            payload: RespPayloadView::OperationComplete,
        }),
{
    PBResponse { message_id: Option::Some(message_id), payload: PBResponsePayload::OperationComplete }
}

// ------------------------------------------------------------------
// Laws of the pool
// ------------------------------------------------------------------

proof fn lemma_pending_insert_unique(
    s: Seq<(WebviewEventView, RespView)>,
    k: WebviewEventView,
    r: RespView,
)
    requires
        pending_keys_unique(s),
    ensures
        pending_keys_unique(spec_pending_insert(s, k, r)),
        forall|l: int|
            0 <= l < spec_pending_insert(s, k, r).len() - 1 ==> (#[trigger] spec_pending_insert(
                s,
                k,
                r,
            )[l]).0 != k,
{
    lemma_pending_find(s, k);
    let base = match pending_find(s, k) {
        Option::Some(j) => s.remove(j),
        Option::None => s,
    };
    assert forall|l: int| 0 <= l < base.len() implies (#[trigger] base[l]).0 != k by {
        match pending_find(s, k) {
            Option::Some(j) => {
                if l < j {
                    assert(base[l] == s[l]);
                } else {
                    assert(base[l] == s[l + 1]);
                }
            },
            Option::None => {},
        }
    }
    assert(pending_keys_unique(base)) by {
        assert forall|i: int, l: int| 0 <= i < l < base.len() implies (#[trigger] base[i]).0 != (
        #[trigger] base[l]).0 by {
            match pending_find(s, k) {
                Option::Some(j) => {
                    let i2: int = if i < j {
                        i
                    } else {
                        i + 1
                    };
                    let l2: int = if l < j {
                        l
                    } else {
                        l + 1
                    };
                    assert(base[i] == s[i2]);
                    assert(base[l] == s[l2]);
                },
                Option::None => {},
            }
        }
    }
    let t = base.push((k, r));
    assert forall|i: int, l: int| 0 <= i < l < t.len() implies (#[trigger] t[i]).0 != (
    #[trigger] t[l]).0 by {
        if l < t.len() - 1 {
            assert(t[i] == base[i] && t[l] == base[l]);
        } else {
            assert(t[l].0 == k && t[i] == base[i]);
        }
    }
}

proof fn lemma_pending_find_push(
    s: Seq<(WebviewEventView, RespView)>,
    k: WebviewEventView,
    r: RespView,
)
    requires
        forall|l: int| 0 <= l < s.len() ==> (#[trigger] s[l]).0 != k,
    ensures
        pending_find(s.push((k, r)), k) == Option::Some(s.len() as int),
    decreases s.len(),
{
    let t = s.push((k, r));
    if s.len() == 0 {
        assert(t[0].0 == k);
    } else {
        assert(t[0] == s[0]);
        assert(t.drop_first() =~= s.drop_first().push((k, r)));
        lemma_pending_find_push(s.drop_first(), k, r);
    }
}

/// Assigning a free slot preserves the pool invariant.
proof fn lemma_wf_assign(p: PoolView, slot: int)
    requires
        pool_wf(p),
        0 <= slot < p.items.len(),
        p.items[slot].assigned_to is None,
        p.next_assignment < u32::MAX,
    ensures
        pool_wf(spec_assign(p, slot).0),
        !p.assignments.contains_key(p.next_assignment),
{
    let (p1, w0) = spec_assign(p, slot);
    if p.assignments.contains_key(w0) {
        assert(p.items[p.assignments[w0] as int].assigned_to == Option::Some(w0));
        assert(w0 < p.next_assignment);
    }
    assert forall|w: u32| #[trigger] p1.assignments.contains_key(w) implies {
        &&& p1.assignments[w] < p1.items.len()
        &&& p1.items[p1.assignments[w] as int].assigned_to == Option::Some(w)
        &&& w < p1.next_assignment
    } by {
        if w == w0 {
        } else {
            assert(p.assignments.contains_key(w));
            assert(p.assignments[w] != slot);
        }
    }
    assert forall|i: int| 0 <= i < p1.items.len() implies match (#[trigger] p1.items[i]).assigned_to {
        Option::Some(w) => p1.assignments.contains_key(w) && p1.assignments[w] == i,
        Option::None => true,
    } by {
        if i != slot {
            match p.items[i].assigned_to {
                Option::Some(w) => {
                    assert(w < p.next_assignment);
                    assert(w != w0);
                },
                Option::None => {},
            }
        }
    }
}

/// Releasing an assigned slot preserves the pool invariant.
proof fn lemma_wf_release(p: PoolView, window_id: u32)
    requires
        pool_wf(p),
        p.assignments.contains_key(window_id),
    ensures
        ({
            let slot = p.assignments[window_id] as int;
            pool_wf(
                PoolView {
                    items: p.items.update(
                        slot,
                        ItemView {
                            id: p.items[slot].id,
                            assigned_to: Option::None,
                            pending: Seq::empty(),
                        },
                    ),
                    assignments: p.assignments.remove(window_id),
                    next_assignment: p.next_assignment,
                    waiting: p.waiting,
                },
            )
        }),
{
    let slot = p.assignments[window_id] as int;
    let p1 = PoolView {
        items: p.items.update(
            slot,
            ItemView { id: p.items[slot].id, assigned_to: Option::None, pending: Seq::empty() },
        ),
        assignments: p.assignments.remove(window_id),
        next_assignment: p.next_assignment,
        waiting: p.waiting,
    };
    assert forall|w: u32| #[trigger] p1.assignments.contains_key(w) implies {
        &&& p1.assignments[w] < p1.items.len()
        &&& p1.items[p1.assignments[w] as int].assigned_to == Option::Some(w)
        &&& w < p1.next_assignment
    } by {
        assert(p.assignments.contains_key(w) && w != window_id);
        if p.assignments[w] == slot {
            assert(p.items[slot].assigned_to == Option::Some(w));
            assert(p.items[slot].assigned_to == Option::Some(window_id));
        }
    }
}

/// Every step of `spec_handle_message` preserves the pool invariant: the
/// state machine of a slot never leaves `Unassigned <-> Assigned`.
pub proof fn lemma_handle_message_preserves_wf(p: PoolView, v: ReqView)
    requires
        pool_wf(p),
        p.next_assignment < u32::MAX,
    ensures
        pool_wf(spec_handle_message(p, v).pool),
{
    let mid = v.message_id->0;
    match v.payload {
        ReqPayloadView::Tester(_) => {},
        ReqPayloadView::Initialize(_) => {},
        ReqPayloadView::NewWindow => {
            match first_free_slot(p.items) {
                Option::Some(slot) => {
                    lemma_first_free_slot_from(p.items, 0);
                    lemma_wf_assign(p, slot);
                },
                Option::None => {},
            }
        },
        ReqPayloadView::ReleaseWindow { window_id } => {
            if p.assignments.contains_key(window_id) {
                let slot = p.assignments[window_id] as int;
                lemma_wf_release(p, window_id);
                let p1 = PoolView {
                    items: p.items.update(
                        slot,
                        ItemView {
                            id: p.items[slot].id,
                            assigned_to: Option::None,
                            pending: Seq::empty(),
                        },
                    ),
                    assignments: p.assignments.remove(window_id),
                    next_assignment: p.next_assignment,
                    waiting: p.waiting,
                };
                if p.waiting.len() > 0 {
                    lemma_wf_assign(p1, slot);
                    let p2 = spec_assign(p1, slot).0;
                    assert(pool_wf(
                        PoolView { waiting: p.waiting.drop_first(), ..p2 },
                    ));
                }
            }
        },
        ReqPayloadView::Navigate { window_id, url, wait_for_load } => {
            if p.assignments.contains_key(window_id) && wait_for_load {
                let slot = p.assignments[window_id] as int;
                let ack = RespView {
                    message_id: Option::Some(mid),
                    payload: RespPayloadView::OperationComplete,
                };
                lemma_pending_insert_unique(
                    p.items[slot].pending,
                    WebviewEventView::PageLoadFinish { url },
                    ack,
                );
            }
        },
        ReqPayloadView::ResizeWindow { .. } => {},
        ReqPayloadView::EvaluateScript { .. } => {},
        ReqPayloadView::Screenshot { .. } => {},
    }
}

/// Every engine notification preserves the pool invariant.
pub proof fn lemma_handle_hook_preserves_wf(p: PoolView, h: HookView)
    requires
        pool_wf(p),
        h.pool_item < p.items.len(),
    ensures
        pool_wf(spec_handle_hook(p, h).0),
{
    let slot = h.pool_item as int;
    let s = p.items[slot].pending;
    lemma_pending_find(s, h.event);
    match pending_find(s, h.event) {
        Option::Some(j) => {
            let base = s.remove(j);
            assert(pending_keys_unique(base)) by {
                assert forall|i: int, l: int|
                    0 <= i < l < base.len() implies (#[trigger] base[i]).0 != (
                #[trigger] base[l]).0 by {
                    let i2: int = if i < j {
                        i
                    } else {
                        i + 1
                    };
                    let l2: int = if l < j {
                        l
                    } else {
                        l + 1
                    };
                    assert(base[i] == s[i2]);
                    assert(base[l] == s[l2]);
                }
            }
        },
        Option::None => {},
    }
}

/// How many slots are currently free at or after index `i`.
pub open spec fn free_count_from(items: Seq<ItemView>, i: int) -> int
    decreases items.len() - i,
    when 0 <= i <= items.len()
{
    if i >= items.len() {
        0
    } else {
        (if items[i].assigned_to is None {
            1int
        } else {
            0int
        }) + free_count_from(items, i + 1)
    }
}

pub open spec fn free_count(items: Seq<ItemView>) -> int {
    free_count_from(items, 0)
}

/// A burst of `NewWindow` calls, processed in arrival order.
pub open spec fn spec_new_window_burst(p: PoolView, mids: Seq<u32>) -> (PoolView, Seq<RespView>)
    decreases mids.len(),
{
    if mids.len() == 0 {
        (p, seq![])
    } else {
        let o = spec_new_window(p, mids[0]);
        let (pf, rs) = spec_new_window_burst(o.pool, mids.drop_first());
        (pf, o.responses + rs)
    }
}

proof fn lemma_free_count_nonneg(items: Seq<ItemView>, i: int)
    requires
        0 <= i <= items.len(),
    ensures
        free_count_from(items, i) >= 0,
    decreases items.len() - i,
{
    if i < items.len() {
        lemma_free_count_nonneg(items, i + 1);
    }
}

proof fn lemma_free_count_update(items: Seq<ItemView>, i: int, slot: int, it: ItemView)
    requires
        0 <= i <= items.len(),
        0 <= slot < items.len(),
        items[slot].assigned_to is None,
        it.assigned_to is Some,
    ensures
        free_count_from(items.update(slot, it), i) == free_count_from(items, i) - (if i <= slot {
            1int
        } else {
            0int
        }),
    decreases items.len() - i,
{
    if i < items.len() {
        lemma_free_count_update(items, i + 1, slot, it);
    }
}

proof fn lemma_no_free_slot_count(items: Seq<ItemView>, i: int)
    requires
        0 <= i <= items.len(),
    ensures
        first_free_slot_from(items, i) is None <==> free_count_from(items, i) == 0,
    decreases items.len() - i,
{
    if i < items.len() {
        lemma_no_free_slot_count(items, i + 1);
        lemma_free_count_nonneg(items, i + 1);
    }
}

/// Pool fairness, arrival half: a burst of `NewWindow` calls on a drained
/// pool (nobody queued) with `k` free slots answers exactly the first
/// `min(k, n)` callers immediately, under consecutive fresh ids, and
/// queues the rest in strict arrival order.
pub proof fn lemma_pool_fairness(p: PoolView, mids: Seq<u32>)
    requires
        pool_wf(p),
        p.waiting.len() == 0,
        p.next_assignment + mids.len() <= u32::MAX,
    ensures
        ({
            let (pf, rs) = spec_new_window_burst(p, mids);
            let served: int = if mids.len() <= free_count(p.items) {
                mids.len() as int
            } else {
                free_count(p.items)
            };
            &&& rs.len() == served
            &&& forall|j: int|
                0 <= j < served ==> rs[j] == (RespView {
                    message_id: Option::Some(mids[j]),
                    payload: RespPayloadView::NewWindowCreated {
                        id: (p.next_assignment + j) as u32,
                    },
                })
            &&& pf.waiting =~= mids.skip(served)
            &&& pf.next_assignment == p.next_assignment + served
            &&& pool_wf(pf)
        }),
    decreases mids.len(),
{
    lemma_free_count_nonneg(p.items, 0);
    if mids.len() == 0 {
        assert(p.waiting =~= mids.skip(0));
    } else {
        let o = spec_new_window(p, mids[0]);
        lemma_first_free_slot_from(p.items, 0);
        lemma_no_free_slot_count(p.items, 0);
        match first_free_slot(p.items) {
            Option::Some(slot) => {
                lemma_wf_assign(p, slot);
                lemma_free_count_update(
                    p.items,
                    0,
                    slot,
                    ItemView {
                        id: p.items[slot].id,
                        assigned_to: Option::Some(p.next_assignment),
                        pending: p.items[slot].pending,
                    },
                );
                lemma_pool_fairness(o.pool, mids.drop_first());
                let (pf, rs1) = spec_new_window_burst(o.pool, mids.drop_first());
                let (pff, rs) = spec_new_window_burst(p, mids);
                let served: int = if mids.len() <= free_count(p.items) {
                    mids.len() as int
                } else {
                    free_count(p.items)
                };
                assert(free_count(o.pool.items) == free_count(p.items) - 1);
                let served1: int = if mids.drop_first().len() <= free_count(o.pool.items) {
                    mids.drop_first().len() as int
                } else {
                    free_count(o.pool.items)
                };
                assert(served == served1 + 1);
                assert forall|j: int| 0 <= j < served implies rs[j] == (RespView {
                    message_id: Option::Some(mids[j]),
                    payload: RespPayloadView::NewWindowCreated {
                        id: (p.next_assignment + j) as u32,
                    },
                }) by {
                    if j > 0 {
                        assert(rs[j] == rs1[j - 1]);
                        assert(mids.drop_first()[j - 1] == mids[j]);
                    }
                }
                assert(pf.waiting =~= mids.drop_first().skip(served1));
                assert(mids.drop_first().skip(served1) =~= mids.skip(served));
            },
            Option::None => {
                assert(free_count(p.items) == 0);
                let p1 = o.pool;
                assert(p1.waiting =~= seq![mids[0]]);
                lemma_burst_all_queued(p1, mids.drop_first());
                let (pf, rs) = spec_new_window_burst(p, mids);
                assert(pf.waiting =~= seq![mids[0]] + mids.drop_first());
                assert(pf.waiting =~= mids.skip(0));
            },
        }
    }
}

/// With no free slot, every call of a burst queues, in arrival order.
proof fn lemma_burst_all_queued(p: PoolView, mids: Seq<u32>)
    requires
        pool_wf(p),
        free_count(p.items) == 0,
    ensures
        ({
            let (pf, rs) = spec_new_window_burst(p, mids);
            &&& rs.len() == 0
            &&& pf.waiting =~= p.waiting + mids
            &&& pf.items == p.items
            &&& pf.next_assignment == p.next_assignment
            &&& pool_wf(pf)
        }),
    decreases mids.len(),
{
    if mids.len() == 0 {
        assert(p.waiting + mids =~= p.waiting);
    } else {
        lemma_no_free_slot_count(p.items, 0);
        let o = spec_new_window(p, mids[0]);
        assert(o.pool.waiting =~= p.waiting.push(mids[0]));
        lemma_burst_all_queued(o.pool, mids.drop_first());
        let (pf, rs) = spec_new_window_burst(p, mids);
        assert(pf.waiting =~= (p.waiting.push(mids[0])) + mids.drop_first());
        assert((p.waiting.push(mids[0])) + mids.drop_first() =~= p.waiting + mids);
    }
}

/// Pool fairness, departure half: releasing an assigned window while
/// callers wait acknowledges the release and immediately serves exactly
/// the queue head with a fresh id on the freed slot; the others keep
/// their order.
pub proof fn lemma_pool_fifo_release(p: PoolView, mid: u32, window_id: u32)
    requires
        pool_wf(p),
        p.assignments.contains_key(window_id),
        p.waiting.len() > 0,
        p.next_assignment < u32::MAX,
    ensures
        ({
            let o = spec_release_window(p, mid, window_id);
            let slot = p.assignments[window_id];
            &&& o.responses.len() == 2
            &&& o.responses[0] == (RespView {
                message_id: Option::Some(mid),
                payload: RespPayloadView::OperationComplete,
            })
            &&& o.responses[1] == (RespView {
                message_id: Option::Some(p.waiting[0]),
                payload: RespPayloadView::NewWindowCreated { id: p.next_assignment },
            })
            &&& o.pool.waiting =~= p.waiting.drop_first()
            &&& o.pool.assignments.contains_key(p.next_assignment)
            &&& o.pool.assignments[p.next_assignment] == slot
            &&& o.pool.next_assignment == p.next_assignment + 1
            &&& forall|w: u32|
                w != window_id && p.assignments.contains_key(w)
                    ==> #[trigger] o.pool.assignments.contains_key(w)
            &&& pool_wf(o.pool)
        }),
{
    let slot = p.assignments[window_id] as int;
    lemma_wf_release(p, window_id);
    let p1 = PoolView {
        items: p.items.update(
            slot,
            ItemView { id: p.items[slot].id, assigned_to: Option::None, pending: Seq::empty() },
        ),
        assignments: p.assignments.remove(window_id),
        next_assignment: p.next_assignment,
        waiting: p.waiting,
    };
    lemma_wf_assign(p1, slot);
    let p2 = spec_assign(p1, slot).0;
    assert(pool_wf(PoolView { waiting: p.waiting.drop_first(), ..p2 }));
}

/// A sequence of `ReleaseWindow` calls, processed in order.
pub open spec fn spec_release_burst(p: PoolView, mids: Seq<u32>, ws: Seq<u32>) -> (
    PoolView,
    Seq<RespView>,
)
    decreases ws.len(),
{
    if ws.len() == 0 {
        (p, seq![])
    } else {
        let o = spec_release_window(p, mids[0], ws[0]);
        let (pf, rs) = spec_release_burst(o.pool, mids.drop_first(), ws.drop_first());
        (pf, o.responses + rs)
    }
}

/// Pool fairness, FIFO half over many departures: releasing assigned
/// windows one after another serves exactly the waiting callers at the
/// head of the queue, one per release, in strict queue order, each under
/// the next fresh id — so every queued caller resolves exactly once.
pub proof fn lemma_pool_fifo(p: PoolView, mids: Seq<u32>, ws: Seq<u32>)
    requires
        pool_wf(p),
        mids.len() == ws.len(),
        ws.len() <= p.waiting.len(),
        forall|i: int| 0 <= i < ws.len() ==> p.assignments.contains_key(#[trigger] ws[i]),
        forall|i: int, j: int| 0 <= i < j < ws.len() ==> ws[i] != ws[j],
        p.next_assignment + ws.len() <= u32::MAX,
    ensures
        ({
            let (pf, rs) = spec_release_burst(p, mids, ws);
            &&& rs.len() == 2 * ws.len()
            &&& forall|i: int|
                0 <= i < ws.len() ==> rs[2 * i] == (RespView {
                    message_id: Option::Some(mids[i]),
                    payload: RespPayloadView::OperationComplete,
                })
            &&& forall|i: int|
                0 <= i < ws.len() ==> rs[2 * i + 1] == (RespView {
                    message_id: Option::Some(p.waiting[i]),
                    payload: RespPayloadView::NewWindowCreated {
                        id: (p.next_assignment + i) as u32,
                    },
                })
            &&& pf.waiting =~= p.waiting.skip(ws.len() as int)
            &&& pf.next_assignment == p.next_assignment + ws.len()
            &&& pool_wf(pf)
        }),
    decreases ws.len(),
{
    if ws.len() > 0 {
        lemma_pool_fifo_release(p, mids[0], ws[0]);
        let o = spec_release_window(p, mids[0], ws[0]);
        assert forall|i: int|
            0 <= i < ws.drop_first().len() implies o.pool.assignments.contains_key(
            #[trigger] ws.drop_first()[i],
        ) by {
            assert(ws.drop_first()[i] == ws[i + 1]);
            assert(ws[i + 1] != ws[0]);
            assert(ws[i + 1] < p.next_assignment);
        }
        lemma_pool_fifo(o.pool, mids.drop_first(), ws.drop_first());
        let (pf, rs1) = spec_release_burst(o.pool, mids.drop_first(), ws.drop_first());
        let (pff, rs) = spec_release_burst(p, mids, ws);
        assert forall|i: int| 0 <= i < ws.len() implies rs[2 * i] == (RespView {
            message_id: Option::Some(mids[i]),
            payload: RespPayloadView::OperationComplete,
        }) by {
            if i > 0 {
                assert(mids.drop_first()[i - 1] == mids[i]);
                assert(rs1[2 * (i - 1)] == (RespView {
                    message_id: Option::Some(mids.drop_first()[i - 1]),
                    payload: RespPayloadView::OperationComplete,
                }));
                assert(rs[2 * i] == rs1[2 * (i - 1)]);
            }
        }
        assert forall|i: int| 0 <= i < ws.len() implies rs[2 * i + 1] == (RespView {
            message_id: Option::Some(p.waiting[i]),
            payload: RespPayloadView::NewWindowCreated { id: (p.next_assignment + i) as u32 },
        }) by {
            if i > 0 {
                assert(o.pool.waiting[i - 1] == p.waiting[i]);
                assert(rs1[2 * (i - 1) + 1] == (RespView {
                    message_id: Option::Some(o.pool.waiting[i - 1]),
                    payload: RespPayloadView::NewWindowCreated {
                        id: (o.pool.next_assignment + (i - 1)) as u32,
                    },
                }));
                assert(rs[2 * i + 1] == rs1[2 * (i - 1) + 1]);
            }
        }
        assert(pf.waiting =~= o.pool.waiting.skip(ws.len() as int - 1));
        assert(pf.waiting =~= p.waiting.skip(ws.len() as int));
    } else {
        assert(p.waiting.skip(0) =~= p.waiting);
    }
}

/// Invalid release: releasing a never-assigned or already-released id is
/// answered with a targeted error and changes nothing.
pub proof fn lemma_invalid_release(p: PoolView, mid: u32, window_id: u32)
    requires
        !p.assignments.contains_key(window_id),
    ensures
        spec_release_window(p, mid, window_id) == (PoolOutcomeView {
            pool: p,
            responses: seq![unknown_window_error(mid)],
            actions: seq![],
        }),
{
}

/// Deferred navigation: with `wait_for_load` the acknowledgement is not
/// among the responses; it is released, exactly once, by the engine's
/// load-finish notification for that URL on that slot. Without
/// `wait_for_load` it is answered immediately.
pub proof fn lemma_deferred_navigation(p: PoolView, mid: u32, window_id: u32, url: Seq<char>)
    requires
        pool_wf(p),
        p.assignments.contains_key(window_id),
    ensures
        ({
            let o = spec_navigate(p, mid, window_id, url, true);
            let slot = p.assignments[window_id];
            let hook = HookView {
                pool_item: slot,
                event: WebviewEventView::PageLoadFinish { url },
            };
            let ack = RespView {
                message_id: Option::Some(mid),
                payload: RespPayloadView::OperationComplete,
            };
            let (p2, emitted) = spec_handle_hook(o.pool, hook);
            &&& o.responses.len() == 0
            &&& emitted =~= seq![ack]
            &&& pending_find(
                p2.items[slot as int].pending,
                WebviewEventView::PageLoadFinish { url },
            ) is None
        }),
        spec_navigate(p, mid, window_id, url, false).responses =~= seq![
            RespView { message_id: Option::Some(mid), payload: RespPayloadView::OperationComplete },
        ],
{
    let o = spec_navigate(p, mid, window_id, url, true);
    let slot = p.assignments[window_id] as int;
    let k = WebviewEventView::PageLoadFinish { url };
    let ack = RespView { message_id: Option::Some(mid), payload: RespPayloadView::OperationComplete };
    let s = p.items[slot].pending;
    lemma_pending_insert_unique(s, k, ack);
    let t = spec_pending_insert(s, k, ack);
    let base = t.take(t.len() - 1);
    assert(base =~= (match pending_find(s, k) {
        Option::Some(j) => s.remove(j),
        Option::None => s,
    }));
    lemma_pending_find_push(base, k, ack);
    assert(base.push((k, ack)) =~= t);
    assert(pending_find(t, k) == Option::Some(base.len() as int));
    assert(o.pool.items[slot].pending == t);
    let (p2, emitted) = spec_handle_hook(
        o.pool,
        HookView { pool_item: slot as usize, event: k },
    );
    assert(t[base.len() as int].1 == ack);
    assert(emitted =~= seq![ack]);
    assert(p2.items[slot].pending =~= t.remove(base.len() as int));
    assert(t.remove(base.len() as int) =~= base);
    lemma_pending_find(base, k);
    match pending_find(base, k) {
        Option::Some(j) => {
            assert(base[j].0 != k);
        },
        Option::None => {},
    }
}

} // verus!
