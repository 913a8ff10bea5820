//! Protocol message types and their mathematical views.
//!
//! A `PBRequest` travels from the controlling process to the worker; a
//! `PBResponse` travels back. Every contract in the crate speaks of these
//! values through the `*View` types below, in which every string is a
//! `Seq<char>`.

use vstd::prelude::*;

verus! {

/// Parameters of the initialization handshake: how many window slots the
/// pool holds, whether the windows are shown on screen, and an optional
/// script every window runs on page load.
#[derive(Debug, Clone, PartialEq, Eq)]
pub struct InitializationParams {
    pub pool_size: usize,
    pub visible: bool,
    pub init_script: Option<String>,
}

/// One request on the wire: an optional correlation identifier and a command.
#[derive(Debug, Clone, PartialEq, Eq)]
pub struct PBRequest {
    pub message_id: Option<u32>,
    pub payload: PBRequestPayload,
}

/// The commands a controlling process may issue.
#[derive(Debug, Clone, PartialEq, Eq)]
pub enum PBRequestPayload {
    Tester(String),
    Initialize(InitializationParams),
    NewWindow,
    ReleaseWindow { window_id: u32 },
    Navigate { window_id: u32, url: String, wait_for_load: bool },
    ResizeWindow { window_id: u32, width: usize, height: usize },
    EvaluateScript { window_id: u32, script: String },
    Screenshot { window_id: u32, path: String },
}

/// One response on the wire. `message_id` is `None` only for diagnostics
/// answering input that could not be decoded at all.
#[derive(Debug, Clone, PartialEq, Eq)]
pub struct PBResponse {
    pub message_id: Option<u32>,
    pub payload: PBResponsePayload,
}

/// The results a worker may send back.
#[derive(Debug, Clone, PartialEq, Eq)]
pub enum PBResponsePayload {
    Error { original_message: Option<String>, message: String },
    Tester(String),
    NewWindowCreated { id: u32 },
    ScriptEvaluated { output: String },
    OperationComplete,
}

/// An engine notification: which pool slot it came from and what happened.
#[derive(Debug, Clone, PartialEq, Eq)]
pub struct PBHook {
    pub pool_item: usize,
    pub event: PBWebviewEvent,
}

/// The notifications the embedded engine emits for a window.
#[derive(Debug, Clone, PartialEq, Eq)]
pub enum PBWebviewEvent {
    PageLoadStart { url: String },
    PageLoadFinish { url: String },
}

/// One item of the worker's single ordered inbound queue: either a decoded
/// request from the transport or an engine notification.
#[derive(Debug, Clone, PartialEq, Eq)]
pub enum PBEvent {
    Request(PBRequest),
    Hook(PBHook),
}

// ------------------------------------------------------------------
// Views
// ------------------------------------------------------------------

#[verifier::ext_equal]
pub struct InitParamsView {
    pub pool_size: usize,
    pub visible: bool,
    pub init_script: Option<Seq<char>>,
}

#[verifier::ext_equal]
pub enum ReqPayloadView {
    Tester(Seq<char>),
    Initialize(InitParamsView),
    NewWindow,
    ReleaseWindow { window_id: u32 },
    Navigate { window_id: u32, url: Seq<char>, wait_for_load: bool },
    ResizeWindow { window_id: u32, width: usize, height: usize },
    EvaluateScript { window_id: u32, script: Seq<char> },
    Screenshot { window_id: u32, path: Seq<char> },
}

#[verifier::ext_equal]
pub struct ReqView {
    pub message_id: Option<u32>,
    pub payload: ReqPayloadView,
}

#[verifier::ext_equal]
pub enum RespPayloadView {
    Error { original_message: Option<Seq<char>>, message: Seq<char> },
    Tester(Seq<char>),
    NewWindowCreated { id: u32 },
    ScriptEvaluated { output: Seq<char> },
    OperationComplete,
}

#[verifier::ext_equal]
pub struct RespView {
    pub message_id: Option<u32>,
    pub payload: RespPayloadView,
}

#[verifier::ext_equal]
pub enum WebviewEventView {
    PageLoadStart { url: Seq<char> },
    PageLoadFinish { url: Seq<char> },
}

#[verifier::ext_equal]
pub struct HookView {
    pub pool_item: usize,
    pub event: WebviewEventView,
}

pub open spec fn opt_string_view(o: Option<String>) -> Option<Seq<char>> {
    match o {
        Option::Some(s) => Option::Some(s@),
        Option::None => Option::None,
    }
}

impl View for InitializationParams {
    type V = InitParamsView;

    open spec fn view(&self) -> InitParamsView {
        InitParamsView {
            pool_size: self.pool_size,
            visible: self.visible,
            init_script: opt_string_view(self.init_script),
        }
    }
}

impl View for PBRequestPayload {
    type V = ReqPayloadView;

    open spec fn view(&self) -> ReqPayloadView {
        match self {
            PBRequestPayload::Tester(s) => ReqPayloadView::Tester(s@),
            PBRequestPayload::Initialize(p) => ReqPayloadView::Initialize(p@),
            PBRequestPayload::NewWindow => ReqPayloadView::NewWindow,
            PBRequestPayload::ReleaseWindow { window_id } => ReqPayloadView::ReleaseWindow {
                window_id: *window_id,
            },
            PBRequestPayload::Navigate { window_id, url, wait_for_load } => ReqPayloadView::Navigate {
                window_id: *window_id,
                url: url@,
                wait_for_load: *wait_for_load,
            },
            PBRequestPayload::ResizeWindow { window_id, width, height } => ReqPayloadView::ResizeWindow {
                window_id: *window_id,
                width: *width,
                height: *height,
            },
            PBRequestPayload::EvaluateScript { window_id, script } => ReqPayloadView::EvaluateScript {
                window_id: *window_id,
                script: script@,
            },
            PBRequestPayload::Screenshot { window_id, path } => ReqPayloadView::Screenshot {
                window_id: *window_id,
                path: path@,
            },
        }
    }
}

impl View for PBRequest {
    type V = ReqView;

    open spec fn view(&self) -> ReqView {
        ReqView { message_id: self.message_id, payload: self.payload@ }
    }
}

impl View for PBResponsePayload {
    type V = RespPayloadView;

    open spec fn view(&self) -> RespPayloadView {
        match self {
            PBResponsePayload::Error { original_message, message } => RespPayloadView::Error {
                original_message: opt_string_view(*original_message),
                message: message@,
            },
            PBResponsePayload::Tester(s) => RespPayloadView::Tester(s@),
            PBResponsePayload::NewWindowCreated { id } => RespPayloadView::NewWindowCreated {
                id: *id,
            },
            PBResponsePayload::ScriptEvaluated { output } => RespPayloadView::ScriptEvaluated {
                output: output@,
            },
            PBResponsePayload::OperationComplete => RespPayloadView::OperationComplete,
        }
    }
}

impl View for PBResponse {
    type V = RespView;

    open spec fn view(&self) -> RespView {
        RespView { message_id: self.message_id, payload: self.payload@ }
    }
}

impl View for PBWebviewEvent {
    type V = WebviewEventView;

    open spec fn view(&self) -> WebviewEventView {
        match self {
            PBWebviewEvent::PageLoadStart { url } => WebviewEventView::PageLoadStart { url: url@ },
            PBWebviewEvent::PageLoadFinish { url } => WebviewEventView::PageLoadFinish { url: url@ },
        }
    }
}

impl View for PBHook {
    type V = HookView;

    open spec fn view(&self) -> HookView {
        HookView { pool_item: self.pool_item, event: self.event@ }
    }
}

/// Decides view equality of two engine events; the pending-completion table
/// is keyed by exact event match.
pub fn webview_event_eq(a: &PBWebviewEvent, b: &PBWebviewEvent) -> (r: bool)
    ensures
        r == (a@ == b@),
{
    match (a, b) {
        (
            PBWebviewEvent::PageLoadStart { url: ua },
            PBWebviewEvent::PageLoadStart { url: ub },
        ) => *ua == *ub,
        (
            PBWebviewEvent::PageLoadFinish { url: ua },
            PBWebviewEvent::PageLoadFinish { url: ub },
        ) => *ua == *ub,
        _ => false,
    }
}

} // verus!
