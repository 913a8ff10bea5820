//! Client-side correlation and window-proxy logic.
//!
//! The connection shares one ordered response stream among arbitrarily
//! many concurrent calls. Each call allocates a fresh message identifier,
//! subscribes before sending, and then takes exactly the first response
//! bearing its own identifier, discarding the others; a closed stream
//! resolves the call to a terminal error instead of blocking forever.

use vstd::prelude::*;
use vstd::string::*;
use vstd::utf8::*;

use crate::messages::{
    PBRequest, PBRequestPayload, PBResponse, PBResponsePayload, ReqView, RespPayloadView, RespView,
};
use crate::pool::resps_view;

verus! {

/// The client-facing error type: the terminal error every caller observes
/// when a call cannot complete, and the failure to reach a worker at all.
#[derive(Debug, Clone, PartialEq, Eq)]
pub enum PagebrowseError {
    Unknown,
    NoManager,
}

impl PagebrowseError {
    /// The display text of the error.
    pub fn message(&self) -> (r: String)
        ensures
            self is Unknown ==> r@ == "unknown error"@,
            self is NoManager ==> r@ == "no manager available"@,
    {
        match self {
            PagebrowseError::Unknown => String::from_str("unknown error"),
            PagebrowseError::NoManager => String::from_str("no manager available"),
        }
    }
}

// ------------------------------------------------------------------
// Builder
// ------------------------------------------------------------------

/// Settings for one worker connection: how many window slots its pool
/// holds, whether the windows are shown, and where the worker binary is.
pub struct PagebrowseBuilder {
    pub pool_size: usize,
    pub visible: bool,
    pub manager_path: String,
}

impl PagebrowseBuilder {
    pub fn new(pool_size: usize) -> (r: PagebrowseBuilder)
        ensures
            r.pool_size == pool_size,
            !r.visible,
            r.manager_path@ == "../../target/debug/pagebrowse_manager"@,
    {
        PagebrowseBuilder {
            pool_size,
            visible: false,
            manager_path: String::from_str("../../target/debug/pagebrowse_manager"),
        }
    }

    pub fn visible(self, visible: bool) -> (r: PagebrowseBuilder)
        ensures
            r.pool_size == self.pool_size,
            r.visible == visible,
            r.manager_path == self.manager_path,
    {
        PagebrowseBuilder { visible, ..self }
    }

    pub fn manager_path(self, manager_path: String) -> (r: PagebrowseBuilder)
        ensures
            r.pool_size == self.pool_size,
            r.visible == self.visible,
            r.manager_path == manager_path,
    {
        PagebrowseBuilder { manager_path, ..self }
    }

    /// The argument list handed to the worker process: the pool size in
    /// decimal after `--count`, and `--visible` when windows are shown.
    pub fn manager_args(&self) -> (r: Vec<String>)
        ensures
            r@.len() == (if self.visible { 3int } else { 2int }),
            r@[0]@ == "--count"@,
            r@[1]@ == spec_decimal(self.pool_size as int),
            self.visible ==> r@[2]@ == "--visible"@,
    {
        let mut args: Vec<String> = Vec::new();
        args.push(String::from_str("--count"));
        args.push(usize_to_decimal(self.pool_size));
        if self.visible {
            args.push(String::from_str("--visible"));
        }
        args
    }
}

// ------------------------------------------------------------------
// Decimal rendering of the pool size
// ------------------------------------------------------------------

pub open spec fn spec_decimal_digit(d: int) -> char {
    ((48 + d) as u8) as char
}

/// The usual decimal numeral of a nonnegative number, no leading zeros.
pub open spec fn spec_decimal(n: int) -> Seq<char>
    decreases n,
    when n >= 0
{
    if n < 10 {
        seq![spec_decimal_digit(n)]
    } else {
        spec_decimal(n / 10).push(spec_decimal_digit(n % 10))
    }
}

proof fn lemma_spec_decimal_ascii(n: int)
    requires
        n >= 0,
    ensures
        is_ascii_chars(spec_decimal(n)),
    decreases n,
{
    if n >= 10 {
        lemma_spec_decimal_ascii(n / 10);
        let s = spec_decimal(n);
        let pre = spec_decimal(n / 10);
        assert forall|i: int| 0 <= i < s.len() implies '\0' <= #[trigger] s[i] <= '\u{7f}' by {
            if i < pre.len() {
                assert(s[i] == pre[i]);
            }
        }
    }
}

/// The reversed digit buffer read back as characters.
spec fn rev_chars(rev: Seq<u8>) -> Seq<char> {
    Seq::new(rev.len(), |i: int| (rev[rev.len() - 1 - i] as char))
}

fn usize_to_decimal(n: usize) -> (r: String)
    ensures
        r@ == spec_decimal(n as int),
{
    let ghost target = spec_decimal(n as int);
    let mut rev: Vec<u8> = Vec::new();
    let mut m = n;
    let mut done = false;
    while !done
        invariant
            !done ==> target =~= spec_decimal(m as int) + rev_chars(rev@),
            done ==> target =~= rev_chars(rev@),
            forall|i: int| 0 <= i < rev@.len() ==> 48 <= #[trigger] rev@[i] <= 57,
        decreases (if done {
            0int
        } else {
            m + 1
        }),
    {
        let ghost m0 = m as int;
        let ghost rev0 = rev@;
        let d: u8 = (m % 10) as u8 + 48;
        rev.push(d);
        if m < 10 {
            m = 0;
            done = true;
        } else {
            m = m / 10;
        }
        proof {
            assert(rev_chars(rev@) =~= seq![spec_decimal_digit(m0 % 10)] + rev_chars(rev0));
            if m0 < 10 {
                assert(spec_decimal(m0) =~= seq![spec_decimal_digit(m0)]);
                assert(target =~= rev_chars(rev@));
            } else {
                assert(spec_decimal(m0) == spec_decimal(m0 / 10).push(spec_decimal_digit(m0 % 10)));
                assert(target =~= spec_decimal(m as int) + rev_chars(rev@));
            }
        }
    }
    let ghost total = rev@.len() as int;
    proof {
        assert(target.len() == total);
        assert(forall|i: int|
            0 <= i < rev@.len() ==> target[total - 1 - i] == (#[trigger] rev@[i] as char));
    }
    let mut bytes: Vec<u8> = Vec::new();
    while rev.len() > 0
        invariant
            total == rev@.len() + bytes@.len(),
            target.len() == total,
            forall|i: int| 0 <= i < bytes@.len() ==> #[trigger] bytes@[i] == target[i] as u8,
            forall|i: int| 0 <= i < rev@.len() ==> 48 <= #[trigger] rev@[i] <= 57,
            forall|i: int|
                0 <= i < rev@.len() ==> target[total - 1 - i] == (#[trigger] rev@[i] as char),
        decreases rev@.len(),
    {
        match rev.pop() {
            Option::Some(b) => {
                bytes.push(b);
            },
            Option::None => {
                proof {
                    assert(false);
                }
            },
        }
    }
    proof {
        lemma_spec_decimal_ascii(n as int);
        is_ascii_chars_encode_utf8(target);
        assert(encode_utf8(target) =~= bytes@);
        encode_utf8_valid_utf8(target);
        encode_utf8_decode_utf8(target);
    }
    match crate::codec::string_from_utf8(bytes) {
        Option::Some(s) => s,
        Option::None => {
            proof {
                assert(false);
            }
            String::new()
        },
    }
}

// ------------------------------------------------------------------
// Correlation
// ------------------------------------------------------------------

/// The shared connection state a call must hold exclusively, and only
/// while allocating its identifier and sending: the next message id.
/// Waiting for the response holds nothing, so calls overlap freely.
pub struct Correlator {
    pub latest_message_id: u32,
}

impl Correlator {
    pub fn new() -> (r: Correlator)
        ensures
            r.latest_message_id == 0,
    {
        Correlator { latest_message_id: 0 }
    }

    /// Hands out the identifier for one call: strictly increasing, never
    /// reused while the connection lives.
    pub fn allocate_message_id(&mut self) -> (id: u32)
        requires
            old(self).latest_message_id < u32::MAX,
        ensures
            id == old(self).latest_message_id,
            final(self).latest_message_id == id + 1,
    {
        let id = self.latest_message_id;
        self.latest_message_id = self.latest_message_id + 1;
        id
    }
}

/// Builds the framed request for one call.
pub fn build_request(message_id: u32, payload: PBRequestPayload) -> (r: PBRequest)
    ensures
        r@ == (ReqView { message_id: Option::Some(message_id), payload: payload@ }),
{
    PBRequest { message_id: Option::Some(message_id), payload }
}

/// Whether a response answers the call with this identifier. Untargeted
/// diagnostics (no identifier) match no caller and are never surfaced.
pub fn response_matches(resp: &PBResponse, message_id: u32) -> (r: bool)
    ensures
        r == (resp@.message_id == Option::Some(message_id)),
{
    match resp.message_id {
        Option::Some(m) => m == message_id,
        Option::None => false,
    }
}

/// The index of the first response of the stream bearing this identifier.
pub open spec fn spec_first_match(rs: Seq<RespView>, id: u32) -> Option<int>
    decreases rs.len(),
{
    if rs.len() == 0 {
        Option::None
    } else if rs[0].message_id == Option::Some(id) {
        Option::Some(0int)
    } else {
        match spec_first_match(rs.drop_first(), id) {
            Option::Some(j) => Option::Some(j + 1),
            Option::None => Option::None,
        }
    }
}

pub proof fn lemma_spec_first_match(rs: Seq<RespView>, id: u32)
    ensures
        match spec_first_match(rs, id) {
            Option::Some(j) => 0 <= j < rs.len() && rs[j].message_id == Option::Some(id) && (forall|
                l: int,
            |
                0 <= l < j ==> (#[trigger] rs[l]).message_id != Option::Some(id)),
            Option::None => forall|l: int|
                0 <= l < rs.len() ==> (#[trigger] rs[l]).message_id != Option::Some(id),
        },
    decreases rs.len(),
{
    if rs.len() > 0 && rs[0].message_id != Option::Some(id) {
        let rest = rs.drop_first();
        lemma_spec_first_match(rest, id);
        assert(forall|l: int| 0 <= l < rest.len() ==> #[trigger] rest[l] == rs[l + 1]);
        match spec_first_match(rs, id) {
            Option::Some(j) => {
                assert(rest[j - 1].message_id == Option::Some(id));
                assert forall|l: int|
                    0 <= l < j implies (#[trigger] rs[l]).message_id != Option::Some(id) by {
                    if l > 0 {
                        assert(rest[l - 1].message_id != Option::Some(id));
                    }
                }
            },
            Option::None => {
                assert forall|l: int|
                    0 <= l < rs.len() implies (#[trigger] rs[l]).message_id != Option::Some(
                    id,
                ) by {
                    if l > 0 {
                        assert(rest[l - 1].message_id != Option::Some(id));
                    }
                }
            },
        }
    }
}

/// What one call concludes from the responses that reached it before the
/// connection ended: the first response bearing its own identifier, or —
/// when the stream closed without one — the terminal error, so an
/// outstanding call never blocks past the end of the connection.
pub fn complete_call(received: Vec<PBResponse>, message_id: u32) -> (r: Result<
    PBResponsePayload,
    PagebrowseError,
>)
    ensures
        match spec_first_match(resps_view(received@), message_id) {
            Option::Some(j) => r matches Result::Ok(p) && p@ == resps_view(received@)[j].payload,
            Option::None => r matches Result::Err(e) && e == PagebrowseError::Unknown,
        },
{
    let ghost rs = resps_view(received@);
    let mut idx: Option<usize> = Option::None;
    let mut i: usize = 0;
    while i < received.len() && idx.is_none()
        invariant
            0 <= i <= received@.len(),
            rs == resps_view(received@),
            idx is None ==> forall|l: int|
                0 <= l < i ==> (#[trigger] rs[l]).message_id != Option::Some(message_id),
            idx matches Option::Some(j) ==> j == i && i < received@.len()
                && rs[i as int].message_id == Option::Some(message_id) && (forall|l: int|
                0 <= l < i ==> (#[trigger] rs[l]).message_id != Option::Some(message_id)),
        decreases received@.len() - i, (if idx is None {
            1int
        } else {
            0int
        }),
    {
        if response_matches(&received[i], message_id) {
            idx = Option::Some(i);
        } else {
            i = i + 1;
        }
    }
    proof {
        lemma_spec_first_match(rs, message_id);
        match idx {
            Option::Some(_) => {
                match spec_first_match(rs, message_id) {
                    Option::Some(j) => {
                        if j < i as int {
                            assert(rs[j].message_id != Option::Some(message_id));
                        }
                        assert(j == i as int);
                    },
                    Option::None => {
                        assert(rs[i as int].message_id != Option::Some(message_id));
                    },
                }
            },
            Option::None => {},
        }
    }
    match idx {
        Option::Some(j) => {
            let mut v = received;
            let resp = v.remove(j);
            proof {
                assert(resp@ == rs[j as int]);
            }
            Result::Ok(resp.payload)
        },
        Option::None => Result::Err(PagebrowseError::Unknown),
    }
}

/// Id isolation: a caller only ever takes a response bearing its own
/// identifier, and callers with different identifiers can never take the
/// same response, whatever the interleaving of the shared stream.
pub proof fn lemma_id_isolation(rs: Seq<RespView>, a: u32, b: u32)
    requires
        a != b,
    ensures
        spec_first_match(rs, a) matches Option::Some(i) ==> rs[i].message_id == Option::Some(a),
        forall|i: int, j: int|
            spec_first_match(rs, a) == Option::Some(i) && spec_first_match(rs, b) == Option::Some(
                j,
            ) ==> i != j,
{
    lemma_spec_first_match(rs, a);
    lemma_spec_first_match(rs, b);
}

// ------------------------------------------------------------------
// Window proxy: interpreting the worker's replies
// ------------------------------------------------------------------

/// Declares serde_json's `Value` so signatures may carry it; the value
/// itself is opaque here and is only handed through to the caller.
#[verifier::external_type_specification]
#[verifier::external_body]
pub struct ExValue(serde_json::Value);

/// Whether this text is one valid JSON document — what serde_json's
/// parser accepts, a function of the text alone.
pub uninterp spec fn json_parse_ok(s: Seq<char>) -> bool;

/// Relies on serde_json's `from_str::<Value>`: parsing a structured value
/// from text succeeds exactly on valid JSON documents.
#[verifier::external_body]
fn parse_json_value(s: &str) -> (r: Option<serde_json::Value>)
    ensures
        r is Some <==> json_parse_ok(s@),
{
    match serde_json::from_str::<serde_json::Value>(s) {
        Ok(v) => Option::Some(v),
        Err(_) => Option::None,
    }
}

/// Maps the worker's reply to `NewWindow`: only `NewWindowCreated`
/// carries the leased window id; any other reply is an error.
pub fn interpret_new_window_response(payload: &PBResponsePayload) -> (r: Result<
    u32,
    PagebrowseError,
>)
    ensures
        match payload@ {
            RespPayloadView::NewWindowCreated { id } => r == Result::<u32, PagebrowseError>::Ok(
                id,
            ),
            _ => r == Result::<u32, PagebrowseError>::Err(PagebrowseError::Unknown),
        },
{
    match payload {
        PBResponsePayload::NewWindowCreated { id } => Result::Ok(*id),
        _ => Result::Err(PagebrowseError::Unknown),
    }
}

/// Maps the worker's reply to `Navigate`, `ResizeWindow` and
/// `Screenshot`: exactly `OperationComplete` is success.
pub fn interpret_operation_response(payload: &PBResponsePayload) -> (r: Result<
    (),
    PagebrowseError,
>)
    ensures
        payload@ is OperationComplete ==> r == Result::<(), PagebrowseError>::Ok(()),
        !(payload@ is OperationComplete) ==> r == Result::<(), PagebrowseError>::Err(
            PagebrowseError::Unknown,
        ),
{
    match payload {
        PBResponsePayload::OperationComplete => Result::Ok(()),
        _ => Result::Err(PagebrowseError::Unknown),
    }
}

/// Maps the worker's reply to `EvaluateScript`: empty output means the
/// script produced no value, output that parses as JSON is the structured
/// value, output that does not parse is an error — as is any reply other
/// than `ScriptEvaluated`.
pub fn interpret_script_response(payload: &PBResponsePayload) -> (r: Result<
    Option<serde_json::Value>,
    PagebrowseError,
>)
    ensures
        match payload@ {
            RespPayloadView::ScriptEvaluated { output } => {
                if output.len() == 0 {
                    r matches Result::Ok(v) && v is None
                } else if json_parse_ok(output) {
                    r matches Result::Ok(v) && v is Some
                } else {
                    r matches Result::Err(e) && e == PagebrowseError::Unknown
                }
            },
            _ => r matches Result::Err(e) && e == PagebrowseError::Unknown,
        },
{
    match payload {
        PBResponsePayload::ScriptEvaluated { output } => {
            if output.as_str().is_empty() {
                Result::Ok(Option::None)
            } else {
                match parse_json_value(output.as_str()) {
                    Option::Some(v) => Result::Ok(Option::Some(v)),
                    Option::None => Result::Err(PagebrowseError::Unknown),
                }
            }
        },
        _ => Result::Err(PagebrowseError::Unknown),
    }
}

} // verus!
