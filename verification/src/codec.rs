//! Frame codec: one message to and from its delimited, text-safe wire form.
//!
//! A message is first laid out as a length-prefixed byte structure
//! (`spec_ser_request` / `spec_ser_response` give the exact bytes), then
//! encoded with base64 so the result never contains the frame separator,
//! and the separator byte is appended. Decoding strips the separator,
//! undoes the base64 layer, and parses the structure; it never panics and
//! classifies every failure as `InvalidEncoding` or `InvalidPayload`.

use base64::Engine;
use vstd::prelude::*;
use vstd::bytes::*;
use vstd::utf8::*;
use vstd::slice::*;
use vstd::string::*;

use crate::messages::{
    InitParamsView, InitializationParams, PBRequest, PBRequestPayload, PBResponse,
    PBResponsePayload, ReqPayloadView, ReqView, RespPayloadView, RespView,
};

verus! {

/// The byte that ends every frame on the wire. It never occurs inside the
/// base64-encoded body, so a reader may scan for it.
pub const FRAME_SEPARATOR: u8 = 44;

// ------------------------------------------------------------------
// Serialized form, unit by unit
// ------------------------------------------------------------------

pub open spec fn spec_ser_u32(x: u32) -> Seq<u8> {
    spec_u32_to_le_bytes(x)
}

pub open spec fn spec_ser_u64(x: u64) -> Seq<u8> {
    spec_u64_to_le_bytes(x)
}

pub open spec fn spec_ser_bool(b: bool) -> Seq<u8> {
    seq![if b { 1u8 } else { 0u8 }]
}

pub open spec fn spec_ser_opt_u32(o: Option<u32>) -> Seq<u8> {
    match o {
        Option::None => seq![0u8],
        Option::Some(x) => seq![1u8] + spec_ser_u32(x),
    }
}

/// A string travels as its UTF-8 byte length (8 bytes) followed by its
/// UTF-8 encoding.
pub open spec fn spec_ser_str(s: Seq<char>) -> Seq<u8> {
    spec_ser_u64(encode_utf8(s).len() as u64) + encode_utf8(s)
}

pub open spec fn spec_ser_opt_str(o: Option<Seq<char>>) -> Seq<u8> {
    match o {
        Option::None => seq![0u8],
        Option::Some(s) => seq![1u8] + spec_ser_str(s),
    }
}

/// The length prefix of a string is faithful only when the UTF-8 encoding
/// fits in 64 bits; every real `String` satisfies this.
pub open spec fn str_wf(s: Seq<char>) -> bool {
    encode_utf8(s).len() <= u64::MAX
}

pub open spec fn opt_str_wf(o: Option<Seq<char>>) -> bool {
    match o {
        Option::None => true,
        Option::Some(s) => str_wf(s),
    }
}

// ------------------------------------------------------------------
// Parsing, unit by unit: each spec parser consumes a prefix of the
// sequence and returns the value with the number of bytes consumed.
// ------------------------------------------------------------------

pub open spec fn sp_u8(s: Seq<u8>) -> Option<(u8, int)> {
    if s.len() >= 1 {
        Option::Some((s[0], 1int))
    } else {
        Option::None
    }
}

pub open spec fn sp_u32(s: Seq<u8>) -> Option<(u32, int)> {
    if s.len() >= 4 {
        Option::Some((spec_u32_from_le_bytes(s.subrange(0, 4)), 4int))
    } else {
        Option::None
    }
}

pub open spec fn sp_u64(s: Seq<u8>) -> Option<(u64, int)> {
    if s.len() >= 8 {
        Option::Some((spec_u64_from_le_bytes(s.subrange(0, 8)), 8int))
    } else {
        Option::None
    }
}

pub open spec fn sp_bool(s: Seq<u8>) -> Option<(bool, int)> {
    match sp_u8(s) {
        Option::Some((b, n)) => {
            if b == 0 {
                Option::Some((false, n))
            } else if b == 1 {
                Option::Some((true, n))
            } else {
                Option::None
            }
        },
        Option::None => Option::None,
    }
}

pub open spec fn sp_usize(s: Seq<u8>) -> Option<(usize, int)> {
    match sp_u64(s) {
        Option::Some((x, n)) => {
            if x <= usize::MAX as u64 {
                Option::Some((x as usize, n))
            } else {
                Option::None
            }
        },
        Option::None => Option::None,
    }
}

pub open spec fn sp_opt_u32(s: Seq<u8>) -> Option<(Option<u32>, int)> {
    match sp_u8(s) {
        Option::Some((tag, _)) => {
            if tag == 0 {
                Option::Some((Option::None, 1int))
            } else if tag == 1 {
                match sp_u32(s.skip(1)) {
                    Option::Some((x, n)) => Option::Some((Option::Some(x), 1 + n)),
                    Option::None => Option::None,
                }
            } else {
                Option::None
            }
        },
        Option::None => Option::None,
    }
}

pub open spec fn sp_str(s: Seq<u8>) -> Option<(Seq<char>, int)> {
    match sp_u64(s) {
        Option::Some((len, _)) => {
            if 8 + len <= s.len() && valid_utf8(s.subrange(8, 8 + len)) {
                Option::Some((decode_utf8(s.subrange(8, 8 + len)), 8 + len))
            } else {
                Option::None
            }
        },
        Option::None => Option::None,
    }
}

pub open spec fn sp_opt_str(s: Seq<u8>) -> Option<(Option<Seq<char>>, int)> {
    match sp_u8(s) {
        Option::Some((tag, _)) => {
            if tag == 0 {
                Option::Some((Option::None, 1int))
            } else if tag == 1 {
                match sp_str(s.skip(1)) {
                    Option::Some((cs, n)) => Option::Some((Option::Some(cs), 1 + n)),
                    Option::None => Option::None,
                }
            } else {
                Option::None
            }
        },
        Option::None => Option::None,
    }
}

// ------------------------------------------------------------------
// Round-trip step lemmas: parsing what a unit serializes yields the unit
// back, whatever bytes follow.
// ------------------------------------------------------------------

pub proof fn lemma_rt_u8(b: u8, tail: Seq<u8>)
    ensures
        sp_u8(seq![b] + tail) == Option::Some((b, 1int)),
        (seq![b] + tail).skip(1) =~= tail,
{
    assert((seq![b] + tail)[0] == b);
}

pub proof fn lemma_rt_u32(x: u32, tail: Seq<u8>)
    ensures
        sp_u32(spec_ser_u32(x) + tail) == Option::Some((x, 4int)),
        (spec_ser_u32(x) + tail).skip(4) =~= tail,
        spec_ser_u32(x).len() == 4,
{
    lemma_auto_spec_u32_to_from_le_bytes();
    assert((spec_ser_u32(x) + tail).subrange(0, 4) =~= spec_ser_u32(x));
}

pub proof fn lemma_rt_u64(x: u64, tail: Seq<u8>)
    ensures
        sp_u64(spec_ser_u64(x) + tail) == Option::Some((x, 8int)),
        (spec_ser_u64(x) + tail).skip(8) =~= tail,
        spec_ser_u64(x).len() == 8,
{
    lemma_auto_spec_u64_to_from_le_bytes();
    assert((spec_ser_u64(x) + tail).subrange(0, 8) =~= spec_ser_u64(x));
}

pub proof fn lemma_rt_bool(b: bool, tail: Seq<u8>)
    ensures
        sp_bool(spec_ser_bool(b) + tail) == Option::Some((b, 1int)),
        (spec_ser_bool(b) + tail).skip(1) =~= tail,
{
    if b {
        lemma_rt_u8(1u8, tail);
        assert(spec_ser_bool(b) =~= seq![1u8]);
        assert(spec_ser_bool(b) + tail =~= seq![1u8] + tail);
    } else {
        lemma_rt_u8(0u8, tail);
        assert(spec_ser_bool(b) =~= seq![0u8]);
        assert(spec_ser_bool(b) + tail =~= seq![0u8] + tail);
    }
}

pub proof fn lemma_rt_usize(x: usize, tail: Seq<u8>)
    ensures
        sp_usize(spec_ser_u64(x as u64) + tail) == Option::Some((x, 8int)),
        (spec_ser_u64(x as u64) + tail).skip(8) =~= tail,
        spec_ser_u64(x as u64).len() == 8,
{
    lemma_rt_u64(x as u64, tail);
}

pub proof fn lemma_rt_opt_u32(o: Option<u32>, tail: Seq<u8>)
    ensures
        sp_opt_u32(spec_ser_opt_u32(o) + tail) matches Option::Some(p)
            && p.0 == o && p.1 == spec_ser_opt_u32(o).len(),
        (spec_ser_opt_u32(o) + tail).skip(spec_ser_opt_u32(o).len() as int) =~= tail,
{
    match o {
        Option::None => {
            lemma_rt_u8(0u8, tail);
            assert(spec_ser_opt_u32(o) + tail =~= seq![0u8] + tail);
        },
        Option::Some(x) => {
            let s = spec_ser_opt_u32(o) + tail;
            assert(s =~= seq![1u8] + (spec_ser_u32(x) + tail));
            lemma_rt_u8(1u8, spec_ser_u32(x) + tail);
            assert(s.skip(1) =~= spec_ser_u32(x) + tail);
            lemma_rt_u32(x, tail);
            assert(s.skip(5) =~= tail);
        },
    }
}

pub proof fn lemma_rt_str(cs: Seq<char>, tail: Seq<u8>)
    requires
        str_wf(cs),
    ensures
        sp_str(spec_ser_str(cs) + tail) matches Option::Some(p)
            && p.0 == cs && p.1 == spec_ser_str(cs).len(),
        (spec_ser_str(cs) + tail).skip(spec_ser_str(cs).len() as int) =~= tail,
        spec_ser_str(cs).len() == 8 + encode_utf8(cs).len(),
{
    let bytes = encode_utf8(cs);
    let len = bytes.len() as u64;
    let s = spec_ser_str(cs) + tail;
    assert(s =~= spec_ser_u64(len) + (bytes + tail));
    lemma_rt_u64(len, bytes + tail);
    assert(s.subrange(8, 8 + len as int) =~= bytes);
    encode_utf8_valid_utf8(cs);
    encode_utf8_decode_utf8(cs);
    assert(s.skip(spec_ser_str(cs).len() as int) =~= tail);
}

pub proof fn lemma_rt_opt_str(o: Option<Seq<char>>, tail: Seq<u8>)
    requires
        opt_str_wf(o),
    ensures
        sp_opt_str(spec_ser_opt_str(o) + tail) matches Option::Some(p)
            && p.0 == o && p.1 == spec_ser_opt_str(o).len(),
        (spec_ser_opt_str(o) + tail).skip(spec_ser_opt_str(o).len() as int) =~= tail,
{
    match o {
        Option::None => {
            lemma_rt_u8(0u8, tail);
            assert(spec_ser_opt_str(o) + tail =~= seq![0u8] + tail);
        },
        Option::Some(cs) => {
            let s = spec_ser_opt_str(o) + tail;
            assert(s =~= seq![1u8] + (spec_ser_str(cs) + tail));
            lemma_rt_u8(1u8, spec_ser_str(cs) + tail);
            assert(s.skip(1) =~= spec_ser_str(cs) + tail);
            lemma_rt_str(cs, tail);
            assert(s.skip(1 + spec_ser_str(cs).len() as int) =~= tail);
        },
    }
}

// ------------------------------------------------------------------
// Serialized form of whole messages
// ------------------------------------------------------------------

pub open spec fn spec_ser_init_params(p: InitParamsView) -> Seq<u8> {
    spec_ser_u64(p.pool_size as u64) + spec_ser_bool(p.visible) + spec_ser_opt_str(p.init_script)
}

pub open spec fn spec_ser_req_payload(p: ReqPayloadView) -> Seq<u8> {
    match p {
        ReqPayloadView::Tester(s) => seq![0u8] + spec_ser_str(s),
        ReqPayloadView::Initialize(ip) => seq![1u8] + spec_ser_init_params(ip),
        ReqPayloadView::NewWindow => seq![2u8],
        ReqPayloadView::ReleaseWindow { window_id } => seq![3u8] + spec_ser_u32(window_id),
        ReqPayloadView::Navigate { window_id, url, wait_for_load } => seq![4u8] + spec_ser_u32(
            window_id,
        ) + spec_ser_str(url) + spec_ser_bool(wait_for_load),
        ReqPayloadView::ResizeWindow { window_id, width, height } => seq![5u8] + spec_ser_u32(
            window_id,
        ) + spec_ser_u64(width as u64) + spec_ser_u64(height as u64),
        ReqPayloadView::EvaluateScript { window_id, script } => seq![6u8] + spec_ser_u32(window_id)
            + spec_ser_str(script),
        ReqPayloadView::Screenshot { window_id, path } => seq![7u8] + spec_ser_u32(window_id)
            + spec_ser_str(path),
    }
}

pub open spec fn spec_ser_request(v: ReqView) -> Seq<u8> {
    spec_ser_opt_u32(v.message_id) + spec_ser_req_payload(v.payload)
}

pub open spec fn spec_ser_resp_payload(p: RespPayloadView) -> Seq<u8> {
    match p {
        RespPayloadView::Error { original_message, message } => seq![0u8] + spec_ser_opt_str(
            original_message,
        ) + spec_ser_str(message),
        RespPayloadView::Tester(s) => seq![1u8] + spec_ser_str(s),
        RespPayloadView::NewWindowCreated { id } => seq![2u8] + spec_ser_u32(id),
        RespPayloadView::ScriptEvaluated { output } => seq![3u8] + spec_ser_str(output),
        RespPayloadView::OperationComplete => seq![4u8],
    }
}

pub open spec fn spec_ser_response(v: RespView) -> Seq<u8> {
    spec_ser_opt_u32(v.message_id) + spec_ser_resp_payload(v.payload)
}

pub open spec fn req_payload_wf(p: ReqPayloadView) -> bool {
    match p {
        ReqPayloadView::Tester(s) => str_wf(s),
        ReqPayloadView::Initialize(ip) => opt_str_wf(ip.init_script),
        ReqPayloadView::NewWindow => true,
        ReqPayloadView::ReleaseWindow { .. } => true,
        ReqPayloadView::Navigate { url, .. } => str_wf(url),
        ReqPayloadView::ResizeWindow { .. } => true,
        ReqPayloadView::EvaluateScript { script, .. } => str_wf(script),
        ReqPayloadView::Screenshot { path, .. } => str_wf(path),
    }
}

pub open spec fn req_wf(v: ReqView) -> bool {
    req_payload_wf(v.payload)
}

pub open spec fn resp_payload_wf(p: RespPayloadView) -> bool {
    match p {
        RespPayloadView::Error { original_message, message } => opt_str_wf(original_message)
            && str_wf(message),
        RespPayloadView::Tester(s) => str_wf(s),
        RespPayloadView::NewWindowCreated { .. } => true,
        RespPayloadView::ScriptEvaluated { output } => str_wf(output),
        RespPayloadView::OperationComplete => true,
    }
}

pub open spec fn resp_wf(v: RespView) -> bool {
    resp_payload_wf(v.payload)
}

// ------------------------------------------------------------------
// Parsing whole messages
// ------------------------------------------------------------------

pub open spec fn sp_init_params(s: Seq<u8>) -> Option<(InitParamsView, int)> {
    match sp_usize(s) {
        Option::None => Option::None,
        Option::Some((pool_size, n1)) => match sp_bool(s.skip(n1)) {
            Option::None => Option::None,
            Option::Some((visible, n2)) => match sp_opt_str(s.skip(n1 + n2)) {
                Option::None => Option::None,
                Option::Some((init_script, n3)) => Option::Some(
                    (InitParamsView { pool_size, visible, init_script }, n1 + n2 + n3),
                ),
            },
        },
    }
}

pub open spec fn sp_req_payload(s: Seq<u8>) -> Option<(ReqPayloadView, int)> {
    match sp_u8(s) {
        Option::None => Option::None,
        Option::Some((tag, _)) => {
            let s1 = s.skip(1);
            if tag == 0 {
                match sp_str(s1) {
                    Option::None => Option::None,
                    Option::Some((cs, n)) => Option::Some((ReqPayloadView::Tester(cs), 1 + n)),
                }
            } else if tag == 1 {
                match sp_init_params(s1) {
                    Option::None => Option::None,
                    Option::Some((ip, n)) => Option::Some((ReqPayloadView::Initialize(ip), 1 + n)),
                }
            } else if tag == 2 {
                Option::Some((ReqPayloadView::NewWindow, 1int))
            } else if tag == 3 {
                match sp_u32(s1) {
                    Option::None => Option::None,
                    Option::Some((window_id, n)) => Option::Some(
                        (ReqPayloadView::ReleaseWindow { window_id }, 1 + n),
                    ),
                }
            } else if tag == 4 {
                match sp_u32(s1) {
                    Option::None => Option::None,
                    Option::Some((window_id, n1)) => match sp_str(s1.skip(n1)) {
                        Option::None => Option::None,
                        Option::Some((url, n2)) => match sp_bool(s1.skip(n1 + n2)) {
                            Option::None => Option::None,
                            Option::Some((wait_for_load, n3)) => Option::Some(
                                (
                                    ReqPayloadView::Navigate { window_id, url, wait_for_load },
                                    1 + n1 + n2 + n3,
                                ),
                            ),
                        },
                    },
                }
            } else if tag == 5 {
                match sp_u32(s1) {
                    Option::None => Option::None,
                    Option::Some((window_id, n1)) => match sp_usize(s1.skip(n1)) {
                        Option::None => Option::None,
                        Option::Some((width, n2)) => match sp_usize(s1.skip(n1 + n2)) {
                            Option::None => Option::None,
                            Option::Some((height, n3)) => Option::Some(
                                (
                                    ReqPayloadView::ResizeWindow { window_id, width, height },
                                    1 + n1 + n2 + n3,
                                ),
                            ),
                        },
                    },
                }
            } else if tag == 6 {
                match sp_u32(s1) {
                    Option::None => Option::None,
                    Option::Some((window_id, n1)) => match sp_str(s1.skip(n1)) {
                        Option::None => Option::None,
                        Option::Some((script, n2)) => Option::Some(
                            (ReqPayloadView::EvaluateScript { window_id, script }, 1 + n1 + n2),
                        ),
                    },
                }
            } else if tag == 7 {
                match sp_u32(s1) {
                    Option::None => Option::None,
                    Option::Some((window_id, n1)) => match sp_str(s1.skip(n1)) {
                        Option::None => Option::None,
                        Option::Some((path, n2)) => Option::Some(
                            (ReqPayloadView::Screenshot { window_id, path }, 1 + n1 + n2),
                        ),
                    },
                }
            } else {
                Option::None
            }
        },
    }
}

/// The structural parse of one request body: every byte must be consumed.
pub open spec fn sp_request(s: Seq<u8>) -> Option<ReqView> {
    match sp_opt_u32(s) {
        Option::None => Option::None,
        Option::Some((message_id, n1)) => match sp_req_payload(s.skip(n1)) {
            Option::None => Option::None,
            Option::Some((payload, n2)) => {
                if n1 + n2 == s.len() {
                    Option::Some(ReqView { message_id, payload })
                } else {
                    Option::None
                }
            },
        },
    }
}

pub open spec fn sp_resp_payload(s: Seq<u8>) -> Option<(RespPayloadView, int)> {
    match sp_u8(s) {
        Option::None => Option::None,
        Option::Some((tag, _)) => {
            let s1 = s.skip(1);
            if tag == 0 {
                match sp_opt_str(s1) {
                    Option::None => Option::None,
                    Option::Some((original_message, n1)) => match sp_str(s1.skip(n1)) {
                        Option::None => Option::None,
                        Option::Some((message, n2)) => Option::Some(
                            (RespPayloadView::Error { original_message, message }, 1 + n1 + n2),
                        ),
                    },
                }
            } else if tag == 1 {
                match sp_str(s1) {
                    Option::None => Option::None,
                    Option::Some((cs, n)) => Option::Some((RespPayloadView::Tester(cs), 1 + n)),
                }
            } else if tag == 2 {
                match sp_u32(s1) {
                    Option::None => Option::None,
                    Option::Some((id, n)) => Option::Some(
                        (RespPayloadView::NewWindowCreated { id }, 1 + n),
                    ),
                }
            } else if tag == 3 {
                match sp_str(s1) {
                    Option::None => Option::None,
                    Option::Some((output, n)) => Option::Some(
                        (RespPayloadView::ScriptEvaluated { output }, 1 + n),
                    ),
                }
            } else if tag == 4 {
                Option::Some((RespPayloadView::OperationComplete, 1int))
            } else {
                Option::None
            }
        },
    }
}

/// The structural parse of one response body: every byte must be consumed.
pub open spec fn sp_response(s: Seq<u8>) -> Option<RespView> {
    match sp_opt_u32(s) {
        Option::None => Option::None,
        Option::Some((message_id, n1)) => match sp_resp_payload(s.skip(n1)) {
            Option::None => Option::None,
            Option::Some((payload, n2)) => {
                if n1 + n2 == s.len() {
                    Option::Some(RespView { message_id, payload })
                } else {
                    Option::None
                }
            },
        },
    }
}

// ------------------------------------------------------------------
// Round-trip law at the message level
// ------------------------------------------------------------------

proof fn lemma_rt_init_params(p: InitParamsView, tail: Seq<u8>)
    requires
        opt_str_wf(p.init_script),
    ensures
        sp_init_params(spec_ser_init_params(p) + tail) matches Option::Some(pr)
            && pr.0 == p && pr.1 == spec_ser_init_params(p).len(),
        (spec_ser_init_params(p) + tail).skip(spec_ser_init_params(p).len() as int) =~= tail,
{
    let a = spec_ser_u64(p.pool_size as u64);
    let b = spec_ser_bool(p.visible);
    let c = spec_ser_opt_str(p.init_script);
    let s = spec_ser_init_params(p) + tail;
    assert(s =~= a + (b + (c + tail)));
    lemma_rt_usize(p.pool_size, b + (c + tail));
    lemma_rt_bool(p.visible, c + tail);
    lemma_rt_opt_str(p.init_script, tail);
    assert(s.skip(8) =~= b + (c + tail));
    assert(s.skip(9) =~= c + tail);
    let pr = sp_init_params(s)->0;
    assert(pr.0 =~= p);
    assert(s.skip(spec_ser_init_params(p).len() as int) =~= tail);
}

#[verifier::rlimit(80)]
#[verifier::spinoff_prover]
proof fn lemma_rt_req_payload(p: ReqPayloadView, tail: Seq<u8>)
    requires
        req_payload_wf(p),
    ensures
        sp_req_payload(spec_ser_req_payload(p) + tail) matches Option::Some(pr)
            && pr.0 == p && pr.1 == spec_ser_req_payload(p).len(),
        (spec_ser_req_payload(p) + tail).skip(spec_ser_req_payload(p).len() as int) =~= tail,
{
    let s = spec_ser_req_payload(p) + tail;
    match p {
        ReqPayloadView::Tester(cs) => {
            let t1 = spec_ser_str(cs) + tail;
            assert(s =~= seq![0u8] + t1);
            lemma_rt_u8(0u8, t1);
            lemma_rt_str(cs, tail);
            assert(s.skip(1) =~= t1);
        },
        ReqPayloadView::Initialize(ip) => {
            let t1 = spec_ser_init_params(ip) + tail;
            assert(s =~= seq![1u8] + t1);
            lemma_rt_u8(1u8, t1);
            lemma_rt_init_params(ip, tail);
            assert(s.skip(1) =~= t1);
            assert(s.skip(spec_ser_req_payload(p).len() as int) =~= tail);
        },
        ReqPayloadView::NewWindow => {
            lemma_rt_u8(2u8, tail);
            assert(s =~= seq![2u8] + tail);
            assert(s.skip(1) =~= tail);
        },
        ReqPayloadView::ReleaseWindow { window_id } => {
            let t1 = spec_ser_u32(window_id) + tail;
            assert(s =~= seq![3u8] + t1);
            lemma_rt_u8(3u8, t1);
            lemma_rt_u32(window_id, tail);
            assert(s.skip(1) =~= t1);
            assert(s.skip(5) =~= tail);
        },
        ReqPayloadView::Navigate { window_id, url, wait_for_load } => {
            let a = spec_ser_u32(window_id);
            let b = spec_ser_str(url);
            let c = spec_ser_bool(wait_for_load);
            let t1 = a + (b + (c + tail));
            assert(s =~= seq![4u8] + t1);
            lemma_rt_u8(4u8, t1);
            lemma_rt_u32(window_id, b + (c + tail));
            lemma_rt_str(url, c + tail);
            lemma_rt_bool(wait_for_load, tail);
            assert(s.skip(1) =~= t1);
            assert(t1.skip(4) =~= b + (c + tail));
            assert(t1.skip(4 + b.len() as int) =~= c + tail);
            assert(s.skip(spec_ser_req_payload(p).len() as int) =~= tail);
        },
        ReqPayloadView::ResizeWindow { window_id, width, height } => {
            let a = spec_ser_u32(window_id);
            let b = spec_ser_u64(width as u64);
            let c = spec_ser_u64(height as u64);
            let t1 = a + (b + (c + tail));
            assert(s =~= seq![5u8] + t1);
            lemma_rt_u8(5u8, t1);
            lemma_rt_u32(window_id, b + (c + tail));
            lemma_rt_usize(width, c + tail);
            lemma_rt_usize(height, tail);
            assert(s.skip(1) =~= t1);
            assert(t1.skip(4) =~= b + (c + tail));
            assert(t1.skip(12) =~= c + tail);
            assert(s.skip(spec_ser_req_payload(p).len() as int) =~= tail);
        },
        ReqPayloadView::EvaluateScript { window_id, script } => {
            let a = spec_ser_u32(window_id);
            let b = spec_ser_str(script);
            let t1 = a + (b + tail);
            assert(s =~= seq![6u8] + t1);
            lemma_rt_u8(6u8, t1);
            lemma_rt_u32(window_id, b + tail);
            lemma_rt_str(script, tail);
            assert(s.skip(1) =~= t1);
            assert(t1.skip(4) =~= b + tail);
            assert(s.skip(spec_ser_req_payload(p).len() as int) =~= tail);
        },
        ReqPayloadView::Screenshot { window_id, path } => {
            let a = spec_ser_u32(window_id);
            let b = spec_ser_str(path);
            let t1 = a + (b + tail);
            assert(s =~= seq![7u8] + t1);
            lemma_rt_u8(7u8, t1);
            lemma_rt_u32(window_id, b + tail);
            lemma_rt_str(path, tail);
            assert(s.skip(1) =~= t1);
            assert(t1.skip(4) =~= b + tail);
            assert(s.skip(spec_ser_req_payload(p).len() as int) =~= tail);
        },
    }
}

#[verifier::rlimit(80)]
#[verifier::spinoff_prover]
proof fn lemma_rt_resp_payload(p: RespPayloadView, tail: Seq<u8>)
    requires
        resp_payload_wf(p),
    ensures
        sp_resp_payload(spec_ser_resp_payload(p) + tail) matches Option::Some(pr)
            && pr.0 == p && pr.1 == spec_ser_resp_payload(p).len(),
        (spec_ser_resp_payload(p) + tail).skip(spec_ser_resp_payload(p).len() as int) =~= tail,
{
    let s = spec_ser_resp_payload(p) + tail;
    match p {
        RespPayloadView::Error { original_message, message } => {
            let a = spec_ser_opt_str(original_message);
            let b = spec_ser_str(message);
            let t1 = a + (b + tail);
            assert(s =~= seq![0u8] + t1);
            lemma_rt_u8(0u8, t1);
            lemma_rt_opt_str(original_message, b + tail);
            lemma_rt_str(message, tail);
            assert(s.skip(1) =~= t1);
            assert(t1.skip(a.len() as int) =~= b + tail);
            assert(s.skip(spec_ser_resp_payload(p).len() as int) =~= tail);
        },
        RespPayloadView::Tester(cs) => {
            let t1 = spec_ser_str(cs) + tail;
            assert(s =~= seq![1u8] + t1);
            lemma_rt_u8(1u8, t1);
            lemma_rt_str(cs, tail);
            assert(s.skip(1) =~= t1);
        },
        RespPayloadView::NewWindowCreated { id } => {
            let t1 = spec_ser_u32(id) + tail;
            assert(s =~= seq![2u8] + t1);
            lemma_rt_u8(2u8, t1);
            lemma_rt_u32(id, tail);
            assert(s.skip(1) =~= t1);
            assert(s.skip(5) =~= tail);
        },
        RespPayloadView::ScriptEvaluated { output } => {
            let t1 = spec_ser_str(output) + tail;
            assert(s =~= seq![3u8] + t1);
            lemma_rt_u8(3u8, t1);
            lemma_rt_str(output, tail);
            assert(s.skip(1) =~= t1);
        },
        RespPayloadView::OperationComplete => {
            lemma_rt_u8(4u8, tail);
            assert(s =~= seq![4u8] + tail);
            assert(s.skip(1) =~= tail);
        },
    }
}

/// Round-trip law, request side: parsing what serialization produced gives
/// the original message back.
pub proof fn lemma_request_round_trip(v: ReqView)
    requires
        req_wf(v),
    ensures
        sp_request(spec_ser_request(v)) == Option::Some(v),
{
    let s = spec_ser_request(v);
    let pb = spec_ser_req_payload(v.payload);
    assert(s =~= spec_ser_opt_u32(v.message_id) + pb);
    lemma_rt_opt_u32(v.message_id, pb);
    let n1 = spec_ser_opt_u32(v.message_id).len() as int;
    assert(s.skip(n1) =~= pb);
    lemma_rt_req_payload(v.payload, Seq::<u8>::empty());
    assert(pb + Seq::<u8>::empty() =~= pb);
    let r = sp_request(s)->0;
    assert(r =~= v);
}

/// Round-trip law, response side.
pub proof fn lemma_response_round_trip(v: RespView)
    requires
        resp_wf(v),
    ensures
        sp_response(spec_ser_response(v)) == Option::Some(v),
{
    let s = spec_ser_response(v);
    let pb = spec_ser_resp_payload(v.payload);
    assert(s =~= spec_ser_opt_u32(v.message_id) + pb);
    lemma_rt_opt_u32(v.message_id, pb);
    let n1 = spec_ser_opt_u32(v.message_id).len() as int;
    assert(s.skip(n1) =~= pb);
    lemma_rt_resp_payload(v.payload, Seq::<u8>::empty());
    assert(pb + Seq::<u8>::empty() =~= pb);
    let r = sp_response(s)->0;
    assert(r =~= v);
}

// ------------------------------------------------------------------
// Executable serialization
// ------------------------------------------------------------------

fn ser_u8(out: &mut Vec<u8>, b: u8)
    ensures
        final(out)@ == old(out)@ + seq![b],
{
    out.push(b);
    proof {
        assert(out@ =~= old(out)@ + seq![b]);
    }
}

fn ser_u32(out: &mut Vec<u8>, x: u32)
    ensures
        final(out)@ == old(out)@ + spec_ser_u32(x),
{
    let mut b = u32_to_le_bytes(x);
    out.append(&mut b);
}

fn ser_u64(out: &mut Vec<u8>, x: u64)
    ensures
        final(out)@ == old(out)@ + spec_ser_u64(x),
{
    let mut b = u64_to_le_bytes(x);
    out.append(&mut b);
}

fn ser_bool(out: &mut Vec<u8>, b: bool)
    ensures
        final(out)@ == old(out)@ + spec_ser_bool(b),
{
    if b {
        out.push(1);
    } else {
        out.push(0);
    }
    proof {
        assert(out@ =~= old(out)@ + spec_ser_bool(b));
    }
}

fn ser_opt_u32(out: &mut Vec<u8>, o: &Option<u32>)
    ensures
        final(out)@ == old(out)@ + spec_ser_opt_u32(*o),
{
    match o {
        Option::None => {
            ser_u8(out, 0);
        },
        Option::Some(x) => {
            ser_u8(out, 1);
            ser_u32(out, *x);
            proof {
                assert(out@ =~= old(out)@ + spec_ser_opt_u32(*o));
            }
        },
    }
}

fn ser_str(out: &mut Vec<u8>, s: &String)
    ensures
        final(out)@ == old(out)@ + spec_ser_str(s@),
        str_wf(s@),
{
    let mut b = s.as_str().as_bytes_vec();
    ser_u64(out, b.len() as u64);
    out.append(&mut b);
    proof {
        assert(out@ =~= old(out)@ + spec_ser_str(s@));
    }
}

fn ser_opt_str(out: &mut Vec<u8>, o: &Option<String>)
    ensures
        final(out)@ == old(out)@ + spec_ser_opt_str(crate::messages::opt_string_view(*o)),
        opt_str_wf(crate::messages::opt_string_view(*o)),
{
    match o {
        Option::None => {
            ser_u8(out, 0);
        },
        Option::Some(s) => {
            ser_u8(out, 1);
            ser_str(out, s);
            proof {
                assert(out@ =~= old(out)@ + spec_ser_opt_str(
                    crate::messages::opt_string_view(*o),
                ));
            }
        },
    }
}

fn ser_init_params(out: &mut Vec<u8>, p: &InitializationParams)
    ensures
        final(out)@ == old(out)@ + spec_ser_init_params(p@),
        opt_str_wf(p@.init_script),
{
    ser_u64(out, p.pool_size as u64);
    ser_bool(out, p.visible);
    ser_opt_str(out, &p.init_script);
    proof {
        assert(out@ =~= old(out)@ + spec_ser_init_params(p@));
    }
}

fn ser_req_payload(out: &mut Vec<u8>, p: &PBRequestPayload)
    ensures
        final(out)@ == old(out)@ + spec_ser_req_payload(p@),
        req_payload_wf(p@),
{
    match p {
        PBRequestPayload::Tester(s) => {
            ser_u8(out, 0);
            ser_str(out, s);
        },
        PBRequestPayload::Initialize(ip) => {
            ser_u8(out, 1);
            ser_init_params(out, ip);
        },
        PBRequestPayload::NewWindow => {
            ser_u8(out, 2);
        },
        PBRequestPayload::ReleaseWindow { window_id } => {
            ser_u8(out, 3);
            ser_u32(out, *window_id);
        },
        PBRequestPayload::Navigate { window_id, url, wait_for_load } => {
            ser_u8(out, 4);
            ser_u32(out, *window_id);
            ser_str(out, url);
            ser_bool(out, *wait_for_load);
        },
        PBRequestPayload::ResizeWindow { window_id, width, height } => {
            ser_u8(out, 5);
            ser_u32(out, *window_id);
            ser_u64(out, *width as u64);
            ser_u64(out, *height as u64);
        },
        PBRequestPayload::EvaluateScript { window_id, script } => {
            ser_u8(out, 6);
            ser_u32(out, *window_id);
            ser_str(out, script);
        },
        PBRequestPayload::Screenshot { window_id, path } => {
            ser_u8(out, 7);
            ser_u32(out, *window_id);
            ser_str(out, path);
        },
    }
    proof {
        assert(out@ =~= old(out)@ + spec_ser_req_payload(p@));
    }
}

fn ser_resp_payload(out: &mut Vec<u8>, p: &PBResponsePayload)
    ensures
        final(out)@ == old(out)@ + spec_ser_resp_payload(p@),
        resp_payload_wf(p@),
{
    match p {
        PBResponsePayload::Error { original_message, message } => {
            ser_u8(out, 0);
            ser_opt_str(out, original_message);
            ser_str(out, message);
        },
        PBResponsePayload::Tester(s) => {
            ser_u8(out, 1);
            ser_str(out, s);
        },
        PBResponsePayload::NewWindowCreated { id } => {
            ser_u8(out, 2);
            ser_u32(out, *id);
        },
        PBResponsePayload::ScriptEvaluated { output } => {
            ser_u8(out, 3);
            ser_str(out, output);
        },
        PBResponsePayload::OperationComplete => {
            ser_u8(out, 4);
        },
    }
    proof {
        assert(out@ =~= old(out)@ + spec_ser_resp_payload(p@));
    }
}

/// Lays one request out as its exact byte structure.
pub fn serialize_request(req: &PBRequest) -> (out: Vec<u8>)
    ensures
        out@ == spec_ser_request(req@),
        req_wf(req@),
{
    let mut out: Vec<u8> = Vec::new();
    ser_opt_u32(&mut out, &req.message_id);
    ser_req_payload(&mut out, &req.payload);
    proof {
        assert(out@ =~= spec_ser_request(req@));
    }
    out
}

/// Lays one response out as its exact byte structure.
pub fn serialize_response(resp: &PBResponse) -> (out: Vec<u8>)
    ensures
        out@ == spec_ser_response(resp@),
        resp_wf(resp@),
{
    let mut out: Vec<u8> = Vec::new();
    ser_opt_u32(&mut out, &resp.message_id);
    ser_resp_payload(&mut out, &resp.payload);
    proof {
        assert(out@ =~= spec_ser_response(resp@));
    }
    out
}

// ------------------------------------------------------------------
// Executable parsing
// ------------------------------------------------------------------

proof fn lemma_skip_skip<T>(s: Seq<T>, a: int, b: int)
    requires
        0 <= a,
        0 <= b,
        a + b <= s.len(),
    ensures
        s.skip(a + b) =~= s.skip(a).skip(b),
{
}

fn parse_u8(buf: &[u8], pos: usize) -> (r: Option<(u8, usize)>)
    requires
        pos <= buf@.len(),
    ensures
        match sp_u8(buf@.skip(pos as int)) {
            Option::Some((v, n)) => r matches Option::Some(p) && p.0 == v && p.1 == pos + n
                && p.1 <= buf@.len(),
            Option::None => r is None,
        },
{
    if pos < buf.len() {
        Option::Some((*slice_index_get(buf, pos), pos + 1))
    } else {
        Option::None
    }
}

fn parse_u32(buf: &[u8], pos: usize) -> (r: Option<(u32, usize)>)
    requires
        pos <= buf@.len(),
    ensures
        match sp_u32(buf@.skip(pos as int)) {
            Option::Some((v, n)) => r matches Option::Some(p) && p.0 == v && p.1 == pos + n
                && p.1 <= buf@.len(),
            Option::None => r is None,
        },
{
    if buf.len() - pos >= 4 {
        let sl = slice_subrange(buf, pos, pos + 4);
        let x = u32_from_le_bytes(sl);
        proof {
            assert(buf@.skip(pos as int).subrange(0, 4) =~= buf@.subrange(
                pos as int,
                pos as int + 4,
            ));
        }
        Option::Some((x, pos + 4))
    } else {
        Option::None
    }
}

fn parse_u64(buf: &[u8], pos: usize) -> (r: Option<(u64, usize)>)
    requires
        pos <= buf@.len(),
    ensures
        match sp_u64(buf@.skip(pos as int)) {
            Option::Some((v, n)) => r matches Option::Some(p) && p.0 == v && p.1 == pos + n
                && p.1 <= buf@.len(),
            Option::None => r is None,
        },
{
    if buf.len() - pos >= 8 {
        let sl = slice_subrange(buf, pos, pos + 8);
        let x = u64_from_le_bytes(sl);
        proof {
            assert(buf@.skip(pos as int).subrange(0, 8) =~= buf@.subrange(
                pos as int,
                pos as int + 8,
            ));
        }
        Option::Some((x, pos + 8))
    } else {
        Option::None
    }
}

fn parse_bool(buf: &[u8], pos: usize) -> (r: Option<(bool, usize)>)
    requires
        pos <= buf@.len(),
    ensures
        match sp_bool(buf@.skip(pos as int)) {
            Option::Some((v, n)) => r matches Option::Some(p) && p.0 == v && p.1 == pos + n
                && p.1 <= buf@.len(),
            Option::None => r is None,
        },
{
    match parse_u8(buf, pos) {
        Option::None => Option::None,
        Option::Some((b, p1)) => {
            if b == 0 {
                Option::Some((false, p1))
            } else if b == 1 {
                Option::Some((true, p1))
            } else {
                Option::None
            }
        },
    }
}

fn parse_usize(buf: &[u8], pos: usize) -> (r: Option<(usize, usize)>)
    requires
        pos <= buf@.len(),
    ensures
        match sp_usize(buf@.skip(pos as int)) {
            Option::Some((v, n)) => r matches Option::Some(p) && p.0 == v && p.1 == pos + n
                && p.1 <= buf@.len(),
            Option::None => r is None,
        },
{
    match parse_u64(buf, pos) {
        Option::None => Option::None,
        Option::Some((x, p1)) => {
            if x <= usize::MAX as u64 {
                Option::Some((x as usize, p1))
            } else {
                Option::None
            }
        },
    }
}

fn parse_opt_u32(buf: &[u8], pos: usize) -> (r: Option<(Option<u32>, usize)>)
    requires
        pos <= buf@.len(),
    ensures
        match sp_opt_u32(buf@.skip(pos as int)) {
            Option::Some((v, n)) => r matches Option::Some(p) && p.0 == v && p.1 == pos + n
                && p.1 <= buf@.len(),
            Option::None => r is None,
        },
{
    match parse_u8(buf, pos) {
        Option::None => Option::None,
        Option::Some((tag, p1)) => {
            proof {
                lemma_skip_skip(buf@, pos as int, 1);
            }
            if tag == 0 {
                Option::Some((Option::None, p1))
            } else if tag == 1 {
                match parse_u32(buf, p1) {
                    Option::None => Option::None,
                    Option::Some((x, p2)) => Option::Some((Option::Some(x), p2)),
                }
            } else {
                Option::None
            }
        },
    }
}

/// Relies on std's `String::from_utf8`: it succeeds exactly on valid UTF-8
/// input and returns the string those bytes encode.
#[verifier::external_body]
pub(crate) fn string_from_utf8(bytes: Vec<u8>) -> (r: Option<String>)
    ensures
        valid_utf8(bytes@) ==> r is Some,
        r matches Option::Some(s) ==> valid_utf8(bytes@) && s@ == decode_utf8(bytes@),
{
    match String::from_utf8(bytes) {
        Ok(s) => Option::Some(s),
        Err(_) => Option::None,
    }
}

fn parse_string(buf: &[u8], pos: usize) -> (r: Option<(String, usize)>)
    requires
        pos <= buf@.len(),
    ensures
        match sp_str(buf@.skip(pos as int)) {
            Option::Some((cs, n)) => r matches Option::Some(p) && p.0@ == cs && p.1 == pos + n
                && p.1 <= buf@.len(),
            Option::None => r is None,
        },
{
    match parse_u64(buf, pos) {
        Option::None => Option::None,
        Option::Some((len64, p1)) => {
            let rem = buf.len() - p1;
            if len64 <= rem as u64 {
                let n = len64 as usize;
                let sl = slice_subrange(buf, p1, p1 + n);
                let v = slice_to_vec(sl);
                proof {
                    assert(buf@.skip(pos as int).subrange(8, 8 + len64 as int) =~= buf@.subrange(
                        p1 as int,
                        p1 as int + n as int,
                    ));
                }
                match string_from_utf8(v) {
                    Option::Some(s) => Option::Some((s, p1 + n)),
                    Option::None => Option::None,
                }
            } else {
                Option::None
            }
        },
    }
}

fn parse_opt_string(buf: &[u8], pos: usize) -> (r: Option<(Option<String>, usize)>)
    requires
        pos <= buf@.len(),
    ensures
        match sp_opt_str(buf@.skip(pos as int)) {
            Option::Some((v, n)) => r matches Option::Some(p)
                && crate::messages::opt_string_view(p.0) == v && p.1 == pos + n
                && p.1 <= buf@.len(),
            Option::None => r is None,
        },
{
    match parse_u8(buf, pos) {
        Option::None => Option::None,
        Option::Some((tag, p1)) => {
            proof {
                lemma_skip_skip(buf@, pos as int, 1);
            }
            if tag == 0 {
                Option::Some((Option::None, p1))
            } else if tag == 1 {
                match parse_string(buf, p1) {
                    Option::None => Option::None,
                    Option::Some((s, p2)) => Option::Some((Option::Some(s), p2)),
                }
            } else {
                Option::None
            }
        },
    }
}

fn parse_init_params(buf: &[u8], pos: usize) -> (r: Option<(InitializationParams, usize)>)
    requires
        pos <= buf@.len(),
    ensures
        match sp_init_params(buf@.skip(pos as int)) {
            Option::Some((v, n)) => r matches Option::Some(p) && p.0@ == v && p.1 == pos + n
                && p.1 <= buf@.len(),
            Option::None => r is None,
        },
{
    match parse_usize(buf, pos) {
        Option::None => Option::None,
        Option::Some((pool_size, p1)) => {
            proof {
                lemma_skip_skip(buf@, pos as int, p1 - pos);
            }
            match parse_bool(buf, p1) {
                Option::None => Option::None,
                Option::Some((visible, p2)) => {
                    proof {
                        lemma_skip_skip(buf@, pos as int, p2 - pos);
                    }
                    match parse_opt_string(buf, p2) {
                        Option::None => Option::None,
                        Option::Some((init_script, p3)) => Option::Some(
                            (InitializationParams { pool_size, visible, init_script }, p3),
                        ),
                    }
                },
            }
        },
    }
}

#[verifier::rlimit(80)]
#[verifier::spinoff_prover]
fn parse_req_payload(buf: &[u8], pos: usize) -> (r: Option<(PBRequestPayload, usize)>)
    requires
        pos <= buf@.len(),
    ensures
        match sp_req_payload(buf@.skip(pos as int)) {
            Option::Some((v, n)) => r matches Option::Some(p) && p.0@ == v && p.1 == pos + n
                && p.1 <= buf@.len(),
            Option::None => r is None,
        },
{
    match parse_u8(buf, pos) {
        Option::None => Option::None,
        Option::Some((tag, p1)) => {
            proof {
                lemma_skip_skip(buf@, pos as int, 1);
            }
            if tag == 0 {
                match parse_string(buf, p1) {
                    Option::None => Option::None,
                    Option::Some((s, p2)) => Option::Some((PBRequestPayload::Tester(s), p2)),
                }
            } else if tag == 1 {
                match parse_init_params(buf, p1) {
                    Option::None => Option::None,
                    Option::Some((ip, p2)) => Option::Some((PBRequestPayload::Initialize(ip), p2)),
                }
            } else if tag == 2 {
                Option::Some((PBRequestPayload::NewWindow, p1))
            } else if tag == 3 {
                match parse_u32(buf, p1) {
                    Option::None => Option::None,
                    Option::Some((window_id, p2)) => Option::Some(
                        (PBRequestPayload::ReleaseWindow { window_id }, p2),
                    ),
                }
            } else if tag == 4 {
                match parse_u32(buf, p1) {
                    Option::None => Option::None,
                    Option::Some((window_id, p2)) => {
                        proof {
                            lemma_skip_skip(buf@, p1 as int, 4);
                        }
                        match parse_string(buf, p2) {
                            Option::None => Option::None,
                            Option::Some((url, p3)) => {
                                proof {
                                    lemma_skip_skip(buf@, p1 as int, p3 - p1);
                                }
                                match parse_bool(buf, p3) {
                                    Option::None => Option::None,
                                    Option::Some((wait_for_load, p4)) => Option::Some(
                                        (
                                            PBRequestPayload::Navigate {
                                                window_id,
                                                url,
                                                wait_for_load,
                                            },
                                            p4,
                                        ),
                                    ),
                                }
                            },
                        }
                    },
                }
            } else if tag == 5 {
                match parse_u32(buf, p1) {
                    Option::None => Option::None,
                    Option::Some((window_id, p2)) => {
                        proof {
                            lemma_skip_skip(buf@, p1 as int, 4);
                        }
                        match parse_usize(buf, p2) {
                            Option::None => Option::None,
                            Option::Some((width, p3)) => {
                                proof {
                                    lemma_skip_skip(buf@, p1 as int, p3 - p1);
                                }
                                match parse_usize(buf, p3) {
                                    Option::None => Option::None,
                                    Option::Some((height, p4)) => Option::Some(
                                        (
                                            PBRequestPayload::ResizeWindow {
                                                window_id,
                                                width,
                                                height,
                                            },
                                            p4,
                                        ),
                                    ),
                                }
                            },
                        }
                    },
                }
            } else if tag == 6 {
                match parse_u32(buf, p1) {
                    Option::None => Option::None,
                    Option::Some((window_id, p2)) => {
                        proof {
                            lemma_skip_skip(buf@, p1 as int, 4);
                        }
                        match parse_string(buf, p2) {
                            Option::None => Option::None,
                            Option::Some((script, p3)) => Option::Some(
                                (PBRequestPayload::EvaluateScript { window_id, script }, p3),
                            ),
                        }
                    },
                }
            } else if tag == 7 {
                match parse_u32(buf, p1) {
                    Option::None => Option::None,
                    Option::Some((window_id, p2)) => {
                        proof {
                            lemma_skip_skip(buf@, p1 as int, 4);
                        }
                        match parse_string(buf, p2) {
                            Option::None => Option::None,
                            Option::Some((path, p3)) => Option::Some(
                                (PBRequestPayload::Screenshot { window_id, path }, p3),
                            ),
                        }
                    },
                }
            } else {
                Option::None
            }
        },
    }
}

#[verifier::rlimit(80)]
#[verifier::spinoff_prover]
fn parse_resp_payload(buf: &[u8], pos: usize) -> (r: Option<(PBResponsePayload, usize)>)
    requires
        pos <= buf@.len(),
    ensures
        match sp_resp_payload(buf@.skip(pos as int)) {
            Option::Some((v, n)) => r matches Option::Some(p) && p.0@ == v && p.1 == pos + n
                && p.1 <= buf@.len(),
            Option::None => r is None,
        },
{
    match parse_u8(buf, pos) {
        Option::None => Option::None,
        Option::Some((tag, p1)) => {
            proof {
                lemma_skip_skip(buf@, pos as int, 1);
            }
            if tag == 0 {
                match parse_opt_string(buf, p1) {
                    Option::None => Option::None,
                    Option::Some((original_message, p2)) => {
                        proof {
                            lemma_skip_skip(buf@, p1 as int, p2 - p1);
                        }
                        match parse_string(buf, p2) {
                            Option::None => Option::None,
                            Option::Some((message, p3)) => Option::Some(
                                (PBResponsePayload::Error { original_message, message }, p3),
                            ),
                        }
                    },
                }
            } else if tag == 1 {
                match parse_string(buf, p1) {
                    Option::None => Option::None,
                    Option::Some((s, p2)) => Option::Some((PBResponsePayload::Tester(s), p2)),
                }
            } else if tag == 2 {
                match parse_u32(buf, p1) {
                    Option::None => Option::None,
                    Option::Some((id, p2)) => Option::Some(
                        (PBResponsePayload::NewWindowCreated { id }, p2),
                    ),
                }
            } else if tag == 3 {
                match parse_string(buf, p1) {
                    Option::None => Option::None,
                    Option::Some((output, p2)) => Option::Some(
                        (PBResponsePayload::ScriptEvaluated { output }, p2),
                    ),
                }
            } else if tag == 4 {
                Option::Some((PBResponsePayload::OperationComplete, p1))
            } else {
                Option::None
            }
        },
    }
}

/// Parses one request body; every byte must belong to the message.
pub fn parse_request(buf: &[u8]) -> (r: Option<PBRequest>)
    ensures
        match sp_request(buf@) {
            Option::Some(v) => r matches Option::Some(m) && m@ == v,
            Option::None => r is None,
        },
{
    proof {
        assert(buf@.skip(0) =~= buf@);
    }
    match parse_opt_u32(buf, 0) {
        Option::None => Option::None,
        Option::Some((message_id, p1)) => {
            match parse_req_payload(buf, p1) {
                Option::None => Option::None,
                Option::Some((payload, p2)) => {
                    if p2 == buf.len() {
                        Option::Some(PBRequest { message_id, payload })
                    } else {
                        Option::None
                    }
                },
            }
        },
    }
}

/// Parses one response body; every byte must belong to the message.
pub fn parse_response(buf: &[u8]) -> (r: Option<PBResponse>)
    ensures
        match sp_response(buf@) {
            Option::Some(v) => r matches Option::Some(m) && m@ == v,
            Option::None => r is None,
        },
{
    proof {
        assert(buf@.skip(0) =~= buf@);
    }
    match parse_opt_u32(buf, 0) {
        Option::None => Option::None,
        Option::Some((message_id, p1)) => {
            match parse_resp_payload(buf, p1) {
                Option::None => Option::None,
                Option::Some((payload, p2)) => {
                    if p2 == buf.len() {
                        Option::Some(PBResponse { message_id, payload })
                    } else {
                        Option::None
                    }
                },
            }
        },
    }
}

// ------------------------------------------------------------------
// The text-safe layer and framing
// ------------------------------------------------------------------

/// What the base64 layer produces for a given byte sequence.
pub uninterp spec fn base64_of(bytes: Seq<u8>) -> Seq<u8>;

/// Relies on base64's `STANDARD` engine encode: the output is drawn from
/// the standard alphabet with `=` padding, none of which is the frame
/// separator.
#[verifier::external_body]
fn b64_encode(bytes: &[u8]) -> (r: Vec<u8>)
    ensures
        r@ == base64_of(bytes@),
        forall|i: int| 0 <= i < r@.len() ==> r@[i] != FRAME_SEPARATOR,
{
    base64::engine::general_purpose::STANDARD.encode(bytes).into_bytes()
}

/// Relies on base64's `STANDARD` engine decode: with canonical padding
/// required and trailing bits rejected it accepts exactly the strings the
/// engine's encode produces, and inverts them.
#[verifier::external_body]
fn b64_decode(bytes: &[u8]) -> (r: Option<Vec<u8>>)
    ensures
        r is None ==> !(exists|x: Seq<u8>| bytes@ == base64_of(x)),
        r matches Option::Some(v) ==> forall|x: Seq<u8>| bytes@ == base64_of(x) ==> v@ == x,
        r matches Option::Some(v) ==> bytes@ == base64_of(v@),
{
    match base64::engine::general_purpose::STANDARD.decode(bytes) {
        Ok(v) => Option::Some(v),
        Err(_) => Option::None,
    }
}

/// Why a frame was rejected: the text-safe layer was broken, or the bytes
/// under it did not parse as a message (carrying the raw text when the
/// bytes were valid text).
#[derive(Debug, Clone, PartialEq, Eq)]
pub enum FrameError {
    InvalidEncoding,
    InvalidPayload { original_message: Option<String> },
}

#[verifier::ext_equal]
pub enum FrameErrorView {
    InvalidEncoding,
    InvalidPayload { original_message: Option<Seq<char>> },
}

impl View for FrameError {
    type V = FrameErrorView;

    open spec fn view(&self) -> FrameErrorView {
        match self {
            FrameError::InvalidEncoding => FrameErrorView::InvalidEncoding,
            FrameError::InvalidPayload { original_message } => FrameErrorView::InvalidPayload {
                original_message: crate::messages::opt_string_view(*original_message),
            },
        }
    }
}

/// The error a structural parse failure yields for the given inner bytes.
pub open spec fn payload_error_of(inner: Seq<u8>) -> FrameErrorView {
    FrameErrorView::InvalidPayload {
        original_message: if valid_utf8(inner) {
            Option::Some(decode_utf8(inner))
        } else {
            Option::None
        },
    }
}

pub open spec fn req_decode_post(inner: Seq<u8>, r: Result<PBRequest, FrameError>) -> bool {
    match sp_request(inner) {
        Option::Some(v) => r matches Result::Ok(m) && m@ == v,
        Option::None => r matches Result::Err(e) && e@ == payload_error_of(inner),
    }
}

pub open spec fn resp_decode_post(inner: Seq<u8>, r: Result<PBResponse, FrameError>) -> bool {
    match sp_response(inner) {
        Option::Some(v) => r matches Result::Ok(m) && m@ == v,
        Option::None => r matches Result::Err(e) && e@ == payload_error_of(inner),
    }
}

/// Encodes one request as a frame: byte structure, text-safe layer, then
/// the separator. Only the final byte of a frame is the separator.
pub fn encode_request(req: &PBRequest) -> (frame: Vec<u8>)
    ensures
        req_wf(req@),
        frame@ == base64_of(spec_ser_request(req@)).push(FRAME_SEPARATOR),
        frame@.len() >= 1,
        forall|i: int| 0 <= i < frame@.len() - 1 ==> frame@[i] != FRAME_SEPARATOR,
{
    let inner = serialize_request(req);
    let mut frame = b64_encode(inner.as_slice());
    frame.push(FRAME_SEPARATOR);
    frame
}

/// Encodes one response as a frame, exactly as `encode_request` does.
pub fn encode_response(resp: &PBResponse) -> (frame: Vec<u8>)
    ensures
        resp_wf(resp@),
        frame@ == base64_of(spec_ser_response(resp@)).push(FRAME_SEPARATOR),
        frame@.len() >= 1,
        forall|i: int| 0 <= i < frame@.len() - 1 ==> frame@[i] != FRAME_SEPARATOR,
{
    let inner = serialize_response(resp);
    let mut frame = b64_encode(inner.as_slice());
    frame.push(FRAME_SEPARATOR);
    frame
}

/// Decodes one frame into a request. It never panics: a broken text-safe
/// layer yields `InvalidEncoding`, bytes that fail the structural parse
/// yield `InvalidPayload` carrying the raw text when it was valid text,
/// and every frame `encode_request` produced decodes to the encoded value
/// (the round-trip law).
pub fn decode_request(frame: &Vec<u8>) -> (r: Result<PBRequest, FrameError>)
    ensures
        frame@.len() == 0 || frame@.last() != FRAME_SEPARATOR ==> (r matches Result::Err(e)
            && e@ == FrameErrorView::InvalidEncoding),
        frame@.len() > 0 && frame@.last() == FRAME_SEPARATOR ==> ({
            let body = frame@.take(frame@.len() - 1);
            &&& !(exists|inner: Seq<u8>| body == base64_of(inner)) ==> (r matches Result::Err(e)
                && e@ == FrameErrorView::InvalidEncoding)
            &&& forall|inner: Seq<u8>| body == base64_of(inner) ==> req_decode_post(inner, r)
        }),
        forall|v: ReqView|
            req_wf(v) && frame@ == base64_of(spec_ser_request(v)).push(FRAME_SEPARATOR) ==> (
            r matches Result::Ok(m) && m@ == v),
{
    let n = frame.len();
    if n == 0 {
        return Result::Err(FrameError::InvalidEncoding);
    }
    let last = frame[n - 1];
    if last != FRAME_SEPARATOR {
        return Result::Err(FrameError::InvalidEncoding);
    }
    let body = slice_subrange(frame.as_slice(), 0, n - 1);
    let ghost gbody = frame@.take(frame@.len() - 1);
    proof {
        assert(body@ =~= gbody);
    }
    match b64_decode(body) {
        Option::None => {
            proof {
                assert forall|v: ReqView|
                    req_wf(v) && frame@ == base64_of(spec_ser_request(v)).push(
                        FRAME_SEPARATOR,
                    ) implies false by {
                    assert(gbody =~= base64_of(spec_ser_request(v)));
                }
            }
            Result::Err(FrameError::InvalidEncoding)
        },
        Option::Some(inner) => {
            let ghost ginner = inner@;
            let parsed = parse_request(inner.as_slice());
            match parsed {
                Option::Some(m) => {
                    let r = Result::<PBRequest, FrameError>::Ok(m);
                    proof {
                        assert forall|i2: Seq<u8>| gbody == base64_of(i2) implies req_decode_post(
                            i2,
                            r,
                        ) by {
                            assert(ginner == i2);
                        }
                        assert forall|v: ReqView|
                            req_wf(v) && frame@ == base64_of(spec_ser_request(v)).push(
                                FRAME_SEPARATOR,
                            ) implies r matches Result::Ok(m2) && m2@ == v by {
                            assert(gbody =~= base64_of(spec_ser_request(v)));
                            assert(ginner == spec_ser_request(v));
                            lemma_request_round_trip(v);
                        }
                    }
                    r
                },
                Option::None => {
                    let om = string_from_utf8(inner);
                    let r = Result::<PBRequest, FrameError>::Err(
                        FrameError::InvalidPayload { original_message: om },
                    );
                    proof {
                        assert forall|i2: Seq<u8>| gbody == base64_of(i2) implies req_decode_post(
                            i2,
                            r,
                        ) by {
                            assert(ginner == i2);
                        }
                        assert forall|v: ReqView|
                            req_wf(v) && frame@ == base64_of(spec_ser_request(v)).push(
                                FRAME_SEPARATOR,
                            ) implies false by {
                            assert(gbody =~= base64_of(spec_ser_request(v)));
                            assert(ginner == spec_ser_request(v));
                            lemma_request_round_trip(v);
                        }
                    }
                    r
                },
            }
        },
    }
}

/// Decodes one frame into a response, exactly as `decode_request` does.
pub fn decode_response(frame: &Vec<u8>) -> (r: Result<PBResponse, FrameError>)
    ensures
        frame@.len() == 0 || frame@.last() != FRAME_SEPARATOR ==> (r matches Result::Err(e)
            && e@ == FrameErrorView::InvalidEncoding),
        frame@.len() > 0 && frame@.last() == FRAME_SEPARATOR ==> ({
            let body = frame@.take(frame@.len() - 1);
            &&& !(exists|inner: Seq<u8>| body == base64_of(inner)) ==> (r matches Result::Err(e)
                && e@ == FrameErrorView::InvalidEncoding)
            &&& forall|inner: Seq<u8>| body == base64_of(inner) ==> resp_decode_post(inner, r)
        }),
        forall|v: RespView|
            resp_wf(v) && frame@ == base64_of(spec_ser_response(v)).push(FRAME_SEPARATOR) ==> (
            r matches Result::Ok(m) && m@ == v),
{
    let n = frame.len();
    if n == 0 {
        return Result::Err(FrameError::InvalidEncoding);
    }
    let last = frame[n - 1];
    if last != FRAME_SEPARATOR {
        return Result::Err(FrameError::InvalidEncoding);
    }
    let body = slice_subrange(frame.as_slice(), 0, n - 1);
    let ghost gbody = frame@.take(frame@.len() - 1);
    proof {
        assert(body@ =~= gbody);
    }
    match b64_decode(body) {
        Option::None => {
            proof {
                assert forall|v: RespView|
                    resp_wf(v) && frame@ == base64_of(spec_ser_response(v)).push(
                        FRAME_SEPARATOR,
                    ) implies false by {
                    assert(gbody =~= base64_of(spec_ser_response(v)));
                }
            }
            Result::Err(FrameError::InvalidEncoding)
        },
        Option::Some(inner) => {
            let ghost ginner = inner@;
            let parsed = parse_response(inner.as_slice());
            match parsed {
                Option::Some(m) => {
                    let r = Result::<PBResponse, FrameError>::Ok(m);
                    proof {
                        assert forall|i2: Seq<u8>| gbody == base64_of(i2) implies resp_decode_post(
                            i2,
                            r,
                        ) by {
                            assert(ginner == i2);
                        }
                        assert forall|v: RespView|
                            resp_wf(v) && frame@ == base64_of(spec_ser_response(v)).push(
                                FRAME_SEPARATOR,
                            ) implies r matches Result::Ok(m2) && m2@ == v by {
                            assert(gbody =~= base64_of(spec_ser_response(v)));
                            assert(ginner == spec_ser_response(v));
                            lemma_response_round_trip(v);
                        }
                    }
                    r
                },
                Option::None => {
                    let om = string_from_utf8(inner);
                    let r = Result::<PBResponse, FrameError>::Err(
                        FrameError::InvalidPayload { original_message: om },
                    );
                    proof {
                        assert forall|i2: Seq<u8>| gbody == base64_of(i2) implies resp_decode_post(
                            i2,
                            r,
                        ) by {
                            assert(ginner == i2);
                        }
                        assert forall|v: RespView|
                            resp_wf(v) && frame@ == base64_of(spec_ser_response(v)).push(
                                FRAME_SEPARATOR,
                            ) implies false by {
                            assert(gbody =~= base64_of(spec_ser_response(v)));
                            assert(ginner == spec_ser_response(v));
                            lemma_response_round_trip(v);
                        }
                    }
                    r
                },
            }
        },
    }
}

/// The untargeted diagnostic the worker answers when a frame cannot be
/// decoded; it has no message identifier and the connection continues.
pub open spec fn frame_error_response(e: FrameErrorView) -> RespView {
    match e {
        FrameErrorView::InvalidEncoding => RespView {
            message_id: Option::None,
            payload: RespPayloadView::Error {
                original_message: Option::None,
                message: "Unparseable message, not valid base64"@,
            },
        },
        FrameErrorView::InvalidPayload { original_message } => RespView {
            message_id: Option::None,
            payload: RespPayloadView::Error {
                original_message,
                message:
                    "Pagebrowse was unable to parse the message it was provided via the service"@,
            },
        },
    }
}

fn frame_error_to_response(e: FrameError) -> (r: PBResponse)
    ensures
        r@ == frame_error_response(e@),
{
    match e {
        FrameError::InvalidEncoding => PBResponse {
            message_id: Option::None,
            payload: PBResponsePayload::Error {
                original_message: Option::None,
                message: String::from_str("Unparseable message, not valid base64"),
            },
        },
        FrameError::InvalidPayload { original_message } => PBResponse {
            message_id: Option::None,
            payload: PBResponsePayload::Error {
                original_message,
                message: String::from_str(
                    "Pagebrowse was unable to parse the message it was provided via the service",
                ),
            },
        },
    }
}

/// Decodes one inbound frame for the worker; a frame that cannot be
/// decoded becomes the untargeted `Error` response to write back.
pub fn parse_buf_or_write_error(frame: &Vec<u8>) -> (r: Result<PBRequest, PBResponse>)
    ensures
        frame@.len() == 0 || frame@.last() != FRAME_SEPARATOR ==> (r matches Result::Err(resp)
            && resp@ == frame_error_response(FrameErrorView::InvalidEncoding)),
        frame@.len() > 0 && frame@.last() == FRAME_SEPARATOR ==> ({
            let body = frame@.take(frame@.len() - 1);
            &&& !(exists|inner: Seq<u8>| body == base64_of(inner)) ==> (r matches Result::Err(
                resp,
            ) && resp@ == frame_error_response(FrameErrorView::InvalidEncoding))
            &&& forall|inner: Seq<u8>| body == base64_of(inner) ==> (match sp_request(inner) {
                Option::Some(v) => r matches Result::Ok(m) && m@ == v,
                Option::None => r matches Result::Err(resp) && resp@ == frame_error_response(
                    payload_error_of(inner),
                ),
            })
        }),
        forall|v: ReqView|
            req_wf(v) && frame@ == base64_of(spec_ser_request(v)).push(FRAME_SEPARATOR) ==> (
            r matches Result::Ok(m) && m@ == v),
{
    match decode_request(frame) {
        Result::Ok(m) => Result::Ok(m),
        Result::Err(e) => Result::Err(frame_error_to_response(e)),
    }
}

} // verus!
