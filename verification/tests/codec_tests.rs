use base64::Engine;

use pagebrowse::codec::{decode_request, decode_response, encode_request, encode_response,
    parse_buf_or_write_error, FrameError, FRAME_SEPARATOR};
use pagebrowse::messages::{InitializationParams, PBRequest, PBRequestPayload, PBResponse,
    PBResponsePayload};

fn round_trip_request(req: PBRequest) {
    let frame = encode_request(&req);
    assert_eq!(decode_request(&frame), Ok(req));
}

fn round_trip_response(resp: PBResponse) {
    let frame = encode_response(&resp);
    assert_eq!(decode_response(&frame), Ok(resp));
}

#[test]
fn request_round_trip_tester() {
    round_trip_request(PBRequest {
        message_id: Some(7),
        payload: PBRequestPayload::Tester("hello, world".to_string()),
    });
}

#[test]
fn request_round_trip_initialize() {
    round_trip_request(PBRequest {
        message_id: Some(0),
        payload: PBRequestPayload::Initialize(InitializationParams {
            pool_size: 4,
            visible: true,
            init_script: Some("console.log('ready')".to_string()),
        }),
    });
    round_trip_request(PBRequest {
        message_id: None,
        payload: PBRequestPayload::Initialize(InitializationParams {
            pool_size: 0,
            visible: false,
            init_script: None,
        }),
    });
}

#[test]
fn request_round_trip_new_window() {
    round_trip_request(PBRequest { message_id: Some(u32::MAX), payload: PBRequestPayload::NewWindow });
}

#[test]
fn request_round_trip_release_window() {
    round_trip_request(PBRequest {
        message_id: Some(3),
        payload: PBRequestPayload::ReleaseWindow { window_id: 12 },
    });
}

#[test]
fn request_round_trip_navigate() {
    round_trip_request(PBRequest {
        message_id: Some(9),
        payload: PBRequestPayload::Navigate {
            window_id: 1,
            url: "https://pagefind.app/?q=a,b&x=✓".to_string(),
            wait_for_load: true,
        },
    });
}

#[test]
fn request_round_trip_resize() {
    round_trip_request(PBRequest {
        message_id: Some(10),
        payload: PBRequestPayload::ResizeWindow { window_id: 2, width: 1920, height: 1080 },
    });
}

#[test]
fn request_round_trip_evaluate_script() {
    round_trip_request(PBRequest {
        message_id: Some(11),
        payload: PBRequestPayload::EvaluateScript {
            window_id: 0,
            script: "document.title".to_string(),
        },
    });
}

#[test]
fn request_round_trip_screenshot() {
    round_trip_request(PBRequest {
        message_id: Some(12),
        payload: PBRequestPayload::Screenshot {
            window_id: 5,
            path: "shots/page-1.png".to_string(),
        },
    });
}

#[test]
fn response_round_trip_all_variants() {
    round_trip_response(PBResponse {
        message_id: None,
        payload: PBResponsePayload::Error {
            original_message: Some("broken".to_string()),
            message: "could not parse".to_string(),
        },
    });
    round_trip_response(PBResponse {
        message_id: Some(1),
        payload: PBResponsePayload::Error { original_message: None, message: "nope".to_string() },
    });
    round_trip_response(PBResponse {
        message_id: Some(2),
        payload: PBResponsePayload::Tester("Responding to [x]".to_string()),
    });
    round_trip_response(PBResponse {
        message_id: Some(3),
        payload: PBResponsePayload::NewWindowCreated { id: 0 },
    });
    round_trip_response(PBResponse {
        message_id: Some(4),
        payload: PBResponsePayload::ScriptEvaluated { output: "{\"a\":1}".to_string() },
    });
    round_trip_response(PBResponse {
        message_id: Some(5),
        payload: PBResponsePayload::OperationComplete,
    });
}

#[test]
fn frame_ends_with_single_separator() {
    // The text-safe layer must never produce the separator byte itself,
    // even when the message text contains it.
    let req = PBRequest {
        message_id: Some(1),
        payload: PBRequestPayload::Tester("a,b,,c".to_string()),
    };
    let frame = encode_request(&req);
    let separators = frame.iter().filter(|&&b| b == FRAME_SEPARATOR).count();
    assert_eq!(separators, 1);
    assert_eq!(*frame.last().unwrap(), FRAME_SEPARATOR);
}

#[test]
fn decode_rejects_missing_separator() {
    assert_eq!(decode_request(&Vec::new()), Err(FrameError::InvalidEncoding));
    let mut frame = encode_request(&PBRequest {
        message_id: Some(1),
        payload: PBRequestPayload::NewWindow,
    });
    frame.pop();
    assert_eq!(decode_request(&frame), Err(FrameError::InvalidEncoding));
}

#[test]
fn decode_rejects_bad_base64() {
    let mut frame: Vec<u8> = b"!!!not base64!!!".to_vec();
    frame.push(FRAME_SEPARATOR);
    assert_eq!(decode_request(&frame), Err(FrameError::InvalidEncoding));
    assert_eq!(decode_response(&frame), Err(FrameError::InvalidEncoding));
}

#[test]
fn decode_reports_unparseable_text_payload() {
    // Valid base64 of valid text that is not a message: the raw text is
    // carried back in the diagnostic.
    let mut frame = base64::engine::general_purpose::STANDARD.encode("hello").into_bytes();
    frame.push(FRAME_SEPARATOR);
    assert_eq!(
        decode_request(&frame),
        Err(FrameError::InvalidPayload { original_message: Some("hello".to_string()) })
    );
}

#[test]
fn decode_reports_unparseable_binary_payload() {
    // Valid base64 of bytes that are not valid text: no raw text carried.
    let mut frame = base64::engine::general_purpose::STANDARD
        .encode([0xffu8, 0xfe, 0x01])
        .into_bytes();
    frame.push(FRAME_SEPARATOR);
    assert_eq!(
        decode_request(&frame),
        Err(FrameError::InvalidPayload { original_message: None })
    );
}

#[test]
fn parse_buf_synthesizes_error_responses() {
    let mut garbled: Vec<u8> = b"%%%".to_vec();
    garbled.push(FRAME_SEPARATOR);
    match parse_buf_or_write_error(&garbled) {
        Err(resp) => {
            assert_eq!(resp.message_id, None);
            match resp.payload {
                PBResponsePayload::Error { original_message, message } => {
                    assert_eq!(original_message, None);
                    assert_eq!(message, "Unparseable message, not valid base64");
                }
                other => panic!("expected an error payload, got {other:?}"),
            }
        }
        Ok(req) => panic!("garbled frame decoded to {req:?}"),
    }

    let mut text_frame = base64::engine::general_purpose::STANDARD.encode("junk").into_bytes();
    text_frame.push(FRAME_SEPARATOR);
    match parse_buf_or_write_error(&text_frame) {
        Err(resp) => {
            assert_eq!(resp.message_id, None);
            match resp.payload {
                PBResponsePayload::Error { original_message, message } => {
                    assert_eq!(original_message, Some("junk".to_string()));
                    assert_eq!(
                        message,
                        "Pagebrowse was unable to parse the message it was provided via the service"
                    );
                }
                other => panic!("expected an error payload, got {other:?}"),
            }
        }
        Ok(req) => panic!("junk frame decoded to {req:?}"),
    }

    let good = PBRequest { message_id: Some(5), payload: PBRequestPayload::NewWindow };
    let frame = encode_request(&good);
    assert_eq!(parse_buf_or_write_error(&frame), Ok(good));
}
