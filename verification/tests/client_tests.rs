use pagebrowse::client::{build_request, complete_call, interpret_new_window_response,
    interpret_operation_response, interpret_script_response, response_matches, Correlator,
    PagebrowseBuilder, PagebrowseError};
use pagebrowse::messages::{PBResponse, PBResponsePayload};

fn resp(message_id: Option<u32>, payload: PBResponsePayload) -> PBResponse {
    PBResponse { message_id, payload }
}

#[test]
fn builder_defaults_and_settings() {
    let b = PagebrowseBuilder::new(4);
    assert_eq!(b.pool_size, 4);
    assert!(!b.visible);
    assert_eq!(b.manager_path, "../../target/debug/pagebrowse_manager");

    let b = b.visible(true).manager_path("/usr/bin/pagebrowse_manager".to_string());
    assert!(b.visible);
    assert_eq!(b.manager_path, "/usr/bin/pagebrowse_manager");
    assert_eq!(b.pool_size, 4);
}

#[test]
fn builder_manager_args() {
    let args = PagebrowseBuilder::new(12).manager_args();
    assert_eq!(args, vec!["--count".to_string(), "12".to_string()]);

    let args = PagebrowseBuilder::new(0).visible(true).manager_args();
    assert_eq!(args, vec!["--count".to_string(), "0".to_string(), "--visible".to_string()]);

    let args = PagebrowseBuilder::new(1234567890).manager_args();
    assert_eq!(args[1], "1234567890");
}

#[test]
fn correlator_hands_out_increasing_ids() {
    let mut c = Correlator::new();
    assert_eq!(c.allocate_message_id(), 0);
    assert_eq!(c.allocate_message_id(), 1);
    assert_eq!(c.allocate_message_id(), 2);
    assert_eq!(c.latest_message_id, 3);
}

#[test]
fn build_request_tags_the_call() {
    let req = build_request(9, pagebrowse::messages::PBRequestPayload::NewWindow);
    assert_eq!(req.message_id, Some(9));
}

#[test]
fn matching_ignores_other_ids_and_untargeted_diagnostics() {
    let mine = resp(Some(5), PBResponsePayload::OperationComplete);
    let other = resp(Some(6), PBResponsePayload::OperationComplete);
    let untargeted = resp(None, PBResponsePayload::Error {
        original_message: None,
        message: "bad frame".to_string(),
    });
    assert!(response_matches(&mine, 5));
    assert!(!response_matches(&other, 5));
    assert!(!response_matches(&untargeted, 5));
}

#[test]
fn concurrent_callers_each_take_only_their_own_response() {
    // Three concurrent calls on one connection, replies interleaved out
    // of order: each caller sees exactly the response with its own id.
    let stream = vec![
        resp(None, PBResponsePayload::Error {
            original_message: None,
            message: "noise".to_string(),
        }),
        resp(Some(2), PBResponsePayload::Tester("two".to_string())),
        resp(Some(0), PBResponsePayload::Tester("zero".to_string())),
        resp(Some(1), PBResponsePayload::Tester("one".to_string())),
    ];
    for (id, text) in [(0u32, "zero"), (1, "one"), (2, "two")] {
        let got = complete_call(stream.clone(), id);
        assert_eq!(got, Ok(PBResponsePayload::Tester(text.to_string())));
    }
}

#[test]
fn connection_loss_resolves_to_a_terminal_error() {
    // The stream closed while the call was outstanding: the caller gets
    // the terminal error instead of blocking forever.
    let stream = vec![
        resp(Some(7), PBResponsePayload::OperationComplete),
        resp(None, PBResponsePayload::Error {
            original_message: None,
            message: "noise".to_string(),
        }),
    ];
    assert_eq!(complete_call(stream, 3), Err(PagebrowseError::Unknown));
    assert_eq!(complete_call(Vec::new(), 3), Err(PagebrowseError::Unknown));
}

#[test]
fn first_matching_response_wins() {
    let stream = vec![
        resp(Some(4), PBResponsePayload::Tester("first".to_string())),
        resp(Some(4), PBResponsePayload::Tester("second".to_string())),
    ];
    assert_eq!(complete_call(stream, 4), Ok(PBResponsePayload::Tester("first".to_string())));
}

#[test]
fn new_window_reply_interpretation() {
    assert_eq!(
        interpret_new_window_response(&PBResponsePayload::NewWindowCreated { id: 3 }),
        Ok(3)
    );
    assert_eq!(
        interpret_new_window_response(&PBResponsePayload::OperationComplete),
        Err(PagebrowseError::Unknown)
    );
}

#[test]
fn operation_reply_interpretation() {
    assert_eq!(interpret_operation_response(&PBResponsePayload::OperationComplete), Ok(()));
    assert_eq!(
        interpret_operation_response(&PBResponsePayload::Tester("x".to_string())),
        Err(PagebrowseError::Unknown)
    );
}

#[test]
fn script_reply_interpretation() {
    // Empty output: the script produced no value.
    assert_eq!(
        interpret_script_response(&PBResponsePayload::ScriptEvaluated { output: String::new() }),
        Ok(None)
    );

    // JSON output: the structured value comes back.
    let got = interpret_script_response(&PBResponsePayload::ScriptEvaluated {
        output: "{\"a\": [1, 2]}".to_string(),
    });
    let value = got.expect("valid JSON must parse").expect("non-empty output carries a value");
    assert_eq!(value["a"][1], serde_json::Value::from(2));

    // Non-JSON output is an error.
    assert_eq!(
        interpret_script_response(&PBResponsePayload::ScriptEvaluated {
            output: "not json {{".to_string(),
        }),
        Err(PagebrowseError::Unknown)
    );

    // So is any other reply.
    assert_eq!(
        interpret_script_response(&PBResponsePayload::OperationComplete),
        Err(PagebrowseError::Unknown)
    );
}

#[test]
fn error_display_text() {
    assert_eq!(PagebrowseError::Unknown.message(), "unknown error");
    assert_eq!(PagebrowseError::NoManager.message(), "no manager available");
}
