use pagebrowse::messages::{InitializationParams, PBEvent, PBHook, PBRequest, PBRequestPayload,
    PBResponse, PBResponsePayload, PBWebviewEvent};
use pagebrowse::pool::{handle_event, handle_hook, handle_message, pre_init_step,
    screenshot_complete_response, script_evaluated_response, EngineAction, Pool};

fn request(message_id: u32, payload: PBRequestPayload) -> PBRequest {
    PBRequest { message_id: Some(message_id), payload }
}

fn new_window_ids(resp: &PBResponse) -> (u32, u32) {
    match resp.payload {
        PBResponsePayload::NewWindowCreated { id } => (resp.message_id.unwrap(), id),
        ref other => panic!("expected NewWindowCreated, got {other:?}"),
    }
}

fn assert_error(resp: &PBResponse, message_id: u32) {
    assert_eq!(resp.message_id, Some(message_id));
    assert!(matches!(resp.payload, PBResponsePayload::Error { .. }));
}

#[test]
fn tester_echoes() {
    let mut pool = Pool::new(1);
    let out = handle_message(&mut pool, request(1, PBRequestPayload::Tester("hi".to_string())));
    assert_eq!(out.responses.len(), 1);
    assert_eq!(out.responses[0].message_id, Some(1));
    assert_eq!(
        out.responses[0].payload,
        PBResponsePayload::Tester("Responding to [hi]".to_string())
    );
    assert!(out.actions.is_empty());
}

#[test]
fn initialize_after_init_is_rejected() {
    let mut pool = Pool::new(1);
    let out = handle_message(
        &mut pool,
        request(
            2,
            PBRequestPayload::Initialize(InitializationParams {
                pool_size: 4,
                visible: false,
                init_script: None,
            }),
        ),
    );
    assert_eq!(out.responses.len(), 1);
    assert_error(&out.responses[0], 2);
}

#[test]
fn end_to_end_pool_of_one() {
    // Pool of one slot: A acquires id 0, B queues, A releases, B is
    // served at once on the freed slot under the fresh id 1.
    let mut pool = Pool::new(1);

    let a = handle_message(&mut pool, request(10, PBRequestPayload::NewWindow));
    assert_eq!(a.responses.len(), 1);
    assert_eq!(new_window_ids(&a.responses[0]), (10, 0));

    let b = handle_message(&mut pool, request(11, PBRequestPayload::NewWindow));
    assert!(b.responses.is_empty());

    let rel = handle_message(&mut pool, request(12, PBRequestPayload::ReleaseWindow {
        window_id: 0,
    }));
    assert_eq!(rel.responses.len(), 2);
    assert_eq!(rel.responses[0].message_id, Some(12));
    assert_eq!(rel.responses[0].payload, PBResponsePayload::OperationComplete);
    assert_eq!(new_window_ids(&rel.responses[1]), (11, 1));
}

#[test]
fn pool_fairness_fifo() {
    // Capacity 2, four concurrent NewWindow calls: exactly two resolve
    // immediately; the other two resolve later, exactly once, in strict
    // arrival order as slots are released.
    let mut pool = Pool::new(2);

    let r1 = handle_message(&mut pool, request(100, PBRequestPayload::NewWindow));
    let r2 = handle_message(&mut pool, request(101, PBRequestPayload::NewWindow));
    let r3 = handle_message(&mut pool, request(102, PBRequestPayload::NewWindow));
    let r4 = handle_message(&mut pool, request(103, PBRequestPayload::NewWindow));
    assert_eq!(new_window_ids(&r1.responses[0]), (100, 0));
    assert_eq!(new_window_ids(&r2.responses[0]), (101, 1));
    assert!(r3.responses.is_empty());
    assert!(r4.responses.is_empty());

    let rel1 = handle_message(&mut pool, request(104, PBRequestPayload::ReleaseWindow {
        window_id: 1,
    }));
    assert_eq!(rel1.responses.len(), 2);
    assert_eq!(new_window_ids(&rel1.responses[1]), (102, 2));

    let rel2 = handle_message(&mut pool, request(105, PBRequestPayload::ReleaseWindow {
        window_id: 0,
    }));
    assert_eq!(rel2.responses.len(), 2);
    assert_eq!(new_window_ids(&rel2.responses[1]), (103, 3));

    // Both waiters were served exactly once; the queue is drained.
    let rel3 = handle_message(&mut pool, request(106, PBRequestPayload::ReleaseWindow {
        window_id: 2,
    }));
    assert_eq!(rel3.responses.len(), 1);
    assert_eq!(rel3.responses[0].payload, PBResponsePayload::OperationComplete);
}

#[test]
fn invalid_release_is_an_error_not_a_crash() {
    let mut pool = Pool::new(1);

    // Never assigned.
    let out = handle_message(&mut pool, request(1, PBRequestPayload::ReleaseWindow {
        window_id: 42,
    }));
    assert_eq!(out.responses.len(), 1);
    assert_error(&out.responses[0], 1);

    // Already released.
    handle_message(&mut pool, request(2, PBRequestPayload::NewWindow));
    let first = handle_message(&mut pool, request(3, PBRequestPayload::ReleaseWindow {
        window_id: 0,
    }));
    assert_eq!(first.responses[0].payload, PBResponsePayload::OperationComplete);
    let second = handle_message(&mut pool, request(4, PBRequestPayload::ReleaseWindow {
        window_id: 0,
    }));
    assert_eq!(second.responses.len(), 1);
    assert_error(&second.responses[0], 4);
}

#[test]
fn deferred_navigation_waits_for_matching_load_finish() {
    let mut pool = Pool::new(1);
    handle_message(&mut pool, request(1, PBRequestPayload::NewWindow));

    let nav = handle_message(&mut pool, request(2, PBRequestPayload::Navigate {
        window_id: 0,
        url: "https://example.com/".to_string(),
        wait_for_load: true,
    }));
    // The command reaches the engine, but no reply is sent yet.
    assert!(nav.responses.is_empty());
    assert_eq!(nav.actions, vec![EngineAction::LoadUrl {
        slot: 0,
        url: "https://example.com/".to_string(),
    }]);

    // A load-start, or a finish for another URL, releases nothing.
    let start = handle_hook(&mut pool, PBHook {
        pool_item: 0,
        event: PBWebviewEvent::PageLoadStart { url: "https://example.com/".to_string() },
    });
    assert!(start.is_empty());
    let other = handle_hook(&mut pool, PBHook {
        pool_item: 0,
        event: PBWebviewEvent::PageLoadFinish { url: "https://example.org/".to_string() },
    });
    assert!(other.is_empty());

    // The exact finish event releases the deferred acknowledgement.
    let finish = handle_hook(&mut pool, PBHook {
        pool_item: 0,
        event: PBWebviewEvent::PageLoadFinish { url: "https://example.com/".to_string() },
    });
    assert_eq!(finish.len(), 1);
    assert_eq!(finish[0].message_id, Some(2));
    assert_eq!(finish[0].payload, PBResponsePayload::OperationComplete);

    // The completion was one-shot.
    let again = handle_hook(&mut pool, PBHook {
        pool_item: 0,
        event: PBWebviewEvent::PageLoadFinish { url: "https://example.com/".to_string() },
    });
    assert!(again.is_empty());
}

#[test]
fn renavigation_replaces_the_deferred_completion() {
    // Two deferred navigations to the same URL on one slot: the pending
    // completion is keyed by the event, so the later call replaces the
    // earlier one, and the notification releases a single reply.
    let mut pool = Pool::new(1);
    handle_message(&mut pool, request(1, PBRequestPayload::NewWindow));
    for mid in [2, 3] {
        let out = handle_message(&mut pool, request(mid, PBRequestPayload::Navigate {
            window_id: 0,
            url: "https://example.com/".to_string(),
            wait_for_load: true,
        }));
        assert!(out.responses.is_empty());
    }
    let finish = handle_hook(&mut pool, PBHook {
        pool_item: 0,
        event: PBWebviewEvent::PageLoadFinish { url: "https://example.com/".to_string() },
    });
    assert_eq!(finish.len(), 1);
    assert_eq!(finish[0].message_id, Some(3));
    let again = handle_hook(&mut pool, PBHook {
        pool_item: 0,
        event: PBWebviewEvent::PageLoadFinish { url: "https://example.com/".to_string() },
    });
    assert!(again.is_empty());
}

#[test]
fn immediate_navigation_resolves_without_load() {
    let mut pool = Pool::new(1);
    handle_message(&mut pool, request(1, PBRequestPayload::NewWindow));
    let nav = handle_message(&mut pool, request(2, PBRequestPayload::Navigate {
        window_id: 0,
        url: "https://example.com/".to_string(),
        wait_for_load: false,
    }));
    assert_eq!(nav.responses.len(), 1);
    assert_eq!(nav.responses[0].message_id, Some(2));
    assert_eq!(nav.responses[0].payload, PBResponsePayload::OperationComplete);
    assert_eq!(nav.actions.len(), 1);
}

#[test]
fn navigate_unknown_window_is_an_error() {
    let mut pool = Pool::new(1);
    let nav = handle_message(&mut pool, request(2, PBRequestPayload::Navigate {
        window_id: 9,
        url: "https://example.com/".to_string(),
        wait_for_load: true,
    }));
    assert_eq!(nav.responses.len(), 1);
    assert_error(&nav.responses[0], 2);
    assert!(nav.actions.is_empty());
}

#[test]
fn release_discards_pending_completions() {
    let mut pool = Pool::new(1);
    handle_message(&mut pool, request(1, PBRequestPayload::NewWindow));
    handle_message(&mut pool, request(2, PBRequestPayload::Navigate {
        window_id: 0,
        url: "https://example.com/".to_string(),
        wait_for_load: true,
    }));
    handle_message(&mut pool, request(3, PBRequestPayload::ReleaseWindow { window_id: 0 }));

    // The slot is reassigned; the old deferred completion is gone for good.
    handle_message(&mut pool, request(4, PBRequestPayload::NewWindow));
    let finish = handle_hook(&mut pool, PBHook {
        pool_item: 0,
        event: PBWebviewEvent::PageLoadFinish { url: "https://example.com/".to_string() },
    });
    assert!(finish.is_empty());
}

#[test]
fn resize_positions_windows_on_a_grid() {
    let mut pool = Pool::new(6);
    for n in 0..6u32 {
        let out = handle_message(&mut pool, request(n, PBRequestPayload::NewWindow));
        assert_eq!(new_window_ids(&out.responses[0]), (n, n));
    }
    let out = handle_message(&mut pool, request(20, PBRequestPayload::ResizeWindow {
        window_id: 5,
        width: 800,
        height: 600,
    }));
    assert_eq!(out.responses.len(), 1);
    assert_eq!(out.responses[0].payload, PBResponsePayload::OperationComplete);
    assert_eq!(out.actions, vec![
        EngineAction::SetSize { slot: 5, width: 800, height: 600 },
        EngineAction::SetPosition { slot: 5, x: 960, y: 540 },
    ]);
}

#[test]
fn evaluate_script_answers_from_the_callback() {
    let mut pool = Pool::new(1);
    handle_message(&mut pool, request(1, PBRequestPayload::NewWindow));
    let out = handle_message(&mut pool, request(2, PBRequestPayload::EvaluateScript {
        window_id: 0,
        script: "1 + 1".to_string(),
    }));
    assert!(out.responses.is_empty());
    assert_eq!(out.actions, vec![EngineAction::RunScript {
        slot: 0,
        message_id: 2,
        script: "1 + 1\n".to_string(),
    }]);

    let resp = script_evaluated_response(2, "2".to_string());
    assert_eq!(resp.message_id, Some(2));
    assert_eq!(resp.payload, PBResponsePayload::ScriptEvaluated { output: "2".to_string() });
}

#[test]
fn screenshot_answers_from_the_callback() {
    let mut pool = Pool::new(1);
    handle_message(&mut pool, request(1, PBRequestPayload::NewWindow));
    let out = handle_message(&mut pool, request(2, PBRequestPayload::Screenshot {
        window_id: 0,
        path: "out.png".to_string(),
    }));
    assert!(out.responses.is_empty());
    assert_eq!(out.actions, vec![EngineAction::CaptureImage {
        slot: 0,
        message_id: 2,
        path: "out.png".to_string(),
    }]);

    let resp = screenshot_complete_response(2);
    assert_eq!(resp.message_id, Some(2));
    assert_eq!(resp.payload, PBResponsePayload::OperationComplete);
}

#[test]
fn handle_event_dispatches_requests_and_hooks() {
    let mut pool = Pool::new(1);
    let out = handle_event(&mut pool, PBEvent::Request(request(1, PBRequestPayload::NewWindow)));
    assert_eq!(new_window_ids(&out.responses[0]), (1, 0));

    let out = handle_event(&mut pool, PBEvent::Hook(PBHook {
        pool_item: 0,
        event: PBWebviewEvent::PageLoadFinish { url: "https://example.com/".to_string() },
    }));
    assert!(out.responses.is_empty());
    assert!(out.actions.is_empty());
}

#[test]
fn initialization_handshake() {
    let (params, resp) = pre_init_step(request(
        0,
        PBRequestPayload::Initialize(InitializationParams {
            pool_size: 3,
            visible: true,
            init_script: Some("setup()".to_string()),
        }),
    ));
    let params = params.expect("Initialize must be accepted");
    assert_eq!(params.pool_size, 3);
    assert!(params.visible);
    assert_eq!(params.init_script, Some("setup()".to_string()));
    assert_eq!(resp.message_id, Some(0));
    assert_eq!(resp.payload, PBResponsePayload::OperationComplete);

    let (params, resp) = pre_init_step(request(1, PBRequestPayload::NewWindow));
    assert!(params.is_none());
    assert_eq!(resp.message_id, Some(1));
    assert!(matches!(resp.payload, PBResponsePayload::Error { .. }));
}
