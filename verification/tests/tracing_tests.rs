use ttwm::state::{StateTransition, UnmanageReason};
use ttwm::tracing::EventTracer;

#[test]
fn test_trace_x11_event() {
    let mut tracer = EventTracer::new();
    tracer.trace_x11_event("MapRequest", Some(12345), "new window");

    let entries = tracer.get_all();
    assert_eq!(entries.len(), 1);
    assert_eq!(entries[0].event_type, "MapRequest");
    assert_eq!(entries[0].window, Some(12345));
}

#[test]
fn test_ring_buffer_overflow() {
    let mut tracer = EventTracer::with_capacity(3);

    tracer.trace_x11_event("event1", None, "");
    tracer.trace_x11_event("event2", None, "");
    tracer.trace_x11_event("event3", None, "");
    tracer.trace_x11_event("event4", None, "");

    let entries = tracer.get_all();
    assert_eq!(entries.len(), 3);
    assert_eq!(entries[0].event_type, "event2");
    assert_eq!(entries[2].event_type, "event4");
}

#[test]
fn test_get_last() {
    let mut tracer = EventTracer::new();

    for i in 0..10 {
        tracer.trace_x11_event(&format!("event{}", i), None, "");
    }

    let last_3 = tracer.get_last(3);
    assert_eq!(last_3.len(), 3);
    assert_eq!(last_3[0].event_type, "event7");
    assert_eq!(last_3[2].event_type, "event9");
}

#[test]
fn test_sequence_numbers() {
    let mut tracer = EventTracer::new();

    tracer.trace_x11_event("a", None, "");
    tracer.trace_x11_event("b", None, "");
    tracer.trace_x11_event("c", None, "");

    let entries = tracer.get_all();
    assert_eq!(entries[0].sequence, 1);
    assert_eq!(entries[1].sequence, 2);
    assert_eq!(entries[2].sequence, 3);
}

#[test]
fn trace_ipc_formats_details() {
    let mut tracer = EventTracer::new();
    tracer.trace_ipc("GetState", "ok");
    let e = &tracer.get_all()[0];
    assert_eq!(e.event_type, "ipc_command");
    assert_eq!(e.window, None);
    assert_eq!(e.details, "cmd=GetState result=ok");
}

#[test]
fn clear_resets_numbering_and_get_last_handles_large_n() {
    let mut tracer = EventTracer::with_capacity(2);
    tracer.trace_x11_event("a", None, "");
    tracer.trace_x11_event("b", None, "");
    assert_eq!(tracer.get_last(10).len(), 2);
    assert_eq!(tracer.get_last(0).len(), 0);
    tracer.clear();
    assert!(tracer.is_empty());
    assert_eq!(tracer.len(), 0);
    tracer.trace_x11_event("c", Some(1), "d");
    assert_eq!(tracer.get_all()[0].sequence, 1);
    assert_eq!(tracer.get_all()[0].details, "d");
}

#[test]
fn zero_capacity_keeps_the_newest_entry() {
    let mut tracer = EventTracer::with_capacity(0);
    tracer.trace_x11_event("a", None, "");
    tracer.trace_x11_event("b", None, "");
    let all = tracer.get_all();
    assert_eq!(all.len(), 1);
    assert_eq!(all[0].event_type, "b");
    assert_eq!(all[0].sequence, 2);
}

#[test]
fn transitions_are_written_as_the_log_reads_them() {
    let mut tracer = EventTracer::new();
    tracer.trace_transition(&StateTransition::SplitResized {
        split: "NodeId(1v1)".to_string(),
        old_ratio: 500_000,
        new_ratio: 550_000,
    });
    tracer.trace_transition(&StateTransition::FocusChanged { from: Some(5), to: Some(7) });
    tracer.trace_transition(&StateTransition::FocusChanged { from: None, to: None });
    tracer.trace_transition(&StateTransition::TabSwitched { frame: "NodeId(2v1)".to_string(), from: 0, to: 12 });
    tracer.trace_transition(&StateTransition::WindowUnmanaged { window: 9, reason: UnmanageReason::ClientDestroyed });
    tracer.trace_transition(&StateTransition::WindowManaged { window: 42, frame: "floating".to_string() });
    let all = tracer.get_all();
    assert_eq!(all.len(), 6);
    assert_eq!(all[0].event_type, "split_resized");
    assert_eq!(all[0].details, "split=NodeId(1v1) 0.50->0.55");
    assert_eq!(all[0].window, None);
    assert_eq!(all[1].event_type, "focus_changed");
    assert_eq!(all[1].window, Some(7));
    assert_eq!(all[1].details, "from=Some(5)");
    assert_eq!(all[2].details, "from=None");
    assert_eq!(all[3].details, "frame=NodeId(2v1) from=0 to=12");
    assert_eq!(all[4].details, "\"client_destroyed\"");
    assert_eq!(all[4].window, Some(9));
    assert_eq!(all[5].event_type, "window_managed");
    assert_eq!(all[5].details, "frame=floating");
    assert_eq!(all[5].sequence, 6);
}
