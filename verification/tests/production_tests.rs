use aura_core_bridge::production_events::{EventCursor, EventHub, EVENT_API_VERSION};
use aura_core_bridge::production_timeline::{timecode_fields, TimecodeFields};

#[derive(Debug, Clone, PartialEq)]
enum ProductionEvent {
    TrackAdded { track_id: u32, name: String },
    TransportStarted,
}

#[test]
fn cursor_replay_is_ordered_and_resumable() {
    let mut hub = EventHub::new(8);
    hub.publish(1, ProductionEvent::TransportStarted);
    hub.publish(
        2,
        ProductionEvent::TrackAdded {
            track_id: 7,
            name: "Synth".into(),
        },
    );
    let first = hub.subscribe_from(EventCursor { after: 0 }, 1);
    assert_eq!(first.events.len(), 1);
    assert_eq!(first.next.after, 1);
    let second = hub.subscribe_from(first.next, 8);
    assert_eq!(second.events[0].sequence, 2);
    assert!(!second.missed);
}

#[test]
fn bounded_history_reports_snapshot_recovery_when_client_lags() {
    let mut hub = EventHub::new(2);
    for track_id in 1..=3 {
        hub.publish(
            1,
            ProductionEvent::TrackAdded {
                track_id,
                name: track_id.to_string(),
            },
        );
    }
    let batch = hub.subscribe_from(EventCursor { after: 0 }, 8);
    assert!(batch.missed);
    assert_eq!(batch.events[0].sequence, 2);
    assert_eq!(batch.current_sequence, 3);
}

#[test]
fn published_envelope_carries_version_sequence_and_event() {
    let mut hub: EventHub<u32> = EventHub::default();
    let e = hub.publish(42, 9);
    assert_eq!(e.api_version, EVENT_API_VERSION);
    assert_eq!(e.sequence, 1);
    assert_eq!(e.generation, 42);
    assert_eq!(e.event, 9);
    assert_eq!(hub.current_sequence(), 1);
}

#[test]
fn zero_limit_still_hands_out_one_event_and_cleared_hub_reports_missed() {
    let mut hub: EventHub<u32> = EventHub::new(0);
    hub.publish(1, 5);
    let b = hub.subscribe_from(EventCursor { after: 0 }, 0);
    assert_eq!(b.events.len(), 1);
    assert_eq!(b.next.after, 1);
    hub.clear();
    let c = hub.subscribe_from(EventCursor { after: 0 }, 4);
    assert!(c.events.is_empty());
    assert!(c.missed);
    assert_eq!(c.next.after, 0);
    let d = hub.subscribe_from(EventCursor { after: 1 }, 4);
    assert!(!d.missed);
}

#[test]
fn timecode_splits_whole_frames() {
    assert_eq!(
        timecode_fields(126, 24),
        Some(TimecodeFields { hours: 0, minutes: 0, seconds: 5, frames: 6 })
    );
    let whole = 2 * 3600 * 30 + 3 * 60 * 30 + 4 * 30 + 5;
    assert_eq!(
        timecode_fields(whole, 30),
        Some(TimecodeFields { hours: 2, minutes: 3, seconds: 4, frames: 5 })
    );
    assert_eq!(timecode_fields(10, 0), None);
}
