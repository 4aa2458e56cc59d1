//! The event dispatcher: every inbound message feeds each analytics subsystem
//! independently and lands in the message log; lifecycle events update the
//! connection state and the last error.

use vstd::prelude::*;
use crate::device_tracker::DeviceTracker;
use crate::json::{json_of, parse_json};
use crate::latency_tracker::{LatencyTracker, payload_latency_at, arrival_effect, json_latency_effect};
use crate::message::MqttMessage;
use crate::message_buffer::{MessageBuffer, log_push};
use crate::metric_tracker::{MetricTracker, fed};
use crate::resilience::ConnectionState;
use crate::schema_tracker::{SchemaChange, SchemaTracker, processed};
use crate::stats::{Stats, record_effect};
use crate::topic_tree::{TopicTree, insert_effect};

verus! {

/// An event from the transport.
#[derive(Debug)]
pub enum MqttEvent {
    Message(MqttMessage),
    StateChange(ConnectionState),
    Error(String),
}

/// Samples kept per metric series and per latency buffer.
pub const SERIES_CAPACITY: usize = 100;

/// The analytics state fed by the event stream.
#[derive(Debug)]
pub struct Analytics {
    pub stats: Stats,
    pub topic_tree: TopicTree,
    pub message_buffer: MessageBuffer,
    pub metric_tracker: MetricTracker,
    pub device_tracker: DeviceTracker,
    pub latency_tracker: LatencyTracker,
    pub schema_tracker: SchemaTracker,
    pub connection_state: ConnectionState,
    pub last_error: Option<String>,
}

impl Analytics {
    pub open spec fn wf(&self) -> bool {
        &&& self.stats.wf()
        &&& self.topic_tree.wf()
        &&& self.message_buffer.wf()
        &&& self.metric_tracker.wf()
        &&& self.device_tracker.wf()
        &&& self.latency_tracker.wf()
        &&& self.schema_tracker.wf()
    }

    /// Empty analytics keeping `buffer_size` messages per topic and rates over
    /// `stats_window_secs` seconds, started at `now`; `None` for a buffer size
    /// of zero.
    pub fn new_at(buffer_size: usize, stats_window_secs: u64, now: i64) -> (r: Option<Self>)
        ensures
            r is None <==> buffer_size == 0,
            r matches Some(a) ==> a.wf() && a.connection_state == ConnectionState::Disconnected
                && a.last_error is None && a.message_buffer.max_per_topic == buffer_size
                && a.stats.window_secs == stats_window_secs,
    {
        let message_buffer = match MessageBuffer::new(buffer_size) {
            Some(b) => b,
            None => return None,
        };
        let metric_tracker = match MetricTracker::new(SERIES_CAPACITY) {
            Some(m) => m,
            None => return None,
        };
        let latency_tracker = match LatencyTracker::new(SERIES_CAPACITY) {
            Some(l) => l,
            None => return None,
        };
        Some(
            Analytics {
                stats: Stats::new_at(stats_window_secs, now),
                topic_tree: TopicTree::new(),
                message_buffer,
                metric_tracker,
                device_tracker: DeviceTracker::new(),
                latency_tracker,
                schema_tracker: SchemaTracker::new(),
                connection_state: ConnectionState::Disconnected,
                last_error: None,
            },
        )
    }

    /// Handles one event. A message, taken at its capture time, feeds the
    /// traffic statistics, the topic index, the metric series, the device
    /// classifier, the latency estimator and the schema detector, then joins
    /// its topic's log; the schema differences it shows are returned. A state
    /// change is recorded, and `Connected` clears the last error; an error is
    /// kept as the last error.
    pub fn handle_event(&mut self, event: MqttEvent) -> (r: Vec<SchemaChange>)
        requires
            old(self).wf(),
        ensures
            final(self).wf(),
            match event {
                MqttEvent::Message(m) => {
                    &&& record_effect(
                        old(self).stats,
                        final(self).stats,
                        m.timestamp,
                        m.payload@.len() as usize,
                    )
                    &&& crate::device_tracker::message_effect(
                        old(self).device_tracker,
                        final(self).device_tracker,
                        m.topic@,
                        m.payload@.len() as usize,
                        m.timestamp,
                    )
                    &&& crate::latency_tracker::message_effect(
                        old(self).latency_tracker,
                        final(self).latency_tracker,
                        m.payload@,
                        m.timestamp,
                    )
                    &&& match json_of(m.payload@) {
                        Some(j) => {
                            &&& fed(old(self).metric_tracker, final(self).metric_tracker, m.topic@, j, m.timestamp)
                            &&& processed(
                                old(self).schema_tracker,
                                final(self).schema_tracker,
                                m.topic@,
                                j,
                                m.timestamp,
                                r@,
                            )
                        },
                        None => {
                            &&& final(self).metric_tracker == old(self).metric_tracker
                            &&& final(self).schema_tracker == old(self).schema_tracker
                            &&& r@.len() == 0
                        },
                    }
                    &&& insert_effect(
                        old(self).topic_tree,
                        final(self).topic_tree,
                        m.topic@,
                        m.payload@.len() as u64,
                        m.timestamp,
                    )
                    &&& (old(self).message_buffer.total_stored < usize::MAX
                        ==> final(self).message_buffer.log_of(m.topic@) == log_push(
                        old(self).message_buffer.log_of(m.topic@),
                        m,
                        old(self).message_buffer.max_per_topic as nat,
                    ))
                    &&& final(self).connection_state == old(self).connection_state
                    &&& final(self).last_error == old(self).last_error
                },
                MqttEvent::StateChange(s) => {
                    &&& final(self).connection_state == s
                    &&& final(self).last_error == if s == ConnectionState::Connected {
                        None
                    } else {
                        old(self).last_error
                    }
                    &&& r@.len() == 0
                },
                MqttEvent::Error(e) => {
                    &&& final(self).last_error == Some(e)
                    &&& final(self).connection_state == old(self).connection_state
                    &&& r@.len() == 0
                },
            },
    {
        match event {
            MqttEvent::Message(msg) => {
                let now = msg.timestamp;
                let size = msg.payload.len();
                self.stats.record_message_at(now, size);
                self.topic_tree.insert_at(msg.topic.as_str(), size, now);
                self.device_tracker.process_message_at(msg.topic.as_str(), size, now);
                let ghost lat0 = self.latency_tracker;
                self.latency_tracker.record_arrival_at(now);
                let ghost mid = self.latency_tracker;
                let mut changes: Vec<SchemaChange> = Vec::new();
                match parse_json(msg.payload.as_slice()) {
                    Some(j) => {
                        self.metric_tracker.process_json(msg.topic.as_str(), &j, now);
                        if let Some(lat) = payload_latency_at(&j, now) {
                            self.latency_tracker.record_latency(lat);
                        }
                        assert(json_latency_effect(mid, self.latency_tracker, j, now));
                        changes = self.schema_tracker.process_json(msg.topic.as_str(), &j, now);
                    },
                    None => {},
                }
                assert(arrival_effect(lat0, mid, now));
                if self.message_buffer.total_stored < usize::MAX {
                    self.message_buffer.push(msg);
                }
                changes
            },
            MqttEvent::StateChange(s) => {
                self.connection_state = s;
                if s == ConnectionState::Connected {
                    self.last_error = None;
                }
                Vec::new()
            },
            MqttEvent::Error(e) => {
                self.last_error = Some(e);
                Vec::new()
            },
        }
    }
}

} // verus!
