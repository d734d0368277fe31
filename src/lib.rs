//! A small peer-to-peer messaging node: the wire codec, the reassembly of
//! delimiter-terminated frames from a byte stream, the per-connection pump
//! that decides what each read, write and queue event leads to, the periodic
//! telemetry generator, node configuration and the registry of outbound
//! connections.

mod codec;
mod config;
mod framing;
mod generator;
mod numeral;
mod pump;
mod registry;
mod text;

pub use codec::{
    decode, decoded, encode, frame_body, frame_of, is_end_field, key_text, lemma_round_trip,
    split, split_fields, valid_key, views, DecodeError, Message, DELIMITER, SEPARATOR,
};
pub use config::{config_outcome, parse_role, role_named, ConfigError, NodeConfig, Role};
pub use framing::{
    event_matches, frames_by_reads, frames_of, garbage_frame, intact, lemma_reads_any_cut, lemma_feed_split, lemma_malformed_then_valid,
    lemma_two_messages, overflows, pending_by_reads, pending_of, reads_overflow, FrameError, FrameReader, MAX_PAYLOAD,
};
pub use generator::{temperature_key, Generator, FIRST_VALUE, QUEUE_CAPACITY, SEND_PERIOD_SECS};
pub use numeral::{
    decimal_of_text, decimal_text, digits_of, digits_value, lemma_decimal_round_trip,
    parse_decimal, write_decimal, Decimal,
};
pub use pump::{CloseReason, Pump, PumpAction, PumpEvent};
pub use registry::ConnectionRegistry;
pub use text::same_text;
