//! The plain configuration records the engine's surroundings are built
//! from. Reading them from the environment, and everything they configure
//! — broker, logging, listening — lives outside the library.

use vstd::prelude::*;

verus! {

/// Where the message bus lives.
#[derive(Debug, Clone)]
pub struct KafkaAdminProperties {
    /// The broker address, host and port.
    pub kafka_broker_address: String,
}

/// The producer's knobs, kept as the textual values handed to the bus
/// client.
#[derive(Debug, Clone)]
pub struct KafkaProducerProperties {
    /// Per-record delivery timeout in milliseconds.
    pub message_timeout: String,
    /// The acknowledgement level.
    pub acks: String,
}

/// Whether logs also go to a rolling file.
#[derive(Debug, Clone)]
pub struct LogProperties {
    /// Write a daily log file besides the console when set.
    pub enable_file_log: bool,
}

/// The bus configuration as one record.
#[derive(Debug, Clone)]
pub struct KafkaConfiguration {
    /// Where the bus lives.
    pub kafka_admin_properties: KafkaAdminProperties,
    /// The producer's knobs.
    pub kafka_producer_properties: KafkaProducerProperties,
}

} // verus!
