//! Storage: the typed failure channel of the backends, and the DynamoDB
//! item mapping.

/// DynamoDB item mapping for device and uplink records.
pub mod dynamo;

use vstd::prelude::*;

verus! {

/// Typed failure channel for storage backends. Not-found and conflict are
/// already first-class `AppError` variants; this classifies everything
/// else so callers can branch (and log/alert) without string matching.
#[derive(Debug, PartialEq, Eq)]
pub enum StoreError {
    /// Backend engine or I/O failure (SQLite error, DynamoDB service error).
    Io {
        /// Operation that failed, e.g. `"get_device query"`.
        op: &'static str,
        /// Backend-reported detail.
        detail: String,
    },
    /// Payload (de)serialization failure.
    Serde {
        /// Operation that failed.
        op: &'static str,
        /// Serializer-reported detail.
        detail: String,
    },
    /// A shared lock was poisoned by a panicking writer.
    Poisoned,
}

/// The message of a store error (its `Display` text).
pub open spec fn store_error_message(e: StoreError) -> Seq<char> {
    match e {
        StoreError::Io { op, detail } => op@ + ": "@ + detail@,
        StoreError::Serde { op, detail } => op@ + " (serde): "@ + detail@,
        StoreError::Poisoned => "store lock poisoned"@,
    }
}

impl StoreError {
    /// Backend I/O failure during `op`, with the backend's message.
    pub fn io(op: &'static str, detail: &str) -> (e: Self)
        ensures
            e matches StoreError::Io { op: o, detail: d } && o == op && d@ == detail@,
    {
        StoreError::Io { op, detail: detail.to_owned() }
    }

    /// Serialization failure during `op`, with the serializer's message.
    pub fn serde(op: &'static str, detail: &str) -> (e: Self)
        ensures
            e matches StoreError::Serde { op: o, detail: d } && o == op && d@ == detail@,
    {
        StoreError::Serde { op, detail: detail.to_owned() }
    }

    /// The error's message (what `Display` prints).
    pub fn message(&self) -> (m: String)
        ensures
            m@ == store_error_message(*self),
    {
        match self {
            StoreError::Io { op, detail } => {
                let mut m = (*op).to_owned();
                m.append(": ");
                m.append(detail.as_str());
                m
            },
            StoreError::Serde { op, detail } => {
                let mut m = (*op).to_owned();
                m.append(" (serde): ");
                m.append(detail.as_str());
                m
            },
            StoreError::Poisoned => "store lock poisoned".to_owned(),
        }
    }
}

} // verus!
