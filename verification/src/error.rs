//! Application errors, their messages and their HTTP mapping.
use vstd::prelude::*;

verus! {

/// Application-level error type that maps to HTTP status codes.
#[derive(Debug)]
pub enum AppError {
    /// Request body was empty or missing.
    MissingBody,
    /// Request payload failed validation or deserialization.
    InvalidPayload {
        /// Human-readable description of the validation failure.
        detail: String,
        /// Optional machine-readable error detail, as JSON text.
        structured: Option<String>,
    },
    /// Attempted to register a device with a duplicate ID.
    DeviceAlreadyExists {
        /// The conflicting device identifier.
        device_id: String,
    },
    /// No device found for the given ID.
    DeviceNotFound {
        /// The requested device identifier.
        device_id: String,
    },
    /// Device exists but is not registered or not in active status.
    DeviceNotRegistered,
    /// Storage backend error.
    Store(String),
    /// Configuration/environment error.
    Config(String),
}

/// The `detail` of an error body: a JSON value given as JSON text, or a
/// plain message (served as a JSON string).
#[derive(Debug)]
pub enum ErrorDetail {
    /// Machine-readable detail, as JSON text.
    Json(String),
    /// Human-readable detail.
    Text(String),
}

/// JSON error body: `{"error": ..., "detail": ...}`.
#[derive(Debug)]
pub struct ErrorResponse {
    /// Short error title.
    pub error: String,
    /// Optional detail.
    pub detail: Option<ErrorDetail>,
}

/// The human-readable message of an error (its `Display` text).
pub open spec fn error_message(e: AppError) -> Seq<char> {
    match e {
        AppError::MissingBody => "missing request body"@,
        AppError::InvalidPayload { detail, .. } => "invalid payload: "@ + detail@,
        AppError::DeviceAlreadyExists { device_id } => "device already exists: "@ + device_id@,
        AppError::DeviceNotFound { device_id } => "device not found: "@ + device_id@,
        AppError::DeviceNotRegistered => "device not registered or inactive"@,
        AppError::Store(msg) => "store error: "@ + msg@,
        AppError::Config(msg) => "config error: "@ + msg@,
    }
}

/// The HTTP status an error is served with.
pub open spec fn error_status(e: AppError) -> u16 {
    match e {
        AppError::MissingBody => 400,
        AppError::InvalidPayload { .. } => 422,
        AppError::DeviceAlreadyExists { .. } => 409,
        AppError::DeviceNotFound { .. } => 404,
        AppError::DeviceNotRegistered => 403,
        AppError::Store(_) => 500,
        AppError::Config(_) => 500,
    }
}

/// The title in an error's JSON body.
pub open spec fn error_title(e: AppError) -> Seq<char> {
    match e {
        AppError::MissingBody => "Missing request body"@,
        AppError::InvalidPayload { .. } => "Invalid payload"@,
        AppError::DeviceAlreadyExists { .. } => "Device already exists"@,
        AppError::DeviceNotFound { .. } => "Device not found"@,
        AppError::DeviceNotRegistered => "Device not registered or inactive"@,
        AppError::Store(_) => "Internal server error"@,
        AppError::Config(_) => "Configuration error"@,
    }
}

fn joined(prefix: &str, rest: &str) -> (s: String)
    ensures
        s@ == prefix@ + rest@,
{
    let mut s = prefix.to_owned();
    s.append(rest);
    s
}

impl AppError {
    /// The error's message (what `Display` prints).
    pub fn message(&self) -> (m: String)
        ensures
            m@ == error_message(*self),
    {
        match self {
            AppError::MissingBody => "missing request body".to_owned(),
            AppError::InvalidPayload { detail, .. } => joined("invalid payload: ", detail.as_str()),
            AppError::DeviceAlreadyExists { device_id } => joined(
                "device already exists: ",
                device_id.as_str(),
            ),
            AppError::DeviceNotFound { device_id } => joined(
                "device not found: ",
                device_id.as_str(),
            ),
            AppError::DeviceNotRegistered => "device not registered or inactive".to_owned(),
            AppError::Store(msg) => joined("store error: ", msg.as_str()),
            AppError::Config(msg) => joined("config error: ", msg.as_str()),
        }
    }

    /// HTTP status code and JSON body of the error response. Only an
    /// invalid payload carries a detail: its structured detail when there is
    /// one, else its message.
    pub fn response_parts(&self) -> (r: (u16, ErrorResponse))
        ensures
            r.0 == error_status(*self),
            r.1.error@ == error_title(*self),
            match *self {
                AppError::InvalidPayload { detail, structured } => match structured {
                    Some(json) => r.1.detail matches Some(ErrorDetail::Json(j)) && j@ == json@,
                    None => r.1.detail matches Some(ErrorDetail::Text(t)) && t@ == detail@,
                },
                _ => r.1.detail is None,
            },
    {
        match self {
            AppError::MissingBody => (
                400,
                ErrorResponse { error: "Missing request body".to_owned(), detail: None },
            ),
            AppError::InvalidPayload { detail, structured } => {
                let d = match structured {
                    Some(json) => ErrorDetail::Json(json.clone()),
                    None => ErrorDetail::Text(detail.clone()),
                };
                (422, ErrorResponse { error: "Invalid payload".to_owned(), detail: Some(d) })
            },
            AppError::DeviceAlreadyExists { .. } => (
                409,
                ErrorResponse { error: "Device already exists".to_owned(), detail: None },
            ),
            AppError::DeviceNotFound { .. } => (
                404,
                ErrorResponse { error: "Device not found".to_owned(), detail: None },
            ),
            AppError::DeviceNotRegistered => (
                403,
                ErrorResponse {
                    error: "Device not registered or inactive".to_owned(),
                    detail: None,
                },
            ),
            AppError::Store(_) => (
                500,
                ErrorResponse { error: "Internal server error".to_owned(), detail: None },
            ),
            AppError::Config(_) => (
                500,
                ErrorResponse { error: "Configuration error".to_owned(), detail: None },
            ),
        }
    }
}

} // verus!
