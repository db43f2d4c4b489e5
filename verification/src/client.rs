//! What the browser client shares with the server: its error kinds, the
//! health check answer, reading compressed websocket messages, and the
//! recent trades it lists.
use vstd::prelude::*;
use vstd::utf8::{valid_utf8, decode_utf8};
use vstd::string::StringExecFns;
use crate::codec::{inflate, inflated, io_error_text};
use crate::parser::decode_bytes;
use crate::text::chars_to_string;
use crate::orderbook::ExecutedOrders;

verus! {

/// The server's answer to a health check.
#[derive(Clone, Debug)]
pub struct HealthCheckResponse {
    pub code: i32,
    pub status: String,
}

/// The errors the client reports, each with its message.
#[derive(Clone, Debug)]
pub enum AppError {
    WsConnectionError(String),
    UploadConnectionError(String),
    ServerUnhealthy(String),
    RateLimitExceeded(String),
    CompressionError(String),
    DecompressionError(String),
    WsChannelError(String),
    ReqwestError(String),
    SerializeError(String),
    DeserializeError(String),
    WasmError(String),
    AuthorizationError(String),
}

/// The text an error is shown with: its kind, a colon, and its message.
pub open spec fn error_text(e: AppError) -> Seq<char> {
    match e {
        AppError::WsConnectionError(m) => "Websocket connection error: "@ + m@,
        AppError::UploadConnectionError(m) => "Upload connection error: "@ + m@,
        AppError::ServerUnhealthy(m) => "Server unhealthy: "@ + m@,
        AppError::RateLimitExceeded(m) => "Rate limit exceeded: "@ + m@,
        AppError::CompressionError(m) => "Compression error: "@ + m@,
        AppError::DecompressionError(m) => "Decompression error: "@ + m@,
        AppError::WsChannelError(m) => "Websocket update channel error: "@ + m@,
        AppError::ReqwestError(m) => "Reqwest error: "@ + m@,
        AppError::SerializeError(m) => "Serialize error :"@ + m@,
        AppError::DeserializeError(m) => "Deserialize error:"@ + m@,
        AppError::WasmError(m) => "Wasm error: "@ + m@,
        AppError::AuthorizationError(m) => "Authorization error: "@ + m@,
    }
}

fn prefixed(prefix: &str, m: &String) -> (r: String)
    ensures
        r@ == prefix@ + m@,
{
    let mut r = prefix.to_owned();
    r.append(m.as_str());
    r
}

impl AppError {
    /// The text the error is shown with.
    pub fn to_text(&self) -> (r: String)
        ensures
            r@ == error_text(*self),
    {
        match self {
            AppError::WsConnectionError(m) => prefixed("Websocket connection error: ", m),
            AppError::UploadConnectionError(m) => prefixed("Upload connection error: ", m),
            AppError::ServerUnhealthy(m) => prefixed("Server unhealthy: ", m),
            AppError::RateLimitExceeded(m) => prefixed("Rate limit exceeded: ", m),
            AppError::CompressionError(m) => prefixed("Compression error: ", m),
            AppError::DecompressionError(m) => prefixed("Decompression error: ", m),
            AppError::WsChannelError(m) => prefixed("Websocket update channel error: ", m),
            AppError::ReqwestError(m) => prefixed("Reqwest error: ", m),
            AppError::SerializeError(m) => prefixed("Serialize error :", m),
            AppError::DeserializeError(m) => prefixed("Deserialize error:", m),
            AppError::WasmError(m) => prefixed("Wasm error: ", m),
            AppError::AuthorizationError(m) => prefixed("Authorization error: ", m),
        }
    }
}

/// Reads a compressed websocket message: raw deflate data that inflates to
/// UTF-8 text. Data that does not inflate, or inflates to bytes that are
/// not UTF-8, is a decompression error.
pub fn decompress_data(data: &[u8]) -> (r: Result<String, AppError>)
    ensures
        match inflated(data@) {
            Some(b) => if valid_utf8(b) {
                r matches Ok(s) && s@ == decode_utf8(b)
            } else {
                r matches Err(AppError::DecompressionError(_))
            },
            None => r matches Err(AppError::DecompressionError(_)),
        },
{
    match inflate(data) {
        Err(e) => Err(AppError::DecompressionError(io_error_text(&e))),
        Ok(bytes) => match decode_bytes(bytes.as_slice()) {
            Some(chars) => Ok(chars_to_string(chars.as_slice())),
            None => Err(AppError::DecompressionError("stream did not contain valid UTF-8".to_owned())),
        },
    }
}

/// How many of the latest trades the trades table lists.
pub const RECENT_TRADES: usize = 25;

/// Trims the received trades to the latest 25, in the order they came.
pub fn keep_recent_trades(trades: &mut Vec<ExecutedOrders>)
    ensures
        old(trades)@.len() <= RECENT_TRADES ==> final(trades)@ == old(trades)@,
        old(trades)@.len() > RECENT_TRADES ==> final(trades)@ == old(trades)@.subrange(
            old(trades)@.len() - RECENT_TRADES,
            old(trades)@.len() as int,
        ),
{
    let len = trades.len();
    if len <= RECENT_TRADES {
        return;
    }
    let from = len - RECENT_TRADES;
    let mut kept: Vec<ExecutedOrders> = Vec::new();
    let mut i = from;
    while i < len
        invariant
            from <= i <= len == trades@.len(),
            trades@ == old(trades)@,
            kept@ =~= trades@.subrange(from as int, i as int),
        decreases len - i,
    {
        kept.push(trades[i]);
        i = i + 1;
    }
    *trades = kept;
}

} // verus!
