//! Request bookkeeping shared by the server's routes: the errors handlers
//! answer with, where a request came from, the rate limits on orders and
//! the estimate of how many orders an upload holds.
use vstd::prelude::*;
use std::sync::Arc;
use crate::text::{decimal, decimal_text, signed_decimal, signed_decimal_text, push_all, chars_to_string};

verus! {

/// Where a request came from, and the credentials it carried.
#[derive(Clone, Debug)]
pub struct RequestContext {
    pub remote_ip: String,
    pub origin: String,
    pub user_agent: String,
    pub timestamp: String,
    pub signature: String,
}

/// The errors a route answers with, each with its message.
#[derive(Clone, Debug)]
pub enum AppError {
    RateLimitExceeded(String),
    DeserializeError(String),
    BadRequest(String),
    InternalError(String),
    Unauthorized(String),
}

/// The HTTP status an error is answered with.
pub open spec fn status_of(e: AppError) -> u16 {
    match e {
        AppError::RateLimitExceeded(_) => 429,
        AppError::DeserializeError(_) => 400,
        AppError::BadRequest(_) => 400,
        AppError::InternalError(_) => 500,
        AppError::Unauthorized(_) => 401,
    }
}

/// The message an error carries.
pub open spec fn message_of(e: AppError) -> Seq<char> {
    match e {
        AppError::RateLimitExceeded(m) => m@,
        AppError::DeserializeError(m) => m@,
        AppError::BadRequest(m) => m@,
        AppError::InternalError(m) => m@,
        AppError::Unauthorized(m) => m@,
    }
}

impl AppError {
    /// The HTTP status code the error is answered with.
    pub fn status_code(&self) -> (r: u16)
        ensures
            r == status_of(*self),
    {
        match self {
            AppError::RateLimitExceeded(_) => 429,
            AppError::DeserializeError(_) => 400,
            AppError::BadRequest(_) => 400,
            AppError::InternalError(_) => 500,
            AppError::Unauthorized(_) => 401,
        }
    }

    /// The message the error carries.
    pub fn message(&self) -> (r: String)
        ensures
            r@ == message_of(*self),
    {
        match self {
            AppError::RateLimitExceeded(m) => m.clone(),
            AppError::DeserializeError(m) => m.clone(),
            AppError::BadRequest(m) => m.clone(),
            AppError::InternalError(m) => m.clone(),
            AppError::Unauthorized(m) => m.clone(),
        }
    }
}

/// The errors of the upload channel.
#[derive(Clone, Debug)]
pub enum UploadError {
    DeserializeError(String),
    ChannelError(String),
    InvalidChunk,
    SessionNotFound,
}

/// The text an upload error is answered with.
pub open spec fn upload_error_text(e: UploadError) -> Seq<char> {
    match e {
        UploadError::DeserializeError(cause) => cause@,
        UploadError::ChannelError(cause) => cause@,
        UploadError::InvalidChunk => "Invalid chunk number"@,
        UploadError::SessionNotFound => "session not found for getting channels"@,
    }
}

impl UploadError {
    /// The text the error is answered with (always with status 500).
    pub fn message(&self) -> (r: String)
        ensures
            r@ == upload_error_text(*self),
    {
        match self {
            UploadError::DeserializeError(cause) => cause.clone(),
            UploadError::ChannelError(cause) => cause.clone(),
            UploadError::InvalidChunk => "Invalid chunk number".to_owned(),
            UploadError::SessionNotFound => "session not found for getting channels".to_owned(),
        }
    }
}

/// Orders per MiB of order file, for estimating uploads.
pub const ESTIMATED_ORDERS_PER_MB: u64 = 35_000;

/// Bytes in a MiB.
pub const BYTES_PER_MB: u64 = 1_048_576;

/// The estimated number of orders in an upload whose first chunk has
/// `chunk_len` bytes: the whole number of orders the chunk holds at
/// `ESTIMATED_ORDERS_PER_MB` orders per MiB, times the number of chunks.
pub open spec fn estimated_orders(chunk_len: nat, total_chunks: nat) -> nat {
    (((chunk_len * ESTIMATED_ORDERS_PER_MB) as int / BYTES_PER_MB as int) * total_chunks) as nat
}

/// Estimates how many orders an upload holds from its first chunk.
pub fn estimate_orders_from_1stchunk(chunk_data: &[u8], total_chunks: &usize) -> (r: usize)
    requires
        estimated_orders(chunk_data@.len(), *total_chunks as nat) <= usize::MAX,
    ensures
        r == estimated_orders(chunk_data@.len(), *total_chunks as nat),
{
    let len = chunk_data.len() as u128;
    let per_chunk: u128 = len * 35_000 / 1_048_576;
    let total = *total_chunks as u128;
    proof {
        assert(per_chunk * total <= usize::MAX);
        assert(per_chunk <= u64::MAX) by (nonlinear_arith)
            requires
                per_chunk == len * 35_000 / 1_048_576,
                len <= u64::MAX,
        ;
    }
    (per_chunk as usize) * *total_chunks
}

/// The number of whole hours in `secs` seconds, rounded toward zero.
pub open spec fn whole_hours(secs: int) -> int {
    if secs >= 0 {
        secs / 3600
    } else {
        -((-secs) / 3600)
    }
}

/// The message when the orders of one address would pass its limit.
pub open spec fn ip_limit_text(max: usize, window_secs: i64) -> Seq<char> {
    "IP address has exceeded the limit of "@ + decimal_text(max as nat) + " orders in a "@
        + signed_decimal_text(whole_hours(window_secs as int)) + " hour window"@
}

/// The message when the orders of all addresses would pass the limit.
pub open spec fn global_limit_text(max: usize, window_secs: i64) -> Seq<char> {
    "Application has exceeded the limit of "@ + decimal_text(max as nat) + " orders in a "@
        + signed_decimal_text(whole_hours(window_secs as int)) + " hour window"@
}

/// How many orders one address, and all addresses together, may place per
/// window of time.
#[derive(Clone, Copy, Debug)]
pub struct RateLimits {
    pub ip_max_orders: usize,
    pub ip_window_secs: i64,
    pub global_max_orders: usize,
    pub global_window_secs: i64,
}

fn hours_of(secs: i64) -> (r: i64)
    ensures
        r == whole_hours(secs as int),
{
    if secs >= 0 {
        secs / 3600
    } else {
        let m: u64 = (-(secs as i128)) as u64;
        -((m / 3600) as i64)
    }
}

fn limit_message(prefix: &[char], max: usize, window_secs: i64) -> (r: String)
    ensures
        r@ == prefix@ + decimal_text(max as nat) + " orders in a "@ + signed_decimal_text(
            whole_hours(window_secs as int),
        ) + " hour window"@,
{
    proof {
        reveal_strlit(" orders in a ");
        reveal_strlit(" hour window");
    }
    let mut m: Vec<char> = Vec::new();
    push_all(&mut m, prefix);
    push_all(&mut m, decimal(max as u128).as_slice());
    push_all(&mut m, &[' ', 'o', 'r', 'd', 'e', 'r', 's', ' ', 'i', 'n', ' ', 'a', ' ']);
    push_all(&mut m, signed_decimal(hours_of(window_secs)).as_slice());
    push_all(&mut m, &[' ', 'h', 'o', 'u', 'r', ' ', 'w', 'i', 'n', 'd', 'o', 'w']);
    let r = chars_to_string(m.as_slice());
    proof {
        assert(r@ =~= prefix@ + decimal_text(max as nat) + " orders in a "@ + signed_decimal_text(
            whole_hours(window_secs as int),
        ) + " hour window"@);
    }
    r
}

impl RateLimits {
    /// Whether an address that placed `ip_count` orders in the current
    /// window may place `orders` more.
    pub fn check_ip(&self, ip_count: usize, orders: usize) -> (r: Result<(), AppError>)
        ensures
            r is Ok <==> ip_count + orders <= self.ip_max_orders,
            r matches Err(e) ==> e matches AppError::RateLimitExceeded(m) && m@ == ip_limit_text(
                self.ip_max_orders,
                self.ip_window_secs,
            ),
    {
        if ip_count > self.ip_max_orders || orders > self.ip_max_orders - ip_count {
            proof {
                reveal_strlit("IP address has exceeded the limit of ");
            }
            let prefix = ['I', 'P', ' ', 'a', 'd', 'd', 'r', 'e', 's', 's', ' ', 'h', 'a', 's', ' ', 'e', 'x', 'c', 'e', 'e', 'd', 'e', 'd', ' ', 't', 'h', 'e', ' ', 'l', 'i', 'm', 'i', 't', ' ', 'o', 'f', ' '];
            let m = limit_message(&prefix, self.ip_max_orders, self.ip_window_secs);
            proof {
                assert(prefix@ =~= "IP address has exceeded the limit of "@);
            }
            Err(AppError::RateLimitExceeded(m))
        } else {
            Ok(())
        }
    }

    /// Whether all addresses, having placed `global_count` orders in the
    /// current window, may place `orders` more.
    pub fn check_global(&self, global_count: usize, orders: usize) -> (r: Result<(), AppError>)
        ensures
            r is Ok <==> global_count + orders <= self.global_max_orders,
            r matches Err(e) ==> e matches AppError::RateLimitExceeded(m) && m@ == global_limit_text(
                self.global_max_orders,
                self.global_window_secs,
            ),
    {
        if global_count > self.global_max_orders || orders > self.global_max_orders - global_count {
            proof {
                reveal_strlit("Application has exceeded the limit of ");
            }
            let prefix = ['A', 'p', 'p', 'l', 'i', 'c', 'a', 't', 'i', 'o', 'n', ' ', 'h', 'a', 's', ' ', 'e', 'x', 'c', 'e', 'e', 'd', 'e', 'd', ' ', 't', 'h', 'e', ' ', 'l', 'i', 'm', 'i', 't', ' ', 'o', 'f', ' '];
            let m = limit_message(&prefix, self.global_max_orders, self.global_window_secs);
            proof {
                assert(prefix@ =~= "Application has exceeded the limit of "@);
            }
            Err(AppError::RateLimitExceeded(m))
        } else {
            Ok(())
        }
    }

    /// Whether a new counter of `orders` orders was just created (its value
    /// after the increment equals the increment), so that its expiry must
    /// be set.
    pub fn starts_window(incremented: usize, orders: usize) -> (r: bool)
        ensures
            r == (incremented == orders),
    {
        incremented == orders
    }
}

#[verifier::external_type_specification]
#[verifier::external_body]
pub struct ExRedisClient(redis::Client);

#[verifier::external_type_specification]
#[verifier::external_body]
pub struct ExRedisError(redis::RedisError);

/// Whether a text is a connection URL that `redis::Client::open` accepts.
pub uninterp spec fn redis_url_accepted(url: Seq<char>) -> bool;

/// Calls `redis::Client::open`, which parses the connection URL and opens
/// no connection.
#[verifier::external_body]
fn open_redis(url: &str) -> (r: Result<redis::Client, redis::RedisError>)
    ensures
        r is Ok <==> redis_url_accepted(url@),
{
    redis::Client::open(url)
}

/// The message of a Redis error (its `Display` text). Nothing is promised
/// of the text.
#[verifier::external_body]
fn redis_error_text(e: &redis::RedisError) -> String {
    e.to_string()
}

/// The rate limiter: a Redis client, which the server uses to count orders,
/// and the limits the counts are held to.
pub struct RateLimiter {
    redis: Arc<redis::Client>,
    limits: RateLimits,
}

impl RateLimiter {
    /// The limits the counts are held to.
    pub closed spec fn configured(&self) -> RateLimits {
        self.limits
    }

    /// The Redis client the limiter was made with.
    pub closed spec fn redis_client(&self) -> Arc<redis::Client> {
        self.redis
    }

    /// A limiter on the Redis server at `redis_url` with the given limits;
    /// fails when the URL is not one Redis accepts.
    pub fn new(
        redis_url: &str,
        ip_max_orders: usize,
        ip_window_secs: i64,
        global_max_orders: usize,
        global_window_secs: i64,
    ) -> (r: Result<Self, AppError>)
        ensures
            r is Ok <==> redis_url_accepted(redis_url@),
            r matches Ok(l) ==> (l.configured() == (RateLimits {
                ip_max_orders,
                ip_window_secs,
                global_max_orders,
                global_window_secs,
            })),
            r matches Err(e) ==> (e is InternalError),
    {
        match open_redis(redis_url) {
            Ok(client) => Ok(RateLimiter {
                redis: Arc::new(client),
                limits: RateLimits { ip_max_orders, ip_window_secs, global_max_orders, global_window_secs },
            }),
            Err(e) => {
                let mut m = "Redis connection error: ".to_owned();
                let t = redis_error_text(&e);
                m.append(t.as_str());
                Err(AppError::InternalError(m))
            },
        }
    }

    /// The Redis client the counts are kept with.
    pub fn client(&self) -> (r: &Arc<redis::Client>)
        ensures
            *r == self.redis_client(),
    {
        &self.redis
    }

    /// The limits the counts are held to.
    pub fn limits(&self) -> (r: RateLimits)
        ensures
            r == self.configured(),
    {
        self.limits
    }
}

} // verus!
