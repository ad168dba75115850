//! What the proxy answers: the decisions of the tile service on a cache
//! lookup and on an upstream response, and of the pass-through endpoints.
//!
//! The caller performs each step's outside work (reading the cache file,
//! fetching from upstream, writing the file) and hands the result back.

use vstd::prelude::*;
use crate::provider::{satellite_id, satellite_id_of};
use crate::query::{get_query_param, query_of, query_param, raw_param, raw_query_param};
use crate::upstream::{base_of, get_cdn_url, tile_url_of, date_of, opt_view, TileRequest};

verus! {

/// Status sent when the upstream host could not be reached.
pub const UPSTREAM_UNAVAILABLE: u16 = 502;

pub const OK: u16 = 200;

/// What came back from an upstream request: a response, whatever its
/// status, or a failure to get one (connection error, timeout, too many
/// redirects).
#[derive(Debug)]
pub enum Fetched {
    Response { status: u16, body: Vec<u8> },
    Failed,
}

/// Whether a response's status is a success (2xx).
pub open spec fn is_success(status: u16) -> bool {
    200 <= status <= 299
}

#[derive(Debug, Clone, Copy, PartialEq, Eq)]
pub enum ContentType {
    Png,
    Jpeg,
    Json,
}

/// The MIME type of a content type.
pub open spec fn mime_of(t: ContentType) -> Seq<char> {
    match t {
        ContentType::Png => "image/png"@,
        ContentType::Jpeg => "image/jpeg"@,
        ContentType::Json => "application/json"@,
    }
}

impl ContentType {
    /// The MIME type sent in the Content-Type header.
    pub fn mime(&self) -> (r: &'static str)
        ensures
            r@ == mime_of(*self),
    {
        match self {
            ContentType::Png => "image/png",
            ContentType::Jpeg => "image/jpeg",
            ContentType::Json => "application/json",
        }
    }
}

/// Whether a tile was served from the cache.
#[derive(Debug, Clone, Copy, PartialEq, Eq)]
pub enum CacheStatus {
    Hit,
    Miss,
}

impl CacheStatus {
    /// The value of the cache indicator header.
    pub fn header_value(&self) -> (r: &'static str)
        ensures
            r@ == (if *self == CacheStatus::Hit {
                "HIT"@
            } else {
                "MISS"@
            }),
    {
        match self {
            CacheStatus::Hit => "HIT",
            CacheStatus::Miss => "MISS",
        }
    }
}

#[derive(Debug)]
pub enum ReplyBody {
    Bytes(Vec<u8>),
    Text(String),
}

/// A response to send: status, body, and which headers go with it.
#[derive(Debug)]
pub struct Reply {
    pub status: u16,
    pub body: ReplyBody,
    pub content_type: Option<ContentType>,
    pub allow_any_origin: bool,
    pub cache: Option<CacheStatus>,
}

/// What to do after looking the tile up in the cache.
#[derive(Debug)]
pub enum TileStep {
    /// Serve this reply; nothing is fetched.
    Serve(Reply),
    /// Fetch the tile from this URL.
    Fetch(String),
}

/// The reply to an upstream tile response, and whether its bytes go into
/// the cache.
#[derive(Debug)]
pub struct TileOutcome {
    pub reply: Reply,
    pub store: bool,
}

/// The reply of a failed upstream request.
pub open spec fn unavailable(r: Reply, message: Seq<char>) -> bool {
    &&& r.status == UPSTREAM_UNAVAILABLE
    &&& r.body matches ReplyBody::Text(t) && t@ == message
    &&& r.content_type is None
    &&& !r.allow_any_origin
    &&& r.cache is None
}

fn failure(message: &str) -> (r: Reply)
    ensures
        unavailable(r, message@),
{
    Reply {
        status: UPSTREAM_UNAVAILABLE,
        body: ReplyBody::Text(message.to_owned()),
        content_type: None,
        allow_any_origin: false,
        cache: None,
    }
}

/// A cached tile is served as it is, marked as a hit; otherwise the tile is
/// fetched from its upstream URL.
pub fn on_cache_lookup(req: &TileRequest, cached: Option<Vec<u8>>) -> (r: TileStep)
    ensures
        match cached {
            Some(b) => r == TileStep::Serve(
                Reply {
                    status: OK,
                    body: ReplyBody::Bytes(b),
                    content_type: Some(ContentType::Png),
                    allow_any_origin: true,
                    cache: Some(CacheStatus::Hit),
                },
            ),
            None => r matches TileStep::Fetch(u) && u@ == tile_url_of(
                base_of(opt_view(req.cdn)),
                date_of(req.date@),
                satellite_id_of(req.sat@),
                req.timestamp@,
                req.served_zoom(),
                req.x,
                req.y,
            ),
        },
{
    match cached {
        Some(b) => TileStep::Serve(
            Reply {
                status: OK,
                body: ReplyBody::Bytes(b),
                content_type: Some(ContentType::Png),
                allow_any_origin: true,
                cache: Some(CacheStatus::Hit),
            },
        ),
        None => TileStep::Fetch(req.upstream_url()),
    }
}

/// A successful, non-empty upstream tile is stored and served as a miss.
/// Any other response is forwarded with its status and body and not
/// stored; a failed request gets the upstream-unavailable status.
pub fn on_tile_fetched(fetched: Fetched) -> (r: TileOutcome)
    ensures
        match fetched {
            Fetched::Response { status, body } => if is_success(status) && body@.len() > 0 {
                r == TileOutcome {
                    reply: Reply {
                        status: OK,
                        body: ReplyBody::Bytes(body),
                        content_type: Some(ContentType::Png),
                        allow_any_origin: true,
                        cache: Some(CacheStatus::Miss),
                    },
                    store: true,
                }
            } else {
                r == TileOutcome {
                    reply: Reply {
                        status,
                        body: ReplyBody::Bytes(body),
                        content_type: None,
                        allow_any_origin: false,
                        cache: None,
                    },
                    store: false,
                }
            },
            Fetched::Failed => unavailable(r.reply, "Failed"@) && !r.store,
        },
{
    match fetched {
        Fetched::Response { status, body } => {
            if 200 <= status && status <= 299 && body.len() > 0 {
                TileOutcome {
                    reply: Reply {
                        status: OK,
                        body: ReplyBody::Bytes(body),
                        content_type: Some(ContentType::Png),
                        allow_any_origin: true,
                        cache: Some(CacheStatus::Miss),
                    },
                    store: true,
                }
            } else {
                TileOutcome {
                    reply: Reply {
                        status,
                        body: ReplyBody::Bytes(body),
                        content_type: None,
                        allow_any_origin: false,
                        cache: None,
                    },
                    store: false,
                }
            }
        },
        Fetched::Failed => TileOutcome { reply: failure("Failed"), store: false },
    }
}

/// Satellite code a pass-through request names, "19" by default.
pub open spec fn sat_param(url: Seq<char>) -> Seq<char> {
    match query_param(url, "sat"@) {
        Some(v) => v,
        None => "19"@,
    }
}

/// URL of a satellite's JSON document `doc` on the slider service.
pub open spec fn json_url_of(url: Seq<char>, doc: Seq<char>) -> Seq<char> {
    base_of(query_param(url, "cdn"@)) + "/data/json/"@ + satellite_id_of(sat_param(url))
        + "/full_disk/geocolor/"@ + doc
}

fn json_url(url: &str, doc: &str) -> (r: String)
    ensures
        r@ == json_url_of(url@, doc@),
{
    let sat = match get_query_param(url, "sat") {
        Some(v) => v,
        None => "19".to_owned(),
    };
    let mut u = get_cdn_url(url);
    u.append("/data/json/");
    u.append(satellite_id(sat.as_str()));
    u.append("/full_disk/geocolor/");
    u.append(doc);
    u
}

/// Upstream URL of the latest capture times of the satellite that the
/// request target `url` names.
pub fn latest_times_url(url: &str) -> (r: String)
    ensures
        r@ == json_url_of(url@, "latest_times.json"@),
{
    json_url(url, "latest_times.json")
}

/// Upstream URL of the dates with imagery of the satellite that the
/// request target `url` names.
pub fn available_dates_url(url: &str) -> (r: String)
    ensures
        r@ == json_url_of(url@, "available_dates.json"@),
{
    json_url(url, "available_dates.json")
}

/// A JSON document is passed through with the upstream status and body; a
/// failed request gets the upstream-unavailable status.
pub fn json_reply(fetched: Fetched) -> (r: Reply)
    ensures
        match fetched {
            Fetched::Response { status, body } => r == Reply {
                status,
                body: ReplyBody::Bytes(body),
                content_type: Some(ContentType::Json),
                allow_any_origin: true,
                cache: None,
            },
            Fetched::Failed => unavailable(r, "Failed"@),
        },
{
    match fetched {
        Fetched::Response { status, body } => Reply {
            status,
            body: ReplyBody::Bytes(body),
            content_type: Some(ContentType::Json),
            allow_any_origin: true,
            cache: None,
        },
        Fetched::Failed => failure("Failed"),
    }
}

/// A raw (not percent-decoded) parameter of a request target, or `default`.
pub open spec fn raw_or(url: Seq<char>, name: Seq<char>, default: Seq<char>) -> Seq<char> {
    match query_of(url) {
        Some(q) => match raw_param(q, name) {
            Some(v) => v,
            None => default,
        },
        None => default,
    }
}

/// URL of a full-disk GOES image on the NOAA CDN: the capture named by the
/// raw `t` parameter, or the latest one when there is none.
pub open spec fn goes_url_of(url: Seq<char>) -> Seq<char> {
    let sat = raw_or(url, "sat"@, "18"@);
    let res = raw_or(url, "res"@, "5424x5424"@);
    let base = "https://cdn.star.nesdis.noaa.gov/GOES"@ + sat + "/ABI/FD/GEOCOLOR/"@;
    match query_of(url) {
        Some(q) => match raw_param(q, "t"@) {
            Some(ts) => base + ts + "_GOES"@ + sat + "-ABI-FD-GEOCOLOR-"@ + res + ".jpg"@,
            None => base + "latest.jpg"@,
        },
        None => base + "latest.jpg"@,
    }
}

fn raw_param_or(url: &str, name: &str, default: &str) -> (r: String)
    ensures
        r@ == raw_or(url@, name@, default@),
{
    match raw_query_param(url, name) {
        Some(v) => v,
        None => default.to_owned(),
    }
}

/// Upstream URL of the full-disk GOES image that the request target `url`
/// asks for.
pub fn goes_image_url(url: &str) -> (r: String)
    ensures
        r@ == goes_url_of(url@),
{
    let sat = raw_param_or(url, "sat", "18");
    let res = raw_param_or(url, "res", "5424x5424");
    let mut u = "https://cdn.star.nesdis.noaa.gov/GOES".to_owned();
    u.append(sat.as_str());
    u.append("/ABI/FD/GEOCOLOR/");
    match raw_query_param(url, "t") {
        Some(ts) => {
            u.append(ts.as_str());
            u.append("_GOES");
            u.append(sat.as_str());
            u.append("-ABI-FD-GEOCOLOR-");
            u.append(res.as_str());
            u.append(".jpg");
        },
        None => {
            u.append("latest.jpg");
        },
    }
    u
}

/// A GOES image is passed through with the upstream status and body, typed
/// as JPEG only when that status is a success; a failed request gets the
/// upstream-unavailable status.
pub fn goes_reply(fetched: Fetched) -> (r: Reply)
    ensures
        match fetched {
            Fetched::Response { status, body } => r == Reply {
                status,
                body: ReplyBody::Bytes(body),
                content_type: if is_success(status) {
                    Some(ContentType::Jpeg)
                } else {
                    None
                },
                allow_any_origin: false,
                cache: None,
            },
            Fetched::Failed => unavailable(r, "Failed to fetch GOES image"@),
        },
{
    match fetched {
        Fetched::Response { status, body } => Reply {
            status,
            body: ReplyBody::Bytes(body),
            content_type: if 200 <= status && status <= 299 {
                Some(ContentType::Jpeg)
            } else {
                None
            },
            allow_any_origin: false,
            cache: None,
        },
        Fetched::Failed => failure("Failed to fetch GOES image"),
    }
}

} // verus!
