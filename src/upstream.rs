//! Turning requests into upstream URLs.

use vstd::prelude::*;
use crate::key::{cache_key, key_of};
use crate::number::{all_digits, is_digit, parse_u32, parsed_u32};
use crate::provider::{max_zoom_of, satellite_id, satellite_id_of, satellite_max_zoom};
use crate::query::{get_query_param, query_param};
use crate::text::{push_padded, zero_padded};

verus! {

/// Base URL of the imagery slider service, used when a request names no
/// other.
pub const SLIDER_BASE_URL: &'static str = "https://rammb-slider.cira.colostate.edu";

/// Date used when a request's date token is missing or malformed.
pub const DEFAULT_YEAR: u32 = 2024;

pub const DEFAULT_MONTH: u32 = 1;

pub const DEFAULT_DAY: u32 = 1;

/// Value of the decimal digit at position `i` of `t`.
pub open spec fn digit_at(t: Seq<char>, i: int) -> int {
    t[i] as int - 48
}

/// Year, month and day of a `YYYYMMDD` token of exactly eight decimal
/// digits; any other token gives the default date.
pub open spec fn date_of(token: Seq<char>) -> (u32, u32, u32) {
    if token.len() == 8 && all_digits(token) {
        (
            (1000 * digit_at(token, 0) + 100 * digit_at(token, 1) + 10 * digit_at(token, 2)
                + digit_at(token, 3)) as u32,
            (10 * digit_at(token, 4) + digit_at(token, 5)) as u32,
            (10 * digit_at(token, 6) + digit_at(token, 7)) as u32,
        )
    } else {
        (DEFAULT_YEAR, DEFAULT_MONTH, DEFAULT_DAY)
    }
}

/// A requested zoom, lowered to the satellite's ceiling.
pub open spec fn clamped_zoom(sat: Seq<char>, zoom: u32) -> u32 {
    if zoom <= max_zoom_of(sat) {
        zoom
    } else {
        max_zoom_of(sat)
    }
}

/// The upstream URL of one tile.
pub open spec fn tile_url_of(
    base: Seq<char>,
    date: (u32, u32, u32),
    sat_id: Seq<char>,
    timestamp: Seq<char>,
    zoom: u32,
    x: u32,
    y: u32,
) -> Seq<char> {
    base + "/data/imagery/"@ + zero_padded(date.0 as nat, 4) + "/"@ + zero_padded(date.1 as nat, 2)
        + "/"@ + zero_padded(date.2 as nat, 2) + "/"@ + sat_id + "---full_disk/geocolor/"@
        + timestamp + "/"@ + zero_padded(zoom as nat, 2) + "/"@ + zero_padded(x as nat, 3) + "_"@
        + zero_padded(y as nat, 3) + ".png"@
}

/// The base URL a request asked for, or the slider service's.
pub open spec fn base_of(cdn: Option<Seq<char>>) -> Seq<char> {
    match cdn {
        Some(c) => c,
        None => SLIDER_BASE_URL@,
    }
}

fn digit_value(t: &str, i: usize) -> (r: u32)
    requires
        i < t@.len(),
        is_digit(t@[i as int]),
    ensures
        r == digit_at(t@, i as int),
        r <= 9,
{
    (t.get_char(i) as u32) - 48
}

/// Parses a date token, falling back to the default date.
pub fn parse_date(token: &str) -> (r: (u32, u32, u32))
    ensures
        r == date_of(token@),
{
    if token.unicode_len() != 8 {
        return (DEFAULT_YEAR, DEFAULT_MONTH, DEFAULT_DAY);
    }
    let mut i: usize = 0;
    while i < 8
        invariant
            token@.len() == 8,
            i <= 8,
            forall|j: int| 0 <= j < i ==> is_digit(#[trigger] token@[j]),
        decreases 8 - i,
    {
        let c = token.get_char(i);
        if !('0' <= c && c <= '9') {
            assert(!is_digit(token@[i as int]));
            return (DEFAULT_YEAR, DEFAULT_MONTH, DEFAULT_DAY);
        }
        i = i + 1;
    }
    assert(all_digits(token@));
    let year = digit_value(token, 0) * 1000 + digit_value(token, 1) * 100 + digit_value(token, 2) * 10
        + digit_value(token, 3);
    let month = digit_value(token, 4) * 10 + digit_value(token, 5);
    let day = digit_value(token, 6) * 10 + digit_value(token, 7);
    (year, month, day)
}

/// The base URL that the request target `url` names in its `cdn`
/// parameter, or the slider service's.
pub fn get_cdn_url(url: &str) -> (r: String)
    ensures
        r@ == base_of(query_param(url@, "cdn"@)),
{
    match get_query_param(url, "cdn") {
        Some(c) => c,
        None => SLIDER_BASE_URL.to_owned(),
    }
}

/// A tile request: satellite code, time and date tokens, zoom, tile
/// coordinates, and the upstream base URL it asks for, if any.
#[derive(Debug)]
pub struct TileRequest {
    pub sat: String,
    pub timestamp: String,
    pub date: String,
    pub zoom: u32,
    pub x: u32,
    pub y: u32,
    pub cdn: Option<String>,
}

pub open spec fn opt_view(o: Option<String>) -> Option<Seq<char>> {
    match o {
        Some(s) => Some(s@),
        None => None,
    }
}

impl TileRequest {
    /// The zoom this request is served at.
    pub open spec fn served_zoom(&self) -> u32 {
        clamped_zoom(self.sat@, self.zoom)
    }

    /// Builds a request; the zoom is lowered to the satellite's ceiling.
    pub fn new(
        sat: String,
        timestamp: String,
        date: String,
        zoom: u32,
        x: u32,
        y: u32,
        cdn: Option<String>,
    ) -> (r: TileRequest)
        ensures
            r.sat@ == sat@,
            r.timestamp@ == timestamp@,
            r.date@ == date@,
            r.zoom == clamped_zoom(sat@, zoom),
            r.zoom <= max_zoom_of(sat@),
            r.x == x,
            r.y == y,
            opt_view(r.cdn) == opt_view(cdn),
    {
        let max = satellite_max_zoom(sat.as_str());
        let zoom = if zoom <= max {
            zoom
        } else {
            max
        };
        TileRequest { sat, timestamp, date, zoom, x, y, cdn }
    }

    /// Reads a tile request from the query of a request target: `sat`
    /// (default "19"), `t` (default "0"), `d` (default empty), `z` (default
    /// 4), `x` and `y` (default 0), `cdn` (none by default). A number that
    /// does not parse takes its default.
    pub fn from_url(url: &str) -> (r: TileRequest)
        ensures
            r.sat@ == (match query_param(url@, "sat"@) {
                Some(v) => v,
                None => "19"@,
            }),
            r.timestamp@ == (match query_param(url@, "t"@) {
                Some(v) => v,
                None => "0"@,
            }),
            r.date@ == (match query_param(url@, "d"@) {
                Some(v) => v,
                None => Seq::<char>::empty(),
            }),
            r.zoom == clamped_zoom(r.sat@, number_param(query_param(url@, "z"@), 4)),
            r.x == number_param(query_param(url@, "x"@), 0),
            r.y == number_param(query_param(url@, "y"@), 0),
            opt_view(r.cdn) == query_param(url@, "cdn"@),
    {
        let sat = match get_query_param(url, "sat") {
            Some(v) => v,
            None => "19".to_owned(),
        };
        let timestamp = match get_query_param(url, "t") {
            Some(v) => v,
            None => "0".to_owned(),
        };
        let date = match get_query_param(url, "d") {
            Some(v) => v,
            None => String::new(),
        };
        let x = number_or(get_query_param(url, "x"), 0);
        let y = number_or(get_query_param(url, "y"), 0);
        let zoom = number_or(get_query_param(url, "z"), 4);
        let cdn = get_query_param(url, "cdn");
        TileRequest::new(sat, timestamp, date, zoom, x, y, cdn)
    }

    /// The cache key of this request, at the zoom it is served at.
    pub fn key(&self) -> (r: String)
        ensures
            r@ == key_of(self.sat@, self.timestamp@, self.served_zoom(), self.x, self.y),
    {
        cache_key(self.sat.as_str(), self.timestamp.as_str(), self.served_zoom_exec(), self.x, self.y)
    }

    fn served_zoom_exec(&self) -> (r: u32)
        ensures
            r == self.served_zoom(),
    {
        let max = satellite_max_zoom(self.sat.as_str());
        if self.zoom <= max {
            self.zoom
        } else {
            max
        }
    }

    /// The upstream URL of the tile: the provider's path template under the
    /// requested base, or under the slider service's. The zoom never exceeds
    /// the satellite's ceiling.
    pub fn upstream_url(&self) -> (r: String)
        ensures
            r@ == tile_url_of(
                base_of(opt_view(self.cdn)),
                date_of(self.date@),
                satellite_id_of(self.sat@),
                self.timestamp@,
                self.served_zoom(),
                self.x,
                self.y,
            ),
            self.served_zoom() <= max_zoom_of(self.sat@),
            self.served_zoom() <= self.zoom,
    {
        let mut u = match &self.cdn {
            Some(c) => c.clone(),
            None => SLIDER_BASE_URL.to_owned(),
        };
        let (year, month, day) = parse_date(self.date.as_str());
        u.append("/data/imagery/");
        push_padded(&mut u, year as u64, 4);
        u.append("/");
        push_padded(&mut u, month as u64, 2);
        u.append("/");
        push_padded(&mut u, day as u64, 2);
        u.append("/");
        u.append(satellite_id(self.sat.as_str()));
        u.append("---full_disk/geocolor/");
        u.append(self.timestamp.as_str());
        u.append("/");
        push_padded(&mut u, self.served_zoom_exec() as u64, 2);
        u.append("/");
        push_padded(&mut u, self.x as u64, 3);
        u.append("_");
        push_padded(&mut u, self.y as u64, 3);
        u.append(".png");
        u
    }
}

/// A numeric parameter's value, or `default` when it is absent or does not
/// parse.
pub open spec fn number_param(v: Option<Seq<char>>, default: u32) -> u32 {
    match v {
        Some(s) => match parsed_u32(s) {
            Some(n) => n,
            None => default,
        },
        None => default,
    }
}

fn number_or(v: Option<String>, default: u32) -> (r: u32)
    ensures
        r == number_param(opt_view(v), default),
{
    match v {
        Some(s) => match parse_u32(s.as_str()) {
            Some(n) => n,
            None => default,
        },
        None => default,
    }
}

} // verus!
