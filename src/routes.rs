//! Dispatching request targets to handlers, and typing static files.

use vstd::prelude::*;
use crate::text::{ends_with, same_text, starts_with};

verus! {

/// Which handler serves a request target.
#[derive(Debug)]
pub enum Route {
    GoesProxy,
    SliderLatest,
    SliderDates,
    SliderTile,
    /// A file of the front-end bundle, by its relative path.
    Static(String),
}

/// The relative path of the static file a request target names: the index
/// page for the root (with or without a query), else the target without
/// its leading character.
pub open spec fn static_path_of(url: Seq<char>) -> Seq<char> {
    if url == "/"@ || "/?"@.is_prefix_of(url) {
        "index.html"@
    } else if url.len() == 0 {
        url
    } else {
        url.skip(1)
    }
}

/// The route of a request target, by the first matching path prefix;
/// anything else is a static file.
pub fn route(url: &str) -> (r: Route)
    ensures
        r is GoesProxy <==> "/goes-proxy"@.is_prefix_of(url@),
        r is SliderLatest <==> !"/goes-proxy"@.is_prefix_of(url@) && "/slider-latest"@.is_prefix_of(
            url@,
        ),
        r is SliderDates <==> !"/goes-proxy"@.is_prefix_of(url@) && !"/slider-latest"@.is_prefix_of(
            url@,
        ) && "/slider-dates"@.is_prefix_of(url@),
        r is SliderTile <==> !"/goes-proxy"@.is_prefix_of(url@) && !"/slider-latest"@.is_prefix_of(
            url@,
        ) && !"/slider-dates"@.is_prefix_of(url@) && "/slider-tile"@.is_prefix_of(url@),
        r matches Route::Static(p) ==> p@ == static_path_of(url@),
{
    if starts_with(url, "/goes-proxy") {
        Route::GoesProxy
    } else if starts_with(url, "/slider-latest") {
        Route::SliderLatest
    } else if starts_with(url, "/slider-dates") {
        Route::SliderDates
    } else if starts_with(url, "/slider-tile") {
        Route::SliderTile
    } else if same_text(url, "/") || starts_with(url, "/?") {
        Route::Static("index.html".to_owned())
    } else {
        let n = url.unicode_len();
        if n == 0 {
            Route::Static(String::new())
        } else {
            Route::Static(url.substring_char(1, n).to_owned())
        }
    }
}

/// MIME type of a static file, by its extension.
pub open spec fn static_type_of(path: Seq<char>) -> Seq<char> {
    if has_suffix(path, ".html"@) {
        "text/html"@
    } else if has_suffix(path, ".js"@) {
        "application/javascript"@
    } else if has_suffix(path, ".wasm"@) {
        "application/wasm"@
    } else {
        "text/plain"@
    }
}

pub open spec fn has_suffix(s: Seq<char>, suf: Seq<char>) -> bool {
    suf.len() <= s.len() && s.skip(s.len() - suf.len()) == suf
}

pub fn static_content_type(path: &str) -> (r: &'static str)
    ensures
        r@ == static_type_of(path@),
{
    if ends_with(path, ".html") {
        "text/html"
    } else if ends_with(path, ".js") {
        "application/javascript"
    } else if ends_with(path, ".wasm") {
        "application/wasm"
    } else {
        "text/plain"
    }
}

} // verus!
