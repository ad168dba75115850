use peepsat::cache::CacheIndex;
use peepsat::routes::{route, static_content_type, Route};
use peepsat::service::{
    available_dates_url, goes_image_url, goes_reply, json_reply, latest_times_url, on_cache_lookup,
    on_tile_fetched, CacheStatus, ContentType, Fetched, ReplyBody, TileStep,
};
use peepsat::upstream::TileRequest;

#[test]
fn tile_miss_then_hit() {
    let mut index = CacheIndex::new(1 << 20);
    let req = TileRequest::from_url("/slider-tile?sat=19&t=20240615153000&x=7&y=8&z=4&d=20240615");
    let key = req.key();
    assert_eq!(index.lookup(&key), None);
    let url = match on_cache_lookup(&req, None) {
        TileStep::Fetch(u) => u,
        TileStep::Serve(_) => panic!("nothing is cached yet"),
    };
    assert_eq!(
        url,
        "https://rammb-slider.cira.colostate.edu/data/imagery/2024/06/15/goes-19---full_disk/geocolor/20240615153000/04/007_008.png"
    );
    let bytes = vec![0x89u8, b'P', b'N', b'G', 1, 2, 3];
    let out = on_tile_fetched(Fetched::Response { status: 200, body: bytes.clone() });
    assert!(out.store);
    assert_eq!(out.reply.status, 200);
    assert_eq!(out.reply.cache, Some(CacheStatus::Miss));
    assert_eq!(out.reply.content_type, Some(ContentType::Png));
    assert!(out.reply.allow_any_origin);
    match &out.reply.body {
        ReplyBody::Bytes(b) => assert_eq!(b, &bytes),
        ReplyBody::Text(_) => panic!("tile bytes expected"),
    }
    let r = index.put(key.clone(), bytes.len() as u64, 10, &|_: &str| true);
    assert!(r.removed.is_empty());
    assert_eq!(index.lookup(&key).map(|e| e.size), Some(bytes.len() as u64));
    // the second identical request is served from the cache
    let again = TileRequest::from_url("/slider-tile?sat=19&t=20240615153000&x=7&y=8&z=4&d=20240615");
    assert_eq!(again.key(), key);
    assert!(index.touch(&key, 11));
    match on_cache_lookup(&again, Some(bytes.clone())) {
        TileStep::Serve(reply) => {
            assert_eq!(reply.status, 200);
            assert_eq!(reply.cache, Some(CacheStatus::Hit));
            assert_eq!(reply.cache.unwrap().header_value(), "HIT");
            match reply.body {
                ReplyBody::Bytes(b) => assert_eq!(b, bytes),
                ReplyBody::Text(_) => panic!("tile bytes expected"),
            }
        }
        TileStep::Fetch(_) => panic!("a cached tile is not fetched"),
    }
}

#[test]
fn non_success_is_forwarded_uncached() {
    let out = on_tile_fetched(Fetched::Response { status: 404, body: b"not here".to_vec() });
    assert!(!out.store);
    assert_eq!(out.reply.status, 404);
    assert_eq!(out.reply.cache, None);
    assert_eq!(out.reply.content_type, None);
    assert!(!out.reply.allow_any_origin);
    match out.reply.body {
        ReplyBody::Bytes(b) => assert_eq!(b, b"not here".to_vec()),
        ReplyBody::Text(_) => panic!("body is forwarded"),
    }
}

#[test]
fn empty_success_is_forwarded_uncached() {
    let out = on_tile_fetched(Fetched::Response { status: 204, body: Vec::new() });
    assert!(!out.store);
    assert_eq!(out.reply.status, 204);
}

#[test]
fn other_success_status_is_served_as_ok() {
    let out = on_tile_fetched(Fetched::Response { status: 203, body: vec![1] });
    assert!(out.store);
    assert_eq!(out.reply.status, 200);
}

#[test]
fn failed_fetch_is_unavailable() {
    let out = on_tile_fetched(Fetched::Failed);
    assert!(!out.store);
    assert_eq!(out.reply.status, 502);
    match out.reply.body {
        ReplyBody::Text(t) => assert_eq!(t, "Failed"),
        ReplyBody::Bytes(_) => panic!("message expected"),
    }
}

#[test]
fn json_endpoints() {
    assert_eq!(
        latest_times_url("/slider-latest?sat=18"),
        "https://rammb-slider.cira.colostate.edu/data/json/goes-18/full_disk/geocolor/latest_times.json"
    );
    assert_eq!(
        available_dates_url("/slider-dates?cdn=http%3A%2F%2Fh"),
        "http://h/data/json/goes-19/full_disk/geocolor/available_dates.json"
    );
    let r = json_reply(Fetched::Response { status: 500, body: b"{}".to_vec() });
    assert_eq!(r.status, 500);
    assert_eq!(r.content_type, Some(ContentType::Json));
    assert_eq!(r.content_type.unwrap().mime(), "application/json");
    assert!(r.allow_any_origin);
    let f = json_reply(Fetched::Failed);
    assert_eq!(f.status, 502);
}

#[test]
fn goes_urls() {
    assert_eq!(
        goes_image_url("/goes-proxy?t=20243001200&sat=16&res=1808x1808"),
        "https://cdn.star.nesdis.noaa.gov/GOES16/ABI/FD/GEOCOLOR/20243001200_GOES16-ABI-FD-GEOCOLOR-1808x1808.jpg"
    );
    assert_eq!(
        goes_image_url("/goes-proxy?t=20243001200"),
        "https://cdn.star.nesdis.noaa.gov/GOES18/ABI/FD/GEOCOLOR/20243001200_GOES18-ABI-FD-GEOCOLOR-5424x5424.jpg"
    );
    assert_eq!(goes_image_url("/goes-proxy"), "https://cdn.star.nesdis.noaa.gov/GOES18/ABI/FD/GEOCOLOR/latest.jpg");
    assert_eq!(goes_image_url("/goes-proxy?sat=19"), "https://cdn.star.nesdis.noaa.gov/GOES19/ABI/FD/GEOCOLOR/latest.jpg");
}

#[test]
fn goes_replies() {
    let ok = goes_reply(Fetched::Response { status: 200, body: vec![1, 2] });
    assert_eq!(ok.status, 200);
    assert_eq!(ok.content_type, Some(ContentType::Jpeg));
    let missing = goes_reply(Fetched::Response { status: 404, body: vec![] });
    assert_eq!(missing.status, 404);
    assert_eq!(missing.content_type, None);
    let failed = goes_reply(Fetched::Failed);
    assert_eq!(failed.status, 502);
    match failed.body {
        ReplyBody::Text(t) => assert_eq!(t, "Failed to fetch GOES image"),
        ReplyBody::Bytes(_) => panic!("message expected"),
    }
}

#[test]
fn routing() {
    assert!(matches!(route("/goes-proxy?t=1"), Route::GoesProxy));
    assert!(matches!(route("/slider-latest?sat=19"), Route::SliderLatest));
    assert!(matches!(route("/slider-dates"), Route::SliderDates));
    assert!(matches!(route("/slider-tile?x=1"), Route::SliderTile));
    assert!(matches!(route("/"), Route::Static(p) if p == "index.html"));
    assert!(matches!(route("/?debug=1"), Route::Static(p) if p == "index.html"));
    assert!(matches!(route("/pkg/app.js"), Route::Static(p) if p == "pkg/app.js"));
}

#[test]
fn static_types() {
    assert_eq!(static_content_type("index.html"), "text/html");
    assert_eq!(static_content_type("pkg/app.js"), "application/javascript");
    assert_eq!(static_content_type("pkg/app_bg.wasm"), "application/wasm");
    assert_eq!(static_content_type("readme"), "text/plain");
}

#[test]
fn header_values() {
    assert_eq!(CacheStatus::Hit.header_value(), "HIT");
    assert_eq!(CacheStatus::Miss.header_value(), "MISS");
    assert_eq!(ContentType::Png.mime(), "image/png");
    assert_eq!(ContentType::Jpeg.mime(), "image/jpeg");
}
