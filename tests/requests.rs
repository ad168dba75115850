use peepsat::key::{cache_key, cache_path};
use peepsat::number::parse_u32;
use peepsat::provider::{satellite_id, satellite_max_zoom};
use peepsat::query::{get_query_param, raw_query_param};
use peepsat::upstream::{get_cdn_url, parse_date, TileRequest, SLIDER_BASE_URL};

#[test]
fn satellite_ids() {
    assert_eq!(satellite_id("18"), "goes-18");
    assert_eq!(satellite_id("19"), "goes-19");
    assert_eq!(satellite_id("himawari"), "himawari");
    assert_eq!(satellite_id("meteosat9"), "meteosat-9");
    assert_eq!(satellite_id("meteosat10"), "meteosat-0deg");
    assert_eq!(satellite_id("unknown"), "goes-19");
    assert_eq!(satellite_id(""), "goes-19");
}

#[test]
fn satellite_zoom_ceilings() {
    assert_eq!(satellite_max_zoom("meteosat9"), 3);
    assert_eq!(satellite_max_zoom("meteosat10"), 3);
    assert_eq!(satellite_max_zoom("19"), 4);
    assert_eq!(satellite_max_zoom("whatever"), 4);
}

#[test]
fn key_joins_fields() {
    assert_eq!(cache_key("19", "20240615153000", 4, 7, 8), "19_20240615153000_4_7_8");
    assert_eq!(cache_key("himawari", "0", 0, 0, 4294967295), "himawari_0_0_0_4294967295");
    assert_ne!(cache_key("19", "1", 2, 34, 5), cache_key("19", "1", 23, 4, 5));
}

#[test]
fn key_escapes_free_form_fields() {
    assert_eq!(cache_key("../x", "0", 1, 2, 3), "..%2Fx_0_1_2_3");
    assert_eq!(cache_key("a_b", "c", 0, 0, 0), "a%5Fb_c_0_0_0");
    assert_ne!(cache_key("a_b", "c", 0, 0, 0), cache_key("a", "b_c", 0, 0, 0));
    assert_eq!(cache_key("19", "50%", 0, 0, 0), "19_50%25_0_0_0");
    assert_eq!(cache_key("a\0b", "", 0, 0, 0), "a%00b__0_0_0");
    assert!(!cache_path("/tiles", &cache_key("/etc/passwd", "../..", 0, 0, 0))[7..].contains('/'));
}

#[test]
fn path_under_root() {
    assert_eq!(cache_path("/home/u/.peepsat/tiles", "19_0_4_7_8"), "/home/u/.peepsat/tiles/19_0_4_7_8.png");
    assert_eq!(cache_path("/tmp/", "k"), "/tmp/k.png");
    assert_eq!(cache_path("", "k"), "k.png");
}

#[test]
fn query_params() {
    let url = "/slider-tile?sat=19&t=2024&x=7&name=a%20b&plus=a+b&empty=";
    assert_eq!(get_query_param(url, "sat"), Some("19".to_string()));
    assert_eq!(get_query_param(url, "x"), Some("7".to_string()));
    assert_eq!(get_query_param(url, "name"), Some("a b".to_string()));
    assert_eq!(get_query_param(url, "plus"), Some("a+b".to_string()));
    assert_eq!(get_query_param(url, "empty"), Some(String::new()));
    assert_eq!(get_query_param(url, "y"), None);
    assert_eq!(get_query_param("/slider-tile", "sat"), None);
    assert_eq!(get_query_param("/p?xsat=1&sat=2", "sat"), Some("2".to_string()));
    assert_eq!(get_query_param("/p?sat=1&sat=2", "sat"), Some("1".to_string()));
    assert_eq!(raw_query_param(url, "name"), Some("a%20b".to_string()));
}

#[test]
fn query_param_with_invalid_utf8_is_empty() {
    assert_eq!(get_query_param("/p?v=%FF", "v"), Some(String::new()));
}

#[test]
fn cdn_default_and_override() {
    assert_eq!(get_cdn_url("/slider-tile?sat=19"), SLIDER_BASE_URL);
    assert_eq!(get_cdn_url("/slider-tile?cdn=https%3A%2F%2Fmirror.example"), "https://mirror.example");
}

#[test]
fn numbers() {
    assert_eq!(parse_u32("0"), Some(0));
    assert_eq!(parse_u32("+5"), Some(5));
    assert_eq!(parse_u32("007"), Some(7));
    assert_eq!(parse_u32("4294967295"), Some(4294967295));
    assert_eq!(parse_u32("4294967296"), None);
    assert_eq!(parse_u32("99999999999"), None);
    assert_eq!(parse_u32(""), None);
    assert_eq!(parse_u32("+"), None);
    assert_eq!(parse_u32("-1"), None);
    assert_eq!(parse_u32("12a"), None);
    assert_eq!(parse_u32(" 1"), None);
}

#[test]
fn dates() {
    assert_eq!(parse_date("20240615"), (2024, 6, 15));
    assert_eq!(parse_date("19991231"), (1999, 12, 31));
    assert_eq!(parse_date("2024ab15"), (2024, 1, 1));
    assert_eq!(parse_date("+0240615"), (2024, 1, 1));
    assert_eq!(parse_date("00000000"), (0, 0, 0));
}

#[test]
fn malformed_date_falls_back_to_default() {
    assert_eq!(parse_date("2024061"), (2024, 1, 1));
    assert_eq!(parse_date("202406150"), (2024, 1, 1));
    assert_eq!(parse_date(""), (2024, 1, 1));
    assert_eq!(parse_date("2024061é"), (2024, 1, 1));
    let req = TileRequest::new("19".into(), "20240615153000".into(), "2024-6".into(), 4, 7, 8, None);
    assert_eq!(
        req.upstream_url(),
        "https://rammb-slider.cira.colostate.edu/data/imagery/2024/01/01/goes-19---full_disk/geocolor/20240615153000/04/007_008.png"
    );
}

#[test]
fn tile_request_from_url() {
    let req = TileRequest::from_url("/slider-tile?sat=19&t=20240615153000&x=7&y=8&z=4&d=20240615");
    assert_eq!(req.sat, "19");
    assert_eq!(req.timestamp, "20240615153000");
    assert_eq!(req.date, "20240615");
    assert_eq!((req.zoom, req.x, req.y), (4, 7, 8));
    assert_eq!(req.cdn, None);
    assert_eq!(req.key(), "19_20240615153000_4_7_8");
    assert_eq!(
        req.upstream_url(),
        "https://rammb-slider.cira.colostate.edu/data/imagery/2024/06/15/goes-19---full_disk/geocolor/20240615153000/04/007_008.png"
    );
}

#[test]
fn tile_request_defaults() {
    let req = TileRequest::from_url("/slider-tile?x=abc");
    assert_eq!(req.sat, "19");
    assert_eq!(req.timestamp, "0");
    assert_eq!(req.date, "");
    assert_eq!((req.zoom, req.x, req.y), (4, 0, 0));
    assert_eq!(req.key(), "19_0_4_0_0");
}

#[test]
fn zoom_above_ceiling_is_lowered() {
    let req = TileRequest::from_url("/slider-tile?sat=19&t=1&z=9&x=1&y=2&d=20240615");
    assert_eq!(req.zoom, 4);
    let url = req.upstream_url();
    assert!(url.ends_with("/1/04/001_002.png"));
    assert!(!url.contains("/09/"));
    let met = TileRequest::new("meteosat9".into(), "1".into(), "20240615".into(), 9, 0, 0, None);
    assert_eq!(met.zoom, 3);
    assert!(met.upstream_url().contains("/meteosat-9---full_disk/geocolor/1/03/000_000.png"));
    // a request built by hand is still served at the ceiling
    let raw = TileRequest { sat: "19".into(), timestamp: "1".into(), date: String::new(), zoom: 9, x: 0, y: 0, cdn: None };
    assert!(raw.upstream_url().contains("/1/04/000_000.png"));
    assert_eq!(raw.key(), "19_1_4_0_0");
}

#[test]
fn base_override_keeps_the_path() {
    let req = TileRequest::from_url("/slider-tile?sat=himawari&t=5&z=2&x=10&y=100&d=20230101&cdn=http%3A%2F%2Flocalhost%3A9000");
    assert_eq!(
        req.upstream_url(),
        "http://localhost:9000/data/imagery/2023/01/01/himawari---full_disk/geocolor/5/02/010_100.png"
    );
}

#[test]
fn wide_numbers_are_not_cut() {
    let req = TileRequest::new("19".into(), "t".into(), "99991231".into(), 4, 1234, 5, None);
    assert!(req.upstream_url().ends_with("/9999/12/31/goes-19---full_disk/geocolor/t/04/1234_005.png"));
}
