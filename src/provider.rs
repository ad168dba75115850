//! Which upstream identifier and zoom ceiling belong to a satellite code.

use vstd::prelude::*;
use crate::text::same_text;

verus! {

/// The provider's canonical identifier for a short satellite code; an
/// unknown code falls back to GOES-19.
pub open spec fn satellite_id_of(sat: Seq<char>) -> Seq<char> {
    if sat == "18"@ {
        "goes-18"@
    } else if sat == "19"@ {
        "goes-19"@
    } else if sat == "himawari"@ {
        "himawari"@
    } else if sat == "meteosat9"@ {
        "meteosat-9"@
    } else if sat == "meteosat10"@ {
        "meteosat-0deg"@
    } else {
        "goes-19"@
    }
}

/// The highest zoom level the provider serves for a satellite code.
pub open spec fn max_zoom_of(sat: Seq<char>) -> u32 {
    if sat == "meteosat9"@ || sat == "meteosat10"@ {
        3
    } else {
        4
    }
}

pub fn satellite_id(sat: &str) -> (r: &'static str)
    ensures
        r@ == satellite_id_of(sat@),
{
    if same_text(sat, "18") {
        "goes-18"
    } else if same_text(sat, "19") {
        "goes-19"
    } else if same_text(sat, "himawari") {
        "himawari"
    } else if same_text(sat, "meteosat9") {
        "meteosat-9"
    } else if same_text(sat, "meteosat10") {
        "meteosat-0deg"
    } else {
        "goes-19"
    }
}

pub fn satellite_max_zoom(sat: &str) -> (r: u32)
    ensures
        r == max_zoom_of(sat@),
        1 <= r <= 4,
{
    if same_text(sat, "meteosat9") || same_text(sat, "meteosat10") {
        3
    } else {
        4
    }
}

} // verus!
