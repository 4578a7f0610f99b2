use vstd::prelude::*;
use crate::classify::{classify, has_border, lemma_border_empty};
use crate::codec::{decodable, decode_raster, decodes_to, encode_raster, png_rgba_encode};
use crate::errors::FixError;
use crate::flood::{flood_fill, flood_post};
use crate::nearest::{nearest_fill, nearest_post};
use crate::raster::Raster;

verus! {

/// Which color-propagation strategy repairs a raster: copy from the
/// nearest border point, or flood outward averaging ring by ring.
#[derive(Clone, Copy, Debug, PartialEq, Eq, Structural)]
pub enum Strategy {
    Nearest,
    Flood,
}

/// What the chosen strategy guarantees of the repaired raster.
pub open spec fn strategy_post(pre: Raster, post: Raster, strategy: Strategy, debug: bool) -> bool {
    match strategy {
        Strategy::Nearest => nearest_post(pre, post, debug),
        Strategy::Flood => flood_post(pre, post),
    }
}

/// Classify the raster and, if it has any border pixel, repair it in
/// place with the chosen strategy.  A raster with no border pixel at all
/// (fully opaque, fully transparent, or without opaque/transparent
/// adjacency) is left untouched and reported as NoBorderPixels.
pub fn fix_raster(r: &mut Raster, strategy: Strategy, debug: bool) -> (res: Result<(), FixError>)
    requires
        old(r).wf(),
    ensures
        final(r).wf(),
        final(r).width == old(r).width,
        final(r).height == old(r).height,
        res is Ok <==> has_border(*old(r)),
        match res {
            Ok(_) => strategy_post(*old(r), *final(r), strategy, debug),
            Err(e) => e == FixError::NoBorderPixels && *final(r) == *old(r),
        },
{
    let c = classify(r);
    proof {
        lemma_border_empty(c, *r);
    }
    if c.border.len() == 0 {
        return Err(FixError::NoBorderPixels);
    }
    match strategy {
        Strategy::Nearest => {
            nearest_fill(r, &c, debug);
        },
        Strategy::Flood => {
            flood_fill(r);
        },
    }
    Ok(())
}

/// Run the whole per-file pipeline on in-memory PNG bytes: decode,
/// classify, fill with the chosen strategy, and re-encode.  Every failure
/// is reported as the stage that refused: a FormatError when the bytes do
/// not decode to well-formed 8-bit RGBA, NoBorderPixels when there is
/// nothing to repair, and an EncodeError when the encoder refuses the
/// repaired raster.  The input bytes are never modified.
pub fn repair_png_bytes(bytes: &Vec<u8>, strategy: Strategy, debug: bool) -> (res: Result<
    Vec<u8>,
    FixError,
>)
    ensures
        match res {
            Ok(out) => exists|r0: Raster, r1: Raster|
                decodes_to(bytes@, r0) && has_border(r0) && #[trigger] strategy_post(r0, r1,
                    strategy, debug) && png_rgba_encode(r1.width as int, r1.height as int,
                    r1.data@) == Some(out@),
            Err(e) => match e {
                FixError::FormatError => !decodable(bytes@),
                FixError::NoBorderPixels => exists|r0: Raster|
                    #[trigger] decodes_to(bytes@, r0) && !has_border(r0),
                FixError::EncodeError => exists|r0: Raster, r1: Raster|
                    decodes_to(bytes@, r0) && has_border(r0) && #[trigger] strategy_post(r0, r1,
                        strategy, debug) && (png_rgba_encode(r1.width as int, r1.height as int,
                        r1.data@) is None || 4 * r1.width * r1.height + r1.height > usize::MAX),
                FixError::IndexConstructionError => false,
            },
        },
{
    let mut r = match decode_raster(bytes) {
        Ok(r) => r,
        Err(e) => {
            return Err(e);
        },
    };
    let ghost r0 = r;
    match fix_raster(&mut r, strategy, debug) {
        Ok(_) => {},
        Err(e) => {
            proof {
                assert(decodes_to(bytes@, r0) && !has_border(r0));
            }
            return Err(e);
        },
    }
    match encode_raster(&r) {
        Ok(out) => {
            proof {
                assert(decodes_to(bytes@, r0) && has_border(r0) && strategy_post(r0, r,
                    strategy, debug) && png_rgba_encode(r.width as int, r.height as int, r.data@)
                    == Some(out@));
            }
            Ok(out)
        },
        Err(e) => {
            proof {
                assert(decodes_to(bytes@, r0) && has_border(r0) && strategy_post(r0, r,
                    strategy, debug) && (png_rgba_encode(r.width as int, r.height as int,
                    r.data@) is None || 4 * r.width * r.height + r.height > usize::MAX));
            }
            Err(e)
        },
    }
}

} // verus!
