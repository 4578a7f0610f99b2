use vstd::prelude::*;
use vstd::string::StringSliceAdditionalSpecFns;

verus! {

/// The UTF-8 bytes of a file name end in ".png" in any letter case, with
/// at least one byte of stem before the dot, the way a path library
/// reports an extension.
pub open spec fn is_png_name(b: Seq<u8>) -> bool {
    &&& b.len() >= 5
    &&& b[b.len() - 4] == 46u8
    &&& (b[b.len() - 3] == 112u8 || b[b.len() - 3] == 80u8)
    &&& (b[b.len() - 2] == 110u8 || b[b.len() - 2] == 78u8)
    &&& (b[b.len() - 1] == 103u8 || b[b.len() - 1] == 71u8)
}

/// Does this file name carry the extension "png", compared without regard
/// to letter case?  Only names with that extension are worth repairing.
pub fn is_png_file(name: &str) -> (r: bool)
    ensures
        r == is_png_name(name.spec_bytes()),
{
    let b = name.as_bytes();
    let n = b.len();
    if n < 5 {
        return false;
    }
    let dot = b[n - 4];
    let p = b[n - 3];
    let g1 = b[n - 2];
    let g2 = b[n - 1];
    dot == 46 && (p == 112 || p == 80) && (g1 == 110 || g1 == 78) && (g2 == 103 || g2 == 71)
}

} // verus!
