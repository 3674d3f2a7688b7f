//! Where the metal is, read out of the map's own `.smf` file.
//!
//! This returns the map's metal infomap - one byte a sample, sixteen elmos to
//! a sample, exactly as the engine reads it - and deliberately does not decide
//! where "a spot" is: that is a choice, and two clients choosing differently
//! would report different facts about the same map.
//!
//! The layout, from the engine's `SMFFormat.h`: sixteen bytes of magic, then
//! `version`, `mapid`, `mapx`, `mapy`, ... as little-endian `int`s, which puts
//! `mapx` at 24, `mapy` at 28 and `metalmapPtr` at 68. `mapx` and `mapy` are in
//! map squares; the metal infomap is half that in each direction.
use crate::codec::{base64_standard, spec_base64_standard};
use crate::text::{chars_of, lower_all, lowercase};
use vstd::prelude::*;

verus! {

/// The leading bytes of every `.smf`: `spring map file`.
pub open spec fn smf_magic() -> Seq<u8> {
    seq![115, 112, 114, 105, 110, 103, 32, 109, 97, 112, 32, 102, 105, 108, 101]
}

pub const OFF_MAPX: usize = 24;

pub const OFF_MAPY: usize = 28;

pub const OFF_METALMAP_PTR: usize = 68;

/// Largest `.smf` this will read, matching the vendored Coilbox reader's cap.
/// What stops a malformed header turning into an allocation.
pub const MAX_SMF_BYTES: usize = 67108864;

/// A map's metal infomap.
pub struct MetalMap {
    pub width: u32,
    pub height: u32,
    /// One byte a sample, row-major, base64 in the standard alphabet.
    pub samples: String,
}

/// `i32::from_le_bytes` of the four bytes at `at`.
pub open spec fn le_i32_value(b: Seq<u8>, at: int) -> int {
    let v = b[at] + 256 * b[at + 1] + 65536 * b[at + 2] + 16777216 * b[at + 3];
    if v >= 0x8000_0000 {
        v - 0x1_0000_0000
    } else {
        v
    }
}

/// The four bytes at `at` as a little-endian `i32`, when they are there.
pub open spec fn spec_le_i32(b: Seq<u8>, at: int) -> Option<int> {
    if 0 <= at && at + 4 <= b.len() {
        Some(le_i32_value(b, at))
    } else {
        None
    }
}

fn le_i32(bytes: &[u8], at: usize) -> (r: Option<i32>)
    ensures
        match spec_le_i32(bytes@, at as int) {
            Some(v) => r == Some(v as i32),
            None => r is None,
        },
{
    if at > bytes.len() || bytes.len() - at < 4 {
        return None;
    }
    let v: i64 = bytes[at] as i64 + 256 * bytes[at + 1] as i64 + 65536 * bytes[at + 2] as i64
        + 16777216 * bytes[at + 3] as i64;
    let signed: i64 = if v >= 0x8000_0000 {
        v - 0x1_0000_0000
    } else {
        v
    };
    Some(signed as i32)
}

fn has_magic(smf: &[u8]) -> (r: bool)
    ensures
        r == (smf@.len() >= 15 && smf@.take(15) == smf_magic()),
{
    let magic: [u8; 15] = [115, 112, 114, 105, 110, 103, 32, 109, 97, 112, 32, 102, 105, 108, 101];
    if smf.len() < 15 {
        return false;
    }
    let mut i: usize = 0;
    while i < 15
        invariant
            smf@.len() >= 15,
            i <= 15,
            magic@ == smf_magic(),
            forall|j: int| 0 <= j < i ==> smf@[j] == smf_magic()[j],
        decreases 15 - i,
    {
        if smf[i] != magic[i] {
            assert(smf@.take(15)[i as int] != smf_magic()[i as int]);
            return false;
        }
        i = i + 1;
    }
    assert(smf@.take(15) =~= smf_magic());
    true
}

/// What [`metal_map`] reads out of an `.smf`: the infomap's width and height,
/// and its samples - or nothing, for a file that is not a map, a header that
/// makes no sense, or a pointer past the end.
pub open spec fn spec_metal_map(smf: Seq<u8>) -> Option<(int, int, Seq<u8>)> {
    if !(smf.len() >= 15 && smf.take(15) == smf_magic()) {
        None
    } else {
        match (spec_le_i32(smf, 24), spec_le_i32(smf, 28), spec_le_i32(smf, 68)) {
            (Some(mapx), Some(mapy), Some(ptr)) => {
                if mapx <= 0 || mapy <= 0 || ptr <= 0 {
                    None
                } else {
                    let width = mapx / 2;
                    let height = mapy / 2;
                    let count = width * height;
                    if width == 0 || height == 0 || count > MAX_SMF_BYTES || ptr + count > smf.len() {
                        None
                    } else {
                        Some((width, height, smf.subrange(ptr, ptr + count)))
                    }
                }
            },
            _ => None,
        }
    }
}

/// The metal infomap inside an `.smf`.
pub fn metal_map(smf: &[u8]) -> (r: Option<MetalMap>)
    ensures
        match spec_metal_map(smf@) {
            Some((w, h, samples)) => r matches Some(m) && m.width == w && m.height == h
                && m.samples@ == spec_base64_standard(samples),
            None => r is None,
        },
{
    if !has_magic(smf) {
        return None;
    }
    let mapx = match le_i32(smf, OFF_MAPX) {
        Some(v) => v,
        None => return None,
    };
    let mapy = match le_i32(smf, OFF_MAPY) {
        Some(v) => v,
        None => return None,
    };
    let ptr = match le_i32(smf, OFF_METALMAP_PTR) {
        Some(v) => v,
        None => return None,
    };
    if mapx <= 0 || mapy <= 0 || ptr <= 0 {
        return None;
    }
    // Half the map squares in each direction, one byte a sample.
    let width = (mapx as u32) / 2;
    let height = (mapy as u32) / 2;
    let count = match (width as usize).checked_mul(height as usize) {
        Some(c) => c,
        None => {
            assert(width * height > MAX_SMF_BYTES);
            return None;
        },
    };
    if width == 0 || height == 0 || count > MAX_SMF_BYTES {
        return None;
    }
    let start = ptr as usize;
    if start > smf.len() || count > smf.len() - start {
        return None;
    }
    let samples = vstd::slice::slice_subrange(smf, start, start + count);
    Some(MetalMap { width, height, samples: base64_standard(samples) })
}

// ------------------------------------------------------------ archives ---

/// The name of an entry inside a map archive ends in `.smf`, in any case.
pub open spec fn names_smf(name: Seq<char>) -> bool {
    let l = lower_all(name);
    l.len() >= 4 && l.subrange(l.len() - 4, l.len() as int) == seq!['.', 's', 'm', 'f']
}

/// Whether an entry inside a map archive is the map itself.
///
/// A map archive holds one `.smf` and the `.smt` of tiles beside it; anything
/// else is configuration. Matched by extension rather than by a path, because
/// archives disagree about whether it sits in `maps/`.
pub fn is_smf(name: &str) -> (r: bool)
    ensures
        r == names_smf(name@),
{
    let l = lowercase(chars_of(name).as_slice());
    let n = l.len();
    if n < 4 {
        return false;
    }
    let r = l[n - 4] == '.' && l[n - 3] == 's' && l[n - 2] == 'm' && l[n - 1] == 'f';
    assert(r == (l@.subrange(n - 4, n as int) =~= seq!['.', 's', 'm', 'f']));
    r
}

/// A map's metal infomap is half the map's size each way, one byte a
/// sample: its width and height are the header's `mapx` and `mapy` (at bytes
/// 24 and 28) halved, and its samples the `width * height` bytes from where
/// the header's pointer at byte 68 says they start. It is read only from a
/// file that opens with `spring map file`, whose header holds positive
/// sizes and pointer, and that holds every sample the header promises.
pub proof fn law_the_metal_map_is_where_the_header_says(smf: Seq<u8>)
    ensures
        spec_metal_map(smf) is Some <==> {
            &&& smf.len() >= 72
            &&& smf.take(15) == seq![115u8, 112, 114, 105, 110, 103, 32, 109, 97, 112, 32, 102, 105, 108, 101]
            &&& le_i32_value(smf, 24) >= 2 && le_i32_value(smf, 28) >= 2 && le_i32_value(smf, 68) > 0
            &&& (le_i32_value(smf, 24) / 2) * (le_i32_value(smf, 28) / 2) <= 67108864
            &&& le_i32_value(smf, 68) + (le_i32_value(smf, 24) / 2) * (le_i32_value(smf, 28) / 2) <= smf.len()
        },
        spec_metal_map(smf) matches Some((w, h, samples)) ==> {
            &&& w == le_i32_value(smf, 24) / 2
            &&& h == le_i32_value(smf, 28) / 2
            &&& samples == smf.subrange(le_i32_value(smf, 68), le_i32_value(smf, 68) + w * h)
            &&& samples.len() == w * h
        },
{
    let magic = seq![115u8, 112, 114, 105, 110, 103, 32, 109, 97, 112, 32, 102, 105, 108, 101];
    assert(smf_magic() == magic);
    if smf.len() >= 15 && smf.take(15) == magic {
        let mx = le_i32_value(smf, 24);
        let my = le_i32_value(smf, 28);
        if smf.len() >= 72 && mx > 0 && my > 0 {
            assert(mx / 2 >= 0 && my / 2 >= 0);
            assert((mx / 2) * (my / 2) >= 0) by (nonlinear_arith)
                requires mx / 2 >= 0, my / 2 >= 0;
            if mx / 2 == 0 || my / 2 == 0 {
                assert(mx < 2 || my < 2);
            }
        }
    }
}

} // verus!
