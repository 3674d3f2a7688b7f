use splaunch::codec::{base64_standard, base64url_decode};
use splaunch::dds::{decode, Rgba, HEADER};
use splaunch::mapfile::{is_smf, metal_map, OFF_MAPX, OFF_MAPY, OFF_METALMAP_PTR};

fn header(w: u32, h: u32, fourcc: &[u8; 4], bits: u32) -> Vec<u8> {
    let mut b = vec![0u8; HEADER];
    b[..4].copy_from_slice(b"DDS ");
    b[12..16].copy_from_slice(&h.to_le_bytes());
    b[16..20].copy_from_slice(&w.to_le_bytes());
    b[84..88].copy_from_slice(fourcc);
    b[88..92].copy_from_slice(&bits.to_le_bytes());
    b
}

fn pixels(img: &Rgba) -> Vec<u8> {
    // Round-trips our own base64, so the test reads pixels rather than text.
    let alphabet = b"ABCDEFGHIJKLMNOPQRSTUVWXYZabcdefghijklmnopqrstuvwxyz0123456789+/";
    let mut out = Vec::new();
    let mut acc = 0u32;
    let mut bits = 0;
    for c in img.pixels.bytes().filter(|c| *c != b'=') {
        let v = alphabet.iter().position(|a| *a == c).unwrap() as u32;
        acc = (acc << 6) | v;
        bits += 6;
        if bits >= 8 {
            bits -= 8;
            out.push((acc >> bits) as u8);
        }
    }
    out
}

#[test]
fn a_solid_dxt1_block_decodes_to_its_colour() {
    // c0 = pure red in 565, c1 = 0, every index 0.
    let mut dds = header(4, 4, b"DXT1", 0);
    dds.extend_from_slice(&0xF800u16.to_le_bytes());
    dds.extend_from_slice(&0u16.to_le_bytes());
    dds.extend_from_slice(&0u32.to_le_bytes());
    let img = decode(&dds).expect("did not decode");
    assert_eq!((img.width, img.height), (4, 4));
    // 0x1F must scale to 0xFF, not 0xF8.
    assert_eq!(&pixels(&img)[..4], &[255, 0, 0, 255]);
}

#[test]
fn dxt3_alpha_is_four_bits_a_texel_low_nibble_first() {
    let mut dds = header(4, 4, b"DXT3", 0);
    // First texel alpha 0, second 0xF, rest 0.
    let mut alpha = [0u8; 8];
    alpha[0] = 0xF0;
    dds.extend_from_slice(&alpha);
    dds.extend_from_slice(&0xF800u16.to_le_bytes());
    dds.extend_from_slice(&0u16.to_le_bytes());
    dds.extend_from_slice(&0u32.to_le_bytes());
    let px = pixels(&decode(&dds).unwrap());
    assert_eq!(px[3], 0, "first texel should be transparent");
    assert_eq!(px[7], 255, "second texel should be opaque");
}

#[test]
fn dxt3_does_not_use_dxt1s_punchthrough_rule() {
    let mut dds = header(4, 4, b"DXT3", 0);
    dds.extend_from_slice(&[0xFF; 8]); // fully opaque
    dds.extend_from_slice(&0x0001u16.to_le_bytes()); // c0 < c1
    dds.extend_from_slice(&0xF800u16.to_le_bytes());
    dds.extend_from_slice(&0xFFFFFFFFu32.to_le_bytes()); // every texel index 3
    let px = pixels(&decode(&dds).unwrap());
    assert_eq!(px[3], 255, "a DXT3 texel was made transparent by the DXT1 rule");
}

#[test]
fn an_uncompressed_dds_is_read_as_bgra() {
    let mut dds = header(1, 1, &[0, 0, 0, 0], 32);
    dds.extend_from_slice(&[10, 20, 30, 40]); // B G R A
    assert_eq!(pixels(&decode(&dds).unwrap()), vec![30, 20, 10, 40]);
}

#[test]
fn anything_else_is_refused_rather_than_smeared() {
    assert!(decode(b"not a dds").is_none());
    let mut dxt2 = header(4, 4, b"DXT2", 0);
    dxt2.extend_from_slice(&[0; 16]);
    assert!(decode(&dxt2).is_none());
    let truncated = header(64, 64, b"DXT3", 0);
    assert!(decode(&truncated).is_none());
}

#[test]
fn dxt1_punchthrough_makes_the_fourth_colour_transparent() {
    // c0 <= c1 in DXT1 is the one-bit alpha mode: index 3 is transparent black
    // and index 2 is the midpoint.
    let mut dds = header(4, 4, b"DXT1", 0);
    dds.extend_from_slice(&0x0000u16.to_le_bytes());
    dds.extend_from_slice(&0xFFFFu16.to_le_bytes());
    // texel 0 index 3, texel 1 index 2, rest 0
    dds.extend_from_slice(&0b1011u32.to_le_bytes());
    let px = pixels(&decode(&dds).unwrap());
    assert_eq!(&px[..4], &[0, 0, 0, 0]);
    assert_eq!(&px[4..8], &[127, 127, 127, 255]);
    assert_eq!(&px[8..12], &[0, 0, 0, 255]);
}

#[test]
fn dxt5_alpha_interpolates_between_its_two_endpoints() {
    let mut dds = header(4, 4, b"DXT5", 0);
    // a0 = 255, a1 = 0: eight-entry table. Texel 0 index 0, texel 1 index 1,
    // texel 2 index 2 (6*255/7 = 218).
    dds.extend_from_slice(&[255, 0, 0b10_001_000, 0, 0, 0, 0, 0]);
    dds.extend_from_slice(&0xFFFFu16.to_le_bytes());
    dds.extend_from_slice(&0u16.to_le_bytes());
    dds.extend_from_slice(&0u32.to_le_bytes());
    let px = pixels(&decode(&dds).unwrap());
    assert_eq!(px[3], 255);
    assert_eq!(px[7], 0);
    assert_eq!(px[11], 218);
}

#[test]
fn an_odd_sized_image_is_clipped_to_its_edges() {
    let mut dds = header(3, 5, b"DXT1", 0);
    for _ in 0..2 {
        dds.extend_from_slice(&0x07E0u16.to_le_bytes()); // pure green
        dds.extend_from_slice(&0u16.to_le_bytes());
        dds.extend_from_slice(&0u32.to_le_bytes());
    }
    let img = decode(&dds).unwrap();
    assert_eq!((img.width, img.height), (3, 5));
    let px = pixels(&img);
    assert_eq!(px.len(), 3 * 5 * 4);
    assert!(px.chunks(4).all(|p| p == [0, 255, 0, 255]));
}

#[test]
fn standard_base64_pads_and_uses_plus_and_slash() {
    assert_eq!(base64_standard(b""), "");
    assert_eq!(base64_standard(b"f"), "Zg==");
    assert_eq!(base64_standard(b"fo"), "Zm8=");
    assert_eq!(base64_standard(b"foo"), "Zm9v");
    assert_eq!(base64_standard(&[0xfb, 0xff]), "+/8=");
}

#[test]
fn what_base64_writes_base64url_reads_back() {
    for bytes in [vec![0u8], vec![0xfb, 0xff], (0u8..=255).collect::<Vec<u8>>()] {
        let text = base64_standard(&bytes);
        assert_eq!(base64url_decode(&text).unwrap(), bytes, "{text}");
    }
}

/// An `.smf` with a known metal map in it.
fn smf(mapx: i32, mapy: i32, samples: &[u8]) -> Vec<u8> {
    let magic = b"spring map file";
    let mut out = vec![0u8; 80];
    out[..magic.len()].copy_from_slice(magic);
    out[OFF_MAPX..OFF_MAPX + 4].copy_from_slice(&mapx.to_le_bytes());
    out[OFF_MAPY..OFF_MAPY + 4].copy_from_slice(&mapy.to_le_bytes());
    out[OFF_METALMAP_PTR..OFF_METALMAP_PTR + 4].copy_from_slice(&80i32.to_le_bytes());
    out.extend_from_slice(samples);
    out
}

#[test]
fn the_metal_map_is_half_the_map_squares_each_way() {
    let map = metal_map(&smf(4, 2, &[10, 200])).expect("no metal map");
    assert_eq!((map.width, map.height), (2, 1));
    assert_eq!(map.samples, base64_standard(&[10, 200]));
}

#[test]
fn a_file_that_is_not_a_map_is_refused() {
    assert!(metal_map(b"not a map at all, really not").is_none());
    assert!(metal_map(&smf(0, 0, &[])).is_none());
    assert!(metal_map(&smf(-4, 4, &[1])).is_none());
}

#[test]
fn a_pointer_past_the_end_is_refused_rather_than_panicking() {
    let mut bytes = smf(4, 2, &[1, 2]);
    bytes.truncate(81);
    assert!(metal_map(&bytes).is_none());

    let mut wild = smf(4, 2, &[1, 2]);
    wild[OFF_METALMAP_PTR..OFF_METALMAP_PTR + 4].copy_from_slice(&i32::MAX.to_le_bytes());
    assert!(metal_map(&wild).is_none());
}

#[test]
fn an_absurd_size_does_not_become_an_allocation() {
    let mut huge = smf(4, 2, &[1, 2]);
    huge[OFF_MAPX..OFF_MAPX + 4].copy_from_slice(&i32::MAX.to_le_bytes());
    huge[OFF_MAPY..OFF_MAPY + 4].copy_from_slice(&i32::MAX.to_le_bytes());
    assert!(metal_map(&huge).is_none());
}

#[test]
fn only_an_smf_entry_is_the_map() {
    assert!(is_smf("maps/Tiny.SMF"));
    assert!(is_smf("x.smf"));
    assert!(!is_smf("maps/tiny.smt"));
    assert!(!is_smf("smf"));
}

#[test]
fn base64url_reads_back_what_it_writes() {
    for len in 1..40usize {
        let bytes: Vec<u8> = (0..len).map(|i| (i * 37 + 251) as u8).collect();
        let text = splaunch::codec::base64url_encode(&bytes);
        assert!(!text.contains('=') && !text.contains('+') && !text.contains('/'), "{text}");
        assert_eq!(base64url_decode(&text).unwrap(), bytes, "{text}");
    }
    assert_eq!(splaunch::codec::base64url_encode(b"\xfb\xff"), "-_8");
}

#[test]
fn base64url_refuses_what_holds_no_letter_or_a_stranger() {
    assert_eq!(base64url_decode(""), None);
    assert_eq!(base64url_decode(" \n=="), None);
    assert_eq!(base64url_decode("ab!c"), None);
    assert_eq!(base64url_decode("ab c"), Some(vec![105, 183]));
}

#[test]
fn a_texture_decodes_exactly_when_it_holds_the_bytes_its_size_needs() {
    // Five by three in DXT5 is two blocks across and one down: 32 bytes.
    let mut short = header(5, 3, b"DXT5", 0);
    short.extend_from_slice(&[0; 31]);
    assert!(decode(&short).is_none());
    let mut whole = header(5, 3, b"DXT5", 0);
    whole.extend_from_slice(&[0; 32]);
    let img = decode(&whole).unwrap();
    assert_eq!((img.width, img.height), (5, 3));
    assert_eq!(pixels(&img).len(), 5 * 3 * 4);
    // Two by two uncompressed needs four bytes a texel, and 32 bits of them.
    let mut bgra = header(2, 2, b"\0\0\0\0", 32);
    bgra.extend_from_slice(&[0; 15]);
    assert!(decode(&bgra).is_none());
    bgra.push(0);
    assert_eq!(pixels(&decode(&bgra).unwrap()).len(), 16);
    let mut bits24 = header(2, 2, b"\0\0\0\0", 24);
    bits24.extend_from_slice(&[0; 16]);
    assert!(decode(&bits24).is_none());
    // Sides run from one to 4096 texels.
    let mut wide = header(4097, 1, b"DXT1", 0);
    wide.extend_from_slice(&vec![0; 1025 * 8]);
    assert!(decode(&wide).is_none());
    let mut empty = header(0, 4, b"DXT1", 0);
    empty.extend_from_slice(&[0; 8]);
    assert!(decode(&empty).is_none());
}
