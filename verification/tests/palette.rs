use voxquant::io::magica::{decode_color, encode_color};
use voxquant::math::multiply_colors;
use voxquant::vox::{identity_index_map, static_palette};

#[test]
fn encode_black_is_first_index() {
    assert_eq!(encode_color([0, 0, 0, 255]), 1);
}

#[test]
fn encode_white_is_last_index() {
    assert_eq!(encode_color([255, 255, 255, 255]), 252);
}

#[test]
fn encode_primaries() {
    assert_eq!(encode_color([255, 0, 0, 255]), 6);
    assert_eq!(encode_color([0, 255, 0, 255]), 37);
    assert_eq!(encode_color([0, 0, 255, 255]), 211);
    assert_eq!(encode_color([128, 128, 128, 0]), 148);
}

#[test]
fn encode_ignores_alpha() {
    assert_eq!(encode_color([10, 20, 30, 0]), encode_color([10, 20, 30, 255]));
}

#[test]
fn decode_air_is_transparent() {
    assert_eq!(decode_color(0), [0, 0, 0, 0]);
}

#[test]
fn decode_known_indices() {
    assert_eq!(decode_color(1), [0, 0, 0, 255]);
    assert_eq!(decode_color(148), [153, 127, 153, 255]);
    assert_eq!(decode_color(252), [255, 255, 255, 255]);
    assert_eq!(decode_color(255), [102, 0, 0, 255]);
}

#[test]
fn encode_never_gives_air() {
    for r in (0..=255u16).step_by(5) {
        for g in (0..=255u16).step_by(5) {
            for b in (0..=255u16).step_by(5) {
                let i = encode_color([r as u8, g as u8, b as u8, 255]);
                assert!((1..=252).contains(&i));
            }
        }
    }
}

#[test]
fn decode_then_encode_is_identity() {
    for byte in 1..=252u8 {
        assert_eq!(encode_color(decode_color(byte)), byte);
    }
}

#[test]
fn encode_then_decode_is_close() {
    for r in (0..=255u16).step_by(3) {
        for g in (0..=255u16).step_by(7) {
            for b in (0..=255u16).step_by(11) {
                let c = [r as u8, g as u8, b as u8, 7];
                let d = decode_color(encode_color(c));
                assert!((d[0] as i32 - c[0] as i32).abs() <= 25);
                assert!((d[1] as i32 - c[1] as i32).abs() <= 21);
                assert!((d[2] as i32 - c[2] as i32).abs() <= 25);
                assert_eq!(d[3], 255);
            }
        }
    }
}

#[test]
fn static_palette_matches_decode() {
    let palette = static_palette();
    assert_eq!(palette.len(), 256);
    for i in 0..256usize {
        let c = decode_color(i as u8);
        assert_eq!(palette[i], [c[0], c[1], c[2], 255]);
    }
    assert_eq!(palette[0], [0, 0, 0, 255]);
}

#[test]
fn index_map_is_identity() {
    let map = identity_index_map();
    assert_eq!(map.len(), 256);
    for i in 0..256usize {
        assert_eq!(map[i] as usize, i);
    }
}

#[test]
fn multiply_colors_example() {
    assert_eq!(multiply_colors([255, 128, 0, 255], [128, 255, 255, 255]), [128, 128, 0, 255]);
    assert_eq!(multiply_colors([100, 200, 50, 10], [200, 100, 50, 255]), [78, 78, 9, 10]);
}

#[test]
fn multiply_colors_white_identity() {
    let c = [12, 34, 56, 78];
    assert_eq!(multiply_colors(c, [255, 255, 255, 255]), c);
    assert_eq!(multiply_colors([255, 255, 255, 255], c), c);
}

#[test]
fn multiply_colors_commutes_and_darkens() {
    let a = [200, 17, 255, 90];
    let b = [33, 250, 128, 255];
    let p = multiply_colors(a, b);
    assert_eq!(p, multiply_colors(b, a));
    for k in 0..4 {
        assert!(p[k] <= a[k] && p[k] <= b[k]);
    }
    assert_eq!(multiply_colors(a, [0, 0, 0, 0]), [0, 0, 0, 0]);
}
