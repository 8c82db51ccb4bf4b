use glue::color::{chroma_u, chroma_v, luma};

fn f32_luma(r: u8, g: u8, b: u8) -> u8 {
    let (r, g, b) = (r as f32, g as f32, b as f32);
    (0.299 * r + 0.587 * g + 0.114 * b).clamp(0.0, 255.0) as u8
}

fn f32_chroma_u(r: u8, g: u8, b: u8) -> u8 {
    let (r, g, b) = (r as f32, g as f32, b as f32);
    (-0.147 * r - 0.289 * g + 0.436 * b + 128.0).clamp(0.0, 255.0) as u8
}

fn f32_chroma_v(r: u8, g: u8, b: u8) -> u8 {
    let (r, g, b) = (r as f32, g as f32, b as f32);
    (0.615 * r - 0.515 * g - 0.100 * b + 128.0).clamp(0.0, 255.0) as u8
}

#[test]
fn luma_exact_values() {
    assert_eq!(luma(0, 0, 0), 0);
    assert_eq!(luma(255, 255, 255), 255);
    assert_eq!(luma(255, 0, 0), 76);
    assert_eq!(luma(0, 255, 0), 149);
    assert_eq!(luma(0, 0, 255), 29);
    // single-precision rounding lands just below an integer here
    assert_eq!(luma(4, 0, 86), 11);
}

#[test]
fn chroma_exact_values() {
    assert_eq!(chroma_u(0, 0, 0), 128);
    assert_eq!(chroma_v(0, 0, 0), 128);
    assert_eq!(chroma_u(0, 0, 255), 239);
    assert_eq!(chroma_v(255, 0, 0), 255);
    assert_eq!(chroma_u(255, 255, 0), 16);
    assert_eq!(chroma_v(0, 255, 255), 0);
    assert_eq!(chroma_u(0, 0, 250), 237);
    assert_eq!(chroma_v(0, 0, 10), 127);
}

#[test]
fn luma_matches_single_precision_everywhere() {
    for r in 0..=255u8 {
        for g in 0..=255u8 {
            for b in (0..=255u8).step_by(3) {
                assert_eq!(luma(r, g, b), f32_luma(r, g, b), "pixel {r} {g} {b}");
            }
        }
    }
}

#[test]
fn chroma_u_matches_single_precision_everywhere() {
    for r in 0..=255u8 {
        for g in 0..=255u8 {
            for b in (1..=255u8).step_by(3) {
                assert_eq!(chroma_u(r, g, b), f32_chroma_u(r, g, b), "pixel {r} {g} {b}");
            }
        }
    }
}

#[test]
fn chroma_v_matches_single_precision_everywhere() {
    for r in 0..=255u8 {
        for g in 0..=255u8 {
            for b in (2..=255u8).step_by(3) {
                assert_eq!(chroma_v(r, g, b), f32_chroma_v(r, g, b), "pixel {r} {g} {b}");
            }
        }
    }
}
