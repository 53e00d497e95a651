use camrecord::compose::{compose, ComposeMode};
use camrecord::conversions::{
    downsample2_uv_plane_422p_420p, downsample_uv_plane_422p_420p, downsample_yuyv_420p,
    yuv420p_from_buffer_mut, yuv422p_from_buffer_mut, yuyv_interleave_to_yuv422p, Yuv422Surface,
    Yuv422pSurface,
};
use camrecord::motion::MotionContext;
use camrecord::punchcat::PunchCat;
use camrecord::record::{frame_record, lumasurface_yuv420p, PREAMBLE};
use camrecord::surface2::{l8_average_3x3, l8_sobel_3x3, Kernel3x3, LumaSurface, Yuv420pSurface};

fn luma(width: u32, height: u32, bytes: Vec<u8>) -> LumaSurface {
    LumaSurface::new(width, height, &bytes).unwrap()
}

#[test]
fn compose_modes_exact_values() {
    assert_eq!(ComposeMode::AbsoluteDiff.to_fn(10, 250), 240);
    assert_eq!(ComposeMode::AbsoluteDiff.to_fn(250, 10), 240);
    assert_eq!(ComposeMode::Average.to_fn(255, 255), 255);
    assert_eq!(ComposeMode::Average.to_fn(3, 4), 3);
    assert_eq!(ComposeMode::AverageLeftWeight.to_fn(255, 0), 170);
    assert_eq!(ComposeMode::AverageLeftWeight.to_fn(0, 255), 85);
    assert_eq!(ComposeMode::AverageLeftWeight.to_fn(1, 0), 0);
}

#[test]
fn compose_absolute_diff_is_symmetric() {
    let a = luma(3, 2, vec![0, 10, 200, 255, 7, 128]);
    let b = luma(3, 2, vec![255, 20, 100, 0, 7, 1]);
    let ab = compose(&a, &b, ComposeMode::AbsoluteDiff);
    let ba = compose(&b, &a, ComposeMode::AbsoluteDiff);
    assert_eq!(ab.raw_bytes(), ba.raw_bytes());
    assert_eq!(ab.raw_bytes(), &[255, 10, 100, 255, 0, 127]);
    assert_eq!(ab.width(), 3);
    assert_eq!(ab.height(), 2);
}

#[test]
fn compose_average_pixelwise() {
    let a = luma(2, 1, vec![100, 9]);
    let b = luma(2, 1, vec![51, 0]);
    assert_eq!(compose(&a, &b, ComposeMode::Average).raw_bytes(), &[75, 4]);
    assert_eq!(compose(&a, &b, ComposeMode::AverageLeftWeight).raw_bytes(), &[83, 6]);
}

#[test]
fn luma_surface_wrap_rejects_wrong_length() {
    assert!(LumaSurface::new(3, 3, &[0; 8]).is_none());
    assert!(LumaSurface::new(3, 3, &[0; 10]).is_none());
    assert!(LumaSurface::new(3, 3, &[0; 9]).is_some());
    let black = LumaSurface::new_black(4, 2);
    assert_eq!(black.raw_bytes(), &[0; 8]);
}

#[test]
fn average_kernel_floors() {
    assert_eq!(l8_average_3x3(&[255; 9]), 255);
    assert_eq!(l8_average_3x3(&[0, 0, 0, 0, 8, 0, 0, 0, 0]), 0);
    assert_eq!(l8_average_3x3(&[1, 2, 3, 4, 5, 6, 7, 8, 9]), 5);
    assert_eq!(l8_average_3x3(&[9, 9, 9, 9, 9, 9, 9, 9, 8]), 8);
}

#[test]
fn sobel_kernel_exact_values() {
    assert_eq!(l8_sobel_3x3(&[7; 9]), 0);
    assert_eq!(l8_sobel_3x3(&[0, 0, 1, 0, 0, 1, 0, 0, 1]), 4);
    // gx = -1, gy = 1: sqrt(2) rounds to 1
    assert_eq!(l8_sobel_3x3(&[0, 0, 0, 0, 0, 0, 1, 0, 0]), 1);
    // gx = 2, gy = 2: sqrt(8) = 2.83 rounds to 3
    assert_eq!(l8_sobel_3x3(&[0, 0, 0, 0, 0, 1, 0, 1, 0]), 3);
    // gx = 2, gy = 4: sqrt(20) = 4.47 rounds to 4
    assert_eq!(l8_sobel_3x3(&[0, 0, 1, 0, 0, 0, 1, 1, 2]), 4);
    // magnitude 1020 is clamped
    assert_eq!(l8_sobel_3x3(&[0, 0, 255, 0, 0, 255, 0, 0, 255]), 255);
    // gx = 4 * 40 = 160
    assert_eq!(l8_sobel_3x3(&[10, 10, 50, 10, 10, 50, 10, 10, 50]), 160);
}

#[test]
fn kernel_leaves_border_zero() {
    let src = luma(4, 3, vec![9, 9, 9, 9, 9, 9, 9, 9, 9, 9, 9, 9]);
    let out = src.run_kernel_3x3(Kernel3x3::Average);
    assert_eq!(out.raw_bytes(), &[0, 0, 0, 0, 0, 9, 9, 0, 0, 0, 0, 0]);
    let edge = src.run_kernel_3x3(Kernel3x3::Sobel);
    assert_eq!(edge.raw_bytes(), &[0; 12]);
    let tiny = luma(2, 2, vec![1, 2, 3, 4]).run_kernel_3x3(Kernel3x3::Average);
    assert_eq!(tiny.raw_bytes(), &[0; 4]);
}

#[test]
fn sobel_peaks_at_vertical_step() {
    let (w, h) = (8u32, 5u32);
    let mut bytes = Vec::new();
    for _y in 0..h {
        for x in 0..w {
            bytes.push(if x < 4 { 20 } else { 200 });
        }
    }
    let edge = luma(w, h, bytes).run_kernel_3x3(Kernel3x3::Sobel);
    let px = |x: usize, y: usize| edge.raw_bytes()[y * w as usize + x];
    for y in 1..(h as usize - 1) {
        for near in [3usize, 4] {
            for far in [1usize, 2, 5, 6] {
                assert!(px(near, y) > px(far, y));
            }
        }
        assert_eq!(px(1, y), 0);
        assert_eq!(px(6, y), 0);
        assert_eq!(px(3, y), 255);
    }
}

fn yuyv_4x2() -> Vec<u8> {
    // Y U Y V per pixel pair
    vec![
        10, 100, 11, 200, 12, 101, 13, 201, //
        20, 110, 21, 210, 22, 111, 23, 211,
    ]
}

#[test]
fn interleaved_to_planar_keeps_luma() {
    let from = Yuv422Surface::new(4, 2, yuyv_4x2()).unwrap();
    let mut into = Yuv422pSurface::new_black(4, 2);
    yuyv_interleave_to_yuv422p(&from, &mut into);
    assert_eq!(
        into.raw_bytes(),
        &[10, 11, 12, 13, 20, 21, 22, 23, 100, 101, 110, 111, 200, 201, 210, 211]
    );
    let ys: Vec<u8> = yuyv_4x2().iter().step_by(2).copied().collect();
    assert_eq!(&into.raw_bytes()[..8], &ys[..]);
}

#[test]
fn interleaved_wrap_rejects_wrong_length() {
    assert!(Yuv422Surface::new(4, 2, vec![0; 15]).is_none());
    assert!(Yuv422Surface::new(4, 2, vec![0; 16]).is_some());
}

#[test]
fn downsample_to_420p_averages_row_pairs() {
    let from = Yuv422Surface::new(4, 2, yuyv_4x2()).unwrap();
    let out = downsample_yuyv_420p(&from);
    assert_eq!(out.width(), 4);
    assert_eq!(out.height(), 2);
    assert_eq!(out.luma_bytes(), &[10, 11, 12, 13, 20, 21, 22, 23]);
    assert_eq!(out.u_bytes(), &[105, 106]);
    assert_eq!(out.v_bytes(), &[205, 206]);
    assert_eq!(out.raw_bytes().len(), 12);
    assert_eq!(out.luma_surf().raw_bytes(), out.luma_bytes());
}

#[test]
fn chroma_halving_two_buffers_and_in_place_agree() {
    let input: Vec<u8> = vec![1, 2, 3, 4, 5, 6, 255, 254, 0, 0, 1, 1];
    let mut out = vec![0u8; 6];
    downsample2_uv_plane_422p_420p(3, &input, &mut out);
    assert_eq!(out, vec![2, 3, 4, 127, 127, 0]);
    let mut buf = input.clone();
    downsample_uv_plane_422p_420p(3, &mut buf);
    assert_eq!(buf, out);
}

#[test]
fn plane_split_of_buffers() {
    let mut buf: Vec<u8> = (0..17).collect();
    {
        let (y, u, v) = yuv422p_from_buffer_mut(8, &mut buf);
        assert_eq!(y, &[0, 1, 2, 3, 4, 5, 6, 7]);
        assert_eq!(u, &[8, 9, 10, 11]);
        assert_eq!(v, &[12, 13, 14, 15]);
        u[0] = 99;
    }
    assert_eq!(buf[8], 99);
    assert_eq!(buf[16], 16);
    let mut buf: Vec<u8> = (0..12).collect();
    let (y, u, v) = yuv420p_from_buffer_mut(8, &mut buf);
    assert_eq!(y.len(), 8);
    assert_eq!(u, &[8, 9]);
    assert_eq!(v, &[10, 11]);
}

#[test]
fn yuv420p_surface_planes() {
    let mut s = Yuv420pSurface::new_black(4, 2);
    assert_eq!(s.raw_bytes(), &[0; 12]);
    s.raw_bytes_mut()[8] = 5;
    s.raw_bytes_mut()[11] = 6;
    assert_eq!(s.u_bytes(), &[5, 0]);
    assert_eq!(s.v_bytes(), &[0, 6]);
    assert_eq!(s.luma_bytes(), &[0; 8]);
}

#[test]
fn punch_schedule() {
    // keep 16 bytes dense, punch in units of 4
    let mut p = PunchCat::new(4, 2);
    assert_eq!(p.note_written(16), None);
    let mut second = PunchCat::new(4, 2);
    assert_eq!(second.note_written(16 + 2 * 4), Some((0, 8)));
    second.note_punched(0, 8);
    assert_eq!(second.sparse_offset(), 8);
    assert_eq!(second.note_written(3), None);
    assert_eq!(second.written_offset(), 27);
    assert_eq!(second.note_written(1), Some((8, 4)));
    second.note_punched(8, 4);
    assert_eq!(second.sparse_offset(), 12);
    assert_eq!(p.note_written(3), None);
    assert_eq!(p.note_written(2), Some((0, 4)));
}

#[test]
fn punch_needs_a_whole_unit() {
    let mut p = PunchCat::new(0, 3);
    assert_eq!(p.note_written(8), None);
    assert_eq!(p.note_written(1), Some((0, 8)));
}

fn uniform_frame(width: u32, height: u32, value: u8) -> Yuv420pSurface {
    let mut s = Yuv420pSurface::new_black(width, height);
    for b in s.raw_bytes_mut().iter_mut() {
        *b = value;
    }
    s
}

fn striped_frame(width: u32, height: u32) -> Yuv420pSurface {
    let mut s = Yuv420pSurface::new_black(width, height);
    let n = (width * height) as usize;
    for (i, b) in s.raw_bytes_mut()[..n].iter_mut().enumerate() {
        *b = if (i % width as usize) / 4 % 2 == 0 { 0 } else { 255 };
    }
    s
}

#[test]
fn repeated_frame_gives_zero_edge() {
    let mut ctx = MotionContext::new(16, 16);
    let _ = ctx.push_pop(uniform_frame(16, 16, 77));
    let _ = ctx.push_pop(uniform_frame(16, 16, 77));
    assert!(ctx.last_edge().raw_bytes().iter().all(|b| *b == 0));
    let _ = ctx.push_pop(striped_frame(16, 16));
    let _ = ctx.push_pop(striped_frame(16, 16));
    assert!(ctx.last_edge().raw_bytes().iter().all(|b| *b == 0));
}

#[test]
fn no_emit_during_first_window() {
    let mut ctx = MotionContext::new(64, 64);
    for i in 0..10 {
        let frame = if i % 2 == 0 { striped_frame(64, 64) } else { uniform_frame(64, 64, 0) };
        assert!(ctx.push_pop(frame).is_none());
    }
}

#[test]
fn spike_emission_is_bounded() {
    let mut ctx = MotionContext::new(64, 64);
    let mut emitted = Vec::new();
    for i in 0..60 {
        let frame = if i == 15 { striped_frame(64, 64) } else { uniform_frame(64, 64, 0) };
        if ctx.push_pop(frame).is_some() {
            emitted.push(i);
        }
    }
    // the spike lights the call that shows it and the one after, which compares back
    assert!(!emitted.is_empty());
    assert!(emitted.len() <= 23);
    assert!(emitted.iter().all(|i| *i >= 10 && *i < 16 + 22));
}

#[test]
fn quiet_input_never_emits() {
    // against the black start the border ring of a level-20 frame stays below threshold
    let mut ctx = MotionContext::new(32, 32);
    for _ in 0..30 {
        assert!(ctx.push_pop(uniform_frame(32, 32, 20)).is_none());
    }
}

#[test]
fn bright_first_frame_arms_against_black_start() {
    // a level-40 frame has border gradients of 160 against the black baseline
    let mut ctx = MotionContext::new(32, 32);
    let mut emitted = 0;
    for _ in 0..30 {
        if ctx.push_pop(uniform_frame(32, 32, 40)).is_some() {
            emitted += 1;
        }
    }
    // armed on call 0 only; the counter left at 11 outlasts the fill by two calls
    assert_eq!(emitted, 2);
}

#[test]
fn record_framing_bytes() {
    let r = frame_record(0x0102030405060708, -2, &[0xaa, 0xbb]);
    let mut want = PREAMBLE.to_vec();
    want.extend_from_slice(&[1, 2, 3, 4, 5, 6, 7, 8]);
    want.extend_from_slice(&[0xff, 0xff, 0xff, 0xfe]);
    want.extend_from_slice(&[0, 0, 0, 2]);
    want.extend_from_slice(&[0xaa, 0xbb]);
    assert_eq!(r, want);
    assert_eq!(&r[..8], &[0x98, 0x56, 0xcb, 0x6b, 0x56, 0xf8, 0xc8, 0x15]);
}

#[test]
fn edge_frame_has_gray_chroma() {
    let s = luma(4, 2, vec![1, 2, 3, 4, 5, 6, 7, 8]);
    assert_eq!(lumasurface_yuv420p(&s), vec![1, 2, 3, 4, 5, 6, 7, 8, 0x80, 0x80, 0x80, 0x80]);
}

#[test]
fn from_yuyv_buf_converts_or_rejects() {
    let s = Yuv420pSurface::from_yuyv_buf(4, 2, &yuyv_4x2()).unwrap();
    assert_eq!(s.raw_bytes(), &[10, 11, 12, 13, 20, 21, 22, 23, 105, 106, 205, 206]);
    assert!(Yuv420pSurface::from_yuyv_buf(4, 2, &yuyv_4x2()[..14]).is_none());
}
