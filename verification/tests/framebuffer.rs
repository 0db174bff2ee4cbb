use donut::fixed::ONE;
use donut::frame::{glyph, BLANK, FAR, LEVELS, NEWLINE};
use donut::framebuffer::FrameBuffer;
use donut::shade::Sample;

const ZERO_OFFSET: u32 = 0x8000_0000;
const PALETTE: &[u8] = b"-~+*=;%#$@";

fn cleared(sx: u16, sy: u16) -> FrameBuffer {
    let mut fb = FrameBuffer::new(sx, sy);
    fb.clear(sx, sy);
    fb
}

fn assert_blank(fb: &FrameBuffer) {
    for y in 0..fb.height() {
        for x in 0..fb.width() {
            assert_eq!(fb.glyph_at(x, y), BLANK);
            assert_eq!(fb.depth_at(x, y), FAR);
        }
    }
}

#[test]
fn palette_runs_from_dim_to_bright() {
    assert_eq!(LEVELS, PALETTE.len());
    for level in 0..LEVELS {
        assert_eq!(glyph(level), PALETTE[level]);
    }
}

#[test]
fn frame_constants() {
    assert_eq!(BLANK, b' ');
    assert_eq!(NEWLINE, b'\n');
    assert_eq!(FAR, i64::MIN);
}

#[test]
fn new_buffer_has_its_size_and_no_text() {
    let fb = FrameBuffer::new(80, 24);
    assert_eq!(fb.width(), 80);
    assert_eq!(fb.height(), 24);
}

#[test]
fn clear_gives_a_blank_frame() {
    let fb = cleared(80, 24);
    assert_eq!(fb.width(), 80);
    assert_eq!(fb.height(), 24);
    assert_blank(&fb);
}

#[test]
fn clear_after_resize_leaves_nothing_behind() {
    let mut fb = cleared(80, 24);
    for y in 0..24 {
        for x in 0..80 {
            fb.poke_with(x, y, ONE / 2, 7 * ONE, ZERO_OFFSET);
        }
    }
    fb.clear(40, 10);
    assert_eq!(fb.width(), 40);
    assert_eq!(fb.height(), 10);
    assert_blank(&fb);
    assert_eq!(fb.write().len(), 410);
    fb.poke_with(39, 9, ONE / 2, 7 * ONE, ZERO_OFFSET);
    fb.clear(100, 50);
    assert_eq!(fb.width(), 100);
    assert_eq!(fb.height(), 50);
    assert_blank(&fb);
    assert_eq!(fb.write().len(), 5050);
}

#[test]
fn clear_to_an_empty_screen() {
    let mut fb = cleared(80, 24);
    fb.clear(0, 24);
    assert_eq!(fb.width(), 0);
    assert_eq!(fb.write(), vec![NEWLINE; 24]);
    fb.clear(80, 0);
    assert_eq!(fb.height(), 0);
    assert_eq!(fb.write().len(), 0);
    fb.clear(0, 0);
    assert_eq!(fb.write().len(), 0);
}

#[test]
fn poke_with_writes_the_dithered_glyph() {
    let mut fb = cleared(80, 24);
    fb.poke_with(3, 4, ONE / 2, 5, ZERO_OFFSET);
    assert_eq!(fb.glyph_at(3, 4), b';');
    assert_eq!(fb.depth_at(3, 4), 5);
    fb.poke_with(0, 0, 4_362_076, 6, ZERO_OFFSET);
    assert_eq!(fb.glyph_at(0, 0), b'*');
    fb.poke_with(79, 23, 16_609_444, 6, u32::MAX);
    assert_eq!(fb.glyph_at(79, 23), b'@');
    fb.poke_with(1, 0, 1, 6, 0);
    assert_eq!(fb.glyph_at(1, 0), b'-');
}

#[test]
fn poke_with_clamps_brightness_out_of_range() {
    let mut fb = cleared(8, 4);
    fb.poke_with(0, 0, i64::MAX, 1, 0);
    assert_eq!(fb.glyph_at(0, 0), b'@');
    fb.poke_with(1, 0, i64::MIN, 1, u32::MAX);
    assert_eq!(fb.glyph_at(1, 0), b'-');
    fb.poke_with(2, 0, 2 * ONE, 1, 0);
    assert_eq!(fb.glyph_at(2, 0), b'@');
}

#[test]
fn poke_with_changes_one_cell_only() {
    let mut fb = cleared(5, 3);
    fb.poke_with(4, 1, ONE / 2, 5, ZERO_OFFSET);
    for y in 0..3 {
        for x in 0..5 {
            if (x, y) == (4, 1) {
                assert_eq!(fb.glyph_at(x, y), b';');
                assert_eq!(fb.depth_at(x, y), 5);
            } else {
                assert_eq!(fb.glyph_at(x, y), BLANK);
                assert_eq!(fb.depth_at(x, y), FAR);
            }
        }
    }
}

#[test]
fn nearer_sample_wins_whatever_the_order() {
    let mut fb = cleared(10, 10);
    fb.poke_with(2, 2, ONE / 10, 3 * ONE, ZERO_OFFSET);
    fb.poke_with(2, 2, ONE / 2, 9 * ONE, ZERO_OFFSET);
    fb.poke_with(2, 2, 9 * ONE / 10, 5 * ONE, ZERO_OFFSET);
    assert_eq!(fb.depth_at(2, 2), 9 * ONE);
    assert_eq!(fb.glyph_at(2, 2), b';');

    let mut other = cleared(10, 10);
    other.poke_with(2, 2, 9 * ONE / 10, 5 * ONE, ZERO_OFFSET);
    other.poke_with(2, 2, ONE / 2, 9 * ONE, ZERO_OFFSET);
    other.poke_with(2, 2, ONE / 10, 3 * ONE, ZERO_OFFSET);
    assert_eq!(other.depth_at(2, 2), 9 * ONE);
    assert_eq!(other.glyph_at(2, 2), b';');
}

#[test]
fn first_sample_wins_a_tie() {
    let mut fb = cleared(10, 10);
    fb.poke_with(2, 2, ONE / 10, 3 * ONE, ZERO_OFFSET);
    fb.poke_with(2, 2, 9 * ONE / 10, 3 * ONE, ZERO_OFFSET);
    assert_eq!(fb.depth_at(2, 2), 3 * ONE);
    assert_eq!(fb.glyph_at(2, 2), b'~');
}

#[test]
fn first_sample_on_a_cell_is_drawn_however_deep() {
    let mut fb = cleared(80, 24);
    fb.poke_if(3, 2, 16_609_444, -2000 * ONE);
    assert_eq!(fb.depth_at(3, 2), -2000 * ONE);
    assert_eq!(fb.glyph_at(3, 2), b'@');
    fb.poke_with(4, 2, ONE / 2, i64::MIN + 1, ZERO_OFFSET);
    assert_eq!(fb.depth_at(4, 2), i64::MIN + 1);
    assert_eq!(fb.glyph_at(4, 2), b';');
    let text = fb.write();
    assert_eq!(text[2 * 81 + 3], b'@');
    assert_eq!(text[2 * 81 + 4], b';');
}

#[test]
fn sample_at_the_far_depth_is_not_nearer_than_a_blank() {
    let mut fb = cleared(10, 10);
    fb.poke_with(2, 2, ONE / 2, FAR, ZERO_OFFSET);
    assert_eq!(fb.glyph_at(2, 2), BLANK);
    fb.poke_if(2, 2, ONE / 2, FAR);
    assert_eq!(fb.glyph_at(2, 2), BLANK);
    assert_eq!(fb.depth_at(2, 2), FAR);
    fb.poke_if(2, 2, ONE / 2, FAR + 1);
    assert_eq!(fb.depth_at(2, 2), FAR + 1);
    assert_eq!(fb.glyph_at(2, 2), b';');
}

#[test]
fn stored_depth_is_the_largest_offered() {
    let mut fb = cleared(10, 10);
    let depths: [i64; 6] = [-5000, -2000, -3000, -2000, -7000, -2500];
    for (i, &z) in depths.iter().enumerate() {
        fb.poke_with(7, 8, (i as i64 + 1) * ONE / 10, z * ONE, ZERO_OFFSET);
    }
    assert_eq!(fb.depth_at(7, 8), -2000 * ONE);
    assert_eq!(fb.glyph_at(7, 8), b'+');
}

#[test]
fn poke_if_keeps_the_largest_depth() {
    let mut fb = cleared(10, 10);
    let depths: [i64; 7] = [3, -20, 11, 7, 11, 2, 10];
    let mut best = FAR;
    for (i, &z) in depths.iter().enumerate() {
        fb.poke_if(5, 6, (i as i64 + 1) * ONE / 10, z * ONE);
        if z * ONE > best {
            best = z * ONE;
        }
        assert_eq!(fb.depth_at(5, 6), best);
    }
    assert_eq!(fb.depth_at(5, 6), 11 * ONE);
    let g = fb.glyph_at(5, 6);
    assert!(g == b'+' || g == b'*');
}

#[test]
fn poke_if_dithers_to_a_neighbouring_level() {
    for _ in 0..200 {
        let mut fb = cleared(4, 4);
        fb.poke_if(1, 1, 45 * ONE / 100, 0);
        let g = fb.glyph_at(1, 1);
        assert!(g == b'=' || g == b';');
    }
}

#[test]
fn poke_if_brightest_is_last_glyph() {
    for _ in 0..200 {
        let mut fb = cleared(4, 4);
        fb.poke_if(1, 1, 16_609_444, 0);
        assert_eq!(fb.glyph_at(1, 1), b'@');
    }
}

#[test]
fn write_gives_every_row_with_its_terminator() {
    let mut fb = cleared(4, 3);
    fb.poke_with(0, 0, ONE / 2, 1, ZERO_OFFSET);
    fb.poke_with(3, 0, ONE / 2, 1, ZERO_OFFSET);
    fb.poke_with(1, 2, ONE / 2, 1, ZERO_OFFSET);
    fb.poke_with(3, 2, ONE / 10, 1, ZERO_OFFSET);
    let text = fb.write();
    assert_eq!(text, b";  ;\n    \n ; ~\n".to_vec());
}

#[test]
fn write_holds_every_cell_of_every_row() {
    let mut fb = cleared(80, 24);
    for y in 0..24 {
        for x in 0..80 {
            fb.poke_with(x, y, ((x + y) % 10) as i64 * ONE / 10, 1, ZERO_OFFSET);
        }
    }
    let text = fb.write();
    assert_eq!(text.len(), 24 * 81);
    let lines: Vec<&[u8]> = text.split(|&b| b == NEWLINE).collect();
    assert_eq!(lines.len(), 25);
    assert!(lines[24].is_empty());
    for y in 0..24 {
        assert_eq!(lines[y].len(), 80);
        for x in 0..80 {
            assert_eq!(lines[y][x], fb.glyph_at(x, y));
            assert_eq!(lines[y][x], PALETTE[(x + y) % 10]);
        }
    }
    assert_eq!(text[23 * 81 + 79], fb.glyph_at(79, 23));
}

#[test]
fn write_is_printable_text() {
    let mut fb = cleared(20, 10);
    for y in 0..10 {
        for x in 0..20 {
            fb.poke_if(x, y, (x as i64) * ONE / 20, y as i64);
        }
    }
    let text = fb.write();
    assert_eq!(text.len(), 210);
    for &b in text.iter() {
        assert!(b == NEWLINE || PALETTE.contains(&b));
    }
    assert!(String::from_utf8(text).is_ok());
}

#[test]
fn back_face_is_never_drawn() {
    let mut fb = cleared(80, 24);
    let cosines: [i32; 4] = [1, 1000, ONE as i32, i32::MAX];
    for &n_dot_cam in cosines.iter() {
        let s = Sample {
            x: 40 * ONE,
            y: 12 * ONE,
            depth: 5 * ONE,
            n_dot_cam,
            n_dot_light: ONE as i32,
            light_dot_cam: 0,
        };
        fb.plot(&s);
        fb.plot_with(&s, ZERO_OFFSET, ZERO_OFFSET, ZERO_OFFSET);
        assert_blank(&fb);
    }
}

#[test]
fn unlit_sample_is_not_drawn() {
    let mut fb = cleared(80, 24);
    let s = Sample {
        x: 40 * ONE,
        y: 12 * ONE,
        depth: 5 * ONE,
        n_dot_cam: -(ONE as i32),
        n_dot_light: 0,
        light_dot_cam: ONE as i32,
    };
    fb.plot(&s);
    fb.plot_with(&s, ZERO_OFFSET, ZERO_OFFSET, ZERO_OFFSET);
    assert_blank(&fb);
}

#[test]
fn off_screen_sample_is_not_drawn() {
    let mut fb = cleared(80, 24);
    let places: [(i64, i64); 4] = [(-1, 0), (0, -1), (80 * ONE, 0), (0, 24 * ONE)];
    for &(x, y) in places.iter() {
        let s = Sample {
            x,
            y,
            depth: 5 * ONE,
            n_dot_cam: 0,
            n_dot_light: ONE as i32,
            light_dot_cam: 0,
        };
        fb.plot(&s);
        assert_blank(&fb);
    }
}

#[test]
fn nothing_is_drawn_on_an_empty_screen() {
    let s = Sample {
        x: 0,
        y: 0,
        depth: 5 * ONE,
        n_dot_cam: 0,
        n_dot_light: ONE as i32,
        light_dot_cam: 0,
    };
    let sizes: [(u16, u16); 3] = [(0, 24), (80, 0), (0, 0)];
    for &(sx, sy) in sizes.iter() {
        let mut fb = cleared(sx, sy);
        fb.plot(&s);
        fb.plot_with(&s, 0, 0, 0);
        assert_eq!(fb.write(), vec![NEWLINE; sy as usize * (sx as usize + 1)]);
    }
}

#[test]
fn plot_with_draws_at_the_dithered_cell() {
    let mut fb = cleared(80, 24);
    let s = Sample {
        x: 40 * ONE + ONE / 4,
        y: 12 * ONE + 3 * ONE / 4,
        depth: 5 * ONE,
        n_dot_cam: 0,
        n_dot_light: ONE as i32,
        light_dot_cam: 0,
    };
    fb.plot_with(&s, ZERO_OFFSET, ZERO_OFFSET, ZERO_OFFSET);
    assert_eq!(fb.glyph_at(40, 13), b'$');
    assert_eq!(fb.depth_at(40, 13), 5 * ONE);
    fb.plot_with(&s, u32::MAX, 0, 0);
    assert_eq!(fb.glyph_at(41, 12), b'#');
    assert_eq!(fb.depth_at(41, 12), 5 * ONE);
}

#[test]
fn plot_draws_next_to_the_sample() {
    for _ in 0..200 {
        let mut fb = cleared(80, 24);
        let s = Sample {
            x: 40 * ONE + ONE / 2,
            y: 12 * ONE,
            depth: 5 * ONE,
            n_dot_cam: 0,
            n_dot_light: ONE as i32,
            light_dot_cam: 0,
        };
        fb.plot(&s);
        let mut drawn = 0;
        for y in 0..24 {
            for x in 0..80 {
                if fb.glyph_at(x, y) != BLANK {
                    drawn += 1;
                    assert!(x == 40 || x == 41);
                    assert_eq!(y, 12);
                    assert!(PALETTE.contains(&fb.glyph_at(x, y)));
                    assert_eq!(fb.depth_at(x, y), 5 * ONE);
                }
            }
        }
        assert_eq!(drawn, 1);
    }
}

#[test]
fn plot_keeps_the_nearer_of_two_samples() {
    let mut fb = cleared(80, 24);
    let near = Sample {
        x: 10 * ONE,
        y: 10 * ONE,
        depth: 8 * ONE,
        n_dot_cam: 0,
        n_dot_light: ONE as i32,
        light_dot_cam: 0,
    };
    let far = Sample { depth: 2 * ONE, n_dot_light: ONE as i32 / 4, ..near };
    fb.plot_with(&near, ZERO_OFFSET, ZERO_OFFSET, ZERO_OFFSET);
    fb.plot_with(&far, ZERO_OFFSET, ZERO_OFFSET, ZERO_OFFSET);
    assert_eq!(fb.glyph_at(10, 10), b'$');
    assert_eq!(fb.depth_at(10, 10), 8 * ONE);
}

#[test]
fn back_faces_among_the_samples_change_nothing() {
    let front = |i: i64| Sample {
        x: (3 * i + 1) * ONE,
        y: (i % 24) * ONE,
        depth: (i % 5) * ONE,
        n_dot_cam: -(ONE as i32) / 2,
        n_dot_light: ONE as i32 / 2,
        light_dot_cam: -(ONE as i32) / 4,
    };
    let back = |i: i64| Sample { n_dot_cam: 1 + (i as i32), depth: 100 * ONE, ..front(i) };

    let mut with = cleared(80, 24);
    let mut without = cleared(80, 24);
    for i in 0..26 {
        with.plot_with(&back(i), 17, 4_000_000_000, ZERO_OFFSET);
        with.plot_with(&front(i), ZERO_OFFSET, ZERO_OFFSET, ZERO_OFFSET);
        with.plot(&back(i + 1));
        without.plot_with(&front(i), ZERO_OFFSET, ZERO_OFFSET, ZERO_OFFSET);
    }
    assert_eq!(with.write(), without.write());
    for y in 0..24 {
        for x in 0..80 {
            assert_eq!(with.depth_at(x, y), without.depth_at(x, y));
        }
    }
    assert!(with.write().iter().any(|&b| b != NEWLINE && b != BLANK));
}
