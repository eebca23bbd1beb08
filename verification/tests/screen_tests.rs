use ironkernel::screen::{
    mode_registers, Screen, CURSOR_BUFFER_INIT, DEFAULT_BG, DEFAULT_FG, START_ADDR,
};

fn px(s: &Screen, x: u32, y: u32) -> u32 {
    s.fb[(x + s.width * y) as usize]
}

#[test]
fn start_up_state() {
    let s = Screen::new(640, 480);
    assert_eq!(s.fb.len(), 640 * 496);
    assert_eq!(px(&s, 0, 0), DEFAULT_FG);
    assert_eq!(px(&s, 7, 15), DEFAULT_FG);
    assert_eq!(px(&s, 8, 0), DEFAULT_BG);
    assert_eq!(px(&s, 0, 16), DEFAULT_BG);
    assert_eq!(px(&s, 639, 479), DEFAULT_BG);
    assert_eq!(s.fb[640 * 480], 0);
    assert_eq!(s.cursor_buffer, vec![CURSOR_BUFFER_INIT; 128]);
}

#[test]
fn mode_register_writes() {
    let w = mode_registers(800, 600);
    assert_eq!(w.len(), 6);
    assert_eq!(w[0], (0x10000010, 0x2CAC));
    assert_eq!(w[4], (0x10120010, START_ADDR));
    let w = mode_registers(640, 480);
    assert_eq!(w[1], (0x10120000, 0x3F1F3F9C));
    assert!(mode_registers(1024, 768).is_empty());
}

#[test]
fn paint_and_colours() {
    let mut s = Screen::new(16, 32);
    s.set_bg(5);
    s.fill_bg();
    assert!(s.fb[..16 * 32].iter().all(|&p| p == 5));
    s.paint(9);
    assert_eq!(px(&s, 15, 31), 9);
    s.set_fg(1);
    s.set_cursor_color(2);
    assert_eq!((s.fg_color, s.cursor_color, s.bg_color), (1, 2, 5));
}

#[test]
fn scrollup_moves_rows() {
    let mut s = Screen::new(8, 32);
    s.paint(0);
    for y in 0..32u32 {
        for x in 0..8u32 {
            s.fb[(x + 8 * y) as usize] = y;
        }
    }
    s.cursor_y = 20;
    s.cursor_x = 3;
    s.scrollup();
    assert_eq!(px(&s, 0, 0), 16);
    assert_eq!(px(&s, 7, 15), 31);
    assert_eq!(px(&s, 0, 16), DEFAULT_BG);
    assert_eq!(px(&s, 7, 31), DEFAULT_BG);
    assert_eq!((s.cursor_x, s.cursor_y), (0, 4));
}

#[test]
fn draw_char_paints_glyph_right_of_cursor() {
    let mut s = Screen::new(16, 32);
    s.set_fg(0xAA);
    s.set_bg(0xBB);
    s.paint(0);
    let mut glyph = [0u32; 16];
    glyph[1] = 1 << 28;
    glyph[2] = 1;
    glyph[0] = 0xffff_ffff;
    s.draw_char(&glyph);
    assert_eq!(px(&s, 1, 1), 0xAA);
    assert_eq!(px(&s, 2, 1), 0xBB);
    assert_eq!(px(&s, 8, 2), 0xAA);
    assert_eq!(px(&s, 1, 2), 0xBB);
    assert_eq!(px(&s, 1, 0), 0);
    assert_eq!(px(&s, 0, 1), 0);
    assert_eq!(px(&s, 9, 1), 0);
}

#[test]
fn draw_char_scrolls_when_cursor_is_below_the_screen() {
    let mut s = Screen::new(8, 32);
    s.cursor_y = 40;
    s.draw_char(&[0u32; 16]);
    assert_eq!((s.cursor_x, s.cursor_y), (0, 24));
}

#[test]
fn backup_and_restore_cursor_cell() {
    let mut s = Screen::new(16, 32);
    s.paint(3);
    s.fb[(2 + 16 * 5) as usize] = 77;
    s.cursor_x = 2;
    s.cursor_y = 5;
    s.backup();
    assert_eq!((s.save_x, s.save_y), (2, 5));
    assert_eq!(s.cursor_buffer[0], 77);
    assert_eq!(s.cursor_buffer[1], 3);
    s.draw_cursor();
    assert_eq!(px(&s, 2, 5), DEFAULT_FG);
    s.restore();
    assert_eq!(px(&s, 2, 5), 77);
    assert_eq!(px(&s, 9, 20), 3);
}
