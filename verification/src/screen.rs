use vstd::prelude::*;

verus! {

// A framebuffer console: a cursor cell of 8 by 16 pixels moves over a screen of
// `width` by `height` pixels, one 32-bit colour per pixel, row after row.

/// Height in pixels of a character cell.
pub const CURSOR_HEIGHT: u32 = 16;

/// Width in pixels of a character cell.
pub const CURSOR_WIDTH: u32 = 8;

/// Address of the first pixel of the framebuffer.
pub const START_ADDR: u32 = 1024 * 1024;

/// Colour the cursor save area holds before anything is saved.
pub const CURSOR_BUFFER_INIT: u32 = 0x00FF0000;

/// Background colour set at start-up.
pub const DEFAULT_BG: u32 = 0x222C38;

/// Foreground and cursor colour set at start-up.
pub const DEFAULT_FG: u32 = 0xFAFCFF;

/// The cell `(i, j)` of the 8 by 16 rectangle whose top-left pixel is `base`, on
/// a screen `w` pixels wide, that pixel `k` is, if any.
pub open spec fn rect_cell(base: int, w: int, k: int) -> Option<(int, int)> {
    let d = k - base;
    if d >= 0 && d % w < 8 && d / w < 16 {
        Some((d % w, d / w))
    } else {
        None
    }
}

/// Pixel `(i, j)` of the 8 by 16 rectangle at `base`.
pub open spec fn rect_pixel(base: int, w: int, i: int, j: int) -> int {
    base + i + w * j
}

/// The pixels of `fb` after writing, in the rectangle at `base`, the cells that
/// `val` gives a colour and that come before cell `(ii, jj)` in row order; every
/// other pixel is as in `fb0`.
pub open spec fn rect_partial(
    fb0: Seq<u32>,
    fb: Seq<u32>,
    base: int,
    w: int,
    val: spec_fn(int, int) -> Option<u32>,
    ii: int,
    jj: int,
) -> bool {
    &&& fb.len() == fb0.len()
    &&& forall|k: int|
        0 <= k < fb.len() ==> #[trigger] fb[k] == match rect_cell(base, w, k) {
            Some(c) => if (c.1 < jj || (c.1 == jj && c.0 < ii)) && val(c.0, c.1) is Some {
                val(c.0, c.1)->0
            } else {
                fb0[k]
            },
            None => fb0[k],
        }
}

/// All of the rectangle at `base` written with the colours of `val`.
pub open spec fn rect_painted(
    fb0: Seq<u32>,
    fb: Seq<u32>,
    base: int,
    w: int,
    val: spec_fn(int, int) -> Option<u32>,
) -> bool {
    rect_partial(fb0, fb, base, w, val, 0, 16)
}

proof fn lemma_rect_cell(base: int, w: int, i: int, j: int)
    requires
        w >= 8,
        0 <= i < 8,
        0 <= j < 16,
    ensures
        rect_cell(base, w, rect_pixel(base, w, i, j)) == Some((i, j)),
{
    assert(i + w * j == j * w + i) by (nonlinear_arith);
    vstd::arithmetic::div_mod::lemma_fundamental_div_mod_converse(i + w * j, w, j, i);
}

proof fn lemma_rect_cell_inv(base: int, w: int, k: int)
    requires
        w >= 8,
        rect_cell(base, w, k) is Some,
    ensures
        ({
            let c = rect_cell(base, w, k)->0;
            &&& k == rect_pixel(base, w, c.0, c.1)
            &&& 0 <= c.0 < 8
            &&& 0 <= c.1 < 16
        }),
{
    vstd::arithmetic::div_mod::lemma_fundamental_div_mod(k - base, w);
    vstd::arithmetic::div_mod::lemma_div_pos_is_pos(k - base, w);
    vstd::arithmetic::div_mod::lemma_mod_pos_bound(k - base, w);
}

/// Writing the colour of cell `(ii, jj)` moves the written part one cell on.
proof fn lemma_rect_step(
    fb0: Seq<u32>,
    fb: Seq<u32>,
    base: int,
    w: int,
    val: spec_fn(int, int) -> Option<u32>,
    ii: int,
    jj: int,
)
    requires
        rect_partial(fb0, fb, base, w, val, ii, jj),
        w >= 8,
        0 <= ii < 8,
        0 <= jj < 16,
        0 <= rect_pixel(base, w, ii, jj) < fb.len(),
        val(ii, jj) is Some,
    ensures
        rect_partial(
            fb0,
            fb.update(rect_pixel(base, w, ii, jj), val(ii, jj)->0),
            base,
            w,
            val,
            ii + 1,
            jj,
        ),
{
    let k0 = rect_pixel(base, w, ii, jj);
    let fb2 = fb.update(k0, val(ii, jj)->0);
    lemma_rect_cell(base, w, ii, jj);
    assert forall|k: int| 0 <= k < fb2.len() implies #[trigger] fb2[k] == match rect_cell(
        base,
        w,
        k,
    ) {
        Some(c) => if (c.1 < jj || (c.1 == jj && c.0 < ii + 1)) && val(c.0, c.1) is Some {
            val(c.0, c.1)->0
        } else {
            fb0[k]
        },
        None => fb0[k],
    } by {
        if k != k0 {
            assert(fb2[k] == fb[k]);
            if rect_cell(base, w, k) is Some {
                lemma_rect_cell_inv(base, w, k);
            }
        }
    }
}

/// A finished row hands over to the next.
proof fn lemma_rect_row(
    fb0: Seq<u32>,
    fb: Seq<u32>,
    base: int,
    w: int,
    val: spec_fn(int, int) -> Option<u32>,
    jj: int,
)
    requires
        rect_partial(fb0, fb, base, w, val, 8, jj),
        w >= 8,
    ensures
        rect_partial(fb0, fb, base, w, val, 0, jj + 1),
{
    assert forall|k: int| 0 <= k < fb.len() implies #[trigger] fb[k] == match rect_cell(
        base,
        w,
        k,
    ) {
        Some(c) => if (c.1 < jj + 1 || (c.1 == jj + 1 && c.0 < 0)) && val(c.0, c.1) is Some {
            val(c.0, c.1)->0
        } else {
            fb0[k]
        },
        None => fb0[k],
    } by {
        if rect_cell(base, w, k) is Some {
            lemma_rect_cell_inv(base, w, k);
        }
    }
}

/// A row with no colour from `val` is kept as it is.
proof fn lemma_rect_skip_row(
    fb0: Seq<u32>,
    fb: Seq<u32>,
    base: int,
    w: int,
    val: spec_fn(int, int) -> Option<u32>,
    jj: int,
)
    requires
        rect_partial(fb0, fb, base, w, val, 0, jj),
        forall|c: int| 0 <= c < 8 ==> #[trigger] val(c, jj) is None,
        w >= 8,
    ensures
        rect_partial(fb0, fb, base, w, val, 0, jj + 1),
{
    assert forall|k: int| 0 <= k < fb.len() implies #[trigger] fb[k] == match rect_cell(
        base,
        w,
        k,
    ) {
        Some(c) => if (c.1 < jj + 1 || (c.1 == jj + 1 && c.0 < 0)) && val(c.0, c.1) is Some {
            val(c.0, c.1)->0
        } else {
            fb0[k]
        },
        None => fb0[k],
    } by {
        if rect_cell(base, w, k) is Some {
            lemma_rect_cell_inv(base, w, k);
        }
    }
}

/// The pixels after the visible part moved up by `sh` pixels, with the background
/// colour `bg` coming in at the bottom; pixels past `vis` are kept.
pub open spec fn scroll_fb(fb: Seq<u32>, vis: int, sh: int, bg: u32) -> Seq<u32> {
    Seq::new(
        fb.len(),
        |k: int|
            if k >= vis {
                fb[k]
            } else if k + sh < vis {
                fb[k + sh]
            } else {
                bg
            },
    )
}

/// Law: scrolling by `s1` pixels and then by `s2` is scrolling by `s1 + s2`.
pub proof fn lemma_scroll_compose(fb: Seq<u32>, vis: int, s1: int, s2: int, bg: u32)
    requires
        s1 >= 0,
        s2 >= 0,
        vis <= fb.len(),
    ensures
        scroll_fb(scroll_fb(fb, vis, s1, bg), vis, s2, bg) == scroll_fb(fb, vis, s1 + s2, bg),
{
    assert(scroll_fb(scroll_fb(fb, vis, s1, bg), vis, s2, bg) =~= scroll_fb(fb, vis, s1 + s2, bg));
}

/// How many times the screen scrolls up by a text row before the cursor at
/// `(cx, cy)` is on the screen; the cursor goes to column 0 with the first.
pub open spec fn scrolls_needed(cx: int, cy: int, w: int, h: int) -> nat
    decreases cy,
{
    if cx + w * cy < w * h || cy < 16 {
        0
    } else {
        1 + scrolls_needed(0, cy - 16, w, h)
    }
}

/// The colour of glyph pixel `(c, j)`: row `j` of `map` holds one bit every
/// four, the left column in the highest; the top row is not drawn.
pub open spec fn glyph_val(map: Seq<u32>, fg: u32, bg: u32) -> spec_fn(int, int) -> Option<u32> {
    |c: int, j: int|
        if 1 <= j < 16 {
            Some(
                if (map[j] >> ((4 * (7 - c)) as u32)) & 1 == 1 {
                    fg
                } else {
                    bg
                },
            )
        } else {
            None
        }
}

/// Law: every glyph row from 1 to 15 is drawn, column `c` in the foreground
/// colour when bit `4 * (7 - c)` of the row is set and in the background colour
/// when it is clear; row 0 is left as it is.
pub proof fn lemma_glyph_rows(map: Seq<u32>, fg: u32, bg: u32)
    ensures
        forall|c: int, j: int|
            0 <= c < 8 && 1 <= j < 16 ==> #[trigger] glyph_val(map, fg, bg)(c, j) == Some(
                if (map[j] >> ((4 * (7 - c)) as u32)) & 1 == 1 {
                    fg
                } else {
                    bg
                },
            ),
        forall|c: int| 0 <= c < 8 ==> #[trigger] glyph_val(map, fg, bg)(c, 0) is None,
{
}

/// Law: each display mode that the controller knows ends its set-up with the
/// control register write `(0x10120018, 0x82B)` that powers the display on, after
/// pointing the frame base at `START_ADDR`.
pub proof fn lemma_mode_enables_display(width: u32, height: u32)
    requires
        (width == 800 && height == 600) || (width == 640 && height == 480),
    ensures
        mode_writes(width, height).len() == 6,
        mode_writes(width, height)[4] == (0x10120010u32, START_ADDR),
        mode_writes(width, height)[5] == (0x10120018u32, 0x82Bu32),
{
}

/// The register writes, as (address, value), that set up the display
/// controller for a mode; none for a mode it does not know.
pub open spec fn mode_writes(width: u32, height: u32) -> Seq<(u32, u32)> {
    if width == 800 && height == 600 {
        seq![
            (0x10000010u32, 0x2CACu32),
            (0x10120000u32, 0x1313A4C4u32),
            (0x10120004u32, 0x0505F657u32),
            (0x10120008u32, 0x071F1800u32),
            (0x10120010u32, START_ADDR),
            (0x10120018u32, 0x82Bu32),
        ]
    } else if width == 640 && height == 480 {
        seq![
            (0x10000010u32, 0x2C77u32),
            (0x10120000u32, 0x3F1F3F9Cu32),
            (0x10120004u32, 0x090B61DFu32),
            (0x10120008u32, 0x067F1800u32),
            (0x10120010u32, START_ADDR),
            (0x10120018u32, 0x82Bu32),
        ]
    } else {
        Seq::empty()
    }
}

/// The register writes that set up the display controller for `width` by
/// `height` pixels.
pub fn mode_registers(width: u32, height: u32) -> (res: Vec<(u32, u32)>)
    ensures
        res@ == mode_writes(width, height),
        width == 800 && height == 600 ==> res@ == seq![
            (0x10000010u32, 0x2CACu32),
            (0x10120000u32, 0x1313A4C4u32),
            (0x10120004u32, 0x0505F657u32),
            (0x10120008u32, 0x071F1800u32),
            (0x10120010u32, START_ADDR),
            (0x10120018u32, 0x82Bu32),
        ],
        width == 640 && height == 480 ==> res@ == seq![
            (0x10000010u32, 0x2C77u32),
            (0x10120000u32, 0x3F1F3F9Cu32),
            (0x10120004u32, 0x090B61DFu32),
            (0x10120008u32, 0x067F1800u32),
            (0x10120010u32, START_ADDR),
            (0x10120018u32, 0x82Bu32),
        ],
        (width == 800 && height == 600) || (width == 640 && height == 480) ==> res@.len() > 0
            && res@.last() == (0x10120018u32, 0x82Bu32),
        !((width == 800 && height == 600) || (width == 640 && height == 480)) ==> res@.len() == 0,
{
    let mut res: Vec<(u32, u32)> = Vec::new();
    if width == 800 && height == 600 {
        res.push((0x10000010, 0x2CAC));
        res.push((0x10120000, 0x1313A4C4));
        res.push((0x10120004, 0x0505F657));
        res.push((0x10120008, 0x071F1800));
        res.push((0x10120010, START_ADDR));
        res.push((0x10120018, 0x82B));
    } else if width == 640 && height == 480 {
        res.push((0x10000010, 0x2C77));
        res.push((0x10120000, 0x3F1F3F9C));
        res.push((0x10120004, 0x090B61DF));
        res.push((0x10120008, 0x067F1800));
        res.push((0x10120010, START_ADDR));
        res.push((0x10120018, 0x82B));
    }
    assert(res@ =~= mode_writes(width, height));
    res
}

/// The uniform colour `c` on every cell.
pub open spec fn solid(c: u32) -> spec_fn(int, int) -> Option<u32> {
    |i: int, j: int| Some(c)
}

/// The state of the console.
pub struct Screen {
    /// The pixels: the visible `width * height`, then 16 rows below them that a
    /// cell drawn on the last text row reaches into.
    pub fb: Vec<u32>,
    pub width: u32,
    pub height: u32,
    pub cursor_x: u32,
    pub cursor_y: u32,
    pub cursor_color: u32,
    pub fg_color: u32,
    pub bg_color: u32,
    /// The pixels under the cursor, saved by `backup`, row after row.
    pub cursor_buffer: Vec<u32>,
    pub save_x: u32,
    pub save_y: u32,
}

impl Screen {
    /// Sizes fit (the framebuffer's pixels, four bytes each from `START_ADDR`, end
    /// below 4 GiB), the framebuffer holds the screen and 16 rows more, the cursor
    /// column is on the screen and the saved cell is on the screen.
    pub open spec fn wf(&self) -> bool {
        &&& 8 <= self.width
        &&& 16 <= self.height
        &&& self.width * (self.height + 16) <= 0x3FFC_0000
        &&& self.fb@.len() == self.width * (self.height + 16)
        &&& self.cursor_buffer@.len() == 128
        &&& self.cursor_x < self.width
        &&& self.save_x < self.width
        &&& self.save_x + self.width * self.save_y < self.width * self.height
    }

    /// Number of visible pixels.
    pub open spec fn visible(&self) -> int {
        self.width * self.height
    }

    /// The pixel under the top-left corner of the cursor.
    pub open spec fn cursor_base(&self) -> int {
        self.cursor_x + self.width * self.cursor_y
    }

    /// The pixel under the top-left corner of the saved cell.
    pub open spec fn save_base(&self) -> int {
        self.save_x + self.width * self.save_y
    }

    /// Only the pixels, the cursor and the saved cell may differ.
    pub open spec fn same_settings(&self, other: &Screen) -> bool {
        &&& self.width == other.width
        &&& self.height == other.height
        &&& self.cursor_color == other.cursor_color
        &&& self.fg_color == other.fg_color
        &&& self.bg_color == other.bg_color
    }

    /// Sets the foreground colour.
    pub fn set_fg(&mut self, color: u32)
        ensures
            *final(self) == (Screen { fg_color: color, ..*old(self) }),
    {
        self.fg_color = color;
    }

    /// Sets the background colour.
    pub fn set_bg(&mut self, color: u32)
        ensures
            *final(self) == (Screen { bg_color: color, ..*old(self) }),
    {
        self.bg_color = color;
    }

    /// Sets the cursor colour.
    pub fn set_cursor_color(&mut self, color: u32)
        ensures
            *final(self) == (Screen { cursor_color: color, ..*old(self) }),
    {
        self.cursor_color = color;
    }

    /// Index of pixel `(i, j)` of the cell whose top-left pixel is `(x, y)`.
    fn cell_index(&self, x: u32, y: u32, i: u32, j: u32) -> (res: usize)
        requires
            self.wf(),
            x < self.width + 1,
            x + self.width * y < self.visible() + 1,
            i < 8,
            j < 16,
        ensures
            res == rect_pixel(x + self.width * y, self.width as int, i as int, j as int),
            res < self.fb@.len(),
    {
        let ghost w = self.width as int;
        let ghost h = self.height as int;
        proof {
            assert(h + 16 <= 0x3FFC_0000) by (nonlinear_arith)
                requires
                    w >= 8,
                    w * (h + 16) <= 0x3FFC_0000,
            ;
            assert(y <= h) by (nonlinear_arith)
                requires
                    x >= 0,
                    x + w * y < w * h + 1,
                    w >= 8,
            ;
            assert(w * (y + j) <= w * (h + 16)) by (nonlinear_arith)
                requires
                    y + j <= h + 16,
                    w >= 0,
            ;
            assert(w * (y + j) == w * y + w * j) by (nonlinear_arith);
            assert(x + i + w * y + w * j < w * (h + 16)) by (nonlinear_arith)
                requires
                    x + w * y < w * h + 1,
                    i < 8,
                    j < 16,
                    w >= 8,
            ;
        }
        (x + i + self.width * (y + j)) as usize
    }

    /// Paints the visible pixels `color`; the rows below the screen are kept.
    pub fn paint(&mut self, color: u32)
        requires
            old(self).wf(),
        ensures
            final(self).wf(),
            *final(self) == (Screen { fb: final(self).fb, ..*old(self) }),
            final(self).fb@.len() == old(self).fb@.len(),
            forall|k: int|
                0 <= k < old(self).fb@.len() ==> #[trigger] final(self).fb@[k] == if k
                    < old(self).visible() {
                    color
                } else {
                    old(self).fb@[k]
                },
    {
        let ghost fb0 = self.fb@;
        proof {
            assert(self.width * self.height <= self.width * (self.height + 16)) by (nonlinear_arith)
                requires
                    self.width >= 0,
            ;
        }
        let n = self.width * self.height;
        let mut i: u32 = 0;
        while i < n
            invariant
                n == self.visible(),
                n <= self.fb@.len(),
                i <= n,
                self.wf(),
                *self == (Screen { fb: self.fb, ..*old(self) }),
                self.fb@.len() == fb0.len(),
                fb0 == old(self).fb@,
                forall|k: int|
                    0 <= k < fb0.len() ==> #[trigger] self.fb@[k] == if k < i {
                        color
                    } else {
                        fb0[k]
                    },
            decreases n - i,
        {
            self.fb.set(i as usize, color);
            i += 1;
        }
    }

    /// Paints the visible pixels in the background colour.
    pub fn fill_bg(&mut self)
        requires
            old(self).wf(),
        ensures
            final(self).wf(),
            *final(self) == (Screen { fb: final(self).fb, ..*old(self) }),
            final(self).fb@.len() == old(self).fb@.len(),
            forall|k: int|
                0 <= k < old(self).fb@.len() ==> #[trigger] final(self).fb@[k] == if k
                    < old(self).visible() {
                    old(self).bg_color
                } else {
                    old(self).fb@[k]
                },
    {
        let c = self.bg_color;
        self.paint(c);
    }

    /// Paints the cell under the cursor in the cursor colour.
    pub fn draw_cursor(&mut self)
        requires
            old(self).wf(),
            old(self).cursor_base() < old(self).visible(),
        ensures
            final(self).wf(),
            *final(self) == (Screen { fb: final(self).fb, ..*old(self) }),
            rect_painted(
                old(self).fb@,
                final(self).fb@,
                old(self).cursor_base(),
                old(self).width as int,
                solid(old(self).cursor_color),
            ),
    {
        let ghost fb0 = self.fb@;
        let ghost base = self.cursor_base();
        let ghost w = self.width as int;
        let ghost val = solid(self.cursor_color);
        let mut j: u32 = 0;
        while j < CURSOR_HEIGHT
            invariant
                j <= 16,
                self.wf(),
                old(self).wf(),
                *self == (Screen { fb: self.fb, ..*old(self) }),
                fb0 == old(self).fb@,
                base == old(self).cursor_base(),
                base < old(self).visible(),
                w == old(self).width,
                val == solid(old(self).cursor_color),
                rect_partial(fb0, self.fb@, base, w, val, 0, j as int),
            decreases 16 - j,
        {
            let mut i: u32 = 0;
            while i < CURSOR_WIDTH
                invariant
                    i <= 8,
                    j < 16,
                    self.wf(),
                    old(self).wf(),
                    *self == (Screen { fb: self.fb, ..*old(self) }),
                    fb0 == old(self).fb@,
                    base == old(self).cursor_base(),
                    base < old(self).visible(),
                    w == old(self).width,
                    val == solid(old(self).cursor_color),
                    rect_partial(fb0, self.fb@, base, w, val, i as int, j as int),
                decreases 8 - i,
            {
                let k = self.cell_index(self.cursor_x, self.cursor_y, i, j);
                proof {
                    lemma_rect_step(fb0, self.fb@, base, w, val, i as int, j as int);
                }
                let c = self.cursor_color;
                self.fb.set(k, c);
                i += 1;
            }
            proof {
                lemma_rect_row(fb0, self.fb@, base, w, val, j as int);
            }
            j += 1;
        }
    }

    /// Moves the visible picture up by one text row (16 pixel rows), fills the
    /// bottom text row with the background colour and puts the cursor at the start
    /// of the text row above.
    pub fn scrollup(&mut self)
        requires
            old(self).wf(),
            old(self).cursor_y >= 16,
        ensures
            final(self).wf(),
            *final(self) == (Screen {
                fb: final(self).fb,
                cursor_x: 0,
                cursor_y: (old(self).cursor_y - 16) as u32,
                ..*old(self)
            }),
            final(self).fb@ == scroll_fb(
                old(self).fb@,
                old(self).visible(),
                16 * old(self).width,
                old(self).bg_color,
            ),
    {
        let ghost fb0 = self.fb@;
        let ghost w = self.width as int;
        let ghost vis = self.visible();
        proof {
            assert(self.width * self.height <= self.width * (self.height + 16)) by (nonlinear_arith)
                requires
                    self.width >= 0,
            ;
            assert(16 * w <= w * self.height) by (nonlinear_arith)
                requires
                    self.height >= 16,
                    w >= 0,
            ;
        }
        let n = self.width * self.height;
        let sh = CURSOR_HEIGHT * self.width;
        let mut i: u32 = sh;
        while i < n
            invariant
                n == vis,
                sh == 16 * w,
                sh <= i <= n,
                n <= self.fb@.len(),
                self.wf(),
                *self == (Screen { fb: self.fb, ..*old(self) }),
                fb0 == old(self).fb@,
                vis == old(self).visible(),
                w == old(self).width,
                self.fb@.len() == fb0.len(),
                forall|k: int|
                    0 <= k < fb0.len() ==> #[trigger] self.fb@[k] == if k < i - sh {
                        fb0[k + sh]
                    } else {
                        fb0[k]
                    },
            decreases n - i,
        {
            let v = self.fb[i as usize];
            self.fb.set((i - sh) as usize, v);
            i += 1;
        }
        let bg = self.bg_color;
        let mut i: u32 = n - sh;
        while i < n
            invariant
                n == vis,
                sh == 16 * w,
                n - sh <= i <= n,
                sh <= n,
                n <= self.fb@.len(),
                self.wf(),
                *self == (Screen { fb: self.fb, ..*old(self) }),
                fb0 == old(self).fb@,
                vis == old(self).visible(),
                w == old(self).width,
                bg == old(self).bg_color,
                self.fb@.len() == fb0.len(),
                forall|k: int|
                    0 <= k < fb0.len() ==> #[trigger] self.fb@[k] == if k < n - sh {
                        fb0[k + sh]
                    } else if k < i {
                        bg
                    } else {
                        fb0[k]
                    },
            decreases n - i,
        {
            self.fb.set(i as usize, bg);
            i += 1;
        }
        self.cursor_x = 0;
        self.cursor_y = self.cursor_y - CURSOR_HEIGHT;
        assert(self.fb@ =~= scroll_fb(fb0, vis, 16 * w, bg));
    }

    /// Whether the cursor is on the screen.
    fn cursor_visible(&self) -> (res: bool)
        requires
            self.wf(),
        ensures
            res == (self.cursor_base() < self.visible()),
    {
        proof {
            assert(self.width <= 0x3FFC_0000) by (nonlinear_arith)
                requires
                    self.width * (self.height + 16) <= 0x3FFC_0000,
                    self.height >= 0,
            ;
            assert(self.width * self.cursor_y <= 0x3FFC_0000 * 0x1_0000_0000) by (nonlinear_arith)
                requires
                    self.width <= 0x3FFC_0000,
                    self.cursor_y < 0x1_0000_0000,
            ;
            assert(self.width * self.height <= 0x3FFC_0000) by (nonlinear_arith)
                requires
                    self.width * (self.height + 16) <= 0x3FFC_0000,
                    self.width >= 0,
            ;
        }
        (self.cursor_x as u64) + (self.width as u64) * (self.cursor_y as u64) < (self.width as u64)
            * (self.height as u64)
    }

    /// Scrolls up until the cursor is on the screen.
    fn scroll_to_cursor(&mut self)
        requires
            old(self).wf(),
        ensures
            ({
                let n = scrolls_needed(
                    old(self).cursor_x as int,
                    old(self).cursor_y as int,
                    old(self).width as int,
                    old(self).height as int,
                );
                &&& final(self).wf()
                &&& *final(self) == (Screen {
                    fb: final(self).fb,
                    cursor_x: final(self).cursor_x,
                    cursor_y: final(self).cursor_y,
                    ..*old(self)
                })
                &&& final(self).fb@ == scroll_fb(
                    old(self).fb@,
                    old(self).visible(),
                    16 * old(self).width * n,
                    old(self).bg_color,
                )
                &&& final(self).cursor_y == old(self).cursor_y - 16 * n
                &&& final(self).cursor_x == if n == 0 {
                    old(self).cursor_x
                } else {
                    0
                }
                &&& final(self).cursor_base() < final(self).visible()
            }),
    {
        let ghost w = self.width as int;
        let ghost h = self.height as int;
        let ghost cx0 = self.cursor_x as int;
        let ghost cy0 = self.cursor_y as int;
        let ghost total = scrolls_needed(cx0, cy0, w, h);
        let ghost mut m: nat = 0;
        proof {
            assert(self.fb@ =~= scroll_fb(self.fb@, self.visible(), 0, self.bg_color));
            assert(16 * w * 0 == 0);
        }
        while !self.cursor_visible()
            invariant
                self.wf(),
                *self == (Screen {
                    fb: self.fb,
                    cursor_x: self.cursor_x,
                    cursor_y: self.cursor_y,
                    ..*old(self)
                }),
                w == old(self).width,
                h == old(self).height,
                cx0 == old(self).cursor_x,
                cy0 == old(self).cursor_y,
                total == scrolls_needed(cx0, cy0, w, h),
                total == m + scrolls_needed(self.cursor_x as int, self.cursor_y as int, w, h),
                self.fb@ == scroll_fb(old(self).fb@, old(self).visible(), 16 * w * m, old(self).bg_color),
                self.cursor_y == cy0 - 16 * m,
                self.cursor_x == if m == 0 {
                    cx0
                } else {
                    0
                },
            decreases self.cursor_y,
        {
            proof {
                assert(self.cursor_y >= h) by (nonlinear_arith)
                    requires
                        self.cursor_x < w,
                        self.cursor_x + w * self.cursor_y >= w * h,
                        w >= 8,
                ;
                assert(16 * w * (m + 1) == 16 * w * m + 16 * w) by (nonlinear_arith);
            }
            let ghost fb1 = self.fb@;
            self.scrollup();
            proof {
                let fb0 = old(self).fb@;
                let vis = old(self).visible();
                let s1 = 16 * w * m;
                assert(s1 >= 0) by (nonlinear_arith)
                    requires
                        w >= 0,
                        m >= 0,
                        s1 == 16 * w * m,
                ;
                assert(self.visible() == vis);
                assert(vis <= fb0.len()) by (nonlinear_arith)
                    requires
                        vis == w * h,
                        fb0.len() == w * (h + 16),
                        w >= 0,
                ;
                lemma_scroll_compose(fb0, vis, s1, 16 * w, old(self).bg_color);
                m = m + 1;
            }
        }
        proof {
            assert(scrolls_needed(self.cursor_x as int, self.cursor_y as int, w, h) == 0);
        }
    }

    /// Saves the cell under the cursor, scrolling first until the cursor is on the
    /// screen; the saved cell is the cursor's.
    pub fn backup(&mut self)
        requires
            old(self).wf(),
        ensures
            ({
                let n = scrolls_needed(
                    old(self).cursor_x as int,
                    old(self).cursor_y as int,
                    old(self).width as int,
                    old(self).height as int,
                );
                &&& final(self).wf()
                &&& *final(self) == (Screen {
                    fb: final(self).fb,
                    cursor_x: final(self).cursor_x,
                    cursor_y: final(self).cursor_y,
                    cursor_buffer: final(self).cursor_buffer,
                    save_x: final(self).cursor_x,
                    save_y: final(self).cursor_y,
                    ..*old(self)
                })
                &&& final(self).fb@ == scroll_fb(
                    old(self).fb@,
                    old(self).visible(),
                    16 * old(self).width * n,
                    old(self).bg_color,
                )
                &&& final(self).cursor_y == old(self).cursor_y - 16 * n
                &&& final(self).cursor_x == if n == 0 {
                    old(self).cursor_x
                } else {
                    0
                }
                &&& final(self).cursor_buffer@.len() == 128
                &&& forall|i: int, j: int|
                    0 <= i < 8 && 0 <= j < 16 ==> #[trigger] final(self).cursor_buffer@[i + 8 * j]
                        == final(self).fb@[rect_pixel(
                        final(self).cursor_base(),
                        old(self).width as int,
                        i,
                        j,
                    )]
            }),
    {
        self.scroll_to_cursor();
        let ghost s1 = *self;
        let ghost w = self.width as int;
        let ghost base = self.cursor_base();
        let mut j: u32 = 0;
        while j < CURSOR_HEIGHT
            invariant
                j <= 16,
                self.wf(),
                *self == (Screen { cursor_buffer: self.cursor_buffer, ..s1 }),
                w == self.width,
                base == self.cursor_base(),
                base < self.visible(),
                forall|i: int, jj: int|
                    0 <= i < 8 && 0 <= jj < j ==> #[trigger] self.cursor_buffer@[i + 8 * jj]
                        == self.fb@[rect_pixel(base, w, i, jj)],
            decreases 16 - j,
        {
            let mut i: u32 = 0;
            while i < CURSOR_WIDTH
                invariant
                    i <= 8,
                    j < 16,
                    self.wf(),
                    *self == (Screen { cursor_buffer: self.cursor_buffer, ..s1 }),
                    w == self.width,
                    base == self.cursor_base(),
                    base < self.visible(),
                    forall|ii: int, jj: int|
                        0 <= ii < 8 && 0 <= jj < j ==> #[trigger] self.cursor_buffer@[ii + 8 * jj]
                            == self.fb@[rect_pixel(base, w, ii, jj)],
                    forall|ii: int|
                        0 <= ii < i ==> #[trigger] self.cursor_buffer@[ii + 8 * j]
                            == self.fb@[rect_pixel(base, w, ii, j as int)],
                decreases 8 - i,
            {
                let k = self.cell_index(self.cursor_x, self.cursor_y, i, j);
                let v = self.fb[k];
                self.cursor_buffer.set((i + j * 8) as usize, v);
                i += 1;
            }
            j += 1;
        }
        self.save_x = self.cursor_x;
        self.save_y = self.cursor_y;
    }

    /// Writes the saved cell back where it was saved from.
    pub fn restore(&mut self)
        requires
            old(self).wf(),
        ensures
            final(self).wf(),
            *final(self) == (Screen { fb: final(self).fb, ..*old(self) }),
            rect_painted(
                old(self).fb@,
                final(self).fb@,
                old(self).save_base(),
                old(self).width as int,
                |i: int, j: int| Some(old(self).cursor_buffer@[i + 8 * j]),
            ),
    {
        let ghost fb0 = self.fb@;
        let ghost base = self.save_base();
        let ghost w = self.width as int;
        let ghost val = |i: int, j: int| Some(old(self).cursor_buffer@[i + 8 * j]);
        let mut j: u32 = 0;
        while j < CURSOR_HEIGHT
            invariant
                j <= 16,
                self.wf(),
                *self == (Screen { fb: self.fb, ..*old(self) }),
                fb0 == old(self).fb@,
                base == old(self).save_base(),
                w == old(self).width,
                val == (|i: int, j: int| Some(old(self).cursor_buffer@[i + 8 * j])),
                rect_partial(fb0, self.fb@, base, w, val, 0, j as int),
            decreases 16 - j,
        {
            let mut i: u32 = 0;
            while i < CURSOR_WIDTH
                invariant
                    i <= 8,
                    j < 16,
                    self.wf(),
                    *self == (Screen { fb: self.fb, ..*old(self) }),
                    fb0 == old(self).fb@,
                    base == old(self).save_base(),
                    w == old(self).width,
                    val == (|i: int, j: int| Some(old(self).cursor_buffer@[i + 8 * j])),
                    rect_partial(fb0, self.fb@, base, w, val, i as int, j as int),
                decreases 8 - i,
            {
                let k = self.cell_index(self.save_x, self.save_y, i, j);
                proof {
                    lemma_rect_step(fb0, self.fb@, base, w, val, i as int, j as int);
                }
                let v = self.cursor_buffer[(i + j * 8) as usize];
                self.fb.set(k, v);
                i += 1;
            }
            proof {
                lemma_rect_row(fb0, self.fb@, base, w, val, j as int);
            }
            j += 1;
        }
    }

    /// Draws the glyph `map` (16 rows) in the cell right of the cursor, scrolling
    /// first until the cursor is on the screen; the top row of the cell is left
    /// as it is.
    pub fn draw_char(&mut self, map: &[u32])
        requires
            old(self).wf(),
            map@.len() == 16,
        ensures
            ({
                let n = scrolls_needed(
                    old(self).cursor_x as int,
                    old(self).cursor_y as int,
                    old(self).width as int,
                    old(self).height as int,
                );
                let scrolled = scroll_fb(
                    old(self).fb@,
                    old(self).visible(),
                    16 * old(self).width * n,
                    old(self).bg_color,
                );
                &&& final(self).wf()
                &&& *final(self) == (Screen {
                    fb: final(self).fb,
                    cursor_x: final(self).cursor_x,
                    cursor_y: final(self).cursor_y,
                    ..*old(self)
                })
                &&& final(self).cursor_y == old(self).cursor_y - 16 * n
                &&& final(self).cursor_x == if n == 0 {
                    old(self).cursor_x
                } else {
                    0
                }
                &&& rect_painted(
                    scrolled,
                    final(self).fb@,
                    final(self).cursor_base() + 1,
                    old(self).width as int,
                    glyph_val(map@, old(self).fg_color, old(self).bg_color),
                )
            }),
            // every glyph row from 1 to 15: bit `4 * (7 - c)` of the row picks the
            // foreground colour for column `c`, its absence the background colour
            forall|c: int, j: int|
                0 <= c < 8 && 1 <= j < 16 ==> 0 <= #[trigger] rect_pixel(
                    final(self).cursor_base() + 1,
                    old(self).width as int,
                    c,
                    j,
                ) && rect_pixel(final(self).cursor_base() + 1, old(self).width as int, c, j)
                    < final(self).fb@.len(),
            forall|c: int, j: int|
                0 <= c < 8 && 1 <= j < 16 ==> #[trigger] final(self).fb@[rect_pixel(
                    final(self).cursor_base() + 1,
                    old(self).width as int,
                    c,
                    j,
                )] == (if (map@[j] >> ((4 * (7 - c)) as u32)) & 1 == 1 {
                    old(self).fg_color
                } else {
                    old(self).bg_color
                }),
    {
        self.scroll_to_cursor();
        let ghost s1 = *self;
        let ghost fb1 = self.fb@;
        let ghost w = self.width as int;
        let ghost base = self.cursor_base() + 1;
        let ghost val = glyph_val(map@, self.fg_color, self.bg_color);
        proof {
            assert(rect_partial(fb1, self.fb@, base, w, val, 0, 0));
            lemma_rect_skip_row(fb1, self.fb@, base, w, val, 0);
        }
        let mut j: u32 = 1;
        while j < CURSOR_HEIGHT
            invariant
                1 <= j <= 16,
                map@.len() == 16,
                self.wf(),
                *self == (Screen { fb: self.fb, ..s1 }),
                fb1 == s1.fb@,
                w == self.width,
                base == self.cursor_base() + 1,
                self.cursor_base() < self.visible(),
                val == glyph_val(map@, self.fg_color, self.bg_color),
                rect_partial(fb1, self.fb@, base, w, val, 0, j as int),
            decreases 16 - j,
        {
            let row = map[j as usize];
            let mut c: u32 = 0;
            while c < CURSOR_WIDTH
                invariant
                    c <= 8,
                    1 <= j < 16,
                    row == map@[j as int],
                    self.wf(),
                    *self == (Screen { fb: self.fb, ..s1 }),
                    fb1 == s1.fb@,
                    w == self.width,
                    base == self.cursor_base() + 1,
                    self.cursor_base() < self.visible(),
                    val == glyph_val(map@, self.fg_color, self.bg_color),
                    rect_partial(fb1, self.fb@, base, w, val, c as int, j as int),
                decreases 8 - c,
            {
                let k = self.cell_index(self.cursor_x + 1, self.cursor_y, c, j);
                let color = if ((row >> (4 * (7 - c))) & 1) == 1 {
                    self.fg_color
                } else {
                    self.bg_color
                };
                proof {
                    assert(base == (self.cursor_x + 1) + self.width * self.cursor_y);
                    lemma_rect_step(fb1, self.fb@, base, w, val, c as int, j as int);
                    assert(val(c as int, j as int) == Some(color));
                }
                self.fb.set(k, color);
                c += 1;
            }
            proof {
                lemma_rect_row(fb1, self.fb@, base, w, val, j as int);
            }
            j += 1;
        }
        proof {
            let h = self.height as int;
            let cb = self.cursor_base();
            assert(self.fg_color == old(self).fg_color);
            assert(self.bg_color == old(self).bg_color);
            assert(w == old(self).width);
            assert(base == self.cursor_base() + 1);
            assert forall|c: int, j: int|
                0 <= c < 8 && 1 <= j < 16 implies 0 <= #[trigger] rect_pixel(
                self.cursor_base() + 1,
                old(self).width as int,
                c,
                j,
            ) && rect_pixel(self.cursor_base() + 1, old(self).width as int, c, j)
                < self.fb@.len() by {
                assert(0 <= rect_pixel(base, w, c, j) < self.fb@.len()) by (nonlinear_arith)
                    requires
                        base == cb + 1,
                        0 <= cb < w * h,
                        0 <= c < 8,
                        1 <= j < 16,
                        w >= 8,
                        self.fb@.len() == w * (h + 16),
                        rect_pixel(base, w, c, j) == base + c + w * j,
                ;
            }
            assert forall|c: int, j: int|
                0 <= c < 8 && 1 <= j < 16 implies #[trigger] self.fb@[rect_pixel(
                self.cursor_base() + 1,
                old(self).width as int,
                c,
                j,
            )] == if (map@[j] >> ((4 * (7 - c)) as u32)) & 1 == 1 {
                old(self).fg_color
            } else {
                old(self).bg_color
            } by {
                lemma_rect_cell(base, w, c, j);
                assert(0 <= rect_pixel(base, w, c, j) < self.fb@.len()) by (nonlinear_arith)
                    requires
                        base == cb + 1,
                        0 <= cb < w * h,
                        0 <= c < 8,
                        1 <= j < 16,
                        w >= 8,
                        self.fb@.len() == w * (h + 16),
                        rect_pixel(base, w, c, j) == base + c + w * j,
                ;
                assert(val(c, j) == Some(
                    if (map@[j] >> ((4 * (7 - c)) as u32)) & 1 == 1 {
                        self.fg_color
                    } else {
                        self.bg_color
                    },
                ));
            }
        }
    }

    /// The console at start-up for a screen of `width` by `height` pixels: the
    /// default colours, the screen in the background colour, the cursor at the
    /// top left drawn in the cursor colour.
    pub fn new(width: u32, height: u32) -> (res: Screen)
        requires
            8 <= width,
            16 <= height,
            width * (height + 16) <= 0x3FFC_0000,
        ensures
            res.wf(),
            res.width == width,
            res.height == height,
            res.cursor_x == 0,
            res.cursor_y == 0,
            res.save_x == 0,
            res.save_y == 0,
            res.bg_color == DEFAULT_BG,
            res.fg_color == DEFAULT_FG,
            res.cursor_color == DEFAULT_FG,
            res.cursor_buffer@ == Seq::new(128, |i: int| CURSOR_BUFFER_INIT),
            res.fb@.len() == width * (height + 16),
            forall|k: int|
                0 <= k < res.fb@.len() ==> #[trigger] res.fb@[k] == if k < width * height {
                    if rect_cell(0, width as int, k) is Some {
                        DEFAULT_FG
                    } else {
                        DEFAULT_BG
                    }
                } else {
                    0
                },
    {
        proof {
            assert(height + 16 <= 0x3FFC_0000) by (nonlinear_arith)
                requires
                    width >= 8,
                    width * (height + 16) <= 0x3FFC_0000,
            ;
        }
        let total = width * (height + 16);
        let mut fb: Vec<u32> = Vec::new();
        let mut k: u32 = 0;
        while k < total
            invariant
                k <= total,
                fb@.len() == k,
                forall|i: int| 0 <= i < k ==> #[trigger] fb@[i] == 0,
            decreases total - k,
        {
            fb.push(0);
            k += 1;
        }
        let mut cursor_buffer: Vec<u32> = Vec::new();
        let mut k: u32 = 0;
        while k < 128
            invariant
                k <= 128,
                cursor_buffer@.len() == k,
                forall|i: int| 0 <= i < k ==> #[trigger] cursor_buffer@[i] == CURSOR_BUFFER_INIT,
            decreases 128 - k,
        {
            cursor_buffer.push(CURSOR_BUFFER_INIT);
            k += 1;
        }
        proof {
            assert(width * height > 0) by (nonlinear_arith)
                requires
                    width >= 8,
                    height >= 16,
            ;
        }
        let mut s = Screen {
            fb,
            width,
            height,
            cursor_x: 0,
            cursor_y: 0,
            cursor_color: 0,
            fg_color: 0,
            bg_color: 0,
            cursor_buffer,
            save_x: 0,
            save_y: 0,
        };
        proof {
            assert(s.width * s.save_y == 0) by (nonlinear_arith)
                requires
                    s.save_y == 0,
            ;
            assert(s.width * s.cursor_y == 0) by (nonlinear_arith)
                requires
                    s.cursor_y == 0,
            ;
        }
        s.set_bg(DEFAULT_BG);
        s.set_fg(DEFAULT_FG);
        s.set_cursor_color(DEFAULT_FG);
        s.fill_bg();
        let ghost fb2 = s.fb@;
        assert(s.cursor_base() == 0);
        s.draw_cursor();
        proof {
            assert(rect_partial(fb2, s.fb@, 0, width as int, solid(DEFAULT_FG), 0, 16));
            assert(s.cursor_buffer@ =~= Seq::new(128, |i: int| CURSOR_BUFFER_INIT));
            assert forall|k: int| 0 <= k < s.fb@.len() implies #[trigger] s.fb@[k] == if k < width
                * height {
                if rect_cell(0, width as int, k) is Some {
                    DEFAULT_FG
                } else {
                    DEFAULT_BG
                }
            } else {
                0
            } by {
                if rect_cell(0, width as int, k) is Some {
                    lemma_rect_cell_inv(0, width as int, k);
                    let c = rect_cell(0, width as int, k)->0;
                    assert(solid(DEFAULT_FG)(c.0, c.1) == Some(DEFAULT_FG));
                    assert(s.fb@[k] == DEFAULT_FG);
                    assert(k < width * height) by (nonlinear_arith)
                        requires
                            k == c.0 + width * c.1,
                            0 <= c.0 < 8,
                            0 <= c.1 < 16,
                            width >= 8,
                            height >= 16,
                    ;
                }
            }
        }
        s
    }
}


/// Law: `restore` undoes what was drawn over the cell that `backup` saved. When
/// `buffer` holds the cell at `base` of `saved` (as `backup` leaves it), `drawn`
/// differs from `saved` only inside that cell (as after `draw_cursor`), and
/// `restored` is `drawn` with the buffer written back at `base` (as `restore`
/// leaves it), then `restored` is `saved`.
pub proof fn lemma_restore_after_backup(
    saved: Seq<u32>,
    buffer: Seq<u32>,
    drawn: Seq<u32>,
    restored: Seq<u32>,
    base: int,
    w: int,
)
    requires
        w >= 8,
        buffer.len() == 128,
        forall|i: int, j: int|
            0 <= i < 8 && 0 <= j < 16 ==> #[trigger] buffer[i + 8 * j] == saved[rect_pixel(
                base,
                w,
                i,
                j,
            )],
        drawn.len() == saved.len(),
        forall|k: int|
            0 <= k < saved.len() && #[trigger] rect_cell(base, w, k) is None ==> drawn[k]
                == saved[k],
        rect_painted(drawn, restored, base, w, |i: int, j: int| Some(buffer[i + 8 * j])),
    ensures
        restored == saved,
{
    assert forall|k: int| 0 <= k < restored.len() implies #[trigger] restored[k] == saved[k] by {
        if rect_cell(base, w, k) is Some {
            lemma_rect_cell_inv(base, w, k);
            let c = rect_cell(base, w, k)->0;
            assert(buffer[c.0 + 8 * c.1] == saved[rect_pixel(base, w, c.0, c.1)]);
        }
    }
    assert(restored =~= saved);
}

} // verus!
