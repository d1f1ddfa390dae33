//! Raster images and the painting done on card images: numbers drawn with
//! outlined glyphs, and artwork laid under transparent parts of a frame.
use vstd::prelude::*;
use crate::save_data::chars_of;
use image::codecs::png::PngDecoder;
use image::DynamicImage;
use std::io::Cursor;

verus! {

/// A pixel: red, green, blue and opacity.
#[derive(Debug, Clone, Copy, PartialEq, Eq, Structural)]
pub struct Rgba {
    pub r: u8,
    pub g: u8,
    pub b: u8,
    pub a: u8,
}

/// An image, its pixels row by row.
#[derive(Debug, Clone)]
pub struct Image {
    width: u32,
    height: u32,
    pixels: Vec<Rgba>,
}

/// The position of pixel (`x`, `y`) in the pixels of an image `w` wide.
pub open spec fn pixel_index(w: int, x: int, y: int) -> int {
    y * w + x
}

proof fn lemma_pixel_index(w: int, h: int, x: int, y: int)
    requires
        0 <= x < w,
        0 <= y < h,
    ensures
        0 <= pixel_index(w, x, y) < w * h,
        0 <= y * w <= pixel_index(w, x, y),
{
    assert(0 <= y * w) by (nonlinear_arith)
        requires
            0 <= y,
            0 <= w,
    ;
    assert(y * w + x < w * h) by (nonlinear_arith)
        requires
            0 <= x < w,
            0 <= y < h,
    ;
}

impl Image {
    pub closed spec fn w(&self) -> int {
        self.width as int
    }

    pub closed spec fn h(&self) -> int {
        self.height as int
    }

    /// The pixels, row by row.
    pub closed spec fn px(&self) -> Seq<Rgba> {
        self.pixels@
    }

    /// There is one pixel for each position.
    pub closed spec fn wf(&self) -> bool {
        self.pixels@.len() == self.width * self.height
    }

    /// Whether (`x`, `y`) lies in the image.
    pub open spec fn contains(&self, x: int, y: int) -> bool {
        0 <= x < self.w() && 0 <= y < self.h()
    }

    /// The pixel at (`x`, `y`).
    pub open spec fn at(&self, x: int, y: int) -> Rgba {
        self.px()[pixel_index(self.w(), x, y)]
    }

    /// An image of `width` by `height` pixels, all `fill`.
    pub fn filled(width: u32, height: u32, fill: Rgba) -> (res: Image)
        requires
            width * height <= usize::MAX,
        ensures
            res.wf(),
            res.w() == width,
            res.h() == height,
            res.px() == Seq::new((width * height) as nat, |i: int| fill),
    {
        let n: usize = (width as usize) * (height as usize);
        let mut pixels: Vec<Rgba> = Vec::new();
        let mut i: usize = 0;
        while i < n
            invariant
                i <= n,
                n == width * height,
                pixels@ == Seq::new(i as nat, |j: int| fill),
            decreases n - i,
        {
            pixels.push(fill);
            i += 1;
            assert(pixels@ =~= Seq::new(i as nat, |j: int| fill));
        }
        Image { width, height, pixels }
    }

    /// The image of `width` by `height` pixels given as four bytes each (red,
    /// green, blue, opacity), row by row; none if the bytes do not fit.
    pub fn from_rgba_bytes(width: u32, height: u32, bytes: &[u8]) -> (res: Option<Image>)
        ensures
            match res {
                Some(img) => {
                    &&& bytes@.len() == 4 * width * height
                    &&& img.wf()
                    &&& img.w() == width
                    &&& img.h() == height
                    &&& img.px() == rgba_pixels(bytes@)
                },
                None => bytes@.len() != 4 * width * height,
            },
    {
        assert(4 * (width as u128) * (height as u128) <= u128::MAX) by (nonlinear_arith)
            requires
                width <= u32::MAX,
                height <= u32::MAX,
        ;
        let expected: u128 = 4 * (width as u128) * (height as u128);
        if (bytes.len() as u128) != expected {
            return None;
        }
        let mut pixels: Vec<Rgba> = Vec::new();
        let mut i: usize = 0;
        let count: usize = bytes.len() / 4;
        while i < count
            invariant
                i <= count,
                count == bytes@.len() / 4,
                bytes@.len() == 4 * width * height,
                pixels@ == rgba_pixels(bytes@).take(i as int),
            decreases count - i,
        {
            let len = bytes.len();
            assert(4 * i + 3 < len);
            let k: usize = 4 * i;
            let p = Rgba { r: bytes[k], g: bytes[k + 1], b: bytes[k + 2], a: bytes[k + 3] };
            pixels.push(p);
            i += 1;
            assert(pixels@ =~= rgba_pixels(bytes@).take(i as int));
        }
        assert(rgba_pixels(bytes@).take(i as int) =~= rgba_pixels(bytes@));
        assert(pixels@.len() == width * height) by (nonlinear_arith)
            requires
                pixels@.len() == bytes@.len() / 4,
                bytes@.len() == 4 * width * height,
        ;
        Some(Image { width, height, pixels })
    }

    /// The pixels as four bytes each (red, green, blue, opacity), row by row.
    pub fn to_rgba_bytes(&self) -> (res: Vec<u8>)
        ensures
            rgba_pixels(res@) == self.px(),
            res@.len() == 4 * self.px().len(),
    {
        let mut res: Vec<u8> = Vec::new();
        let mut i: usize = 0;
        while i < self.pixels.len()
            invariant
                i <= self.pixels@.len(),
                res@.len() == 4 * i,
                rgba_pixels(res@) == self.pixels@.take(i as int),
            decreases self.pixels.len() - i,
        {
            let p = self.pixels[i];
            res.push(p.r);
            res.push(p.g);
            res.push(p.b);
            res.push(p.a);
            i += 1;
            assert(rgba_pixels(res@) =~= self.pixels@.take(i as int));
        }
        assert(self.pixels@.take(i as int) =~= self.pixels@);
        res
    }

    pub fn width(&self) -> (res: u32)
        ensures
            res == self.w(),
    {
        self.width
    }

    pub fn height(&self) -> (res: u32)
        ensures
            res == self.h(),
    {
        self.height
    }

    /// The pixel at (`x`, `y`).
    pub fn get_pixel(&self, x: u32, y: u32) -> (res: Rgba)
        requires
            self.wf(),
            self.contains(x as int, y as int),
        ensures
            res == self.at(x as int, y as int),
    {
        proof {
            lemma_pixel_index(self.w(), self.h(), x as int, y as int);
        }
        let len = self.pixels.len();
        let i: usize = (y as usize) * (self.width as usize) + (x as usize);
        self.pixels[i]
    }

    /// Sets the pixel at (`x`, `y`).
    pub fn put_pixel(&mut self, x: u32, y: u32, c: Rgba)
        requires
            old(self).wf(),
            old(self).contains(x as int, y as int),
        ensures
            final(self).wf(),
            final(self).w() == old(self).w(),
            final(self).h() == old(self).h(),
            final(self).px() == old(self).px().update(pixel_index(old(self).w(), x as int, y as int), c),
    {
        proof {
            lemma_pixel_index(self.w(), self.h(), x as int, y as int);
        }
        let len = self.pixels.len();
        let i: usize = (y as usize) * (self.width as usize) + (x as usize);
        self.pixels.set(i, c);
    }
}

/// The pixels that `bytes` give, four bytes each.
pub open spec fn rgba_pixels(bytes: Seq<u8>) -> Seq<Rgba> {
    Seq::new(
        bytes.len() / 4,
        |i: int| Rgba { r: bytes[4 * i], g: bytes[4 * i + 1], b: bytes[4 * i + 2], a: bytes[4 * i + 3] },
    )
}

/// A pixel to set: where, and to what.
pub type Put = (int, int, Rgba);

/// The pixels of an image `w` wide after the puts, in order.
pub open spec fn painted(px: Seq<Rgba>, w: int, puts: Seq<Put>) -> Seq<Rgba>
    decreases puts.len(),
{
    if puts.len() == 0 {
        px
    } else {
        let p = puts.last();
        painted(px, w, puts.drop_last()).update(pixel_index(w, p.0, p.1), p.2)
    }
}

/// Whether every put lies in an image of `w` by `h` pixels.
pub open spec fn puts_inside(puts: Seq<Put>, w: int, h: int) -> bool {
    forall|i: int| 0 <= i < puts.len() ==> 0 <= (#[trigger] puts[i]).0 < w && 0 <= puts[i].1 < h
}

proof fn lemma_painted_len(px: Seq<Rgba>, w: int, h: int, puts: Seq<Put>)
    requires
        px.len() == w * h,
        puts_inside(puts, w, h),
    ensures
        painted(px, w, puts).len() == px.len(),
    decreases puts.len(),
{
    if puts.len() > 0 {
        let d = puts.drop_last();
        assert forall|i: int| 0 <= i < d.len() implies 0 <= (#[trigger] d[i]).0 < w && 0 <= d[i].1 < h by {
            assert(d[i] == puts[i]);
        }
        lemma_painted_len(px, w, h, d);
        let p = puts.last();
        assert(p == puts[puts.len() - 1]);
        lemma_pixel_index(w, h, p.0, p.1);
    }
}


// ---------------------------------------------------------------------------
// Numbers.
/// Where a text is placed against its anchor point.
#[derive(Debug, Clone, Copy, PartialEq, Eq, Structural)]
pub enum Alignment {
    Start,
    Center,
    End,
}

impl Default for Alignment {
    fn default() -> (res: Alignment)
        ensures
            res == Alignment::Start,
    {
        Alignment::Start
    }
}

/// Where and in which colours a number is drawn.
#[derive(Debug, Clone, Copy, PartialEq, Eq, Structural)]
pub struct DrawOptions {
    pub x: u32,
    pub y: u32,
    pub h_align: Alignment,
    pub v_align: Alignment,
    pub foreground: Rgba,
    pub background: Rgba,
}

impl Default for DrawOptions {
    fn default() -> (res: DrawOptions)
        ensures
            res == (DrawOptions {
                x: 0,
                y: 0,
                h_align: Alignment::Start,
                v_align: Alignment::Start,
                foreground: Rgba { r: 0, g: 0, b: 0, a: 255 },
                background: Rgba { r: 255, g: 255, b: 255, a: 255 },
            }),
    {
        DrawOptions {
            x: 0,
            y: 0,
            h_align: Alignment::Start,
            v_align: Alignment::Start,
            foreground: Rgba { r: 0, g: 0, b: 0, a: 255 },
            background: Rgba { r: 255, g: 255, b: 255, a: 255 },
        }
    }
}

/// Draws numbers with a glyph image for each character.
#[derive(Debug, Clone)]
pub struct NumberPainter {
    glyphs: Vec<(char, Image)>,
}

/// The first glyph of `c`.
pub open spec fn glyph_of(glyphs: Seq<(char, Image)>, c: char) -> Option<Image>
    decreases glyphs.len(),
{
    if glyphs.len() == 0 {
        None
    } else if glyphs[0].0 == c {
        Some(glyphs[0].1)
    } else {
        glyph_of(glyphs.drop_first(), c)
    }
}

/// The glyph drawn for `c`: its own, else that of `o`.
pub open spec fn glyph_for(glyphs: Seq<(char, Image)>, c: char) -> Image {
    match glyph_of(glyphs, c) {
        Some(g) => g,
        None => glyph_of(glyphs, 'o')->Some_0,
    }
}

/// Whether (`x`, `y`) is an opaque pixel of `g`.
pub open spec fn opaque(g: Image, x: int, y: int) -> bool {
    g.contains(x, y) && g.at(x, y).a > 0
}

/// Whether a pixel next to (`x`, `y`), across a side or a corner, is
/// opaque.
pub open spec fn outlined(g: Image, x: int, y: int) -> bool {
    opaque(g, x - 1, y - 1) || opaque(g, x, y - 1) || opaque(g, x + 1, y - 1) || opaque(g, x - 1, y)
        || opaque(g, x + 1, y) || opaque(g, x - 1, y + 1) || opaque(g, x, y + 1) || opaque(
        g,
        x + 1,
        y + 1,
    )
}

/// The colour drawn for pixel (`x`, `y`) of a glyph: the foreground where
/// the glyph is opaque, the background around it, nothing elsewhere.
pub open spec fn glyph_color(g: Image, x: int, y: int, fg: Rgba, bg: Rgba) -> Option<Rgba> {
    if g.at(x, y).a > 0 {
        Some(fg)
    } else if outlined(g, x, y) {
        Some(bg)
    } else {
        None
    }
}

/// The puts for the first `n` pixels of row `y` of a glyph drawn at
/// (`ox`, `oy`).
pub open spec fn row_puts(g: Image, ox: int, oy: int, fg: Rgba, bg: Rgba, y: int, n: nat) -> Seq<Put>
    decreases n,
{
    if n == 0 {
        Seq::empty()
    } else {
        let x = n - 1;
        let rest = row_puts(g, ox, oy, fg, bg, y, (n - 1) as nat);
        match glyph_color(g, x, y, fg, bg) {
            Some(c) => rest.push((ox + x, oy + y, c)),
            None => rest,
        }
    }
}

/// The puts for the first `m` rows of a glyph drawn at (`ox`, `oy`).
pub open spec fn glyph_puts(g: Image, ox: int, oy: int, fg: Rgba, bg: Rgba, m: nat) -> Seq<Put>
    decreases m,
{
    if m == 0 {
        Seq::empty()
    } else {
        glyph_puts(g, ox, oy, fg, bg, (m - 1) as nat) + row_puts(g, ox, oy, fg, bg, m - 1, g.w() as nat)
    }
}

/// How far the text `s` advances: each glyph overlaps the next by one
/// column.
pub open spec fn advance(glyphs: Seq<(char, Image)>, s: Seq<char>) -> int
    decreases s.len(),
{
    if s.len() == 0 {
        0
    } else {
        advance(glyphs, s.drop_last()) + glyph_for(glyphs, s.last()).w() - 1
    }
}

/// The height of the tallest glyph of `s` (0 for no text).
pub open spec fn text_height(glyphs: Seq<(char, Image)>, s: Seq<char>) -> int
    decreases s.len(),
{
    if s.len() == 0 {
        0
    } else {
        let h = glyph_for(glyphs, s.last()).h();
        let r = text_height(glyphs, s.drop_last());
        if h > r {
            h
        } else {
            r
        }
    }
}

/// The puts for the text `s` drawn from (`x0`, `y0`).
pub open spec fn text_puts(glyphs: Seq<(char, Image)>, s: Seq<char>, x0: int, y0: int, fg: Rgba, bg: Rgba) -> Seq<
    Put,
>
    decreases s.len(),
{
    if s.len() == 0 {
        Seq::empty()
    } else {
        let g = glyph_for(glyphs, s.last());
        text_puts(glyphs, s.drop_last(), x0, y0, fg, bg) + glyph_puts(
            g,
            x0 + advance(glyphs, s.drop_last()),
            y0,
            fg,
            bg,
            g.h() as nat,
        )
    }
}

/// `v - d`, or 0 below it.
pub open spec fn saturating_minus(v: int, d: int) -> int {
    if v >= d {
        v - d
    } else {
        0
    }
}

/// The column the text starts at.
pub open spec fn start_x(glyphs: Seq<(char, Image)>, s: Seq<char>, o: DrawOptions) -> int {
    match o.h_align {
        Alignment::Start => o.x as int,
        Alignment::Center => saturating_minus(o.x as int, advance(glyphs, s) / 2),
        Alignment::End => saturating_minus(o.x as int, advance(glyphs, s)),
    }
}

/// The row the text starts at.
pub open spec fn start_y(glyphs: Seq<(char, Image)>, s: Seq<char>, o: DrawOptions) -> int {
    match o.v_align {
        Alignment::Start => o.y as int,
        Alignment::Center => saturating_minus(o.y as int, text_height(glyphs, s) / 2),
        Alignment::End => saturating_minus(o.y as int, text_height(glyphs, s)),
    }
}

/// The puts that drawing `s` with options `o` makes.
pub open spec fn number_puts(glyphs: Seq<(char, Image)>, s: Seq<char>, o: DrawOptions) -> Seq<Put> {
    text_puts(glyphs, s, start_x(glyphs, s, o), start_y(glyphs, s, o), o.foreground, o.background)
}

/// `a` begins `b`.
pub open spec fn is_prefix(a: Seq<Put>, b: Seq<Put>) -> bool {
    a.len() <= b.len() && b.take(a.len() as int) == a
}

proof fn lemma_prefix_trans(a: Seq<Put>, b: Seq<Put>, c: Seq<Put>)
    requires
        is_prefix(a, b),
        is_prefix(b, c),
    ensures
        is_prefix(a, c),
{
    assert(c.take(a.len() as int) =~= b.take(a.len() as int));
}

proof fn lemma_prefix_append(x: Seq<Put>, a: Seq<Put>, b: Seq<Put>)
    requires
        is_prefix(a, b),
    ensures
        is_prefix(x + a, x + b),
{
    assert((x + b).take((x + a).len() as int) =~= x + a);
}

proof fn lemma_prefix_self_append(a: Seq<Put>, b: Seq<Put>)
    ensures
        is_prefix(a, a + b),
{
    assert((a + b).take(a.len() as int) =~= a);
}

proof fn lemma_row_prefix(g: Image, ox: int, oy: int, fg: Rgba, bg: Rgba, y: int, n: nat, m: nat)
    requires
        n <= m,
    ensures
        is_prefix(row_puts(g, ox, oy, fg, bg, y, n), row_puts(g, ox, oy, fg, bg, y, m)),
    decreases m - n,
{
    if n < m {
        lemma_row_prefix(g, ox, oy, fg, bg, y, n, (m - 1) as nat);
        let r = row_puts(g, ox, oy, fg, bg, y, (m - 1) as nat);
        match glyph_color(g, m - 1, y, fg, bg) {
            Some(c) => {
                assert(r.push((ox + m - 1, oy + y, c)).take(r.len() as int) =~= r);
            },
            None => {
                assert(r.take(r.len() as int) =~= r);
            },
        }
        lemma_prefix_trans(row_puts(g, ox, oy, fg, bg, y, n), r, row_puts(g, ox, oy, fg, bg, y, m));
    } else {
        assert(row_puts(g, ox, oy, fg, bg, y, m).take(row_puts(g, ox, oy, fg, bg, y, m).len() as int)
            =~= row_puts(g, ox, oy, fg, bg, y, m));
    }
}

proof fn lemma_glyph_prefix(g: Image, ox: int, oy: int, fg: Rgba, bg: Rgba, m: nat, k: nat)
    requires
        m <= k,
    ensures
        is_prefix(glyph_puts(g, ox, oy, fg, bg, m), glyph_puts(g, ox, oy, fg, bg, k)),
    decreases k - m,
{
    if m < k {
        lemma_glyph_prefix(g, ox, oy, fg, bg, m, (k - 1) as nat);
        lemma_prefix_self_append(
            glyph_puts(g, ox, oy, fg, bg, (k - 1) as nat),
            row_puts(g, ox, oy, fg, bg, k - 1, g.w() as nat),
        );
        lemma_prefix_trans(
            glyph_puts(g, ox, oy, fg, bg, m),
            glyph_puts(g, ox, oy, fg, bg, (k - 1) as nat),
            glyph_puts(g, ox, oy, fg, bg, k),
        );
    } else {
        let a = glyph_puts(g, ox, oy, fg, bg, m);
        assert(a.take(a.len() as int) =~= a);
    }
}

proof fn lemma_text_prefix(glyphs: Seq<(char, Image)>, s: Seq<char>, k: int, x0: int, y0: int, fg: Rgba, bg: Rgba)
    requires
        0 <= k <= s.len(),
    ensures
        is_prefix(text_puts(glyphs, s.take(k), x0, y0, fg, bg), text_puts(glyphs, s, x0, y0, fg, bg)),
    decreases s.len() - k,
{
    if k < s.len() {
        lemma_text_prefix(glyphs, s, k + 1, x0, y0, fg, bg);
        let t = s.take(k + 1);
        assert(t.drop_last() =~= s.take(k));
        let g = glyph_for(glyphs, t.last());
        lemma_prefix_self_append(
            text_puts(glyphs, s.take(k), x0, y0, fg, bg),
            glyph_puts(g, x0 + advance(glyphs, s.take(k)), y0, fg, bg, g.h() as nat),
        );
        lemma_prefix_trans(
            text_puts(glyphs, s.take(k), x0, y0, fg, bg),
            text_puts(glyphs, t, x0, y0, fg, bg),
            text_puts(glyphs, s, x0, y0, fg, bg),
        );
    } else {
        assert(s.take(k) =~= s);
        let a = text_puts(glyphs, s, x0, y0, fg, bg);
        assert(a.take(a.len() as int) =~= a);
    }
}

proof fn lemma_advance_prefix(glyphs: Seq<(char, Image)>, s: Seq<char>, k: int)
    requires
        0 <= k <= s.len(),
        forall|i: int| 0 <= i < s.len() ==> glyph_for(glyphs, #[trigger] s[i]).w() >= 1,
    ensures
        0 <= advance(glyphs, s.take(k)) <= advance(glyphs, s),
    decreases s.len() - k,
{
    if k < s.len() {
        lemma_advance_prefix(glyphs, s, k + 1);
        let t = s.take(k + 1);
        assert(t.drop_last() =~= s.take(k));
        assert(t.last() == s[k]);
    } else {
        assert(s.take(k) =~= s);
    }
    lemma_advance_nonneg(glyphs, s.take(k));
}

proof fn lemma_advance_nonneg(glyphs: Seq<(char, Image)>, s: Seq<char>)
    requires
        forall|i: int| 0 <= i < s.len() ==> glyph_for(glyphs, #[trigger] s[i]).w() >= 1,
    ensures
        advance(glyphs, s) >= 0,
    decreases s.len(),
{
    if s.len() > 0 {
        let d = s.drop_last();
        assert forall|i: int| 0 <= i < d.len() implies glyph_for(glyphs, #[trigger] d[i]).w() >= 1 by {
            assert(d[i] == s[i]);
        }
        lemma_advance_nonneg(glyphs, d);
        assert(s.last() == s[s.len() - 1]);
    }
}

proof fn lemma_painted_push(px: Seq<Rgba>, w: int, a: Seq<Put>, p: Put)
    ensures
        painted(px, w, a.push(p)) == painted(px, w, a).update(pixel_index(w, p.0, p.1), p.2),
{
    assert(a.push(p).drop_last() =~= a);
}

proof fn lemma_prefix_elem(a: Seq<Put>, p: Put, c: Seq<Put>, w: int, h: int)
    requires
        is_prefix(a.push(p), c),
        puts_inside(c, w, h),
    ensures
        0 <= p.0 < w,
        0 <= p.1 < h,
{
    assert(c.take(a.len() + 1 as int)[a.len() as int] == c[a.len() as int]);
    assert(a.push(p)[a.len() as int] == p);
}

impl NumberPainter {
    /// The glyphs, by character.
    pub closed spec fn glyph_table(&self) -> Seq<(char, Image)> {
        self.glyphs@
    }

    /// Every glyph is a whole image at least one column wide, and `o` has a
    /// glyph.
    pub open spec fn wf(&self) -> bool {
        &&& glyph_of(self.glyph_table(), 'o') is Some
        &&& forall|i: int|
            0 <= i < self.glyph_table().len() ==> (#[trigger] self.glyph_table()[i]).1.wf()
                && self.glyph_table()[i].1.w() >= 1
    }

    /// A painter with these glyphs; none unless `o` has one and every glyph
    /// is at least one column wide.
    pub fn new(glyphs: Vec<(char, Image)>) -> (res: Option<NumberPainter>)
        requires
            forall|i: int| 0 <= i < glyphs@.len() ==> (#[trigger] glyphs@[i]).1.wf(),
        ensures
            match res {
                Some(p) => p.wf() && p.glyph_table() == glyphs@,
                None => glyph_of(glyphs@, 'o') is None || exists|i: int|
                    0 <= i < glyphs@.len() && (#[trigger] glyphs@[i]).1.w() < 1,
            },
    {
        let mut i: usize = 0;
        while i < glyphs.len()
            invariant
                i <= glyphs.len(),
                forall|j: int| 0 <= j < i ==> (#[trigger] glyphs@[j]).1.w() >= 1,
            decreases glyphs.len() - i,
        {
            if glyphs[i].1.width() < 1 {
                return None;
            }
            i += 1;
        }
        let painter = NumberPainter { glyphs };
        match painter.find_glyph('o') {
            Some(_) => Some(painter),
            None => None,
        }
    }

    fn find_glyph(&self, c: char) -> (res: Option<&Image>)
        ensures
            match res {
                Some(g) => glyph_of(self.glyphs@, c) == Some(*g),
                None => glyph_of(self.glyphs@, c) is None,
            },
    {
        let mut i: usize = 0;
        assert(self.glyphs@.skip(0) =~= self.glyphs@);
        while i < self.glyphs.len()
            invariant
                i <= self.glyphs.len(),
                glyph_of(self.glyphs@, c) == glyph_of(self.glyphs@.skip(i as int), c),
            decreases self.glyphs.len() - i,
        {
            proof {
                let rest = self.glyphs@.skip(i as int);
                assert(rest[0] == self.glyphs@[i as int]);
                assert(rest.drop_first() =~= self.glyphs@.skip(i + 1));
            }
            if self.glyphs[i].0 == c {
                return Some(&self.glyphs[i].1);
            }
            i += 1;
        }
        assert(self.glyphs@.skip(i as int) =~= Seq::<(char, Image)>::empty());
        None
    }

    /// The glyph drawn for `c` (see [`glyph_for`]).
    fn get_number(&self, c: char) -> (res: &Image)
        requires
            self.wf(),
        ensures
            *res == glyph_for(self.glyphs@, c),
            res.wf(),
            res.w() >= 1,
    {
        proof {
            lemma_glyph_member(self.glyphs@, c);
            lemma_glyph_member(self.glyphs@, 'o');
        }
        match self.find_glyph(c) {
            Some(g) => g,
            None => self.find_glyph('o').unwrap(),
        }
    }

    /// Draws the text `s` into `image` (see [`number_puts`]): each glyph
    /// overlaps the one before by a column, its opaque pixels take the
    /// foreground and the pixels around them the background. The text
    /// starts at the options' point, moved left by its width (or half of
    /// it) and up by its height (or half of it) as the alignments say.
    pub fn draw(&self, s: &str, options: &DrawOptions, image: &mut Image)
        requires
            self.wf(),
            old(image).wf(),
            options.h_align != Alignment::Start ==> advance(self.glyph_table(), s@) <= u32::MAX,
            start_x(self.glyph_table(), s@, *options) + advance(self.glyph_table(), s@) <= u32::MAX,
            puts_inside(number_puts(self.glyph_table(), s@, *options), old(image).w(), old(image).h()),
        ensures
            final(image).wf(),
            final(image).w() == old(image).w(),
            final(image).h() == old(image).h(),
            final(image).px() == painted(
                old(image).px(),
                old(image).w(),
                number_puts(self.glyph_table(), s@, *options),
            ),
    {
        let chars = chars_of(s);
        self.draw_chars(&chars, options, image);
    }

    /// Draws the characters `chars` (see [`NumberPainter::draw`]).
    pub fn draw_chars(&self, chars: &Vec<char>, options: &DrawOptions, image: &mut Image)
        requires
            self.wf(),
            old(image).wf(),
            options.h_align != Alignment::Start ==> advance(self.glyph_table(), chars@) <= u32::MAX,
            start_x(self.glyph_table(), chars@, *options) + advance(self.glyph_table(), chars@)
                <= u32::MAX,
            puts_inside(number_puts(self.glyph_table(), chars@, *options), old(image).w(), old(image).h()),
        ensures
            final(image).wf(),
            final(image).w() == old(image).w(),
            final(image).h() == old(image).h(),
            final(image).px() == painted(
                old(image).px(),
                old(image).w(),
                number_puts(self.glyph_table(), chars@, *options),
            ),
    {
        let ghost s = chars@;
        let ghost gl = self.glyphs@;
        proof {
            assert forall|i: int| 0 <= i < chars@.len() implies glyph_for(gl, #[trigger] chars@[i]).w() >= 1 by {
                lemma_glyph_member(gl, chars@[i]);
                lemma_glyph_member(gl, 'o');
            }
            lemma_advance_nonneg(gl, chars@);
        }
        let mut x: u32 = options.x;
        let mut y: u32 = options.y;
        if options.h_align != Alignment::Start {
            let mut width: u32 = 0;
            let mut i: usize = 0;
            while i < chars.len()
                invariant
                    i <= chars.len(),
                    self.wf(),
                    gl == self.glyphs@,
                    chars@ == s,
                    advance(gl, s) <= u32::MAX,
                    forall|j: int| 0 <= j < chars@.len() ==> glyph_for(gl, #[trigger] chars@[j]).w() >= 1,
                    width == advance(gl, chars@.take(i as int)),
                decreases chars.len() - i,
            {
                let g = self.get_number(chars[i]);
                proof {
                    lemma_advance_prefix(gl, chars@, i + 1);
                    let t = chars@.take(i + 1);
                    assert(t.drop_last() =~= chars@.take(i as int));
                    assert(t.last() == chars@[i as int]);
                }
                width = width + (g.width() - 1);
                i += 1;
            }
            assert(chars@.take(i as int) =~= chars@);
            let d = if options.h_align == Alignment::End {
                width
            } else {
                width / 2
            };
            x = x.saturating_sub(d);
        }
        if options.v_align != Alignment::Start {
            let mut height: u32 = 0;
            let mut i: usize = 0;
            while i < chars.len()
                invariant
                    i <= chars.len(),
                    self.wf(),
                    gl == self.glyphs@,
                    chars@ == s,
                    height == text_height(gl, chars@.take(i as int)),
                decreases chars.len() - i,
            {
                let g = self.get_number(chars[i]);
                proof {
                    let t = chars@.take(i + 1);
                    assert(t.drop_last() =~= chars@.take(i as int));
                    assert(t.last() == chars@[i as int]);
                }
                if g.height() > height {
                    height = g.height();
                }
                i += 1;
            }
            assert(chars@.take(i as int) =~= chars@);
            let d = if options.v_align == Alignment::End {
                height
            } else {
                height / 2
            };
            y = y.saturating_sub(d);
        }
        let ghost x0 = x as int;
        let ghost y0 = y as int;
        let ghost fg = options.foreground;
        let ghost bg = options.background;
        let ghost all = text_puts(gl, chars@, x0, y0, fg, bg);
        let ghost orig = image.px();
        let ghost w = image.w();
        let ghost h = image.h();
        assert(all == number_puts(gl, s, *options));
        let mut k: usize = 0;
        while k < chars.len()
            invariant
                k <= chars.len(),
                self.wf(),
                gl == self.glyphs@,
                chars@ == s,
                forall|j: int| 0 <= j < chars@.len() ==> glyph_for(gl, #[trigger] chars@[j]).w() >= 1,
                x0 + advance(gl, chars@) <= u32::MAX,
                x == x0 + advance(gl, chars@.take(k as int)),
                y == y0,
                all == text_puts(gl, chars@, x0, y0, fg, bg),
                fg == options.foreground,
                bg == options.background,
                puts_inside(all, w, h),
                image.wf(),
                image.w() == w,
                image.h() == h,
                image.px() == painted(orig, w, text_puts(gl, chars@.take(k as int), x0, y0, fg, bg)),
            decreases chars.len() - k,
        {
            let g = self.get_number(chars[k]);
            let ghost before = text_puts(gl, chars@.take(k as int), x0, y0, fg, bg);
            let ghost gx = x as int;
            proof {
                lemma_text_prefix(gl, chars@, k + 1, x0, y0, fg, bg);
                let t = chars@.take(k + 1);
                assert(t.drop_last() =~= chars@.take(k as int));
                assert(t.last() == chars@[k as int]);
                assert(text_puts(gl, t, x0, y0, fg, bg) == before + glyph_puts(
                    *g,
                    gx,
                    y0,
                    fg,
                    bg,
                    g.h() as nat,
                ));
                assert(before + glyph_puts(*g, gx, y0, fg, bg, 0) =~= before);
            }
            let mut py: u32 = 0;
            while py < g.height()
                invariant
                    py <= g.h(),
                    g.wf(),
                    g.w() >= 1,
                    x == gx,
                    y == y0,
                    fg == options.foreground,
                    bg == options.background,
                    puts_inside(all, w, h),
                    is_prefix(before + glyph_puts(*g, gx, y0, fg, bg, g.h() as nat), all),
                    image.wf(),
                    image.w() == w,
                    image.h() == h,
                    image.px() == painted(orig, w, before + glyph_puts(*g, gx, y0, fg, bg, py as nat)),
                decreases g.h() - py,
            {
                let ghost rows = before + glyph_puts(*g, gx, y0, fg, bg, py as nat);
                proof {
                    assert(rows + row_puts(*g, gx, y0, fg, bg, py as int, 0) =~= rows);
                }
                let mut px: u32 = 0;
                while px < g.width()
                    invariant
                        px <= g.w(),
                        py < g.h(),
                        g.wf(),
                        x == gx,
                        y == y0,
                        fg == options.foreground,
                        bg == options.background,
                        puts_inside(all, w, h),
                        is_prefix(before + glyph_puts(*g, gx, y0, fg, bg, g.h() as nat), all),
                        rows == before + glyph_puts(*g, gx, y0, fg, bg, py as nat),
                        image.wf(),
                        image.w() == w,
                        image.h() == h,
                        image.px() == painted(
                            orig,
                            w,
                            rows + row_puts(*g, gx, y0, fg, bg, py as int, px as nat),
                        ),
                    decreases g.w() - px,
                {
                    let color = glyph_color_exec(g, px, py, options.foreground, options.background);
                    let ghost done = rows + row_puts(*g, gx, y0, fg, bg, py as int, px as nat);
                    match color {
                        Some(c) => {
                            proof {
                                let p: Put = (gx + px, y0 + py, c);
                                assert(rows + row_puts(*g, gx, y0, fg, bg, py as int, (px + 1) as nat)
                                    =~= done.push(p));
                                lemma_row_prefix(*g, gx, y0, fg, bg, py as int, (px + 1) as nat, g.w() as nat);
                                lemma_prefix_append(
                                    rows,
                                    row_puts(*g, gx, y0, fg, bg, py as int, (px + 1) as nat),
                                    row_puts(*g, gx, y0, fg, bg, py as int, g.w() as nat),
                                );
                                assert(glyph_puts(*g, gx, y0, fg, bg, (py + 1) as nat) == glyph_puts(
                                    *g,
                                    gx,
                                    y0,
                                    fg,
                                    bg,
                                    py as nat,
                                ) + row_puts(*g, gx, y0, fg, bg, py as int, g.w() as nat));
                                assert(rows + row_puts(*g, gx, y0, fg, bg, py as int, g.w() as nat)
                                    =~= before + glyph_puts(*g, gx, y0, fg, bg, (py + 1) as nat));
                                lemma_glyph_prefix(*g, gx, y0, fg, bg, (py + 1) as nat, g.h() as nat);
                                lemma_prefix_append(
                                    before,
                                    glyph_puts(*g, gx, y0, fg, bg, (py + 1) as nat),
                                    glyph_puts(*g, gx, y0, fg, bg, g.h() as nat),
                                );
                                lemma_prefix_trans(
                                    done.push(p),
                                    before + glyph_puts(*g, gx, y0, fg, bg, (py + 1) as nat),
                                    before + glyph_puts(*g, gx, y0, fg, bg, g.h() as nat),
                                );
                                lemma_prefix_trans(
                                    done.push(p),
                                    before + glyph_puts(*g, gx, y0, fg, bg, g.h() as nat),
                                    all,
                                );
                                lemma_prefix_elem(done, p, all, w, h);
                                lemma_painted_push(orig, w, done, p);
                            }
                            image.put_pixel(x + px, y + py, c);
                        },
                        None => {
                            proof {
                                assert(rows + row_puts(*g, gx, y0, fg, bg, py as int, (px + 1) as nat)
                                    =~= done);
                            }
                        },
                    }
                    px += 1;
                }
                proof {
                    assert(rows + row_puts(*g, gx, y0, fg, bg, py as int, g.w() as nat) =~= before
                        + glyph_puts(*g, gx, y0, fg, bg, (py + 1) as nat));
                }
                py += 1;
            }
            proof {
                lemma_advance_prefix(gl, chars@, k + 1);
                let t = chars@.take(k + 1);
                assert(t.drop_last() =~= chars@.take(k as int));
                assert(t.last() == chars@[k as int]);
            }
            x = x + (g.width() - 1);
            k += 1;
        }
        assert(chars@.take(k as int) =~= chars@);
    }
}

proof fn lemma_glyph_member(glyphs: Seq<(char, Image)>, c: char)
    ensures
        glyph_of(glyphs, c) matches Some(g) ==> exists|i: int| 0 <= i < glyphs.len() && glyphs[i].1 == g,
    decreases glyphs.len(),
{
    if glyphs.len() > 0 && glyphs[0].0 != c {
        lemma_glyph_member(glyphs.drop_first(), c);
        if let Some(g) = glyph_of(glyphs, c) {
            let i = choose|i: int| 0 <= i < glyphs.drop_first().len() && glyphs.drop_first()[i].1 == g;
            assert(glyphs[i + 1] == glyphs.drop_first()[i]);
        }
    }
}

fn opaque_exec(g: &Image, x: i64, y: i64) -> (res: bool)
    requires
        g.wf(),
    ensures
        res == opaque(*g, x as int, y as int),
{
    if x >= 0 && y >= 0 && x < g.width() as i64 && y < g.height() as i64 {
        g.get_pixel(x as u32, y as u32).a > 0
    } else {
        false
    }
}

fn glyph_color_exec(g: &Image, x: u32, y: u32, fg: Rgba, bg: Rgba) -> (res: Option<Rgba>)
    requires
        g.wf(),
        g.contains(x as int, y as int),
    ensures
        res == glyph_color(*g, x as int, y as int, fg, bg),
{
    if g.get_pixel(x, y).a > 0 {
        return Some(fg);
    }
    let xi = x as i64;
    let yi = y as i64;
    let outline = opaque_exec(g, xi - 1, yi - 1) || opaque_exec(g, xi, yi - 1) || opaque_exec(
        g,
        xi + 1,
        yi - 1,
    ) || opaque_exec(g, xi - 1, yi) || opaque_exec(g, xi + 1, yi) || opaque_exec(g, xi - 1, yi + 1)
        || opaque_exec(g, xi, yi + 1) || opaque_exec(g, xi + 1, yi + 1);
    if outline {
        Some(bg)
    } else {
        None
    }
}


// ---------------------------------------------------------------------------
// Card images.
proof fn lemma_pixel_index_injective(w: int, h: int, x1: int, y1: int, x2: int, y2: int)
    requires
        0 <= x1 < w,
        0 <= y1 < h,
        0 <= x2 < w,
        0 <= y2 < h,
        pixel_index(w, x1, y1) == pixel_index(w, x2, y2),
    ensures
        x1 == x2,
        y1 == y2,
{
    if y1 < y2 {
        assert(y1 * w + w <= y2 * w) by (nonlinear_arith)
            requires
                y1 < y2,
                0 <= w,
        ;
    } else if y2 < y1 {
        assert(y2 * w + w <= y1 * w) by (nonlinear_arith)
            requires
                y2 < y1,
                0 <= w,
        ;
    }
}

/// Whether (`x`, `y`) of an image lies over pixel (`x - ox`, `y - oy`) of
/// the first `rows` rows of an image `aw` wide.
pub open spec fn covered(x: int, y: int, ox: int, oy: int, aw: int, rows: int) -> bool {
    ox <= x < ox + aw && oy <= y < oy + rows
}

/// The pixel at (`x`, `y`) of `frame` once the first `rows` rows of `art`
/// are laid under it from (`ox`, `oy`): the art shows where the frame is
/// fully transparent.
pub open spec fn underlaid(frame: Image, art: Image, ox: int, oy: int, rows: int, x: int, y: int) -> Rgba {
    if covered(x, y, ox, oy, art.w(), rows) && frame.at(x, y).a == 0 {
        art.at(x - ox, y - oy)
    } else {
        frame.at(x, y)
    }
}

/// The pixel at (`x`, `y`) of `frame` once the first `rows` rows of `art`
/// and the first `cols` pixels of the row after are laid under it.
pub open spec fn partly_underlaid(
    frame: Image,
    art: Image,
    ox: int,
    oy: int,
    rows: int,
    cols: int,
    x: int,
    y: int,
) -> Rgba {
    let on_row = y == oy + rows && ox <= x < ox + cols;
    if (covered(x, y, ox, oy, art.w(), rows) || on_row) && frame.at(x, y).a == 0 {
        art.at(x - ox, y - oy)
    } else {
        frame.at(x, y)
    }
}

/// How many rows of `art` are laid: all of them, or no more than `limit`.
pub open spec fn rows_laid(art: Image, limit: Option<u32>) -> int {
    match limit {
        Some(l) => if (l as int) < art.h() {
            l as int
        } else {
            art.h()
        },
        None => art.h(),
    }
}

/// Lays the first rows of `art` (all of them, or no more than `limit`)
/// under `frame` from (`ox`, `oy`): each art pixel goes where the frame is
/// fully transparent.
pub fn underlay(frame: &mut Image, art: &Image, ox: u32, oy: u32, limit: Option<u32>)
    requires
        old(frame).wf(),
        art.wf(),
        art.w() > 0 && rows_laid(*art, limit) > 0 ==> ox + art.w() <= old(frame).w() && oy
            + rows_laid(*art, limit) <= old(frame).h(),
    ensures
        final(frame).wf(),
        final(frame).w() == old(frame).w(),
        final(frame).h() == old(frame).h(),
        forall|x: int, y: int|
            old(frame).contains(x, y) ==> #[trigger] final(frame).at(x, y) == underlaid(
                *old(frame),
                *art,
                ox as int,
                oy as int,
                rows_laid(*art, limit),
                x,
                y,
            ),
{
    let rows: u32 = match limit {
        Some(l) => if l < art.height() {
            l
        } else {
            art.height()
        },
        None => art.height(),
    };
    let ghost orig = *frame;
    let ghost fw = frame.w();
    let ghost fh = frame.h();
    let mut y: u32 = 0;
    while y < rows
        invariant
            y <= rows,
            rows == rows_laid(*art, limit),
            rows <= art.h(),
            art.wf(),
            orig.wf(),
            art.w() > 0 && rows > 0 ==> ox + art.w() <= fw && oy + rows <= fh,
            fw == orig.w(),
            fh == orig.h(),
            frame.wf(),
            frame.w() == fw,
            frame.h() == fh,
            forall|a: int, b: int|
                orig.contains(a, b) ==> #[trigger] frame.at(a, b) == underlaid(
                    orig,
                    *art,
                    ox as int,
                    oy as int,
                    y as int,
                    a,
                    b,
                ),
        decreases rows - y,
    {
        let mut x: u32 = 0;
        while x < art.width()
            invariant
                y < rows,
                x <= art.w(),
                rows == rows_laid(*art, limit),
                rows <= art.h(),
                art.wf(),
                orig.wf(),
                art.w() > 0 && rows > 0 ==> ox + art.w() <= fw && oy + rows <= fh,
                fw == orig.w(),
                fh == orig.h(),
                frame.wf(),
                frame.w() == fw,
                frame.h() == fh,
                forall|a: int, b: int|
                    orig.contains(a, b) ==> #[trigger] frame.at(a, b) == partly_underlaid(
                        orig,
                        *art,
                        ox as int,
                        oy as int,
                        y as int,
                        x as int,
                        a,
                        b,
                    ),
            decreases art.w() - x,
        {
            let fx = x + ox;
            let fy = y + oy;
            let here = frame.get_pixel(fx, fy);
            if here.a == 0 {
                let p = art.get_pixel(x, y);
                let ghost before = *frame;
                frame.put_pixel(fx, fy, p);
                proof {
                    assert forall|a: int, b: int| orig.contains(a, b) implies #[trigger] frame.at(a, b)
                        == partly_underlaid(orig, *art, ox as int, oy as int, y as int, x + 1, a, b) by {
                        lemma_pixel_index(fw, fh, a, b);
                        lemma_pixel_index(fw, fh, fx as int, fy as int);
                        assert(before.at(a, b) == partly_underlaid(
                            orig,
                            *art,
                            ox as int,
                            oy as int,
                            y as int,
                            x as int,
                            a,
                            b,
                        ));
                        assert(before.at(fx as int, fy as int) == partly_underlaid(
                            orig,
                            *art,
                            ox as int,
                            oy as int,
                            y as int,
                            x as int,
                            fx as int,
                            fy as int,
                        ));
                        if pixel_index(fw, a, b) == pixel_index(fw, fx as int, fy as int) {
                            lemma_pixel_index_injective(fw, fh, a, b, fx as int, fy as int);
                        }
                    }
                }
            }
            x += 1;
        }
        proof {
            assert forall|a: int, b: int| orig.contains(a, b) implies #[trigger] frame.at(a, b)
                == underlaid(orig, *art, ox as int, oy as int, y + 1, a, b) by {}
        }
        y += 1;
    }
}

/// The decimal digits of `n`, as `to_string` writes them.
pub open spec fn decimal(n: nat) -> Seq<char>
    decreases n,
{
    if n < 10 {
        seq![(48 + n) as char]
    } else {
        decimal(n / 10).push((48 + n % 10) as char)
    }
}

/// The decimal digits of `n`.
pub fn decimal_chars(n: u32) -> (res: Vec<char>)
    ensures
        res@ == decimal(n as nat),
    decreases n,
{
    if n < 10 {
        let d: u8 = n as u8;
        let c: char = (48u8 + d) as char;
        let mut v: Vec<char> = Vec::new();
        v.push(c);
        assert(v@ =~= seq![(48 + n) as char]);
        v
    } else {
        let mut v = decimal_chars(n / 10);
        let d: u8 = (n % 10) as u8;
        let c: char = (48u8 + d) as char;
        v.push(c);
        v
    }
}

/// The options the cost is drawn with: white on `background`, from (2, 2).
pub open spec fn cost_options(background: Rgba) -> DrawOptions {
    DrawOptions {
        x: 2,
        y: 2,
        h_align: Alignment::Start,
        v_align: Alignment::Start,
        background,
        foreground: Rgba { r: 255, g: 255, b: 255, a: 255 },
    }
}

/// The images made for a card from its artwork `art`:
/// - the card: `frame` with the art laid under it from (4, 14) and, unless
///   the card is a token, its cost drawn from (2, 2) in white on
///   `background`;
/// - its deck-list entry: `deck_frame` with the first 16 rows of the art
///   laid under it from (11, 2);
/// - its stack entry: `stack_frame` with the first 16 rows of the art laid
///   under it from (14, 2).
pub fn render_card(
    art: &Image,
    frame: Image,
    deck_frame: Image,
    stack_frame: Image,
    cost: u32,
    is_token: bool,
    background: Rgba,
    numbers: &NumberPainter,
) -> (res: (Image, Image, Image))
    requires
        art.wf(),
        frame.wf(),
        deck_frame.wf(),
        stack_frame.wf(),
        numbers.wf(),
        art.w() > 0 && art.h() > 0 ==> 4 + art.w() <= frame.w() && 14 + art.h() <= frame.h(),
        art.w() > 0 && rows_laid(*art, Some(16)) > 0 ==> 11 + art.w() <= deck_frame.w() && 2
            + rows_laid(*art, Some(16)) <= deck_frame.h(),
        art.w() > 0 && rows_laid(*art, Some(16)) > 0 ==> 14 + art.w() <= stack_frame.w() && 2
            + rows_laid(*art, Some(16)) <= stack_frame.h(),
        !is_token ==> 2 + advance(numbers.glyph_table(), decimal(cost as nat)) <= u32::MAX,
        !is_token ==> puts_inside(
            number_puts(numbers.glyph_table(), decimal(cost as nat), cost_options(background)),
            frame.w(),
            frame.h(),
        ),
    ensures
        res.0.wf() && res.1.wf() && res.2.wf(),
        res.0.w() == frame.w() && res.0.h() == frame.h(),
        res.1.w() == deck_frame.w() && res.1.h() == deck_frame.h(),
        res.2.w() == stack_frame.w() && res.2.h() == stack_frame.h(),
        is_token ==> forall|x: int, y: int|
            frame.contains(x, y) ==> #[trigger] res.0.at(x, y) == underlaid(
                frame,
                *art,
                4,
                14,
                art.h(),
                x,
                y,
            ),
        !is_token ==> exists|laid: Image|
            {
                &&& laid.wf()
                &&& laid.w() == frame.w()
                &&& laid.h() == frame.h()
                &&& forall|x: int, y: int|
                    frame.contains(x, y) ==> #[trigger] laid.at(x, y) == underlaid(
                        frame,
                        *art,
                        4,
                        14,
                        art.h(),
                        x,
                        y,
                    )
                &&& res.0.px() == painted(
                    laid.px(),
                    laid.w(),
                    number_puts(
                        numbers.glyph_table(),
                        decimal(cost as nat),
                        cost_options(background),
                    ),
                )
            },
        forall|x: int, y: int|
            deck_frame.contains(x, y) ==> #[trigger] res.1.at(x, y) == underlaid(
                deck_frame,
                *art,
                11,
                2,
                rows_laid(*art, Some(16)),
                x,
                y,
            ),
        forall|x: int, y: int|
            stack_frame.contains(x, y) ==> #[trigger] res.2.at(x, y) == underlaid(
                stack_frame,
                *art,
                14,
                2,
                rows_laid(*art, Some(16)),
                x,
                y,
            ),
{
    let mut card = frame;
    underlay(&mut card, art, 4, 14, None);
    let mut deck = deck_frame;
    underlay(&mut deck, art, 11, 2, Some(16));
    let mut stack = stack_frame;
    underlay(&mut stack, art, 14, 2, Some(16));
    if !is_token {
        let ghost laid = card;
        let digits = decimal_chars(cost);
        let options = DrawOptions {
            x: 2,
            y: 2,
            h_align: Alignment::Start,
            v_align: Alignment::Start,
            background,
            foreground: Rgba { r: 255, g: 255, b: 255, a: 255 },
        };
        numbers.draw_chars(&digits, &options, &mut card);
        assert(laid.wf() && laid.w() == frame.w());
    }
    (card, deck, stack)
}


// ---------------------------------------------------------------------------
// PNG.
#[verifier::external_type_specification]
#[verifier::external_body]
pub struct ExImageError(image::ImageError);

/// What the image crate decodes from the PNG file `bytes`, as RGBA: its
/// width, height and pixel bytes; none where it refuses the file.
pub uninterp spec fn png_rgba(bytes: Seq<u8>) -> Option<(u32, u32, Seq<u8>)>;

/// The image crate's `PngDecoder` and `DynamicImage::from_decoder`, then
/// `into_rgba8`: the width, height and RGBA bytes (four a pixel, row by
/// row) of the PNG file `bytes`.
#[verifier::external_body]
fn decode_png_rgba(bytes: &[u8]) -> (res: Result<(u32, u32, Vec<u8>), image::ImageError>)
    ensures
        res is Ok <==> png_rgba(bytes@) is Some,
        res matches Ok((w, h, raw)) ==> png_rgba(bytes@) == Some((w, h, raw@)) && raw@.len() == 4 * w * h,
{
    let decoder = PngDecoder::new(Cursor::new(bytes))?;
    let image = DynamicImage::from_decoder(decoder)?.into_rgba8();
    let (w, h) = image.dimensions();
    Ok((w, h, image.into_raw()))
}

/// Why an image file could not be read.
#[derive(Debug, Clone, Copy, PartialEq, Eq, Structural)]
pub enum ImageFileError {
    /// The file is not a PNG image the decoder reads.
    Decode,
}

impl Image {
    /// The image in the PNG file `bytes` (see [`png_rgba`]).
    pub fn decode_png(bytes: &[u8]) -> (res: Result<Image, ImageFileError>)
        ensures
            match res {
                Ok(img) => img.wf() && (png_rgba(bytes@) matches Some((w, h, raw)) && img.w() == w
                    && img.h() == h && img.px() == rgba_pixels(raw)),
                Err(_) => png_rgba(bytes@) is None,
            },
    {
        match decode_png_rgba(bytes) {
            Ok((w, h, raw)) => match Image::from_rgba_bytes(w, h, raw.as_slice()) {
                Some(img) => Ok(img),
                None => Err(ImageFileError::Decode),
            },
            Err(_) => Err(ImageFileError::Decode),
        }
    }
}


// ---------------------------------------------------------------------------
// Shields.
/// The column, before it is taken as a `u32`, where column `x` of the
/// shield picture (`sw` wide) lands for shield `i` of `count`, drawn left of
/// `base_x` with each earlier shield three columns further left.
pub open spec fn shield_col(x: int, base_x: u32, sw: u32, i: int, count: int) -> int {
    (x as i32) as int + (base_x as i32) as int - (sw as i32) as int + (i + 1 - count) * 3
}

/// The arithmetic for pixel (`x`, `y`) of shield `i` stays in range: the
/// column sums fit an `i32` and the row, above `base_y` by the picture's
/// height `sh`, is not negative.
pub open spec fn shield_arith_ok(x: int, y: int, base_x: u32, base_y: u32, sw: u32, sh: u32, i: int, count: int) -> bool {
    let a = (x as i32) as int + (base_x as i32) as int;
    let b = a - (sw as i32) as int;
    let c = b + (i + 1 - count) * 3;
    &&& i32::MIN <= a <= i32::MAX
    &&& i32::MIN <= b <= i32::MAX
    &&& i32::MIN <= c <= i32::MAX
    &&& y + base_y <= u32::MAX
    &&& y + base_y >= sh
}

/// The put for pixel (`x`, `y`) of shield `i`.
pub open spec fn shield_put(pic: Image, x: int, y: int, base_x: u32, base_y: u32, i: int, count: int) -> Put {
    (
        ((shield_col(x, base_x, pic.w() as u32, i, count) as i32) as u32) as int,
        y + base_y - pic.h(),
        pic.at(x, y),
    )
}

/// The puts for the first `n` pixels of row `y` of shield `i`.
pub open spec fn shield_row_puts(pic: Image, base_x: u32, base_y: u32, i: int, count: int, y: int, n: nat) -> Seq<
    Put,
>
    decreases n,
{
    if n == 0 {
        Seq::empty()
    } else {
        let x = n - 1;
        let rest = shield_row_puts(pic, base_x, base_y, i, count, y, (n - 1) as nat);
        if pic.at(x, y).a != 0 {
            rest.push(shield_put(pic, x, y, base_x, base_y, i, count))
        } else {
            rest
        }
    }
}

/// The puts for the first `m` rows of shield `i`.
pub open spec fn shield_pic_puts(pic: Image, base_x: u32, base_y: u32, i: int, count: int, m: nat) -> Seq<Put>
    decreases m,
{
    if m == 0 {
        Seq::empty()
    } else {
        shield_pic_puts(pic, base_x, base_y, i, count, (m - 1) as nat) + shield_row_puts(
            pic,
            base_x,
            base_y,
            i,
            count,
            m - 1,
            pic.w() as nat,
        )
    }
}

/// The puts for the first `k` of `count` shields.
pub open spec fn shield_puts(pic: Image, base_x: u32, base_y: u32, count: int, k: nat) -> Seq<Put>
    decreases k,
{
    if k == 0 {
        Seq::empty()
    } else {
        shield_puts(pic, base_x, base_y, count, (k - 1) as nat) + shield_pic_puts(
            pic,
            base_x,
            base_y,
            k - 1,
            count,
            pic.h() as nat,
        )
    }
}

proof fn lemma_shield_row_prefix(pic: Image, bx: u32, by: u32, i: int, count: int, y: int, n: nat, m: nat)
    requires
        n <= m,
    ensures
        is_prefix(shield_row_puts(pic, bx, by, i, count, y, n), shield_row_puts(pic, bx, by, i, count, y, m)),
    decreases m - n,
{
    if n < m {
        lemma_shield_row_prefix(pic, bx, by, i, count, y, n, (m - 1) as nat);
        let r = shield_row_puts(pic, bx, by, i, count, y, (m - 1) as nat);
        if pic.at(m - 1, y).a != 0 {
            assert(r.push(shield_put(pic, m - 1, y, bx, by, i, count)).take(r.len() as int) =~= r);
        } else {
            assert(r.take(r.len() as int) =~= r);
        }
        lemma_prefix_trans(
            shield_row_puts(pic, bx, by, i, count, y, n),
            r,
            shield_row_puts(pic, bx, by, i, count, y, m),
        );
    } else {
        let a = shield_row_puts(pic, bx, by, i, count, y, m);
        assert(a.take(a.len() as int) =~= a);
    }
}

proof fn lemma_shield_pic_prefix(pic: Image, bx: u32, by: u32, i: int, count: int, m: nat, k: nat)
    requires
        m <= k,
    ensures
        is_prefix(shield_pic_puts(pic, bx, by, i, count, m), shield_pic_puts(pic, bx, by, i, count, k)),
    decreases k - m,
{
    if m < k {
        lemma_shield_pic_prefix(pic, bx, by, i, count, m, (k - 1) as nat);
        lemma_prefix_self_append(
            shield_pic_puts(pic, bx, by, i, count, (k - 1) as nat),
            shield_row_puts(pic, bx, by, i, count, k - 1, pic.w() as nat),
        );
        lemma_prefix_trans(
            shield_pic_puts(pic, bx, by, i, count, m),
            shield_pic_puts(pic, bx, by, i, count, (k - 1) as nat),
            shield_pic_puts(pic, bx, by, i, count, k),
        );
    } else {
        let a = shield_pic_puts(pic, bx, by, i, count, m);
        assert(a.take(a.len() as int) =~= a);
    }
}

proof fn lemma_shield_prefix(pic: Image, bx: u32, by: u32, count: int, k: nat, n: nat)
    requires
        k <= n,
    ensures
        is_prefix(shield_puts(pic, bx, by, count, k), shield_puts(pic, bx, by, count, n)),
    decreases n - k,
{
    if k < n {
        lemma_shield_prefix(pic, bx, by, count, k, (n - 1) as nat);
        lemma_prefix_self_append(
            shield_puts(pic, bx, by, count, (n - 1) as nat),
            shield_pic_puts(pic, bx, by, n - 1, count, pic.h() as nat),
        );
        lemma_prefix_trans(
            shield_puts(pic, bx, by, count, k),
            shield_puts(pic, bx, by, count, (n - 1) as nat),
            shield_puts(pic, bx, by, count, n),
        );
    } else {
        let a = shield_puts(pic, bx, by, count, k);
        assert(a.take(a.len() as int) =~= a);
    }
}

/// Draws `count` shields (the picture `pic`) into `image`, the last one
/// ending left of `base_x` and above `base_y`, each earlier one three
/// columns further left; only the picture's non-transparent pixels are
/// drawn.
pub fn draw_shield(image: &mut Image, pic: &Image, base_x: u32, base_y: u32, count: u8)
    requires
        old(image).wf(),
        pic.wf(),
        forall|i: int, x: int, y: int|
            0 <= i < count && pic.contains(x, y) && pic.at(x, y).a != 0 ==> #[trigger] shield_arith_ok(
                x,
                y,
                base_x,
                base_y,
                pic.w() as u32,
                pic.h() as u32,
                i,
                count as int,
            ),
        puts_inside(shield_puts(*pic, base_x, base_y, count as int, count as nat), old(image).w(), old(image).h()),
    ensures
        final(image).wf(),
        final(image).w() == old(image).w(),
        final(image).h() == old(image).h(),
        final(image).px() == painted(
            old(image).px(),
            old(image).w(),
            shield_puts(*pic, base_x, base_y, count as int, count as nat),
        ),
{
    let ghost orig = image.px();
    let ghost w = image.w();
    let ghost h = image.h();
    let ghost all = shield_puts(*pic, base_x, base_y, count as int, count as nat);
    let n: i32 = count as i32;
    let sw: u32 = pic.width();
    let sh: u32 = pic.height();
    let mut i: i32 = 0;
    while i < n
        invariant
            0 <= i <= n,
            n == count,
            sw == pic.w(),
            sh == pic.h(),
            pic.wf(),
            forall|i: int, x: int, y: int|
                0 <= i < count && pic.contains(x, y) && pic.at(x, y).a != 0 ==> #[trigger] shield_arith_ok(
                    x,
                    y,
                    base_x,
                    base_y,
                    pic.w() as u32,
                    pic.h() as u32,
                    i,
                    count as int,
                ),
            all == shield_puts(*pic, base_x, base_y, count as int, count as nat),
            puts_inside(all, w, h),
            image.wf(),
            image.w() == w,
            image.h() == h,
            image.px() == painted(orig, w, shield_puts(*pic, base_x, base_y, count as int, i as nat)),
        decreases n - i,
    {
        let ghost before = shield_puts(*pic, base_x, base_y, count as int, i as nat);
        proof {
            lemma_shield_prefix(*pic, base_x, base_y, count as int, (i + 1) as nat, count as nat);
            assert(before + shield_pic_puts(*pic, base_x, base_y, i as int, count as int, 0) =~= before);
        }
        let mut y: u32 = 0;
        while y < sh
            invariant
                0 <= i < n,
                n == count,
                y <= sh,
                sw == pic.w(),
                sh == pic.h(),
                pic.wf(),
                forall|i: int, x: int, y: int|
                    0 <= i < count && pic.contains(x, y) && pic.at(x, y).a != 0
                        ==> #[trigger] shield_arith_ok(
                        x,
                        y,
                        base_x,
                        base_y,
                        pic.w() as u32,
                        pic.h() as u32,
                        i,
                        count as int,
                    ),
                puts_inside(all, w, h),
                before == shield_puts(*pic, base_x, base_y, count as int, i as nat),
                is_prefix(before + shield_pic_puts(*pic, base_x, base_y, i as int, count as int, sh as nat), all),
                image.wf(),
                image.w() == w,
                image.h() == h,
                image.px() == painted(
                    orig,
                    w,
                    before + shield_pic_puts(*pic, base_x, base_y, i as int, count as int, y as nat),
                ),
            decreases sh - y,
        {
            let ghost rows = before + shield_pic_puts(*pic, base_x, base_y, i as int, count as int, y as nat);
            proof {
                assert(rows + shield_row_puts(*pic, base_x, base_y, i as int, count as int, y as int, 0)
                    =~= rows);
            }
            let mut x: u32 = 0;
            while x < sw
                invariant
                    0 <= i < n,
                    n == count,
                    y < sh,
                    x <= sw,
                    sw == pic.w(),
                    sh == pic.h(),
                    pic.wf(),
                    forall|i: int, x: int, y: int|
                        0 <= i < count && pic.contains(x, y) && pic.at(x, y).a != 0
                            ==> #[trigger] shield_arith_ok(
                            x,
                            y,
                            base_x,
                            base_y,
                            pic.w() as u32,
                            pic.h() as u32,
                            i,
                            count as int,
                        ),
                    puts_inside(all, w, h),
                    is_prefix(
                        before + shield_pic_puts(*pic, base_x, base_y, i as int, count as int, sh as nat),
                        all,
                    ),
                    rows == before + shield_pic_puts(*pic, base_x, base_y, i as int, count as int, y as nat),
                    image.wf(),
                    image.w() == w,
                    image.h() == h,
                    image.px() == painted(
                        orig,
                        w,
                        rows + shield_row_puts(*pic, base_x, base_y, i as int, count as int, y as int, x as nat),
                    ),
                decreases sw - x,
            {
                let p = pic.get_pixel(x, y);
                let ghost done = rows + shield_row_puts(
                    *pic,
                    base_x,
                    base_y,
                    i as int,
                    count as int,
                    y as int,
                    x as nat,
                );
                if p.a != 0 {
                    assert(shield_arith_ok(
                        x as int,
                        y as int,
                        base_x,
                        base_y,
                        pic.w() as u32,
                        pic.h() as u32,
                        i as int,
                        count as int,
                    ));
                    let col: i32 = x as i32 + base_x as i32 - sw as i32 + ((i + 1 - n) * 3);
                    let px: u32 = col as u32;
                    let py: u32 = y + base_y - sh;
                    proof {
                        let q = shield_put(*pic, x as int, y as int, base_x, base_y, i as int, count as int);
                        assert(q == (px as int, py as int, p));
                        assert(rows + shield_row_puts(
                            *pic,
                            base_x,
                            base_y,
                            i as int,
                            count as int,
                            y as int,
                            (x + 1) as nat,
                        ) =~= done.push(q));
                        lemma_shield_row_prefix(
                            *pic,
                            base_x,
                            base_y,
                            i as int,
                            count as int,
                            y as int,
                            (x + 1) as nat,
                            sw as nat,
                        );
                        lemma_prefix_append(
                            rows,
                            shield_row_puts(*pic, base_x, base_y, i as int, count as int, y as int, (x + 1) as nat),
                            shield_row_puts(*pic, base_x, base_y, i as int, count as int, y as int, sw as nat),
                        );
                        assert(rows + shield_row_puts(
                            *pic,
                            base_x,
                            base_y,
                            i as int,
                            count as int,
                            y as int,
                            sw as nat,
                        ) =~= before + shield_pic_puts(
                            *pic,
                            base_x,
                            base_y,
                            i as int,
                            count as int,
                            (y + 1) as nat,
                        ));
                        lemma_shield_pic_prefix(
                            *pic,
                            base_x,
                            base_y,
                            i as int,
                            count as int,
                            (y + 1) as nat,
                            sh as nat,
                        );
                        lemma_prefix_append(
                            before,
                            shield_pic_puts(*pic, base_x, base_y, i as int, count as int, (y + 1) as nat),
                            shield_pic_puts(*pic, base_x, base_y, i as int, count as int, sh as nat),
                        );
                        lemma_prefix_trans(
                            done.push(q),
                            before + shield_pic_puts(*pic, base_x, base_y, i as int, count as int, (y + 1) as nat),
                            before + shield_pic_puts(*pic, base_x, base_y, i as int, count as int, sh as nat),
                        );
                        lemma_prefix_trans(
                            done.push(q),
                            before + shield_pic_puts(*pic, base_x, base_y, i as int, count as int, sh as nat),
                            all,
                        );
                        lemma_prefix_elem(done, q, all, w, h);
                        lemma_painted_push(orig, w, done, q);
                    }
                    image.put_pixel(px, py, p);
                } else {
                    proof {
                        assert(rows + shield_row_puts(
                            *pic,
                            base_x,
                            base_y,
                            i as int,
                            count as int,
                            y as int,
                            (x + 1) as nat,
                        ) =~= done);
                    }
                }
                x += 1;
            }
            proof {
                assert(rows + shield_row_puts(*pic, base_x, base_y, i as int, count as int, y as int, sw as nat)
                    =~= before + shield_pic_puts(*pic, base_x, base_y, i as int, count as int, (y + 1) as nat));
            }
            y += 1;
        }
        i += 1;
    }
}


// ---------------------------------------------------------------------------
// Number overlays of cards on the board.
/// The size of a card on the board, in pixels.
pub const CARD_WIDTH: u32 = 36;
pub const CARD_HEIGHT: u32 = 48;

/// How a creature's power stands against its printed power.
#[derive(Debug, Clone, Copy, PartialEq, Eq, Structural)]
pub enum PowerChange {
    Lower,
    Same,
    Higher,
}

/// A fully transparent pixel.
pub open spec fn clear() -> Rgba {
    Rgba { r: 0, g: 0, b: 0, a: 0 }
}

/// The text drawn for a power: its decimal digits, each `0` drawn as `o`.
pub open spec fn power_text(p: nat) -> Seq<char> {
    Seq::new(decimal(p).len(), |i: int| if decimal(p)[i] == '0' { 'o' } else { decimal(p)[i] })
}

/// The colour of a power: blue below the printed power, red above it,
/// white at it.
pub open spec fn power_color(c: PowerChange) -> Rgba {
    match c {
        PowerChange::Lower => Rgba { r: 100, g: 100, b: 255, a: 255 },
        PowerChange::Higher => Rgba { r: 255, g: 100, b: 100, a: 255 },
        PowerChange::Same => Rgba { r: 255, g: 255, b: 255, a: 255 },
    }
}

/// The options a cost overlay is drawn with: `foreground` on white, from
/// (2, 2).
pub open spec fn cost_overlay_options(foreground: Rgba) -> DrawOptions {
    DrawOptions {
        x: 2,
        y: 2,
        h_align: Alignment::Start,
        v_align: Alignment::Start,
        background: Rgba { r: 255, g: 255, b: 255, a: 255 },
        foreground,
    }
}

/// The options a power overlay is drawn with: in the power's colour on
/// `background`, from column 3, centred on row 18.
pub open spec fn power_overlay_options(change: PowerChange, background: Rgba) -> DrawOptions {
    DrawOptions {
        x: 3,
        y: 18,
        h_align: Alignment::Start,
        v_align: Alignment::Center,
        background,
        foreground: power_color(change),
    }
}

/// The overlay showing a card's cost: a clear card-sized image with the
/// cost drawn on it (see [`cost_overlay_options`]).
pub fn cost_overlay(numbers: &NumberPainter, cost: u8, foreground: Rgba) -> (res: Image)
    requires
        numbers.wf(),
        2 + advance(numbers.glyph_table(), decimal(cost as nat)) <= u32::MAX,
        puts_inside(
            number_puts(numbers.glyph_table(), decimal(cost as nat), cost_overlay_options(foreground)),
            CARD_WIDTH as int,
            CARD_HEIGHT as int,
        ),
    ensures
        res.wf(),
        res.w() == CARD_WIDTH,
        res.h() == CARD_HEIGHT,
        res.px() == painted(
            Seq::new((CARD_WIDTH * CARD_HEIGHT) as nat, |i: int| clear()),
            CARD_WIDTH as int,
            number_puts(numbers.glyph_table(), decimal(cost as nat), cost_overlay_options(foreground)),
        ),
{
    let mut image = Image::filled(CARD_WIDTH, CARD_HEIGHT, Rgba { r: 0, g: 0, b: 0, a: 0 });
    let digits = decimal_chars(cost as u32);
    let options = DrawOptions {
        x: 2,
        y: 2,
        h_align: Alignment::Start,
        v_align: Alignment::Start,
        background: Rgba { r: 255, g: 255, b: 255, a: 255 },
        foreground,
    };
    numbers.draw_chars(&digits, &options, &mut image);
    image
}

fn power_chars(p: u32) -> (res: Vec<char>)
    ensures
        res@ == power_text(p as nat),
{
    let digits = decimal_chars(p);
    let mut res: Vec<char> = Vec::new();
    let mut i: usize = 0;
    while i < digits.len()
        invariant
            i <= digits.len(),
            digits@ == decimal(p as nat),
            res@ == power_text(p as nat).take(i as int),
        decreases digits.len() - i,
    {
        let c = digits[i];
        res.push(if c == '0' { 'o' } else { c });
        i += 1;
        assert(res@ =~= power_text(p as nat).take(i as int));
    }
    assert(power_text(p as nat).take(i as int) =~= power_text(p as nat));
    res
}

/// The power overlay draws its digits in white exactly when the power is
/// as printed, in red (255, 100, 100) exactly when it is raised, and in
/// blue (100, 100, 255) exactly when it is lowered, all opaque; the three
/// colours differ, so the colour tells the change.
pub proof fn lemma_power_colors(change: PowerChange, background: Rgba)
    ensures
        ({
            let fg = power_overlay_options(change, background).foreground;
            &&& fg == (Rgba { r: 255, g: 255, b: 255, a: 255 }) <==> change == PowerChange::Same
            &&& fg == (Rgba { r: 255, g: 100, b: 100, a: 255 }) <==> change == PowerChange::Higher
            &&& fg == (Rgba { r: 100, g: 100, b: 255, a: 255 }) <==> change == PowerChange::Lower
            &&& power_overlay_options(change, background).background == background
        }),
{
}

/// The overlay showing a creature's power, if it has one: a clear square
/// image as wide as a card with the power drawn on it (see
/// [`power_overlay_options`] and [`power_text`]).
pub fn power_overlay(numbers: &NumberPainter, power: Option<(u32, PowerChange)>, background: Rgba) -> (res: Image)
    requires
        numbers.wf(),
        power matches Some((p, change)) ==> {
            &&& 3 + advance(numbers.glyph_table(), power_text(p as nat)) <= u32::MAX
            &&& puts_inside(
                number_puts(
                    numbers.glyph_table(),
                    power_text(p as nat),
                    power_overlay_options(change, background),
                ),
                CARD_WIDTH as int,
                CARD_WIDTH as int,
            )
        },
    ensures
        res.wf(),
        res.w() == CARD_WIDTH,
        res.h() == CARD_WIDTH,
        res.px() == match power {
            Some((p, change)) => painted(
                Seq::new((CARD_WIDTH * CARD_WIDTH) as nat, |i: int| clear()),
                CARD_WIDTH as int,
                number_puts(numbers.glyph_table(), power_text(p as nat), power_overlay_options(change, background)),
            ),
            None => Seq::new((CARD_WIDTH * CARD_WIDTH) as nat, |i: int| clear()),
        },
{
    let mut image = Image::filled(CARD_WIDTH, CARD_WIDTH, Rgba { r: 0, g: 0, b: 0, a: 0 });
    match power {
        Some((p, change)) => {
            let foreground = match change {
                PowerChange::Lower => Rgba { r: 100, g: 100, b: 255, a: 255 },
                PowerChange::Higher => Rgba { r: 255, g: 100, b: 100, a: 255 },
                PowerChange::Same => Rgba { r: 255, g: 255, b: 255, a: 255 },
            };
            let text = power_chars(p);
            let options = DrawOptions {
                x: 3,
                y: 18,
                h_align: Alignment::Start,
                v_align: Alignment::Center,
                background,
                foreground,
            };
            numbers.draw_chars(&text, &options, &mut image);
        },
        None => {},
    }
    image
}

} // verus!
