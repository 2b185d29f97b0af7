//! The 128x64 monochrome framebuffer and its drawing primitives.
//!
//! A byte holds eight pixels of one column, the uppermost in its lowest bit; the bytes of one
//! band of eight rows follow each other from left to right.
use vstd::prelude::*;

verus! {

pub const WIDTH: usize = 128;

pub const HEIGHT: usize = 64;

pub const BUFFER_SIZE: usize = 1024;

pub const FONT_CHARACTERS: usize = 256;

/// The contents of the display.
#[derive(Debug, Clone, PartialEq, Eq)]
pub struct Framebuffer {
    bytes: [u8; BUFFER_SIZE],
}

/// How new ink meets what is on the display.
#[derive(Debug, Clone, Copy, PartialEq, Eq, Structural)]
pub enum DrawMode {
    Replace,
    Xor,
    Or,
}

/// Where text stands in its box.
#[derive(Debug, Clone, Copy, PartialEq, Eq, Structural)]
pub enum Align {
    Left,
    Center,
    Right,
}

/// Why text could not be drawn.
#[derive(Debug, Clone, Copy, PartialEq, Eq, Structural)]
pub enum OledError {
    /// The font has `length` bytes, and the character width asks for `expected`.
    ShortFont { length: usize, expected: usize },
}

impl View for Framebuffer {
    type V = Seq<u8>;

    closed spec fn view(&self) -> Seq<u8> {
        self.bytes@
    }
}

/// Bit `n` of `byte`, counted from the lowest.
pub open spec fn bit(byte: u8, n: int) -> bool {
    (byte >> (n as u8)) & 1 == 1
}

/// Whether the pixel at column `x` and row `y` of `image` is lit.
pub open spec fn lit(image: Seq<u8>, x: int, y: int) -> bool {
    bit(image[WIDTH * (y / 8) + x], y % 8)
}

/// Whether a pixel is on the display.
pub open spec fn on_screen(x: int, y: int) -> bool {
    0 <= x < WIDTH && 0 <= y < HEIGHT
}

/// A pixel after `value` was drawn over it.
pub open spec fn combine(before: bool, value: bool, mode: DrawMode) -> bool {
    match mode {
        DrawMode::Replace => value,
        DrawMode::Xor => before != value,
        DrawMode::Or => before || value,
    }
}

/// The byte whose lowest bit is `b0` and whose highest is `b7`.
pub open spec fn byte_of(
    b0: bool,
    b1: bool,
    b2: bool,
    b3: bool,
    b4: bool,
    b5: bool,
    b6: bool,
    b7: bool,
) -> u8 {
    (if b0 { 1u8 } else { 0u8 }) | (if b1 { 2u8 } else { 0u8 }) | (if b2 { 4u8 } else { 0u8 })
        | (if b3 { 8u8 } else { 0u8 }) | (if b4 { 16u8 } else { 0u8 })
        | (if b5 { 32u8 } else { 0u8 }) | (if b6 { 64u8 } else { 0u8 })
        | (if b7 { 128u8 } else { 0u8 })
}

/// The image with the given pixels.
pub open spec fn image_of(pixels: spec_fn(int, int) -> bool) -> Seq<u8> {
    Seq::new(
        BUFFER_SIZE as nat,
        |i: int|
            {
                let x = i % (WIDTH as int);
                let y = i / (WIDTH as int) * 8;
                byte_of(
                    pixels(x, y),
                    pixels(x, y + 1),
                    pixels(x, y + 2),
                    pixels(x, y + 3),
                    pixels(x, y + 4),
                    pixels(x, y + 5),
                    pixels(x, y + 6),
                    pixels(x, y + 7),
                )
            },
    )
}

/// The pixels of `image` after `ink` was drawn over them: where `ink` is `None` they stay.
pub open spec fn inked(
    image: Seq<u8>,
    ink: spec_fn(int, int) -> Option<bool>,
    mode: DrawMode,
) -> spec_fn(int, int) -> bool {
    |x: int, y: int|
        match ink(x, y) {
            Some(value) => combine(lit(image, x, y), value, mode),
            None => lit(image, x, y),
        }
}

/// `image` after `ink` was drawn over it.
pub open spec fn drawn(
    image: Seq<u8>,
    ink: spec_fn(int, int) -> Option<bool>,
    mode: DrawMode,
) -> Seq<u8> {
    image_of(inked(image, ink, mode))
}

/// One pixel.
pub open spec fn dot(x: int, y: int, value: bool) -> spec_fn(int, int) -> Option<bool> {
    |px: int, py: int|
        if px == x && py == y {
            Some(value)
        } else {
            None
        }
}

/// A filled rectangle.
pub open spec fn rectangle(x: int, y: int, width: int, height: int) -> spec_fn(
    int,
    int,
) -> Option<bool> {
    |px: int, py: int|
        if x <= px < x + width && y <= py < y + height {
            Some(true)
        } else {
            None
        }
}

/// A display that is dark or lit everywhere.
pub open spec fn cleared(white: bool) -> Seq<u8> {
    Seq::new(
        BUFFER_SIZE as nat,
        |i: int|
            if white {
                0xffu8
            } else {
                0u8
            },
    )
}

/// A picture on the display, which is dark where the picture ends too soon.
pub open spec fn backdrop(input: Seq<u8>) -> Seq<u8> {
    Seq::new(
        BUFFER_SIZE as nat,
        |i: int|
            if i < input.len() {
                input[i]
            } else {
                0u8
            },
    )
}

/// `image` after eight pixels of one column were drawn over the band of row `y`.
pub open spec fn byte_row_written(
    image: Seq<u8>,
    x: int,
    y: int,
    value: u8,
    mode: DrawMode,
) -> Seq<u8> {
    if on_screen(x, y) {
        let at = WIDTH * (y / 8) + x;
        image.update(
            at,
            match mode {
                DrawMode::Replace => value,
                DrawMode::Xor => image[at] ^ value,
                DrawMode::Or => image[at] | value,
            },
        )
    } else {
        image
    }
}

/// The width of a character cell: at least six pixels.
pub open spec fn cell_width(char_width: int) -> int {
    if char_width < 6 {
        6
    } else {
        char_width
    }
}

/// The bands of eight rows that a cell of this width takes: four thirds of its width, rounded up
/// to whole bands.
pub open spec fn cell_bands(width: int) -> int {
    (width * 8 / 6 + 7) / 8
}

/// The bytes of a font whose cells have this width.
pub open spec fn font_size(width: int) -> int {
    FONT_CHARACTERS * width * cell_bands(width)
}

/// One pixel of a glyph. A font holds the uppermost band of all its characters first; within a
/// band each character has one byte for each column, the uppermost pixel in its highest bit.
pub open spec fn glyph(font: Seq<u8>, width: int, character: u8, column: int, row: int) -> bool {
    bit(font[character * width + column + FONT_CHARACTERS * width * (row / 8)], 7 - row % 8)
}

/// The cells of `text`, the first with its upper left corner at column `x` and row `y`.
pub open spec fn cells(text: Seq<u8>, x: int, y: int, width: int, font: Seq<u8>) -> spec_fn(
    int,
    int,
) -> Option<bool> {
    |px: int, py: int|
        if x <= px && (px - x) / width < text.len() && y <= py < y + 8 * cell_bands(width) {
            Some(glyph(font, width, text[(px - x) / width], (px - x) % width, py - y))
        } else {
            None
        }
}

/// How far text of `used` pixels is moved to the right in its box.
pub open spec fn align_offset(align: Align, box_width: int, used: int) -> int {
    let room = if box_width > used {
        box_width - used
    } else {
        0
    };
    match align {
        Align::Left => 0,
        Align::Center => room / 2,
        Align::Right => room,
    }
}

/// The column at which aligned text begins. The offset is taken as a signed number.
pub open spec fn aligned_left(
    text: Seq<u8>,
    x: isize,
    box_width: usize,
    align: Align,
    char_width: usize,
) -> int {
    let used = text.len() * cell_width(char_width as int);
    x + (align_offset(align, box_width as int, used) as isize)
}

/// The bits of a byte put together from bits.
proof fn lemma_byte_of(
    b0: bool,
    b1: bool,
    b2: bool,
    b3: bool,
    b4: bool,
    b5: bool,
    b6: bool,
    b7: bool,
)
    ensures
        bit(byte_of(b0, b1, b2, b3, b4, b5, b6, b7), 0) == b0,
        bit(byte_of(b0, b1, b2, b3, b4, b5, b6, b7), 1) == b1,
        bit(byte_of(b0, b1, b2, b3, b4, b5, b6, b7), 2) == b2,
        bit(byte_of(b0, b1, b2, b3, b4, b5, b6, b7), 3) == b3,
        bit(byte_of(b0, b1, b2, b3, b4, b5, b6, b7), 4) == b4,
        bit(byte_of(b0, b1, b2, b3, b4, b5, b6, b7), 5) == b5,
        bit(byte_of(b0, b1, b2, b3, b4, b5, b6, b7), 6) == b6,
        bit(byte_of(b0, b1, b2, b3, b4, b5, b6, b7), 7) == b7,
{
    let byte = byte_of(b0, b1, b2, b3, b4, b5, b6, b7);
    assert(((byte >> 0u8) & 1 == 1) == b0 && ((byte >> 1u8) & 1 == 1) == b1 && ((byte >> 2u8) & 1
        == 1) == b2 && ((byte >> 3u8) & 1 == 1) == b3 && ((byte >> 4u8) & 1 == 1) == b4 && ((byte
        >> 5u8) & 1 == 1) == b5 && ((byte >> 6u8) & 1 == 1) == b6 && ((byte >> 7u8) & 1 == 1)
        == b7) by (bit_vector)
        requires
            byte == (if b0 { 1u8 } else { 0u8 }) | (if b1 { 2u8 } else { 0u8 })
                | (if b2 { 4u8 } else { 0u8 }) | (if b3 { 8u8 } else { 0u8 })
                | (if b4 { 16u8 } else { 0u8 }) | (if b5 { 32u8 } else { 0u8 })
                | (if b6 { 64u8 } else { 0u8 }) | (if b7 { 128u8 } else { 0u8 }),
    ;
}

/// A byte is determined by its bits.
proof fn lemma_same_bits(a: u8, b: u8)
    requires
        forall|n: int| 0 <= n < 8 ==> bit(a, n) == bit(b, n),
    ensures
        a == b,
{
    assert(bit(a, 0) == bit(b, 0) && bit(a, 1) == bit(b, 1) && bit(a, 2) == bit(b, 2) && bit(a, 3)
        == bit(b, 3) && bit(a, 4) == bit(b, 4) && bit(a, 5) == bit(b, 5) && bit(a, 6) == bit(b, 6)
        && bit(a, 7) == bit(b, 7));
    assert(a == b) by (bit_vector)
        requires
            ((a >> 0u8) & 1 == 1) == ((b >> 0u8) & 1 == 1),
            ((a >> 1u8) & 1 == 1) == ((b >> 1u8) & 1 == 1),
            ((a >> 2u8) & 1 == 1) == ((b >> 2u8) & 1 == 1),
            ((a >> 3u8) & 1 == 1) == ((b >> 3u8) & 1 == 1),
            ((a >> 4u8) & 1 == 1) == ((b >> 4u8) & 1 == 1),
            ((a >> 5u8) & 1 == 1) == ((b >> 5u8) & 1 == 1),
            ((a >> 6u8) & 1 == 1) == ((b >> 6u8) & 1 == 1),
            ((a >> 7u8) & 1 == 1) == ((b >> 7u8) & 1 == 1),
    ;
}

/// An image has the pixels it was made of.
pub proof fn lemma_image_of(pixels: spec_fn(int, int) -> bool, x: int, y: int)
    requires
        on_screen(x, y),
    ensures
        lit(image_of(pixels), x, y) == pixels(x, y),
{
    let i = WIDTH * (y / 8) + x;
    assert(i % 128 == x && i / 128 == y / 8);
    let top = y / 8 * 8;
    lemma_byte_of(
        pixels(x, top),
        pixels(x, top + 1),
        pixels(x, top + 2),
        pixels(x, top + 3),
        pixels(x, top + 4),
        pixels(x, top + 5),
        pixels(x, top + 6),
        pixels(x, top + 7),
    );
    assert(y == top + y % 8);
}

/// The pixels of a display determine its bytes.
pub proof fn lemma_same_pixels(a: Seq<u8>, b: Seq<u8>)
    requires
        a.len() == BUFFER_SIZE,
        b.len() == BUFFER_SIZE,
        forall|x: int, y: int| on_screen(x, y) ==> lit(a, x, y) == lit(b, x, y),
    ensures
        a == b,
{
    assert forall|i: int| 0 <= i < BUFFER_SIZE implies a[i] == b[i] by {
        let x = i % 128;
        let band = i / 128;
        assert forall|n: int| 0 <= n < 8 implies bit(a[i], n) == bit(b[i], n) by {
            let y = band * 8 + n;
            assert(on_screen(x, y));
            assert(y / 8 == band && y % 8 == n);
            assert(lit(a, x, y) == lit(b, x, y));
        }
        lemma_same_bits(a[i], b[i]);
    }
    assert(a =~= b);
}

/// An image that shows what drawing `ink` gives is the image that drawing `ink` gives.
proof fn lemma_drawn(
    before: Seq<u8>,
    after: Seq<u8>,
    ink: spec_fn(int, int) -> Option<bool>,
    mode: DrawMode,
)
    requires
        after.len() == BUFFER_SIZE,
        forall|x: int, y: int|
            on_screen(x, y) ==> lit(after, x, y) == inked(before, ink, mode)(x, y),
    ensures
        after == drawn(before, ink, mode),
{
    let target = drawn(before, ink, mode);
    assert forall|x: int, y: int| on_screen(x, y) implies lit(after, x, y) == lit(target, x, y) by {
        lemma_image_of(inked(before, ink, mode), x, y);
    }
    lemma_same_pixels(after, target);
}

/// The pixels after drawing.
pub proof fn lemma_lit_drawn(
    image: Seq<u8>,
    ink: spec_fn(int, int) -> Option<bool>,
    mode: DrawMode,
)
    ensures
        drawn(image, ink, mode).len() == BUFFER_SIZE,
        forall|x: int, y: int|
            on_screen(x, y) ==> #[trigger] lit(drawn(image, ink, mode), x, y) == inked(
                image,
                ink,
                mode,
            )(x, y),
{
    assert forall|x: int, y: int| on_screen(x, y) implies #[trigger] lit(
        drawn(image, ink, mode),
        x,
        y,
    ) == inked(image, ink, mode)(x, y) by {
        lemma_image_of(inked(image, ink, mode), x, y);
    }
}

/// Setting, clearing, flipping and keeping one bit.
proof fn lemma_mask(byte: u8, n: u8, k: u8)
    requires
        n < 8,
        k < 8,
    ensures
        bit((byte & !(1u8 << n)) | (1u8 << n), k as int) == (k == n || bit(byte, k as int)),
        bit((byte & !(1u8 << n)) | 0u8, k as int) == (k != n && bit(byte, k as int)),
        bit(byte ^ (1u8 << n), k as int) == (bit(byte, k as int) != (k == n)),
        bit(byte | (1u8 << n), k as int) == (k == n || bit(byte, k as int)),
        (byte & (1u8 << n) != 0) == bit(byte, n as int),
{
    assert(((((byte & !(1u8 << n)) | (1u8 << n)) >> k) & 1 == 1) == (k == n || (byte >> k) & 1 == 1)
        && ((((byte & !(1u8 << n)) | 0u8) >> k) & 1 == 1) == (k != n && (byte >> k) & 1 == 1) && (((
    byte ^ (1u8 << n)) >> k) & 1 == 1) == (((byte >> k) & 1 == 1) != (k == n)) && (((byte | (1u8
        << n)) >> k) & 1 == 1) == (k == n || (byte >> k) & 1 == 1) && (byte & (1u8 << n) != 0) == ((
    byte >> n) & 1 == 1)) by (bit_vector)
        requires
            n < 8,
            k < 8,
    ;
}

/// A font is larger than the numbers it is computed from.
proof fn lemma_font_size(width: int)
    requires
        width >= 6,
        font_size(width) <= usize::MAX,
    ensures
        cell_bands(width) > 0,
        width * 8 + 42 <= usize::MAX,
        FONT_CHARACTERS * width <= usize::MAX,
        font_size(width) == (FONT_CHARACTERS * width) * cell_bands(width),
        width <= isize::MAX - WIDTH,
{
    let bands = cell_bands(width);
    assert(bands >= 1);
    assert((256 * width) * bands >= 256 * width) by (nonlinear_arith)
        requires
            bands >= 1,
            width >= 6,
    ;
}

/// A column of a glyph lies inside the font.
proof fn lemma_glyph_bounds(character: int, column: int, width: int, bands: int)
    requires
        0 <= character < FONT_CHARACTERS,
        0 <= column < width,
        bands > 0,
    ensures
        0 <= character * width + column < FONT_CHARACTERS * width,
        character * width + column + (FONT_CHARACTERS * width) * (bands - 1) < (FONT_CHARACTERS
            * width) * bands,
        0 <= character * width,
{
    assert(character * width <= 255 * width) by (nonlinear_arith)
        requires
            0 <= character <= 255,
            width > 0,
    ;
    assert(0 <= character * width) by (nonlinear_arith)
        requires
            0 <= character,
            width > 0,
    ;
    assert((256 * width) * (bands - 1) + 256 * width == (256 * width) * bands)
        by (nonlinear_arith);
}

/// Which cell and which column of it a pixel belongs to.
proof fn lemma_cell(distance: int, index: int, column: int, width: int)
    requires
        0 <= column < width,
        0 <= index,
        distance == index * width + column,
    ensures
        distance / width == index,
        distance % width == column,
        distance >= 0,
{
    vstd::arithmetic::div_mod::lemma_fundamental_div_mod_converse(distance, width, index, column);
    assert(index * width >= 0) by (nonlinear_arith)
        requires
            0 <= index,
            0 < width,
    ;
}

/// A pixel behind `index` cells belongs to none of them.
proof fn lemma_past_text(distance: int, index: int, width: int)
    requires
        0 < width,
        0 <= index,
        distance >= index * width,
    ensures
        distance / width >= index,
{
    vstd::arithmetic::div_mod::lemma_div_is_ordered(index * width, distance, width);
    vstd::arithmetic::div_mod::lemma_div_multiples_vanish(index, width);
    assert(index * width == width * index) by (nonlinear_arith);
}

impl Default for Framebuffer {
    fn default() -> (r: Self)
        ensures
            r@ == Seq::new(BUFFER_SIZE as nat, |i: int| 0u8),
            r@ == cleared(false),
    {
        Self::new()
    }
}

impl Framebuffer {
    /// A dark display.
    pub fn new() -> (r: Self)
        ensures
            r@ == Seq::new(BUFFER_SIZE as nat, |i: int| 0u8),
    {
        let r = Framebuffer { bytes: [0;BUFFER_SIZE] };
        assert(r.bytes@ =~= Seq::new(BUFFER_SIZE as nat, |i: int| 0u8));
        assert(r.bytes@ =~= cleared(false));
        r
    }

    /// The bytes of the display.
    pub fn bytes(&self) -> (r: &[u8; BUFFER_SIZE])
        ensures
            r@ == self@,
            self@.len() == BUFFER_SIZE,
    {
        &self.bytes
    }

    /// Darkens or lights the whole display.
    pub fn clear(&mut self, white: bool)
        ensures
            final(self)@ == cleared(white),
    {
        self.bytes = [if white { 0xff } else { 0 };BUFFER_SIZE];
        assert(self.bytes@ =~= cleared(white));
    }

    /// Shows a background image: what is too long is cut off, what is missing stays dark.
    pub fn load_background(&mut self, input: &[u8])
        ensures
            final(self)@ == backdrop(input@),
    {
        self.clear(false);
        let mut i: usize = 0;
        while i < input.len() && i < BUFFER_SIZE
            invariant
                i <= BUFFER_SIZE,
                self@.len() == BUFFER_SIZE,
                i <= input@.len(),
                forall|j: int| 0 <= j < i ==> self@[j] == input@[j],
                forall|j: int| i <= j < BUFFER_SIZE ==> self@[j] == 0,
            decreases BUFFER_SIZE - i,
        {
            self.bytes[i] = input[i];
            i += 1;
        }
        assert(self@ =~= Seq::new(
            BUFFER_SIZE as nat,
            |i: int|
                if i < input@.len() {
                    input@[i]
                } else {
                    0u8
                },
        ));
    }

    /// The pixel at column `x` and row `y`, or nothing outside the display.
    pub fn pixel(&self, x: usize, y: usize) -> (r: Option<bool>)
        ensures
            r == (if on_screen(x as int, y as int) {
                Some(lit(self@, x as int, y as int))
            } else {
                None
            }),
    {
        if x >= WIDTH || y >= HEIGHT {
            return None;
        }
        let byte = self.bytes[WIDTH * (y / 8) + x];
        let n = (y % 8) as u8;
        proof {
            lemma_mask(byte, n, n);
        }
        Some(byte & (1u8 << n) != 0)
    }

    /// Draws one pixel; outside the display nothing happens.
    pub fn set_pixel(&mut self, x: usize, y: usize, value: bool, mode: DrawMode)
        ensures
            final(self)@ == drawn(old(self)@, dot(x as int, y as int, value), mode),
    {
        let ghost before = self@;
        let ghost ink = dot(x as int, y as int, value);
        if x < WIDTH && y < HEIGHT {
            let index = WIDTH * (y / 8) + x;
            let n = (y % 8) as u8;
            let mask: u8 = 1u8 << n;
            let byte = self.bytes[index];
            match mode {
                DrawMode::Replace => {
                    self.bytes[index] = (byte & !mask) | if value { mask } else { 0 };
                },
                DrawMode::Xor => {
                    if value {
                        self.bytes[index] = byte ^ mask;
                    }
                },
                DrawMode::Or => {
                    if value {
                        self.bytes[index] = byte | mask;
                    }
                },
            }
            assert forall|px: int, py: int| on_screen(px, py) implies lit(self@, px, py) == inked(
                before,
                ink,
                mode,
            )(px, py) by {
                lemma_mask(byte, n, (py % 8) as u8);
                if px == x && py / 8 == y as int / 8 {
                    assert(WIDTH * (py / 8) + px == index);
                    assert(py % 8 == y as int % 8 ==> py == y);
                } else {
                    assert(WIDTH * (py / 8) + px != index);
                }
            }
        } else {
            assert forall|px: int, py: int| on_screen(px, py) implies lit(self@, px, py) == inked(
                before,
                ink,
                mode,
            )(px, py) by {}
        }
        proof {
            lemma_drawn(before, self@, ink, mode);
        }
    }

    /// Draws the eight pixels of one byte of the display at once: the ones of column `x` in the
    /// band that holds row `y`.
    pub fn write_byte_row(&mut self, x: usize, y: usize, value: u8, mode: DrawMode)
        ensures
            final(self)@ == byte_row_written(old(self)@, x as int, y as int, value, mode),
    {
        if x >= WIDTH || y >= HEIGHT {
            return;
        }
        let index = WIDTH * (y / 8) + x;
        let byte = self.bytes[index];
        match mode {
            DrawMode::Replace => {
                self.bytes[index] = value;
            },
            DrawMode::Xor => {
                self.bytes[index] = byte ^ value;
            },
            DrawMode::Or => {
                self.bytes[index] = byte | value;
            },
        }
    }

    /// Draws a filled rectangle; what does not fit on the display is left out.
    pub fn filled_rectangle(
        &mut self,
        x: usize,
        y: usize,
        width: usize,
        height: usize,
        mode: DrawMode,
    )
        ensures
            final(self)@ == drawn(
                old(self)@,
                rectangle(x as int, y as int, width as int, height as int),
                mode,
            ),
    {
        let ghost before = self@;
        let ghost ink = rectangle(x as int, y as int, width as int, height as int);
        let far_x = x.saturating_add(width);
        let right = if far_x < WIDTH {
            far_x
        } else {
            WIDTH
        };
        let far_y = y.saturating_add(height);
        let bottom = if far_y < HEIGHT {
            far_y
        } else {
            HEIGHT
        };
        let mut column: usize = x;
        while column < right
            invariant
                x <= column,
                column <= right || column == x,
                right <= WIDTH,
                bottom <= HEIGHT,
                self@.len() == BUFFER_SIZE,
                forall|px: int, py: int|
                    on_screen(px, py) ==> #[trigger] lit(self@, px, py) == (if x <= px < column && y
                        <= py < bottom {
                        combine(lit(before, px, py), true, mode)
                    } else {
                        lit(before, px, py)
                    }),
            decreases right - column,
        {
            let mut row: usize = y;
            while row < bottom
                invariant
                    x <= column < right <= WIDTH,
                    y <= row,
                    row <= bottom || row == y,
                    bottom <= HEIGHT,
                    self@.len() == BUFFER_SIZE,
                    forall|px: int, py: int|
                        on_screen(px, py) ==> #[trigger] lit(self@, px, py) == (if (x <= px < column
                            && y <= py < bottom) || (px == column && y <= py < row) {
                            combine(lit(before, px, py), true, mode)
                        } else {
                            lit(before, px, py)
                        }),
                decreases bottom - row,
            {
                let ghost previous = self@;
                self.set_pixel(column, row, true, mode);
                proof {
                    lemma_lit_drawn(previous, dot(column as int, row as int, true), mode);
                }
                row += 1;
            }
            column += 1;
        }
        assert forall|px: int, py: int| on_screen(px, py) implies lit(self@, px, py) == inked(
            before,
            ink,
            mode,
        )(px, py) by {}
        proof {
            lemma_drawn(before, self@, ink, mode);
        }
    }

    /// Draws one column of a glyph whose first byte is at `start` in `font`.
    fn draw_column(
        &mut self,
        x: usize,
        y: usize,
        start: usize,
        stride: usize,
        bands: usize,
        font: &[u8],
        mode: DrawMode,
    )
        requires
            x < WIDTH,
            bands > 0,
            start + stride * (bands - 1) < font@.len(),
            old(self)@.len() == BUFFER_SIZE,
        ensures
            final(self)@.len() == BUFFER_SIZE,
            forall|px: int, py: int|
                on_screen(px, py) ==> #[trigger] lit(final(self)@, px, py) == (if px == x && y <= py
                    < y + 8 * bands {
                    combine(
                        lit(old(self)@, px, py),
                        bit(font@[start + stride * ((py - y) / 8)], 7 - (py - y) % 8),
                        mode,
                    )
                } else {
                    lit(old(self)@, px, py)
                }),
    {
        let ghost before = self@;
        let limit = font.len();
        let mut row: usize = y;
        while row < HEIGHT && (row - y) / 8 < bands
            invariant
                x < WIDTH,
                y <= row,
                row <= HEIGHT || row == y,
                row - y <= 8 * bands,
                limit == font@.len(),
                start + stride * (bands - 1) < limit,
                self@.len() == BUFFER_SIZE,
                forall|px: int, py: int|
                    on_screen(px, py) ==> #[trigger] lit(self@, px, py) == (if px == x && y <= py
                        < row {
                        combine(
                            lit(before, px, py),
                            bit(font@[start + stride * ((py - y) / 8)], 7 - (py - y) % 8),
                            mode,
                        )
                    } else {
                        lit(before, px, py)
                    }),
            decreases HEIGHT - row,
        {
            let band = (row - y) / 8;
            let n = ((row - y) % 8) as u8;
            assert(stride * band <= stride * (bands - 1)) by (nonlinear_arith)
                requires
                    band <= bands - 1,
                    0 <= stride,
            ;
            assert(0 <= stride * band) by (nonlinear_arith);
            let value = font[start + stride * band];
            assert((value & (0x80u8 >> n) != 0) == ((value >> ((7 - n) as u8)) & 1 == 1))
                by (bit_vector)
                requires
                    n < 8,
            ;
            let ink = value & (0x80u8 >> n) != 0;
            let ghost previous = self@;
            self.set_pixel(x, row, ink, mode);
            proof {
                lemma_lit_drawn(previous, dot(x as int, row as int, ink), mode);
            }
            row += 1;
        }
    }

    /// Draws `text` with its upper left corner at column `x` and row `y`. What lies outside the
    /// display is left out. Nothing is drawn with a font that is too short for the width.
    pub fn write_text(
        &mut self,
        text: &str,
        x: isize,
        y: usize,
        char_width: usize,
        font: &[u8],
        mode: DrawMode,
    ) -> (r: Result<(), OledError>)
        requires
            font_size(cell_width(char_width as int)) <= usize::MAX,
        ensures
            match r {
                Ok(()) => {
                    let width = cell_width(char_width as int);
                    &&& font@.len() >= font_size(width)
                    &&& final(self)@ == drawn(
                        old(self)@,
                        cells(vstd::utf8::encode_utf8(text@), x as int, y as int, width, font@),
                        mode,
                    )
                },
                Err(OledError::ShortFont { length, expected }) => {
                    &&& length == font@.len()
                    &&& expected == font_size(cell_width(char_width as int))
                    &&& length < expected
                    &&& final(self)@ == old(self)@
                },
            },
    {
        let width = if char_width < 6 {
            6
        } else {
            char_width
        };
        proof {
            lemma_font_size(width as int);
        }
        let bands = (width * 8 / 6 + 7) / 8;
        let stride = FONT_CHARACTERS * width;
        let expected = stride * bands;
        if font.len() < expected {
            return Err(OledError::ShortFont { length: font.len(), expected });
        }
        let ghost before = self@;
        let bytes = text.as_bytes();
        let ghost ink = cells(bytes@, x as int, y as int, width as int, font@);
        let mut cursor: isize = x;
        let mut index: usize = 0;
        while index < bytes.len() && cursor < WIDTH as isize
            invariant
                index <= bytes@.len(),
                width >= 6,
                bands > 0,
                bands == cell_bands(width as int),
                stride == FONT_CHARACTERS * width,
                stride * bands <= font@.len(),
                width <= isize::MAX - WIDTH,
                cursor == x + index * width,
                self@.len() == BUFFER_SIZE,
                forall|px: int, py: int|
                    on_screen(px, py) ==> #[trigger] lit(self@, px, py) == (if px < cursor {
                        inked(before, ink, mode)(px, py)
                    } else {
                        lit(before, px, py)
                    }),
                ink == cells(bytes@, x as int, y as int, width as int, font@),
            decreases bytes@.len() - index,
        {
            let character = bytes[index] as usize;
            let mut column: usize = 0;
            while column < width
                invariant
                    index < bytes@.len(),
                    character == bytes@[index as int],
                    column <= width,
                    width >= 6,
                    bands > 0,
                    bands == cell_bands(width as int),
                    stride == FONT_CHARACTERS * width,
                    stride * bands <= font@.len(),
                    width <= isize::MAX - WIDTH,
                    cursor < WIDTH,
                    cursor == x + index * width,
                    self@.len() == BUFFER_SIZE,
                    forall|px: int, py: int|
                        on_screen(px, py) ==> #[trigger] lit(self@, px, py) == (if px < cursor
                            + column {
                            inked(before, ink, mode)(px, py)
                        } else {
                            lit(before, px, py)
                        }),
                    ink == cells(bytes@, x as int, y as int, width as int, font@),
                decreases width - column,
            {
                let draw_x = cursor + column as isize;
                if draw_x >= 0 && draw_x < WIDTH as isize {
                    let ghost previous = self@;
                    proof {
                        lemma_glyph_bounds(character as int, column as int, width as int, bands as int);
                    }
                    self.draw_column(
                        draw_x as usize,
                        y,
                        character * width + column,
                        stride,
                        bands,
                        font,
                        mode,
                    );
                    assert forall|px: int, py: int| on_screen(px, py) implies #[trigger] lit(
                        self@,
                        px,
                        py,
                    ) == (if px < cursor + column + 1 {
                        inked(before, ink, mode)(px, py)
                    } else {
                        lit(before, px, py)
                    }) by {
                        if px == draw_x {
                            lemma_cell(px - x, index as int, column as int, width as int);
                            assert(lit(previous, px, py) == lit(before, px, py));
                        } else {
                            assert(lit(self@, px, py) == lit(previous, px, py));
                        }
                    }
                }
                column += 1;
            }
            assert((index + 1) * width == index * width + width) by (nonlinear_arith);
            cursor += width as isize;
            index += 1;
        }
        assert forall|px: int, py: int| on_screen(px, py) implies lit(self@, px, py) == inked(
            before,
            ink,
            mode,
        )(px, py) by {
            if px >= cursor {
                lemma_past_text(px - x, index as int, width as int);
            }
        }
        proof {
            lemma_drawn(before, self@, ink, mode);
        }
        Ok(())
    }

    /// Draws `text` in a box whose upper left corner is at column `x` and row `y`.
    pub fn write_text_aligned(
        &mut self,
        text: &str,
        x: isize,
        y: usize,
        box_width: usize,
        align: Align,
        char_width: usize,
        font: &[u8],
        mode: DrawMode,
    ) -> (r: Result<(), OledError>)
        requires
            font_size(cell_width(char_width as int)) <= usize::MAX,
            vstd::utf8::encode_utf8(text@).len() * cell_width(char_width as int) <= usize::MAX,
            isize::MIN <= aligned_left(
                vstd::utf8::encode_utf8(text@),
                x,
                box_width,
                align,
                char_width,
            ) <= isize::MAX,
        ensures
            match r {
                Ok(()) => {
                    let width = cell_width(char_width as int);
                    let bytes = vstd::utf8::encode_utf8(text@);
                    let left = aligned_left(bytes, x, box_width, align, char_width);
                    &&& font@.len() >= font_size(width)
                    &&& final(self)@ == drawn(
                        old(self)@,
                        cells(bytes, left, y as int, width, font@),
                        mode,
                    )
                },
                Err(OledError::ShortFont { length, expected }) => {
                    &&& length == font@.len()
                    &&& expected == font_size(cell_width(char_width as int))
                    &&& length < expected
                    &&& final(self)@ == old(self)@
                },
            },
    {
        let width = if char_width < 6 {
            6
        } else {
            char_width
        };
        let length = text.as_bytes().len();
        let used = length * width;
        let offset = match align {
            Align::Left => 0,
            Align::Center => box_width.saturating_sub(used) / 2,
            Align::Right => box_width.saturating_sub(used),
        };
        self.write_text(text, x + offset as isize, y, char_width, font, mode)
    }
}

/// A pixel that was drawn is lit as it was drawn, and every other pixel is what it was.
pub proof fn law_pixel_reads_back(image: Seq<u8>, x: int, y: int, value: bool, px: int, py: int)
    requires
        on_screen(px, py),
    ensures
        lit(drawn(image, dot(x, y, value), DrawMode::Replace), px, py) == (if px == x && py == y {
            value
        } else {
            lit(image, px, py)
        }),
{
    lemma_lit_drawn(image, dot(x, y, value), DrawMode::Replace);
}

/// What is drawn in exclusive mode twice is gone again.
pub proof fn law_xor_twice(image: Seq<u8>, ink: spec_fn(int, int) -> Option<bool>)
    requires
        image.len() == BUFFER_SIZE,
    ensures
        drawn(drawn(image, ink, DrawMode::Xor), ink, DrawMode::Xor) == image,
{
    let once = drawn(image, ink, DrawMode::Xor);
    lemma_lit_drawn(image, ink, DrawMode::Xor);
    lemma_lit_drawn(once, ink, DrawMode::Xor);
    lemma_same_pixels(drawn(once, ink, DrawMode::Xor), image);
}

/// What is drawn over itself in one of the other modes changes nothing.
pub proof fn law_drawn_twice(
    image: Seq<u8>,
    ink: spec_fn(int, int) -> Option<bool>,
    mode: DrawMode,
)
    requires
        mode != DrawMode::Xor,
    ensures
        drawn(drawn(image, ink, mode), ink, mode) == drawn(image, ink, mode),
{
    let once = drawn(image, ink, mode);
    lemma_lit_drawn(image, ink, mode);
    lemma_lit_drawn(once, ink, mode);
    lemma_same_pixels(drawn(once, ink, mode), once);
}

/// The pixel at column `x` and row `y` is bit `y % 8` of byte `128 * (y / 8) + x`: eight rows make
/// a band, the bytes of a band go from left to right, and the lowest bit is the uppermost row.
pub proof fn law_place_of_a_pixel(image: Seq<u8>, x: int, y: int)
    requires
        on_screen(x, y),
    ensures
        ({
            let byte = image[128 * (y / 8) + x];
            &&& y % 8 == 0 ==> lit(image, x, y) == (byte % 2 == 1)
            &&& y % 8 == 1 ==> lit(image, x, y) == (byte / 2 % 2 == 1)
            &&& y % 8 == 2 ==> lit(image, x, y) == (byte / 4 % 2 == 1)
            &&& y % 8 == 3 ==> lit(image, x, y) == (byte / 8 % 2 == 1)
            &&& y % 8 == 4 ==> lit(image, x, y) == (byte / 16 % 2 == 1)
            &&& y % 8 == 5 ==> lit(image, x, y) == (byte / 32 % 2 == 1)
            &&& y % 8 == 6 ==> lit(image, x, y) == (byte / 64 % 2 == 1)
            &&& y % 8 == 7 ==> lit(image, x, y) == (byte / 128 == 1)
        }),
        on_screen(x, y) <==> 0 <= x < 128 && 0 <= y < 64,
{
    lemma_bits_by_division(image[128 * (y / 8) + x]);
}

/// The bits of a byte by division.
proof fn lemma_bits_by_division(byte: u8)
    ensures
        bit(byte, 0) == (byte % 2 == 1),
        bit(byte, 1) == (byte / 2 % 2 == 1),
        bit(byte, 2) == (byte / 4 % 2 == 1),
        bit(byte, 3) == (byte / 8 % 2 == 1),
        bit(byte, 4) == (byte / 16 % 2 == 1),
        bit(byte, 5) == (byte / 32 % 2 == 1),
        bit(byte, 6) == (byte / 64 % 2 == 1),
        bit(byte, 7) == (byte / 128 == 1),
{
    assert(((byte >> 0u8) & 1 == 1) == (byte % 2 == 1) && ((byte >> 1u8) & 1 == 1) == (byte / 2 % 2
        == 1) && ((byte >> 2u8) & 1 == 1) == (byte / 4 % 2 == 1) && ((byte >> 3u8) & 1 == 1) == (
    byte / 8 % 2 == 1) && ((byte >> 4u8) & 1 == 1) == (byte / 16 % 2 == 1) && ((byte >> 5u8) & 1
        == 1) == (byte / 32 % 2 == 1) && ((byte >> 6u8) & 1 == 1) == (byte / 64 % 2 == 1) && ((byte
        >> 7u8) & 1 == 1) == (byte / 128 == 1)) by (bit_vector);
}

/// Drawing touches the inked pixels alone. Replacing shows the ink itself, exclusive drawing turns
/// over what lies under lit ink, and the third mode lights it; dark ink leaves a pixel alone in
/// these two.
pub proof fn law_drawing_modes(
    image: Seq<u8>,
    ink: spec_fn(int, int) -> Option<bool>,
    x: int,
    y: int,
)
    requires
        on_screen(x, y),
    ensures
        ({
            let before = lit(image, x, y);
            let replaced = lit(drawn(image, ink, DrawMode::Replace), x, y);
            let turned = lit(drawn(image, ink, DrawMode::Xor), x, y);
            let added = lit(drawn(image, ink, DrawMode::Or), x, y);
            &&& ink(x, y) is None ==> replaced == before && turned == before && added == before
            &&& ink(x, y) == Some(true) ==> replaced && turned == !before && added
            &&& ink(x, y) == Some(false) ==> !replaced && turned == before && added == before
        }),
        drawn(image, ink, DrawMode::Replace).len() == 1024,
        drawn(image, ink, DrawMode::Xor).len() == 1024,
        drawn(image, ink, DrawMode::Or).len() == 1024,
{
    lemma_lit_drawn(image, ink, DrawMode::Replace);
    lemma_lit_drawn(image, ink, DrawMode::Xor);
    lemma_lit_drawn(image, ink, DrawMode::Or);
}

/// A filled rectangle lights its own pixels, from its upper left corner on to the right and
/// downwards, and no others.
pub proof fn law_rectangle_is_filled(
    image: Seq<u8>,
    x: int,
    y: int,
    width: int,
    height: int,
    i: int,
    j: int,
)
    requires
        on_screen(x + i, y + j),
    ensures
        0 <= i < width && 0 <= j < height ==> lit(
            drawn(image, rectangle(x, y, width, height), DrawMode::Replace),
            x + i,
            y + j,
        ),
        !(0 <= i < width && 0 <= j < height) ==> lit(
            drawn(image, rectangle(x, y, width, height), DrawMode::Replace),
            x + i,
            y + j,
        ) == lit(image, x + i, y + j),
{
    lemma_lit_drawn(image, rectangle(x, y, width, height), DrawMode::Replace);
}

/// Text shows the glyphs of its characters side by side, as the font holds them: column `k` and
/// row `8 * band + j` of the `i`-th cell is bit `7 - j` of the font's byte for that character, that
/// column and that band, the first band of all 256 characters coming first.
pub proof fn law_text_shows_the_font(
    image: Seq<u8>,
    text: Seq<u8>,
    x: int,
    y: int,
    width: int,
    font: Seq<u8>,
    i: int,
    k: int,
    band: int,
    j: int,
)
    requires
        width > 0,
        0 <= i < text.len(),
        0 <= k < width,
        0 <= band < (width * 8 / 6 + 7) / 8,
        0 <= j < 8,
        on_screen(x + i * width + k, y + 8 * band + j),
    ensures
        lit(
            drawn(image, cells(text, x, y, width, font), DrawMode::Replace),
            x + i * width + k,
            y + 8 * band + j,
        ) == ((font[text[i] * width + k + 256 * width * band] >> ((7 - j) as u8)) & 1 == 1),
{
    let px = x + i * width + k;
    let py = y + 8 * band + j;
    lemma_lit_drawn(image, cells(text, x, y, width, font), DrawMode::Replace);
    vstd::arithmetic::div_mod::lemma_fundamental_div_mod_converse(px - x, width, i, k);
    assert(i * width >= 0) by (nonlinear_arith)
        requires
            i >= 0,
            width > 0,
    ;
    assert((py - y) / 8 == band && (py - y) % 8 == j);
    assert(cells(text, x, y, width, font)(px, py) == Some(
        glyph(font, width, text[i], k, 8 * band + j),
    ));
}

/// Text leaves everything outside its cells alone, whatever the mode.
pub proof fn law_text_stays_in_its_cells(
    image: Seq<u8>,
    text: Seq<u8>,
    x: int,
    y: int,
    width: int,
    font: Seq<u8>,
    mode: DrawMode,
    px: int,
    py: int,
)
    requires
        width > 0,
        on_screen(px, py),
        px < x || px >= x + text.len() * width || py < y || py >= y + 8 * ((width * 8 / 6 + 7) / 8),
    ensures
        lit(drawn(image, cells(text, x, y, width, font), mode), px, py) == lit(image, px, py),
{
    lemma_lit_drawn(image, cells(text, x, y, width, font), mode);
    if px >= x + text.len() * width {
        let n = text.len() as int;
        vstd::arithmetic::div_mod::lemma_div_multiples_vanish(n, width);
        vstd::arithmetic::mul::lemma_mul_is_commutative(n, width);
        vstd::arithmetic::div_mod::lemma_div_is_ordered(n * width, px - x, width);
        assert((px - x) / width >= n);
    }
}

/// A cell is as wide as asked for but at least six columns, and as high as four thirds of its
/// width, rounded up to whole bands; a font holds 256 of them.
pub proof fn law_cell_sizes(char_width: int)
    requires
        char_width >= 0,
    ensures
        ({
            let width = cell_width(char_width);
            &&& width >= 6
            &&& width >= char_width
            &&& width == 6 || width == char_width
            &&& 8 * cell_bands(width) >= width * 4 / 3
            &&& 8 * cell_bands(width) < width * 4 / 3 + 8
            &&& font_size(width) == 256 * width * cell_bands(width)
        }),
{
    let width = cell_width(char_width);
    assert(width * 8 / 6 == width * 4 / 3);
}

/// Aligned text that fits in its box lies in it: at its left end, at its right end, or with as
/// much room on the left as on the right, give or take one column on the right. Text that does not
/// fit begins where the box does.
pub proof fn law_alignment(align: Align, box_width: int, used: int)
    requires
        0 <= box_width,
        0 <= used,
    ensures
        ({
            let left = align_offset(align, box_width, used);
            let right = box_width - used - left;
            &&& used >= box_width ==> left == 0
            &&& used < box_width ==> left >= 0 && right >= 0
            &&& used < box_width && align == Align::Left ==> left == 0
            &&& used < box_width && align == Align::Right ==> right == 0
            &&& used < box_width && align == Align::Center ==> right == left || right == left + 1
        }),
{
}

/// Aligned text begins where its alignment puts it in the box.
pub proof fn law_aligned_text(
    text: Seq<u8>,
    x: isize,
    box_width: usize,
    align: Align,
    char_width: usize,
)
    requires
        box_width <= isize::MAX,
    ensures
        ({
            let used = text.len() * cell_width(char_width as int);
            let left = aligned_left(text, x, box_width, align, char_width);
            &&& align == Align::Left ==> left == x
            &&& used >= box_width ==> left == x
            &&& used < box_width && align == Align::Right ==> left + used == x + box_width
            &&& used < box_width && align == Align::Center ==> 2 * (left - x) + used == box_width
                || 2 * (left - x) + used + 1 == box_width
        }),
{
    assert(text.len() * cell_width(char_width as int) >= 0) by (nonlinear_arith)
        requires
            cell_width(char_width as int) >= 0,
            text.len() >= 0,
    ;
}

/// A display that is cleared is dark or lit everywhere.
pub proof fn law_cleared(white: bool, x: int, y: int)
    requires
        on_screen(x, y),
    ensures
        lit(cleared(white), x, y) == white,
        cleared(white).len() == 1024,
{
    assert(cleared(white)[WIDTH * (y / 8) + x] == if white {
        0xffu8
    } else {
        0u8
    });
    lemma_bits_by_division(if white {
        0xffu8
    } else {
        0u8
    });
}

/// A picture stands on the display byte by byte; where it ends too soon the display is dark.
pub proof fn law_background(input: Seq<u8>, i: int)
    requires
        0 <= i < 1024,
    ensures
        backdrop(input).len() == 1024,
        i < input.len() ==> backdrop(input)[i] == input[i],
        i >= input.len() ==> backdrop(input)[i] == 0,
{
}

/// A byte row changes the eight pixels of its column and band alone, each as the mode has it.
pub proof fn law_byte_row(
    image: Seq<u8>,
    x: int,
    y: int,
    value: u8,
    mode: DrawMode,
    px: int,
    py: int,
)
    requires
        image.len() == 1024,
        on_screen(px, py),
    ensures
        byte_row_written(image, x, y, value, mode).len() == 1024,
        ({
            let before = lit(image, px, py);
            let after = lit(byte_row_written(image, x, y, value, mode), px, py);
            let ink = (value >> ((py % 8) as u8)) & 1 == 1;
            if on_screen(x, y) && px == x && py / 8 == y / 8 {
                match mode {
                    DrawMode::Replace => after == ink,
                    DrawMode::Xor => after == (before != ink),
                    DrawMode::Or => after == (before || ink),
                }
            } else {
                after == before
            }
        }),
{
    let at = WIDTH * (py / 8) + px;
    assert(0 <= at < 1024);
    if on_screen(x, y) {
        let place = WIDTH * (y / 8) + x;
        assert(place == at <==> px == x && py / 8 == y / 8);
        let byte = image[place];
        let n = (py % 8) as u8;
        assert((((byte ^ value) >> n) & 1 == 1) == (((byte >> n) & 1 == 1) != ((value >> n) & 1
            == 1)) && (((byte | value) >> n) & 1 == 1) == (((byte >> n) & 1 == 1) || ((value >> n)
            & 1 == 1))) by (bit_vector)
            requires
                n < 8,
        ;
    }
}

} // verus!
