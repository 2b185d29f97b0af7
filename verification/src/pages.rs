//! The pages of the OLED: what stands where, and how it gets into the framebuffer.
use crate::calendar::{month_name, two_digits, weekday_name, DateTime};
use crate::config::OledPage;
use crate::oled::{
    aligned_left, cell_bands, cells, drawn, font_size, lemma_lit_drawn, lit, on_screen, rectangle,
    Align, DrawMode, Framebuffer, OledError, BUFFER_SIZE, WIDTH,
};
use crate::system_info::{human_kib, size_text, FilesystemInfo, MemoryInfo, RaidInfo};
use crate::text;
use vstd::prelude::*;
use vstd::string::StringExecFns;

verus! {

/// The column behind the picture on the left of most backgrounds.
pub const LEFT: usize = 54;

/// What a page shows.
#[derive(Debug, Clone, PartialEq, Eq)]
pub enum PageContent {
    Clock { now: DateTime },
    Cpu { usage: Vec<(String, u8)> },
    Storage { disks: Vec<FilesystemInfo> },
    Raid { array: Option<RaidInfo> },
    Ram { memory: MemoryInfo },
    /// The temperatures as they are shown, without their units.
    Temperature { celsius: String, fahrenheit: String },
    Ip { address: String },
}

/// Something on a page.
#[derive(Debug, Clone, PartialEq, Eq)]
pub enum Element {
    /// Text from a place on.
    Text { text: String, x: isize, y: usize, large: bool },
    /// Text in a box.
    Aligned { text: String, x: isize, y: usize, width: usize, align: Align, large: bool },
    /// A bar of two rows.
    Bar { x: usize, y: usize, width: usize },
}

/// What an [`Element`] is.
pub enum Shape {
    Text { text: Seq<char>, x: isize, y: usize, large: bool },
    Aligned { text: Seq<char>, x: isize, y: usize, width: usize, align: Align, large: bool },
    Bar { x: usize, y: usize, width: usize },
}

impl View for Element {
    type V = Shape;

    open spec fn view(&self) -> Shape {
        match *self {
            Element::Text { text, x, y, large } => Shape::Text { text: text@, x, y, large },
            Element::Aligned { text, x, y, width, align, large } => Shape::Aligned {
                text: text@,
                x,
                y,
                width,
                align,
                large,
            },
            Element::Bar { x, y, width } => Shape::Bar { x, y, width },
        }
    }
}

/// What elements are, in their order.
pub open spec fn shapes_of(elements: Seq<Element>) -> Seq<Shape> {
    Seq::new(elements.len(), |i: int| elements[i]@)
}

/// Large text in the middle of the area behind the picture.
pub open spec fn centered(text: Seq<char>, y: usize) -> Shape {
    Shape::Aligned {
        text,
        x: LEFT as isize,
        y,
        width: (WIDTH - LEFT) as usize,
        align: Align::Center,
        large: true,
    }
}

/// A percentage as text.
pub open spec fn percent_text(percent: nat) -> Seq<char> {
    text::decimal(percent) + seq!['%']
}

/// The part of `whole` that `part` is, in percent.
pub open spec fn share(part: u64, whole: u64) -> nat {
    if whole == 0 {
        0
    } else {
        (part * 100 / whole as int) as nat
    }
}

/// The first `n` processors: the name and the usage, and a bar below them.
pub open spec fn cpu_rows(usage: Seq<(String, u8)>, n: int) -> Seq<Shape>
    decreases n,
{
    if n <= 0 {
        seq![]
    } else {
        let (name, percent) = usage[n - 1];
        cpu_rows(usage, n - 1) + seq![
            Shape::Text {
                text: name@ + ": "@ + percent_text(percent as nat),
                x: LEFT as isize,
                y: ((n - 1) * 16) as usize,
                large: false,
            },
            Shape::Bar {
                x: LEFT,
                y: ((n - 1) * 16 + 12) as usize,
                width: ((WIDTH - LEFT - 4) * percent / 100) as usize,
            },
        ]
    }
}

/// The last part of a path, eight characters of it at most.
pub open spec fn short_name(source: Seq<char>) -> Seq<char> {
    let name = text::pieces(source, '/').last();
    if name.len() > 8 {
        name.take(8)
    } else {
        name
    }
}

/// The first `n` file systems: the name, the use and the size.
pub open spec fn storage_rows(disks: Seq<FilesystemInfo>, n: int) -> Seq<Shape>
    decreases n,
{
    if n <= 0 {
        seq![]
    } else {
        let disk = disks[n - 1];
        let y = (16 + (n - 1) * 16) as usize;
        storage_rows(disks, n - 1) + seq![
            Shape::Text { text: short_name(disk.source@), x: 0, y, large: false },
            Shape::Aligned {
                text: percent_text(share(disk.used_kib, disk.total_kib)),
                x: 50,
                y,
                width: 24,
                align: Align::Right,
                large: false,
            },
            Shape::Aligned {
                text: size_text(disk.total_kib as nat),
                x: 77,
                y,
                width: 51,
                align: Align::Right,
                large: false,
            },
        ]
    }
}

/// An array: the name and the level, and the state and the numbers of its drives.
pub open spec fn raid_rows(array: RaidInfo) -> Seq<Shape> {
    let title = |text: Seq<char>, y: usize|
        Shape::Aligned { text, x: 0, y, width: LEFT, align: Align::Center, large: false };
    let row = |text: Seq<char>, y: usize| Shape::Text { text, x: LEFT as isize, y, large: false };
    seq![
        title(array.name@, 0),
        title(array.level@, 8),
        row("State:"@ + array.state@, 16),
        row("Drives:"@ + text::decimal(array.devices as nat), 32),
        row("Failed:"@ + text::decimal(array.degraded as nat), 48),
    ]
}

/// At most `limit`.
pub open spec fn at_most(n: nat, limit: int) -> int {
    if n < limit {
        n as int
    } else {
        limit
    }
}

/// What stands where on a page.
pub open spec fn layout(content: PageContent) -> Seq<Shape> {
    match content {
        PageContent::Clock { now } => seq![
            centered(
                text::uppered(month_name(now.month as int) + two_digits(now.day as int)),
                8,
            ),
            centered(weekday_name(now.weekday()), 24),
            centered(
                two_digits(now.hour as int) + seq![':'] + two_digits(now.minute as int),
                40,
            ),
        ],
        PageContent::Cpu { usage } => cpu_rows(usage@, at_most(usage@.len(), 4)),
        PageContent::Storage { disks } => storage_rows(disks@, at_most(disks@.len(), 3)),
        PageContent::Raid { array } => match array {
            Some(array) => raid_rows(array),
            None => seq![],
        },
        PageContent::Ram { memory } => seq![
            centered(
                percent_text(
                    share(
                        memory.available_kib,
                        if memory.total_kib == 0 {
                            1
                        } else {
                            memory.total_kib
                        },
                    ),
                ),
                8,
            ),
            centered("of"@, 24),
            centered(size_text(memory.total_kib as nat), 40),
        ],
        PageContent::Temperature { celsius, fahrenheit } => seq![
            centered(celsius@ + seq!['C'], 16),
            centered(fahrenheit@ + seq!['F'], 32),
        ],
        PageContent::Ip { address } => seq![
            Shape::Aligned {
                text: address@,
                x: 0,
                y: 8,
                width: WIDTH,
                align: Align::Center,
                large: true,
            },
        ],
    }
}

/// Whether the percentages of a page can be calculated: a hundred times each part can be held.
pub open spec fn computable(content: PageContent) -> bool {
    match content {
        PageContent::Clock { now } => now.valid(),
        PageContent::Storage { disks } => forall|i: int|
            0 <= i < at_most(disks@.len(), 3) ==> (#[trigger] disks@[i]).used_kib * 100 <= u64::MAX,
        PageContent::Ram { memory } => memory.available_kib * 100 <= u64::MAX,
        _ => true,
    }
}

/// A text of its own.
fn copy(text: &str) -> (r: String)
    ensures
        r@ == text@,
{
    text::to_text(text::to_chars(text).as_slice())
}

fn centered_element(text: String, y: usize) -> (r: Element)
    ensures
        r@ == centered(text@, y),
{
    Element::Aligned {
        text,
        x: LEFT as isize,
        y,
        width: WIDTH - LEFT,
        align: Align::Center,
        large: true,
    }
}

/// A percentage as text.
fn show_percent(percent: u64) -> (r: String)
    ensures
        r@ == percent_text(percent as nat),
{
    let mut out = String::new();
    text::push_decimal(&mut out, percent);
    out.push('%');
    assert(out@ =~= percent_text(percent as nat));
    out
}

/// The part of `whole` that `part` is, in percent.
fn percent_of(part: u64, whole: u64) -> (r: u64)
    requires
        part * 100 <= u64::MAX,
    ensures
        r == share(part, whole),
{
    if whole == 0 {
        0
    } else {
        proof {
            vstd::arithmetic::div_mod::lemma_div_pos_is_pos(part * 100, whole as int);
        }
        part * 100 / whole
    }
}

/// The elements of the processors.
fn cpu_elements(usage: &Vec<(String, u8)>) -> (r: Vec<Element>)
    ensures
        shapes_of(r@) == cpu_rows(usage@, at_most(usage@.len(), 4)),
{
    let mut elements: Vec<Element> = Vec::new();
    let mut row: usize = 0;
    assert(shapes_of(elements@) =~= Seq::empty());
    while row < usage.len() && row < 4
        invariant
            row <= 4,
            row <= usage@.len(),
            shapes_of(elements@) == cpu_rows(usage@, row as int),
        decreases 4 - row,
    {
        let ghost done = elements@;
        let percent = usage[row].1;
        let mut text = copy(usage[row].0.as_str());
        text.append(": ");
        text.append(show_percent(percent as u64).as_str());
        let x: isize = LEFT as isize;
        elements.push(Element::Text { text, x, y: row * 16, large: false });
        assert((WIDTH - LEFT - 4) * percent <= 70 * 255) by (nonlinear_arith)
            requires
                WIDTH - LEFT - 4 == 70,
                percent <= 255,
        ;
        let width = (WIDTH - LEFT - 4) * percent as usize / 100;
        elements.push(Element::Bar { x: LEFT, y: row * 16 + 12, width });
        assert(shapes_of(elements@) =~= shapes_of(done) + seq![
            elements@[elements@.len() - 2]@,
            elements@.last()@,
        ]);
        assert(elements@[elements@.len() - 2]@->Text_text =~= usage@[row as int].0@ + ": "@
            + percent_text(percent as nat));
        row += 1;
    }
    elements
}

/// The last part of a path, eight characters of it at most.
fn shorten(source: &str) -> (r: String)
    ensures
        r@ == short_name(source@),
{
    let chars = text::to_chars(source);
    let parts = text::split(chars.as_slice(), '/');
    proof {
        lemma_some_piece(source@, '/');
        assert(text::views(parts@).len() == parts@.len());
    }
    let name = parts[parts.len() - 1];
    assert(name@ == text::views(parts@).last());
    if name.len() > 8 {
        let short = vstd::slice::slice_subrange(name, 0, 8);
        assert(short@ =~= name@.take(8));
        text::to_text(short)
    } else {
        text::to_text(name)
    }
}

/// There is always a part.
proof fn lemma_some_piece(s: Seq<char>, c: char)
    ensures
        text::pieces(s, c).len() > 0,
{
}

/// The elements of the file systems.
fn storage_elements(disks: &Vec<FilesystemInfo>) -> (r: Vec<Element>)
    requires
        forall|i: int|
            0 <= i < at_most(disks@.len(), 3) ==> (#[trigger] disks@[i]).used_kib * 100 <= u64::MAX,
    ensures
        shapes_of(r@) == storage_rows(disks@, at_most(disks@.len(), 3)),
{
    let mut elements: Vec<Element> = Vec::new();
    let mut row: usize = 0;
    assert(shapes_of(elements@) =~= Seq::empty());
    while row < disks.len() && row < 3
        invariant
            forall|i: int|
                0 <= i < at_most(disks@.len(), 3) ==> (#[trigger] disks@[i]).used_kib * 100
                    <= u64::MAX,
            row <= 3,
            row <= disks@.len(),
            shapes_of(elements@) == storage_rows(disks@, row as int),
        decreases 3 - row,
    {
        let ghost done = elements@;
        let disk = &disks[row];
        let usage = percent_of(disk.used_kib, disk.total_kib);
        let y = 16 + row * 16;
        elements.push(
            Element::Text { text: shorten(disk.source.as_str()), x: 0, y, large: false },
        );
        elements.push(
            Element::Aligned {
                text: show_percent(usage),
                x: 50,
                y,
                width: 24,
                align: Align::Right,
                large: false,
            },
        );
        elements.push(
            Element::Aligned {
                text: human_kib(disk.total_kib),
                x: 77,
                y,
                width: 51,
                align: Align::Right,
                large: false,
            },
        );
        assert(shapes_of(elements@) =~= shapes_of(done) + seq![
            elements@[elements@.len() - 3]@,
            elements@[elements@.len() - 2]@,
            elements@.last()@,
        ]);
        row += 1;
    }
    elements
}

fn title_element(text: &str, y: usize) -> (r: Element)
    ensures
        r@ == (Shape::Aligned {
            text: text@,
            x: 0,
            y,
            width: LEFT,
            align: Align::Center,
            large: false,
        }),
{
    Element::Aligned { text: copy(text), x: 0, y, width: LEFT, align: Align::Center, large: false }
}

fn row_element(text: String, y: usize) -> (r: Element)
    ensures
        r@ == (Shape::Text { text: text@, x: LEFT as isize, y, large: false }),
{
    Element::Text { text, x: LEFT as isize, y, large: false }
}

/// The elements of an array.
fn raid_elements(array: &RaidInfo) -> (r: Vec<Element>)
    ensures
        shapes_of(r@) == raid_rows(*array),
{
    let mut elements: Vec<Element> = Vec::new();
    elements.push(title_element(array.name.as_str(), 0));
    elements.push(title_element(array.level.as_str(), 8));
    let mut state = copy("State:");
    state.append(array.state.as_str());
    elements.push(row_element(state, 16));
    let mut drives = copy("Drives:");
    text::push_decimal(&mut drives, array.devices as u64);
    elements.push(row_element(drives, 32));
    let mut failed = copy("Failed:");
    text::push_decimal(&mut failed, array.degraded as u64);
    elements.push(row_element(failed, 48));
    assert(shapes_of(elements@) =~= raid_rows(*array));
    elements
}

/// What stands where on a page.
pub fn page_elements(content: &PageContent) -> (r: Vec<Element>)
    requires
        computable(*content),
    ensures
        shapes_of(r@) == layout(*content),
{
    let mut elements: Vec<Element> = Vec::new();
    match content {
        PageContent::Clock { now } => {
            let date = text::to_chars(now.month_and_day().as_str());
            let date = text::to_ascii_uppercase(date.as_slice());
            elements.push(centered_element(text::to_text(date.as_slice()), 8));
            elements.push(centered_element(now.short_weekday(), 24));
            elements.push(centered_element(now.hour_and_minute(), 40));
        },
        PageContent::Cpu { usage } => {
            return cpu_elements(usage);
        },
        PageContent::Storage { disks } => {
            return storage_elements(disks);
        },
        PageContent::Raid { array } => {
            if let Some(array) = array {
                return raid_elements(array);
            }
        },
        PageContent::Ram { memory } => {
            let total = if memory.total_kib == 0 {
                1
            } else {
                memory.total_kib
            };
            let available = percent_of(memory.available_kib, total);
            elements.push(centered_element(show_percent(available), 8));
            elements.push(centered_element(copy("of"), 24));
            elements.push(centered_element(human_kib(memory.total_kib), 40));
        },
        PageContent::Temperature { celsius, fahrenheit } => {
            let mut upper = copy(celsius.as_str());
            upper.push('C');
            let mut lower = copy(fahrenheit.as_str());
            lower.push('F');
            assert(upper@ =~= celsius@ + seq!['C']);
            assert(lower@ =~= fahrenheit@ + seq!['F']);
            elements.push(centered_element(upper, 16));
            elements.push(centered_element(lower, 32));
        },
        PageContent::Ip { address } => {
            elements.push(
                Element::Aligned {
                    text: copy(address.as_str()),
                    x: 0,
                    y: 8,
                    width: WIDTH,
                    align: Align::Center,
                    large: true,
                },
            );
        },
    }
    assert(shapes_of(elements@) =~= layout(*content));
    elements
}

/// The width of the characters of small and large text.
pub open spec fn char_width(large: bool) -> int {
    if large {
        8
    } else {
        6
    }
}

/// The fonts for small and for large text.
pub struct Fonts {
    pub small: Seq<u8>,
    pub regular: Seq<u8>,
}

impl Fonts {
    pub open spec fn font(self, large: bool) -> Seq<u8> {
        if large {
            self.regular
        } else {
            self.small
        }
    }

    /// Whether the font is long enough for its width.
    pub open spec fn complete(self, large: bool) -> bool {
        self.font(large).len() >= font_size(char_width(large))
    }

    /// Whether the font that a shape needs is long enough.
    pub open spec fn covers(self, shape: Shape) -> bool {
        match shape {
            Shape::Text { large, .. } => self.complete(large),
            Shape::Aligned { large, .. } => self.complete(large),
            Shape::Bar { .. } => true,
        }
    }
}

/// The pixels of a shape.
pub open spec fn ink(shape: Shape, fonts: Fonts) -> spec_fn(int, int) -> Option<bool> {
    match shape {
        Shape::Text { text, x, y, large } => cells(
            vstd::utf8::encode_utf8(text),
            x as int,
            y as int,
            char_width(large),
            fonts.font(large),
        ),
        Shape::Aligned { text, x, y, width, align, large } => {
            let bytes = vstd::utf8::encode_utf8(text);
            cells(
                bytes,
                aligned_left(bytes, x, width, align, char_width(large) as usize),
                y as int,
                char_width(large),
                fonts.font(large),
            )
        },
        Shape::Bar { x, y, width } => rectangle(x as int, y as int, width as int, 2),
    }
}

/// The image after the shapes were drawn over it, up to the first one whose font is too short.
pub open spec fn painted(image: Seq<u8>, shapes: Seq<Shape>, fonts: Fonts) -> Seq<u8>
    decreases shapes.len(),
{
    if shapes.len() == 0 {
        image
    } else {
        let before = painted(image, shapes.drop_last(), fonts);
        if drawing(shapes, fonts) is Ok {
            drawn(before, ink(shapes.last(), fonts), DrawMode::Replace)
        } else {
            before
        }
    }
}

/// What is said about a shape whose font is too short.
pub open spec fn complaint(shape: Shape, fonts: Fonts) -> OledError {
    let large = match shape {
        Shape::Text { large, .. } => large,
        Shape::Aligned { large, .. } => large,
        Shape::Bar { .. } => false,
    };
    OledError::ShortFont {
        length: fonts.font(large).len() as usize,
        expected: font_size(char_width(large)) as usize,
    }
}

/// What comes of drawing the shapes: a complaint about the first one whose font is too short.
pub open spec fn drawing(shapes: Seq<Shape>, fonts: Fonts) -> Result<(), OledError>
    decreases shapes.len(),
{
    if shapes.len() == 0 {
        Ok(())
    } else {
        match drawing(shapes.drop_last(), fonts) {
            Err(error) => Err(error),
            Ok(()) => if fonts.covers(shapes.last()) {
                Ok(())
            } else {
                Err(complaint(shapes.last(), fonts))
            },
        }
    }
}

/// Whether it can be calculated where the shape goes: its box begins on the display and is no
/// wider than it, and the length of its text in pixels can be held.
pub open spec fn placeable(shape: Shape) -> bool {
    match shape {
        Shape::Aligned { text, x, width, .. } => 0 <= x <= WIDTH && width <= WIDTH
            && vstd::utf8::encode_utf8(text).len() * 8 <= usize::MAX,
        _ => true,
    }
}

/// A shape whose font is too short stops the drawing.
proof fn lemma_stopped(image: Seq<u8>, shapes: Seq<Shape>, fonts: Fonts, n: int)
    requires
        0 <= n < shapes.len(),
        drawing(shapes.take(n), fonts) is Ok,
        !fonts.covers(shapes[n]),
    ensures
        painted(image, shapes, fonts) == painted(image, shapes.take(n), fonts),
        drawing(shapes, fonts) == Err::<(), OledError>(complaint(shapes[n], fonts)),
    decreases shapes.len(),
{
    if n == shapes.len() - 1 {
        assert(shapes.take(n) =~= shapes.drop_last());
    } else {
        assert(shapes.drop_last().take(n) =~= shapes.take(n));
        lemma_stopped(image, shapes.drop_last(), fonts, n);
    }
}

/// Draws one element.
fn draw_element(framebuffer: &mut Framebuffer, element: &Element, small: &[u8], regular: &[u8]) -> (r:
    Result<(), OledError>)
    requires
        placeable(element@),
    ensures
        ({
            let fonts = Fonts { small: small@, regular: regular@ };
            &&& r == (if fonts.covers(element@) {
                Ok::<(), OledError>(())
            } else {
                Err(complaint(element@, fonts))
            })
            &&& final(framebuffer)@ == (if fonts.covers(element@) {
                drawn(old(framebuffer)@, ink(element@, fonts), DrawMode::Replace)
            } else {
                old(framebuffer)@
            })
        }),
{
    assert(cell_bands(6) == 1 && cell_bands(8) == 2);
    assert(font_size(6) == 1536 && font_size(8) == 4096) by (nonlinear_arith)
        requires
            cell_bands(6) == 1,
            cell_bands(8) == 2,
    ;
    let result = match element {
        Element::Text { text, x, y, large } => {
            if *large {
                framebuffer.write_text(text.as_str(), *x, *y, 8, regular, DrawMode::Replace)
            } else {
                framebuffer.write_text(text.as_str(), *x, *y, 6, small, DrawMode::Replace)
            }
        },
        Element::Aligned { text, x, y, width, align, large } => {
            if *large {
                framebuffer.write_text_aligned(
                    text.as_str(),
                    *x,
                    *y,
                    *width,
                    *align,
                    8,
                    regular,
                    DrawMode::Replace,
                )
            } else {
                framebuffer.write_text_aligned(
                    text.as_str(),
                    *x,
                    *y,
                    *width,
                    *align,
                    6,
                    small,
                    DrawMode::Replace,
                )
            }
        },
        Element::Bar { x, y, width } => {
            framebuffer.filled_rectangle(*x, *y, *width, 2, DrawMode::Replace);
            Ok(())
        },
    };
    match result {
        Ok(()) => Ok(()),
        Err(error) => Err(error),
    }
}

/// Draws elements until a font is too short.
pub fn draw_elements(
    framebuffer: &mut Framebuffer,
    elements: &Vec<Element>,
    small: &[u8],
    regular: &[u8],
) -> (r: Result<(), OledError>)
    requires
        forall|i: int| 0 <= i < elements@.len() ==> placeable((#[trigger] elements@[i])@),
    ensures
        ({
            let fonts = Fonts { small: small@, regular: regular@ };
            &&& r == drawing(shapes_of(elements@), fonts)
            &&& final(framebuffer)@ == painted(old(framebuffer)@, shapes_of(elements@), fonts)
        }),
{
    let ghost fonts = Fonts { small: small@, regular: regular@ };
    let ghost shapes = shapes_of(elements@);
    let ghost image = framebuffer@;
    let mut i: usize = 0;
    assert(shapes.take(0) =~= Seq::empty());
    while i < elements.len()
        invariant
            forall|i: int| 0 <= i < elements@.len() ==> placeable((#[trigger] elements@[i])@),
            fonts == (Fonts { small: small@, regular: regular@ }),
            shapes == shapes_of(elements@),
            image == old(framebuffer)@,
            i <= elements@.len(),
            drawing(shapes.take(i as int), fonts) is Ok,
            framebuffer@ == painted(image, shapes.take(i as int), fonts),
        decreases elements@.len() - i,
    {
        proof {
            assert(shapes.take(i + 1).drop_last() =~= shapes.take(i as int));
            assert(shapes.take(i + 1).last() == elements@[i as int]@);
        }
        match draw_element(framebuffer, &elements[i], small, regular) {
            Ok(()) => {},
            Err(error) => {
                proof {
                    lemma_stopped(image, shapes, fonts, i as int);
                }
                return Err(error);
            },
        }
        i += 1;
    }
    assert(shapes.take(i as int) =~= shapes);
    Ok(())
}

/// A background: what is too long is cut off, what is missing stays dark, and without a picture
/// everything is dark.
pub open spec fn background(picture: Option<Seq<u8>>) -> Seq<u8> {
    Seq::new(
        BUFFER_SIZE as nat,
        |i: int|
            match picture {
                Some(bytes) => if i < bytes.len() {
                    bytes[i]
                } else {
                    0u8
                },
                None => 0u8,
            },
    )
}

/// Whether a page can be drawn.
pub open spec fn drawable(content: PageContent) -> bool {
    computable(content) && forall|i: int|
        0 <= i < layout(content).len() ==> placeable(#[trigger] layout(content)[i])
}

/// Draws a page over its background.
pub fn render_page(
    framebuffer: &mut Framebuffer,
    picture: Option<&[u8]>,
    content: &PageContent,
    small: &[u8],
    regular: &[u8],
) -> (r: Result<(), OledError>)
    requires
        drawable(*content),
    ensures
        ({
            let fonts = Fonts { small: small@, regular: regular@ };
            let picture = match picture {
                Some(bytes) => Some(bytes@),
                None => None,
            };
            &&& r == drawing(layout(*content), fonts)
            &&& final(framebuffer)@ == painted(background(picture), layout(*content), fonts)
        }),
{
    match picture {
        Some(bytes) => {
            framebuffer.load_background(bytes);
            assert(framebuffer@ =~= background(Some(bytes@)));
        },
        None => {
            framebuffer.clear(false);
            assert(framebuffer@ =~= background(None));
        },
    }
    let elements = page_elements(content);
    assert forall|i: int| 0 <= i < elements@.len() implies placeable(
        (#[trigger] elements@[i])@,
    ) by {
        assert(layout(*content)[i] == elements@[i]@);
    }
    draw_elements(framebuffer, &elements, small, regular)
}

/// Whether [`render_page`] can draw the page.
pub fn is_drawable(content: &PageContent) -> (r: bool)
    ensures
        r == drawable(*content),
{
    let possible = match content {
        PageContent::Clock { now } => DateTime::new(
            now.year,
            now.month,
            now.day,
            now.hour,
            now.minute,
            now.second,
        ).is_some(),
        PageContent::Storage { disks } => {
            let mut i: usize = 0;
            let mut fits = true;
            while i < disks.len() && i < 3
                invariant
                    i <= disks@.len(),
                    i <= 3,
                    fits <==> forall|k: int|
                        0 <= k < i ==> (#[trigger] disks@[k]).used_kib * 100 <= u64::MAX,
                decreases 3 - i,
            {
                fits = fits && disks[i].used_kib <= u64::MAX / 100;
                i += 1;
            }
            fits
        },
        PageContent::Ram { memory } => memory.available_kib <= u64::MAX / 100,
        _ => true,
    };
    if !possible {
        return false;
    }
    let elements = page_elements(content);
    let mut i: usize = 0;
    while i < elements.len()
        invariant
            computable(*content),
            shapes_of(elements@) == layout(*content),
            i <= elements@.len(),
            forall|k: int| 0 <= k < i ==> placeable(#[trigger] layout(*content)[k]),
        decreases elements@.len() - i,
    {
        assert(layout(*content)[i as int] == elements@[i as int]@);
        let fits = match &elements[i] {
            Element::Aligned { text, x, width, .. } => 0 <= *x && *x <= WIDTH as isize && *width
                <= WIDTH && text.as_str().as_bytes().len() <= usize::MAX / 8,
            _ => true,
        };
        if !fits {
            return false;
        }
        i += 1;
    }
    true
}

/// The name of the picture behind a page.
pub open spec fn picture_name(page: OledPage) -> Seq<char> {
    match page {
        OledPage::Clock => "bgtime"@,
        OledPage::Cpu => "bgcpu"@,
        OledPage::Storage => "bgstorage"@,
        OledPage::Raid => "bgraid"@,
        OledPage::Ram => "bgram"@,
        OledPage::Temperature => "bgtemp"@,
        OledPage::Ip => "bgip"@,
    }
}

/// The file with the picture behind a page.
pub fn picture_file(page: OledPage) -> (r: String)
    ensures
        r@ == picture_name(page) + ".bin"@,
{
    let mut out = copy(
        match page {
            OledPage::Clock => "bgtime",
            OledPage::Cpu => "bgcpu",
            OledPage::Storage => "bgstorage",
            OledPage::Raid => "bgraid",
            OledPage::Ram => "bgram",
            OledPage::Temperature => "bgtemp",
            OledPage::Ip => "bgip",
        },
    );
    out.append(".bin");
    out
}

/// The height of the characters of a width: four thirds of it, rounded up to a multiple of eight.
pub open spec fn char_height(width: int) -> int {
    (width * 8 / 6 + 7) / 8 * 8
}

/// The file with the font of a width.
pub fn font_file(width: usize) -> (r: String)
    requires
        width * 8 + 42 <= usize::MAX,
    ensures
        r@ == "font"@ + text::decimal(char_height(width as int) as nat) + "x"@ + text::decimal(
            width as nat,
        ) + ".bin"@,
{
    let height = (width * 8 / 6 + 7) / 8 * 8;
    let mut out = copy("font");
    text::push_decimal(&mut out, height as u64);
    out.append("x");
    text::push_decimal(&mut out, width as u64);
    out.append(".bin");
    out
}

/// Whether the page has a picture on its left that nothing is drawn over.
pub open spec fn has_picture(content: PageContent) -> bool {
    content is Clock || content is Cpu || content is Ram || content is Temperature
}

/// Whether a shape draws only behind the picture on the left.
spec fn beside_picture(shape: Shape, fonts: Fonts) -> bool {
    forall|px: int, py: int| px < LEFT ==> #[trigger] ink(shape, fonts)(px, py) is None
}

/// The picture on the left of the pages that have one stays as it is.
pub proof fn law_picture_is_kept(
    picture: Option<Seq<u8>>,
    content: PageContent,
    fonts: Fonts,
    px: int,
    py: int,
)
    requires
        has_picture(content),
        0 <= px < LEFT,
        on_screen(px, py),
    ensures
        lit(painted(background(picture), layout(content), fonts), px, py) == lit(
            background(picture),
            px,
            py,
        ),
{
    let shapes = layout(content);
    if let PageContent::Cpu { usage } = content {
        lemma_cpu_rows_beside(usage@, at_most(usage@.len(), 4), fonts);
    } else {
        assert forall|i: int| 0 <= i < shapes.len() implies beside_picture(
            #[trigger] shapes[i],
            fonts,
        ) by {
            assert(shapes[i] is Aligned && shapes[i]->Aligned_x == LEFT);
            lemma_aligned_beside(shapes[i], fonts);
        }
    }
    lemma_painted_beside(background(picture), shapes, fonts, px, py);
}

proof fn lemma_aligned_beside(shape: Shape, fonts: Fonts)
    requires
        shape matches Shape::Aligned { x, width, .. } && x == LEFT && width <= WIDTH,
    ensures
        beside_picture(shape, fonts),
{
}

proof fn lemma_cpu_rows_beside(usage: Seq<(String, u8)>, n: int, fonts: Fonts)
    requires
        0 <= n <= 4,
    ensures
        forall|i: int|
            0 <= i < cpu_rows(usage, n).len() ==> beside_picture(
                #[trigger] cpu_rows(usage, n)[i],
                fonts,
            ),
    decreases n,
{
    if n > 0 {
        lemma_cpu_rows_beside(usage, n - 1, fonts);
        let before = cpu_rows(usage, n - 1);
        let rows = cpu_rows(usage, n);
        assert forall|i: int| 0 <= i < rows.len() implies beside_picture(
            #[trigger] rows[i],
            fonts,
        ) by {
            if i < before.len() {
                assert(rows[i] == before[i]);
            } else {
                assert(rows[i] is Text || rows[i] is Bar);
            }
        }
    }
}

proof fn lemma_painted_beside(
    image: Seq<u8>,
    shapes: Seq<Shape>,
    fonts: Fonts,
    px: int,
    py: int,
)
    requires
        forall|i: int|
            0 <= i < shapes.len() ==> beside_picture(#[trigger] shapes[i], fonts),
        0 <= px < LEFT,
        on_screen(px, py),
    ensures
        lit(painted(image, shapes, fonts), px, py) == lit(image, px, py),
    decreases shapes.len(),
{
    if shapes.len() > 0 {
        let head = shapes.drop_last();
        assert forall|i: int| 0 <= i < head.len() implies beside_picture(
            #[trigger] head[i],
            fonts,
        ) by {
            assert(head[i] == shapes[i]);
        }
        lemma_painted_beside(image, head, fonts, px, py);
        assert(beside_picture(shapes.last(), fonts));
        assert(ink(shapes.last(), fonts)(px, py) is None);
        lemma_lit_drawn(
            painted(image, head, fonts),
            ink(shapes.last(), fonts),
            DrawMode::Replace,
        );
    }
}

/// A share in whole percent is rounded down; of nothing it is none.
pub proof fn law_share_in_percent(part: u64, whole: u64)
    ensures
        whole == 0 ==> share(part, whole) == 0,
        whole > 0 ==> share(part, whole) * whole <= part * 100 < (share(part, whole) + 1) * whole,
{
    if whole > 0 {
        let x = part * 100;
        let d = whole as int;
        vstd::arithmetic::div_mod::lemma_fundamental_div_mod(x, d);
        vstd::arithmetic::div_mod::lemma_mod_bound(x, d);
        let q = x / d;
        vstd::arithmetic::div_mod::lemma_div_pos_is_pos(x, d);
        vstd::arithmetic::mul::lemma_mul_is_commutative(q, d);
        vstd::arithmetic::mul::lemma_mul_is_distributive_add_other_way(d, q, 1);
    }
}

/// A percentage is shown as its number and a percent sign.
pub proof fn law_percentages_are_shown(percent: nat)
    ensures
        percent_text(percent).last() == '%',
        text::value_of(percent_text(percent).drop_last()) == percent,
        percent_text(percent).drop_last() == text::decimal(percent),
{
    text::lemma_decimal(percent);
    assert(percent_text(percent).drop_last() =~= text::decimal(percent));
}

/// The processor page has two shapes for each of the first four processors, sixteen rows apart:
/// its name and its usage, and below them a bar as long as the usage, seventy columns for all of
/// it.
pub proof fn law_processor_page(usage: Vec<(String, u8)>, i: int)
    requires
        0 <= i < usage@.len(),
        i < 4,
    ensures
        ({
            let page = layout(PageContent::Cpu { usage });
            let (name, percent) = usage@[i];
            &&& page.len() == 2 * (if usage@.len() < 4 {
                usage@.len() as int
            } else {
                4
            })
            &&& page[2 * i] == (Shape::Text {
                text: name@ + ": "@ + percent_text(percent as nat),
                x: 54,
                y: (16 * i) as usize,
                large: false,
            })
            &&& page[2 * i + 1] matches Shape::Bar { x, y, width } && x == 54 && y == 16 * i + 12
                && width * 100 <= 70 * percent < (width + 1) * 100
        }),
{
    let n = at_most(usage@.len(), 4);
    lemma_processor_rows(usage@, n, i);
}

proof fn lemma_processor_rows(usage: Seq<(String, u8)>, n: int, i: int)
    requires
        0 <= i < n <= usage.len(),
        n <= 4,
    ensures
        ({
            let page = cpu_rows(usage, n);
            let (name, percent) = usage[i];
            &&& page.len() == 2 * n
            &&& page[2 * i] == (Shape::Text {
                text: name@ + ": "@ + percent_text(percent as nat),
                x: 54,
                y: (16 * i) as usize,
                large: false,
            })
            &&& page[2 * i + 1] matches Shape::Bar { x, y, width } && x == 54 && y == 16 * i + 12
                && width * 100 <= 70 * percent < (width + 1) * 100
        }),
    decreases n,
{
    if i < n - 1 {
        lemma_processor_rows(usage, n - 1, i);
    } else {
        if n > 1 {
            lemma_processor_rows(usage, n - 1, 0);
        } else {
            assert(cpu_rows(usage, 0).len() == 0);
        }
    }
}

/// The storage page has three shapes for each of the first three file systems, sixteen rows apart:
/// the name of the device, the share that is used, and the size.
pub proof fn law_storage_page(disks: Vec<FilesystemInfo>, i: int)
    requires
        0 <= i < disks@.len(),
        i < 3,
    ensures
        ({
            let page = layout(PageContent::Storage { disks });
            let disk = disks@[i];
            let row = (16 * (i + 1)) as usize;
            &&& page.len() == 3 * (if disks@.len() < 3 {
                disks@.len() as int
            } else {
                3
            })
            &&& page[3 * i] == (Shape::Text {
                text: short_name(disk.source@),
                x: 0,
                y: row,
                large: false,
            })
            &&& page[3 * i + 1] == (Shape::Aligned {
                text: percent_text(share(disk.used_kib, disk.total_kib)),
                x: 50,
                y: row,
                width: 24,
                align: Align::Right,
                large: false,
            })
            &&& page[3 * i + 2] == (Shape::Aligned {
                text: size_text(disk.total_kib as nat),
                x: 77,
                y: row,
                width: 51,
                align: Align::Right,
                large: false,
            })
        }),
{
    lemma_storage_rows(disks@, at_most(disks@.len(), 3), i);
}

proof fn lemma_storage_rows(disks: Seq<FilesystemInfo>, n: int, i: int)
    requires
        0 <= i < n <= disks.len(),
        n <= 3,
    ensures
        ({
            let page = storage_rows(disks, n);
            let disk = disks[i];
            let row = (16 * (i + 1)) as usize;
            &&& page.len() == 3 * n
            &&& page[3 * i] == (Shape::Text {
                text: short_name(disk.source@),
                x: 0,
                y: row,
                large: false,
            })
            &&& page[3 * i + 1] == (Shape::Aligned {
                text: percent_text(share(disk.used_kib, disk.total_kib)),
                x: 50,
                y: row,
                width: 24,
                align: Align::Right,
                large: false,
            })
            &&& page[3 * i + 2] == (Shape::Aligned {
                text: size_text(disk.total_kib as nat),
                x: 77,
                y: row,
                width: 51,
                align: Align::Right,
                large: false,
            })
        }),
    decreases n,
{
    if i < n - 1 {
        lemma_storage_rows(disks, n - 1, i);
    } else {
        if n > 1 {
            lemma_storage_rows(disks, n - 1, 0);
        } else {
            assert(storage_rows(disks, 0).len() == 0);
        }
    }
}

/// A device is shown by what stands behind the last slash of its path, and no more than eight
/// characters of that.
pub proof fn law_short_names(directory: Seq<char>, name: Seq<char>)
    requires
        !name.contains('/'),
    ensures
        ({
            let shown = short_name(directory + seq!['/'] + name);
            &&& shown.len() <= 8
            &&& name.len() <= 8 ==> shown == name
            &&& name.len() > 8 ==> shown == name.take(8)
        }),
        name.len() <= 8 ==> short_name(name) == name,
{
    assert forall|i: int| 0 <= i < name.len() implies name[i] != '/' by {
        assert(name.contains(name[i]));
    }
    text::lemma_pieces_append(directory, '/', name);
    text::lemma_last_piece(name, '/');
    assert(text::pieces(directory, '/').push(name).last() == name);
}

/// The memory page shows which share of the memory is available, in whole percent, and below it
/// how much memory there is.
pub proof fn law_memory_page(memory: MemoryInfo, percent: nat)
    requires
        memory.total_kib > 0,
        percent * memory.total_kib <= memory.available_kib * 100 < (percent + 1) * memory.total_kib,
    ensures
        ({
            let page = layout(PageContent::Ram { memory });
            &&& page.len() == 3
            &&& page[0] matches Shape::Aligned { text, y, .. } && text == text::decimal(percent)
                + seq!['%'] && y == 8
            &&& page[1] matches Shape::Aligned { text, y, .. } && text == "of"@ && y == 24
            &&& page[2] matches Shape::Aligned { text, y, .. } && text == size_text(
                memory.total_kib as nat,
            ) && y == 40
        }),
{
    let shown = share(memory.available_kib, memory.total_kib);
    law_share_in_percent(memory.available_kib, memory.total_kib);
    let whole = memory.total_kib as int;
    let x = memory.available_kib * 100;
    assert(shown == percent) by (nonlinear_arith)
        requires
            whole > 0,
            shown * whole <= x < (shown + 1) * whole,
            percent * whole <= x < (percent + 1) * whole,
    ;
}

/// The clock page shows the month and the day in capitals, the weekday, and the hour and the
/// minute, from top to bottom; the temperature page both scales; the address page the address.
pub proof fn law_pages_with_a_few_words(
    now: DateTime,
    celsius: String,
    fahrenheit: String,
    address: String,
)
    ensures
        ({
            let clock = layout(PageContent::Clock { now });
            let temperature = layout(PageContent::Temperature { celsius, fahrenheit });
            let ip = layout(PageContent::Ip { address });
            &&& clock.len() == 3
            &&& clock[0] matches Shape::Aligned { text, y, .. } && text == text::uppered(
                month_name(now.month as int) + two_digits(now.day as int),
            ) && y == 8
            &&& clock[1] matches Shape::Aligned { text, y, .. } && text == weekday_name(
                now.weekday(),
            ) && y == 24
            &&& clock[2] matches Shape::Aligned { text, y, .. } && text == two_digits(
                now.hour as int,
            ) + seq![':'] + two_digits(now.minute as int) && y == 40
            &&& temperature.len() == 2
            &&& temperature[0] matches Shape::Aligned { text, y, .. } && text == celsius@ + seq![
                'C',
            ] && y == 16
            &&& temperature[1] matches Shape::Aligned { text, y, .. } && text == fahrenheit@
                + seq!['F'] && y == 32
            &&& ip.len() == 1
            &&& ip[0] == (Shape::Aligned {
                text: address@,
                x: 0,
                y: 8,
                width: 128,
                align: Align::Center,
                large: true,
            })
        }),
        forall|content: PageContent, i: int|
            (content is Clock || content is Temperature || content is Ram) && 0 <= i < layout(
                content,
            ).len() ==> (#[trigger] layout(content)[i] matches Shape::Aligned {
                x,
                width,
                align,
                large,
                ..
            } && x == 54 && width == 74 && align == Align::Center && large),
{
}

/// The array page shows the name and the level of the array on the left, and on the right its
/// state, how many drives it has and how many of them failed.
pub proof fn law_array_page(array: RaidInfo)
    ensures
        layout(PageContent::Raid { array: None }).len() == 0,
        ({
            let page = layout(PageContent::Raid { array: Some(array) });
            &&& page.len() == 5
            &&& page[0] matches Shape::Aligned { text, x, y, width, .. } && text == array.name@
                && x == 0 && y == 0 && width == 54
            &&& page[1] matches Shape::Aligned { text, x, y, width, .. } && text == array.level@
                && x == 0 && y == 8 && width == 54
            &&& page[2] == (Shape::Text {
                text: "State:"@ + array.state@,
                x: 54,
                y: 16,
                large: false,
            })
            &&& page[3] == (Shape::Text {
                text: "Drives:"@ + text::decimal(array.devices as nat),
                x: 54,
                y: 32,
                large: false,
            })
            &&& page[4] == (Shape::Text {
                text: "Failed:"@ + text::decimal(array.degraded as nat),
                x: 54,
                y: 48,
                large: false,
            })
        }),
{
}

/// Large text is drawn with the regular font in cells of eight columns, small text with the small
/// font in cells of six; a bar is two rows high.
pub proof fn law_shapes_and_their_fonts(
    text: Seq<char>,
    x: isize,
    y: usize,
    fonts: Fonts,
    left: usize,
    width: usize,
)
    ensures
        ink(Shape::Text { text, x, y, large: true }, fonts) == cells(
            vstd::utf8::encode_utf8(text),
            x as int,
            y as int,
            8,
            fonts.regular,
        ),
        ink(Shape::Text { text, x, y, large: false }, fonts) == cells(
            vstd::utf8::encode_utf8(text),
            x as int,
            y as int,
            6,
            fonts.small,
        ),
        ink(Shape::Bar { x: left, y, width }, fonts) == rectangle(
            left as int,
            y as int,
            width as int,
            2,
        ),
{
}

/// Aligned text is drawn as text from the place on that its alignment gives.
pub proof fn law_aligned_shapes(
    text: Seq<char>,
    x: isize,
    y: usize,
    width: usize,
    align: Align,
    large: bool,
    fonts: Fonts,
)
    ensures
        ({
            let bytes = vstd::utf8::encode_utf8(text);
            let columns: usize = if large {
                8
            } else {
                6
            };
            ink(Shape::Aligned { text, x, y, width, align, large }, fonts) == cells(
                bytes,
                aligned_left(bytes, x, width, align, columns),
                y as int,
                columns as int,
                if large {
                    fonts.regular
                } else {
                    fonts.small
                },
            )
        }),
{
}

/// A page is drawn shape by shape, the later ones over the earlier ones. The first one whose font
/// is too short ends it: it and those behind it are not drawn, and what its font has and needs is
/// told.
pub proof fn law_shapes_in_turn(image: Seq<u8>, shapes: Seq<Shape>, shape: Shape, fonts: Fonts)
    ensures
        painted(image, seq![], fonts) == image,
        drawing(seq![], fonts) is Ok,
        drawing(shapes, fonts) is Err ==> drawing(shapes.push(shape), fonts) == drawing(
            shapes,
            fonts,
        ) && painted(image, shapes.push(shape), fonts) == painted(image, shapes, fonts),
        drawing(shapes, fonts) is Ok && fonts.covers(shape) ==> drawing(
            shapes.push(shape),
            fonts,
        ) is Ok && painted(image, shapes.push(shape), fonts) == drawn(
            painted(image, shapes, fonts),
            ink(shape, fonts),
            DrawMode::Replace,
        ),
        drawing(shapes, fonts) is Ok && !fonts.covers(shape) && fonts.small.len() <= usize::MAX
            && fonts.regular.len() <= usize::MAX ==> (drawing(shapes.push(shape), fonts) matches Err(
            OledError::ShortFont { length, expected },
        ) && (length == fonts.regular.len() && expected == 4096 && length < 4096 || length
            == fonts.small.len() && expected == 1536 && length < 1536)),
        drawing(shapes, fonts) is Ok && !fonts.covers(shape) ==> drawing(
            shapes.push(shape),
            fonts,
        ) is Err && painted(image, shapes.push(shape), fonts) == painted(image, shapes, fonts),
        shape is Bar ==> fonts.covers(shape),
        shape matches Shape::Text { large, .. } ==> (fonts.covers(shape) <==> if large {
            fonts.regular.len() >= 4096
        } else {
            fonts.small.len() >= 1536
        }),
        shape matches Shape::Aligned { large, .. } ==> (fonts.covers(shape) <==> if large {
            fonts.regular.len() >= 4096
        } else {
            fonts.small.len() >= 1536
        }),
{
    assert(shapes.push(shape).drop_last() =~= shapes);
    assert(font_size(8) == 4096) by {
        assert(cell_bands(8) == 2);
    }
    assert(font_size(6) == 1536) by {
        assert(cell_bands(6) == 1);
    }
}

/// A page stands on its picture, byte by byte, and is dark where there is none.
pub proof fn law_page_background(picture: Seq<u8>, i: int)
    requires
        0 <= i < 1024,
    ensures
        background(None).len() == 1024,
        background(None)[i] == 0,
        background(Some(picture)).len() == 1024,
        i < picture.len() ==> background(Some(picture))[i] == picture[i],
        i >= picture.len() ==> background(Some(picture))[i] == 0,
{
}

/// The pictures of the pages are in files of their own.
pub proof fn law_picture_names(a: OledPage, b: OledPage)
    ensures
        a != b ==> picture_name(a) != picture_name(b),
        picture_name(OledPage::Clock) == "bgtime"@,
        a != OledPage::Clock ==> picture_name(a) == "bg"@ + crate::config::page_name(a),
{
    reveal_strlit("bgtime");
    reveal_strlit("bgcpu");
    reveal_strlit("bgstorage");
    reveal_strlit("bgraid");
    reveal_strlit("bgram");
    reveal_strlit("bgtemp");
    reveal_strlit("bgip");
    reveal_strlit("bg");
    reveal_strlit("clock");
    reveal_strlit("cpu");
    reveal_strlit("storage");
    reveal_strlit("raid");
    reveal_strlit("ram");
    reveal_strlit("temp");
    reveal_strlit("ip");
    assert("bgcpu"@ =~= "bg"@ + "cpu"@);
    assert("bgstorage"@ =~= "bg"@ + "storage"@);
    assert("bgraid"@ =~= "bg"@ + "raid"@);
    assert("bgram"@ =~= "bg"@ + "ram"@);
    assert("bgtemp"@ =~= "bg"@ + "temp"@);
    assert("bgip"@ =~= "bg"@ + "ip"@);
    assert("bgtime"@[2] == 't' && "bgtime"@.len() == 6);
    assert("bgcpu"@[2] == 'c' && "bgcpu"@.len() == 5);
    assert("bgstorage"@.len() == 9 && "bgip"@.len() == 4);
    assert("bgraid"@[2] == 'r' && "bgraid"@.len() == 6);
    assert("bgram"@[2] == 'r' && "bgram"@.len() == 5);
    assert("bgtemp"@[3] == 'e' && "bgtemp"@.len() == 6 && "bgtime"@[3] == 'i' && "bgraid"@[3]
        == 'a');
}

/// The file of a font tells the height and the width of its cells; the height is that of the bands
/// of such a cell.
pub proof fn law_font_heights(width: int)
    requires
        width >= 0,
    ensures
        char_height(width) == 8 * cell_bands(width),
        char_height(width) >= width * 4 / 3,
        char_height(width) < width * 4 / 3 + 8,
{
    assert(width * 8 / 6 == width * 4 / 3);
}

/// Pages can be drawn wherever their numbers are not absurdly large and the time exists.
pub proof fn law_pages_can_be_computed(now: DateTime, memory: MemoryInfo, disks: Vec<FilesystemInfo>)
    ensures
        now.valid() ==> computable(PageContent::Clock { now }),
        memory.available_kib <= 0x0200_0000_0000_0000 ==> computable(PageContent::Ram { memory }),
        (forall|i: int|
            0 <= i < disks@.len() ==> (#[trigger] disks@[i]).used_kib <= 0x0200_0000_0000_0000)
            ==> computable(PageContent::Storage { disks }),
        forall|content: PageContent|
            content is Cpu || content is Raid || content is Temperature || content is Ip
                ==> #[trigger] computable(content),
{
}

} // verus!
