//! A captured screen, its pixels, and the search for the corner of the
//! box that the game draws around an inspected item.

use vstd::prelude::*;
use image::RgbImage;

verus! {

/// The pixels of a captured screen, four bytes each, row after row.
pub struct ScreenshotData {
    height: usize,
    width: usize,
    pixels: Vec<u8>,
}

/// The position of the mouse cursor on the screen.
#[derive(Copy, Clone, Eq, PartialEq, Debug, Structural)]
pub struct CursorPos {
    pub x: u32,
    pub y: u32,
}

/// The colour of the border of the box around an inspected item, as
/// `get_pixel` returns it.
pub const BORDER_COLOR: u32 = 0x605d58ff;

/// Cursor positions from this column on are not searched.
pub const SEARCH_MAX_X: u32 = 1920;

/// Cursor positions from this row on are not searched.
pub const SEARCH_MAX_Y: u32 = 1090;

/// An RGB image of the `image` crate. Verus cannot be told of its type, so
/// it is held here, and only the functions below touch it.
#[verifier::external_body]
pub struct RgbCanvas {
    pub image: RgbImage,
}

/// What an RGB image holds: the red, green and blue channels of each pixel,
/// by column and row.
pub uninterp spec fn rgb_pixels(img: RgbCanvas) -> Map<(int, int), Seq<u8>>;

/// The width and height of an RGB image.
pub uninterp spec fn rgb_size(img: RgbCanvas) -> (int, int);

/// Relies on image's `ImageBuffer::new`: an image of the given size whose
/// channels are all 0. It panics when `3 * width`, or then that times
/// `height`, overflows `usize`, and its buffer cannot exceed `isize::MAX`
/// bytes.
#[verifier::external_body]
fn new_rgb_image(width: u32, height: u32) -> (r: RgbCanvas)
    requires
        3 * width <= isize::MAX,
        3 * width * height <= isize::MAX,
    ensures
        rgb_size(r) == (width as int, height as int),
        rgb_pixels(r) == Map::new(
            |p: (int, int)| 0 <= p.0 < width && 0 <= p.1 < height,
            |p: (int, int)| seq![0u8, 0u8, 0u8],
        ),
{
    RgbCanvas { image: RgbImage::new(width, height) }
}

/// Relies on image's `ImageBuffer::put_pixel`: the pixel at `(x, y)` gets
/// the channels given, and nothing else changes. It panics outside the
/// image.
#[verifier::external_body]
fn put_rgb(img: &mut RgbCanvas, x: u32, y: u32, red: u8, green: u8, blue: u8)
    requires
        x < rgb_size(*old(img)).0,
        y < rgb_size(*old(img)).1,
    ensures
        rgb_size(*final(img)) == rgb_size(*old(img)),
        rgb_pixels(*final(img)) == rgb_pixels(*old(img)).insert(
            (x as int, y as int),
            seq![red, green, blue],
        ),
{
    img.image.put_pixel(x, y, image::Rgb([red, green, blue]))
}

/// The red, green and blue channels of a colour that `get_pixel` returned:
/// its second, third and fourth bytes from the least significant.
pub open spec fn rgb_of(v: u32) -> Seq<u8> {
    seq![(v / 0x100 % 0x100) as u8, (v / 0x10000 % 0x100) as u8, (v / 0x1000000 % 0x100) as u8]
}

/// The four bytes at `pos` read as one number, the first byte the most
/// significant.
pub open spec fn pixel_at(pixels: Seq<u8>, pos: int) -> u32 {
    (pixels[pos] as int * 0x1000000 + pixels[pos + 1] as int * 0x10000 + pixels[pos + 2] as int
        * 0x100 + pixels[pos + 3] as int) as u32
}

impl ScreenshotData {
    /// The width in pixels.
    pub closed spec fn spec_width(&self) -> int {
        self.width as int
    }

    /// The height in pixels.
    pub closed spec fn spec_height(&self) -> int {
        self.height as int
    }

    /// The bytes of the capture.
    pub closed spec fn spec_pixels(&self) -> Seq<u8> {
        self.pixels@
    }

    /// The capture holds four bytes for every pixel.
    pub open spec fn wf(&self) -> bool {
        4 * self.spec_width() * self.spec_height() <= self.spec_pixels().len() <= usize::MAX
    }

    /// The colour of the pixel in column `x` and row `y`.
    pub open spec fn pixel(&self, x: int, y: int) -> u32 {
        pixel_at(self.spec_pixels(), 4 * (y * self.spec_width() + x))
    }

    /// A capture of `width` by `height` pixels from its bytes; `None` when
    /// there are fewer than four bytes for each pixel.
    pub fn new(width: usize, height: usize, pixels: Vec<u8>) -> (r: Option<ScreenshotData>)
        ensures
            r is Some <==> 4 * width * height <= pixels@.len(),
            r is Some ==> {
                &&& r->0.wf()
                &&& r->0.spec_width() == width
                &&& r->0.spec_height() == height
                &&& r->0.spec_pixels() == pixels@
            },
    {
        let len = pixels.len();
        if width == 0 || height == 0 {
            assert(4 * width * height == 0) by (nonlinear_arith)
                requires
                    width == 0 || height == 0,
            ;
            return Some(ScreenshotData { height, width, pixels });
        }
        if width > len / 4 || height > len / 4 / width {
            assert(4 * width * height > len) by (nonlinear_arith)
                requires
                    width > len / 4 || height > len / 4 / width,
                    width > 0,
                    height > 0,
            ;
            return None;
        }
        assert(4 * width * height <= len) by (nonlinear_arith)
            requires
                width <= len / 4,
                height <= len / 4 / width,
                width > 0,
        ;
        Some(ScreenshotData { height, width, pixels })
    }

    /// The pixels the image holds in column `x` and row `y`, up to
    /// (excluding) column `cx` and, in that column, row `cy`; 0 beyond.
    spec fn drawn(&self, cx: int, cy: int) -> Map<(int, int), Seq<u8>> {
        Map::new(
            |p: (int, int)| 0 <= p.0 < self.spec_width() && 0 <= p.1 < self.spec_height(),
            |p: (int, int)|
                if p.0 < cx || (p.0 == cx && p.1 < cy) {
                    rgb_of(self.pixel(p.0, p.1))
                } else {
                    seq![0u8, 0u8, 0u8]
                },
        )
    }

    /// The capture as an RGB image of the same size. `None` when a side
    /// does not fit in a `u32`, or three bytes a pixel (or a row of them)
    /// would exceed `isize::MAX`.
    pub fn to_image(self) -> (r: Option<RgbCanvas>)
        requires
            self.wf(),
        ensures
            r is Some <==> {
                &&& self.spec_width() <= u32::MAX
                &&& self.spec_height() <= u32::MAX
                &&& 3 * self.spec_width() <= isize::MAX
                &&& 3 * self.spec_width() * self.spec_height() <= isize::MAX
            },
            r is Some ==> {
                &&& rgb_size(r->0) == (self.spec_width(), self.spec_height())
                &&& rgb_pixels(r->0) == Map::new(
                    |p: (int, int)|
                        0 <= p.0 < self.spec_width() && 0 <= p.1 < self.spec_height(),
                    |p: (int, int)| rgb_of(self.pixel(p.0, p.1)),
                )
            },
    {
        let w = self.width;
        let h = self.height;
        if w > u32::MAX as usize || h > u32::MAX as usize {
            return None;
        }
        let limit = isize::MAX as usize;
        if w > limit / 3 {
            return None;
        }
        if w > 0 && h > limit / 3 / w {
            assert(3 * w * h > limit) by (nonlinear_arith)
                requires
                    w > 0,
                    h > limit / 3 / w,
            ;
            return None;
        }
        assert(3 * w * h <= limit) by (nonlinear_arith)
            requires
                w == 0 || h <= limit / 3 / w,
        ;
        let mut img = new_rgb_image(w as u32, h as u32);
        assert(rgb_pixels(img) =~= self.drawn(0, 0));
        let mut x: usize = 0;
        while x < w
            invariant
                self.wf(),
                w == self.spec_width(),
                h == self.spec_height(),
                w <= u32::MAX,
                h <= u32::MAX,
                x <= w,
                rgb_size(img) == (w as int, h as int),
                rgb_pixels(img) == self.drawn(x as int, 0),
            decreases w - x,
        {
            let mut y: usize = 0;
            while y < h
                invariant
                    self.wf(),
                    w == self.spec_width(),
                    h == self.spec_height(),
                    w <= u32::MAX,
                    h <= u32::MAX,
                    x < w,
                    y <= h,
                    rgb_size(img) == (w as int, h as int),
                    rgb_pixels(img) == self.drawn(x as int, y as int),
                decreases h - y,
            {
                let p = self.get_pixel(x, y);
                put_rgb(
                    &mut img,
                    x as u32,
                    y as u32,
                    (p / 0x100 % 0x100) as u8,
                    (p / 0x10000 % 0x100) as u8,
                    (p / 0x1000000 % 0x100) as u8,
                );
                assert(rgb_pixels(img) =~= self.drawn(x as int, y + 1));
                y = y + 1;
            }
            assert(self.drawn(x as int, h as int) =~= self.drawn(x + 1, 0));
            x = x + 1;
        }
        assert(rgb_pixels(img) =~= Map::new(
            |p: (int, int)| 0 <= p.0 < self.spec_width() && 0 <= p.1 < self.spec_height(),
            |p: (int, int)| rgb_of(self.pixel(p.0, p.1)),
        ));
        Some(img)
    }

    /// The width in pixels.
    pub fn width(&self) -> (r: usize)
        ensures
            r == self.spec_width(),
    {
        self.width
    }

    /// The height in pixels.
    pub fn height(&self) -> (r: usize)
        ensures
            r == self.spec_height(),
    {
        self.height
    }

    /// The colour of the pixel in column `x` and row `y`: its four bytes
    /// read as one number, the first byte the most significant.
    pub fn get_pixel(&self, x: usize, y: usize) -> (r: u32)
        requires
            self.wf(),
            x < self.spec_width(),
            y < self.spec_height(),
        ensures
            r == self.pixel(x as int, y as int),
    {
        let ghost (w, h) = (self.width as int, self.height as int);
        let _len = self.pixels.len();
        assert(4 * (y * w + x) + 4 <= 4 * w * h) by (nonlinear_arith)
            requires
                0 <= x < w,
                0 <= y < h,
        ;
        let pos: usize = (y * self.width + x) * 4;
        let b0 = self.pixels[pos] as u32;
        let b1 = self.pixels[pos + 1] as u32;
        let b2 = self.pixels[pos + 2] as u32;
        let b3 = self.pixels[pos + 3] as u32;
        b0 * 0x1000000 + b1 * 0x10000 + b2 * 0x100 + b3
    }
}

/// Whether the pixel in column `x` of the cursor's row has the border colour.
pub open spec fn border_in_row(screen: &ScreenshotData, mouse: CursorPos, x: int) -> bool {
    screen.pixel(x, mouse.y as int) == BORDER_COLOR
}

/// Whether the pixel in row `y` of the cursor's column has the border colour.
pub open spec fn border_in_column(screen: &ScreenshotData, mouse: CursorPos, y: int) -> bool {
    screen.pixel(mouse.x as int, y) == BORDER_COLOR
}

/// The top left corner of the box around the item under the cursor: the
/// nearest border pixel to the left of the cursor (or under it) in its row,
/// and the nearest above it (or under it) in its column. `None` when either
/// is missing, or when the cursor lies beyond the searched area.
pub fn find_top_left_corner(screen: &ScreenshotData, mouse_location: &CursorPos) -> (r: Option<
    (u32, u32),
>)
    requires
        screen.wf(),
        mouse_location.x < SEARCH_MAX_X && mouse_location.y < SEARCH_MAX_Y ==> mouse_location.x
            < screen.spec_width() && mouse_location.y < screen.spec_height(),
    ensures
        mouse_location.x >= SEARCH_MAX_X || mouse_location.y >= SEARCH_MAX_Y ==> r is None,
        mouse_location.x < SEARCH_MAX_X && mouse_location.y < SEARCH_MAX_Y ==> (r is Some <==> (
        exists|x: int| 0 <= x <= mouse_location.x && border_in_row(screen, *mouse_location, x))
            && (exists|y: int|
            0 <= y <= mouse_location.y && border_in_column(screen, *mouse_location, y))),
        r is Some ==> {
            let (x, y) = r->0;
            &&& x <= mouse_location.x
            &&& border_in_row(screen, *mouse_location, x as int)
            &&& forall|x2: int|
                x < x2 <= mouse_location.x ==> !border_in_row(screen, *mouse_location, x2)
            &&& y <= mouse_location.y
            &&& border_in_column(screen, *mouse_location, y as int)
            &&& forall|y2: int|
                y < y2 <= mouse_location.y ==> !border_in_column(screen, *mouse_location, y2)
        },
{
    let mouse = *mouse_location;
    if mouse.x >= SEARCH_MAX_X || mouse.y >= SEARCH_MAX_Y {
        return None;
    }
    let x_edge = scan_row(screen, mouse);
    let y_edge = scan_column(screen, mouse);
    match (x_edge, y_edge) {
        (Some(x), Some(y)) => Some((x, y)),
        (_, _) => None,
    }
}

/// The nearest border pixel in the cursor's row, from the cursor leftwards.
fn scan_row(screen: &ScreenshotData, mouse: CursorPos) -> (r: Option<u32>)
    requires
        screen.wf(),
        mouse.x < screen.spec_width(),
        mouse.y < screen.spec_height(),
    ensures
        r is None ==> forall|x: int| 0 <= x <= mouse.x ==> !border_in_row(screen, mouse, x),
        r is Some ==> {
            &&& r->0 <= mouse.x
            &&& border_in_row(screen, mouse, r->0 as int)
            &&& forall|x: int| r->0 < x <= mouse.x ==> !border_in_row(screen, mouse, x)
        },
{
    let mut x_offset: u32 = 0;
    while x_offset <= mouse.x
        invariant
            screen.wf(),
            mouse.x < screen.spec_width(),
            mouse.y < screen.spec_height(),
            x_offset <= mouse.x + 1,
            forall|x: int| mouse.x - x_offset < x <= mouse.x ==> !border_in_row(screen, mouse, x),
        decreases mouse.x + 1 - x_offset,
    {
        let new_x = mouse.x - x_offset;
        if screen.get_pixel(new_x as usize, mouse.y as usize) == BORDER_COLOR {
            return Some(new_x);
        }
        if x_offset == mouse.x {
            return None;
        }
        x_offset = x_offset + 1;
    }
    None
}

/// The nearest border pixel in the cursor's column, from the cursor upwards.
fn scan_column(screen: &ScreenshotData, mouse: CursorPos) -> (r: Option<u32>)
    requires
        screen.wf(),
        mouse.x < screen.spec_width(),
        mouse.y < screen.spec_height(),
    ensures
        r is None ==> forall|y: int| 0 <= y <= mouse.y ==> !border_in_column(screen, mouse, y),
        r is Some ==> {
            &&& r->0 <= mouse.y
            &&& border_in_column(screen, mouse, r->0 as int)
            &&& forall|y: int| r->0 < y <= mouse.y ==> !border_in_column(screen, mouse, y)
        },
{
    let mut y_offset: u32 = 0;
    while y_offset <= mouse.y
        invariant
            screen.wf(),
            mouse.x < screen.spec_width(),
            mouse.y < screen.spec_height(),
            y_offset <= mouse.y + 1,
            forall|y: int| mouse.y - y_offset < y <= mouse.y ==> !border_in_column(screen, mouse, y),
        decreases mouse.y + 1 - y_offset,
    {
        let new_y = mouse.y - y_offset;
        if screen.get_pixel(mouse.x as usize, new_y as usize) == BORDER_COLOR {
            return Some(new_y);
        }
        if y_offset == mouse.y {
            return None;
        }
        y_offset = y_offset + 1;
    }
    None
}

} // verus!
