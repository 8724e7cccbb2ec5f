//! Images with four bytes to a pixel: red, green, blue and alpha.
use crate::name_map::Replicate;
use vstd::prelude::*;

verus! {

/// A pixel.
#[derive(Clone, Copy, Debug, PartialEq, Eq, Structural)]
pub struct Rgba {
    pub r: u8,
    pub g: u8,
    pub b: u8,
    pub a: u8,
}

/// An image, row by row from the top, each row from the left.
#[derive(Debug)]
pub struct RgbaImage {
    width: u32,
    height: u32,
    data: Vec<u8>,
}

/// What an image stands for.
pub struct ImageView {
    pub width: nat,
    pub height: nat,
    pub bytes: Seq<u8>,
}

/// Where the pixel at `x`, `y` starts in an image that is `width` pixels wide.
pub open spec fn offset(width: int, x: int, y: int) -> int {
    4 * (y * width + x)
}

impl ImageView {
    /// The pixel at `x`, `y`.
    pub open spec fn pixel(self, x: int, y: int) -> Rgba {
        let at = offset(self.width as int, x, y);
        Rgba {
            r: self.bytes[at],
            g: self.bytes[at + 1],
            b: self.bytes[at + 2],
            a: self.bytes[at + 3],
        }
    }

    /// Whether there are four bytes to each pixel.
    pub open spec fn is_full(self) -> bool {
        self.bytes.len() == 4 * (self.width * self.height)
    }

    /// Whether there is a pixel at `x`, `y`.
    pub open spec fn has(self, x: int, y: int) -> bool {
        0 <= x < self.width && 0 <= y < self.height
    }
}

impl View for RgbaImage {
    type V = ImageView;

    closed spec fn view(&self) -> ImageView {
        ImageView { width: self.width as nat, height: self.height as nat, bytes: self.data@ }
    }
}

impl RgbaImage {
    #[verifier::type_invariant]
    spec fn data_is_full(self) -> bool {
        self.data@.len() == 4 * (self.width * self.height)
    }

    /// The image with the given bytes, where their number is right.
    pub fn from_raw(width: u32, height: u32, data: Vec<u8>) -> (r: Option<RgbaImage>)
        ensures
            r is Some <==> data@.len() == 4 * (width * height),
            r matches Some(image) ==> image@ == (ImageView {
                width: width as nat,
                height: height as nat,
                bytes: data@,
            }),
    {
        proof {
            assert(width * height <= 0xFFFF_FFFF * 0xFFFF_FFFF) by (nonlinear_arith)
                requires
                    0 <= width <= 0xFFFF_FFFF,
                    0 <= height <= 0xFFFF_FFFF,
            ;
            assert(width * height >= 0) by (nonlinear_arith)
                requires
                    0 <= width,
                    0 <= height,
            ;
        }
        let pixels: u128 = width as u128 * height as u128;
        if data.len() as u128 == 4 * pixels {
            Some(RgbaImage { width, height, data })
        } else {
            None
        }
    }

    /// The transparent black image of the given size.
    pub fn new(width: u32, height: u32) -> (r: RgbaImage)
        requires
            4 * (width * height) <= isize::MAX,
        ensures
            r@.is_full(),
            r@.width == width,
            r@.height == height,
            r@.bytes == Seq::new((4 * (width * height)) as nat, |i: int| 0u8),
    {
        proof {
            assert(width * height >= 0) by (nonlinear_arith)
                requires
                    0 <= width,
                    0 <= height,
            ;
        }
        let size: usize = 4 * (width as usize * height as usize);
        let data: Vec<u8> = vec![0u8; size];
        assert(data@ =~= Seq::new((4 * (width * height)) as nat, |i: int| 0u8));
        RgbaImage { width, height, data }
    }

    /// The number of pixels in a row.
    pub fn width(&self) -> (r: u32)
        ensures
            r == self@.width,
            self@.is_full(),
    {
        proof {
            use_type_invariant(self);
        }
        self.width
    }

    /// The number of rows.
    pub fn height(&self) -> (r: u32)
        ensures
            r == self@.height,
    {
        self.height
    }

    /// The bytes of the image.
    pub fn as_raw(&self) -> (r: &Vec<u8>)
        ensures
            r@ == self@.bytes,
    {
        &self.data
    }

    /// The pixel at `x`, `y`.
    pub fn get_pixel(&self, x: u32, y: u32) -> (r: Rgba)
        requires
            self@.has(x as int, y as int),
        ensures
            r == self@.pixel(x as int, y as int),
    {
        proof {
            use_type_invariant(self);
            lemma_offset(self.width as int, self.height as int, x as int, y as int);
            assert(self.data.len() <= usize::MAX);
        }
        let at: usize = 4 * (y as usize * self.width as usize + x as usize);
        Rgba { r: self.data[at], g: self.data[at + 1], b: self.data[at + 2], a: self.data[at + 3] }
    }

    /// Sets the pixel at `x`, `y`.
    pub fn put_pixel(&mut self, x: u32, y: u32, p: Rgba)
        requires
            old(self)@.has(x as int, y as int),
        ensures
            final(self)@.width == old(self)@.width,
            final(self)@.height == old(self)@.height,
            final(self)@.is_full(),
            final(self)@.pixel(x as int, y as int) == p,
            forall|i: int, j: int|
                #![trigger final(self)@.pixel(i, j)]
                #![trigger old(self)@.pixel(i, j)]
                old(self)@.has(i, j) && !(i == x && j == y) ==> final(self)@.pixel(i, j) == old(
                    self,
                )@.pixel(i, j),
    {
        proof {
            use_type_invariant(&*self);
            lemma_offset(self.width as int, self.height as int, x as int, y as int);
            assert(self.data.len() <= usize::MAX);
        }
        let at: usize = 4 * (y as usize * self.width as usize + x as usize);
        let ghost before = self@;
        let mut taken = RgbaImage { width: 0, height: 0, data: Vec::new() };
        std::mem::swap(self, &mut taken);
        let width = taken.width;
        let height = taken.height;
        let mut data = taken.data;
        data.set(at, p.r);
        data.set(at + 1, p.g);
        data.set(at + 2, p.b);
        data.set(at + 3, p.a);
        *self = RgbaImage { width, height, data };
        proof {
            let after = self@;
            assert(after.pixel(x as int, y as int) == p);
            assert forall|i: int, j: int|
                before.has(i, j) && !(i == x && j == y) implies after.pixel(i, j) == before.pixel(
                i,
                j,
            ) by {
                lemma_offset(before.width as int, before.height as int, i, j);
                lemma_offsets_apart(before.width as int, x as int, y as int, i, j);
            }
        }
    }
}

impl Replicate for RgbaImage {
    fn replicate(&self) -> (r: Self) {
        proof {
            use_type_invariant(self);
        }
        RgbaImage { width: self.width, height: self.height, data: copy_bytes(&self.data) }
    }
}

impl Clone for RgbaImage {
    fn clone(&self) -> (r: Self)
        ensures
            r@ == self@,
    {
        self.replicate()
    }
}

/// A copy of the bytes.
fn copy_bytes(bytes: &Vec<u8>) -> (r: Vec<u8>)
    ensures
        r@ == bytes@,
{
    let r = bytes.clone();
    assert(r@ =~= bytes@);
    r
}

/// The four bytes of a pixel lie within the image.
pub proof fn lemma_offset(width: int, height: int, x: int, y: int)
    requires
        0 <= x < width,
        0 <= y < height,
    ensures
        0 <= y * width,
        0 <= offset(width, x, y),
        offset(width, x, y) + 4 <= 4 * (width * height),
{
    assert(0 <= y * width && y * width + width <= width * height) by (nonlinear_arith)
        requires
            0 <= x < width,
            0 <= y < height,
    ;
}

/// Different pixels have different bytes.
proof fn lemma_offsets_apart(width: int, x: int, y: int, i: int, j: int)
    requires
        0 <= x < width,
        0 <= i < width,
        !(i == x && j == y),
    ensures
        offset(width, x, y) + 4 <= offset(width, i, j) || offset(width, i, j) + 4 <= offset(
            width,
            x,
            y,
        ),
{
    if j < y {
        assert(j * width + width <= y * width) by (nonlinear_arith)
            requires
                j < y,
                width > 0,
        ;
    } else if y < j {
        assert(y * width + width <= j * width) by (nonlinear_arith)
            requires
                y < j,
                width > 0,
        ;
    }
}

/// Images of the same size with the same pixels are the same.
pub proof fn lemma_same_pixels(a: ImageView, b: ImageView)
    requires
        a.is_full(),
        b.is_full(),
        a.width == b.width,
        a.height == b.height,
        forall|x: int, y: int| a.has(x, y) ==> #[trigger] a.pixel(x, y) == b.pixel(x, y),
    ensures
        a == b,
{
    assert forall|i: int| 0 <= i < a.bytes.len() implies a.bytes[i] == b.bytes[i] by {
        let w = a.width as int;
        let h = a.height as int;
        assert(w > 0) by (nonlinear_arith)
            requires
                0 <= i < 4 * (w * h),
                w >= 0,
        ;
        let p = i / 4;
        let (x, y) = (p % w, p / w);
        vstd::arithmetic::div_mod::lemma_fundamental_div_mod(p, w);
        assert(w * y == y * w) by (nonlinear_arith);
        assert(0 <= y < h) by (nonlinear_arith)
            requires
                p == w * y + x,
                0 <= x < w,
                0 <= p < w * h,
        ;
        assert(a.pixel(x, y) == b.pixel(x, y));
        assert(offset(w, x, y) == 4 * p);
    }
    assert(a.bytes =~= b.bytes);
}

/// `image::imageops::crop_imm`, with the part that it shows copied out by
/// `to_image`: where the part lies within the image, its pixels are those of the
/// image, moved by its upper left corner. The number of bytes in a row of the image has to
/// fit, also where there are no rows: the crate computes it before it looks at the height.
#[verifier::external_body]
fn crop_bytes(width: u32, height: u32, data: &Vec<u8>, x: u32, y: u32, w: u32, h: u32) -> (r: Vec<
    u8,
>)
    requires
        data@.len() == 4 * (width * height),
        4 * width <= usize::MAX,
        x + w <= width,
        y + h <= height,
    ensures
        r@.len() == 4 * (w * h),
        forall|i: int, j: int, c: int|
            0 <= i < w && 0 <= j < h && 0 <= c < 4 ==> r@[#[trigger] (offset(w as int, i, j) + c)]
                == data@[offset(width as int, x + i, y + j) + c],
{
    let whole = image::RgbaImage::from_raw(width, height, data.clone()).unwrap();
    image::imageops::crop_imm(&whole, x, y, w, h).to_image().into_raw()
}

/// The part of an image that starts at `x`, `y` and is `w` wide and `h` high.
pub fn crop(image: &RgbaImage, x: u32, y: u32, w: u32, h: u32) -> (r: RgbaImage)
    requires
        x + w <= image@.width,
        y + h <= image@.height,
    ensures
        r@.is_full(),
        r@.width == w,
        r@.height == h,
        forall|i: int, j: int|
            r@.has(i, j) ==> #[trigger] r@.pixel(i, j) == image@.pixel(x + i, y + j),
{
    proof {
        use_type_invariant(image);
    }
    if image.height == 0 {
        assert(w * 0 == 0) by (nonlinear_arith);
        return RgbaImage { width: w, height: 0, data: Vec::new() };
    }
    proof {
        let (width, height) = (image.width as int, image.height as int);
        assert(4 * width <= 4 * (width * height)) by (nonlinear_arith)
            requires
                width >= 0,
                height >= 1,
        ;
        assert(image.data.len() <= usize::MAX);
    }
    let data = crop_bytes(image.width, image.height, &image.data, x, y, w, h);
    let r = RgbaImage { width: w, height: h, data };
    assert forall|i: int, j: int| r@.has(i, j) implies #[trigger] r@.pixel(i, j) == image@.pixel(
        x + i,
        y + j,
    ) by {
        let at = offset(w as int, i, j);
        assert(r@.bytes[at + 0] == image@.bytes[offset(image.width as int, x + i, y + j) + 0]);
        assert(r@.bytes[at + 1] == image@.bytes[offset(image.width as int, x + i, y + j) + 1]);
        assert(r@.bytes[at + 2] == image@.bytes[offset(image.width as int, x + i, y + j) + 2]);
        assert(r@.bytes[at + 3] == image@.bytes[offset(image.width as int, x + i, y + j) + 3]);
    }
    r
}

}
