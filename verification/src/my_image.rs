//! Decoded images as flat RGBA8 pixel stores, and where to look for them.

use vstd::prelude::*;

verus! {

/// Bytes per stored pixel: red, green, blue, alpha.
pub const BYTES_PER_PIXEL: usize = 4;

/// The colour handed out where no pixel can be read.
pub open spec fn magenta() -> Seq<u8> {
    seq![255u8, 0u8, 255u8, 255u8]
}

/// `x` limited to `low ..= high - 1`, the lower limit winning.
pub open spec fn clamp_index(x: int, low: int, high: int) -> int {
    if x < low {
        low
    } else if x < high {
        x
    } else {
        high - 1
    }
}

/// What an image is: its dimensions and, if it was loaded, its bytes in
/// row-major RGBA order.
pub struct ImageView {
    pub width: nat,
    pub height: nat,
    pub data: Option<Seq<u8>>,
}

impl ImageView {
    /// An image whose file could not be loaded.
    pub open spec fn missing() -> ImageView {
        ImageView { width: 0, height: 0, data: None }
    }

    /// A loaded image holds exactly four bytes per pixel; a missing one has
    /// no extent.
    pub open spec fn wf(self) -> bool {
        match self.data {
            Some(d) => d.len() == self.width * self.height * 4,
            None => self.width == 0 && self.height == 0,
        }
    }

    /// Whether there is at least one pixel to read.
    pub open spec fn has_pixels(self) -> bool {
        self.data is Some && self.width > 0 && self.height > 0
    }

    /// Offset of the first byte of the pixel nearest to column `x`, row `y`.
    pub open spec fn offset(self, x: int, y: int) -> int {
        (clamp_index(y, 0, self.height as int) * self.width + clamp_index(
            x,
            0,
            self.width as int,
        )) * 4
    }

    /// The four bytes of the pixel nearest to column `x`, row `y`, or
    /// magenta where the image has no pixels.
    pub open spec fn pixel(self, x: int, y: int) -> Seq<u8> {
        if self.has_pixels() {
            self.data->0.subrange(self.offset(x, y), self.offset(x, y) + 4)
        } else {
            magenta()
        }
    }
}

/// A file that may hold an image: where it was looked for and, if it could
/// be read, what it holds.
pub struct ImageFile {
    pub path: String,
    pub bytes: Option<Vec<u8>>,
}

/// What the decoder of the crate `image` makes of the bytes of a file with
/// the given path: width, height and the pixels as RGBA8 bytes in row-major
/// order, or `None` where the path's extension names no format that can be
/// read or the bytes are not an image of that format.
pub uninterp spec fn decoded_rgba8(path: Seq<char>, bytes: Seq<u8>) -> Option<(u32, u32, Seq<u8>)>;

/// The image that a file's bytes decode to, if they decode to four bytes
/// for each pixel.
pub open spec fn loaded(path: Seq<char>, bytes: Seq<u8>) -> Option<ImageView> {
    match decoded_rgba8(path, bytes) {
        Some((w, h, d)) => if d.len() == w * h * 4 {
            Some(ImageView { width: w as nat, height: h as nat, data: Some(d) })
        } else {
            None
        },
        None => None,
    }
}

/// The image in a file, if the file could be read and holds one.
pub open spec fn file_image(f: ImageFile) -> Option<ImageView> {
    match f.bytes {
        Some(b) => loaded(f.path@, b@),
        None => None,
    }
}

/// The image of the first file at or after `from` that holds one, or the
/// missing image where none does.
pub open spec fn first_loadable(files: Seq<ImageFile>, from: int) -> ImageView
    decreases files.len() - from,
{
    if from < 0 || from >= files.len() {
        ImageView::missing()
    } else {
        match file_image(files[from]) {
            Some(v) => v,
            None => first_loadable(files, from + 1),
        }
    }
}

/// How many directories above the working directory are searched.
pub const SEARCH_DEPTH: usize = 6;

/// The parts of a path as sequences of characters.
pub open spec fn parts(p: Seq<String>) -> Seq<Seq<char>> {
    p.map_values(|s: String| s@)
}

/// The way `ups` directories up: that many times `..`.
pub open spec fn dots(ups: int) -> Seq<Seq<char>> {
    Seq::new(ups as nat, |i: int| ".."@)
}

/// The place `images/filename`, `ups` directories up.
pub open spec fn up_path(ups: int, filename: Seq<char>) -> Seq<Seq<char>> {
    dots(ups) + seq!["images"@, filename]
}

/// The places where an image file is looked for, in the order in which they
/// are tried. Each place is a path given by its parts: first
/// `image_dir/filename` where a directory for images is set, then
/// `filename`, then `images/filename`, then `../images/filename` and so on
/// up to six directories up.
pub open spec fn spec_search_paths(filename: Seq<char>, image_dir: Option<Seq<char>>) -> Seq<
    Seq<Seq<char>>,
> {
    let first = match image_dir {
        Some(dir) => seq![seq![dir, filename]],
        None => Seq::empty(),
    };
    first + seq![seq![filename]] + Seq::new(7, |k: int| up_path(k, filename))
}

/// The parts of each path as sequences of characters.
pub open spec fn paths_view(paths: Seq<Vec<String>>) -> Seq<Seq<Seq<char>>> {
    paths.map_values(|p: Vec<String>| parts(p@))
}

/// Every pixel of a `w` by `h` image lies wholly inside its `4 * w * h` bytes.
pub proof fn lemma_offset_in_bounds(x: int, y: int, w: int, h: int)
    requires
        0 <= x < w,
        0 <= y < h,
    ensures
        0 <= y * w,
        0 <= y * w + x < w * h,
        0 <= (y * w + x) * 4,
        (y * w + x) * 4 + 4 <= w * h * 4,
{
    assert(0 <= y * w && y * w + w <= w * h) by (nonlinear_arith)
        requires
            0 <= y < h,
            0 < w,
    ;
}

/// A decoded image, or the record that none could be loaded.
pub struct MyImage {
    image_width: usize,
    image_height: usize,
    b_data: Option<Vec<u8>>,
}

impl View for MyImage {
    type V = ImageView;

    closed spec fn view(&self) -> ImageView {
        ImageView {
            width: self.image_width as nat,
            height: self.image_height as nat,
            data: match self.b_data {
                Some(d) => Some(d@),
                None => None,
            },
        }
    }
}

impl MyImage {
    #[verifier::type_invariant]
    spec fn inv(self) -> bool {
        self@.wf()
    }

    /// The image that stands for a file that could not be loaded.
    pub fn missing() -> (img: MyImage)
        ensures
            img@ == ImageView::missing(),
    {
        MyImage { image_width: 0, image_height: 0, b_data: None }
    }

    /// Takes over decoded RGBA8 bytes. The bytes are accepted exactly when
    /// there are four of them for each of the `width * height` pixels.
    pub fn from_rgba8(width: u32, height: u32, data: Vec<u8>) -> (img: Option<MyImage>)
        ensures
            img is Some <==> data@.len() == width * height * 4,
            img is Some ==> img->0@ == (ImageView {
                width: width as nat,
                height: height as nat,
                data: Some(data@),
            }),
    {
        assert(width * height <= 0xFFFF_FFFF * 0xFFFF_FFFF) by (nonlinear_arith)
            requires
                width <= 0xFFFF_FFFF,
                height <= 0xFFFF_FFFF,
        ;
        let wanted: u128 = (width as u128) * (height as u128) * 4;
        if data.len() as u128 == wanted {
            Some(MyImage { image_width: width as usize, image_height: height as usize, b_data: Some(data) })
        } else {
            None
        }
    }

    /// Decodes the bytes of a file and takes the image over. Where they do
    /// not decode, the answer is `false` and the image stays as it was.
    pub fn load(&mut self, path: &str, bytes: &[u8]) -> (ok: bool)
        ensures
            ok == loaded(path@, bytes@) is Some,
            ok ==> final(self)@ == loaded(path@, bytes@)->0,
            !ok ==> final(self)@ == old(self)@,
    {
        match decode_rgba8(path, bytes) {
            Some((width, height, data)) => match MyImage::from_rgba8(width, height, data) {
                Some(img) => {
                    *self = img;
                    true
                },
                None => false,
            },
            None => false,
        }
    }

    /// The image of the first of the files that holds one, or the missing
    /// image where none does.
    pub fn new(files: &Vec<ImageFile>) -> (img: MyImage)
        ensures
            img@ == first_loadable(files@, 0),
    {
        let mut image = MyImage::missing();
        let mut i: usize = 0;
        while i < files.len()
            invariant
                i <= files.len(),
                image@ == ImageView::missing(),
                first_loadable(files@, 0) == first_loadable(files@, i as int),
            decreases files.len() - i,
        {
            if let Some(bytes) = &files[i].bytes {
                if image.load(files[i].path.as_str(), bytes.as_slice()) {
                    return image;
                }
            }
            i += 1;
        }
        image
    }

    /// The places where the file `filename` is looked for, in the order in
    /// which they are tried, each as the parts of a path. `image_dir` is the
    /// directory for images, where one is set.
    pub fn search_paths(filename: &str, image_dir: Option<&str>) -> (paths: Vec<Vec<String>>)
        ensures
            paths_view(paths@) == spec_search_paths(
                filename@,
                match image_dir {
                    Some(d) => Some(d@),
                    None => None,
                },
            ),
    {
        let mut paths: Vec<Vec<String>> = Vec::new();
        if let Some(dir) = image_dir {
            let mut p: Vec<String> = Vec::new();
            p.push(dir.to_owned());
            p.push(filename.to_owned());
            assert(parts(p@) =~= seq![dir@, filename@]);
            paths.push(p);
        }
        let mut here: Vec<String> = Vec::new();
        here.push(filename.to_owned());
        assert(parts(here@) =~= seq![filename@]);
        paths.push(here);
        let ghost base = paths_view(paths@);
        assert(base =~= match image_dir {
            Some(d) => seq![seq![d@, filename@]],
            None => Seq::empty(),
        } + seq![seq![filename@]]);
        let mut ups: usize = 0;
        while ups <= SEARCH_DEPTH
            invariant
                ups <= 7,
                paths_view(paths@) == base + Seq::new(ups as nat, |k: int| up_path(k, filename@)),
            decreases 7 - ups,
        {
            let mut p: Vec<String> = Vec::new();
            let mut k: usize = 0;
            while k < ups
                invariant
                    k <= ups,
                    parts(p@) == dots(k as int),
                decreases ups - k,
            {
                let ghost so_far = parts(p@);
                p.push("..".to_owned());
                assert(parts(p@) =~= so_far.push(".."@));
                assert(dots(k + 1) =~= dots(k as int).push(".."@));
                k += 1;
            }
            let ghost way_up = parts(p@);
            p.push("images".to_owned());
            p.push(filename.to_owned());
            assert(parts(p@) =~= way_up.push("images"@).push(filename@));
            assert(parts(p@) =~= up_path(ups as int, filename@));
            let ghost before = paths_view(paths@);
            paths.push(p);
            assert(paths_view(paths@) =~= before.push(up_path(ups as int, filename@)));
            assert(base + Seq::new((ups + 1) as nat, |k: int| up_path(k, filename@)) =~= (base
                + Seq::new(ups as nat, |k: int| up_path(k, filename@))).push(
                up_path(ups as int, filename@),
            ));
            ups += 1;
        }
        paths
    }

    /// Width in pixels; 0 for a missing image.
    pub fn width(&self) -> (w: usize)
        ensures
            w == self@.width,
            self@.wf(),
    {
        proof {
            use_type_invariant(self);
        }
        if self.b_data.is_none() {
            0
        } else {
            self.image_width
        }
    }

    /// Height in pixels; 0 for a missing image.
    pub fn height(&self) -> (h: usize)
        ensures
            h == self@.height,
            self@.wf(),
    {
        proof {
            use_type_invariant(self);
        }
        if self.b_data.is_none() {
            0
        } else {
            self.image_height
        }
    }

    /// Limits `x` to `low ..= high - 1`; below `low` the answer is `low`.
    pub fn clamp(x: usize, low: usize, high: usize) -> (r: usize)
        requires
            high >= 1,
        ensures
            r == clamp_index(x as int, low as int, high as int),
    {
        if x < low {
            low
        } else if x < high {
            x
        } else {
            high - 1
        }
    }

    /// The RGBA bytes of the pixel nearest to `(x, y)`: coordinates past the
    /// right or bottom edge read the last column or row. An image without
    /// pixels answers magenta.
    pub fn pixel_rgba(&self, x: usize, y: usize) -> (p: [u8; 4])
        ensures
            p@ == self@.pixel(x as int, y as int),
    {
        proof {
            use_type_invariant(self);
        }
        if let Some(data) = &self.b_data {
            if self.image_width > 0 && self.image_height > 0 {
                let cx = Self::clamp(x, 0, self.image_width);
                let cy = Self::clamp(y, 0, self.image_height);
                let len = data.len();
                proof {
                    lemma_offset_in_bounds(
                        cx as int,
                        cy as int,
                        self.image_width as int,
                        self.image_height as int,
                    );
                    assert(len == self.image_width as int * self.image_height as int * 4);
                }
                let index = (cy * self.image_width + cx) * BYTES_PER_PIXEL;
                let p = [data[index], data[index + 1], data[index + 2], data[index + 3]];
                assert(p@ =~= self@.pixel(x as int, y as int));
                return p;
            }
        }
        let p = [255u8, 0u8, 255u8, 255u8];
        assert(p@ =~= magenta());
        p
    }
}

/// Decodes an image held in memory with `load_from_memory_with_format` of
/// the crate `image`, in the format that `ImageFormat::from_path` reads off
/// the path's extension, and converts it with `DynamicImage::to_rgba8`.
///
/// Claimed of it: the answer depends on the path and the bytes alone, and
/// is what `decoded_rgba8` names.
#[verifier::external_body]
fn decode_rgba8(path: &str, bytes: &[u8]) -> (r: Option<(u32, u32, Vec<u8>)>)
    ensures
        match r {
            Some((w, h, d)) => decoded_rgba8(path@, bytes@) == Some((w, h, d@)),
            None => decoded_rgba8(path@, bytes@) is None,
        },
{
    let format = image::ImageFormat::from_path(path).ok()?;
    let img = image::load_from_memory_with_format(bytes, format).ok()?.to_rgba8();
    Some((img.width(), img.height(), img.into_raw()))
}

} // verus!
