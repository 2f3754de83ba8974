//! The control skeleton of the renderer: which pixels and samples there
//! are, and how the radiance along one ray is put together.
//!
//! Intersections, colours and densities are the caller's arithmetic. What
//! is decided here is what does not depend on it: that a ray with no depth
//! left is black, that a ray that meets nothing sees the background, which
//! encounters send a further ray, and that each further ray has one step
//! of depth less.

use vstd::prelude::*;

verus! {

/// What a ray met in the scene.
#[derive(Clone, Copy, Debug, PartialEq, Eq, Structural)]
pub enum Encounter {
    /// No surface within reach.
    Nothing,
    /// A surface that does not scatter.
    Absorbing,
    /// A surface that scatters into one given direction, as a mirror or
    /// glass does.
    Specular,
    /// A surface that scatters by a density over directions.
    Diffuse,
}

/// How the radiance along a ray is put together.
#[derive(Clone, Copy, Debug, PartialEq, Eq, Structural)]
pub enum Transport {
    /// No light: the ray has no depth left.
    Black,
    /// The background colour.
    Background,
    /// What the surface emits, and nothing else.
    Emitted,
    /// The surface's attenuation times the radiance along the scattered ray,
    /// which is traced with the depth given.
    Attenuated { depth: i32 },
    /// What the surface emits, plus the attenuation times the scattering
    /// density times the radiance along a ray drawn from the mixture of
    /// densities, over the mixture's density at that ray, which is traced
    /// with the depth given.
    Sampled { depth: i32 },
}

/// How the radiance along a ray with `depth` steps left is put together,
/// given what the ray met.
pub open spec fn spec_transport(depth: i32, met: Encounter) -> Transport {
    if depth <= 0 {
        Transport::Black
    } else {
        match met {
            Encounter::Nothing => Transport::Background,
            Encounter::Absorbing => Transport::Emitted,
            Encounter::Specular => Transport::Attenuated { depth: (depth - 1) as i32 },
            Encounter::Diffuse => Transport::Sampled { depth: (depth - 1) as i32 },
        }
    }
}

/// How many rays are traced, one after another, when a ray with `depth`
/// steps left meets `mets[0]`, the ray it sends meets `mets[1]`, and so on.
pub open spec fn rays_traced(depth: i32, mets: Seq<Encounter>) -> nat
    decreases mets.len(),
{
    if mets.len() == 0 {
        0
    } else {
        match spec_transport(depth, mets[0]) {
            Transport::Black => 0,
            Transport::Background => 1,
            Transport::Emitted => 1,
            Transport::Attenuated { depth: d } => 1 + rays_traced(d, mets.drop_first()),
            Transport::Sampled { depth: d } => 1 + rays_traced(d, mets.drop_first()),
        }
    }
}

/// Whether a ray with `depth` steps left is traced at all.
pub fn worth_tracing(depth: i32) -> (r: bool)
    ensures
        r == (depth > 0),
        !r ==> forall|met: Encounter| spec_transport(depth, met) == Transport::Black,
{
    depth > 0
}

/// How the radiance along a ray with `depth` steps left is put together,
/// given what the ray met.
pub fn transport(depth: i32, met: Encounter) -> (t: Transport)
    ensures
        t == spec_transport(depth, met),
{
    if depth <= 0 {
        return Transport::Black;
    }
    match met {
        Encounter::Nothing => Transport::Background,
        Encounter::Absorbing => Transport::Emitted,
        Encounter::Specular => Transport::Attenuated { depth: depth - 1 },
        Encounter::Diffuse => Transport::Sampled { depth: depth - 1 },
    }
}

/// With no depth left every ray is black, whatever the scene holds.
pub proof fn lemma_no_depth_is_black(depth: i32, met: Encounter)
    requires
        depth <= 0,
    ensures
        spec_transport(depth, met) == Transport::Black,
{
}

/// In a scene without objects every ray with depth left sees the
/// background.
pub proof fn lemma_empty_scene_is_background(depth: i32)
    requires
        depth > 0,
    ensures
        spec_transport(depth, Encounter::Nothing) == Transport::Background,
{
}

/// The depth caps the recursion: whatever the rays meet, no more rays are
/// traced than there are steps of depth.
pub proof fn lemma_depth_caps_rays(depth: i32, mets: Seq<Encounter>)
    ensures
        depth <= 0 ==> rays_traced(depth, mets) == 0,
        depth > 0 ==> rays_traced(depth, mets) <= depth,
    decreases mets.len(),
{
    if mets.len() > 0 && depth > 0 {
        lemma_depth_caps_rays((depth - 1) as i32, mets.drop_first());
    }
}

/// The root of `n`, rounded down: the largest `r` with `r * r <= n`.
pub open spec fn is_sqrt_floor(n: int, r: int) -> bool {
    0 <= r && r * r <= n && n < (r + 1) * (r + 1)
}

/// The side of the square grid of samples of one pixel: the root of the
/// number of samples, rounded down, and 0 where that number is not
/// positive.
pub fn sqrt_spp(samples_per_pixel: i32) -> (r: u32)
    ensures
        samples_per_pixel <= 0 ==> r == 0,
        samples_per_pixel > 0 ==> is_sqrt_floor(samples_per_pixel as int, r as int),
        r <= 46340,
{
    if samples_per_pixel <= 0 {
        return 0;
    }
    let n: u64 = samples_per_pixel as u64;
    let mut low: u64 = 0;
    let mut high: u64 = 46341;
    assert(n < 46341 * 46341);
    while high - low > 1
        invariant
            low < high <= 46341,
            low * low <= n,
            n < high * high,
        decreases high - low,
    {
        let mid = low + (high - low) / 2;
        assert(mid * mid <= 46341 * 46341) by (nonlinear_arith)
            requires
                mid <= 46341,
        ;
        if mid * mid <= n {
            low = mid;
        } else {
            high = mid;
        }
    }
    low as u32
}

/// The pixels of an image, numbered row by row from the top left.
#[derive(Clone, Copy, Debug, PartialEq, Eq, Structural)]
pub struct Frame {
    pub width: u32,
    pub height: u32,
}

impl Frame {
    /// The number of pixels.
    pub open spec fn spec_pixel_count(self) -> int {
        self.width * self.height
    }

    /// Whether the pixels can be numbered in 32 bits.
    pub open spec fn wf(self) -> bool {
        self.spec_pixel_count() <= u32::MAX
    }

    /// The number of the pixel in column `x` of row `y`.
    pub open spec fn spec_index(self, x: int, y: int) -> int {
        y * self.width + x
    }

    /// The column and row of pixel number `index`.
    pub open spec fn spec_coords(self, index: int) -> (int, int) {
        (index % self.width as int, index / self.width as int)
    }

    /// A frame of the given size, if its pixels can be numbered in 32 bits.
    pub fn new(width: u32, height: u32) -> (f: Option<Frame>)
        ensures
            f is Some <==> width * height <= u32::MAX,
            f is Some ==> f->0 == (Frame { width, height }),
    {
        assert(width * height <= 0xFFFF_FFFF * 0xFFFF_FFFF) by (nonlinear_arith)
            requires
                width <= 0xFFFF_FFFF,
                height <= 0xFFFF_FFFF,
        ;
        if (width as u64) * (height as u64) <= u32::MAX as u64 {
            Some(Frame { width, height })
        } else {
            None
        }
    }

    /// The number of pixels.
    pub fn pixel_count(&self) -> (n: u32)
        requires
            self.wf(),
        ensures
            n == self.spec_pixel_count(),
    {
        self.width * self.height
    }

    /// The column and row of pixel number `index`.
    pub fn coords(&self, index: u32) -> (c: (u32, u32))
        requires
            self.wf(),
            index < self.spec_pixel_count(),
        ensures
            (c.0 as int, c.1 as int) == self.spec_coords(index as int),
            c.0 < self.width,
            c.1 < self.height,
            self.spec_index(c.0 as int, c.1 as int) == index,
    {
        proof {
            lemma_frame_round_trip(*self, index as int);
        }
        (index % self.width, index / self.width)
    }

    /// The number of the pixel in column `x` of row `y`.
    pub fn index(&self, x: u32, y: u32) -> (i: u32)
        requires
            self.wf(),
            x < self.width,
            y < self.height,
        ensures
            i == self.spec_index(x as int, y as int),
            i < self.spec_pixel_count(),
            self.spec_coords(i as int) == (x as int, y as int),
    {
        proof {
            lemma_frame_index(*self, x as int, y as int);
        }
        y * self.width + x
    }
}

/// The number of a pixel of the frame is below the number of pixels, and
/// leads back to the pixel's column and row.
pub proof fn lemma_frame_index(f: Frame, x: int, y: int)
    requires
        0 <= x < f.width,
        0 <= y < f.height,
    ensures
        0 <= f.spec_index(x, y) < f.spec_pixel_count(),
        f.spec_coords(f.spec_index(x, y)) == (x, y),
{
    let w = f.width as int;
    assert(0 <= y * w && y * w + w <= f.height * w) by (nonlinear_arith)
        requires
            0 <= y < f.height,
            0 < w,
    ;
    assert(f.height * w == w * f.height) by (nonlinear_arith);
    vstd::arithmetic::div_mod::lemma_fundamental_div_mod_converse(y * w + x, w, y, x);
}

/// The column and row of a pixel number lie in the frame, and lead back to
/// the number.
pub proof fn lemma_frame_round_trip(f: Frame, index: int)
    requires
        0 <= index < f.spec_pixel_count(),
    ensures
        0 <= f.spec_coords(index).0 < f.width,
        0 <= f.spec_coords(index).1 < f.height,
        f.spec_index(f.spec_coords(index).0, f.spec_coords(index).1) == index,
{
    let w = f.width as int;
    assert(w > 0) by (nonlinear_arith)
        requires
            0 <= index < w * f.height,
            0 <= w,
    ;
    vstd::arithmetic::div_mod::lemma_fundamental_div_mod(index, w);
    vstd::arithmetic::div_mod::lemma_mod_bound(index, w);
    let q = index / w;
    assert(q < f.height) by (nonlinear_arith)
        requires
            index == w * q + index % w,
            0 <= index % w < w,
            index < w * f.height,
            0 < w,
    ;
    assert(0 <= q) by (nonlinear_arith)
        requires
            index == w * q + index % w,
            0 <= index % w < w,
            0 <= index,
            0 < w,
    ;
    assert(q * w == w * q) by (nonlinear_arith);
}

} // verus!
