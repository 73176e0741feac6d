//! Surface materials: colour, blending weights, highlight sharpness and
//! refractive index.
use vstd::prelude::*;

verus! {

/// An 8-bit RGB colour.
#[derive(Debug, Clone, Copy, PartialEq, Eq, Structural)]
pub struct Color {
    pub r: u8,
    pub g: u8,
    pub b: u8,
}

impl Color {
    pub fn new(r: u8, g: u8, b: u8) -> (c: Color)
        ensures
            c == (Color { r, g, b }),
    {
        Color { r, g, b }
    }
}

/// The fixed-point weights of the diffuse, specular, reflected and refracted
/// contributions to a surface's colour; they need not sum to one.
#[derive(Debug, Clone, Copy, PartialEq, Eq, Structural)]
pub struct Albedo {
    pub diffuse: i64,
    pub specular: i64,
    pub reflection: i64,
    pub refraction: i64,
}

impl Albedo {
    pub fn new(diffuse: i64, specular: i64, reflection: i64, refraction: i64) -> (a: Albedo)
        ensures
            a == (Albedo { diffuse, specular, reflection, refraction }),
    {
        Albedo { diffuse, specular, reflection, refraction }
    }
}

/// Largest magnitude of an albedo weight (fixed-point).
pub const ALBEDO_LIMIT: i64 = 4294967296;

/// Smallest accepted refractive index (fixed-point, 1/256).
pub const REFRACTIVE_MIN: i64 = 256;

/// Largest accepted refractive index (fixed-point, 256).
pub const REFRACTIVE_MAX: i64 = 16777216;

/// Reflectance and transmission parameters of a surface.
#[derive(Debug, Clone, Copy, PartialEq, Eq, Structural)]
pub struct Material {
    pub diffuse_color: Color,
    pub albedo: Albedo,
    pub specular_exponent: u32,
    pub refractive_index: i64,
}

impl Material {
    /// The material's parameters lie in the ranges the tracer computes with.
    pub open spec fn wf(&self) -> bool {
        &&& -ALBEDO_LIMIT <= self.albedo.diffuse <= ALBEDO_LIMIT
        &&& -ALBEDO_LIMIT <= self.albedo.specular <= ALBEDO_LIMIT
        &&& -ALBEDO_LIMIT <= self.albedo.reflection <= ALBEDO_LIMIT
        &&& -ALBEDO_LIMIT <= self.albedo.refraction <= ALBEDO_LIMIT
        &&& REFRACTIVE_MIN <= self.refractive_index <= REFRACTIVE_MAX
    }

    /// Whether the parameters lie in the accepted ranges.
    pub fn is_valid(&self) -> (r: bool)
        ensures
            r == self.wf(),
    {
        let a = self.albedo;
        -ALBEDO_LIMIT <= a.diffuse && a.diffuse <= ALBEDO_LIMIT && -ALBEDO_LIMIT <= a.specular
            && a.specular <= ALBEDO_LIMIT && -ALBEDO_LIMIT <= a.reflection && a.reflection
            <= ALBEDO_LIMIT && -ALBEDO_LIMIT <= a.refraction && a.refraction <= ALBEDO_LIMIT
            && REFRACTIVE_MIN <= self.refractive_index && self.refractive_index <= REFRACTIVE_MAX
    }

    pub fn new(
        diffuse_color: Color,
        albedo: Albedo,
        specular_exponent: u32,
        refractive_index: i64,
    ) -> (m: Material)
        ensures
            m == (Material { diffuse_color, albedo, specular_exponent, refractive_index }),
    {
        Material { diffuse_color, albedo, specular_exponent, refractive_index }
    }

    /// Matte off-white with a soft highlight.
    pub fn ivory() -> (m: Material)
        ensures
            m.wf(),
            m == (Material {
                diffuse_color: Color { r: 100, g: 100, b: 75 },
                albedo: Albedo { diffuse: 39322, specular: 19661, reflection: 6554, refraction: 0 },
                specular_exponent: 50,
                refractive_index: 65536,
            }),
    {
        Material {
            diffuse_color: Color { r: 100, g: 100, b: 75 },
            albedo: Albedo { diffuse: 39322, specular: 19661, reflection: 6554, refraction: 0 },
            specular_exponent: 50,
            refractive_index: 65536,
        }
    }

    /// Dull red.
    pub fn red_rubber() -> (m: Material)
        ensures
            m.wf(),
            m == (Material {
                diffuse_color: Color { r: 75, g: 26, b: 26 },
                albedo: Albedo { diffuse: 58982, specular: 6554, reflection: 0, refraction: 0 },
                specular_exponent: 10,
                refractive_index: 65536,
            }),
    {
        Material {
            diffuse_color: Color { r: 75, g: 26, b: 26 },
            albedo: Albedo { diffuse: 58982, specular: 6554, reflection: 0, refraction: 0 },
            specular_exponent: 10,
            refractive_index: 65536,
        }
    }

    /// Dull near-black.
    pub fn black_rubber() -> (m: Material)
        ensures
            m.wf(),
            m == (Material {
                diffuse_color: Color { r: 10, g: 10, b: 10 },
                albedo: Albedo { diffuse: 6554, specular: 6554, reflection: 0, refraction: 0 },
                specular_exponent: 10,
                refractive_index: 65536,
            }),
    {
        Material {
            diffuse_color: Color { r: 10, g: 10, b: 10 },
            albedo: Albedo { diffuse: 6554, specular: 6554, reflection: 0, refraction: 0 },
            specular_exponent: 10,
            refractive_index: 65536,
        }
    }

    /// A mirror: mostly reflection, with a very sharp highlight.
    pub fn mirror() -> (m: Material)
        ensures
            m.wf(),
            m == (Material {
                diffuse_color: Color { r: 255, g: 255, b: 255 },
                albedo: Albedo { diffuse: 0, specular: 655360, reflection: 52429, refraction: 0 },
                specular_exponent: 1425,
                refractive_index: 65536,
            }),
    {
        Material {
            diffuse_color: Color { r: 255, g: 255, b: 255 },
            albedo: Albedo { diffuse: 0, specular: 655360, reflection: 52429, refraction: 0 },
            specular_exponent: 1425,
            refractive_index: 65536,
        }
    }

    /// Glass: mostly refraction, index 1.5.
    pub fn glass() -> (m: Material)
        ensures
            m.wf(),
            m == (Material {
                diffuse_color: Color { r: 153, g: 179, b: 204 },
                albedo: Albedo { diffuse: 0, specular: 32768, reflection: 6554, refraction: 52429 },
                specular_exponent: 125,
                refractive_index: 98304,
            }),
    {
        Material {
            diffuse_color: Color { r: 153, g: 179, b: 204 },
            albedo: Albedo { diffuse: 0, specular: 32768, reflection: 6554, refraction: 52429 },
            specular_exponent: 125,
            refractive_index: 98304,
        }
    }
}

} // verus!
