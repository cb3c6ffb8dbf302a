//! What a render is set up with before the first ray is cast: the size of
//! the image, the number of samples for each pixel, the depth to which a
//! ray is followed, and the number of workers that share the image.

use vstd::prelude::*;
use crate::raster::Raster;
use crate::tiling::{split, tiling, Tile};

verus! {

/// Why a render cannot be set up.
#[derive(Clone, Copy, Debug, PartialEq, Eq, Structural)]
pub enum ConfigError {
    /// No sample was asked for, so a pixel would have no mean.
    NoSamples,
}

/// The settings of a render, checked once and fixed from then on.
#[derive(Clone, Copy, Debug)]
pub struct RenderPlan {
    raster: Raster,
    samples_per_pixel: u32,
    max_depth: u32,
    workers: usize,
}

impl RenderPlan {
    #[verifier::type_invariant]
    spec fn has_samples(self) -> bool {
        self.samples_per_pixel >= 1
    }

    /// The size of the image.
    pub closed spec fn spec_raster(&self) -> Raster {
        self.raster
    }

    /// How many samples are averaged for a pixel.
    pub closed spec fn spec_samples_per_pixel(&self) -> u32 {
        self.samples_per_pixel
    }

    /// How many bounces a ray is followed for.
    pub closed spec fn spec_max_depth(&self) -> u32 {
        self.max_depth
    }

    /// How many workers share the image.
    pub closed spec fn spec_workers(&self) -> usize {
        self.workers
    }

    /// Sets a render up. The image gets `image_width` columns and
    /// `image_height` rows, one row if `image_height` is zero. A sample count
    /// of zero is refused; every other setting is taken as it is.
    pub fn new(
        image_width: u32,
        image_height: u32,
        samples_per_pixel: u32,
        max_depth: u32,
        workers: usize,
    ) -> (plan: Result<RenderPlan, ConfigError>)
        ensures
            plan.is_err() <==> samples_per_pixel == 0,
            plan matches Err(e) ==> e == ConfigError::NoSamples,
            plan matches Ok(p) ==> {
                &&& p.spec_raster().spec_width() == image_width
                &&& p.spec_raster().spec_height() == if image_height == 0 {
                    1u32
                } else {
                    image_height
                }
                &&& p.spec_samples_per_pixel() == samples_per_pixel
                &&& p.spec_max_depth() == max_depth
                &&& p.spec_workers() == workers
            },
    {
        if samples_per_pixel == 0 {
            return Err(ConfigError::NoSamples);
        }
        Ok(
            RenderPlan {
                raster: Raster::new(image_width, image_height),
                samples_per_pixel,
                max_depth,
                workers,
            },
        )
    }

    /// The size of the image.
    #[verifier::when_used_as_spec(spec_raster)]
    pub fn raster(&self) -> (r: Raster)
        ensures
            r == self.spec_raster(),
    {
        self.raster
    }

    /// How many samples are averaged for a pixel: at least one.
    #[verifier::when_used_as_spec(spec_samples_per_pixel)]
    pub fn samples_per_pixel(&self) -> (n: u32)
        ensures
            n == self.spec_samples_per_pixel(),
            n >= 1,
    {
        proof {
            use_type_invariant(self);
        }
        self.samples_per_pixel
    }

    /// How many bounces a ray is followed for.
    #[verifier::when_used_as_spec(spec_max_depth)]
    pub fn max_depth(&self) -> (n: u32)
        ensures
            n == self.spec_max_depth(),
    {
        self.max_depth
    }

    /// How many workers share the image.
    #[verifier::when_used_as_spec(spec_workers)]
    pub fn workers(&self) -> (n: usize)
        ensures
            n == self.spec_workers(),
    {
        self.workers
    }

    /// The tiles of the image, one for each worker.
    pub fn tiles(&self) -> (tiles: Vec<Tile>)
        ensures
            tiles@ == tiling(self.spec_raster().spec_pixel_count(), self.spec_workers() as nat),
    {
        split(self.raster.pixel_count(), self.workers)
    }
}

} // verus!
