//! Verified core of an image processor whose processing steps are plugins:
//! the `key=value` parameter format shared by the plugins, the box blur and
//! mirror filters over RGBA buffers, and the host's checks before it hands a
//! buffer to a plugin.

pub mod params;
pub mod raster;
pub mod blur;
pub mod mirror;
pub mod plugin_loader;

use vstd::prelude::*;

verus! {

} // verus!
