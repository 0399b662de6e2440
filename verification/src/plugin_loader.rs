//! What the host decides before it hands a buffer to a plugin: the file name
//! of the plugin library and where it lies, and whether the buffer and the
//! parameter text may be passed across the plugin's C interface.

use vstd::prelude::*;
use vstd::string::*;
use crate::raster::{expected_len, rgba_len};

verus! {

/// The kinds of target whose shared libraries are named differently.
#[derive(Debug, Clone, Copy, PartialEq, Eq, Structural)]
pub enum Platform {
    /// `mirror.dll`
    Windows,
    /// `libmirror.dylib`
    MacOs,
    /// Linux and every other target: `libmirror.so`
    Other,
}

/// The shared library file name of a plugin on a platform.
pub open spec fn library_file_name_of(plugin: Seq<char>, platform: Platform) -> Seq<char> {
    match platform {
        Platform::Windows => plugin + ".dll"@,
        Platform::MacOs => "lib"@ + plugin + ".dylib"@,
        Platform::Other => "lib"@ + plugin + ".so"@,
    }
}

/// Builds the platform-specific shared library file name from a bare plugin name.
///
/// Examples for `"mirror"`:
/// - Linux: `libmirror.so`
/// - macOS: `libmirror.dylib`
/// - Windows: `mirror.dll`
pub fn library_file_name(plugin: &str, platform: Platform) -> (r: String)
    ensures
        r@ == library_file_name_of(plugin@, platform),
{
    match platform {
        Platform::Windows => {
            let mut name = String::from_str(plugin);
            name.append(".dll");
            name
        },
        Platform::MacOs => {
            let mut name = String::from_str("lib");
            name.append(plugin);
            name.append(".dylib");
            name
        },
        Platform::Other => {
            let mut name = String::from_str("lib");
            name.append(plugin);
            name.append(".so");
            name
        },
    }
}

/// The path that `std::path::Path::join` makes of a directory and a file
/// name, as text, on the target this crate is built for.
pub uninterp spec fn joined_path(dir: Seq<char>, file: Seq<char>) -> Seq<char>;

/// Calls `std::path::Path::join` on `dir` and `file` and gives back the
/// joined path as text. The contract claims only that the result is the one
/// that [`joined_path`] names for these two texts: the separator and the
/// handling of absolute file names belong to the target and are not stated.
/// Joining two UTF-8 texts gives UTF-8, so the conversion back loses nothing.
#[verifier::external_body]
fn join_path(dir: &str, file: &str) -> (r: String)
    ensures
        r@ == joined_path(dir@, file@),
{
    std::path::Path::new(dir).join(file).to_string_lossy().into_owned()
}

/// Full path: `{plugin_dir}/{library_file_name}`.
pub fn resolve_plugin_path(plugin_dir: &str, plugin: &str, platform: Platform) -> (r: String)
    ensures
        r@ == joined_path(plugin_dir@, library_file_name_of(plugin@, platform)),
{
    let name = library_file_name(plugin, platform);
    join_path(plugin_dir, name.as_str())
}

/// Why a buffer or a parameter text may not be handed to a plugin.
#[derive(Debug, Clone, Copy, PartialEq, Eq, Structural)]
pub enum PluginCallError {
    /// The buffer is not `width` × `height` RGBA pixels long, or that length
    /// does not fit in `usize`.
    InvalidBuffer { width: u32, height: u32 },
    /// The parameter text holds a NUL character, so it cannot be passed as a
    /// C string.
    ParamsNul,
}

/// The outcome of the checks before a plugin call: the buffer length first,
/// then the parameter text.
pub open spec fn plugin_call_check(width: u32, height: u32, buffer_len: int, params: Seq<char>) -> Result<(), PluginCallError> {
    if buffer_len != rgba_len(width as int, height as int) {
        Err(PluginCallError::InvalidBuffer { width, height })
    } else if params.contains('\0') {
        Err(PluginCallError::ParamsNul)
    } else {
        Ok(())
    }
}

/// Checks that a buffer of `buffer_len` bytes holds exactly `width` ×
/// `height` RGBA pixels, and that the parameter text can become a C string.
pub fn validate_plugin_call(width: u32, height: u32, buffer_len: usize, params: &str) -> (r: Result<(), PluginCallError>)
    ensures
        r == plugin_call_check(width, height, buffer_len as int, params@),
        r is Ok ==> buffer_len == width * height * 4 && !params@.contains('\0'),
        buffer_len != width * height * 4 ==> r == Err::<(), PluginCallError>(
            PluginCallError::InvalidBuffer { width, height },
        ),
        buffer_len == width * height * 4 && params@.contains('\0') ==> r == Err::<
            (),
            PluginCallError,
        >(PluginCallError::ParamsNul),
{
    match expected_len(width, height) {
        Some(n) => {
            if buffer_len != n {
                return Err(PluginCallError::InvalidBuffer { width, height });
            }
        },
        None => {
            return Err(PluginCallError::InvalidBuffer { width, height });
        },
    }
    let len = params.unicode_len();
    let mut i: usize = 0;
    while i < len
        invariant
            len == params@.len(),
            buffer_len == rgba_len(width as int, height as int),
            i <= len,
            forall|j: int| 0 <= j < i ==> params@[j] != '\0',
        decreases len - i,
    {
        if params.get_char(i) == '\0' {
            assert(params@.contains('\0')) by {
                assert(params@[i as int] == '\0');
            }
            return Err(PluginCallError::ParamsNul);
        }
        i = i + 1;
    }
    Ok(())
}


/// The checks pass exactly when the buffer is `width` × `height` × 4 bytes
/// long and the text holds no NUL; a buffer of any other length, longer ones
/// included, is refused as invalid before the text is looked at.
pub proof fn lemma_plugin_call_check(width: u32, height: u32, buffer_len: int, params: Seq<char>)
    ensures
        plugin_call_check(width, height, buffer_len, params) is Ok <==> (buffer_len == width * height
            * 4 && !params.contains('\0')),
        buffer_len != width * height * 4 ==> plugin_call_check(width, height, buffer_len, params)
            == Err::<(), PluginCallError>(PluginCallError::InvalidBuffer { width, height }),
        buffer_len == width * height * 4 && params.contains('\0') ==> plugin_call_check(
            width,
            height,
            buffer_len,
            params,
        ) == Err::<(), PluginCallError>(PluginCallError::ParamsNul),
{
}

} // verus!
