use image_processor::plugin_loader::{
    library_file_name, resolve_plugin_path, validate_plugin_call, Platform, PluginCallError,
};

#[test]
fn library_file_names_per_platform() {
    assert_eq!(library_file_name("mirror", Platform::Other), "libmirror.so");
    assert_eq!(library_file_name("mirror", Platform::MacOs), "libmirror.dylib");
    assert_eq!(library_file_name("mirror", Platform::Windows), "mirror.dll");
    assert_eq!(library_file_name("", Platform::Other), "lib.so");
}

#[test]
fn resolve_joins_directory_and_file_name() {
    let expected = std::path::Path::new("target/debug").join("libblur.so");
    assert_eq!(
        resolve_plugin_path("target/debug", "blur", Platform::Other),
        expected.to_string_lossy()
    );
    assert_ne!(resolve_plugin_path("plugins", "blur", Platform::Other), "libblur.so");
    assert!(resolve_plugin_path("plugins", "blur", Platform::Other).starts_with("plugins"));
}

#[test]
fn validate_accepts_matching_buffer() {
    assert_eq!(validate_plugin_call(2, 3, 24, "radius=1"), Ok(()));
    assert_eq!(validate_plugin_call(0, 0, 0, ""), Ok(()));
}

#[test]
fn validate_rejects_wrong_length() {
    assert_eq!(
        validate_plugin_call(2, 3, 23, "radius=1"),
        Err(PluginCallError::InvalidBuffer { width: 2, height: 3 })
    );
    assert_eq!(
        validate_plugin_call(u32::MAX, u32::MAX, 0, ""),
        Err(PluginCallError::InvalidBuffer { width: u32::MAX, height: u32::MAX })
    );
    // the length is checked before the parameter text
    assert_eq!(
        validate_plugin_call(1, 1, 3, "a\0b"),
        Err(PluginCallError::InvalidBuffer { width: 1, height: 1 })
    );
}

#[test]
fn validate_rejects_nul_in_params() {
    assert_eq!(validate_plugin_call(1, 1, 4, "radius=1\0"), Err(PluginCallError::ParamsNul));
}
