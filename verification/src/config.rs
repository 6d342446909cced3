//! Paths of the app's configuration files: everything lives in one
//! subdirectory of the platform's configuration directory.

use vstd::prelude::*;
use vstd::string::StringExecFns;

verus! {

/// The app's subdirectory under the platform configuration directory.
pub const APP_DIR_NAME: &'static str = "ladder-legends-uploader";

/// Relies on `dirs::config_dir`: the platform's configuration directory,
/// where one exists and its path is well-formed text.
#[verifier::external_body]
fn config_base_dir() -> Option<String> {
    dirs::config_dir().and_then(|p| p.to_str().map(|s| s.to_string()))
}

/// The full path of a file in the app's configuration directory, or an error
/// where the platform offers no configuration directory.
pub fn config_file_path(filename: &str) -> (r: Result<String, String>)
    ensures
        r matches Ok(p) ==> exists|base: Seq<char>|
            #[trigger] p@ == base + "/"@ + APP_DIR_NAME@ + "/"@ + filename@,
{
    match config_base_dir() {
        None => Err(String::from_str("Could not find config directory")),
        Some(base) => {
            let mut p = base;
            let ghost b0 = p@;
            p.append("/");
            p.append(APP_DIR_NAME);
            p.append("/");
            p.append(filename);
            proof {
                assert(p@ == b0 + "/"@ + APP_DIR_NAME@ + "/"@ + filename@);
            }
            Ok(p)
        },
    }
}

} // verus!
