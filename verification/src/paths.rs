use vstd::prelude::*;
use vstd::string::*;

verus! {

/// The operating systems the launcher knows how to locate Chrome on.
#[derive(Clone, Copy, PartialEq, Eq, Structural, Debug)]
pub enum Platform {
    Windows,
    Linux,
}

/// The well-known user directory a relative path is resolved against.
#[derive(Clone, Copy, PartialEq, Eq, Structural, Debug)]
pub enum BaseDir {
    /// The platform's local application-data directory.
    LocalData,
    /// The user's home directory.
    Home,
}

/// Path (or bare command name) of the Chrome executable for the platform.
pub fn get_chrome_executable(p: Platform) -> (r: String)
    ensures
        p is Windows ==> r@ == "C:\\Program Files\\Google\\Chrome\\Application\\chrome.exe"@,
        p is Linux ==> r@ == "google-chrome"@,
{
    match p {
        Platform::Windows => String::from_str("C:\\Program Files\\Google\\Chrome\\Application\\chrome.exe"),
        Platform::Linux => String::from_str("google-chrome"),
    }
}

/// Where Chrome keeps its per-user configuration: a base directory plus a
/// relative path under it.
pub fn chrome_user_data_dir(p: Platform) -> (r: (BaseDir, String))
    ensures
        p is Windows ==> r.0 is LocalData && r.1@ == "Google/Chrome/User Data"@,
        p is Linux ==> r.0 is Home && r.1@ == ".config/google-chrome"@,
{
    match p {
        Platform::Windows => (BaseDir::LocalData, String::from_str("Google/Chrome/User Data")),
        Platform::Linux => (BaseDir::Home, String::from_str(".config/google-chrome")),
    }
}

/// Location of the tag-store file, relative to the user's home directory.
pub fn tags_file_rel() -> (r: String)
    ensures
        r@ == ".chrome-launcher/tags.json"@,
{
    String::from_str(".chrome-launcher/tags.json")
}

/// The argument handed to Chrome to select a profile by its folder name.
pub fn launch_argument(folder: &str) -> (r: String)
    ensures
        r@ == "--profile-directory="@ + folder@,
{
    let mut s = String::from_str("--profile-directory=");
    s.append(folder);
    s
}

} // verus!
