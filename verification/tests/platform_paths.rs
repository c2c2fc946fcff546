use chrome_launcher::error::ParseError;
use chrome_launcher::paths::{
    chrome_user_data_dir, get_chrome_executable, launch_argument, tags_file_rel, BaseDir, Platform,
};

#[test]
fn launch_argument_inserts_folder_verbatim() {
    assert_eq!(launch_argument("Profile 2"), "--profile-directory=Profile 2");
}

#[test]
fn launch_argument_of_empty_folder() {
    assert_eq!(launch_argument(""), "--profile-directory=");
}

#[test]
fn executable_per_platform() {
    assert_eq!(get_chrome_executable(Platform::Linux), "google-chrome");
    assert_eq!(
        get_chrome_executable(Platform::Windows),
        "C:\\Program Files\\Google\\Chrome\\Application\\chrome.exe"
    );
}

#[test]
fn user_data_dir_per_platform() {
    let (base, rel) = chrome_user_data_dir(Platform::Linux);
    assert_eq!(base, BaseDir::Home);
    assert_eq!(rel, ".config/google-chrome");
    let (base, rel) = chrome_user_data_dir(Platform::Windows);
    assert_eq!(base, BaseDir::LocalData);
    assert_eq!(rel, "Google/Chrome/User Data");
}

#[test]
fn tag_store_location_is_fixed() {
    assert_eq!(tags_file_rel(), ".chrome-launcher/tags.json");
}

#[test]
fn parse_error_message() {
    assert_eq!(ParseError.message(), "malformed JSON");
}
