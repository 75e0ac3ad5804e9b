use snafu::shims::Shim;
use snafu::tags::Tag;

fn tag(major: Option<u16>, minor: Option<u16>, arch: Option<u16>) -> Tag {
    Tag { major, minor, arch }
}

#[test]
fn shim_name_and_tag() {
    let shim = Shim::from_name("python3.5-32");
    assert_eq!(shim.name(), "python");
    assert_eq!(*shim.tag(), tag(Some(3), Some(5), Some(32)));
}

#[test]
fn shim_eats_separator() {
    let shim = Shim::from_name("easy_install-3.6");
    assert_eq!(shim.name(), "easy_install");
    assert_eq!(*shim.tag(), tag(Some(3), Some(6), None));
}

#[test]
fn shim_without_version() {
    let shim = Shim::from_name("pip");
    assert_eq!(shim.name(), "pip");
    assert!(shim.tag().is_wildcard());
    assert_eq!(shim.to_string(), "pip");
}

#[test]
fn shim_non_ascii_name() {
    let shim = Shim::from_name("pythön3");
    assert_eq!(shim.name(), "pythön");
    assert_eq!(*shim.tag(), tag(Some(3), None, None));
}

#[test]
fn shim_to_string_with_tag() {
    assert_eq!(Shim::from_name("pip-3.6-32").to_string(), "pip 3.6-32");
    assert_eq!(Shim::from_name("python3").to_string(), "python 3");
}

#[test]
fn shim_from_exe_file() {
    let shim = Shim::from_file_name("python3.6.exe");
    assert_eq!(shim.name(), "python");
    assert_eq!(*shim.tag(), tag(Some(3), Some(6), None));
    let shim = Shim::from_file_name("pip-3.5-32.exe");
    assert_eq!(shim.name(), "pip");
    assert_eq!(*shim.tag(), tag(Some(3), Some(5), Some(32)));
}

#[test]
fn shim_from_file_without_exe() {
    let shim = Shim::from_file_name("python3.6");
    assert_eq!(shim.name(), "python");
    assert_eq!(*shim.tag(), tag(Some(3), Some(6), None));
    let shim = Shim::from_file_name(".exe");
    assert_eq!(shim.name(), ".exe");
    let shim = Shim::from_file_name("python.EXE");
    assert_eq!(shim.name(), "python.EXE");
}

#[test]
fn shim_dash_major() {
    let shim = Shim::from_name("pip-3");
    assert_eq!(shim.name(), "pip");
    assert_eq!(*shim.tag(), tag(Some(3), None, None));
}
