use mdglimpse::platform::{
    desktop_entry, desktop_state, eq_ignore_ascii_case, open_command, registry_state, registry_text,
    Association,
    Error, EXTENSIONS,
};

#[test]
fn association_labels() {
    assert_eq!(Association::Registered.label(), "зарегистрирован");
    assert_eq!(Association::Stale.label(), "зарегистрирован на другой путь");
    assert_eq!(Association::Missing.label(), "не зарегистрирован");
    assert_eq!(Association::Unsupported.label(), "не поддерживается на этой системе");
    assert_eq!(
        Error::Unsupported.message(),
        "на этой системе ассоциация файлов не поддерживается"
    );
    assert_eq!(Error::Os("нет доступа".to_string()).message(), "нет доступа");
    assert_eq!(EXTENSIONS, ["md", "markdown"]);
}

#[test]
fn open_command_quotes_both_paths() {
    assert_eq!(
        open_command(r"C:\Program Files\MdGlimpse\mdglimpse.exe"),
        "\"C:\\Program Files\\MdGlimpse\\mdglimpse.exe\" \"%1\""
    );
}

#[test]
fn registry_state_is_judged_by_the_stored_command() {
    let exe = r"C:\Tools\mdglimpse.exe";
    let ours = open_command(exe);
    assert_eq!(registry_state(None, Some(exe)), Association::Missing);
    assert_eq!(registry_state(Some(&ours), Some(exe)), Association::Registered);
    let other_case = ours.replace("C:", "c:").replace("Tools", "TOOLS");
    assert_eq!(registry_state(Some(&other_case), Some(exe)), Association::Registered);
    assert_eq!(registry_state(Some("\"D:\\old.exe\" \"%1\""), Some(exe)), Association::Stale);
    assert_eq!(registry_state(Some(&ours), None), Association::Stale);
    assert!(eq_ignore_ascii_case("ABC", "abc"));
    assert!(!eq_ignore_ascii_case("Ё", "ё"));
    assert!(!eq_ignore_ascii_case("ab", "abc"));
}

#[test]
fn desktop_state_follows_the_exec_line() {
    let exe = "/opt/mdglimpse/mdglimpse";
    let entry = desktop_entry(exe);
    assert!(entry.contains("Exec=/opt/mdglimpse/mdglimpse %f\n"));
    assert!(entry.starts_with("[Desktop Entry]\n"));
    assert!(entry.ends_with("MimeType=text/markdown;\n"));
    assert_eq!(desktop_state(Some(&entry), Some(exe)), Association::Registered);
    assert_eq!(desktop_state(Some(&entry), Some("/usr/bin/other")), Association::Stale);
    assert_eq!(desktop_state(Some("[Desktop Entry]\r\nName=x\r\n"), Some(exe)), Association::Stale);
    assert_eq!(desktop_state(None, Some(exe)), Association::Missing);
    assert_eq!(desktop_state(Some(&entry), None), Association::Missing);
    assert_eq!(
        desktop_state(Some("Exec=/opt/mdglimpse/mdglimpse %f\r\n"), Some(exe)),
        Association::Registered
    );
}

#[test]
fn registry_text_stops_at_the_first_zero() {
    let buffer: Vec<u16> = "AB\u{0}C\u{0}".encode_utf16().collect();
    assert_eq!(registry_text(&buffer), "AB");
}

#[test]
fn registry_text_without_zero_takes_the_whole_buffer() {
    let buffer: Vec<u16> = "C:\\Программы\\md.exe".encode_utf16().collect();
    assert_eq!(registry_text(&buffer), "C:\\Программы\\md.exe");
    assert_eq!(registry_text(&[]), "");
    assert_eq!(registry_text(&[0, 0x41]), "");
}

#[test]
fn registry_text_replaces_a_lone_surrogate() {
    assert_eq!(registry_text(&[0x41, 0xD800, 0x42]), "A\u{FFFD}B");
}
