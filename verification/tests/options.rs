use shapebit::options::parse_options;

fn arguments(words: &[&str]) -> Vec<Vec<u8>> {
    words.iter().map(|word| word.as_bytes().to_vec()).collect()
}

#[test]
fn parses_socket_and_child_command() {
    let options = parse_options(&arguments(&[
        "--socket",
        "wayland-shapebit-test",
        "--",
        "demo",
        "--flag",
    ]))
    .unwrap();

    assert_eq!(options.socket.as_deref(), Some("wayland-shapebit-test"));
    assert_eq!(options.command, [b"demo".to_vec(), b"--flag".to_vec()]);
}

#[test]
fn rejects_unsafe_socket_names() {
    assert!(parse_options(&arguments(&["--socket", "../socket"])).is_err());
}

#[test]
fn parses_development_shell_command() {
    let options = parse_options(&arguments(&["--shell", "shell", "--demo"])).unwrap();

    assert_eq!(options.shell_command, [b"shell".to_vec(), b"--demo".to_vec()]);
    assert!(options.command.is_empty());
}

#[test]
fn reports_each_malformed_command_line() {
    assert_eq!(
        parse_options(&arguments(&["--shell"])),
        Err("--shell requires a program".to_string())
    );
    assert_eq!(
        parse_options(&arguments(&["--socket"])),
        Err("--socket requires a name".to_string())
    );
    assert_eq!(
        parse_options(&arguments(&["--socket", ""])),
        Err("socket name must be non-empty and must not contain '/'".to_string())
    );
    assert_eq!(
        parse_options(&[b"--socket".to_vec(), vec![0xff, 0x41]]),
        Err("socket name must be UTF-8".to_string())
    );
    assert_eq!(
        parse_options(&arguments(&["--verbose"])),
        Err("unknown argument: --verbose".to_string())
    );
    assert_eq!(
        parse_options(&[vec![b'x', 0xff]]),
        Err("unknown argument: x\u{fffd}".to_string())
    );
}

#[test]
fn help_stops_reading_and_the_last_socket_wins() {
    let options = parse_options(&arguments(&["--socket", "a", "-h", "--bogus"])).unwrap();
    assert!(options.help);
    assert_eq!(options.socket.as_deref(), Some("a"));

    let options = parse_options(&arguments(&["--socket", "a", "--socket", "b"])).unwrap();
    assert!(!options.help);
    assert_eq!(options.socket.as_deref(), Some("b"));
    assert!(options.command.is_empty() && options.shell_command.is_empty());

    let options = parse_options(&arguments(&[])).unwrap();
    assert_eq!(options.socket, None);
}
