use hash_ring::{read_line, Command};

#[test]
fn parses_an_add_command() {
    let parsed = read_line(&"add server1.com".to_string()).unwrap();
    assert_eq!(parsed.0, Command::Add);
    assert_eq!(parsed.1, "server1.com");
}

#[test]
fn parses_a_remove_command() {
    let parsed = read_line(&"remove server1.com".to_string()).unwrap();
    assert_eq!(parsed.0, Command::Remove);
    assert_eq!(parsed.1, "server1.com");
}

#[test]
fn hostname_stops_at_the_next_space() {
    let parsed = read_line(&"add server1.com trailing words".to_string()).unwrap();
    assert_eq!(parsed.0, Command::Add);
    assert_eq!(parsed.1, "server1.com");
}

#[test]
fn line_without_a_space_is_malformed() {
    assert!(read_line(&"add".to_string()).is_err());
    assert!(read_line(&"".to_string()).is_err());
}

#[test]
fn unknown_command_is_malformed() {
    assert!(read_line(&"drop server1.com".to_string()).is_err());
    assert!(read_line(&"ADD server1.com".to_string()).is_err());
}

#[test]
fn empty_hostname_is_malformed() {
    assert!(read_line(&"add ".to_string()).is_err());
    assert!(read_line(&"remove ".to_string()).is_err());
    assert!(read_line(&"add  x".to_string()).is_err());
}

#[test]
fn commands_drive_the_ring() {
    let mut ring = hash_ring::HashRing::new(4096, 8);
    for line in ["add a.example", "add b.example", "nonsense", "remove a.example"] {
        if let Ok((command, hostname)) = read_line(&line.to_string()) {
            match command {
                Command::Add => ring.insert_server(&hostname),
                Command::Remove => ring.remove_hostname(&hostname),
            }
        }
    }
    assert!(!ring.has_hostname("a.example"));
    assert!(ring.has_hostname("b.example"));
}
