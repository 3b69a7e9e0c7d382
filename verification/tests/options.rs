use mosh_rs::options::{chosen_command, chosen_ip, parse_args, ssh_ip, white_space, Options};

fn options(args: &[&str]) -> Options {
    let mut all = vec!["mosh-server".to_string()];
    all.extend(args.iter().map(|a| a.to_string()));
    parse_args(&all)
}

#[test]
fn no_arguments() {
    for o in [parse_args(&vec![]), options(&[]), options(&["new"])] {
        assert!(o.desired_ip.is_none());
        assert!(o.desired_port.is_none());
        assert_eq!(o.colors, 0);
        assert!(!o.verbose);
        assert!(!o.use_ssh_ip);
        assert!(o.command.is_none());
    }
}

#[test]
fn all_arguments() {
    let o = options(&[
        "new", "-s", "-v", "-c", "256", "-i", "1.2.3.4", "-p", "60000:60010", "-l", "LANG=C", "--",
        "top", "-d",
    ]);
    assert_eq!(o.desired_ip.as_deref(), Some("1.2.3.4"));
    assert_eq!(o.desired_port.as_deref(), Some("60000:60010"));
    assert_eq!(o.colors, 256);
    assert!(o.verbose);
    assert!(o.use_ssh_ip);
    assert_eq!(o.command.unwrap(), ["top", "-d"]);
}

#[test]
fn later_arguments_take_the_place_of_earlier_ones() {
    let o = options(&["-i", "a", "-i", "b", "-c", "8", "-c", "many"]);
    assert_eq!(o.desired_ip.as_deref(), Some("b"));
    assert_eq!(o.colors, 0);
}

#[test]
fn values_are_taken_as_they_are() {
    let o = options(&["-i", "-p", "-p", "--", "-c"]);
    assert_eq!(o.desired_ip.as_deref(), Some("-p"));
    assert_eq!(o.desired_port.as_deref(), Some("--"));
    assert!(o.command.is_none());
    let o = options(&["-v", "new", "-i"]);
    assert!(o.verbose);
    assert!(o.desired_ip.is_none());
    let o = options(&["new", "new", "-v"]);
    assert!(o.verbose);
}

#[test]
fn command_may_be_missing() {
    assert!(options(&["--"]).command.is_none());
    assert_eq!(options(&["--", "--", "-v"]).command.unwrap(), ["--", "-v"]);
    assert!(!options(&["--", "-v"]).verbose);
}

#[test]
fn address_of_the_ssh_connection() {
    let ip = |s: &str| ssh_ip(Some(s));
    assert_eq!(ip("10.0.0.1 5000 10.0.0.2 22").as_deref(), Some("10.0.0.2"));
    assert_eq!(ip("::1 5000 ::ffff:10.0.0.2 22").as_deref(), Some("10.0.0.2"));
    assert_eq!(ip("\t a\u{2003}b \n c ").as_deref(), Some("c"));
    assert_eq!(ip("a b ::ffff:").as_deref(), Some(""));
    assert_eq!(ip("a b ::fff:1").as_deref(), Some("::fff:1"));
    assert_eq!(ip("a b"), None);
    assert_eq!(ip(""), None);
    assert_eq!(ssh_ip(None), None);
    let texts = ["", " ", "a", " a  b ", "a b c", " a b c d", "x\u{3000}y\u{85}z"];
    for text in texts {
        let third: Option<String> = text.split_whitespace().nth(2).map(|s| s.to_string());
        assert_eq!(ip(text), third);
    }
}

#[test]
fn white_space_is_that_of_std() {
    for n in 0..=0x10ffffu32 {
        if let Some(c) = char::from_u32(n) {
            assert_eq!(white_space(c), c.is_whitespace(), "{:x}", n);
        }
    }
}

#[test]
fn address_that_is_chosen() {
    let o = options(&["-i", "1.1.1.1"]);
    assert_eq!(chosen_ip(&o, Some("a b c")).as_deref(), Some("1.1.1.1"));
    let o = options(&["-i", "1.1.1.1", "-s"]);
    assert_eq!(chosen_ip(&o, Some("a b c")).as_deref(), Some("c"));
    assert_eq!(chosen_ip(&o, None), None);
    assert_eq!(chosen_ip(&options(&[]), Some("a b c")), None);
}

#[test]
fn command_that_is_chosen() {
    let (command, greet) = chosen_command(&options(&["--", "top", "-b"]), Some("/bin/zsh"));
    assert_eq!(command, ["top", "-b"]);
    assert!(!greet);
    let (command, greet) = chosen_command(&options(&[]), Some("/usr/bin/zsh"));
    assert_eq!(command, ["/usr/bin/zsh", "-zsh"]);
    assert!(greet);
    assert_eq!(chosen_command(&options(&[]), None).0, ["/bin/sh", "-sh"]);
    assert_eq!(chosen_command(&options(&[]), Some("fish")).0, ["fish", "-fish"]);
    assert_eq!(chosen_command(&options(&[]), Some("/bin/")).0, ["/bin/", "-"]);
    assert_eq!(chosen_command(&options(&[]), Some("")).0, ["", "-"]);
}
