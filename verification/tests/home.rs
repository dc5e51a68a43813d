//! Where files are kept.

use rodent_logger::home::{home_for_user, rodent_logger_dir, split_lines, split_text};

const PASSWD: &str = "root:x:0:0:root:/root:/bin/bash\n\
short:x:1:1\n\
bob:x:1000:1000::/home/bobby:/bin/sh\r\n\
eve:x:1001:1001:Eve:/srv/eve\n\
bob:x:1002:1002::/home/other:/bin/sh";

#[test]
fn text_is_split_as_std_splits_it() {
    for s in ["", ":", "a", "a:b", "::x::", "é:🐉:"] {
        let expected: Vec<&str> = s.split(':').collect();
        assert_eq!(split_text(s, ':'), expected);
    }
    for s in ["", "\n", "a", "a\n", "a\r\nb\r", "\r\n\r\n", "a\n\nb", "\r"] {
        let expected: Vec<&str> = s.lines().collect();
        assert_eq!(split_lines(s), expected);
    }
}

#[test]
fn the_first_entry_of_a_user_gives_the_home() {
    assert_eq!(home_for_user(PASSWD, "root"), Some("/root".to_string()));
    assert_eq!(home_for_user(PASSWD, "bob"), Some("/home/bobby".to_string()));
    assert_eq!(home_for_user(PASSWD, "eve"), Some("/srv/eve".to_string()));
    assert_eq!(home_for_user(PASSWD, "short"), None);
    assert_eq!(home_for_user(PASSWD, "nobody"), None);
    assert_eq!(home_for_user("", "root"), None);
}

#[test]
fn files_are_kept_below_the_callers_home() {
    let dir = |home: &str| {
        vec![home.to_string(), "Documents".to_string(), "rodent_logger".to_string(), "pcap".to_string()]
    };
    assert_eq!(rodent_logger_dir(None, None, Some("/home/al"), "pcap"), dir("/home/al"));
    assert_eq!(rodent_logger_dir(None, Some(PASSWD), None, "pcap"), dir("."));
    assert_eq!(
        rodent_logger_dir(Some("bob"), Some(PASSWD), Some("/root"), "pcap"),
        dir("/home/bobby")
    );
    assert_eq!(
        rodent_logger_dir(Some("zoe"), Some(PASSWD), Some("/root"), "pcap"),
        dir("/root")
    );
    assert_eq!(rodent_logger_dir(Some("zoe"), None, Some("/root"), "pcap"), dir("/root"));
    assert_eq!(rodent_logger_dir(Some("zoe"), Some(PASSWD), None, "pcap"), dir("/home/zoe"));
}
