use c2rust_analyze::def_id::DefId;
use c2rust_analyze::fixed_defs::{check_def_id, parse_def_id, read_def_id, read_fixed_defs_list};

/// A compiler in which every definition has the path `krate::name` plus its position.
fn render(d: DefId) -> String {
    format!("DefId({}:{} ~ krate::name{})", d.krate, d.index, d.index)
}

fn id(krate: u32, index: u32) -> DefId {
    DefId { krate, index }
}

fn lines(text: &[&str]) -> Vec<String> {
    text.iter().map(|l| l.to_string()).collect()
}

#[test]
fn printed_definition_is_read_back() {
    let text = "DefId(0:1 ~ alias1[0dc4]::{use#0})";
    assert_eq!(read_def_id(text), Ok(id(0, 1)));
    assert_eq!(check_def_id(text, id(0, 1), text), Ok(id(0, 1)));
    assert_eq!(parse_def_id("DefId(3:4 ~ krate::name4)", &render), Ok(id(3, 4)));
}

#[test]
fn path_may_be_missing() {
    assert_eq!(read_def_id("DefId(0:17)"), Ok(id(0, 17)));
    assert_eq!(parse_def_id("DefId(0:17)", &|_| "DefId(0:17)".to_string()), Ok(id(0, 17)));
}

#[test]
fn largest_numbers_are_read() {
    assert_eq!(read_def_id("DefId(4294967295:4294967295)"), Ok(id(u32::MAX, u32::MAX)));
    assert_eq!(
        read_def_id("DefId(4294967296:0)"),
        Err("failed to parse CrateNum".to_string())
    );
}

#[test]
fn plus_sign_is_read() {
    assert_eq!(read_def_id("DefId(+1:+2)"), Ok(id(1, 2)));
    assert_eq!(read_def_id("DefId(+:2)"), Err("failed to parse CrateNum".to_string()));
}

#[test]
fn malformed_definitions_are_refused() {
    let cases = [
        ("", "does not start with `DefId(`"),
        ("defid(0:1)", "does not start with `DefId(`"),
        ("DefId(", "does not end with `)`"),
        ("DefId(0:1", "does not end with `)`"),
        ("DefId(01)", "does not contain `:` in `CrateNum:DefIndex` part"),
        ("DefId(0 ~ a:1)", "does not contain `:` in `CrateNum:DefIndex` part"),
        ("DefId(:1)", "failed to parse CrateNum"),
        ("DefId(x:1)", "failed to parse CrateNum"),
        ("DefId(0:)", "failed to parse DefIndex"),
        ("DefId(0:1:2)", "failed to parse DefIndex"),
        ("DefId(0:-1)", "failed to parse DefIndex"),
        ("DefId(0:1 ~)", "failed to parse DefIndex"),
    ];
    for (text, message) in cases {
        assert_eq!(read_def_id(text), Err(message.to_string()), "{}", text);
        assert_eq!(parse_def_id(text, &render), Err(message.to_string()), "{}", text);
    }
}

#[test]
fn other_path_is_a_mismatch() {
    assert_eq!(
        parse_def_id("DefId(0:1 ~ other::name1)", &render),
        Err("path mismatch: after parsing input DefId(0:1 ~ other::name1), obtained a different \
             path DefId(0:1 ~ krate::name1)"
            .to_string())
    );
}

#[test]
fn list_skips_comments_and_blank_lines() {
    let text = lines(&[
        "# fixed definitions",
        "",
        "  \t ",
        "DefId(0:1 ~ krate::name1)",
        "   # indented comment",
        "\tDefId(2:5 ~ krate::name5)  ",
        "DefId(0:1 ~ krate::name1)",
    ]);
    let set = match read_fixed_defs_list(&text, &render) {
        Ok(set) => set,
        Err(e) => panic!("line {}: {}", e.line, e.message),
    };
    assert!(set.contains(id(0, 1)));
    assert!(set.contains(id(2, 5)));
    assert!(!set.contains(id(0, 5)));
    assert!(!set.contains(id(2, 1)));
}

#[test]
fn first_bad_line_of_the_list_is_reported() {
    let text = lines(&["# c", "DefId(0:1 ~ krate::name1)", "", "  nonsense", "DefId(x:1)"]);
    match read_fixed_defs_list(&text, &render) {
        Ok(_) => panic!("no error"),
        Err(e) => {
            assert_eq!(e.line, 4);
            assert_eq!(e.message, "does not start with `DefId(`");
        }
    }
}

#[test]
fn empty_list_is_empty() {
    let set = match read_fixed_defs_list(&lines(&[]), &render) {
        Ok(set) => set,
        Err(e) => panic!("line {}: {}", e.line, e.message),
    };
    assert!(!set.contains(id(0, 0)));
}
