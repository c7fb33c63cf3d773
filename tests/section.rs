use gakun::section::{apply, render_block, strip_managed_block};

const H1_BLOCK: &str =
    "###### gakun begin\nHost h1\n  Hostname h1\n  IdentityFile /k1\n###### gakun end\n";
const H2_BLOCK: &str =
    "###### gakun begin\nHost h2\n  Hostname h2\n  IdentityFile /k2\n###### gakun end\n";

#[test]
fn empty_file_gets_only_the_block() {
    let out = apply(b"", Some(("h1", "/k1")));
    assert_eq!(out, H1_BLOCK.as_bytes().to_vec());
}

#[test]
fn block_goes_before_existing_content() {
    let out = apply(b"foo\nbar\n", Some(("h1", "/k1")));
    let expected = format!("{}foo\nbar\n", H1_BLOCK);
    assert_eq!(out, expected.into_bytes());
}

#[test]
fn new_block_replaces_old_one() {
    let text = format!("top\n{}bottom\n", H1_BLOCK);
    let out = apply(text.as_bytes(), Some(("h2", "/k2")));
    let expected = format!("{}top\nbottom\n", H2_BLOCK);
    assert_eq!(out, expected.clone().into_bytes());
    let s = String::from_utf8(out).unwrap();
    assert!(!s.contains("h1"));
    assert!(!s.contains("/k1"));
}

#[test]
fn applying_twice_equals_applying_once() {
    for text in ["", "foo\nbar\n", "a\n###### gakun begin\nx\n###### gakun end\nb", "x\r\ny\r\n"] {
        let once = apply(text.as_bytes(), Some(("gitlab.com", "/home/me/.ssh/id")));
        let twice = apply(&once, Some(("gitlab.com", "/home/me/.ssh/id")));
        assert_eq!(once, twice);
    }
}

#[test]
fn strip_undoes_apply() {
    for text in ["", "foo\nbar\n", "a\n###### gakun begin\nx\n###### gakun end\nb\n", "no newline"] {
        let used = apply(text.as_bytes(), Some(("h", "/k")));
        assert_eq!(strip_managed_block(&used), strip_managed_block(text.as_bytes()));
    }
}

#[test]
fn detach_removes_the_block() {
    let text = format!("before\n{}after\n", H1_BLOCK);
    assert_eq!(apply(text.as_bytes(), None), b"before\nafter\n".to_vec());
}

#[test]
fn detach_twice_is_detach_once() {
    let text = format!("before\n{}after", H1_BLOCK);
    let once = apply(text.as_bytes(), None);
    assert_eq!(apply(&once, None), once);
}

#[test]
fn outside_content_survives_a_run_of_operations() {
    let text = "# my config\nHost work\n  User git\n\n";
    let mut cur = text.as_bytes().to_vec();
    cur = apply(&cur, Some(("h1", "/k1")));
    cur = apply(&cur, Some(("h2", "/k2")));
    cur = apply(&cur, None);
    cur = apply(&cur, Some(("h3", "/k3")));
    cur = apply(&cur, None);
    assert_eq!(cur, text.as_bytes().to_vec());
}

#[test]
fn strip_of_empty_is_empty() {
    assert_eq!(strip_managed_block(b""), Vec::<u8>::new());
}

#[test]
fn strip_adds_final_newline() {
    assert_eq!(strip_managed_block(b"foo\nbar"), b"foo\nbar\n".to_vec());
}

#[test]
fn strip_keeps_blank_lines_and_carriage_returns() {
    assert_eq!(strip_managed_block(b"a\r\n\n\nb\n"), b"a\r\n\n\nb\n".to_vec());
}

#[test]
fn unterminated_block_drops_to_end() {
    let text = b"keep\n###### gakun begin\nHost h\nlost\n";
    assert_eq!(strip_managed_block(text), b"keep\n".to_vec());
}

#[test]
fn repeated_begin_does_not_nest() {
    let text = b"a\n###### gakun begin\nx\n###### gakun begin\ny\n###### gakun end\nb\n";
    assert_eq!(strip_managed_block(text), b"a\nb\n".to_vec());
}

#[test]
fn only_exact_marker_lines_count() {
    let text = b"a\n# gakun begin here\nx\n  gakun end  \nb\n";
    assert_eq!(strip_managed_block(text), text.to_vec());
}

#[test]
fn tag_text_inside_a_line_is_content() {
    let text = b"x gakun begin y\nfoo\ngakun end\n";
    assert_eq!(strip_managed_block(text), text.to_vec());
}

#[test]
fn marker_with_carriage_return_is_content() {
    let text = b"###### gakun begin\r\nkeep\r\n";
    assert_eq!(strip_managed_block(text), text.to_vec());
}

#[test]
fn host_holding_tag_text_still_splices_cleanly() {
    let text = b"user line\n";
    let once = apply(text, Some(("gakun end", "/k gakun begin")));
    assert_eq!(apply(&once, Some(("gakun end", "/k gakun begin"))), once);
    assert_eq!(strip_managed_block(&once), text.to_vec());
}

#[test]
fn stray_end_line_is_dropped() {
    assert_eq!(strip_managed_block(b"a\n###### gakun end\nb\n"), b"a\nb\n".to_vec());
}

#[test]
fn only_newlines_stay() {
    assert_eq!(strip_managed_block(b"\n\n"), b"\n\n".to_vec());
}

#[test]
fn render_block_writes_the_stanza() {
    assert_eq!(render_block("h1", "/k1"), H1_BLOCK.as_bytes().to_vec());
}

#[test]
fn render_block_handles_non_ascii() {
    let out = render_block("h\u{e9}", "/k\u{e9}y");
    let expected =
        "###### gakun begin\nHost h\u{e9}\n  Hostname h\u{e9}\n  IdentityFile /k\u{e9}y\n###### gakun end\n";
    assert_eq!(out, expected.as_bytes().to_vec());
}
