//! Tests of the tag-driven line rewriter.

use tintanum::adjust_config;
use tintanum::RewriteError;
use tintanum::SchemePreference;

fn ok(content: &str, p: SchemePreference) -> String {
    let out = adjust_config(content.as_bytes(), p).unwrap();
    String::from_utf8(out).unwrap()
}

fn missing_tag(content: &str, p: SchemePreference) -> Vec<u8> {
    match adjust_config(content.as_bytes(), p) {
        Err(RewriteError::TagNotFound { tag }) => tag,
        _ => panic!("expected a missing tag"),
    }
}

#[test]
fn uncomments_dark_and_comments_light() {
    let input = "# foo: 1 #[dark]\nbar: 2 #[light]\n";
    let expected = "foo: 1 #[dark]\n# bar: 2 #[light]\n";
    assert_eq!(ok(input, SchemePreference::Dark), expected);
}

#[test]
fn uncomments_light_and_comments_dark() {
    let input = "foo: 1 #[dark]\n# bar: 2 #[light]\n";
    let expected = "# foo: 1 #[dark]\nbar: 2 #[light]\n";
    assert_eq!(ok(input, SchemePreference::Light), expected);
}

#[test]
fn no_preference_selects_light() {
    let input = "foo: 1 #[dark]\n# bar: 2 #[light]\n";
    let expected = "# foo: 1 #[dark]\nbar: 2 #[light]\n";
    assert_eq!(ok(input, SchemePreference::NoPreference), expected);
}

#[test]
fn untagged_lines_are_untouched() {
    let input = "alpha\n# foo: 1 #[dark]\n  indented: yes\nbar: 2 #[light]\n# plain comment\n";
    let expected = "alpha\nfoo: 1 #[dark]\n  indented: yes\n# bar: 2 #[light]\n# plain comment\n";
    assert_eq!(ok(input, SchemePreference::Dark), expected);
}

#[test]
fn already_correct_lines_are_kept() {
    let input = "foo: 1 #[dark]\n# bar: 2 #[light]\n";
    assert_eq!(ok(input, SchemePreference::Dark), input);
}

#[test]
fn second_application_is_identity() {
    let input = "# one #[dark]\ntwo #[light]\nother\n";
    let once = ok(input, SchemePreference::Dark);
    let twice = ok(&once, SchemePreference::Dark);
    assert_eq!(twice, once);
}

#[test]
fn dark_then_light_restores_the_file() {
    let input = "# one #[dark]\ntwo #[light]\nother\n";
    let dark = ok(input, SchemePreference::Dark);
    let back = ok(&dark, SchemePreference::Light);
    assert_eq!(back, input);
}

#[test]
fn missing_dark_tag_is_reported() {
    let input = "bar: 2 #[light]\nplain\n";
    assert_eq!(missing_tag(input, SchemePreference::Dark), b"#[dark]".to_vec());
}

#[test]
fn missing_deactivate_tag_is_reported_first() {
    let input = "no tags here\n";
    assert_eq!(missing_tag(input, SchemePreference::Dark), b"#[light]".to_vec());
    assert_eq!(missing_tag(input, SchemePreference::Light), b"#[dark]".to_vec());
}

#[test]
fn empty_file_fails() {
    assert!(adjust_config(b"", SchemePreference::Dark).is_err());
}

#[test]
fn uncomment_strips_hash_and_one_space() {
    let input = "#   spaced #[dark]\nx #[light]\n";
    let expected = "  spaced #[dark]\n# x #[light]\n";
    assert_eq!(ok(input, SchemePreference::Dark), expected);
}

#[test]
fn uncomment_keeps_indentation() {
    let input = "  # indented #[dark]\nx #[light]\n";
    let expected = "  indented #[dark]\n# x #[light]\n";
    assert_eq!(ok(input, SchemePreference::Dark), expected);
}

#[test]
fn tag_must_end_the_trimmed_line() {
    let input = "foo #[dark] trailing\nreal #[dark]\nx #[light]\n";
    let expected = "foo #[dark] trailing\nreal #[dark]\n# x #[light]\n";
    assert_eq!(ok(input, SchemePreference::Dark), expected);
}

#[test]
fn tag_matches_despite_trailing_whitespace() {
    let input = "# foo #[dark]  \nx #[light]\n";
    let expected = "foo #[dark]  \n# x #[light]\n";
    assert_eq!(ok(input, SchemePreference::Dark), expected);
}

#[test]
fn only_the_first_tagged_line_is_toggled() {
    let input = "# a #[dark]\n# b #[dark]\nx #[light]\n";
    let expected = "a #[dark]\n# b #[dark]\n# x #[light]\n";
    assert_eq!(ok(input, SchemePreference::Dark), expected);
}

#[test]
fn crlf_input_is_normalised() {
    let input = "# a #[dark]\r\nx #[light]\r\n";
    let expected = "a #[dark]\n# x #[light]\n";
    assert_eq!(ok(input, SchemePreference::Dark), expected);
}

#[test]
fn missing_final_newline_is_added() {
    let input = "# a #[dark]\nx #[light]";
    let expected = "a #[dark]\n# x #[light]\n";
    assert_eq!(ok(input, SchemePreference::Dark), expected);
}

#[test]
fn whitespace_only_file_fails() {
    assert!(adjust_config(b"  \n\t\n", SchemePreference::Dark).is_err());
}

#[test]
fn bare_tag_line_reads_as_a_comment() {
    // The `#` of the tag itself is the first non-whitespace byte, so the
    // line counts as commented and uncommenting strips it.
    let input = "#[dark]\nx #[light]\n";
    let expected = "[dark]\n# x #[light]\n";
    assert_eq!(ok(input, SchemePreference::Dark), expected);
}

#[test]
fn empty_lines_are_kept() {
    let input = "\n# a #[dark]\n\nx #[light]\n";
    let expected = "\na #[dark]\n\n# x #[light]\n";
    assert_eq!(ok(input, SchemePreference::Dark), expected);
}
