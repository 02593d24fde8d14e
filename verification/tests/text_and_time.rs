use mdopen::calendar::format_time;
use mdopen::text::{html_escape, to_tag_anchor};

#[test]
fn html_escape_replaces_markup_characters() {
    assert_eq!(
        html_escape("<a href=\"x\">Tom & Jerry's</a>"),
        "&lt;a href=&quot;x&quot;&gt;Tom &amp; Jerry&#39;s&lt;/a&gt;"
    );
}

#[test]
fn html_escape_keeps_plain_text() {
    assert_eq!(html_escape("plain text, ünïcode"), "plain text, ünïcode");
    assert_eq!(html_escape(""), "");
}

#[test]
fn html_escape_does_not_double_escape_its_own_entities() {
    assert_eq!(html_escape("&amp;"), "&amp;amp;");
}

#[test]
fn tag_anchor_lowercases_and_dashes_spaces() {
    assert_eq!(to_tag_anchor("Hello World"), "hello-world");
}

#[test]
fn tag_anchor_drops_punctuation() {
    assert_eq!(to_tag_anchor("API: v2.0 (beta)"), "api-v20-beta");
    assert_eq!(to_tag_anchor("pre-existing -- dashes"), "pre-existing----dashes");
}

#[test]
fn tag_anchor_keeps_unicode_letters() {
    assert_eq!(to_tag_anchor("Ünïcode Title"), "ünïcode-title");
}

#[test]
fn tag_anchor_has_only_dashes_and_alphanumerics() {
    let a = to_tag_anchor("Some *odd* heading! With `code` & more");
    assert!(a.chars().all(|c| c == '-' || c.is_alphanumeric()));
    assert_eq!(a, "some-odd-heading-with-code--more");
}

#[test]
fn format_time_epoch() {
    assert_eq!(format_time(0), "1970-01-01 00:00");
}

#[test]
fn format_time_end_of_first_day() {
    assert_eq!(format_time(86399), "1970-01-01 23:59");
}

#[test]
fn format_time_leap_day() {
    assert_eq!(format_time(951782400), "2000-02-29 00:00");
    assert_eq!(format_time(951868800), "2000-03-01 00:00");
}

#[test]
fn format_time_recent() {
    assert_eq!(format_time(1700000000), "2023-11-14 22:13");
}

#[test]
fn format_time_ignores_seconds() {
    assert_eq!(format_time(1700000039), "2023-11-14 22:13");
}

#[test]
fn format_time_last_four_digit_year() {
    assert_eq!(format_time(253402300799), "9999-12-31 23:59");
    assert_eq!(format_time(253402300800), "10000-01-01 00:00");
}

#[test]
fn format_time_wrapped_day_count() {
    // 2^31 days after the epoch the day count wraps to -2^31.
    assert_eq!(format_time(2147483648 * 86400), "1970-01--2147483647 00:00");
}

#[test]
fn format_time_shape_law_example() {
    let t = format_time(1234567890);
    assert_eq!(t, "2009-02-13 23:31");
    assert_eq!(t.len(), 16);
}

#[test]
fn anchor_from_already_lowercased_text() {
    assert_eq!(mdopen::text::anchor_from_lowercase("a b-c!d"), "a-b-cd");
    assert_eq!(mdopen::text::anchor_from_lowercase("ABC"), "ABC");
}
