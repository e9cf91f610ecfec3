use guixvis::guix_env::{accept_channels, finish_origin, system_text};
use guixvis::model::ChannelPin;
use guixvis::text::{blank, clean_text, parse_decimal_u64, split_words};

#[test]
fn control_characters_become_spaces() {
    assert_eq!(clean_text("a\u{1b}[31mb\u{7}", false), "a [31mb ");
    assert_eq!(clean_text("line\nnext\tword", true), "line\nnext\tword");
    assert_eq!(clean_text("line\nnext\tword", false), "line next word");
    assert_eq!(clean_text("csi\u{9b}x", false), "csi x");
    let once = clean_text("x\u{0}y\u{85}z", false);
    assert_eq!(clean_text(&once, false), once);
}

#[test]
fn words_split_on_unicode_whitespace() {
    assert_eq!(split_words("  emacs\u{3000}extensible\n editor "), vec!["emacs", "extensible", "editor"]);
    assert!(split_words(" \t ").is_empty());
    assert!(blank(" \u{a0}\n"));
    assert!(!blank(" x "));
}

#[test]
fn decimal_counts_parse_like_u64() {
    assert_eq!(parse_decimal_u64("42"), Some(42));
    assert_eq!(parse_decimal_u64("+7"), Some(7));
    assert_eq!(parse_decimal_u64("18446744073709551615"), Some(u64::MAX));
    assert_eq!(parse_decimal_u64("18446744073709551616"), None);
    assert_eq!(parse_decimal_u64(""), None);
    assert_eq!(parse_decimal_u64("-1"), None);
    assert_eq!(parse_decimal_u64("1 "), None);
}

fn pin(name: &str, commit: &str) -> ChannelPin {
    ChannelPin { name: name.to_string(), commit: commit.to_string() }
}

#[test]
fn described_channels_are_sorted_and_deduplicated() {
    let got = accept_channels(vec![pin("nonguix", "b2"), pin("guix", "a1"), pin("nonguix", "b2")]).unwrap();
    assert_eq!(got, vec![pin("guix", "a1"), pin("nonguix", "b2")]);
    assert!(accept_channels(vec![pin("guix", "")]).is_none());
    assert!(accept_channels(vec![pin("gu ix", "a1")]).is_none());
    assert!(accept_channels(vec![pin("guix", &"a".repeat(129))]).is_none());
    assert!(accept_channels(Vec::new()).unwrap().is_empty());
}

#[test]
fn the_system_type_is_trimmed_and_plain() {
    assert_eq!(system_text(b"x86_64-linux\n"), Some("x86_64-linux".to_string()));
    assert_eq!(system_text(b"  aarch64-linux  "), Some("aarch64-linux".to_string()));
    assert_eq!(system_text(b""), None);
    assert_eq!(system_text(b"x86 64"), None);
    assert_eq!(system_text(&[0xff, 0xfe]), None);
}

#[test]
fn a_probe_is_verified_only_when_it_identifies_guix() {
    let full = finish_origin("/bin/guix".into(), false, Some(vec![pin("guix", "a1")]), Some("x86_64-linux".into()));
    assert!(full.verified);
    assert!(full.is_verified());
    let mutable = finish_origin("/bin/guix".into(), true, Some(vec![pin("guix", "a1")]), Some("x86_64-linux".into()));
    assert!(!mutable.verified);
    let blind = finish_origin("/bin/guix".into(), false, None, Some("x86_64-linux".into()));
    assert!(!blind.verified);
    assert!(blind.channels.is_empty());
    let no_system = finish_origin("/bin/guix".into(), false, Some(vec![pin("guix", "a1")]), None);
    assert!(!no_system.verified);
    assert!(no_system.system.is_empty());
}
