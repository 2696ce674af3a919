use slate::collection::{slugify, sort_by_name, CalendarMeta};
use slate::color::Rgb;

#[test]
fn parses_hex_colors() {
    assert_eq!(Rgb::parse("#2d7dd2"), Some(Rgb(0x2d, 0x7d, 0xd2)));
    assert_eq!(Rgb::parse("2d7dd2"), Some(Rgb(0x2d, 0x7d, 0xd2)));
    assert_eq!(Rgb::parse("#fff"), Some(Rgb(255, 255, 255)));
    assert_eq!(Rgb::parse("  #2D7DD2  "), Some(Rgb(0x2d, 0x7d, 0xd2)));
    assert_eq!(Rgb::parse("nope"), None);
    assert_eq!(Rgb::parse(""), None);
}

#[test]
fn hex_roundtrips() {
    let c = Rgb(0xe4, 0x57, 0x2e);
    assert_eq!(Rgb::parse(&c.to_hex()), Some(c));
}

#[test]
fn hex_is_lowercase_and_padded() {
    assert_eq!(Rgb(0x0a, 0xb0, 0x00).to_hex(), "#0ab000");
}

#[test]
fn only_one_leading_hash_is_allowed() {
    assert_eq!(Rgb::parse("##abc"), None);
    assert_eq!(Rgb::parse("#abc"), Some(Rgb(0xaa, 0xbb, 0xcc)));
    assert_eq!(Rgb::parse("abc"), Some(Rgb(0xaa, 0xbb, 0xcc)));
}

#[test]
fn signs_are_not_digits() {
    assert_eq!(Rgb::parse("+f+f+f"), None);
    assert_eq!(Rgb::parse("#+f+f+f"), None);
}

#[test]
fn slugify_makes_safe_directory_names() {
    assert_eq!(slugify("Personal"), "personal");
    assert_eq!(slugify("Work / Projects"), "work-projects");
    assert_eq!(slugify("  ../../etc/passwd  "), "etc-passwd");
    assert_eq!(slugify("🎉"), "calendar");
    assert_eq!(slugify(""), "calendar");
}

#[test]
fn slugs_are_at_most_sixty_four_characters() {
    let long = "a".repeat(100);
    assert_eq!(slugify(&long).len(), 64);
}

#[test]
fn a_blank_display_name_falls_back_to_the_id() {
    let meta = CalendarMeta::from_files("work", "/c/work", Some("   "), None, false);
    assert_eq!(meta.name, "work");
    assert_eq!(meta.color, Rgb(0x2d, 0x7d, 0xd2));
}

#[test]
fn metadata_files_are_trimmed_and_read() {
    let meta = CalendarMeta::from_files("work", "/c/work", Some(" Work \n"), Some("#e4572e\n"), true);
    assert_eq!(meta.name, "Work");
    assert_eq!(meta.color, Rgb(0xe4, 0x57, 0x2e));
    assert!(meta.read_only);
    let meta = CalendarMeta::from_files("x", "/c/x", None, Some("not a colour"), false);
    assert_eq!(meta.color, Rgb(0x2d, 0x7d, 0xd2));
}

#[test]
fn any_other_text_reads_as_no_colour() {
    assert_eq!(Rgb::parse("é1"), None);
    assert_eq!(Rgb::parse("aééa"), None);
    assert_eq!(Rgb::parse("aébcd"), None);
    assert_eq!(Rgb::parse("€"), None);
    assert_eq!(Rgb::parse("#12345g"), None);
    assert_eq!(Rgb::parse("#1234"), None);
    let meta = CalendarMeta::from_files("x", "/c/x", None, Some("aébcd"), false);
    assert_eq!(meta.color, Rgb(0x2d, 0x7d, 0xd2));
}

fn named(id: &str, name: &str) -> CalendarMeta {
    CalendarMeta { id: id.into(), name: name.into(), color: Rgb(0, 0, 0), path: format!("/c/{id}"), read_only: false }
}

#[test]
fn collections_are_listed_by_name_ignoring_case() {
    let sorted = sort_by_name(vec![named("w", "work"), named("b", "Birthdays"), named("h", "home"), named("a", "Away")]);
    let ids: Vec<&str> = sorted.iter().map(|c| c.id.as_str()).collect();
    assert_eq!(ids, vec!["a", "b", "h", "w"]);
}

#[test]
fn names_equal_but_for_case_keep_their_order() {
    let sorted = sort_by_name(vec![named("x", "Home"), named("y", "home"), named("z", "HOME")]);
    let ids: Vec<&str> = sorted.iter().map(|c| c.id.as_str()).collect();
    assert_eq!(ids, vec!["x", "y", "z"]);
}
