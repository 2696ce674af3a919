use slate::meeting::meeting_link;

#[test]
fn a_meet_link_in_the_location_is_found() {
    assert_eq!(
        meeting_link(Some("https://meet.google.com/abc-defg-hij"), None),
        Some("https://meet.google.com/abc-defg-hij".to_owned())
    );
}

#[test]
fn a_zoom_link_buried_in_a_description_is_found() {
    let description = "Agenda:\n1. Standup\nJoin: https://us02web.zoom.us/j/123?pwd=x. Thanks!";
    assert_eq!(
        meeting_link(None, Some(description)),
        Some("https://us02web.zoom.us/j/123?pwd=x".to_owned())
    );
}

#[test]
fn the_location_wins_over_the_description() {
    assert_eq!(
        meeting_link(Some("https://meet.jit.si/room"), Some("https://zoom.us/j/999")),
        Some("https://meet.jit.si/room".to_owned())
    );
}

#[test]
fn an_ordinary_url_is_not_a_meeting() {
    assert_eq!(meeting_link(Some("https://example.com/agenda.pdf"), None), None);
    assert_eq!(meeting_link(Some("Kolonaki, Athens"), None), None);
}

#[test]
fn angle_brackets_and_quotes_do_not_travel_with_the_link() {
    assert_eq!(
        meeting_link(None, Some("<https://teams.microsoft.com/l/meetup/xyz>")),
        Some("https://teams.microsoft.com/l/meetup/xyz".to_owned())
    );
}

#[test]
fn nothing_to_search_finds_nothing() {
    assert_eq!(meeting_link(None, None), None);
}
