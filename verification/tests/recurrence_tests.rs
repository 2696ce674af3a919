use slate::date::Date;
use slate::recurrence::{Freq, Recurrence, RepeatEnd};

#[test]
fn recurrence_roundtrips_simple_rules() {
    let cases = [
        Recurrence { freq: Freq::Daily, interval: 1, end: RepeatEnd::Never },
        Recurrence { freq: Freq::Weekly, interval: 2, end: RepeatEnd::After(10) },
        Recurrence {
            freq: Freq::Monthly,
            interval: 1,
            end: RepeatEnd::On(Date { year: 2026, month: 12, day: 31 }),
        },
    ];
    for c in cases {
        let s = c.to_rrule().expect("repeats");
        assert_eq!(Recurrence::parse(&s), Some(c), "roundtrip failed for {s}");
    }
}

#[test]
fn never_has_no_rrule() {
    assert_eq!(Recurrence::default().to_rrule(), None);
}

#[test]
fn complex_rules_are_rejected_not_simplified() {
    assert_eq!(Recurrence::parse("FREQ=WEEKLY;BYDAY=MO,WE,FR"), None);
    assert_eq!(Recurrence::parse("FREQ=MONTHLY;BYSETPOS=-1;BYDAY=FR"), None);
    assert_eq!(Recurrence::parse("FREQ=HOURLY"), None);
}

#[test]
fn wkst_is_tolerated() {
    assert_eq!(
        Recurrence::parse("FREQ=WEEKLY;WKST=MO"),
        Some(Recurrence { freq: Freq::Weekly, interval: 1, end: RepeatEnd::Never })
    );
}

#[test]
fn rrule_text_spells_each_part() {
    let r = Recurrence {
        freq: Freq::Weekly,
        interval: 2,
        end: RepeatEnd::On(Date { year: 2026, month: 1, day: 5 }),
    };
    assert_eq!(r.to_rrule().unwrap(), "FREQ=WEEKLY;INTERVAL=2;UNTIL=20260105T235959Z");
    let r = Recurrence { freq: Freq::Yearly, interval: 1, end: RepeatEnd::After(3) };
    assert_eq!(r.to_rrule().unwrap(), "FREQ=YEARLY;COUNT=3");
}

#[test]
fn a_zero_interval_reads_as_one_and_case_is_ignored() {
    assert_eq!(
        Recurrence::parse(" freq=daily;interval=0 "),
        Some(Recurrence { freq: Freq::Daily, interval: 1, end: RepeatEnd::Never })
    );
}

#[test]
fn a_rule_without_frequency_is_rejected() {
    assert_eq!(Recurrence::parse("COUNT=3"), None);
    assert_eq!(Recurrence::parse("FREQ=DAILY;COUNT=x"), None);
    assert_eq!(Recurrence::parse("FREQ"), None);
}

#[test]
fn as_ical_names_each_frequency() {
    assert_eq!(Freq::Never.as_ical(), None);
    assert_eq!(Freq::Monthly.as_ical(), Some("MONTHLY"));
}

#[test]
fn an_until_that_is_not_a_date_is_not_a_rule() {
    assert_eq!(Recurrence::parse("FREQ=DAILY;UNTIL=2026é0101"), None);
    assert_eq!(Recurrence::parse("FREQ=DAILY;UNTIL=éééé"), None);
}
