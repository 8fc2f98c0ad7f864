use sim::city_clock_fixture::{build_fixture_document, clock_rows, fixture_from_rows, ClockRow, ODD_EPOCH};

#[test]
fn sim_time_matches_every_city_clock_case() {
    let doc = build_fixture_document();
    assert_eq!(doc.real_ms_per_city_minute, 2500);
    for c in &doc.cases {
        let t = sim::time::city_time(c.epoch_micros.parse().unwrap(), c.now_micros.parse().unwrap());
        assert_eq!(
            (t.day, t.hour, t.minute, t.weekday, t.real_ms_into_minute),
            (c.day, c.hour, c.minute, c.weekday, c.real_ms_into_minute),
            "epoch {} now {}",
            c.epoch_micros,
            c.now_micros
        );
    }
}

#[test]
fn the_document_writes_instants_as_decimal_microseconds() {
    let doc = build_fixture_document();
    assert_eq!(doc.cases.len(), clock_rows().len());
    assert_eq!(doc.cases[0].epoch_micros, "0");
    assert_eq!(doc.cases[1].now_micros, "2499000");
    assert_eq!(doc.cases[10].now_micros, "-1000");
    let odd = &doc.cases[14];
    assert_eq!(odd.epoch_micros, ODD_EPOCH.to_string());
    assert_eq!(odd.now_micros, (ODD_EPOCH + 150_000_000 + 999).to_string());
}

#[test]
fn fixture_from_rows_writes_each_row() {
    let rows = [ClockRow {
        epoch: -5,
        extra_micros: 7,
        elapsed_ms: 3,
        day: 1,
        hour: 2,
        minute: 3,
        weekday: 4,
        real_ms_into_minute: 5,
    }];
    let doc = fixture_from_rows(&rows);
    assert_eq!(doc.cases.len(), 1);
    assert_eq!(doc.cases[0].epoch_micros, "-5");
    assert_eq!(doc.cases[0].now_micros, "3002");
    assert_eq!((doc.cases[0].day, doc.cases[0].weekday), (1, 4));
}
