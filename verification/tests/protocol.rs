use dynops::locations::LocationClass;
use dynops::protocol::{format_entry, format_page, LocationsSession, PAGE_BYTE_BUDGET};
use dynops::text::split_coordinate_lines;

type Point = (f64, f64);

fn parse_chunk(chunk: &str) -> Vec<Point> {
    split_coordinate_lines(chunk)
        .into_iter()
        .map(|f| {
            let (x, y) = f.expect("x,y");
            (x.trim().parse().unwrap(), y.trim().parse().unwrap())
        })
        .collect()
}

/// The page entry of a two-building farm whose buildings sit at `x` and
/// `x + 10` on the x axis.
fn farm_entry(x: f64) -> String {
    format_entry(
        &(x + 5.0).to_string(),
        &0.0f64.to_string(),
        &5.0f64.to_string(),
        &0.0f64.to_string(),
        &90.0f64.to_string(),
        2,
        LocationClass::Farm,
    )
}

#[test]
fn locations_full_round_trip() {
    let mut session: LocationsSession<Point> = LocationsSession::new();
    assert_eq!(session.locations_begin(), "OK");

    let chunk = "0,0\n10,0\n1000,0\n1010,0".to_string();
    let output = session.locations_add(parse_chunk(&chunk));
    assert_eq!(output, Ok("4".to_owned()));

    let points = session.locations_detect_take().expect("collecting");
    assert_eq!(points.len(), 4);
    let output = session.locations_detect_store(vec![farm_entry(0.0), farm_entry(1000.0)]);
    assert_eq!(output, "2");

    let output = session.locations_page(0).expect("detected");
    assert!(output.starts_with("[2,[["), "unexpected page shape: {output}");

    assert_eq!(session.locations_end(), "OK");
}

#[test]
fn page_before_detect_errors() {
    let mut session: LocationsSession<Point> = LocationsSession::new();
    assert_eq!(session.locations_begin(), "OK");
    let output = session.locations_page(0);
    assert_eq!(
        output,
        Err("locations:page called without a completed locations:detect".to_owned())
    );
}

#[test]
fn add_after_detect_errors() {
    let mut session: LocationsSession<Point> = LocationsSession::new();
    let _ = session.locations_begin();
    let points = session.locations_detect_take().expect("collecting");
    assert!(points.is_empty());
    let _ = session.locations_detect_store(Vec::new());

    let output = session.locations_add(parse_chunk("0,0"));
    assert_eq!(
        output,
        Err("locations:add called without an active locations:begin session".to_owned())
    );
    assert_eq!(session.locations_page(0), Ok("[0,[]]".to_owned()));
}

#[test]
fn detect_without_begin_errors() {
    let mut session: LocationsSession<Point> = LocationsSession::new();
    let output = session.locations_detect_take();
    assert_eq!(
        output,
        Err("locations:detect called without an active locations:begin session".to_owned())
    );
}

#[test]
fn paging_to_exhaustion_covers_every_location_exactly_once() {
    let mut session: LocationsSession<Point> = LocationsSession::new();
    let _ = session.locations_begin();

    let mut chunk = String::new();
    for i in 0..1000 {
        let base = i as f64 * 1000.0;
        chunk.push_str(&format!("{base},0\n{},0\n", base + 10.0));
    }
    let output = session.locations_add(parse_chunk(&chunk));
    assert_eq!(output, Ok("2000".to_owned()));

    let points = session.locations_detect_take().expect("collecting");
    let entries: Vec<String> = points.chunks(2).map(|pair| farm_entry(pair[0].0)).collect();
    let output = session.locations_detect_store(entries.clone());
    let total: usize = output.parse().expect("detect must return a count");
    assert_eq!(total, 1000);

    let mut offset = 0usize;
    let mut seen = Vec::new();
    let mut pages = 0usize;
    loop {
        let output = session.locations_page(offset).expect("detected");
        assert!(
            output.len() <= 9000,
            "page exceeded byte budget: {} bytes",
            output.len()
        );

        let next_offset: usize = output[1..]
            .split_once(',')
            .and_then(|(n, _)| n.parse().ok())
            .expect("page must start with [nextOffset,...]");
        let entries_on_page = next_offset - offset;
        let body = &output[output.find(",[").unwrap() + 2..output.len() - 2];
        assert_eq!(body, entries[offset..next_offset].join(","));
        seen.extend_from_slice(&entries[offset..next_offset]);
        pages += 1;
        offset = next_offset;

        if entries_on_page == 0 || offset >= total {
            break;
        }
    }

    assert_eq!(seen, entries, "paging must cover every location exactly once");
    assert!(pages > 1, "1000 locations should not fit on a single page");
}

#[test]
fn begin_restarts_and_end_closes() {
    let mut session: LocationsSession<Point> = LocationsSession::new();
    let _ = session.locations_begin();
    assert_eq!(session.locations_add(vec![(1.0, 2.0)]), Ok("1".to_owned()));
    assert_eq!(session.locations_add(vec![(3.0, 4.0), (5.0, 6.0)]), Ok("3".to_owned()));
    let _ = session.locations_begin();
    assert_eq!(session.locations_add(vec![]), Ok("0".to_owned()));
    assert_eq!(session.on_mission_ended(), "OK");
    assert!(session.locations_add(vec![(1.0, 1.0)]).is_err());
    assert!(session.locations_page(0).is_err());
    // A failed detect closes a finished session too.
    let _ = session.locations_begin();
    let _ = session.locations_detect_take();
    let _ = session.locations_detect_store(vec!["[x]".to_owned()]);
    assert!(session.locations_detect_take().is_err());
    assert!(session.locations_page(0).is_err());
}

#[test]
fn page_fills_up_to_budget() {
    // Entries of 99 bytes: a page holds them while "[next,[...]]" stays within budget.
    let entries: Vec<String> = (0..300).map(|_| "x".repeat(99)).collect();
    let (next, page) = format_page(&entries, 0);
    assert!(page.len() <= PAGE_BYTE_BUDGET);
    // One more entry would not fit.
    let mut bigger = entries[0..next + 1].join(",");
    bigger = format!("[{},[{}]]", next + 1, bigger);
    assert!(bigger.len() > PAGE_BYTE_BUDGET);
    assert_eq!(page, format!("[{},[{}]]", next, entries[0..next].join(",")));
    assert_eq!(next, 89);
}

#[test]
fn oversized_entry_still_goes_out_alone() {
    let entries = vec!["a".to_owned(), "y".repeat(10_000), "b".to_owned()];
    let (next, page) = format_page(&entries, 1);
    assert_eq!(next, 2);
    assert_eq!(page, format!("[2,[{}]]", entries[1]));
    let (next, page) = format_page(&entries, 0);
    assert_eq!((next, page), (1, "[1,[a]]".to_owned()));
    let (next, page) = format_page(&entries, 2);
    assert_eq!((next, page), (3, "[3,[b]]".to_owned()));
    let (next, page) = format_page(&entries, 3);
    assert_eq!((next, page), (3, "[3,[]]".to_owned()));
    let (next, page) = format_page(&entries, 7);
    assert_eq!((next, page), (7, "[7,[]]".to_owned()));
}

#[test]
fn page_counts_bytes_not_characters() {
    // 4500 two-byte characters: 9000 bytes of entry plus framing exceeds the budget.
    let wide = "é".repeat(4500);
    let entries = vec!["a".to_owned(), wide.clone()];
    let (next, page) = format_page(&entries, 0);
    assert_eq!(next, 1);
    assert_eq!(page, "[1,[a]]");
}

#[test]
fn entry_lists_box_count_and_class() {
    assert_eq!(
        format_entry("1.5", "-2", "3", "4.25", "90", 7, LocationClass::Hamlet),
        "[[1.5,-2],3,4.25,90,7,1]"
    );
    assert_eq!(farm_entry(0.0), "[[5,0],5,0,90,2,0]");
    assert_eq!(
        format_entry("0", "0", "0", "0", "0", 121, LocationClass::City),
        "[[0,0],0,0,0,121,4]"
    );
}

#[test]
fn session_pages_stay_within_budget_and_cover_everything() {
    let mut session: LocationsSession<Point> = LocationsSession::new();
    session.locations_begin();
    let _ = session.locations_detect_take();
    let entries: Vec<String> = (0..1000).map(|i| farm_entry(i as f64 * 1000.0)).collect();
    assert_eq!(session.locations_detect_store(entries.clone()), "1000");
    let mut offset = 0usize;
    let mut seen: Vec<String> = Vec::new();
    let mut pages = 0;
    while offset < entries.len() {
        let page = session.locations_page(offset).expect("detected");
        assert!(page.len() <= PAGE_BYTE_BUDGET);
        let (next, body) = page[1..page.len() - 1].split_once(',').unwrap();
        let next: usize = next.parse().unwrap();
        assert!(next > offset);
        let body = &body[1..body.len() - 1];
        assert_eq!(body, entries[offset..next].join(","));
        seen.extend_from_slice(&entries[offset..next]);
        offset = next;
        pages += 1;
    }
    assert_eq!(seen, entries);
    assert!(pages > 1);
}
