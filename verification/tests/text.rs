use dynops::text::{decimal_string, push_joined, split_coordinate_lines};

fn fields(data: &str) -> Vec<Result<(String, String), String>> {
    split_coordinate_lines(data)
}

fn ok(x: &str, y: &str) -> Result<(String, String), String> {
    Ok((x.to_owned(), y.to_owned()))
}

#[test]
fn lines_split_at_first_comma() {
    assert_eq!(fields("1,2\n3,4"), vec![ok("1", "2"), ok("3", "4")]);
    assert_eq!(fields("1,2,3\n"), vec![ok("1", "2,3")]);
    assert_eq!(fields(" 1 , 2 "), vec![ok(" 1 ", " 2 ")]);
    assert_eq!(fields(",\n"), vec![ok("", "")]);
}

#[test]
fn empty_lines_are_skipped() {
    assert_eq!(fields(""), vec![]);
    assert_eq!(fields("\n\n"), vec![]);
    assert_eq!(fields("\n1,2\n\n3,4\n"), vec![ok("1", "2"), ok("3", "4")]);
    assert_eq!(fields("\r\n1,2\r\n"), vec![ok("1", "2")]);
}

#[test]
fn carriage_return_dropped_only_before_newline() {
    assert_eq!(fields("1,2\r\n3,4\r"), vec![ok("1", "2"), ok("3", "4\r")]);
    assert_eq!(fields("1,2\r\r\n"), vec![ok("1", "2\r")]);
    assert_eq!(fields("1\r,2\n"), vec![ok("1\r", "2")]);
    assert_eq!(fields("\r"), vec![Err("\r".to_owned())]);
}

#[test]
fn line_without_comma_is_reported() {
    assert_eq!(fields("1,2\nabc\n3,4"), vec![ok("1", "2"), Err("abc".to_owned()), ok("3", "4")]);
    assert_eq!(fields("é;ü\n"), vec![Err("é;ü".to_owned())]);
}

#[test]
fn same_lines_as_std() {
    let samples = ["a,b\r\nc\n\r\n,d\re\n", "x\n\ny,z\r", "é,ü\r\n\n", "1,2\n3"];
    for s in samples {
        let expected: Vec<Result<(String, String), String>> = s
            .lines()
            .filter(|l| !l.is_empty())
            .map(|l| match l.split_once(',') {
                Some((x, y)) => Ok((x.to_owned(), y.to_owned())),
                None => Err(l.to_owned()),
            })
            .collect();
        assert_eq!(fields(s), expected, "{s:?}");
    }
}

#[test]
fn decimal_numbers() {
    assert_eq!(decimal_string(0), "0");
    assert_eq!(decimal_string(7), "7");
    assert_eq!(decimal_string(10), "10");
    assert_eq!(decimal_string(9000), "9000");
    assert_eq!(decimal_string(usize::MAX), usize::MAX.to_string());
}

#[test]
fn joining() {
    let mut out = String::from("<");
    push_joined(&mut out, &["a".to_owned(), "bc".to_owned(), "".to_owned()], "--");
    assert_eq!(out, "<a--bc--");
    let mut out = String::new();
    push_joined(&mut out, &[], ",");
    assert_eq!(out, "");
}
