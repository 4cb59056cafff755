use loadbench::cli::{connection_in_range, parse_unsigned, Args, CONNECTION_RANGE_ERROR};
use loadbench::uri::build_uri;

#[test]
fn test_works_without_arguments() {
    Args::try_parse_from(&["loadcli"]).expect("Should work without arguments");
}

#[test]
fn test_works_with_uri() {
    Args::try_parse_from(&["loadcli", "https://some.host.example.com:4242/uri?param=foo&bar=bazz"])
        .expect("Should work without arguments");
}

#[test]
fn test_works_with_custom_connections() {
    let args = Args::try_parse_from(&[
        "loadcli",
        "-c",
        "1",
        "https://some.host.example.com:4242/uri?param=foo&bar=bazz",
    ])
    .expect("Should work without arguments");
    assert_eq!(args.connections, 1)
}

#[test]
fn test_argument_before_options() {
    let args = Args::try_parse_from(&[
        "loadcli",
        "https://some.host.example.com:4242/uri?param=foo&bar=bazz",
        "-c",
        "1",
    ])
    .expect("Should work without arguments");
    assert_eq!(args.connections, 1)
}

#[test]
fn test_rejects_invalid_connection_count() {
    let args = Args::try_parse_from(&["loadcli", "-c", "0"]);
    assert_eq!(args.is_err(), true);

    let args = Args::try_parse_from(&["loadcli", "-c", "65533"]);
    assert_eq!(args.is_err(), true);

    let args = Args::try_parse_from(&["loadcli", "-c", "65536000"]);
    assert_eq!(args.is_err(), true);
}

#[test]
fn test_works_with_default_argument() {
    let args = Args::try_parse_from(&[
        "cli_load_test",
        "-t",
        "http://localhost:8080/person",
        "-o",
        "test.text",
    ])
    .unwrap();
    assert_eq!(args.connections, 512);
    assert_eq!(args.requests, 100_000);
    assert_eq!(args.target_uri, "http://localhost:8080/person");
    assert_eq!(args.output_file, Some(String::from("test.text")));
}

#[test]
fn test_connection_must_be_in_range() {
    let mut a = [
        "cli_load_test",
        "-t",
        "http://localhost:8080/person",
        "-o",
        "test.text",
        "-c",
        "placeholder",
    ];

    assert!(Args::try_parse_from(&{
        a[6] = "0";
        a
    })
    .is_err());

    assert!(Args::try_parse_from(&{
        a[6] = "-1";
        a
    })
    .is_err());

    assert!(Args::try_parse_from(&{
        a[6] = "65527"; // > 65536 - 10
        a
    })
    .is_err());
}

#[test]
fn long_options_and_requests() {
    let args = Args::try_parse_from(&[
        "loadcli",
        "--requests",
        "+40",
        "--connections",
        "4",
        "--target-uri",
        "http://h/a",
        "--output-file",
        "out.csv",
    ])
    .unwrap();
    assert_eq!(args.requests, 40);
    assert_eq!(args.connections, 4);
    assert_eq!(args.target_uri, "http://h/a");
    assert_eq!(args.output_file, Some(String::from("out.csv")));
}

#[test]
fn malformed_command_lines_are_refused() {
    assert!(Args::try_parse_from(&["loadcli", "-c"]).is_err());
    assert!(Args::try_parse_from(&["loadcli", "-x", "1"]).is_err());
    assert!(Args::try_parse_from(&["loadcli", "http://a/", "http://b/"]).is_err());
    assert!(Args::try_parse_from(&["loadcli", "-r", "ten"]).is_err());
    assert!(Args::try_parse_from(&["loadcli", "-r", "18446744073709551616"]).is_err());
}

#[test]
fn defaults_apply_to_empty_command_line() {
    let args = Args::try_parse_from(&[]).unwrap();
    assert_eq!(args.connections, 512);
    assert_eq!(args.requests, 100_000);
    assert_eq!(args.output_file, None);
    assert_eq!(args.target_uri, "http://localhost:8080/person");
}

#[test]
fn connection_counts_in_range() {
    assert_eq!(connection_in_range("1"), Ok(1));
    assert_eq!(connection_in_range("65526"), Ok(65526));
    assert_eq!(connection_in_range("+12"), Ok(12));
    assert_eq!(connection_in_range("0012"), Ok(12));
    assert_eq!(connection_in_range("65527"), Err(String::from(CONNECTION_RANGE_ERROR)));
    assert_eq!(connection_in_range("0"), Err(String::from("Number of connection not in range 1-65526")));
    assert!(connection_in_range("").is_err());
    assert!(connection_in_range("+").is_err());
    assert!(connection_in_range("1 2").is_err());
    assert!(connection_in_range("-3").is_err());
}

#[test]
fn unsigned_numbers_up_to_a_limit() {
    assert_eq!(parse_unsigned("18446744073709551615", u64::MAX), Some(u64::MAX));
    assert_eq!(parse_unsigned("18446744073709551616", u64::MAX), None);
    assert_eq!(parse_unsigned("99999999999999999999999", u64::MAX), None);
    assert_eq!(parse_unsigned("10", 9), None);
    assert_eq!(parse_unsigned("9", 9), Some(9));
    assert_eq!(parse_unsigned("0", 0), Some(0));
    assert_eq!(parse_unsigned("1x", 100), None);
}

#[test]
fn targets_parse_as_uris() {
    let u = build_uri(&String::from("http://localhost:8080/person?x=1")).unwrap();
    assert_eq!(u.to_string(), "http://localhost:8080/person?x=1");
    assert_eq!(u.path(), "/person");
    let e = build_uri(&String::from("http://bad host/")).unwrap_err();
    assert_eq!(e.text, "http://bad host/");
    assert!(build_uri(&String::new()).is_err());
}
