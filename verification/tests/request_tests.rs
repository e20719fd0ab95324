use load_tester::{build_request, plan_request, split_key_value, RequestError};

fn strings(items: &[&str]) -> Vec<String> {
    items.iter().map(|s| s.to_string()).collect()
}

#[test]
fn split_simple_pair() {
    assert_eq!(
        Some((String::from("header_key_1"), String::from("header_value_1"))),
        split_key_value("header_key_1=header_value_1")
    );
}

#[test]
fn split_without_separator_is_none() {
    assert_eq!(None, split_key_value("no_separator_here"));
    assert_eq!(None, split_key_value(""));
}

#[test]
fn split_keeps_text_before_first_and_after_last_separator() {
    assert_eq!(Some((String::from("a"), String::from("c"))), split_key_value("a=b=c"));
    assert_eq!(Some((String::new(), String::new())), split_key_value("="));
    assert_eq!(Some((String::from("k"), String::new())), split_key_value("k="));
    assert_eq!(Some((String::new(), String::from("v"))), split_key_value("=v"));
}

#[test]
fn split_handles_non_ascii() {
    assert_eq!(Some((String::from("città"), String::from("perché"))), split_key_value("città=perché"));
}

#[test]
fn split_single_separator_roundtrip() {
    let entry = "query_string_key_1=query_string_value_1";
    let (k, v) = split_key_value(entry).unwrap();
    assert_eq!(entry, format!("{}={}", k, v));
}

#[test]
fn plan_keeps_order_of_headers_and_queries() {
    let plan = plan_request(
        "http://localhost/test",
        &strings(&["header_key_1=header_value_1", "header_key_2=header_value_2"]),
        &strings(&["query_string_key_1=query_string_value_1", "query_string_key_2=query_string_value_2"]),
    )
    .unwrap();
    assert_eq!("http://localhost/test", plan.url);
    assert_eq!(
        vec![
            (String::from("header_key_1"), String::from("header_value_1")),
            (String::from("header_key_2"), String::from("header_value_2")),
        ],
        plan.headers
    );
    assert_eq!(
        vec![
            (String::from("query_string_key_1"), String::from("query_string_value_1")),
            (String::from("query_string_key_2"), String::from("query_string_value_2")),
        ],
        plan.query
    );
}

#[test]
fn plan_without_entries() {
    let plan = plan_request("http://localhost/test", &vec![], &vec![]).unwrap();
    assert!(plan.headers.is_empty());
    assert!(plan.query.is_empty());
}

#[test]
fn plan_reports_first_bad_header() {
    let r = plan_request("u", &strings(&["a=1", "bad", "worse"]), &strings(&["also_bad"]));
    assert_eq!(Some(RequestError::InvalidHeader(1)), r.err());
}

#[test]
fn plan_reports_first_bad_query_string() {
    let r = plan_request("u", &strings(&["a=1"]), &strings(&["q=1", "q=2", "bad"]));
    assert_eq!(Some(RequestError::InvalidQueryString(2)), r.err());
}

#[test]
fn build_request_carries_headers_and_query() {
    let plan = plan_request(
        "http://localhost:1/test",
        &strings(&["header_key_1=header_value_1"]),
        &strings(&["query_string_key_1=query_string_value_1", "k=a b"]),
    )
    .unwrap();
    let client = reqwest::blocking::Client::new();
    let request = build_request(&client, &plan).build().unwrap();
    assert_eq!("GET", request.method().as_str());
    assert_eq!(
        "http://localhost:1/test?query_string_key_1=query_string_value_1&k=a+b",
        request.url().as_str()
    );
    assert_eq!("header_value_1", request.headers().get("header_key_1").unwrap());
}

#[test]
fn build_request_lowercases_header_names_and_keeps_repeats() {
    let plan = plan_request(
        "http://localhost:1/",
        &strings(&["X-Custom=One", "x-custom=Two"]),
        &vec![],
    )
    .unwrap();
    let client = reqwest::blocking::Client::new();
    let request = build_request(&client, &plan).build().unwrap();
    let names: Vec<String> = request.headers().keys().map(|k| k.as_str().to_string()).collect();
    assert_eq!(vec![String::from("x-custom")], names);
    let values: Vec<&str> = request
        .headers()
        .get_all("x-custom")
        .iter()
        .map(|v| v.to_str().unwrap())
        .collect();
    assert_eq!(vec!["One", "Two"], values);
    assert_eq!(None, request.url().query());
}

#[test]
fn build_request_fails_on_invalid_header_name() {
    let plan = plan_request("http://localhost:1/", &strings(&["bad name=v"]), &vec![]).unwrap();
    let client = reqwest::blocking::Client::new();
    assert!(build_request(&client, &plan).build().is_err());
}

#[test]
fn build_request_fails_on_url_without_host() {
    let plan = plan_request("not a url", &vec![], &strings(&["k=v"])).unwrap();
    let client = reqwest::blocking::Client::new();
    assert!(build_request(&client, &plan).build().is_err());
}

#[test]
fn build_request_keeps_query_of_url_first() {
    let plan = plan_request("http://localhost:1/p?a=b", &vec![], &strings(&["k=v w"])).unwrap();
    let client = reqwest::blocking::Client::new();
    let request = build_request(&client, &plan).build().unwrap();
    let pairs: Vec<(String, String)> = request
        .url()
        .query_pairs()
        .map(|(k, v)| (k.into_owned(), v.into_owned()))
        .collect();
    assert_eq!(
        vec![(String::from("a"), String::from("b")), (String::from("k"), String::from("v w"))],
        pairs
    );
}

#[test]
fn count_header_names_ignores_case_and_repeats() {
    let headers = vec![
        (String::from("X-A"), String::from("1")),
        (String::from("x-a"), String::from("2")),
        (String::from("B"), String::from("3")),
        (String::from("x-A"), String::from("4")),
    ];
    assert_eq!(2, load_tester::count_header_names(&headers));
    assert_eq!(0, load_tester::count_header_names(&vec![]));
}

#[test]
fn try_build_request_builds_ordinary_requests() {
    let plan = plan_request(
        "http://localhost:1/test#frag",
        &strings(&["a=1"]),
        &strings(&["k=v", "k=w"]),
    )
    .unwrap();
    let client = reqwest::blocking::Client::new();
    let request = load_tester::try_build_request(&client, &plan).unwrap().build().unwrap();
    assert_eq!("http://localhost:1/test?k=v&k=w#frag", request.url().as_str());
    assert_eq!("1", request.headers().get("a").unwrap());
}

#[test]
fn try_build_request_on_unparsable_url_gives_failed_builder() {
    let plan = plan_request("::nonsense::", &vec![], &strings(&["k=v"])).unwrap();
    let client = reqwest::blocking::Client::new();
    let builder = load_tester::try_build_request(&client, &plan).unwrap();
    assert!(builder.build().is_err());
}
