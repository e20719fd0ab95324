use load_tester::{calc_stats, summarize, ResponseInfo, StatsInfo};

fn point(stats: &StatsInfo, i: usize) -> (f32, f32) {
    let (x, y) = stats.points[i];
    (x as f32, y as f32)
}

#[test]
fn empty_vector() {
    let input: Vec<ResponseInfo> = vec![];

    let response: StatsInfo = calc_stats(&input);

    assert_eq!(0, response.total_time);
    assert_eq!(0, response.max_time);
    assert_eq!(0, response.min_time);
    assert_eq!(0, response.status_codes.len());
    assert_eq!(0, response.points.len());
}

#[test]
fn vector_with_single_value() {
    let input: Vec<ResponseInfo> = vec![ResponseInfo { status: 200, time: 50 }];

    let response: StatsInfo = calc_stats(&input);

    assert_eq!(50, response.total_time);
    assert_eq!(50, response.max_time);
    assert_eq!(50, response.min_time);

    assert_eq!(1, response.status_codes.len());
    assert_eq!((&200, &1), response.status_codes.iter().next().unwrap());

    assert_eq!(2, response.points.len());
    assert_eq!((0.0, 0.0), point(&response, 0));
    assert_eq!((1.0, 50.0), point(&response, response.points.len() - 1));
}

#[test]
fn vector_with_multiple_values() {
    let input: Vec<ResponseInfo> = vec![
        ResponseInfo { status: 200, time: 25 },
        ResponseInfo { status: 400, time: 50 },
        ResponseInfo { status: 200, time: 75 },
    ];

    let response: StatsInfo = calc_stats(&input);

    assert_eq!(150, response.total_time);
    assert_eq!(75, response.max_time);
    assert_eq!(25, response.min_time);

    assert_eq!(2, response.status_codes.len());
    assert_eq!(&2, response.status_codes.iter().filter(|status_code| status_code.0 == &200).next().unwrap().1);
    assert_eq!(&1, response.status_codes.iter().filter(|status_code| status_code.0 == &400).next().unwrap().1);

    assert_eq!(4, response.points.len());
    assert_eq!((0.0, 0.0), point(&response, 0));
    assert_eq!((1.0, 25.0), point(&response, 1));
    assert_eq!((2.0, 50.0), point(&response, 2));
    assert_eq!((3.0, 75.0), point(&response, 3));
}

#[test]
fn min_time_is_smallest_time_even_when_slow() {
    let input = vec![ResponseInfo::new(200, 12000), ResponseInfo::new(200, 15000)];
    let response = calc_stats(&input);
    assert_eq!(12000, response.min_time);
    assert_eq!(15000, response.max_time);
    assert_eq!(27000, response.total_time);
}

#[test]
fn status_codes_count_each_answer() {
    let input = vec![
        ResponseInfo::new(500, 1),
        ResponseInfo::new(200, 2),
        ResponseInfo::new(500, 3),
        ResponseInfo::new(500, 4),
        ResponseInfo::new(404, 5),
    ];
    let response = calc_stats(&input);
    assert_eq!(3, response.status_codes.len());
    assert_eq!(Some(&3), response.status_codes.get(&500));
    assert_eq!(Some(&1), response.status_codes.get(&200));
    assert_eq!(Some(&1), response.status_codes.get(&404));
    let counted: u32 = response.status_codes.values().sum();
    assert_eq!(5, counted);
}

#[test]
fn response_info_new_keeps_fields() {
    let info = ResponseInfo::new(418, 123);
    assert_eq!(418, info.status);
    assert_eq!(123, info.time);
}

#[test]
fn summarize_empty_is_none() {
    let input: Vec<ResponseInfo> = vec![];
    assert!(summarize(&input).is_none());
}

#[test]
fn summarize_average_rounds_down() {
    let input = vec![
        ResponseInfo::new(200, 10),
        ResponseInfo::new(200, 20),
        ResponseInfo::new(200, 25),
    ];
    let report = summarize(&input).unwrap();
    assert_eq!(3, report.successful);
    assert_eq!(18, report.average_time);
    assert_eq!(55, report.stats.total_time);
    assert!(report.stats.min_time <= report.average_time);
    assert!(report.average_time <= report.stats.max_time);
}

#[test]
fn summarize_average_between_min_and_max() {
    let input = vec![ResponseInfo::new(200, 20000), ResponseInfo::new(503, 30000)];
    let report = summarize(&input).unwrap();
    assert_eq!(25000, report.average_time);
    assert_eq!(20000, report.stats.min_time);
    assert_eq!(30000, report.stats.max_time);
}

#[test]
fn single_slow_answer_is_its_own_minimum() {
    let response = calc_stats(&vec![ResponseInfo::new(200, 20000)]);
    assert_eq!(20000, response.min_time);
    assert_eq!(20000, response.max_time);
    assert_eq!(20000, response.total_time);
    assert_eq!(Some(&1), response.status_codes.get(&200));
}

#[test]
fn reordering_keeps_statistics() {
    let a = vec![ResponseInfo::new(200, 30), ResponseInfo::new(404, 10), ResponseInfo::new(200, 20)];
    let b = vec![ResponseInfo::new(200, 20), ResponseInfo::new(200, 30), ResponseInfo::new(404, 10)];
    let sa = calc_stats(&a);
    let sb = calc_stats(&b);
    assert_eq!(sa.total_time, sb.total_time);
    assert_eq!(sa.min_time, sb.min_time);
    assert_eq!(sa.max_time, sb.max_time);
    assert_eq!(sa.status_codes, sb.status_codes);
    assert_eq!(sa.points.len(), sb.points.len());
}

#[test]
fn concatenation_combines_statistics() {
    let a = vec![ResponseInfo::new(200, 30), ResponseInfo::new(404, 10)];
    let b = vec![ResponseInfo::new(200, 5), ResponseInfo::new(500, 70)];
    let mut c = a.iter().map(|r| ResponseInfo::new(r.status, r.time)).collect::<Vec<_>>();
    c.extend(b.iter().map(|r| ResponseInfo::new(r.status, r.time)));
    let (sa, sb, sc) = (calc_stats(&a), calc_stats(&b), calc_stats(&c));
    assert_eq!(sa.total_time + sb.total_time, sc.total_time);
    assert_eq!(sa.min_time.min(sb.min_time), sc.min_time);
    assert_eq!(sa.max_time.max(sb.max_time), sc.max_time);
    assert_eq!(Some(&2), sc.status_codes.get(&200));
    assert_eq!(sa.points.len() + sb.points.len() - 1, sc.points.len());
}

#[test]
fn fits_accepts_ordinary_answers() {
    assert!(load_tester::fits(&vec![ResponseInfo::new(200, 5), ResponseInfo::new(404, 7)]));
    assert!(load_tester::fits(&vec![]));
}

#[test]
fn fits_refuses_a_total_past_u128() {
    assert!(!load_tester::fits(&vec![ResponseInfo::new(200, u128::MAX), ResponseInfo::new(200, 1)]));
    assert!(load_tester::fits(&vec![ResponseInfo::new(200, u128::MAX), ResponseInfo::new(200, 0)]));
}
