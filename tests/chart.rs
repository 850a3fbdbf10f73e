use cave_control::chart::{plan_chart, series_color, time_axis_label, ChartPlan, Rgb};
use cave_control::query::{
    chart_request_from_query, parse_axis_bound, parse_chart_request, ChartRequest, RenderError,
};
use cave_control::store::ReadingStore;

fn pairs(items: &[(&str, &str)]) -> Vec<(String, String)> {
    items.iter().map(|(k, v)| (k.to_string(), v.to_string())).collect()
}

fn request(names: &[&str], x_min: Option<i64>, x_max: Option<i64>) -> ChartRequest {
    ChartRequest {
        series_names: names.iter().map(|n| n.to_string()).collect(),
        x_min,
        x_max,
        title: "T".to_string(),
    }
}

fn plan(store: &ReadingStore, req: &ChartRequest) -> ChartPlan {
    match plan_chart(store, req) {
        Ok(p) => p,
        Err(e) => panic!("no plan: {:?}", e),
    }
}

#[test]
fn axis_bounds() {
    assert_eq!(parse_axis_bound("0"), Some(0));
    assert_eq!(parse_axis_bound("100"), Some(10000));
    assert_eq!(parse_axis_bound("-12.5"), Some(-1250));
    assert_eq!(parse_axis_bound("3.25"), Some(325));
    assert_eq!(parse_axis_bound("007.05"), Some(705));
    assert_eq!(parse_axis_bound("999999999999999.99"), Some(99999999999999999));
    assert_eq!(parse_axis_bound(""), None);
    assert_eq!(parse_axis_bound("-"), None);
    assert_eq!(parse_axis_bound("1."), Some(100));
    assert_eq!(parse_axis_bound(".5"), Some(50));
    assert_eq!(parse_axis_bound("-.5"), Some(-50));
    assert_eq!(parse_axis_bound("+5"), Some(500));
    assert_eq!(parse_axis_bound("1.234"), Some(123));
    assert_eq!(parse_axis_bound("1.235"), Some(124));
    assert_eq!(parse_axis_bound("0.999"), Some(100));
    assert_eq!(parse_axis_bound("-2.0049"), Some(-200));
    assert_eq!(parse_axis_bound("."), None);
    assert_eq!(parse_axis_bound("1.2.3"), None);
    assert_eq!(parse_axis_bound("+-1"), None);
    assert_eq!(parse_axis_bound("abc"), None);
    assert_eq!(parse_axis_bound("1e3"), None);
    assert_eq!(parse_axis_bound("1000000000000000"), None);
}

#[test]
fn request_fields() {
    let r = parse_chart_request(&pairs(&[
        ("name", "temp-inside"),
        ("name", "humidity-inside"),
        ("xmin", "0"),
        ("xmax", "100"),
        ("title", "inside"),
    ]))
    .unwrap();
    assert_eq!(r.series_names, vec!["temp-inside".to_string(), "humidity-inside".to_string()]);
    assert_eq!(r.x_min, Some(0));
    assert_eq!(r.x_max, Some(10000));
    assert_eq!(r.title, "inside");
}

#[test]
fn request_without_title_is_refused() {
    let r = parse_chart_request(&pairs(&[("name", "a"), ("xmin", "0")]));
    assert!(matches!(r, Err(RenderError::MissingTitle)));
    let r = chart_request_from_query("name=a&name=b");
    assert!(matches!(r, Err(RenderError::MissingTitle)));
}

#[test]
fn request_with_unknown_key_names_it() {
    let r = parse_chart_request(&pairs(&[("name", "a"), ("color", "red"), ("bogus", "x"), ("title", "t")]));
    match r {
        Err(RenderError::UnknownKey(k)) => assert_eq!(k, "color"),
        _ => panic!("expected an unknown key"),
    }
    let r = parse_chart_request(&pairs(&[("xmax", "high"), ("title", "t")]));
    match r {
        Err(RenderError::BadNumber(v)) => assert_eq!(v, "high"),
        _ => panic!("expected a bad number"),
    }
}

#[test]
fn query_string_is_decoded() {
    let r = chart_request_from_query("name=temp-inside&name=humidity%2Dinside&xmin=-5&title=cave+inside").unwrap();
    assert_eq!(r.series_names, vec!["temp-inside".to_string(), "humidity-inside".to_string()]);
    assert_eq!(r.x_min, Some(-500));
    assert_eq!(r.x_max, None);
    assert_eq!(r.title, "cave inside");
    assert!(matches!(chart_request_from_query(""), Err(RenderError::MissingTitle)));
}

#[test]
fn time_axis_spans_the_union_of_series() {
    let mut s = ReadingStore::new();
    for t in 0..=10 {
        s.append("A", t, 100 + t).unwrap();
    }
    for t in 5..=15 {
        s.append("B", t, 50 - t).unwrap();
    }
    let p = plan(&s, &request(&["A", "B"], None, None));
    assert_eq!((p.ts_min, p.ts_max), (0, 15));
    assert_eq!((p.val_min, p.val_max), (35, 110));
    assert_eq!(p.title, "T");
    assert_eq!(p.series.len(), 2);
    assert_eq!(p.series[0].name, "A");
    assert_eq!(p.series[0].points.len(), 11);
    assert_eq!(p.series[1].points[0], (5, 45));
    assert_eq!(p.series[0].color, Rgb { r: 114, g: 165, b: 83 });
    assert_eq!(p.series[1].color, Rgb { r: 202, g: 85, b: 114 });
}

#[test]
fn flat_series_widens_value_axis() {
    let mut s = ReadingStore::new();
    s.append("A", 1, 4200).unwrap();
    s.append("A", 2, 4200).unwrap();
    s.append("A", 3, 4200).unwrap();
    let p = plan(&s, &request(&["A"], None, None));
    assert_eq!((p.val_min, p.val_max), (3200, 5200));
}

#[test]
fn request_bounds_override_value_axis() {
    let mut s = ReadingStore::new();
    s.append("A", 1, -5000).unwrap();
    s.append("A", 2, 25000).unwrap();
    let req = chart_request_from_query("name=A&xmin=0&xmax=100&title=T").unwrap();
    let p = plan(&s, &req);
    assert_eq!((p.val_min, p.val_max), (0, 10000));
    let p = plan(&s, &request(&["A"], Some(-100), None));
    assert_eq!((p.val_min, p.val_max), (-100, 25000));
}

#[test]
fn inverted_bounds_are_refused() {
    let mut s = ReadingStore::new();
    s.append("A", 1, 10).unwrap();
    s.append("A", 2, 20).unwrap();
    assert!(matches!(plan_chart(&s, &request(&["A"], Some(100), Some(0))), Err(RenderError::InvertedRange)));
    assert!(matches!(plan_chart(&s, &request(&["A"], Some(20), None)), Err(RenderError::InvertedRange)));
}

#[test]
fn empty_series_has_no_data() {
    let mut s = ReadingStore::new();
    s.append("A", 1, 10).unwrap();
    s.append("A", 2, 20).unwrap();
    assert!(matches!(plan_chart(&s, &request(&["A", "missing"], None, None)), Err(RenderError::NoData)));
    assert!(matches!(plan_chart(&s, &request(&[], None, None)), Err(RenderError::NoData)));
}

#[test]
fn single_timestamp_has_no_data() {
    let mut s = ReadingStore::new();
    s.append("A", 7, 10).unwrap();
    s.append("B", 7, 20).unwrap();
    assert!(matches!(plan_chart(&s, &request(&["A", "B"], None, None)), Err(RenderError::NoData)));
    s.append("B", 8, 20).unwrap();
    assert!(plan_chart(&s, &request(&["A", "B"], None, None)).is_ok());
}

#[test]
fn palette_wraps() {
    assert_eq!(series_color(0), series_color(2));
    assert_eq!(series_color(1), series_color(3));
    assert_ne!(series_color(0), series_color(1));
}

#[test]
fn time_labels_give_weekday_and_time() {
    // 2020-09-13 12:26:40 UTC was a Sunday
    assert_eq!(time_axis_label(1_600_000_000), "Sun 12:26");
    assert_eq!(time_axis_label(0), "Thu 00:00");
    assert_eq!(time_axis_label(i64::MAX), "");
    // the first and last seconds of years 1 and 9999
    assert_eq!(time_axis_label(-62135596800), "Mon 00:00");
    assert_eq!(time_axis_label(253402300799), "Fri 23:59");
}
