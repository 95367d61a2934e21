use wc::{calculate_total_and_max_width_per_column, print_metrics, Metrics, ShowOptions};

fn sample_metrics() -> Vec<Metrics> {
    let m0 = Metrics {
        bytes: 123,
        chars: 9_876_543_210,
        lines: 789,
        words: 1_239_875_670,
        max_line_length: 456,
        filename: "m0".to_owned(),
    };
    let m1 = Metrics {
        bytes: 1_234_567_890,
        chars: 1_234_567,
        lines: 12_345_678_901,
        words: 4_567_890,
        max_line_length: 4_567_890_123,
        filename: "m1".to_owned(),
    };
    vec![m0, m1]
}

#[test]
fn wider_columns() {
    let metrics = sample_metrics();
    let m0 = metrics[0].clone();
    let m1 = metrics[1].clone();
    let (total, mwpc) = calculate_total_and_max_width_per_column(&[m0.clone(), m1.clone()]);
    assert_eq!(total.bytes, m0.bytes + m1.bytes);
    assert_eq!(total.chars, m0.chars + m1.chars);
    assert_eq!(total.lines, m0.lines + m1.lines);
    assert_eq!(total.words, m0.words + m1.words);
    assert_eq!(
        total.max_line_length,
        std::cmp::max(m0.max_line_length, m1.max_line_length)
    );
    assert_eq!(mwpc.bytes, 10);
    assert_eq!(mwpc.chars, 10);
    assert_eq!(mwpc.lines, 11);
    assert_eq!(mwpc.words, 10);
}

#[test]
fn print_wide_columns() {
    let metrics = sample_metrics();
    let m0 = metrics[0].clone();
    let m1 = metrics[1].clone();
    let mwpc = Metrics {
        bytes: 10,
        chars: 10,
        lines: 11,
        words: 10,
        max_line_length: 10,
        filename: "m1".to_owned(),
    };
    let opts = ShowOptions {
        lines: true,
        chars: true,
        bytes: false,
        words: true,
        max_line_length: true,
    };
    let mut writer = vec![];
    print_metrics(&mut writer, &m0, &opts, &mwpc);
    print_metrics(&mut writer, &m1, &opts, &mwpc);
    let output = std::str::from_utf8(writer.as_ref()).unwrap();
    assert_eq!(output, "        789 1239875670 9876543210       456 m0\n12345678901   4567890   1234567 4567890123 m1\n")
}
