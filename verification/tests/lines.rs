use stable_marriage::lines::split_lines;

fn split(text: &str) -> Vec<String> {
    split_lines(&text.as_bytes().to_vec())
        .into_iter()
        .map(|line| String::from_utf8(line).unwrap())
        .collect()
}

#[test]
fn names_are_split_at_line_breaks() {
    assert_eq!(split("Al\r\nBo\r\nCy"), vec!["Al", "Bo", "Cy"]);
}

#[test]
fn text_without_break_is_one_line() {
    assert_eq!(split("Al"), vec!["Al"]);
    assert_eq!(split(""), vec![""]);
}

#[test]
fn break_at_the_end_leaves_an_empty_line() {
    assert_eq!(split("Al\r\nBo\r\n"), vec!["Al", "Bo", ""]);
    assert_eq!(split("\r\n"), vec!["", ""]);
}

#[test]
fn breaks_in_a_row_part_empty_lines() {
    assert_eq!(split("Al\r\n\r\nBo"), vec!["Al", "", "Bo"]);
}

#[test]
fn lone_returns_and_feeds_are_kept() {
    assert_eq!(split("Al\nBo"), vec!["Al\nBo"]);
    assert_eq!(split("Al\rBo"), vec!["Al\rBo"]);
    assert_eq!(split("Al\n\rBo"), vec!["Al\n\rBo"]);
    assert_eq!(split("Al\r\r\nBo"), vec!["Al\r", "Bo"]);
    assert_eq!(split("Al\r\n\nBo"), vec!["Al", "\nBo"]);
    assert_eq!(split("Al\r"), vec!["Al\r"]);
}

#[test]
fn split_agrees_with_std() {
    let samples = [
        "",
        "a",
        "\r",
        "\n",
        "\r\n",
        "a\r\nb",
        "\r\na\r\n",
        "a\r\r\nb\n\r\nc\r",
        "\r\n\r\n\r\n",
        "na\u{ef}ve\r\nZo\u{eb}",
    ];
    for text in samples {
        let expected: Vec<String> = text.split("\r\n").map(|s| s.to_string()).collect();
        assert_eq!(split(text), expected);
    }
}
