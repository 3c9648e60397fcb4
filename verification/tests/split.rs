use rustanda::{split_csv_line, split_header};

fn strings(items: &[&str]) -> Vec<String> {
    items.iter().map(|s| s.to_string()).collect()
}

#[test]
fn quoted_delimiter_is_data() {
    assert_eq!(split_csv_line("a,\"b,c\",d", ','), strings(&["a", "b,c", "d"]));
}

#[test]
fn plain_fields() {
    assert_eq!(split_csv_line("1,9.5,true", ','), strings(&["1", "9.5", "true"]));
}

#[test]
fn fields_are_trimmed() {
    assert_eq!(split_csv_line("  a , b\t,\u{a0}c\u{3000}", ','), strings(&["a", "b", "c"]));
}

#[test]
fn inner_white_space_stays() {
    assert_eq!(split_csv_line(" a b , c  d ", ','), strings(&["a b", "c  d"]));
}

#[test]
fn white_space_inside_quotes_is_trimmed_too() {
    assert_eq!(split_csv_line("\"  a  \",b", ','), strings(&["a", "b"]));
}

#[test]
fn last_field_is_always_given() {
    assert_eq!(split_csv_line("", ','), strings(&[""]));
    assert_eq!(split_csv_line("a,", ','), strings(&["a", ""]));
    assert_eq!(split_csv_line(",", ','), strings(&["", ""]));
    assert_eq!(split_csv_line(",,", ','), strings(&["", "", ""]));
}

#[test]
fn line_without_delimiter_is_one_field() {
    assert_eq!(split_csv_line("abc", ','), strings(&["abc"]));
    assert_eq!(split_csv_line("a;b", ','), strings(&["a;b"]));
}

#[test]
fn unterminated_quote_takes_the_rest() {
    assert_eq!(split_csv_line("a,\"b,c,d", ','), strings(&["a", "b,c,d"]));
}

#[test]
fn quotes_are_dropped_wherever_they_stand() {
    assert_eq!(split_csv_line("a\"b\"c,d", ','), strings(&["abc", "d"]));
    assert_eq!(split_csv_line("\"\"", ','), strings(&[""]));
    assert_eq!(split_csv_line("\"a\"\"b\",c", ','), strings(&["ab", "c"]));
}

#[test]
fn quote_toggles_each_time() {
    assert_eq!(split_csv_line("\"a,b\",c,\"d,e\"", ','), strings(&["a,b", "c", "d,e"]));
    assert_eq!(split_csv_line("x\"y,z\"w,\"q", ','), strings(&["xy,zw", "q"]));
}

#[test]
fn other_delimiters() {
    assert_eq!(split_csv_line("a;\"b;c\";d", ';'), strings(&["a", "b;c", "d"]));
    assert_eq!(split_csv_line("a\tb\tc", '\t'), strings(&["a", "b", "c"]));
    assert_eq!(split_csv_line("a|b", '|'), strings(&["a", "b"]));
    assert_eq!(split_csv_line("12:30:05", ':'), strings(&["12", "30", "05"]));
}

#[test]
fn tab_delimiter_is_not_trimmed_away_as_white_space() {
    assert_eq!(split_csv_line(" a \t b ", '\t'), strings(&["a", "b"]));
}

#[test]
fn quote_as_delimiter_never_splits() {
    assert_eq!(split_csv_line("a\"b\"c", '"'), strings(&["abc"]));
}

#[test]
fn characters_beyond_ascii() {
    assert_eq!(split_csv_line("größe,\"日本,語\",ñ", ','), strings(&["größe", "日本,語", "ñ"]));
}

#[test]
fn split_agrees_with_trim_of_the_standard_library() {
    let line = "\u{2003}x\u{2009},\u{85}y\r\n,\u{feff}z ,\u{200b}w\u{1680}";
    let expected: Vec<String> = line.split(',').map(|part| part.trim().to_string()).collect();
    assert_eq!(split_csv_line(line, ','), expected);
}

#[test]
fn header_is_cut_at_every_delimiter() {
    assert_eq!(split_header("id,score,active", ','), strings(&["id", "score", "active"]));
}

#[test]
fn header_is_not_trimmed_and_keeps_quotes() {
    assert_eq!(split_header(" id , \"a,b\" ", ','), strings(&[" id ", " \"a", "b\" "]));
}

#[test]
fn header_always_has_a_name() {
    assert_eq!(split_header("", ','), strings(&[""]));
    assert_eq!(split_header("abc", ','), strings(&["abc"]));
    assert_eq!(split_header("a,,b,", ','), strings(&["a", "", "b", ""]));
}

#[test]
fn header_agrees_with_split_of_the_standard_library() {
    for line in ["a;b;c", ";", "", "x;\"y;z\";", " a ; b "] {
        let expected: Vec<String> = line.split(';').map(|part| part.to_string()).collect();
        assert_eq!(split_header(line, ';'), expected);
    }
}
