use rustanda::determine_delimiter;

fn sniff(line: &str) -> char {
    determine_delimiter(&line.to_string())
}

#[test]
fn delimiter_determination_is_working() {
    let first_line = "Type,LongestShell,Diameter,Height,WholeWeight,\
                      ShuckedWeight,VisceraWeight,ShellWeight,Rings\n"
        .to_string();
    let delimiter = determine_delimiter(&first_line);
    assert_eq!(delimiter, ',');
}

#[test]
fn majority_of_commas_over_one_semicolon() {
    assert_eq!(sniff("a,b,c;d"), ',');
}

#[test]
fn each_candidate_wins_when_most_frequent() {
    assert_eq!(sniff("a,b,c"), ',');
    assert_eq!(sniff("a;b;c,d"), ';');
    assert_eq!(sniff("a\tb\tc,d"), '\t');
    assert_eq!(sniff("a|b|c;d"), '|');
    assert_eq!(sniff("a:b:c|d"), ':');
}

#[test]
fn no_candidate_gives_comma() {
    assert_eq!(sniff("abc def"), ',');
    assert_eq!(sniff("single_column"), ',');
    assert_eq!(sniff("\"quoted\" text"), ',');
}

#[test]
fn empty_line_gives_comma() {
    assert_eq!(sniff(""), ',');
}

#[test]
fn tie_goes_to_the_earlier_candidate() {
    assert_eq!(sniff("a,b;c"), ',');
    assert_eq!(sniff("a;b,c"), ',');
    assert_eq!(sniff("a;b|c"), ';');
    assert_eq!(sniff("a|b;c"), ';');
    assert_eq!(sniff("a\tb|c:d"), '\t');
    assert_eq!(sniff("a:b|c"), '|');
    assert_eq!(sniff(":|\t;,"), ',');
    assert_eq!(sniff("::||"), '|');
}

#[test]
fn later_candidate_wins_only_with_more_occurrences() {
    assert_eq!(sniff("a,b:c:d"), ':');
    assert_eq!(sniff("a,b,c:d:e"), ',');
    assert_eq!(sniff("a,b,c:d:e:f"), ':');
}

#[test]
fn quotes_do_not_matter_to_the_count() {
    assert_eq!(sniff("\"a;b;c\",d"), ';');
}

#[test]
fn other_characters_are_never_chosen() {
    assert_eq!(sniff("a b c d e"), ',');
    assert_eq!(sniff("a.b.c.d,e"), ',');
    assert_eq!(sniff("a/b/c/d|e"), '|');
}

#[test]
fn counts_characters_beyond_ascii_lines() {
    assert_eq!(sniff("größe;gewicht;höhe,x"), ';');
}
