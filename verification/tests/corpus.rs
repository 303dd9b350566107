use wordgen::TxtReader;

#[test]
fn parse_splits_lines_and_lowers_case() {
    assert_eq!(TxtReader::parse("Anna\nBob\nCARL"), vec!["anna", "bob", "carl"]);
}

#[test]
fn parse_drops_empty_lines() {
    assert_eq!(TxtReader::parse("\n\nanna\n\n\nbob\n"), vec!["anna", "bob"]);
    assert_eq!(TxtReader::parse("anna\r\nbob\r\n"), vec!["anna", "bob"]);
    assert_eq!(TxtReader::parse("anna\rbob"), vec!["anna", "bob"]);
}

#[test]
fn parse_of_nothing_is_nothing() {
    assert_eq!(TxtReader::parse(""), Vec::<String>::new());
    assert_eq!(TxtReader::parse("\n\r\n"), Vec::<String>::new());
}

#[test]
fn parse_keeps_other_white_space() {
    assert_eq!(TxtReader::parse("Mary Ann\n Bo \tb"), vec!["mary ann", " bo \tb"]);
}

#[test]
fn parse_lowers_beyond_ascii() {
    assert_eq!(TxtReader::parse("ÉLODIE\nÅsa"), vec!["élodie", "åsa"]);
}

#[test]
fn parse_without_line_end_is_one_word() {
    assert_eq!(TxtReader::parse("Zoe"), vec!["zoe"]);
}
