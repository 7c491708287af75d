use compress_pdf::content::canonical;
use compress_pdf::content::number::canonical_number;
use compress_pdf::content::tokens::canonical_tokens;

fn canon(s: &str) -> String {
    String::from_utf8(canonical(s.as_bytes()).expect("canonical")).unwrap()
}

#[test]
fn whitespace_comments_and_numbers_are_normalized() {
    assert_eq!(
        canon("q\r\n  1.50000 0.000 +0 -0.0 10.00 20.5000 cm % comment\n/Im1   Do\nQ"),
        "q 1.5 0 0 0 10 20.5 cm/Im1 Do Q"
    );
    assert_eq!(
        canon("BT /F1 12 Tf ( a\\)(b) ) Tj [ (x) -20 <41 42> ] TJ ET"),
        "BT/F1 12 Tf( a\\)(b) )Tj[(x)-20<4142>]TJ ET"
    );
    assert_eq!(
        canon("/Span << /MCID 3 >> BDC EMC"),
        "/Span<</MCID 3>>BDC EMC"
    );
    assert_eq!(canon(".5 -.25 007.10 -0 w"), ".5 -.25 7.1 0 w");
}

#[test]
fn unparseable_and_inline_image_streams_are_left_alone() {
    assert!(canonical(b"-. 0 Td").is_none());
    assert!(canonical(b"(unterminated").is_none());
    assert!(canonical(b"BI /W 1 /H 1 /CS /G /BPC 8 ID \x00 EI").is_none());
    assert!(canonical(b"").is_some());
}

#[test]
fn number_edge_cases() {
    let n = |s: &str| canonical_number(s.as_bytes()).map(|v| String::from_utf8(v).unwrap());
    assert_eq!(n("+12"), Some("12".into()));
    assert_eq!(n("-000"), Some("0".into()));
    assert_eq!(n("100"), Some("100".into()));
    assert_eq!(n("1.0"), Some("1".into()));
    assert_eq!(n("1.2.3"), None);
    assert_eq!(n("Tj"), None);
    assert_eq!(n("-"), None);
}

#[test]
fn the_canonical_form_is_canonical() {
    let source = b"q  1.50 0 0 -1 cm % note\n[ (a\\)b) <41 42> ] TJ /Im1 Do << /A 3 >> Q";
    let once = canonical_tokens(source).unwrap();
    assert!(once.len() <= source.len());
    assert_eq!(canonical_tokens(&once), Some(once.clone()));
}

#[test]
fn malformed_tokens_have_no_canonical_form() {
    assert_eq!(canonical_tokens(b"<41"), None);
    assert_eq!(canonical_tokens(b"a > b"), None);
    assert_eq!(canonical_tokens(b")"), None);
    assert_eq!(canonical_tokens(b"(a\\"), None);
    assert_eq!(canonical_tokens(b"{ x }"), Some(b"{x}".to_vec()));
}

#[test]
fn a_canonical_stream_is_its_own_form() {
    let src = b"  q % note\n 1.00 0 0  01 0 0 cm\t[ (a  b) -12.50 ] TJ <41 42> Tj Q ";
    let once = canonical(src).expect("canonical");
    assert_eq!(canonical(&once), Some(once.clone()));
    assert!(once.len() < src.len());
    let plain = canonical(b" 1  2 \n l  /N   gs ").expect("canonical");
    assert_eq!(plain, b"1 2 l/N gs");
}

#[test]
fn a_hex_string_that_opens_twice_has_no_canonical_form() {
    assert_eq!(canonical_tokens(b"< <41> Tj"), Some(b"<<41>Tj".to_vec()));
    assert_eq!(canonical(b"< <41> Tj"), None);
    assert_eq!(canonical(b"< 41> Tj"), Some(b"<41>Tj".to_vec()));
}
