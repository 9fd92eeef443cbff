use sprite_codec::traps::{parse_index, parse_traps_ini, traps_for_section};

fn triples(text: &[u8]) -> Vec<(String, u8, String)> {
    parse_traps_ini(text)
        .iter()
        .map(|r| {
            (
                String::from_utf8(r.section.clone()).unwrap(),
                r.trap_index,
                String::from_utf8(r.script_path.clone()).unwrap(),
            )
        })
        .collect()
}

fn t(section: &str, index: u8, path: &str) -> (String, u8, String) {
    (section.to_string(), index, path.to_string())
}

#[test]
fn sections_and_entries_are_read_in_order() {
    let text = b"; traps\n[map01]\n1=a.txt\n 2 = b c.txt \r\n# note\n\n[map02]\n255=z\n";
    assert_eq!(
        triples(text),
        vec![t("map01", 1, "a.txt"), t("map01", 2, "b c.txt"), t("map02", 255, "z")]
    );
}

#[test]
fn entries_need_a_section_an_equals_sign_and_a_byte_index() {
    assert_eq!(triples(b"1=a\n[s]\n2=b"), vec![t("s", 2, "b")]);
    assert_eq!(triples(b"[s]\nnovalue\n=x\nx=1\n256=a\n-1=a\n1 2=a\n+=a"), vec![]);
    assert_eq!(triples(b"[s]\n+7=a\n007=b\n0=\n9==c=d"), vec![t("s", 7, "a"), t("s", 7, "b"), t("s", 0, ""), t("s", 9, "=c=d")]);
    assert_eq!(triples(b""), vec![]);
    assert_eq!(triples(b"\n\n"), vec![]);
}

#[test]
fn section_headers_keep_their_inner_text() {
    assert_eq!(triples(b"[ a b ]\n1=x"), vec![t(" a b ", 1, "x")]);
    assert_eq!(triples(b"[]\n1=x"), vec![t("", 1, "x")]);
    assert_eq!(triples(b"[s]\n[\n1=x"), vec![t("s", 1, "x")]);
    assert_eq!(triples(b"[s]\n[1=x]\n2=y"), vec![t("1=x", 2, "y")]);
    assert_eq!(triples(b"[s] ; c\n1=x"), vec![]);
}

#[test]
fn index_digits() {
    assert_eq!(parse_index(b"255", 0, 3), Some(255));
    assert_eq!(parse_index(b"256", 0, 3), None);
    assert_eq!(parse_index(b"0000012", 0, 7), Some(12));
    assert_eq!(parse_index(b"+5", 0, 2), Some(5));
    assert_eq!(parse_index(b"+5", 1, 2), Some(5));
    assert_eq!(parse_index(b"+", 0, 1), None);
    assert_eq!(parse_index(b"12", 1, 1), None);
    assert_eq!(parse_index(b"1a", 0, 2), None);
    assert_eq!(parse_index(b"99999999999999999999", 0, 20), None);
}

#[test]
fn a_section_keeps_the_last_path_of_each_index() {
    let records = parse_traps_ini(b"[m]\n9=a\n3=b\n[n]\n3=c\n[m]\n9=d\n");
    let traps = traps_for_section(&records, b"m");
    let got: Vec<(u8, Vec<u8>)> = traps.iter().map(|e| (e.trap_index, e.script_path.clone())).collect();
    assert_eq!(got, vec![(3, b"b".to_vec()), (9, b"d".to_vec())]);
    assert_eq!(traps_for_section(&records, b"n").len(), 1);
    assert_eq!(traps_for_section(&records, b"none").len(), 0);
}
