use radius_server::dictionary::{parse_number, tokenize, Dictionary, Loader};

#[test]
fn parse_number_reads_decimal_and_hex() {
    assert_eq!(parse_number(b"123"), Some(123));
    assert_eq!(parse_number(b"0"), Some(0));
    assert_eq!(parse_number(b"+5"), Some(5));
    assert_eq!(parse_number(b"0x1F"), Some(31));
    assert_eq!(parse_number(b"0X10"), Some(16));
    assert_eq!(parse_number(b"0xABCDEF"), Some(0xABCDEF));
    assert_eq!(parse_number(b"4294967295"), Some(u32::MAX));
    assert_eq!(parse_number(b"0xFFFFFFFF"), Some(u32::MAX));
}

#[test]
fn parse_number_rejects_garbage_and_overflow() {
    assert_eq!(parse_number(b""), None);
    assert_eq!(parse_number(b"abc"), None);
    assert_eq!(parse_number(b"12a"), None);
    assert_eq!(parse_number(b"-3"), None);
    assert_eq!(parse_number(b"+"), None);
    assert_eq!(parse_number(b"0x"), None);
    assert_eq!(parse_number(b"0xG"), None);
    assert_eq!(parse_number(b"4294967296"), None);
    assert_eq!(parse_number(b"0x100000000"), None);
    assert_eq!(parse_number(b"99999999999999999999"), None);
}

#[test]
fn tokenize_splits_on_any_whitespace_run() {
    let toks = tokenize(b"  ATTRIBUTE\tUser-Name   1 string\r");
    let words: Vec<&[u8]> = toks.iter().map(|t| t.as_slice()).collect();
    assert_eq!(
        words,
        vec![b"ATTRIBUTE".as_slice(), b"User-Name", b"1", b"string"]
    );
    assert!(tokenize(b"   \t ").is_empty());
    assert!(tokenize(b"").is_empty());
}

#[test]
fn attribute_and_vendor_lines_define_entries() {
    let mut d = Dictionary::new();
    assert!(d.apply_line(b"ATTRIBUTE User-Name 1 string").is_none());
    assert!(d.apply_line(b"VENDOR WISPr 14122").is_none());

    let def = d.get_attribute(1).expect("code 1 was defined");
    assert_eq!(def.name, b"User-Name".to_vec());
    assert_eq!(def.code, 1);
    assert_eq!(def.vendor, None);
    assert_eq!(def.data_type, b"string".to_vec());

    assert_eq!(d.get_vendor(b"WISPr"), Some(14122));
    assert_eq!(d.get_vendor(b"Nobody"), None);
    assert!(d.get_attribute(2).is_none());
}

#[test]
fn later_definitions_overwrite_earlier_ones() {
    let mut d = Dictionary::new();
    d.apply_line(b"ATTRIBUTE User-Name 1 string");
    d.apply_line(b"ATTRIBUTE Login-Name 1 text");
    let def = d.get_attribute(1).unwrap();
    assert_eq!(def.name, b"Login-Name".to_vec());
    assert_eq!(def.data_type, b"text".to_vec());

    d.apply_line(b"VENDOR Acme 1");
    d.apply_line(b"VENDOR Acme 2");
    assert_eq!(d.get_vendor(b"Acme"), Some(2));
}

#[test]
fn comments_blanks_and_unknown_directives_do_nothing() {
    let mut d = Dictionary::new();
    assert!(d.apply_line(b"").is_none());
    assert!(d.apply_line(b"   ").is_none());
    assert!(d.apply_line(b"# ATTRIBUTE User-Name 1 string").is_none());
    assert!(d.apply_line(b"   # indented comment").is_none());
    assert!(d.apply_line(b"VALUE Service-Type Login-User 1").is_none());
    assert!(d.apply_line(b"BEGIN-VENDOR Cisco").is_none());
    assert!(d.get_attribute(1).is_none());
}

#[test]
fn malformed_and_dotted_lines_are_skipped() {
    let mut d = Dictionary::new();
    assert!(d.apply_line(b"ATTRIBUTE OnlyName").is_none());
    assert!(d.apply_line(b"ATTRIBUTE Name abc string").is_none());
    assert!(d.apply_line(b"ATTRIBUTE Name 26.9.1 string").is_none());
    assert!(d.apply_line(b"VENDOR Cisco 9.1").is_none());
    assert!(d.apply_line(b"VENDOR Cisco").is_none());
    assert!(d.get_attribute(26).is_none());
    assert_eq!(d.get_vendor(b"Cisco"), None);
}

#[test]
fn include_lines_hand_back_their_path() {
    let mut d = Dictionary::new();
    let inc = d.apply_line(b"$INCLUDE dictionary.wispr");
    assert_eq!(inc, Some(b"dictionary.wispr".to_vec()));
    assert!(d.apply_line(b"$INCLUDE one two").is_none());
    assert!(d.apply_line(b"$INCLUDE").is_none());
}

#[test]
fn parse_content_reads_lines_in_order_and_collects_includes() {
    let text = b"# top\n\
                 ATTRIBUTE User-Name 1 string\r\n\
                 $INCLUDE extra\n\
                 VENDOR WISPr 0x372A\n\
                 ATTRIBUTE User-Name 0x01 text\n\
                 \n\
                 $INCLUDE more";
    let mut d = Dictionary::new();
    let includes = d.parse_content(text);
    assert_eq!(includes, vec![b"extra".to_vec(), b"more".to_vec()]);
    let def = d.get_attribute(1).unwrap();
    assert_eq!(def.data_type, b"text".to_vec());
    assert_eq!(d.get_vendor(b"WISPr"), Some(14122));
}

#[test]
fn self_including_content_is_parsed_exactly_once() {
    let mut loader = Loader::new();
    let path = b"dictionaries/dictionary".as_slice();
    let content = b"ATTRIBUTE User-Name 1 string\n$INCLUDE dictionary";

    assert!(loader.try_visit(path));
    let includes = loader.dict.parse_content(content);
    assert_eq!(includes, vec![b"dictionary".to_vec()]);

    // The include names the file itself: a second visit is refused, so the
    // load terminates and the dictionary keeps a single, consistent entry.
    assert!(!loader.try_visit(path));
    assert!(!loader.try_visit(path));
    assert_eq!(loader.dict.get_attribute(1).unwrap().name, b"User-Name".to_vec());
}

#[test]
fn two_file_include_cycle_visits_each_file_once() {
    let mut loader = Loader::new();
    let a = b"a".as_slice();
    let b = b"b".as_slice();

    assert!(loader.try_visit(a));
    let inc_a = loader.dict.parse_content(b"VENDOR One 1\n$INCLUDE b");
    assert_eq!(inc_a, vec![b"b".to_vec()]);

    assert!(loader.try_visit(b));
    let inc_b = loader.dict.parse_content(b"VENDOR Two 2\n$INCLUDE a");
    assert_eq!(inc_b, vec![b"a".to_vec()]);

    assert!(!loader.try_visit(a));
    assert!(!loader.try_visit(b));
    assert_eq!(loader.dict.get_vendor(b"One"), Some(1));
    assert_eq!(loader.dict.get_vendor(b"Two"), Some(2));
}

#[test]
fn prefixed_keywords_still_match_like_the_grammar_says() {
    // The grammar tests keyword prefixes, not whole words: a line starting
    // with ATTRIBUTEX is handled by the ATTRIBUTE rule.
    let mut d = Dictionary::new();
    assert!(d.apply_line(b"ATTRIBUTEX Name 7 string").is_none());
    let def = d.get_attribute(7);
    assert!(def.is_some());
    assert_eq!(def.unwrap().name, b"Name".to_vec());
}
