use marcutil::breaker::escape_to_breaker;
use marcutil::breaker::unescape_from_breaker;
use marcutil::xml::escape_xml;
use marcutil::Field;
use marcutil::Indicator;
use marcutil::Leader;
use marcutil::MarcError;
use marcutil::Record;
use marcutil::Subfield;
use marcutil::Tag;

#[test]
fn breaker_scenario() {
    // The 028 field with indicators 3 and 2 must read exactly this way.
    let xml = r#"<record><leader>07649cim a2200913 i 4500</leader><controlfield tag="001">233</controlfield><datafield tag="028" ind1="3" ind2="2"><subfield code="a">HL50498721</subfield><subfield code="b">Hal Leonard</subfield><subfield code="q">(bk.)</subfield></datafield></record>"#;
    let record = Record::from_xml(xml).expect("from xml");
    let breaker = record.to_breaker();
    let lines: Vec<&str> = breaker.lines().collect();
    assert_eq!(lines[0], "LDR 07649cim a2200913 i 4500");
    assert_eq!(lines[1], "001 233");
    assert_eq!(lines[2], "028 32$aHL50498721$bHal Leonard$q(bk.)");
}

#[test]
fn breaker_escape_round_trip() {
    // A literal dollar sign must travel through breaker form escaped.
    assert_eq!(escape_to_breaker("a$b"), "a{dollar}b");
    assert_eq!(unescape_from_breaker("a{dollar}b"), "a$b");

    let mut field = Field::new("245").expect("field");
    let mut sf = Subfield::new("a").expect("subfield");
    sf.set_content("price: $5");
    field.subfields.push(sf);
    let mut record = Record::new();
    record.fields.push(field);

    let breaker = record.to_breaker();
    assert!(breaker.contains("$aprice: {dollar}5"));

    let record2 = Record::from_breaker(&breaker).expect("from breaker");
    let values = record2.get_values("245", "a");
    assert_eq!(values, vec!["price: $5"]);
}

#[test]
fn xml_escaping() {
    assert_eq!(escape_xml("<&>'\""), "&lt;&amp;&gt;&apos;&quot;");
    assert_eq!(escape_xml("caf\u{e9}"), "caf&#xE9;");
    assert_eq!(escape_xml("plain"), "plain");
}

#[test]
fn xml_escape_round_trip() {
    let mut field = Field::new("245").expect("field");
    let mut sf = Subfield::new("a").expect("subfield");
    sf.set_content("Fish & Chips <caf\u{e9} \"quoted\">");
    field.subfields.push(sf);
    let mut record = Record::new();
    record.fields.push(field);

    let xml = record.to_xml().expect("to xml");
    let record2 = Record::from_xml(&xml).expect("from xml");
    let values = record2.get_values("245", "a");
    assert_eq!(values, vec!["Fish & Chips <caf\u{e9} \"quoted\">"]);
}

#[test]
fn binary_exact_bytes() {
    // One control field, no leader: every offset computed by hand.
    let mut record = Record::new();
    let mut cf = marcutil::Controlfield::new("001").expect("cf");
    cf.set_content("abc");
    record.control_fields.push(cf);

    let bytes = record.to_binary().expect("to binary");
    let expected: Vec<u8> = [
        b"00042".as_slice(),
        b"       ".as_slice(),
        b"00037".as_slice(),
        b"       ".as_slice(),
        b"001000400000".as_slice(),
        &[0x1e],
        b"abc".as_slice(),
        &[0x1e],
        &[0x1d],
    ]
    .concat();
    assert_eq!(bytes, expected);
}

#[test]
fn binary_round_trip() {
    let record = Record::from_breaker(
        "LDR 01234cim a2200913 i 4500\n008 140128s2013\n245 10$aA Title$bRemainder$c{dollar}5",
    )
    .expect("from breaker");

    let bytes = record.to_binary().expect("to binary");
    let record2 = Record::from_binary(&bytes).expect("from binary");

    // The leader's length and base address are recomputed; everything
    // else must match.
    let cfs = record2.get_control_fields("008");
    assert_eq!(cfs.len(), 1);
    assert_eq!(cfs[0].content.as_deref(), Some("140128s2013"));
    assert_eq!(record2.get_values("245", "a"), vec!["A Title"]);
    assert_eq!(record2.get_values("245", "b"), vec!["Remainder"]);
    assert_eq!(record2.get_values("245", "c"), vec!["$5"]);
    let fields = record2.get_fields("245");
    assert_eq!(fields[0].ind1.content.as_deref(), Some("1"));
    assert_eq!(fields[0].ind2.content.as_deref(), Some("0"));
    let leader = record2.leader.as_ref().expect("leader").content.clone();
    assert_eq!(&leader[5..12], "cim a22");
    assert_eq!(&leader[17..24], " i 4500");
    assert_eq!(leader.len(), 24);

    // A second pass is byte-for-byte stable.
    let bytes2 = record2.to_binary().expect("to binary again");
    assert_eq!(bytes, bytes2);
}

#[test]
fn binary_size_mismatch() {
    let bytes: Vec<u8> = b"00099junk data".to_vec();
    match Record::from_binary(&bytes) {
        Err(MarcError::SizeMismatch(reported, actual)) => {
            assert_eq!(reported, 99);
            assert_eq!(actual, 14);
        },
        other => panic!("expected SizeMismatch, got {:?}", other),
    }
}

#[test]
fn binary_bad_inputs() {
    // Too short for the record-length field.
    assert!(matches!(
        Record::from_binary(&b"004".to_vec()),
        Err(MarcError::InvalidSize)
    ));
    // Non-numeric record length.
    assert!(matches!(
        Record::from_binary(&b"00x42".to_vec()),
        Err(MarcError::InvalidSize)
    ));
    // Declared and actual sizes agree, but the directory region is not a
    // multiple of twelve.
    let mut bytes: Vec<u8> = Vec::new();
    bytes.extend_from_slice(b"00026");
    bytes.extend_from_slice(b"       ");
    bytes.extend_from_slice(b"00026");
    bytes.extend_from_slice(b"       ");
    bytes.extend_from_slice(&[0x1e, 0x1d]);
    assert_eq!(bytes.len(), 26);
    assert!(matches!(
        Record::from_binary(&bytes),
        Err(MarcError::InvalidDirectory)
    ));
}

#[test]
fn binary_invalid_encoding() {
    let mut record = Record::new();
    let mut cf = marcutil::Controlfield::new("001").expect("cf");
    cf.set_content("abc");
    record.control_fields.push(cf);
    let mut bytes = record.to_binary().expect("to binary");
    // Corrupt a leader byte so it is no longer valid text.
    bytes[20] = 0xff;
    assert!(matches!(
        Record::from_binary(&bytes),
        Err(MarcError::InvalidEncoding)
    ));
}

#[test]
fn binary_value_too_large() {
    let mut record = Record::new();
    let mut cf = marcutil::Controlfield::new("001").expect("cf");
    let big = "x".repeat(10000);
    cf.set_content(&big);
    record.control_fields.push(cf);
    assert!(matches!(
        record.to_binary(),
        Err(MarcError::ValueTooLarge(10001))
    ));
}

#[test]
fn constructors_validate_lengths() {
    assert!(Tag::new("245").is_ok());
    assert!(matches!(Tag::new("1234"), Err(MarcError::InvalidLength(_))));
    assert!(matches!(Tag::new("24"), Err(MarcError::InvalidLength(_))));

    assert!(Leader::new("01234cim a2200913 i 4500").is_ok());
    assert!(matches!(Leader::new("short"), Err(MarcError::InvalidLength(_))));

    assert!(Subfield::new("a").is_ok());
    assert!(matches!(Subfield::new("ab"), Err(MarcError::InvalidLength(_))));

    // Empty and a single space both mean "absent".
    assert_eq!(Indicator::new("").expect("empty").content, None);
    assert_eq!(Indicator::new(" ").expect("space").content, None);
    assert_eq!(Indicator::new("7").expect("seven").content.as_deref(), Some("7"));
    assert!(matches!(Indicator::new("77"), Err(MarcError::InvalidLength(_))));
}

#[test]
fn xml_missing_tag() {
    let op = Record::from_xml("<record><controlfield>233</controlfield></record>");
    assert!(matches!(op, Err(MarcError::MissingTag)));

    let op = Record::from_xml("<record><datafield ind1=\" \"></datafield></record>");
    assert!(matches!(op, Err(MarcError::MissingTag)));
}

#[test]
fn xml_empty_record_element() {
    // An empty record element parses to a record with no leader and no
    // fields.
    let record = Record::from_xml("<record/>").expect("empty record");
    assert!(record.leader.is_none());
    assert!(record.control_fields.is_empty());
    assert!(record.fields.is_empty());
}

#[test]
fn xml_formatted_output() {
    let record =
        Record::from_xml(r#"<record><controlfield tag="001">233</controlfield></record>"#)
            .expect("from xml");
    let xml = record.to_xml_formatted().expect("formatted");
    assert!(xml.contains("\n<record\n  xmlns="));
    assert!(xml.contains("\n  <controlfield tag=\"001\">233</controlfield>"));
    assert!(xml.ends_with("\n</record>"));
}

#[test]
fn xml_multiple_records() {
    let xml = r#"<collection><record><controlfield tag="001">one</controlfield></record><record><controlfield tag="001">two</controlfield></record></collection>"#;
    let records = Record::from_xml_all(xml).expect("all records");
    assert_eq!(records.len(), 2);
    assert_eq!(
        records[0].get_control_fields("001")[0].content.as_deref(),
        Some("one")
    );
    assert_eq!(
        records[1].get_control_fields("001")[0].content.as_deref(),
        Some("two")
    );
}

#[test]
fn getters_filter_in_order() {
    let record = Record::from_breaker("245 10$aOne$bTwo$aThree").expect("from breaker");
    let fields = record.get_fields("245");
    assert_eq!(fields.len(), 1);
    let sfs = fields[0].get_subfields("a");
    assert_eq!(sfs.len(), 2);
    assert_eq!(sfs[0].content.as_deref(), Some("One"));
    assert_eq!(sfs[1].content.as_deref(), Some("Three"));
    assert_eq!(record.get_values("245", "a"), vec!["One", "Three"]);
    assert!(record.get_fields("100").is_empty());
}

#[test]
fn breaker_blank_line_tolerance() {
    let record = Record::from_breaker("\n\nx\n008 abc\n").expect("from breaker");
    let cfs = record.get_control_fields("008");
    assert_eq!(cfs.len(), 1);
    assert_eq!(cfs[0].content.as_deref(), Some("abc"));
}

#[test]
fn xml_character_references() {
    // Hexadecimal and decimal character references both decode.
    let xml = r#"<record><datafield tag="245" ind1=" " ind2=" "><subfield code="a">caf&#xE9; &#233;</subfield></datafield></record>"#;
    let record = Record::from_xml(xml).expect("from xml");
    assert_eq!(record.get_values("245", "a"), vec!["caf\u{e9} \u{e9}"]);
}

#[test]
fn xml_bad_references() {
    // An unknown entity, an unterminated reference, and a reference
    // beyond the Unicode range are all malformed XML.
    let bad = Record::from_xml("<record><leader>&bogus;</leader></record>");
    assert!(matches!(bad, Err(MarcError::InvalidXml)));

    let bad = Record::from_xml("<record><leader>&amp</leader></record>");
    assert!(matches!(bad, Err(MarcError::InvalidXml)));

    let bad = Record::from_xml("<record><leader>&#x110000;</leader></record>");
    assert!(matches!(bad, Err(MarcError::InvalidXml)));
}

#[test]
fn xml_mismatched_tags() {
    let bad = Record::from_xml("<record><leader></record></leader>");
    assert!(matches!(bad, Err(MarcError::InvalidXml)));
}

#[test]
fn xml_leader_wrong_length() {
    let bad = Record::from_xml("<record><leader>too short</leader></record>");
    assert!(matches!(bad, Err(MarcError::InvalidLength(_))));
}
