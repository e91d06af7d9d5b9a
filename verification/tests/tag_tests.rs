use datapack_merger::Tag;

#[test]
fn decode_jojo_name_json() {
    let data = r#"
	{
		"values": [
			"Jonathan Joestar",
			"Joseph Joestar",
			"Jotaro Kujo",
			"Josuke Higashikata",
			"Giorno Giovanna",
			"Jolyne Cujoh",
			"Johnny Joestar",
			"Josuke Higashikata"
		]
	}
	"#;

    let value: Tag = Tag::decode(data.as_bytes()).unwrap();
    let expect = Tag {
        replace: None,
        values: vec![
            String::from("Jonathan Joestar"),
            String::from("Joseph Joestar"),
            String::from("Jotaro Kujo"),
            String::from("Josuke Higashikata"),
            String::from("Giorno Giovanna"),
            String::from("Jolyne Cujoh"),
            String::from("Johnny Joestar"),
            String::from("Josuke Higashikata"),
        ],
    };

    assert_eq!(value, expect);
}

#[test]
fn decode_replace_flag_in_either_position() {
    let before = br#"{ "replace": true, "values": ["a"] }"#;
    let after = br#"{ "values": ["a"], "replace": false }"#;
    let t1 = Tag::decode(before).unwrap();
    assert_eq!(t1.replace, Some(true));
    assert_eq!(t1.values, vec![String::from("a")]);
    let t2 = Tag::decode(after).unwrap();
    assert_eq!(t2.replace, Some(false));
    assert_eq!(t2.values, vec![String::from("a")]);
}

#[test]
fn decode_escapes_and_empty_list() {
    let t = Tag::decode(br#"{"values": ["say \"hi\"", "back\\slash", "sla\/sh"]}"#).unwrap();
    assert_eq!(
        t.values,
        vec![
            String::from("say \"hi\""),
            String::from("back\\slash"),
            String::from("sla/sh")
        ]
    );
    let empty = Tag::decode(br#"{ "values": [] }"#).unwrap();
    assert_eq!(empty.replace, None);
    assert!(empty.values.is_empty());
}

#[test]
fn decode_rejects_malformed_documents() {
    assert_eq!(Tag::decode(b"not json at all"), None);
    assert_eq!(Tag::decode(br#"{}"#), None);
    assert_eq!(Tag::decode(br#"{"replace": true}"#), None);
    assert_eq!(Tag::decode(br#"{"values": ["a"], "values": ["b"]}"#), None);
    assert_eq!(Tag::decode(br#"{"values": ["a"], "extra": 1}"#), None);
    assert_eq!(Tag::decode(br#"{"values": ["a",]}"#), None);
    assert_eq!(Tag::decode(br#"{"values": ["a"]} trailing"#), None);
}

#[test]
fn encode_is_pretty_printed() {
    let tag = Tag {
        replace: Some(true),
        values: vec![String::from("a"), String::from("b")],
    };
    let expect = b"{\n  \"replace\": true,\n  \"values\": [\n    \"a\",\n    \"b\"\n  ]\n}";
    assert_eq!(tag.encode(), expect.to_vec());

    let bare = Tag {
        replace: None,
        values: vec![],
    };
    assert_eq!(bare.encode(), b"{\n  \"values\": []\n}".to_vec());
}

#[test]
fn encode_decode_round_trip() {
    let tag = Tag {
        replace: Some(false),
        values: vec![String::from("one"), String::from("two \"quoted\"")],
    };
    let encoded = tag.encode();
    let decoded = Tag::decode(&encoded).unwrap();
    assert_eq!(decoded, tag);
}
