use datapack_merger::ContentNode;
use datapack_merger::Namespace;
use datapack_merger::NodeData;
use datapack_merger::ScriptKind;
use datapack_merger::ScriptType;
use datapack_merger::Tag;
use datapack_merger::TreeError;

fn leaf(name: &str, kind: ScriptType, payload: &[u8]) -> ContentNode {
    ContentNode::new(
        name.to_string(),
        NodeData::Leaf {
            payload: payload.to_vec(),
            kind,
        },
    )
}

fn dir(name: &str, children: Vec<ContentNode>) -> ContentNode {
    ContentNode::new(name.to_string(), NodeData::Interior { children })
}

fn child_names(node: &ContentNode) -> Vec<String> {
    match &node.data {
        NodeData::Interior { children } => children.iter().map(|c| c.name.clone()).collect(),
        NodeData::Leaf { .. } => panic!("expected an interior node"),
    }
}

fn child<'a>(node: &'a ContentNode, name: &str) -> &'a ContentNode {
    match &node.data {
        NodeData::Interior { children } => children.iter().find(|c| c.name == name).unwrap(),
        NodeData::Leaf { .. } => panic!("expected an interior node"),
    }
}

fn payload_of(node: &ContentNode) -> &Vec<u8> {
    match &node.data {
        NodeData::Leaf { payload, .. } => payload,
        NodeData::Interior { .. } => panic!("expected a leaf"),
    }
}

#[test]
fn create_new_script_directory() {
    assert_eq!(
        ContentNode::new(
            "hello_world".to_string(),
            NodeData::Interior { children: vec![] }
        ),
        ContentNode {
            name: String::from("hello_world"),
            data: NodeData::Interior { children: vec![] },
        }
    );
}

#[test]
fn merge_jojo_and_fate_characters() {
    let jojo_data = r#"
	{
		"values": [
			"Jonathan Joestar",
			"Joseph Joestar",
			"Jotaro Kujo",
			"Josuke Higashikata",
			"Giorno Giovanna",
			"Jolyne Cujoh",
			"Johnny Joestar",
			"Josuke Higashikata"
		]
	}
	"#
    .as_bytes();
    let fate_data = r#"
	{
		"values": [
			"Shirou Emiya",
			"Saber",
			"Rin Tohsaka",
			"Archer",
			"Sakura Matou",
			"Sakura Matou",
			"Rider",
			"Illyasviel von Einzbern",
			"Kirei Kotomine",
			"Gilgamesh"
		]
	}
	"#
    .as_bytes();

    let jojo_script = leaf("jojo", ScriptType::Tag, jojo_data);
    let fate_script = leaf("fate", ScriptType::Tag, fate_data);

    let value = jojo_script.merge(&fate_script).unwrap();
    // The merged leaf keeps the base node's identity and concatenates the
    // value lists, base side first, duplicates kept.
    assert_eq!(value.result.name, "jojo");
    let merged = Tag::decode(payload_of(&value.result)).unwrap();
    let expect: Vec<String> = [
        "Jonathan Joestar",
        "Joseph Joestar",
        "Jotaro Kujo",
        "Josuke Higashikata",
        "Giorno Giovanna",
        "Jolyne Cujoh",
        "Johnny Joestar",
        "Josuke Higashikata",
        "Shirou Emiya",
        "Saber",
        "Rin Tohsaka",
        "Archer",
        "Sakura Matou",
        "Sakura Matou",
        "Rider",
        "Illyasviel von Einzbern",
        "Kirei Kotomine",
        "Gilgamesh",
    ]
    .iter()
    .map(|s| s.to_string())
    .collect();
    assert_eq!(merged.values, expect);
}

#[test]
fn tag_concatenation_order() {
    let base = leaf("t", ScriptType::Tag, br#"{"values": ["a", "b"]}"#);
    let inc = leaf("t", ScriptType::Tag, br#"{"values": ["c", "d"]}"#);
    let merged = base.merge(&inc).unwrap();
    let expect = b"{\n  \"values\": [\n    \"a\",\n    \"b\",\n    \"c\",\n    \"d\"\n  ]\n}";
    assert_eq!(payload_of(&merged.result), &expect.to_vec());
}

#[test]
fn tag_merge_falls_back_on_malformed_payload() {
    let base = leaf("t", ScriptType::Tag, b"garbage");
    let inc = leaf("t", ScriptType::Tag, br#"{"values": ["x"]}"#);
    let merged = base.merge(&inc).unwrap();
    let doc = Tag::decode(payload_of(&merged.result)).unwrap();
    assert_eq!(doc.values, vec![String::from("x")]);
    assert_eq!(doc.replace, None);
}

#[test]
fn last_writer_wins_for_non_tag_leaves() {
    let base = leaf("f", ScriptType::Function, b"X");
    let inc = leaf("f", ScriptType::Function, b"Y");
    let merged = base.merge(&inc).unwrap();
    // the incoming leaf fully replaces the base leaf
    assert_eq!(merged.result, leaf("f", ScriptType::Function, b"Y"));
    assert_eq!(merged.unit_delta, 1);

    let reclassified = leaf("f", ScriptType::Recipe, b"Z");
    let merged2 = base.merge(&reclassified).unwrap();
    assert_eq!(merged2.result, leaf("f", ScriptType::Recipe, b"Z"));
}

#[test]
fn key_union_no_loss() {
    let base = dir(
        "d",
        vec![
            leaf("A", ScriptType::Function, b"a"),
            leaf("B", ScriptType::Function, b"old"),
        ],
    );
    let inc = dir(
        "d",
        vec![
            leaf("B", ScriptType::Function, b"new"),
            leaf("C", ScriptType::Function, b"c"),
        ],
    );
    let merged = base.merge(&inc).unwrap();
    assert_eq!(child_names(&merged.result), vec!["A", "B", "C"]);
    assert_eq!(payload_of(child(&merged.result, "A")), &b"a".to_vec());
    assert_eq!(payload_of(child(&merged.result, "B")), &b"new".to_vec());
    assert_eq!(payload_of(child(&merged.result, "C")), &b"c".to_vec());
}

#[test]
fn directory_merge_is_idempotent_without_tags() {
    let tree = dir(
        "root",
        vec![
            dir("sub", vec![leaf("x", ScriptType::Function, b"1")]),
            leaf("y", ScriptType::Recipe, b"2"),
        ],
    );
    let again = dir(
        "root",
        vec![
            dir("sub", vec![leaf("x", ScriptType::Function, b"1")]),
            leaf("y", ScriptType::Recipe, b"2"),
        ],
    );
    let merged = tree.merge(&again).unwrap();
    assert_eq!(merged.result, tree);
}

#[test]
fn tag_self_merge_doubles_values() {
    let tag = leaf("t", ScriptType::Tag, br#"{"values": ["a"]}"#);
    let same = leaf("t", ScriptType::Tag, br#"{"values": ["a"]}"#);
    let merged = tag.merge(&same).unwrap();
    let doc = Tag::decode(payload_of(&merged.result)).unwrap();
    assert_eq!(doc.values, vec![String::from("a"), String::from("a")]);
    // merging a tag leaf with itself is not idempotent, by design
    assert_ne!(&merged.result, &tag);
}

#[test]
fn structural_mismatch_is_an_error() {
    let base = leaf("x", ScriptType::Function, b"data");
    let inc = dir("x", vec![]);
    let err = base.merge(&inc).unwrap_err();
    assert_eq!(err, TreeError::MismatchType("x".to_string(), "x".to_string()));
    let err2 = inc.merge(&base).unwrap_err();
    assert_eq!(err2, TreeError::MismatchType("x".to_string(), "x".to_string()));
}

#[test]
fn structural_mismatch_names_the_colliding_nodes() {
    let base = dir("root", vec![dir("sub", vec![leaf("inner", ScriptType::Function, b"1")])]);
    let inc = dir("root", vec![dir("sub", vec![dir("inner", vec![])])]);
    let err = base.merge(&inc).unwrap_err();
    assert_eq!(
        err,
        TreeError::MismatchType("inner".to_string(), "inner".to_string())
    );
}

#[test]
fn create_new_namespace() {
    assert_eq!(
        Namespace::new("Boomber".to_string(), vec![]),
        Namespace {
            name: "Boomber".to_string(),
            children: vec![],
        }
    );
}

#[test]
fn similar_namespaces() {
    let a = Namespace::new("Megumin".to_string(), vec![]);
    let b = Namespace::new("Megumin".to_string(), vec![dir("Chunchunmaru", vec![])]);
    assert_ne!(a, b);
}

#[test]
fn get_script_kind_tags() {
    assert_eq!(Namespace::get_script_kind("tags"), ScriptKind::Tag);
}

#[test]
fn get_script_kind_generic() {
    assert_eq!(Namespace::get_script_kind("Ohayou Sekai~"), ScriptKind::Generic);
}

#[test]
fn tag_merge_keeps_base_replace_flag() {
    let base = leaf("t", ScriptType::Tag, br#"{"replace": true, "values": ["a"]}"#);
    let inc = leaf("t", ScriptType::Tag, br#"{"replace": false, "values": ["b"]}"#);
    let merged = base.merge(&inc).unwrap();
    let doc = Tag::decode(payload_of(&merged.result)).unwrap();
    assert_eq!(doc.replace, Some(true));
    assert_eq!(doc.values, vec![String::from("a"), String::from("b")]);
}
