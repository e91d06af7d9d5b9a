use datapack_merger::classify;
use datapack_merger::ContentNode;
use datapack_merger::Datapack;
use datapack_merger::DatapackLoader;
use datapack_merger::EncodingFormat;
use datapack_merger::GenerateError;
use datapack_merger::Namespace;
use datapack_merger::NodeData;
use datapack_merger::RawData;
use datapack_merger::RawNode;
use datapack_merger::Resource;
use datapack_merger::ScriptKind;
use datapack_merger::ScriptType;
use datapack_merger::TreeError;

fn raw_file(name: &str, data: &[u8]) -> RawNode {
    RawNode {
        name: name.to_string(),
        data: RawData::File(data.to_vec()),
    }
}

fn raw_dir(name: &str, entries: Vec<RawNode>) -> RawNode {
    RawNode {
        name: name.to_string(),
        data: RawData::Dir(entries),
    }
}

#[test]
fn create_new_datapack() {
    assert_eq!(
        Datapack::new(
            "/tmp/random_location".to_string(),
            "random_location".to_string(),
            vec![]
        ),
        Datapack {
            location: String::from("/tmp/random_location"),
            name: String::from("random_location"),
            root_metadata: None,
            namespaces: vec![],
            total_unit_count: 0,
        }
    );
}

#[test]
fn create_new_datapack_from_path_buf() {
    assert_eq!(
        Datapack::from_location("/tmp/ZA_WARUDO".to_string()),
        Datapack {
            name: String::from("ZA_WARUDO"),
            location: String::from("/tmp/ZA_WARUDO"),
            root_metadata: None,
            namespaces: vec![],
            total_unit_count: 0,
        }
    );
}

#[test]
fn classify_covers_every_category_folder() {
    assert_eq!(classify("advancements"), ScriptType::Advancement);
    assert_eq!(classify("functions"), ScriptType::Function);
    assert_eq!(classify("loot_tables"), ScriptType::LootTable);
    assert_eq!(classify("predicates"), ScriptType::Predicate);
    assert_eq!(classify("recipes"), ScriptType::Recipe);
    assert_eq!(classify("structures"), ScriptType::Structure);
    assert_eq!(classify("tags"), ScriptType::Tag);
    assert_eq!(classify("textures"), ScriptType::Unknown);
}

#[test]
fn defaults_are_the_unclassified_ones() {
    assert_eq!(ScriptKind::default(), ScriptKind::Unassigned);
    assert_eq!(EncodingFormat::default(), EncodingFormat::Utf8);
    assert_eq!(ScriptType::Tag.kind(), ScriptKind::Tag);
    assert_eq!(ScriptType::Function.kind(), ScriptKind::Generic);
}

#[test]
fn generate_builds_leaves_and_directories() {
    let raw = raw_dir(
        "functions",
        vec![raw_file("a.mcfunction", b"say a"), raw_dir("sub", vec![])],
    );
    let out = ContentNode::generate(&raw, ScriptType::Function).unwrap();
    assert_eq!(out.result.name, "functions");
    match &out.result.data {
        NodeData::Interior { children } => {
            assert_eq!(children.len(), 2);
            assert_eq!(children[0].name, "a.mcfunction");
            match &children[0].data {
                NodeData::Leaf { payload, kind } => {
                    assert_eq!(payload, &b"say a".to_vec());
                    assert_eq!(*kind, ScriptType::Function);
                }
                NodeData::Interior { .. } => panic!("expected a leaf"),
            }
        }
        NodeData::Leaf { .. } => panic!("expected an interior node"),
    }
    assert_eq!(out.unit_delta, 5);
}

#[test]
fn partial_failure_isolation() {
    let raw = raw_dir(
        "functions",
        vec![
            raw_file("good_one.mcfunction", b"say 1"),
            RawNode {
                name: "broken".to_string(),
                data: RawData::Unreadable,
            },
            raw_file("good_two.mcfunction", b"say 2"),
        ],
    );
    let out = ContentNode::generate(&raw, ScriptType::Function).unwrap();
    match &out.result.data {
        NodeData::Interior { children } => {
            let names: Vec<&str> = children.iter().map(|c| c.name.as_str()).collect();
            assert_eq!(names, vec!["good_one.mcfunction", "good_two.mcfunction"]);
        }
        NodeData::Leaf { .. } => panic!("expected an interior node"),
    }
}

#[test]
fn generate_rejects_unreadable_and_denylisted_roots() {
    let unreadable = RawNode {
        name: "gone".to_string(),
        data: RawData::Unreadable,
    };
    assert!(matches!(
        ContentNode::generate(&unreadable, ScriptType::Unknown),
        Err(GenerateError::Io(..))
    ));
    let noise = raw_file("folder_icon.DS_Store", b"noise");
    assert!(matches!(
        ContentNode::generate(&noise, ScriptType::Unknown),
        Err(GenerateError::BlacklistExtension)
    ));
}

#[test]
fn namespace_generate_classifies_category_folders() {
    let raw = raw_dir(
        "boomber",
        vec![
            raw_dir("tags", vec![raw_file("all.json", br#"{"values": []}"#)]),
            raw_dir("functions", vec![raw_file("hi.mcfunction", b"say hi")]),
            raw_file("stray.txt", b"stray"),
        ],
    );
    let out = Namespace::generate(&raw).unwrap();
    assert_eq!(out.result.name, "boomber");
    let kinds: Vec<ScriptType> = out
        .result
        .children
        .iter()
        .map(|c| match &c.data {
            NodeData::Interior { children } => match &children[0].data {
                NodeData::Leaf { kind, .. } => *kind,
                NodeData::Interior { .. } => panic!("expected a leaf"),
            },
            NodeData::Leaf { kind, .. } => *kind,
        })
        .collect();
    assert_eq!(
        kinds,
        vec![ScriptType::Tag, ScriptType::Function, ScriptType::Unknown]
    );
}

#[test]
fn namespace_generate_rejects_non_directories() {
    let file = raw_file("stray.txt", b"x");
    assert!(matches!(
        Namespace::generate(&file),
        Err(TreeError::FileInNamespace(..))
    ));
    let unreadable = RawNode {
        name: "gone".to_string(),
        data: RawData::Unreadable,
    };
    assert!(matches!(Namespace::generate(&unreadable), Err(TreeError::Io(..))));
}

fn sample_pack_raw(meta: &[u8], fn_body: &[u8]) -> RawNode {
    raw_dir(
        "mypack",
        vec![
            raw_file("pack.mcmeta", meta),
            raw_dir(
                "data",
                vec![raw_dir(
                    "ns",
                    vec![raw_dir(
                        "functions",
                        vec![raw_file("f.mcfunction", fn_body)],
                    )],
                )],
            ),
        ],
    )
}

#[test]
fn datapack_generate_keeps_descriptor_and_namespaces() {
    let raw = sample_pack_raw(b"{\"pack\":{}}", b"say hi");
    let out = Datapack::generate(&raw, "/packs/mypack").unwrap();
    let pack = out.result;
    assert_eq!(pack.name, "mypack");
    assert_eq!(pack.location, "/packs/mypack");
    assert_eq!(pack.root_metadata, Some(b"{\"pack\":{}}".to_vec()));
    assert_eq!(pack.namespaces.len(), 1);
    assert_eq!(pack.namespaces[0].name, "ns");
    // units: descriptor bytes plus file bytes
    assert_eq!(out.unit_delta, 11 + 6);
    assert_eq!(pack.total_unit_count, out.unit_delta);
}

#[test]
fn datapack_generate_rejects_bad_roots() {
    let file = raw_file("pack.zip.txt", b"x");
    assert!(matches!(
        Datapack::generate(&file, "loc"),
        Err(TreeError::FileInDatapack(..))
    ));
    let no_data = raw_dir("p", vec![raw_file("pack.mcmeta", b"{}")]);
    assert!(matches!(Datapack::generate(&no_data, "loc"), Err(TreeError::Io(..))));
}

#[test]
fn datapack_merge_unions_namespaces_and_takes_incoming_descriptor() {
    let base_raw = raw_dir(
        "base",
        vec![
            raw_file("pack.mcmeta", b"base-meta"),
            raw_dir(
                "data",
                vec![
                    raw_dir("shared", vec![raw_dir("functions", vec![raw_file("f.mcfunction", b"base")])]),
                    raw_dir("base_only", vec![]),
                ],
            ),
        ],
    );
    let inc_raw = raw_dir(
        "inc",
        vec![
            raw_file("pack.mcmeta", b"inc-meta"),
            raw_dir(
                "data",
                vec![
                    raw_dir("shared", vec![raw_dir("functions", vec![raw_file("f.mcfunction", b"inc")])]),
                    raw_dir("inc_only", vec![]),
                ],
            ),
        ],
    );
    let base = Datapack::generate(&base_raw, "base_loc").unwrap().result;
    let inc = Datapack::generate(&inc_raw, "inc_loc").unwrap().result;
    let merged = base.merge(&inc).unwrap();
    let pack = merged.result;
    assert_eq!(pack.name, "base");
    assert_eq!(pack.location, "base_loc");
    assert_eq!(pack.root_metadata, Some(b"inc-meta".to_vec()));
    let names: Vec<&str> = pack.namespaces.iter().map(|n| n.name.as_str()).collect();
    assert_eq!(names, vec!["shared", "base_only", "inc_only"]);
    let shared = &pack.namespaces[0];
    let functions = &shared.children[0];
    match &functions.data {
        NodeData::Interior { children } => match &children[0].data {
            NodeData::Leaf { payload, .. } => assert_eq!(payload, &b"inc".to_vec()),
            NodeData::Interior { .. } => panic!("expected a leaf"),
        },
        NodeData::Leaf { .. } => panic!("expected an interior node"),
    }
}

#[test]
fn loader_describes_both_source_shapes() {
    let plain = DatapackLoader::new("/packs/alpha".to_string(), None);
    assert_eq!(plain.path, "/packs/alpha");
    assert_eq!(plain.name, "alpha");
    assert!(!plain.is_temp);

    let unpacked = DatapackLoader::new("/packs/beta.zip".to_string(), Some("/tmp/scratch".to_string()));
    assert_eq!(unpacked.path, "/tmp/scratch");
    assert_eq!(unpacked.name, "beta.zip");
    assert!(unpacked.is_temp);
}

#[test]
fn resource_from_data_keeps_both_parts() {
    let r = Resource::from_data("say hi", "/ns/functions/f.mcfunction".to_string());
    assert_eq!(r.location, "/ns/functions/f.mcfunction");
    assert_eq!(r.data, "say hi");
}
