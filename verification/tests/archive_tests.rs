use datapack_merger::CompressionChoice;
use datapack_merger::CompressionFormat;
use datapack_merger::Datapack;
use datapack_merger::RawData;
use datapack_merger::RawNode;
use datapack_merger::ZipConfig;
use datapack_merger::Zipper;
use datapack_merger::ZipperError;

fn raw_file(name: &str, data: &[u8]) -> RawNode {
    RawNode {
        name: name.to_string(),
        data: RawData::File(data.to_vec()),
    }
}

fn raw_dir(name: &str, entries: Vec<RawNode>) -> RawNode {
    RawNode {
        name: name.to_string(),
        data: RawData::Dir(entries),
    }
}

fn sample_pack_raw() -> RawNode {
    raw_dir(
        "mypack",
        vec![
            raw_file("pack.mcmeta", b"{\"pack\":{}}"),
            raw_dir(
                "data",
                vec![raw_dir(
                    "ns",
                    vec![
                        raw_dir(
                            "functions",
                            vec![raw_file("f.mcfunction", b"say hi")],
                        ),
                        raw_dir(
                            "tags",
                            vec![raw_file("all.json", b"{\n  \"values\": []\n}")],
                        ),
                    ],
                )],
            ),
        ],
    )
}

fn stored_config() -> ZipConfig {
    ZipConfig {
        method: CompressionChoice::Deflated,
        unix_mode: Some(0o775),
    }
}

fn entry_set(pack: &Datapack) -> Vec<(String, Option<Vec<u8>>)> {
    let mut entries: Vec<(String, Option<Vec<u8>>)> = pack
        .flatten()
        .into_iter()
        .map(|e| (e.path, e.data))
        .collect();
    entries.sort();
    entries
}

#[test]
fn init_zipper() {
    assert_eq!(
        Zipper::new("ohayou_sekai.txt".to_string()),
        Zipper {
            reader_location: "ohayou_sekai.txt".to_string(),
            format: CompressionFormat::Unknown,
        }
    );
}

#[test]
fn format_detection_follows_the_extension() {
    assert_eq!(Zipper::new("a.zip".to_string()).format, CompressionFormat::Zip);
    assert_eq!(Zipper::new("a.tar.gz".to_string()).format, CompressionFormat::Tar);
    assert_eq!(Zipper::new("a.gz".to_string()).format, CompressionFormat::Tar);
    assert_eq!(Zipper::new("a.txt".to_string()).format, CompressionFormat::Unknown);
}

#[test]
fn compile_and_materialize_round_trip() {
    let raw = sample_pack_raw();
    let original = Datapack::generate(&raw, "origin").unwrap().result;
    let bytes = original.compile(&stored_config()).unwrap();

    let zipper = Zipper::new("merged.zip".to_string());
    let reread_root = zipper.extract(bytes).unwrap();
    let reread = Datapack::generate(&reread_root, "origin").unwrap().result;

    assert_eq!(entry_set(&original), entry_set(&reread));
}

#[test]
fn peek_zip_finds_the_marker_paths() {
    let raw = sample_pack_raw();
    let pack = Datapack::generate(&raw, "origin").unwrap().result;
    let bytes = pack.compile(&stored_config()).unwrap();

    let zipper = Zipper::new("pack.zip".to_string());
    assert_eq!(zipper.peak(&bytes, "pack.mcmeta"), (true, false));
    assert_eq!(zipper.peak(&bytes, "data/ns/"), (false, true));
    assert_eq!(zipper.peak(&bytes, "no_such_entry"), (false, false));
    assert_eq!(zipper.peak(b"not a zip archive", "pack.mcmeta"), (false, false));
}

fn sample_tar_gz() -> Vec<u8> {
    let mut builder = tar::Builder::new(Vec::new());

    let mut meta = tar::Header::new_gnu();
    meta.set_size(2);
    meta.set_mode(0o644);
    meta.set_cksum();
    builder
        .append_data(&mut meta, "pack.mcmeta", &b"{}"[..])
        .unwrap();

    let mut dir = tar::Header::new_gnu();
    dir.set_entry_type(tar::EntryType::Directory);
    dir.set_size(0);
    dir.set_mode(0o755);
    dir.set_cksum();
    builder.append_data(&mut dir, "data/", &b""[..]).unwrap();

    let mut file = tar::Header::new_gnu();
    file.set_size(6);
    file.set_mode(0o644);
    file.set_cksum();
    builder
        .append_data(&mut file, "data/ns/functions/f.mcfunction", &b"say hi"[..])
        .unwrap();

    let tar_bytes = builder.into_inner().unwrap();
    let mut encoder =
        flate2::write::GzEncoder::new(Vec::new(), flate2::Compression::default());
    std::io::Write::write_all(&mut encoder, &tar_bytes).unwrap();
    encoder.finish().unwrap()
}

#[test]
fn peek_tar_probes_one_entry_and_touches_no_storage() {
    let gz = sample_tar_gz();
    let zipper = Zipper::new("pack.tar.gz".to_string());
    assert_eq!(zipper.peak(&gz, "pack.mcmeta"), (true, false));
    assert_eq!(zipper.peak(&gz, "data/"), (false, true));
    assert_eq!(zipper.peak(&gz, "missing"), (false, false));
    assert_eq!(zipper.peak(b"corrupt gzip data", "pack.mcmeta"), (false, false));
}

#[test]
fn extract_tar_builds_the_pack_tree() {
    let gz = sample_tar_gz();
    let zipper = Zipper::new("pack.tar.gz".to_string());
    let root = zipper.extract(gz).unwrap();
    let pack = Datapack::generate(&root, "pack.tar.gz").unwrap().result;
    assert_eq!(pack.root_metadata, Some(b"{}".to_vec()));
    assert_eq!(pack.namespaces.len(), 1);
    assert_eq!(pack.namespaces[0].name, "ns");
}

#[test]
fn extract_sanitizes_traversal_paths() {
    // a hand-rolled tar holding one entry whose stored path climbs out of
    // the extraction root
    let name = b"../../escape";
    let mut header = [0u8; 512];
    header[..name.len()].copy_from_slice(name);
    header[100..108].copy_from_slice(b"0000644\x00");
    header[108..116].copy_from_slice(b"0000000\x00");
    header[116..124].copy_from_slice(b"0000000\x00");
    header[124..136].copy_from_slice(b"00000000004\x00");
    header[136..148].copy_from_slice(b"00000000000\x00");
    header[148..156].copy_from_slice(b"        ");
    header[156] = b'0';
    let checksum: u64 = header.iter().map(|b| *b as u64).sum();
    let digits = format!("{:06o}\x00 ", checksum);
    header[148..156].copy_from_slice(digits.as_bytes());
    let mut tar_bytes = header.to_vec();
    let mut body = [0u8; 512];
    body[..4].copy_from_slice(b"evil");
    tar_bytes.extend_from_slice(&body);
    tar_bytes.extend_from_slice(&[0u8; 1024]);

    let mut encoder =
        flate2::write::GzEncoder::new(Vec::new(), flate2::Compression::default());
    std::io::Write::write_all(&mut encoder, &tar_bytes).unwrap();
    let gz = encoder.finish().unwrap();

    let zipper = Zipper::new("evil.tar.gz".to_string());
    let root = zipper.extract(gz).unwrap();
    match root.data {
        RawData::Dir(entries) => {
            assert_eq!(entries.len(), 1);
            // the `..` components are dropped; the file lands inside the root
            assert_eq!(entries[0].name, "escape");
            assert_eq!(entries[0].data, RawData::File(b"evil".to_vec()));
        }
        _ => panic!("expected a directory"),
    }
}

#[test]
fn unknown_formats_and_corrupt_archives_are_errors() {
    let txt = Zipper::new("notes.txt".to_string());
    assert!(matches!(
        txt.extract(b"anything".to_vec()),
        Err(ZipperError::UnknownFormat(..))
    ));

    let zip = Zipper::new("broken.zip".to_string());
    assert!(matches!(zip.extract(b"not a zip".to_vec()), Err(ZipperError::Io(..))));

    let tar = Zipper::new("broken.tar.gz".to_string());
    assert!(matches!(tar.extract(b"not gzip".to_vec()), Err(ZipperError::Io(..))));
}

#[test]
fn datapack_conversion_fails_on_non_pack_archives() {
    let mut builder = tar::Builder::new(Vec::new());
    let mut file = tar::Header::new_gnu();
    file.set_size(5);
    file.set_mode(0o644);
    file.set_cksum();
    builder
        .append_data(&mut file, "readme", &b"hello"[..])
        .unwrap();
    let tar_bytes = builder.into_inner().unwrap();
    let mut encoder =
        flate2::write::GzEncoder::new(Vec::new(), flate2::Compression::default());
    std::io::Write::write_all(&mut encoder, &tar_bytes).unwrap();
    let gz = encoder.finish().unwrap();

    let zipper = Zipper::new("readme.tar.gz".to_string());
    assert!(matches!(
        zipper.datapack(gz),
        Err(ZipperError::UnableToConvertDatapack)
    ));
}

#[test]
fn datapack_conversion_succeeds_on_a_real_pack() {
    let raw = sample_pack_raw();
    let pack = Datapack::generate(&raw, "origin").unwrap().result;
    let bytes = pack.compile(&stored_config()).unwrap();

    let zipper = Zipper::new("mypack.zip".to_string());
    let out = zipper.datapack(bytes).unwrap();
    assert_eq!(out.result.name, "mypack.zip");
    assert_eq!(out.result.root_metadata, Some(b"{\"pack\":{}}".to_vec()));
    assert_eq!(out.result.namespaces.len(), 1);
}

#[test]
fn datapack_conversion_collapses_every_failure_to_one_error() {
    // an unreadable archive and a readable non-pack archive fail the same way
    let zipper = Zipper::new("broken.zip".to_string());
    assert!(matches!(
        zipper.datapack(b"not a zip archive".to_vec()),
        Err(ZipperError::UnableToConvertDatapack)
    ));
    let txt = Zipper::new("notes.txt".to_string());
    assert!(matches!(
        txt.datapack(b"anything".to_vec()),
        Err(ZipperError::UnableToConvertDatapack)
    ));
}
