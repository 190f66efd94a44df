use mcwr::config::Flag;
use mcwr::mrpack::{Environment, File, Hashes, ModrinthIndex, ModrinthIndexBuilder};
use mcwr::mvers::{get, list_manifest, manifest_latest, manifest_latest_release,
    manifest_latest_snapshot, Latest, Manifest, Version};

fn sample_file(path: &str) -> File {
    File {
        downloads: vec![String::from("https://example.invalid/a.jar")],
        env: Environment {
            client: String::from("required"),
            server: String::from("optional"),
        },
        file_size: 1234,
        hashes: Hashes {
            sha1: String::from("aa"),
            sha512: String::from("bb"),
        },
        path: String::from(path),
    }
}

fn sample_version(id: &str) -> Version {
    Version {
        pwd: String::from("."),
        version: String::from(id),
        assets: String::from("17"),
        main: String::from("net.example.Main"),
        java: String::from("java"),
        jvm_args: vec![String::from("-Xmx2G")],
        game_args: vec![String::from("--demo")],
        data: vec![(String::from("k"), String::from("v"))],
        version_type: String::from("release"),
        natives: String::from("bin"),
        libraries: String::from("libraries"),
        classpath: String::from("a.jar:b.jar"),
        java_version: 17,
    }
}

#[test]
fn builder_collects_everything() {
    let index = ModrinthIndexBuilder::new(String::from("pack"), String::from("1.0"))
        .add_dependency(String::from("minecraft"), String::from("1.20"))
        .add_dependency(String::from("fabric-loader"), String::from("0.15"))
        .add_file(sample_file("mods/a.jar"))
        .build();
    assert_eq!(index.name, "pack");
    assert_eq!(index.version_id, "1.0");
    assert_eq!(index.game, "minecraft");
    assert_eq!(index.format_version, 1);
    assert_eq!(
        index.dependencies,
        vec![
            (String::from("minecraft"), String::from("1.20")),
            (String::from("fabric-loader"), String::from("0.15")),
        ]
    );
    assert_eq!(index.files, vec![sample_file("mods/a.jar")]);
}

#[test]
fn repeated_dependency_id_keeps_place_and_takes_new_version() {
    let index = ModrinthIndex::new_builder(String::from("pack"), String::from("1.0"))
        .add_dependency(String::from("minecraft"), String::from("1.20"))
        .add_dependency(String::from("fabric-loader"), String::from("0.15"))
        .add_dependency(String::from("minecraft"), String::from("1.21"))
        .build();
    assert_eq!(
        index.dependencies,
        vec![
            (String::from("minecraft"), String::from("1.21")),
            (String::from("fabric-loader"), String::from("0.15")),
        ]
    );
}

#[test]
fn builder_format_version_overrides() {
    let index = ModrinthIndexBuilder::new(String::from("p"), String::from("v"))
        .format_version(2)
        .build();
    assert_eq!(index.format_version, 2);
}

#[test]
fn version_lookup_finds_by_id() {
    let versions = vec![sample_version("1.20"), sample_version("1.21")];
    let found = get(&versions, "1.21").unwrap();
    assert_eq!(found, versions[1]);
    assert!(get(&versions, "1.19").is_none());
}

#[test]
fn manifest_accessors() {
    let m = Manifest {
        latest: Latest {
            release: String::from("1.21"),
            snapshot: String::from("24w01a"),
        },
        versions: vec![String::from("1.21"), String::from("24w01a"), String::from("1.20.4")],
    };
    assert_eq!(list_manifest(&m), m.versions);
    assert_eq!(manifest_latest(&m), m.latest);
    assert_eq!(manifest_latest_release(&m), "1.21");
    assert_eq!(manifest_latest_snapshot(&m), "24w01a");
}

#[test]
fn version_duplicate_is_equal() {
    let v = sample_version("1.20");
    assert_eq!(v.duplicate(), v);
}

#[test]
fn flag_delimiters_and_start() {
    assert_eq!(Flag::string_delimiters(), ('\'', '\''));
    assert_eq!(Flag::number_delimiters(), ('*', '*'));
    assert_eq!(Flag::vec_delimiters(), ('[', ']'));
    assert_eq!(Flag::map_delimiters(), ('{', '}'));
    assert_eq!(Flag::start('\'').delimiters(), ('\'', '\''));
    assert_eq!(Flag::start('[').delimiters(), ('[', ']'));
    assert_eq!(Flag::start('{').delimiters(), ('{', '}'));
    assert_eq!(Flag::start('*').delimiters(), ('*', '*'));
    assert_eq!(Flag::start('x').delimiters(), ('\0', '\0'));
}
