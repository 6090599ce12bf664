use winiso::cli::choices::{
    arch_options, drive_label, find_asked_for, find_usual, normalize_arch, order_languages, output_name,
    pick_arch, pick_language, pick_version, resolve_language, select_drive, version_key,
    version_options,
};
use winiso::cli::flow::{
    esd_link, first_link, iso_not_found, next_in_burn, next_in_wizard, require_drives,
    require_language, require_language_to_burn, require_languages, select_edition, start_burn,
    summary_lines, version_to_burn, version_to_download, wizard_burn, BurnRequest, Stage,
};
use winiso::cli::output::{
    language_not_found, language_rows, languages_json, line_of_language, version_lines,
};
use winiso::disk::partition::PartitionScheme;
use winiso::microsoft::catalog::CatalogEntry;
use winiso::models::{DownloadLink, Language, UsbDrive};

fn language(id: &str, name: &str) -> Language {
    Language {
        id: id.to_string(),
        name: name.to_string(),
        sku_id: String::new(),
        friendly_filename: None,
    }
}

fn link(filename: &str) -> DownloadLink {
    DownloadLink {
        url: "u".to_string(),
        filename: filename.to_string(),
        size: None,
        sha1: None,
    }
}

fn drive(device: &str) -> UsbDrive {
    UsbDrive {
        device: device.to_string(),
        name: "n".to_string(),
        size: 0,
        partitions: Vec::new(),
    }
}

#[test]
fn architectures() {
    for s in ["x64", "X86_64", "AMD64"] {
        assert_eq!(normalize_arch(s), "x64");
    }
    for s in ["arm64", "AArch64", "ARM64"] {
        assert_eq!(normalize_arch(s), "ARM64");
    }
    assert_eq!(normalize_arch("riscv"), "riscv");
    assert_eq!(arch_options(), vec!["x64", "ARM64"]);
    assert_eq!((pick_arch(0), pick_arch(1)), ("x64", "ARM64"));
}

#[test]
fn versions() {
    assert_eq!(version_key("11"), "windows11");
    assert_eq!(version_options(), vec!["Windows 11", "Windows 10"]);
    assert_eq!((pick_version(0), pick_version(1)), ("windows11", "windows10"));
    assert_eq!(version_to_burn(Some("10".to_string())).unwrap(), "windows10");
    assert_eq!(
        version_to_burn(None).err().unwrap().message(),
        "Either provide an ISO file or use --version to download one"
    );
    assert_eq!(
        version_to_download(None).err().unwrap().message(),
        "--version is required for non-interactive download.\n\
         Usage: winiso download --version 11 --lang en-us"
    );
    assert_eq!(version_to_download(Some("11".to_string())).unwrap(), "windows11");
    assert_eq!(
        version_lines(),
        vec![
            "Available Windows Versions:\n",
            "  11 — x64, ARM64",
            "  10 — x64",
            "\nUse: winiso list --version 11 to see available languages."
        ]
    );
}

#[test]
fn editions() {
    let s = select_edition("windows10", "x64").unwrap();
    assert_eq!(
        (s.product_name, s.segment, s.edition_id, s.edition_name),
        ("Windows 10", "windows10ISO", "2618", "Windows 10 (x64)")
    );
    assert_eq!(
        select_edition("windows8", "x64").err().unwrap().message(),
        "Unknown version: windows8"
    );
}

#[test]
fn languages_on_offer() {
    let l = vec![
        language("fr-fr", "French"),
        language("en-gb", "English International"),
        language("de-de", "German"),
        language("en-us", "English"),
        language("en-au", "English Australia"),
        language("xx", "French"),
    ];
    assert_eq!(order_languages(&l), vec![3, 4, 1, 0, 5, 2]);
    assert_eq!(pick_language(&l, 0), 3);
    assert_eq!(pick_language(&l, 5), 2);
}

#[test]
fn languages_asked_for() {
    let l = vec![
        language("de-de", "Deutsch"),
        language("en-gb", "English (UK)"),
        language("en-us", "English (US)"),
        language("el-gr", "ΕΛΛΗΝΙΚΆ"),
    ];
    assert_eq!(resolve_language(&l, Some("uk")).unwrap().id, "en-gb");
    assert_eq!(resolve_language(&l, Some("EN-US")).unwrap().id, "en-us");
    assert_eq!(resolve_language(&l, Some("english")).unwrap().id, "en-gb");
    assert_eq!(resolve_language(&l, Some("ελλην")).unwrap().id, "el-gr");
    assert!(resolve_language(&l, Some("en")).is_some());
    assert!(resolve_language(&l, Some("latin")).is_none());
    assert_eq!(resolve_language(&l, None).unwrap().id, "en-gb");
    assert_eq!(resolve_language(&l[..1].to_vec(), None).unwrap().id, "de-de");
    assert!(resolve_language(&Vec::new(), None).is_none());
    assert_eq!(require_language(&l, Some("deut")).unwrap().id, "de-de");
    assert_eq!(
        require_language(&l[..2].to_vec(), Some("Latin")).err().unwrap().message(),
        "Language 'Latin' not found. Available: Deutsch (de-de), English (UK) (en-gb)..."
    );
    assert_eq!(
        require_language_to_burn(&l, Some("Latin")).err().unwrap().message(),
        "Language not found"
    );
    assert_eq!(require_language_to_burn(&l, None).unwrap().id, "en-gb");
}

#[test]
fn languages_in_lower_case() {
    let strings = |v: &[&str]| v.iter().map(|s| s.to_string()).collect::<Vec<_>>();
    let names = strings(&["deutsch", "english"]);
    assert_eq!(find_asked_for(&names, &strings(&["a", "b"]), "b"), Some(1));
    assert_eq!(find_asked_for(&names, &strings(&["a", "b"]), "sch"), Some(0));
    assert_eq!(find_asked_for(&names, &strings(&["a", "b"]), "c"), Some(0));
    assert_eq!(find_asked_for(&names, &strings(&["a", "b"]), "x"), None);
    let l = vec![language("en-us", "D"), language("x", "English")];
    assert_eq!(find_usual(&names, &l), Some(0));
}

#[test]
fn lists_of_languages() {
    let mut l = language("en-us", "English");
    assert_eq!(line_of_language(7, &l), "    7) English (en-us)");
    assert_eq!(line_of_language(42, &l), "   42) English (en-us)");
    assert_eq!(line_of_language(1234, &l), "  1234) English (en-us)");
    l.friendly_filename = Some("Win.iso".to_string());
    assert_eq!(line_of_language(100, &l), "  100) English (en-us) — Win.iso");
    l.friendly_filename = Some(String::new());
    assert_eq!(line_of_language(100, &l), "  100) English (en-us)");
}

#[test]
fn languages_as_json() {
    let mut l = vec![language("en-us", "English \"US\""), language("de-de", "Deutsch")];
    l[1].friendly_filename = Some("d.iso".to_string());
    assert_eq!(
        language_rows(&l)[1],
        vec![
            ("name".to_string(), Some("Deutsch".to_string())),
            ("code".to_string(), Some("de-de".to_string())),
            ("filename".to_string(), Some("d.iso".to_string())),
        ]
    );
    let json: serde_json::Value = serde_json::from_str(&languages_json(&l)).unwrap();
    assert_eq!(json[0]["name"], "English \"US\"");
    assert_eq!(json[0]["code"], "en-us");
    assert!(json[0]["filename"].is_null());
    assert_eq!(json[1]["filename"], "d.iso");
    assert_eq!(
        languages_json(&l[1..].to_vec()),
        "[\n  {\n    \"code\": \"de-de\",\n    \"filename\": \"d.iso\",\n    \"name\": \"Deutsch\"\n  }\n]"
    );
    assert_eq!(languages_json(&Vec::new()), "[]");
}

#[test]
fn at_most_ten_languages_are_named() {
    let l: Vec<Language> = (0..12).map(|i| language(&format!("l{i}"), "N")).collect();
    let e = language_not_found(&l, None).message();
    assert!(e.starts_with("Language '' not found. Available: N (l0), "));
    assert!(e.ends_with("N (l9)..."));
}

#[test]
fn files_of_a_catalog() {
    let e = |code: &str, name: &str, file: &str| CatalogEntry {
        filename: file.to_string(),
        language_code: code.to_string(),
        language: name.to_string(),
        architecture: "x64".to_string(),
        size: 9,
        sha1: "s".to_string(),
        file_path: "p".to_string(),
    };
    let entries = vec![e("de-de", "German", "a"), e("en-us", "English", "b"), e("en-us", "E", "c")];
    assert_eq!(esd_link(&entries, "x64", None).unwrap().filename, "b");
    assert_eq!(esd_link(&entries, "X64", Some("GERMAN")).unwrap().filename, "a");
    assert_eq!(
        esd_link(&entries, "x64", Some("q")).err().unwrap().message(),
        "Language 'q' not found. Available: English (en-us), German (de-de)..."
    );
    assert_eq!(
        esd_link(&entries, "ARM64", None).err().unwrap().message(),
        "Language '' not found. Available: ..."
    );
}

#[test]
fn links_and_names() {
    let links = vec![link("a.iso"), link("b.iso")];
    assert_eq!(first_link(&links, true).unwrap().filename, "a.iso");
    assert_eq!(
        first_link(&Vec::new(), true).err().unwrap().message(),
        "No download links returned by Microsoft. Try again later."
    );
    assert_eq!(
        first_link(&Vec::new(), false).err().unwrap().message(),
        "No download links returned."
    );
    let mut l = language("en-us", "English");
    assert_eq!(output_name(&l, &links[0]), "a.iso");
    l.friendly_filename = Some("Win.iso".to_string());
    assert_eq!(output_name(&l, &links[0]), "Win.iso");
    assert!(require_languages(&vec![l], "x64").is_ok());
    assert_eq!(
        require_languages(&Vec::new(), "x64").err().unwrap().message(),
        "No languages available for x64. Microsoft may have changed their API."
    );
    assert_eq!(iso_not_found("/a.iso").message(), "ISO file not found: /a.iso");
}

#[test]
fn drives_asked_for() {
    let d = vec![drive("/dev/sdb"), drive("/dev/sdc")];
    assert_eq!(select_drive(&d, "/dev/sdc").unwrap(), 1);
    assert_eq!(
        select_drive(&d, "/dev/sda").err().unwrap().message(),
        "Drive /dev/sda not found. Available: /dev/sdb, /dev/sdc"
    );
    assert!(require_drives(&d).is_ok());
    assert_eq!(drive_label(&d[0], "8.0 GB"), "n (8.0 GB) — /dev/sdb");
    assert_eq!(
        require_drives(&Vec::new()).err().unwrap().message(),
        "No removable USB drives found. Insert a USB drive and try again."
    );
}

#[test]
fn what_the_wizard_sums_up() {
    let l = language("en-us", "English");
    assert_eq!(
        summary_lines("Windows 11", "x64", &l, Some("Stick (8.0 GB) — /dev/sdb")),
        vec![
            "\n  Windows:  Windows 11 (x64)",
            "  Language: English",
            "  Drive:    Stick (8.0 GB) — /dev/sdb",
            "  Will download ISO, then write to USB.\n"
        ]
    );
    assert_eq!(
        summary_lines("Windows 11", "x64", &l, None)[2],
        "  Will download ISO to current directory.\n"
    );
}

#[test]
fn the_course_of_the_wizard() {
    let mut stage = Stage::PickVersion;
    let mut seen = vec![stage];
    while stage != Stage::Done {
        stage = next_in_wizard(stage, true, true);
        seen.push(stage);
    }
    assert_eq!(
        seen,
        vec![
            Stage::PickVersion,
            Stage::PickArch,
            Stage::FetchLanguages,
            Stage::PickLanguage,
            Stage::ListDrives,
            Stage::PickDrive,
            Stage::FetchLinks,
            Stage::CheckExisting,
            Stage::Confirm,
            Stage::Burn,
            Stage::Done
        ]
    );
    assert_eq!(next_in_wizard(Stage::CheckExisting, false, false), Stage::Download);
    assert_eq!(next_in_wizard(Stage::Download, false, false), Stage::Done);
    assert_eq!(next_in_wizard(Stage::Confirm, false, true), Stage::Done);
    assert_eq!(next_in_wizard(Stage::ListDrives, false, false), Stage::FetchLinks);
}

#[test]
fn the_course_of_a_burn() {
    let q = BurnRequest { has_iso: false, has_drive: true, yes: false };
    let mut stage = start_burn(q);
    let mut seen = vec![stage];
    while stage != Stage::Done {
        stage = next_in_burn(stage, false, q);
        seen.push(stage);
    }
    assert_eq!(
        seen,
        vec![
            Stage::FetchLanguages,
            Stage::ResolveLanguage,
            Stage::FetchLinks,
            Stage::CheckExisting,
            Stage::Download,
            Stage::ListDrives,
            Stage::FindDrive,
            Stage::Confirm,
            Stage::Done
        ]
    );
    let q = BurnRequest { has_iso: true, has_drive: false, yes: true };
    assert_eq!(start_burn(q), Stage::ListDrives);
    assert_eq!(next_in_burn(Stage::ListDrives, true, q), Stage::PickDrive);
    assert_eq!(next_in_burn(Stage::PickDrive, false, q), Stage::Burn);
}

#[test]
fn wizard_writes_a_boot_record() {
    assert_eq!(wizard_burn(), (PartitionScheme::Mbr, false));
}
