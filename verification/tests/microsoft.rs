use std::io::{Cursor, Write};

use winiso::microsoft::api::{
    hyphenated_text, parse_languages, parse_links, parse_script,
    ApiQuery, ApiStage, MicrosoftDownloadAPI,
};
use winiso::microsoft::cabinet::{check_file, CabText};
use winiso::microsoft::catalog::{
    cabinet_text, catalog_url, check_cabinet, choose_name, extract_xml_from_cab, files_of_nodes, find_xml,
    get_download_link_from_catalog, get_languages_from_catalog, open_catalog, parse_products_xml,
    read_catalog, CatalogEntry, XmlNode,
};
use winiso::microsoft::json::read_json;
use winiso::microsoft::models::{get_edition, get_product, products};

fn cabinet(files: &[(&str, &[u8])]) -> Vec<u8> {
    let mut builder = cab::CabinetBuilder::new();
    let folder = builder.add_folder(cab::CompressionType::None);
    for (name, _) in files {
        folder.add_file(*name);
    }
    let mut writer = builder.build(Cursor::new(Vec::new())).unwrap();
    let mut i = 0;
    while let Some(mut file) = writer.next_file().unwrap() {
        file.write_all(files[i].1).unwrap();
        i += 1;
    }
    writer.finish().unwrap().into_inner()
}

const XML: &str = "<MCT><Catalogs><Catalog><PublishedMedia><Files>\
<File><FileName>b_de.esd</FileName><LanguageCode>de-de</LanguageCode>\
<Language>German</Language><Architecture>x64</Architecture><Size> 42 </Size>\
<Sha1>ab</Sha1><FilePath>http://x/b_de.esd</FilePath></File>\
<File><FileName>a_en.esd</FileName><LanguageCode>en-us</LanguageCode>\
<Language>English</Language><Architecture>X64</Architecture><Size>nan</Size>\
<Sha1></Sha1><FilePath>http://x/a_en.esd</FilePath></File>\
<File><FileName>c_en.esd</FileName><LanguageCode>en-us</LanguageCode>\
<Language>English again</Language><Architecture>x64</Architecture></File>\
<File><FileName>d_fr.esd</FileName><LanguageCode>fr-fr</LanguageCode>\
<Language>French</Language><Architecture>ARM64</Architecture></File>\
<File><FileName>  </FileName><LanguageCode>it-it</LanguageCode></File>\
</Files></PublishedMedia></Catalog></Catalogs></MCT>";

fn catalog() -> Vec<CatalogEntry> {
    parse_products_xml(XML).unwrap()
}

#[test]
fn versions_on_offer() {
    let all = products();
    assert_eq!(all.len(), 2);
    let eleven = get_product("windows11").unwrap();
    assert_eq!(eleven.name, "Windows 11");
    assert_eq!(eleven.segment, "windows11");
    assert_eq!(get_edition(&eleven, "arm64").id, "3324");
    assert_eq!(get_edition(&eleven, "x64").id, "3321");
    let ten = get_product("windows10").unwrap();
    assert_eq!(ten.segment, "windows10ISO");
    assert_eq!(get_edition(&ten, "ARM64").id, "2618");
    assert!(get_product("windows7").is_none());
}

#[test]
fn catalog_addresses() {
    assert_eq!(
        catalog_url("windows11").unwrap(),
        "https://go.microsoft.com/fwlink/?LinkId=2156292"
    );
    assert_eq!(
        catalog_url("windows10").unwrap(),
        "https://go.microsoft.com/fwlink/?LinkId=841361"
    );
    assert_eq!(catalog_url("windows7").err().unwrap().message(), "Unknown version: windows7");
}

#[test]
fn names_in_a_cabinet() {
    let names = |v: &[&str]| v.iter().map(|s| s.to_string()).collect::<Vec<_>>();
    assert_eq!(choose_name(&names(&["a.xml", "products.xml"])), Some(1));
    assert_eq!(choose_name(&names(&["a.txt", "b.xml", "c.xml"])), Some(1));
    assert_eq!(choose_name(&names(&["products.txt"])), None);
}

#[test]
fn xml_from_a_cabinet() {
    let data = cabinet(&[("other.xml", b"<a/>"), ("Products.XML", b"<b/>")]);
    assert_eq!(extract_xml_from_cab(&data).unwrap(), "<b/>");
    let data = cabinet(&[("read.me", b"x"), ("other.xml", b"<a/>")]);
    assert_eq!(extract_xml_from_cab(&data).unwrap(), "<a/>");
}

#[test]
fn files_behind_their_folder() {
    let data = cabinet(&[("a.xml", b"0123456789"), ("b.xml", b"x")]);
    assert!(check_file(&data, "a.xml"));
    assert!(check_file(&data, "b.xml"));
    assert!(check_file(&data, "c.xml"));
    assert!(check_cabinet(&data));
    assert_eq!(extract_xml_from_cab(&data).unwrap(), "0123456789");
    // The entries of the files: where they begin, eleven bytes are there in all.
    let first = u32::from_le_bytes(data[16..20].try_into().unwrap()) as usize;
    let second = first + 16 + 6;
    let moved = |entry: usize, start: u32| {
        let mut d = data.clone();
        d[entry + 4..entry + 8].copy_from_slice(&start.to_le_bytes());
        d
    };
    assert_eq!(extract_xml_from_cab(&moved(first, 4)).unwrap(), "456789x");
    assert!(check_file(&moved(first, 11), "a.xml"));
    assert_eq!(extract_xml_from_cab(&moved(first, 11)).unwrap(), "");
    assert!(!check_file(&moved(first, 12), "a.xml"));
    assert!(!check_cabinet(&moved(first, 12)));
    assert!(open_catalog(&moved(first, 12)).is_none());
    // Another file does not matter.
    assert!(!check_file(&moved(second, 12), "b.xml"));
    assert!(check_cabinet(&moved(second, 12)));
    // No cabinet, or one that ends early, is told otherwise.
    assert!(check_cabinet(b"no cabinet"));
    for n in 0..data.len() {
        assert!(check_file(&moved(first, 12)[..n], "a.xml"));
    }
}

#[test]
fn packed_folders() {
    let packed = |kind: u16| {
        let mut data = cabinet(&[("products.xml", XML.as_bytes())]);
        data[42..44].copy_from_slice(&kind.to_le_bytes());
        data
    };
    assert_eq!(extract_xml_from_cab(&packed(0)).unwrap(), XML);
    // LZX, with windows of 32 KiB and of 32 MiB.
    for kind in [0x0f03, 0x1903] {
        assert_eq!(find_xml(&packed(kind)).unwrap(), "products.xml");
        assert!(!check_file(&packed(kind), "products.xml"));
        assert!(check_file(&packed(kind), "other.xml"));
        assert!(!check_cabinet(&packed(kind)));
        assert!(open_catalog(&packed(kind)).is_none());
    }
    // Quantum, which is not supported, and MSZIP, which this is not.
    for kind in [0x0a12, 0x0001] {
        assert!(check_cabinet(&packed(kind)));
        let e = extract_xml_from_cab(&packed(kind)).err().unwrap().message();
        assert!(e.starts_with("CAB extraction error: Failed to read products.xml: "), "{e}");
    }
}

#[test]
fn zipped_catalog() {
    let mut builder = cab::CabinetBuilder::new();
    builder.add_folder(cab::CompressionType::MsZip).add_file("products.xml");
    let mut writer = builder.build(Cursor::new(Vec::new())).unwrap();
    writer.next_file().unwrap().unwrap().write_all(XML.as_bytes()).unwrap();
    assert!(writer.next_file().unwrap().is_none());
    let data = writer.finish().unwrap().into_inner();
    assert_eq!(open_catalog(&data).unwrap().unwrap().len(), 4);
}

#[test]
fn cabinets_without_xml() {
    let data = cabinet(&[("read.me", b"x")]);
    assert_eq!(
        extract_xml_from_cab(&data).err().unwrap().message(),
        "CAB extraction error: No XML file found in CAB archive"
    );
    assert!(find_xml(&data).is_err());
    let e = extract_xml_from_cab(b"no cabinet").err().unwrap().message();
    assert!(e.starts_with("CAB extraction error: Failed to open CAB: "), "{e}");
    let data = cabinet(&[("products.xml", b"\xff\xfe")]);
    let e = extract_xml_from_cab(&data).err().unwrap().message();
    assert!(e.starts_with("CAB extraction error: Failed to decode XML: "), "{e}");
    let e = cabinet_text("p.xml", CabText::Closed("gone".to_string())).err().unwrap();
    assert_eq!(e.message(), "CAB extraction error: Failed to read p.xml: gone");
    let e = cabinet_text("p.xml", CabText::Garbled("bad".to_string())).err().unwrap();
    assert_eq!(e.message(), "CAB extraction error: Failed to decode XML: bad");
    assert_eq!(cabinet_text("p.xml", CabText::Text("t".to_string())).unwrap(), "t");
}

#[test]
fn catalog_files() {
    let files = catalog();
    assert_eq!(files.len(), 4);
    assert_eq!(files[0].filename, "b_de.esd");
    assert_eq!(files[0].size, 42);
    assert_eq!(files[0].sha1, "ab");
    assert_eq!(files[1].size, 0);
    assert_eq!(files[3].architecture, "ARM64");
    assert_eq!(files[3].file_path, "");
    let data = cabinet(&[("products.xml", XML.as_bytes())]);
    assert_eq!(read_catalog(&data).unwrap().len(), 4);
    assert_eq!(open_catalog(&data).unwrap().unwrap().len(), 4);
    let e = parse_products_xml("<a>").err().unwrap().message();
    assert!(e.starts_with("XML parse error: Failed to parse products XML: "), "{e}");
}

#[test]
fn files_of_given_nodes() {
    let node = |parent, tag: &str, text: Option<&str>| XmlNode {
        parent,
        tag: tag.to_string(),
        text: text.map(str::to_string),
    };
    let nodes = vec![
        node(None, "", None),
        node(Some(0), "File", None),
        node(Some(1), "FileName", Some(" x.esd\n")),
        node(Some(1), "Size", Some("+7")),
        node(Some(1), "Size", Some("8")),
        node(Some(0), "FileName", Some("y")),
    ];
    let files = files_of_nodes(&nodes);
    assert_eq!(files.len(), 1);
    assert_eq!(files[0].filename, "x.esd");
    assert_eq!(files[0].size, 7);
}

#[test]
fn languages_of_a_catalog() {
    let l = get_languages_from_catalog(&catalog(), "x64");
    assert_eq!(l.len(), 2);
    assert_eq!((l[0].id.as_str(), l[0].name.as_str()), ("en-us", "English"));
    assert_eq!((l[1].id.as_str(), l[1].name.as_str()), ("de-de", "German"));
    assert_eq!(l[0].friendly_filename.as_deref(), Some("a_en.esd"));
    let arm = get_languages_from_catalog(&catalog(), "arm64");
    assert_eq!(arm.len(), 1);
}

#[test]
fn links_of_a_catalog() {
    let link = get_download_link_from_catalog(&catalog(), "de-de", "X64").unwrap();
    assert_eq!(link.url, "http://x/b_de.esd");
    assert_eq!(link.filename, "b_de.esd");
    assert_eq!(link.size, Some(42));
    assert_eq!(link.sha1.as_deref(), Some("ab"));
    assert!(get_download_link_from_catalog(&catalog(), "fr-fr", "x64").is_none());
    assert!(get_download_link_from_catalog(&catalog(), "DE-DE", "x64").is_none());
    // Each language that is listed has a link, and that to the file of the same name.
    for l in get_languages_from_catalog(&catalog(), "x64") {
        let link = get_download_link_from_catalog(&catalog(), &l.id, "x64").unwrap();
        assert_eq!(Some(link.filename), l.friendly_filename);
    }
}

#[test]
fn session_identifiers() {
    let id: Vec<u8> = (0..16).map(|i| i * 17).collect();
    assert_eq!(hyphenated_text(&id), "00112233-4455-6677-8899-aabbccddeeff");
    let session = || {
        let api = MicrosoftDownloadAPI::new();
        assert!(!api.is_verified());
        let q = ApiQuery::Languages { edition_id: "1".to_string() };
        let url = api.request(&ApiStage::Tags, &q).url;
        url.rsplit('=').next().unwrap().to_string()
    };
    let a = session();
    let b = session();
    assert_ne!(a, b);
    assert_eq!(a.len(), 36);
    assert_eq!(a.as_bytes()[14], b'4');
    assert!(b"89ab".contains(&a.as_bytes()[19]));
}

#[test]
fn an_exchange_with_the_service() {
    let mut api = MicrosoftDownloadAPI::with_session("id".to_string());
    let q = ApiQuery::Links { sku_id: "77".to_string(), segment: "windows11".to_string() };
    let stage = api.begin();
    assert_eq!(
        api.request(&stage, &q).url,
        "https://vlscppe.microsoft.com/tags?org_id=y6jn8c31&session_id=id"
    );
    let stage = api.advance(stage, "", 0).unwrap();
    let r = api.request(&stage, &q);
    assert_eq!(r.url, "https://ov-df.microsoft.com/mdt.js");
    assert_eq!(r.query[2], ("session_id".to_string(), "id".to_string()));
    let js = "x url:\"https://ov-df.microsoft.com/?a=b\", rticks=\"+12345;";
    let stage = api.advance(stage, js, 99).unwrap();
    assert_eq!(
        api.request(&stage, &q).url,
        "https://ov-df.microsoft.com/?a=b&mdt=99&rticks=12345"
    );
    assert!(!api.is_verified());
    let stage = api.advance(stage, "", 0).unwrap();
    assert!(api.is_verified());
    let r = api.request(&stage, &q);
    assert_eq!(
        r.url,
        "https://www.microsoft.com/software-download-connector/api/GetProductDownloadLinksBySku"
    );
    assert_eq!(r.referer.as_deref(), Some("https://www.microsoft.com/software-download/windows11"));
    assert_eq!(r.query[1], ("productEditionId".to_string(), "undefined".to_string()));
    assert_eq!(r.query[2], ("SKU".to_string(), "77".to_string()));
    // The check is made only once.
    assert!(matches!(api.begin(), ApiStage::Ask));
    let q = ApiQuery::Languages { edition_id: "3321".to_string() };
    let r = api.request(&ApiStage::Ask, &q);
    assert!(r.url.ends_with("/getskuinformationbyproductedition"));
    assert_eq!(r.query[1], ("productEditionId".to_string(), "3321".to_string()));
    assert_eq!(r.query[2], ("SKU".to_string(), "undefined".to_string()));
    assert_eq!(r.referer, None);
}

#[test]
fn scripts_that_cannot_be_read() {
    for js in [
        "rticks=\"+1",
        "url:\"https://ov-df.microsoft.com/ab rticks=",
        "url:\"https://ov-df.microsoft.com/ab\" ticks",
        "url:\"https://example.com/ab\" rticks=\"+1",
    ] {
        let e = parse_script(js, 1).err().unwrap();
        assert_eq!(
            e.message(),
            "API error: Failed to parse anti-bot verification response"
        );
        let details = match e {
            winiso::error::Error::Api { details, .. } => details,
            _ => panic!(),
        };
        assert_eq!(details, format!("Could not parse mdt.js (length={})", js.len()));
    }
}

#[test]
fn languages_from_the_service() {
    let body = br#"{"Skus":[
        {"Id":"123","Language":"English","LocalizedLanguage":"English (US)",
         "FriendlyFileNames":["Win11.iso","x"]},
        {"Id":456,"Language":"Deutsch","FriendlyFileNames":[]},
        {"FriendlyFileNames":[7]}
    ],"Errors":[]}"#;
    let l = MicrosoftDownloadAPI::get_languages(body).unwrap();
    assert_eq!(l.len(), 3);
    assert_eq!(l[0].id, "English");
    assert_eq!(l[0].name, "English (US)");
    assert_eq!(l[0].sku_id, "123");
    assert_eq!(l[0].friendly_filename.as_deref(), Some("Win11.iso"));
    assert_eq!(l[1].name, "Deutsch");
    assert_eq!(l[1].sku_id, "456");
    assert_eq!(l[1].friendly_filename, None);
    assert_eq!(l[2].sku_id, "null");
    assert_eq!(l[2].id, "");
    assert_eq!(l[2].friendly_filename, None);
    assert_eq!(MicrosoftDownloadAPI::get_languages(b"{}").unwrap().len(), 0);
    assert_eq!(MicrosoftDownloadAPI::get_languages(b"{\"Skus\":{\"a\":1}}").unwrap().len(), 0);
}

#[test]
fn links_from_the_service() {
    let body = br#"{"ProductDownloadOptions":[{"Uri":"https://s/a/Win.iso?t=1&q=2"},
        {"Uri":""},{"x":1},{"Uri":"plain"}]}"#;
    let l = MicrosoftDownloadAPI::get_download_links(body).unwrap();
    assert_eq!(l.len(), 2);
    assert_eq!(l[0].url, "https://s/a/Win.iso?t=1&q=2");
    assert_eq!(l[0].filename, "Win.iso");
    assert_eq!(l[0].size, None);
    assert_eq!(l[1].filename, "plain");
}

#[test]
fn errors_from_the_service() {
    for (body, details) in [
        (&b"{\"Errors\":[{\"Key\":\"E\"}]}"[..], "[{\"Key\":\"E\"}]"),
        (&b"{\"Errors\":[1]}"[..], "[1]"),
    ] {
        for e in [MicrosoftDownloadAPI::get_languages(body).err().unwrap(), MicrosoftDownloadAPI::get_download_links(body).err().unwrap()] {
            assert_eq!(e.message(), "API error: API returned errors");
            match e {
                winiso::error::Error::Api { details: d, .. } => assert_eq!(d, details),
                _ => panic!(),
            }
        }
    }
    assert!(MicrosoftDownloadAPI::get_download_links(b"{\"Errors\":{\"a\":1}}").is_ok());
    assert!(MicrosoftDownloadAPI::get_download_links(b"{\"Errors\":null}").is_ok());
    let e = MicrosoftDownloadAPI::get_languages(b"<html>").err().unwrap().message();
    assert_eq!(e, "Network error: error decoding response body");
}

#[test]
fn json_as_a_list_of_values() {
    let nodes = read_json(br#"{"b":[true,{"c":"x"}],"a":12}"#).unwrap();
    let row: Vec<(usize, Option<&str>, &str)> =
        nodes.iter().map(|n| (n.parent, n.key.as_deref(), n.text.as_str())).collect();
    assert_eq!(
        row,
        vec![
            (0, None, "{\"a\":12,\"b\":[true,{\"c\":\"x\"}]}"),
            (0, Some("a"), "12"),
            (0, Some("b"), "[true,{\"c\":\"x\"}]"),
            (2, None, "true"),
            (2, None, "{\"c\":\"x\"}"),
            (4, Some("c"), "\"x\""),
        ]
    );
    assert_eq!(nodes[1].number, Some(12));
    assert_eq!(nodes[3].boolean, Some(true));
    assert_eq!(nodes[5].string.as_deref(), Some("x"));
    assert!(parse_languages(&nodes).unwrap().is_empty());
    assert!(parse_links(&nodes).unwrap().is_empty());
    assert!(read_json(b"{").is_err());
}
