use winiso::models::UsbDrive;
use winiso::platform::Platform;
use winiso::tree::{list_values, TreeNode};
use winiso::usb::drives::{
    command_result, eject_drive, list_usb_drives, unmount_drive, DriveSource,
};
use winiso::usb::linux::{
    check_disk, check_sectors, is_disk_name, is_removable, is_usb_link, list_drives,
    list_partitions, sector_count, sys_drive, SysDisk,
};
use winiso::usb::lists::{check_list, read_plist, MAX_NESTING};
use winiso::usb::macos::{
    disks_in, info_args, info_in, info_of, list_args, make_drive, partition_args, partitions_in,
    paths_of_others, read_disks, read_info, read_partitions, strings_in,
};
use winiso::usb::survey::{DriveSurvey, Question};

fn drive() -> UsbDrive {
    UsbDrive {
        device: "/dev/sdb".to_string(),
        name: "Stick".to_string(),
        size: 1000,
        partitions: vec!["/dev/sdb1".to_string(), "/dev/sdb2".to_string()],
    }
}

#[test]
fn where_drives_are_listed() {
    assert_eq!(list_usb_drives(Platform::Linux).unwrap(), DriveSource::SysBlock);
    assert_eq!(list_usb_drives(Platform::MacOs).unwrap(), DriveSource::Diskutil);
    assert_eq!(
        list_usb_drives(Platform::Other).err().unwrap().message(),
        "USB drive detection is not supported on this platform"
    );
}

#[test]
fn unmounting() {
    let c = unmount_drive(Platform::Linux, &drive()).unwrap();
    assert_eq!(c.len(), 2);
    assert_eq!(c[1].program, "umount");
    assert_eq!(c[1].args, vec!["/dev/sdb2"]);
    assert!(command_result(&c[1], false).is_ok());
    let c = unmount_drive(Platform::MacOs, &drive()).unwrap();
    assert_eq!(c[0].program, "diskutil");
    assert_eq!(c[0].args, vec!["unmountDisk", "/dev/sdb"]);
    assert!(command_result(&c[0], true).is_ok());
    assert_eq!(
        command_result(&c[0], false).err().unwrap().message(),
        "Failed to unmount /dev/sdb"
    );
    assert_eq!(
        unmount_drive(Platform::Other, &drive()).err().unwrap().message(),
        "Not supported"
    );
}

#[test]
fn ejecting() {
    let c = eject_drive(Platform::Linux, &drive()).unwrap();
    assert_eq!((c.program.as_str(), c.args.clone()), ("eject", vec!["/dev/sdb".to_string()]));
    assert_eq!(command_result(&c, false).err().unwrap().message(), "Failed to eject /dev/sdb");
    let c = eject_drive(Platform::MacOs, &drive()).unwrap();
    assert_eq!(c.args, vec!["eject", "/dev/sdb"]);
    assert_eq!(
        eject_drive(Platform::Other, &drive()).err().unwrap().message(),
        "Not supported"
    );
}

#[test]
fn what_the_kernel_tells() {
    assert!(is_disk_name("sdb"));
    assert!(!is_disk_name("nvme0n1"));
    assert!(is_removable("1\n"));
    assert!(!is_removable("0\n"));
    assert!(is_usb_link("../../devices/pci0/usb1/1-1"));
    assert!(!is_usb_link("../../devices/pci0/ata1"));
    assert_eq!(sector_count(" 2048\n"), 2048);
    assert_eq!(sector_count("many"), 0);
    assert!(check_sectors("36028797018963967"));
    assert!(!check_sectors("36028797018963968"));
    let names: Vec<String> =
        ["sdb", "sdb1", "queue", "sdb2"].iter().map(|s| s.to_string()).collect();
    assert_eq!(list_partitions("sdb", &names), vec!["/dev/sdb1", "/dev/sdb2"]);
}

#[test]
fn drives_on_linux() {
    let mut d = SysDisk {
        name: "sdb".to_string(),
        removable: "1\n".to_string(),
        link: "x/usb3/y".to_string(),
        size: "100\n".to_string(),
        model: Some(" Cruzer \n".to_string()),
        names: vec!["sdb1".to_string()],
    };
    let u = sys_drive(&d).unwrap();
    assert_eq!(u.device, "/dev/sdb");
    assert_eq!(u.name, "Cruzer");
    assert_eq!(u.size, 51200);
    assert_eq!(u.partitions, vec!["/dev/sdb1"]);
    d.model = None;
    assert_eq!(sys_drive(&d).unwrap().name, "USB Drive");
    d.size = "36028797018963968".to_string();
    assert!(!check_disk(&d));
    d.removable = "0".to_string();
    assert!(check_disk(&d));
    assert!(sys_drive(&d).is_none());
    let disk = |name: &str, removable: &str| SysDisk {
        name: name.to_string(),
        removable: removable.to_string(),
        link: "/usb".to_string(),
        size: "2".to_string(),
        model: None,
        names: Vec::new(),
    };
    let found = list_drives(&vec![
        disk("sda", "0"),
        disk("sdb", "1"),
        disk("sr0", "1"),
        disk("sdc", "1"),
    ]);
    let paths: Vec<&str> = found.iter().map(|u| u.device.as_str()).collect();
    assert_eq!(paths, vec!["/dev/sdb", "/dev/sdc"]);
}

fn xml_list(body: &str) -> Vec<u8> {
    format!(
        "<?xml version=\"1.0\" encoding=\"UTF-8\"?><plist version=\"1.0\">{body}</plist>"
    )
    .into_bytes()
}

#[test]
fn disks_on_macos() {
    let data = xml_list(
        "<dict><key>AllDisks</key><array><string>disk2</string><string>disk2s1</string></array>\
         <key>WholeDisks</key><array><string>disk2</string><integer>3</integer>\
         <string>disk4</string></array></dict>",
    );
    assert_eq!(read_disks(true, &data).unwrap(), vec!["disk2", "disk4"]);
    assert_eq!(read_disks(false, &data).err().unwrap().message(), "diskutil list failed");
    let e = read_disks(true, b"nothing").err().unwrap().message();
    assert!(e.starts_with("plist parse: "), "{e}");
    assert!(read_disks(true, &xml_list("<dict/>")).unwrap().is_empty());
    assert!(read_disks(true, &xml_list("<array><string>x</string></array>")).unwrap().is_empty());
    assert_eq!(read_partitions(true, &data, "disk2").unwrap(), vec!["/dev/disk2s1"]);
    assert!(read_partitions(false, &data, "disk2").unwrap().is_empty());
    assert_eq!(list_args(), vec!["list", "-plist", "external"]);
    assert_eq!(info_args("disk2"), vec!["info", "-plist", "/dev/disk2"]);
    assert_eq!(partition_args("disk2"), vec!["list", "-plist", "/dev/disk2"]);
}

#[test]
fn drives_on_macos() {
    let info = |removable: &str, kind: &str, rest: &str| {
        xml_list(&format!(
            "<dict><key>RemovableMediaOrExternalDevice</key>{removable}\
             <key>VirtualOrPhysical</key><string>{kind}</string>{rest}</dict>"
        ))
    };
    let full = "<key>MediaName</key><string>Stick</string><key>TotalSize</key><integer>8000</integer>";
    assert_eq!(
        read_info(true, &info("<true/>", "Physical", full)).unwrap(),
        Some(("Stick".to_string(), 8000))
    );
    assert_eq!(
        read_info(true, &info("<true/>", "Physical", "")).unwrap(),
        Some(("USB Drive".to_string(), 0))
    );
    assert_eq!(read_info(true, &info("<true/>", "Virtual", full)).unwrap(), None);
    assert_eq!(read_info(true, &info("<false/>", "Physical", full)).unwrap(), None);
    assert_eq!(read_info(true, &xml_list("<dict/>")).unwrap(), None);
    assert_eq!(read_info(false, b"").unwrap(), None);
    assert!(read_info(true, b"").is_err());
    let d = make_drive("disk2", "Stick".to_string(), 8000, Vec::new());
    assert_eq!((d.device.as_str(), d.size), ("/dev/disk2", 8000));
}

#[test]
fn values_of_given_lists() {
    let node = |parent, key: Option<&str>, string: Option<&str>| TreeNode {
        parent,
        key: key.map(str::to_string),
        text: String::new(),
        string: string.map(str::to_string),
        boolean: None,
        number: None,
    };
    let nodes = vec![
        node(0, None, None),
        node(0, Some("D"), None),
        node(1, None, Some("a")),
        node(1, None, None),
        node(1, None, Some("b")),
    ];
    assert_eq!(strings_in(&nodes, "D"), vec!["a", "b"]);
    assert!(strings_in(&nodes, "E").is_empty());
    assert_eq!(info_of(&nodes), None);
    let disks: Vec<String> = ["d", "ds1"].iter().map(|s| s.to_string()).collect();
    assert_eq!(paths_of_others(&disks, "d"), vec!["/dev/ds1"]);
}

#[test]
fn survey_of_drives() {
    let listed = xml_list(
        "<dict><key>WholeDisks</key><array><string>disk2</string><string>disk3</string>\
         <string>disk4</string></array></dict>",
    );
    let drive = xml_list(
        "<dict><key>RemovableMediaOrExternalDevice</key><true/>\
         <key>MediaName</key><string>Stick</string><key>TotalSize</key><integer>8000</integer></dict>",
    );
    let parts = xml_list(
        "<dict><key>AllDisks</key><array><string>disk4</string><string>disk4s1</string></array></dict>",
    );
    let answer = |args: &Vec<String>| -> (bool, Vec<u8>) {
        let asked: Vec<&str> = args.iter().map(|s| s.as_str()).collect();
        match asked.as_slice() {
            ["list", "-plist", "external"] => (true, listed.clone()),
            ["info", "-plist", "/dev/disk2"] => (false, Vec::new()),
            ["info", "-plist", "/dev/disk3"] => (true, xml_list("<dict/>")),
            ["info", "-plist", "/dev/disk4"] => (true, drive.clone()),
            ["list", "-plist", "/dev/disk4"] => (true, parts.clone()),
            _ => panic!("{asked:?}"),
        }
    };
    let mut survey = DriveSurvey::new();
    let mut asked = 0;
    while let Some(args) = survey.next_args() {
        let (success, data) = answer(&args);
        survey = survey.answer(success, &data).unwrap();
        asked += 1;
    }
    assert_eq!(asked, 5);
    assert!(matches!(survey.question, Question::Nothing));
    assert_eq!(survey.drives.len(), 1);
    let d = &survey.drives[0];
    assert_eq!((d.device.as_str(), d.name.as_str(), d.size), ("/dev/disk4", "Stick", 8000));
    assert_eq!(d.partitions, vec!["/dev/disk4s1"]);
}

#[test]
fn survey_that_fails() {
    let failed = DriveSurvey::new().answer(false, b"").err().unwrap();
    assert_eq!(failed.message(), "diskutil list failed");
    let one = xml_list("<dict><key>WholeDisks</key><array><string>disk2</string></array></dict>");
    let survey = DriveSurvey::new().answer(true, &one).unwrap();
    assert_eq!(survey.next_args().unwrap(), vec!["info", "-plist", "/dev/disk2"]);
    let e = survey.answer(true, b"nothing").err().unwrap().message();
    assert!(e.starts_with("plist parse: "), "{e}");
    let none = DriveSurvey::new().answer(true, &xml_list("<dict/>")).unwrap();
    assert!(none.next_args().is_none());
    assert!(none.drives.is_empty());
}

#[test]
fn lists_that_can_be_read() {
    let nested = |n: usize| {
        xml_list(&format!("{}{}", "<array>".repeat(n), "</array>".repeat(n)))
    };
    assert!(check_list(&nested(MAX_NESTING)));
    assert_eq!(read_plist(&nested(MAX_NESTING)).unwrap().len(), MAX_NESTING);
    assert!(!check_list(&nested(MAX_NESTING + 1)));
    // Side by side there may be more of them.
    let flat = xml_list(&format!("<array>{}</array>", "<dict/><array></array>".repeat(1000)));
    assert!(check_list(&flat));
    assert_eq!(read_plist(&flat).unwrap().len(), 2001);
    // Tags that are not plain, or that are none.
    assert!(check_list(&xml_list("<string>(a) {b} :c</string>")));
    assert!(!check_list(&xml_list("<!-- <array> --><array/ >")));
    assert!(!check_list(&xml_list("<array><!-- </array> --></array>")));
    assert!(!check_list(&xml_list("<array a='</array>'></array>")));
    assert!(!check_list(&xml_list("<array ></array>")));
    assert!(!check_list(&xml_list("<array></array ></array>")));
    assert!(!check_list(&xml_list("<x:array></x:array>")));
    assert!(check_list(&xml_list("<string a='b'>c</string>")));
}

#[test]
fn dates_that_can_be_read() {
    for date in ["1602-01-01T00:00:00Z", "2024-02-29T12:00:00Z", "9998-12-31T23:59:59-23:59"] {
        let list = xml_list(&format!("<array><date>{date}</date><string>x</string></array>"));
        assert!(check_list(&list), "{date}");
        let nodes = read_plist(&list).unwrap();
        assert_eq!(nodes.len(), 3);
        assert_eq!(nodes[1].string, None);
        assert_eq!(nodes[2].string.as_deref(), Some("x"));
    }
    for date in [
        "<date>0000-01-01T00:00:00+23:59</date>",
        "<date>1601-12-31T00:00:00Z</date>",
        "<date>9999-12-31T23:59:59-01:00</date>",
        "<date a='b'>2024-01-01T00:00:00Z</date>",
        "<date> 2024-01-01T00:00:00Z</date>",
        "<x:date>2024-01-01T00:00:00Z</x:date>",
        "<date/>",
    ] {
        assert!(!check_list(&xml_list(date)), "{date}");
    }
    // A word in a string is no date.
    assert!(check_list(&xml_list("<string>date</string>")));
}

#[test]
fn lists_that_are_not_in_xml() {
    assert!(!check_list(b"bplist00 and more"));
    assert!(check_list(b""));
    assert!(check_list(&b"(".repeat(MAX_NESTING)));
    assert!(!check_list(&b"(".repeat(MAX_NESTING + 1)));
    assert!(!check_list(&b"{".repeat(MAX_NESTING + 1)));
    let nodes = read_plist(b"{ a = (b, c); }").unwrap();
    let row: Vec<(usize, Option<&str>, Option<&str>)> =
        nodes.iter().map(|n| (n.parent, n.key.as_deref(), n.string.as_deref())).collect();
    assert_eq!(
        row,
        vec![(0, None, None), (0, Some("a"), None), (1, None, Some("b")), (1, None, Some("c"))]
    );
}

#[test]
fn answers_that_are_lists_already() {
    let mut disks = plist::Dictionary::new();
    disks.insert("WholeDisks".to_string(), plist::Value::Array(vec!["disk7".into()]));
    let mut data = Vec::new();
    plist::Value::Dictionary(disks).to_writer_binary(&mut data).unwrap();
    assert!(!check_list(&data));
    let value: plist::Value = plist::from_bytes(&data).unwrap();
    assert_eq!(disks_in(true, Ok(list_values(&value))).unwrap(), vec!["disk7"]);
    let survey = DriveSurvey::new().answer_list(true, Ok(list_values(&value))).unwrap();
    assert_eq!(survey.next_args().unwrap(), vec!["info", "-plist", "/dev/disk7"]);
    let e = survey.answer_list(true, Err("no list".to_string())).err().unwrap().message();
    assert_eq!(e, "plist parse: no list");
    assert_eq!(info_in(false, Ok(Vec::new())).unwrap(), None);
    assert!(partitions_in(false, Ok(Vec::new()), "disk7").unwrap().is_empty());
}
