use winiso::burn::{
    burn_warning, sudo_burn, confirm_burn, create_bootable_usb, device_short,
    scheme_for, step_notice, sudo_args, sudo_notice, sudo_result, told_drive, total_file_size,
    wim_to_split, write_raw_iso, BurnStep, BurnWay,
};
use winiso::disk::partition::PartitionScheme;
use winiso::iso::entry::IsoEntry;
use winiso::models::UsbDrive;

fn drive() -> UsbDrive {
    told_drive("/dev/sdb".to_string(), "Stick".to_string(), 8000)
}

fn entry(path: &str, size: u64) -> IsoEntry {
    IsoEntry {
        path: path.to_string(),
        size,
        is_dir: false,
        extent_lba: 0,
        data_length: size,
        alloc_descs: Vec::new(),
    }
}

#[test]
fn who_writes_a_drive() {
    assert_eq!(sudo_burn(false, true), BurnWay::Escalate);
    assert_eq!(sudo_burn(true, true), BurnWay::Raw);
    assert_eq!(sudo_burn(true, false), BurnWay::Bootable);
    assert_eq!(
        sudo_args("/a.iso", &drive(), PartitionScheme::Gpt, true),
        vec![
            "_burn-device",
            "--iso",
            "/a.iso",
            "--device",
            "/dev/sdb",
            "--device-name",
            "Stick",
            "--device-size",
            "8000",
            "--gpt",
            "--raw"
        ]
    );
    assert_eq!(sudo_args("/a.iso", &drive(), PartitionScheme::Mbr, false).len(), 9);
    assert_eq!(scheme_for(true), PartitionScheme::Gpt);
    assert_eq!(scheme_for(false), PartitionScheme::Mbr);
    assert!(sudo_notice("/dev/sdb")
        .starts_with("\nCreating a bootable drive requires direct access to /dev/sdb which"));
    assert!(drive().partitions.is_empty());
}

#[test]
fn what_comes_of_the_other_process() {
    assert!(sudo_result(true, Some(0), false).is_ok());
    assert_eq!(
        sudo_result(false, Some(1), false).err().unwrap().message(),
        "Authentication failed or was cancelled. Run again to retry."
    );
    assert_eq!(
        sudo_result(false, Some(1), true).err().unwrap().message(),
        "Burn failed (exit code 1). Check the output above for details."
    );
    assert_eq!(
        sudo_result(false, None, false).err().unwrap().message(),
        "Burn failed (exit code -1). Check the output above for details."
    );
}

#[test]
fn consent() {
    assert_eq!(device_short("/dev/disk2"), "disk2");
    assert_eq!(device_short("sdb"), "sdb");
    assert!(confirm_burn(&drive(), " sdb\n"));
    assert!(!confirm_burn(&drive(), "sda\n"));
    assert!(!confirm_burn(&drive(), "yes"));
    assert!(!confirm_burn(&drive(), ""));
    let w = burn_warning("/a.iso", &drive(), "8.0 KB");
    assert_eq!(w.len(), 11);
    assert_eq!(w[6], "  ISO:    /a.iso");
    assert_eq!(w[7], "  Drive:  Stick (8.0 KB)");
    assert_eq!(w[10], "  Type 'sdb' to confirm, or anything else to cancel:");
}

#[test]
fn steps_to_a_bootable_drive() {
    let plan = |entries: &Vec<IsoEntry>| {
        create_bootable_usb(entries, 5_000_000_000, "", "").unwrap()
    };
    let short = plan(&vec![entry("sources/install.wim", 4_294_967_295)]);
    assert_eq!(
        short,
        vec![
            BurnStep::Unmount,
            BurnStep::Partition,
            BurnStep::Format,
            BurnStep::Pause,
            BurnStep::Unmount,
            BurnStep::Copy,
            BurnStep::Eject
        ]
    );
    let long = plan(&vec![entry("a", 7), entry("sources/INSTALL.WIM", 4_294_967_296)]);
    assert_eq!(long.len(), 10);
    assert_eq!(long[8], BurnStep::Split);
    // Each step that writes comes behind an unmount without a pause between them.
    for plan in [short, long, write_raw_iso()] {
        let mut unmounted = false;
        for step in plan {
            match step {
                BurnStep::Unmount => unmounted = true,
                BurnStep::Pause => unmounted = false,
                BurnStep::Eject => {}
                _ => assert!(unmounted),
            }
        }
    }
}

#[test]
fn what_is_told() {
    let mbr = PartitionScheme::Mbr;
    let gpt = PartitionScheme::Gpt;
    assert_eq!(step_notice(BurnStep::Unmount, 0, mbr), Some("Unmounting drive..."));
    assert_eq!(step_notice(BurnStep::Unmount, 4, mbr), None);
    assert_eq!(step_notice(BurnStep::Partition, 1, mbr), Some("Creating MBR partition table..."));
    assert_eq!(step_notice(BurnStep::Partition, 1, gpt), Some("Creating GPT partition table..."));
    assert_eq!(step_notice(BurnStep::Format, 2, gpt), Some("Formatting FAT32..."));
    assert_eq!(step_notice(BurnStep::Pause, 3, gpt), None);
    assert_eq!(step_notice(BurnStep::WriteRaw, 1, gpt), Some("Writing ISO to drive..."));
}

#[test]
fn what_goes_onto_the_drive() {
    let entries = vec![entry("a", 5), entry("sources/Install.wim", 4_294_967_296)];
    assert_eq!(total_file_size(&entries), Some(4_294_967_301));
    assert_eq!(wim_to_split(&entries).unwrap(), 1);
    assert_eq!(total_file_size(&vec![entry("a", u64::MAX), entry("b", 1)]), None);
    assert_eq!(
        wim_to_split(&vec![entry("install.wim", 5)]).err().unwrap().message(),
        "install.wim not found for splitting"
    );
    let few = vec![entry("a", 5), entry("b", 6)];
    assert!(create_bootable_usb(&few, 11, "1", "2").is_ok());
    assert_eq!(
        create_bootable_usb(&few, 10, "5.1 GB", "4.0 GB").err().unwrap().message(),
        "ISO contents (5.1 GB) exceed drive capacity (4.0 GB)"
    );
}
