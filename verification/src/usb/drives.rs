//! Listing, unmounting and ejecting drives: what is to be run for it on each system.

use crate::error;
use crate::error::{Error, Result};
use crate::models;
use crate::models::UsbDrive;
use crate::platform::Platform;
use crate::text;
use vstd::prelude::*;

verus! {

/// Where the drives are listed.
#[derive(Debug, Clone, Copy, PartialEq, Eq, Structural)]
pub enum DriveSource {
    /// In the block devices under `/sys/block`.
    SysBlock,
    /// By the `diskutil` program.
    Diskutil,
}

/// A program to run.
#[derive(Debug)]
pub struct DriveCommand {
    pub program: String,
    pub args: Vec<String>,
    /// What is told where it does not succeed; where there is nothing to tell, it makes no
    /// difference.
    pub failure: Option<String>,
}

/// A program to run.
pub struct DriveCommandView {
    pub program: Seq<char>,
    pub args: Seq<Seq<char>>,
    pub failure: Option<Seq<char>>,
}

impl View for DriveCommand {
    type V = DriveCommandView;

    open spec fn view(&self) -> DriveCommandView {
        DriveCommandView {
            program: self.program@,
            args: text::texts(self.args@),
            failure: text::opt_text(self.failure),
        }
    }
}

/// The programs of a list.
pub open spec fn command_views(v: Seq<DriveCommand>) -> Seq<DriveCommandView> {
    v.map_values(|x: DriveCommand| x@)
}

/// The programs that unmount a drive.
pub open spec fn unmount_commands(platform: Platform, d: models::UsbDriveView) -> Option<
    Seq<DriveCommandView>,
> {
    match platform {
        Platform::MacOs => Some(
            seq![
                DriveCommandView {
                    program: "diskutil"@,
                    args: seq!["unmountDisk"@, d.device],
                    failure: Some("Failed to unmount "@ + d.device),
                },
            ],
        ),
        Platform::Linux => Some(
            d.partitions.map_values(
                |p: Seq<char>|
                    DriveCommandView { program: "umount"@, args: seq![p], failure: None },
            ),
        ),
        Platform::Other => None,
    }
}

/// The program that ejects a drive.
pub open spec fn eject_command(platform: Platform, d: models::UsbDriveView) -> Option<
    DriveCommandView,
> {
    match platform {
        Platform::MacOs => Some(
            DriveCommandView {
                program: "diskutil"@,
                args: seq!["eject"@, d.device],
                failure: Some("Failed to eject "@ + d.device),
            },
        ),
        Platform::Linux => Some(
            DriveCommandView {
                program: "eject"@,
                args: seq![d.device],
                failure: Some("Failed to eject "@ + d.device),
            },
        ),
        Platform::Other => None,
    }
}

/// Where the drives are listed on a system.
pub fn list_usb_drives(platform: Platform) -> (r: Result<DriveSource>)
    ensures
        match platform {
            Platform::MacOs => r == Ok::<DriveSource, Error>(DriveSource::Diskutil),
            Platform::Linux => r == Ok::<DriveSource, Error>(DriveSource::SysBlock),
            Platform::Other => r is Err && r->Err_0@ == error::ErrorView::Other(
                "USB drive detection is not supported on this platform"@,
            ),
        },
{
    match platform {
        Platform::MacOs => Ok(DriveSource::Diskutil),
        Platform::Linux => Ok(DriveSource::SysBlock),
        Platform::Other => Err(
            error::other("USB drive detection is not supported on this platform"),
        ),
    }
}

/// The programs that unmount a drive, in order.
pub fn unmount_drive(platform: Platform, drive: &UsbDrive) -> (r: Result<Vec<DriveCommand>>)
    ensures
        match unmount_commands(platform, drive@) {
            Some(c) => r is Ok && command_views(r->Ok_0@) == c,
            None => r is Err && r->Err_0@ == error::ErrorView::Other("Not supported"@),
        },
{
    let mut r: Vec<DriveCommand> = Vec::new();
    match platform {
        Platform::MacOs => {
            let mut args: Vec<String> = Vec::new();
            args.push("unmountDisk".to_owned());
            args.push(drive.device.clone());
            assert(text::texts(args@) =~= seq!["unmountDisk"@, drive@.device]);
            r.push(
                DriveCommand {
                    program: "diskutil".to_owned(),
                    args,
                    failure: Some(text::concat("Failed to unmount ", drive.device.as_str())),
                },
            );
            assert(command_views(r@) =~= unmount_commands(platform, drive@)->0);
            Ok(r)
        },
        Platform::Linux => {
            let n: usize = drive.partitions.len();
            let ghost goal = unmount_commands(platform, drive@)->0;
            let mut i: usize = 0;
            while i < n
                invariant
                    i <= n,
                    n == drive.partitions@.len(),
                    goal.len() == n,
                    platform == Platform::Linux,
                    goal == unmount_commands(platform, drive@)->0,
                    r@.len() == i,
                    forall|k: int| 0 <= k < i ==> (#[trigger] r@[k])@ == goal[k],
                decreases n - i,
            {
                let mut args: Vec<String> = Vec::new();
                args.push(drive.partitions[i].clone());
                assert(drive@.partitions[i as int] == drive.partitions@[i as int]@);
                assert(text::texts(args@) =~= seq![drive@.partitions[i as int]]);
                r.push(DriveCommand { program: "umount".to_owned(), args, failure: None });
                i += 1;
            }
            assert(command_views(r@) =~= goal);
            Ok(r)
        },
        Platform::Other => Err(error::other("Not supported")),
    }
}

/// The program that ejects a drive.
pub fn eject_drive(platform: Platform, drive: &UsbDrive) -> (r: Result<DriveCommand>)
    ensures
        match eject_command(platform, drive@) {
            Some(c) => r is Ok && r->Ok_0@ == c,
            None => r is Err && r->Err_0@ == error::ErrorView::Other("Not supported"@),
        },
{
    let mut args: Vec<String> = Vec::new();
    match platform {
        Platform::MacOs => {
            args.push("eject".to_owned());
            args.push(drive.device.clone());
            assert(text::texts(args@) =~= seq!["eject"@, drive@.device]);
            Ok(
                DriveCommand {
                    program: "diskutil".to_owned(),
                    args,
                    failure: Some(text::concat("Failed to eject ", drive.device.as_str())),
                },
            )
        },
        Platform::Linux => {
            args.push(drive.device.clone());
            assert(text::texts(args@) =~= seq![drive@.device]);
            Ok(
                DriveCommand {
                    program: "eject".to_owned(),
                    args,
                    failure: Some(text::concat("Failed to eject ", drive.device.as_str())),
                },
            )
        },
        Platform::Other => Err(error::other("Not supported")),
    }
}

/// What comes of a program that ran, with or without success.
pub fn command_result(c: &DriveCommand, success: bool) -> (r: Result<()>)
    ensures
        match c@.failure {
            Some(m) => if success {
                r is Ok
            } else {
                r is Err && r->Err_0@ == error::ErrorView::Other(m)
            },
            None => r is Ok,
        },
{
    match &c.failure {
        Some(m) => if success {
            Ok(())
        } else {
            Err(Error::Other(m.clone()))
        },
        None => Ok(()),
    }
}

} // verus!
