//! Which file system an image holds, and where its root directory lies.

use crate::bytes;
use crate::error;
use crate::error::{Error, Result};
use crate::source;
use vstd::prelude::*;

verus! {

/// The size of a sector.
pub const SECTOR_SIZE: u64 = 2048;

/// The sector with the anchor of a UDF file system.
pub const ANCHOR_SECTOR: u64 = 256;

/// The file system of an image.
#[derive(Debug, Clone, Copy, PartialEq, Eq, Structural)]
pub enum IsoFormat {
    /// ISO 9660, with Joliet names or without.
    Iso9660 { root_extent_lba: u32, root_extent_len: u32, joliet: bool },
    /// UDF.
    Udf { partition_start: u32, root_icb_lba: u32 },
}

/// The bytes of a sector.
pub open spec fn sector_at(img: Seq<u8>, lba: int) -> Option<Seq<u8>> {
    source::bytes_at(img, lba * SECTOR_SIZE, SECTOR_SIZE as int)
}

// ---------------------------------------------------------------------------
// UDF
// ---------------------------------------------------------------------------
/// What the volume descriptors from the `i`-th of `n` on say, where `found` is what those before
/// it said: the start of the partition and the place of the file set. A terminating descriptor
/// ends them.
pub open spec fn volume_says(
    img: Seq<u8>,
    loc: int,
    n: int,
    i: int,
    found: (u32, u32),
) -> Option<(u32, u32)>
    decreases n - i,
{
    if i >= n {
        Some(found)
    } else {
        match sector_at(img, loc + i) {
            None => None,
            Some(buf) => if bytes::u16_at(buf, 0) == 5 {
                volume_says(img, loc, n, i + 1, (bytes::u32_at(buf, 188), found.1))
            } else if bytes::u16_at(buf, 0) == 6 {
                volume_says(img, loc, n, i + 1, (found.0, bytes::u32_at(buf, 252)))
            } else if bytes::u16_at(buf, 0) == 8 {
                Some(found)
            } else {
                volume_says(img, loc, n, i + 1, found)
            },
        }
    }
}

/// The UDF file system whose partition and file set are at these places.
pub open spec fn file_set_says(
    img: Seq<u8>,
    found: (u32, u32),
) -> std::result::Result<Option<IsoFormat>, error::ErrorView> {
    if found.0 == 0 {
        Ok(None)
    } else {
        match sector_at(img, found.0 + found.1) {
            None => Err(source::cut_short()),
            Some(buf) => if bytes::u16_at(buf, 0) != 256 {
                Ok(None)
            } else {
                Ok(
                    Some(
                        IsoFormat::Udf {
                            partition_start: found.0,
                            root_icb_lba: bytes::u32_at(buf, 404),
                        },
                    ),
                )
            },
        }
    }
}

/// The UDF file system of an image, where it has one.
pub open spec fn udf_format(img: Seq<u8>) -> std::result::Result<
    Option<IsoFormat>,
    error::ErrorView,
> {
    if img.len() < (ANCHOR_SECTOR + 1) * SECTOR_SIZE {
        Ok(None)
    } else {
        let anchor = sector_at(img, ANCHOR_SECTOR as int)->0;
        if bytes::u16_at(anchor, 0) != 2 {
            Ok(None)
        } else {
            match volume_says(
                img,
                bytes::u32_at(anchor, 20) as int,
                bytes::u32_at(anchor, 16) as int / 2048,
                0,
                (0, 0),
            ) {
                None => Err(source::cut_short()),
                Some(found) => file_set_says(img, found),
            }
        }
    }
}

// ---------------------------------------------------------------------------
// ISO 9660
// ---------------------------------------------------------------------------
/// The sector is a volume descriptor.
pub open spec fn is_descriptor(buf: Seq<u8>) -> bool {
    buf.subrange(1, 6) == seq![0x43u8, 0x44, 0x30, 0x30, 0x31]
}

/// The escape sequence in a supplementary descriptor is one of Joliet.
pub open spec fn is_joliet(buf: Seq<u8>) -> bool {
    buf[88] == 0x25 && buf[89] == 0x2f && (buf[90] == 0x40 || buf[90] == 0x43 || buf[90] == 0x45)
}

/// What is known of the root directory: its place, its length, and whether names are Joliet.
pub open spec fn with_root(buf: Seq<u8>, joliet: bool) -> (u32, u32, bool) {
    (bytes::u32_at(buf, 158), bytes::u32_at(buf, 166), joliet)
}

/// The last sector that is looked at for a volume descriptor.
pub const LAST_DESCRIPTOR_SECTOR: u64 = 116;

/// What the volume descriptors from `sector` on say of the root directory, where `found` is
/// what those before it said.
pub open spec fn descriptors_say(
    img: Seq<u8>,
    sector: int,
    found: (u32, u32, bool),
) -> Option<(u32, u32, bool)>
    decreases LAST_DESCRIPTOR_SECTOR + 1 - sector,
{
    if sector > LAST_DESCRIPTOR_SECTOR {
        Some(found)
    } else {
        match sector_at(img, sector) {
            None => None,
            Some(buf) => if !is_descriptor(buf) || buf[0] == 255 {
                Some(found)
            } else if buf[0] == 1 {
                descriptors_say(img, sector + 1, with_root(buf, found.2))
            } else if buf[0] == 2 && is_joliet(buf) {
                descriptors_say(img, sector + 1, with_root(buf, true))
            } else {
                descriptors_say(img, sector + 1, found)
            },
        }
    }
}

/// The file system with this root directory.
pub open spec fn root_says(found: (u32, u32, bool)) -> std::result::Result<
    IsoFormat,
    error::ErrorView,
> {
    if found.0 == 0 {
        Err(error::ErrorView::Other("No volume descriptor found in ISO"@))
    } else {
        Ok(
            IsoFormat::Iso9660 {
                root_extent_lba: found.0,
                root_extent_len: found.1,
                joliet: found.2,
            },
        )
    }
}

/// The ISO 9660 file system of an image.
pub open spec fn iso9660_format(img: Seq<u8>) -> std::result::Result<
    IsoFormat,
    error::ErrorView,
> {
    match descriptors_say(img, 16, (0, 0, false)) {
        None => Err(source::cut_short()),
        Some(found) => root_says(found),
    }
}

/// The file system of an image: UDF where it has that, else ISO 9660.
pub open spec fn image_format(img: Seq<u8>) -> std::result::Result<IsoFormat, error::ErrorView> {
    match udf_format(img) {
        Err(e) => Err(e),
        Ok(Some(f)) => Ok(f),
        Ok(None) => iso9660_format(img),
    }
}

// ---------------------------------------------------------------------------
// Probing, one sector at a time
// ---------------------------------------------------------------------------
/// How far the search for a file system has come. In each state one sector is wanted.
#[derive(Debug, Clone, Copy)]
pub enum Probe {
    /// The anchor of a UDF file system.
    Anchor,
    /// The `i`-th of `n` volume descriptors from `loc` on.
    Volume { loc: u32, n: u32, i: u32, partition_start: u32, fsd_lba: u32 },
    /// The file set descriptor.
    FileSet { partition_start: u32, fsd_lba: u32 },
    /// An ISO 9660 volume descriptor.
    Descriptor { sector: u64, root_lba: u32, root_len: u32, joliet: bool },
}

/// What comes of a sector.
#[derive(Debug)]
pub enum ProbeOutcome {
    /// The search goes on.
    Continue(Probe),
    /// The file system is known.
    Found(IsoFormat),
    /// There is none.
    Failed(Error),
}

impl Probe {
    /// The state can be reached.
    pub open spec fn wf(self) -> bool {
        match self {
            Probe::Volume { loc, n, i, .. } => i < n,
            Probe::FileSet { partition_start, .. } => partition_start != 0,
            Probe::Descriptor { sector, .. } => 16 <= sector <= LAST_DESCRIPTOR_SECTOR,
            Probe::Anchor => true,
        }
    }

    /// The sector that is wanted.
    pub open spec fn wanted(self) -> int {
        match self {
            Probe::Anchor => ANCHOR_SECTOR as int,
            Probe::Volume { loc, i, .. } => loc + i,
            Probe::FileSet { partition_start, fsd_lba } => partition_start + fsd_lba,
            Probe::Descriptor { sector, .. } => sector as int,
        }
    }

    /// The state in the search for an ISO 9660 file system before anything was read.
    pub open spec fn first_descriptor() -> Probe {
        Probe::Descriptor { sector: 16, root_lba: 0, root_len: 0, joliet: false }
    }

    /// What the search will come to.
    pub open spec fn comes_to(self, img: Seq<u8>) -> std::result::Result<
        IsoFormat,
        error::ErrorView,
    > {
        match self {
            Probe::Anchor => image_format(img),
            Probe::Volume { loc, n, i, partition_start, fsd_lba } => match volume_says(
                img,
                loc as int,
                n as int,
                i as int,
                (partition_start, fsd_lba),
            ) {
                None => Err(source::cut_short()),
                Some(found) => match file_set_says(img, found) {
                    Err(e) => Err(e),
                    Ok(Some(f)) => Ok(f),
                    Ok(None) => iso9660_format(img),
                },
            },
            Probe::FileSet { partition_start, fsd_lba } => match file_set_says(
                img,
                (partition_start, fsd_lba),
            ) {
                Err(e) => Err(e),
                Ok(Some(f)) => Ok(f),
                Ok(None) => iso9660_format(img),
            },
            Probe::Descriptor { sector, root_lba, root_len, joliet } => match descriptors_say(
                img,
                sector as int,
                (root_lba, root_len, joliet),
            ) {
                None => Err(source::cut_short()),
                Some(found) => root_says(found),
            },
        }
    }

    /// How many more sectors can be wanted, at most.
    pub open spec fn left(self) -> int {
        match self {
            Probe::Anchor => 0x2_0000_0000,
            Probe::Volume { n, i, .. } => 200 + (n - i),
            Probe::FileSet { .. } => 200,
            Probe::Descriptor { sector, .. } => LAST_DESCRIPTOR_SECTOR + 1 - sector,
        }
    }

    /// The first state for an image of this size.
    pub fn start(image_size: u64) -> (r: Probe)
        ensures
            r.wf(),
            image_size >= (ANCHOR_SECTOR + 1) * SECTOR_SIZE ==> r == Probe::Anchor,
            image_size < (ANCHOR_SECTOR + 1) * SECTOR_SIZE ==> r == Probe::first_descriptor(),
            forall|img: Seq<u8>|
                img.len() == image_size ==> #[trigger] r.comes_to(img) == image_format(img),
    {
        if image_size < (ANCHOR_SECTOR + 1) * SECTOR_SIZE {
            Probe::Descriptor { sector: 16, root_lba: 0, root_len: 0, joliet: false }
        } else {
            Probe::Anchor
        }
    }

    /// The sector that is wanted.
    pub fn sector(&self) -> (r: u64)
        ensures
            r == self.wanted(),
            r < 0x2_0000_0000 || self is Descriptor,
    {
        match self {
            Probe::Anchor => ANCHOR_SECTOR,
            Probe::Volume { loc, i, .. } => *loc as u64 + *i as u64,
            Probe::FileSet { partition_start, fsd_lba } => *partition_start as u64
                + *fsd_lba as u64,
            Probe::Descriptor { sector, .. } => *sector,
        }
    }

    /// Goes on with the sector that was wanted.
    pub fn advance(&self, buf: &[u8]) -> (r: ProbeOutcome)
        requires
            self.wf(),
            buf@.len() == SECTOR_SIZE,
        ensures
            match r {
                ProbeOutcome::Continue(p) => p.wf() && p.left() < self.left(),
                _ => true,
            },
            forall|img: Seq<u8>|
                img.len() >= 257 * 2048 || self is Descriptor ==> #[trigger] sector_at(
                    img,
                    self.wanted(),
                ) == Some(buf@) ==> match r {
                    ProbeOutcome::Continue(p) => p.comes_to(img) == self.comes_to(img),
                    ProbeOutcome::Found(f) => self.comes_to(img) == Ok::<_, error::ErrorView>(f),
                    ProbeOutcome::Failed(e) => self.comes_to(img) == Err::<IsoFormat, _>(e@),
                },
    {
        proof {
            reveal_with_fuel(volume_says, 2);
            reveal_with_fuel(descriptors_say, 2);
        }
        match *self {
            Probe::Anchor => {
                if bytes::get_u16(buf, 0) != 2 {
                    return ProbeOutcome::Continue(Probe::iso9660());
                }
                let n: u32 = bytes::get_u32(buf, 16) / 2048;
                let loc: u32 = bytes::get_u32(buf, 20);
                Probe::next_volume(loc, n, 0, 0, 0)
            },
            Probe::Volume { loc, n, i, partition_start, fsd_lba } => {
                let tag: u16 = bytes::get_u16(buf, 0);
                if tag == 5 {
                    Probe::next_volume(loc, n, i + 1, bytes::get_u32(buf, 188), fsd_lba)
                } else if tag == 6 {
                    Probe::next_volume(loc, n, i + 1, partition_start, bytes::get_u32(buf, 252))
                } else if tag == 8 {
                    Probe::next_volume(loc, n, n, partition_start, fsd_lba)
                } else {
                    Probe::next_volume(loc, n, i + 1, partition_start, fsd_lba)
                }
            },
            Probe::FileSet { partition_start, .. } => {
                if bytes::get_u16(buf, 0) != 256 {
                    ProbeOutcome::Continue(Probe::iso9660())
                } else {
                    ProbeOutcome::Found(
                        IsoFormat::Udf { partition_start, root_icb_lba: bytes::get_u32(buf, 404) },
                    )
                }
            },
            Probe::Descriptor { sector, root_lba, root_len, joliet } => {
                let magic: bool = buf[1] == 0x43 && buf[2] == 0x44 && buf[3] == 0x30 && buf[4]
                    == 0x30 && buf[5] == 0x31;
                proof {
                    let tag = seq![0x43u8, 0x44, 0x30, 0x30, 0x31];
                    let got = buf@.subrange(1, 6);
                    assert(got[0] == buf@[1] && got[1] == buf@[2] && got[2] == buf@[3] && got[3]
                        == buf@[4] && got[4] == buf@[5]);
                    if magic {
                        assert(got =~= tag);
                    } else {
                        assert(got != tag) by {
                            assert(tag[0] == 0x43 && tag[1] == 0x44 && tag[2] == 0x30 && tag[3]
                                == 0x30 && tag[4] == 0x31);
                        }
                    }
                }
                if !magic || buf[0] == 255 {
                    return Probe::at_end(root_lba, root_len, joliet);
                }
                let supplementary: bool = buf[0] == 2 && buf[88] == 0x25 && buf[89] == 0x2f && (
                buf[90] == 0x40 || buf[90] == 0x43 || buf[90] == 0x45);
                let (lba, len, names): (u32, u32, bool) = if buf[0] == 1 || supplementary {
                    (bytes::get_u32(buf, 158), bytes::get_u32(buf, 166), joliet || supplementary)
                } else {
                    (root_lba, root_len, joliet)
                };
                if sector + 1 > LAST_DESCRIPTOR_SECTOR {
                    Probe::at_end(lba, len, names)
                } else {
                    ProbeOutcome::Continue(
                        Probe::Descriptor {
                            sector: sector + 1,
                            root_lba: lba,
                            root_len: len,
                            joliet: names,
                        },
                    )
                }
            },
        }
    }

    /// The state in the search for an ISO 9660 file system before anything was read.
    fn iso9660() -> (r: Probe)
        ensures
            r == Probe::first_descriptor(),
    {
        Probe::Descriptor { sector: 16, root_lba: 0, root_len: 0, joliet: false }
    }

    /// What comes after the volume descriptors before the `i`-th.
    fn next_volume(
        loc: u32,
        n: u32,
        i: u32,
        partition_start: u32,
        fsd_lba: u32,
    ) -> (r: ProbeOutcome)
        requires
            i <= n,
        ensures
            r is Continue,
            r->Continue_0.wf(),
            r->Continue_0 == if i < n {
                Probe::Volume { loc, n, i, partition_start, fsd_lba }
            } else if partition_start == 0 {
                Probe::first_descriptor()
            } else {
                Probe::FileSet { partition_start, fsd_lba }
            },
    {
        if i < n {
            ProbeOutcome::Continue(Probe::Volume { loc, n, i, partition_start, fsd_lba })
        } else if partition_start == 0 {
            ProbeOutcome::Continue(Probe::iso9660())
        } else {
            ProbeOutcome::Continue(Probe::FileSet { partition_start, fsd_lba })
        }
    }

    /// The end of the volume descriptors.
    fn at_end(root_lba: u32, root_len: u32, joliet: bool) -> (r: ProbeOutcome)
        ensures
            match r {
                ProbeOutcome::Continue(_) => false,
                ProbeOutcome::Found(f) => root_says((root_lba, root_len, joliet)) == Ok::<
                    _,
                    error::ErrorView,
                >(f),
                ProbeOutcome::Failed(e) => root_says((root_lba, root_len, joliet)) == Err::<
                    IsoFormat,
                    _,
                >(e@),
            },
    {
        if root_lba == 0 {
            ProbeOutcome::Failed(error::other("No volume descriptor found in ISO"))
        } else {
            ProbeOutcome::Found(
                IsoFormat::Iso9660 { root_extent_lba: root_lba, root_extent_len: root_len, joliet },
            )
        }
    }
}

/// A sector that is wanted and cannot be read ends the search with an error.
pub proof fn law_probe_cut_short(p: Probe, img: Seq<u8>)
    requires
        p.wf(),
        sector_at(img, p.wanted()) is None,
        p is Anchor ==> img.len() >= (ANCHOR_SECTOR + 1) * SECTOR_SIZE,
    ensures
        p.comes_to(img) == Err::<IsoFormat, _>(source::cut_short()),
{
}

/// Finds the file system of an image.
pub fn detect(image: &[u8]) -> (r: Result<IsoFormat>)
    ensures
        match r {
            Ok(f) => image_format(image@) == Ok::<_, error::ErrorView>(f),
            Err(e) => image_format(image@) == Err::<IsoFormat, _>(e@),
        },
{
    let mut probe = Probe::start(image.len() as u64);
    let ghost img = image@;
    assert(probe.comes_to(img) == image_format(img));
    loop
        invariant
            img == image@,
            probe.wf(),
            probe.comes_to(img) == image_format(img),
            img.len() >= 257 * 2048 || probe is Descriptor,
        decreases probe.left(),
    {
        let at: u64 = probe.sector();
        match source::read_exact_at(image, at * SECTOR_SIZE, SECTOR_SIZE) {
            Err(e) => {
                proof {
                    law_probe_cut_short(probe, img);
                }
                return Err(e);
            },
            Ok(buf) => {
                assert(sector_at(img, probe.wanted()) == Some(buf@));
                match probe.advance(&buf) {
                    ProbeOutcome::Continue(p) => {
                        probe = p;
                    },
                    ProbeOutcome::Found(f) => {
                        return Ok(f);
                    },
                    ProbeOutcome::Failed(e) => {
                        return Err(e);
                    },
                }
            },
        }
    }
}

} // verus!
