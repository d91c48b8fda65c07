//! Dates, times, attributes and per-entry metadata as FAT32 stores them.

use vstd::prelude::*;

verus! {

/// A date in the packed on-disk form:
/// bits 15..9 the year minus 1980, bits 8..5 the month, bits 4..0 the day.
#[derive(Clone, Copy, Debug, PartialEq, Eq, Structural)]
pub struct Date(pub u16);

/// A time in the packed on-disk form:
/// bits 15..11 the hour, bits 10..5 the minute, bits 4..0 the seconds
/// divided by two.
#[derive(Clone, Copy, Debug, PartialEq, Eq, Structural)]
pub struct Time(pub u16);

/// The attribute bitmask of a directory entry.
#[derive(Clone, Copy, Debug, PartialEq, Eq, Structural)]
pub struct Attributes(pub u8);

/// A date and a time taken together.
#[derive(Clone, Copy, Debug, PartialEq, Eq, Structural)]
pub struct Timestamp {
    pub date: Date,
    pub time: Time,
}

/// The metadata carried by one directory entry.
#[derive(Clone, Copy, Debug, PartialEq, Eq, Structural)]
pub struct Metadata {
    pub attributes: Attributes,
    pub created_time: Timestamp,
    pub accessed_time: Timestamp,
    pub modified_time: Timestamp,
}

impl Date {
    pub fn from(raw: u16) -> (d: Date)
        ensures
            d.0 == raw,
    {
        Date(raw)
    }
}

impl Time {
    pub fn from(raw: u16) -> (t: Time)
        ensures
            t.0 == raw,
    {
        Time(raw)
    }
}

impl Timestamp {
    pub fn from(date: Date, time: Time) -> (ts: Timestamp)
        ensures
            ts.date == date,
            ts.time == time,
    {
        Timestamp { date, time }
    }

    /// The calendar year, not offset: 2009 is 2009.
    pub fn year(&self) -> (r: usize)
        ensures
            r == self.date.0 / 512 + 1980,
    {
        self.date.0 as usize / 512 + 1980
    }

    /// The calendar month, 1 for January through 12 for December.
    pub fn month(&self) -> (r: u8)
        ensures
            r == self.date.0 / 32 % 16,
    {
        (self.date.0 / 32 % 16) as u8
    }

    /// The calendar day, starting at 1.
    pub fn day(&self) -> (r: u8)
        ensures
            r == self.date.0 % 32,
    {
        (self.date.0 % 32) as u8
    }

    /// The 24-hour hour.
    pub fn hour(&self) -> (r: u8)
        ensures
            r == self.time.0 / 2048,
    {
        (self.time.0 / 2048) as u8
    }

    /// The minute.
    pub fn minute(&self) -> (r: u8)
        ensures
            r == self.time.0 / 32 % 64,
    {
        (self.time.0 / 32 % 64) as u8
    }

    /// The second, always even: the disk stores half-seconds.
    pub fn second(&self) -> (r: u8)
        ensures
            r == self.time.0 % 32 * 2,
    {
        (self.time.0 % 32 * 2) as u8
    }
}

impl Attributes {
    pub const READ_ONLY: u8 = 0x01;

    pub const HIDDEN: u8 = 0x02;

    pub const SYSTEM: u8 = 0x04;

    pub const VOLUME_ID: u8 = 0x08;

    pub const DIRECTORY: u8 = 0x10;

    pub const ARCHIVE: u8 = 0x20;

    /// The pseudo-value that marks a long filename record; it equals
    /// `READ_ONLY | HIDDEN | SYSTEM | VOLUME_ID`.
    pub const LFN: u8 = Attributes::READ_ONLY | Attributes::HIDDEN | Attributes::SYSTEM
        | Attributes::VOLUME_ID;

    pub fn from(raw: u8) -> (a: Attributes)
        ensures
            a.0 == raw,
    {
        Attributes(raw)
    }

    pub fn read_only(&self) -> (r: bool)
        ensures
            r == (self.0 & Attributes::READ_ONLY == Attributes::READ_ONLY),
    {
        self.0 & Attributes::READ_ONLY == Attributes::READ_ONLY
    }

    pub fn hidden(&self) -> (r: bool)
        ensures
            r == (self.0 & Attributes::HIDDEN == Attributes::HIDDEN),
    {
        self.0 & Attributes::HIDDEN == Attributes::HIDDEN
    }

    pub fn system(&self) -> (r: bool)
        ensures
            r == (self.0 & Attributes::SYSTEM == Attributes::SYSTEM),
    {
        self.0 & Attributes::SYSTEM == Attributes::SYSTEM
    }

    pub fn volume_id(&self) -> (r: bool)
        ensures
            r == (self.0 & Attributes::VOLUME_ID == Attributes::VOLUME_ID),
    {
        self.0 & Attributes::VOLUME_ID == Attributes::VOLUME_ID
    }

    pub fn directory(&self) -> (r: bool)
        ensures
            r == (self.0 & Attributes::DIRECTORY == Attributes::DIRECTORY),
    {
        self.0 & Attributes::DIRECTORY == Attributes::DIRECTORY
    }

    pub fn archive(&self) -> (r: bool)
        ensures
            r == (self.0 & Attributes::ARCHIVE == Attributes::ARCHIVE),
    {
        self.0 & Attributes::ARCHIVE == Attributes::ARCHIVE
    }

    /// True when the attribute byte equals the long-filename pseudo-value
    /// exactly.  A byte with further bits set (0x1F, 0x2F, ...) is not a
    /// long-filename marker; the directory decoder applies this same
    /// exact test.
    pub fn lfn(&self) -> (r: bool)
        ensures
            r == (self.0 == Attributes::LFN),
    {
        self.0 == Attributes::LFN
    }
}

impl Metadata {
    /// Whether the entry is read only.
    pub fn read_only(&self) -> (r: bool)
        ensures
            r == (self.attributes.0 & Attributes::READ_ONLY == Attributes::READ_ONLY),
    {
        self.attributes.read_only()
    }

    /// Whether the entry is hidden from directory traversals.
    pub fn hidden(&self) -> (r: bool)
        ensures
            r == (self.attributes.0 & Attributes::HIDDEN == Attributes::HIDDEN),
    {
        self.attributes.hidden()
    }

    /// When the entry was created.
    pub fn created(&self) -> (r: Timestamp)
        ensures
            r == self.created_time,
    {
        self.created_time
    }

    /// When the entry was last accessed; the on-disk form keeps only the
    /// date, so the time half is zero.
    pub fn accessed(&self) -> (r: Timestamp)
        ensures
            r == self.accessed_time,
    {
        self.accessed_time
    }

    /// When the entry was last modified.
    pub fn modified(&self) -> (r: Timestamp)
        ensures
            r == self.modified_time,
    {
        self.modified_time
    }
}

/// The metadata of the synthetic root directory: the directory attribute
/// alone, with zeroed timestamps.
pub open spec fn spec_root_metadata() -> Metadata {
    Metadata {
        attributes: Attributes(0x10),
        created_time: Timestamp { date: Date(0), time: Time(0) },
        accessed_time: Timestamp { date: Date(0), time: Time(0) },
        modified_time: Timestamp { date: Date(0), time: Time(0) },
    }
}

/// The root directory's metadata as a runtime value.
pub fn root_metadata() -> (m: Metadata)
    ensures
        m == spec_root_metadata(),
{
    let zero = Timestamp { date: Date(0), time: Time(0) };
    Metadata {
        attributes: Attributes(Attributes::DIRECTORY),
        created_time: zero,
        accessed_time: zero,
        modified_time: zero,
    }
}

} // verus!
