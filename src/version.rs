use vstd::prelude::*;

use crate::error::Error;

verus! {

/// A CRAM file definition version (format number).
#[derive(Clone, Copy, Debug, PartialEq, Eq, Structural)]
pub struct Version {
    pub major: u8,
    pub minor: u8,
}

/// The lexicographic order of `(major, minor)` pairs.
pub open spec fn version_cmp(a: Version, b: Version) -> core::cmp::Ordering {
    if a.major < b.major {
        core::cmp::Ordering::Less
    } else if a.major > b.major {
        core::cmp::Ordering::Greater
    } else if a.minor < b.minor {
        core::cmp::Ordering::Less
    } else if a.minor > b.minor {
        core::cmp::Ordering::Greater
    } else {
        core::cmp::Ordering::Equal
    }
}

/// `a` comes at or after `(major, minor)`.
pub open spec fn at_least(a: Version, major: u8, minor: u8) -> bool {
    a.major > major || (a.major == major && a.minor >= minor)
}

/// The versions this library reads and writes: 2.0, 2.1, 3.0, 3.1 and 4.0.
pub open spec fn is_supported(v: Version) -> bool {
    (v.major == 2 && v.minor <= 1) || (v.major == 3 && v.minor <= 1) || (v.major == 4 && v.minor
        == 0)
}

impl Version {
    /// CRAM 2.0.
    pub fn v2_0() -> (r: Version)
        ensures
            r.major == 2 && r.minor == 0,
    {
        Version { major: 2, minor: 0 }
    }

    /// CRAM 2.1.
    pub fn v2_1() -> (r: Version)
        ensures
            r.major == 2 && r.minor == 1,
    {
        Version { major: 2, minor: 1 }
    }

    /// CRAM 3.0.
    pub fn v3_0() -> (r: Version)
        ensures
            r.major == 3 && r.minor == 0,
    {
        Version { major: 3, minor: 0 }
    }

    /// CRAM 3.1.
    pub fn v3_1() -> (r: Version)
        ensures
            r.major == 3 && r.minor == 1,
    {
        Version { major: 3, minor: 1 }
    }

    /// CRAM 4.0.
    pub fn v4_0() -> (r: Version)
        ensures
            r.major == 4 && r.minor == 0,
    {
        Version { major: 4, minor: 0 }
    }

    /// CRC32 checksums protect headers and blocks from 3.0 on.
    pub open spec fn has_crc32_spec(self) -> bool {
        at_least(self, 3, 0)
    }

    /// uint7/sint7 VLQ integers replace ITF8/LTF8 from 4.0 on.
    pub open spec fn uses_vlq_spec(self) -> bool {
        at_least(self, 4, 0)
    }

    pub fn new(major: u8, minor: u8) -> (r: Version)
        ensures
            r.major == major,
            r.minor == minor,
    {
        Version { major, minor }
    }

    pub fn major(&self) -> (r: u8)
        ensures
            r == self.major,
    {
        self.major
    }

    pub fn minor(&self) -> (r: u8)
        ensures
            r == self.minor,
    {
        self.minor
    }

    pub fn has_crc32(&self) -> (r: bool)
        ensures
            r == self.has_crc32_spec(),
    {
        self.major > 3 || (self.major == 3 && self.minor >= 0)
    }

    pub fn uses_vlq(&self) -> (r: bool)
        ensures
            r == self.uses_vlq_spec(),
    {
        self.major > 4 || (self.major == 4 && self.minor >= 0)
    }

    /// Positions are 64-bit from 4.0 on (the same boundary as VLQ integers).
    pub fn has_64bit_positions(&self) -> (r: bool)
        ensures
            r == self.uses_vlq_spec(),
    {
        self.major > 4 || (self.major == 4 && self.minor >= 0)
    }

    /// Accepts exactly the supported versions; anything else is invalid data.
    pub fn validate(&self) -> (r: Result<(), Error>)
        ensures
            r is Ok <==> is_supported(*self),
            r is Err ==> r == Err::<(), Error>(Error::InvalidData),
    {
        if (self.major == 2 && self.minor <= 1) || (self.major == 3 && self.minor <= 1) || (
        self.major == 4 && self.minor == 0) {
            Ok(())
        } else {
            Err(Error::InvalidData)
        }
    }

    /// The default version written is 3.0.
    pub fn default() -> (r: Version)
        ensures
            r.major == 3 && r.minor == 0,
    {
        Version { major: 3, minor: 0 }
    }
}

impl PartialOrd for Version {
    fn partial_cmp(&self, other: &Version) -> (r: Option<core::cmp::Ordering>)
        ensures
            r == Some(version_cmp(*self, *other)),
    {
        if self.major < other.major {
            Some(core::cmp::Ordering::Less)
        } else if self.major > other.major {
            Some(core::cmp::Ordering::Greater)
        } else if self.minor < other.minor {
            Some(core::cmp::Ordering::Less)
        } else if self.minor > other.minor {
            Some(core::cmp::Ordering::Greater)
        } else {
            Some(core::cmp::Ordering::Equal)
        }
    }
}

impl vstd::std_specs::cmp::PartialOrdSpecImpl for Version {
    open spec fn obeys_partial_cmp_spec() -> bool {
        true
    }

    open spec fn partial_cmp_spec(&self, other: &Version) -> Option<core::cmp::Ordering> {
        Some(version_cmp(*self, *other))
    }
}

} // verus!

verus! {

impl Version {
    pub open spec fn v3_0_spec() -> Version {
        Version { major: 3, minor: 0 }
    }

    pub open spec fn v3_1_spec() -> Version {
        Version { major: 3, minor: 1 }
    }
}

} // verus!
