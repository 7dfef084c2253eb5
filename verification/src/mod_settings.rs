//! The whole settings file: the version of Factorio that wrote it, the
//! quality flag and the tree of settings.

use crate::endian::{read_u16_at, u16_at, u16_le, u16_le_bytes};
use crate::error::{DocumentError, LoadError};
use crate::immutable_string::append_bytes;
use crate::property_tree::{flag, flag_byte, parse_tree, serialize_tree, PropertyTree, SpecPropertyTree};
use vstd::prelude::*;
use vstd::slice::slice_subrange;
use vstd::string::StringExecFns;

verus! {

/// The version of Factorio that wrote a settings file: major, minor, patch,
/// build.
#[derive(Debug, Clone, Copy, PartialEq, Eq, Structural)]
pub struct Version(pub u16, pub u16, pub u16, pub u16);

/// `a` comes before `b`, comparing major, then minor, then patch, then build.
pub open spec fn version_precedes(a: Version, b: Version) -> bool {
    ||| a.0 < b.0
    ||| a.0 == b.0 && a.1 < b.1
    ||| a.0 == b.0 && a.1 == b.1 && a.2 < b.2
    ||| a.0 == b.0 && a.1 == b.1 && a.2 == b.2 && a.3 < b.3
}

/// The oldest version whose settings layout can be read: 0.18.0.0.
pub open spec fn oldest_readable() -> Version {
    Version(0, 18, 0, 0)
}

impl Version {
    /// Whether this version comes before `other`, comparing major, then
    /// minor, then patch, then build.
    pub fn precedes(&self, other: &Version) -> (r: bool)
        ensures
            r == version_precedes(*self, *other),
    {
        if self.0 != other.0 {
            self.0 < other.0
        } else if self.1 != other.1 {
            self.1 < other.1
        } else if self.2 != other.2 {
            self.2 < other.2
        } else {
            self.3 < other.3
        }
    }
}

/// The name that a settings document gives its type.
pub open spec fn settings_object_type() -> Seq<char> {
    "ModSettings"@
}

/// A settings file: the version of Factorio that wrote it, whether it has
/// the quality flag set, and the tree of settings. `object_type` is what the
/// JSON and YAML forms write as `!type`; a file read from bytes has
/// `ModSettings` there, and it is not written to bytes.
#[derive(Debug, PartialEq)]
pub struct ModSettings {
    pub object_type: String,
    pub version: Version,
    pub has_quality: bool,
    pub data: PropertyTree,
}

/// The mathematical value of a settings file.
pub struct SpecModSettings {
    pub object_type: Seq<char>,
    pub version: Version,
    pub has_quality: bool,
    pub data: SpecPropertyTree,
}

impl View for ModSettings {
    type V = SpecModSettings;

    open spec fn view(&self) -> SpecModSettings {
        SpecModSettings {
            object_type: self.object_type@,
            version: self.version,
            has_quality: self.has_quality,
            data: self.data@,
        }
    }
}

/// Reads a settings file from the start of `s`: four little-endian `u16`
/// (the version), a flag byte (the quality flag) and a property tree. A file
/// that reads but was written before 0.18 is refused. Returns the settings
/// and the number of bytes they took; what follows is not read.
pub open spec fn parse_settings(s: Seq<u8>) -> Result<(SpecModSettings, nat), LoadError> {
    if s.len() < 9 {
        Err(LoadError::UnexpectedEof)
    } else {
        let version = Version(u16_at(s, 0), u16_at(s, 2), u16_at(s, 4), u16_at(s, 6));
        match parse_tree(s.skip(9)) {
            Err(e) => Err(e),
            Ok((data, k)) => if version_precedes(version, oldest_readable()) {
                Err(LoadError::VersionTooLow(version))
            } else {
                Ok(
                    (
                        SpecModSettings {
                            object_type: settings_object_type(),
                            version,
                            has_quality: flag(s[8]),
                            data,
                        },
                        9 + k,
                    ),
                )
            },
        }
    }
}

/// The bytes written for settings: the four parts of the version as
/// little-endian `u16`, the quality flag and the tree.
pub open spec fn serialize_settings(m: SpecModSettings) -> Seq<u8> {
    u16_le(m.version.0) + u16_le(m.version.1) + u16_le(m.version.2) + u16_le(m.version.3)
        + seq![flag_byte(m.has_quality)] + serialize_tree(m.data)
}

/// What a settings document's fields become: settings with those fields
/// where its type name is `ModSettings`, else the refusal naming it.
pub open spec fn spec_from_document(
    object_type: Seq<char>,
    version: Version,
    has_quality: bool,
    data: SpecPropertyTree,
) -> Result<SpecModSettings, Seq<char>> {
    if object_type == settings_object_type() {
        Ok(SpecModSettings { object_type, version, has_quality, data })
    } else {
        Err(object_type)
    }
}

/// Settings read from a file carry the type name `ModSettings`, so their
/// document form passes the type check and gives back the same settings.
pub proof fn law_loaded_settings_accepted(s: Seq<u8>)
    ensures
        parse_settings(s) matches Ok((m, _)) ==> spec_from_document(
            m.object_type,
            m.version,
            m.has_quality,
            m.data,
        ) == Ok::<SpecModSettings, Seq<char>>(m),
{
}

impl ModSettings {
    /// Reads a settings file from the start of `input`. Bytes after the tree
    /// are not read.
    pub fn load(input: &[u8]) -> (r: Result<ModSettings, LoadError>)
        ensures
            (match parse_settings(input@) {
                Ok((m, _)) => r matches Ok(x) && x@ == m,
                Err(e) => r matches Err(x) && x == e,
            }),
    {
        if input.len() < 9 {
            return Err(LoadError::UnexpectedEof);
        }
        let v0 = read_u16_at(input, 0);
        let v1 = read_u16_at(input, 2);
        let v2 = read_u16_at(input, 4);
        let v3 = read_u16_at(input, 6);
        let version = Version(v0, v1, v2, v3);
        let has_quality = input[8] != 0;
        let rest = slice_subrange(input, 9, input.len());
        assert(rest@ =~= input@.skip(9));
        let data = match PropertyTree::load(rest) {
            Ok((t, _)) => t,
            Err(e) => {
                return Err(e);
            },
        };
        if version.precedes(&Version(0, 18, 0, 0)) {
            return Err(LoadError::VersionTooLow(version));
        }
        let object_type = String::from_str("ModSettings");
        Ok(ModSettings { object_type, version, has_quality, data })
    }

    /// Appends the settings in the file format to `out`.
    pub fn save(&self, out: &mut Vec<u8>)
        ensures
            final(out)@ == old(out)@ + serialize_settings(self@),
    {
        let b0 = u16_le_bytes(self.version.0);
        append_bytes(out, b0.as_slice());
        let b1 = u16_le_bytes(self.version.1);
        append_bytes(out, b1.as_slice());
        let b2 = u16_le_bytes(self.version.2);
        append_bytes(out, b2.as_slice());
        let b3 = u16_le_bytes(self.version.3);
        append_bytes(out, b3.as_slice());
        out.push(if self.has_quality { 1 } else { 0 });
        self.data.save(out);
        assert(out@ =~= old(out)@ + serialize_settings(self@));
    }

    /// Settings from the fields of a settings document (its JSON or YAML
    /// form); refused, with the type name, unless the type name is
    /// `ModSettings`.
    pub fn from_document(
        object_type: String,
        version: Version,
        has_quality: bool,
        data: PropertyTree,
    ) -> (r: Result<ModSettings, DocumentError>)
        ensures
            (match spec_from_document(object_type@, version, has_quality, data@) {
                Ok(m) => r matches Ok(x) && x@ == m,
                Err(name) => r matches Err(DocumentError::UnknownObjectType(n)) && n@ == name,
            }),
    {
        let expected = String::from_str("ModSettings");
        if object_type == expected {
            Ok(ModSettings { object_type, version, has_quality, data })
        } else {
            Err(DocumentError::UnknownObjectType(object_type))
        }
    }
}

} // verus!
