//! The order of Factorio versions, and which versions a settings file may
//! carry.

use crate::endian::u16_at;
use crate::error::LoadError;
use crate::mod_settings::{oldest_readable, parse_settings, version_precedes, Version};
use crate::property_tree::parse_tree;
use vstd::prelude::*;

verus! {

/// The place of a version on one scale: its four parts read as the digits
/// of a number in base 65536, major first.
pub open spec fn version_rank(v: Version) -> int {
    ((v.0 as int * 65536 + v.1 as int) * 65536 + v.2 as int) * 65536 + v.3 as int
}

proof fn lemma_digit_order(p: int, q: int, p2: int, q2: int)
    requires
        0 <= q < 65536,
        0 <= q2 < 65536,
    ensures
        p * 65536 + q < p2 * 65536 + q2 <==> (p < p2 || (p == p2 && q < q2)),
        p * 65536 + q == p2 * 65536 + q2 <==> (p == p2 && q == q2),
{
    if p < p2 {
        assert(p * 65536 + 65536 <= p2 * 65536) by (nonlinear_arith)
            requires
                p < p2,
        ;
    } else if p > p2 {
        assert(p2 * 65536 + 65536 <= p * 65536) by (nonlinear_arith)
            requires
                p2 < p,
        ;
    }
}

/// One version comes before another exactly when it lies lower on the scale
/// of `version_rank`: versions are ordered as the tuples (major, minor,
/// patch, build), each part compared as a number.
pub proof fn law_precedes_is_rank_order(a: Version, b: Version)
    ensures
        version_precedes(a, b) <==> version_rank(a) < version_rank(b),
        version_rank(a) == version_rank(b) <==> a == b,
{
    lemma_digit_order(a.0 as int, a.1 as int, b.0 as int, b.1 as int);
    let a1 = a.0 as int * 65536 + a.1 as int;
    let b1 = b.0 as int * 65536 + b.1 as int;
    lemma_digit_order(a1, a.2 as int, b1, b.2 as int);
    let a2 = a1 * 65536 + a.2 as int;
    let b2 = b1 * 65536 + b.2 as int;
    lemma_digit_order(a2, a.3 as int, b2, b.3 as int);
}

/// A later part decides only where the earlier ones are equal: with equal
/// major and minor parts, a lower patch comes first, whatever the builds.
pub proof fn law_patch_decides(a: Version, b: Version)
    requires
        a.0 == b.0,
        a.1 == b.1,
        a.2 < b.2,
    ensures
        version_precedes(a, b),
        !version_precedes(b, a),
{
}

/// The versions that come before 0.18.0.0 are exactly those with major part
/// 0 and minor part below 18.
pub proof fn law_too_low_versions(v: Version)
    ensures
        version_precedes(v, oldest_readable()) <==> (v.0 == 0 && v.1 < 18),
{
}

/// A file whose tree reads is refused for its version exactly when the
/// version stored in its first two little-endian `u16` is 0.x with x below
/// 18; whatever its patch and build, every later file is read.
pub proof fn law_version_gate(s: Seq<u8>)
    requires
        s.len() >= 9,
        parse_tree(s.skip(9)) is Ok,
    ensures
        parse_settings(s) is Ok <==> !(u16_at(s, 0) == 0 && u16_at(s, 2) < 18),
        parse_settings(s) is Err ==> parse_settings(s)->Err_0 == LoadError::VersionTooLow(
            Version(u16_at(s, 0), u16_at(s, 2), u16_at(s, 4), u16_at(s, 6)),
        ),
{
}

} // verus!
