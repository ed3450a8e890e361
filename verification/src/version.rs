//! Format versions that this library reads and writes.
use vstd::prelude::*;
use crate::text::{chars_eq, chars_of, trim, trimmed};

verus! {

pub const RBMEM_FORMAT_VERSION: &'static str = "1.4.0";

pub const RBMEM_LEGACY_FORMAT_VERSION: &'static str = "1.3";

pub const RBMEM_FORMAT_LABEL: &'static str = "RBMEM v1.4.0";

/// A version text names a format this library reads: 1.4.0, 1.4, 1.3 or 1.3.0,
/// with surrounding white space ignored.
pub open spec fn supported_version(v: Seq<char>) -> bool {
    let t = trim(v);
    t == "1.4.0"@ || t == "1.4"@ || t == "1.3"@ || t == "1.3.0"@
}

pub fn is_supported_format_version(version: &str) -> (r: bool)
    ensures
        r == supported_version(version@),
{
    let v = chars_of(version);
    let t = trimmed(&v);
    chars_eq(&t, &chars_of("1.4.0")) || chars_eq(&t, &chars_of("1.4")) || chars_eq(
        &t,
        &chars_of("1.3"),
    ) || chars_eq(&t, &chars_of("1.3.0"))
}

} // verus!
