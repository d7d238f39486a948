//! Build-time configuration: application id and locale directory.
//!
//! Both can be overridden when the application is built; the caller hands in
//! the configured value (if any) and gets the value in effect.
use vstd::prelude::*;

verus! {

pub const BASE_APP_ID: &'static str = "io.github.christiaanbruinsma.ImageBench";

pub const GETTEXT_PACKAGE: &'static str = "image-bench";

pub const DEFAULT_LOCALE_DIR: &'static str = "/usr/share/locale";

/// The application id: the configured one, or the base id.
pub fn app_id(configured: Option<&'static str>) -> (r: &'static str)
    ensures
        r == match configured {
            Some(v) => v,
            None => BASE_APP_ID,
        },
{
    match configured {
        Some(v) => v,
        None => BASE_APP_ID,
    }
}

/// The directory that holds the translation catalogs: the configured one, or
/// the system default.
pub fn locale_dir(configured: Option<&'static str>) -> (r: &'static str)
    ensures
        r == match configured {
            Some(v) => v,
            None => DEFAULT_LOCALE_DIR,
        },
{
    match configured {
        Some(v) => v,
        None => DEFAULT_LOCALE_DIR,
    }
}

} // verus!
