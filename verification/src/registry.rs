//! The registry location of a package: a fixed sharding rule bounds the
//! registry's directory fan-out, and the resulting URL is lower-cased
//! whatever the requested name's casing.

use vstd::prelude::*;
use vstd::string::{StrSliceExecFns, StringExecFns};

verus! {

/// The registry base all lookups go through.
pub open spec fn base_url() -> Seq<char> {
    "https://lib.rs/registry-proxy/"@
}

/// The registry-relative path of a name (before lower-casing): one-character
/// names under `1/`, two under `2/`, three under `3/<first>/`, longer names
/// under `<first-two>/<next-two>/`.
pub open spec fn sharded_path(name: Seq<char>) -> Seq<char>
    recommends
        name.len() >= 1,
{
    if name.len() == 1 {
        "1/"@ + name
    } else if name.len() == 2 {
        "2/"@ + name
    } else if name.len() == 3 {
        "3/"@ + name.take(1) + "/"@ + name
    } else {
        name.take(2) + "/"@ + name.subrange(2, 4) + "/"@ + name
    }
}

/// What `str::to_lowercase` returns: a function of the characters alone.
pub uninterp spec fn lower_of(s: Seq<char>) -> Seq<char>;

/// Relies on `str::to_lowercase`: the result depends on the characters
/// alone; an empty string stays empty.
#[verifier::external_body]
fn lowercase(s: &str) -> (r: String)
    ensures
        r@ == lower_of(s@),
        s@.len() == 0 ==> r@.len() == 0,
{
    s.to_lowercase()
}

/// The registry URL a package name is fetched from: the base joined with
/// the sharded path, lower-cased.
pub fn crate_url(name: &str) -> (r: String)
    requires
        name@.len() >= 1,
    ensures
        r@ == lower_of(base_url() + sharded_path(name@)),
{
    let mut url = String::new();
    url.append("https://lib.rs/registry-proxy/");
    let n = name.unicode_len();
    if n == 1 {
        url.append("1/");
        url.append(name);
    } else if n == 2 {
        url.append("2/");
        url.append(name);
    } else if n == 3 {
        url.append("3/");
        url.append(name.substring_char(0, 1));
        url.append("/");
        url.append(name);
    } else {
        url.append(name.substring_char(0, 2));
        url.append("/");
        url.append(name.substring_char(2, 4));
        url.append("/");
        url.append(name);
    }
    proof {
        assert(name@.take(1) == name@.subrange(0, 1));
        assert(name@.take(2) == name@.subrange(0, 2));
        assert(url@ =~= base_url() + sharded_path(name@));
    }
    lowercase(url.as_str())
}

} // verus!
