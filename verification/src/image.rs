//! Where an `<img src>` comes from (inline data, a site file, a local path) and
//! decoding its bytes to RGBA pixels.
use base64::Engine;
use vstd::prelude::*;

use crate::page::{decoded_lossy, path_join_spec, pct_decode, percent_decode_lossy, request_path};
use crate::text::{
    chars_of, contains, contains_exec, copy_range, find_char, find_char_from, find_sub, find_sub_exec, has_prefix,
    starts_with, string_of, trim, trimmed,
};
use vstd::string::StringSliceAdditionalSpecFns;

verus! {

/// A decoded image: RGBA bytes, width and height.
pub struct Decoded {
    pub rgba: Vec<u8>,
    pub w: u32,
    pub h: u32,
}

// ----- outside decoders -----

/// What `base64::engine::general_purpose::STANDARD.decode(s)` gives: the bytes, or
/// `None` where `s` is not standard base64.
pub uninterp spec fn base64_decoded(s: Seq<char>) -> Option<Seq<u8>>;

/// Decode standard base64 (`STANDARD.decode`). The contract names the result.
#[verifier::external_body]
pub(crate) fn base64_decode(s: &str) -> (r: Option<Vec<u8>>)
    ensures
        match base64_decoded(s@) {
            Some(b) => r is Some && r->0@ == b,
            None => r is None,
        },
{
    base64::engine::general_purpose::STANDARD.decode(s).ok()
}

/// Percent-decode `s` to bytes (`percent_encoding::percent_decode_str(s)` collected):
/// `%` with two hex digits gives that byte, all else is kept.
#[verifier::external_body]
fn percent_decode_bytes(s: &str) -> (r: Vec<u8>)
    ensures
        r@ == pct_decode(s.spec_bytes()),
{
    percent_encoding::percent_decode_str(s).collect()
}

/// Decode an encoded image (`image::load_from_memory`) and convert it to RGBA
/// (`to_rgba8`, `into_raw`). Which decoder reads the bytes is chosen through the
/// image crate's process-wide format and decoding hooks, so nothing is promised of
/// whether the bytes decode or which pixels come out. What holds of every outcome:
/// an RGBA buffer of `w` by `h` pixels holds at least `4 * w * h` bytes
/// (`ImageBuffer::from_raw` and `ImageBuffer::new` check it). The built-in decoders
/// size it exactly; a decoder added through the hooks may hand over a longer one.
#[verifier::external_body]
fn decode_rgba(bytes: &[u8]) -> (r: Option<(Vec<u8>, u32, u32)>)
    ensures
        r matches Some((p, w, h)) ==> p@.len() >= 4 * w * h,
{
    match image::load_from_memory(bytes) {
        Ok(img) => {
            let rgba = img.to_rgba8();
            let (w, h) = rgba.dimensions();
            Some((rgba.into_raw(), w, h))
        },
        Err(_) => None,
    }
}

/// Decode encoded image bytes to RGBA pixels. Whether they decode is the image
/// crate's to decide; a decoded image holds at least four bytes per pixel.
pub fn decode_image(bytes: &[u8]) -> (r: Option<Decoded>)
    ensures
        r matches Some(d) ==> d.rgba@.len() >= 4 * d.w * d.h,
{
    match decode_rgba(bytes) {
        Some((rgba, w, h)) => Some(Decoded { rgba, w, h }),
        None => None,
    }
}

// ----- data URIs -----

/// A `data:` URI: the media type part before the first comma and the payload after.
pub open spec fn data_uri_parts(src: Seq<char>) -> Option<(Seq<char>, Seq<char>)> {
    if starts_with(src, "data:"@) {
        let rest = src.skip(5);
        match find_char(rest, ',') {
            Some(c) => Some((rest.take(c), rest.skip(c + 1))),
            None => None,
        }
    } else {
        None
    }
}

/// The bytes a `data:` URI holds: its payload base64-decoded (trimmed) when the
/// media type says `;base64`, else percent-decoded; `None` inside when the base64
/// does not decode.
pub open spec fn data_uri_bytes(meta: Seq<char>, payload: Seq<char>) -> Option<Seq<u8>> {
    if contains(meta, ";base64"@) {
        base64_decoded(trim(payload))
    } else {
        Some(pct_decode(vstd::utf8::encode_utf8(payload)))
    }
}

/// The bytes of the `data:` URI `src`: `None` when `src` is not one (or has no
/// comma), `Some(None)` when its base64 payload does not decode.
pub fn data_uri(src: &str) -> (r: Option<Option<Vec<u8>>>)
    ensures
        match data_uri_parts(src@) {
            None => r is None,
            Some((meta, payload)) => r matches Some(b) && match data_uri_bytes(meta, payload) {
                Some(x) => b is Some && b->0@ == x,
                None => b is None,
            },
        },
{
    let c = chars_of(src);
    let pre = chars_of("data:");
    proof {
        reveal_strlit("data:");
    }
    if !has_prefix(c.as_slice(), pre.as_slice()) {
        return None;
    }
    let rest = copy_range(c.as_slice(), 5, c.len());
    assert(rest@ =~= src@.skip(5));
    let k = find_char_from(rest.as_slice(), 0, ',');
    assert(rest@.skip(0) =~= rest@);
    proof {
        crate::text::lemma_find_char_props(rest@, ',');
    }
    if k >= rest.len() {
        return None;
    }
    let meta = copy_range(rest.as_slice(), 0, k);
    let payload = copy_range(rest.as_slice(), k + 1, rest.len());
    assert(meta@ =~= rest@.take(k as int));
    assert(payload@ =~= rest@.skip(k + 1));
    let marker = chars_of(";base64");
    if contains_exec(meta.as_slice(), marker.as_slice()) {
        let t = trimmed(payload.as_slice());
        let ts = string_of(t.as_slice());
        Some(base64_decode(ts.as_str()))
    } else {
        let ps = string_of(payload.as_slice());
        Some(Some(percent_decode_bytes(ps.as_str())))
    }
}

// ----- host-relative images -----

/// Where host-relative image URLs are looked for: the host, the site's public
/// directory and the bench's sites directory.
#[derive(Debug)]
pub struct Resolver {
    pub host_url: String,
    pub site_public_path: Option<String>,
    pub bench_sites_path: Option<String>,
}

impl Resolver {
    pub fn new(host_url: String, site_public_path: Option<String>, bench_sites_path: Option<String>) -> (r: Resolver)
        ensures
            r.host_url == host_url,
            r.site_public_path == site_public_path,
            r.bench_sites_path == bench_sites_path,
    {
        Resolver { host_url, site_public_path, bench_sites_path }
    }
}

/// The URL relative to the host: without the host prefix, else without a leading
/// `/`; `None` for other URLs.
pub open spec fn host_relative(src: Seq<char>, host: Seq<char>) -> Option<Seq<char>> {
    if starts_with(src, host) {
        Some(src.skip(host.len() as int))
    } else if starts_with(src, "/"@) {
        Some(src.skip(1))
    } else {
        None
    }
}

/// The file a host-relative image URL names: `assets/...` under `<sites>/assets`,
/// anything else under the public directory (joined as paths, not resolved); `None`
/// when the URL is not host-relative or the directory is not configured.
pub open spec fn resolve_url_spec(src: Seq<char>, host: Seq<char>, public: Option<Seq<char>>, sites: Option<Seq<char>>) -> Option<Seq<char>> {
    match host_relative(src, host) {
        None => None,
        Some(rel) => {
            let clean = decoded_lossy(request_path(rel));
            if starts_with(clean, "assets/"@) {
                match sites {
                    Some(s) => Some(path_join_spec(path_join_spec(s, "assets"@), clean.skip(7))),
                    None => None,
                }
            } else {
                match public {
                    Some(p) => Some(path_join_spec(p, clean)),
                    None => None,
                }
            }
        },
    }
}

pub open spec fn opt_string_view(o: Option<String>) -> Option<Seq<char>> {
    match o {
        Some(s) => Some(s@),
        None => None,
    }
}

/// The on-disk path of a host-relative image URL.
pub fn resolve_url(src: &str, r: &Resolver) -> (p: Option<String>)
    ensures
        match resolve_url_spec(src@, r.host_url@, opt_string_view(r.site_public_path), opt_string_view(r.bench_sites_path)) {
            Some(x) => p is Some && p->0@ == x,
            None => p is None,
        },
{
    let c = chars_of(src);
    let h = chars_of(r.host_url.as_str());
    let slash = chars_of("/");
    proof {
        reveal_strlit("/");
    }
    let rel = if has_prefix(c.as_slice(), h.as_slice()) {
        copy_range(c.as_slice(), h.len(), c.len())
    } else if has_prefix(c.as_slice(), slash.as_slice()) {
        copy_range(c.as_slice(), 1, c.len())
    } else {
        return None;
    };
    assert(rel@ == host_relative(src@, r.host_url@)->0);
    let qv = chars_of("?v");
    let path = match find_sub_exec(rel.as_slice(), qv.as_slice()) {
        Some(i) => {
            proof {
                crate::text::lemma_find_sub(rel@, qv@);
            }
            copy_range(rel.as_slice(), 0, i)
        },
        None => copy_range(rel.as_slice(), 0, rel.len()),
    };
    assert(path@ =~= request_path(rel@));
    let ps = string_of(path.as_slice());
    let clean = percent_decode_lossy(ps.as_str());
    let cc = chars_of(clean.as_str());
    let pre = chars_of("assets/");
    proof {
        reveal_strlit("assets/");
    }
    if has_prefix(cc.as_slice(), pre.as_slice()) {
        match &r.bench_sites_path {
            Some(s) => {
                let rest = copy_range(cc.as_slice(), 7, cc.len());
                assert(rest@ =~= clean@.skip(7));
                let rs = string_of(rest.as_slice());
                let base = crate::page::path_join(s.as_str(), "assets");
                Some(crate::page::path_join(base.as_str(), rs.as_str()))
            },
            None => None,
        }
    } else {
        match &r.site_public_path {
            Some(p) => Some(crate::page::path_join(p.as_str(), clean.as_str())),
            None => None,
        }
    }
}

/// Where the encoded bytes of an `<img src>` come from.
#[derive(Debug)]
pub enum ImageSource {
    /// A `data:` URI: its bytes, or `None` where its base64 does not decode.
    Inline(Option<Vec<u8>>),
    /// A file to read.
    File(String),
    /// Nowhere.
    Missing,
}

/// A local path: absolute or explicitly relative.
pub open spec fn is_local_path(src: Seq<char>) -> bool {
    starts_with(src, "/"@) || starts_with(src, "./"@) || starts_with(src, "../"@)
}

/// Resolve an `<img src>`: a `data:` URI is decoded; a host-relative URL is mapped
/// to its file by `resolver`; a local path is read as it is.
pub fn image_source(src: &str, resolver: Option<&Resolver>) -> (r: ImageSource)
    ensures
        starts_with(src@, "data:"@) ==> match data_uri_parts(src@) {
            None => r is Missing,
            Some((meta, payload)) => r matches ImageSource::Inline(b) && match data_uri_bytes(meta, payload) {
                Some(x) => b is Some && b->0@ == x,
                None => b is None,
            },
        },
        !starts_with(src@, "data:"@) ==> {
            let mapped = match resolver {
                Some(res) => resolve_url_spec(src@, res.host_url@, opt_string_view(res.site_public_path), opt_string_view(res.bench_sites_path)),
                None => None,
            };
            match mapped {
                Some(p) => r matches ImageSource::File(f) && f@ == p,
                None => if is_local_path(src@) {
                    r matches ImageSource::File(f) && f@ == src@
                } else {
                    r is Missing
                },
            }
        },
{
    let c = chars_of(src);
    let pre = chars_of("data:");
    proof {
        reveal_strlit("data:");
    }
    if has_prefix(c.as_slice(), pre.as_slice()) {
        return match data_uri(src) {
            Some(b) => ImageSource::Inline(b),
            None => ImageSource::Missing,
        };
    }
    match resolver {
        Some(res) => match resolve_url(src, res) {
            Some(p) => {
                return ImageSource::File(p);
            },
            None => {},
        },
        None => {},
    }
    let slash = chars_of("/");
    let dot = chars_of("./");
    let dotdot = chars_of("../");
    if has_prefix(c.as_slice(), slash.as_slice()) || has_prefix(c.as_slice(), dot.as_slice()) || has_prefix(c.as_slice(), dotdot.as_slice()) {
        ImageSource::File(src.to_string())
    } else {
        ImageSource::Missing
    }
}

} // verus!
