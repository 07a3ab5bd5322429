//! What the browser backend sends: the switches Chrome is started with, the
//! DevTools address it prints, and the page-numbering script run in header and
//! footer pages.
use base64::Engine;
use vstd::prelude::*;

use crate::image::{base64_decode, base64_decoded};

use crate::text::{chars_of, contains, contains_exec, copy_range, find_sub, find_sub_exec, string_of, trim, trimmed};
use vstd::string::{StringExecFns, StringSliceAdditionalSpecFns};

verus! {

/// The production switches passed to headless Chrome.
pub open spec fn chrome_flag_list() -> Seq<Seq<char>> {
    seq![
        "--remote-debugging-port=0"@,
        "--disable-gpu"@,
        "--disable-field-trial-config"@,
        "--disable-background-networking"@,
        "--disable-background-timer-throttling"@,
        "--disable-backgrounding-occluded-windows"@,
        "--disable-back-forward-cache"@,
        "--disable-breakpad"@,
        "--disable-client-side-phishing-detection"@,
        "--disable-component-extensions-with-background-pages"@,
        "--disable-component-update"@,
        "--no-default-browser-check"@,
        "--disable-default-apps"@,
        "--disable-dev-shm-usage"@,
        "--disable-extensions"@,
        "--disable-features=ImprovedCookieControls,LazyFrameLoading,GlobalMediaControls,DestroyProfileOnBrowserClose,MediaRouter,DialMediaRouteProvider,AcceptCHFrame,AutoExpandDetailsElement,CertificateTransparencyComponentUpdater,AvoidUnnecessaryBeforeUnloadCheckSync,Translate,HttpsUpgrades,PaintHolding,ThirdPartyStoragePartitioning,LensOverlay,PlzDedicatedWorker"@,
        "--allow-pre-commit-input"@,
        "--disable-hang-monitor"@,
        "--disable-ipc-flooding-protection"@,
        "--disable-popup-blocking"@,
        "--disable-prompt-on-repost"@,
        "--disable-renderer-backgrounding"@,
        "--force-color-profile=srgb"@,
        "--metrics-recording-only"@,
        "--no-first-run"@,
        "--password-store=basic"@,
        "--use-mock-keychain"@,
        "--no-service-autorun"@,
        "--export-tagged-pdf"@,
        "--disable-search-engine-choice-screen"@,
        "--unsafely-disable-devtools-self-xss-warnings"@,
        "--enable-use-zoom-for-dsf=false"@,
        "--use-angle"@,
        "--headless"@,
        "--hide-scrollbars"@,
        "--mute-audio"@,
        "--blink-settings=primaryHoverType=2,availableHoverTypes=2,primaryPointerType=4,availablePointerTypes=4"@,
        "--no-sandbox"@,
        "--no-startup-window"@
    ]
}

pub open spec fn str_views(v: Seq<&str>) -> Seq<Seq<char>> {
    v.map_values(|s: &str| s@)
}

/// The exact production switches passed to headless Chrome.
pub fn chrome_flags() -> (r: Vec<&'static str>)
    ensures
        str_views(r@) == chrome_flag_list(),
{
    let r = vec![
        "--remote-debugging-port=0",
        "--disable-gpu",
        "--disable-field-trial-config",
        "--disable-background-networking",
        "--disable-background-timer-throttling",
        "--disable-backgrounding-occluded-windows",
        "--disable-back-forward-cache",
        "--disable-breakpad",
        "--disable-client-side-phishing-detection",
        "--disable-component-extensions-with-background-pages",
        "--disable-component-update",
        "--no-default-browser-check",
        "--disable-default-apps",
        "--disable-dev-shm-usage",
        "--disable-extensions",
        "--disable-features=ImprovedCookieControls,LazyFrameLoading,GlobalMediaControls,DestroyProfileOnBrowserClose,MediaRouter,DialMediaRouteProvider,AcceptCHFrame,AutoExpandDetailsElement,CertificateTransparencyComponentUpdater,AvoidUnnecessaryBeforeUnloadCheckSync,Translate,HttpsUpgrades,PaintHolding,ThirdPartyStoragePartitioning,LensOverlay,PlzDedicatedWorker",
        "--allow-pre-commit-input",
        "--disable-hang-monitor",
        "--disable-ipc-flooding-protection",
        "--disable-popup-blocking",
        "--disable-prompt-on-repost",
        "--disable-renderer-backgrounding",
        "--force-color-profile=srgb",
        "--metrics-recording-only",
        "--no-first-run",
        "--password-store=basic",
        "--use-mock-keychain",
        "--no-service-autorun",
        "--export-tagged-pdf",
        "--disable-search-engine-choice-screen",
        "--unsafely-disable-devtools-self-xss-warnings",
        "--enable-use-zoom-for-dsf=false",
        "--use-angle",
        "--headless",
        "--hide-scrollbars",
        "--mute-audio",
        "--blink-settings=primaryHoverType=2,availableHoverTypes=2,primaryPointerType=4,availablePointerTypes=4",
        "--no-sandbox",
        "--no-startup-window"
    ];
    assert(str_views(r@) =~= chrome_flag_list());
    r
}

/// The DevTools address on a line Chrome prints while starting: the trimmed text
/// from `ws://` on, on a line that announces `DevTools listening on`.
pub open spec fn devtools_url_spec(line: Seq<char>) -> Option<Seq<char>> {
    if contains(line, "DevTools listening on"@) {
        match find_sub(line, "ws://"@) {
            Some(p) => Some(trim(line.skip(p))),
            None => None,
        }
    } else {
        None
    }
}

/// The DevTools WebSocket address announced on `line`, if it announces one.
pub fn devtools_url_in(line: &str) -> (r: Option<String>)
    ensures
        match devtools_url_spec(line@) {
            Some(u) => r is Some && r->0@ == u,
            None => r is None,
        },
{
    let c = chars_of(line);
    let marker = chars_of("DevTools listening on");
    if !contains_exec(c.as_slice(), marker.as_slice()) {
        return None;
    }
    let ws = chars_of("ws://");
    match find_sub_exec(c.as_slice(), ws.as_slice()) {
        Some(p) => {
            proof {
                crate::text::lemma_find_sub(c@, ws@);
            }
            let rest = copy_range(c.as_slice(), p, c.len());
            assert(rest@ =~= line@.skip(p as int));
            let t = trimmed(rest.as_slice());
            Some(string_of(t.as_slice()))
        },
        None => None,
    }
}

/// The default host of a job.
pub fn default_host() -> (s: String)
    ensures
        s@ == "http://localhost:8000/"@,
{
    String::from_str("http://localhost:8000/")
}

/// The default page size of a job.
pub fn default_a4() -> (s: String)
    ensures
        s@ == "A4"@,
{
    String::from_str("A4")
}

// ----- page-numbering script -----

/// Installs `clone_and_update` (print designer's page-number cloning) unless the page
/// defines it.
pub const CLONE_AND_UPDATE_JS: &'static str = "\nwindow.clone_and_update = window.clone_and_update || function(selector, total_pages, is_pd, type, is_dynamic) {\n  var el = document.querySelector(selector);\n  if (!el) return;\n  var parent = el.parentNode;\n  var template = el.cloneNode(true);\n  el.remove();\n  var count = is_dynamic ? total_pages : 4;\n  for (var i = 1; i <= count; i++) {\n    var clone = template.cloneNode(true);\n    var topage = is_dynamic ? total_pages : 0;\n    clone.querySelectorAll('.page, .page_info_page').forEach(function(n){ n.textContent = i; });\n    clone.querySelectorAll('.topage, .page_info_topage').forEach(function(n){ n.textContent = topage; });\n    clone.querySelectorAll('.frompage, .page_info_frompage').forEach(function(n){ n.textContent = 1; });\n    parent.appendChild(clone);\n  }\n};\n";

pub open spec fn digit_char(d: nat) -> char {
    (d + 48) as char
}

/// The decimal digits of `n`.
pub open spec fn decimal(n: nat) -> Seq<char>
    decreases n,
{
    if n < 10 {
        seq![digit_char(n)]
    } else {
        decimal(n / 10) + seq![digit_char(n % 10)]
    }
}

/// The decimal form of `n`, with `-` when negative.
pub open spec fn signed_decimal(n: int) -> Seq<char> {
    if n < 0 {
        seq!['-'] + decimal((-n) as nat)
    } else {
        decimal(n as nat)
    }
}

fn digit_char_exec(d: u64) -> (c: char)
    requires
        d < 10,
    ensures
        c == digit_char(d as nat),
{
    if d == 0 {
        '0'
    } else if d == 1 {
        '1'
    } else if d == 2 {
        '2'
    } else if d == 3 {
        '3'
    } else if d == 4 {
        '4'
    } else if d == 5 {
        '5'
    } else if d == 6 {
        '6'
    } else if d == 7 {
        '7'
    } else if d == 8 {
        '8'
    } else {
        '9'
    }
}

/// The decimal digits of `n`.
pub fn decimal_of(n: u64) -> (r: String)
    ensures
        r@ == decimal(n as nat),
    decreases n,
{
    if n < 10 {
        let c = digit_char_exec(n);
        let v = vec![c];
        assert(v@ =~= seq![digit_char(n as nat)]);
        string_of(v.as_slice())
    } else {
        let mut s = decimal_of(n / 10);
        let c = digit_char_exec(n % 10);
        let v = vec![c];
        let t = string_of(v.as_slice());
        s.append(t.as_str());
        assert(t@ =~= seq![digit_char((n % 10) as nat)]);
        s
    }
}

/// The decimal form of `n`.
pub fn signed_decimal_of(n: i64) -> (r: String)
    ensures
        r@ == signed_decimal(n as int),
{
    if n < 0 {
        let m: u64 = if n == i64::MIN {
            9223372036854775808u64
        } else {
            (-n) as u64
        };
        let mut s = String::from_str("-");
        let d = decimal_of(m);
        s.append(d.as_str());
        proof {
            reveal_strlit("-");
        }
        s
    } else {
        decimal_of(n as u64)
    }
}

/// The script that installs `clone_and_update` and calls it on `selector`.
pub open spec fn clone_call_spec(selector: Seq<char>, total: nat, is_pd: int, kind: Seq<char>, is_dynamic: int) -> Seq<char> {
    CLONE_AND_UPDATE_JS@ + "\nclone_and_update('"@ + selector + "', "@ + decimal(total) + ", "@ + signed_decimal(is_pd)
        + ", '"@ + kind + "', "@ + signed_decimal(is_dynamic) + ");"@
}

/// The page-numbering call for `selector`: `total` pages, print designer flag, kind
/// (Header/Footer) and whether the content is dynamic.
pub fn clone_call(selector: &str, total: usize, is_pd: i32, kind: &str, is_dynamic: i32) -> (r: String)
    ensures
        r@ == clone_call_spec(selector@, total as nat, is_pd as int, kind@, is_dynamic as int),
{
    let mut s = String::from_str(CLONE_AND_UPDATE_JS);
    s.append("\nclone_and_update('");
    s.append(selector);
    s.append("', ");
    let t = decimal_of(total as u64);
    s.append(t.as_str());
    s.append(", ");
    let p = signed_decimal_of(is_pd as i64);
    s.append(p.as_str());
    s.append(", '");
    s.append(kind);
    s.append("', ");
    let d = signed_decimal_of(is_dynamic as i64);
    s.append(d.as_str());
    s.append(");");
    s
}

/// The call that lays out the four first/odd/even/last variants of a print designer
/// header (or footer) whose content does not use page numbers.
pub fn variants_call(is_header: bool) -> (r: String)
    ensures
        r@ == (if is_header {
            clone_call_spec("#header-render-container"@, 0, 1, "Header"@, 0)
        } else {
            clone_call_spec("#footer-render-container"@, 0, 1, "Footer"@, 0)
        }),
{
    if is_header {
        clone_call("#header-render-container", 0, 1, "Header", 0)
    } else {
        clone_call("#footer-render-container", 0, 1, "Footer", 0)
    }
}

/// The call that numbers a dynamic header (or footer) for `total` body pages: in the
/// render container for print designer formats, in the wrapper otherwise.
pub fn dynamic_call(is_pd: bool, is_header: bool, total: usize) -> (r: String)
    ensures
        r@ == clone_call_spec(
            if is_pd {
                if is_header {
                    "#header-render-container"@
                } else {
                    "#footer-render-container"@
                }
            } else {
                ".wrapper"@
            },
            total as nat,
            if is_pd {
                1
            } else {
                0
            },
            if is_header {
                "Header"@
            } else {
                "Footer"@
            },
            1,
        ),
{
    let selector = if is_pd {
        if is_header {
            "#header-render-container"
        } else {
            "#footer-render-container"
        }
    } else {
        ".wrapper"
    };
    let kind = if is_header {
        "Header"
    } else {
        "Footer"
    };
    let pd: i32 = if is_pd {
        1
    } else {
        0
    };
    clone_call(selector, total, pd, kind, 1)
}

// ----- DevTools byte transport -----

/// What `base64::engine::general_purpose::STANDARD.encode(bytes)` gives: `bytes` in
/// standard base64, padded.
pub uninterp spec fn base64_encoded(bytes: Seq<u8>) -> Seq<char>;

/// Encode bytes as standard padded base64 (`STANDARD.encode`). The contract names
/// the result.
#[verifier::external_body]
fn base64_encode(bytes: &[u8]) -> (r: String)
    ensures
        r@ == base64_encoded(bytes@),
{
    base64::engine::general_purpose::STANDARD.encode(bytes)
}

/// The body of a request fulfilled from a local file, as `Fetch.fulfillRequest`
/// takes it: the file's bytes in standard base64.
pub fn fulfill_body(bytes: &[u8]) -> (r: String)
    ensures
        r@ == base64_encoded(bytes@),
{
    base64_encode(bytes)
}

/// The bytes of one chunk read from a DevTools stream (`IO.read`): `data`
/// base64-decoded when the chunk is marked base64, else the UTF-8 bytes of `data`.
/// `None` when base64 data does not decode.
pub fn stream_chunk_bytes(data: &str, base64_encoded: bool) -> (r: Option<Vec<u8>>)
    ensures
        base64_encoded ==> match base64_decoded(data@) {
            Some(b) => r is Some && r->0@ == b,
            None => r is None,
        },
        !base64_encoded ==> r is Some && r->0@ == data.spec_bytes(),
{
    if base64_encoded {
        return base64_decode(data);
    }
    let b = data.as_bytes();
    let mut out: Vec<u8> = Vec::new();
    for i in 0..b.len()
        invariant
            b@ == data.spec_bytes(),
            out@ == b@.take(i as int),
    {
        out.push(b[i]);
        assert(b@.take(i + 1) =~= b@.take(i as int).push(b@[i as int]));
    }
    assert(b@.take(b@.len() as int) =~= b@);
    Some(out)
}

} // verus!
