//! Request interception for a rendering tab: which requests are served from the
//! site's files, where those files lie, and the scope they must stay within.
use vstd::prelude::*;

use crate::style::{strip_all, strip_all_exec};
use vstd::string::StringSliceAdditionalSpecFns;
use crate::text::{
    chars_of, copy_range, ends_with, find_char, find_char_from, find_sub, find_sub_exec, has_prefix, has_suffix,
    split_chars, split_on, starts_with, string_of,
};

verus! {

/// Where intercepted requests for the host are resolved on disk.
#[derive(Clone, Debug)]
pub struct Interceptor {
    pub host_url: String,
    pub bench_sites_path: Option<String>,
    pub site_public_path: Option<String>,
    pub sid: Option<String>,
}

// ----- percent-decoding -----

pub open spec fn hex_digit(b: u8) -> Option<u8> {
    if 48 <= b <= 57 {
        Some((b - 48) as u8)
    } else if 97 <= b <= 102 {
        Some((b - 87) as u8)
    } else if 65 <= b <= 70 {
        Some((b - 55) as u8)
    } else {
        None
    }
}

/// Percent-decoding: `%` with two hex digits gives that byte, all else is kept.
pub open spec fn pct_decode(b: Seq<u8>) -> Seq<u8>
    decreases b.len(),
{
    if b.len() == 0 {
        seq![]
    } else if b[0] == 37 && b.len() >= 3 && hex_digit(b[1]) is Some && hex_digit(b[2]) is Some {
        seq![(hex_digit(b[1])->0 * 16 + hex_digit(b[2])->0) as u8] + pct_decode(b.skip(3))
    } else {
        seq![b[0]] + pct_decode(b.skip(1))
    }
}

/// What `percent_decode_str(s).decode_utf8_lossy()` gives.
pub uninterp spec fn decoded_lossy(s: Seq<char>) -> Seq<char>;

/// Percent-decode `s` and read the bytes as UTF-8, invalid sequences replaced
/// (`percent_encoding::percent_decode_str(s).decode_utf8_lossy()`). The contract
/// names the result; where the decoded bytes are the UTF-8 of a text, that text is
/// the result.
#[verifier::external_body]
pub(crate) fn percent_decode_lossy(s: &str) -> (r: String)
    ensures
        r@ == decoded_lossy(s@),
        forall|t: Seq<char>| pct_decode(s.spec_bytes()) == vstd::utf8::encode_utf8(t) ==> r@ == t,
{
    percent_encoding::percent_decode_str(s).decode_utf8_lossy().into_owned()
}

// ----- host and requests -----

/// The part of `s` before the first `c`.
pub open spec fn before_char(s: Seq<char>, c: char) -> Seq<char> {
    match find_char(s, c) {
        Some(i) => s.take(i),
        None => s,
    }
}

/// The host name of a URL: schemes stripped, then the text before the first `/`,
/// then before the first `:`.
pub open spec fn host_domain_spec(host_url: Seq<char>) -> Seq<char> {
    let a = strip_all(strip_all(host_url, "http://"@), "https://"@);
    before_char(before_char(a, '/'), ':')
}

fn before_char_exec(s: &[char], c: char) -> (r: Vec<char>)
    ensures
        r@ == before_char(s@, c),
{
    let k = find_char_from(s, 0, c);
    assert(s@.skip(0) =~= s@);
    copy_range(s, 0, k)
}

/// The host name of `host_url`, without scheme, path or port.
pub fn host_domain(host_url: &str) -> (r: String)
    ensures
        r@ == host_domain_spec(host_url@),
{
    let c = chars_of(host_url);
    let http = chars_of("http://");
    let https = chars_of("https://");
    proof {
        reveal_strlit("http://");
        reveal_strlit("https://");
    }
    let a = strip_all_exec(c.as_slice(), http.as_slice());
    let b = strip_all_exec(a.as_slice(), https.as_slice());
    let d = before_char_exec(b.as_slice(), '/');
    let e = before_char_exec(d.as_slice(), ':');
    string_of(e.as_slice())
}

/// The path part of a request after the host: the text before the first `?v`.
pub open spec fn request_path(after_host: Seq<char>) -> Seq<char> {
    match find_sub(after_host, "?v"@) {
        Some(i) => after_host.take(i),
        None => after_host,
    }
}

/// How an intercepted request is handled.
#[derive(Debug)]
pub enum RequestTarget {
    /// Not for the host: let it through.
    Other,
    /// The host itself: answer with an empty page.
    HostRoot,
    /// A path on the host, as sent and percent-decoded, and whether it names an SVG.
    HostPath { path: String, clean: String, svg: bool },
}

/// Classify the request for `url` against the host `host_url`.
pub fn request_target(url: &str, host_url: &str) -> (r: RequestTarget)
    ensures
        !starts_with(url@, host_url@) ==> r is Other,
        starts_with(url@, host_url@) ==> {
            let path = request_path(url@.skip(host_url@.len() as int));
            &&& path.len() == 0 ==> r is HostRoot
            &&& path.len() > 0 ==> (r matches RequestTarget::HostPath { path: p, clean, svg } && p@ == path
                && clean@ == decoded_lossy(path) && svg == ends_with(path, ".svg"@))
        },
{
    let u = chars_of(url);
    let h = chars_of(host_url);
    if !has_prefix(u.as_slice(), h.as_slice()) {
        return RequestTarget::Other;
    }
    let after = copy_range(u.as_slice(), h.len(), u.len());
    assert(after@ =~= url@.skip(host_url@.len() as int));
    let qv = chars_of("?v");
    let path = match find_sub_exec(after.as_slice(), qv.as_slice()) {
        Some(i) => {
            proof {
                crate::text::lemma_find_sub(after@, qv@);
            }
            copy_range(after.as_slice(), 0, i)
        },
        None => copy_range(after.as_slice(), 0, after.len()),
    };
    assert(path@ =~= request_path(after@));
    if path.len() == 0 {
        return RequestTarget::HostRoot;
    }
    let svg_ext = chars_of(".svg");
    let svg = has_suffix(path.as_slice(), svg_ext.as_slice());
    let ps = string_of(path.as_slice());
    let clean = percent_decode_lossy(ps.as_str());
    RequestTarget::HostPath { path: ps, clean, svg }
}

// ----- lexical paths -----

/// The named components of a `/`-separated path: empty and `.` parts dropped.
pub open spec fn path_segs(p: Seq<char>) -> Seq<Seq<char>> {
    named_parts(split_on(p, '/'))
}

pub open spec fn named_parts(parts: Seq<Seq<char>>) -> Seq<Seq<char>>
    decreases parts.len(),
{
    if parts.len() == 0 {
        seq![]
    } else {
        let rest = named_parts(parts.drop_last());
        let x = parts.last();
        if x.len() == 0 || x == "."@ {
            rest
        } else {
            rest.push(x)
        }
    }
}

pub open spec fn is_abs(p: Seq<char>) -> bool {
    p.len() > 0 && p[0] == '/'
}

/// One step of lexical resolution: `..` removes a preceding name; at the root of an
/// absolute path (`abs`) it is dropped, the parent of `/` being `/`; in a relative
/// path with nothing to remove it is kept. Any other component is appended.
pub open spec fn norm_step(abs: bool, stack: Seq<Seq<char>>, seg: Seq<char>) -> Seq<Seq<char>> {
    if seg == ".."@ && stack.len() > 0 && stack.last() != ".."@ {
        stack.drop_last()
    } else if seg == ".."@ && abs {
        stack
    } else {
        stack.push(seg)
    }
}

/// Resolve `.` and `..` in a list of components, left to right (`abs`: the path
/// starts at the root).
pub open spec fn norm_segs(abs: bool, segs: Seq<Seq<char>>) -> Seq<Seq<char>>
    decreases segs.len(),
{
    if segs.len() == 0 {
        seq![]
    } else {
        norm_step(abs, norm_segs(abs, segs.drop_last()), segs.last())
    }
}

/// Components joined with `/`.
pub open spec fn join_segs(segs: Seq<Seq<char>>) -> Seq<char>
    decreases segs.len(),
{
    if segs.len() == 0 {
        seq![]
    } else if segs.len() == 1 {
        segs[0]
    } else {
        join_segs(segs.drop_last()) + seq!['/'] + segs.last()
    }
}

/// A path written from its root flag and components.
pub open spec fn render(abs: bool, segs: Seq<Seq<char>>) -> Seq<char> {
    if abs {
        seq!['/'] + join_segs(segs)
    } else {
        join_segs(segs)
    }
}

/// `p` with `.` and `..` resolved lexically (like `os.path.abspath`, without the
/// file system).
pub open spec fn normalized(p: Seq<char>) -> Seq<char> {
    render(is_abs(p), norm_segs(is_abs(p), path_segs(p)))
}

fn named_parts_exec(p: &[char]) -> (r: Vec<Vec<char>>)
    ensures
        r@.map_values(|v: Vec<char>| v@) == path_segs(p@),
{
    let parts = split_chars(p, '/');
    let ghost sp = split_on(p@, '/');
    let mut r: Vec<Vec<char>> = Vec::new();
    let dot = chars_of(".");
    proof {
        reveal_strlit(".");
    }
    for k in 0..parts.len()
        invariant
            parts@.len() == sp.len(),
            sp == split_on(p@, '/'),
            forall|i: int| 0 <= i < parts@.len() ==> (#[trigger] parts@[i])@ == sp[i],
            dot@ == "."@,
            r@.map_values(|v: Vec<char>| v@) == named_parts(sp.take(k as int)),
    {
        let x = &parts[k];
        assert(sp.take(k + 1).drop_last() =~= sp.take(k as int));
        assert(sp.take(k + 1).last() == x@);
        if !(x.len() == 0 || crate::css::eq_chars(x.as_slice(), dot.as_slice())) {
            let ghost r0 = r@;
            let y = copy_range(x.as_slice(), 0, x.len());
            assert(y@ =~= x@);
            r.push(y);
            assert(r@.map_values(|v: Vec<char>| v@) =~= r0.map_values(|v: Vec<char>| v@).push(x@));
        }
    }
    assert(sp.take(parts@.len() as int) =~= sp);
    r
}

fn norm_exec(abs: bool, segs: &Vec<Vec<char>>) -> (r: Vec<Vec<char>>)
    ensures
        r@.map_values(|v: Vec<char>| v@) == norm_segs(abs, segs@.map_values(|v: Vec<char>| v@)),
{
    let ghost sv = segs@.map_values(|v: Vec<char>| v@);
    let dd = chars_of("..");
    let mut st: Vec<Vec<char>> = Vec::new();
    for k in 0..segs.len()
        invariant
            sv == segs@.map_values(|v: Vec<char>| v@),
            dd@ == ".."@,
            st@.map_values(|v: Vec<char>| v@) == norm_segs(abs, sv.take(k as int)),
    {
        let x = &segs[k];
        assert(sv.take(k + 1).drop_last() =~= sv.take(k as int));
        assert(sv.take(k + 1).last() == x@);
        let ghost s0 = st@.map_values(|v: Vec<char>| v@);
        let is_up = crate::css::eq_chars(x.as_slice(), dd.as_slice());
        if is_up && st.len() > 0 && !crate::css::eq_chars(st[st.len() - 1].as_slice(), dd.as_slice()) {
            assert(s0.last() == st@[st.len() - 1]@);
            st.pop();
            assert(st@.map_values(|v: Vec<char>| v@) =~= s0.drop_last());
        } else if is_up && abs {
            if st.len() > 0 {
                assert(s0.last() == st@[st.len() - 1]@);
            }
        } else {
            if is_up && st.len() > 0 {
                assert(s0.last() == st@[st.len() - 1]@);
            }
            let y = copy_range(x.as_slice(), 0, x.len());
            assert(y@ =~= x@);
            st.push(y);
            assert(st@.map_values(|v: Vec<char>| v@) =~= s0.push(x@));
        }
    }
    assert(sv.take(segs@.len() as int) =~= sv);
    st
}

fn render_exec(abs: bool, segs: &Vec<Vec<char>>) -> (r: Vec<char>)
    ensures
        r@ == render(abs, segs@.map_values(|v: Vec<char>| v@)),
{
    let ghost sv = segs@.map_values(|v: Vec<char>| v@);
    let mut out: Vec<char> = Vec::new();
    if abs {
        out.push('/');
    }
    let ghost head = out@;
    for k in 0..segs.len()
        invariant
            sv == segs@.map_values(|v: Vec<char>| v@),
            head == (if abs { seq!['/'] } else { Seq::<char>::empty() }),
            out@ == head + join_segs(sv.take(k as int)),
    {
        let ghost o0 = out@;
        assert(sv.take(k + 1).drop_last() =~= sv.take(k as int));
        assert(sv.take(k + 1).last() == segs@[k as int]@);
        if k > 0 {
            out.push('/');
        }
        crate::text::append_chars(&mut out, segs[k].as_slice());
        if k == 0 {
            assert(sv.take(1) =~= seq![sv[0]]);
            assert(out@ =~= head + join_segs(sv.take(1)));
        } else {
            assert(out@ =~= head + join_segs(sv.take(k + 1)));
        }
    }
    assert(sv.take(segs@.len() as int) =~= sv);
    if !abs {
        assert(out@ =~= join_segs(sv));
    }
    out
}

/// Resolve `.` and `..` lexically (like `os.path.abspath`), without touching the
/// file system.
pub fn lexical_normalize(path: &str) -> (r: String)
    ensures
        r@ == normalized(path@),
{
    let p = chars_of(path);
    let segs = named_parts_exec(p.as_slice());
    let abs = p.len() > 0 && p[0] == '/';
    let n = norm_exec(abs, &segs);
    let out = render_exec(abs, &n);
    string_of(out.as_slice())
}

/// `path` lies within `root`: both have a root or neither, and `root`'s components
/// begin `path`'s (`Path::starts_with`).
pub open spec fn within(root_abs: bool, root: Seq<Seq<char>>, path_abs: bool, path: Seq<Seq<char>>) -> bool {
    root_abs == path_abs && root.len() <= path.len() && path.take(root.len() as int) == root
}

/// Whether the path `path` lies within `root`, both taken with `.` and `..` resolved.
pub fn in_scope(path: &str, root: &str) -> (b: bool)
    ensures
        b == within(is_abs(root@), norm_segs(is_abs(root@), path_segs(root@)), is_abs(path@), norm_segs(is_abs(path@), path_segs(path@))),
{
    let p = chars_of(path);
    let r = chars_of(root);
    let pseg = named_parts_exec(p.as_slice());
    let rseg = named_parts_exec(r.as_slice());
    let pa = p.len() > 0 && p[0] == '/';
    let ra = r.len() > 0 && r[0] == '/';
    let ps = norm_exec(pa, &pseg);
    let rs = norm_exec(ra, &rseg);
    let ghost pv = ps@.map_values(|v: Vec<char>| v@);
    let ghost rv = rs@.map_values(|v: Vec<char>| v@);
    assert(pv == norm_segs(is_abs(path@), path_segs(path@)));
    assert(rv == norm_segs(is_abs(root@), path_segs(root@)));
    assert(pa == is_abs(path@));
    assert(ra == is_abs(root@));
    assert(pv.len() == ps.len() && rv.len() == rs.len());
    if pa != ra || rs.len() > ps.len() {
        return false;
    }
    let mut k: usize = 0;
    while k < rs.len()
        invariant
            rs.len() <= ps.len(),
            pv == ps@.map_values(|v: Vec<char>| v@),
            rv == rs@.map_values(|v: Vec<char>| v@),
            pv == norm_segs(is_abs(path@), path_segs(path@)),
            rv == norm_segs(is_abs(root@), path_segs(root@)),
            k <= rs.len(),
            forall|j: int| 0 <= j < k ==> pv[j] == rv[j],
        decreases rs.len() - k,
    {
        if !crate::css::eq_chars(ps[k].as_slice(), rs[k].as_slice()) {
            assert(pv.take(rv.len() as int)[k as int] != rv[k as int]);
            return false;
        }
        k += 1;
    }
    assert(pv.take(rv.len() as int) =~= rv);
    true
}

/// `rest` joined onto `base` (`Path::join`): an absolute `rest` replaces `base`.
pub open spec fn path_join_spec(base: Seq<char>, rest: Seq<char>) -> Seq<char> {
    if is_abs(rest) || base.len() == 0 {
        rest
    } else if base.last() == '/' {
        base + rest
    } else {
        base + seq!['/'] + rest
    }
}

/// `rest` joined onto `base` with a `/` between (an absolute `rest` replaces `base`).
pub fn path_join(base: &str, rest: &str) -> (r: String)
    ensures
        r@ == path_join_spec(base@, rest@),
{
    let b = chars_of(base);
    let t = chars_of(rest);
    if (t.len() > 0 && t[0] == '/') || b.len() == 0 {
        return string_of(t.as_slice());
    }
    let mut out = copy_range(b.as_slice(), 0, b.len());
    assert(out@ =~= b@);
    if b[b.len() - 1] != '/' {
        out.push('/');
    }
    crate::text::append_chars(&mut out, t.as_slice());
    string_of(out.as_slice())
}

/// Where a host path is looked for on disk.
#[derive(Debug)]
pub enum LocalPath {
    /// Under `<bench>/sites/assets`, resolved lexically, and whether it stays there.
    Resolved { path: String, safe: bool },
    /// Under the site's public directory: `rel` below `public`, to be resolved against
    /// the file system (`in_scope` then says whether it stays there).
    UnderPublic { public: String, rel: String },
}

/// Components of the asset root `<sites>/assets`, resolved.
pub open spec fn asset_root_segs(sites: Seq<char>) -> Seq<Seq<char>> {
    norm_segs(is_abs(sites), path_segs(sites).push("assets"@))
}

/// Components of `<sites>/assets/<rest>`, resolved (an absolute `rest` replaces).
pub open spec fn asset_segs(sites: Seq<char>, rest: Seq<char>) -> Seq<Seq<char>> {
    if is_abs(rest) {
        norm_segs(true, path_segs(rest))
    } else {
        norm_segs(is_abs(sites), path_segs(sites).push("assets"@) + path_segs(rest))
    }
}

pub open spec fn asset_abs(sites: Seq<char>, rest: Seq<char>) -> bool {
    is_abs(rest) || is_abs(sites)
}

/// Resolve a host-relative path: `assets/...` lexically under `<bench>/sites/assets`
/// with its scope decided, anything else under the site's public directory. `None`
/// when the directory it needs is not configured.
pub fn resolve_local(clean_path: &str, cfg: &Interceptor) -> (r: Option<LocalPath>)
    ensures
        starts_with(clean_path@, "assets/"@) ==> match cfg.bench_sites_path {
            None => r is None,
            Some(sites) => {
                let rest = clean_path@.skip(7);
                r matches Some(LocalPath::Resolved { path, safe }) && path@ == render(
                    asset_abs(sites@, rest),
                    asset_segs(sites@, rest),
                ) && safe == within(is_abs(sites@), asset_root_segs(sites@), asset_abs(sites@, rest), asset_segs(sites@, rest))
            },
        },
        !starts_with(clean_path@, "assets/"@) ==> match cfg.site_public_path {
            None => r is None,
            Some(public) => r matches Some(LocalPath::UnderPublic { public: p, rel }) && p@ == public@ && rel@ == clean_path@,
        },
{
    let c = chars_of(clean_path);
    let pre = chars_of("assets/");
    proof {
        reveal_strlit("assets/");
    }
    if has_prefix(c.as_slice(), pre.as_slice()) {
        let sites = match &cfg.bench_sites_path {
            Some(s) => s,
            None => return None,
        };
        let rest = copy_range(c.as_slice(), 7, c.len());
        assert(rest@ =~= clean_path@.skip(7));
        let sc = chars_of(sites.as_str());
        let mut base = named_parts_exec(sc.as_slice());
        let assets = chars_of("assets");
        let ghost b0 = base@.map_values(|v: Vec<char>| v@);
        base.push(assets);
        assert(base@.map_values(|v: Vec<char>| v@) =~= b0.push("assets"@));
        let sites_abs = sc.len() > 0 && sc[0] == '/';
        let root = norm_exec(sites_abs, &base);
        let rest_abs = rest.len() > 0 && rest[0] == '/';
        let rest_segs = named_parts_exec(rest.as_slice());
        let full = if rest_abs {
            norm_exec(true, &rest_segs)
        } else {
            let mut all = base;
            let ghost a0 = all@.map_values(|v: Vec<char>| v@);
            for k in 0..rest_segs.len()
                invariant
                    all@.map_values(|v: Vec<char>| v@) == a0 + rest_segs@.map_values(|v: Vec<char>| v@).take(k as int),
            {
                let ghost a1 = all@.map_values(|v: Vec<char>| v@);
                let y = copy_range(rest_segs[k].as_slice(), 0, rest_segs[k].len());
                assert(y@ =~= rest_segs@[k as int]@);
                all.push(y);
                assert(all@.map_values(|v: Vec<char>| v@) =~= a1.push(y@));
                assert(rest_segs@.map_values(|v: Vec<char>| v@).take(k + 1) =~= rest_segs@.map_values(|v: Vec<char>| v@).take(k as int).push(y@));
            }
            assert(rest_segs@.map_values(|v: Vec<char>| v@).take(rest_segs@.len() as int) =~= rest_segs@.map_values(|v: Vec<char>| v@));
            norm_exec(sites_abs, &all)
        };
        let abs = rest_abs || sites_abs;
        let ghost fv = full@.map_values(|v: Vec<char>| v@);
        let ghost rv = root@.map_values(|v: Vec<char>| v@);
        let mut safe = abs == sites_abs && root.len() <= full.len();
        if safe {
            let mut k: usize = 0;
            while k < root.len()
                invariant
                    root.len() <= full.len(),
                    fv == full@.map_values(|v: Vec<char>| v@),
                    rv == root@.map_values(|v: Vec<char>| v@),
                    k <= root.len(),
                    safe ==> forall|j: int| 0 <= j < k ==> fv[j] == rv[j],
                    !safe ==> fv.take(rv.len() as int) != rv,
                decreases root.len() - k,
            {
                if safe && !crate::css::eq_chars(full[k].as_slice(), root[k].as_slice()) {
                    assert(fv.take(rv.len() as int)[k as int] != rv[k as int]);
                    safe = false;
                }
                k += 1;
            }
            if safe {
                assert(fv.take(rv.len() as int) =~= rv);
            }
        }
        let out = render_exec(abs, &full);
        Some(LocalPath::Resolved { path: string_of(out.as_slice()), safe })
    } else {
        match &cfg.site_public_path {
            Some(p) => Some(LocalPath::UnderPublic { public: p.clone(), rel: clean_path.to_string() }),
            None => None,
        }
    }
}

/// A resolved component list holds `..` only in a leading run.
pub open spec fn ups_leading(segs: Seq<Seq<char>>) -> bool {
    forall|i: int, j: int| 0 <= i < j < segs.len() && #[trigger] segs[j] == ".."@ ==> #[trigger] segs[i] == ".."@
}

/// A resolved path starting at the root holds no `..` at all.
pub open spec fn no_ups(segs: Seq<Seq<char>>) -> bool {
    forall|k: int| 0 <= k < segs.len() ==> #[trigger] segs[k] != ".."@
}

proof fn lemma_norm_ups_leading(abs: bool, segs: Seq<Seq<char>>)
    ensures
        ups_leading(norm_segs(abs, segs)),
        abs ==> no_ups(norm_segs(abs, segs)),
    decreases segs.len(),
{
    if segs.len() > 0 {
        lemma_norm_ups_leading(abs, segs.drop_last());
        let st = norm_segs(abs, segs.drop_last());
        let x = segs.last();
        if x == ".."@ && st.len() > 0 && st.last() != ".."@ {
            assert forall|i: int, j: int| 0 <= i < j < st.drop_last().len() && #[trigger] st.drop_last()[j] == ".."@ implies #[trigger] st.drop_last()[i] == ".."@ by {
                assert(st.drop_last()[j] == st[j] && st.drop_last()[i] == st[i]);
            }
            if abs {
                assert forall|k: int| 0 <= k < st.drop_last().len() implies #[trigger] st.drop_last()[k] != ".."@ by {
                    assert(st.drop_last()[k] == st[k]);
                }
            }
        } else if x == ".."@ && abs {
        } else {
            let n = st.push(x);
            assert forall|i: int, j: int| 0 <= i < j < n.len() && #[trigger] n[j] == ".."@ implies #[trigger] n[i] == ".."@ by {
                if j < st.len() {
                    assert(n[j] == st[j] && n[i] == st[i]);
                } else {
                    assert(n[j] == x);
                    // x is `..` and was pushed: the stack was empty or ended in `..`
                    if st.len() > 0 {
                        assert(st.last() == ".."@);
                        if i < st.len() - 1 {
                            assert(n[i] == st[i]);
                            assert(st[st.len() - 1] == ".."@);
                        }
                    }
                }
            }
            if abs {
                assert forall|k: int| 0 <= k < n.len() implies #[trigger] n[k] != ".."@ by {
                    if k < st.len() {
                        assert(n[k] == st[k]);
                    }
                }
            }
        }
    }
}

/// A safe asset path cannot climb out of the asset root: it begins with the root's
/// components and holds no `..` after them.
pub proof fn lemma_safe_asset_stays_inside(sites: Seq<char>, rest: Seq<char>)
    requires
        within(is_abs(sites), asset_root_segs(sites), asset_abs(sites, rest), asset_segs(sites, rest)),
    ensures
        asset_segs(sites, rest).take(asset_root_segs(sites).len() as int) == asset_root_segs(sites),
        forall|k: int|
            asset_root_segs(sites).len() <= k < asset_segs(sites, rest).len() ==> #[trigger] asset_segs(sites, rest)[k] != ".."@,
{
    let root = asset_root_segs(sites);
    let full = asset_segs(sites, rest);
    let base = path_segs(sites).push("assets"@);
    assert(base.drop_last() =~= path_segs(sites));
    assert(base.last() == "assets"@);
    reveal_strlit("assets");
    reveal_strlit("..");
    assert("assets"@ != ".."@) by {
        assert("assets"@.len() != ".."@.len());
    }
    assert(root.len() > 0 && root.last() == "assets"@);
    if is_abs(rest) {
        lemma_norm_ups_leading(true, path_segs(rest));
    } else {
        lemma_norm_ups_leading(is_abs(sites), base + path_segs(rest));
    }
    assert forall|k: int| root.len() <= k < full.len() implies #[trigger] full[k] != ".."@ by {
        if full[k] == ".."@ {
            let i = root.len() - 1;
            assert(full[i] == ".."@);
            assert(full.take(root.len() as int)[i] == full[i]);
        }
    }
}

// ----- resolving twice -----

/// A component of a resolved path: not empty, not `.`, without `/`.
pub open spec fn good_seg(x: Seq<char>) -> bool {
    x.len() > 0 && x != "."@ && !x.contains('/')
}

proof fn lemma_split_no_sep(x: Seq<char>, sep: char)
    requires
        !x.contains(sep),
    ensures
        split_on(x, sep) == seq![x],
{
    crate::text::lemma_find_char_props(x, sep);
    if let Some(i) = find_char(x, sep) {
        assert(x.contains(sep)) by {
            assert(x[i] == sep);
        }
    }
}

proof fn lemma_split_at_first(x: Seq<char>, sep: char, y: Seq<char>)
    requires
        !x.contains(sep),
    ensures
        split_on(x + seq![sep] + y, sep) == seq![x] + split_on(y, sep),
{
    let s = x + seq![sep] + y;
    crate::text::lemma_find_char_props(s, sep);
    assert(s[x.len() as int] == sep);
    match find_char(s, sep) {
        Some(i) => {
            if i < x.len() {
                assert(x[i] == s[i]);
                assert(x.contains(sep));
            }
            assert(i == x.len());
            assert(s.take(i) =~= x);
            assert(s.skip(i + 1) =~= y);
        },
        None => {},
    }
}

/// Splitting around a separator splits each side.
proof fn lemma_split_concat(a: Seq<char>, sep: char, b: Seq<char>)
    ensures
        split_on(a + seq![sep] + b, sep) == split_on(a, sep) + split_on(b, sep),
    decreases a.len(),
{
    if !a.contains(sep) {
        lemma_split_at_first(a, sep, b);
        lemma_split_no_sep(a, sep);
    } else {
        crate::text::lemma_find_char_props(a, sep);
        let i = find_char(a, sep)->0;
        let a1 = a.take(i);
        let a2 = a.skip(i + 1);
        assert(!a1.contains(sep)) by {
            if a1.contains(sep) {
                let j = choose|j: int| 0 <= j < a1.len() && a1[j] == sep;
                assert(a[j] == sep);
            }
        }
        assert(a =~= a1 + seq![sep] + a2);
        lemma_split_at_first(a1, sep, a2);
        lemma_split_at_first(a1, sep, a2 + seq![sep] + b);
        assert(a + seq![sep] + b =~= a1 + seq![sep] + (a2 + seq![sep] + b));
        lemma_split_concat(a2, sep, b);
        assert(seq![a1] + (split_on(a2, sep) + split_on(b, sep)) =~= (seq![a1] + split_on(a2, sep)) + split_on(b, sep));
    }
}

/// The pieces of a split hold no separator.
proof fn lemma_split_pieces(s: Seq<char>, sep: char)
    ensures
        forall|k: int| 0 <= k < split_on(s, sep).len() ==> !(#[trigger] split_on(s, sep)[k]).contains(sep),
    decreases s.len(),
{
    crate::text::lemma_find_char_props(s, sep);
    match find_char(s, sep) {
        Some(i) => {
            let head = s.take(i);
            lemma_split_pieces(s.skip(i + 1), sep);
            assert(!head.contains(sep)) by {
                if head.contains(sep) {
                    let j = choose|j: int| 0 <= j < head.len() && head[j] == sep;
                    assert(s[j] == sep);
                }
            }
            let r = split_on(s, sep);
            assert forall|k: int| 0 <= k < r.len() implies !(#[trigger] r[k]).contains(sep) by {
                if k > 0 {
                    assert(r[k] == split_on(s.skip(i + 1), sep)[k - 1]);
                }
            }
        },
        None => {
            assert(!s.contains(sep)) by {
                if s.contains(sep) {
                    let j = choose|j: int| 0 <= j < s.len() && s[j] == sep;
                }
            }
        },
    }
}

proof fn lemma_named_parts_good(parts: Seq<Seq<char>>)
    requires
        forall|k: int| 0 <= k < parts.len() ==> !(#[trigger] parts[k]).contains('/'),
    ensures
        forall|k: int| 0 <= k < named_parts(parts).len() ==> good_seg(#[trigger] named_parts(parts)[k]),
    decreases parts.len(),
{
    if parts.len() > 0 {
        let init = parts.drop_last();
        assert forall|k: int| 0 <= k < init.len() implies !(#[trigger] init[k]).contains('/') by {
            assert(init[k] == parts[k]);
        }
        lemma_named_parts_good(init);
        let r = named_parts(parts);
        let ri = named_parts(init);
        let x = parts.last();
        if !(x.len() == 0 || x == "."@) {
            assert forall|k: int| 0 <= k < r.len() implies good_seg(#[trigger] r[k]) by {
                if k < ri.len() {
                    assert(r[k] == ri[k]);
                }
            }
        }
    }
}

proof fn lemma_named_parts_fixed(segs: Seq<Seq<char>>)
    requires
        forall|k: int| 0 <= k < segs.len() ==> good_seg(#[trigger] segs[k]),
    ensures
        named_parts(segs) == segs,
    decreases segs.len(),
{
    if segs.len() > 0 {
        let init = segs.drop_last();
        assert forall|k: int| 0 <= k < init.len() implies good_seg(#[trigger] init[k]) by {
            assert(init[k] == segs[k]);
        }
        lemma_named_parts_fixed(init);
        assert(good_seg(segs.last()));
        assert(init.push(segs.last()) =~= segs);
    }
}

proof fn lemma_named_parts_concat(a: Seq<Seq<char>>, b: Seq<Seq<char>>)
    ensures
        named_parts(a + b) == named_parts(a) + named_parts(b),
    decreases b.len(),
{
    if b.len() == 0 {
        assert(a + b =~= a);
        assert(named_parts(a) + named_parts(b) =~= named_parts(a));
    } else {
        assert((a + b).drop_last() =~= a + b.drop_last());
        assert((a + b).last() == b.last());
        lemma_named_parts_concat(a, b.drop_last());
        let x = b.last();
        if !(x.len() == 0 || x == "."@) {
            assert((named_parts(a) + named_parts(b.drop_last())).push(x) =~= named_parts(a) + named_parts(b.drop_last()).push(x));
        }
    }
}

proof fn lemma_norm_good(abs: bool, segs: Seq<Seq<char>>)
    requires
        forall|k: int| 0 <= k < segs.len() ==> good_seg(#[trigger] segs[k]),
    ensures
        forall|k: int| 0 <= k < norm_segs(abs, segs).len() ==> good_seg(#[trigger] norm_segs(abs, segs)[k]),
    decreases segs.len(),
{
    if segs.len() > 0 {
        let init = segs.drop_last();
        assert forall|k: int| 0 <= k < init.len() implies good_seg(#[trigger] init[k]) by {
            assert(init[k] == segs[k]);
        }
        lemma_norm_good(abs, init);
        let st = norm_segs(abs, init);
        let x = segs.last();
        assert(good_seg(x));
        let r = norm_segs(abs, segs);
        assert forall|k: int| 0 <= k < r.len() implies good_seg(#[trigger] r[k]) by {
            if x == ".."@ && st.len() > 0 && st.last() != ".."@ {
                assert(r[k] == st[k]);
            } else if x == ".."@ && abs {
                assert(r[k] == st[k]);
            } else if k < st.len() {
                assert(r[k] == st[k]);
            }
        }
    }
}

proof fn lemma_norm_fixed(abs: bool, segs: Seq<Seq<char>>)
    requires
        ups_leading(segs),
        abs ==> no_ups(segs),
    ensures
        norm_segs(abs, segs) == segs,
    decreases segs.len(),
{
    if segs.len() > 0 {
        let init = segs.drop_last();
        assert forall|i: int, j: int| 0 <= i < j < init.len() && #[trigger] init[j] == ".."@ implies #[trigger] init[i] == ".."@ by {
            assert(init[j] == segs[j] && init[i] == segs[i]);
        }
        if abs {
            assert forall|k: int| 0 <= k < init.len() implies #[trigger] init[k] != ".."@ by {
                assert(init[k] == segs[k]);
            }
        }
        lemma_norm_fixed(abs, init);
        let x = segs.last();
        if abs {
            assert(segs[segs.len() - 1] != ".."@);
        }
        if x == ".."@ && init.len() > 0 {
            assert(segs[init.len() - 1] == init.last());
            assert(segs[segs.len() - 1] == ".."@);
        }
        assert(init.push(x) =~= segs);
    }
}

proof fn lemma_split_join(segs: Seq<Seq<char>>)
    requires
        forall|k: int| 0 <= k < segs.len() ==> good_seg(#[trigger] segs[k]),
    ensures
        segs.len() > 0 ==> split_on(join_segs(segs), '/') == segs,
        segs.len() > 0 ==> join_segs(segs).len() > 0 && join_segs(segs)[0] == segs[0][0],
    decreases segs.len(),
{
    if segs.len() == 1 {
        lemma_split_no_sep(segs[0], '/');
        assert(seq![segs[0]] =~= segs);
    } else if segs.len() > 1 {
        let init = segs.drop_last();
        assert forall|k: int| 0 <= k < init.len() implies good_seg(#[trigger] init[k]) by {
            assert(init[k] == segs[k]);
        }
        lemma_split_join(init);
        lemma_split_concat(join_segs(init), '/', segs.last());
        lemma_split_no_sep(segs.last(), '/');
        assert(init + seq![segs.last()] =~= segs);
        assert(init[0] == segs[0]);
    }
}

proof fn lemma_named_parts_empties()
    ensures
        named_parts(seq![Seq::<char>::empty()]) == Seq::<Seq<char>>::empty(),
        named_parts(seq![Seq::<char>::empty(), Seq::<char>::empty()]) == Seq::<Seq<char>>::empty(),
{
    let e = Seq::<char>::empty();
    assert(seq![e].drop_last() =~= Seq::<Seq<char>>::empty());
    assert(seq![e].last() == e);
    assert(named_parts(seq![e]) == named_parts(Seq::<Seq<char>>::empty()));
    assert(seq![e, e].drop_last() =~= seq![e]);
    assert(seq![e, e].last() == e);
}

/// Resolving `.` and `..` a second time changes nothing: a resolved path is in normal
/// form.
pub proof fn lemma_normalize_idempotent(p: Seq<char>)
    ensures
        normalized(normalized(p)) == normalized(p),
{
    let abs = is_abs(p);
    lemma_split_pieces(p, '/');
    lemma_named_parts_good(split_on(p, '/'));
    let segs = path_segs(p);
    lemma_norm_good(abs, segs);
    lemma_norm_ups_leading(abs, segs);
    let n = norm_segs(abs, segs);
    lemma_norm_fixed(abs, n);
    lemma_split_join(n);
    let r = render(abs, n);
    assert(r == normalized(p));
    reveal_strlit(".");
    lemma_named_parts_empties();
    if n.len() == 0 {
        if abs {
            assert(r =~= seq!['/']);
            lemma_split_concat(seq![], '/', seq![]);
            assert(seq![] + seq!['/'] + Seq::<char>::empty() =~= r);
            lemma_split_no_sep(seq![], '/');
            assert(split_on(r, '/') =~= seq![Seq::<char>::empty(), Seq::<char>::empty()]);
            assert(named_parts(seq![Seq::<char>::empty(), Seq::<char>::empty()]).len() == 0);
            assert(path_segs(r) =~= n);
        } else {
            assert(r =~= Seq::<char>::empty());
            lemma_split_no_sep(r, '/');
            assert(named_parts(seq![Seq::<char>::empty()]) =~= Seq::<Seq<char>>::empty());
            assert(path_segs(r) =~= n);
        }
    } else {
        assert(good_seg(n[0]));
        if abs {
            lemma_split_concat(seq![], '/', join_segs(n));
            assert(seq![] + seq!['/'] + join_segs(n) =~= r);
            lemma_split_no_sep(seq![], '/');
            lemma_named_parts_concat(seq![Seq::<char>::empty()], n);
            assert(named_parts(seq![Seq::<char>::empty()]) =~= Seq::<Seq<char>>::empty());
            lemma_named_parts_fixed(n);
            assert(seq![Seq::<char>::empty()] + n == split_on(r, '/'));
            assert(path_segs(r) =~= n);
            assert(is_abs(r));
        } else {
            lemma_named_parts_fixed(n);
            assert(path_segs(r) == n);
            assert(r[0] == n[0][0]);
            assert(n[0].contains(n[0][0])) by {
                assert(n[0][0] == n[0][0]);
            }
            assert(!is_abs(r));
        }
    }
}

} // verus!
