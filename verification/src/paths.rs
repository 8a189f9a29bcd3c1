//! Service settings and the path rules: host paths are mapped into the
//! container, only paths under the container root are accepted, and status
//! URLs that point at the local host are sent to the N8N server instead.
use vstd::prelude::*;
use vstd::string::StringExecFns;
use crate::text::{
    chars_of, concat2, contains_chars, contains_spec, decimal, push_chars, push_decimal, push_str, replace_chars,
    replace_spec, seq_eq, starts_with_chars, starts_with_spec, string_of,
};

verus! {

/// Settings of the service (without the detection thresholds, which the
/// service keeps next to them).
#[derive(Clone, Debug)]
pub struct Config {
    pub n8n_ip: String,
    pub n8n_port: u16,
    pub completion_webhook: String,
    pub media_host_path: String,
    pub container_root: String,
    pub models_path: String,
    pub centerface_model: String,
    pub detection_interval: u32,
    pub plate_grid: i32,
    pub frame_buffer: usize,
}

/// The completion webhook of the N8N server at `ip`:`port`, or "" without a server.
pub open spec fn completion_webhook_spec(ip: Seq<char>, port: nat) -> Seq<char> {
    if ip.len() == 0 {
        Seq::empty()
    } else {
        "http://"@ + ip + ":"@ + decimal(port) + "/webhook/blur-done"@
    }
}

/// The completion webhook URL for an N8N server at `ip`:`port`.
pub fn completion_webhook_for(ip: &str, port: u16) -> (r: String)
    ensures
        r@ == completion_webhook_spec(ip@, port as nat),
{
    if ip.is_empty() {
        return String::new();
    }
    let mut r = String::from_str("http://");
    push_str(&mut r, ip);
    push_str(&mut r, ":");
    push_decimal(&mut r, port as u64);
    push_str(&mut r, "/webhook/blur-done");
    assert(r@ =~= completion_webhook_spec(ip@, port as nat));
    r
}

/// A host path under `host` is rewritten to the same path under `root`;
/// other paths are kept.
pub open spec fn remap_spec(path: Seq<char>, host: Seq<char>, root: Seq<char>) -> Seq<char> {
    if starts_with_spec(path, host) {
        root + path.subrange(host.len() as int, path.len() as int)
    } else {
        path
    }
}

/// Maps a path of the media host into the container.
pub fn remap(path: &str, cfg: &Config) -> (r: String)
    ensures
        r@ == remap_spec(path@, cfg.media_host_path@, cfg.container_root@),
{
    let p = chars_of(path);
    let host = chars_of(cfg.media_host_path.as_str());
    if starts_with_chars(p.as_slice(), host.as_slice()) {
        let mut r = String::from_str(cfg.container_root.as_str());
        let mut i: usize = host.len();
        let ghost r0 = r@;
        while i < p.len()
            invariant
                host@.len() <= i <= p@.len(),
                r@ == r0 + p@.subrange(host@.len() as int, i as int),
            decreases p@.len() - i,
        {
            crate::text::push_char(&mut r, p[i]);
            proof {
                assert(p@.subrange(host@.len() as int, i + 1) =~= p@.subrange(host@.len() as int, i as int).push(
                    p@[i as int],
                ));
            }
            i = i + 1;
        }
        r
    } else {
        String::from_str(path)
    }
}

/// A path of the media host is mapped under the container root, keeping
/// its part below the host path; any other path is kept as it is.
pub proof fn law_remap_into_root(path: Seq<char>, host: Seq<char>, root: Seq<char>)
    ensures
        starts_with_spec(path, host) ==> starts_with_spec(remap_spec(path, host, root), root) && remap_spec(
            path,
            host,
            root,
        ).subrange(root.len() as int, remap_spec(path, host, root).len() as int) == path.subrange(
            host.len() as int,
            path.len() as int,
        ),
        !starts_with_spec(path, host) ==> remap_spec(path, host, root) == path,
{
    if starts_with_spec(path, host) {
        let r = remap_spec(path, host, root);
        assert(r.subrange(0, root.len() as int) =~= root);
        assert(r.subrange(root.len() as int, r.len() as int) =~= path.subrange(host.len() as int, path.len() as int));
    }
}

/// Status URLs on the local host ("127.0.0.1" or "localhost") go to the N8N
/// server `ip` where one is set.
pub open spec fn fix_status_url_spec(url: Seq<char>, ip: Seq<char>) -> Seq<char> {
    if url.len() == 0 {
        Seq::empty()
    } else if (contains_spec(url, "127.0.0.1"@) || contains_spec(url, "localhost"@)) && ip.len() > 0 {
        replace_spec(replace_spec(url, "127.0.0.1"@, ip), "localhost"@, ip)
    } else {
        url
    }
}

/// Points a local status URL at the N8N server.
pub fn fix_status_url(url: &str, cfg: &Config) -> (r: String)
    ensures
        r@ == fix_status_url_spec(url@, cfg.n8n_ip@),
{
    if url.is_empty() {
        return String::new();
    }
    let u = chars_of(url);
    let lo = chars_of("127.0.0.1");
    let lh = chars_of("localhost");
    proof {
        reveal_strlit("127.0.0.1");
        reveal_strlit("localhost");
    }
    if contains_chars(u.as_slice(), lo.as_slice()) || contains_chars(u.as_slice(), lh.as_slice()) {
        if !cfg.n8n_ip.as_str().is_empty() {
            let ip = chars_of(cfg.n8n_ip.as_str());
            let a = replace_chars(u.as_slice(), lo.as_slice(), ip.as_slice());
            let b = replace_chars(a.as_slice(), lh.as_slice(), ip.as_slice());
            return string_of(b.as_slice());
        }
    }
    String::from_str(url)
}

/// A path segment that names something: not empty and not ".".
pub open spec fn is_named(c: Seq<char>) -> bool {
    c.len() > 0 && c != seq!['.']
}

/// The named segments among the first `n` characters of `s` that are
/// complete (followed by '/'), and the segment still being read.
pub open spec fn scan_segments(s: Seq<char>, n: nat) -> (Seq<Seq<char>>, Seq<char>)
    decreases n,
{
    if n == 0 || n > s.len() {
        (Seq::empty(), Seq::empty())
    } else {
        let (done, cur) = scan_segments(s, (n - 1) as nat);
        if s[n - 1] == '/' {
            (if is_named(cur) {
                done.push(cur)
            } else {
                done
            }, Seq::empty())
        } else {
            (done, cur.push(s[n - 1]))
        }
    }
}

/// The named segments of `s`, in order.
pub open spec fn named_segments(s: Seq<char>) -> Seq<Seq<char>> {
    let (done, cur) = scan_segments(s, s.len());
    if is_named(cur) {
        done.push(cur)
    } else {
        done
    }
}

/// The components of a path as `std::path::Path` reads it on Unix: "/" for
/// the root, "." for a leading current directory, then the named segments.
pub open spec fn components_spec(s: Seq<char>) -> Seq<Seq<char>> {
    if s.len() > 0 && s[0] == '/' {
        seq![seq!['/']] + named_segments(s)
    } else if s == seq!['.'] || (s.len() >= 2 && s[0] == '.' && s[1] == '/') {
        seq![seq!['.']] + named_segments(s)
    } else {
        named_segments(s)
    }
}

/// The character sequences held by `v`.
pub open spec fn parts_view(v: Seq<Vec<char>>) -> Seq<Seq<char>> {
    v.map_values(|x: Vec<char>| x@)
}

/// The named segments of `s`.
fn named_segments_exec(s: &[char]) -> (r: Vec<Vec<char>>)
    ensures
        parts_view(r@) == named_segments(s@),
{
    let mut done: Vec<Vec<char>> = Vec::new();
    let mut cur: Vec<char> = Vec::new();
    let mut i: usize = 0;
    while i < s.len()
        invariant
            i <= s@.len(),
            (parts_view(done@), cur@) == scan_segments(s@, i as nat),
        decreases s@.len() - i,
    {
        let c = s[i];
        if c == '/' {
            if cur.len() > 0 && !(cur.len() == 1 && cur[0] == '.') {
                proof {
                    assert(is_named(cur@)) by {
                        if cur@ == seq!['.'] {
                            assert(cur@.len() == 1 && cur@[0] == '.');
                        }
                    }
                }
                let ghost d0 = parts_view(done@);
                let ghost cv = cur@;
                done.push(cur);
                proof {
                    assert(parts_view(done@) =~= d0.push(cv));
                }
            } else {
                proof {
                    assert(!is_named(cur@)) by {
                        if cur@.len() == 1 && cur@[0] == '.' {
                            assert(cur@ =~= seq!['.']);
                        }
                    }
                }
            }
            cur = Vec::new();
        } else {
            cur.push(c);
        }
        i = i + 1;
    }
    if cur.len() > 0 && !(cur.len() == 1 && cur[0] == '.') {
        proof {
            assert(is_named(cur@)) by {
                if cur@ == seq!['.'] {
                    assert(cur@.len() == 1 && cur@[0] == '.');
                }
            }
        }
        let ghost d0 = parts_view(done@);
        let ghost cv = cur@;
        done.push(cur);
        proof {
            assert(parts_view(done@) =~= d0.push(cv));
        }
    } else {
        proof {
            assert(!is_named(cur@)) by {
                if cur@.len() == 1 && cur@[0] == '.' {
                    assert(cur@ =~= seq!['.']);
                }
            }
        }
    }
    done
}

/// The components of the path `s`.
pub fn components(s: &[char]) -> (r: Vec<Vec<char>>)
    ensures
        parts_view(r@) == components_spec(s@),
{
    let named = named_segments_exec(s);
    let mut r: Vec<Vec<char>> = Vec::new();
    if s.len() > 0 && s[0] == '/' {
        let mut root: Vec<char> = Vec::new();
        root.push('/');
        r.push(root);
    } else if (s.len() == 1 && s[0] == '.') || (s.len() >= 2 && s[0] == '.' && s[1] == '/') {
        let mut cur: Vec<char> = Vec::new();
        cur.push('.');
        r.push(cur);
        proof {
            if s@.len() == 1 {
                assert(s@ =~= seq!['.']);
            }
        }
    } else {
        proof {
            if s@ == seq!['.'] {
                assert(s@.len() == 1 && s@[0] == '.');
            }
        }
    }
    let ghost r0 = parts_view(r@);
    let ghost nv = parts_view(named@);
    let mut i: usize = 0;
    while i < named.len()
        invariant
            i <= nv.len(),
            nv == parts_view(named@),
            nv == named_segments(s@),
            parts_view(r@) == r0 + nv.take(i as int),
        decreases nv.len() - i,
    {
        let ghost before = parts_view(r@);
        let item = clone_chars(&named[i]);
        r.push(item);
        proof {
            assert(parts_view(r@) =~= before.push(nv[i as int]));
            assert(nv.take(i as int + 1) =~= nv.take(i as int).push(nv[i as int]));
        }
        i = i + 1;
    }
    proof {
        assert(nv.take(nv.len() as int) =~= nv);
        if s@.len() > 0 && s@[0] == '/' {
            assert(r0 =~= seq![seq!['/']]);
        } else if s@ == seq!['.'] || (s@.len() >= 2 && s@[0] == '.' && s@[1] == '/') {
            assert(r0 =~= seq![seq!['.']]);
        } else {
            assert(r0 =~= Seq::<Seq<char>>::empty());
        }
    }
    assert(parts_view(r@) =~= components_spec(s@));
    r
}

/// A copy of `v`.
fn clone_chars(v: &Vec<char>) -> (r: Vec<char>)
    ensures
        r@ == v@,
{
    let mut r: Vec<char> = Vec::new();
    let mut i: usize = 0;
    while i < v.len()
        invariant
            i <= v@.len(),
            r@ == v@.take(i as int),
        decreases v@.len() - i,
    {
        r.push(v[i]);
        proof {
            assert(v@.take(i as int + 1) =~= v@.take(i as int).push(v@[i as int]));
        }
        i = i + 1;
    }
    assert(v@.take(v@.len() as int) =~= v@);
    r
}

/// `path` lies under `base`, component by component (as `Path::starts_with`).
pub open spec fn path_starts_with_spec(path: Seq<char>, base: Seq<char>) -> bool {
    let p = components_spec(path);
    let b = components_spec(base);
    b.len() <= p.len() && p.subrange(0, b.len() as int) == b
}

/// Whether `path` lies under `base`, component by component.
pub fn path_starts_with(path: &str, base: &str) -> (r: bool)
    ensures
        r == path_starts_with_spec(path@, base@),
{
    let pv = chars_of(path);
    let bv = chars_of(base);
    let p = components(pv.as_slice());
    let b = components(bv.as_slice());
    let ghost ps = parts_view(p@);
    let ghost bs = parts_view(b@);
    assert(ps == components_spec(path@));
    assert(bs == components_spec(base@));
    assert(ps.len() == p.len());
    assert(bs.len() == b.len());
    if b.len() > p.len() {
        return false;
    }
    let mut i: usize = 0;
    while i < b.len()
        invariant
            ps == parts_view(p@),
            bs == parts_view(b@),
            ps == components_spec(path@),
            bs == components_spec(base@),
            bs.len() <= ps.len(),
            i <= bs.len(),
            forall|j: int| 0 <= j < i ==> ps[j] == bs[j],
        decreases bs.len() - i,
    {
        if !seq_eq(p[i].as_slice(), b[i].as_slice()) {
            proof {
                assert(ps.subrange(0, bs.len() as int)[i as int] != bs[i as int]);
            }
            return false;
        }
        i = i + 1;
    }
    assert(ps.subrange(0, bs.len() as int) =~= bs);
    true
}

/// The last component of `path` if it names a file or directory, else "".
pub open spec fn file_name_spec(path: Seq<char>) -> Seq<char> {
    let c = components_spec(path);
    if c.len() == 0 {
        Seq::empty()
    } else {
        let last = c.last();
        if last == seq!['/'] || last == seq!['.'] || last == seq!['.', '.'] {
            Seq::empty()
        } else {
            last
        }
    }
}

/// The file name of `path` ("" where it has none), as `Path::file_name`.
pub fn file_name(path: &str) -> (r: String)
    ensures
        r@ == file_name_spec(path@),
{
    let pv = chars_of(path);
    let c = components(pv.as_slice());
    if c.len() == 0 {
        return String::new();
    }
    let last = &c[c.len() - 1];
    let is_root = last.len() == 1 && last[0] == '/';
    let is_cur = last.len() == 1 && last[0] == '.';
    let is_parent = last.len() == 2 && last[0] == '.' && last[1] == '.';
    proof {
        assert(parts_view(c@).last() == last@);
        assert(is_root == (last@ == seq!['/'])) by {
            if last@ == seq!['/'] {
                assert(last@.len() == 1);
            }
            if is_root {
                assert(last@ =~= seq!['/']);
            }
        }
        assert(is_cur == (last@ == seq!['.'])) by {
            if last@ == seq!['.'] {
                assert(last@.len() == 1);
            }
            if is_cur {
                assert(last@ =~= seq!['.']);
            }
        }
        assert(is_parent == (last@ == seq!['.', '.'])) by {
            if last@ == seq!['.', '.'] {
                assert(last@.len() == 2);
            }
            if is_parent {
                assert(last@ =~= seq!['.', '.']);
            }
        }
    }
    if is_root || is_cur || is_parent {
        String::new()
    } else {
        string_of(last.as_slice())
    }
}

/// A path is accepted when it lies under the container root: its resolved
/// form under the resolved root (component by component), or the path as
/// given starting with the root's text.
pub open spec fn path_allowed(path: Seq<char>, resolved: Seq<char>, resolved_root: Seq<char>, root: Seq<char>) -> bool {
    path_starts_with_spec(resolved, resolved_root) || starts_with_spec(path, root)
}

/// The error text for a path outside the container root.
pub open spec fn outside_root_message(path: Seq<char>, root: Seq<char>) -> Seq<char> {
    "Pfad außerhalb von "@ + root + ": "@ + path
}

/// Accepts `path` when it lies under the container root. `resolved` is the
/// path with links and dots resolved (or the path itself where that fails),
/// `resolved_root` the same for the root.
pub fn validate_data_path(path: &str, resolved: &str, resolved_root: &str, cfg: &Config) -> (r: Result<
    String,
    String,
>)
    ensures
        r matches Ok(p) ==> p@ == path@ && path_allowed(path@, resolved@, resolved_root@, cfg.container_root@),
        r matches Err(m) ==> m@ == outside_root_message(path@, cfg.container_root@) && !path_allowed(
            path@,
            resolved@,
            resolved_root@,
            cfg.container_root@,
        ),
{
    let pv = chars_of(path);
    let root = chars_of(cfg.container_root.as_str());
    if path_starts_with(resolved, resolved_root) || starts_with_chars(pv.as_slice(), root.as_slice()) {
        Ok(String::from_str(path))
    } else {
        let mut m = String::from_str("Pfad außerhalb von ");
        push_str(&mut m, cfg.container_root.as_str());
        push_str(&mut m, ": ");
        push_str(&mut m, path);
        Err(m)
    }
}

} // verus!
