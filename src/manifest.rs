//! Substituting the table path into a deployment manifest, and the other
//! decisions of installing and removing the daemon.

use vstd::prelude::*;
use vstd::string::*;
use crate::locator::{first_hit, lemma_first_hit_prefix};
use crate::text::{chars_of, has_prefix, is_lit, is_whitespace, split_on, string_from_chars, strip_key, ws_end};

verus! {

pub open spec fn strip_cr(l: Seq<char>) -> Seq<char> {
    if l.len() > 0 && l.last() == '\r' {
        l.drop_last()
    } else {
        l
    }
}

pub open spec fn stripped(ls: Seq<Seq<char>>) -> Seq<Seq<char>> {
    ls.map_values(|l: Seq<char>| strip_cr(l))
}

/// The lines of `s` as `str::lines` gives them: each line that a `'\n'` ends
/// loses that newline and one `'\r'` before it; a last line without newline
/// counts only when it is not empty.
pub open spec fn lines_of(s: Seq<char>) -> Seq<Seq<char>> {
    let p = split_on(s, '\n');
    let ended = stripped(p.drop_last());
    if p.last().len() == 0 {
        ended
    } else {
        ended.push(p.last())
    }
}

/// The lines joined with `'\n'` between them.
pub open spec fn join_lines(ls: Seq<Seq<char>>) -> Seq<char>
    decreases ls.len(),
{
    if ls.len() == 0 {
        seq![]
    } else if ls.len() == 1 {
        ls[0]
    } else {
        join_lines(ls.drop_last()).push('\n') + ls.last()
    }
}

/// `l` without its leading whitespace.
pub open spec fn trim_start(l: Seq<char>) -> Seq<char> {
    l.skip(ws_end(l, 0))
}

/// `pat` occurs in `s`.
pub open spec fn occurs(s: Seq<char>, pat: Seq<char>) -> bool {
    exists|i: int| 0 <= i && i + pat.len() <= s.len() && #[trigger] s.subrange(i, i + pat.len()) == pat
}

/// The line that names the table path's variable.
pub open spec fn is_name_line(l: Seq<char>) -> bool {
    has_prefix(trim_start(l), "name:"@) && occurs(trim_start(l), "CONNTRACK_PATH"@)
}

pub open spec fn is_value_line(l: Seq<char>) -> bool {
    has_prefix(trim_start(l), "value:"@)
}

/// The end of the window of lines that follow line `i` and may carry its value.
pub open spec fn window_end(n: int, i: int) -> int {
    if i + 6 < n {
        i + 6
    } else {
        n
    }
}

pub open spec fn value_flags(ls: Seq<Seq<char>>, i: int) -> Seq<bool> {
    Seq::new((window_end(ls.len() as int, i) - (i + 1)) as nat, |k: int| is_value_line(ls[i + 1 + k]))
}

pub open spec fn target_flags(ls: Seq<Seq<char>>) -> Seq<bool> {
    Seq::new(ls.len(), |i: int| is_name_line(ls[i]) && value_after(ls, i) is Some)
}

/// The first value line among the five lines that follow line `i`.
pub open spec fn value_after(ls: Seq<Seq<char>>, i: int) -> Option<int> {
    match first_hit(value_flags(ls, i)) {
        Some(k) => Some(i + 1 + k),
        None => None,
    }
}

/// The first name line that has a value line after it.
pub open spec fn target_line(ls: Seq<Seq<char>>) -> Option<int> {
    first_hit(target_flags(ls))
}

/// The quote that the value already uses: a single quote where it starts with
/// one, else a double quote.
pub open spec fn quote_of(rest: Seq<char>) -> char {
    if rest.len() > 0 && rest[0] == '\'' {
        '\''
    } else {
        '"'
    }
}

/// A value line rewritten to carry `ct`, keeping its indentation and quote.
pub open spec fn set_value_line(l: Seq<char>, ct: Seq<char>) -> Seq<char> {
    let indent = l.take(ws_end(l, 0));
    let rest = trim_start(trim_start(l).skip(6));
    let q = quote_of(rest);
    indent + "value: "@ + seq![q] + ct + seq![q]
}

/// `s` with every occurrence of `a` or of `b` replaced by `rep`, in one pass
/// from left to right: at each position `a` is tried first, then `b`, and
/// the text put in is never scanned again.
pub open spec fn replace_either(s: Seq<char>, a: Seq<char>, b: Seq<char>, rep: Seq<char>) -> Seq<char>
    decreases s.len(),
{
    if s.len() == 0 {
        s
    } else if a.len() > 0 && has_prefix(s, a) {
        rep + replace_either(s.skip(a.len() as int), a, b, rep)
    } else if b.len() > 0 && has_prefix(s, b) {
        rep + replace_either(s.skip(b.len() as int), a, b, rep)
    } else {
        seq![s[0]] + replace_either(s.drop_first(), a, b, rep)
    }
}

/// The manifest with the table path set to `ct`: the value line of the first
/// table-path variable that has one within five lines is rewritten; where
/// there is none, every occurrence of either standard table path is replaced
/// by `ct` in a single pass.
pub open spec fn updated_manifest(m: Seq<char>, ct: Seq<char>) -> Seq<char> {
    let ls = lines_of(m);
    match target_line(ls) {
        Some(i) => {
            let j = value_after(ls, i)->0;
            join_lines(ls.update(j, set_value_line(ls[j], ct)))
        },
        None => replace_either(m, "/host/proc/net/nf_conntrack"@, "/proc/net/nf_conntrack"@, ct),
    }
}

pub open spec fn line_views(v: Seq<Vec<char>>) -> Seq<Seq<char>> {
    v.map_values(|l: Vec<char>| l@)
}

fn push_all(out: &mut Vec<char>, src: &Vec<char>, from: usize, to: usize)
    requires
        from <= to <= src@.len(),
    ensures
        final(out)@ == old(out)@ + src@.subrange(from as int, to as int),
{
    let ghost start = out@;
    let mut k: usize = from;
    while k < to
        invariant
            from <= k <= to,
            to <= src@.len(),
            out@ == start + src@.subrange(from as int, k as int),
        decreases to - k,
    {
        out.push(src[k]);
        k = k + 1;
        assert(out@ =~= start + src@.subrange(from as int, k as int));
    }
}

fn skip_chars(v: &Vec<char>, n: usize) -> (r: Vec<char>)
    requires
        n <= v@.len(),
    ensures
        r@ == v@.skip(n as int),
{
    let mut r: Vec<char> = Vec::new();
    push_all(&mut r, v, n, v.len());
    assert(r@ =~= v@.skip(n as int));
    r
}

/// The length of the leading run of whitespace.
fn ws_prefix(l: &Vec<char>) -> (r: usize)
    ensures
        r == ws_end(l@, 0),
        r <= l@.len(),
{
    let mut i: usize = 0;
    while i < l.len()
        invariant
            i <= l@.len(),
            ws_end(l@, i as int) == ws_end(l@, 0),
        decreases l@.len() - i,
    {
        if !is_whitespace(l[i]) {
            return i;
        }
        i = i + 1;
    }
    i
}

/// Whether `pat` occurs in `s` starting at `i`.
fn matches_at(s: &Vec<char>, i: usize, pat: &Vec<char>) -> (r: bool)
    requires
        i + pat@.len() <= s@.len(),
    ensures
        r == (s@.subrange(i as int, i + pat@.len()) == pat@),
{
    let sl = s.len();
    let mut k: usize = 0;
    while k < pat.len()
        invariant
            sl == s@.len(),
            k <= pat@.len(),
            i + pat@.len() <= s@.len(),
            forall|m: int| 0 <= m < k ==> s@[i + m] == pat@[m],
        decreases pat@.len() - k,
    {
        assert(i + k < s@.len());
        if s[i + k] != pat[k] {
            assert(s@.subrange(i as int, i + pat@.len())[k as int] != pat@[k as int]);
            return false;
        }
        k = k + 1;
    }
    assert(s@.subrange(i as int, i + pat@.len()) =~= pat@);
    true
}

fn occurs_in(s: &Vec<char>, pat: &Vec<char>) -> (r: bool)
    ensures
        r == occurs(s@, pat@),
{
    if pat.len() > s.len() {
        return false;
    }
    let last = s.len() - pat.len();
    let mut i: usize = 0;
    while i <= last
        invariant
            last == s@.len() - pat@.len(),
            pat@.len() <= s@.len(),
            forall|k: int| 0 <= k < i ==> #[trigger] s@.subrange(k, k + pat@.len()) != pat@,
        decreases last + 1 - i,
    {
        if matches_at(s, i, pat) {
            return true;
        }
        if i == last {
            return false;
        }
        i = i + 1;
    }
    false
}

fn name_line(l: &Vec<char>) -> (r: bool)
    ensures
        r == is_name_line(l@),
{
    let t = skip_chars(l, ws_prefix(l));
    let key = chars_of("CONNTRACK_PATH");
    strip_key(&t, "name:").is_some() && occurs_in(&t, &key)
}

fn value_line(l: &Vec<char>) -> (r: bool)
    ensures
        r == is_value_line(l@),
{
    let t = skip_chars(l, ws_prefix(l));
    strip_key(&t, "value:").is_some()
}

fn rewrite_value_line(l: &Vec<char>, ct: &Vec<char>) -> (r: Vec<char>)
    requires
        is_value_line(l@),
    ensures
        r@ == set_value_line(l@, ct@),
{
    proof {
        reveal_strlit("value:");
    }
    let w = ws_prefix(l);
    let t = skip_chars(l, w);
    let after = skip_chars(&t, 6);
    let w2 = ws_prefix(&after);
    let q = if w2 < after.len() && after[w2] == '\'' {
        '\''
    } else {
        '"'
    };
    assert(after@.skip(w2 as int).len() > 0 ==> after@.skip(w2 as int)[0] == after@[w2 as int]);
    let mut out: Vec<char> = Vec::new();
    push_all(&mut out, l, 0, w);
    let lit = chars_of("value: ");
    push_all(&mut out, &lit, 0, lit.len());
    out.push(q);
    push_all(&mut out, ct, 0, ct.len());
    out.push(q);
    assert(l@.subrange(0, w as int) =~= l@.take(w as int));
    assert(lit@.subrange(0, lit@.len() as int) =~= lit@);
    assert(ct@.subrange(0, ct@.len() as int) =~= ct@);
    assert(out@ =~= set_value_line(l@, ct@));
    out
}

fn strip_cr_chars(l: Vec<char>) -> (r: Vec<char>)
    ensures
        r@ == strip_cr(l@),
{
    let mut l = l;
    if l.len() > 0 && l[l.len() - 1] == '\r' {
        l.pop();
    }
    l
}

/// Splits text into its lines, as `str::lines` does.
fn split_lines(s: &Vec<char>) -> (r: Vec<Vec<char>>)
    ensures
        line_views(r@) == lines_of(s@),
{
    let ghost mut raw: Seq<Seq<char>> = seq![];
    let mut out: Vec<Vec<char>> = Vec::new();
    let mut cur: Vec<char> = Vec::new();
    let mut i: usize = 0;
    while i < s.len()
        invariant
            i <= s@.len(),
            split_on(s@.take(i as int), '\n') == raw.push(cur@),
            line_views(out@) == stripped(raw),
        decreases s@.len() - i,
    {
        let c = s[i];
        assert(s@.take(i + 1).drop_last() =~= s@.take(i as int));
        if c == '\n' {
            let ghost old_out = out@;
            let ghost old_raw = raw;
            let ghost old_cur = cur@;
            proof {
                raw = raw.push(cur@);
            }
            let line = strip_cr_chars(cur);
            out.push(line);
            cur = Vec::new();
            assert(line_views(out@) =~= line_views(old_out).push(strip_cr(old_cur)));
            assert(stripped(raw) =~= stripped(old_raw).push(strip_cr(old_cur)));
        } else {
            let ghost old_cur = cur@;
            cur.push(c);
            assert(raw.push(old_cur).update(raw.len() as int, old_cur.push(c)) =~= raw.push(cur@));
        }
        i = i + 1;
    }
    assert(s@.take(i as int) =~= s@);
    assert(raw.push(cur@).drop_last() =~= raw);
    if cur.len() > 0 {
        let ghost old_out = out@;
        out.push(cur);
        assert(line_views(out@) =~= line_views(old_out).push(raw.push(cur@).last()));
    }
    out
}

fn join_all(ls: &Vec<Vec<char>>) -> (r: Vec<char>)
    ensures
        r@ == join_lines(line_views(ls@)),
{
    let ghost v = line_views(ls@);
    let mut out: Vec<char> = Vec::new();
    let mut k: usize = 0;
    while k < ls.len()
        invariant
            k <= ls@.len(),
            v == line_views(ls@),
            out@ == join_lines(v.take(k as int)),
        decreases ls@.len() - k,
    {
        if k > 0 {
            out.push('\n');
        }
        push_all(&mut out, &ls[k], 0, ls[k].len());
        assert(ls@[k as int]@.subrange(0, ls@[k as int]@.len() as int) =~= v[k as int]);
        assert(v.take(k + 1).drop_last() =~= v.take(k as int));
        assert(out@ =~= join_lines(v.take(k + 1)));
        k = k + 1;
    }
    assert(v.take(k as int) =~= v);
    out
}

/// `s` with each occurrence of `a` or `b` replaced by `rep`, in one pass.
fn replace_either_chars(s: &Vec<char>, a: &Vec<char>, b: &Vec<char>, rep: &Vec<char>) -> (r: Vec<char>)
    ensures
        r@ == replace_either(s@, a@, b@, rep@),
{
    let mut out: Vec<char> = Vec::new();
    let mut i: usize = 0;
    assert(s@.skip(0) =~= s@);
    assert(out@ + replace_either(s@, a@, b@, rep@) =~= replace_either(s@, a@, b@, rep@));
    while i < s.len()
        invariant
            i <= s@.len(),
            out@ + replace_either(s@.skip(i as int), a@, b@, rep@) == replace_either(s@, a@, b@, rep@),
        decreases s@.len() - i,
    {
        let ghost t = s@.skip(i as int);
        let ghost before = out@;
        let at_a = a.len() > 0 && s.len() - i >= a.len() && matches_at(s, i, a);
        let at_b = !at_a && b.len() > 0 && s.len() - i >= b.len() && matches_at(s, i, b);
        proof {
            if a@.len() <= t.len() {
                assert(t.take(a@.len() as int) =~= s@.subrange(i as int, i + a@.len()));
            }
            if b@.len() <= t.len() {
                assert(t.take(b@.len() as int) =~= s@.subrange(i as int, i + b@.len()));
            }
        }
        if at_a || at_b {
            let n = if at_a {
                a.len()
            } else {
                b.len()
            };
            assert(t.skip(n as int) =~= s@.skip(i + n));
            push_all(&mut out, rep, 0, rep.len());
            assert(rep@.subrange(0, rep@.len() as int) =~= rep@);
            assert((before + rep@) + replace_either(t.skip(n as int), a@, b@, rep@) =~= before + (rep@
                + replace_either(t.skip(n as int), a@, b@, rep@)));
            i = i + n;
        } else {
            assert(t.drop_first() =~= s@.skip(i + 1));
            out.push(s[i]);
            assert(before.push(s@[i as int]) + replace_either(t.drop_first(), a@, b@, rep@) =~= before
                + (seq![t[0]] + replace_either(t.drop_first(), a@, b@, rep@)));
            i = i + 1;
        }
    }
    assert(s@.skip(i as int) =~= seq![]);
    assert(out@ + seq![] =~= out@);
    out
}

/// Sets the table path in a manifest: rewrites the value line of the first
/// `CONNTRACK_PATH` variable that has one within five lines, keeping its
/// indentation and quote style; where there is none, replaces the standard
/// table paths throughout.
pub fn update_manifest_conntrack(manifest: &str, ct_repl: &str) -> (r: String)
    ensures
        r@ == updated_manifest(manifest@, ct_repl@),
{
    let m = chars_of(manifest);
    let ct = chars_of(ct_repl);
    let mut lines = split_lines(&m);
    let ghost ls = line_views(lines@);
    let n = lines.len();
    let mut i: usize = 0;
    while i < n
        invariant
            n == lines@.len(),
            ls == line_views(lines@),
            ls == lines_of(m@),
            m@ == manifest@,
            ct@ == ct_repl@,
            i <= n,
            first_hit(target_flags(ls).take(i as int)) is None,
        decreases n - i,
    {
        assert(target_flags(ls).take(i + 1).drop_last() =~= target_flags(ls).take(i as int));
        assert(ls[i as int] == lines@[i as int]@);
        if name_line(&lines[i]) {
            let end = if n - i > 6 {
                i + 6
            } else {
                n
            };
            let ghost vf = value_flags(ls, i as int);
            let mut j: usize = i + 1;
            while j < end
                invariant
                    n == lines@.len(),
                    ls == line_views(lines@),
                    i < n,
                    end as int == window_end(n as int, i as int),
                    vf == value_flags(ls, i as int),
                    ls == lines_of(m@),
                    m@ == manifest@,
                    ct@ == ct_repl@,
                    is_name_line(ls[i as int]),
                    first_hit(target_flags(ls).take(i as int)) is None,
                    i + 1 <= j,
                    j <= end || end < i + 1,
                    first_hit(vf.take(j - (i + 1))) is None,
                decreases end - j,
            {
                assert(vf.take(j - i).drop_last() =~= vf.take(j - (i + 1)));
                if value_line(&lines[j]) {
                    proof {
                        assert(first_hit(vf.take(j - i)) == Some(j - (i + 1)));
                        lemma_first_hit_prefix(vf, j - i);
                        assert(value_after(ls, i as int) == Some(j as int));
                        assert(ls.len() == n);
                        assert(target_flags(ls)[i as int]);
                        assert(target_flags(ls).take(i + 1).last() == target_flags(ls)[i as int]);
                        assert(target_flags(ls).take(i + 1).drop_last() =~= target_flags(ls).take(
                            i as int,
                        ));
                        assert(first_hit(target_flags(ls).take(i + 1)) == Some(i as int));
                        lemma_first_hit_prefix(target_flags(ls), i + 1);
                    }
                    let new_line = rewrite_value_line(&lines[j], &ct);
                    lines.set(j, new_line);
                    assert(line_views(lines@) =~= ls.update(j as int, set_value_line(ls[j as int], ct@)));
                    let joined = join_all(&lines);
                    return string_from_chars(&joined);
                }
                j = j + 1;
            }
            proof {
                if end >= i + 1 {
                    assert(vf.take(j - (i + 1)) =~= vf);
                } else {
                    assert(vf.len() == 0);
                }
            }
        }
        i = i + 1;
    }
    assert(target_flags(ls).take(i as int) =~= target_flags(ls));
    let host_path = chars_of("/host/proc/net/nf_conntrack");
    let proc_path = chars_of("/proc/net/nf_conntrack");
    let replaced = replace_either_chars(&m, &host_path, &proc_path, &ct);
    string_from_chars(&replaced)
}

/// The table path written into a manifest for a requested one: `"auto"`
/// stays, a path under `/proc/` is moved under the `/host` root, any other
/// is kept.
pub open spec fn replacement_spec(ct: Seq<char>) -> Seq<char> {
    if ct == "auto"@ {
        "auto"@
    } else if has_prefix(ct, "/proc/"@) {
        "/host"@ + ct
    } else {
        ct
    }
}

pub fn conntrack_replacement(ct: &str) -> (r: String)
    ensures
        r@ == replacement_spec(ct@),
{
    let cs = chars_of(ct);
    if is_lit(&cs, "auto") {
        String::from_str("auto")
    } else if strip_key(&cs, "/proc/").is_some() {
        String::from_str("/host").concat(ct)
    } else {
        String::from_str(ct)
    }
}

/// Where the manifest handed to the cluster tool comes from.
pub enum ManifestSource {
    /// The tool reads the file itself.
    File(String),
    /// The file is read, its table path set to `ct`, and the result piped in.
    RewrittenFile { path: String, ct: String },
    /// The bundled manifest is piped in, its table path set to `replacement`
    /// if given.
    Bundled { replacement: Option<String> },
}

/// Decides the manifest to submit from the optional file and the optional
/// table path override.
pub fn manifest_source(file: Option<&str>, conntrack: Option<&str>) -> (r: ManifestSource)
    ensures
        match (file, conntrack) {
            (Some(f), None) => r matches ManifestSource::File(p) && p@ == f@,
            (Some(f), Some(c)) => r matches ManifestSource::RewrittenFile { path, ct } && path@ == f@
                && ct@ == replacement_spec(c@),
            (None, Some(c)) => r matches ManifestSource::Bundled { replacement: Some(ct) } && ct@ == replacement_spec(c@),
            (None, None) => r matches ManifestSource::Bundled { replacement: None },
        },
{
    match (file, conntrack) {
        (Some(f), None) => ManifestSource::File(String::from_str(f)),
        (Some(f), Some(c)) => ManifestSource::RewrittenFile {
            path: String::from_str(f),
            ct: conntrack_replacement(c),
        },
        (None, Some(c)) => ManifestSource::Bundled { replacement: Some(conntrack_replacement(c)) },
        (None, None) => ManifestSource::Bundled { replacement: None },
    }
}

pub open spec fn args_spec(verb: Seq<char>, target: Seq<char>, namespace: Option<Seq<char>>) -> Seq<Seq<char>> {
    let base = seq![verb, "-f"@, target];
    match namespace {
        Some(ns) => base + seq!["-n"@, ns],
        None => base,
    }
}

pub open spec fn opt_view(o: Option<&str>) -> Option<Seq<char>> {
    match o {
        Some(s) => Some(s@),
        None => None,
    }
}

pub open spec fn arg_views(v: Seq<String>) -> Seq<Seq<char>> {
    v.map_values(|a: String| a@)
}

/// The cluster tool's arguments: `<verb> -f <target>`, then `-n <namespace>`
/// where one is given. A target of `-` reads the manifest from standard input.
pub fn kubectl_args(verb: &str, target: &str, namespace: Option<&str>) -> (r: Vec<String>)
    ensures
        arg_views(r@) == args_spec(verb@, target@, opt_view(namespace)),
{
    let mut r: Vec<String> = Vec::new();
    r.push(String::from_str(verb));
    r.push(String::from_str("-f"));
    r.push(String::from_str(target));
    match namespace {
        Some(ns) => {
            r.push(String::from_str("-n"));
            r.push(String::from_str(ns));
        },
        None => {},
    }
    assert(arg_views(r@) =~= args_spec(verb@, target@, opt_view(namespace)));
    r
}

} // verus!
