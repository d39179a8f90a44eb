//! Remote object keys, local file names and download URLs.

use vstd::prelude::*;
use vstd::string::StrSliceExecFns;
use vstd::string::StringExecFns;

verus! {

/// `s` with every run of `'/'` reduced to a single `'/'`.
pub open spec fn collapse(s: Seq<char>) -> Seq<char>
    decreases s.len(),
{
    if s.len() == 0 {
        Seq::empty()
    } else if s.len() >= 2 && s[0] == '/' && s[1] == '/' {
        collapse(s.skip(1))
    } else {
        seq![s[0]] + collapse(s.skip(1))
    }
}

/// No two `'/'` stand next to each other in `s`.
pub open spec fn no_double_slash(s: Seq<char>) -> bool {
    forall|i: int| 0 <= i < s.len() - 1 ==> !(#[trigger] s[i] == '/' && s[i + 1] == '/')
}

/// `s` without the leading `p`, or `s` itself where it does not start with `p`.
pub open spec fn strip_or_keep(s: Seq<char>, p: Seq<char>) -> Seq<char> {
    if p.is_prefix_of(s) {
        s.skip(p.len() as int)
    } else {
        s
    }
}

/// A destination prefix without one leading and one trailing `'/'`.
pub open spec fn trim_dest(d: Seq<char>) -> Seq<char> {
    let a = if d.len() > 0 && d[0] == '/' { d.skip(1) } else { d };
    if a.len() > 0 && a.last() == '/' { a.drop_last() } else { a }
}

/// The key of the file at `path` in a directory upload rooted at `root`:
/// the path itself without a destination prefix; with one, the trimmed
/// prefix, a `'/'` and the path relative to `root`, every run of separators
/// reduced to one.
pub open spec fn object_key_of(path: Seq<char>, root: Seq<char>, dest: Option<Seq<char>>) -> Seq<
    char,
> {
    match dest {
        None => path,
        Some(d) => collapse(trim_dest(d) + seq!['/'] + strip_or_keep(path, root)),
    }
}

/// The view of an optional string.
pub open spec fn opt_view(o: Option<String>) -> Option<Seq<char>> {
    match o {
        Some(s) => Some(s@),
        None => None,
    }
}

/// Collapsing works piecewise across a boundary that no `'/'` precedes.
pub proof fn lemma_collapse_append(a: Seq<char>, t: Seq<char>)
    requires
        a.len() == 0 || a.last() != '/',
    ensures
        collapse(a + t) == collapse(a) + collapse(t),
    decreases a.len(),
{
    if a.len() == 0 {
        assert(a + t =~= t);
        assert(collapse(a) =~= Seq::<char>::empty());
        assert(collapse(a) + collapse(t) =~= collapse(t));
    } else {
        assert((a + t).skip(1) =~= a.skip(1) + t);
        lemma_collapse_append(a.skip(1), t);
        if a.len() == 1 {
            assert(!(t.len() >= 1 && a[0] == '/' && t[0] == '/'));
        }
        if a.len() >= 2 && a[0] == '/' && a[1] == '/' {
            assert((a + t)[0] == '/' && (a + t)[1] == '/');
        } else {
            assert(!((a + t).len() >= 2 && (a + t)[0] == '/' && (a + t)[1] == '/'));
            assert(collapse(a + t) =~= seq![a[0]] + (collapse(a.skip(1)) + collapse(t)));
        }
    }
}

/// A doubled separator after a path piece collapses to the same text as a
/// single one: `"a//b"` and `"a/b"` give the same result.
pub proof fn lemma_collapse_double_slash(a: Seq<char>, b: Seq<char>)
    requires
        a.len() == 0 || a.last() != '/',
    ensures
        collapse(a + seq!['/', '/'] + b) == collapse(a + seq!['/'] + b),
{
    assert(a + seq!['/', '/'] + b =~= a + (seq!['/', '/'] + b));
    assert(a + seq!['/'] + b =~= a + (seq!['/'] + b));
    lemma_collapse_append(a, seq!['/', '/'] + b);
    lemma_collapse_append(a, seq!['/'] + b);
    assert((seq!['/', '/'] + b).skip(1) =~= seq!['/'] + b);
    assert(collapse(seq!['/', '/'] + b) == collapse(seq!['/'] + b));
}

/// Collapsing keeps the first character.
proof fn lemma_collapse_first(t: Seq<char>)
    requires
        t.len() > 0,
    ensures
        collapse(t).len() > 0,
        collapse(t)[0] == t[0],
    decreases t.len(),
{
    if t.len() >= 2 && t[0] == '/' && t[1] == '/' {
        lemma_collapse_first(t.skip(1));
    }
}

/// Collapsed text holds no doubled separator.
pub proof fn lemma_collapse_no_double(s: Seq<char>)
    ensures
        no_double_slash(collapse(s)),
    decreases s.len(),
{
    if s.len() > 0 {
        lemma_collapse_no_double(s.skip(1));
        if !(s.len() >= 2 && s[0] == '/' && s[1] == '/') {
            let c = collapse(s);
            let r = collapse(s.skip(1));
            assert(c == seq![s[0]] + r);
            if r.len() > 0 {
                lemma_collapse_first(s.skip(1));
            }
            assert forall|i: int| 0 <= i < c.len() - 1 implies !(#[trigger] c[i] == '/' && c[i
                + 1] == '/') by {
                if i > 0 {
                    assert(c[i] == r[i - 1]);
                    assert(c[i + 1] == r[i]);
                } else {
                    assert(c[1] == r[0]);
                }
            }
        }
    }
}

/// A directory upload's keys hold no doubled separator.
pub proof fn lemma_object_key_no_double(path: Seq<char>, root: Seq<char>, dest: Seq<char>)
    ensures
        no_double_slash(object_key_of(path, root, Some(dest))),
{
    lemma_collapse_no_double(trim_dest(dest) + seq!['/'] + strip_or_keep(path, root));
}

/// A directory upload's key begins with its destination prefix, trimmed and
/// collapsed, and a `'/'`, where the trimmed prefix does not end in `'/'`.
pub proof fn lemma_object_key_starts_with_dest(path: Seq<char>, root: Seq<char>, dest: Seq<char>)
    requires
        trim_dest(dest).len() == 0 || trim_dest(dest).last() != '/',
    ensures
        (collapse(trim_dest(dest)) + seq!['/']).is_prefix_of(
            object_key_of(path, root, Some(dest)),
        ),
{
    let t = trim_dest(dest);
    let rest = seq!['/'] + strip_or_keep(path, root);
    assert(t + seq!['/'] + strip_or_keep(path, root) =~= t + rest);
    lemma_collapse_append(t, rest);
    lemma_collapse_first(rest);
    let k = collapse(t) + collapse(rest);
    assert forall|i: int| 0 <= i < collapse(t).len() + 1 implies (collapse(t) + seq!['/'])[i]
        == #[trigger] k[i] by {
        if i == collapse(t).len() {
            assert(k[i] == collapse(rest)[0]);
        }
    }
}

/// The key of a file under the upload root does not change when a separator
/// inside its relative path is doubled: `root + "a//b"` and `root + "a/b"`
/// map to the same key.
pub proof fn lemma_object_key_double_slash(
    root: Seq<char>,
    dest: Seq<char>,
    a: Seq<char>,
    b: Seq<char>,
)
    requires
        a.len() > 0,
        a.last() != '/',
    ensures
        object_key_of(root + a + seq!['/', '/'] + b, root, Some(dest)) == object_key_of(
            root + a + seq!['/'] + b,
            root,
            Some(dest),
        ),
{
    let p2 = root + a + seq!['/', '/'] + b;
    let p1 = root + a + seq!['/'] + b;
    assert(root.is_prefix_of(p2));
    assert(root.is_prefix_of(p1));
    assert(p2.skip(root.len() as int) =~= a + seq!['/', '/'] + b);
    assert(p1.skip(root.len() as int) =~= a + seq!['/'] + b);
    let h = trim_dest(dest) + seq!['/'] + a;
    assert(trim_dest(dest) + seq!['/'] + (a + seq!['/', '/'] + b) =~= h + seq!['/', '/'] + b);
    assert(trim_dest(dest) + seq!['/'] + (a + seq!['/'] + b) =~= h + seq!['/'] + b);
    lemma_collapse_double_slash(h, b);
}

fn char_at(s: &str, i: usize) -> (c: char)
    requires
        i < s@.len(),
    ensures
        c == s@[i as int],
{
    s.get_char(i)
}

/// Reduces every run of `'/'` in `s` to a single `'/'`.
pub fn collapse_slashes(s: &str) -> (r: String)
    ensures
        r@ == collapse(s@),
{
    let n = s.unicode_len();
    let mut out = String::new();
    let mut i: usize = 0;
    proof {
        reveal_strlit("/");
        assert(s@.skip(0) =~= s@);
    }
    while i < n
        invariant
            n == s@.len(),
            i <= n,
            out@ + collapse(s@.skip(i as int)) == collapse(s@),
        decreases n - i,
    {
        let ghost t = s@.skip(i as int);
        let c = char_at(s, i);
        if c == '/' && i + 1 < n && char_at(s, i + 1) == '/' {
            proof {
                assert(t.skip(1) =~= s@.skip(i + 1));
            }
            i = i + 1;
        } else {
            let ghost before = out@;
            out.append(s.substring_char(i, i + 1));
            proof {
                assert(t.skip(1) =~= s@.skip(i + 1));
                assert(collapse(t) == seq![c] + collapse(s@.skip(i + 1)));
                assert(out@ =~= before + seq![c]);
                assert(out@ + collapse(s@.skip(i + 1)) =~= before + collapse(t));
            }
            i = i + 1;
        }
    }
    proof {
        assert(s@.skip(n as int) =~= Seq::<char>::empty());
        assert(out@ + Seq::<char>::empty() =~= out@);
    }
    out
}

/// Whether `s` starts with `p`.
pub fn starts_with(s: &str, p: &str) -> (r: bool)
    ensures
        r == p@.is_prefix_of(s@),
{
    let n = s.unicode_len();
    let m = p.unicode_len();
    if m > n {
        return false;
    }
    let mut j: usize = 0;
    while j < m
        invariant
            m == p@.len(),
            n == s@.len(),
            m <= n,
            j <= m,
            forall|k: int| 0 <= k < j ==> p@[k] == s@[k],
        decreases m - j,
    {
        if char_at(s, j) != char_at(p, j) {
            return false;
        }
        j = j + 1;
    }
    true
}

/// `s` without its leading `p`, or `s` unchanged where it does not start with `p`.
pub fn strip_prefix_or_keep(s: &str, p: &str) -> (r: String)
    ensures
        r@ == strip_or_keep(s@, p@),
{
    if starts_with(s, p) {
        String::from_str(s.substring_char(p.unicode_len(), s.unicode_len()))
    } else {
        String::from_str(s)
    }
}

/// Removes one leading and one trailing `'/'` from a destination prefix.
pub fn trim_destination(d: &str) -> (r: String)
    ensures
        r@ == trim_dest(d@),
{
    let n = d.unicode_len();
    let start: usize = if n > 0 && char_at(d, 0) == '/' { 1 } else { 0 };
    let end: usize = if n > start && char_at(d, n - 1) == '/' { n - 1 } else { n };
    let r = String::from_str(d.substring_char(start, end));
    proof {
        let a = if d@.len() > 0 && d@[0] == '/' { d@.skip(1) } else { d@ };
        assert(a =~= d@.subrange(start as int, n as int));
        if n > start && d@[n - 1] == '/' {
            assert(a.drop_last() =~= d@.subrange(start as int, end as int));
        } else {
            assert(a =~= d@.subrange(start as int, end as int));
        }
    }
    r
}

/// The remote key of the file at `path` when the directory `root` is
/// uploaded under the destination prefix `dest`.
pub fn object_key(path: &str, root: &str, dest: &Option<String>) -> (r: String)
    ensures
        r@ == object_key_of(path@, root@, opt_view(*dest)),
{
    match dest {
        None => {
            let r = String::from_str(path);
            assert(opt_view(*dest) == None::<Seq<char>>);
            r
        },
        Some(d) => {
            let mut joined = trim_destination(d.as_str());
            joined.append("/");
            let rel = strip_prefix_or_keep(path, root);
            joined.append(rel.as_str());
            proof {
                reveal_strlit("/");
                assert("/"@ =~= seq!['/']);
                assert(joined@ =~= trim_dest(d@) + seq!['/'] + strip_or_keep(path@, root@));
            }
            collapse_slashes(joined.as_str())
        },
    }
}

/// The key of a single uploaded file: the given key, else `"uploads/"`
/// followed by the local path.
pub open spec fn single_key_of(file_path: Seq<char>, key_name: Option<Seq<char>>) -> Seq<char> {
    match key_name {
        Some(k) => k,
        None => "uploads/"@ + file_path,
    }
}

/// The key under which a single (non-directory) upload of `file_path` is
/// stored.
pub fn single_upload_key(file_path: &str, key_name: Option<String>) -> (r: String)
    ensures
        r@ == single_key_of(file_path@, opt_view(key_name)),
{
    match key_name {
        Some(k) => k,
        None => {
            let mut r = String::from_str("uploads/");
            r.append(file_path);
            r
        },
    }
}

/// What follows the last `'/'` of `s`, or all of `s` where it holds none.
pub open spec fn last_segment(s: Seq<char>) -> Seq<char>
    decreases s.len(),
{
    if s.len() == 0 {
        Seq::empty()
    } else if s.last() == '/' {
        Seq::empty()
    } else {
        last_segment(s.drop_last()).push(s.last())
    }
}

/// The local name a downloaded object is saved under: the given name, else
/// the last `'/'`-separated segment of the key.
pub open spec fn download_name_of(key: Seq<char>, file_name: Option<Seq<char>>) -> Seq<char> {
    match file_name {
        Some(f) => f,
        None => last_segment(key),
    }
}

/// The local file name for downloading the object `key`.
pub fn download_file_name(key: &str, file_name: Option<String>) -> (r: String)
    ensures
        r@ == download_name_of(key@, opt_view(file_name)),
{
    match file_name {
        Some(f) => f,
        None => {
            let n = key.unicode_len();
            let mut j: usize = n;
            proof {
                assert(key@.take(n as int) =~= key@);
                assert(key@.subrange(n as int, n as int) =~= Seq::<char>::empty());
            }
            while j > 0 && char_at(key, j - 1) != '/'
                invariant
                    n == key@.len(),
                    j <= n,
                    last_segment(key@) == last_segment(key@.take(j as int)) + key@.subrange(
                        j as int,
                        n as int,
                    ),
                decreases j,
            {
                proof {
                    let t = key@.take(j as int);
                    assert(t.drop_last() =~= key@.take(j - 1));
                    assert(t.last() == key@[j - 1]);
                    assert(key@.subrange(j - 1, n as int) =~= seq![key@[j - 1]] + key@.subrange(
                        j as int,
                        n as int,
                    ));
                    assert(last_segment(t) + key@.subrange(j as int, n as int) =~= last_segment(
                        key@.take(j - 1),
                    ) + key@.subrange(j - 1, n as int));
                }
                j = j - 1;
            }
            proof {
                assert(last_segment(key@.take(j as int)) =~= Seq::<char>::empty());
                assert(Seq::<char>::empty() + key@.subrange(j as int, n as int) =~= key@.subrange(
                    j as int,
                    n as int,
                ));
            }
            String::from_str(key.substring_char(j, n))
        },
    }
}

/// The public address of `key`: on the custom domain where one is set, else
/// on the bucket's regional endpoint.
pub open spec fn download_url_of(
    bucket: Seq<char>,
    region: Seq<char>,
    domain: Option<Seq<char>>,
    key: Seq<char>,
) -> Seq<char> {
    match domain {
        Some(d) => "https://"@ + d + "/"@ + key,
        None => "https://"@ + bucket + ".cos."@ + region + ".myqcloud.com/"@ + key,
    }
}

/// The download address printed after a successful single upload.
pub fn download_url(bucket: &str, region: &str, domain: &Option<String>, key: &str) -> (r: String)
    ensures
        r@ == download_url_of(bucket@, region@, opt_view(*domain), key@),
{
    let mut r = String::from_str("https://");
    match domain {
        Some(d) => {
            r.append(d.as_str());
            r.append("/");
        },
        None => {
            r.append(bucket);
            r.append(".cos.");
            r.append(region);
            r.append(".myqcloud.com/");
        },
    }
    r.append(key);
    r
}

} // verus!
