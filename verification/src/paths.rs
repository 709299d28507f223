use vstd::prelude::*;

use crate::envfile::opt_view;
use crate::text::{append_chars, chars_of, string_from_chars, sviews};

verus! {

/// What std's `Path::file_name` returns for a path: its final component.
pub uninterp spec fn path_file_name(path: Seq<char>) -> Option<Seq<char>>;

/// What std's `Path::parent` returns for a path: the path without its final component.
pub uninterp spec fn path_parent(path: Seq<char>) -> Option<Seq<char>>;

/// A path that starts at the root.
pub open spec fn is_absolute_path(path: Seq<char>) -> bool {
    path.len() > 0 && path[0] == '/'
}

/// `base` joined with `rest` as on Unix: an absolute `rest` replaces `base`;
/// otherwise `rest` follows `base`, with a `'/'` between them unless `base`
/// is empty or already ends with one.
pub open spec fn path_joined(base: Seq<char>, rest: Seq<char>) -> Seq<char> {
    if is_absolute_path(rest) {
        rest
    } else if base.len() == 0 || base.last() == '/' {
        base + rest
    } else {
        base + seq!['/'] + rest
    }
}

/// std's `Path::file_name`, read back as text: the final component of the
/// path, `None` where the path ends in `..` or has no component. The path
/// comes from a `&str`, so the component is whole UTF-8 and reads back
/// unchanged. Only the name of the result is stated.
#[verifier::external_body]
pub(crate) fn file_name_of(path: &str) -> (r: Option<String>)
    ensures
        opt_view(r) == path_file_name(path@),
{
    std::path::Path::new(path).file_name().map(|n| n.to_string_lossy().into_owned())
}

/// The final component of a path, or empty where it has none.
pub open spec fn file_name_or_empty(path: Seq<char>) -> Seq<char> {
    match path_file_name(path) {
        Some(n) => n,
        None => seq![],
    }
}

pub fn file_name_or_empty_of(path: &str) -> (r: String)
    ensures
        r@ == file_name_or_empty(path@),
{
    match file_name_of(path) {
        Some(n) => n,
        None => string_from_chars(&Vec::new()),
    }
}

/// std's `Path::parent`, read back as text: the path without its final
/// component, `None` where the path is a root or empty. Only the name of the
/// result is stated.
#[verifier::external_body]
pub(crate) fn parent_of(path: &str) -> (r: Option<String>)
    ensures
        opt_view(r) == path_parent(path@),
{
    std::path::Path::new(path).parent().map(|p| p.to_string_lossy().into_owned())
}

/// Whether a path is absolute; paths here are Unix paths, absolute when
/// they start at the root `/` (as std's `Path::is_absolute` decides on Unix).
pub fn is_absolute(path: &str) -> (r: bool)
    ensures
        r == is_absolute_path(path@),
{
    let cs = chars_of(path);
    cs.len() > 0 && cs[0] == '/'
}

/// `base` joined with `rest` as a Unix path (as std's `Path::join` does on
/// Unix): an absolute `rest` replaces `base`; otherwise a `'/'` goes
/// between them unless `base` is empty or already ends with one.
pub fn join_path(base: &str, rest: &str) -> (r: String)
    ensures
        r@ == path_joined(base@, rest@),
{
    let b = chars_of(base);
    let t = chars_of(rest);
    if t.len() > 0 && t[0] == '/' {
        return string_from_chars(&t);
    }
    let mut out = b;
    let n = out.len();
    if !(n == 0 || out[n - 1] == '/') {
        out.push('/');
    }
    append_chars(&mut out, &t);
    string_from_chars(&out)
}

// ---------------------------------------------------------------------------
// Ordering paths
// ---------------------------------------------------------------------------

/// The order of characters in paths: `'/'` before every other character,
/// the others by code point.
pub open spec fn path_char_lt(a: char, b: char) -> bool {
    if a == '/' {
        b != '/'
    } else if b == '/' {
        false
    } else {
        a < b
    }
}

/// Lexicographic order of paths by `path_char_lt`. For paths whose
/// components are all normal (no empty, `.` or `..` component, so no
/// repeated or trailing `'/'`), this is the order of std's `Path`: component
/// by component, a root before any name, a name before its extensions.
pub open spec fn path_lt(a: Seq<char>, b: Seq<char>) -> bool
    decreases a.len(),
{
    if a.len() == 0 {
        b.len() > 0
    } else if b.len() == 0 {
        false
    } else if a[0] != b[0] {
        path_char_lt(a[0], b[0])
    } else {
        path_lt(a.drop_first(), b.drop_first())
    }
}

pub proof fn lemma_path_lt_irrefl(a: Seq<char>)
    ensures
        !path_lt(a, a),
    decreases a.len(),
{
    if a.len() > 0 {
        lemma_path_lt_irrefl(a.drop_first());
    }
}

pub proof fn lemma_path_lt_trans(a: Seq<char>, b: Seq<char>, c: Seq<char>)
    requires
        path_lt(a, b),
        path_lt(b, c),
    ensures
        path_lt(a, c),
    decreases a.len(),
{
    if a.len() > 0 && b.len() > 0 && c.len() > 0 {
        if a[0] == b[0] && b[0] == c[0] {
            lemma_path_lt_trans(a.drop_first(), b.drop_first(), c.drop_first());
        }
    }
}

pub proof fn lemma_path_lt_total(a: Seq<char>, b: Seq<char>)
    requires
        a != b,
    ensures
        path_lt(a, b) || path_lt(b, a),
    decreases a.len(),
{
    if a.len() > 0 && b.len() > 0 {
        if a[0] == b[0] {
            if a.drop_first() == b.drop_first() {
                assert(a =~= seq![a[0]] + a.drop_first());
                assert(b =~= seq![b[0]] + b.drop_first());
            }
            lemma_path_lt_total(a.drop_first(), b.drop_first());
        }
    } else if a.len() == 0 && b.len() == 0 {
        assert(a =~= b);
    }
}

fn path_less(a: &Vec<char>, b: &Vec<char>) -> (r: bool)
    ensures
        r == path_lt(a@, b@),
{
    let mut i: usize = 0;
    assert(a@.skip(0) =~= a@);
    assert(b@.skip(0) =~= b@);
    while i < a.len() && i < b.len() && a[i] == b[i]
        invariant
            0 <= i <= a.len(),
            i <= b.len(),
            path_lt(a@.skip(i as int), b@.skip(i as int)) == path_lt(a@, b@),
        decreases a.len() - i,
    {
        assert(a@.skip(i as int).drop_first() =~= a@.skip(i + 1));
        assert(b@.skip(i as int).drop_first() =~= b@.skip(i + 1));
        i = i + 1;
    }
    if i == a.len() {
        i < b.len()
    } else if i == b.len() {
        false
    } else if a[i] == '/' {
        b[i] != '/'
    } else if b[i] == '/' {
        false
    } else {
        a[i] < b[i]
    }
}

/// Paths strictly ascending in `path_lt` order (so none twice).
pub open spec fn paths_sorted(ps: Seq<Seq<char>>) -> bool {
    forall|i: int, j: int| 0 <= i < j < ps.len() ==> path_lt(ps[i], ps[j])
}

/// The `.env` files found, in path order and each once (as sorting and
/// deduplicating a `Vec<PathBuf>` gives them, for paths of normal components).
pub fn order_env_files(found: Vec<String>) -> (r: Vec<String>)
    ensures
        paths_sorted(sviews(r@)),
        forall|x: Seq<char>| #[trigger] sviews(r@).contains(x) <==> sviews(found@).contains(x),
{
    let mut out: Vec<String> = Vec::new();
    let mut i: usize = 0;
    while i < found.len()
        invariant
            0 <= i <= found.len(),
            paths_sorted(sviews(out@)),
            forall|x: Seq<char>| #[trigger] sviews(out@).contains(x) <==> sviews(found@.take(i as int)).contains(x),
        decreases found.len() - i,
    {
        let f = chars_of(found[i].as_str());
        let ghost fx = f@;
        let ghost before = sviews(out@);
        assert(sviews(found@.take(i + 1)) =~= sviews(found@.take(i as int)).push(fx));
        let mut p: usize = 0;
        while p < out.len() && path_less(&chars_of(out[p].as_str()), &f)
            invariant
                0 <= p <= out.len(),
                sviews(out@) == before,
                f@ == fx,
                forall|q: int| 0 <= q < p ==> path_lt(before[q], fx),
            decreases out.len() - p,
        {
            assert(out@[p as int]@ == before[p as int]);
            p = p + 1;
        }
        assert(p < out.len() ==> out@[p as int]@ == before[p as int]);
        if p < out.len() && same(&chars_of(out[p].as_str()), &f) {
            assert(before[p as int] == fx);
            assert(before.contains(fx));
            assert forall|x: Seq<char>| #[trigger] sviews(out@).contains(x) <==> sviews(found@.take(i + 1)).contains(x) by {
                lemma_push_contains(sviews(found@.take(i as int)), fx, x);
            }
        } else {
            proof {
                if p < before.len() {
                    if before[p as int] != fx {
                        lemma_path_lt_total(before[p as int], fx);
                    }
                    assert forall|q: int| p <= q < before.len() implies path_lt(fx, before[q]) by {
                        if q > p {
                            lemma_path_lt_trans(fx, before[p as int], before[q]);
                        }
                    }
                }
            }
            out.insert(p, string_from_chars(&f));
            let ghost now = sviews(out@);
            assert(now =~= before.insert(p as int, fx));
            assert(forall|k: int| 0 <= k < p ==> now[k] == before[k]);
            assert(forall|k: int| p < k < now.len() ==> now[k] == before[k - 1]);
            assert(now[p as int] == fx);
            assert forall|a: int, b: int| 0 <= a < b < now.len() implies path_lt(now[a], now[b]) by {
                if a < p && b > p {
                    lemma_path_lt_trans(now[a], fx, now[b]);
                }
            }
            assert forall|x: Seq<char>| #[trigger] now.contains(x) <==> sviews(found@.take(i + 1)).contains(x) by {
                lemma_push_contains(sviews(found@.take(i as int)), fx, x);
                if now.contains(x) {
                    let k = choose|k: int| 0 <= k < now.len() && now[k] == x;
                    if k < p {
                        assert(before[k] == x);
                    } else if k > p {
                        assert(before[k - 1] == x);
                    }
                }
                if before.contains(x) {
                    let k = choose|k: int| 0 <= k < before.len() && before[k] == x;
                    if k < p {
                        assert(now[k] == x);
                    } else {
                        assert(now[k + 1] == x);
                    }
                }
            }
        }
        i = i + 1;
    }
    assert(found@.take(i as int) =~= found@);
    out
}

proof fn lemma_push_contains(s: Seq<Seq<char>>, y: Seq<char>, x: Seq<char>)
    ensures
        s.push(y).contains(x) <==> (s.contains(x) || x == y),
{
    if s.push(y).contains(x) {
        let k = choose|k: int| 0 <= k < s.push(y).len() && s.push(y)[k] == x;
        if k < s.len() {
            assert(s[k] == x);
        }
    }
    if s.contains(x) {
        let k = choose|k: int| 0 <= k < s.len() && s[k] == x;
        assert(s.push(y)[k] == x);
    }
    if x == y {
        assert(s.push(y)[s.len() as int] == x);
    }
}

fn same(a: &Vec<char>, b: &Vec<char>) -> (r: bool)
    ensures
        r == (a@ == b@),
{
    if a.len() != b.len() {
        return false;
    }
    let mut i: usize = 0;
    while i < a.len()
        invariant
            0 <= i <= a.len() == b.len(),
            forall|j: int| 0 <= j < i ==> a@[j] == b@[j],
        decreases a.len() - i,
    {
        if a[i] != b[i] {
            return false;
        }
        i = i + 1;
    }
    assert(a@ =~= b@);
    true
}

} // verus!
