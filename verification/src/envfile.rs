use vstd::prelude::*;

use crate::error::EnvsyncError;
use crate::text::{
    append_chars, chars_of, contains_char, copy_range, find_char, first_index, has_char, join_lines,
    join_with_newlines, lemma_first_index_props, lemma_lex_total, lemma_lex_trans, lex_less, lex_lt,
    lines, split_lines, starts_with_at, string_from_chars, strip_cr, sviews, trim, trim_range,
    vviews, with_final_newline,
};

verus! {

broadcast use vstd::string::group_string_axioms;

/// One `KEY=value` assignment of a `.env` file.
#[derive(Debug, Clone)]
pub struct EnvEntry {
    pub key: String,
    pub value: String,
    /// The line the assignment was read from, as it stood in the file.
    pub raw_line: String,
}

/// A parsed `.env` file: its lines, and the assignments among them.
#[derive(Debug, Clone)]
pub struct EnvFile {
    pub path: String,
    pub entries: Vec<EnvEntry>,
    pub lines: Vec<String>,
}

/// How a key differs between the main worktree's file and a linked one.
#[derive(Debug, Clone, Copy, PartialEq, Eq, Structural)]
pub enum DiffKind {
    /// In main, missing in the linked file.
    Added,
    /// In the linked file, missing in main.
    Removed,
    /// In both, with different values.
    Changed,
}

/// One difference between two `.env` files; `old_value` is the linked
/// file's value and `new_value` main's.
#[derive(Debug, Clone)]
pub struct EnvDiff {
    pub key: String,
    pub kind: DiffKind,
    pub old_value: Option<String>,
    pub new_value: Option<String>,
}

// ---------------------------------------------------------------------------
// The line grammar
// ---------------------------------------------------------------------------

/// The text `"export "`.
pub open spec fn export_word() -> Seq<char> {
    seq!['e', 'x', 'p', 'o', 'r', 't', ' ']
}

fn export_chars() -> (r: Vec<char>)
    ensures
        r@ == export_word(),
{
    let r = vec!['e', 'x', 'p', 'o', 'r', 't', ' '];
    assert(r@ =~= export_word());
    r
}

/// A trimmed line with a leading `"export "` taken off.
pub open spec fn strip_export(t: Seq<char>) -> Seq<char> {
    if export_word().is_prefix_of(t) {
        t.skip(7)
    } else {
        t
    }
}

/// How a line splits into an assignment: whether it starts with `"export "`,
/// the key (trimmed text before the first `'='`) and the raw value (trimmed
/// text after it). `None` for a blank line, a comment, or a line without `'='`.
pub open spec fn split_line(line: Seq<char>) -> Option<(bool, Seq<char>, Seq<char>)> {
    let t = trim(line);
    if t.len() == 0 || t[0] == '#' {
        None
    } else {
        let kv = strip_export(t);
        let p = first_index(kv, '=');
        if p >= kv.len() {
            None
        } else {
            Some((export_word().is_prefix_of(t), trim(kv.take(p)), trim(kv.skip(p + 1))))
        }
    }
}

/// Whether a raw value is a single quote character, a value that the
/// quote removal cannot slice.
pub open spec fn lone_quote(raw: Seq<char>) -> bool {
    raw.len() == 1 && (raw[0] == '"' || raw[0] == '\'')
}

/// A line that can be parsed: it is no assignment, or its raw value is no lone quote.
pub open spec fn line_parses(line: Seq<char>) -> bool {
    match split_line(line) {
        Some((_, _, raw)) => !lone_quote(raw),
        None => true,
    }
}

/// A value with one pair of surrounding double or single quotes removed.
pub open spec fn unquote(s: Seq<char>) -> Seq<char> {
    if s.len() >= 2 && ((s[0] == '"' && s.last() == '"') || (s[0] == '\'' && s.last() == '\'')) {
        s.subrange(1, s.len() - 1)
    } else {
        s
    }
}

/// The assignment a line holds: key and value.
pub open spec fn line_entry(line: Seq<char>) -> Option<(Seq<char>, Seq<char>)> {
    match split_line(line) {
        Some((_, k, raw)) => Some((k, unquote(raw))),
        None => None,
    }
}

/// The entries of a sequence of lines: key, value, and the line itself.
pub open spec fn entries_of(ls: Seq<Seq<char>>) -> Seq<(Seq<char>, Seq<char>, Seq<char>)>
    decreases ls.len(),
{
    if ls.len() == 0 {
        seq![]
    } else {
        let rest = entries_of(ls.drop_last());
        match line_entry(ls.last()) {
            Some((k, v)) => rest.push((k, v, ls.last())),
            None => rest,
        }
    }
}

pub open spec fn entry_view(e: EnvEntry) -> (Seq<char>, Seq<char>, Seq<char>) {
    (e.key@, e.value@, e.raw_line@)
}

/// Every line of a text can be parsed.
pub open spec fn text_parses(content: Seq<char>) -> bool {
    forall|i: int| 0 <= i < lines(content).len() ==> line_parses(#[trigger] lines(content)[i])
}

impl EnvFile {
    pub open spec fn line_views(&self) -> Seq<Seq<char>> {
        sviews(self.lines@)
    }

    pub open spec fn entry_views(&self) -> Seq<(Seq<char>, Seq<char>, Seq<char>)> {
        self.entries@.map_values(|e: EnvEntry| entry_view(e))
    }

    /// A file as parsing makes it: lines without line breaks, each of them
    /// parseable, and the entries exactly those the lines hold.
    pub open spec fn wf(&self) -> bool {
        &&& forall|i: int| 0 <= i < self.lines@.len() ==> !has_char(#[trigger] self.lines@[i]@, '\n')
        &&& forall|i: int| 0 <= i < self.lines@.len() ==> line_parses(#[trigger] self.lines@[i]@)
        &&& self.entry_views() == entries_of(self.line_views())
    }
}

// ---------------------------------------------------------------------------
// Parsing
// ---------------------------------------------------------------------------

/// Splits one line into its export flag, key and raw value.
fn split_line_exec(line: &Vec<char>) -> (r: Option<(bool, Vec<char>, Vec<char>)>)
    ensures
        match r {
            Some((e, k, v)) => split_line(line@) == Some((e, k@, v@)),
            None => split_line(line@) is None,
        },
{
    let (a, b) = trim_range(line, 0, line.len());
    let ghost t = trim(line@);
    assert(line@.subrange(0, line.len() as int) =~= line@);
    assert(t == line@.subrange(a as int, b as int));
    if a == b || line[a] == '#' {
        return None;
    }
    let ex = export_chars();
    let export = starts_with_at(line, a, b, &ex);
    let s = if export {
        a + 7
    } else {
        a
    };
    let ghost kv = strip_export(t);
    assert(kv =~= line@.subrange(s as int, b as int));
    let p = find_char(line, s, b, '=');
    if p == b {
        return None;
    }
    let (ka, kb) = trim_range(line, s, p);
    let (va, vb) = trim_range(line, p + 1, b);
    let key = copy_range(line, ka, kb);
    let raw = copy_range(line, va, vb);
    assert(kv.take(p - s) =~= line@.subrange(s as int, p as int));
    assert(kv.skip(p - s + 1) =~= line@.subrange(p + 1, b as int));
    Some((export, key, raw))
}

/// Removes one pair of surrounding quotes from a raw value.
pub fn remove_quotes(s: &Vec<char>) -> (r: Vec<char>)
    requires
        !lone_quote(s@),
    ensures
        r@ == unquote(s@),
{
    let n = s.len();
    if n >= 2 && ((s[0] == '"' && s[n - 1] == '"') || (s[0] == '\'' && s[n - 1] == '\'')) {
        copy_range(s, 1, n - 1)
    } else {
        copy_range(s, 0, n)
    }
}

pub proof fn lemma_lines_have_no_newline(s: Seq<char>)
    ensures
        forall|i: int| 0 <= i < lines(s).len() ==> !has_char(#[trigger] lines(s)[i], '\n'),
    decreases s.len(),
{
    if s.len() > 0 {
        let k = first_index(s, '\n');
        lemma_first_index_props(s, '\n');
        if k < s.len() {
            lemma_lines_have_no_newline(s.skip(k + 1));
            assert forall|i: int| 0 <= i < lines(s).len() implies !has_char(
                #[trigger] lines(s)[i],
                '\n',
            ) by {
                if i > 0 {
                    assert(lines(s)[i] == lines(s.skip(k + 1))[i - 1]);
                } else {
                    let l = strip_cr(s.take(k));
                    assert forall|j: int| 0 <= j < l.len() implies l[j] != '\n' by {
                        assert(l[j] == s[j]);
                    }
                }
            }
        }
    }
}

impl EnvFile {
    /// Whether every line of a text can be parsed: no assignment in it has a
    /// raw value that is a lone `'"'` or `'\''`.
    pub fn content_parses(content: &str) -> (r: bool)
        ensures
            r == text_parses(content@),
    {
        let cs = chars_of(content);
        let split = split_lines(&cs);
        let mut i: usize = 0;
        while i < split.len()
            invariant
                0 <= i <= split.len(),
                vviews(split@) == lines(content@),
                forall|j: int| 0 <= j < i ==> line_parses(#[trigger] lines(content@)[j]),
            decreases split.len() - i,
        {
            assert(split[i as int]@ == lines(content@)[i as int]);
            match split_line_exec(&split[i]) {
                Some((_, _, raw)) => {
                    if raw.len() == 1 && (raw[0] == '"' || raw[0] == '\'') {
                        assert(!line_parses(lines(content@)[i as int]));
                        return false;
                    }
                },
                None => {},
            }
            i = i + 1;
        }
        true
    }
}

impl EnvFile {
    /// Parses the text of a `.env` file read from `path`: its lines, and an
    /// entry for each line that assigns a value.
    pub fn parse_content(path: String, content: &str) -> (r: EnvFile)
        requires
            text_parses(content@),
        ensures
            r.path == path,
            r.line_views() == lines(content@),
            r.entry_views() == entries_of(lines(content@)),
            r.wf(),
    {
        let cs = chars_of(content);
        let split = split_lines(&cs);
        let ghost ls = lines(content@);
        let mut entries: Vec<EnvEntry> = Vec::new();
        let mut out_lines: Vec<String> = Vec::new();
        let mut i: usize = 0;
        while i < split.len()
            invariant
                0 <= i <= split.len(),
                vviews(split@) == ls,
                ls == lines(content@),
                text_parses(content@),
                sviews(out_lines@) == ls.take(i as int),
                entries@.map_values(|e: EnvEntry| entry_view(e)) == entries_of(ls.take(i as int)),
            decreases split.len() - i,
        {
            let line = &split[i];
            assert(line@ == ls[i as int]);
            assert(ls.take(i + 1).drop_last() =~= ls.take(i as int));
            assert(ls.take(i + 1).last() == ls[i as int]);
            let raw_line = string_from_chars(line);
            match split_line_exec(line) {
                Some((_, key, raw)) => {
                    assert(line_parses(ls[i as int]));
                    let value = remove_quotes(&raw);
                    let entry = EnvEntry {
                        key: string_from_chars(&key),
                        value: string_from_chars(&value),
                        raw_line: string_from_chars(line),
                    };
                    entries.push(entry);
                },
                None => {},
            }
            out_lines.push(raw_line);
            i = i + 1;
            assert(sviews(out_lines@) =~= ls.take(i as int));
            assert(entries@.map_values(|e: EnvEntry| entry_view(e)) =~= entries_of(
                ls.take(i as int),
            ));
        }
        assert(ls.take(i as int) =~= ls);
        proof {
            lemma_lines_have_no_newline(content@);
        }
        let r = EnvFile { path, entries, lines: out_lines };
        assert forall|j: int| 0 <= j < r.lines@.len() implies !has_char(#[trigger] r.lines@[j]@, '\n')
            && line_parses(r.lines@[j]@) by {
            assert(r.lines@[j]@ == sviews(r.lines@)[j]);
            assert(line_parses(lines(content@)[j]));
        }
        r
    }
}

// ---------------------------------------------------------------------------
// Key/value maps
// ---------------------------------------------------------------------------

/// Key and value of each entry.
pub open spec fn kv_pairs(es: Seq<(Seq<char>, Seq<char>, Seq<char>)>) -> Seq<(Seq<char>, Seq<char>)> {
    es.map_values(|e: (Seq<char>, Seq<char>, Seq<char>)| (e.0, e.1))
}

/// What the assignments amount to: each key bound to the value of its last assignment.
pub open spec fn env_map(es: Seq<(Seq<char>, Seq<char>)>) -> Map<Seq<char>, Seq<char>>
    decreases es.len(),
{
    if es.len() == 0 {
        Map::empty()
    } else {
        env_map(es.drop_last()).insert(es.last().0, es.last().1)
    }
}

/// Position of the first pair with key `k`, or `ps.len()`.
pub open spec fn key_index(ps: Seq<(Seq<char>, Seq<char>)>, k: Seq<char>) -> int
    decreases ps.len(),
{
    if ps.len() == 0 {
        0
    } else if ps[0].0 == k {
        0
    } else {
        1 + key_index(ps.drop_first(), k)
    }
}

/// The key/value pairs of a sequence of assignments: one pair per key, in
/// the order in which the keys first occur, each with its last value.
pub open spec fn map_pairs(es: Seq<(Seq<char>, Seq<char>)>) -> Seq<(Seq<char>, Seq<char>)>
    decreases es.len(),
{
    if es.len() == 0 {
        seq![]
    } else {
        let prev = map_pairs(es.drop_last());
        let j = key_index(prev, es.last().0);
        if j < prev.len() {
            prev.update(j, es.last())
        } else {
            prev.push(es.last())
        }
    }
}

pub open spec fn pair_views(ps: Seq<(String, String)>) -> Seq<(Seq<char>, Seq<char>)> {
    ps.map_values(|p: (String, String)| (p.0@, p.1@))
}

/// No key occurs twice.
pub open spec fn distinct_keys(ps: Seq<(Seq<char>, Seq<char>)>) -> bool {
    forall|i: int, j: int| 0 <= i < j < ps.len() ==> ps[i].0 != ps[j].0
}

pub proof fn lemma_key_index_props(ps: Seq<(Seq<char>, Seq<char>)>, k: Seq<char>)
    ensures
        0 <= key_index(ps, k) <= ps.len(),
        forall|j: int| 0 <= j < key_index(ps, k) ==> ps[j].0 != k,
        key_index(ps, k) < ps.len() ==> ps[key_index(ps, k)].0 == k,
    decreases ps.len(),
{
    if ps.len() > 0 && ps[0].0 != k {
        lemma_key_index_props(ps.drop_first(), k);
        assert forall|j: int| 0 <= j < key_index(ps, k) implies ps[j].0 != k by {
            if j > 0 {
                assert(ps[j] == ps.drop_first()[j - 1]);
            }
        }
    }
}

pub proof fn lemma_key_index_is(ps: Seq<(Seq<char>, Seq<char>)>, k: Seq<char>, r: int)
    requires
        0 <= r <= ps.len(),
        forall|j: int| 0 <= j < r ==> ps[j].0 != k,
        r == ps.len() || ps[r].0 == k,
    ensures
        key_index(ps, k) == r,
    decreases r,
{
    if r > 0 {
        lemma_key_index_is(ps.drop_first(), k, r - 1);
    }
}

/// The pairs have distinct keys and bind each key as the assignments do.
pub proof fn lemma_map_pairs(es: Seq<(Seq<char>, Seq<char>)>)
    ensures
        distinct_keys(map_pairs(es)),
        forall|k: Seq<char>| #[trigger]
            env_map(es).contains_key(k) <==> key_index(map_pairs(es), k) < map_pairs(es).len(),
        forall|i: int|
            0 <= i < map_pairs(es).len() ==> env_map(es)[#[trigger] map_pairs(es)[i].0]
                == map_pairs(es)[i].1,
    decreases es.len(),
{
    if es.len() > 0 {
        let prev = map_pairs(es.drop_last());
        let (k, v) = es.last();
        lemma_map_pairs(es.drop_last());
        lemma_key_index_props(prev, k);
        let ps = map_pairs(es);
        let m = env_map(es);
        let j = key_index(prev, k);
        assert forall|q: Seq<char>| #[trigger] m.contains_key(q) <==> key_index(ps, q) < ps.len() by {
            lemma_key_index_props(prev, q);
            lemma_key_index_props(ps, q);
            if m.contains_key(q) {
                let t = key_index(prev, q);
                if q == k {
                    if j < prev.len() {
                        lemma_key_index_is(ps, q, j);
                    } else {
                        lemma_key_index_is(ps, q, prev.len() as int);
                    }
                } else {
                    assert(t < prev.len());
                    assert(ps[t].0 == q);
                }
            } else {
                assert(q != k);
                assert(!env_map(es.drop_last()).contains_key(q));
                if key_index(ps, q) < ps.len() {
                    let t = key_index(ps, q);
                    if t < prev.len() {
                        assert(prev[t].0 == q);
                        lemma_key_index_is(prev, q, t);
                    }
                }
            }
        }
    }
}

fn find_key(ps: &Vec<(String, String)>, k: &String) -> (r: Option<usize>)
    ensures
        match r {
            Some(j) => j < ps.len() && j == key_index(pair_views(ps@), k@),
            None => key_index(pair_views(ps@), k@) == ps.len(),
        },
{
    let mut j: usize = 0;
    while j < ps.len()
        invariant
            0 <= j <= ps.len(),
            forall|q: int| 0 <= q < j ==> pair_views(ps@)[q].0 != k@,
        decreases ps.len() - j,
    {
        if ps[j].0 == *k {
            proof {
                lemma_key_index_is(pair_views(ps@), k@, j as int);
            }
            return Some(j);
        }
        j = j + 1;
    }
    proof {
        lemma_key_index_is(pair_views(ps@), k@, j as int);
    }
    None
}

impl EnvFile {
    pub open spec fn kv(&self) -> Seq<(Seq<char>, Seq<char>)> {
        kv_pairs(self.entry_views())
    }

    /// Each key of the file bound to the value of its last assignment.
    pub open spec fn map_view(&self) -> Map<Seq<char>, Seq<char>> {
        env_map(self.kv())
    }

    /// The file's keys with the value of each key's last assignment, in the
    /// order in which the keys first occur. The pairs are a `Vec` rather than
    /// a `HashMap`: vstd specifies `HashMap` by its keys' views only for keys
    /// whose hashing it models, which a `String` key is not, so nothing
    /// could be stated of such a map's contents.
    pub fn to_map(&self) -> (r: Vec<(String, String)>)
        ensures
            pair_views(r@) == map_pairs(self.kv()),
    {
        let mut out: Vec<(String, String)> = Vec::new();
        let mut i: usize = 0;
        let ghost kv = self.kv();
        while i < self.entries.len()
            invariant
                0 <= i <= self.entries.len(),
                kv == self.kv(),
                pair_views(out@) == map_pairs(kv.take(i as int)),
            decreases self.entries.len() - i,
        {
            let e = &self.entries[i];
            let ghost prev = kv.take(i as int);
            assert(kv.take(i + 1).drop_last() =~= prev);
            assert(kv.take(i + 1).last() == (e.key@, e.value@));
            let pair = (e.key.clone(), e.value.clone());
            match find_key(&out, &e.key) {
                Some(j) => {
                    out.set(j, pair);
                },
                None => {
                    out.push(pair);
                },
            }
            i = i + 1;
            assert(pair_views(out@) =~= map_pairs(kv.take(i as int)));
        }
        assert(kv.take(i as int) =~= kv);
        out
    }
}

// ---------------------------------------------------------------------------
// Differences
// ---------------------------------------------------------------------------

/// How key `k` differs between main's map `m` and the linked map `l`:
/// its kind, the linked value and main's value; `None` where it does not.
pub open spec fn diff_at(m: Map<Seq<char>, Seq<char>>, l: Map<Seq<char>, Seq<char>>, k: Seq<char>) -> Option<
    (DiffKind, Option<Seq<char>>, Option<Seq<char>>),
> {
    if m.contains_key(k) && l.contains_key(k) {
        if m[k] != l[k] {
            Some((DiffKind::Changed, Some(l[k]), Some(m[k])))
        } else {
            None
        }
    } else if m.contains_key(k) {
        Some((DiffKind::Added, None, Some(m[k])))
    } else if l.contains_key(k) {
        Some((DiffKind::Removed, Some(l[k]), None))
    } else {
        None
    }
}

pub open spec fn opt_view(o: Option<String>) -> Option<Seq<char>> {
    match o {
        Some(s) => Some(s@),
        None => None,
    }
}

pub open spec fn diff_view(d: EnvDiff) -> (DiffKind, Option<Seq<char>>, Option<Seq<char>>) {
    (d.kind, opt_view(d.old_value), opt_view(d.new_value))
}

/// Keys strictly ascending in code point order (so no key occurs twice).
pub open spec fn keys_sorted(ds: Seq<EnvDiff>) -> bool {
    forall|i: int, j: int| 0 <= i < j < ds.len() ==> lex_lt(ds[i].key@, ds[j].key@)
}

/// `ds` lists the differences between `m` and `l`: one for each key that
/// differs, sorted by key, each with its kind and the two values.
pub open spec fn is_diff_of(ds: Seq<EnvDiff>, m: Map<Seq<char>, Seq<char>>, l: Map<Seq<char>, Seq<char>>) -> bool {
    &&& keys_sorted(ds)
    &&& forall|i: int| 0 <= i < ds.len() ==> diff_at(m, l, #[trigger] ds[i].key@) == Some(diff_view(ds[i]))
    &&& forall|k: Seq<char>| #[trigger] diff_at(m, l, k) is Some ==> exists|i: int| 0 <= i < ds.len() && ds[i].key@ == k
}

/// The keys of a list of differences.
pub open spec fn diff_keys(ds: Seq<EnvDiff>) -> Seq<Seq<char>> {
    ds.map_values(|d: EnvDiff| d.key@)
}

/// Every listed difference is the difference of its key.
pub open spec fn diffs_correct(ds: Seq<EnvDiff>, m: Map<Seq<char>, Seq<char>>, l: Map<Seq<char>, Seq<char>>) -> bool {
    forall|i: int| 0 <= i < ds.len() ==> diff_at(m, l, #[trigger] ds[i].key@) == Some(diff_view(ds[i]))
}

/// Inserts `d` where its key belongs among keys in ascending order.
fn insert_diff(
    ds: &mut Vec<EnvDiff>,
    d: EnvDiff,
    Ghost(m): Ghost<Map<Seq<char>, Seq<char>>>,
    Ghost(l): Ghost<Map<Seq<char>, Seq<char>>>,
)
    requires
        keys_sorted(old(ds)@),
        diffs_correct(old(ds)@, m, l),
        diff_at(m, l, d.key@) == Some(diff_view(d)),
        !diff_keys(old(ds)@).contains(d.key@),
    ensures
        keys_sorted(final(ds)@),
        diffs_correct(final(ds)@, m, l),
        forall|x: Seq<char>| #[trigger] diff_keys(final(ds)@).contains(x) <==> (diff_keys(old(ds)@).contains(x) || x == d.key@),
{
    let dk = chars_of(d.key.as_str());
    let mut p: usize = 0;
    while p < ds.len() && lex_less(&chars_of(ds[p].key.as_str()), &dk)
        invariant
            0 <= p <= ds.len(),
            ds@ == old(ds)@,
            dk@ == d.key@,
            forall|i: int| 0 <= i < p ==> lex_lt(ds@[i].key@, d.key@),
        decreases ds.len() - p,
    {
        p = p + 1;
    }
    let ghost old_ds = ds@;
    let ghost dkey = d.key@;
    proof {
        if p < ds.len() {
            assert(diff_keys(old_ds)[p as int] == old_ds[p as int].key@);
            lemma_lex_total(old_ds[p as int].key@, d.key@);
            assert forall|i: int| p <= i < old_ds.len() implies lex_lt(d.key@, old_ds[i].key@) by {
                if i > p {
                    lemma_lex_trans(d.key@, old_ds[p as int].key@, old_ds[i].key@);
                }
            }
        }
    }
    ds.insert(p, d);
    assert forall|i: int| 0 <= i < ds@.len() implies (i < p ==> ds@[i] == old_ds[i]) && (i > p ==> ds@[i] == old_ds[i - 1]) && (i == p ==> ds@[i].key@ == dkey) by {}
    assert forall|i: int, j: int| 0 <= i < j < ds@.len() implies lex_lt(ds@[i].key@, ds@[j].key@) by {
        if i < p && j > p {
            lemma_lex_trans(ds@[i].key@, dkey, ds@[j].key@);
        }
    }
    assert forall|x: Seq<char>| #[trigger] diff_keys(ds@).contains(x) <==> (diff_keys(old_ds).contains(x) || x == dkey) by {
        if diff_keys(ds@).contains(x) {
            let i = choose|i: int| 0 <= i < diff_keys(ds@).len() && diff_keys(ds@)[i] == x;
            if i < p {
                assert(diff_keys(old_ds)[i] == x);
            } else if i > p {
                assert(diff_keys(old_ds)[i - 1] == x);
            }
        }
        if diff_keys(old_ds).contains(x) {
            let i = choose|i: int| 0 <= i < diff_keys(old_ds).len() && diff_keys(old_ds)[i] == x;
            if i < p {
                assert(diff_keys(ds@)[i] == x);
            } else {
                assert(diff_keys(ds@)[i + 1] == x);
            }
        }
        if x == dkey {
            assert(diff_keys(ds@)[p as int] == x);
        }
    }
}

/// The differences between two `.env` files, sorted by key: `Added` for a
/// key only in `main`, `Removed` for one only in `linked`, `Changed` for one
/// whose values differ.
pub fn diff_env(main: &EnvFile, linked: &EnvFile) -> (r: Vec<EnvDiff>)
    ensures
        is_diff_of(r@, main.map_view(), linked.map_view()),
{
    let main_map = main.to_map();
    let linked_map = linked.to_map();
    let ghost m = main.map_view();
    let ghost l = linked.map_view();
    let ghost mp = pair_views(main_map@);
    let ghost lp = pair_views(linked_map@);
    proof {
        lemma_map_pairs(main.kv());
        lemma_map_pairs(linked.kv());
    }
    let mut diffs: Vec<EnvDiff> = Vec::new();
    let mut i: usize = 0;
    while i < main_map.len()
        invariant
            0 <= i <= main_map.len(),
            mp == pair_views(main_map@),
            lp == pair_views(linked_map@),
            distinct_keys(mp),
            forall|k: Seq<char>| #[trigger] m.contains_key(k) <==> key_index(mp, k) < mp.len(),
            forall|q: int| 0 <= q < mp.len() ==> m[#[trigger] mp[q].0] == mp[q].1,
            forall|k: Seq<char>| #[trigger] l.contains_key(k) <==> key_index(lp, k) < lp.len(),
            forall|q: int| 0 <= q < lp.len() ==> l[#[trigger] lp[q].0] == lp[q].1,
            keys_sorted(diffs@),
            diffs_correct(diffs@, m, l),
            forall|x: Seq<char>| #[trigger] diff_keys(diffs@).contains(x) ==> key_index(mp, x) < i,
            forall|q: int| 0 <= q < i ==> (diff_at(m, l, #[trigger] mp[q].0) is Some ==> diff_keys(diffs@).contains(mp[q].0)),
        decreases main_map.len() - i,
    {
        let key = &main_map[i].0;
        let mv = &main_map[i].1;
        let ghost k = key@;
        assert(mp[i as int].0 == k);
        proof {
            lemma_key_index_props(lp, k);
            lemma_key_index_is(mp, k, i as int);
        }
        assert(m.contains_key(k));
        let ghost old_keys = diff_keys(diffs@);
        match find_key(&linked_map, key) {
            Some(j) => {
                let lv = &linked_map[j].1;
                assert(lp[j as int].0 == k);
                if !(*mv == *lv) {
                    let d = EnvDiff {
                        key: key.clone(),
                        kind: DiffKind::Changed,
                        old_value: Some(lv.clone()),
                        new_value: Some(mv.clone()),
                    };
                    insert_diff(&mut diffs, d, Ghost(m), Ghost(l));
                }
            },
            None => {
                let d = EnvDiff {
                    key: key.clone(),
                    kind: DiffKind::Added,
                    old_value: None,
                    new_value: Some(mv.clone()),
                };
                insert_diff(&mut diffs, d, Ghost(m), Ghost(l));
            },
        }
        assert forall|q: int| 0 <= q < i + 1 implies (diff_at(m, l, #[trigger] mp[q].0) is Some ==> diff_keys(diffs@).contains(mp[q].0)) by {
            if q < i && diff_at(m, l, mp[q].0) is Some {
                assert(old_keys.contains(mp[q].0));
            }
        }
        i = i + 1;
    }
    let mut j: usize = 0;
    while j < linked_map.len()
        invariant
            0 <= j <= linked_map.len(),
            mp == pair_views(main_map@),
            lp == pair_views(linked_map@),
            distinct_keys(lp),
            forall|k: Seq<char>| #[trigger] m.contains_key(k) <==> key_index(mp, k) < mp.len(),
            forall|k: Seq<char>| #[trigger] l.contains_key(k) <==> key_index(lp, k) < lp.len(),
            forall|q: int| 0 <= q < lp.len() ==> l[#[trigger] lp[q].0] == lp[q].1,
            keys_sorted(diffs@),
            diffs_correct(diffs@, m, l),
            forall|x: Seq<char>| #[trigger] diff_keys(diffs@).contains(x) ==> m.contains_key(x) || key_index(lp, x) < j,
            forall|q: int| 0 <= q < mp.len() ==> (diff_at(m, l, #[trigger] mp[q].0) is Some ==> diff_keys(diffs@).contains(mp[q].0)),
            forall|q: int| 0 <= q < j ==> (diff_at(m, l, #[trigger] lp[q].0) is Some ==> diff_keys(diffs@).contains(lp[q].0)),
        decreases linked_map.len() - j,
    {
        let key = &linked_map[j].0;
        let ghost k = key@;
        assert(lp[j as int].0 == k);
        proof {
            lemma_key_index_is(lp, k, j as int);
        }
        let ghost old_keys = diff_keys(diffs@);
        match find_key(&main_map, key) {
            Some(_) => {},
            None => {
                assert(!m.contains_key(k));
                let d = EnvDiff {
                    key: key.clone(),
                    kind: DiffKind::Removed,
                    old_value: Some(linked_map[j].1.clone()),
                    new_value: None,
                };
                insert_diff(&mut diffs, d, Ghost(m), Ghost(l));
            },
        }
        assert forall|q: int| 0 <= q < mp.len() && diff_at(m, l, #[trigger] mp[q].0) is Some implies diff_keys(diffs@).contains(mp[q].0) by {
            assert(old_keys.contains(mp[q].0));
        }
        assert forall|q: int| 0 <= q < j + 1 && diff_at(m, l, #[trigger] lp[q].0) is Some implies diff_keys(diffs@).contains(lp[q].0) by {
            if q < j {
                assert(old_keys.contains(lp[q].0));
            } else if m.contains_key(k) {
                lemma_key_index_props(mp, k);
                assert(mp[key_index(mp, k)].0 == k);
                assert(old_keys.contains(k));
            }
        }
        j = j + 1;
    }
    assert forall|k: Seq<char>| #[trigger] diff_at(m, l, k) is Some implies exists|t: int| 0 <= t < diffs@.len() && diffs@[t].key@ == k by {
        if m.contains_key(k) {
            lemma_key_index_props(mp, k);
            assert(mp[key_index(mp, k)].0 == k);
        } else {
            lemma_key_index_props(lp, k);
            assert(lp[key_index(lp, k)].0 == k);
        }
        assert(diff_keys(diffs@).contains(k));
        let t = choose|t: int| 0 <= t < diff_keys(diffs@).len() && diff_keys(diffs@)[t] == k;
        assert(diffs@[t].key@ == k);
    }
    diffs
}

// ---------------------------------------------------------------------------
// Merging
// ---------------------------------------------------------------------------

/// Whether a value must be written in double quotes.
pub open spec fn needs_quotes(v: Seq<char>) -> bool {
    has_char(v, ' ') || has_char(v, '#') || has_char(v, '"')
}

/// A value with each `'"'` written as `\"`.
pub open spec fn escape_quotes(v: Seq<char>) -> Seq<char>
    decreases v.len(),
{
    if v.len() == 0 {
        seq![]
    } else {
        escape_quotes(v.drop_last()) + if v.last() == '"' {
            seq!['\\', '"']
        } else {
            seq![v.last()]
        }
    }
}

/// How merging writes a value: in double quotes, with inner quotes escaped,
/// where it holds a space, `'#'` or `'"'`; as it is otherwise.
pub open spec fn formatted_value(v: Seq<char>) -> Seq<char> {
    if needs_quotes(v) {
        seq!['"'] + escape_quotes(v) + seq!['"']
    } else {
        v
    }
}

/// The line `prefix KEY=value` that merging writes.
pub open spec fn assignment_line(prefix: Seq<char>, k: Seq<char>, v: Seq<char>) -> Seq<char> {
    prefix + k + seq!['='] + formatted_value(v)
}

pub open spec fn export_prefix(export: bool) -> Seq<char> {
    if export {
        export_word()
    } else {
        seq![]
    }
}

/// A line of main's file as merging writes it: an assignment of a key that
/// the linked file binds takes the linked value (keeping its `export`);
/// every other line stays as it is.
pub open spec fn merged_line(line: Seq<char>, l: Map<Seq<char>, Seq<char>>) -> Seq<char> {
    match split_line(line) {
        Some((ex, k, _)) => if l.contains_key(k) {
            assignment_line(export_prefix(ex), k, l[k])
        } else {
            line
        },
        None => line,
    }
}

/// The keys that lines assign.
pub open spec fn line_keys(ls: Seq<Seq<char>>) -> Set<Seq<char>>
    decreases ls.len(),
{
    if ls.len() == 0 {
        Set::empty()
    } else {
        match split_line(ls.last()) {
            Some((_, k, _)) => line_keys(ls.drop_last()).insert(k),
            None => line_keys(ls.drop_last()),
        }
    }
}

/// A `KEY=value` line for each assignment whose key is not in `seen`.
pub open spec fn appended_lines(es: Seq<(Seq<char>, Seq<char>)>, seen: Set<Seq<char>>) -> Seq<Seq<char>>
    decreases es.len(),
{
    if es.len() == 0 {
        seq![]
    } else {
        appended_lines(es.drop_last(), seen) + if seen.contains(es.last().0) {
            Seq::<Seq<char>>::empty()
        } else {
            seq![assignment_line(seq![], es.last().0, es.last().1)]
        }
    }
}

/// The lines of a merge: main's lines with the linked values put in, then an
/// assignment for each linked entry whose key main does not assign.
pub open spec fn merged_lines(main_lines: Seq<Seq<char>>, linked_kv: Seq<(Seq<char>, Seq<char>)>) -> Seq<Seq<char>> {
    main_lines.map_values(|line: Seq<char>| merged_line(line, env_map(linked_kv)))
        + appended_lines(linked_kv, line_keys(main_lines))
}

/// The text that merging `linked` into `main` produces.
pub open spec fn merged_text(main: EnvFile, linked: EnvFile) -> Seq<char> {
    with_final_newline(join_lines(merged_lines(main.line_views(), linked.kv())))
}

pub fn format_value(val: &Vec<char>) -> (r: Vec<char>)
    ensures
        r@ == formatted_value(val@),
{
    if contains_char(val, ' ') || contains_char(val, '#') || contains_char(val, '"') {
        let mut out: Vec<char> = Vec::new();
        out.push('"');
        let mut i: usize = 0;
        while i < val.len()
            invariant
                0 <= i <= val.len(),
                out@ == seq!['"'] + escape_quotes(val@.take(i as int)),
            decreases val.len() - i,
        {
            assert(val@.take(i + 1).drop_last() =~= val@.take(i as int));
            if val[i] == '"' {
                out.push('\\');
                out.push('"');
            } else {
                out.push(val[i]);
            }
            i = i + 1;
            assert(out@ =~= seq!['"'] + escape_quotes(val@.take(i as int)));
        }
        out.push('"');
        assert(val@.take(i as int) =~= val@);
        out
    } else {
        copy_range(val, 0, val.len())
    }
}

fn build_assignment(export: bool, key: &Vec<char>, value: &Vec<char>) -> (r: Vec<char>)
    ensures
        r@ == assignment_line(export_prefix(export), key@, value@),
{
    let mut out: Vec<char> = if export {
        export_chars()
    } else {
        Vec::new()
    };
    assert(out@ =~= export_prefix(export));
    append_chars(&mut out, key);
    out.push('=');
    let fv = format_value(value);
    append_chars(&mut out, &fv);
    out
}

pub fn same_chars(a: &Vec<char>, b: &Vec<char>) -> (r: bool)
    ensures
        r == (a@ == b@),
{
    if a.len() != b.len() {
        return false;
    }
    let mut i: usize = 0;
    while i < a.len()
        invariant
            0 <= i <= a.len() == b.len(),
            forall|j: int| 0 <= j < i ==> a@[j] == b@[j],
        decreases a.len() - i,
    {
        if a[i] != b[i] {
            return false;
        }
        i = i + 1;
    }
    assert(a@ =~= b@);
    true
}

fn contains_chars(vs: &Vec<Vec<char>>, k: &Vec<char>) -> (r: bool)
    ensures
        r == vviews(vs@).contains(k@),
{
    let mut i: usize = 0;
    while i < vs.len()
        invariant
            0 <= i <= vs.len(),
            forall|j: int| 0 <= j < i ==> vviews(vs@)[j] != k@,
        decreases vs.len() - i,
    {
        if same_chars(&vs[i], k) {
            assert(vviews(vs@)[i as int] == k@);
            return true;
        }
        i = i + 1;
    }
    false
}

/// Merges the linked file into main's: main's lines, in order, with the
/// value of every key that the linked file binds replaced by the linked
/// value, followed by the linked entries whose keys main does not assign;
/// joined by `'\n'` and ending in one.
pub fn merge_env(main: &EnvFile, linked: &EnvFile) -> (r: Result<String, EnvsyncError>)
    ensures
        r matches Ok(s) && s@ == merged_text(*main, *linked),
{
    let linked_map = linked.to_map();
    let ghost l = linked.map_view();
    let ghost lp = pair_views(linked_map@);
    let ghost ml = main.line_views();
    proof {
        lemma_map_pairs(linked.kv());
    }
    let mut out: Vec<Vec<char>> = Vec::new();
    let mut seen: Vec<Vec<char>> = Vec::new();
    let mut i: usize = 0;
    while i < main.lines.len()
        invariant
            0 <= i <= main.lines.len(),
            ml == main.line_views(),
            lp == pair_views(linked_map@),
            lp == map_pairs(linked.kv()),
            l == env_map(linked.kv()),
            forall|k: Seq<char>| #[trigger] l.contains_key(k) <==> key_index(lp, k) < lp.len(),
            forall|q: int| 0 <= q < lp.len() ==> l[#[trigger] lp[q].0] == lp[q].1,
            vviews(out@) == ml.take(i as int).map_values(|line: Seq<char>| merged_line(line, l)),
            forall|x: Seq<char>| #[trigger] vviews(seen@).contains(x) <==> line_keys(ml.take(i as int)).contains(x),
        decreases main.lines.len() - i,
    {
        let lc = chars_of(main.lines[i].as_str());
        let ghost line = ml[i as int];
        assert(lc@ == line);
        assert(ml.take(i + 1).drop_last() =~= ml.take(i as int));
        assert(ml.take(i + 1).last() == line);
        let ghost old_seen = vviews(seen@);
        let ghost old_out = vviews(out@);
        match split_line_exec(&lc) {
            Some((ex, key, _)) => {
                let key_s = string_from_chars(&key);
                proof {
                    lemma_key_index_props(lp, key@);
                }
                match find_key(&linked_map, &key_s) {
                    Some(j) => {
                        assert(lp[j as int].0 == key@);
                        let lv = chars_of(linked_map[j].1.as_str());
                        let newline = build_assignment(ex, &key, &lv);
                        assert(l.contains_key(key@));
                        assert(l[key@] == lv@);
                        assert(newline@ == merged_line(line, l));
                        out.push(newline);
                        assert(vviews(out@) =~= old_out.push(merged_line(line, l)));
                    },
                    None => {
                        assert(!l.contains_key(key@));
                        out.push(lc);
                        assert(vviews(out@) =~= old_out.push(merged_line(line, l)));
                    },
                }
                seen.push(key);
                assert(vviews(seen@) =~= old_seen.push(key@));
                assert forall|x: Seq<char>| #[trigger] vviews(seen@).contains(x) <==> line_keys(ml.take(i + 1)).contains(x) by {
                    if vviews(seen@).contains(x) && x != key@ {
                        let t = choose|t: int| 0 <= t < vviews(seen@).len() && vviews(seen@)[t] == x;
                        assert(old_seen[t] == x);
                    }
                    if x == key@ {
                        assert(vviews(seen@)[old_seen.len() as int] == x);
                    } else if old_seen.contains(x) {
                        let t = choose|t: int| 0 <= t < old_seen.len() && old_seen[t] == x;
                        assert(vviews(seen@)[t] == x);
                    }
                }
            },
            None => {
                out.push(lc);
                assert(vviews(out@) =~= old_out.push(merged_line(line, l)));
            },
        }
        i = i + 1;
        assert(vviews(out@) =~= ml.take(i as int).map_values(|line: Seq<char>| merged_line(line, l)));
    }
    assert(ml.take(i as int) =~= ml);
    let ghost head = vviews(out@);
    let ghost keys = line_keys(ml);
    let ghost kv = linked.kv();
    let mut j: usize = 0;
    while j < linked.entries.len()
        invariant
            0 <= j <= linked.entries.len(),
            kv == linked.kv(),
            forall|x: Seq<char>| #[trigger] vviews(seen@).contains(x) <==> keys.contains(x),
            vviews(out@) == head + appended_lines(kv.take(j as int), keys),
        decreases linked.entries.len() - j,
    {
        let e = &linked.entries[j];
        assert(kv.take(j + 1).drop_last() =~= kv.take(j as int));
        assert(kv.take(j + 1).last() == (e.key@, e.value@));
        let kc = chars_of(e.key.as_str());
        let ghost old_out = vviews(out@);
        if !contains_chars(&seen, &kc) {
            let vc = chars_of(e.value.as_str());
            let newline = build_assignment(false, &kc, &vc);
            assert(export_prefix(false) =~= Seq::<char>::empty());
            out.push(newline);
            assert(vviews(out@) =~= old_out.push(assignment_line(seq![], e.key@, e.value@)));
        }
        j = j + 1;
        assert(vviews(out@) =~= head + appended_lines(kv.take(j as int), keys));
    }
    assert(kv.take(j as int) =~= kv);
    let mut joined = join_with_newlines(&out);
    let n = joined.len();
    if !(n > 0 && joined[n - 1] == '\n') {
        joined.push('\n');
    }
    Ok(string_from_chars(&joined))
}

// ---------------------------------------------------------------------------
// Putting in per-worktree values
// ---------------------------------------------------------------------------

/// Name/value pairs as a map: each name bound to its first value.
pub open spec fn first_values(ps: Seq<(Seq<char>, Seq<char>)>) -> Map<Seq<char>, Seq<char>> {
    Map::new(|k: Seq<char>| key_index(ps, k) < ps.len(), |k: Seq<char>| ps[key_index(ps, k)].1)
}

/// A text with the value of each assignment of a named key replaced (keeping
/// its `export`), every other line as it is, joined with `'\n'` and ending
/// in one.
pub open spec fn overridden_text(content: Seq<char>, ps: Seq<(Seq<char>, Seq<char>)>) -> Seq<char> {
    with_final_newline(
        join_lines(lines(content).map_values(|line: Seq<char>| merged_line(line, first_values(ps)))),
    )
}

/// Puts per-worktree values into the text of a `.env` file: every
/// assignment of a key among `values` gets that value (the first one given
/// for the key); keys that the text does not assign are not added.
pub fn apply_overrides(content: &str, values: &Vec<(String, String)>) -> (r: String)
    ensures
        r@ == overridden_text(content@, pair_views(values@)),
{
    let ghost ps = pair_views(values@);
    let ghost l = first_values(ps);
    let cs = chars_of(content);
    let ls = split_lines(&cs);
    let ghost lv = lines(content@);
    let mut out: Vec<Vec<char>> = Vec::new();
    let mut i: usize = 0;
    while i < ls.len()
        invariant
            0 <= i <= ls.len(),
            vviews(ls@) == lv,
            lv == lines(content@),
            ps == pair_views(values@),
            l == first_values(ps),
            vviews(out@) == lv.take(i as int).map_values(|line: Seq<char>| merged_line(line, l)),
        decreases ls.len() - i,
    {
        let line = &ls[i];
        let ghost x = lv[i as int];
        assert(line@ == x);
        let ghost old_out = vviews(out@);
        let lc = copy_range(line, 0, line.len());
        assert(lc@ =~= x);
        match split_line_exec(line) {
            Some((ex, key, _)) => {
                let key_s = string_from_chars(&key);
                proof {
                    lemma_key_index_props(ps, key@);
                }
                match find_key(values, &key_s) {
                    Some(j) => {
                        let v = chars_of(values[j].1.as_str());
                        assert(l.contains_key(key@));
                        assert(l[key@] == v@);
                        let newline = build_assignment(ex, &key, &v);
                        out.push(newline);
                    },
                    None => {
                        assert(!l.contains_key(key@));
                        out.push(lc);
                    },
                }
            },
            None => {
                out.push(lc);
            },
        }
        assert(vviews(out@) =~= old_out.push(merged_line(x, l)));
        assert(lv.take(i + 1) =~= lv.take(i as int).push(x));
        i = i + 1;
        assert(vviews(out@) =~= lv.take(i as int).map_values(|line: Seq<char>| merged_line(line, l)));
    }
    assert(lv.take(i as int) =~= lv);
    let mut joined = join_with_newlines(&out);
    let n = joined.len();
    if !(n > 0 && joined[n - 1] == '\n') {
        joined.push('\n');
    }
    string_from_chars(&joined)
}

} // verus!
