use vstd::prelude::*;

use crate::envfile::{
    appended_lines, assignment_line, diff_at, diff_keys, diff_view, entries_of, env_map,
    escape_quotes, export_prefix, export_word, first_values, formatted_value, is_diff_of, kv_pairs,
    lemma_lines_have_no_newline, line_entry, line_keys, line_parses, lone_quote, merged_line,
    merged_lines, merged_text, needs_quotes, overridden_text, split_line, strip_export, text_parses, unquote, DiffKind, EnvDiff, EnvFile,
};
use crate::text::{
    first_index, has_char, lemma_final_newline, lemma_first_index_is, lemma_first_index_props,
    lemma_has_char_subrange, lemma_lex_asym, lemma_lex_irrefl, lemma_lines_terminated,
    lemma_trim_fixed, lemma_trim_idem, lemma_trim_props, lemma_trim_start_suffix,
    lemma_trim_strip_cr, lex_lt, lines, single_lines, strip_cr, trim, trim_start, written_lines,
};

verus! {

// ---------------------------------------------------------------------------
// When a written assignment reads back as itself
// ---------------------------------------------------------------------------

/// A value that merging writes so that parsing reads it back unchanged: it
/// holds no `'"'`, and unless it is written in quotes it neither starts nor
/// ends with whitespace and is not wrapped in single quotes.
pub open spec fn value_survives(v: Seq<char>) -> bool {
    &&& !has_char(v, '"')
    &&& needs_quotes(v) || (trim(v) == v && !(v.len() >= 1 && v[0] == '\'' && v.last() == '\''))
}

/// A key that can start a line of its own: no comment mark, no `"export "`.
pub open spec fn key_survives(k: Seq<char>) -> bool {
    !(k.len() > 0 && k[0] == '#') && !export_word().is_prefix_of(k)
}

/// A key as parsing yields it: trimmed, and without `'='`.
pub open spec fn clean_key(k: Seq<char>) -> bool {
    trim(k) == k && !has_char(k, '=')
}

pub proof fn lemma_split_line_props(line: Seq<char>)
    requires
        split_line(line) is Some,
    ensures
        ({
            let (ex, k, raw) = split_line(line)->0;
            &&& clean_key(k)
            &&& !ex ==> key_survives(k)
            &&& forall|c: char| has_char(k, c) ==> has_char(line, c)
            &&& forall|c: char| has_char(raw, c) ==> has_char(line, c)
        }),
{
    let (ex, k, raw) = split_line(line)->0;
    let t = trim(line);
    let kv = strip_export(t);
    let p = first_index(kv, '=');
    lemma_trim_props(line);
    lemma_first_index_props(kv, '=');
    let a: int = if export_word().is_prefix_of(t) { 7 } else { 0 };
    assert(kv =~= t.subrange(a, t.len() as int));
    assert(kv.take(p) =~= kv.subrange(0, p));
    assert(kv.skip(p + 1) =~= kv.subrange(p + 1, kv.len() as int));
    lemma_trim_idem(kv.take(p));
    lemma_trim_props(kv.take(p));
    lemma_trim_props(kv.skip(p + 1));
    assert forall|c: char| has_char(kv, c) implies has_char(line, c) by {
        lemma_has_char_subrange(t, a, t.len() as int, c);
    }
    assert forall|c: char| has_char(k, c) implies has_char(line, c) by {
        lemma_has_char_subrange(kv, 0, p, c);
    }
    assert forall|c: char| has_char(raw, c) implies has_char(line, c) by {
        lemma_has_char_subrange(kv, p + 1, kv.len() as int, c);
    }
    if has_char(k, '=') {
        assert(has_char(kv.take(p), '='));
        let i = choose|i: int| 0 <= i < kv.take(p).len() && kv.take(p)[i] == '=';
        assert(kv[i] == '=');
    }
    assert(clean_key(k));
    if !ex && k.len() > 0 {
        let u = kv.take(p);
        assert(u[0] == t[0]);
        lemma_trim_start_suffix(u);
        assert(trim_start(u) == u);
        assert(k == u.subrange(0, k.len() as int));
        assert(k[0] == t[0]);
        if export_word().is_prefix_of(k) {
            assert(export_word().is_prefix_of(t)) by {
                assert forall|i: int| 0 <= i < 7 implies t[i] == export_word()[i] by {
                    assert(k[i] == t[i]);
                }
                assert(export_word() =~= t.subrange(0, 7));
            }
        }
        assert(key_survives(k));
    }
    assert(!ex ==> key_survives(k));
}

pub proof fn lemma_escape_plain(v: Seq<char>)
    requires
        !has_char(v, '"'),
    ensures
        escape_quotes(v) == v,
    decreases v.len(),
{
    if v.len() > 0 {
        assert(!has_char(v.drop_last(), '"')) by {
            if has_char(v.drop_last(), '"') {
                let i = choose|i: int| 0 <= i < v.drop_last().len() && v.drop_last()[i] == '"';
                assert(v[i] == '"');
            }
        }
        assert(v.last() != '"');
        lemma_escape_plain(v.drop_last());
        assert(v.drop_last().push(v.last()) =~= v);
    }
}

pub proof fn lemma_escape_chars(v: Seq<char>, c: char)
    requires
        c != '"',
        c != '\\',
        has_char(escape_quotes(v), c),
    ensures
        has_char(v, c),
    decreases v.len(),
{
    if v.len() > 0 {
        let e = escape_quotes(v);
        let d = escape_quotes(v.drop_last());
        let tail: Seq<char> = if v.last() == '"' { seq!['\\', '"'] } else { seq![v.last()] };
        assert(e == d + tail);
        let i = choose|i: int| 0 <= i < e.len() && e[i] == c;
        if i < d.len() {
            assert(d[i] == c);
            lemma_escape_chars(v.drop_last(), c);
            let j = choose|j: int| 0 <= j < v.drop_last().len() && v.drop_last()[j] == c;
            assert(v[j] == c);
        } else {
            assert(tail[i - d.len()] == c);
            assert(v[v.len() - 1] == c);
        }
    }
}

/// The line that merging writes for a key and a value reads back as that
/// key and that value.
#[verifier::rlimit(40)]
pub proof fn lemma_assignment_reads_back(ex: bool, k: Seq<char>, v: Seq<char>)
    requires
        clean_key(k),
        value_survives(v),
        !ex ==> key_survives(k),
    ensures
        split_line(assignment_line(export_prefix(ex), k, v)) == Some(
            (ex, k, formatted_value(v)),
        ),
        line_entry(assignment_line(export_prefix(ex), k, v)) == Some((k, v)),
        line_parses(assignment_line(export_prefix(ex), k, v)),
{
    let fv = formatted_value(v);
    let pre = export_prefix(ex);
    let line = assignment_line(pre, k, v);
    let body = k + seq!['='] + fv;
    assert(line =~= pre + body);
    lemma_trim_props(k);
    lemma_trim_props(v);
    // The written value.
    if needs_quotes(v) {
        lemma_escape_plain(v);
        assert(fv.len() >= 2);
        assert(fv[0] == '"' && fv.last() == '"');
        assert(fv.subrange(1, fv.len() - 1) =~= v);
    } else {
        assert(fv == v);
        if v.len() >= 2 && v[0] == '"' {
            assert(has_char(v, '"'));
        }
        if v.len() == 1 && v[0] == '"' {
            assert(has_char(v, '"'));
        }
    }
    assert(unquote(fv) == v);
    assert(!lone_quote(fv));
    lemma_trim_fixed(fv);
    // The line is its own trim.
    assert(line.len() > 0);
    if ex {
        assert(line[0] == 'e');
    } else if k.len() > 0 {
        assert(line[0] == k[0]);
    } else {
        assert(line[0] == '=');
    }
    if fv.len() > 0 {
        assert(line.last() == fv.last());
    } else {
        assert(line.last() == '=');
    }
    lemma_trim_fixed(line);
    assert(line[0] != '#');
    // The export word.
    if ex {
        assert(export_word().is_prefix_of(line)) by {
            assert(line.subrange(0, 7) =~= export_word());
        }
        assert(line.skip(7) =~= body);
    } else {
        assert(line =~= body);
        if export_word().is_prefix_of(body) {
            if k.len() >= 7 {
                assert(export_word() =~= k.subrange(0, 7)) by {
                    assert forall|i: int| 0 <= i < 7 implies export_word()[i] == k[i] by {
                        assert(body[i] == k[i]);
                    }
                }
            } else {
                assert(body[k.len() as int] == '=');
                assert(export_word()[k.len() as int] != '=');
            }
        }
    }
    assert(strip_export(line) == body);
    // The first '='.
    assert forall|j: int| 0 <= j < k.len() implies body[j] != '=' by {
        assert(body[j] == k[j]);
    }
    lemma_first_index_is(body, '=', k.len() as int);
    assert(body.take(k.len() as int) =~= k);
    assert(body.skip(k.len() as int + 1) =~= fv);
}

// ---------------------------------------------------------------------------
// Quoted values
// ---------------------------------------------------------------------------

/// Quote removal takes off one pair of surrounding double quotes, or one
/// pair of surrounding single quotes, whatever lies between them, and
/// leaves every other value as it is.
pub proof fn law_unquote_strips_one_pair(s: Seq<char>)
    ensures
        s.len() >= 2 && s[0] == '"' && s.last() == '"' ==> unquote(s) == s.subrange(1, s.len() - 1),
        s.len() >= 2 && s[0] == '\'' && s.last() == '\'' ==> unquote(s) == s.subrange(1, s.len() - 1),
        !(s.len() >= 2 && s[0] == s.last() && (s[0] == '"' || s[0] == '\'')) ==> unquote(s) == s,
{
}

/// An assignment `KEY="value"` or `KEY='value'` reads back as the key and
/// the value inside the quotes, whatever the value holds.
pub proof fn law_quoted_value_reads_back(k: Seq<char>, v: Seq<char>, q: char)
    requires
        clean_key(k),
        key_survives(k),
        q == '"' || q == '\'',
    ensures
        split_line(k + seq!['=', q] + v + seq![q]) == Some((false, k, seq![q] + v + seq![q])),
        line_entry(k + seq!['=', q] + v + seq![q]) == Some((k, v)),
        line_parses(k + seq!['=', q] + v + seq![q]),
{
    let w = seq![q] + v + seq![q];
    let line = k + seq!['=', q] + v + seq![q];
    let body = k + seq!['='] + w;
    assert(line =~= body);
    lemma_trim_props(k);
    assert(w[0] == q && w.last() == q);
    assert(w.subrange(1, w.len() - 1) =~= v);
    assert(unquote(w) == v);
    assert(!lone_quote(w));
    lemma_trim_fixed(w);
    if k.len() > 0 {
        assert(line[0] == k[0]);
    } else {
        assert(line[0] == '=');
    }
    assert(line.last() == q);
    lemma_trim_fixed(line);
    assert(line[0] != '#');
    if export_word().is_prefix_of(body) {
        if k.len() >= 7 {
            assert(export_word() =~= k.subrange(0, 7)) by {
                assert forall|i: int| 0 <= i < 7 implies export_word()[i] == k[i] by {
                    assert(body[i] == k[i]);
                }
            }
        } else {
            assert(body[k.len() as int] == '=');
            assert(export_word()[k.len() as int] != '=');
        }
    }
    assert(strip_export(line) == body);
    assert forall|j: int| 0 <= j < k.len() implies body[j] != '=' by {
        assert(body[j] == k[j]);
    }
    lemma_first_index_is(body, '=', k.len() as int);
    assert(body.take(k.len() as int) =~= k);
    assert(body.skip(k.len() as int + 1) =~= w);
}

// ---------------------------------------------------------------------------
// Lines that merging keeps
// ---------------------------------------------------------------------------

/// A line that assigns nothing: blank, a comment, or without `'='`.
pub open spec fn assigns_nothing(line: Seq<char>) -> bool {
    ||| trim(line).len() == 0
    ||| trim(line)[0] == '#'
    ||| !has_char(line, '=')
}

/// Merging (and putting in per-worktree values) writes a line that assigns
/// nothing exactly as it was: blank lines and comments, commented-out
/// settings among them, stay in place unchanged.
pub proof fn law_merge_keeps_other_lines(line: Seq<char>, l: Map<Seq<char>, Seq<char>>)
    requires
        assigns_nothing(line),
    ensures
        merged_line(line, l) == line,
{
    let t = trim(line);
    if t.len() > 0 && t[0] != '#' {
        lemma_trim_props(line);
        let kv = strip_export(t);
        let p = first_index(kv, '=');
        lemma_first_index_props(kv, '=');
        if p < kv.len() {
            let off: int = if export_word().is_prefix_of(t) { 7 } else { 0 };
            assert(kv[p] == t[p + off]);
            assert(has_char(t, '='));
        }
    }
}

/// Merging writes main's lines first, in order and in place: a line of
/// main that assigns nothing, or assigns a key the linked file does not
/// bind, is written unchanged at its own position.
pub proof fn law_merge_keeps_main_lines(main_lines: Seq<Seq<char>>, linked_kv: Seq<(Seq<char>, Seq<char>)>)
    ensures
        merged_lines(main_lines, linked_kv).len() >= main_lines.len(),
        forall|i: int|
            0 <= i < main_lines.len() && assigns_nothing(#[trigger] main_lines[i]) ==> merged_lines(
                main_lines,
                linked_kv,
            )[i] == main_lines[i],
        forall|i: int|
            0 <= i < main_lines.len() && ((#[trigger] line_entry(main_lines[i])) matches Some((k, _))
                && !env_map(linked_kv).contains_key(k)) ==> merged_lines(main_lines, linked_kv)[i]
                == main_lines[i],
{
    let l = env_map(linked_kv);
    let a = main_lines.map_values(|line: Seq<char>| merged_line(line, l));
    let all = merged_lines(main_lines, linked_kv);
    assert forall|i: int| 0 <= i < main_lines.len() && assigns_nothing(#[trigger] main_lines[i]) implies all[i]
        == main_lines[i] by {
        assert(all[i] == a[i]);
        law_merge_keeps_other_lines(main_lines[i], l);
    }
    assert forall|i: int|
        0 <= i < main_lines.len() && ((#[trigger] line_entry(main_lines[i])) matches Some((k, _))
            && !l.contains_key(k)) implies all[i] == main_lines[i] by {
        assert(all[i] == a[i]);
    }
}

// ---------------------------------------------------------------------------
// What a sequence of lines binds
// ---------------------------------------------------------------------------

/// The map that a sequence of lines amounts to once parsed: for the lines
/// of a text, the `map_view` of the file that `parse_content` makes of it.
pub open spec fn lines_map(ls: Seq<Seq<char>>) -> Map<Seq<char>, Seq<char>> {
    env_map(kv_pairs(entries_of(ls)))
}

pub proof fn lemma_lines_map_push(ls: Seq<Seq<char>>, x: Seq<char>)
    ensures
        lines_map(ls.push(x)) == match line_entry(x) {
            Some((k, v)) => lines_map(ls).insert(k, v),
            None => lines_map(ls),
        },
{
    assert(ls.push(x).drop_last() =~= ls);
    assert(ls.push(x).last() == x);
    match line_entry(x) {
        Some((k, v)) => {
            assert(entries_of(ls.push(x)) == entries_of(ls).push((k, v, x)));
            let kv = kv_pairs(entries_of(ls));
            assert(kv_pairs(entries_of(ls).push((k, v, x))) =~= kv.push((k, v)));
            assert(kv.push((k, v)).drop_last() =~= kv);
            assert(env_map(kv.push((k, v))) == env_map(kv).insert(k, v));
        },
        None => {
            assert(entries_of(ls.push(x)) == entries_of(ls));
        },
    }
}

pub proof fn lemma_lines_map_append(a: Seq<Seq<char>>, b: Seq<Seq<char>>)
    ensures
        lines_map(a + b) == lines_map(a).union_prefer_right(lines_map(b)),
    decreases b.len(),
{
    if b.len() == 0 {
        assert(a + b =~= a);
        assert(kv_pairs(entries_of(b)) =~= Seq::<(Seq<char>, Seq<char>)>::empty());
        assert(lines_map(a).union_prefer_right(lines_map(b)) =~= lines_map(a));
    } else {
        let b0 = b.drop_last();
        let x = b.last();
        assert(a + b =~= (a + b0).push(x));
        assert(b =~= b0.push(x));
        lemma_lines_map_append(a, b0);
        lemma_lines_map_push(a + b0, x);
        lemma_lines_map_push(b0, x);
        assert(lines_map(a + b) =~= lines_map(a).union_prefer_right(lines_map(b)));
    }
}

/// Parsing looks at a line only through its trimmed text.
pub proof fn lemma_strip_cr_same_line(x: Seq<char>)
    ensures
        split_line(strip_cr(x)) == split_line(x),
        line_entry(strip_cr(x)) == line_entry(x),
        line_parses(strip_cr(x)) == line_parses(x),
{
    lemma_trim_strip_cr(x);
}

pub proof fn lemma_lines_map_strip_cr(ls: Seq<Seq<char>>)
    ensures
        lines_map(ls.map_values(|l: Seq<char>| strip_cr(l))) == lines_map(ls),
    decreases ls.len(),
{
    if ls.len() > 0 {
        let f = |l: Seq<char>| strip_cr(l);
        let d = ls.drop_last();
        assert(ls =~= d.push(ls.last()));
        assert(ls.map_values(f) =~= d.map_values(f).push(strip_cr(ls.last())));
        lemma_lines_map_strip_cr(d);
        lemma_lines_map_push(d.map_values(f), strip_cr(ls.last()));
        lemma_lines_map_push(d, ls.last());
        lemma_strip_cr_same_line(ls.last());
    } else {
        assert(ls.map_values(|l: Seq<char>| strip_cr(l)) =~= ls);
    }
}

pub proof fn lemma_lines_map_written(ls: Seq<Seq<char>>)
    ensures
        lines_map(written_lines(ls)) == lines_map(ls),
{
    let blank = Seq::<char>::empty();
    assert(split_line(blank) is None);
    if ls.len() == 0 {
        assert(seq![blank] =~= ls.push(blank));
        lemma_lines_map_push(ls, blank);
    } else if ls.len() >= 2 && ls.last().len() == 0 {
        assert(ls.last() =~= blank);
        assert(ls =~= ls.drop_last().push(blank));
        lemma_lines_map_push(ls.drop_last(), blank);
    }
}

pub proof fn lemma_line_keys_dom(ls: Seq<Seq<char>>)
    ensures
        line_keys(ls) == lines_map(ls).dom(),
    decreases ls.len(),
{
    if ls.len() > 0 {
        let d = ls.drop_last();
        assert(ls =~= d.push(ls.last()));
        lemma_line_keys_dom(d);
        lemma_lines_map_push(d, ls.last());
        assert(line_keys(ls) =~= lines_map(ls).dom());
    } else {
        assert(line_keys(ls) =~= lines_map(ls).dom());
    }
}

// ---------------------------------------------------------------------------
// What the merged lines bind
// ---------------------------------------------------------------------------

/// `m` with the value of each of its keys that `l` binds taken from `l`.
pub open spec fn overridden(m: Map<Seq<char>, Seq<char>>, l: Map<Seq<char>, Seq<char>>) -> Map<Seq<char>, Seq<char>> {
    Map::new(|k: Seq<char>| m.contains_key(k), |k: Seq<char>| if l.contains_key(k) { l[k] } else { m[k] })
}

/// `m` without the keys in `seen`.
pub open spec fn without(m: Map<Seq<char>, Seq<char>>, seen: Set<Seq<char>>) -> Map<Seq<char>, Seq<char>> {
    Map::new(|k: Seq<char>| m.contains_key(k) && !seen.contains(k), |k: Seq<char>| m[k])
}

pub open spec fn values_survive(l: Map<Seq<char>, Seq<char>>) -> bool {
    forall|k: Seq<char>| #[trigger] l.contains_key(k) ==> value_survives(l[k])
}

pub proof fn lemma_merged_line_entry(x: Seq<char>, l: Map<Seq<char>, Seq<char>>)
    requires
        values_survive(l),
    ensures
        line_entry(merged_line(x, l)) == match line_entry(x) {
            Some((k, v)) => Some((k, if l.contains_key(k) { l[k] } else { v })),
            None => None,
        },
        line_parses(x) ==> line_parses(merged_line(x, l)),
{
    if let Some((ex, k, raw)) = split_line(x) {
        if l.contains_key(k) {
            lemma_split_line_props(x);
            lemma_assignment_reads_back(ex, k, l[k]);
        }
    }
}

pub proof fn lemma_lines_map_merged(ls: Seq<Seq<char>>, l: Map<Seq<char>, Seq<char>>)
    requires
        values_survive(l),
    ensures
        lines_map(ls.map_values(|x: Seq<char>| merged_line(x, l))) == overridden(lines_map(ls), l),
    decreases ls.len(),
{
    let f = |x: Seq<char>| merged_line(x, l);
    if ls.len() > 0 {
        let d = ls.drop_last();
        let x = ls.last();
        assert(ls =~= d.push(x));
        assert(ls.map_values(f) =~= d.map_values(f).push(merged_line(x, l)));
        lemma_lines_map_merged(d, l);
        lemma_lines_map_push(d.map_values(f), merged_line(x, l));
        lemma_lines_map_push(d, x);
        lemma_merged_line_entry(x, l);
        assert(lines_map(ls.map_values(f)) =~= overridden(lines_map(ls), l));
    } else {
        assert(ls.map_values(f) =~= ls);
        assert(lines_map(ls.map_values(f)) =~= overridden(lines_map(ls), l));
    }
}

/// The assignments that merging appends can be written on lines of their own.
pub open spec fn appendable(es: Seq<(Seq<char>, Seq<char>)>, seen: Set<Seq<char>>) -> bool {
    forall|i: int|
        0 <= i < es.len() && !seen.contains(#[trigger] es[i].0) ==> clean_key(es[i].0)
            && key_survives(es[i].0) && value_survives(es[i].1)
}

pub proof fn lemma_lines_map_appended(es: Seq<(Seq<char>, Seq<char>)>, seen: Set<Seq<char>>)
    requires
        appendable(es, seen),
    ensures
        lines_map(appended_lines(es, seen)) == without(env_map(es), seen),
    decreases es.len(),
{
    if es.len() > 0 {
        let d = es.drop_last();
        let (k, v) = es.last();
        assert(appendable(d, seen)) by {
            assert forall|i: int| 0 <= i < d.len() && !seen.contains(#[trigger] d[i].0) implies clean_key(d[i].0)
                && key_survives(d[i].0) && value_survives(d[i].1) by {
                assert(d[i] == es[i]);
            }
        }
        lemma_lines_map_appended(d, seen);
        if seen.contains(k) {
            assert(appended_lines(es, seen) =~= appended_lines(d, seen));
        } else {
            assert(es[es.len() - 1] == es.last());
            lemma_assignment_reads_back(false, k, v);
            assert(export_prefix(false) =~= Seq::<char>::empty());
            assert(appended_lines(es, seen) =~= appended_lines(d, seen).push(assignment_line(seq![], k, v)));
            lemma_lines_map_push(appended_lines(d, seen), assignment_line(seq![], k, v));
        }
        assert(lines_map(appended_lines(es, seen)) =~= without(env_map(es), seen));
    } else {
        assert(lines_map(appended_lines(es, seen)) =~= without(env_map(es), seen));
    }
}

// ---------------------------------------------------------------------------
// Line breaks stay out of the merged lines
// ---------------------------------------------------------------------------

pub proof fn lemma_env_map_value_from(es: Seq<(Seq<char>, Seq<char>)>, k: Seq<char>)
    requires
        env_map(es).contains_key(k),
    ensures
        exists|i: int| 0 <= i < es.len() && es[i] == (k, env_map(es)[k]),
    decreases es.len(),
{
    if es.last().0 == k {
        assert(es[es.len() - 1] == (k, env_map(es)[k]));
    } else {
        lemma_env_map_value_from(es.drop_last(), k);
        let i = choose|i: int| 0 <= i < es.drop_last().len() && es.drop_last()[i] == (k, env_map(es.drop_last())[k]);
        assert(es[i] == es.drop_last()[i]);
    }
}

/// Keys and values of parsed lines are clean, and hold no line break.
pub proof fn lemma_entries_props(ls: Seq<Seq<char>>)
    requires
        single_lines(ls),
    ensures
        forall|i: int|
            0 <= i < entries_of(ls).len() ==> clean_key(#[trigger] entries_of(ls)[i].0)
                && !has_char(entries_of(ls)[i].0, '\n') && !has_char(entries_of(ls)[i].1, '\n'),
    decreases ls.len(),
{
    if ls.len() > 0 {
        let d = ls.drop_last();
        assert(single_lines(d)) by {
            assert forall|i: int| 0 <= i < d.len() implies !has_char(#[trigger] d[i], '\n') by {
                assert(d[i] == ls[i]);
            }
        }
        lemma_entries_props(d);
        let x = ls.last();
        assert(!has_char(ls[ls.len() - 1], '\n'));
        let ed = entries_of(d);
        if let Some((ex, k, raw)) = split_line(x) {
            lemma_split_line_props(x);
            let v = unquote(raw);
            assert(!has_char(v, '\n')) by {
                if has_char(v, '\n') && v != raw {
                    lemma_has_char_subrange(raw, 1, raw.len() - 1, '\n');
                }
            }
            assert(entries_of(ls) == ed.push((k, v, x)));
            assert forall|i: int| 0 <= i < entries_of(ls).len() implies clean_key(#[trigger] entries_of(ls)[i].0)
                && !has_char(entries_of(ls)[i].0, '\n') && !has_char(entries_of(ls)[i].1, '\n') by {
                if i < ed.len() {
                    assert(entries_of(ls)[i] == ed[i]);
                }
            }
        } else {
            assert(entries_of(ls) == ed);
        }
    }
}

pub proof fn lemma_assignment_single(ex: bool, k: Seq<char>, v: Seq<char>)
    requires
        !has_char(k, '\n'),
        !has_char(v, '\n'),
    ensures
        !has_char(assignment_line(export_prefix(ex), k, v), '\n'),
{
    let pre = export_prefix(ex);
    let fv = formatted_value(v);
    let line = assignment_line(pre, k, v);
    if has_char(line, '\n') {
        let i = choose|i: int| 0 <= i < line.len() && line[i] == '\n';
        if i < pre.len() {
            assert(pre[i] == '\n');
        } else if i < pre.len() + k.len() {
            assert(k[i - pre.len()] == '\n');
        } else if i == pre.len() + k.len() {
        } else {
            let j = i - pre.len() - k.len() - 1;
            assert(fv[j] == '\n');
            assert(has_char(fv, '\n'));
            if needs_quotes(v) {
                let e = escape_quotes(v);
                assert(e[j - 1] == '\n');
                assert(has_char(e, '\n'));
                lemma_escape_chars(v, '\n');
            }
        }
    }
}

pub proof fn lemma_appended_ok(es: Seq<(Seq<char>, Seq<char>)>, seen: Set<Seq<char>>)
    requires
        appendable(es, seen),
        forall|i: int| 0 <= i < es.len() ==> !has_char(#[trigger] es[i].0, '\n') && !has_char(es[i].1, '\n'),
    ensures
        forall|j: int|
            0 <= j < appended_lines(es, seen).len() ==> line_parses(#[trigger] appended_lines(es, seen)[j])
                && !has_char(appended_lines(es, seen)[j], '\n'),
    decreases es.len(),
{
    if es.len() > 0 {
        let d = es.drop_last();
        let (k, v) = es.last();
        assert(es[es.len() - 1] == es.last());
        assert(appendable(d, seen)) by {
            assert forall|i: int| 0 <= i < d.len() && !seen.contains(#[trigger] d[i].0) implies clean_key(d[i].0)
                && key_survives(d[i].0) && value_survives(d[i].1) by {
                assert(d[i] == es[i]);
            }
        }
        assert forall|i: int| 0 <= i < d.len() implies !has_char(#[trigger] d[i].0, '\n') && !has_char(d[i].1, '\n') by {
            assert(d[i] == es[i]);
        }
        lemma_appended_ok(d, seen);
        if !seen.contains(k) {
            lemma_assignment_reads_back(false, k, v);
            lemma_assignment_single(false, k, v);
            assert(export_prefix(false) =~= Seq::<char>::empty());
            assert(appended_lines(es, seen) =~= appended_lines(d, seen).push(assignment_line(seq![], k, v)));
        } else {
            assert(appended_lines(es, seen) =~= appended_lines(d, seen));
        }
    }
}

// ---------------------------------------------------------------------------
// Reading back a merge
// ---------------------------------------------------------------------------

/// The inputs on which merged values read back as they were written: every
/// value the linked file binds survives being written, and every linked
/// assignment of a key that main does not have can start a line of its own.
pub open spec fn merge_reads_back(main: EnvFile, linked: EnvFile) -> bool {
    &&& values_survive(linked.map_view())
    &&& appendable(linked.kv(), main.map_view().dom())
}

/// Merging keeps main's keys and adds the linked-only keys, and on a key that
/// both files bind the linked value wins: parsing the merged text gives
/// main's map overridden by the linked map. The merged text can always be
/// parsed again.
pub proof fn law_merge_reads_back(main: EnvFile, linked: EnvFile)
    requires
        main.wf(),
        linked.wf(),
        merge_reads_back(main, linked),
    ensures
        text_parses(merged_text(main, linked)),
        lines_map(lines(merged_text(main, linked))) == main.map_view().union_prefer_right(
            linked.map_view(),
        ),
        forall|back: EnvFile|
            back.entry_views() == entries_of(lines(merged_text(main, linked))) ==> #[trigger] back.map_view()
                == main.map_view().union_prefer_right(linked.map_view()),
{
    let ml = main.line_views();
    let kv = linked.kv();
    let l = linked.map_view();
    let m = main.map_view();
    assert(m == lines_map(ml));
    lemma_line_keys_dom(ml);
    let keys = line_keys(ml);
    assert(keys == m.dom());
    let f = |x: Seq<char>| merged_line(x, l);
    let a = ml.map_values(f);
    let b = appended_lines(kv, keys);
    let all = merged_lines(ml, kv);
    assert(all == a + b);
    // What the merged lines bind.
    lemma_lines_map_append(a, b);
    lemma_lines_map_merged(ml, l);
    lemma_lines_map_appended(kv, keys);
    assert(lines_map(all) =~= m.union_prefer_right(l));
    // The merged lines hold no line break and parse.
    assert(single_lines(ml)) by {
        assert forall|i: int| 0 <= i < ml.len() implies !has_char(#[trigger] ml[i], '\n') by {
            assert(ml[i] == main.lines@[i]@);
        }
    }
    assert(single_lines(linked.line_views())) by {
        assert forall|i: int| 0 <= i < linked.line_views().len() implies !has_char(#[trigger] linked.line_views()[i], '\n') by {
            assert(linked.line_views()[i] == linked.lines@[i]@);
        }
    }
    lemma_entries_props(linked.line_views());
    assert forall|i: int| 0 <= i < kv.len() implies !has_char(#[trigger] kv[i].0, '\n') && !has_char(kv[i].1, '\n') by {
        assert(kv[i].0 == linked.entry_views()[i].0);
        assert(kv[i].1 == linked.entry_views()[i].1);
    }
    lemma_appended_ok(kv, keys);
    assert forall|i: int| 0 <= i < all.len() implies line_parses(#[trigger] all[i]) && !has_char(all[i], '\n') by {
        if i < a.len() {
            let x = ml[i];
            assert(all[i] == merged_line(x, l));
            assert(line_parses(x)) by {
                assert(x == main.lines@[i]@);
            }
            lemma_merged_line_entry(x, l);
            if let Some((ex, k, raw)) = split_line(x) {
                if l.contains_key(k) {
                    lemma_split_line_props(x);
                    lemma_env_map_value_from(kv, k);
                    let j = choose|j: int| 0 <= j < kv.len() && kv[j] == (k, l[k]);
                    lemma_assignment_single(ex, k, l[k]);
                }
            }
        } else {
            assert(all[i] == b[i - a.len()]);
        }
    }
    assert(single_lines(all));
    // Writing and reading back the lines.
    let w = written_lines(all);
    assert(forall|i: int| 0 <= i < w.len() ==> line_parses(#[trigger] w[i]) && !has_char(w[i], '\n')) by {
        assert forall|i: int| 0 <= i < w.len() implies line_parses(#[trigger] w[i]) && !has_char(w[i], '\n') by {
            if all.len() == 0 {
                assert(w[i] == Seq::<char>::empty());
                assert(split_line(w[i]) is None);
            } else {
                assert(w[i] == all[i]);
            }
        }
    }
    lemma_final_newline(all);
    lemma_lines_terminated(w);
    let back = lines(merged_text(main, linked));
    assert(back == w.map_values(|x: Seq<char>| strip_cr(x)));
    lemma_lines_map_strip_cr(w);
    lemma_lines_map_written(all);
    assert forall|i: int| 0 <= i < back.len() implies line_parses(#[trigger] back[i]) by {
        lemma_strip_cr_same_line(w[i]);
    }
}

// ---------------------------------------------------------------------------
// Reading back per-worktree values
// ---------------------------------------------------------------------------

/// The values on which per-worktree values read back as they were given:
/// the first value given for each key survives being written and holds no
/// line break.
pub open spec fn overrides_read_back(ps: Seq<(Seq<char>, Seq<char>)>) -> bool {
    &&& values_survive(first_values(ps))
    &&& forall|k: Seq<char>| #[trigger] first_values(ps).contains_key(k) ==> !has_char(first_values(ps)[k], '\n')
}

/// Putting per-worktree values into a parseable text changes only the values
/// of the keys that are given: parsing the result gives the text's map with
/// each of its keys that has a value given bound to the first value given
/// for it, with no key added or lost; and the result can be parsed again.
pub proof fn law_overrides_read_back(content: Seq<char>, ps: Seq<(Seq<char>, Seq<char>)>)
    requires
        text_parses(content),
        overrides_read_back(ps),
    ensures
        text_parses(overridden_text(content, ps)),
        lines_map(lines(overridden_text(content, ps))) == overridden(lines_map(lines(content)), first_values(ps)),
        forall|back: EnvFile|
            back.entry_views() == entries_of(lines(overridden_text(content, ps))) ==> #[trigger] back.map_view()
                == overridden(lines_map(lines(content)), first_values(ps)),
{
    let ml = lines(content);
    let l = first_values(ps);
    let f = |x: Seq<char>| merged_line(x, l);
    let all = ml.map_values(f);
    lemma_lines_have_no_newline(content);
    lemma_lines_map_merged(ml, l);
    assert forall|i: int| 0 <= i < all.len() implies line_parses(#[trigger] all[i]) && !has_char(all[i], '\n') by {
        let x = ml[i];
        assert(all[i] == merged_line(x, l));
        lemma_merged_line_entry(x, l);
        if let Some((ex, k, raw)) = split_line(x) {
            if l.contains_key(k) {
                lemma_split_line_props(x);
                lemma_assignment_single(ex, k, l[k]);
            }
        }
    }
    assert(single_lines(all));
    let w = written_lines(all);
    assert(forall|i: int| 0 <= i < w.len() ==> line_parses(#[trigger] w[i]) && !has_char(w[i], '\n')) by {
        assert forall|i: int| 0 <= i < w.len() implies line_parses(#[trigger] w[i]) && !has_char(w[i], '\n') by {
            if all.len() == 0 {
                assert(w[i] == Seq::<char>::empty());
                assert(split_line(w[i]) is None);
            } else {
                assert(w[i] == all[i]);
            }
        }
    }
    lemma_final_newline(all);
    lemma_lines_terminated(w);
    let back = lines(overridden_text(content, ps));
    assert(back == w.map_values(|x: Seq<char>| strip_cr(x)));
    lemma_lines_map_strip_cr(w);
    lemma_lines_map_written(all);
    assert forall|i: int| 0 <= i < back.len() implies line_parses(#[trigger] back[i]) by {
        lemma_strip_cr_same_line(w[i]);
    }
}

/// Comparing main with the result of a merge finds no key missing any more:
/// where main's map was compared with the linked map, the `Added` keys now
/// agree, and every `Changed` and `Removed` key differs as before.
pub proof fn law_merge_leaves_no_additions(m: Map<Seq<char>, Seq<char>>, l: Map<Seq<char>, Seq<char>>)
    ensures
        forall|k: Seq<char>| #[trigger]
            diff_at(m, m.union_prefer_right(l), k) == if diff_at(m, l, k) matches Some((DiffKind::Added, _, _)) {
                None
            } else {
                diff_at(m, l, k)
            },
{
}

// ---------------------------------------------------------------------------
// The list of differences is determined
// ---------------------------------------------------------------------------

/// Texts strictly ascending in code point order.
pub open spec fn strictly_sorted(x: Seq<Seq<char>>) -> bool {
    forall|i: int, j: int| 0 <= i < j < x.len() ==> lex_lt(x[i], x[j])
}

pub proof fn lemma_sorted_same_elements(x: Seq<Seq<char>>, y: Seq<Seq<char>>)
    requires
        strictly_sorted(x),
        strictly_sorted(y),
        forall|k: Seq<char>| x.contains(k) <==> y.contains(k),
    ensures
        x == y,
    decreases x.len(),
{
    if x.len() == 0 {
        if y.len() > 0 {
            assert(y.contains(y[0]));
        }
        assert(x =~= y);
    } else {
        assert(x.contains(x[0]));
        let j = choose|j: int| 0 <= j < y.len() && y[j] == x[0];
        assert(y.contains(y[0]));
        let i = choose|i: int| 0 <= i < x.len() && x[i] == y[0];
        if j > 0 {
            if i == 0 {
                lemma_lex_irrefl(y[0]);
            } else {
                lemma_lex_asym(x[0], x[i]);
            }
        }
        assert(y[0] == x[0]);
        let xs = x.drop_first();
        let ys = y.drop_first();
        assert forall|k: Seq<char>| xs.contains(k) <==> ys.contains(k) by {
            if xs.contains(k) {
                let a = choose|a: int| 0 <= a < xs.len() && xs[a] == k;
                assert(x[a + 1] == k);
                assert(x.contains(k));
                let b = choose|b: int| 0 <= b < y.len() && y[b] == k;
                if b == 0 {
                    lemma_lex_irrefl(x[0]);
                }
                assert(ys[b - 1] == k);
            }
            if ys.contains(k) {
                let a = choose|a: int| 0 <= a < ys.len() && ys[a] == k;
                assert(y[a + 1] == k);
                assert(y.contains(k));
                let b = choose|b: int| 0 <= b < x.len() && x[b] == k;
                if b == 0 {
                    lemma_lex_irrefl(y[0]);
                }
                assert(xs[b - 1] == k);
            }
        }
        lemma_sorted_same_elements(xs, ys);
        assert(x =~= seq![x[0]] + xs);
        assert(y =~= seq![y[0]] + ys);
    }
}

/// There is one list of differences between two maps: any two lists that
/// both list them hold the same keys, in the same order, with the same
/// kinds and values.
pub proof fn law_diffs_are_determined(
    a: Seq<EnvDiff>,
    b: Seq<EnvDiff>,
    m: Map<Seq<char>, Seq<char>>,
    l: Map<Seq<char>, Seq<char>>,
)
    requires
        is_diff_of(a, m, l),
        is_diff_of(b, m, l),
    ensures
        diff_keys(a) == diff_keys(b),
        forall|i: int| 0 <= i < a.len() ==> diff_view(#[trigger] a[i]) == diff_view(b[i]),
{
    let ka = diff_keys(a);
    let kb = diff_keys(b);
    assert forall|k: Seq<char>| ka.contains(k) <==> kb.contains(k) by {
        if ka.contains(k) {
            let i = choose|i: int| 0 <= i < ka.len() && ka[i] == k;
            assert(a[i].key@ == k);
            assert(diff_at(m, l, k) is Some);
            let j = choose|j: int| 0 <= j < b.len() && b[j].key@ == k;
            assert(kb[j] == k);
        }
        if kb.contains(k) {
            let i = choose|i: int| 0 <= i < kb.len() && kb[i] == k;
            assert(b[i].key@ == k);
            assert(diff_at(m, l, k) is Some);
            let j = choose|j: int| 0 <= j < a.len() && a[j].key@ == k;
            assert(ka[j] == k);
        }
    }
    assert(strictly_sorted(ka)) by {
        assert forall|i: int, j: int| 0 <= i < j < ka.len() implies lex_lt(ka[i], ka[j]) by {
            assert(ka[i] == a[i].key@ && ka[j] == a[j].key@);
        }
    }
    assert(strictly_sorted(kb)) by {
        assert forall|i: int, j: int| 0 <= i < j < kb.len() implies lex_lt(kb[i], kb[j]) by {
            assert(kb[i] == b[i].key@ && kb[j] == b[j].key@);
        }
    }
    lemma_sorted_same_elements(ka, kb);
    assert forall|i: int| 0 <= i < a.len() implies diff_view(#[trigger] a[i]) == diff_view(b[i]) by {
        assert(ka[i] == kb[i]);
        assert(a[i].key@ == b[i].key@);
    }
}

// ---------------------------------------------------------------------------
// Syncing again after a merge
// ---------------------------------------------------------------------------

/// After a sync has merged a target that had no conflict with the source,
/// syncing it again finds nothing to add and no conflict: every remaining
/// difference is a key that only the target has.
pub proof fn law_resync_after_merge(source: EnvFile, target: EnvFile)
    requires
        source.wf(),
        target.wf(),
        merge_reads_back(source, target),
        forall|k: Seq<char>| !(#[trigger] diff_at(source.map_view(), target.map_view(), k) matches Some((DiffKind::Changed, _, _))),
    ensures
        forall|k: Seq<char>| #[trigger]
            diff_at(source.map_view(), lines_map(lines(merged_text(source, target))), k) is Some
                ==> diff_at(source.map_view(), lines_map(lines(merged_text(source, target))), k)
                matches Some((DiffKind::Removed, _, _)),
{
    law_merge_reads_back(source, target);
    law_merge_leaves_no_additions(source.map_view(), target.map_view());
}

/// The difference of a key seen from the other side: `Added` and `Removed`
/// trade places, a `Changed` key stays changed, and the two values swap.
pub open spec fn swapped(d: Option<(DiffKind, Option<Seq<char>>, Option<Seq<char>>)>) -> Option<
    (DiffKind, Option<Seq<char>>, Option<Seq<char>>),
> {
    match d {
        Some((DiffKind::Added, old, new)) => Some((DiffKind::Removed, new, old)),
        Some((DiffKind::Removed, old, new)) => Some((DiffKind::Added, new, old)),
        Some((DiffKind::Changed, old, new)) => Some((DiffKind::Changed, new, old)),
        None => None,
    }
}

/// Comparing the two files the other way round finds the same keys, with
/// `Added` and `Removed` exchanged and the old and new values swapped.
pub proof fn law_diff_swaps_sides(m: Map<Seq<char>, Seq<char>>, l: Map<Seq<char>, Seq<char>>)
    ensures
        forall|k: Seq<char>| #[trigger] diff_at(l, m, k) == swapped(diff_at(m, l, k)),
{
}

/// Quote removal gives back a value as merging writes it, for any value
/// without `'"'` that is not wrapped in single quotes; and the written value
/// is never a lone quote, so the removal can always be applied.
pub proof fn law_formatted_value_unquotes(v: Seq<char>)
    requires
        !has_char(v, '"'),
        !(v.len() >= 1 && v[0] == '\'' && v.last() == '\''),
    ensures
        !lone_quote(formatted_value(v)),
        unquote(formatted_value(v)) == v,
{
    let fv = formatted_value(v);
    if needs_quotes(v) {
        lemma_escape_plain(v);
        assert(fv.subrange(1, fv.len() - 1) =~= v);
    } else {
        if v.len() >= 1 && v[0] == '"' {
            assert(has_char(v, '"'));
        }
    }
}

} // verus!
