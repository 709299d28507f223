use vstd::prelude::*;

use crate::envfile::same_chars;
use crate::error::EnvsyncError;
use crate::paths::{
    file_name_or_empty, file_name_or_empty_of, is_absolute, is_absolute_path, join_path, parent_of,
    path_joined, path_parent,
};
use crate::text::{
    chars_of, copy_range, has_char, lemma_lines_terminated, lines, single_lines, split_lines,
    starts_with_at, string_from_chars, strip_cr, terminated, trim, trim_range, vviews,
};

verus! {

broadcast use vstd::string::group_string_axioms;

/// A git worktree: where it is, what it is called, and whether it is the
/// main worktree.
#[derive(Debug, Clone)]
pub struct WorktreeInfo {
    pub path: String,
    pub name: String,
    pub is_main: bool,
}

/// A text without leading and trailing whitespace (`str::trim`).
pub fn trim_str(s: &str) -> (r: String)
    ensures
        r@ == trim(s@),
{
    let cs = chars_of(s);
    let (a, b) = trim_range(&cs, 0, cs.len());
    assert(cs@.subrange(0, cs.len() as int) =~= cs@);
    let t = copy_range(&cs, a, b);
    string_from_chars(&t)
}

// ---------------------------------------------------------------------------
// The main worktree
// ---------------------------------------------------------------------------

/// The main worktree's root: the parent of the common git directory that
/// `git rev-parse --git-common-dir` names (trimmed); a relative answer is
/// relative to the directory `start` where git ran.
pub open spec fn main_root(start: Seq<char>, common: Seq<char>) -> Option<Seq<char>> {
    if is_absolute_path(common) {
        path_parent(common)
    } else {
        path_parent(path_joined(start, common))
    }
}

/// The main worktree, located from the directory `start_dir` where git ran
/// and the output of `git rev-parse --git-common-dir` there; named `main`.
pub fn find_main_worktree(start_dir: &str, common_dir_output: &str) -> (r: Result<WorktreeInfo, EnvsyncError>)
    ensures
        match main_root(start_dir@, trim(common_dir_output@)) {
            Some(p) => r matches Ok(w) && w.path@ == p && w.name@ == "main"@ && w.is_main,
            None => r matches Err(EnvsyncError::MainRootUnknown),
        },
{
    let common = trim_str(common_dir_output);
    let parent = if is_absolute(common.as_str()) {
        parent_of(common.as_str())
    } else {
        let beside = join_path(start_dir, common.as_str());
        parent_of(beside.as_str())
    };
    main_worktree_at(parent)
}

/// The main worktree at the root found (`None` where none could be
/// derived), named `main`.
pub fn main_worktree_at(root: Option<String>) -> (r: Result<WorktreeInfo, EnvsyncError>)
    ensures
        match root {
            Some(p) => r matches Ok(w) && w.path == p && w.name@ == "main"@ && w.is_main,
            None => r matches Err(EnvsyncError::MainRootUnknown),
        },
{
    match root {
        Some(path) => {
            let name = chars_of("main");
            Ok(WorktreeInfo { path, name: string_from_chars(&name), is_main: true })
        },
        None => Err(EnvsyncError::MainRootUnknown),
    }
}

/// The root of the current worktree, from the output of `git rev-parse
/// --show-toplevel`.
pub fn get_current_worktree_root(toplevel_output: &str) -> (r: String)
    ensures
        r@ == trim(toplevel_output@),
{
    trim_str(toplevel_output)
}

/// Whether the output of `git rev-parse --git-common-dir`, trimmed, is
/// exactly `.` (the answer this takes to mean the main worktree; at the main
/// worktree's root git answers `.git`, so there this is false).
pub fn is_main_worktree(common_dir_output: &str) -> (r: bool)
    ensures
        r == (trim(common_dir_output@) == "."@),
{
    let given = chars_of(common_dir_output);
    let (a, b) = trim_range(&given, 0, given.len());
    assert(given@.subrange(0, given.len() as int) =~= given@);
    let t = copy_range(&given, a, b);
    let dot = chars_of(".");
    same_chars(&t, &dot)
}

// ---------------------------------------------------------------------------
// Listing worktrees
// ---------------------------------------------------------------------------

/// A metadata line of `git worktree list --porcelain`.
pub open spec fn is_meta_line(line: Seq<char>) -> bool {
    ||| "head "@.is_prefix_of(line)
    ||| "branch "@.is_prefix_of(line)
    ||| "bare "@.is_prefix_of(line)
    ||| "prunable "@.is_prefix_of(line)
    ||| "locked "@.is_prefix_of(line)
}

/// One line of the listing read: the paths finished so far, and the path
/// of the worktree being read. A `worktree <path>` line finishes the
/// current worktree and starts another; metadata lines are skipped; another
/// non-empty line gives the path where none is known yet.
pub open spec fn scan_step(st: (Seq<Seq<char>>, Option<Seq<char>>), line: Seq<char>) -> (Seq<Seq<char>>, Option<Seq<char>>) {
    let (done, cur) = st;
    if "worktree "@.is_prefix_of(line) {
        let finished = match cur {
            Some(p) => done.push(p),
            None => done,
        };
        (finished, Some(line.skip("worktree "@.len() as int)))
    } else if is_meta_line(line) {
        st
    } else if line.len() > 0 && cur is None {
        (done, Some(trim(line)))
    } else {
        st
    }
}

pub open spec fn scan_lines(ls: Seq<Seq<char>>) -> (Seq<Seq<char>>, Option<Seq<char>>)
    decreases ls.len(),
{
    if ls.len() == 0 {
        (seq![], None)
    } else {
        scan_step(scan_lines(ls.drop_last()), ls.last())
    }
}

/// The worktree paths that a porcelain listing names, in order.
pub open spec fn worktree_paths(output: Seq<char>) -> Seq<Seq<char>> {
    let (done, cur) = scan_lines(lines(output));
    match cur {
        Some(p) => done.push(p),
        None => done,
    }
}

fn worktree_at(path: Vec<char>, is_main: bool) -> (r: WorktreeInfo)
    ensures
        r.path@ == path@,
        r.name@ == file_name_or_empty(path@),
        r.is_main == is_main,
{
    let path = string_from_chars(&path);
    let name = file_name_or_empty_of(path.as_str());
    WorktreeInfo { path, name, is_main }
}

fn starts_with_str(line: &Vec<char>, p: &str) -> (r: bool)
    ensures
        r == p@.is_prefix_of(line@),
{
    let pc = chars_of(p);
    assert(line@.subrange(0, line.len() as int) =~= line@);
    starts_with_at(line, 0, line.len(), &pc)
}

/// The worktrees that the output of `git worktree list --porcelain` names,
/// in order; the first is the main worktree, and each is named by the final
/// component of its path.
pub fn list_worktrees(output: &str) -> (r: Vec<WorktreeInfo>)
    ensures
        r@.len() == worktree_paths(output@).len(),
        forall|i: int|
            0 <= i < r@.len() ==> (#[trigger] r@[i]).path@ == worktree_paths(output@)[i]
                && r@[i].name@ == file_name_or_empty(worktree_paths(output@)[i]) && r@[i].is_main == (i == 0),
{
    let cs = chars_of(output);
    let ls = split_lines(&cs);
    let ghost lv = lines(output@);
    let mut done: Vec<WorktreeInfo> = Vec::new();
    let mut cur: Option<Vec<char>> = None;
    let mut i: usize = 0;
    while i < ls.len()
        invariant
            0 <= i <= ls.len(),
            vviews(ls@) == lv,
            ({
                let (ps, c) = scan_lines(lv.take(i as int));
                &&& done@.len() == ps.len()
                &&& forall|j: int|
                    0 <= j < done@.len() ==> (#[trigger] done@[j]).path@ == ps[j] && done@[j].name@
                        == file_name_or_empty(ps[j]) && done@[j].is_main == (j == 0)
                &&& match cur {
                    Some(v) => c == Some(v@),
                    None => c is None,
                }
            }),
        decreases ls.len() - i,
    {
        let line = &ls[i];
        assert(line@ == lv[i as int]);
        assert(lv.take(i + 1).drop_last() =~= lv.take(i as int));
        assert(lv.take(i + 1).last() == lv[i as int]);
        let ghost before = scan_lines(lv.take(i as int));
        let ghost old_done = done@;
        if starts_with_str(line, "worktree ") {
            match cur {
                Some(p) => {
                    let first = done.len() == 0;
                    let w = worktree_at(p, first);
                    done.push(w);
                    assert forall|j: int| 0 <= j < done@.len() implies (#[trigger] done@[j]).path@ == before.0.push(before.1->0)[j]
                        && done@[j].name@ == file_name_or_empty(before.0.push(before.1->0)[j]) && done@[j].is_main == (j == 0) by {
                        if j < old_done.len() {
                            assert(done@[j] == old_done[j]);
                        }
                    }
                },
                None => {},
            }
            let n = chars_of("worktree ").len();
            let rest = copy_range(line, n, line.len());
            assert(rest@ =~= line@.skip("worktree "@.len() as int));
            cur = Some(rest);
        } else if starts_with_str(line, "head ") || starts_with_str(line, "branch ") || starts_with_str(
            line,
            "bare ",
        ) || starts_with_str(line, "prunable ") || starts_with_str(line, "locked ") {
        } else if line.len() > 0 {
            if cur.is_none() {
                let (a, b) = trim_range(line, 0, line.len());
                assert(line@.subrange(0, line.len() as int) =~= line@);
                cur = Some(copy_range(line, a, b));
            }
        }
        i = i + 1;
    }
    assert(lv.take(i as int) =~= lv);
    let ghost fin = scan_lines(lv);
    match cur {
        Some(p) => {
            let ghost old_done = done@;
            let first = done.len() == 0;
            let w = worktree_at(p, first);
            done.push(w);
            assert forall|j: int| 0 <= j < done@.len() implies (#[trigger] done@[j]).path@ == worktree_paths(output@)[j]
                && done@[j].name@ == file_name_or_empty(worktree_paths(output@)[j]) && done@[j].is_main == (j == 0) by {
                if j < old_done.len() {
                    assert(done@[j] == old_done[j]);
                }
            }
        },
        None => {},
    }
    done
}

// ---------------------------------------------------------------------------
// One worktree per record
// ---------------------------------------------------------------------------

/// The line that starts a worktree's record in the listing.
pub open spec fn record_line(path: Seq<char>) -> Seq<char> {
    "worktree "@ + path
}

/// Lines without line breaks or carriage returns.
pub open spec fn plain_lines(ls: Seq<Seq<char>>) -> bool {
    forall|i: int| 0 <= i < ls.len() ==> !has_char(#[trigger] ls[i], '\n') && !has_char(ls[i], '\r')
}

/// Lines none of which starts a record.
pub open spec fn no_record_line(ls: Seq<Seq<char>>) -> bool {
    forall|i: int| 0 <= i < ls.len() ==> !"worktree "@.is_prefix_of(#[trigger] ls[i])
}

/// The paths read so far, the current one included.
pub open spec fn finished(st: (Seq<Seq<char>>, Option<Seq<char>>)) -> Seq<Seq<char>> {
    match st.1 {
        Some(p) => st.0.push(p),
        None => st.0,
    }
}

pub open spec fn scan_from(st: (Seq<Seq<char>>, Option<Seq<char>>), ls: Seq<Seq<char>>) -> (Seq<Seq<char>>, Option<Seq<char>>)
    decreases ls.len(),
{
    if ls.len() == 0 {
        st
    } else {
        scan_step(scan_from(st, ls.drop_last()), ls.last())
    }
}

proof fn lemma_scan_lines_from(ls: Seq<Seq<char>>)
    ensures
        scan_lines(ls) == scan_from((seq![], None), ls),
    decreases ls.len(),
{
    if ls.len() > 0 {
        lemma_scan_lines_from(ls.drop_last());
    }
}

proof fn lemma_scan_append(st: (Seq<Seq<char>>, Option<Seq<char>>), a: Seq<Seq<char>>, b: Seq<Seq<char>>)
    ensures
        scan_from(st, a + b) == scan_from(scan_from(st, a), b),
    decreases b.len(),
{
    if b.len() == 0 {
        assert(a + b =~= a);
    } else {
        lemma_scan_append(st, a, b.drop_last());
        assert((a + b).drop_last() =~= a + b.drop_last());
        assert((a + b).last() == b.last());
    }
}

proof fn lemma_plain_lines_read_back(ls: Seq<Seq<char>>)
    requires
        plain_lines(ls),
    ensures
        lines(terminated(ls)) == ls,
{
    assert(single_lines(ls));
    lemma_lines_terminated(ls);
    assert forall|i: int| 0 <= i < ls.len() implies strip_cr(#[trigger] ls[i]) == ls[i] by {
        if ls[i].len() > 0 {
            assert(ls[i][ls[i].len() - 1] != '\r');
        }
    }
    assert(ls.map_values(|l: Seq<char>| strip_cr(l)) =~= ls);
}

proof fn lemma_scan_skips(d: Seq<Seq<char>>, c: Seq<char>, ls: Seq<Seq<char>>)
    requires
        no_record_line(ls),
    ensures
        scan_from((d, Some(c)), ls) == (d, Some(c)),
    decreases ls.len(),
{
    if ls.len() > 0 {
        let x = ls.drop_last();
        assert(no_record_line(x)) by {
            assert forall|i: int| 0 <= i < x.len() implies !"worktree "@.is_prefix_of(#[trigger] x[i]) by {
                assert(x[i] == ls[i]);
            }
        }
        lemma_scan_skips(d, c, x);
        assert(!"worktree "@.is_prefix_of(ls[ls.len() - 1]));
    }
}

proof fn lemma_step_prefix(pre: Seq<Seq<char>>, d: Seq<Seq<char>>, c: Option<Seq<char>>, x: Seq<char>)
    ensures
        scan_step((pre + d, c), x) == (pre + scan_step((d, c), x).0, scan_step((d, c), x).1),
{
    if let Some(p) = c {
        assert((pre + d).push(p) =~= pre + d.push(p));
    }
}

proof fn lemma_scan_shift(st: (Seq<Seq<char>>, Option<Seq<char>>), ls: Seq<Seq<char>>)
    requires
        ls.len() > 0,
        "worktree "@.is_prefix_of(ls[0]),
    ensures
        scan_from(st, ls) == (finished(st) + scan_from((seq![], None), ls).0, scan_from((seq![], None), ls).1),
    decreases ls.len(),
{
    let init: (Seq<Seq<char>>, Option<Seq<char>>) = (seq![], None);
    if ls.len() == 1 {
        assert(ls.drop_last() =~= Seq::<Seq<char>>::empty());
        assert(ls.last() == ls[0]);
        assert(scan_from(st, ls.drop_last()) == st);
        assert(scan_from(init, ls.drop_last()) == init);
        assert(scan_step(st, ls[0]).0 == finished(st));
        assert(scan_step(init, ls[0]).0 =~= Seq::<Seq<char>>::empty());
        assert(finished(st) + Seq::<Seq<char>>::empty() =~= finished(st));
    } else {
        let d = ls.drop_last();
        assert(d[0] == ls[0]);
        lemma_scan_shift(st, d);
        let sd = scan_from(init, d);
        lemma_step_prefix(finished(st), sd.0, sd.1, ls.last());
    }
}

/// Each `worktree <path>` record of a porcelain listing gives one worktree,
/// in its place: a listing made of some records, then the record of `path`
/// with its detail lines, then more records lists the worktrees of the
/// records before, then `path`, then the worktrees of the records after.
/// So every record is listed, none twice, and in the listing's order.
pub proof fn law_each_record_lists_its_worktree(
    before: Seq<Seq<char>>,
    path: Seq<char>,
    details: Seq<Seq<char>>,
    after: Seq<Seq<char>>,
)
    requires
        plain_lines(before),
        plain_lines(details),
        plain_lines(after),
        !has_char(path, '\n'),
        !has_char(path, '\r'),
        no_record_line(details),
        after.len() == 0 || "worktree "@.is_prefix_of(after[0]),
    ensures
        worktree_paths(terminated(before + seq![record_line(path)] + details + after))
            == worktree_paths(terminated(before)) + seq![path] + worktree_paths(terminated(after)),
{
    reveal_strlit("worktree ");
    let init: (Seq<Seq<char>>, Option<Seq<char>>) = (seq![], None);
    let rec = record_line(path);
    let all = before + seq![rec] + details + after;
    assert(!has_char(rec, '\n') && !has_char(rec, '\r')) by {
        if has_char(rec, '\n') || has_char(rec, '\r') {
            let i = choose|i: int| 0 <= i < rec.len() && (rec[i] == '\n' || rec[i] == '\r');
            if i >= 9 {
                assert(rec[i] == path[i - 9]);
            }
        }
    }
    assert(plain_lines(all)) by {
        assert forall|i: int| 0 <= i < all.len() implies !has_char(#[trigger] all[i], '\n') && !has_char(
            all[i],
            '\r',
        ) by {
            let nb = before.len() as int;
            let nd = details.len() as int;
            if i < nb {
                assert(all[i] == before[i]);
            } else if i == nb {
                assert(all[i] == rec);
            } else if i < nb + 1 + nd {
                assert(all[i] == details[i - nb - 1]);
            } else {
                assert(all[i] == after[i - nb - 1 - nd]);
            }
        }
    }
    lemma_plain_lines_read_back(all);
    lemma_plain_lines_read_back(before);
    lemma_plain_lines_read_back(after);
    lemma_scan_lines_from(all);
    lemma_scan_lines_from(before);
    lemma_scan_lines_from(after);
    lemma_scan_append(init, before + seq![rec] + details, after);
    lemma_scan_append(init, before + seq![rec], details);
    lemma_scan_append(init, before, seq![rec]);
    let s1 = scan_from(init, before);
    assert(seq![rec].drop_last() =~= Seq::<Seq<char>>::empty());
    assert("worktree "@.is_prefix_of(rec)) by {
        assert(rec.take(9) =~= "worktree "@);
    }
    assert(rec.skip(9) =~= path);
    let s2 = scan_from(s1, seq![rec]);
    assert(scan_from(s1, seq![rec].drop_last()) == s1);
    assert(seq![rec].last() == rec);
    assert("worktree "@.len() == 9);
    assert(s2 == (finished(s1), Some(path)));
    lemma_scan_skips(finished(s1), path, details);
    let s3 = scan_from(s2, details);
    assert(s3 == s2);
    assert(worktree_paths(terminated(all)) == finished(scan_from(s3, after)));
    assert(worktree_paths(terminated(before)) == finished(s1));
    if after.len() == 0 {
        assert(terminated(after) == Seq::<char>::empty());
        assert(worktree_paths(terminated(after)) =~= Seq::<Seq<char>>::empty());
        assert(finished(s1).push(path) =~= finished(s1) + seq![path] + Seq::<Seq<char>>::empty());
    } else {
        lemma_scan_shift(s3, after);
        let a = scan_from(init, after);
        assert(worktree_paths(terminated(after)) == finished(a));
        match a.1 {
            Some(c) => {
                assert((finished(s3) + a.0).push(c) =~= finished(s1) + seq![path] + a.0.push(c));
            },
            None => {
                assert(finished(s3) + a.0 =~= finished(s1) + seq![path] + a.0);
            },
        }
    }
}

} // verus!
