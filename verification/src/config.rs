use vstd::prelude::*;

use std::collections::HashMap;

use crate::envfile::same_chars;
use crate::paths::{file_name_or_empty, file_name_or_empty_of};
use crate::envfile::opt_view;
use crate::text::{
    append_chars, chars_of, contains_char, decimal, digit_char, has_char, push_decimal, string_from_chars,
    sviews,
};

verus! {

broadcast use vstd::string::group_string_axioms;

/// The configuration of a project (`.envsync.toml`).
#[derive(Debug)]
pub struct Config {
    pub envsync: EnvsyncConfig,
}

/// The `[envsync]` table: which files to sync, which to leave out, and the
/// variables that differ per worktree.
#[derive(Debug)]
pub struct EnvsyncConfig {
    pub include_files: Vec<String>,
    pub ignore: Vec<String>,
    pub overrides: HashMap<String, OverrideConfig>,
}

/// A per-worktree variable: a plain value, or a base with an increment
/// and/or a suffix.
#[derive(Debug)]
pub enum OverrideConfig {
    Simple(String),
    Detailed { base: String, increment: Option<u32>, suffix: Option<String> },
}

/// The files to sync when a configured `[envsync]` table names none.
pub fn default_include() -> (r: Vec<String>)
    ensures
        r@.len() == 3,
        r@[0]@ == ".env"@,
        r@[1]@ == ".env.local"@,
        r@[2]@ == ".env.*"@,
{
    let mut r: Vec<String> = Vec::new();
    r.push(".env".to_string());
    r.push(".env.local".to_string());
    r.push(".env.*".to_string());
    r
}

impl Default for EnvsyncConfig {
    /// Nothing included, nothing ignored, no overrides.
    fn default() -> (r: Self)
        ensures
            r.include_files@.len() == 0,
            r.ignore@.len() == 0,
            r.overrides@ == Map::<String, OverrideConfig>::empty(),
    {
        EnvsyncConfig { include_files: Vec::new(), ignore: Vec::new(), overrides: HashMap::new() }
    }
}

impl Default for Config {
    /// The configuration of a project without `.envsync.toml`: the empty
    /// `[envsync]` table.
    fn default() -> (r: Self)
        ensures
            r.envsync.include_files@.len() == 0,
            r.envsync.ignore@.len() == 0,
            r.envsync.overrides@ == Map::<String, OverrideConfig>::empty(),
    {
        Config { envsync: EnvsyncConfig::default() }
    }
}

// ---------------------------------------------------------------------------
// Glob patterns
// ---------------------------------------------------------------------------

#[verifier::external_type_specification]
#[verifier::external_body]
pub struct ExPattern(glob::Pattern);

/// Whether `glob::Pattern::new` accepts a pattern.
pub uninterp spec fn glob_pattern_valid(pattern: Seq<char>) -> bool;

/// What `glob::Pattern::matches` answers for a pattern and a text (with the
/// default match options).
pub uninterp spec fn glob_matches(pattern: Seq<char>, text: Seq<char>) -> bool;

/// A compiled glob pattern, kept with the text it was compiled from.
pub struct GlobPattern {
    source: String,
    compiled: glob::Pattern,
}

impl GlobPattern {
    pub closed spec fn source_view(&self) -> Seq<char> {
        self.source@
    }
}

/// `glob::Pattern::new`: compiles a Unix shell style pattern, `None` where
/// the pattern is invalid (its error is dropped). Whether it compiles is
/// named, not stated.
#[verifier::external_body]
fn compile_glob(pattern: &str) -> (r: Option<GlobPattern>)
    ensures
        r is Some <==> glob_pattern_valid(pattern@),
        r matches Some(g) ==> g.source_view() == pattern@,
{
    match glob::Pattern::new(pattern) {
        Ok(compiled) => Some(GlobPattern { source: pattern.to_string(), compiled }),
        Err(_) => None,
    }
}

/// `glob::Pattern::matches`: whether the compiled pattern matches the text;
/// the answer is named after the pattern's text.
#[verifier::external_body]
fn glob_match(g: &GlobPattern, text: &str) -> (r: bool)
    ensures
        r == glob_matches(g.source_view(), text@),
{
    g.compiled.matches(text)
}

// ---------------------------------------------------------------------------
// Ignoring files
// ---------------------------------------------------------------------------

/// Whether one ignore pattern covers a file: it is the file's name or its
/// whole path, or it holds `'*'` and globbing matches the file's name
/// (`glob_hit`: what matching answered; `None` where the pattern did not
/// compile or was not tried).
pub fn ignore_decision(pattern: &str, file_name: &str, file_path: &str, glob_hit: Option<bool>) -> (r: bool)
    ensures
        r == (pattern@ == file_name@ || pattern@ == file_path@ || (has_char(pattern@, '*')
            && glob_hit == Some(true))),
{
    let p = chars_of(pattern);
    let n = chars_of(file_name);
    let f = chars_of(file_path);
    same_chars(&p, &n) || same_chars(&p, &f) || (contains_char(&p, '*') && glob_hit == Some(true))
}

/// Whether an ignore pattern covers a file, name `name` and path `path`.
pub open spec fn ignores(pattern: Seq<char>, name: Seq<char>, path: Seq<char>) -> bool {
    ||| pattern == name
    ||| pattern == path
    ||| has_char(pattern, '*') && glob_pattern_valid(pattern) && glob_matches(pattern, name)
}

impl Config {
    /// Whether some ignore pattern of the configuration covers the file at
    /// `file_path` (see `ignore_decision`); the file's name is the final
    /// component of its path.
    pub fn should_ignore(&self, file_path: &str) -> (r: bool)
        ensures
            r == exists|i: int|
                0 <= i < self.envsync.ignore@.len() && #[trigger] ignores(
                    self.envsync.ignore@[i]@,
                    file_name_or_empty(file_path@),
                    file_path@,
                ),
    {
        let name = file_name_or_empty_of(file_path);
        let mut i: usize = 0;
        while i < self.envsync.ignore.len()
            invariant
                0 <= i <= self.envsync.ignore@.len(),
                name@ == file_name_or_empty(file_path@),
                forall|j: int| 0 <= j < i ==> !ignores(#[trigger] self.envsync.ignore@[j]@, name@, file_path@),
            decreases self.envsync.ignore@.len() - i,
        {
            let pattern = self.envsync.ignore[i].as_str();
            let pc = chars_of(pattern);
            let glob_hit = if contains_char(&pc, '*') {
                match compile_glob(pattern) {
                    Some(g) => Some(glob_match(&g, name.as_str())),
                    None => None,
                }
            } else {
                None
            };
            if ignore_decision(pattern, name.as_str(), file_path, glob_hit) {
                assert(ignores(self.envsync.ignore@[i as int]@, name@, file_path@));
                return true;
            }
            i = i + 1;
        }
        false
    }
}

// ---------------------------------------------------------------------------
// Choosing the files to sync
// ---------------------------------------------------------------------------

/// Whether an ignore pattern of the configuration covers the file at `path`.
pub open spec fn config_ignores(cfg: Config, path: Seq<char>) -> bool {
    exists|i: int|
        0 <= i < cfg.envsync.ignore@.len() && #[trigger] ignores(
            cfg.envsync.ignore@[i]@,
            file_name_or_empty(path),
            path,
        )
}

/// The candidates that the configuration does not ignore, in order.
pub open spec fn kept_paths(cands: Seq<Seq<char>>, cfg: Config) -> Seq<Seq<char>>
    decreases cands.len(),
{
    if cands.len() == 0 {
        seq![]
    } else {
        kept_paths(cands.drop_last(), cfg) + if config_ignores(cfg, cands.last()) {
            Seq::<Seq<char>>::empty()
        } else {
            seq![cands.last()]
        }
    }
}

/// The files to sync: the candidates that no ignore pattern covers, in order.
pub fn files_to_sync(candidates: &Vec<String>, cfg: &Config) -> (r: Vec<String>)
    ensures
        sviews(r@) == kept_paths(sviews(candidates@), *cfg),
{
    let mut out: Vec<String> = Vec::new();
    let mut i: usize = 0;
    while i < candidates.len()
        invariant
            0 <= i <= candidates.len(),
            sviews(out@) == kept_paths(sviews(candidates@.take(i as int)), *cfg),
        decreases candidates.len() - i,
    {
        let ghost prev = sviews(candidates@.take(i as int));
        assert(sviews(candidates@.take(i + 1)) =~= prev.push(candidates@[i as int]@));
        assert(prev.push(candidates@[i as int]@).drop_last() =~= prev);
        let c = &candidates[i];
        if !cfg.should_ignore(c.as_str()) {
            out.push(string_from_chars(&chars_of(c.as_str())));
            assert(sviews(out@) =~= kept_paths(sviews(candidates@.take(i + 1)), *cfg));
        } else {
            assert(sviews(out@) =~= kept_paths(sviews(candidates@.take(i + 1)), *cfg));
        }
        i = i + 1;
    }
    assert(candidates@.take(i as int) =~= candidates@);
    out
}

/// A pattern without `'*'` covers exactly the file with that name and the
/// file with that whole path: no other file, whatever its name starts or
/// ends with. A pattern with `'*'` covers a file with that name or path, or
/// one whose name globbing matches.
pub proof fn law_plain_pattern_names_one_file(pattern: Seq<char>, name: Seq<char>, path: Seq<char>)
    ensures
        !has_char(pattern, '*') ==> (ignores(pattern, name, path) <==> (pattern == name || pattern == path)),
        has_char(pattern, '*') ==> (ignores(pattern, name, path) <==> (pattern == name || pattern == path
            || (glob_pattern_valid(pattern) && glob_matches(pattern, name)))),
{
}

/// Choosing the files to sync keeps exactly the candidates that no ignore
/// pattern covers, in their order: each kept file is a candidate that is
/// not ignored, every candidate that is not ignored is kept, and keeping
/// the files of two lists is keeping those of the first, then those of the
/// second.
pub proof fn law_files_to_sync_keeps_unignored(a: Seq<Seq<char>>, b: Seq<Seq<char>>, cfg: Config)
    ensures
        forall|x: Seq<char>| #[trigger] kept_paths(a, cfg).contains(x) <==> (a.contains(x) && !config_ignores(cfg, x)),
        kept_paths(a + b, cfg) == kept_paths(a, cfg) + kept_paths(b, cfg),
        kept_paths(a, cfg).len() <= a.len(),
{
    lemma_kept_members(a, cfg);
    lemma_kept_append(a, b, cfg);
}

proof fn lemma_kept_members(a: Seq<Seq<char>>, cfg: Config)
    ensures
        forall|x: Seq<char>| #[trigger] kept_paths(a, cfg).contains(x) <==> (a.contains(x) && !config_ignores(cfg, x)),
        kept_paths(a, cfg).len() <= a.len(),
    decreases a.len(),
{
    if a.len() > 0 {
        let d = a.drop_last();
        lemma_kept_members(d, cfg);
        assert(a =~= d.push(a.last()));
        let k = kept_paths(a, cfg);
        let kd = kept_paths(d, cfg);
        assert forall|x: Seq<char>| #[trigger] k.contains(x) <==> (a.contains(x) && !config_ignores(cfg, x)) by {
            if k.contains(x) {
                let i = choose|i: int| 0 <= i < k.len() && k[i] == x;
                if i < kd.len() {
                    assert(kd[i] == x);
                    assert(kd.contains(x));
                    let j = choose|j: int| 0 <= j < d.len() && d[j] == x;
                    assert(a[j] == x);
                } else {
                    assert(a[a.len() - 1] == x);
                }
            }
            if a.contains(x) && !config_ignores(cfg, x) {
                let j = choose|j: int| 0 <= j < a.len() && a[j] == x;
                if j < d.len() {
                    assert(d[j] == x);
                    assert(kd.contains(x));
                    let i = choose|i: int| 0 <= i < kd.len() && kd[i] == x;
                    assert(k[i] == x);
                } else {
                    assert(k[k.len() - 1] == x);
                }
            }
        }
    }
}

proof fn lemma_kept_append(a: Seq<Seq<char>>, b: Seq<Seq<char>>, cfg: Config)
    ensures
        kept_paths(a + b, cfg) == kept_paths(a, cfg) + kept_paths(b, cfg),
    decreases b.len(),
{
    if b.len() == 0 {
        assert(a + b =~= a);
        assert(kept_paths(b, cfg) =~= Seq::<Seq<char>>::empty());
        assert(kept_paths(a, cfg) + kept_paths(b, cfg) =~= kept_paths(a, cfg));
    } else {
        let d = b.drop_last();
        lemma_kept_append(a, d, cfg);
        assert((a + b).drop_last() =~= a + d);
        assert((a + b).last() == b.last());
        let tail = if config_ignores(cfg, b.last()) {
            Seq::<Seq<char>>::empty()
        } else {
            seq![b.last()]
        };
        assert(kept_paths(a + b, cfg) == kept_paths(a + d, cfg) + tail);
        assert(kept_paths(b, cfg) == kept_paths(d, cfg) + tail);
        assert(kept_paths(a + b, cfg) =~= kept_paths(a, cfg) + kept_paths(b, cfg));
    }
}

// ---------------------------------------------------------------------------
// Per-worktree values
// ---------------------------------------------------------------------------

pub open spec fn is_digit(c: char) -> bool {
    '0' <= c && c <= '9'
}

pub open spec fn digit_value(c: char) -> nat {
    (c as nat - '0' as nat) as nat
}

/// A non-empty text of decimal digits.
pub open spec fn all_digits(s: Seq<char>) -> bool {
    s.len() > 0 && forall|i: int| 0 <= i < s.len() ==> is_digit(#[trigger] s[i])
}

/// The number that decimal digits write.
pub open spec fn decimal_value(s: Seq<char>) -> nat
    decreases s.len(),
{
    if s.len() == 0 {
        0
    } else {
        decimal_value(s.drop_last()) * 10 + digit_value(s.last())
    }
}

proof fn lemma_decimal_prefix_le(s: Seq<char>, j: int)
    requires
        0 <= j <= s.len(),
    ensures
        decimal_value(s.take(j)) <= decimal_value(s),
    decreases s.len() - j,
{
    if j < s.len() {
        lemma_decimal_prefix_le(s, j + 1);
        let v = decimal_value(s.take(j));
        assert(s.take(j + 1).drop_last() =~= s.take(j));
        assert(v <= v * 10) by (nonlinear_arith);
    } else {
        assert(s.take(j) =~= s);
    }
}

/// Reads decimal digits: `None` where the text is not all digits or the
/// number does not fit in a `u64`.
pub fn parse_decimal(s: &Vec<char>) -> (r: Option<u64>)
    ensures
        r == if all_digits(s@) && decimal_value(s@) <= u64::MAX {
            Some(decimal_value(s@) as u64)
        } else {
            None::<u64>
        },
{
    if s.len() == 0 {
        return None;
    }
    let mut acc: u64 = 0;
    let mut i: usize = 0;
    assert(s@.take(0) =~= Seq::<char>::empty());
    while i < s.len()
        invariant
            0 <= i <= s.len(),
            acc == decimal_value(s@.take(i as int)),
            forall|j: int| 0 <= j < i ==> is_digit(#[trigger] s@[j]),
        decreases s.len() - i,
    {
        let c = s[i];
        if !('0' <= c && c <= '9') {
            assert(!is_digit(s@[i as int]));
            return None;
        }
        let d: u64 = (c as u32 - '0' as u32) as u64;
        assert(s@.take(i + 1).drop_last() =~= s@.take(i as int));
        assert(d == digit_value(c));
        proof {
            lemma_decimal_prefix_le(s@, i + 1);
        }
        let next = match acc.checked_mul(10) {
            Some(t) => t.checked_add(d),
            None => None,
        };
        match next {
            Some(v) => {
                acc = v;
            },
            None => {
                return None;
            },
        }
        i = i + 1;
    }
    assert(s@.take(i as int) =~= s@);
    Some(acc)
}

/// The text with each `{N}` in it replaced by `index`.
pub open spec fn with_index(s: Seq<char>, index: Seq<char>) -> Seq<char>
    decreases s.len(),
{
    if s.len() == 0 {
        seq![]
    } else if seq!['{', 'N', '}'].is_prefix_of(s) {
        index + with_index(s.skip(3), index)
    } else {
        seq![s[0]] + with_index(s.drop_first(), index)
    }
}

fn replace_index(s: &Vec<char>, index: &Vec<char>) -> (r: Vec<char>)
    ensures
        r@ == with_index(s@, index@),
{
    let mut out: Vec<char> = Vec::new();
    let mut i: usize = 0;
    assert(s@.skip(0) =~= s@);
    while i < s.len()
        invariant
            0 <= i <= s.len(),
            out@ + with_index(s@.skip(i as int), index@) == with_index(s@, index@),
        decreases s.len() - i,
    {
        let ghost rest = s@.skip(i as int);
        let ghost before = out@;
        if s.len() - i >= 3 && s[i] == '{' && s[i + 1] == 'N' && s[i + 2] == '}' {
            assert(seq!['{', 'N', '}'].is_prefix_of(rest)) by {
                assert(rest.subrange(0, 3) =~= seq!['{', 'N', '}']);
            }
            assert(rest.skip(3) =~= s@.skip(i + 3));
            append_chars(&mut out, index);
            i = i + 3;
            assert(out@ + with_index(s@.skip(i as int), index@) =~= before + with_index(rest, index@));
        } else {
            assert(!seq!['{', 'N', '}'].is_prefix_of(rest)) by {
                if seq!['{', 'N', '}'].is_prefix_of(rest) {
                    assert(rest[0] == s@[i as int] && rest[1] == s@[i + 1] && rest[2] == s@[i + 2]);
                }
            }
            assert(rest.drop_first() =~= s@.skip(i + 1));
            out.push(s[i]);
            i = i + 1;
            assert(out@ + with_index(s@.skip(i as int), index@) =~= before + with_index(rest, index@));
        }
    }
    assert(s@.skip(i as int) =~= Seq::<char>::empty());
    assert(out@ + with_index(s@.skip(i as int), index@) =~= out@);
    out
}

/// A per-worktree variable's value in the worktree with index `n` (the
/// main worktree is 0): a plain value as it is; otherwise the base, raised
/// by `n` times the increment where there is one (the base must then be a
/// decimal number, and the sum must fit in a `u64`), followed by the suffix
/// with `{N}` written as `n`. `None` where the increment cannot be applied.
pub open spec fn override_value_of(ov: OverrideConfig, n: nat) -> Option<Seq<char>> {
    match ov {
        OverrideConfig::Simple(v) => Some(v@),
        OverrideConfig::Detailed { base, increment, suffix } => {
            let counted = match increment {
                None => Some(base@),
                Some(k) => if all_digits(base@) && decimal_value(base@) + n * k <= u64::MAX {
                    Some(decimal((decimal_value(base@) + n * k) as nat))
                } else {
                    None
                },
            };
            match counted {
                None => None,
                Some(c) => match suffix {
                    None => Some(c),
                    Some(sfx) => Some(c + with_index(sfx@, decimal(n))),
                },
            }
        },
    }
}

/// The value of a per-worktree variable in the worktree with index `n`.
pub fn override_value(ov: &OverrideConfig, n: u32) -> (r: Option<String>)
    ensures
        opt_view(r) == override_value_of(*ov, n as nat),
{
    match ov {
        OverrideConfig::Simple(v) => Some(string_from_chars(&chars_of(v.as_str()))),
        OverrideConfig::Detailed { base, increment, suffix } => {
            let counted: Vec<char> = match increment {
                None => chars_of(base.as_str()),
                Some(k) => {
                    let digits = chars_of(base.as_str());
                    match parse_decimal(&digits) {
                        None => {
                            return None;
                        },
                        Some(b) => {
                            let kk: u32 = *k;
                            assert((n as int) * (kk as int) <= u64::MAX) by (nonlinear_arith)
                                requires
                                    n <= u32::MAX,
                                    kk <= u32::MAX,
                            ;
                            let step: u64 = (n as u64) * (kk as u64);
                            assert(step == n * kk);
                            match b.checked_add(step) {
                                None => {
                                    return None;
                                },
                                Some(v) => {
                                    let mut out: Vec<char> = Vec::new();
                                    push_decimal(&mut out, v);
                                    out
                                },
                            }
                        },
                    }
                },
            };
            match suffix {
                None => Some(string_from_chars(&counted)),
                Some(sfx) => {
                    let mut out = counted;
                    let mut index: Vec<char> = Vec::new();
                    push_decimal(&mut index, n as u64);
                    let tail = replace_index(&chars_of(sfx.as_str()), &index);
                    append_chars(&mut out, &tail);
                    Some(string_from_chars(&out))
                },
            }
        },
    }
}

// ---------------------------------------------------------------------------
// Different worktrees, different values
// ---------------------------------------------------------------------------

proof fn lemma_digit_char(d: nat)
    requires
        d < 10,
    ensures
        is_digit(digit_char(d)),
        digit_value(digit_char(d)) == d,
{
}

/// A number written in decimal reads back as itself.
pub proof fn lemma_decimal_reads_back(n: nat)
    ensures
        all_digits(decimal(n)),
        decimal_value(decimal(n)) == n,
    decreases n,
{
    let s = decimal(n);
    if n < 10 {
        lemma_digit_char(n);
        assert(s.drop_last() =~= Seq::<char>::empty());
        assert(decimal_value(s.drop_last()) == 0);
        assert(decimal_value(s) == digit_value(digit_char(n)));
    } else {
        lemma_decimal_reads_back(n / 10);
        lemma_digit_char(n % 10);
        assert(s.drop_last() =~= decimal(n / 10));
        assert(s.last() == digit_char(n % 10));
        assert(decimal_value(s) == decimal_value(decimal(n / 10)) * 10 + digit_value(digit_char(n % 10)));
        assert(n == (n / 10) * 10 + n % 10);
        assert forall|i: int| 0 <= i < s.len() implies is_digit(#[trigger] s[i]) by {
            if i < s.len() - 1 {
                assert(s[i] == decimal(n / 10)[i]);
            }
        }
    }
}

proof fn lemma_decimal_injective(a: nat, b: nat)
    requires
        decimal(a) == decimal(b),
    ensures
        a == b,
{
    lemma_decimal_reads_back(a);
    lemma_decimal_reads_back(b);
}

proof fn lemma_decimal_len_mono(a: nat, b: nat)
    requires
        a <= b,
    ensures
        1 <= decimal(a).len() <= decimal(b).len(),
    decreases b,
{
    if b >= 10 {
        lemma_decimal_len_mono(0, b / 10);
        if a >= 10 {
            assert(a / 10 <= b / 10) by (nonlinear_arith)
                requires
                    a <= b,
            ;
            lemma_decimal_len_mono(a / 10, b / 10);
        }
    }
}

/// How many times a text holds `{N}`, counted as the index is put in.
pub open spec fn index_count(s: Seq<char>) -> nat
    decreases s.len(),
{
    if s.len() == 0 {
        0
    } else if seq!['{', 'N', '}'].is_prefix_of(s) {
        1 + index_count(s.skip(3))
    } else {
        index_count(s.drop_first())
    }
}

proof fn lemma_with_index_len(s: Seq<char>, index: Seq<char>)
    ensures
        with_index(s, index).len() + 3 * index_count(s) == s.len() + index_count(s) * index.len(),
    decreases s.len(),
{
    if s.len() > 0 {
        if seq!['{', 'N', '}'].is_prefix_of(s) {
            lemma_with_index_len(s.skip(3), index);
            let c = index_count(s.skip(3));
            let l = index.len();
            assert((1 + c) * l == l + c * l) by (nonlinear_arith);
            assert(s.skip(3).len() == s.len() - 3);
            assert(with_index(s, index) == index + with_index(s.skip(3), index));
            assert(index_count(s) == 1 + c);
            assert(index_count(s) * l == (1 + c) * l);
        } else {
            lemma_with_index_len(s.drop_first(), index);
            assert(with_index(s, index) == seq![s[0]] + with_index(s.drop_first(), index));
            assert(index_count(s) == index_count(s.drop_first()));
        }
    } else {
        assert(index_count(s) == 0);
        assert(with_index(s, index).len() == 0);
    }
}

proof fn lemma_with_index_injective(s: Seq<char>, i1: Seq<char>, i2: Seq<char>)
    requires
        index_count(s) > 0,
        i1.len() == i2.len(),
        with_index(s, i1) == with_index(s, i2),
    ensures
        i1 == i2,
    decreases s.len(),
{
    if seq!['{', 'N', '}'].is_prefix_of(s) {
        assert(with_index(s, i1).take(i1.len() as int) =~= i1);
        assert(with_index(s, i2).take(i2.len() as int) =~= i2);
    } else {
        assert(with_index(s.drop_first(), i1) =~= with_index(s, i1).drop_first());
        assert(with_index(s.drop_first(), i2) =~= with_index(s, i2).drop_first());
        lemma_with_index_injective(s.drop_first(), i1, i2);
    }
}

/// A detailed override that counts (an increment above zero) or whose
/// suffix writes the index.
pub open spec fn varies_by_worktree(ov: OverrideConfig) -> bool {
    match ov {
        OverrideConfig::Simple(_) => false,
        OverrideConfig::Detailed { increment, suffix, .. } => {
            ||| increment matches Some(k) && k > 0
            ||| suffix matches Some(sfx) && index_count(sfx@) > 0
        },
    }
}

/// An override that counts, or whose suffix writes the worktree's index,
/// gives two different worktrees two different values.
pub proof fn law_overrides_keep_worktrees_apart(ov: OverrideConfig, n: nat, m: nat)
    requires
        varies_by_worktree(ov),
        override_value_of(ov, n) is Some,
        override_value_of(ov, m) is Some,
        n != m,
    ensures
        override_value_of(ov, n) != override_value_of(ov, m),
{
    if n < m {
        lemma_apart_ordered(ov, n, m);
    } else {
        lemma_apart_ordered(ov, m, n);
    }
}

proof fn lemma_apart_ordered(ov: OverrideConfig, n: nat, m: nat)
    requires
        varies_by_worktree(ov),
        override_value_of(ov, n) is Some,
        override_value_of(ov, m) is Some,
        n < m,
    ensures
        override_value_of(ov, n) != override_value_of(ov, m),
{
    if let OverrideConfig::Detailed { base, increment, suffix } = ov {
        let counted = |j: nat| match increment {
            None => base@,
            Some(k) => decimal((decimal_value(base@) + j * k) as nat),
        };
        let cn = counted(n);
        let cm = counted(m);
        let dn = decimal(n);
        let dm = decimal(m);
        lemma_decimal_len_mono(n, m);
        let counts = increment matches Some(k) && k > 0;
        if counts {
            let k = increment->0;
            assert(n * k < m * k) by (nonlinear_arith)
                requires
                    n < m,
                    k > 0,
            ;
            lemma_decimal_len_mono(
                (decimal_value(base@) + n * k) as nat,
                (decimal_value(base@) + m * k) as nat,
            );
            assert(cn.len() <= cm.len());
        } else {
            assert(cn == cm) by {
                if let Some(k) = increment {
                    assert(k == 0);
                    assert(n * k == 0 && m * k == 0) by (nonlinear_arith)
                        requires
                            k == 0,
                    ;
                }
            }
        }
        match suffix {
            None => {
                assert(counts);
                if override_value_of(ov, n) == override_value_of(ov, m) {
                    let k = increment->0;
                    assert(cn == cm);
                    lemma_decimal_injective(
                        (decimal_value(base@) + n * k) as nat,
                        (decimal_value(base@) + m * k) as nat,
                    );
                    assert(n * k < m * k) by (nonlinear_arith)
                        requires
                            n < m,
                            k > 0,
                    ;
                }
            },
            Some(sfx) => {
                let wn = with_index(sfx@, dn);
                let wm = with_index(sfx@, dm);
                let c = index_count(sfx@);
                lemma_with_index_len(sfx@, dn);
                lemma_with_index_len(sfx@, dm);
                assert(c * dn.len() <= c * dm.len()) by (nonlinear_arith)
                    requires
                        dn.len() <= dm.len(),
                ;
                if override_value_of(ov, n) == override_value_of(ov, m) {
                    assert(cn + wn == cm + wm);
                    if counts {
                        let k = increment->0;
                        assert(cn.len() == cm.len());
                        assert((cn + wn).take(cn.len() as int) =~= cn);
                        assert((cm + wm).take(cm.len() as int) =~= cm);
                        lemma_decimal_injective(
                            (decimal_value(base@) + n * k) as nat,
                            (decimal_value(base@) + m * k) as nat,
                        );
                        assert(n * k < m * k) by (nonlinear_arith)
                            requires
                                n < m,
                                k > 0,
                        ;
                    } else {
                        assert(c > 0);
                        assert((cn + wn).skip(cn.len() as int) =~= wn);
                        assert((cm + wm).skip(cm.len() as int) =~= wm);
                        assert(wn == wm);
                        if dn.len() < dm.len() {
                            assert(c * dn.len() < c * dm.len()) by (nonlinear_arith)
                                requires
                                    dn.len() < dm.len(),
                                    c > 0,
                            ;
                        }
                        lemma_with_index_injective(sfx@, dn, dm);
                        lemma_decimal_injective(n, m);
                    }
                }
            },
        }
    }
}

} // verus!
