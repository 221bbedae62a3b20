use vstd::prelude::*;

use crate::model::Observation;
use crate::notification::{basename, clone_strings, strings_view};
use crate::text::{
    chars_of, contains_seq, contains_str, file_name, path_file_name, str_eq, string_of, trim_chars,
    trimmed,
};

verus! {

// ---------------------------------------------------------------------------
// Regular expressions
// ---------------------------------------------------------------------------

/// Whether `regex::Regex::new` accepts a pattern.
pub uninterp spec fn regex_valid(pattern: Seq<char>) -> bool;

/// Whether the regex compiled from `pattern` matches somewhere in `text`.
pub uninterp spec fn regex_matches(pattern: Seq<char>, text: Seq<char>) -> bool;

/// `regex::Regex::new(pattern).is_ok()`; the contract names the result.
#[verifier::external_body]
fn regex_compiles(pattern: &str) -> (ok: bool)
    ensures
        ok == regex_valid(pattern@),
{
    regex::Regex::new(pattern).is_ok()
}

/// `regex::Regex::is_match` for the regex compiled from an accepted pattern; the
/// contract names the result.
#[verifier::external_body]
fn regex_is_match(pattern: &str, text: &str) -> (m: bool)
    requires
        regex_valid(pattern@),
    ensures
        m == regex_matches(pattern@, text@),
{
    match regex::Regex::new(pattern) {
        Ok(re) => re.is_match(text),
        Err(_) => false,
    }
}

// ---------------------------------------------------------------------------
// Manifest documents
// ---------------------------------------------------------------------------

/// A manifest as its TOML document holds it, before validation.
#[derive(Clone, Debug)]
pub struct RawManifest {
    pub schema: u8,
    pub name: String,
    pub label: String,
    pub scan_lines: usize,
    pub fallback: Option<String>,
    pub detect: RawDetect,
    pub rule: Vec<RawRule>,
}

#[derive(Clone, Debug)]
pub struct RawDetect {
    pub process: Vec<String>,
    pub argv_any: Vec<String>,
}

#[derive(Clone, Debug)]
pub struct RawRule {
    pub state: String,
    pub pattern: String,
}

/// The scan depth of a manifest that names none.
pub fn default_scan_lines() -> (r: usize)
    ensures
        r == 40,
{
    40
}

/// A raw manifest as plain values.
pub struct RawManifestView {
    pub schema: u8,
    pub name: Seq<char>,
    pub label: Seq<char>,
    pub scan_lines: usize,
    pub fallback: Option<Seq<char>>,
    pub process: Seq<Seq<char>>,
    pub argv_any: Seq<Seq<char>>,
    pub rules: Seq<(Seq<char>, Seq<char>)>,
}

pub open spec fn raw_rule_view(r: RawRule) -> (Seq<char>, Seq<char>) {
    (r.state@, r.pattern@)
}

pub open spec fn raw_view(m: RawManifest) -> RawManifestView {
    RawManifestView {
        schema: m.schema,
        name: m.name@,
        label: m.label@,
        scan_lines: m.scan_lines,
        fallback: match m.fallback {
            Some(f) => Some(f@),
            None => None,
        },
        process: strings_view(m.detect.process@),
        argv_any: strings_view(m.detect.argv_any@),
        rules: m.rule@.map_values(|r: RawRule| raw_rule_view(r)),
    }
}

// ---------------------------------------------------------------------------
// Compiled manifests
// ---------------------------------------------------------------------------

#[derive(Clone, Copy, Debug, PartialEq, Eq, Structural)]
pub enum ManifestError {
    Parse,
    Schema,
    Name,
    Label,
    Process,
    ScanLines,
    Fallback,
    Rules,
    Regex,
    FilenameMismatch,
}

pub open spec fn error_category(e: ManifestError) -> Seq<char> {
    match e {
        ManifestError::Parse => "parse"@,
        ManifestError::Schema => "schema"@,
        ManifestError::Name => "name"@,
        ManifestError::Label => "label"@,
        ManifestError::Process => "process"@,
        ManifestError::ScanLines => "scan_lines"@,
        ManifestError::Fallback => "fallback"@,
        ManifestError::Rules => "rules"@,
        ManifestError::Regex => "regex"@,
        ManifestError::FilenameMismatch => "filename"@,
    }
}

impl ManifestError {
    pub fn category(&self) -> (r: &'static str)
        ensures
            r@ == error_category(*self),
    {
        match self {
            ManifestError::Parse => "parse",
            ManifestError::Schema => "schema",
            ManifestError::Name => "name",
            ManifestError::Label => "label",
            ManifestError::Process => "process",
            ManifestError::ScanLines => "scan_lines",
            ManifestError::Fallback => "fallback",
            ManifestError::Rules => "rules",
            ManifestError::Regex => "regex",
            ManifestError::FilenameMismatch => "filename",
        }
    }

    /// `"manifest error: <category>"`.
    pub fn message(&self) -> (r: String)
        ensures
            r@ == "manifest error: "@ + error_category(*self),
    {
        let mut s = String::new();
        s.append("manifest error: ");
        s.append(self.category());
        s
    }
}

#[derive(Debug)]
pub struct ManifestSetError {
    pub message: String,
}

/// One detection rule: the state a match stands for, and the pattern's source.
#[derive(Debug)]
struct CompiledRule {
    state: Observation,
    pattern: String,
}

/// A validated agent detection manifest.
#[derive(Debug)]
pub struct CompiledManifest {
    name: String,
    label: String,
    scan_lines: usize,
    fallback: Option<Observation>,
    process: Vec<String>,
    argv_any: Vec<String>,
    rules: Vec<CompiledRule>,
}

/// A compiled manifest as plain values.
pub struct ManifestView {
    pub name: Seq<char>,
    pub label: Seq<char>,
    pub scan_lines: usize,
    pub fallback: Option<Observation>,
    pub process: Seq<Seq<char>>,
    pub argv_any: Seq<Seq<char>>,
    pub rules: Seq<(Observation, Seq<char>)>,
}

impl View for CompiledManifest {
    type V = ManifestView;

    closed spec fn view(&self) -> ManifestView {
        ManifestView {
            name: self.name@,
            label: self.label@,
            scan_lines: self.scan_lines,
            fallback: self.fallback,
            process: strings_view(self.process@),
            argv_any: strings_view(self.argv_any@),
            rules: self.rules@.map_values(|r: CompiledRule| (r.state, r.pattern@)),
        }
    }
}

/// `[a-z0-9][a-z0-9_-]*`.
pub open spec fn is_valid_name(name: Seq<char>) -> bool {
    &&& name.len() > 0
    &&& (('a' <= name[0] && name[0] <= 'z') || ('0' <= name[0] && name[0] <= '9'))
    &&& forall|i: int|
        1 <= i < name.len() ==> {
            let c = #[trigger] name[i];
            ('a' <= c && c <= 'z') || ('0' <= c && c <= '9') || c == '_' || c == '-'
        }
}

/// The last position of `c` in `s`, or -1.
pub open spec fn last_index_of(s: Seq<char>, c: char) -> int
    decreases s.len(),
{
    if s.len() == 0 {
        -1
    } else if s.last() == c {
        s.len() - 1
    } else {
        last_index_of(s.drop_last(), c)
    }
}

/// `Path::file_stem`: the file name up to its last `.`, unless that dot is the first
/// character or there is none.
pub open spec fn path_file_stem(path: Seq<char>) -> Option<Seq<char>> {
    match path_file_name(path) {
        None => None,
        Some(n) => {
            let d = last_index_of(n, '.');
            if d <= 0 {
                Some(n)
            } else {
                Some(n.take(d))
            }
        },
    }
}

pub open spec fn rule_state(s: Seq<char>) -> Option<Observation> {
    if s == "idle"@ {
        Some(Observation::Idle)
    } else if s == "working"@ {
        Some(Observation::Working)
    } else if s == "blocked"@ {
        Some(Observation::Blocked)
    } else {
        None
    }
}

/// The first fault among the rules, in order: an unknown state or a pattern the regex
/// engine refuses.
pub open spec fn rules_error(rules: Seq<(Seq<char>, Seq<char>)>) -> Option<ManifestError>
    decreases rules.len(),
{
    if rules.len() == 0 {
        None
    } else {
        match rules_error(rules.drop_last()) {
            Some(e) => Some(e),
            None => if rule_state(rules.last().0) is None {
                Some(ManifestError::Rules)
            } else if !regex_valid(rules.last().1) {
                Some(ManifestError::Regex)
            } else {
                None
            },
        }
    }
}

/// Why a manifest is refused, checked in order; `None` for a valid one.
pub open spec fn manifest_error(stem: Option<Seq<char>>, raw: Option<RawManifestView>) -> Option<
    ManifestError,
> {
    if stem is None {
        Some(ManifestError::FilenameMismatch)
    } else if raw is None {
        Some(ManifestError::Parse)
    } else {
        let r = raw->0;
        if r.schema != 1 {
            Some(ManifestError::Schema)
        } else if !is_valid_name(r.name) {
            Some(ManifestError::Name)
        } else if r.name != stem->0 {
            Some(ManifestError::FilenameMismatch)
        } else if trimmed(r.label).len() == 0 {
            Some(ManifestError::Label)
        } else if r.process.len() == 0 || exists|i: int|
            0 <= i < r.process.len() && trimmed(#[trigger] r.process[i]).len() == 0 {
            Some(ManifestError::Process)
        } else if !(1 <= r.scan_lines && r.scan_lines <= 500) {
            Some(ManifestError::ScanLines)
        } else if r.fallback is Some && r.fallback->0 != "idle"@ {
            Some(ManifestError::Fallback)
        } else if r.rules.len() == 0 {
            Some(ManifestError::Rules)
        } else {
            rules_error(r.rules)
        }
    }
}

/// Why the document read from `filename` is refused, if it is; `raw` is `None` where
/// the file is not a manifest document at all.
pub open spec fn document_error(filename: Seq<char>, raw: Option<&RawManifest>) -> Option<ManifestError> {
    manifest_error(
        path_file_stem(filename),
        match raw {
            Some(m) => Some(raw_view(*m)),
            None => None,
        },
    )
}

/// The manifest that a valid document compiles to.
pub open spec fn compiled(r: RawManifestView) -> ManifestView {
    ManifestView {
        name: r.name,
        label: r.label,
        scan_lines: r.scan_lines,
        fallback: if r.fallback is Some {
            Some(Observation::Idle)
        } else {
            None
        },
        process: r.process,
        argv_any: r.argv_any,
        rules: r.rules.map_values(|p: (Seq<char>, Seq<char>)| (rule_state(p.0)->0, p.1)),
    }
}

/// The command line joined with single spaces.
pub open spec fn joined_argv(argv: Seq<Seq<char>>) -> Seq<char>
    decreases argv.len(),
{
    if argv.len() == 0 {
        Seq::empty()
    } else if argv.len() == 1 {
        argv[0]
    } else {
        joined_argv(argv.drop_last()) + " "@ + argv.last()
    }
}

/// Whether a manifest claims a command line: its executable's name is one of the
/// manifest's processes and, where the manifest lists argument needles, one of them
/// occurs in the joined command line.
pub open spec fn claims(m: ManifestView, argv: Seq<Seq<char>>) -> bool {
    &&& argv.len() > 0
    &&& m.process.contains(basename(argv[0]))
    &&& (m.argv_any.len() == 0 || exists|i: int|
        0 <= i < m.argv_any.len() && contains_seq(joined_argv(argv), #[trigger] m.argv_any[i]))
}

/// The lines a manifest looks at: the last `scan_lines` lines, joined by newlines.
pub open spec fn scanned_text(m: ManifestView, viewport: Seq<Seq<char>>) -> Seq<char> {
    let start = if viewport.len() > m.scan_lines {
        viewport.len() - m.scan_lines
    } else {
        0
    };
    joined_lines(viewport.skip(start))
}

pub open spec fn joined_lines(lines: Seq<Seq<char>>) -> Seq<char>
    decreases lines.len(),
{
    if lines.len() == 0 {
        Seq::empty()
    } else if lines.len() == 1 {
        lines[0]
    } else {
        joined_lines(lines.drop_last()) + "\n"@ + lines.last()
    }
}

/// The state of the first rule whose pattern matches `text`.
pub open spec fn first_match(rules: Seq<(Observation, Seq<char>)>, text: Seq<char>) -> Option<
    Observation,
>
    decreases rules.len(),
{
    if rules.len() == 0 {
        None
    } else if regex_matches(rules[0].1, text) {
        Some(rules[0].0)
    } else {
        first_match(rules.drop_first(), text)
    }
}

/// What a manifest makes of a viewport: the first matching rule, else its fallback
/// (flagged as such), else unknown.
pub open spec fn classification_of(m: ManifestView, viewport: Seq<Seq<char>>) -> (Observation, bool) {
    match first_match(m.rules, scanned_text(m, viewport)) {
        Some(o) => (o, false),
        None => match m.fallback {
            Some(f) => (f, true),
            None => (Observation::Unknown, false),
        },
    }
}

/// The state of the first rule marked as matching in `matched`.
pub open spec fn first_hit(rules: Seq<(Observation, Seq<char>)>, matched: Seq<bool>) -> Option<
    Observation,
>
    decreases rules.len(),
{
    if rules.len() == 0 || matched.len() == 0 {
        None
    } else if matched[0] {
        Some(rules[0].0)
    } else {
        first_hit(rules.drop_first(), matched.drop_first())
    }
}

/// What a manifest makes of its rules' outcomes: the first rule marked as matching,
/// else its fallback (flagged as such), else unknown.
pub open spec fn classified(m: ManifestView, matched: Seq<bool>) -> (Observation, bool) {
    match first_hit(m.rules, matched) {
        Some(o) => (o, false),
        None => match m.fallback {
            Some(f) => (f, true),
            None => (Observation::Unknown, false),
        },
    }
}

/// Outcomes tried in rule order up to the first match agree with the first match.
proof fn lemma_first_hit(rules: Seq<(Observation, Seq<char>)>, matched: Seq<bool>, text: Seq<char>)
    requires
        matched.len() <= rules.len(),
        forall|j: int| 0 <= j < matched.len() ==> #[trigger] matched[j] == regex_matches(rules[j].1, text),
        matched.len() < rules.len() ==> matched.len() > 0 && matched.last(),
    ensures
        first_hit(rules, matched) == first_match(rules, text),
    decreases rules.len(),
{
    if rules.len() > 0 {
        assert(matched[0] == regex_matches(rules[0].1, text));
        if !matched[0] {
            let r = rules.drop_first();
            let m = matched.drop_first();
            assert forall|j: int| 0 <= j < m.len() implies #[trigger] m[j] == regex_matches(r[j].1, text) by {
                assert(m[j] == matched[j + 1]);
                assert(r[j] == rules[j + 1]);
            }
            if m.len() < r.len() {
                assert(m.last() == matched.last());
            }
            lemma_first_hit(r, m, text);
        }
    }
}

/// Classification follows the first rule that matches: when rule `j` matches the scanned
/// text and no earlier rule does, the viewport is classified as rule `j`'s state, not as
/// a fallback; when no rule matches, it takes the fallback (flagged) or is unknown.
pub proof fn lemma_first_matching_rule_wins(m: ManifestView, viewport: Seq<Seq<char>>, j: int)
    requires
        0 <= j <= m.rules.len(),
        forall|k: int| 0 <= k < j ==> !regex_matches(#[trigger] m.rules[k].1, scanned_text(m, viewport)),
        j < m.rules.len() ==> regex_matches(m.rules[j].1, scanned_text(m, viewport)),
    ensures
        j < m.rules.len() ==> classification_of(m, viewport) == (m.rules[j].0, false),
        j == m.rules.len() ==> classification_of(m, viewport) == match m.fallback {
            Some(f) => (f, true),
            None => (Observation::Unknown, false),
        },
{
    lemma_first_match_at(m.rules, scanned_text(m, viewport), j);
}

proof fn lemma_first_match_at(rules: Seq<(Observation, Seq<char>)>, text: Seq<char>, j: int)
    requires
        0 <= j <= rules.len(),
        forall|k: int| 0 <= k < j ==> !regex_matches(#[trigger] rules[k].1, text),
        j < rules.len() ==> regex_matches(rules[j].1, text),
    ensures
        first_match(rules, text) == if j < rules.len() {
            Some(rules[j].0)
        } else {
            None::<Observation>
        },
    decreases rules.len(),
{
    if rules.len() > 0 {
        if j > 0 {
            assert(!regex_matches(rules[0].1, text));
            let r = rules.drop_first();
            assert forall|k: int| 0 <= k < j - 1 implies !regex_matches(#[trigger] r[k].1, text) by {
                assert(r[k] == rules[k + 1]);
            }
            if j < rules.len() {
                assert(r[j - 1] == rules[j]);
            }
            lemma_first_match_at(r, text, j - 1);
        }
    }
}

fn copy_rule(r: &CompiledRule) -> (c: CompiledRule)
    ensures
        c.state == r.state,
        c.pattern@ == r.pattern@,
{
    CompiledRule { state: r.state, pattern: r.pattern.clone() }
}

fn is_blank(s: &str) -> (r: bool)
    ensures
        r == (trimmed(s@).len() == 0),
{
    let c = chars_of(s);
    let t = trim_chars(c.as_slice());
    t.len() == 0
}

fn valid_name(name: &str) -> (r: bool)
    ensures
        r == is_valid_name(name@),
{
    let c = chars_of(name);
    if c.len() == 0 {
        return false;
    }
    let first = c[0];
    if !(('a' <= first && first <= 'z') || ('0' <= first && first <= '9')) {
        return false;
    }
    let n = c.len();
    for i in 1..n
        invariant
            n == c@.len(),
            c@ == name@,
            forall|j: int|
                1 <= j < i ==> {
                    let x = #[trigger] c@[j];
                    ('a' <= x && x <= 'z') || ('0' <= x && x <= '9') || x == '_' || x == '-'
                },
    {
        let x = c[i];
        if !(('a' <= x && x <= 'z') || ('0' <= x && x <= '9') || x == '_' || x == '-') {
            return false;
        }
    }
    true
}

fn file_stem(filename: &str) -> (r: Option<String>)
    ensures
        match r {
            Some(s) => path_file_stem(filename@) == Some(s@),
            None => path_file_stem(filename@) is None,
        },
{
    let name = match file_name(filename) {
        Some(n) => n,
        None => {
            return None;
        },
    };
    let c = chars_of(name.as_str());
    let n = c.len();
    let mut i = n;
    assert(c@.take(n as int) =~= c@);
    while i > 0 && c[i - 1] != '.'
        invariant
            i <= n,
            n == c@.len(),
            c@ == name@,
            last_index_of(c@, '.') == last_index_of(c@.take(i as int), '.'),
        decreases i,
    {
        assert(c@.take(i as int).drop_last() =~= c@.take(i - 1));
        i = i - 1;
    }
    proof {
        assert(c@.take(n as int) =~= c@);
        if i > 0 {
            assert(c@.take(i as int).last() == '.');
        }
    }
    if i <= 1 {
        return Some(name);
    }
    let mut stem: Vec<char> = Vec::new();
    let end = i - 1;
    for k in 0..end
        invariant
            end < n,
            n == c@.len(),
            stem@ == c@.take(k as int),
    {
        stem.push(c[k]);
        assert(stem@ =~= c@.take(k + 1));
    }
    Some(string_of(stem.as_slice()))
}

fn parse_rule_state(s: &str) -> (r: Option<Observation>)
    ensures
        r == rule_state(s@),
{
    if str_eq(s, "idle") {
        Some(Observation::Idle)
    } else if str_eq(s, "working") {
        Some(Observation::Working)
    } else if str_eq(s, "blocked") {
        Some(Observation::Blocked)
    } else {
        None
    }
}

/// Equality of two strings given by view.
fn seq_eq(a: &String, b: &String) -> (r: bool)
    ensures
        r == (a@ == b@),
{
    str_eq(a.as_str(), b.as_str())
}

impl CompiledManifest {
    #[verifier::type_invariant]
    closed spec fn inv(self) -> bool {
        forall|i: int| 0 <= i < self.rules@.len() ==> regex_valid(#[trigger] self.rules@[i].pattern@)
    }

    /// Validates a manifest document read from `filename`; `raw` is `None` where the
    /// file is not a manifest document at all.
    #[verifier::loop_isolation(false)]
    pub fn parse(filename: &str, raw: Option<&RawManifest>) -> (r: Result<Self, ManifestError>)
        ensures
            match document_error(filename@, raw) {
                Some(e) => r == Err::<Self, ManifestError>(e),
                None => r matches Ok(m) && m@ == compiled(raw_view(*raw->0)),
            },
    {
        let stem = match file_stem(filename) {
            Some(s) => s,
            None => {
                return Err(ManifestError::FilenameMismatch);
            },
        };
        let raw: &RawManifest = match raw {
            Some(r) => r,
            None => {
                return Err(ManifestError::Parse);
            },
        };
        let ghost rv = raw_view(*raw);
        if raw.schema != 1 {
            return Err(ManifestError::Schema);
        }
        if !valid_name(raw.name.as_str()) {
            return Err(ManifestError::Name);
        }
        if !seq_eq(&raw.name, &stem) {
            return Err(ManifestError::FilenameMismatch);
        }
        if is_blank(raw.label.as_str()) {
            return Err(ManifestError::Label);
        }
        if raw.detect.process.len() == 0 {
            return Err(ManifestError::Process);
        }
        let np = raw.detect.process.len();
        for i in 0..np
            invariant
                np == raw.detect.process@.len(),
                rv == raw_view(*raw),
                forall|j: int| 0 <= j < i ==> trimmed(#[trigger] rv.process[j]).len() > 0,
        {
            assert(rv.process[i as int] == raw.detect.process@[i as int]@);
            if is_blank(raw.detect.process[i].as_str()) {
                assert(trimmed(rv.process[i as int]).len() == 0);
                return Err(ManifestError::Process);
            }
        }
        if !(1 <= raw.scan_lines && raw.scan_lines <= 500) {
            return Err(ManifestError::ScanLines);
        }
        let fallback = match &raw.fallback {
            None => None,
            Some(f) => {
                if str_eq(f.as_str(), "idle") {
                    Some(Observation::Idle)
                } else {
                    return Err(ManifestError::Fallback);
                }
            },
        };
        if raw.rule.len() == 0 {
            return Err(ManifestError::Rules);
        }
        let mut rules: Vec<CompiledRule> = Vec::new();
        let nr = raw.rule.len();
        for i in 0..nr
            invariant
                nr == raw.rule@.len(),
                rv == raw_view(*raw),
                rules_error(rv.rules.take(i as int)) is None,
                rules@.len() == i,
                forall|j: int|
                    0 <= j < i ==> (#[trigger] rules@[j]).state == rule_state(rv.rules[j].0)->0
                        && rules@[j].pattern@ == rv.rules[j].1 && regex_valid(rules@[j].pattern@),
        {
            let rule = &raw.rule[i];
            proof {
                assert(rv.rules[i as int] == raw_rule_view(*rule));
                assert(rv.rules.take(i + 1).drop_last() =~= rv.rules.take(i as int));
                assert(rv.rules.take(i + 1).last() == rv.rules[i as int]);
            }
            let state = match parse_rule_state(rule.state.as_str()) {
                Some(s) => s,
                None => {
                    proof {
                        assert(rule_state(rv.rules[i as int].0) is None);
                        assert(rules_error(rv.rules.take(i + 1)) == Some(ManifestError::Rules));
                        lemma_rules_error_prefix(rv.rules, i + 1);
                    }
                    return Err(ManifestError::Rules);
                },
            };
            if !regex_compiles(rule.pattern.as_str()) {
                proof {
                    assert(!regex_valid(rv.rules[i as int].1));
                    assert(rules_error(rv.rules.take(i + 1)) == Some(ManifestError::Regex));
                    lemma_rules_error_prefix(rv.rules, i + 1);
                }
                return Err(ManifestError::Regex);
            }
            rules.push(CompiledRule { state, pattern: rule.pattern.clone() });
        }
        assert(rv.rules.take(nr as int) =~= rv.rules);
        let m = CompiledManifest {
            name: raw.name.clone(),
            label: raw.label.clone(),
            scan_lines: raw.scan_lines,
            fallback,
            process: clone_strings(&raw.detect.process),
            argv_any: clone_strings(&raw.detect.argv_any),
            rules,
        };
        proof {
            assert(m@.rules =~= compiled(rv).rules);
        }
        Ok(m)
    }

    pub fn name(&self) -> (r: &str)
        ensures
            r@ == self@.name,
    {
        self.name.as_str()
    }

    pub fn label(&self) -> (r: &str)
        ensures
            r@ == self@.label,
    {
        self.label.as_str()
    }

    pub fn scan_lines(&self) -> (r: usize)
        ensures
            r == self@.scan_lines,
    {
        self.scan_lines
    }

    /// Whether this manifest claims the command line `argv`.
    #[verifier::loop_isolation(false)]
    pub fn matches_argv(&self, argv: &[String]) -> (r: bool)
        ensures
            r == claims(self@, strings_view(argv@)),
    {
        let ghost a = strings_view(argv@);
        if argv.len() == 0 {
            return false;
        }
        let base = match file_name(argv[0].as_str()) {
            Some(n) => n,
            None => argv[0].clone(),
        };
        assert(base@ == basename(a[0]));
        let np = self.process.len();
        let mut found = false;
        for i in 0..np
            invariant
                np == self.process@.len(),
                found == exists|j: int| 0 <= j < i && #[trigger] self@.process[j] == base@,
        {
            assert(self@.process[i as int] == self.process@[i as int]@);
            if seq_eq(&self.process[i], &base) {
                found = true;
            }
        }
        if !found {
            return false;
        }
        if self.argv_any.len() == 0 {
            return true;
        }
        let joined = join_argv(argv);
        let nn = self.argv_any.len();
        for i in 0..nn
            invariant
                nn == self.argv_any@.len(),
                joined@ == joined_argv(a),
                forall|j: int|
                    0 <= j < i ==> !contains_seq(joined_argv(a), #[trigger] self@.argv_any[j]),
        {
            assert(self@.argv_any[i as int] == self.argv_any@[i as int]@);
            if contains_str(joined.as_str(), self.argv_any[i].as_str()) {
                assert(contains_seq(joined_argv(a), self@.argv_any[i as int]));
                return true;
            }
        }
        false
    }

    /// A copy of the manifest.
    pub fn duplicate(&self) -> (r: Self)
        ensures
            r@ == self@,
    {
        proof {
            use_type_invariant(self);
        }
        let mut rules: Vec<CompiledRule> = Vec::new();
        let n = self.rules.len();
        for i in 0..n
            invariant
                n == self.rules@.len(),
                forall|j: int| 0 <= j < self.rules@.len() ==> regex_valid(#[trigger] self.rules@[j].pattern@),
                rules@.len() == i,
                forall|j: int|
                    0 <= j < i ==> (#[trigger] rules@[j]).state == self.rules@[j].state
                        && rules@[j].pattern@ == self.rules@[j].pattern@,
        {
            rules.push(copy_rule(&self.rules[i]));
        }
        let r = CompiledManifest {
            name: self.name.clone(),
            label: self.label.clone(),
            scan_lines: self.scan_lines,
            fallback: self.fallback,
            process: clone_strings(&self.process),
            argv_any: clone_strings(&self.argv_any),
            rules,
        };
        assert(r@.rules =~= self@.rules);
        r
    }
}

proof fn lemma_rules_error_prefix(rules: Seq<(Seq<char>, Seq<char>)>, k: int)
    requires
        0 <= k <= rules.len(),
        rules_error(rules.take(k)) is Some,
    ensures
        rules_error(rules) == rules_error(rules.take(k)),
    decreases rules.len() - k,
{
    if k < rules.len() {
        assert(rules.take(k + 1).drop_last() =~= rules.take(k));
        lemma_rules_error_prefix(rules, k + 1);
    } else {
        assert(rules.take(k) =~= rules);
    }
}

fn join_argv(argv: &[String]) -> (r: String)
    ensures
        r@ == joined_argv(strings_view(argv@)),
{
    let ghost a = strings_view(argv@);
    let mut s = String::new();
    let n = argv.len();
    for i in 0..n
        invariant
            n == argv@.len(),
            a == strings_view(argv@),
            s@ == joined_argv(a.take(i as int)),
    {
        assert(a.take(i + 1).drop_last() =~= a.take(i as int));
        assert(a[i as int] == argv@[i as int]@);
        if i > 0 {
            s.append(" ");
        }
        s.append(argv[i].as_str());
        proof {
            if i == 0 {
                assert(s@ =~= a.take(1)[0]);
            }
        }
    }
    assert(a.take(n as int) =~= a);
    s
}

fn join_lines(lines: &[String], start: usize) -> (r: String)
    requires
        start <= lines@.len(),
    ensures
        r@ == joined_lines(strings_view(lines@).skip(start as int)),
{
    let ghost a = strings_view(lines@).skip(start as int);
    let mut s = String::new();
    let n = lines.len();
    for i in start..n
        invariant
            start <= n,
            n == lines@.len(),
            a == strings_view(lines@).skip(start as int),
            s@ == joined_lines(a.take(i - start)),
    {
        assert(a.take(i - start + 1).drop_last() =~= a.take(i - start));
        assert(a[i - start] == lines@[i as int]@);
        if i > start {
            s.append("\n");
        }
        s.append(lines[i].as_str());
        proof {
            if i == start {
                assert(s@ =~= a.take(1)[0]);
            }
        }
    }
    assert(a.take(n - start) =~= a);
    s
}

// ---------------------------------------------------------------------------
// Detection and classification
// ---------------------------------------------------------------------------

/// Which manifests claim a command line.
pub enum Detection<'a> {
    /// No manifest claims it.
    NoMatch,
    /// Exactly one manifest claims it.
    One(&'a CompiledManifest),
    /// Several manifests claim it; their names, sorted.
    Ambiguous(Vec<&'a str>),
}

pub open spec fn manifests_view(ms: Seq<CompiledManifest>) -> Seq<ManifestView> {
    ms.map_values(|m: CompiledManifest| m@)
}

/// The manifests that claim a command line, in order.
pub open spec fn claimants(ms: Seq<ManifestView>, argv: Seq<Seq<char>>) -> Seq<ManifestView>
    decreases ms.len(),
{
    if ms.len() == 0 {
        Seq::empty()
    } else {
        let prev = claimants(ms.drop_last(), argv);
        if claims(ms.last(), argv) {
            prev.push(ms.last())
        } else {
            prev
        }
    }
}

/// Lexicographic order of strings by code point, the order of `str`.
pub open spec fn lex_le(a: Seq<char>, b: Seq<char>) -> bool
    decreases a.len(),
{
    if a.len() == 0 {
        true
    } else if b.len() == 0 {
        false
    } else if a[0] != b[0] {
        a[0] < b[0]
    } else {
        lex_le(a.drop_first(), b.drop_first())
    }
}

pub open spec fn sorted_lex(s: Seq<Seq<char>>) -> bool {
    forall|i: int, j: int| 0 <= i < j < s.len() ==> lex_le(#[trigger] s[i], #[trigger] s[j])
}

pub open spec fn names_of(ms: Seq<ManifestView>) -> Seq<Seq<char>> {
    ms.map_values(|m: ManifestView| m.name)
}

pub open spec fn strs_view(v: Seq<&str>) -> Seq<Seq<char>> {
    v.map_values(|s: &str| s@)
}

proof fn lemma_lex_total(a: Seq<char>, b: Seq<char>)
    ensures
        lex_le(a, b) || lex_le(b, a),
    decreases a.len(),
{
    if a.len() > 0 && b.len() > 0 && a[0] == b[0] {
        lemma_lex_total(a.drop_first(), b.drop_first());
    }
}

proof fn lemma_lex_trans(a: Seq<char>, b: Seq<char>, c: Seq<char>)
    requires
        lex_le(a, b),
        lex_le(b, c),
    ensures
        lex_le(a, c),
    decreases a.len(),
{
    if a.len() > 0 && b.len() > 0 && c.len() > 0 && a[0] == b[0] && b[0] == c[0] {
        lemma_lex_trans(a.drop_first(), b.drop_first(), c.drop_first());
    }
}

/// `a <= b` as strings.
fn str_le(a: &str, b: &str) -> (r: bool)
    ensures
        r == lex_le(a@, b@),
{
    let ca = chars_of(a);
    let cb = chars_of(b);
    let mut i: usize = 0;
    assert(ca@.skip(0) =~= ca@);
    assert(cb@.skip(0) =~= cb@);
    while i < ca.len() && i < cb.len() && ca[i] == cb[i]
        invariant
            i <= ca@.len(),
            i <= cb@.len(),
            lex_le(a@, b@) == lex_le(ca@.skip(i as int), cb@.skip(i as int)),
        decreases ca@.len() - i,
    {
        assert(ca@.skip(i as int).drop_first() =~= ca@.skip(i + 1));
        assert(cb@.skip(i as int).drop_first() =~= cb@.skip(i + 1));
        i = i + 1;
    }
    if i == ca.len() {
        true
    } else if i == cb.len() {
        false
    } else {
        assert(ca@.skip(i as int)[0] == ca@[i as int]);
        assert(cb@.skip(i as int)[0] == cb@[i as int]);
        ca[i] < cb[i]
    }
}

/// Placing `x` at `k`, after every element not greater and before every greater one,
/// keeps a sorted sequence sorted.
proof fn lemma_insert_sorted_lex(s: Seq<Seq<char>>, x: Seq<char>, k: int)
    requires
        sorted_lex(s),
        0 <= k <= s.len(),
        forall|j: int| 0 <= j < k ==> lex_le(#[trigger] s[j], x),
        k < s.len() ==> !lex_le(s[k], x),
    ensures
        sorted_lex(s.insert(k, x)),
{
    let u = s.insert(k, x);
    s.insert_ensures(k, x);
    if k < s.len() {
        lemma_lex_total(s[k], x);
    }
    assert forall|i: int, j: int| 0 <= i < j < u.len() implies lex_le(#[trigger] u[i], #[trigger] u[j]) by {
        if i < k {
            assert(u[i] == s[i]);
        } else if i > k {
            assert(u[i] == s[i - 1]);
        }
        if j < k {
            assert(u[j] == s[j]);
        } else if j > k {
            assert(u[j] == s[j - 1]);
        }
        if j < k {
        } else if j == k {
        } else if i < k {
            lemma_lex_trans(s[i], x, s[k]);
            if j - 1 > k {
                lemma_lex_trans(s[i], s[k], s[j - 1]);
            }
        } else if i == k {
            if j - 1 > k {
                lemma_lex_trans(x, s[k], s[j - 1]);
            }
        } else {
        }
    }
}

/// `x` placed after every string not greater than it.
pub open spec fn insert_lex(s: Seq<Seq<char>>, x: Seq<char>) -> Seq<Seq<char>> {
    s.insert(s.filter(|e: Seq<char>| lex_le(e, x)).len() as int, x)
}

/// The strings in lexicographic order.
pub open spec fn sort_lex(s: Seq<Seq<char>>) -> Seq<Seq<char>>
    decreases s.len(),
{
    if s.len() == 0 {
        s
    } else {
        insert_lex(sort_lex(s.drop_last()), s.last())
    }
}

proof fn lemma_filter_all_strs(s: Seq<Seq<char>>, f: spec_fn(Seq<char>) -> bool)
    requires
        forall|i: int| 0 <= i < s.len() ==> f(s[i]),
    ensures
        s.filter(f) == s,
    decreases s.len(),
{
    reveal(Seq::filter);
    if s.len() > 0 {
        lemma_filter_all_strs(s.drop_last(), f);
        assert(s.drop_last().push(s.last()) =~= s);
    }
}

proof fn lemma_filter_no_strs(s: Seq<Seq<char>>, f: spec_fn(Seq<char>) -> bool)
    requires
        forall|i: int| 0 <= i < s.len() ==> !f(s[i]),
    ensures
        s.filter(f).len() == 0,
    decreases s.len(),
{
    reveal(Seq::filter);
    if s.len() > 0 {
        lemma_filter_no_strs(s.drop_last(), f);
    }
}

/// In a sorted sequence, the first position after the strings not greater than `x` is
/// their count.
proof fn lemma_insert_lex_at(t: Seq<Seq<char>>, x: Seq<char>, k: int)
    requires
        sorted_lex(t),
        0 <= k <= t.len(),
        forall|j: int| 0 <= j < k ==> lex_le(#[trigger] t[j], x),
        k < t.len() ==> !lex_le(t[k], x),
    ensures
        insert_lex(t, x) == t.insert(k, x),
{
    let f = |e: Seq<char>| lex_le(e, x);
    assert forall|j: int| 0 <= j < t.skip(k).len() implies !f(#[trigger] t.skip(k)[j]) by {
        assert(t.skip(k)[j] == t[k + j]);
        if j > 0 && lex_le(t[k + j], x) {
            lemma_lex_trans(t[k], t[k + j], x);
        }
    }
    assert forall|j: int| 0 <= j < t.take(k).len() implies f(#[trigger] t.take(k)[j]) by {
        assert(t.take(k)[j] == t[j]);
    }
    assert(t =~= t.take(k) + t.skip(k));
    lemma_filter_all_strs(t.take(k), f);
    lemma_filter_no_strs(t.skip(k), f);
    Seq::filter_distributes_over_add(t.take(k), t.skip(k), f);
}

/// The sorted strings: in order, and each string as often as in the input.
pub proof fn lemma_sort_lex(s: Seq<Seq<char>>)
    ensures
        sorted_lex(sort_lex(s)),
        sort_lex(s).to_multiset() == s.to_multiset(),
        sort_lex(s).len() == s.len(),
    decreases s.len(),
{
    if s.len() > 0 {
        let t = sort_lex(s.drop_last());
        let x = s.last();
        lemma_sort_lex(s.drop_last());
        let k = first_not_le(t, x, 0);
        lemma_first_not_le(t, x, 0);
        lemma_insert_lex_at(t, x, k);
        lemma_insert_sorted_lex(t, x, k);
        assert(t.insert(k, x) =~= t.take(k).push(x) + t.skip(k));
        assert(t =~= t.take(k) + t.skip(k));
        vstd::seq_lib::lemma_multiset_commutative(t.take(k).push(x), t.skip(k));
        vstd::seq_lib::lemma_multiset_commutative(t.take(k), t.skip(k));
        t.take(k).to_multiset_ensures();
        s.drop_last().to_multiset_ensures();
        assert(s =~= s.drop_last().push(x));
    }
}

spec fn first_not_le(t: Seq<Seq<char>>, x: Seq<char>, i: int) -> int
    decreases t.len() - i,
{
    if i >= t.len() {
        t.len() as int
    } else if !lex_le(t[i], x) {
        i
    } else {
        first_not_le(t, x, i + 1)
    }
}

proof fn lemma_first_not_le(t: Seq<Seq<char>>, x: Seq<char>, i: int)
    requires
        0 <= i <= t.len(),
        forall|j: int| 0 <= j < i ==> lex_le(#[trigger] t[j], x),
    ensures
        i <= first_not_le(t, x, i) <= t.len(),
        forall|j: int| 0 <= j < first_not_le(t, x, i) ==> lex_le(#[trigger] t[j], x),
        first_not_le(t, x, i) < t.len() ==> !lex_le(t[first_not_le(t, x, i)], x),
    decreases t.len() - i,
{
    if i < t.len() && lex_le(t[i], x) {
        lemma_first_not_le(t, x, i + 1);
    }
}

/// The strings in order.
fn sort_strs<'a>(v: Vec<&'a str>) -> (out: Vec<&'a str>)
    ensures
        strs_view(out@) == sort_lex(strs_view(v@)),
{
    let ghost vv = strs_view(v@);
    let mut out: Vec<&'a str> = Vec::new();
    let n = v.len();
    assert(strs_view(out@) =~= sort_lex(vv.take(0)));
    for i in 0..n
        invariant
            n == v@.len(),
            vv == strs_view(v@),
            strs_view(out@) == sort_lex(vv.take(i as int)),
    {
        proof {
            lemma_sort_lex(vv.take(i as int));
        }
        let x = v[i];
        let ghost t = strs_view(out@);
        let m = out.len();
        let mut k: usize = 0;
        while k < m
            invariant
                m == out@.len(),
                k <= m,
                t == strs_view(out@),
                forall|j: int| 0 <= j < k ==> lex_le(#[trigger] t[j], x@),
            ensures
                k <= m,
                forall|j: int| 0 <= j < k ==> lex_le(#[trigger] t[j], x@),
                k < m ==> !lex_le(t[k as int], x@),
            decreases m - k,
        {
            if !str_le(out[k], x) {
                break;
            }
            k = k + 1;
        }
        proof {
            lemma_insert_lex_at(t, x@, k as int);
            assert(vv.take(i + 1).drop_last() =~= vv.take(i as int));
            assert(vv.take(i + 1).last() == x@);
        }
        out.insert(k, x);
        assert(strs_view(out@) =~= t.insert(k as int, x@));
    }
    assert(vv.take(n as int) =~= vv);
    out
}

/// Which manifests claim `argv`: none, exactly one, or several, whose names are
/// reported in sorted order.
pub fn detect<'a>(manifests: &'a [CompiledManifest], argv: &[String]) -> (d: Detection<'a>)
    ensures
        ({
            let c = claimants(manifests_view(manifests@), strings_view(argv@));
            match d {
                Detection::NoMatch => c.len() == 0,
                Detection::One(m) => c.len() == 1 && m@ == c[0],
                Detection::Ambiguous(names) => c.len() > 1 && strs_view(names@) == sort_lex(
                    names_of(c),
                ),
            }
        }),
{
    let ghost a = strings_view(argv@);
    let ghost mv = manifests_view(manifests@);
    let mut found: Vec<&'a CompiledManifest> = Vec::new();
    let n = manifests.len();
    for i in 0..n
        invariant
            n == manifests@.len(),
            mv == manifests_view(manifests@),
            a == strings_view(argv@),
            found@.map_values(|m: &CompiledManifest| m@) == claimants(mv.take(i as int), a),
    {
        assert(mv.take(i + 1).drop_last() =~= mv.take(i as int));
        assert(mv.take(i + 1).last() == manifests@[i as int]@);
        let m = &manifests[i];
        if m.matches_argv(argv) {
            found.push(m);
            assert(found@.map_values(|m: &CompiledManifest| m@) =~= claimants(mv.take(i as int), a).push(m@));
        }
    }
    assert(mv.take(n as int) =~= mv);
    let ghost c = claimants(mv, a);
    assert(found@.len() == c.len());
    if found.len() == 0 {
        return Detection::NoMatch;
    }
    if found.len() == 1 {
        assert(found@[0]@ == c[0]);
        return Detection::One(found[0]);
    }
    let mut names: Vec<&'a str> = Vec::new();
    let k = found.len();
    for j in 0..k
        invariant
            k == found@.len(),
            found@.map_values(|m: &CompiledManifest| m@) == c,
            strs_view(names@) == names_of(c.take(j as int)),
    {
        assert(found@[j as int]@ == c[j as int]);
        let fm: &'a CompiledManifest = found[j];
        let nm: &'a str = fm.name();
        let ghost before = names@;
        names.push(nm);
        assert(names@ == before.push(nm));
        assert(nm@ == c[j as int].name);
        assert(c.take(j + 1) =~= c.take(j as int).push(c[j as int]));
        assert(names_of(c.take(j + 1)) =~= names_of(c.take(j as int)).push(c[j as int].name));
        assert(strs_view(names@) =~= strs_view(before).push(nm@));
    }
    assert(c.take(k as int) =~= c);
    Detection::Ambiguous(sort_strs(names))
}

pub struct Classification {
    pub observation: Observation,
    pub fallback_used: bool,
}

/// The text a manifest's rules are matched against: the last `scan_lines` lines of the
/// viewport, joined by newlines.
pub fn scan_window(manifest: &CompiledManifest, viewport: &[String]) -> (r: String)
    ensures
        r@ == scanned_text(manifest@, strings_view(viewport@)),
{
    let len = viewport.len();
    let start = len.saturating_sub(manifest.scan_lines);
    join_lines(viewport, start)
}

/// What a manifest makes of its rules' outcomes on a viewport: `matched[i]` tells whether
/// rule `i` matched; outcomes may stop after the first match.
pub fn classify_outcomes(manifest: &CompiledManifest, matched: &[bool]) -> (c: Classification)
    ensures
        (c.observation, c.fallback_used) == classified(manifest@, matched@),
{
    let ghost rs = manifest@.rules;
    let n = if matched.len() < manifest.rules.len() {
        matched.len()
    } else {
        manifest.rules.len()
    };
    assert(rs.skip(0) =~= rs);
    assert(matched@.skip(0) =~= matched@);
    for i in 0..n
        invariant
            n <= matched@.len(),
            n <= manifest.rules@.len(),
            rs == manifest@.rules,
            forall|j: int| 0 <= j < i ==> !matched@[j],
            first_hit(rs, matched@) == first_hit(rs.skip(i as int), matched@.skip(i as int)),
    {
        proof {
            assert(rs.skip(i as int).drop_first() =~= rs.skip(i + 1));
            assert(matched@.skip(i as int).drop_first() =~= matched@.skip(i + 1));
            assert(rs.skip(i as int)[0] == rs[i as int]);
            assert(rs[i as int] == (manifest.rules@[i as int].state, manifest.rules@[i as int].pattern@));
        }
        if matched[i] {
            return Classification { observation: manifest.rules[i].state, fallback_used: false };
        }
    }
    assert(rs.skip(n as int).len() == 0 || matched@.skip(n as int).len() == 0);
    match manifest.fallback {
        Some(f) => Classification { observation: f, fallback_used: true },
        None => Classification { observation: Observation::Unknown, fallback_used: false },
    }
}

/// Classifies a viewport with a manifest's rules, trying them in order up to the first
/// that matches.
pub fn classify(manifest: &CompiledManifest, viewport: &[String]) -> (c: Classification)
    ensures
        (c.observation, c.fallback_used) == classification_of(manifest@, strings_view(viewport@)),
{
    proof {
        use_type_invariant(manifest);
    }
    let text = scan_window(manifest, viewport);
    let ghost rs = manifest@.rules;
    let mut matched: Vec<bool> = Vec::new();
    let n = manifest.rules.len();
    let mut i: usize = 0;
    while i < n
        invariant_except_break
            i <= n,
            matched@.len() == i,
            forall|j: int| 0 <= j < i ==> !matched@[j],
        invariant
            n == manifest.rules@.len(),
            rs == manifest@.rules,
            i <= n,
            matched@.len() <= n,
            forall|j: int| 0 <= j < manifest.rules@.len() ==> regex_valid(#[trigger] manifest.rules@[j].pattern@),
            forall|j: int|
                0 <= j < matched@.len() ==> #[trigger] matched@[j] == regex_matches(rs[j].1, text@),
        ensures
            matched@.len() <= n,
            matched@.len() < n ==> matched@.len() > 0 && matched@.last(),
        decreases n - i,
    {
        let rule = &manifest.rules[i];
        assert(rs[i as int] == (rule.state, rule.pattern@));
        let hit = regex_is_match(rule.pattern.as_str(), text.as_str());
        matched.push(hit);
        i = i + 1;
        if hit {
            break;
        }
    }
    proof {
        lemma_first_hit(rs, matched@, text@);
    }
    classify_outcomes(manifest, matched.as_slice())
}

// ---------------------------------------------------------------------------
// The bundled set
// ---------------------------------------------------------------------------

/// Why a bundled document is refused, if it is.
pub open spec fn bundled_error(doc: (String, Option<RawManifest>)) -> Option<ManifestError> {
    manifest_error(
        path_file_stem(doc.0@),
        match doc.1 {
            Some(m) => Some(raw_view(m)),
            None => None,
        },
    )
}

/// The message for a refused bundled document.
pub open spec fn bundled_message(name: Seq<char>, e: ManifestError) -> Seq<char> {
    "bundled "@ + name + ": "@ + "manifest error: "@ + error_category(e)
}

/// Compiles the manifests shipped with the plugin, each given by its file name and
/// its document; the first refused one fails the whole set.
pub fn bundled_manifests(documents: &[(String, Option<RawManifest>)]) -> (r: Result<
    Vec<CompiledManifest>,
    ManifestSetError,
>)
    ensures
        match r {
            Ok(v) => v@.len() == documents@.len() && forall|i: int|
                0 <= i < documents@.len() ==> bundled_error(#[trigger] documents@[i]) is None
                    && v@[i]@ == compiled(raw_view(documents@[i].1->0)),
            Err(e) => exists|i: int|
                {
                    &&& 0 <= i < documents@.len()
                    &&& forall|j: int| 0 <= j < i ==> bundled_error(#[trigger] documents@[j]) is None
                    &&& bundled_error(documents@[i]) is Some
                    &&& e.message@ == bundled_message(
                        documents@[i].0@,
                        bundled_error(documents@[i])->0,
                    )
                },
        },
{
    let mut out: Vec<CompiledManifest> = Vec::new();
    let n = documents.len();
    for i in 0..n
        invariant
            n == documents@.len(),
            out@.len() == i,
            forall|j: int|
                0 <= j < i ==> bundled_error(#[trigger] documents@[j]) is None
                    && out@[j]@ == compiled(raw_view(documents@[j].1->0)),
    {
        let doc = &documents[i];
        let raw = match &doc.1 {
            Some(m) => Some(m),
            None => None,
        };
        match CompiledManifest::parse(doc.0.as_str(), raw) {
            Ok(m) => {
                out.push(m);
            },
            Err(e) => {
                let mut message = String::new();
                message.append("bundled ");
                message.append(doc.0.as_str());
                message.append(": ");
                let text = e.message();
                message.append(text.as_str());
                proof {
                    assert(message@ =~= bundled_message(documents@[i as int].0@, e));
                }
                return Err(ManifestSetError { message });
            },
        }
    }
    Ok(out)
}

/// A manifest that validates is named after its file, with a valid name, a scan depth
/// of 1 to 500 lines, at least one rule, and only patterns the regex engine accepts.
pub proof fn lemma_valid_manifest_shape(filename: Seq<char>, raw: RawManifestView)
    requires
        manifest_error(path_file_stem(filename), Some(raw)) is None,
    ensures
        path_file_stem(filename) == Some(compiled(raw).name),
        is_valid_name(compiled(raw).name),
        1 <= compiled(raw).scan_lines <= 500,
        compiled(raw).rules.len() > 0,
        compiled(raw).process.len() > 0,
        forall|i: int| 0 <= i < compiled(raw).rules.len() ==> regex_valid(#[trigger] compiled(raw).rules[i].1),
{
    lemma_rules_valid(raw.rules);
}

proof fn lemma_rules_valid(rules: Seq<(Seq<char>, Seq<char>)>)
    requires
        rules_error(rules) is None,
    ensures
        forall|i: int| 0 <= i < rules.len() ==> rule_state(#[trigger] rules[i].0) is Some && regex_valid(rules[i].1),
    decreases rules.len(),
{
    if rules.len() > 0 {
        lemma_rules_valid(rules.drop_last());
        assert forall|i: int| 0 <= i < rules.len() implies rule_state(#[trigger] rules[i].0) is Some
            && regex_valid(rules[i].1) by {
            if i < rules.len() - 1 {
                assert(rules.drop_last()[i] == rules[i]);
            }
        }
    }
}

} // verus!
