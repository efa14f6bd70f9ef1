//! Mod validation: integrity checks run against a [`ModManifest`] before a
//! mod may be activated.
//!
//! Checks, in order: schema version is `1`; required fields are not blank;
//! `mod.id` is in `author.slug` dot-notation; `mod.version` and
//! `mod.game_version_min` are `MAJOR.MINOR.PATCH` triples; a mod that
//! targets a newer game than the running one gets a warning; when the
//! mod's root directory was inspected, it must exist, hold `mod.toml` and
//! be named after `mod.id`; every declared dependency must be installed.
//!
//! The filesystem is not touched here: the caller inspects the mod root
//! and hands over what it found as [`ModRootFacts`].

use vstd::prelude::*;

use crate::mod_manifest::ModManifest;
use crate::text::{all_whitespace, chars_of, decimal, decimal_spec, str_eq, trims_to_empty};

verus! {

// ── Result types ──────────────────────────────────────────────────────────

/// A single hard error that prevents a mod from being activated.
#[derive(Debug)]
pub struct ValidationError {
    /// Human-readable description of what is wrong.
    pub message: String,
}

impl ValidationError {
    /// Creates a new `ValidationError` with the given message.
    pub fn new(message: String) -> (e: Self)
        ensures
            e.message@ == message@,
    {
        ValidationError { message }
    }

    /// The `Display` rendering: `"error: "` followed by the message.
    pub fn to_text(&self) -> (s: String)
        ensures
            s@ == "error: "@ + self.message@,
    {
        crate::text::concat2("error: ", self.message.as_str())
    }
}

/// A non-fatal warning: the mod can still be activated.
#[derive(Debug)]
pub struct ValidationWarning {
    /// Human-readable description of the issue.
    pub message: String,
}

impl ValidationWarning {
    /// Creates a new `ValidationWarning` with the given message.
    pub fn new(message: String) -> (w: Self)
        ensures
            w.message@ == message@,
    {
        ValidationWarning { message }
    }

    /// The `Display` rendering: `"warning: "` followed by the message.
    pub fn to_text(&self) -> (s: String)
        ensures
            s@ == "warning: "@ + self.message@,
    {
        crate::text::concat2("warning: ", self.message.as_str())
    }
}

/// The complete result of running the validation pipeline against one mod.
#[derive(Debug)]
pub struct ValidationResult {
    /// Hard errors — any non-empty list means the mod must not be activated.
    pub errors: Vec<ValidationError>,
    /// Non-fatal warnings.
    pub warnings: Vec<ValidationWarning>,
}

impl ValidationResult {
    /// The messages of the errors, in order.
    pub open spec fn error_messages(&self) -> Seq<Seq<char>> {
        self.errors@.map_values(|e: ValidationError| e.message@)
    }

    /// The messages of the warnings, in order.
    pub open spec fn warning_messages(&self) -> Seq<Seq<char>> {
        self.warnings@.map_values(|w: ValidationWarning| w.message@)
    }

    /// An empty result: no errors, no warnings.
    pub fn empty() -> (r: Self)
        ensures
            r.errors@.len() == 0,
            r.warnings@.len() == 0,
    {
        ValidationResult { errors: Vec::new(), warnings: Vec::new() }
    }

    /// Returns `true` when there are no errors (warnings are allowed).
    pub fn is_valid(&self) -> (r: bool)
        ensures
            r == (self.errors@.len() == 0),
    {
        self.errors.len() == 0
    }

    /// Appends an error with the given message.
    pub fn push_error(&mut self, message: String)
        ensures
            final(self).error_messages() == old(self).error_messages().push(message@),
            final(self).warnings@ == old(self).warnings@,
    {
        self.errors.push(ValidationError::new(message));
        proof {
            assert(self.error_messages() =~= old(self).error_messages().push(message@));
        }
    }

    /// Appends a warning with the given message.
    pub fn push_warning(&mut self, message: String)
        ensures
            final(self).warning_messages() == old(self).warning_messages().push(message@),
            final(self).errors@ == old(self).errors@,
    {
        self.warnings.push(ValidationWarning::new(message));
        proof {
            assert(self.warning_messages() =~= old(self).warning_messages().push(message@));
        }
    }
}

impl Default for ValidationResult {
    fn default() -> (r: Self)
        ensures
            r.errors@.len() == 0,
            r.warnings@.len() == 0,
    {
        ValidationResult::empty()
    }
}

// ── Version parsing ───────────────────────────────────────────────────────

/// Whether `c` is an ASCII decimal digit.
pub open spec fn is_digit_spec(c: char) -> bool {
    48 <= (c as u32) && (c as u32) <= 57
}

/// Value of an ASCII decimal digit.
pub open spec fn digit_value(c: char) -> nat {
    ((c as u32) - 48) as nat
}

/// Whether every character of `d` is a decimal digit.
pub open spec fn all_digits(d: Seq<char>) -> bool {
    forall|i: int| 0 <= i < d.len() ==> is_digit_spec(#[trigger] d[i])
}

/// The number written by the decimal digits `d` (most significant first).
pub open spec fn digits_value(d: Seq<char>) -> nat
    decreases d.len(),
{
    if d.len() == 0 {
        0
    } else {
        digits_value(d.drop_last()) * 10 + digit_value(d.last())
    }
}

/// A number written as decimal digits only: at least one digit and nothing
/// else (no sign), with a value that fits in 64 bits.
pub open spec fn parse_u64_spec(s: Seq<char>) -> Option<u64> {
    if s.len() == 0 || !all_digits(s) || digits_value(s) > u64::MAX {
        None
    } else {
        Some(digits_value(s) as u64)
    }
}

/// The pieces of `s` between `.` separators, as `str::split('.')` yields
/// them: `k` dots give `k + 1` pieces, empty pieces included.
pub open spec fn split_dots(s: Seq<char>) -> Seq<Seq<char>>
    decreases s.len(),
{
    if s.len() == 0 {
        seq![Seq::<char>::empty()]
    } else {
        let r = split_dots(s.drop_last());
        if s.last() == '.' {
            r.push(Seq::<char>::empty())
        } else {
            r.update(r.len() - 1, r.last().push(s.last()))
        }
    }
}

/// `split_dots` never yields an empty list of pieces.
pub proof fn lemma_split_dots_nonempty(s: Seq<char>)
    ensures
        split_dots(s).len() >= 1,
    decreases s.len(),
{
    if s.len() > 0 {
        lemma_split_dots_nonempty(s.drop_last());
    }
}

/// A `"MAJOR.MINOR.PATCH"` version: exactly three dot-separated pieces,
/// each parsing as a `u64`.
pub open spec fn parse_semver_spec(s: Seq<char>) -> Option<(u64, u64, u64)> {
    let p = split_dots(s);
    if p.len() != 3 {
        None
    } else {
        match (parse_u64_spec(p[0]), parse_u64_spec(p[1]), parse_u64_spec(p[2])) {
            (Some(a), Some(b), Some(c)) => Some((a, b, c)),
            _ => None,
        }
    }
}

/// Lexicographic "greater than" on version triples.
pub open spec fn triple_gt(a: (u64, u64, u64), b: (u64, u64, u64)) -> bool {
    a.0 > b.0 || (a.0 == b.0 && (a.1 > b.1 || (a.1 == b.1 && a.2 > b.2)))
}

/// Digits before position `i` never write a larger number than all of them.
proof fn lemma_digits_prefix_le(d: Seq<char>, i: int)
    requires
        0 <= i <= d.len(),
    ensures
        digits_value(d.take(i)) <= digits_value(d),
    decreases d.len(),
{
    if i < d.len() {
        assert(d.drop_last().take(i) =~= d.take(i));
        lemma_digits_prefix_le(d.drop_last(), i);
    } else {
        assert(d.take(i) =~= d);
    }
}

/// The number written by the digits `d[start..]`, or `None` when they are
/// empty, not all digits, or too large for 64 bits.
fn parse_digits(v: &Vec<char>, start: usize) -> (r: Option<u64>)
    requires
        start <= v.len(),
    ensures
        ({
            let d = v@.skip(start as int);
            r == (if d.len() == 0 || !all_digits(d) || digits_value(d) > u64::MAX {
                None::<u64>
            } else {
                Some(digits_value(d) as u64)
            })
        }),
{
    let ghost d = v@.skip(start as int);
    if start == v.len() {
        return None;
    }
    let mut acc: u64 = 0;
    let mut overflow = false;
    let mut i = start;
    while i < v.len()
        invariant
            start <= i <= v.len(),
            d == v@.skip(start as int),
            forall|j: int| 0 <= j < i - start ==> is_digit_spec(#[trigger] d[j]),
            !overflow ==> acc as nat == digits_value(d.take(i - start)),
            overflow ==> digits_value(d.take(i - start)) > u64::MAX,
        decreases v.len() - i,
    {
        let c = v[i];
        let u = c as u32;
        if u < 48 || u > 57 {
            assert(!is_digit_spec(d[i - start]));
            return None;
        }
        let ghost prev = d.take(i - start);
        assert(d.take(i - start + 1).drop_last() =~= prev);
        assert(d.take(i - start + 1).last() == c);
        let dig = (u - 48) as u64;
        if !overflow {
            if acc > (u64::MAX - dig) / 10 {
                overflow = true;
                assert(digits_value(d.take(i - start + 1)) > u64::MAX) by (nonlinear_arith)
                    requires
                        digits_value(d.take(i - start + 1)) == acc * 10 + dig,
                        acc > (u64::MAX - dig) / 10,
                        dig <= 9,
                ;
            } else {
                assert(acc * 10 + dig <= u64::MAX) by (nonlinear_arith)
                    requires
                        acc <= (u64::MAX - dig) / 10,
                        dig <= 9,
                ;
                acc = acc * 10 + dig;
            }
        } else {
            assert(digits_value(d.take(i - start + 1)) >= digits_value(prev)) by (nonlinear_arith)
                requires
                    digits_value(d.take(i - start + 1)) == digits_value(prev) * 10 + dig,
            ;
        }
        i = i + 1;
    }
    assert(d.take(i - start) =~= d);
    assert(all_digits(d));
    if overflow {
        None
    } else {
        Some(acc)
    }
}

/// Reads a character sequence of decimal digits as a 64-bit number.
pub fn parse_u64_chars(v: &Vec<char>) -> (r: Option<u64>)
    ensures
        r == parse_u64_spec(v@),
{
    if v.len() == 0 {
        return None;
    }
    let r = parse_digits(v, 0);
    assert(v@.skip(0) =~= v@);
    r
}

/// Splits `v` at every `.`, as `str::split('.')` does.
pub fn split_dots_exec(v: &Vec<char>) -> (parts: Vec<Vec<char>>)
    ensures
        parts@.len() == split_dots(v@).len(),
        forall|k: int| 0 <= k < parts@.len() ==> #[trigger] parts@[k]@ == split_dots(v@)[k],
{
    let mut parts: Vec<Vec<char>> = Vec::new();
    let mut cur: Vec<char> = Vec::new();
    let mut i: usize = 0;
    while i < v.len()
        invariant
            i <= v.len(),
            parts@.len() + 1 == split_dots(v@.take(i as int)).len(),
            forall|k: int| 0 <= k < parts@.len() ==> #[trigger] parts@[k]@ == split_dots(
                v@.take(i as int),
            )[k],
            cur@ == split_dots(v@.take(i as int)).last(),
        decreases v.len() - i,
    {
        let ghost before = v@.take(i as int);
        proof {
            lemma_split_dots_nonempty(before);
            assert(v@.take(i + 1).drop_last() =~= before);
        }
        let c = v[i];
        if c == '.' {
            parts.push(cur);
            cur = Vec::new();
        } else {
            cur.push(c);
        }
        i = i + 1;
    }
    parts.push(cur);
    assert(v@.take(i as int) =~= v@);
    parts
}

/// Parses a `"MAJOR.MINOR.PATCH"` version string into a comparable triple;
/// `None` unless the string has exactly that three-part form.
pub fn parse_semver(s: &str) -> (r: Option<(u64, u64, u64)>)
    ensures
        r == parse_semver_spec(s@),
{
    let v = chars_of(s);
    let parts = split_dots_exec(&v);
    if parts.len() != 3 {
        return None;
    }
    let a = parse_u64_chars(&parts[0]);
    let b = parse_u64_chars(&parts[1]);
    let c = parse_u64_chars(&parts[2]);
    match (a, b, c) {
        (Some(a), Some(b), Some(c)) => Some((a, b, c)),
        _ => None,
    }
}


// ── Validator ─────────────────────────────────────────────────────────────

/// What the caller found on disk about a mod's root directory.
#[derive(Debug)]
pub struct ModRootFacts {
    /// The root path as `Path::display` renders it.
    pub root_display: String,
    /// Whether the root exists and is a directory.
    pub root_is_dir: bool,
    /// The path of `<root>/mod.toml` as `Path::display` renders it.
    pub manifest_path_display: String,
    /// Whether `<root>/mod.toml` exists.
    pub manifest_exists: bool,
    /// The root's final path component, when it is valid UTF-8.
    pub dir_name: Option<String>,
}

/// Stateless validator: the running game version and the ids of all
/// installed mods, used for every manifest of one activation pass.
pub struct ModValidator<'a> {
    /// Running game version string, e.g. `"0.1.0"`.
    pub game_version: &'a str,
    /// All currently installed mod ids.
    pub installed_ids: &'a [&'a str],
}

/// `"required field `<label>` is empty"` when `value` trims to nothing.
pub open spec fn required_error(label: Seq<char>, value: Seq<char>) -> Seq<Seq<char>> {
    if all_whitespace(value) {
        seq!["required field `"@ + label + "` is empty"@]
    } else {
        seq![]
    }
}

/// Errors of the required-field check, in field order.
pub open spec fn required_errors(m: ModManifest) -> Seq<Seq<char>> {
    required_error("mod.id"@, m.info.id@)
        + required_error("mod.name"@, m.info.name@)
        + required_error("mod.version"@, m.info.version@)
        + required_error("mod.game_version_min"@, m.info.game_version_min@)
        + required_error("licensing.spdx_license"@, m.licensing.spdx_license@)
}

/// Errors of the schema-version check.
pub open spec fn schema_errors(m: ModManifest) -> Seq<Seq<char>> {
    if m.schema_version != 1 {
        seq![
            "unsupported schema_version "@ + decimal_spec(m.schema_version as nat)
                + " — only schema_version 1 is understood"@,
        ]
    } else {
        seq![]
    }
}

/// Whether `c` may appear in a mod id: ASCII alphanumeric, `.` or `-`.
pub open spec fn id_char_ok(c: char) -> bool {
    let u = c as u32;
    (48 <= u && u <= 57) || (65 <= u && u <= 90) || (97 <= u && u <= 122) || c == '.'
        || c == '-'
}

/// Whether a non-empty id is in `author.slug` dot-notation.
pub open spec fn id_format_ok(id: Seq<char>) -> bool {
    &&& forall|i: int| 0 <= i < id.len() ==> id_char_ok(#[trigger] id[i])
    &&& exists|i: int| 0 <= i < id.len() && #[trigger] id[i] == '.'
    &&& id[0] != '.'
    &&& id.last() != '.'
    &&& !(exists|i: int| 0 <= i < id.len() - 1 && #[trigger] id[i] == '.' && id[i + 1] == '.')
}

/// Errors of the id-format check (an empty id is left to the required-field
/// check).
pub open spec fn id_errors(m: ModManifest) -> Seq<Seq<char>> {
    let id = m.info.id@;
    if id.len() == 0 || id_format_ok(id) {
        seq![]
    } else {
        seq![
            "mod.id `"@ + id
                + "` is not in `author.slug` dot-notation (allowed: alphanumerics, hyphens, dots; must contain at least one dot; must not start/end with a dot)"@,
        ]
    }
}

/// Error for one version field that is non-empty but not a semver triple.
pub open spec fn version_error(label: Seq<char>, value: Seq<char>) -> Seq<Seq<char>> {
    if value.len() == 0 || parse_semver_spec(value) is Some {
        seq![]
    } else {
        seq![
            "field `"@ + label + "` value `"@ + value
                + "` is not a valid MAJOR.MINOR.PATCH semver triple"@,
        ]
    }
}

/// Errors of the version-format check.
pub open spec fn version_errors(m: ModManifest) -> Seq<Seq<char>> {
    version_error("mod.version"@, m.info.version@) + version_error(
        "mod.game_version_min"@,
        m.info.game_version_min@,
    )
}

/// Warnings of the host-version compatibility check: the mod targets a
/// newer game than the running one (both versions must parse).
pub open spec fn compat_warnings(m: ModManifest, running: Seq<char>) -> Seq<Seq<char>> {
    let min = m.info.game_version_min@;
    match (parse_semver_spec(min), parse_semver_spec(running)) {
        (Some(a), Some(b)) => if triple_gt(a, b) {
            seq![
                "mod targets game_version_min `"@ + min + "` but the running game version is `"@
                    + running + "` — the mod may not work correctly"@,
            ]
        } else {
            seq![]
        },
        _ => seq![],
    }
}

/// Where a version triple stands in release order, as one number: the
/// major component weighs more than any minor, the minor more than any
/// patch.
pub open spec fn release_rank(v: (u64, u64, u64)) -> int {
    ((v.0 as int) * 0x1_0000_0000_0000_0000 + v.1 as int) * 0x1_0000_0000_0000_0000 + v.2 as int
}

/// Two-digit comparison in base `w`: the high digit decides unless equal.
proof fn lemma_two_digit_gt(x1: int, y1: int, x2: int, y2: int, w: int)
    requires
        x1 >= 0,
        x2 >= 0,
        0 <= y1 < w,
        0 <= y2 < w,
    ensures
        x1 * w + y1 > x2 * w + y2 <==> (x1 > x2 || (x1 == x2 && y1 > y2)),
{
    if x1 > x2 {
        assert(x1 * w >= x2 * w + w) by (nonlinear_arith)
            requires x1 >= x2 + 1, w > 0;
    } else if x1 < x2 {
        assert(x2 * w >= x1 * w + w) by (nonlinear_arith)
            requires x2 >= x1 + 1, w > 0;
    }
}

/// Release order is the lexicographic order of the components.
proof fn lemma_release_rank_is_lexicographic(a: (u64, u64, u64), b: (u64, u64, u64))
    ensures
        release_rank(a) > release_rank(b) <==> triple_gt(a, b),
{
    let w: int = 0x1_0000_0000_0000_0000;
    lemma_two_digit_gt(a.0 as int, a.1 as int, b.0 as int, b.1 as int, w);
    let ha = (a.0 as int) * w + a.1 as int;
    let hb = (b.0 as int) * w + b.1 as int;
    assert(ha >= 0 && hb >= 0) by (nonlinear_arith)
        requires ha == (a.0 as int) * w + a.1 as int, hb == (b.0 as int) * w + b.1 as int,
            a.0 >= 0, a.1 >= 0, b.0 >= 0, b.1 >= 0, w > 0;
    lemma_two_digit_gt(ha, a.2 as int, hb, b.2 as int, w);
    if ha == hb {
        assert(a.0 == b.0 && a.1 == b.1) by {
            lemma_two_digit_gt(a.0 as int, a.1 as int, b.0 as int, b.1 as int, w);
            lemma_two_digit_gt(b.0 as int, b.1 as int, a.0 as int, a.1 as int, w);
        }
    }
}

/// The compatibility warning comes exactly when the mod's minimum game
/// version is later in release order than the running one: one warning
/// naming both versions when it is, none when the running game is the same
/// release or a later one. A later minor or patch under the same major
/// counts as later (`0.2.0` against `0.1.0`, `0.1.5` against `0.1.2`).
pub proof fn lemma_compat_warning_exactly_when_min_is_later(
    m: ModManifest,
    running: Seq<char>,
    min_v: (u64, u64, u64),
    run_v: (u64, u64, u64),
)
    requires
        parse_semver_spec(m.info.game_version_min@) == Some(min_v),
        parse_semver_spec(running) == Some(run_v),
    ensures
        release_rank(min_v) > release_rank(run_v) ==> compat_warnings(m, running) == seq![
            "mod targets game_version_min `"@ + m.info.game_version_min@
                + "` but the running game version is `"@ + running
                + "` — the mod may not work correctly"@,
        ],
        release_rank(min_v) <= release_rank(run_v) ==> compat_warnings(m, running).len() == 0,
        (min_v.0 == run_v.0 && min_v.1 > run_v.1) ==> compat_warnings(m, running).len() == 1,
        (min_v.0 == run_v.0 && min_v.1 == run_v.1 && min_v.2 > run_v.2) ==> compat_warnings(
            m,
            running,
        ).len() == 1,
        min_v.0 > run_v.0 ==> compat_warnings(m, running).len() == 1,
        (min_v.0 < run_v.0 || (min_v.0 == run_v.0 && min_v.1 < run_v.1)) ==> compat_warnings(
            m,
            running,
        ).len() == 0,
        min_v == run_v ==> compat_warnings(m, running).len() == 0,
{
    lemma_release_rank_is_lexicographic(min_v, run_v);
}

/// Errors of the entry-point check (skipped when the root was not inspected).
pub open spec fn entry_errors(m: ModManifest, facts: Option<ModRootFacts>) -> Seq<Seq<char>> {
    match facts {
        None => seq![],
        Some(f) => if !f.root_is_dir {
            seq!["mod root directory `"@ + f.root_display@ + "` does not exist on disk"@]
        } else {
            (if !f.manifest_exists {
                seq![
                    "mod.toml not found at `"@ + f.manifest_path_display@
                        + "` — directory exists but has no manifest"@,
                ]
            } else {
                seq![]
            }) + match f.dir_name {
                Some(n) => if n@ != m.info.id@ {
                    seq![
                        "mod directory name `"@ + n@ + "` does not match mod.id `"@ + m.info.id@
                            + "` — directory name and mod.id must be identical"@,
                    ]
                } else {
                    seq![]
                },
                None => seq![],
            }
        },
    }
}

/// Errors of the dependency check: one per declared dependency that is not
/// installed, in declaration order.
pub open spec fn dep_errors(deps: Seq<Seq<char>>, installed: Seq<Seq<char>>) -> Seq<Seq<char>>
    decreases deps.len(),
{
    if deps.len() == 0 {
        seq![]
    } else {
        dep_errors(deps.drop_last(), installed) + if installed.contains(deps.last()) {
            seq![]
        } else {
            seq![
                "declared dependency `"@ + deps.last() + "` is not in the installed mod set"@,
            ]
        }
    }
}

/// All errors of the pipeline, in check order.
pub open spec fn all_errors(
    m: ModManifest,
    facts: Option<ModRootFacts>,
    installed: Seq<Seq<char>>,
) -> Seq<Seq<char>> {
    schema_errors(m) + required_errors(m) + id_errors(m) + version_errors(m) + entry_errors(
        m,
        facts,
    ) + dep_errors(m.info.dependencies@.map_values(|d: String| d@), installed)
}

/// Concatenation of three string slices.
fn cat3(a: &str, b: &str, c: &str) -> (s: String)
    ensures
        s@ == a@ + b@ + c@,
{
    let mut s = String::new();
    s.append(a);
    s.append(b);
    s.append(c);
    s
}

/// Concatenation of five string slices.
fn cat5(a: &str, b: &str, c: &str, d: &str, e: &str) -> (s: String)
    ensures
        s@ == a@ + b@ + c@ + d@ + e@,
{
    let mut s = String::new();
    s.append(a);
    s.append(b);
    s.append(c);
    s.append(d);
    s.append(e);
    s
}

/// Whether `v` is a non-empty id in `author.slug` dot-notation.
fn id_format_ok_exec(v: &Vec<char>) -> (r: bool)
    requires
        v@.len() > 0,
    ensures
        r == id_format_ok(v@),
{
    let mut all_ok = true;
    let mut has_dot = false;
    let mut double = false;
    let mut i: usize = 0;
    while i < v.len()
        invariant
            i <= v.len(),
            all_ok == (forall|j: int| 0 <= j < i ==> id_char_ok(#[trigger] v@[j])),
            has_dot == (exists|j: int| 0 <= j < i && #[trigger] v@[j] == '.'),
            double == (exists|j: int| 0 <= j < i - 1 && #[trigger] v@[j] == '.' && v@[j + 1] == '.'),
        decreases v.len() - i,
    {
        let c = v[i];
        let u = c as u32;
        let ok = (48 <= u && u <= 57) || (65 <= u && u <= 90) || (97 <= u && u <= 122) || c == '.'
            || c == '-';
        if !ok {
            all_ok = false;
        }
        if c == '.' {
            has_dot = true;
            if i > 0 && v[i - 1] == '.' {
                double = true;
                assert(v@[i - 1] == '.' && v@[(i - 1) + 1] == '.');
            }
        }
        proof {
            if double && !(exists|j: int| 0 <= j < i - 1 && #[trigger] v@[j] == '.' && v@[j + 1] == '.') {
                assert(v@[i - 1] == '.' && v@[(i - 1) + 1] == '.');
            }
        }
        i = i + 1;
    }
    all_ok && has_dot && v[0] != '.' && v[v.len() - 1] != '.' && !double
}

impl<'a> ModValidator<'a> {
    /// The installed mod ids as character sequences.
    pub open spec fn installed_view(&self) -> Seq<Seq<char>> {
        self.installed_ids@.map_values(|s: &str| s@)
    }

    /// Creates a validator for the running game version and installed ids.
    pub fn new(game_version: &'a str, installed_ids: &'a [&'a str]) -> (v: Self)
        ensures
            v.game_version == game_version,
            v.installed_ids == installed_ids,
    {
        ModValidator { game_version, installed_ids }
    }

    /// Runs the full validation pipeline against `manifest`.
    ///
    /// `mod_root` carries what the caller found about the mod's root
    /// directory; with `None` the entry-point check is skipped.
    pub fn validate(&self, manifest: &ModManifest, mod_root: Option<&ModRootFacts>) -> (r:
        ValidationResult)
        ensures
            r.error_messages() == all_errors(
                *manifest,
                match mod_root {
                    Some(f) => Some(*f),
                    None => None,
                },
                self.installed_view(),
            ),
            r.warning_messages() == compat_warnings(*manifest, self.game_version@),
    {
        let mut result = ValidationResult::empty();
        assert(result.error_messages() =~= seq![]);
        assert(result.warning_messages() =~= seq![]);
        self.check_schema_version(manifest, &mut result);
        self.check_required_fields(manifest, &mut result);
        self.check_id_format(manifest, &mut result);
        self.check_version_format(manifest, &mut result);
        self.check_game_version_compatibility(manifest, &mut result);
        self.check_entry_point(manifest, mod_root, &mut result);
        self.check_dependencies(manifest, &mut result);
        proof {
            let facts = match mod_root {
                Some(f) => Some(*f),
                None => None,
            };
            assert(result.error_messages() =~= all_errors(*manifest, facts, self.installed_view()));
            assert(result.warning_messages() =~= compat_warnings(*manifest, self.game_version@));
        }
        result
    }

    /// Schema version must be `1`.
    fn check_schema_version(&self, manifest: &ModManifest, result: &mut ValidationResult)
        ensures
            final(result).error_messages() == old(result).error_messages() + schema_errors(
                *manifest,
            ),
            final(result).warnings@ == old(result).warnings@,
    {
        if manifest.schema_version != 1 {
            let n = decimal(manifest.schema_version as u64);
            result.push_error(
                cat3(
                    "unsupported schema_version ",
                    n.as_str(),
                    " — only schema_version 1 is understood",
                ),
            );
        }
        assert(final(result).error_messages() =~= old(result).error_messages() + schema_errors(
            *manifest,
        ));
    }

    /// One required-field check.
    fn check_required(label: &str, value: &str, result: &mut ValidationResult)
        ensures
            final(result).error_messages() == old(result).error_messages() + required_error(
                label@,
                value@,
            ),
            final(result).warnings@ == old(result).warnings@,
    {
        if trims_to_empty(value) {
            result.push_error(cat3("required field `", label, "` is empty"));
        }
        assert(final(result).error_messages() =~= old(result).error_messages() + required_error(
            label@,
            value@,
        ));
    }

    /// Required fields must not be blank.
    fn check_required_fields(&self, manifest: &ModManifest, result: &mut ValidationResult)
        ensures
            final(result).error_messages() == old(result).error_messages() + required_errors(
                *manifest,
            ),
            final(result).warnings@ == old(result).warnings@,
    {
        Self::check_required("mod.id", manifest.info.id.as_str(), result);
        Self::check_required("mod.name", manifest.info.name.as_str(), result);
        Self::check_required("mod.version", manifest.info.version.as_str(), result);
        Self::check_required("mod.game_version_min", manifest.info.game_version_min.as_str(), result);
        Self::check_required("licensing.spdx_license", manifest.licensing.spdx_license.as_str(), result);
        assert(final(result).error_messages() =~= old(result).error_messages() + required_errors(
            *manifest,
        ));
    }

    /// `mod.id` must be in `author.slug` dot-notation.
    fn check_id_format(&self, manifest: &ModManifest, result: &mut ValidationResult)
        ensures
            final(result).error_messages() == old(result).error_messages() + id_errors(*manifest),
            final(result).warnings@ == old(result).warnings@,
    {
        let v = chars_of(manifest.info.id.as_str());
        if v.len() == 0 {
            assert(final(result).error_messages() =~= old(result).error_messages() + id_errors(
                *manifest,
            ));
            return;
        }
        if !id_format_ok_exec(&v) {
            result.push_error(
                cat3(
                    "mod.id `",
                    manifest.info.id.as_str(),
                    "` is not in `author.slug` dot-notation (allowed: alphanumerics, hyphens, dots; must contain at least one dot; must not start/end with a dot)",
                ),
            );
        }
        assert(final(result).error_messages() =~= old(result).error_messages() + id_errors(
            *manifest,
        ));
    }

    /// One version-format check.
    fn check_version(label: &str, value: &str, result: &mut ValidationResult)
        ensures
            final(result).error_messages() == old(result).error_messages() + version_error(
                label@,
                value@,
            ),
            final(result).warnings@ == old(result).warnings@,
    {
        let v = chars_of(value);
        if v.len() != 0 && parse_semver(value).is_none() {
            result.push_error(
                cat5(
                    "field `",
                    label,
                    "` value `",
                    value,
                    "` is not a valid MAJOR.MINOR.PATCH semver triple",
                ),
            );
        }
        assert(final(result).error_messages() =~= old(result).error_messages() + version_error(
            label@,
            value@,
        ));
    }

    /// `mod.version` and `mod.game_version_min` must be semver triples.
    fn check_version_format(&self, manifest: &ModManifest, result: &mut ValidationResult)
        ensures
            final(result).error_messages() == old(result).error_messages() + version_errors(
                *manifest,
            ),
            final(result).warnings@ == old(result).warnings@,
    {
        Self::check_version("mod.version", manifest.info.version.as_str(), result);
        Self::check_version("mod.game_version_min", manifest.info.game_version_min.as_str(), result);
        assert(final(result).error_messages() =~= old(result).error_messages() + version_errors(
            *manifest,
        ));
    }

    /// Warn when the mod targets a newer game than the running one.
    fn check_game_version_compatibility(&self, manifest: &ModManifest, result: &mut ValidationResult)
        ensures
            final(result).warning_messages() == old(result).warning_messages() + compat_warnings(
                *manifest,
                self.game_version@,
            ),
            final(result).errors@ == old(result).errors@,
    {
        let min = manifest.info.game_version_min.as_str();
        let running = self.game_version;
        match (parse_semver(min), parse_semver(running)) {
            (Some(a), Some(b)) => {
                if a.0 > b.0 || (a.0 == b.0 && (a.1 > b.1 || (a.1 == b.1 && a.2 > b.2))) {
                    result.push_warning(
                        cat5(
                            "mod targets game_version_min `",
                            min,
                            "` but the running game version is `",
                            running,
                            "` — the mod may not work correctly",
                        ),
                    );
                }
            },
            _ => {},
        }
        assert(final(result).warning_messages() =~= old(result).warning_messages()
            + compat_warnings(*manifest, self.game_version@));
    }

    /// Entry-point existence, from the facts the caller gathered.
    fn check_entry_point(
        &self,
        manifest: &ModManifest,
        mod_root: Option<&ModRootFacts>,
        result: &mut ValidationResult,
    )
        ensures
            final(result).error_messages() == old(result).error_messages() + entry_errors(
                *manifest,
                match mod_root {
                    Some(f) => Some(*f),
                    None => None,
                },
            ),
            final(result).warnings@ == old(result).warnings@,
    {
        let root = match mod_root {
            None => {
                assert(final(result).error_messages() =~= old(result).error_messages());
                return;
            },
            Some(f) => f,
        };
        if !root.root_is_dir {
            result.push_error(
                cat3("mod root directory `", root.root_display.as_str(), "` does not exist on disk"),
            );
            return;
        }
        let ghost mid = result.error_messages();
        if !root.manifest_exists {
            result.push_error(
                cat3(
                    "mod.toml not found at `",
                    root.manifest_path_display.as_str(),
                    "` — directory exists but has no manifest",
                ),
            );
        }
        let ghost mid2 = result.error_messages();
        match &root.dir_name {
            Some(n) => {
                if !str_eq(n.as_str(), manifest.info.id.as_str()) {
                    result.push_error(
                        cat5(
                            "mod directory name `",
                            n.as_str(),
                            "` does not match mod.id `",
                            manifest.info.id.as_str(),
                            "` — directory name and mod.id must be identical",
                        ),
                    );
                }
            },
            None => {},
        }
        assert(final(result).error_messages() =~= old(result).error_messages() + entry_errors(
            *manifest,
            Some(*root),
        ));
    }

    /// Whether `dep` is among the installed ids.
    fn is_installed(&self, dep: &str) -> (r: bool)
        ensures
            r == self.installed_view().contains(dep@),
    {
        let mut i: usize = 0;
        while i < self.installed_ids.len()
            invariant
                i <= self.installed_ids@.len(),
                forall|j: int| 0 <= j < i ==> self.installed_ids@[j]@ != dep@,
            decreases self.installed_ids@.len() - i,
        {
            if str_eq(self.installed_ids[i], dep) {
                assert(self.installed_view()[i as int] == dep@);
                return true;
            }
            i = i + 1;
        }
        proof {
            if self.installed_view().contains(dep@) {
                let k = choose|k: int| 0 <= k < self.installed_view().len() && self.installed_view()[k] == dep@;
                assert(self.installed_ids@[k]@ == dep@);
            }
        }
        false
    }

    /// Every declared dependency must be installed.
    fn check_dependencies(&self, manifest: &ModManifest, result: &mut ValidationResult)
        ensures
            final(result).error_messages() == old(result).error_messages() + dep_errors(
                manifest.info.dependencies@.map_values(|d: String| d@),
                self.installed_view(),
            ),
            final(result).warnings@ == old(result).warnings@,
    {
        let deps = &manifest.info.dependencies;
        let ghost dv = deps@.map_values(|d: String| d@);
        let mut i: usize = 0;
        while i < deps.len()
            invariant
                i <= deps@.len(),
                dv == deps@.map_values(|d: String| d@),
                result.error_messages() == old(result).error_messages() + dep_errors(
                    dv.take(i as int),
                    self.installed_view(),
                ),
                result.warnings@ == old(result).warnings@,
            decreases deps@.len() - i,
        {
            assert(dv.take(i + 1).drop_last() =~= dv.take(i as int));
            assert(dv.take(i + 1).last() == deps@[i as int]@);
            let dep = deps[i].as_str();
            if !self.is_installed(dep) {
                result.push_error(
                    cat3("declared dependency `", dep, "` is not in the installed mod set"),
                );
            }
            assert(result.error_messages() =~= old(result).error_messages() + dep_errors(
                dv.take(i + 1),
                self.installed_view(),
            ));
            i = i + 1;
        }
        assert(dv.take(deps@.len() as int) =~= dv);
    }
}

} // verus!
