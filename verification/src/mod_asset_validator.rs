//! Validation of mod asset files (material classifications, combination
//! rules, biomes, languages and races).
//!
//! Each validator takes a file name (for context) and the file's parsed
//! TOML document, and returns a [`ValidationReport`] of errors (the file
//! must not be loaded) and warnings (loadable, but suspicious). The document
//! is described by [`TomlValue`]: floating-point numbers appear as their
//! IEEE-754 bit pattern together with their decimal rendering, so that
//! comparisons and messages are exact.

use vstd::prelude::*;
use crate::text::{chars_of, decimal, decimal_spec, str_eq};

verus! {

// ── Report ────────────────────────────────────────────────────────────────

/// A critical problem: the asset must not be loaded.
#[derive(Clone, Debug, PartialEq, Eq)]
pub struct ValidationError {
    /// The file the problem was found in.
    pub file: String,
    /// What is wrong.
    pub message: String,
}

/// A suspicious but loadable condition.
#[derive(Clone, Debug, PartialEq, Eq)]
pub struct ValidationWarning {
    /// The file the condition was found in.
    pub file: String,
    /// What looks wrong.
    pub message: String,
}

impl ValidationError {
    fn new(file: &str, message: String) -> (e: Self)
        ensures
            e.file@ == file@,
            e.message@ == message@,
    {
        ValidationError { file: String::from_str(file), message }
    }

    /// The `Display` rendering: `[ERROR] <file>: <message>`.
    pub fn to_text(&self) -> (s: String)
        ensures
            s@ == "[ERROR] "@ + self.file@ + ": "@ + self.message@,
    {
        let mut s = String::new();
        s.append("[ERROR] ");
        s.append(self.file.as_str());
        s.append(": ");
        s.append(self.message.as_str());
        s
    }
}

impl ValidationWarning {
    fn new(file: &str, message: String) -> (w: Self)
        ensures
            w.file@ == file@,
            w.message@ == message@,
    {
        ValidationWarning { file: String::from_str(file), message }
    }

    /// The `Display` rendering: `[WARN]  <file>: <message>`.
    pub fn to_text(&self) -> (s: String)
        ensures
            s@ == "[WARN]  "@ + self.file@ + ": "@ + self.message@,
    {
        let mut s = String::new();
        s.append("[WARN]  ");
        s.append(self.file.as_str());
        s.append(": ");
        s.append(self.message.as_str());
        s
    }
}

/// The outcome of validating one asset file.
#[derive(Clone, Debug)]
pub struct ValidationReport {
    /// Critical errors, in the order found.
    pub errors: Vec<ValidationError>,
    /// Warnings, in the order found.
    pub warnings: Vec<ValidationWarning>,
}

/// `(file, message)` of each error.
pub open spec fn error_views(es: Seq<ValidationError>) -> Seq<(Seq<char>, Seq<char>)> {
    Seq::new(es.len(), |i: int| (es[i].file@, es[i].message@))
}

/// `(file, message)` of each warning.
pub open spec fn warning_views(ws: Seq<ValidationWarning>) -> Seq<(Seq<char>, Seq<char>)> {
    Seq::new(ws.len(), |i: int| (ws[i].file@, ws[i].message@))
}

/// Pairs each message with the same file.
pub open spec fn in_file(file: Seq<char>, msgs: Seq<Seq<char>>) -> Seq<(Seq<char>, Seq<char>)> {
    Seq::new(msgs.len(), |i: int| (file, msgs[i]))
}

impl ValidationReport {
    /// The errors as `(file, message)` pairs.
    pub open spec fn error_list(&self) -> Seq<(Seq<char>, Seq<char>)> {
        error_views(self.errors@)
    }

    /// The warnings as `(file, message)` pairs.
    pub open spec fn warning_list(&self) -> Seq<(Seq<char>, Seq<char>)> {
        warning_views(self.warnings@)
    }

    /// A report with nothing in it.
    pub fn new() -> (r: Self)
        ensures
            r.error_list() == Seq::<(Seq<char>, Seq<char>)>::empty(),
            r.warning_list() == Seq::<(Seq<char>, Seq<char>)>::empty(),
    {
        let r = ValidationReport { errors: Vec::new(), warnings: Vec::new() };
        assert(r.error_list() =~= Seq::empty());
        assert(r.warning_list() =~= Seq::empty());
        r
    }

    /// Whether the report holds no error (warnings are allowed).
    pub fn is_ok(&self) -> (b: bool)
        ensures
            b == (self.errors@.len() == 0),
    {
        self.errors.len() == 0
    }

    fn error(&mut self, file: &str, msg: String)
        ensures
            final(self).error_list() == old(self).error_list().push((file@, msg@)),
            final(self).warning_list() == old(self).warning_list(),
    {
        self.errors.push(ValidationError::new(file, msg));
        assert(self.error_list() =~= old(self).error_list().push((file@, msg@)));
    }

    fn warn(&mut self, file: &str, msg: String)
        ensures
            final(self).warning_list() == old(self).warning_list().push((file@, msg@)),
            final(self).error_list() == old(self).error_list(),
    {
        self.warnings.push(ValidationWarning::new(file, msg));
        assert(self.warning_list() =~= old(self).warning_list().push((file@, msg@)));
    }
}

impl Default for ValidationReport {
    fn default() -> (r: Self)
        ensures
            r.error_list() == Seq::<(Seq<char>, Seq<char>)>::empty(),
            r.warning_list() == Seq::<(Seq<char>, Seq<char>)>::empty(),
    {
        ValidationReport::new()
    }
}

// ── The TOML document model ───────────────────────────────────────────────

/// A 64-bit float: its IEEE-754 bit pattern and its `{}` rendering.
#[derive(Clone, Debug, PartialEq, Eq)]
pub struct FloatNum {
    /// The bit pattern.
    pub bits: u64,
    /// The decimal text `{}` prints for it.
    pub text: String,
}

/// A TOML value. An integer carries, besides its value, the float it
/// converts to (`as f64`), since numeric fields accept both.
#[derive(Debug)]
pub enum TomlValue {
    /// A string.
    String(String),
    /// An integer and its conversion to a float.
    Integer {
        /// The value.
        value: i64,
        /// The value converted to a float.
        as_float: FloatNum,
    },
    /// A float.
    Float(FloatNum),
    /// A boolean.
    Boolean(bool),
    /// A date-time, by its text.
    Datetime(String),
    /// An array.
    Array(Vec<TomlValue>),
    /// A table: its keys (distinct) and values.
    Table(Vec<(String, TomlValue)>),
}

/// The first value stored under `key` in a table's pairs.
pub open spec fn table_get(pairs: Seq<(String, TomlValue)>, key: Seq<char>) -> Option<TomlValue>
    decreases pairs.len(),
{
    if pairs.len() == 0 {
        None
    } else if pairs[0].0@ == key {
        Some(pairs[0].1)
    } else {
        table_get(pairs.drop_first(), key)
    }
}

/// `Value::get(key)`: the value under `key` when `v` is a table.
pub open spec fn get_spec(v: TomlValue, key: Seq<char>) -> Option<TomlValue> {
    match v {
        TomlValue::Table(pairs) => table_get(pairs@, key),
        _ => None,
    }
}

/// `Value::type_str`.
pub open spec fn kind_name(v: TomlValue) -> Seq<char> {
    match v {
        TomlValue::String(_) => "string"@,
        TomlValue::Integer { .. } => "integer"@,
        TomlValue::Float(_) => "float"@,
        TomlValue::Boolean(_) => "boolean"@,
        TomlValue::Datetime(_) => "datetime"@,
        TomlValue::Array(_) => "array"@,
        TomlValue::Table(_) => "table"@,
    }
}

/// A value read as a number: a float, or an integer converted to one.
pub open spec fn number_of(v: TomlValue) -> Option<FloatNum> {
    match v {
        TomlValue::Float(f) => Some(f),
        TomlValue::Integer { as_float, .. } => Some(as_float),
        _ => None,
    }
}

/// A number field: `get(key)` read as a number.
pub open spec fn number_field(v: TomlValue, key: Seq<char>) -> Option<FloatNum> {
    match get_spec(v, key) {
        Some(x) => number_of(x),
        None => None,
    }
}

/// A string field's characters, if the field is a string.
pub open spec fn str_field(v: TomlValue, key: Seq<char>) -> Option<Seq<char>> {
    match get_spec(v, key) {
        Some(TomlValue::String(s)) => Some(s@),
        _ => None,
    }
}

impl TomlValue {
    /// The value under `key`, when this is a table that has one.
    pub fn get(&self, key: &str) -> (r: Option<&TomlValue>)
        ensures
            match get_spec(*self, key@) {
                Some(x) => r == Some(&x),
                None => r is None,
            },
    {
        match self {
            TomlValue::Table(pairs) => {
                let mut i: usize = 0;
                assert(pairs@.skip(0) =~= pairs@);
                while i < pairs.len()
                    invariant
                        i <= pairs.len(),
                        table_get(pairs@, key@) == table_get(pairs@.skip(i as int), key@),
                        get_spec(*self, key@) == table_get(pairs@, key@),
                    decreases pairs.len() - i,
                {
                    assert(pairs@.skip(i as int).drop_first() =~= pairs@.skip(i + 1));
                    assert(pairs@.skip(i as int)[0] == pairs@[i as int]);
                    if str_eq(pairs[i].0.as_str(), key) {
                        return Some(&pairs[i].1);
                    }
                    i = i + 1;
                }
                None
            },
            _ => None,
        }
    }

    /// `Value::type_str`: the name of the value's kind.
    pub fn type_str(&self) -> (s: &'static str)
        ensures
            s@ == kind_name(*self),
    {
        match self {
            TomlValue::String(_) => "string",
            TomlValue::Integer { .. } => "integer",
            TomlValue::Float(_) => "float",
            TomlValue::Boolean(_) => "boolean",
            TomlValue::Datetime(_) => "datetime",
            TomlValue::Array(_) => "array",
            TomlValue::Table(_) => "table",
        }
    }

    /// The value read as a number.
    pub fn as_number(&self) -> (r: Option<&FloatNum>)
        ensures
            match number_of(*self) {
                Some(f) => r == Some(&f),
                None => r is None,
            },
    {
        match self {
            TomlValue::Float(f) => Some(f),
            TomlValue::Integer { as_float, .. } => Some(as_float),
            _ => None,
        }
    }
}

// ── Float order ───────────────────────────────────────────────────────────

/// The bits of `0.0`.
pub const ZERO_BITS: u64 = 0;
/// The bits of `1.0`.
pub const ONE_BITS: u64 = 0x3FF0_0000_0000_0000;
/// The bits of `10.0`.
pub const TEN_BITS: u64 = 0x4024_0000_0000_0000;

/// Whether the bit pattern is a NaN.
pub open spec fn is_nan(b: u64) -> bool {
    b % 0x8000_0000_0000_0000 > 0x7FF0_0000_0000_0000
}

/// An integer that orders non-NaN floats as their values do (`-0.0` and
/// `0.0` both map to 0).
pub open spec fn order_key(b: u64) -> int {
    let mag = (b % 0x8000_0000_0000_0000) as int;
    if b >= 0x8000_0000_0000_0000 {
        -mag
    } else {
        mag
    }
}

/// IEEE-754 `a < b`.
pub open spec fn f_lt(a: u64, b: u64) -> bool {
    !is_nan(a) && !is_nan(b) && order_key(a) < order_key(b)
}

/// IEEE-754 `a <= b`.
pub open spec fn f_le(a: u64, b: u64) -> bool {
    !is_nan(a) && !is_nan(b) && order_key(a) <= order_key(b)
}

fn order_key_exec(b: u64) -> (k: i128)
    ensures
        k == order_key(b),
{
    let mag = (b % 0x8000_0000_0000_0000u64) as i128;
    if b >= 0x8000_0000_0000_0000u64 {
        -mag
    } else {
        mag
    }
}

fn nan_exec(b: u64) -> (r: bool)
    ensures
        r == is_nan(b),
{
    b % 0x8000_0000_0000_0000u64 > 0x7FF0_0000_0000_0000u64
}

/// IEEE-754 `a < b` on bit patterns.
pub fn float_lt(a: u64, b: u64) -> (r: bool)
    ensures
        r == f_lt(a, b),
{
    !nan_exec(a) && !nan_exec(b) && order_key_exec(a) < order_key_exec(b)
}

/// IEEE-754 `a <= b` on bit patterns.
pub fn float_le(a: u64, b: u64) -> (r: bool)
    ensures
        r == f_le(a, b),
{
    !nan_exec(a) && !nan_exec(b) && order_key_exec(a) <= order_key_exec(b)
}

// ── Number rendering ──────────────────────────────────────────────────────

/// `{}` of a signed integer.
pub open spec fn signed_decimal(n: i64) -> Seq<char> {
    if n < 0 {
        seq!['-'] + decimal_spec((-(n as int)) as nat)
    } else {
        decimal_spec(n as nat)
    }
}

/// `{}` of a signed integer.
fn signed_text(n: i64) -> (s: String)
    ensures
        s@ == signed_decimal(n),
{
    if n < 0 {
        let m: u64 = if n == i64::MIN {
            0x8000_0000_0000_0000u64
        } else {
            (-n) as u64
        };
        let mut s = String::new();
        s.append("-");
        let d = decimal(m);
        s.append(d.as_str());
        proof {
            reveal_strlit("-");
        }
        s
    } else {
        decimal(n as u64)
    }
}

/// The two's-complement reinterpretation `i as u64`.
pub open spec fn as_u64(i: i64) -> u64 {
    if i >= 0 {
        i as u64
    } else {
        (i + 0x1_0000_0000_0000_0000int) as u64
    }
}

fn to_u64(i: i64) -> (r: u64)
    ensures
        r == as_u64(i),
{
    if i >= 0 {
        i as u64
    } else {
        ((i as i128) + 0x1_0000_0000_0000_0000i128) as u64
    }
}

// ── Shared checks ─────────────────────────────────────────────────────────

/// The messages `f(0)`, `f(1)`, …, `f(n - 1)`, concatenated in order.
pub open spec fn flat(n: int, f: spec_fn(int) -> Seq<Seq<char>>) -> Seq<Seq<char>>
    decreases n,
{
    if n <= 0 {
        Seq::empty()
    } else {
        flat(n - 1, f) + f(n - 1)
    }
}

/// The array an optional value holds, if it is one.
pub open spec fn array_items(v: Option<TomlValue>) -> Option<Seq<TomlValue>> {
    match v {
        Some(TomlValue::Array(a)) => Some(a@),
        _ => None,
    }
}

/// Errors about `schema_version`: it must be present, an integer, and 1.
pub open spec fn schema_errors(doc: TomlValue) -> Seq<Seq<char>> {
    match get_spec(doc, "schema_version"@) {
        None => seq!["missing required field 'schema_version' (must be the first field)"@],
        Some(TomlValue::Integer { value, .. }) => if value != 1 {
            seq![
                "unsupported schema_version "@ + signed_decimal(value)
                    + "; only version 1 is supported"@,
            ]
        } else {
            Seq::empty()
        },
        Some(x) => seq![
            "field 'schema_version' must be an integer, got: \""@ + kind_name(x) + "\""@,
        ],
    }
}

/// Errors of a required number field that must lie in `[0, 1]`, and the
/// number read (also when out of range).
pub open spec fn unit_field(v: TomlValue, field: Seq<char>) -> (Seq<Seq<char>>, Option<FloatNum>) {
    match get_spec(v, field) {
        None => (seq!["missing required field '"@ + field + "'"@], None),
        Some(x) => match number_of(x) {
            None => (
                seq!["field '"@ + field + "' must be a number, got: \""@ + kind_name(x) + "\""@],
                None,
            ),
            Some(n) => if !(f_le(ZERO_BITS, n.bits) && f_le(n.bits, ONE_BITS)) {
                (
                    seq![
                        "field '"@ + field + "' = "@ + n.text@ + " is outside valid range [0, 1]"@,
                    ],
                    Some(n),
                )
            } else {
                (Seq::empty(), Some(n))
            },
        },
    }
}

/// Errors of a required string field, and the string read.
pub open spec fn string_field(v: TomlValue, field: Seq<char>) -> (Seq<Seq<char>>, Option<Seq<char>>) {
    match get_spec(v, field) {
        None => (seq!["missing required field '"@ + field + "'"@], None),
        Some(TomlValue::String(s)) => (Seq::empty(), Some(s@)),
        Some(x) => (
            seq!["field '"@ + field + "' must be a string, got: \""@ + kind_name(x) + "\""@],
            None,
        ),
    }
}

fn schema_check(doc: &TomlValue, file: &str, report: &mut ValidationReport)
    ensures
        final(report).error_list() == old(report).error_list() + in_file(file@, schema_errors(*doc)),
        final(report).warning_list() == old(report).warning_list(),
{
    match doc.get("schema_version") {
        None => {
            report.error(
                file,
                String::from_str("missing required field 'schema_version' (must be the first field)"),
            );
        },
        Some(v) => match v {
            TomlValue::Integer { value, .. } => {
                if *value != 1 {
                    let mut m = String::new();
                    m.append("unsupported schema_version ");
                    let d = signed_text(*value);
                    m.append(d.as_str());
                    m.append("; only version 1 is supported");
                    report.error(file, m);
                }
            },
            _ => {
                let mut m = String::new();
                m.append("field 'schema_version' must be an integer, got: \"");
                m.append(v.type_str());
                m.append("\"");
                report.error(file, m);
            },
        },
    }
    assert(final_errors_eq(report.error_list(), old(report).error_list(), file@, schema_errors(*doc)));
}

/// `now == before + in_file(file, msgs)`.
pub open spec fn final_errors_eq(
    now: Seq<(Seq<char>, Seq<char>)>,
    before: Seq<(Seq<char>, Seq<char>)>,
    file: Seq<char>,
    msgs: Seq<Seq<char>>,
) -> bool {
    now =~= before + in_file(file, msgs)
}

fn copy_float(f: &FloatNum) -> (r: FloatNum)
    ensures
        r == *f,
{
    FloatNum { bits: f.bits, text: f.text.clone() }
}

fn unit_check<'a>(v: &'a TomlValue, field: &str, file: &str, report: &mut ValidationReport) -> (r:
    Option<&'a FloatNum>)
    ensures
        final(report).error_list() == old(report).error_list() + in_file(
            file@,
            unit_field(*v, field@).0,
        ),
        final(report).warning_list() == old(report).warning_list(),
        match unit_field(*v, field@).1 {
            Some(n) => r == Some(&n),
            None => r is None,
        },
{
    match v.get(field) {
        None => {
            let mut m = String::new();
            m.append("missing required field '");
            m.append(field);
            m.append("'");
            report.error(file, m);
            assert(final_errors_eq(report.error_list(), old(report).error_list(), file@, unit_field(*v, field@).0));
            None
        },
        Some(x) => match x.as_number() {
            None => {
                let mut m = String::new();
                m.append("field '");
                m.append(field);
                m.append("' must be a number, got: \"");
                m.append(x.type_str());
                m.append("\"");
                report.error(file, m);
                assert(final_errors_eq(report.error_list(), old(report).error_list(), file@, unit_field(*v, field@).0));
                None
            },
            Some(n) => {
                if !(float_le(ZERO_BITS, n.bits) && float_le(n.bits, ONE_BITS)) {
                    let mut m = String::new();
                    m.append("field '");
                    m.append(field);
                    m.append("' = ");
                    m.append(n.text.as_str());
                    m.append(" is outside valid range [0, 1]");
                    report.error(file, m);
                    assert(final_errors_eq(report.error_list(), old(report).error_list(), file@, unit_field(*v, field@).0));
                } else {
                    assert(final_errors_eq(report.error_list(), old(report).error_list(), file@, unit_field(*v, field@).0));
                }
                Some(n)
            },
        },
    }
}

fn string_check<'a>(v: &'a TomlValue, field: &str, file: &str, report: &mut ValidationReport) -> (r:
    Option<&'a String>)
    ensures
        final(report).error_list() == old(report).error_list() + in_file(
            file@,
            string_field(*v, field@).0,
        ),
        final(report).warning_list() == old(report).warning_list(),
        match string_field(*v, field@).1 {
            Some(s) => r matches Some(t) && t@ == s,
            None => r is None,
        },
{
    match v.get(field) {
        None => {
            let mut m = String::new();
            m.append("missing required field '");
            m.append(field);
            m.append("'");
            report.error(file, m);
            assert(final_errors_eq(report.error_list(), old(report).error_list(), file@, string_field(*v, field@).0));
            None
        },
        Some(x) => match x {
            TomlValue::String(s) => {
                assert(final_errors_eq(report.error_list(), old(report).error_list(), file@, string_field(*v, field@).0));
                Some(s)
            },
            _ => {
                let mut m = String::new();
                m.append("field '");
                m.append(field);
                m.append("' must be a string, got: \"");
                m.append(x.type_str());
                m.append("\"");
                report.error(file, m);
                assert(final_errors_eq(report.error_list(), old(report).error_list(), file@, string_field(*v, field@).0));
                None
            },
        },
    }
}

/// Errors and warnings of a `{min, max}` property range labelled `label`:
/// both bounds in `[0, 1]`, and a warning when `min >= max`.
pub open spec fn property_range_report(t: TomlValue, label: Seq<char>) -> (
    Seq<Seq<char>>,
    Seq<Seq<char>>,
) {
    let (e1, mn) = unit_field(t, "min"@);
    let (e2, mx) = unit_field(t, "max"@);
    let w = match (mn, mx) {
        (Some(a), Some(b)) => if f_le(b.bits, a.bits) {
            seq![
                "property range '"@ + label + "' has min ("@ + a.text@ + ") >= max ("@ + b.text@
                    + "); the range will never match any material"@,
            ]
        } else {
            Seq::empty()
        },
        _ => Seq::empty(),
    };
    (e1 + e2, w)
}

fn property_range_check(t: &TomlValue, label: &str, file: &str, report: &mut ValidationReport)
    ensures
        final(report).error_list() == old(report).error_list() + in_file(
            file@,
            property_range_report(*t, label@).0,
        ),
        final(report).warning_list() == old(report).warning_list() + in_file(
            file@,
            property_range_report(*t, label@).1,
        ),
{
    let ghost e0 = report.error_list();
    let mn = unit_check(t, "min", file, report);
    let ghost e1 = report.error_list();
    let mx = unit_check(t, "max", file, report);
    assert(in_file(file@, unit_field(*t, "min"@).0 + unit_field(*t, "max"@).0) =~= in_file(
        file@,
        unit_field(*t, "min"@).0,
    ) + in_file(file@, unit_field(*t, "max"@).0));
    match (mn, mx) {
        (Some(a), Some(b)) => {
            if float_le(b.bits, a.bits) {
                let mut m = String::new();
                m.append("property range '");
                m.append(label);
                m.append("' has min (");
                m.append(a.text.as_str());
                m.append(") >= max (");
                m.append(b.text.as_str());
                m.append("); the range will never match any material");
                report.warn(file, m);
                assert(final_errors_eq(report.warning_list(), old(report).warning_list(), file@, property_range_report(*t, label@).1));
            } else {
                assert(final_errors_eq(report.warning_list(), old(report).warning_list(), file@, property_range_report(*t, label@).1));
            }
        },
        _ => {
            assert(final_errors_eq(report.warning_list(), old(report).warning_list(), file@, property_range_report(*t, label@).1));
        },
    }
}

/// The property names a material range or rule may carry, in check order.
pub open spec fn prop_name(k: int) -> Seq<char> {
    if k == 0 {
        "density"@
    } else if k == 1 {
        "thermal_resistance"@
    } else if k == 2 {
        "reactivity"@
    } else if k == 3 {
        "conductivity"@
    } else {
        "toxicity"@
    }
}

fn prop_str(k: usize) -> (s: &'static str)
    requires
        k < 5,
    ensures
        s@ == prop_name(k as int),
{
    if k == 0 {
        "density"
    } else if k == 1 {
        "thermal_resistance"
    } else if k == 2 {
        "reactivity"
    } else if k == 3 {
        "conductivity"
    } else {
        "toxicity"
    }
}

/// `prefix[idx]`.
pub open spec fn indexed(prefix: Seq<char>, idx: int) -> Seq<char> {
    prefix + "["@ + decimal_spec(idx as nat) + "]"@
}

fn indexed_text(prefix: &str, idx: usize) -> (s: String)
    ensures
        s@ == indexed(prefix@, idx as int),
{
    let mut s = String::new();
    s.append(prefix);
    s.append("[");
    let d = decimal(idx as u64);
    s.append(d.as_str());
    s.append("]");
    s
}

/// `label.prop`.
fn dotted(label: &str, prop: &str) -> (s: String)
    ensures
        s@ == label@ + "."@ + prop@,
{
    let mut s = String::new();
    s.append(label);
    s.append(".");
    s.append(prop);
    s
}

// ── Classification file ───────────────────────────────────────────────────

/// The `name` an entry gives itself (empty when absent or not a string).
pub open spec fn entry_name_of(e: TomlValue) -> Seq<char> {
    match str_field(e, "name"@) {
        Some(s) => s,
        None => Seq::empty(),
    }
}

/// Errors and warnings of the range under property `k` of an entry.
pub open spec fn range_report(e: TomlValue, label: Seq<char>, k: int) -> (
    Seq<Seq<char>>,
    Seq<Seq<char>>,
) {
    match get_spec(e, prop_name(k)) {
        Some(r) => property_range_report(r, label + "."@ + prop_name(k)),
        None => (Seq::empty(), Seq::empty()),
    }
}

/// Range errors of the first `n` properties of an entry.
pub open spec fn range_errors(e: TomlValue, label: Seq<char>, n: int) -> Seq<Seq<char>>
    decreases n,
{
    if n <= 0 {
        Seq::empty()
    } else {
        range_errors(e, label, n - 1) + range_report(e, label, n - 1).0
    }
}

/// Range warnings of the first `n` properties of an entry.
pub open spec fn range_warnings(e: TomlValue, label: Seq<char>, n: int) -> Seq<Seq<char>>
    decreases n,
{
    if n <= 0 {
        Seq::empty()
    } else {
        range_warnings(e, label, n - 1) + range_report(e, label, n - 1).1
    }
}

/// Whether an entry before `idx` has the name `name`.
pub open spec fn name_seen_before(es: Seq<TomlValue>, idx: int, name: Seq<char>) -> bool {
    exists|j: int| 0 <= j < idx && entry_name_of(#[trigger] es[j]) == name
}

/// Errors of classification entry `idx`: its required names, a repeated
/// name, and its property ranges. An entry without a name is checked for
/// its names only.
pub open spec fn class_entry_errors(es: Seq<TomlValue>, idx: int) -> Seq<Seq<char>> {
    let e = es[idx];
    let label = indexed("classification"@, idx);
    let base = string_field(e, "name"@).0 + string_field(e, "display_name"@).0;
    let name = entry_name_of(e);
    if name.len() == 0 {
        base
    } else {
        base + (if name_seen_before(es, idx, name) {
            seq!["duplicate classification name '"@ + name + "' in "@ + label]
        } else {
            Seq::empty()
        }) + range_errors(e, label, 5)
    }
}

/// Warnings of classification entry `idx`.
pub open spec fn class_entry_warnings(es: Seq<TomlValue>, idx: int) -> Seq<Seq<char>> {
    let e = es[idx];
    if entry_name_of(e).len() == 0 {
        Seq::empty()
    } else {
        range_warnings(e, indexed("classification"@, idx), 5)
    }
}

/// Errors of the first `n` entries.
pub open spec fn class_errors(es: Seq<TomlValue>, n: int) -> Seq<Seq<char>>
    decreases n,
{
    if n <= 0 {
        Seq::empty()
    } else {
        class_errors(es, n - 1) + class_entry_errors(es, n - 1)
    }
}

/// Warnings of the first `n` entries.
pub open spec fn class_warnings(es: Seq<TomlValue>, n: int) -> Seq<Seq<char>>
    decreases n,
{
    if n <= 0 {
        Seq::empty()
    } else {
        class_warnings(es, n - 1) + class_entry_warnings(es, n - 1)
    }
}

/// A band: bounds and the entry's name.
pub type Band = (FloatNum, FloatNum, Seq<char>);

/// The band an entry declares for property `k`, when both bounds are
/// numbers.
pub open spec fn band_of(e: TomlValue, k: int) -> Option<(FloatNum, FloatNum)> {
    match get_spec(e, prop_name(k)) {
        Some(r) => match (number_field(r, "min"@), number_field(r, "max"@)) {
            (Some(a), Some(b)) => Some((a, b)),
            _ => None,
        },
        None => None,
    }
}

/// The bands for property `k` of the named entries among the first `n`.
pub open spec fn bands(es: Seq<TomlValue>, n: int, k: int) -> Seq<Band>
    decreases n,
{
    if n <= 0 {
        Seq::empty()
    } else {
        let e = es[n - 1];
        bands(es, n - 1, k) + match band_of(e, k) {
            Some((lo, hi)) => if entry_name_of(e).len() > 0 {
                seq![(lo, hi, entry_name_of(e))]
            } else {
                Seq::empty()
            },
            None => Seq::empty(),
        }
    }
}

/// Whether two bands overlap: each starts below the other's end.
pub open spec fn bands_overlap(a: Band, b: Band) -> bool {
    f_lt(a.0.bits, b.1.bits) && f_lt(b.0.bits, a.1.bits)
}

/// The overlap warning for bands `a` and `b` of property `prop`.
pub open spec fn overlap_message(prop: Seq<char>, a: Band, b: Band) -> Seq<char> {
    prop + " ranges for '"@ + a.2 + "' ["@ + a.0.text@ + ", "@ + a.1.text@ + "] and '"@ + b.2
        + "' ["@ + b.0.text@ + ", "@ + b.1.text@
        + "] overlap — first-match classification ordering may be non-deterministic"@
}

/// Overlap warnings between band `i` and bands `i + 1 .. m`.
pub open spec fn overlap_row(prop: Seq<char>, bs: Seq<Band>, i: int, m: int) -> Seq<Seq<char>>
    decreases m - i,
{
    if m <= i + 1 {
        Seq::empty()
    } else {
        overlap_row(prop, bs, i, m - 1) + (if bands_overlap(bs[i], bs[m - 1]) {
            seq![overlap_message(prop, bs[i], bs[m - 1])]
        } else {
            Seq::empty()
        })
    }
}

/// Overlap warnings of every pair `i < j` among the first `n` rows.
pub open spec fn overlap_warnings(prop: Seq<char>, bs: Seq<Band>, n: int) -> Seq<Seq<char>>
    decreases n,
{
    if n <= 0 {
        Seq::empty()
    } else {
        overlap_warnings(prop, bs, n - 1) + overlap_row(prop, bs, n - 1, bs.len() as int)
    }
}

/// The report for a classifications file: the errors and the warnings.
pub open spec fn classification_report(doc: Result<TomlValue, String>) -> (
    Seq<Seq<char>>,
    Seq<Seq<char>>,
) {
    match doc {
        Err(e) => (seq!["TOML parse error: "@ + e@], Seq::empty()),
        Ok(v) => match array_items(get_spec(v, "classification"@)) {
            None => (schema_errors(v), Seq::empty()),
            Some(es) => {
                let d = bands(es, es.len() as int, 0);
                let t = bands(es, es.len() as int, 1);
                (
                    schema_errors(v) + class_errors(es, es.len() as int),
                    class_warnings(es, es.len() as int) + overlap_warnings(
                        "density"@,
                        d,
                        d.len() as int,
                    ) + overlap_warnings("thermal_resistance"@, t, t.len() as int),
                )
            },
        },
    }
}

/// A band as the validator stores it.
pub struct BandRow {
    /// Lower bound.
    pub lo: FloatNum,
    /// Upper bound.
    pub hi: FloatNum,
    /// Name of the entry.
    pub name: String,
}

/// The bands as views.
pub open spec fn band_views(rows: Seq<BandRow>) -> Seq<Band> {
    Seq::new(rows.len(), |i: int| (rows[i].lo, rows[i].hi, rows[i].name@))
}

fn parse_error(file: &str, e: &String) -> (r: ValidationReport)
    ensures
        r.error_list() == in_file(file@, seq!["TOML parse error: "@ + e@]),
        r.warning_list() == Seq::<(Seq<char>, Seq<char>)>::empty(),
{
    let mut r = ValidationReport::new();
    let mut m = String::new();
    m.append("TOML parse error: ");
    m.append(e.as_str());
    r.error(file, m);
    assert(r.error_list() =~= in_file(file@, seq!["TOML parse error: "@ + e@]));
    r
}

fn name_listed(seen: &Vec<String>, name: &String) -> (b: bool)
    ensures
        b == exists|j: int| 0 <= j < seen@.len() && (#[trigger] seen@[j])@ == name@,
{
    let mut j: usize = 0;
    while j < seen.len()
        invariant
            j <= seen.len(),
            forall|t: int| 0 <= t < j ==> (#[trigger] seen@[t])@ != name@,
        decreases seen.len() - j,
    {
        if str_eq(seen[j].as_str(), name.as_str()) {
            return true;
        }
        j = j + 1;
    }
    false
}

fn warn_overlapping_bands(file: &str, prop: &str, rows: &Vec<BandRow>, report: &mut ValidationReport)
    ensures
        final(report).warning_list() == old(report).warning_list() + in_file(
            file@,
            overlap_warnings(prop@, band_views(rows@), rows@.len() as int),
        ),
        final(report).error_list() == old(report).error_list(),
{
    let ghost bs = band_views(rows@);
    let mut i: usize = 0;
    while i < rows.len()
        invariant
            i <= rows.len(),
            bs == band_views(rows@),
            report.warning_list() == old(report).warning_list() + in_file(
                file@,
                overlap_warnings(prop@, bs, i as int),
            ),
            report.error_list() == old(report).error_list(),
        decreases rows.len() - i,
    {
        let ghost w_i = report.warning_list();
        let mut j: usize = i + 1;
        while j < rows.len()
            invariant
                i < rows.len(),
                i + 1 <= j <= rows.len(),
                bs == band_views(rows@),
                report.warning_list() == w_i + in_file(file@, overlap_row(prop@, bs, i as int, j as int)),
                report.error_list() == old(report).error_list(),
            decreases rows.len() - j,
        {
            let a = &rows[i];
            let b = &rows[j];
            if float_lt(a.lo.bits, b.hi.bits) && float_lt(b.lo.bits, a.hi.bits) {
                let mut m = String::new();
                m.append(prop);
                m.append(" ranges for '");
                m.append(a.name.as_str());
                m.append("' [");
                m.append(a.lo.text.as_str());
                m.append(", ");
                m.append(a.hi.text.as_str());
                m.append("] and '");
                m.append(b.name.as_str());
                m.append("' [");
                m.append(b.lo.text.as_str());
                m.append(", ");
                m.append(b.hi.text.as_str());
                m.append("] overlap — first-match classification ordering may be non-deterministic");
                let ghost before = report.warning_list();
                report.warn(file, m);
                assert(bs[i as int] == (a.lo, a.hi, a.name@));
                assert(bs[j as int] == (b.lo, b.hi, b.name@));
                assert(m@ == overlap_message(prop@, bs[i as int], bs[j as int]));
                assert(report.warning_list() =~= w_i + in_file(file@, overlap_row(prop@, bs, i as int, j + 1)));
            } else {
                assert(bs[i as int] == (a.lo, a.hi, a.name@));
                assert(bs[j as int] == (b.lo, b.hi, b.name@));
                assert(overlap_row(prop@, bs, i as int, j + 1) == overlap_row(prop@, bs, i as int, j as int));
            }
            j = j + 1;
        }
        assert(report.warning_list() =~= old(report).warning_list() + in_file(
            file@,
            overlap_warnings(prop@, bs, i + 1),
        ));
        i = i + 1;
    }
}

/// The band row of a range table, when both bounds are numbers.
fn band_row(r: &TomlValue, name: &String) -> (b: Option<BandRow>)
    ensures
        match (number_field(*r, "min"@), number_field(*r, "max"@)) {
            (Some(lo), Some(hi)) => b matches Some(row) && row.lo == lo && row.hi == hi && row.name@
                == name@,
            _ => b is None,
        },
{
    match (r.get("min"), r.get("max")) {
        (Some(a), Some(b)) => match (a.as_number(), b.as_number()) {
            (Some(x), Some(y)) => Some(BandRow { lo: copy_float(x), hi: copy_float(y), name: name.clone() }),
            _ => None,
        },
        _ => None,
    }
}

fn check_entry_ranges(
    e: &TomlValue,
    label: &str,
    name: &String,
    file: &str,
    report: &mut ValidationReport,
    density: &mut Vec<BandRow>,
    thermal: &mut Vec<BandRow>,
)
    ensures
        final(report).error_list() == old(report).error_list() + in_file(
            file@,
            range_errors(*e, label@, 5),
        ),
        final(report).warning_list() == old(report).warning_list() + in_file(
            file@,
            range_warnings(*e, label@, 5),
        ),
        band_views(final(density)@) == band_views(old(density)@) + match band_of(*e, 0) {
            Some((lo, hi)) => seq![(lo, hi, name@)],
            None => Seq::empty(),
        },
        band_views(final(thermal)@) == band_views(old(thermal)@) + match band_of(*e, 1) {
            Some((lo, hi)) => seq![(lo, hi, name@)],
            None => Seq::empty(),
        },
{
    let mut k: usize = 0;
    while k < 5
        invariant
            k <= 5,
            report.error_list() == old(report).error_list() + in_file(
                file@,
                range_errors(*e, label@, k as int),
            ),
            report.warning_list() == old(report).warning_list() + in_file(
                file@,
                range_warnings(*e, label@, k as int),
            ),
            band_views(density@) == band_views(old(density)@) + (if k > 0 {
                match band_of(*e, 0) {
                    Some((lo, hi)) => seq![(lo, hi, name@)],
                    None => Seq::empty(),
                }
            } else {
                Seq::empty()
            }),
            band_views(thermal@) == band_views(old(thermal)@) + (if k > 1 {
                match band_of(*e, 1) {
                    Some((lo, hi)) => seq![(lo, hi, name@)],
                    None => Seq::empty(),
                }
            } else {
                Seq::empty()
            }),
        decreases 5 - k,
    {
        let prop = prop_str(k);
        let ghost e0 = report.error_list();
        let ghost w0 = report.warning_list();
        let ghost d0 = band_views(density@);
        let ghost t0 = band_views(thermal@);
        match e.get(prop) {
            Some(r) => {
                let l = dotted(label, prop);
                property_range_check(r, l.as_str(), file, report);
                assert(report.error_list() =~= old(report).error_list() + in_file(
                    file@,
                    range_errors(*e, label@, k + 1),
                ));
                assert(report.warning_list() =~= old(report).warning_list() + in_file(
                    file@,
                    range_warnings(*e, label@, k + 1),
                ));
                if k == 0 {
                    match band_row(r, name) {
                        Some(row) => {
                            density.push(row);
                            assert(band_views(density@) =~= d0.push((row.lo, row.hi, row.name@)));
                        },
                        None => {},
                    }
                } else if k == 1 {
                    match band_row(r, name) {
                        Some(row) => {
                            thermal.push(row);
                            assert(band_views(thermal@) =~= t0.push((row.lo, row.hi, row.name@)));
                        },
                        None => {},
                    }
                }
            },
            None => {
                assert(report.error_list() =~= old(report).error_list() + in_file(
                    file@,
                    range_errors(*e, label@, k + 1),
                ));
                assert(report.warning_list() =~= old(report).warning_list() + in_file(
                    file@,
                    range_warnings(*e, label@, k + 1),
                ));
            },
        }
        k = k + 1;
    }
}

/// Validates a material classifications file: `schema_version` is 1;
/// every `[[classification]]` has `name` and `display_name`; names are
/// unique; every property range lies in `[0, 1]` (a warning when
/// `min >= max`); overlapping density or thermal-resistance ranges between
/// entries get a warning. `doc` is the parsed file, or the parser's error
/// text.
#[verifier::spinoff_prover]
#[verifier::rlimit(50)]
pub fn validate_classification_file(file: &str, doc: &Result<TomlValue, String>) -> (r:
    ValidationReport)
    ensures
        r.error_list() == in_file(file@, classification_report(*doc).0),
        r.warning_list() == in_file(file@, classification_report(*doc).1),
{
    let v = match doc {
        Err(e) => {
            return parse_error(file, e);
        },
        Ok(v) => v,
    };
    let mut report = ValidationReport::new();
    schema_check(v, file, &mut report);
    let entries = match v.get("classification") {
        Some(TomlValue::Array(a)) => a,
        _ => {
            assert(report.warning_list() =~= in_file(file@, Seq::empty()));
            return report;
        },
    };
    let ghost es = entries@;
    let mut seen: Vec<String> = Vec::new();
    let mut density: Vec<BandRow> = Vec::new();
    let mut thermal: Vec<BandRow> = Vec::new();
    let mut idx: usize = 0;
    assert(band_views(density@) =~= bands(es, 0, 0));
    assert(band_views(thermal@) =~= bands(es, 0, 1));
    assert(report.error_list() =~= in_file(file@, schema_errors(*v) + class_errors(es, 0)));
    assert(report.warning_list() =~= in_file(file@, class_warnings(es, 0)));
    while idx < entries.len()
        invariant
            idx <= entries.len(),
            es == entries@,
            report.error_list() == in_file(file@, schema_errors(*v) + class_errors(es, idx as int)),
            report.warning_list() == in_file(file@, class_warnings(es, idx as int)),
            seen@.len() == idx,
            forall|j: int| 0 <= j < idx ==> (#[trigger] seen@[j])@ == entry_name_of(es[j]),
            band_views(density@) == bands(es, idx as int, 0),
            band_views(thermal@) == bands(es, idx as int, 1),
        decreases entries.len() - idx,
    {
        let entry = &entries[idx];
        let label = indexed_text("classification", idx);
        let ghost e0 = report.error_list();
        let ghost w0 = report.warning_list();
        let name_opt = string_check(entry, "name", file, &mut report);
        let name: String = match name_opt {
            Some(s) => s.clone(),
            None => String::new(),
        };
        assert(name@ == entry_name_of(*entry));
        string_check(entry, "display_name", file, &mut report);
        let ghost base = string_field(*entry, "name"@).0 + string_field(*entry, "display_name"@).0;
        assert(report.error_list() =~= e0 + in_file(file@, base));
        let nc = chars_of(name.as_str());
        if nc.len() == 0 {
            assert(class_entry_errors(es, idx as int) == base);
            assert(report.error_list() =~= in_file(file@, schema_errors(*v) + class_errors(es, idx + 1)));
            assert(report.warning_list() =~= in_file(file@, class_warnings(es, idx + 1)));
            assert(bands(es, idx + 1, 0) =~= bands(es, idx as int, 0));
            assert(bands(es, idx + 1, 1) =~= bands(es, idx as int, 1));
        } else {
            let dup = name_listed(&seen, &name);
            let ghost e1 = report.error_list();
            if dup {
                let mut m = String::new();
                m.append("duplicate classification name '");
                m.append(name.as_str());
                m.append("' in ");
                m.append(label.as_str());
                report.error(file, m);
                assert(name_seen_before(es, idx as int, name@)) by {
                    let j = choose|j: int| 0 <= j < seen@.len() && (#[trigger] seen@[j])@ == name@;
                    assert(entry_name_of(es[j]) == name@);
                }
            } else {
                assert(!name_seen_before(es, idx as int, name@)) by {
                    if name_seen_before(es, idx as int, name@) {
                        let j = choose|j: int| 0 <= j < idx && entry_name_of(#[trigger] es[j]) == name@;
                        assert(seen@[j]@ == name@);
                    }
                }
            }
            let ghost e2 = report.error_list();
            let ghost d0 = band_views(density@);
            let ghost t0 = band_views(thermal@);
            check_entry_ranges(entry, label.as_str(), &name, file, &mut report, &mut density, &mut thermal);
            assert(report.error_list() =~= in_file(file@, schema_errors(*v) + class_errors(es, idx + 1)));
            assert(report.warning_list() =~= in_file(file@, class_warnings(es, idx + 1)));
            assert(band_views(density@) =~= bands(es, idx + 1, 0));
            assert(band_views(thermal@) =~= bands(es, idx + 1, 1));
        }
        seen.push(name);
        idx = idx + 1;
    }
    let ghost w_mid = report.warning_list();
    warn_overlapping_bands(file, "density", &density, &mut report);
    warn_overlapping_bands(file, "thermal_resistance", &thermal, &mut report);
    assert(report.warning_list() =~= in_file(file@, classification_report(*doc).1));
    report
}

// ── Combinations file ─────────────────────────────────────────────────────

/// An integer field's value.
pub open spec fn int_field(v: TomlValue, key: Seq<char>) -> Option<i64> {
    match get_spec(v, key) {
        Some(TomlValue::Integer { value, .. }) => Some(value),
        _ => None,
    }
}

/// Checks of a weight that must be positive when it is a number.
pub open spec fn positive_weight_errors(rule: TomlValue, label: Seq<char>, field: Seq<char>) -> Seq<
    Seq<char>,
> {
    match get_spec(rule, field) {
        None => seq![label + ": Blend rule missing '"@ + field + "'"@],
        Some(x) => match number_of(x) {
            Some(w) => if f_le(w.bits, ZERO_BITS) {
                seq![label + ": Blend '"@ + field + "' must be > 0"@]
            } else {
                Seq::empty()
            },
            None => Seq::empty(),
        },
    }
}

/// Errors and warnings of one property rule labelled `label`.
pub open spec fn rule_report(rule: TomlValue, label: Seq<char>) -> (Seq<Seq<char>>, Seq<Seq<char>>) {
    match str_field(rule, "type"@) {
        None => (seq![label + ": PropertyRule missing required field 'type'"@], Seq::empty()),
        Some(t) => if t == "Blend"@ {
            (
                positive_weight_errors(rule, label, "weight_a"@) + positive_weight_errors(
                    rule,
                    label,
                    "weight_b"@,
                ),
                Seq::empty(),
            )
        } else if t == "Catalyze"@ {
            match get_spec(rule, "multiplier"@) {
                None => (seq![label + ": Catalyze rule missing 'multiplier'"@], Seq::empty()),
                Some(x) => match number_of(x) {
                    Some(m) => if f_le(m.bits, ZERO_BITS) {
                        (
                            seq![label + ": Catalyze 'multiplier' = "@ + m.text@ + " must be > 0"@],
                            Seq::empty(),
                        )
                    } else if f_lt(TEN_BITS, m.bits) {
                        (
                            Seq::empty(),
                            seq![
                                label + ": Catalyze 'multiplier' = "@ + m.text@
                                    + " is unusually large (> 10.0)"@,
                            ],
                        )
                    } else {
                        (Seq::empty(), Seq::empty())
                    },
                    None => (Seq::empty(), Seq::empty()),
                },
            }
        } else if t == "Max"@ || t == "Min"@ || t == "Inert"@ {
            (Seq::empty(), Seq::empty())
        } else {
            (
                seq![
                    label + ": unknown PropertyRule type '"@ + t
                        + "'; valid types: Blend, Max, Min, Catalyze, Inert"@,
                ],
                Seq::empty(),
            )
        },
    }
}

fn weight_check(rule: &TomlValue, label: &str, field: &str, file: &str, report: &mut ValidationReport)
    ensures
        final(report).error_list() == old(report).error_list() + in_file(
            file@,
            positive_weight_errors(*rule, label@, field@),
        ),
        final(report).warning_list() == old(report).warning_list(),
{
    match rule.get(field) {
        None => {
            let mut m = String::new();
            m.append(label);
            m.append(": Blend rule missing '");
            m.append(field);
            m.append("'");
            report.error(file, m);
        },
        Some(x) => match x.as_number() {
            Some(w) => {
                if float_le(w.bits, ZERO_BITS) {
                    let mut m = String::new();
                    m.append(label);
                    m.append(": Blend '");
                    m.append(field);
                    m.append("' must be > 0");
                    report.error(file, m);
                }
            },
            None => {},
        },
    }
    assert(final_errors_eq(report.error_list(), old(report).error_list(), file@, positive_weight_errors(*rule, label@, field@)));
}

/// Checks one property rule of a combination: its `type` is known, a
/// `Blend` has positive weights, a `Catalyze` a positive multiplier (a
/// warning above 10).
fn validate_property_rule(rule: &TomlValue, label: &str, file: &str, report: &mut ValidationReport)
    ensures
        final(report).error_list() == old(report).error_list() + in_file(
            file@,
            rule_report(*rule, label@).0,
        ),
        final(report).warning_list() == old(report).warning_list() + in_file(
            file@,
            rule_report(*rule, label@).1,
        ),
{
    let t = match rule.get("type") {
        Some(TomlValue::String(t)) => t,
        _ => {
            let mut m = String::new();
            m.append(label);
            m.append(": PropertyRule missing required field 'type'");
            report.error(file, m);
            assert(final_errors_eq(report.error_list(), old(report).error_list(), file@, rule_report(*rule, label@).0));
            assert(final_errors_eq(report.warning_list(), old(report).warning_list(), file@, rule_report(*rule, label@).1));
            return;
        },
    };
    if str_eq(t.as_str(), "Blend") {
        weight_check(rule, label, "weight_a", file, report);
        weight_check(rule, label, "weight_b", file, report);
        assert(final_errors_eq(report.error_list(), old(report).error_list(), file@, rule_report(*rule, label@).0));
        assert(final_errors_eq(report.warning_list(), old(report).warning_list(), file@, rule_report(*rule, label@).1));
    } else if str_eq(t.as_str(), "Catalyze") {
        match rule.get("multiplier") {
            None => {
                let mut m = String::new();
                m.append(label);
                m.append(": Catalyze rule missing 'multiplier'");
                report.error(file, m);
            },
            Some(x) => match x.as_number() {
                Some(v) => {
                    if float_le(v.bits, ZERO_BITS) {
                        let mut m = String::new();
                        m.append(label);
                        m.append(": Catalyze 'multiplier' = ");
                        m.append(v.text.as_str());
                        m.append(" must be > 0");
                        report.error(file, m);
                    } else if float_lt(TEN_BITS, v.bits) {
                        let mut m = String::new();
                        m.append(label);
                        m.append(": Catalyze 'multiplier' = ");
                        m.append(v.text.as_str());
                        m.append(" is unusually large (> 10.0)");
                        report.warn(file, m);
                    }
                },
                None => {},
            },
        }
        assert(final_errors_eq(report.error_list(), old(report).error_list(), file@, rule_report(*rule, label@).0));
        assert(final_errors_eq(report.warning_list(), old(report).warning_list(), file@, rule_report(*rule, label@).1));
    } else if str_eq(t.as_str(), "Max") || str_eq(t.as_str(), "Min") || str_eq(t.as_str(), "Inert") {
        assert(final_errors_eq(report.error_list(), old(report).error_list(), file@, rule_report(*rule, label@).0));
        assert(final_errors_eq(report.warning_list(), old(report).warning_list(), file@, rule_report(*rule, label@).1));
    } else {
        let mut m = String::new();
        m.append(label);
        m.append(": unknown PropertyRule type '");
        m.append(t.as_str());
        m.append("'; valid types: Blend, Max, Min, Catalyze, Inert");
        report.error(file, m);
        assert(final_errors_eq(report.error_list(), old(report).error_list(), file@, rule_report(*rule, label@).0));
        assert(final_errors_eq(report.warning_list(), old(report).warning_list(), file@, rule_report(*rule, label@).1));
    }
}

/// Rule errors of the first `n` properties of a combination entry.
pub open spec fn rule_errors(e: TomlValue, label: Seq<char>, n: int) -> Seq<Seq<char>>
    decreases n,
{
    if n <= 0 {
        Seq::empty()
    } else {
        rule_errors(e, label, n - 1) + match get_spec(e, prop_name(n - 1)) {
            Some(r) => rule_report(r, label + "."@ + prop_name(n - 1)).0,
            None => Seq::empty(),
        }
    }
}

/// Rule warnings of the first `n` properties of a combination entry.
pub open spec fn rule_warnings(e: TomlValue, label: Seq<char>, n: int) -> Seq<Seq<char>>
    decreases n,
{
    if n <= 0 {
        Seq::empty()
    } else {
        rule_warnings(e, label, n - 1) + match get_spec(e, prop_name(n - 1)) {
            Some(r) => rule_report(r, label + "."@ + prop_name(n - 1)).1,
            None => Seq::empty(),
        }
    }
}

/// The seed pair of a combination entry in ascending order, when both seeds
/// are integers and differ.
pub open spec fn pair_of(e: TomlValue) -> Option<(u64, u64)> {
    match (int_field(e, "material_seed_a"@), int_field(e, "material_seed_b"@)) {
        (Some(a), Some(b)) => {
            let (x, y) = (as_u64(a), as_u64(b));
            if x == y {
                None
            } else if x <= y {
                Some((x, y))
            } else {
                Some((y, x))
            }
        },
        _ => None,
    }
}

/// Whether an entry before `idx` has the seed pair `p`.
pub open spec fn pair_seen_before(es: Seq<TomlValue>, idx: int, p: (u64, u64)) -> bool {
    exists|j: int| 0 <= j < idx && pair_of(#[trigger] es[j]) == Some(p)
}

/// Errors of combination entry `idx`.
pub open spec fn combo_entry_errors(es: Seq<TomlValue>, idx: int) -> Seq<Seq<char>> {
    let e = es[idx];
    let label = indexed("rules"@, idx);
    (if get_spec(e, "material_seed_a"@) is None {
        seq![label + ": missing required field 'material_seed_a'"@]
    } else {
        Seq::empty()
    }) + (if get_spec(e, "material_seed_b"@) is None {
        seq![label + ": missing required field 'material_seed_b'"@]
    } else {
        Seq::empty()
    }) + match (int_field(e, "material_seed_a"@), int_field(e, "material_seed_b"@)) {
        (Some(a), Some(b)) => if as_u64(a) == as_u64(b) {
            seq![
                label + ": material_seed_a == material_seed_b ("@ + decimal_spec(as_u64(a) as nat)
                    + "); self-combination is undefined"@,
            ]
        } else {
            let p = pair_of(e)->0;
            if pair_seen_before(es, idx, p) {
                seq![
                    label + ": duplicate rule for seed pair ("@ + decimal_spec(p.0 as nat) + ", "@
                        + decimal_spec(p.1 as nat)
                        + "); later entries override earlier ones but this is likely a mistake"@,
                ]
            } else {
                Seq::empty()
            }
        },
        _ => Seq::empty(),
    } + rule_errors(e, label, 5)
}

/// Errors of the first `n` combination entries.
pub open spec fn combo_errors(es: Seq<TomlValue>, n: int) -> Seq<Seq<char>>
    decreases n,
{
    if n <= 0 {
        Seq::empty()
    } else {
        combo_errors(es, n - 1) + combo_entry_errors(es, n - 1)
    }
}

/// Warnings of the first `n` combination entries.
pub open spec fn combo_warnings(es: Seq<TomlValue>, n: int) -> Seq<Seq<char>>
    decreases n,
{
    if n <= 0 {
        Seq::empty()
    } else {
        combo_warnings(es, n - 1) + rule_warnings(es[n - 1], indexed("rules"@, n - 1), 5)
    }
}

/// The report for a combinations file: the errors and the warnings.
pub open spec fn combinations_report(doc: Result<TomlValue, String>) -> (
    Seq<Seq<char>>,
    Seq<Seq<char>>,
) {
    match doc {
        Err(e) => (seq!["TOML parse error: "@ + e@], Seq::empty()),
        Ok(v) => match array_items(get_spec(v, "rules"@)) {
            None => (schema_errors(v), Seq::empty()),
            Some(es) => (
                schema_errors(v) + combo_errors(es, es.len() as int),
                combo_warnings(es, es.len() as int),
            ),
        },
    }
}

fn int_of(v: Option<&TomlValue>) -> (r: Option<i64>)
    ensures
        r == match v {
            Some(TomlValue::Integer { value, .. }) => Some(*value),
            _ => None::<i64>,
        },
{
    match v {
        Some(TomlValue::Integer { value, .. }) => Some(*value),
        _ => None,
    }
}

fn pair_listed(seen: &Vec<(u64, u64)>, p: (u64, u64)) -> (b: bool)
    ensures
        b == seen@.contains(p),
{
    let mut j: usize = 0;
    while j < seen.len()
        invariant
            j <= seen.len(),
            forall|t: int| 0 <= t < j ==> seen@[t] != p,
        decreases seen.len() - j,
    {
        if seen[j].0 == p.0 && seen[j].1 == p.1 {
            assert(seen@[j as int] == p);
            return true;
        }
        j = j + 1;
    }
    false
}

fn check_entry_rules(e: &TomlValue, label: &str, file: &str, report: &mut ValidationReport)
    ensures
        final(report).error_list() == old(report).error_list() + in_file(
            file@,
            rule_errors(*e, label@, 5),
        ),
        final(report).warning_list() == old(report).warning_list() + in_file(
            file@,
            rule_warnings(*e, label@, 5),
        ),
{
    let mut k: usize = 0;
    while k < 5
        invariant
            k <= 5,
            report.error_list() == old(report).error_list() + in_file(
                file@,
                rule_errors(*e, label@, k as int),
            ),
            report.warning_list() == old(report).warning_list() + in_file(
                file@,
                rule_warnings(*e, label@, k as int),
            ),
        decreases 5 - k,
    {
        let prop = prop_str(k);
        match e.get(prop) {
            Some(r) => {
                let l = dotted(label, prop);
                validate_property_rule(r, l.as_str(), file, report);
            },
            None => {},
        }
        assert(report.error_list() =~= old(report).error_list() + in_file(
            file@,
            rule_errors(*e, label@, k + 1),
        ));
        assert(report.warning_list() =~= old(report).warning_list() + in_file(
            file@,
            rule_warnings(*e, label@, k + 1),
        ));
        k = k + 1;
    }
}

/// Validates a combinations file: `schema_version` is 1; every `[[rules]]`
/// entry has both seeds, which differ; no seed pair (in either order)
/// repeats; every property rule is well formed. `doc` is the parsed file,
/// or the parser's error text.
pub fn validate_combinations_file(file: &str, doc: &Result<TomlValue, String>) -> (r:
    ValidationReport)
    ensures
        r.error_list() == in_file(file@, combinations_report(*doc).0),
        r.warning_list() == in_file(file@, combinations_report(*doc).1),
{
    let v = match doc {
        Err(e) => {
            return parse_error(file, e);
        },
        Ok(v) => v,
    };
    let mut report = ValidationReport::new();
    schema_check(v, file, &mut report);
    let rules = match v.get("rules") {
        Some(TomlValue::Array(a)) => a,
        _ => {
            assert(report.warning_list() =~= in_file(file@, Seq::empty()));
            return report;
        },
    };
    let ghost es = rules@;
    let mut seen: Vec<(u64, u64)> = Vec::new();
    let mut idx: usize = 0;
    assert(report.error_list() =~= in_file(file@, schema_errors(*v) + combo_errors(es, 0)));
    assert(report.warning_list() =~= in_file(file@, combo_warnings(es, 0)));
    while idx < rules.len()
        invariant
            idx <= rules.len(),
            es == rules@,
            report.error_list() == in_file(file@, schema_errors(*v) + combo_errors(es, idx as int)),
            report.warning_list() == in_file(file@, combo_warnings(es, idx as int)),
            forall|p: (u64, u64)| seen@.contains(p) <==> pair_seen_before(es, idx as int, p),
        decreases rules.len() - idx,
    {
        let entry = &rules[idx];
        let label = indexed_text("rules", idx);
        let ghost e0 = report.error_list();
        let ga = entry.get("material_seed_a");
        let gb = entry.get("material_seed_b");
        let sa = int_of(ga);
        let sb = int_of(gb);
        if ga.is_none() {
            let mut m = String::new();
            m.append(label.as_str());
            m.append(": missing required field 'material_seed_a'");
            report.error(file, m);
        }
        if gb.is_none() {
            let mut m = String::new();
            m.append(label.as_str());
            m.append(": missing required field 'material_seed_b'");
            report.error(file, m);
        }
        let ghost seen0 = seen@;
        match (sa, sb) {
            (Some(a0), Some(b0)) => {
                let a = to_u64(a0);
                let b = to_u64(b0);
                if a == b {
                    let mut m = String::new();
                    m.append(label.as_str());
                    m.append(": material_seed_a == material_seed_b (");
                    let d = decimal(a);
                    m.append(d.as_str());
                    m.append("); self-combination is undefined");
                    report.error(file, m);
                } else {
                    let key = if a <= b {
                        (a, b)
                    } else {
                        (b, a)
                    };
                    assert(pair_of(*entry) == Some(key));
                    if pair_listed(&seen, key) {
                        let mut m = String::new();
                        m.append(label.as_str());
                        m.append(": duplicate rule for seed pair (");
                        let d0 = decimal(key.0);
                        m.append(d0.as_str());
                        m.append(", ");
                        let d1 = decimal(key.1);
                        m.append(d1.as_str());
                        m.append("); later entries override earlier ones but this is likely a mistake");
                        report.error(file, m);
                    } else {
                        seen.push(key);
                    }
                }
            },
            _ => {},
        }
        let ghost e1 = report.error_list();
        check_entry_rules(entry, label.as_str(), file, &mut report);
        assert(report.error_list() =~= in_file(file@, schema_errors(*v) + combo_errors(es, idx + 1)));
        assert(report.warning_list() =~= in_file(file@, combo_warnings(es, idx + 1)));
        assert forall|p: (u64, u64)| seen@.contains(p) <==> pair_seen_before(es, idx + 1, p) by {
            if seen@.contains(p) && !seen0.contains(p) {
                assert(seen@.last() == p) by {
                    let t = choose|t: int| 0 <= t < seen@.len() && seen@[t] == p;
                    if t < seen0.len() {
                        assert(seen0[t] == p);
                    }
                }
                assert(pair_of(es[idx as int]) == Some(p));
            }
            if pair_seen_before(es, idx + 1, p) {
                let j = choose|j: int| 0 <= j < idx + 1 && pair_of(#[trigger] es[j]) == Some(p);
                if j < idx {
                    assert(pair_seen_before(es, idx as int, p));
                    assert(seen0.contains(p));
                    let t = choose|t: int| 0 <= t < seen0.len() && seen0[t] == p;
                    assert(seen@[t] == p);
                } else {
                    if !seen0.contains(p) {
                        assert(seen@.last() == p);
                    } else {
                        let t = choose|t: int| 0 <= t < seen0.len() && seen0[t] == p;
                        assert(seen@[t] == p);
                    }
                }
            }
            if seen0.contains(p) {
                let t = choose|t: int| 0 <= t < seen0.len() && seen0[t] == p;
                assert(seen@[t] == p);
                assert(pair_seen_before(es, idx as int, p));
                let j = choose|j: int| 0 <= j < idx && pair_of(#[trigger] es[j]) == Some(p);
                assert(pair_seen_before(es, idx + 1, p));
            }
        }
        idx = idx + 1;
    }
    report
}

// ── Biomes file ───────────────────────────────────────────────────────────

/// Errors of a `lo`/`hi` pair of unit-range fields: each field's own
/// errors, then an error when `lo >= hi`.
pub open spec fn ordered_pair_errors(
    e: TomlValue,
    label: Seq<char>,
    lo_field: Seq<char>,
    hi_field: Seq<char>,
) -> Seq<Seq<char>> {
    let (e1, lo) = unit_field(e, lo_field);
    let (e2, hi) = unit_field(e, hi_field);
    e1 + e2 + match (lo, hi) {
        (Some(a), Some(b)) => if f_le(b.bits, a.bits) {
            seq![
                label + ": "@ + lo_field + " ("@ + a.text@ + ") must be < "@ + hi_field + " ("@
                    + b.text@ + ")"@,
            ]
        } else {
            Seq::empty()
        },
        _ => Seq::empty(),
    }
}

/// Errors of an optional `density_modifier`: a number above 0.
pub open spec fn density_modifier_errors(e: TomlValue, label: Seq<char>) -> Seq<Seq<char>> {
    match get_spec(e, "density_modifier"@) {
        None => Seq::empty(),
        Some(dm) => match number_of(dm) {
            None => seq![label + ": 'density_modifier' must be a number"@],
            Some(n) => if f_le(n.bits, ZERO_BITS) {
                seq![label + ": 'density_modifier' = "@ + n.text@ + " must be > 0"@]
            } else {
                Seq::empty()
            },
        },
    }
}

/// The colour channel name of component `i`.
pub open spec fn channel_name(i: int) -> Seq<char> {
    if i == 0 {
        "R"@
    } else if i == 1 {
        "G"@
    } else {
        "B"@
    }
}

/// Errors of colour component `i`: a number in `[0, 1]`.
pub open spec fn component_errors(c: TomlValue, label: Seq<char>, i: int) -> Seq<Seq<char>> {
    match number_of(c) {
        None => seq![
            indexed(label, i) + " ("@ + channel_name(i) + "): must be a float in [0.0, 1.0]"@,
        ],
        Some(v) => if !(f_le(ZERO_BITS, v.bits) && f_le(v.bits, ONE_BITS)) {
            seq![
                indexed(label, i) + " ("@ + channel_name(i) + ") = "@ + v.text@
                    + ": must be in [0.0, 1.0]"@,
            ]
        } else {
            Seq::empty()
        },
    }
}

/// Errors of an RGB colour: an array of exactly three components in
/// `[0, 1]`.
pub open spec fn rgb_errors(value: TomlValue, label: Seq<char>) -> Seq<Seq<char>> {
    match value {
        TomlValue::Array(a) => if a@.len() != 3 {
            seq![
                label + ": must have exactly 3 components (R, G, B), got "@ + decimal_spec(
                    a@.len(),
                ),
            ]
        } else {
            component_errors(a@[0], label, 0) + component_errors(a@[1], label, 1)
                + component_errors(a@[2], label, 2)
        },
        _ => seq![label + ": must be an array of 3 floats [R, G, B]"@],
    }
}

/// Errors of palette entry `pm` labelled `plabel`.
pub open spec fn palette_entry_errors(pm: TomlValue, plabel: Seq<char>) -> Seq<Seq<char>> {
    (if int_field(pm, "material_seed"@) is None {
        seq![plabel + ": missing required field 'material_seed' (must be a u64)"@]
    } else {
        Seq::empty()
    }) + match number_field(pm, "selection_weight"@) {
        None => seq![plabel + ": missing required field 'selection_weight'"@],
        Some(w) => if f_le(w.bits, ZERO_BITS) {
            seq![plabel + ": 'selection_weight' = "@ + w.text@ + " must be > 0"@]
        } else {
            Seq::empty()
        },
    }
}

/// Errors of the first `n` palette entries of the biome labelled `label`.
pub open spec fn palette_errors(ps: Seq<TomlValue>, label: Seq<char>, n: int) -> Seq<Seq<char>>
    decreases n,
{
    if n <= 0 {
        Seq::empty()
    } else {
        palette_errors(ps, label, n - 1) + palette_entry_errors(
            ps[n - 1],
            indexed(label + ".material_palette"@, n - 1),
        )
    }
}

/// Errors of biome entry `e` labelled `label`.
#[verifier::opaque]
pub open spec fn biome_entry_errors(e: TomlValue, label: Seq<char>) -> Seq<Seq<char>> {
    let (eb, bt) = string_field(e, "biome_type"@);
    eb + match bt {
        Some(s) => if s.len() == 0 {
            seq![label + ": 'biome_type' must not be empty"@]
        } else {
            Seq::empty()
        },
        None => Seq::empty(),
    } + ordered_pair_errors(e, label, "temperature_min"@, "temperature_max"@) + ordered_pair_errors(
        e,
        label,
        "moisture_min"@,
        "moisture_max"@,
    ) + density_modifier_errors(e, label) + match get_spec(e, "ground_color"@) {
        Some(gc) => rgb_errors(gc, label + ".ground_color"@),
        None => Seq::empty(),
    } + match array_items(get_spec(e, "material_palette"@)) {
        Some(ps) => palette_errors(ps, label, ps.len() as int),
        None => Seq::empty(),
    }
}

/// Errors of the first `n` biome entries.
pub open spec fn biome_errors(es: Seq<TomlValue>, n: int) -> Seq<Seq<char>>
    decreases n,
{
    if n <= 0 {
        Seq::empty()
    } else {
        biome_errors(es, n - 1) + biome_entry_errors(es[n - 1], indexed("biomes"@, n - 1))
    }
}

/// The errors of a biomes file (it never gets warnings).
pub open spec fn biomes_errors(doc: Result<TomlValue, String>) -> Seq<Seq<char>> {
    match doc {
        Err(e) => seq!["TOML parse error: "@ + e@],
        Ok(v) => match array_items(get_spec(v, "biomes"@)) {
            None => schema_errors(v),
            Some(es) => schema_errors(v) + biome_errors(es, es.len() as int),
        },
    }
}

fn ordered_pair_check(
    e: &TomlValue,
    label: &str,
    lo_field: &str,
    hi_field: &str,
    file: &str,
    report: &mut ValidationReport,
)
    ensures
        final(report).error_list() == old(report).error_list() + in_file(
            file@,
            ordered_pair_errors(*e, label@, lo_field@, hi_field@),
        ),
        final(report).warning_list() == old(report).warning_list(),
{
    let lo = unit_check(e, lo_field, file, report);
    let hi = unit_check(e, hi_field, file, report);
    match (lo, hi) {
        (Some(a), Some(b)) => {
            if float_le(b.bits, a.bits) {
                let mut m = String::new();
                m.append(label);
                m.append(": ");
                m.append(lo_field);
                m.append(" (");
                m.append(a.text.as_str());
                m.append(") must be < ");
                m.append(hi_field);
                m.append(" (");
                m.append(b.text.as_str());
                m.append(")");
                report.error(file, m);
            }
        },
        _ => {},
    }
    assert(final_errors_eq(report.error_list(), old(report).error_list(), file@, ordered_pair_errors(*e, label@, lo_field@, hi_field@)));
}

fn density_modifier_check(e: &TomlValue, label: &str, file: &str, report: &mut ValidationReport)
    ensures
        final(report).error_list() == old(report).error_list() + in_file(
            file@,
            density_modifier_errors(*e, label@),
        ),
        final(report).warning_list() == old(report).warning_list(),
{
    match e.get("density_modifier") {
        None => {},
        Some(dm) => match dm.as_number() {
            None => {
                let mut m = String::new();
                m.append(label);
                m.append(": 'density_modifier' must be a number");
                report.error(file, m);
            },
            Some(n) => {
                if float_le(n.bits, ZERO_BITS) {
                    let mut m = String::new();
                    m.append(label);
                    m.append(": 'density_modifier' = ");
                    m.append(n.text.as_str());
                    m.append(" must be > 0");
                    report.error(file, m);
                }
            },
        },
    }
    assert(final_errors_eq(report.error_list(), old(report).error_list(), file@, density_modifier_errors(*e, label@)));
}

fn channel_str(i: usize) -> (s: &'static str)
    requires
        i < 3,
    ensures
        s@ == channel_name(i as int),
{
    if i == 0 {
        "R"
    } else if i == 1 {
        "G"
    } else {
        "B"
    }
}

/// Checks an RGB colour value: an array of exactly three numbers in
/// `[0, 1]`.
fn validate_rgb_array(value: &TomlValue, label: &str, file: &str, report: &mut ValidationReport)
    ensures
        final(report).error_list() == old(report).error_list() + in_file(
            file@,
            rgb_errors(*value, label@),
        ),
        final(report).warning_list() == old(report).warning_list(),
{
    let arr = match value {
        TomlValue::Array(a) => a,
        _ => {
            let mut m = String::new();
            m.append(label);
            m.append(": must be an array of 3 floats [R, G, B]");
            report.error(file, m);
            assert(final_errors_eq(report.error_list(), old(report).error_list(), file@, rgb_errors(*value, label@)));
            return;
        },
    };
    if arr.len() != 3 {
        let mut m = String::new();
        m.append(label);
        m.append(": must have exactly 3 components (R, G, B), got ");
        let d = decimal(arr.len() as u64);
        m.append(d.as_str());
        report.error(file, m);
        assert(final_errors_eq(report.error_list(), old(report).error_list(), file@, rgb_errors(*value, label@)));
        return;
    }
    let mut i: usize = 0;
    while i < 3
        invariant
            i <= 3,
            arr@.len() == 3,
            *value == TomlValue::Array(*arr),
            report.error_list() == old(report).error_list() + in_file(
                file@,
                if i == 0 {
                    Seq::empty()
                } else if i == 1 {
                    component_errors(arr@[0], label@, 0)
                } else if i == 2 {
                    component_errors(arr@[0], label@, 0) + component_errors(arr@[1], label@, 1)
                } else {
                    rgb_errors(*value, label@)
                },
            ),
            report.warning_list() == old(report).warning_list(),
        decreases 3 - i,
    {
        let c = &arr[i];
        let ghost e0 = report.error_list();
        let head = indexed_text(label, i);
        match c.as_number() {
            None => {
                let mut m = String::new();
                m.append(head.as_str());
                m.append(" (");
                m.append(channel_str(i));
                m.append("): must be a float in [0.0, 1.0]");
                report.error(file, m);
            },
            Some(v) => {
                if !(float_le(ZERO_BITS, v.bits) && float_le(v.bits, ONE_BITS)) {
                    let mut m = String::new();
                    m.append(head.as_str());
                    m.append(" (");
                    m.append(channel_str(i));
                    m.append(") = ");
                    m.append(v.text.as_str());
                    m.append(": must be in [0.0, 1.0]");
                    report.error(file, m);
                }
            },
        }
        assert(report.error_list() =~= e0 + in_file(file@, component_errors(arr@[i as int], label@, i as int)));
        i = i + 1;
        assert(report.error_list() =~= old(report).error_list() + in_file(
            file@,
            if i == 1 {
                component_errors(arr@[0], label@, 0)
            } else if i == 2 {
                component_errors(arr@[0], label@, 0) + component_errors(arr@[1], label@, 1)
            } else {
                rgb_errors(*value, label@)
            },
        ));
    }
}

fn palette_check(ps: &Vec<TomlValue>, label: &str, file: &str, report: &mut ValidationReport)
    ensures
        final(report).error_list() == old(report).error_list() + in_file(
            file@,
            palette_errors(ps@, label@, ps@.len() as int),
        ),
        final(report).warning_list() == old(report).warning_list(),
{
    let mut base = String::new();
    base.append(label);
    base.append(".material_palette");
    let mut pidx: usize = 0;
    while pidx < ps.len()
        invariant
            pidx <= ps.len(),
            base@ == label@ + ".material_palette"@,
            report.error_list() == old(report).error_list() + in_file(
                file@,
                palette_errors(ps@, label@, pidx as int),
            ),
            report.warning_list() == old(report).warning_list(),
        decreases ps.len() - pidx,
    {
        let pm = &ps[pidx];
        let plabel = indexed_text(base.as_str(), pidx);
        if int_of(pm.get("material_seed")).is_none() {
            let mut m = String::new();
            m.append(plabel.as_str());
            m.append(": missing required field 'material_seed' (must be a u64)");
            report.error(file, m);
        }
        let w = match pm.get("selection_weight") {
            Some(x) => x.as_number(),
            None => None,
        };
        match w {
            None => {
                let mut m = String::new();
                m.append(plabel.as_str());
                m.append(": missing required field 'selection_weight'");
                report.error(file, m);
            },
            Some(w) => {
                if float_le(w.bits, ZERO_BITS) {
                    let mut m = String::new();
                    m.append(plabel.as_str());
                    m.append(": 'selection_weight' = ");
                    m.append(w.text.as_str());
                    m.append(" must be > 0");
                    report.error(file, m);
                }
            },
        }
        assert(report.error_list() =~= old(report).error_list() + in_file(
            file@,
            palette_errors(ps@, label@, pidx + 1),
        ));
        pidx = pidx + 1;
    }
}

#[verifier::spinoff_prover]
#[verifier::rlimit(50)]
fn biome_entry_check(e: &TomlValue, label: &str, file: &str, report: &mut ValidationReport)
    ensures
        final(report).error_list() == old(report).error_list() + in_file(
            file@,
            biome_entry_errors(*e, label@),
        ),
        final(report).warning_list() == old(report).warning_list(),
{
    reveal(biome_entry_errors);
    let ghost e0 = report.error_list();
    let bt = string_check(e, "biome_type", file, report);
    match bt {
        Some(s) => {
            let sc = chars_of(s.as_str());
            if sc.len() == 0 {
                let mut m = String::new();
                m.append(label);
                m.append(": 'biome_type' must not be empty");
                report.error(file, m);
            }
        },
        None => {},
    }
    let ghost p1 = string_field(*e, "biome_type"@).0 + match string_field(*e, "biome_type"@).1 {
        Some(s) => if s.len() == 0 {
            seq![label@ + ": 'biome_type' must not be empty"@]
        } else {
            Seq::empty()
        },
        None => Seq::empty(),
    };
    assert(report.error_list() =~= e0 + in_file(file@, p1));
    let ghost e1 = report.error_list();
    ordered_pair_check(e, label, "temperature_min", "temperature_max", file, report);
    let ghost e2 = report.error_list();
    ordered_pair_check(e, label, "moisture_min", "moisture_max", file, report);
    let ghost e3 = report.error_list();
    density_modifier_check(e, label, file, report);
    let ghost e4 = report.error_list();
    match e.get("ground_color") {
        Some(gc) => {
            let mut l = String::new();
            l.append(label);
            l.append(".ground_color");
            validate_rgb_array(gc, l.as_str(), file, report);
        },
        None => {},
    }
    let ghost p5 = match get_spec(*e, "ground_color"@) {
        Some(gc) => rgb_errors(gc, label@ + ".ground_color"@),
        None => Seq::empty(),
    };
    assert(report.error_list() =~= e4 + in_file(file@, p5));
    let ghost e5 = report.error_list();
    match e.get("material_palette") {
        Some(TomlValue::Array(ps)) => {
            palette_check(ps, label, file, report);
        },
        _ => {},
    }
    let ghost p6 = match array_items(get_spec(*e, "material_palette"@)) {
        Some(ps) => palette_errors(ps, label@, ps.len() as int),
        None => Seq::empty(),
    };
    assert(report.error_list() =~= e5 + in_file(file@, p6));
    let ghost all = p1 + ordered_pair_errors(*e, label@, "temperature_min"@, "temperature_max"@)
        + ordered_pair_errors(*e, label@, "moisture_min"@, "moisture_max"@)
        + density_modifier_errors(*e, label@) + p5 + p6;
    assert(all == biome_entry_errors(*e, label@));
    assert(report.error_list() =~= old(report).error_list() + in_file(file@, all));
}

/// Validates a biomes file: `schema_version` is 1; every `[[biomes]]`
/// entry has a non-empty `biome_type`, temperature and moisture bounds in
/// `[0, 1]` with min below max, a positive `density_modifier` when given, a
/// `ground_color` of three components in `[0, 1]` when given, and palette
/// entries with an integer `material_seed` and a positive
/// `selection_weight`. `doc` is the parsed file, or the parser's error
/// text.
pub fn validate_biomes_file(file: &str, doc: &Result<TomlValue, String>) -> (r: ValidationReport)
    ensures
        r.error_list() == in_file(file@, biomes_errors(*doc)),
        r.warning_list() == Seq::<(Seq<char>, Seq<char>)>::empty(),
{
    let v = match doc {
        Err(e) => {
            return parse_error(file, e);
        },
        Ok(v) => v,
    };
    let mut report = ValidationReport::new();
    schema_check(v, file, &mut report);
    let biomes = match v.get("biomes") {
        Some(TomlValue::Array(a)) => a,
        _ => {
            return report;
        },
    };
    let ghost es = biomes@;
    let mut idx: usize = 0;
    assert(report.error_list() =~= in_file(file@, schema_errors(*v) + biome_errors(es, 0)));
    while idx < biomes.len()
        invariant
            idx <= biomes.len(),
            es == biomes@,
            report.error_list() == in_file(file@, schema_errors(*v) + biome_errors(es, idx as int)),
            report.warning_list() == Seq::<(Seq<char>, Seq<char>)>::empty(),
        decreases biomes.len() - idx,
    {
        let label = indexed_text("biomes", idx);
        biome_entry_check(&biomes[idx], label.as_str(), file, &mut report);
        assert(report.error_list() =~= in_file(file@, schema_errors(*v) + biome_errors(es, idx + 1)));
        idx = idx + 1;
    }
    report
}

// ── Language and race files ───────────────────────────────────────────────

/// Errors of a required positive number field reported under `name`.
pub open spec fn acquisition_errors(l: TomlValue) -> Seq<Seq<char>> {
    match number_field(l, "acquisition_rate"@) {
        None => seq!["missing required field '[language].acquisition_rate'"@],
        Some(r) => if f_le(r.bits, ZERO_BITS) {
            seq!["[language].acquisition_rate = "@ + r.text@ + " must be > 0"@]
        } else {
            Seq::empty()
        },
    }
}

/// The errors of a language file (it never gets warnings).
pub open spec fn language_errors(doc: Result<TomlValue, String>) -> Seq<Seq<char>> {
    match doc {
        Err(e) => seq!["TOML parse error: "@ + e@],
        Ok(v) => schema_errors(v) + match get_spec(v, "language"@) {
            None => seq!["missing required [language] table"@],
            Some(l) => if !(l is Table) {
                seq!["'language' must be a TOML table"@]
            } else {
                language_table_errors(l)
            },
        },
    }
}

/// The errors of a race file (it never gets warnings).
pub open spec fn race_errors(doc: Result<TomlValue, String>) -> Seq<Seq<char>> {
    match doc {
        Err(e) => seq!["TOML parse error: "@ + e@],
        Ok(v) => schema_errors(v) + match get_spec(v, "race"@) {
            None => seq!["missing required [race] table"@],
            Some(r) => if !(r is Table) {
                seq!["'race' must be a TOML table"@]
            } else {
                string_field(r, "id"@).0 + string_field(r, "display_name"@).0 + string_field(
                    r,
                    "language_id"@,
                ).0 + unit_field(r, "strangeness"@).0
            },
        },
    }
}

/// Errors of the fields of a `[language]` table.
pub open spec fn language_table_errors(l: TomlValue) -> Seq<Seq<char>> {
    string_field(l, "id"@).0 + string_field(l, "display_name"@).0 + string_field(l, "race_id"@).0
        + string_field(l, "modality"@).0 + unit_field(l, "strangeness"@).0 + acquisition_errors(l)
}

#[verifier::spinoff_prover]
fn language_table_check(lang: &TomlValue, file: &str, report: &mut ValidationReport)
    ensures
        final(report).error_list() == old(report).error_list() + in_file(
            file@,
            language_table_errors(*lang),
        ),
        final(report).warning_list() == old(report).warning_list(),
{
    let ghost e0 = report.error_list();
    string_check(lang, "id", file, report);
    string_check(lang, "display_name", file, report);
    string_check(lang, "race_id", file, report);
    string_check(lang, "modality", file, report);
    unit_check(lang, "strangeness", file, report);
    let ghost mid = string_field(*lang, "id"@).0 + string_field(*lang, "display_name"@).0
        + string_field(*lang, "race_id"@).0 + string_field(*lang, "modality"@).0 + unit_field(
        *lang,
        "strangeness"@,
    ).0;
    assert(report.error_list() =~= e0 + in_file(file@, mid));
    let ghost e1 = report.error_list();
    let rate = match lang.get("acquisition_rate") {
        Some(x) => x.as_number(),
        None => None,
    };
    match rate {
        None => {
            report.error(file, String::from_str("missing required field '[language].acquisition_rate'"));
        },
        Some(r) => {
            if float_le(r.bits, ZERO_BITS) {
                let mut m = String::new();
                m.append("[language].acquisition_rate = ");
                m.append(r.text.as_str());
                m.append(" must be > 0");
                report.error(file, m);
            }
        },
    }
    assert(report.error_list() =~= e1 + in_file(file@, acquisition_errors(*lang)));
    assert(report.error_list() =~= e0 + in_file(file@, language_table_errors(*lang)));
}

/// Validates a language file: `schema_version` is 1; a `[language]` table
/// holds the strings `id`, `display_name`, `race_id` and `modality`, a
/// `strangeness` in `[0, 1]` and a positive `acquisition_rate`.
#[verifier::spinoff_prover]
#[verifier::rlimit(50)]
pub fn validate_language_file(file: &str, doc: &Result<TomlValue, String>) -> (r: ValidationReport)
    ensures
        r.error_list() == in_file(file@, language_errors(*doc)),
        r.warning_list() == Seq::<(Seq<char>, Seq<char>)>::empty(),
{
    let v = match doc {
        Err(e) => {
            return parse_error(file, e);
        },
        Ok(v) => v,
    };
    let mut report = ValidationReport::new();
    schema_check(v, file, &mut report);
    let ghost e0 = report.error_list();
    let lang = match v.get("language") {
        None => {
            report.error(file, String::from_str("missing required [language] table"));
            assert(report.error_list() =~= in_file(file@, language_errors(*doc)));
            return report;
        },
        Some(l) => l,
    };
    match lang {
        TomlValue::Table(_) => {},
        _ => {
            report.error(file, String::from_str("'language' must be a TOML table"));
            assert(report.error_list() =~= in_file(file@, language_errors(*doc)));
            return report;
        },
    }
    let ghost e0 = report.error_list();
    language_table_check(lang, file, &mut report);
    assert(language_errors(*doc) == schema_errors(*v) + language_table_errors(*lang));
    assert(report.error_list() =~= in_file(file@, language_errors(*doc)));
    report
}

/// Validates a race file: `schema_version` is 1; a `[race]` table holds the
/// strings `id`, `display_name` and `language_id` and a `strangeness` in
/// `[0, 1]`.
#[verifier::spinoff_prover]
#[verifier::rlimit(50)]
pub fn validate_race_file(file: &str, doc: &Result<TomlValue, String>) -> (r: ValidationReport)
    ensures
        r.error_list() == in_file(file@, race_errors(*doc)),
        r.warning_list() == Seq::<(Seq<char>, Seq<char>)>::empty(),
{
    let v = match doc {
        Err(e) => {
            return parse_error(file, e);
        },
        Ok(v) => v,
    };
    let mut report = ValidationReport::new();
    schema_check(v, file, &mut report);
    let race = match v.get("race") {
        None => {
            report.error(file, String::from_str("missing required [race] table"));
            assert(report.error_list() =~= in_file(file@, race_errors(*doc)));
            return report;
        },
        Some(r) => r,
    };
    match race {
        TomlValue::Table(_) => {},
        _ => {
            report.error(file, String::from_str("'race' must be a TOML table"));
            assert(report.error_list() =~= in_file(file@, race_errors(*doc)));
            return report;
        },
    }
    string_check(race, "id", file, &mut report);
    string_check(race, "display_name", file, &mut report);
    string_check(race, "language_id", file, &mut report);
    unit_check(race, "strangeness", file, &mut report);
    assert(report.error_list() =~= in_file(file@, race_errors(*doc)));
    report
}

// ── Language ↔ race cross-reference ───────────────────────────────────────

/// The string at `outer.inner`, or empty when absent or not a string.
pub open spec fn nested_str(v: TomlValue, outer: Seq<char>, inner: Seq<char>) -> Seq<char> {
    match get_spec(v, outer) {
        Some(t) => match str_field(t, inner) {
            Some(s) => s,
            None => Seq::empty(),
        },
        None => Seq::empty(),
    }
}

/// The warnings of the cross-check, as `(file, message)` pairs: the
/// language's `race_id` must name the race, and the race's `language_id`
/// must name the language (an empty side is not compared). Nothing is
/// reported when either file does not parse.
pub open spec fn crossref_warnings(
    lang_file: Seq<char>,
    lang_doc: Result<TomlValue, String>,
    race_file: Seq<char>,
    race_doc: Result<TomlValue, String>,
) -> Seq<(Seq<char>, Seq<char>)> {
    match (lang_doc, race_doc) {
        (Ok(l), Ok(r)) => {
            let lang_id = nested_str(l, "language"@, "id"@);
            let race_id_in_lang = nested_str(l, "language"@, "race_id"@);
            let race_id = nested_str(r, "race"@, "id"@);
            let lang_id_in_race = nested_str(r, "race"@, "language_id"@);
            (if race_id_in_lang.len() > 0 && race_id.len() > 0 && race_id_in_lang != race_id {
                seq![
                    (
                        lang_file,
                        "[language].race_id = '"@ + race_id_in_lang + "' does not match [race].id = '"@
                            + race_id + "' in '"@ + race_file + "'"@,
                    ),
                ]
            } else {
                Seq::empty()
            }) + (if lang_id_in_race.len() > 0 && lang_id.len() > 0 && lang_id_in_race != lang_id {
                seq![
                    (
                        race_file,
                        "[race].language_id = '"@ + lang_id_in_race
                            + "' does not match [language].id = '"@ + lang_id + "' in '"@ + lang_file
                            + "'"@,
                    ),
                ]
            } else {
                Seq::empty()
            })
        },
        _ => Seq::empty(),
    }
}

fn nested_text(v: &TomlValue, outer: &str, inner: &str) -> (s: String)
    ensures
        s@ == nested_str(*v, outer@, inner@),
{
    match v.get(outer) {
        Some(t) => match t.get(inner) {
            Some(TomlValue::String(s)) => s.clone(),
            _ => String::new(),
        },
        None => String::new(),
    }
}

/// Cross-checks a language file and its race file (see
/// [`crossref_warnings`]); it reports warnings only.
pub fn validate_language_race_crossref(
    lang_file: &str,
    lang_doc: &Result<TomlValue, String>,
    race_file: &str,
    race_doc: &Result<TomlValue, String>,
) -> (r: ValidationReport)
    ensures
        r.error_list() == Seq::<(Seq<char>, Seq<char>)>::empty(),
        r.warning_list() == crossref_warnings(lang_file@, *lang_doc, race_file@, *race_doc),
{
    let mut report = ValidationReport::new();
    let (l, r) = match (lang_doc, race_doc) {
        (Ok(l), Ok(r)) => (l, r),
        _ => {
            return report;
        },
    };
    let lang_id = nested_text(l, "language", "id");
    let race_id_in_lang = nested_text(l, "language", "race_id");
    let race_id = nested_text(r, "race", "id");
    let lang_id_in_race = nested_text(r, "race", "language_id");
    let a = chars_of(race_id_in_lang.as_str());
    let b = chars_of(race_id.as_str());
    if a.len() > 0 && b.len() > 0 && !str_eq(race_id_in_lang.as_str(), race_id.as_str()) {
        let mut m = String::new();
        m.append("[language].race_id = '");
        m.append(race_id_in_lang.as_str());
        m.append("' does not match [race].id = '");
        m.append(race_id.as_str());
        m.append("' in '");
        m.append(race_file);
        m.append("'");
        report.warn(lang_file, m);
    }
    let c = chars_of(lang_id_in_race.as_str());
    let d = chars_of(lang_id.as_str());
    if c.len() > 0 && d.len() > 0 && !str_eq(lang_id_in_race.as_str(), lang_id.as_str()) {
        let mut m = String::new();
        m.append("[race].language_id = '");
        m.append(lang_id_in_race.as_str());
        m.append("' does not match [language].id = '");
        m.append(lang_id.as_str());
        m.append("' in '");
        m.append(lang_file);
        m.append("'");
        report.warn(race_file, m);
    }
    assert(report.warning_list() =~= crossref_warnings(lang_file@, *lang_doc, race_file@, *race_doc));
    report
}

} // verus!
