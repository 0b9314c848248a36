//! The header value tree.
//!
//! An entry header is a recursive sum of scalar values, arrays and tables
//! (key/value pairs in insertion order). Float and date-time values carry
//! their literal spelling: nothing in the store computes with them, and the
//! spelling is what the text format reads and writes.
//!
//! The spec-level model of a value is [`ValueModel`]; every contract in the
//! crate speaks about values through it.

use vstd::prelude::*;

use crate::chars::{is_digit, digit_val};

verus! {

broadcast use vstd::std_specs::vec::axiom_vec_decreases_to_view, vstd::std_specs::vec::axiom_vec_index_decreases, vstd::seq::axiom_seq_index_decreases, vstd::seq::axiom_seq_subrange_decreases;

/// A value of the entry header document.
#[derive(Debug)]
pub enum Value {
    Text(String),
    Integer(i64),
    /// A floating-point value, kept as its literal spelling
    /// (`-?digits.digits`); see [`wf_float_lexeme`].
    Float(String),
    Boolean(bool),
    /// A date-time value, kept as its literal spelling
    /// (`YYYY-MM-DDThh:mm:ss` with optional `Z`); see [`wf_datetime_lexeme`].
    Datetime(String),
    Array(Vec<Value>),
    Table(Vec<(String, Value)>),
}

/// The mathematical model of a [`Value`].
#[verifier::ext_equal]
pub enum ValueModel {
    Text(Seq<char>),
    Integer(int),
    Float(Seq<char>),
    Boolean(bool),
    Datetime(Seq<char>),
    Array(Seq<ValueModel>),
    Table(Seq<(Seq<char>, ValueModel)>),
}

pub open spec fn value_model(v: Value) -> ValueModel
    decreases v,
{
    match v {
        Value::Text(s) => ValueModel::Text(s@),
        Value::Integer(i) => ValueModel::Integer(i as int),
        Value::Float(s) => ValueModel::Float(s@),
        Value::Boolean(b) => ValueModel::Boolean(b),
        Value::Datetime(s) => ValueModel::Datetime(s@),
        Value::Array(a) => ValueModel::Array(seq_models(a@)),
        Value::Table(t) => ValueModel::Table(pairs_model(t@)),
    }
}

/// The models of an array's elements.
pub open spec fn seq_models(a: Seq<Value>) -> Seq<ValueModel>
    decreases a,
{
    if a.len() == 0 {
        Seq::empty()
    } else {
        seq_models(a.drop_last()).push(value_model(a.last()))
    }
}

/// The model of a table's pair vector.
pub open spec fn pairs_model(t: Seq<(String, Value)>) -> Seq<(Seq<char>, ValueModel)>
    decreases t,
{
    if t.len() == 0 {
        Seq::empty()
    } else {
        pairs_model(t.drop_last()).push((t.last().0@, value_model(t.last().1)))
    }
}

pub broadcast proof fn lemma_seq_models(a: Seq<Value>)
    ensures
        (#[trigger] seq_models(a)).len() == a.len(),
        forall|i: int| 0 <= i < a.len() ==> seq_models(a)[i] == value_model(a[i]),
    decreases a.len(),
{
    if a.len() > 0 {
        lemma_seq_models(a.drop_last());
    }
}

pub broadcast proof fn lemma_pairs_model(t: Seq<(String, Value)>)
    ensures
        (#[trigger] pairs_model(t)).len() == t.len(),
        forall|i: int|
            0 <= i < t.len() ==> pairs_model(t)[i] == (t[i].0@, value_model(t[i].1)),
    decreases t.len(),
{
    if t.len() > 0 {
        lemma_pairs_model(t.drop_last());
    }
}

impl View for Value {
    type V = ValueModel;

    open spec fn view(&self) -> ValueModel {
        value_model(*self)
    }
}

/// The first value bound to `k`, if any.
pub open spec fn table_lookup(pairs: Seq<(Seq<char>, ValueModel)>, k: Seq<char>) -> Option<
    ValueModel,
>
    decreases pairs.len(),
{
    if pairs.len() == 0 {
        None
    } else if pairs[0].0 == k {
        Some(pairs[0].1)
    } else {
        table_lookup(pairs.skip(1), k)
    }
}

/// The same pairs with the first binding of `k` replaced by `v`.
pub open spec fn table_replace(
    pairs: Seq<(Seq<char>, ValueModel)>,
    k: Seq<char>,
    v: ValueModel,
) -> Seq<(Seq<char>, ValueModel)>
    decreases pairs.len(),
{
    if pairs.len() == 0 {
        pairs
    } else if pairs[0].0 == k {
        seq![(k, v)] + pairs.skip(1)
    } else {
        seq![pairs[0]] + table_replace(pairs.skip(1), k, v)
    }
}

proof fn lemma_table_lookup_index(pairs: Seq<(Seq<char>, ValueModel)>, k: Seq<char>, i: int)
    requires
        0 <= i < pairs.len(),
        forall|j: int| 0 <= j < i ==> pairs[j].0 != k,
        pairs[i].0 == k,
    ensures
        table_lookup(pairs, k) == Some(pairs[i].1),
    decreases pairs.len(),
{
    if i > 0 {
        lemma_table_lookup_index(pairs.skip(1), k, i - 1);
    }
}

proof fn lemma_table_lookup_none(pairs: Seq<(Seq<char>, ValueModel)>, k: Seq<char>)
    requires
        forall|j: int| 0 <= j < pairs.len() ==> pairs[j].0 != k,
    ensures
        table_lookup(pairs, k) is None,
    decreases pairs.len(),
{
    if pairs.len() > 0 {
        lemma_table_lookup_none(pairs.skip(1), k);
    }
}

/// Looks a key up in a table's pair vector; returns the first binding.
pub fn table_get<'a>(pairs: &'a Vec<(String, Value)>, k: &str) -> (r: Option<&'a Value>)
    ensures
        match r {
            Some(v) => table_lookup(pairs_model(pairs@), k@) == Some(v@),
            None => table_lookup(pairs_model(pairs@), k@) is None,
        },
{
    proof {
        lemma_pairs_model(pairs@);
    }
    let mut i: usize = 0;
    while i < pairs.len()
        invariant
            i <= pairs@.len(),
            pairs_model(pairs@).len() == pairs@.len(),
            forall|j: int|
                0 <= j < pairs@.len() ==> pairs_model(pairs@)[j] == (
                pairs@[j].0@,
                value_model(pairs@[j].1),
                ),
            forall|j: int| 0 <= j < i ==> pairs_model(pairs@)[j].0 != k@,
        decreases pairs@.len() - i,
    {
        if crate::chars::str_eq(pairs[i].0.as_str(), k) {
            proof {
                lemma_table_lookup_index(pairs_model(pairs@), k@, i as int);
            }
            return Some(&pairs[i].1);
        }
        i = i + 1;
    }
    proof {
        lemma_table_lookup_none(pairs_model(pairs@), k@);
    }
    None
}

/// A deep copy of a value, with its model preserved.
#[verifier::loop_isolation(false)]
pub fn duplicate(v: &Value) -> (r: Value)
    ensures
        r@ == v@,
    decreases v,
{
    match v {
        Value::Text(s) => Value::Text(s.clone()),
        Value::Integer(i) => Value::Integer(*i),
        Value::Float(s) => Value::Float(s.clone()),
        Value::Boolean(b) => Value::Boolean(*b),
        Value::Datetime(s) => Value::Datetime(s.clone()),
        Value::Array(a) => {
            let mut out: Vec<Value> = Vec::new();
            let mut i: usize = 0;
            while i < a.len()
                invariant
                    i <= a@.len(),
                    out@.len() == i,
                    forall|j: int| 0 <= j < i ==> value_model(out@[j]) == value_model(a@[j]),
                decreases a@.len() - i,
            {
                out.push(duplicate(&a[i]));
                i = i + 1;
            }
            proof {
                lemma_seq_models(out@);
                lemma_seq_models(a@);
                assert(seq_models(out@) =~= seq_models(a@));
            }
            Value::Array(out)
        },
        Value::Table(t) => {
            let mut out: Vec<(String, Value)> = Vec::new();
            let mut i: usize = 0;
            while i < t.len()
                invariant
                    i <= t@.len(),
                    out@.len() == i,
                    forall|j: int|
                        0 <= j < i ==> out@[j].0@ == t@[j].0@ && value_model(out@[j].1)
                            == value_model(t@[j].1),
                decreases t@.len() - i,
            {
                let pair = &t[i];
                out.push((pair.0.clone(), duplicate(&pair.1)));
                i = i + 1;
            }
            proof {
                lemma_pairs_model(out@);
                lemma_pairs_model(t@);
                assert(pairs_model(out@) =~= pairs_model(t@));
            }
            Value::Table(out)
        },
    }
}

/// Structural equality of two values, decided on their models.
#[verifier::loop_isolation(false)]
pub fn value_eq(a: &Value, b: &Value) -> (r: bool)
    ensures
        r == (a@ == b@),
    decreases a,
{
    match (a, b) {
        (Value::Text(x), Value::Text(y)) => crate::chars::str_eq(x.as_str(), y.as_str()),
        (Value::Integer(x), Value::Integer(y)) => *x == *y,
        (Value::Float(x), Value::Float(y)) => crate::chars::str_eq(x.as_str(), y.as_str()),
        (Value::Boolean(x), Value::Boolean(y)) => *x == *y,
        (Value::Datetime(x), Value::Datetime(y)) => crate::chars::str_eq(x.as_str(), y.as_str()),
        (Value::Array(x), Value::Array(y)) => {
            proof {
                lemma_seq_models(x@);
                lemma_seq_models(y@);
            }
            if x.len() != y.len() {
                return false;
            }
            let mut i: usize = 0;
            while i < x.len()
                invariant
                    x@.len() == y@.len(),
                    i <= x@.len(),
                    seq_models(x@).len() == x@.len(),
                    seq_models(y@).len() == y@.len(),
                    forall|j: int|
                        0 <= j < x@.len() ==> seq_models(x@)[j] == value_model(x@[j]),
                    forall|j: int|
                        0 <= j < y@.len() ==> seq_models(y@)[j] == value_model(y@[j]),
                    forall|j: int| 0 <= j < i ==> value_model(x@[j]) == value_model(y@[j]),
                decreases x@.len() - i,
            {
                if !value_eq(&x[i], &y[i]) {
                    proof {
                        assert(seq_models(x@)[i as int] != seq_models(y@)[i as int]);
                    }
                    return false;
                }
                i = i + 1;
            }
            proof {
                assert(seq_models(x@) =~= seq_models(y@));
            }
            true
        },
        (Value::Table(x), Value::Table(y)) => {
            proof {
                lemma_pairs_model(x@);
                lemma_pairs_model(y@);
            }
            if x.len() != y.len() {
                return false;
            }
            let mut i: usize = 0;
            while i < x.len()
                invariant
                    x@.len() == y@.len(),
                    i <= x@.len(),
                    pairs_model(x@).len() == x@.len(),
                    pairs_model(y@).len() == y@.len(),
                    forall|j: int|
                        0 <= j < x@.len() ==> pairs_model(x@)[j] == (
                        x@[j].0@,
                        value_model(x@[j].1),
                        ),
                    forall|j: int|
                        0 <= j < y@.len() ==> pairs_model(y@)[j] == (
                        y@[j].0@,
                        value_model(y@[j].1),
                        ),
                    forall|j: int|
                        0 <= j < i ==> x@[j].0@ == y@[j].0@ && value_model(x@[j].1)
                            == value_model(y@[j].1),
                decreases x@.len() - i,
            {
                let px = &x[i];
                let py = &y[i];
                if !crate::chars::str_eq(px.0.as_str(), py.0.as_str()) {
                    proof {
                        assert(pairs_model(x@)[i as int].0 != pairs_model(y@)[i as int].0);
                    }
                    return false;
                }
                if !value_eq(&px.1, &py.1) {
                    proof {
                        assert(pairs_model(x@)[i as int].1 != pairs_model(y@)[i as int].1);
                    }
                    return false;
                }
                i = i + 1;
            }
            proof {
                assert(pairs_model(x@) =~= pairs_model(y@));
            }
            true
        },
        _ => {
            proof {
                assert(a@ != b@);
            }
            false
        },
    }
}

/// `t` splits at position `k` into digits, a dot, and digits.
pub open spec fn float_parts(t: Seq<char>, k: int) -> bool {
    &&& 1 <= k < t.len() - 1
    &&& t[k] == '.'
    &&& forall|i: int| 0 <= i < k ==> is_digit(#[trigger] t[i])
    &&& forall|i: int| k < i < t.len() ==> is_digit(#[trigger] t[i])
}

/// A well-formed float lexeme: optional minus sign, then digits, a dot,
/// and digits again.
pub open spec fn wf_float_lexeme(s: Seq<char>) -> bool {
    let t = if s.len() > 0 && s[0] == '-' {
        s.skip(1)
    } else {
        s
    };
    exists|k: int| #[trigger] float_parts(t, k)
}

/// A well-formed date-time lexeme: `YYYY-MM-DDThh:mm:ss`, optionally
/// followed by `Z`.
pub open spec fn wf_datetime_lexeme(s: Seq<char>) -> bool {
    &&& (s.len() == 19 || (s.len() == 20 && s[19] == 'Z'))
    &&& is_digit(s[0]) && is_digit(s[1]) && is_digit(s[2]) && is_digit(s[3])
    &&& s[4] == '-' && is_digit(s[5]) && is_digit(s[6])
    &&& s[7] == '-' && is_digit(s[8]) && is_digit(s[9])
    &&& s[10] == 'T' && is_digit(s[11]) && is_digit(s[12])
    &&& s[13] == ':' && is_digit(s[14]) && is_digit(s[15])
    &&& s[16] == ':' && is_digit(s[17]) && is_digit(s[18])
}

/// A well-formed bare key.
pub open spec fn wf_key(k: Seq<char>) -> bool {
    k.len() > 0 && forall|i: int| 0 <= i < k.len() ==> crate::chars::is_key_char(#[trigger] k[i])
}

/// In a serializable table all non-table pairs come before all table
/// pairs, mirroring the shape the text format can express.
pub open spec fn scalars_first(ps: Seq<(Seq<char>, ValueModel)>) -> bool {
    forall|i: int, j: int|
        0 <= i < j < ps.len() && (#[trigger] ps[i].1) is Table ==> (#[trigger] ps[j].1) is Table
}

/// A value the text format can write and read back unchanged: lexemes are
/// well formed, keys are bare, arrays hold no tables, and tables list
/// their scalar pairs before their table pairs.
pub open spec fn wf_value(m: ValueModel) -> bool
    decreases m,
{
    match m {
        ValueModel::Text(_) => true,
        ValueModel::Integer(i) => i64::MIN <= i <= i64::MAX,
        ValueModel::Float(s) => wf_float_lexeme(s),
        ValueModel::Boolean(_) => true,
        ValueModel::Datetime(s) => wf_datetime_lexeme(s),
        ValueModel::Array(es) => forall|i: int|
            0 <= i < es.len() ==> !((#[trigger] es[i]) is Table) && wf_value(es[i]),
        ValueModel::Table(ps) => scalars_first(ps) && forall|i: int|
            0 <= i < ps.len() ==> wf_key((#[trigger] ps[i]).0) && wf_value(ps[i].1),
    }
}

/// `s` splits as `digits.digits.digits` at dot positions `i` and `j`.
pub open spec fn semver_split(s: Seq<char>, i: int, j: int) -> bool {
    &&& 1 <= i
    &&& i + 2 <= j
    &&& j + 2 <= s.len()
    &&& s[i] == '.'
    &&& s[j] == '.'
    &&& forall|t: int| 0 <= t < i ==> is_digit(#[trigger] s[t])
    &&& forall|t: int| i < t < j ==> is_digit(#[trigger] s[t])
    &&& forall|t: int| j < t < s.len() ==> is_digit(#[trigger] s[t])
}

/// Semantic-version syntax: `MAJOR.MINOR.PATCH` with non-negative
/// decimal integers.
pub open spec fn is_semver(s: Seq<char>) -> bool {
    exists|i: int, j: int| semver_split(s, i, j)
}

/// First position at or after `from` that does not hold a digit.
fn scan_digits(cs: &[char], from: usize) -> (r: usize)
    requires
        from <= cs@.len(),
    ensures
        from <= r <= cs@.len(),
        forall|t: int| from <= t < r ==> is_digit(#[trigger] cs@[t]),
        r < cs@.len() ==> !is_digit(cs@[r as int]),
    decreases cs@.len() - from,
{
    let mut i = from;
    while i < cs.len()
        invariant
            from <= i <= cs@.len(),
            forall|t: int| from <= t < i ==> is_digit(#[trigger] cs@[t]),
        decreases cs@.len() - i,
    {
        if !crate::chars::digit_check(cs[i]) {
            return i;
        }
        i = i + 1;
    }
    i
}

/// Decides semantic-version syntax.
pub fn check_semver(cs: &[char]) -> (r: bool)
    ensures
        r == is_semver(cs@),
{
    let n = cs.len();
    let i = scan_digits(cs, 0);
    if i == 0 || i >= n || cs[i] != '.' {
        proof {
            if is_semver(cs@) {
                let (i2, j2) = choose|i2: int, j2: int| semver_split(cs@, i2, j2);
                assert(!is_digit('.'));
                assert(i as int == i2);
                assert(false);
            }
        }
        return false;
    }
    let j = scan_digits(cs, i + 1);
    if j == i + 1 || j >= n || cs[j] != '.' {
        proof {
            if is_semver(cs@) {
                let (i2, j2) = choose|i2: int, j2: int| semver_split(cs@, i2, j2);
                assert(!is_digit('.'));
                assert(i as int == i2);
                assert(j as int == j2);
                assert(false);
            }
        }
        return false;
    }
    let k = scan_digits(cs, j + 1);
    if k != n || j + 1 == n {
        proof {
            if is_semver(cs@) {
                let (i2, j2) = choose|i2: int, j2: int| semver_split(cs@, i2, j2);
                assert(!is_digit('.'));
                assert(i as int == i2);
                assert(j as int == j2);
                assert(false);
            }
        }
        return false;
    }
    proof {
        assert(semver_split(cs@, i as int, j as int));
    }
    true
}

/// The header has a top-level `imag` key bound to a table.
pub open spec fn spec_has_main_section(m: ValueModel) -> bool {
    match m {
        ValueModel::Table(ps) => match table_lookup(ps, "imag"@) {
            Some(ValueModel::Table(_)) => true,
            _ => false,
        },
        _ => false,
    }
}

/// `imag.version` exists and is a text value.
pub open spec fn spec_has_version_in_main_section(m: ValueModel) -> bool {
    match m {
        ValueModel::Table(ps) => match table_lookup(ps, "imag"@) {
            Some(ValueModel::Table(imag)) => match table_lookup(imag, "version"@) {
                Some(ValueModel::Text(_)) => true,
                _ => false,
            },
            _ => false,
        },
        _ => false,
    }
}

/// The whole header invariant: `imag` is a table whose `version` is a
/// text value in semantic-version syntax.
pub open spec fn header_verifies(m: ValueModel) -> bool {
    match m {
        ValueModel::Table(ps) => match table_lookup(ps, "imag"@) {
            Some(ValueModel::Table(imag)) => match table_lookup(imag, "version"@) {
                Some(ValueModel::Text(v)) => is_semver(v),
                _ => false,
            },
            _ => false,
        },
        _ => false,
    }
}

/// True iff the header has a top-level `imag` table.
pub fn has_main_section(v: &Value) -> (r: bool)
    ensures
        r == spec_has_main_section(v@),
{
    match v {
        Value::Table(t) => match table_get(t, "imag") {
            Some(inner) => match inner {
                Value::Table(_) => true,
                _ => false,
            },
            None => false,
        },
        _ => false,
    }
}

/// True iff the header has `imag.version` as a text value.
pub fn has_imag_version_in_main_section(v: &Value) -> (r: bool)
    ensures
        r == spec_has_version_in_main_section(v@),
{
    match v {
        Value::Table(t) => match table_get(t, "imag") {
            Some(inner) => match inner {
                Value::Table(imag) => match table_get(imag, "version") {
                    Some(ver) => match ver {
                        Value::Text(_) => true,
                        _ => false,
                    },
                    None => false,
                },
                _ => false,
            },
            None => false,
        },
        _ => false,
    }
}

/// Checks the header invariant; any failure is a `HeaderInconsistency`.
pub fn verify_header_consistency(v: &Value) -> (r: Result<(), crate::error::StoreError>)
    ensures
        r is Ok <==> header_verifies(v@),
        r matches Err(e) ==> e.chain() == seq![crate::error::StoreErrorKind::HeaderInconsistency],
{
    let ok: bool = match v {
        Value::Table(t) => match table_get(t, "imag") {
            Some(inner) => match inner {
                Value::Table(imag) => match table_get(imag, "version") {
                    Some(ver) => match ver {
                        Value::Text(s) => {
                            let cs = crate::chars::str_to_chars(s.as_str());
                            check_semver(cs.as_slice())
                        },
                        _ => false,
                    },
                    None => false,
                },
                _ => false,
            },
            None => false,
        },
        _ => false,
    };
    if ok {
        Ok(())
    } else {
        Err(crate::error::StoreError::new(crate::error::StoreErrorKind::HeaderInconsistency))
    }
}

/// The version written into fresh headers.
pub open spec fn spec_default_version() -> Seq<char> {
    "0.2.0"@
}

pub fn default_version() -> (r: String)
    ensures
        r@ == spec_default_version(),
{
    String::from_str("0.2.0")
}

/// The model of the default header.
pub open spec fn default_header_model() -> ValueModel {
    ValueModel::Table(
        seq![
            (
                "imag"@,
                ValueModel::Table(seq![("version"@, ValueModel::Text(spec_default_version()))]),
            ),
        ],
    )
}

/// The default header: `imag.version` bound to the current version.
pub fn default_header() -> (r: Value)
    ensures
        r@ == default_header_model(),
{
    let mut inner: Vec<(String, Value)> = Vec::new();
    inner.push((String::from_str("version"), Value::Text(default_version())));
    let mut outer: Vec<(String, Value)> = Vec::new();
    outer.push((String::from_str("imag"), Value::Table(inner)));
    proof {
        lemma_pairs_model(outer@);
        lemma_pairs_model(outer@[0].1->Table_0@);
        assert(pairs_model(outer@[0].1->Table_0@) =~= seq![
            ("version"@, ValueModel::Text(spec_default_version())),
        ]);
        assert(pairs_model(outer@) =~= seq![
            (
                "imag"@,
                ValueModel::Table(seq![("version"@, ValueModel::Text(spec_default_version()))]),
            ),
        ]);
    }
    Value::Table(outer)
}

/// The default header is a well-formed table, so the round-trip law
/// applies to fresh entries.
pub proof fn lemma_default_header_wf()
    ensures
        wf_value(default_header_model()),
{
    reveal_strlit("imag");
    reveal_strlit("version");
    reveal_strlit("0.2.0");
    let inner = seq![("version"@, ValueModel::Text(spec_default_version()))];
    let outer = seq![("imag"@, ValueModel::Table(inner))];
    assert(wf_key("version"@)) by {
        assert forall|i: int| 0 <= i < "version"@.len() implies crate::chars::is_key_char(
            #[trigger] "version"@[i]) by {
            assert(crate::chars::is_lower("version"@[i]));
        }
    }
    assert(wf_key("imag"@)) by {
        assert forall|i: int| 0 <= i < "imag"@.len() implies crate::chars::is_key_char(
            #[trigger] "imag"@[i]) by {
            assert(crate::chars::is_lower("imag"@[i]));
        }
    }
    assert(wf_value(ValueModel::Text(spec_default_version())));
    assert(scalars_first(inner));
    assert(wf_value(ValueModel::Table(inner)));
    assert(scalars_first(outer));
    assert(wf_value(default_header_model()));
}

/// The default header satisfies the header invariant.
pub proof fn lemma_default_header_verifies()
    ensures
        header_verifies(default_header_model()),
{
    reveal_strlit("0.2.0");
    let s = spec_default_version();
    assert(s[1] == '.' && s[3] == '.');
    assert(is_digit(s[0]) && is_digit(s[2]) && is_digit(s[4]));
    assert(semver_split(s, 1, 3));
}

/// A non-empty run of decimal digits.
pub open spec fn all_digits(s: Seq<char>) -> bool {
    s.len() > 0 && forall|i: int| 0 <= i < s.len() ==> is_digit(#[trigger] s[i])
}

/// The number denoted by a digit run.
pub open spec fn digits_val(s: Seq<char>) -> nat
    decreases s.len(),
{
    if s.len() == 0 {
        0
    } else {
        digits_val(s.drop_last()) * 10 + digit_val(s.last())
    }
}

pub proof fn lemma_digits_val_prefix(s: Seq<char>, i: int)
    requires
        0 <= i <= s.len(),
    ensures
        digits_val(s.take(i)) <= digits_val(s),
    decreases s.len() - i,
{
    if i < s.len() {
        assert(s.take(i + 1).drop_last() =~= s.take(i));
        assert(s.take(i + 1).last() == s[i]);
        lemma_digits_val_prefix(s, i + 1);
    } else {
        assert(s.take(i) =~= s);
    }
}

/// Reads a digit-run segment as an index, detecting overflow.
fn parse_index(seg: &[char]) -> (r: Option<usize>)
    ensures
        match r {
            Some(n) => all_digits(seg@) && digits_val(seg@) == n as nat,
            None => !all_digits(seg@) || digits_val(seg@) > usize::MAX as nat,
        },
{
    if seg.len() == 0 {
        return None;
    }
    let mut acc: u128 = 0;
    let mut i: usize = 0;
    while i < seg.len()
        invariant
            i <= seg@.len(),
            seg@.len() > 0,
            forall|j: int| 0 <= j < i ==> is_digit(#[trigger] seg@[j]),
            acc as nat == digits_val(seg@.take(i as int)),
            acc <= usize::MAX as u128,
        decreases seg@.len() - i,
    {
        let c = seg[i];
        if !crate::chars::digit_check(c) {
            return None;
        }
        let d: u128 = (c as u32 as u128) - 48;
        acc = acc * 10 + d;
        proof {
            assert(seg@.take(i + 1).drop_last() =~= seg@.take(i as int));
            assert(seg@.take(i + 1).last() == seg@[i as int]);
        }
        i = i + 1;
        if acc > usize::MAX as u128 {
            proof {
                lemma_digits_val_prefix(seg@, i as int);
            }
            return None;
        }
    }
    proof {
        assert(seg@.take(seg@.len() as int) =~= seg@);
    }
    Some(acc as usize)
}

/// Splits `s` at every `.`, starting at position `i`. Empty segments are
/// kept, so validity can be checked separately.
pub open spec fn split_from(s: Seq<char>, i: int) -> Seq<Seq<char>>
    decreases s.len() - i,
{
    if i < 0 || i >= s.len() {
        seq![Seq::<char>::empty()]
    } else if s[i] == '.' {
        seq![Seq::<char>::empty()] + split_from(s, i + 1)
    } else {
        let rest = split_from(s, i + 1);
        seq![seq![s[i]] + rest[0]] + rest.skip(1)
    }
}

pub proof fn lemma_split_from_len(s: Seq<char>, i: int)
    ensures
        split_from(s, i).len() >= 1,
    decreases s.len() - i,
{
    if 0 <= i && i < s.len() {
        lemma_split_from_len(s, i + 1);
    }
}

/// The models of a segment vector.
pub open spec fn segs_model(v: Seq<Vec<char>>) -> Seq<Seq<char>> {
    v.map_values(|x: Vec<char>| x@)
}

pub fn split_from_exec(cs: &[char], i: usize) -> (r: Vec<Vec<char>>)
    requires
        i <= cs@.len(),
    ensures
        segs_model(r@) == split_from(cs@, i as int),
    decreases cs@.len() - i,
{
    if i >= cs.len() {
        let mut r: Vec<Vec<char>> = Vec::new();
        r.push(Vec::new());
        proof {
            assert(segs_model(r@) =~= split_from(cs@, i as int));
        }
        r
    } else if cs[i] == '.' {
        let mut rest = split_from_exec(cs, i + 1);
        rest.insert(0, Vec::new());
        proof {
            assert(segs_model(rest@) =~= seq![Seq::<char>::empty()] + split_from(
                cs@,
                i as int + 1,
            ));
        }
        rest
    } else {
        let mut rest = split_from_exec(cs, i + 1);
        proof {
            lemma_split_from_len(cs@, i as int + 1);
            assert(segs_model(rest@).len() == rest@.len());
        }
        let mut first = rest.remove(0);
        let ghost sp = split_from(cs@, i as int + 1);
        proof {
            assert(first@ == sp[0]);
        }
        first.insert(0, cs[i]);
        rest.insert(0, first);
        proof {
            assert(first@ =~= seq![cs@[i as int]] + sp[0]);
            assert(segs_model(rest@) =~= seq![seq![cs@[i as int]] + sp[0]] + sp.skip(1));
        }
        rest
    }
}

/// A dotted path is valid when none of its segments is empty.
pub open spec fn path_ok(path: Seq<char>) -> bool {
    forall|i: int|
        0 <= i < split_from(path, 0).len() ==> (#[trigger] split_from(path, 0)[i]).len() > 0
}

/// Reading a value at a segment path: tables are entered by key, arrays
/// by decimal index; anything else ends the walk with "absent".
pub open spec fn read_path_model(m: ValueModel, segs: Seq<Seq<char>>, at: int) -> Option<ValueModel>
    decreases segs.len() - at,
{
    if at < 0 || at >= segs.len() {
        Some(m)
    } else {
        match m {
            ValueModel::Table(ps) => match table_lookup(ps, segs[at]) {
                Some(v) => read_path_model(v, segs, at + 1),
                None => None,
            },
            ValueModel::Array(es) => if all_digits(segs[at]) && digits_val(segs[at]) < es.len() {
                read_path_model(es[digits_val(segs[at]) as int], segs, at + 1)
            } else {
                None
            },
            _ => None,
        }
    }
}

/// Looks a key up by its characters.
fn table_find_index(pairs: &Vec<(String, Value)>, k: &[char]) -> (r: Option<usize>)
    ensures
        match r {
            Some(i) => i < pairs@.len() && pairs@[i as int].0@ == k@ && forall|j: int|
                0 <= j < i ==> pairs@[j].0@ != k@,
            None => forall|j: int| 0 <= j < pairs@.len() ==> pairs@[j].0@ != k@,
        },
{
    let mut i: usize = 0;
    while i < pairs.len()
        invariant
            i <= pairs@.len(),
            forall|j: int| 0 <= j < i ==> pairs@[j].0@ != k@,
        decreases pairs@.len() - i,
    {
        if crate::chars::str_eq_chars(pairs[i].0.as_str(), k) {
            return Some(i);
        }
        i = i + 1;
    }
    None
}

fn read_path_at<'a>(v: &'a Value, segs: &Vec<Vec<char>>, at: usize) -> (r: Option<&'a Value>)
    requires
        at <= segs@.len(),
    ensures
        match r {
            Some(x) => read_path_model(v@, segs_model(segs@), at as int) == Some(x@),
            None => read_path_model(v@, segs_model(segs@), at as int) is None,
        },
    decreases segs@.len() - at,
{
    if at >= segs.len() {
        return Some(v);
    }
    let seg = &segs[at];
    match v {
        Value::Table(t) => {
            proof {
                lemma_pairs_model(t@);
            }
            match table_find_index(t, seg.as_slice()) {
                Some(i) => {
                    proof {
                        lemma_table_lookup_index(pairs_model(t@), seg@, i as int);
                    }
                    read_path_at(&t[i].1, segs, at + 1)
                },
                None => {
                    proof {
                        lemma_table_lookup_none(pairs_model(t@), seg@);
                    }
                    None
                },
            }
        },
        Value::Array(es) => {
            let n = es.len();
            proof {
                lemma_seq_models(es@);
            }
            match parse_index(seg.as_slice()) {
                Some(idx) => {
                    if idx < n {
                        read_path_at(&es[idx], segs, at + 1)
                    } else {
                        None
                    }
                },
                None => None,
            }
        },
        _ => None,
    }
}

/// Writing a value at a segment path. Existing bindings are replaced in
/// place; a missing final key is appended; missing intermediate tables
/// are created. The result is the new tree and the replaced value, or
/// nothing when the path cannot be taken (a scalar in the middle, or a
/// bad array index).
pub open spec fn set_path_model(
    m: ValueModel,
    segs: Seq<Seq<char>>,
    at: int,
    nv: ValueModel,
) -> Option<(ValueModel, Option<ValueModel>)>
    decreases segs.len() - at,
{
    if at < 0 || at >= segs.len() {
        Some((nv, Some(m)))
    } else {
        match m {
            ValueModel::Table(ps) => match table_lookup(ps, segs[at]) {
                Some(v) => match set_path_model(v, segs, at + 1, nv) {
                    Some((v2, old)) => Some(
                        (ValueModel::Table(table_replace(ps, segs[at], v2)), old),
                    ),
                    None => None,
                },
                None => if at == segs.len() - 1 {
                    Some((ValueModel::Table(ps.push((segs[at], nv))), None))
                } else {
                    match set_path_model(ValueModel::Table(Seq::empty()), segs, at + 1, nv) {
                        Some((v2, _)) => Some((ValueModel::Table(ps.push((segs[at], v2))), None)),
                        None => None,
                    }
                },
            },
            ValueModel::Array(es) => if all_digits(segs[at]) && digits_val(segs[at]) < es.len() {
                match set_path_model(es[digits_val(segs[at]) as int], segs, at + 1, nv) {
                    Some((v2, old)) => Some(
                        (ValueModel::Array(es.update(digits_val(segs[at]) as int, v2)), old),
                    ),
                    None => None,
                }
            } else {
                None
            },
            _ => None,
        }
    }
}

proof fn lemma_table_replace_index(
    ps: Seq<(Seq<char>, ValueModel)>,
    k: Seq<char>,
    i: int,
    v: ValueModel,
)
    requires
        0 <= i < ps.len(),
        forall|j: int| 0 <= j < i ==> ps[j].0 != k,
        ps[i].0 == k,
    ensures
        table_replace(ps, k, v) == ps.update(i, (k, v)),
    decreases ps.len(),
{
    if i > 0 {
        lemma_table_replace_index(ps.skip(1), k, i - 1, v);
        assert(table_replace(ps, k, v) =~= ps.update(i, (k, v)));
    } else {
        assert(table_replace(ps, k, v) =~= ps.update(i, (k, v)));
    }
}

/// Copies `src[from..to]` pairs onto the end of `out`.
fn copy_pairs(out: &mut Vec<(String, Value)>, src: &Vec<(String, Value)>, from: usize, to: usize)
    requires
        from <= to <= src@.len(),
    ensures
        final(out)@.len() == old(out)@.len() + (to - from),
        forall|j: int| 0 <= j < old(out)@.len() ==> final(out)@[j] == old(out)@[j],
        forall|j: int|
            old(out)@.len() <= j < final(out)@.len() ==> (#[trigger] final(out)@[j]).0@ == src@[j
                - old(out)@.len() + from].0@ && final(out)@[j].1@ == src@[j - old(out)@.len()
                + from].1@,
{
    let mut i = from;
    while i < to
        invariant
            from <= i <= to <= src@.len(),
            out@.len() == old(out)@.len() + (i - from),
            forall|j: int| 0 <= j < old(out)@.len() ==> out@[j] == old(out)@[j],
            forall|j: int|
                old(out)@.len() <= j < out@.len() ==> (#[trigger] out@[j]).0@ == src@[j - old(
                    out,
                )@.len() + from].0@ && out@[j].1@ == src@[j - old(out)@.len() + from].1@,
        decreases to - i,
    {
        let pair = &src[i];
        out.push((pair.0.clone(), duplicate(&pair.1)));
        i = i + 1;
    }
}

fn set_path_at(v: &Value, segs: &Vec<Vec<char>>, at: usize, nv: Value) -> (r: Result<
    (Value, Option<Value>),
    crate::error::StoreError,
>)
    requires
        at <= segs@.len(),
    ensures
        match set_path_model(v@, segs_model(segs@), at as int, nv@) {
            Some((m2, old)) => r matches Ok(p) && p.0@ == m2 && (match (p.1, old) {
                (Some(x), Some(y)) => x@ == y,
                (None, None) => true,
                _ => false,
            }),
            None => r matches Err(e) && e.chain() == seq![crate::error::StoreErrorKind::HeaderError],
        },
    decreases segs@.len() - at,
{
    if at >= segs.len() {
        return Ok((nv, Some(duplicate(v))));
    }
    let seg = &segs[at];
    match v {
        Value::Table(t) => {
            proof {
                lemma_pairs_model(t@);
            }
            match table_find_index(t, seg.as_slice()) {
                Some(idx) => {
                    let tlen = t.len();
                    proof {
                        lemma_table_lookup_index(pairs_model(t@), seg@, idx as int);
                    }
                    match set_path_at(&t[idx].1, segs, at + 1, nv) {
                        Ok((v2, oldv)) => {
                            let ghost v2m = v2@;
                            let mut out: Vec<(String, Value)> = Vec::new();
                            copy_pairs(&mut out, t, 0, idx);
                            out.push((chars_to_string_seg(seg), v2));
                            copy_pairs(&mut out, t, idx + 1, tlen);
                            proof {
                                lemma_table_replace_index(pairs_model(t@), seg@, idx as int, v2m);
                                lemma_pairs_model(out@);
                                assert(pairs_model(out@) =~= pairs_model(t@).update(
                                    idx as int,
                                    (seg@, v2m),
                                ));
                            }
                            Ok((Value::Table(out), oldv))
                        },
                        Err(e) => Err(e),
                    }
                },
                None => {
                    proof {
                        lemma_table_lookup_none(pairs_model(t@), seg@);
                    }
                    if at + 1 == segs.len() {
                        let mut out: Vec<(String, Value)> = Vec::new();
                        copy_pairs(&mut out, t, 0, t.len());
                        out.push((chars_to_string_seg(seg), nv));
                        proof {
                            lemma_pairs_model(out@);
                            assert(pairs_model(out@) =~= pairs_model(t@).push((seg@, nv@)));
                        }
                        Ok((Value::Table(out), None))
                    } else {
                        let empty = Value::Table(Vec::new());
                        proof {
                            assert(pairs_model(empty->Table_0@) =~= Seq::<
                                (Seq<char>, ValueModel),
                            >::empty());
                        }
                        match set_path_at(&empty, segs, at + 1, nv) {
                            Ok((v2, _oldv)) => {
                                let mut out: Vec<(String, Value)> = Vec::new();
                                copy_pairs(&mut out, t, 0, t.len());
                                let ghost v2m = v2@;
                                out.push((chars_to_string_seg(seg), v2));
                                proof {
                                    lemma_pairs_model(out@);
                                    assert(pairs_model(out@) =~= pairs_model(t@).push((seg@, v2m)));
                                }
                                Ok((Value::Table(out), None))
                            },
                            Err(e) => Err(e),
                        }
                    }
                },
            }
        },
        Value::Array(es) => {
            let n = es.len();
            proof {
                lemma_seq_models(es@);
            }
            let idx_opt = parse_index(seg.as_slice());
            match idx_opt {
                Some(idx) => {
                    if idx < n {
                        match set_path_at(&es[idx], segs, at + 1, nv) {
                            Ok((v2, oldv)) => {
                                let mut out: Vec<Value> = Vec::new();
                                let mut i: usize = 0;
                                while i < es.len()
                                    invariant
                                        i <= es@.len(),
                                        idx < es@.len(),
                                        out@.len() == if i <= idx {
                                            i as int
                                        } else {
                                            i - 1
                                        },
                                        forall|j: int|
                                            0 <= j < i && j < idx ==> value_model(out@[j])
                                                == value_model(es@[j]),
                                        forall|j: int|
                                            idx < j < i ==> value_model(out@[j - 1])
                                                == value_model(es@[j]),
                                    decreases es@.len() - i,
                                {
                                    if i != idx {
                                        out.push(duplicate(&es[i]));
                                    }
                                    i = i + 1;
                                }
                                let ghost v2m = v2@;
                                out.insert(idx, v2);
                                proof {
                                    lemma_seq_models(out@);
                                    assert(seq_models(out@) =~= seq_models(es@).update(
                                        idx as int,
                                        v2m,
                                    ));
                                }
                                Ok((Value::Array(out), oldv))
                            },
                            Err(e) => Err(e),
                        }
                    } else {
                        Err(crate::error::StoreError::new(crate::error::StoreErrorKind::HeaderError))
                    }
                },
                None => Err(
                    crate::error::StoreError::new(crate::error::StoreErrorKind::HeaderError),
                ),
            }
        },
        _ => Err(crate::error::StoreError::new(crate::error::StoreErrorKind::HeaderError)),
    }
}

/// An owned string holding a segment's characters.
fn chars_to_string_seg(seg: &Vec<char>) -> (r: String)
    ensures
        r@ == seg@,
{
    crate::chars::chars_to_string(seg.as_slice())
}

impl Value {
    /// Reads the value at a dotted path; a missing path yields "absent",
    /// a malformed path (an empty segment) an error.
    pub fn read<'a>(&'a self, path: &str) -> (r: Result<Option<&'a Value>, crate::error::StoreError>)
        ensures
            path_ok(path@) ==> match r {
                Ok(Some(x)) => read_path_model(self@, split_from(path@, 0), 0) == Some(x@),
                Ok(None) => read_path_model(self@, split_from(path@, 0), 0) is None,
                Err(_) => false,
            },
            !path_ok(path@) ==> (r matches Err(e) && e.chain() == seq![
                crate::error::StoreErrorKind::HeaderError,
            ]),
    {
        let cs = crate::chars::str_to_chars(path);
        let segs = split_from_exec(cs.as_slice(), 0);
        let mut i: usize = 0;
        while i < segs.len()
            invariant
                i <= segs@.len(),
                segs_model(segs@) == split_from(path@, 0),
                forall|j: int| 0 <= j < i ==> (#[trigger] segs_model(segs@)[j]).len() > 0,
            decreases segs@.len() - i,
        {
            if segs[i].len() == 0 {
                proof {
                    assert(segs_model(segs@)[i as int].len() == 0);
                    assert(!path_ok(path@));
                }
                return Err(crate::error::StoreError::new(crate::error::StoreErrorKind::HeaderError));
            }
            i = i + 1;
        }
        proof {
            assert forall|j: int| 0 <= j < split_from(path@, 0).len() implies (#[trigger] split_from(
                path@,
                0,
            )[j]).len() > 0 by {
                assert(segs_model(segs@)[j].len() > 0);
            }
        }
        match read_path_at(self, &segs, 0) {
            Some(x) => Ok(Some(x)),
            None => Ok(None),
        }
    }

    /// Writes a value at a dotted path, returning the replaced value if
    /// one was there. A malformed path or one that cannot be taken (a
    /// scalar in the middle, a bad array index) is an error, and the
    /// header is left unchanged.
    pub fn set(&mut self, path: &str, nv: Value) -> (r: Result<
        Option<Value>,
        crate::error::StoreError,
    >)
        ensures
            path_ok(path@) ==> match set_path_model(old(self)@, split_from(path@, 0), 0, nv@) {
                Some((m2, oldv)) => final(self)@ == m2 && (match (r, oldv) {
                    (Ok(Some(x)), Some(y)) => x@ == y,
                    (Ok(None), None) => true,
                    _ => false,
                }),
                None => final(self)@ == old(self)@ && (r matches Err(e) && e.chain() == seq![
                    crate::error::StoreErrorKind::HeaderError,
                ]),
            },
            !path_ok(path@) ==> final(self)@ == old(self)@ && (r matches Err(e) && e.chain()
                == seq![crate::error::StoreErrorKind::HeaderError]),
    {
        let cs = crate::chars::str_to_chars(path);
        let segs = split_from_exec(cs.as_slice(), 0);
        let mut i: usize = 0;
        while i < segs.len()
            invariant
                i <= segs@.len(),
                segs_model(segs@) == split_from(path@, 0),
                forall|j: int| 0 <= j < i ==> (#[trigger] segs_model(segs@)[j]).len() > 0,
            decreases segs@.len() - i,
        {
            if segs[i].len() == 0 {
                proof {
                    assert(segs_model(segs@)[i as int].len() == 0);
                    assert(!path_ok(path@));
                }
                return Err(crate::error::StoreError::new(crate::error::StoreErrorKind::HeaderError));
            }
            i = i + 1;
        }
        proof {
            assert forall|j: int| 0 <= j < split_from(path@, 0).len() implies (#[trigger] split_from(
                path@,
                0,
            )[j]).len() > 0 by {
                assert(segs_model(segs@)[j].len() > 0);
            }
        }
        match set_path_at(self, &segs, 0, nv) {
            Ok((newv, oldv)) => {
                *self = newv;
                Ok(oldv)
            },
            Err(e) => Err(e),
        }
    }
}

impl PartialEq for Value {
    fn eq(&self, other: &Value) -> (r: bool) {
        value_eq(self, other)
    }
}

impl vstd::std_specs::cmp::PartialEqSpecImpl for Value {
    open spec fn obeys_eq_spec() -> bool {
        true
    }

    open spec fn eq_spec(&self, other: &Value) -> bool {
        self@ == other@
    }
}


proof fn lemma_table_lookup_replace(ps: Seq<(Seq<char>, ValueModel)>, k: Seq<char>, v: ValueModel)
    requires
        table_lookup(ps, k) is Some,
    ensures
        table_lookup(table_replace(ps, k, v), k) == Some(v),
    decreases ps.len(),
{
    if ps.len() > 0 {
        if ps[0].0 == k {
            let w = seq![(k, v)] + ps.skip(1);
            assert(table_replace(ps, k, v) =~= w);
            assert(w[0] == (k, v));
        } else {
            lemma_table_lookup_replace(ps.skip(1), k, v);
            let w = seq![ps[0]] + table_replace(ps.skip(1), k, v);
            assert(table_replace(ps, k, v) =~= w);
            assert(w[0] == ps[0]);
            assert(w.skip(1) =~= table_replace(ps.skip(1), k, v));
        }
    }
}

proof fn lemma_table_lookup_pushed(ps: Seq<(Seq<char>, ValueModel)>, k: Seq<char>, v: ValueModel)
    requires
        table_lookup(ps, k) is None,
    ensures
        table_lookup(ps.push((k, v)), k) == Some(v),
    decreases ps.len(),
{
    if ps.len() == 0 {
        assert(ps.push((k, v))[0] == (k, v));
    } else {
        lemma_table_lookup_pushed(ps.skip(1), k, v);
        assert(ps.push((k, v)).skip(1) =~= ps.skip(1).push((k, v)));
        assert(ps.push((k, v))[0] == ps[0]);
    }
}

/// The coherence law of the dotted-path language: after a successful
/// write at a path, a read at the same path yields the written value.
pub proof fn lemma_read_after_set(m: ValueModel, segs: Seq<Seq<char>>, i: int, nv: ValueModel)
    requires
        0 <= i,
        set_path_model(m, segs, i, nv) is Some,
    ensures
        read_path_model(set_path_model(m, segs, i, nv)->Some_0.0, segs, i) == Some(nv),
    decreases segs.len() - i,
{
    if i >= segs.len() {
    } else {
        match m {
            ValueModel::Table(ps) => {
                match table_lookup(ps, segs[i]) {
                    Some(v) => {
                        lemma_read_after_set(v, segs, i + 1, nv);
                        let v2 = set_path_model(v, segs, i + 1, nv)->Some_0.0;
                        lemma_table_lookup_replace(ps, segs[i], v2);
                    },
                    None => {
                        if i == segs.len() - 1 {
                            lemma_table_lookup_pushed(ps, segs[i], nv);
                        } else {
                            lemma_read_after_set(
                                ValueModel::Table(Seq::empty()),
                                segs,
                                i + 1,
                                nv,
                            );
                            let v2 = set_path_model(
                                ValueModel::Table(Seq::empty()),
                                segs,
                                i + 1,
                                nv,
                            )->Some_0.0;
                            lemma_table_lookup_pushed(ps, segs[i], v2);
                        }
                    },
                }
            },
            ValueModel::Array(es) => {
                let idx = digits_val(segs[i]) as int;
                lemma_read_after_set(es[idx], segs, i + 1, nv);
            },
            _ => {},
        }
    }
}

} // verus!
