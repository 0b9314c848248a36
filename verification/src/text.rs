//! The on-disk text of an entry.
//!
//! An entry file is two `---` fence lines around a header document,
//! followed by raw content:
//!
//! ```text
//! ---
//! [imag]
//! version = "0.2.0"
//! ---
//! arbitrary content
//! ```
//!
//! The header document is a line grammar: `key = value` lines for the
//! current table, and `[section.subsection]` lines opening nested tables,
//! with each section's key lines before its subsections. Values are
//! double-quoted strings with escapes, decimal integers, float and
//! date-time lexemes, booleans, and `[v1, v2]` arrays.
//!
//! The serializer is specified exactly by [`ser_entry_text`]; the parser
//! by [`parse_entry_text`]; the round-trip law by
//! [`lemma_entry_round_trip`] in the proofs module.

use vstd::prelude::*;

use crate::chars::{is_digit, digit_val, is_key_char};
use crate::value::{Value, ValueModel, wf_float_lexeme, wf_datetime_lexeme, wf_key, wf_value,
    digits_val, value_model, seq_models, pairs_model, lemma_seq_models, lemma_pairs_model};

verus! {

broadcast use vstd::std_specs::vec::axiom_vec_decreases_to_view, vstd::std_specs::vec::axiom_vec_index_decreases, vstd::seq::axiom_seq_index_decreases, vstd::seq::axiom_seq_subrange_decreases;

// ------------------------------------------------------------------
// Serializer, spec level
// ------------------------------------------------------------------
/// The escape of one string character.
pub open spec fn esc_char(c: char) -> Seq<char> {
    if c == '"' {
        seq!['\\', '"']
    } else if c == '\\' {
        seq!['\\', '\\']
    } else if c == '\n' {
        seq!['\\', 'n']
    } else if c == '\t' {
        seq!['\\', 't']
    } else if c == '\r' {
        seq!['\\', 'r']
    } else {
        seq![c]
    }
}

/// The escaped body of a quoted string.
pub open spec fn escape(s: Seq<char>) -> Seq<char>
    decreases s.len(),
{
    if s.len() == 0 {
        Seq::empty()
    } else {
        esc_char(s[0]) + escape(s.skip(1))
    }
}

/// The digit character for one digit value.
pub open spec fn digit_char(d: nat) -> char {
    if d == 0 {
        '0'
    } else if d == 1 {
        '1'
    } else if d == 2 {
        '2'
    } else if d == 3 {
        '3'
    } else if d == 4 {
        '4'
    } else if d == 5 {
        '5'
    } else if d == 6 {
        '6'
    } else if d == 7 {
        '7'
    } else if d == 8 {
        '8'
    } else {
        '9'
    }
}

/// Decimal digits of a natural number, most significant first.
pub open spec fn digits_of(n: nat) -> Seq<char>
    decreases n,
{
    if n < 10 {
        seq![digit_char(n)]
    } else {
        digits_of(n / 10).push(digit_char(n % 10))
    }
}

/// The decimal lexeme of an integer.
pub open spec fn int_lexeme(i: int) -> Seq<char> {
    if i < 0 {
        seq!['-'] + digits_of((-i) as nat)
    } else {
        digits_of(i as nat)
    }
}

/// The serialized characters of a scalar or array value. A table has no
/// inline form and yields nothing; tables are serialized as sections.
pub open spec fn ser_value(m: ValueModel) -> Seq<char>
    decreases m, 1int,
{
    match m {
        ValueModel::Text(s) => seq!['"'] + escape(s) + seq!['"'],
        ValueModel::Integer(i) => int_lexeme(i),
        ValueModel::Float(s) => s,
        ValueModel::Boolean(b) => if b {
            seq!['t', 'r', 'u', 'e']
        } else {
            seq!['f', 'a', 'l', 's', 'e']
        },
        ValueModel::Datetime(s) => s,
        ValueModel::Array(es) => seq!['['] + ser_elems(es) + seq![']'],
        ValueModel::Table(_) => Seq::empty(),
    }
}

/// Array elements, separated by `, `.
pub open spec fn ser_elems(es: Seq<ValueModel>) -> Seq<char>
    decreases es, 0int,
{
    if es.len() == 0 {
        Seq::empty()
    } else if es.len() == 1 {
        ser_value(es[0])
    } else {
        ser_value(es[0]) + seq![',', ' '] + ser_elems(es.skip(1))
    }
}

/// One `key = value` line.
pub open spec fn key_line(k: Seq<char>, m: ValueModel) -> Seq<char> {
    k + seq![' ', '=', ' '] + ser_value(m)
}

/// The dotted section name of a path.
pub open spec fn join_dots(path: Seq<Seq<char>>) -> Seq<char>
    decreases path.len(),
{
    if path.len() == 0 {
        Seq::empty()
    } else if path.len() == 1 {
        path[0]
    } else {
        path[0] + seq!['.'] + join_dots(path.skip(1))
    }
}

/// A `[section.subsection]` line.
pub open spec fn section_line(path: Seq<Seq<char>>) -> Seq<char> {
    seq!['['] + join_dots(path) + seq![']']
}

/// The `key = value` lines of a table's non-table pairs, in order.
pub open spec fn ser_scalar_lines(ps: Seq<(Seq<char>, ValueModel)>) -> Seq<Seq<char>>
    decreases ps, 0int,
{
    if ps.len() == 0 {
        Seq::empty()
    } else {
        (if ps[0].1 is Table {
            Seq::empty()
        } else {
            seq![key_line(ps[0].0, ps[0].1)]
        }) + ser_scalar_lines(ps.skip(1))
    }
}

/// The section blocks of a table's table pairs, in order.
pub open spec fn ser_table_lines(ps: Seq<(Seq<char>, ValueModel)>, path: Seq<Seq<char>>) -> Seq<
    Seq<char>,
>
    decreases ps, 1int,
{
    if ps.len() == 0 {
        Seq::empty()
    } else {
        (match ps[0].1 {
            ValueModel::Table(inner) => seq![section_line(path.push(ps[0].0))] + ser_body_lines(
                inner,
                path.push(ps[0].0),
            ),
            _ => Seq::empty(),
        }) + ser_table_lines(ps.skip(1), path)
    }
}

/// The lines of a table's body at a section path: its key lines, then
/// its section blocks.
pub open spec fn ser_body_lines(ps: Seq<(Seq<char>, ValueModel)>, path: Seq<Seq<char>>) -> Seq<
    Seq<char>,
>
    decreases ps, 2int,
{
    ser_scalar_lines(ps) + ser_table_lines(ps, path)
}

/// Lines joined back into text, each terminated by a newline.
pub open spec fn concat_lines(lines: Seq<Seq<char>>) -> Seq<char>
    decreases lines.len(),
{
    if lines.len() == 0 {
        Seq::empty()
    } else {
        lines[0] + seq!['\n'] + concat_lines(lines.skip(1))
    }
}

/// The header document text of a table.
pub open spec fn header_text(ps: Seq<(Seq<char>, ValueModel)>) -> Seq<char> {
    concat_lines(ser_body_lines(ps, Seq::empty()))
}

/// The fence line with its newline.
pub open spec fn fence() -> Seq<char> {
    seq!['-', '-', '-', '\n']
}

/// The full text of an entry: fences around the header document,
/// followed by the raw content.
pub open spec fn ser_entry_text(ps: Seq<(Seq<char>, ValueModel)>, content: Seq<char>) -> Seq<char> {
    fence() + header_text(ps) + fence() + content
}

/// The text of a whole entry from its header value; a header that is not
/// a table has no pairs to write.
pub open spec fn entry_text_of(m: ValueModel, content: Seq<char>) -> Seq<char> {
    match m {
        ValueModel::Table(ps) => ser_entry_text(ps, content),
        _ => ser_entry_text(Seq::empty(), content),
    }
}

// ------------------------------------------------------------------
// Serializer, executable
// ------------------------------------------------------------------
proof fn lemma_concat_lines_append(a: Seq<Seq<char>>, b: Seq<Seq<char>>)
    ensures
        concat_lines(a + b) == concat_lines(a) + concat_lines(b),
    decreases a.len(),
{
    if a.len() == 0 {
        assert(a + b =~= b);
        assert(concat_lines(a) + concat_lines(b) =~= concat_lines(b));
    } else {
        lemma_concat_lines_append(a.skip(1), b);
        assert((a + b).skip(1) =~= a.skip(1) + b);
        assert(concat_lines(a + b) =~= concat_lines(a) + concat_lines(b));
    }
}

proof fn lemma_scalar_lines_append(a: Seq<(Seq<char>, ValueModel)>, b: Seq<(Seq<char>, ValueModel)>)
    ensures
        ser_scalar_lines(a + b) == ser_scalar_lines(a) + ser_scalar_lines(b),
    decreases a.len(),
{
    if a.len() == 0 {
        assert(a + b =~= b);
        assert(ser_scalar_lines(a) + ser_scalar_lines(b) =~= ser_scalar_lines(b));
    } else {
        lemma_scalar_lines_append(a.skip(1), b);
        assert((a + b).skip(1) =~= a.skip(1) + b);
        assert((a + b)[0] == a[0]);
        assert(ser_scalar_lines(a + b) =~= ser_scalar_lines(a) + ser_scalar_lines(b));
    }
}

proof fn lemma_table_lines_append(
    a: Seq<(Seq<char>, ValueModel)>,
    b: Seq<(Seq<char>, ValueModel)>,
    path: Seq<Seq<char>>,
)
    ensures
        ser_table_lines(a + b, path) == ser_table_lines(a, path) + ser_table_lines(b, path),
    decreases a.len(),
{
    if a.len() == 0 {
        assert(a + b =~= b);
        assert(ser_table_lines(a, path) + ser_table_lines(b, path) =~= ser_table_lines(b, path));
    } else {
        lemma_table_lines_append(a.skip(1), b, path);
        assert((a + b).skip(1) =~= a.skip(1) + b);
        assert((a + b)[0] == a[0]);
        assert(ser_table_lines(a + b, path) =~= ser_table_lines(a, path) + ser_table_lines(
            b,
            path,
        ));
    }
}

/// Appends the escaped form of a string body.
fn push_escape(out: &mut Vec<char>, s: &str)
    ensures
        final(out)@ == old(out)@ + escape(s@),
{
    let n = s.unicode_len();
    let mut i: usize = 0;
    while i < n
        invariant
            n == s@.len(),
            i <= n,
            out@ == old(out)@ + escape(s@.take(i as int)),
        decreases n - i,
    {
        let c = s.get_char(i);
        if c == '"' {
            out.push('\\');
            out.push('"');
        } else if c == '\\' {
            out.push('\\');
            out.push('\\');
        } else if c == '\n' {
            out.push('\\');
            out.push('n');
        } else if c == '\t' {
            out.push('\\');
            out.push('t');
        } else if c == '\r' {
            out.push('\\');
            out.push('r');
        } else {
            out.push(c);
        }
        i = i + 1;
        proof {
            lemma_escape_take_step(s@, i as int);
            assert(out@ =~= old(out)@ + escape(s@.take(i as int)));
        }
    }
    proof {
        assert(s@.take(n as int) =~= s@);
    }
}

proof fn lemma_escape_take_step(s: Seq<char>, i: int)
    requires
        1 <= i <= s.len(),
    ensures
        escape(s.take(i)) == escape(s.take(i - 1)) + esc_char(s[i - 1]),
    decreases i,
{
    if i == 1 {
        assert(s.take(1).skip(1) =~= Seq::<char>::empty());
        assert(s.take(0) =~= Seq::<char>::empty());
        assert(escape(Seq::<char>::empty()) == Seq::<char>::empty());
        assert(s.take(1)[0] == s[0]);
        assert(escape(s.take(1)) =~= escape(s.take(0)) + esc_char(s[0]));
    } else {
        lemma_escape_take_step(s.skip(1), i - 1);
        assert(s.take(i).skip(1) =~= s.skip(1).take(i - 1));
        assert(s.take(i - 1).skip(1) =~= s.skip(1).take(i - 2));
        assert(s.take(i)[0] == s[0]);
        assert(s.take(i - 1)[0] == s[0]);
        assert(escape(s.take(i)) =~= escape(s.take(i - 1)) + esc_char(s[i - 1]));
    }
}

/// Appends the decimal digits of `n`.
fn push_digits(out: &mut Vec<char>, n: u64)
    ensures
        final(out)@ == old(out)@ + digits_of(n as nat),
    decreases n,
{
    if n < 10 {
        let d = n as u8;
        let c: char = if d == 0 {
            '0'
        } else if d == 1 {
            '1'
        } else if d == 2 {
            '2'
        } else if d == 3 {
            '3'
        } else if d == 4 {
            '4'
        } else if d == 5 {
            '5'
        } else if d == 6 {
            '6'
        } else if d == 7 {
            '7'
        } else if d == 8 {
            '8'
        } else {
            '9'
        };
        out.push(c);
        proof {
            assert(out@ =~= old(out)@ + digits_of(n as nat));
        }
    } else {
        push_digits(out, n / 10);
        let d = (n % 10) as u8;
        let c: char = if d == 0 {
            '0'
        } else if d == 1 {
            '1'
        } else if d == 2 {
            '2'
        } else if d == 3 {
            '3'
        } else if d == 4 {
            '4'
        } else if d == 5 {
            '5'
        } else if d == 6 {
            '6'
        } else if d == 7 {
            '7'
        } else if d == 8 {
            '8'
        } else {
            '9'
        };
        out.push(c);
        proof {
            assert(out@ =~= old(out)@ + digits_of(n as nat));
        }
    }
}

/// Appends the decimal lexeme of `i`.
fn push_int(out: &mut Vec<char>, i: i64)
    ensures
        final(out)@ == old(out)@ + int_lexeme(i as int),
{
    if i < 0 {
        out.push('-');
        let m: u64 = if i == i64::MIN {
            9223372036854775808u64
        } else {
            (-i) as u64
        };
        push_digits(out, m);
        proof {
            assert(out@ =~= old(out)@ + int_lexeme(i as int));
        }
    } else {
        push_digits(out, i as u64);
    }
}

/// Appends the serialized characters of a scalar or array value.
#[verifier::loop_isolation(false)]
pub fn push_value(out: &mut Vec<char>, v: &Value)
    ensures
        final(out)@ == old(out)@ + ser_value(v@),
    decreases v,
{
    match v {
        Value::Text(s) => {
            out.push('"');
            push_escape(out, s.as_str());
            out.push('"');
            proof {
                assert(out@ =~= old(out)@ + ser_value(v@));
            }
        },
        Value::Integer(i) => {
            push_int(out, *i);
        },
        Value::Float(s) => {
            crate::chars::extend_chars(out, s.as_str());
        },
        Value::Boolean(b) => {
            if *b {
                out.push('t');
                out.push('r');
                out.push('u');
                out.push('e');
            } else {
                out.push('f');
                out.push('a');
                out.push('l');
                out.push('s');
                out.push('e');
            }
            proof {
                assert(out@ =~= old(out)@ + ser_value(v@));
            }
        },
        Value::Datetime(s) => {
            crate::chars::extend_chars(out, s.as_str());
        },
        Value::Array(es) => {
            proof {
                lemma_seq_models(es@);
            }
            out.push('[');
            let n = es.len();
            let mut i: usize = 0;
            while i < n
                invariant
                    n == es@.len(),
                    i <= n,
                    out@ == old(out)@ + seq!['['] + ser_elems_prefix(seq_models(es@), i as int),
                decreases n - i,
            {
                if i > 0 {
                    out.push(',');
                    out.push(' ');
                }
                push_value(out, &es[i]);
                i = i + 1;
                proof {
                    lemma_ser_elems_prefix_step(seq_models(es@), i as int);
                    assert(out@ =~= old(out)@ + seq!['['] + ser_elems_prefix(
                        seq_models(es@),
                        i as int,
                    ));
                }
            }
            out.push(']');
            proof {
                lemma_ser_elems_prefix_full(seq_models(es@));
                assert(out@ =~= old(out)@ + ser_value(v@));
            }
        },
        Value::Table(_) => {
            proof {
                assert(out@ =~= old(out)@ + ser_value(v@));
            }
        },
    }
}

/// The first `i` array elements as serialized text (with separators).
pub open spec fn ser_elems_prefix(es: Seq<ValueModel>, i: int) -> Seq<char>
    decreases i,
{
    if i <= 0 {
        Seq::empty()
    } else if i == 1 {
        ser_value(es[0])
    } else {
        ser_elems_prefix(es, i - 1) + seq![',', ' '] + ser_value(es[i - 1])
    }
}

proof fn lemma_ser_elems_prefix_step(es: Seq<ValueModel>, i: int)
    requires
        1 <= i <= es.len(),
    ensures
        ser_elems_prefix(es, i) == if i == 1 {
            ser_value(es[0])
        } else {
            ser_elems_prefix(es, i - 1) + seq![',', ' '] + ser_value(es[i - 1])
        },
{
}

proof fn lemma_ser_elems_prefix_full(es: Seq<ValueModel>)
    ensures
        ser_elems_prefix(es, es.len() as int) == ser_elems(es),
    decreases es.len(),
{
    if es.len() > 1 {
        lemma_ser_elems_prefix_full(es.skip(1));
        lemma_ser_elems_prefix_shift(es, es.len() as int);
    }
}

/// The `a.b.` prefix of a section name under path `a.b`.
pub open spec fn dotted_prefix(path: Seq<Seq<char>>) -> Seq<char>
    decreases path.len(),
{
    if path.len() == 0 {
        Seq::empty()
    } else {
        path[0] + seq!['.'] + dotted_prefix(path.skip(1))
    }
}

proof fn lemma_join_push(path: Seq<Seq<char>>, k: Seq<char>)
    ensures
        join_dots(path.push(k)) == dotted_prefix(path) + k,
    decreases path.len(),
{
    if path.len() == 0 {
        assert(path.push(k).len() == 1);
        assert(path.push(k)[0] == k);
        assert(join_dots(path.push(k)) =~= dotted_prefix(path) + k);
    } else {
        lemma_join_push(path.skip(1), k);
        assert(path.push(k).skip(1) =~= path.skip(1).push(k));
        assert(path.push(k)[0] == path[0]);
        assert(join_dots(path.push(k)) =~= dotted_prefix(path) + k);
    }
}

proof fn lemma_dotted_prefix_push(path: Seq<Seq<char>>, k: Seq<char>)
    ensures
        dotted_prefix(path.push(k)) == dotted_prefix(path) + k + seq!['.'],
    decreases path.len(),
{
    if path.len() == 0 {
        assert(path.push(k)[0] == k);
        assert(path.push(k).skip(1) =~= Seq::<Seq<char>>::empty());
        assert(dotted_prefix(Seq::<Seq<char>>::empty()) == Seq::<char>::empty());
        assert(dotted_prefix(path.push(k)) =~= dotted_prefix(path) + k + seq!['.']);
    } else {
        lemma_dotted_prefix_push(path.skip(1), k);
        assert(path.push(k).skip(1) =~= path.skip(1).push(k));
        assert(path.push(k)[0] == path[0]);
        assert(dotted_prefix(path.push(k)) =~= dotted_prefix(path) + k + seq!['.']);
    }
}

/// Appends a copy of `src`.
fn copy_chars(out: &mut Vec<char>, src: &Vec<char>)
    ensures
        final(out)@ == old(out)@ + src@,
{
    let mut i: usize = 0;
    while i < src.len()
        invariant
            i <= src@.len(),
            out@ == old(out)@ + src@.take(i as int),
        decreases src@.len() - i,
    {
        out.push(src[i]);
        i = i + 1;
        proof {
            assert(out@ =~= old(out)@ + src@.take(i as int));
        }
    }
    proof {
        assert(out@ =~= old(out)@ + src@);
    }
}

/// Writes a table body: its `key = value` lines, then a section block
/// for each nested table. `prefix` is the dotted prefix of the current
/// section path.
#[verifier::loop_isolation(false)]
#[verifier::rlimit(60)]
fn push_body(
    out: &mut Vec<char>,
    t: &Vec<(String, Value)>,
    prefix: &Vec<char>,
    Ghost(path): Ghost<Seq<Seq<char>>>,
)
    requires
        prefix@ == dotted_prefix(path),
    ensures
        final(out)@ == old(out)@ + concat_lines(ser_body_lines(pairs_model(t@), path)),
    decreases t,
{
    proof {
        lemma_pairs_model(t@);
    }
    let ghost pm = pairs_model(t@);
    let n = t.len();
    let mut i: usize = 0;
    while i < n
        invariant
            n == t@.len(),
            i <= n,
            out@ == old(out)@ + concat_lines(ser_scalar_lines(pm.take(i as int))),
        decreases n - i,
    {
        let pair = &t[i];
        let is_table = match &pair.1 {
            Value::Table(_) => true,
            _ => false,
        };
        if !is_table {
            crate::chars::extend_chars(out, pair.0.as_str());
            out.push(' ');
            out.push('=');
            out.push(' ');
            push_value(out, &pair.1);
            out.push('\n');
        }
        i = i + 1;
        proof {
            assert(pm.take(i as int) =~= pm.take(i - 1) + seq![pm[i - 1]]);
            lemma_scalar_lines_append(pm.take(i - 1), seq![pm[i - 1]]);
            assert(ser_scalar_lines(seq![pm[i - 1]].skip(1)) == Seq::<Seq<char>>::empty());
            lemma_concat_lines_append(
                ser_scalar_lines(pm.take(i - 1)),
                ser_scalar_lines(seq![pm[i - 1]]),
            );
            if pm[i - 1].1 is Table {
                assert(ser_scalar_lines(seq![pm[i - 1]]) =~= Seq::<Seq<char>>::empty());
                assert(out@ =~= old(out)@ + concat_lines(ser_scalar_lines(pm.take(i as int))));
            } else {
                assert(ser_scalar_lines(seq![pm[i - 1]]) =~= seq![
                    key_line(pm[i - 1].0, pm[i - 1].1),
                ]);
                assert(seq![key_line(pm[i - 1].0, pm[i - 1].1)].skip(1) =~= Seq::<
                    Seq<char>,
                >::empty());
                assert(concat_lines(Seq::<Seq<char>>::empty()) == Seq::<char>::empty());
                assert(concat_lines(seq![key_line(pm[i - 1].0, pm[i - 1].1)]) =~= key_line(
                    pm[i - 1].0,
                    pm[i - 1].1,
                ) + seq!['\n']);
                assert(out@ =~= old(out)@ + concat_lines(ser_scalar_lines(pm.take(i as int))));
            }
        }
    }
    proof {
        assert(pm.take(n as int) =~= pm);
    }
    let ghost after_scalars = out@;
    let mut i: usize = 0;
    while i < n
        invariant
            n == t@.len(),
            i <= n,
            out@ == after_scalars + concat_lines(ser_table_lines(pm.take(i as int), path)),
        decreases n - i,
    {
        let pair = &t[i];
        match &pair.1 {
            Value::Table(inner) => {
                out.push('[');
                copy_chars(out, prefix);
                crate::chars::extend_chars(out, pair.0.as_str());
                out.push(']');
                out.push('\n');
                let mut prefix2 = Vec::new();
                copy_chars(&mut prefix2, prefix);
                crate::chars::extend_chars(&mut prefix2, pair.0.as_str());
                prefix2.push('.');
                proof {
                    lemma_dotted_prefix_push(path, pm[i as int].0);
                    assert(prefix2@ =~= dotted_prefix(path.push(pm[i as int].0)));
                    lemma_join_push(path, pm[i as int].0);
                }
                push_body(out, inner, &prefix2, Ghost(path.push(pm[i as int].0)));
            },
            _ => {},
        }
        i = i + 1;
        proof {
            assert(pm.take(i as int) =~= pm.take(i - 1) + seq![pm[i - 1]]);
            lemma_table_lines_append(pm.take(i - 1), seq![pm[i - 1]], path);
            assert(ser_table_lines(seq![pm[i - 1]].skip(1), path) == Seq::<Seq<char>>::empty());
            lemma_concat_lines_append(
                ser_table_lines(pm.take(i - 1), path),
                ser_table_lines(seq![pm[i - 1]], path),
            );
            match pm[i - 1].1 {
                ValueModel::Table(innerm) => {
                    assert(ser_table_lines(seq![pm[i - 1]], path) =~= seq![
                        section_line(path.push(pm[i - 1].0)),
                    ] + ser_body_lines(innerm, path.push(pm[i - 1].0)));
                    lemma_concat_lines_append(
                        seq![section_line(path.push(pm[i - 1].0))],
                        ser_body_lines(innerm, path.push(pm[i - 1].0)),
                    );
                    assert(seq![section_line(path.push(pm[i - 1].0))].skip(1) =~= Seq::<
                        Seq<char>,
                    >::empty());
                    assert(concat_lines(Seq::<Seq<char>>::empty()) == Seq::<char>::empty());
                    assert(concat_lines(seq![section_line(path.push(pm[i - 1].0))])
                        =~= section_line(path.push(pm[i - 1].0)) + seq!['\n']);
                    assert(out@ =~= after_scalars + concat_lines(
                        ser_table_lines(pm.take(i as int), path),
                    ));
                },
                _ => {
                    assert(ser_table_lines(seq![pm[i - 1]], path) =~= Seq::<Seq<char>>::empty());
                    assert(out@ =~= after_scalars + concat_lines(
                        ser_table_lines(pm.take(i as int), path),
                    ));
                },
            }
        }
    }
    proof {
        assert(pm.take(n as int) =~= pm);
        lemma_concat_lines_append(ser_scalar_lines(pm), ser_table_lines(pm, path));
        assert(out@ =~= old(out)@ + concat_lines(ser_body_lines(pm, path)));
    }
}

/// The serialized text of an entry's header and content.
pub fn entry_to_text(header: &Value, content: &str) -> (r: String)
    ensures
        r@ == entry_text_of(header@, content@),
{
    let mut out: Vec<char> = Vec::new();
    out.push('-');
    out.push('-');
    out.push('-');
    out.push('\n');
    match header {
        Value::Table(t) => {
            let prefix: Vec<char> = Vec::new();
            proof {
                assert(prefix@ =~= dotted_prefix(Seq::<Seq<char>>::empty()));
            }
            push_body(&mut out, t, &prefix, Ghost(Seq::empty()));
        },
        _ => {
            proof {
                assert(ser_scalar_lines(Seq::<(Seq<char>, ValueModel)>::empty()) == Seq::<
                    Seq<char>,
                >::empty());
                assert(ser_table_lines(
                    Seq::<(Seq<char>, ValueModel)>::empty(),
                    Seq::<Seq<char>>::empty(),
                ) == Seq::<Seq<char>>::empty());
                assert(ser_body_lines(
                    Seq::<(Seq<char>, ValueModel)>::empty(),
                    Seq::<Seq<char>>::empty(),
                ) =~= Seq::<Seq<char>>::empty());
                assert(header_text(Seq::empty()) == Seq::<char>::empty());
            }
        },
    }
    out.push('-');
    out.push('-');
    out.push('-');
    out.push('\n');
    crate::chars::extend_chars(&mut out, content);
    proof {
        assert(out@ =~= entry_text_of(header@, content@));
    }
    crate::chars::chars_to_string(out.as_slice())
}

proof fn lemma_ser_elems_prefix_shift(es: Seq<ValueModel>, i: int)
    requires
        2 <= i <= es.len(),
    ensures
        ser_elems_prefix(es, i) == ser_value(es[0]) + seq![',', ' '] + ser_elems_prefix(
            es.skip(1),
            i - 1,
        ),
    decreases i,
{
    if i == 2 {
        assert(es.skip(1)[0] == es[1]);
        assert(ser_elems_prefix(es, 1) == ser_value(es[0]));
        assert(ser_elems_prefix(es.skip(1), 1) == ser_value(es.skip(1)[0]));
        assert(ser_elems_prefix(es, 2) =~= ser_value(es[0]) + seq![',', ' '] + ser_elems_prefix(
            es.skip(1),
            1,
        ));
    } else {
        lemma_ser_elems_prefix_shift(es, i - 1);
        assert(es.skip(1)[i - 2] == es[i - 1]);
        assert(ser_elems_prefix(es, i) =~= ser_value(es[0]) + seq![',', ' ']
            + ser_elems_prefix(es.skip(1), i - 1));
    }
}


// ------------------------------------------------------------------
// Parser, spec level
// ------------------------------------------------------------------
/// The character named by an escape code.
pub open spec fn unesc(c: char) -> Option<char> {
    if c == '"' {
        Some('"')
    } else if c == '\\' {
        Some('\\')
    } else if c == 'n' {
        Some('\n')
    } else if c == 't' {
        Some('\t')
    } else if c == 'r' {
        Some('\r')
    } else {
        None
    }
}

/// The body of a quoted string from position `i` up to its closing
/// quote; yields the unescaped text and the position after the quote.
pub open spec fn parse_string_body(s: Seq<char>, i: int) -> Option<(Seq<char>, int)>
    decreases s.len() - i,
{
    if i < 0 || i >= s.len() {
        None
    } else if s[i] == '"' {
        Some((Seq::empty(), i + 1))
    } else if s[i] == '\\' {
        if i + 1 < s.len() {
            match unesc(s[i + 1]) {
                Some(c) => match parse_string_body(s, i + 2) {
                    Some((t, j)) => Some((seq![c] + t, j)),
                    None => None,
                },
                None => None,
            }
        } else {
            None
        }
    } else if s[i] == '\n' {
        None
    } else {
        match parse_string_body(s, i + 1) {
            Some((t, j)) => Some((seq![s[i]] + t, j)),
            None => None,
        }
    }
}

/// First position at or after `i` that holds no digit.
pub open spec fn scan_digits_from(s: Seq<char>, i: int) -> int
    decreases s.len() - i,
{
    if i < 0 || i >= s.len() || !is_digit(s[i]) {
        i
    } else {
        scan_digits_from(s, i + 1)
    }
}

/// A date-time lexeme begins at `i`.
pub open spec fn is_datetime_at(s: Seq<char>, i: int) -> bool {
    &&& 0 <= i && i + 19 <= s.len()
    &&& is_digit(s[i]) && is_digit(s[i + 1]) && is_digit(s[i + 2]) && is_digit(s[i + 3])
    &&& s[i + 4] == '-' && is_digit(s[i + 5]) && is_digit(s[i + 6])
    &&& s[i + 7] == '-' && is_digit(s[i + 8]) && is_digit(s[i + 9])
    &&& s[i + 10] == 'T' && is_digit(s[i + 11]) && is_digit(s[i + 12])
    &&& s[i + 13] == ':' && is_digit(s[i + 14]) && is_digit(s[i + 15])
    &&& s[i + 16] == ':' && is_digit(s[i + 17]) && is_digit(s[i + 18])
}

/// An integer or float starting at `i` (which holds `-` or a digit).
pub open spec fn parse_number(s: Seq<char>, i: int) -> Option<(ValueModel, int)> {
    let neg = s[i] == '-';
    let d0 = if neg {
        i + 1
    } else {
        i
    };
    let j = scan_digits_from(s, d0);
    if j == d0 {
        None
    } else if j < s.len() && s[j] == '.' {
        let k = scan_digits_from(s, j + 1);
        if k == j + 1 {
            None
        } else {
            Some((ValueModel::Float(s.subrange(i, k)), k))
        }
    } else {
        let v = digits_val(s.subrange(d0, j));
        if neg {
            if v > 0x8000000000000000 {
                None
            } else {
                Some((ValueModel::Integer(-(v as int)), j))
            }
        } else {
            if v > i64::MAX as nat {
                None
            } else {
                Some((ValueModel::Integer(v as int), j))
            }
        }
    }
}

/// A value starting at position `i`; yields its model and end position.
pub open spec fn parse_value_at(s: Seq<char>, i: int) -> Option<(ValueModel, int)>
    decreases s.len() - i, 0int,
{
    if i < 0 || i >= s.len() {
        None
    } else if s[i] == '"' {
        match parse_string_body(s, i + 1) {
            Some((t, j)) => Some((ValueModel::Text(t), j)),
            None => None,
        }
    } else if s[i] == 't' {
        if i + 4 <= s.len() && s[i + 1] == 'r' && s[i + 2] == 'u' && s[i + 3] == 'e' {
            Some((ValueModel::Boolean(true), i + 4))
        } else {
            None
        }
    } else if s[i] == 'f' {
        if i + 5 <= s.len() && s[i + 1] == 'a' && s[i + 2] == 'l' && s[i + 3] == 's' && s[i + 4]
            == 'e' {
            Some((ValueModel::Boolean(false), i + 5))
        } else {
            None
        }
    } else if s[i] == '[' {
        if i + 1 < s.len() && s[i + 1] == ']' {
            Some((ValueModel::Array(Seq::empty()), i + 2))
        } else {
            match parse_elems_at(s, i + 1) {
                Some((es, j)) => Some((ValueModel::Array(es), j)),
                None => None,
            }
        }
    } else if s[i] == '-' || is_digit(s[i]) {
        if is_datetime_at(s, i) {
            let end = if i + 19 < s.len() && s[i + 19] == 'Z' {
                i + 20
            } else {
                i + 19
            };
            Some((ValueModel::Datetime(s.subrange(i, end)), end))
        } else {
            parse_number(s, i)
        }
    } else {
        None
    }
}

/// Array elements from position `i` up to the closing bracket.
pub open spec fn parse_elems_at(s: Seq<char>, i: int) -> Option<(Seq<ValueModel>, int)>
    decreases s.len() - i, 1int,
{
    if i < 0 || i >= s.len() {
        None
    } else {
        match parse_value_at(s, i) {
            None => None,
            Some((v, j)) => if j <= i {
                None
            } else if j < s.len() && s[j] == ']' {
                Some((seq![v], j + 1))
            } else if s.len() - j >= 2 && s[j] == ',' && s[j + 1] == ' ' {
                match parse_elems_at(s, j + 2) {
                    Some((es, k)) => Some((seq![v] + es, k)),
                    None => None,
                }
            } else {
                None
            },
        }
    }
}

/// First position at or after `i` that holds no bare-key character.
pub open spec fn scan_key_from(s: Seq<char>, i: int) -> int
    decreases s.len() - i,
{
    if i < 0 || i >= s.len() || !is_key_char(s[i]) {
        i
    } else {
        scan_key_from(s, i + 1)
    }
}

/// A whole `key = value` line.
pub open spec fn parse_kv_line(line: Seq<char>) -> Option<(Seq<char>, ValueModel)> {
    let k = scan_key_from(line, 0);
    if k == 0 {
        None
    } else if k + 3 <= line.len() && line[k] == ' ' && line[k + 1] == '=' && line[k + 2] == ' ' {
        match parse_value_at(line, k + 3) {
            Some((v, end)) => if end == line.len() {
                Some((line.take(k), v))
            } else {
                None
            },
            None => None,
        }
    } else {
        None
    }
}

/// All names along a section path are bare keys.
pub open spec fn wf_section_path(sp: Seq<Seq<char>>) -> bool {
    forall|i: int| 0 <= i < sp.len() ==> wf_key(#[trigger] sp[i])
}

/// A whole `[section.subsection]` line.
pub open spec fn parse_section_line(line: Seq<char>) -> Option<Seq<Seq<char>>> {
    if line.len() >= 3 && line[0] == '[' && line[line.len() - 1] == ']' {
        let sp = crate::value::split_from(line.subrange(1, line.len() - 1), 0);
        if wf_section_path(sp) {
            Some(sp)
        } else {
            None
        }
    } else {
        None
    }
}

/// `sp` names a direct subsection of `path`.
pub open spec fn is_child_of(sp: Seq<Seq<char>>, path: Seq<Seq<char>>) -> bool {
    sp.len() == path.len() + 1 && sp.take(path.len() as int) == path
}

/// The `key = value` lines from line `i` on, up to the first section
/// line or the end; blank lines are skipped.
pub open spec fn parse_scalars_l(lines: Seq<Seq<char>>, i: int) -> Option<
    (Seq<(Seq<char>, ValueModel)>, int),
>
    decreases lines.len() - i, 0int,
{
    if i < 0 || i >= lines.len() {
        Some((Seq::empty(), i))
    } else if lines[i].len() == 0 {
        parse_scalars_l(lines, i + 1)
    } else if lines[i][0] == '[' {
        Some((Seq::empty(), i))
    } else {
        match parse_kv_line(lines[i]) {
            Some((k, v)) => match parse_scalars_l(lines, i + 1) {
                Some((ps, j)) => Some((seq![(k, v)] + ps, j)),
                None => None,
            },
            None => None,
        }
    }
}

/// The subsections of `path` from line `i` on: each section line that
/// names a direct child opens a nested table parsed recursively; a
/// section line that does not stops this level.
pub open spec fn parse_sections_l(
    lines: Seq<Seq<char>>,
    i: int,
    path: Seq<Seq<char>>,
) -> Option<(Seq<(Seq<char>, ValueModel)>, int)>
    decreases lines.len() - i, 2int,
{
    if i < 0 || i >= lines.len() {
        Some((Seq::empty(), i))
    } else if lines[i].len() == 0 {
        parse_sections_l(lines, i + 1, path)
    } else if lines[i][0] == '[' {
        match parse_section_line(lines[i]) {
            None => None,
            Some(sp) => if is_child_of(sp, path) {
                match parse_body_l(lines, i + 1, sp) {
                    Some((inner, j)) => if i + 1 <= j && j <= lines.len() {
                        match parse_sections_l(lines, j, path) {
                            Some((ps, k)) => Some(
                                (seq![(sp.last(), ValueModel::Table(inner))] + ps, k),
                            ),
                            None => None,
                        }
                    } else {
                        None
                    },
                    None => None,
                }
            } else {
                Some((Seq::empty(), i))
            },
        }
    } else {
        None
    }
}

/// A table body: key lines, then child sections.
pub open spec fn parse_body_l(lines: Seq<Seq<char>>, i: int, path: Seq<Seq<char>>) -> Option<
    (Seq<(Seq<char>, ValueModel)>, int),
>
    decreases lines.len() - i, 3int,
{
    match parse_scalars_l(lines, i) {
        None => None,
        Some((ps1, j)) => if i <= j && j <= lines.len() {
            match parse_sections_l(lines, j, path) {
                Some((ps2, k)) => Some((ps1 + ps2, k)),
                None => None,
            }
        } else {
            None
        },
    }
}

/// The whole header document; every line must be consumed.
pub open spec fn parse_header_lines(lines: Seq<Seq<char>>) -> Option<
    Seq<(Seq<char>, ValueModel)>,
> {
    match parse_body_l(lines, 0, Seq::empty()) {
        Some((ps, j)) => if j == lines.len() {
            Some(ps)
        } else {
            None
        },
        None => None,
    }
}

/// Text split at newlines, from position `i`. A final line without a
/// terminating newline still counts.
pub open spec fn split_lines_from(s: Seq<char>, i: int) -> Seq<Seq<char>>
    decreases s.len() - i,
{
    if i < 0 || i >= s.len() {
        Seq::empty()
    } else if s[i] == '\n' {
        seq![Seq::<char>::empty()] + split_lines_from(s, i + 1)
    } else {
        let rest = split_lines_from(s, i + 1);
        if rest.len() == 0 {
            seq![seq![s[i]]]
        } else {
            seq![seq![s[i]] + rest[0]] + rest.skip(1)
        }
    }
}

/// The position of the next fence line (`---` alone on a line) at or
/// after `j`; `at_start` says whether `j` begins a line.
pub open spec fn scan_fence(s: Seq<char>, j: int, at_start: bool) -> Option<int>
    decreases s.len() - j,
{
    if j < 0 || j + 4 > s.len() {
        None
    } else if at_start && s[j] == '-' && s[j + 1] == '-' && s[j + 2] == '-' && s[j + 3] == '\n' {
        Some(j)
    } else {
        scan_fence(s, j + 1, s[j] == '\n')
    }
}

/// The outcome of reading an entry's text.
#[verifier::ext_equal]
pub enum ParseOutcome {
    /// Header pairs and raw content.
    Parsed(Seq<(Seq<char>, ValueModel)>, Seq<char>),
    /// The fences are absent or malformed.
    BadFrame,
    /// The header text is not a valid document.
    BadHeader,
}

/// Reading a whole entry: an opening fence, the header document up to
/// the closing fence, and everything after it as content.
pub open spec fn parse_entry_text(s: Seq<char>) -> ParseOutcome {
    if s.len() < 4 || !(s[0] == '-' && s[1] == '-' && s[2] == '-' && s[3] == '\n') {
        ParseOutcome::BadFrame
    } else {
        match scan_fence(s, 4, true) {
            None => ParseOutcome::BadFrame,
            Some(j) => match parse_header_lines(split_lines_from(s.subrange(4, j), 0)) {
                Some(ps) => ParseOutcome::Parsed(ps, s.skip(j + 4)),
                None => ParseOutcome::BadHeader,
            },
        }
    }
}


// ------------------------------------------------------------------
// Parser, executable
// ------------------------------------------------------------------
proof fn lemma_scan_digits_char(s: Seq<char>, i: int, r: int)
    requires
        0 <= i <= r <= s.len(),
        forall|t: int| i <= t < r ==> is_digit(#[trigger] s[t]),
        r == s.len() || !is_digit(s[r]),
    ensures
        scan_digits_from(s, i) == r,
    decreases r - i,
{
    if i < r {
        lemma_scan_digits_char(s, i + 1, r);
    }
}

proof fn lemma_scan_key_char(s: Seq<char>, i: int, r: int)
    requires
        0 <= i <= r <= s.len(),
        forall|t: int| i <= t < r ==> is_key_char(#[trigger] s[t]),
        r == s.len() || !is_key_char(s[r]),
    ensures
        scan_key_from(s, i) == r,
    decreases r - i,
{
    if i < r {
        lemma_scan_key_char(s, i + 1, r);
    }
}

fn ex_scan_digits(s: &[char], from: usize) -> (r: usize)
    requires
        from <= s@.len(),
    ensures
        from <= r <= s@.len(),
        r as int == scan_digits_from(s@, from as int),
        forall|t: int| from <= t < r ==> is_digit(#[trigger] s@[t]),
        r < s@.len() ==> !is_digit(s@[r as int]),
{
    let mut i = from;
    while i < s.len()
        invariant
            from <= i <= s@.len(),
            forall|t: int| from <= t < i ==> is_digit(#[trigger] s@[t]),
        decreases s@.len() - i,
    {
        if !crate::chars::digit_check(s[i]) {
            proof {
                lemma_scan_digits_char(s@, from as int, i as int);
            }
            return i;
        }
        i = i + 1;
    }
    proof {
        lemma_scan_digits_char(s@, from as int, i as int);
    }
    i
}

fn ex_scan_key(s: &[char], from: usize) -> (r: usize)
    requires
        from <= s@.len(),
    ensures
        from <= r <= s@.len(),
        r as int == scan_key_from(s@, from as int),
{
    let mut i = from;
    while i < s.len()
        invariant
            from <= i <= s@.len(),
            forall|t: int| from <= t < i ==> is_key_char(#[trigger] s@[t]),
        decreases s@.len() - i,
    {
        if !crate::chars::key_char_check(s[i]) {
            proof {
                lemma_scan_key_char(s@, from as int, i as int);
            }
            return i;
        }
        i = i + 1;
    }
    proof {
        lemma_scan_key_char(s@, from as int, i as int);
    }
    i
}

fn ex_parse_string_body(s: &[char], i: usize) -> (r: Option<(Vec<char>, usize)>)
    requires
        i <= s@.len(),
    ensures
        match parse_string_body(s@, i as int) {
            Some((t, j)) => r matches Some(p) && p.0@ == t && p.1 as int == j && p.1 <= s@.len(),
            None => r is None,
        },
    decreases s@.len() - i,
{
    if i >= s.len() {
        return None;
    }
    let c = s[i];
    if c == '"' {
        Some((Vec::new(), i + 1))
    } else if c == '\\' {
        if i + 1 < s.len() {
            let code = s[i + 1];
            let un: Option<char> = if code == '"' {
                Some('"')
            } else if code == '\\' {
                Some('\\')
            } else if code == 'n' {
                Some('\n')
            } else if code == 't' {
                Some('\t')
            } else if code == 'r' {
                Some('\r')
            } else {
                None
            };
            match un {
                Some(u) => match ex_parse_string_body(s, i + 2) {
                    Some((mut t, j)) => {
                        let ghost t0 = t@;
                        t.insert(0, u);
                        proof {
                            assert(t@ =~= seq![u] + t0);
                        }
                        Some((t, j))
                    },
                    None => None,
                },
                None => None,
            }
        } else {
            None
        }
    } else if c == '\n' {
        None
    } else {
        match ex_parse_string_body(s, i + 1) {
            Some((mut t, j)) => {
                let ghost t0 = t@;
                t.insert(0, c);
                proof {
                    assert(t@ =~= seq![c] + t0);
                }
                Some((t, j))
            },
            None => None,
        }
    }
}

fn ex_digits_value(s: &[char], from: usize, to: usize) -> (r: Option<u64>)
    requires
        from <= to <= s@.len(),
        forall|t: int| from <= t < to ==> is_digit(#[trigger] s@[t]),
    ensures
        match r {
            Some(v) => v as nat == digits_val(s@.subrange(from as int, to as int)),
            None => digits_val(s@.subrange(from as int, to as int)) > u64::MAX as nat,
        },
{
    let ghost whole = s@.subrange(from as int, to as int);
    let mut acc: u128 = 0;
    let mut i = from;
    while i < to
        invariant
            from <= i <= to <= s@.len(),
            forall|t: int| from <= t < to ==> is_digit(#[trigger] s@[t]),
            whole == s@.subrange(from as int, to as int),
            acc as nat == digits_val(whole.take(i - from)),
            acc <= u64::MAX as u128,
        decreases to - i,
    {
        let c = s[i];
        let d: u128 = (c as u32 as u128) - 48;
        proof {
            assert(is_digit(s@[i as int]));
        }
        acc = acc * 10 + d;
        proof {
            assert(whole.take(i - from + 1).drop_last() =~= whole.take(i - from));
            assert(whole.take(i - from + 1).last() == s@[i as int]);
        }
        i = i + 1;
        if acc > u64::MAX as u128 {
            proof {
                crate::value::lemma_digits_val_prefix(whole, i - from);
            }
            return None;
        }
    }
    proof {
        assert(whole.take(to - from) =~= whole);
    }
    Some(acc as u64)
}

fn ex_is_datetime_at(s: &[char], i: usize) -> (r: bool)
    requires
        i <= s@.len(),
    ensures
        r == is_datetime_at(s@, i as int),
{
    if s.len() - i < 19 {
        return false;
    }
    crate::chars::digit_check(s[i]) && crate::chars::digit_check(s[i + 1])
        && crate::chars::digit_check(s[i + 2]) && crate::chars::digit_check(s[i + 3]) && s[i + 4]
        == '-' && crate::chars::digit_check(s[i + 5]) && crate::chars::digit_check(s[i + 6]) && s[i
        + 7] == '-' && crate::chars::digit_check(s[i + 8]) && crate::chars::digit_check(s[i + 9])
        && s[i + 10] == 'T' && crate::chars::digit_check(s[i + 11]) && crate::chars::digit_check(
        s[i + 12],
    ) && s[i + 13] == ':' && crate::chars::digit_check(s[i + 14]) && crate::chars::digit_check(
        s[i + 15],
    ) && s[i + 16] == ':' && crate::chars::digit_check(s[i + 17]) && crate::chars::digit_check(
        s[i + 18],
    )
}

fn ex_parse_number(s: &[char], i: usize) -> (r: Option<(Value, usize)>)
    requires
        i < s@.len(),
    ensures
        match parse_number(s@, i as int) {
            Some((m, j)) => r matches Some(p) && p.0@ == m && p.1 as int == j && p.1 <= s@.len(),
            None => r is None,
        },
{
    let neg = s[i] == '-';
    let d0 = if neg {
        i + 1
    } else {
        i
    };
    if d0 > s.len() {
        proof {
            assert(false);
        }
        return None;
    }
    let j = ex_scan_digits(s, d0);
    if j == d0 {
        return None;
    }
    if j < s.len() && s[j] == '.' {
        let k = ex_scan_digits(s, j + 1);
        if k == j + 1 {
            None
        } else {
            Some((Value::Float(crate::chars::chars_range_to_string(s, i, k)), k))
        }
    } else {
        match ex_digits_value(s, d0, j) {
            None => None,
            Some(v) => {
                if neg {
                    if v > 0x8000000000000000u64 {
                        None
                    } else {
                        let iv: i64 = if v == 0x8000000000000000u64 {
                            i64::MIN
                        } else {
                            -(v as i64)
                        };
                        Some((Value::Integer(iv), j))
                    }
                } else {
                    if v > i64::MAX as u64 {
                        None
                    } else {
                        Some((Value::Integer(v as i64), j))
                    }
                }
            },
        }
    }
}

fn ex_parse_value(s: &[char], i: usize) -> (r: Option<(Value, usize)>)
    requires
        i <= s@.len(),
    ensures
        match parse_value_at(s@, i as int) {
            Some((m, j)) => r matches Some(p) && p.0@ == m && p.1 as int == j && p.1 <= s@.len(),
            None => r is None,
        },
    decreases s@.len() - i, 0int,
{
    if i >= s.len() {
        return None;
    }
    let c = s[i];
    if c == '"' {
        match ex_parse_string_body(s, i + 1) {
            Some((t, j)) => Some((Value::Text(crate::chars::chars_to_string(t.as_slice())), j)),
            None => None,
        }
    } else if c == 't' {
        if s.len() - i >= 4 && s[i + 1] == 'r' && s[i + 2] == 'u' && s[i + 3] == 'e' {
            Some((Value::Boolean(true), i + 4))
        } else {
            None
        }
    } else if c == 'f' {
        if s.len() - i >= 5 && s[i + 1] == 'a' && s[i + 2] == 'l' && s[i + 3] == 's' && s[i + 4]
            == 'e' {
            Some((Value::Boolean(false), i + 5))
        } else {
            None
        }
    } else if c == '[' {
        if i + 1 < s.len() && s[i + 1] == ']' {
            Some((Value::Array(Vec::new()), i + 2))
        } else {
            match ex_parse_elems(s, i + 1) {
                Some((es, j)) => Some((Value::Array(es), j)),
                None => None,
            }
        }
    } else if c == '-' || crate::chars::digit_check(c) {
        if ex_is_datetime_at(s, i) {
            let end = if i + 19 < s.len() && s[i + 19] == 'Z' {
                i + 20
            } else {
                i + 19
            };
            Some((Value::Datetime(crate::chars::chars_range_to_string(s, i, end)), end))
        } else {
            ex_parse_number(s, i)
        }
    } else {
        None
    }
}

fn ex_parse_elems(s: &[char], i: usize) -> (r: Option<(Vec<Value>, usize)>)
    requires
        i <= s@.len(),
    ensures
        match parse_elems_at(s@, i as int) {
            Some((es, j)) => r matches Some(p) && seq_models(p.0@) == es && p.1 as int == j && p.1
                <= s@.len(),
            None => r is None,
        },
    decreases s@.len() - i, 1int,
{
    if i >= s.len() {
        return None;
    }
    match ex_parse_value(s, i) {
        None => None,
        Some((v, j)) => {
            if j <= i {
                return None;
            }
            if j < s.len() && s[j] == ']' {
                let mut es: Vec<Value> = Vec::new();
                let ghost vm = v@;
                es.push(v);
                proof {
                    lemma_seq_models(es@);
                    assert(seq_models(es@) =~= seq![vm]);
                }
                Some((es, j + 1))
            } else if s.len() - j >= 2 && s[j] == ',' && s[j + 1] == ' ' {
                match ex_parse_elems(s, j + 2) {
                    Some((mut es, k)) => {
                        let ghost esm = seq_models(es@);
                        let ghost vm = v@;
                        let ghost es0 = es@;
                        es.insert(0, v);
                        proof {
                            lemma_seq_models(es@);
                            lemma_seq_models(es0);
                            assert(seq_models(es@) =~= seq![vm] + esm);
                        }
                        Some((es, k))
                    },
                    None => None,
                }
            } else {
                None
            }
        },
    }
}

fn ex_parse_kv_line(line: &[char]) -> (r: Option<(String, Value)>)
    ensures
        match parse_kv_line(line@) {
            Some((k, v)) => r matches Some(p) && p.0@ == k && p.1@ == v,
            None => r is None,
        },
{
    let k = ex_scan_key(line, 0);
    if k == 0 {
        return None;
    }
    if line.len() - k >= 3 && line[k] == ' ' && line[k + 1] == '=' && line[k + 2] == ' ' {
        match ex_parse_value(line, k + 3) {
            Some((v, end)) => {
                if end == line.len() {
                    Some((crate::chars::chars_range_to_string(line, 0, k), v))
                } else {
                    None
                }
            },
            None => None,
        }
    } else {
        None
    }
}

fn ex_wf_key(seg: &[char]) -> (r: bool)
    ensures
        r == wf_key(seg@),
{
    if seg.len() == 0 {
        return false;
    }
    let mut i: usize = 0;
    while i < seg.len()
        invariant
            i <= seg@.len(),
            forall|j: int| 0 <= j < i ==> is_key_char(#[trigger] seg@[j]),
        decreases seg@.len() - i,
    {
        if !crate::chars::key_char_check(seg[i]) {
            return false;
        }
        i = i + 1;
    }
    true
}

fn ex_parse_section_line(line: &[char]) -> (r: Option<Vec<Vec<char>>>)
    ensures
        match parse_section_line(line@) {
            Some(sp) => r matches Some(v) && crate::value::segs_model(v@) == sp,
            None => r is None,
        },
{
    if line.len() >= 3 && line[0] == '[' && line[line.len() - 1] == ']' {
        let inner = crate::chars::copy_range(line, 1, line.len() - 1);
        let sp = crate::value::split_from_exec(inner.as_slice(), 0);
        let mut ok = true;
        let mut i: usize = 0;
        while i < sp.len()
            invariant
                i <= sp@.len(),
                crate::value::segs_model(sp@) == crate::value::split_from(inner@, 0),
                inner@ == line@.subrange(1, line@.len() - 1),
                forall|j: int|
                    0 <= j < i ==> wf_key(#[trigger] crate::value::segs_model(sp@)[j]),
            decreases sp@.len() - i,
        {
            if !ex_wf_key(sp[i].as_slice()) {
                proof {
                    assert(!wf_key(crate::value::segs_model(sp@)[i as int]));
                }
                return None;
            }
            i = i + 1;
        }
        proof {
            assert(wf_section_path(crate::value::segs_model(sp@)));
        }
        Some(sp)
    } else {
        None
    }
}

fn ex_parse_scalars(lines: &Vec<Vec<char>>, i: usize) -> (r: Option<(Vec<(String, Value)>, usize)>)
    requires
        i <= lines@.len(),
    ensures
        match parse_scalars_l(crate::value::segs_model(lines@), i as int) {
            Some((ps, j)) => r matches Some(p) && pairs_model(p.0@) == ps && p.1 as int == j && p.1
                <= lines@.len(),
            None => r is None,
        },
    decreases lines@.len() - i, 0int,
{
    if i >= lines.len() {
        return Some((Vec::new(), i));
    }
    let line = &lines[i];
    if line.len() == 0 {
        return ex_parse_scalars(lines, i + 1);
    }
    if line[0] == '[' {
        proof {
            lemma_pairs_model(Seq::<(String, Value)>::empty());
            assert(pairs_model(Seq::<(String, Value)>::empty()) =~= Seq::<
                (Seq<char>, ValueModel),
            >::empty());
        }
        return Some((Vec::new(), i));
    }
    match ex_parse_kv_line(line.as_slice()) {
        Some((k, v)) => match ex_parse_scalars(lines, i + 1) {
            Some((mut ps, j)) => {
                let ghost psm = pairs_model(ps@);
                let ghost km = k@;
                let ghost vm = v@;
                let ghost ps0 = ps@;
                ps.insert(0, (k, v));
                proof {
                    lemma_pairs_model(ps@);
                    lemma_pairs_model(ps0);
                    assert(pairs_model(ps@) =~= seq![(km, vm)] + psm);
                }
                Some((ps, j))
            },
            None => None,
        },
        None => None,
    }
}

fn ex_is_child_of(sp: &Vec<Vec<char>>, path: &Vec<Vec<char>>) -> (r: bool)
    ensures
        r == is_child_of(crate::value::segs_model(sp@), crate::value::segs_model(path@)),
{
    proof {
        assert(crate::value::segs_model(sp@).len() == sp@.len());
        assert(crate::value::segs_model(path@).len() == path@.len());
    }
    if sp.len() == 0 || sp.len() - 1 != path.len() {
        return false;
    }
    let mut i: usize = 0;
    while i < path.len()
        invariant
            sp@.len() == path@.len() + 1,
            i <= path@.len(),
            forall|j: int| 0 <= j < i ==> sp@[j]@ == path@[j]@,
        decreases path@.len() - i,
    {
        if !crate::chars::chars_eq(sp[i].as_slice(), path[i].as_slice()) {
            proof {
                let spm = crate::value::segs_model(sp@);
                let pm = crate::value::segs_model(path@);
                assert(spm.take(pm.len() as int)[i as int] != pm[i as int]);
            }
            return false;
        }
        i = i + 1;
    }
    proof {
        let spm = crate::value::segs_model(sp@);
        let pm = crate::value::segs_model(path@);
        assert(spm.take(pm.len() as int) =~= pm);
    }
    true
}

fn ex_parse_sections(lines: &Vec<Vec<char>>, i: usize, path: &Vec<Vec<char>>) -> (r: Option<
    (Vec<(String, Value)>, usize),
>)
    requires
        i <= lines@.len(),
    ensures
        match parse_sections_l(
            crate::value::segs_model(lines@),
            i as int,
            crate::value::segs_model(path@),
        ) {
            Some((ps, j)) => r matches Some(p) && pairs_model(p.0@) == ps && p.1 as int == j && p.1
                <= lines@.len(),
            None => r is None,
        },
    decreases lines@.len() - i, 2int,
{
    if i >= lines.len() {
        return Some((Vec::new(), i));
    }
    let line = &lines[i];
    if line.len() == 0 {
        return ex_parse_sections(lines, i + 1, path);
    }
    if line[0] == '[' {
        match ex_parse_section_line(line.as_slice()) {
            None => None,
            Some(sp) => {
                if ex_is_child_of(&sp, path) {
                    match ex_parse_body(lines, i + 1, &sp) {
                        Some((inner, j)) => {
                            if i + 1 <= j && j <= lines.len() {
                                match ex_parse_sections(lines, j, path) {
                                    Some((mut ps, k)) => {
                                        let ghost psm = pairs_model(ps@);
                                        let ghost innerm = pairs_model(inner@);
                                        let ghost spm = crate::value::segs_model(sp@);
                                        let key = crate::chars::chars_to_string(
                                            sp[sp.len() - 1].as_slice(),
                                        );
                                        let ghost ps0 = ps@;
                                        proof {
                                            assert(key@ == spm.last());
                                        }
                                        ps.insert(0, (key, Value::Table(inner)));
                                        proof {
                                            lemma_pairs_model(ps@);
                                            lemma_pairs_model(ps0);
                                            assert(pairs_model(ps@) =~= seq![
                                                (spm.last(), ValueModel::Table(innerm)),
                                            ] + psm);
                                        }
                                        Some((ps, k))
                                    },
                                    None => None,
                                }
                            } else {
                                None
                            }
                        },
                        None => None,
                    }
                } else {
                    proof {
                        lemma_pairs_model(Seq::<(String, Value)>::empty());
                        assert(pairs_model(Seq::<(String, Value)>::empty()) =~= Seq::<
                            (Seq<char>, ValueModel),
                        >::empty());
                    }
                    Some((Vec::new(), i))
                }
            },
        }
    } else {
        None
    }
}

fn ex_parse_body(lines: &Vec<Vec<char>>, i: usize, path: &Vec<Vec<char>>) -> (r: Option<
    (Vec<(String, Value)>, usize),
>)
    requires
        i <= lines@.len(),
    ensures
        match parse_body_l(
            crate::value::segs_model(lines@),
            i as int,
            crate::value::segs_model(path@),
        ) {
            Some((ps, j)) => r matches Some(p) && pairs_model(p.0@) == ps && p.1 as int == j && p.1
                <= lines@.len(),
            None => r is None,
        },
    decreases lines@.len() - i, 3int,
{
    match ex_parse_scalars(lines, i) {
        None => None,
        Some((mut ps1, j)) => {
            if j < i {
                return None;
            }
            match ex_parse_sections(lines, j, path) {
                Some((ps2, k)) => {
                    let ghost a = ps1@;
                    let ghost b = ps2@;
                    let mut ps2v = ps2;
                    ps1.append(&mut ps2v);
                    proof {
                        lemma_pairs_model(ps1@);
                        lemma_pairs_model(a);
                        lemma_pairs_model(b);
                        assert(ps1@ =~= a + b);
                        assert(pairs_model(ps1@) =~= pairs_model(a) + pairs_model(b));
                    }
                    Some((ps1, k))
                },
                None => None,
            }
        },
    }
}

fn ex_split_lines(cs: &[char], i: usize) -> (r: Vec<Vec<char>>)
    requires
        i <= cs@.len(),
    ensures
        crate::value::segs_model(r@) == split_lines_from(cs@, i as int),
    decreases cs@.len() - i,
{
    if i >= cs.len() {
        let r: Vec<Vec<char>> = Vec::new();
        proof {
            assert(crate::value::segs_model(r@) =~= split_lines_from(cs@, i as int));
        }
        r
    } else if cs[i] == '\n' {
        let mut rest = ex_split_lines(cs, i + 1);
        rest.insert(0, Vec::new());
        proof {
            assert(crate::value::segs_model(rest@) =~= seq![Seq::<char>::empty()]
                + split_lines_from(cs@, i as int + 1));
        }
        rest
    } else {
        let mut rest = ex_split_lines(cs, i + 1);
        let ghost sp = split_lines_from(cs@, i as int + 1);
        if rest.len() == 0 {
            let mut one: Vec<char> = Vec::new();
            one.push(cs[i]);
            rest.push(one);
            proof {
                assert(sp.len() == 0);
                assert(crate::value::segs_model(rest@) =~= seq![seq![cs@[i as int]]]);
            }
            rest
        } else {
            let mut first = rest.remove(0);
            proof {
                assert(first@ == sp[0]);
            }
            first.insert(0, cs[i]);
            rest.insert(0, first);
            proof {
                assert(first@ =~= seq![cs@[i as int]] + sp[0]);
                assert(crate::value::segs_model(rest@) =~= seq![seq![cs@[i as int]] + sp[0]]
                    + sp.skip(1));
            }
            rest
        }
    }
}

fn ex_scan_fence(s: &[char], j0: usize, b0: bool) -> (r: Option<usize>)
    requires
        j0 <= s@.len(),
    ensures
        match scan_fence(s@, j0 as int, b0) {
            Some(x) => r matches Some(y) && y as int == x && y + 4 <= s@.len() && y >= j0,
            None => r is None,
        },
{
    let mut j = j0;
    let mut at = b0;
    loop
        invariant
            j0 <= j <= s@.len(),
            scan_fence(s@, j0 as int, b0) == scan_fence(s@, j as int, at),
        decreases s@.len() - j,
    {
        if s.len() < 4 || j > s.len() - 4 {
            return None;
        }
        if at && s[j] == '-' && s[j + 1] == '-' && s[j + 2] == '-' && s[j + 3] == '\n' {
            return Some(j);
        }
        at = s[j] == '\n';
        j = j + 1;
    }
}

/// Reads a whole entry text into its header value and content.
///
/// Malformed fences are a `MalformedEntry` error; a bad header document
/// is a `HeaderError`.
pub fn parse_entry(s: &str) -> (r: Result<(Value, String), crate::error::StoreError>)
    ensures
        match parse_entry_text(s@) {
            ParseOutcome::Parsed(ps, c) => r matches Ok(p) && p.0@ == ValueModel::Table(ps)
                && p.1@ == c,
            ParseOutcome::BadFrame => r matches Err(e) && e.chain() == seq![
                crate::error::StoreErrorKind::MalformedEntry,
            ],
            ParseOutcome::BadHeader => r matches Err(e) && e.chain() == seq![
                crate::error::StoreErrorKind::HeaderError,
            ],
        },
{
    let cs = crate::chars::str_to_chars(s);
    if cs.len() < 4 || !(cs[0] == '-' && cs[1] == '-' && cs[2] == '-' && cs[3] == '\n') {
        return Err(crate::error::StoreError::new(crate::error::StoreErrorKind::MalformedEntry));
    }
    match ex_scan_fence(cs.as_slice(), 4, true) {
        None => Err(crate::error::StoreError::new(crate::error::StoreErrorKind::MalformedEntry)),
        Some(j) => {
            let region = crate::chars::copy_range(cs.as_slice(), 4, j);
            let lines = ex_split_lines(region.as_slice(), 0);
            let path: Vec<Vec<char>> = Vec::new();
            proof {
                assert(crate::value::segs_model(path@) =~= Seq::<Seq<char>>::empty());
            }
            match ex_parse_body(&lines, 0, &path) {
                Some((ps, j2)) => {
                    if j2 == lines.len() {
                        let content = crate::chars::chars_range_to_string(
                            cs.as_slice(),
                            j + 4,
                            cs.len(),
                        );
                        proof {
                            assert(cs@.subrange(j + 4, cs@.len() as int) =~= s@.skip(j + 4));
                        }
                        Ok((Value::Table(ps), content))
                    } else {
                        Err(
                            crate::error::StoreError::new(
                                crate::error::StoreErrorKind::HeaderError,
                            ),
                        )
                    }
                },
                None => Err(
                    crate::error::StoreError::new(crate::error::StoreErrorKind::HeaderError),
                ),
            }
        },
    }
}


// ------------------------------------------------------------------
// Round trip: serialized values read back as themselves
// ------------------------------------------------------------------
/// What may follow a serialized value: nothing, a separator, or a
/// closing bracket.
pub open spec fn term_ok(rest: Seq<char>) -> bool {
    rest.len() == 0 || rest[0] == ',' || rest[0] == ']'
}

/// With `s.skip(i) == x + rest`, the character at offset `k` inside
/// `x` is `x[k]`.
proof fn lemma_char_at(s: Seq<char>, i: int, x: Seq<char>, rest: Seq<char>, k: int)
    requires
        0 <= i <= s.len(),
        s.skip(i) == x + rest,
        0 <= k < x.len(),
    ensures
        s[i + k] == x[k],
        i + k < s.len(),
{
    assert(s.skip(i).len() == s.len() - i);
    assert(s.skip(i)[k] == s[i + k]);
    assert((x + rest)[k] == x[k]);
}

/// With `s.skip(i) == x + rest`, the suffix from offset `k` inside
/// `x` is `x.skip(k) + rest`.
proof fn lemma_suffix_at(s: Seq<char>, i: int, x: Seq<char>, rest: Seq<char>, k: int)
    requires
        0 <= i <= s.len(),
        s.skip(i) == x + rest,
        0 <= k <= x.len(),
    ensures
        s.skip(i + k) == x.skip(k) + rest,
        i + k <= s.len(),
{
    assert(s.skip(i).len() == s.len() - i);
    assert(s.skip(i + k) =~= s.skip(i).skip(k));
    assert((x + rest).skip(k) =~= x.skip(k) + rest);
}

/// With `s.skip(i) == x + rest`, the first character after `x`, if
/// any, is `rest[0]`.
proof fn lemma_after_at(s: Seq<char>, i: int, x: Seq<char>, rest: Seq<char>)
    requires
        0 <= i <= s.len(),
        s.skip(i) == x + rest,
    ensures
        i + x.len() + rest.len() == s.len(),
        rest.len() > 0 ==> s[i + x.len()] == rest[0],
{
    assert(s.skip(i).len() == s.len() - i);
    if rest.len() > 0 {
        assert(s.skip(i)[x.len() as int] == s[i + x.len()]);
        assert((x + rest)[x.len() as int] == rest[0]);
    }
}

proof fn lemma_digits_of_shape(n: nat)
    ensures
        digits_of(n).len() >= 1,
        forall|i: int| 0 <= i < digits_of(n).len() ==> is_digit(#[trigger] digits_of(n)[i]),
        digits_val(digits_of(n)) == n,
    decreases n,
{
    if n < 10 {
        assert(digits_of(n) =~= seq![digit_char(n)]);
        assert(is_digit(digit_char(n)));
        assert(digits_of(n).drop_last() =~= Seq::<char>::empty());
        assert(digits_val(Seq::<char>::empty()) == 0);
        assert(digits_of(n).last() == digit_char(n));
        assert(digit_val(digit_char(n)) == n);
    } else {
        lemma_digits_of_shape(n / 10);
        let d = digits_of(n / 10).push(digit_char(n % 10));
        assert(digits_of(n) =~= d);
        assert(is_digit(digit_char(n % 10)));
        assert forall|i: int| 0 <= i < d.len() implies is_digit(#[trigger] d[i]) by {
            if i < d.len() - 1 {
                assert(d[i] == digits_of(n / 10)[i]);
            }
        }
        assert(d.drop_last() =~= digits_of(n / 10));
        assert(d.last() == digit_char(n % 10));
        assert(digit_val(digit_char(n % 10)) == n % 10);
        assert(digits_val(d) == (n / 10) * 10 + n % 10);
        assert((n / 10) * 10 + n % 10 == n);
    }
}

proof fn lemma_scan_digits_run(s: Seq<char>, i: int, d: Seq<char>, rest: Seq<char>)
    requires
        0 <= i <= s.len(),
        s.skip(i) == d + rest,
        forall|t: int| 0 <= t < d.len() ==> is_digit(#[trigger] d[t]),
        rest.len() == 0 || !is_digit(rest[0]),
    ensures
        scan_digits_from(s, i) == i + d.len(),
    decreases d.len(),
{
    if d.len() == 0 {
        lemma_after_at(s, i, d, rest);
        if i < s.len() {
            assert(s[i] == rest[0]);
        }
    } else {
        lemma_char_at(s, i, d, rest, 0);
        assert(is_digit(s[i]));
        lemma_suffix_at(s, i, d, rest, 1);
        assert(forall|t: int| 0 <= t < d.skip(1).len() ==> is_digit(#[trigger] d.skip(1)[t]));
        lemma_scan_digits_run(s, i + 1, d.skip(1), rest);
    }
}

proof fn lemma_parse_string_at(s: Seq<char>, i: int, t: Seq<char>, rest: Seq<char>)
    requires
        0 <= i <= s.len(),
        s.skip(i) == escape(t) + seq!['"'] + rest,
    ensures
        parse_string_body(s, i) == Some((t, i + escape(t).len() + 1)),
    decreases t.len(),
{
    let whole = escape(t) + seq!['"'];
    assert(s.skip(i) =~= whole + rest);
    if t.len() == 0 {
        assert(escape(t) =~= Seq::<char>::empty());
        assert(whole =~= seq!['"']);
        lemma_char_at(s, i, whole, rest, 0);
        assert(s[i] == '"');
    } else {
        let e0 = esc_char(t[0]);
        assert(escape(t) == e0 + escape(t.skip(1)));
        let whole2 = escape(t.skip(1)) + seq!['"'];
        if t[0] == '"' || t[0] == '\\' || t[0] == '\n' || t[0] == '\t' || t[0] == '\r' {
            assert(e0.len() == 2 && e0[0] == '\\');
            assert(whole =~= e0 + whole2);
            lemma_char_at(s, i, whole, rest, 0);
            assert(whole[0] == '\\');
            assert(s[i] == '\\');
            lemma_char_at(s, i, whole, rest, 1);
            assert(whole[1] == e0[1]);
            assert(s[i + 1] == e0[1]);
            assert(unesc(e0[1]) == Some(t[0]));
            assert(i + 1 < s.len());
            lemma_suffix_at(s, i, whole, rest, 2);
            assert(whole.skip(2) =~= whole2);
            assert(s.skip(i + 2) =~= whole2 + rest);
            lemma_parse_string_at(s, i + 2, t.skip(1), rest);
            assert(seq![t[0]] + t.skip(1) =~= t);
        } else {
            assert(e0 =~= seq![t[0]]);
            assert(whole =~= seq![t[0]] + whole2);
            lemma_char_at(s, i, whole, rest, 0);
            assert(whole[0] == t[0]);
            assert(s[i] == t[0]);
            assert(s[i] != '"' && s[i] != '\\' && s[i] != '\n');
            lemma_suffix_at(s, i, whole, rest, 1);
            assert(whole.skip(1) =~= whole2);
            assert(s.skip(i + 1) =~= whole2 + rest);
            lemma_parse_string_at(s, i + 1, t.skip(1), rest);
            assert(seq![t[0]] + t.skip(1) =~= t);
        }
    }
}

/// A serialized scalar or array value is never empty.
proof fn lemma_ser_value_nonempty(m: ValueModel)
    requires
        wf_value(m),
        !(m is Table),
    ensures
        ser_value(m).len() >= 1,
{
    match m {
        ValueModel::Integer(n) => {
            if n < 0 {
                lemma_digits_of_shape((-n) as nat);
            } else {
                lemma_digits_of_shape(n as nat);
            }
        },
        ValueModel::Float(lx) => {
            let body = if lx.len() > 0 && lx[0] == '-' {
                lx.skip(1)
            } else {
                lx
            };
            assert(wf_float_lexeme(lx));
            let k = choose|k: int| #[trigger] crate::value::float_parts(body, k);
            assert(crate::value::float_parts(body, k));
            assert(body.len() >= 3);
        },
        _ => {},
    }
}

/// The characters a serialized number consists of: digits, possibly a
/// leading minus, possibly one dot.
proof fn lemma_not_datetime(s: Seq<char>, i: int, lex: Seq<char>, rest: Seq<char>)
    requires
        0 <= i <= s.len(),
        s.skip(i) == lex + rest,
        term_ok(rest),
        lex.len() >= 1,
        forall|t: int| 0 <= t < lex.len() ==> (is_digit(#[trigger] lex[t]) || lex[t] == '.'),
    ensures
        !is_datetime_at(s, i),
{
    if is_datetime_at(s, i) {
        lemma_after_at(s, i, lex, rest);
        if lex.len() >= 5 {
            lemma_char_at(s, i, lex, rest, 4);
            assert(is_digit(lex[4]) || lex[4] == '.');
            assert(s[i + 4] == '-');
            assert(false);
        } else {
            // one of the first four positions falls on the terminator
            let p = lex.len();
            assert(p <= 4);
            if i + p < s.len() {
                assert(rest.len() > 0);
                assert(s[i + p] == rest[0]);
                if p == 4 {
                    assert(s[i + 4] == '-');
                    assert(rest[0] == ',' || rest[0] == ']');
                    assert(false);
                } else {
                    assert(is_digit(s[i + p]));
                    assert(rest[0] == ',' || rest[0] == ']');
                    assert(!is_digit(',') && !is_digit(']'));
                    assert(false);
                }
            } else {
                assert(i + 19 <= s.len());
                assert(i + p < s.len());
                assert(false);
            }
        }
    }
}

/// A serialized value, embedded at position `i` with a valid
/// terminator after it, reads back as exactly itself.
#[verifier::rlimit(100)]
proof fn lemma_parse_value_rt(s: Seq<char>, i: int, m: ValueModel, rest: Seq<char>)
    requires
        0 <= i <= s.len(),
        wf_value(m),
        !(m is Table),
        s.skip(i) == ser_value(m) + rest,
        term_ok(rest),
    ensures
        parse_value_at(s, i) == Some((m, i + ser_value(m).len())),
    decreases m, 0int,
{
    lemma_ser_value_nonempty(m);
    lemma_char_at(s, i, ser_value(m), rest, 0);
    lemma_after_at(s, i, ser_value(m), rest);
    match m {
        ValueModel::Text(t) => {
            assert(ser_value(m)[0] == '"');
            assert(s[i] == '"');
            lemma_suffix_at(s, i, ser_value(m), rest, 1);
            assert(ser_value(m).skip(1) =~= escape(t) + seq!['"']);
            assert(s.skip(i + 1) =~= escape(t) + seq!['"'] + rest);
            lemma_parse_string_at(s, i + 1, t, rest);
            assert(parse_string_body(s, i + 1) == Some((t, i + 1 + escape(t).len() + 1)));
            assert(ser_value(m).len() == escape(t).len() + 2);
            assert(parse_value_at(s, i) == Some((m, i + ser_value(m).len())));
        },
        ValueModel::Integer(n) => {
            let neg = n < 0;
            let mag = if neg {
                (-n) as nat
            } else {
                n as nat
            };
            lemma_digits_of_shape(mag);
            let d = digits_of(mag);
            if neg {
                assert(ser_value(m) == seq!['-'] + d);
                assert(ser_value(m)[0] == '-');
                assert(s[i] == '-');
                assert(!is_digit('-'));
                assert(!is_datetime_at(s, i));
                lemma_suffix_at(s, i, ser_value(m), rest, 1);
                assert(ser_value(m).skip(1) =~= d);
                assert(s.skip(i + 1) =~= d + rest);
                lemma_scan_digits_run(s, i + 1, d, rest);
                let j = scan_digits_from(s, i + 1);
                assert(j == i + 1 + d.len());
                lemma_after_at(s, i + 1, d, rest);
                if j < s.len() {
                    assert(s[j] == rest[0]);
                    assert(s[j] != '.');
                }
                assert(s.skip(i + 1).take(d.len() as int) =~= d);
                assert(s.subrange(i + 1, j) =~= s.skip(i + 1).take(d.len() as int));
                assert(digits_val(s.subrange(i + 1, j)) == mag);
                assert(mag <= 0x8000000000000000);
                assert(parse_value_at(s, i) == Some((m, i + ser_value(m).len())));
            } else {
                assert(ser_value(m) == d);
                assert(is_digit(s[i]));
                assert forall|t: int|
                    0 <= t < d.len() implies (is_digit(#[trigger] d[t]) || d[t] == '.') by {}
                lemma_not_datetime(s, i, d, rest);
                lemma_scan_digits_run(s, i, d, rest);
                let j = scan_digits_from(s, i);
                assert(j == i + d.len());
                assert(j > i);
                if j < s.len() {
                    assert(s[j] == rest[0]);
                    assert(s[j] != '.');
                }
                assert(s.skip(i).take(d.len() as int) =~= d);
                assert(s.subrange(i, j) =~= s.skip(i).take(d.len() as int));
                assert(digits_val(s.subrange(i, j)) == mag);
                assert(mag <= i64::MAX as nat);
                assert(parse_value_at(s, i) == Some((m, i + ser_value(m).len())));
            }
        },
        ValueModel::Float(lx) => {
            assert(wf_float_lexeme(lx));
            let body = if lx.len() > 0 && lx[0] == '-' {
                lx.skip(1)
            } else {
                lx
            };
            assert(wf_float_lexeme(lx));
            let k = choose|k: int| #[trigger] crate::value::float_parts(body, k);
            assert(crate::value::float_parts(body, k));
            assert forall|t: int|
                0 <= t < lx.len() implies (is_digit(#[trigger] lx[t]) || lx[t] == '.' || lx[t]
                == '-') by {
                if lx[0] == '-' {
                    if t > 0 {
                        assert(lx[t] == body[t - 1]);
                    }
                } else {
                    assert(lx[t] == body[t]);
                }
            }
            let neg = lx.len() > 0 && lx[0] == '-';
            let d0 = if neg {
                i + 1
            } else {
                i
            };
            let intpart = body.take(k);
            let frac = body.skip(k + 1);
            assert(body =~= intpart + seq!['.'] + frac);
            if neg {
                assert(ser_value(m)[0] == '-');
                assert(s[i] == '-');
                assert(!is_digit('-'));
                assert(!is_datetime_at(s, i));
                lemma_suffix_at(s, i, lx, rest, 1);
                assert(lx.skip(1) =~= body);
                assert(s.skip(d0) =~= body + rest);
            } else {
                assert(lx[0] == body[0]);
                assert(is_digit(body[0]));
                assert(is_digit(s[i]));
                lemma_not_datetime(s, i, lx, rest);
                assert(s.skip(d0) =~= body + rest);
            }
            assert(s.skip(d0) =~= intpart + (seq!['.'] + frac + rest));
            assert(rest.len() == 0 || (rest[0] != '.' && !is_digit(rest[0])));
            assert((seq!['.'] + frac + rest).len() > 0 && !is_digit((seq!['.'] + frac + rest)[0]));
            lemma_scan_digits_run(s, d0, intpart, seq!['.'] + frac + rest);
            let j = scan_digits_from(s, d0);
            assert(j == d0 + k);
            lemma_char_at(s, d0, body, rest, k);
            assert(s[j] == '.');
            assert(j < s.len());
            lemma_suffix_at(s, d0, body, rest, k + 1);
            assert(body.skip(k + 1) =~= frac);
            assert(s.skip(j + 1) =~= frac + rest);
            assert(forall|t: int| 0 <= t < frac.len() ==> is_digit(#[trigger] frac[t]));
            lemma_scan_digits_run(s, j + 1, frac, rest);
            let kk = scan_digits_from(s, j + 1);
            assert(kk == j + 1 + frac.len());
            assert(kk > j + 1);
            assert(kk == i + lx.len());
            assert(s.skip(i).take(lx.len() as int) =~= lx);
            assert(s.subrange(i, kk) =~= s.skip(i).take(lx.len() as int));
            assert(j != d0);
            assert(parse_value_at(s, i) == Some((m, i + ser_value(m).len())));
        },
        ValueModel::Boolean(b) => {
            if b {
                assert(ser_value(m)[0] == 't');
                lemma_char_at(s, i, ser_value(m), rest, 1);
                lemma_char_at(s, i, ser_value(m), rest, 2);
                lemma_char_at(s, i, ser_value(m), rest, 3);
                assert(s[i] == 't');
                assert(s[i + 1] == 'r' && s[i + 2] == 'u' && s[i + 3] == 'e');
                assert(i + 4 <= s.len());
                assert(parse_value_at(s, i) == Some((m, i + ser_value(m).len())));
            } else {
                assert(ser_value(m)[0] == 'f');
                lemma_char_at(s, i, ser_value(m), rest, 1);
                lemma_char_at(s, i, ser_value(m), rest, 2);
                lemma_char_at(s, i, ser_value(m), rest, 3);
                lemma_char_at(s, i, ser_value(m), rest, 4);
                assert(s[i] == 'f');
                assert(s[i + 1] == 'a' && s[i + 2] == 'l' && s[i + 3] == 's' && s[i + 4] == 'e');
                assert(i + 5 <= s.len());
                assert(parse_value_at(s, i) == Some((m, i + ser_value(m).len())));
            }
        },
        ValueModel::Datetime(lx) => {
            assert(is_digit(lx[0]));
            assert(is_digit(s[i]));
            assert(s[i] != '"' && s[i] != 't' && s[i] != 'f' && s[i] != '[');
            assert forall|t: int| 0 <= t < lx.len() implies s[i + t] == lx[t] by {
                lemma_char_at(s, i, lx, rest, t);
            }
            assert(is_datetime_at(s, i));
            if lx.len() == 20 {
                assert(s[i + 19] == 'Z');
                assert(i + 19 < s.len());
                assert(s.skip(i).take(20) =~= lx);
                assert(s.subrange(i, i + 20) =~= s.skip(i).take(20));
            } else {
                assert(lx.len() == 19);
                if i + 19 < s.len() {
                    assert(s[i + 19] == rest[0]);
                    assert(s[i + 19] != 'Z');
                }
                assert(s.skip(i).take(19) =~= lx);
                assert(s.subrange(i, i + 19) =~= s.skip(i).take(19));
            }
            assert(parse_value_at(s, i) == Some((m, i + ser_value(m).len())));
        },
        ValueModel::Array(es) => {
            assert(ser_value(m)[0] == '[');
            assert(s[i] == '[');
            if es.len() == 0 {
                assert(ser_elems(es) =~= Seq::<char>::empty());
                assert(ser_value(m) =~= seq!['[', ']']);
                lemma_char_at(s, i, ser_value(m), rest, 1);
                assert(s[i + 1] == ']');
                assert(i + 1 < s.len());
                assert(es =~= Seq::<ValueModel>::empty());
            } else {
                lemma_ser_value_nonempty(es[0]);
                lemma_char_at(s, i, ser_value(m), rest, 1);
                assert(ser_value(m)[1] == ser_elems(es)[0]);
                assert(ser_elems(es)[0] == ser_value(es[0])[0]);
                assert(s[i + 1] == ser_value(es[0])[0]);
                lemma_value_start_not_bracket(es[0]);
                assert(s[i + 1] != ']');
                lemma_suffix_at(s, i, ser_value(m), rest, 1);
                assert(ser_value(m).skip(1) =~= ser_elems(es) + seq![']']);
                assert(s.skip(i + 1) =~= ser_elems(es) + seq![']'] + rest);
                lemma_parse_elems_rt(s, i + 1, es, rest);
            }
            assert(parse_value_at(s, i) == Some((m, i + ser_value(m).len())));
        },
        ValueModel::Table(_) => {},
    }
    assert(parse_value_at(s, i) == Some((m, i + ser_value(m).len())));
}

/// A serialized value never begins with a closing bracket.
proof fn lemma_value_start_not_bracket(m: ValueModel)
    requires
        wf_value(m),
        !(m is Table),
    ensures
        ser_value(m).len() >= 1,
        ser_value(m)[0] != ']',
{
    lemma_ser_value_nonempty(m);
    match m {
        ValueModel::Integer(n) => {
            let mag = if n < 0 {
                (-n) as nat
            } else {
                n as nat
            };
            lemma_digits_of_shape(mag);
            if n >= 0 {
                assert(is_digit(ser_value(m)[0]));
                assert(!is_digit(']'));
            }
        },
        ValueModel::Float(lx) => {
            let body = if lx.len() > 0 && lx[0] == '-' {
                lx.skip(1)
            } else {
                lx
            };
            assert(wf_float_lexeme(lx));
            let k = choose|k: int| #[trigger] crate::value::float_parts(body, k);
            assert(crate::value::float_parts(body, k));
            if !(lx.len() > 0 && lx[0] == '-') {
                assert(lx[0] == body[0]);
                assert(is_digit(body[0]));
                assert(!is_digit(']'));
            }
        },
        ValueModel::Datetime(lx) => {
            assert(is_digit(lx[0]));
            assert(!is_digit(']'));
        },
        _ => {},
    }
}

/// Serialized array elements followed by the closing bracket read back
/// as exactly themselves.
proof fn lemma_parse_elems_rt(s: Seq<char>, i: int, es: Seq<ValueModel>, rest: Seq<char>)
    requires
        0 <= i <= s.len(),
        es.len() >= 1,
        forall|t: int| 0 <= t < es.len() ==> wf_value(#[trigger] es[t]) && !(es[t] is Table),
        s.skip(i) == ser_elems(es) + seq![']'] + rest,
        term_ok(rest),
    ensures
        parse_elems_at(s, i) == Some((es, i + ser_elems(es).len() + 1)),
    decreases es, 1int,
{
    lemma_ser_value_nonempty(es[0]);
    if es.len() == 1 {
        assert(ser_elems(es) == ser_value(es[0]));
        let tail = seq![']'] + rest;
        assert(s.skip(i) =~= ser_value(es[0]) + tail);
        assert(term_ok(tail));
        lemma_parse_value_rt(s, i, es[0], tail);
        let j = i + ser_value(es[0]).len();
        lemma_suffix_at(s, i, ser_value(es[0]), tail, ser_value(es[0]).len() as int);
        assert(ser_value(es[0]).skip(ser_value(es[0]).len() as int) =~= Seq::<char>::empty());
        assert(s.skip(j) =~= tail + Seq::<char>::empty());
        lemma_char_at(s, j, tail, Seq::empty(), 0);
        assert(s[j] == ']');
        assert(j < s.len());
        assert(j > i);
        assert(seq![es[0]] =~= es);
    } else {
        assert(ser_elems(es) == ser_value(es[0]) + seq![',', ' '] + ser_elems(es.skip(1)));
        let tail = seq![',', ' '] + ser_elems(es.skip(1)) + seq![']'] + rest;
        assert(s.skip(i) =~= ser_value(es[0]) + tail);
        assert(term_ok(tail));
        lemma_parse_value_rt(s, i, es[0], tail);
        let j = i + ser_value(es[0]).len();
        assert(j > i);
        lemma_suffix_at(s, i, ser_value(es[0]), tail, ser_value(es[0]).len() as int);
        assert(ser_value(es[0]).skip(ser_value(es[0]).len() as int) =~= Seq::<char>::empty());
        assert(s.skip(j) =~= tail + Seq::<char>::empty());
        lemma_char_at(s, j, tail, Seq::empty(), 0);
        lemma_char_at(s, j, tail, Seq::empty(), 1);
        assert(s[j] == ',');
        assert(s[j] != ']');
        assert(s[j + 1] == ' ');
        assert(s.len() - j >= 2);
        lemma_suffix_at(s, j, tail, Seq::empty(), 2);
        assert(tail.skip(2) =~= ser_elems(es.skip(1)) + seq![']'] + rest);
        assert(s.skip(j + 2) =~= ser_elems(es.skip(1)) + seq![']'] + rest + Seq::<char>::empty());
        assert(s.skip(j + 2) =~= ser_elems(es.skip(1)) + seq![']'] + rest);
        lemma_parse_elems_rt(s, j + 2, es.skip(1), rest);
        assert(seq![es[0]] + es.skip(1) =~= es);
    }
}

/// Every serialized scalar or array value reads back as itself: the
/// value grammar round-trips.
pub proof fn lemma_value_round_trip(m: ValueModel)
    requires
        wf_value(m),
        !(m is Table),
    ensures
        parse_value_at(ser_value(m), 0) == Some((m, ser_value(m).len() as int)),
{
    let s = ser_value(m);
    assert(s.skip(0) =~= s + Seq::<char>::empty());
    lemma_parse_value_rt(s, 0, m, Seq::empty());
}


// ------------------------------------------------------------------
// Round trip: the entry framing recovers header region and content
// ------------------------------------------------------------------
proof fn lemma_ser_value_no_newline(m: ValueModel)
    requires
        wf_value(m),
    ensures
        forall|t: int| 0 <= t < ser_value(m).len() ==> (#[trigger] ser_value(m)[t]) != '\n',
    decreases m, 1int,
{
    match m {
        ValueModel::Text(tx) => {
            lemma_escape_no_newline(tx);
            assert forall|t: int|
                0 <= t < ser_value(m).len() implies (#[trigger] ser_value(m)[t]) != '\n' by {
                if t == 0 {
                } else if t < 1 + escape(tx).len() {
                    assert(ser_value(m)[t] == escape(tx)[t - 1]);
                } else {
                    assert(ser_value(m)[t] == '"');
                }
            }
        },
        ValueModel::Integer(n) => {
            let mag = if n < 0 {
                (-n) as nat
            } else {
                n as nat
            };
            lemma_digits_of_shape(mag);
            assert forall|t: int|
                0 <= t < ser_value(m).len() implies (#[trigger] ser_value(m)[t]) != '\n' by {
                if n < 0 {
                    if t > 0 {
                        assert(ser_value(m)[t] == digits_of(mag)[t - 1]);
                        assert(is_digit(digits_of(mag)[t - 1]));
                    }
                } else {
                    assert(is_digit(ser_value(m)[t]));
                }
            }
        },
        ValueModel::Float(lx) => {
            let body = if lx.len() > 0 && lx[0] == '-' {
                lx.skip(1)
            } else {
                lx
            };
            let k = choose|k: int| #[trigger] crate::value::float_parts(body, k);
            assert(crate::value::float_parts(body, k));
            assert forall|t: int|
                0 <= t < ser_value(m).len() implies (#[trigger] ser_value(m)[t]) != '\n' by {
                if lx.len() > 0 && lx[0] == '-' {
                    if t > 0 {
                        assert(lx[t] == body[t - 1]);
                    }
                } else {
                    assert(lx[t] == body[t]);
                }
            }
        },
        ValueModel::Boolean(_) => {},
        ValueModel::Datetime(lx) => {
            assert(wf_datetime_lexeme(lx));
            assert forall|t: int|
                0 <= t < ser_value(m).len() implies (#[trigger] ser_value(m)[t]) != '\n' by {
                if t == 4 || t == 7 {
                    assert(lx[t] == '-');
                } else if t == 10 {
                    assert(lx[t] == 'T');
                } else if t == 13 || t == 16 {
                    assert(lx[t] == ':');
                } else if t == 19 {
                    assert(lx[t] == 'Z');
                } else {
                    assert(is_digit(lx[t]));
                }
            }
        },
        ValueModel::Array(es) => {
            lemma_ser_elems_no_newline(es);
            assert forall|t: int|
                0 <= t < ser_value(m).len() implies (#[trigger] ser_value(m)[t]) != '\n' by {
                if t == 0 {
                } else if t < 1 + ser_elems(es).len() {
                    assert(ser_value(m)[t] == ser_elems(es)[t - 1]);
                } else {
                    assert(ser_value(m)[t] == ']');
                }
            }
        },
        ValueModel::Table(_) => {},
    }
}

proof fn lemma_escape_no_newline(tx: Seq<char>)
    ensures
        forall|t: int| 0 <= t < escape(tx).len() ==> (#[trigger] escape(tx)[t]) != '\n',
    decreases tx.len(),
{
    if tx.len() > 0 {
        lemma_escape_no_newline(tx.skip(1));
        let e0 = esc_char(tx[0]);
        assert forall|t: int|
            0 <= t < escape(tx).len() implies (#[trigger] escape(tx)[t]) != '\n' by {
            if t < e0.len() {
                assert(escape(tx)[t] == e0[t]);
            } else {
                assert(escape(tx)[t] == escape(tx.skip(1))[t - e0.len()]);
            }
        }
    }
}

proof fn lemma_ser_elems_no_newline(es: Seq<ValueModel>)
    requires
        forall|t: int| 0 <= t < es.len() ==> wf_value(#[trigger] es[t]) && !(es[t] is Table),
    ensures
        forall|t: int| 0 <= t < ser_elems(es).len() ==> (#[trigger] ser_elems(es)[t]) != '\n',
    decreases es, 0int,
{
    if es.len() == 0 {
    } else if es.len() == 1 {
        lemma_ser_value_no_newline(es[0]);
    } else {
        lemma_ser_value_no_newline(es[0]);
        lemma_ser_elems_no_newline(es.skip(1));
        let head = ser_value(es[0]) + seq![',', ' '];
        assert forall|t: int|
            0 <= t < ser_elems(es).len() implies (#[trigger] ser_elems(es)[t]) != '\n' by {
            if t < ser_value(es[0]).len() {
                assert(ser_elems(es)[t] == ser_value(es[0])[t]);
            } else if t < head.len() {
                assert(ser_elems(es)[t] == head[t]);
            } else {
                assert(ser_elems(es)[t] == ser_elems(es.skip(1))[t - head.len()]);
            }
        }
    }
}

/// A well-shaped header line: non-empty, free of newlines, and not a
/// bare fence.
pub open spec fn good_line(line: Seq<char>) -> bool {
    &&& line.len() > 0
    &&& forall|t: int| 0 <= t < line.len() ==> (#[trigger] line[t]) != '\n'
    &&& line != seq!['-', '-', '-']
}

pub open spec fn good_lines(lines: Seq<Seq<char>>) -> bool {
    forall|j: int| 0 <= j < lines.len() ==> good_line(#[trigger] lines[j])
}

proof fn lemma_key_line_good(k: Seq<char>, m: ValueModel)
    requires
        wf_key(k),
        wf_value(m),
        !(m is Table),
    ensures
        good_line(key_line(k, m)),
{
    lemma_ser_value_nonempty(m);
    lemma_ser_value_no_newline(m);
    let line = key_line(k, m);
    assert(line.len() >= k.len() + 4);
    assert forall|t: int| 0 <= t < line.len() implies (#[trigger] line[t]) != '\n' by {
        if t < k.len() {
            assert(line[t] == k[t]);
            assert(crate::chars::is_key_char(k[t]));
        } else if t < k.len() + 3 {
            assert(line[t] == (seq![' ', '=', ' '])[t - k.len()]);
        } else {
            assert(line[t] == ser_value(m)[t - k.len() - 3]);
        }
    }
    assert(line.len() != 3 || line != seq!['-', '-', '-']) by {
        if line.len() == 3 {
            assert(k.len() + 4 <= 3);
        }
    }
}

proof fn lemma_join_dots_no_newline(path: Seq<Seq<char>>)
    requires
        forall|j: int| 0 <= j < path.len() ==> wf_key(#[trigger] path[j]),
    ensures
        forall|t: int| 0 <= t < join_dots(path).len() ==> (#[trigger] join_dots(path)[t]) != '\n',
    decreases path.len(),
{
    if path.len() == 0 {
    } else if path.len() == 1 {
        assert forall|t: int|
            0 <= t < join_dots(path).len() implies (#[trigger] join_dots(path)[t]) != '\n' by {
            assert(join_dots(path)[t] == path[0][t]);
            assert(crate::chars::is_key_char(path[0][t]));
        }
    } else {
        assert(forall|j: int| 0 <= j < path.skip(1).len() ==> wf_key(#[trigger] path.skip(1)[j]));
        lemma_join_dots_no_newline(path.skip(1));
        let head = path[0] + seq!['.'];
        assert forall|t: int|
            0 <= t < join_dots(path).len() implies (#[trigger] join_dots(path)[t]) != '\n' by {
            if t < path[0].len() {
                assert(join_dots(path)[t] == path[0][t]);
                assert(crate::chars::is_key_char(path[0][t]));
            } else if t < head.len() {
                assert(join_dots(path)[t] == '.');
            } else {
                assert(join_dots(path)[t] == join_dots(path.skip(1))[t - head.len()]);
            }
        }
    }
}

proof fn lemma_section_line_good(path: Seq<Seq<char>>)
    requires
        forall|j: int| 0 <= j < path.len() ==> wf_key(#[trigger] path[j]),
    ensures
        good_line(section_line(path)),
{
    lemma_join_dots_no_newline(path);
    let line = section_line(path);
    assert(line[0] == '[');
    assert forall|t: int| 0 <= t < line.len() implies (#[trigger] line[t]) != '\n' by {
        if t == 0 {
        } else if t < 1 + join_dots(path).len() {
            assert(line[t] == join_dots(path)[t - 1]);
        } else {
            assert(line[t] == ']');
        }
    }
    assert(line != seq!['-', '-', '-']) by {
        assert(line[0] != '-');
    }
}

/// Every line a well-formed table serializes to is well shaped.
proof fn lemma_body_lines_good(ps: Seq<(Seq<char>, ValueModel)>, path: Seq<Seq<char>>)
    requires
        wf_value(ValueModel::Table(ps)),
        forall|j: int| 0 <= j < path.len() ==> wf_key(#[trigger] path[j]),
    ensures
        good_lines(ser_body_lines(ps, path)),
    decreases ps, 3int,
{
    lemma_scalar_lines_good(ps);
    lemma_table_lines_good(ps, path);
    assert forall|j: int|
        0 <= j < ser_body_lines(ps, path).len() implies good_line(
        #[trigger] ser_body_lines(ps, path)[j]) by {
        if j < ser_scalar_lines(ps).len() {
            assert(ser_body_lines(ps, path)[j] == ser_scalar_lines(ps)[j]);
        } else {
            assert(ser_body_lines(ps, path)[j] == ser_table_lines(ps, path)[j - ser_scalar_lines(
                ps,
            ).len()]);
        }
    }
}

proof fn lemma_scalar_lines_good(ps: Seq<(Seq<char>, ValueModel)>)
    requires
        wf_value(ValueModel::Table(ps)),
    ensures
        good_lines(ser_scalar_lines(ps)),
    decreases ps, 0int,
{
    if ps.len() > 0 {
        assert(wf_value(ValueModel::Table(ps.skip(1)))) by {
            assert(forall|j: int|
                0 <= j < ps.skip(1).len() ==> (#[trigger] ps.skip(1)[j]) == ps[j + 1]);
        }
        lemma_scalar_lines_good(ps.skip(1));
        if !(ps[0].1 is Table) {
            assert(wf_key(ps[0].0) && wf_value(ps[0].1));
            lemma_key_line_good(ps[0].0, ps[0].1);
        }
        assert forall|j: int|
            0 <= j < ser_scalar_lines(ps).len() implies good_line(
            #[trigger] ser_scalar_lines(ps)[j]) by {
            if ps[0].1 is Table {
                assert(ser_scalar_lines(ps)[j] == ser_scalar_lines(ps.skip(1))[j]);
            } else {
                if j == 0 {
                    assert(ser_scalar_lines(ps)[j] == key_line(ps[0].0, ps[0].1));
                } else {
                    assert(ser_scalar_lines(ps)[j] == ser_scalar_lines(ps.skip(1))[j - 1]);
                }
            }
        }
    }
}

proof fn lemma_table_lines_good(ps: Seq<(Seq<char>, ValueModel)>, path: Seq<Seq<char>>)
    requires
        wf_value(ValueModel::Table(ps)),
        forall|j: int| 0 <= j < path.len() ==> wf_key(#[trigger] path[j]),
    ensures
        good_lines(ser_table_lines(ps, path)),
    decreases ps, 1int,
{
    if ps.len() > 0 {
        assert(wf_value(ValueModel::Table(ps.skip(1)))) by {
            assert(forall|j: int|
                0 <= j < ps.skip(1).len() ==> (#[trigger] ps.skip(1)[j]) == ps[j + 1]);
        }
        lemma_table_lines_good(ps.skip(1), path);
        match ps[0].1 {
            ValueModel::Table(inner) => {
                assert(wf_key(ps[0].0) && wf_value(ps[0].1));
                let path2 = path.push(ps[0].0);
                assert(forall|j: int| 0 <= j < path2.len() ==> wf_key(#[trigger] path2[j]));
                lemma_section_line_good(path2);
                lemma_body_lines_good(inner, path2);
                let block = seq![section_line(path2)] + ser_body_lines(inner, path2);
                assert forall|j: int|
                    0 <= j < ser_table_lines(ps, path).len() implies good_line(
                    #[trigger] ser_table_lines(ps, path)[j]) by {
                    if j < block.len() {
                        assert(ser_table_lines(ps, path)[j] == block[j]);
                        if j == 0 {
                            assert(block[j] == section_line(path2));
                        } else {
                            assert(block[j] == ser_body_lines(inner, path2)[j - 1]);
                        }
                    } else {
                        assert(ser_table_lines(ps, path)[j] == ser_table_lines(
                            ps.skip(1),
                            path,
                        )[j - block.len()]);
                    }
                }
            },
            _ => {
                assert forall|j: int|
                    0 <= j < ser_table_lines(ps, path).len() implies good_line(
                    #[trigger] ser_table_lines(ps, path)[j]) by {
                    assert(ser_table_lines(ps, path)[j] == ser_table_lines(ps.skip(1), path)[j]);
                }
            },
        }
    }
}

/// Scanning across a stretch without newlines keeps looking past it.
proof fn lemma_scan_advance(s: Seq<char>, q: int, nl: int)
    requires
        0 <= q <= nl < s.len(),
        s[nl] == '\n',
        forall|t: int| q <= t < nl ==> s[t] != '\n',
    ensures
        scan_fence(s, q, false) == scan_fence(s, nl + 1, true),
    decreases nl - q,
{
    if q + 4 > s.len() {
        assert(nl + 1 + 4 > s.len() + 1);
        if nl + 1 + 4 <= s.len() {
            assert(false);
        }
    } else {
        if q < nl {
            lemma_scan_advance(s, q + 1, nl);
        } else {
            assert(q == nl);
            assert(s[q] == '\n');
        }
    }
}

/// Scanning from the start of a well-shaped line continues after it.
proof fn lemma_scan_line(s: Seq<char>, p: int, line: Seq<char>)
    requires
        0 <= p,
        p + line.len() < s.len(),
        good_line(line),
        forall|t: int| 0 <= t < line.len() ==> s[p + t] == line[t],
        s[p + line.len()] == '\n',
        p + 4 <= s.len(),
    ensures
        scan_fence(s, p, true) == scan_fence(s, p + line.len() + 1, true),
{
    let e = p + line.len();
    assert(!(s[p] == '-' && s[p + 1] == '-' && s[p + 2] == '-' && s[p + 3] == '\n')) by {
        if s[p] == '-' && s[p + 1] == '-' && s[p + 2] == '-' && s[p + 3] == '\n' {
            if line.len() <= 2 {
                if line.len() == 0 {
                    assert(s[p] == '\n');
                    assert(false);
                } else if line.len() == 1 {
                    assert(s[p + 1] == '\n');
                    assert(s[p + 1] == '-');
                    assert(false);
                } else {
                    assert(s[p + 2] == '\n');
                    assert(s[p + 2] == '-');
                    assert(false);
                }
            } else if line.len() == 3 {
                assert(line[0] == '-' && line[1] == '-' && line[2] == '-');
                assert(line =~= seq!['-', '-', '-']);
                assert(false);
            } else {
                assert(s[p + 3] == line[3]);
                assert(line[3] != '\n');
                assert(false);
            }
        }
    }
    assert(s[p + 0] == line[0]);
    assert(s[p] != '\n');
    if line.len() == 0 {
        assert(false);
    }
    assert forall|t: int| p + 1 <= t < e implies s[t] != '\n' by {
        assert(s[p + (t - p)] == line[t - p]);
    }
    lemma_scan_advance(s, p + 1, e);
}

/// The canonical text of a whole entry recovers its frame: the scan
/// finds exactly the closing fence, so the header region and the
/// content are cut exactly where the serializer put them.
pub proof fn lemma_frame_recovery(ps: Seq<(Seq<char>, ValueModel)>, content: Seq<char>)
    requires
        wf_value(ValueModel::Table(ps)),
    ensures
        ({
            let s = ser_entry_text(ps, content);
            let hl = header_text(ps).len() as int;
            &&& s.len() >= 4 && s[0] == '-' && s[1] == '-' && s[2] == '-' && s[3] == '\n'
            &&& scan_fence(s, 4, true) == Some(4 + hl)
            &&& s.subrange(4, 4 + hl) == header_text(ps)
            &&& s.skip(4 + hl + 4) == content
        }),
{
    let s = ser_entry_text(ps, content);
    let h = header_text(ps);
    let hl = h.len() as int;
    let lines = ser_body_lines(ps, Seq::empty());
    lemma_body_lines_good(ps, Seq::empty());
    assert(s =~= fence() + h + fence() + content);
    assert(s[0] == '-' && s[1] == '-' && s[2] == '-' && s[3] == '\n');
    assert(s.subrange(4, 4 + hl) =~= h);
    assert(s.skip(4 + hl + 4) =~= content);
    lemma_scan_lines(s, 4, lines);
    assert(s[4 + hl] == '-' && s[4 + hl + 1] == '-' && s[4 + hl + 2] == '-' && s[4 + hl + 3]
        == '\n');
    assert(scan_fence(s, 4 + hl, true) == Some(4 + hl));
}

/// Scanning from the start of a block of well-shaped lines lands after
/// the block.
proof fn lemma_scan_lines(s: Seq<char>, p: int, lines: Seq<Seq<char>>)
    requires
        0 <= p,
        good_lines(lines),
        p + concat_lines(lines).len() + 4 <= s.len(),
        forall|t: int|
            0 <= t < concat_lines(lines).len() ==> s[p + t] == concat_lines(lines)[t],
    ensures
        scan_fence(s, p, true) == scan_fence(s, p + concat_lines(lines).len(), true),
    decreases lines.len(),
{
    if lines.len() > 0 {
        let l0 = lines[0];
        let rest = concat_lines(lines.skip(1));
        assert(concat_lines(lines) == l0 + seq!['\n'] + rest);
        assert(forall|j: int| 0 <= j < lines.skip(1).len() ==> good_line(
            #[trigger] lines.skip(1)[j]));
        assert forall|t: int| 0 <= t < l0.len() implies s[p + t] == l0[t] by {
            assert(concat_lines(lines)[t] == l0[t]);
        }
        assert(s[p + l0.len()] == '\n') by {
            assert(concat_lines(lines)[l0.len() as int] == '\n');
        }
        lemma_scan_line(s, p, l0);
        let p2 = p + l0.len() + 1;
        assert forall|t: int| 0 <= t < rest.len() implies s[p2 + t] == rest[t] by {
            assert(concat_lines(lines)[l0.len() + 1 + t] == rest[t]);
        }
        lemma_scan_lines(s, p2, lines.skip(1));
    }
}


// ------------------------------------------------------------------
// Round trip: the header document reads back as the same table
// ------------------------------------------------------------------
/// The non-table pairs of a table, in order.
pub open spec fn scalar_pairs(ps: Seq<(Seq<char>, ValueModel)>) -> Seq<(Seq<char>, ValueModel)>
    decreases ps.len(),
{
    if ps.len() == 0 {
        Seq::empty()
    } else {
        (if ps[0].1 is Table {
            Seq::empty()
        } else {
            seq![ps[0]]
        }) + scalar_pairs(ps.skip(1))
    }
}

/// The table pairs of a table, in order.
pub open spec fn table_pairs(ps: Seq<(Seq<char>, ValueModel)>) -> Seq<(Seq<char>, ValueModel)>
    decreases ps.len(),
{
    if ps.len() == 0 {
        Seq::empty()
    } else {
        (if ps[0].1 is Table {
            seq![ps[0]]
        } else {
            Seq::empty()
        }) + table_pairs(ps.skip(1))
    }
}

proof fn lemma_scalar_pairs_all_tables(ps: Seq<(Seq<char>, ValueModel)>)
    requires
        forall|j: int| 0 <= j < ps.len() ==> (#[trigger] ps[j]).1 is Table,
    ensures
        scalar_pairs(ps) == Seq::<(Seq<char>, ValueModel)>::empty(),
    decreases ps.len(),
{
    if ps.len() > 0 {
        assert(forall|j: int|
            0 <= j < ps.skip(1).len() ==> (#[trigger] ps.skip(1)[j]).1 is Table);
        lemma_scalar_pairs_all_tables(ps.skip(1));
        assert(scalar_pairs(ps) =~= Seq::<(Seq<char>, ValueModel)>::empty());
    }
}

/// With scalars before tables, a table is its scalar pairs followed by
/// its table pairs.
proof fn lemma_ordered_split(ps: Seq<(Seq<char>, ValueModel)>)
    requires
        crate::value::scalars_first(ps),
    ensures
        scalar_pairs(ps) + table_pairs(ps) == ps,
    decreases ps.len(),
{
    if ps.len() == 0 {
        assert(scalar_pairs(ps) + table_pairs(ps) =~= ps);
    } else {
        assert(crate::value::scalars_first(ps.skip(1))) by {
            assert(forall|j: int|
                0 <= j < ps.skip(1).len() ==> (#[trigger] ps.skip(1)[j]) == ps[j + 1]);
        }
        lemma_ordered_split(ps.skip(1));
        if ps[0].1 is Table {
            assert(forall|j: int|
                0 <= j < ps.skip(1).len() ==> (#[trigger] ps.skip(1)[j]).1 is Table) by {
                assert(forall|j: int|
                    0 <= j < ps.skip(1).len() ==> (#[trigger] ps.skip(1)[j]) == ps[j + 1]);
            }
            lemma_scalar_pairs_all_tables(ps);
            lemma_scalar_pairs_all_tables(ps.skip(1));
            assert(scalar_pairs(ps.skip(1)) + table_pairs(ps.skip(1)) =~= table_pairs(
                ps.skip(1),
            ));
            assert(table_pairs(ps.skip(1)) =~= ps.skip(1));
            assert(table_pairs(ps) =~= seq![ps[0]] + ps.skip(1));
            assert(scalar_pairs(ps) + table_pairs(ps) =~= seq![ps[0]] + ps.skip(1));
            assert(seq![ps[0]] + ps.skip(1) =~= ps);
            assert(scalar_pairs(ps) + table_pairs(ps) =~= ps);
        } else {
            assert(scalar_pairs(ps) =~= seq![ps[0]] + scalar_pairs(ps.skip(1)));
            assert(table_pairs(ps) =~= table_pairs(ps.skip(1)));
            assert(scalar_pairs(ps) + table_pairs(ps) =~= seq![ps[0]] + (scalar_pairs(ps.skip(1))
                + table_pairs(ps.skip(1))));
            assert(seq![ps[0]] + (scalar_pairs(ps.skip(1)) + table_pairs(ps.skip(1))) =~= seq![
                ps[0],
            ] + ps.skip(1));
            assert(seq![ps[0]] + ps.skip(1) =~= ps);
            assert(scalar_pairs(ps) + table_pairs(ps) =~= ps);
        }
    }
}

/// A whole serialized key line reads back as its pair.
proof fn lemma_parse_kv_line_rt(k: Seq<char>, m: ValueModel)
    requires
        wf_key(k),
        wf_value(m),
        !(m is Table),
    ensures
        parse_kv_line(key_line(k, m)) == Some((k, m)),
{
    let line = key_line(k, m);
    lemma_ser_value_nonempty(m);
    assert forall|t: int| 0 <= t < k.len() implies is_key_char(#[trigger] line[t]) by {
        assert(line[t] == k[t]);
    }
    assert(line[k.len() as int] == ' ');
    assert(!is_key_char(' '));
    lemma_scan_key_char(line, 0, k.len() as int);
    assert(line[k.len() as int + 1] == '=');
    assert(line[k.len() as int + 2] == ' ');
    assert(line.skip(k.len() as int + 3) =~= ser_value(m) + Seq::<char>::empty());
    lemma_parse_value_rt(line, k.len() as int + 3, m, Seq::empty());
    assert(line.take(k.len() as int) =~= k);
}

/// Splitting after a dot-free segment.
proof fn lemma_split_from_at(s: Seq<char>, i: int, seg: Seq<char>, rest: Seq<char>)
    requires
        0 <= i <= s.len(),
        s.skip(i) == seg + rest,
        seg.len() >= 1,
        forall|t: int| 0 <= t < seg.len() ==> (#[trigger] seg[t]) != '.',
        rest.len() == 0 || rest[0] == '.',
    ensures
        rest.len() == 0 ==> crate::value::split_from(s, i) == seq![seg],
        rest.len() > 0 ==> crate::value::split_from(s, i) == seq![seg] + crate::value::split_from(
            s,
            i + seg.len() + 1,
        ),
    decreases seg.len(),
{
    lemma_char_at(s, i, seg, rest, 0);
    assert(s[i] == seg[0]);
    assert(s[i] != '.');
    lemma_after_at(s, i, seg, rest);
    if seg.len() == 1 {
        if rest.len() == 0 {
            assert(i + 1 >= s.len());
            let r = crate::value::split_from(s, i + 1);
            assert(r =~= seq![Seq::<char>::empty()]);
            assert(r[0] =~= Seq::<char>::empty());
            assert(seq![s[i]] + r[0] =~= seg);
            assert(r.skip(1) =~= Seq::<Seq<char>>::empty());
            assert(crate::value::split_from(s, i) =~= seq![seg]);
        } else {
            assert(s[i + 1] == '.');
            let r = crate::value::split_from(s, i + 1);
            crate::storeid::lemma_split_slash_len(s, i + 2);
            assert(r =~= seq![Seq::<char>::empty()] + crate::value::split_from(s, i + 2));
            assert(r[0] =~= Seq::<char>::empty());
            assert(seq![s[i]] + r[0] =~= seg);
            assert(r.skip(1) =~= crate::value::split_from(s, i + 2));
            assert(crate::value::split_from(s, i) =~= seq![seg] + crate::value::split_from(
                s,
                i + 2,
            ));
        }
    } else {
        lemma_suffix_at(s, i, seg, rest, 1);
        assert(s.skip(i + 1) =~= seg.skip(1) + rest);
        assert(forall|t: int| 0 <= t < seg.skip(1).len() ==> (#[trigger] seg.skip(1)[t]) != '.');
        lemma_split_from_at(s, i + 1, seg.skip(1), rest);
        let r = crate::value::split_from(s, i + 1);
        if rest.len() == 0 {
            assert(r == seq![seg.skip(1)]);
            assert(r[0] == seg.skip(1));
            assert(seq![s[i]] + r[0] =~= seg);
            assert(r.skip(1) =~= Seq::<Seq<char>>::empty());
            assert(crate::value::split_from(s, i) =~= seq![seg]);
        } else {
            assert(r == seq![seg.skip(1)] + crate::value::split_from(s, i + seg.len() + 1));
            assert(r[0] == seg.skip(1));
            assert(seq![s[i]] + r[0] =~= seg);
            assert(r.skip(1) =~= crate::value::split_from(s, i + seg.len() + 1));
            assert(crate::value::split_from(s, i) =~= seq![seg] + crate::value::split_from(
                s,
                i + seg.len() + 1,
            ));
        }
    }
}

/// A joined section name splits back into its keys.
proof fn lemma_split_join_at(s: Seq<char>, i: int, path: Seq<Seq<char>>)
    requires
        0 <= i <= s.len(),
        path.len() >= 1,
        forall|j: int| 0 <= j < path.len() ==> wf_key(#[trigger] path[j]),
        s.skip(i) == join_dots(path),
    ensures
        crate::value::split_from(s, i) == path,
    decreases path.len(),
{
    assert forall|t: int| 0 <= t < path[0].len() implies (#[trigger] path[0][t]) != '.' by {
        assert(is_key_char(path[0][t]));
    }
    if path.len() == 1 {
        assert(s.skip(i) =~= path[0] + Seq::<char>::empty());
        lemma_split_from_at(s, i, path[0], Seq::empty());
        assert(seq![path[0]] =~= path);
    } else {
        let rest = seq!['.'] + join_dots(path.skip(1));
        assert(join_dots(path) == path[0] + rest);
        assert(s.skip(i) =~= path[0] + rest);
        lemma_split_from_at(s, i, path[0], rest);
        lemma_suffix_at(s, i, path[0], rest, path[0].len() as int);
        assert(path[0].skip(path[0].len() as int) =~= Seq::<char>::empty());
        assert(s.skip(i + path[0].len()) =~= rest);
        assert(s.skip(i + path[0].len()) =~= rest + Seq::<char>::empty());
        lemma_char_at(s, i + path[0].len(), rest, Seq::empty(), 0);
        lemma_suffix_at(s, i + path[0].len(), rest, Seq::empty(), 1);
        assert(rest.skip(1) =~= join_dots(path.skip(1)));
        assert(s.skip(i + path[0].len() + 1) =~= join_dots(path.skip(1)) + Seq::<char>::empty());
        assert(s.skip(i + path[0].len() + 1) =~= join_dots(path.skip(1)));
        assert(forall|j: int|
            0 <= j < path.skip(1).len() ==> wf_key(#[trigger] path.skip(1)[j]));
        lemma_split_join_at(s, i + path[0].len() + 1, path.skip(1));
        assert(seq![path[0]] + path.skip(1) =~= path);
    }
}

/// A whole serialized section line reads back as its path.
proof fn lemma_parse_section_line_rt(path: Seq<Seq<char>>)
    requires
        path.len() >= 1,
        forall|j: int| 0 <= j < path.len() ==> wf_key(#[trigger] path[j]),
    ensures
        parse_section_line(section_line(path)) == Some(path),
{
    let line = section_line(path);
    assert(path[0].len() >= 1);
    assert(join_dots(path).len() >= 1) by {
        lemma_join_len(path);
    }
    assert(line.len() >= 3);
    assert(line[0] == '[');
    assert(line[line.len() - 1] == ']');
    let inner = line.subrange(1, line.len() - 1);
    assert(inner =~= join_dots(path));
    assert(inner.skip(0) =~= join_dots(path));
    lemma_split_join_at(inner, 0, path);
    assert(wf_section_path(path));
}

proof fn lemma_join_len(path: Seq<Seq<char>>)
    requires
        path.len() >= 1,
        forall|j: int| 0 <= j < path.len() ==> wf_key(#[trigger] path[j]),
    ensures
        join_dots(path).len() >= path[0].len(),
{
}

/// The parser may stop at `j` while reading the subsections of `path`:
/// the lines are exhausted, or a section line opens something that is
/// not below `path`.
pub open spec fn hard_stop(lines: Seq<Seq<char>>, j: int, path: Seq<Seq<char>>) -> bool {
    ||| j == lines.len()
    ||| (0 <= j < lines.len() && lines[j].len() > 0 && lines[j][0] == '[' && (match
        parse_section_line(lines[j]) {
        Some(sp) => !(sp.len() > path.len() && sp.take(path.len() as int) == path),
        None => false,
    }))
}

/// The first line a table-pair list serializes to, if any, is a section
/// line of a direct child.
proof fn lemma_table_lines_head(ps: Seq<(Seq<char>, ValueModel)>, path: Seq<Seq<char>>)
    ensures
        ser_table_lines(ps, path).len() > 0 ==> exists|k: int|
            0 <= k < ps.len() && (#[trigger] ps[k]).1 is Table && ser_table_lines(ps, path)[0]
                == section_line(path.push(ps[k].0)),
    decreases ps.len(),
{
    if ps.len() > 0 {
        match ps[0].1 {
            ValueModel::Table(inner) => {
                assert(ser_table_lines(ps, path)[0] == section_line(path.push(ps[0].0)));
                assert(0 <= 0 < ps.len() && ps[0].1 is Table && ser_table_lines(ps, path)[0]
                    == section_line(path.push(ps[0].0)));
            },
            _ => {
                lemma_table_lines_head(ps.skip(1), path);
                if ser_table_lines(ps, path).len() > 0 {
                    assert(ser_table_lines(ps, path) =~= ser_table_lines(ps.skip(1), path));
                    let k = choose|k: int|
                        0 <= k < ps.skip(1).len() && (#[trigger] ps.skip(1)[k]).1 is Table
                            && ser_table_lines(ps.skip(1), path)[0] == section_line(
                            path.push(ps.skip(1)[k].0),
                        );
                    assert(ps.skip(1)[k] == ps[k + 1]);
                    assert(0 <= k + 1 < ps.len() && (ps[k + 1]).1 is Table && ser_table_lines(
                        ps,
                        path,
                    )[0] == section_line(path.push(ps[k + 1].0)));
                }
            },
        }
    }
}

/// The key lines of a table's scalar pairs are consumed exactly, up to
/// the first section line or the end.
proof fn lemma_scalars_consume(
    lines: Seq<Seq<char>>,
    i: int,
    ps: Seq<(Seq<char>, ValueModel)>,
)
    requires
        0 <= i <= lines.len(),
        wf_value(ValueModel::Table(ps)),
        i + ser_scalar_lines(ps).len() <= lines.len(),
        lines.skip(i).take(ser_scalar_lines(ps).len() as int) == ser_scalar_lines(ps),
        i + ser_scalar_lines(ps).len() == lines.len() || (lines[i + ser_scalar_lines(
            ps,
        ).len()].len() > 0 && lines[i + ser_scalar_lines(ps).len()][0] == '['),
    ensures
        parse_scalars_l(lines, i) == Some(
            (scalar_pairs(ps), i + ser_scalar_lines(ps).len()),
        ),
    decreases ps.len(),
{
    let n = ser_scalar_lines(ps).len() as int;
    if ps.len() == 0 {
        assert(scalar_pairs(ps) =~= Seq::<(Seq<char>, ValueModel)>::empty());
        if i < lines.len() {
            assert(lines[i].len() > 0 && lines[i][0] == '[');
        }
    } else {
        assert(wf_value(ValueModel::Table(ps.skip(1)))) by {
            assert(forall|j: int|
                0 <= j < ps.skip(1).len() ==> (#[trigger] ps.skip(1)[j]) == ps[j + 1]);
        }
        if ps[0].1 is Table {
            assert(ser_scalar_lines(ps) =~= ser_scalar_lines(ps.skip(1)));
            assert(scalar_pairs(ps) =~= scalar_pairs(ps.skip(1)));
            lemma_scalars_consume(lines, i, ps.skip(1));
        } else {
            let l0 = key_line(ps[0].0, ps[0].1);
            assert(wf_key(ps[0].0) && wf_value(ps[0].1));
            assert(ser_scalar_lines(ps) == seq![l0] + ser_scalar_lines(ps.skip(1)));
            assert(lines[i] == l0) by {
                assert(lines.skip(i).take(n)[0] == lines[i]);
                assert(ser_scalar_lines(ps)[0] == l0);
            }
            lemma_key_line_good(ps[0].0, ps[0].1);
            assert(l0.len() > 0);
            assert(l0[0] == ps[0].0[0]);
            assert(is_key_char(l0[0]));
            assert(l0[0] != '[');
            lemma_parse_kv_line_rt(ps[0].0, ps[0].1);
            assert(i + 1 <= lines.len()) by {
                assert(n >= 1);
            }
            assert(lines.skip(i + 1).take(ser_scalar_lines(ps.skip(1)).len() as int)
                =~= ser_scalar_lines(ps.skip(1))) by {
                assert forall|t: int|
                    0 <= t < ser_scalar_lines(ps.skip(1)).len() implies lines.skip(i + 1)[t]
                    == ser_scalar_lines(ps.skip(1))[t] by {
                    assert(lines.skip(i + 1)[t] == lines[i + 1 + t]);
                    assert(lines.skip(i).take(n)[t + 1] == lines[i + 1 + t]);
                    assert(ser_scalar_lines(ps)[t + 1] == ser_scalar_lines(ps.skip(1))[t]);
                }
            }
            lemma_scalars_consume(lines, i + 1, ps.skip(1));
            assert(scalar_pairs(ps) =~= seq![(ps[0].0, ps[0].1)] + scalar_pairs(ps.skip(1)));
            assert(seq![(ps[0].0, ps[0].1)] =~= seq![ps[0]]);
        }
    }
}

/// The section blocks of a table's table pairs are consumed exactly, up
/// to a hard stop.
proof fn lemma_sections_consume(
    lines: Seq<Seq<char>>,
    i: int,
    ps: Seq<(Seq<char>, ValueModel)>,
    path: Seq<Seq<char>>,
)
    requires
        0 <= i <= lines.len(),
        wf_value(ValueModel::Table(ps)),
        forall|j: int| 0 <= j < path.len() ==> wf_key(#[trigger] path[j]),
        i + ser_table_lines(ps, path).len() <= lines.len(),
        lines.skip(i).take(ser_table_lines(ps, path).len() as int) == ser_table_lines(ps, path),
        hard_stop(lines, i + ser_table_lines(ps, path).len(), path),
    ensures
        parse_sections_l(lines, i, path) == Some(
            (table_pairs(ps), i + ser_table_lines(ps, path).len()),
        ),
    decreases ps, 4int,
{
    let n = ser_table_lines(ps, path).len() as int;
    if ps.len() == 0 {
        assert(table_pairs(ps) =~= Seq::<(Seq<char>, ValueModel)>::empty());
        if i < lines.len() {
            assert(lines[i].len() > 0 && lines[i][0] == '[');
            let sp = parse_section_line(lines[i])->Some_0;
            assert(!(sp.len() > path.len() && sp.take(path.len() as int) == path));
            if is_child_of(sp, path) {
                assert(sp.len() > path.len());
                assert(false);
            }
        }
    } else {
        assert(wf_value(ValueModel::Table(ps.skip(1)))) by {
            assert(forall|j: int|
                0 <= j < ps.skip(1).len() ==> (#[trigger] ps.skip(1)[j]) == ps[j + 1]);
        }
        match ps[0].1 {
            ValueModel::Table(inner) => {
                let path2 = path.push(ps[0].0);
                assert(wf_key(ps[0].0) && wf_value(ps[0].1));
                assert(forall|j: int| 0 <= j < path2.len() ==> wf_key(#[trigger] path2[j]));
                let block = seq![section_line(path2)] + ser_body_lines(inner, path2);
                assert(ser_table_lines(ps, path) == block + ser_table_lines(ps.skip(1), path));
                assert(path2.len() >= 1);
                assert(lines[i] == section_line(path2)) by {
                    assert(lines.skip(i).take(n)[0] == lines[i]);
                    assert(ser_table_lines(ps, path)[0] == section_line(path2));
                }
                lemma_section_line_good(path2);
                lemma_parse_section_line_rt(path2);
                assert(is_child_of(path2, path)) by {
                    assert(path2.take(path.len() as int) =~= path);
                }
                let bl = ser_body_lines(inner, path2).len() as int;
                let j = i + 1 + bl;
                assert(lines.skip(i + 1).take(bl) =~= ser_body_lines(inner, path2)) by {
                    assert forall|t: int|
                        0 <= t < bl implies lines.skip(i + 1)[t] == ser_body_lines(
                        inner,
                        path2,
                    )[t] by {
                        assert(lines.skip(i + 1)[t] == lines[i + 1 + t]);
                        assert(lines.skip(i).take(n)[t + 1] == lines[i + 1 + t]);
                        assert(ser_table_lines(ps, path)[t + 1] == block[t + 1]);
                        assert(block[t + 1] == ser_body_lines(inner, path2)[t]);
                    }
                }
                assert(hard_stop(lines, j, path2)) by {
                    if j < lines.len() {
                        if ser_table_lines(ps.skip(1), path).len() > 0 {
                            lemma_table_lines_head(ps.skip(1), path);
                            let k = choose|k: int|
                                0 <= k < ps.skip(1).len() && (#[trigger] ps.skip(1)[k]).1
                                    is Table && ser_table_lines(ps.skip(1), path)[0]
                                    == section_line(path.push(ps.skip(1)[k].0));
                            let sib = path.push(ps.skip(1)[k].0);
                            assert(lines[j] == section_line(sib)) by {
                                assert(lines.skip(i).take(n)[1 + bl] == lines[j]);
                                assert(ser_table_lines(ps, path)[1 + bl] == ser_table_lines(
                                    ps.skip(1),
                                    path,
                                )[0]);
                            }
                            assert(wf_key(ps.skip(1)[k].0)) by {
                                assert(ps.skip(1)[k] == ps[k + 1]);
                            }
                            assert(forall|t: int|
                                0 <= t < sib.len() ==> wf_key(#[trigger] sib[t]));
                            lemma_section_line_good(sib);
                            lemma_parse_section_line_rt(sib);
                            assert(sib.len() == path2.len());
                            assert(!(sib.len() > path2.len()));
                        } else {
                            assert(j == i + n);
                            assert(hard_stop(lines, j, path));
                            let sp = parse_section_line(lines[j])->Some_0;
                            if sp.len() > path2.len() && sp.take(path2.len() as int) == path2 {
                                assert(sp.take(path.len() as int) =~= path) by {
                                    assert forall|t: int|
                                        0 <= t < path.len() implies sp.take(path.len() as int)[t]
                                        == path[t] by {
                                        assert(sp[t] == sp.take(path2.len() as int)[t]);
                                        assert(path2[t] == path[t]);
                                    }
                                }
                                assert(sp.len() > path.len());
                                assert(false);
                            }
                        }
                    }
                }
                lemma_body_consume(lines, i + 1, inner, path2);
                assert(i + 1 <= j && j <= lines.len());
                assert(lines.skip(j).take(ser_table_lines(ps.skip(1), path).len() as int)
                    =~= ser_table_lines(ps.skip(1), path)) by {
                    assert forall|t: int|
                        0 <= t < ser_table_lines(ps.skip(1), path).len() implies lines.skip(j)[t]
                        == ser_table_lines(ps.skip(1), path)[t] by {
                        assert(lines.skip(j)[t] == lines[j + t]);
                        assert(lines.skip(i).take(n)[1 + bl + t] == lines[j + t]);
                        assert(ser_table_lines(ps, path)[1 + bl + t] == ser_table_lines(
                            ps.skip(1),
                            path,
                        )[t]);
                    }
                }
                assert(hard_stop(lines, j + ser_table_lines(ps.skip(1), path).len(), path)) by {
                    assert(j + ser_table_lines(ps.skip(1), path).len() == i + n);
                }
                lemma_sections_consume(lines, j, ps.skip(1), path);
                assert(table_pairs(ps) =~= seq![(path2.last(), ValueModel::Table(inner))]
                    + table_pairs(ps.skip(1))) by {
                    assert(path2.last() == ps[0].0);
                    assert((path2.last(), ValueModel::Table(inner)) == ps[0]);
                }
            },
            _ => {
                assert(ser_table_lines(ps, path) =~= ser_table_lines(ps.skip(1), path));
                assert(table_pairs(ps) =~= table_pairs(ps.skip(1)));
                lemma_sections_consume(lines, i, ps.skip(1), path);
            },
        }
    }
}

/// A table body's lines are consumed exactly, giving back the table.
proof fn lemma_body_consume(
    lines: Seq<Seq<char>>,
    i: int,
    ps: Seq<(Seq<char>, ValueModel)>,
    path: Seq<Seq<char>>,
)
    requires
        0 <= i <= lines.len(),
        wf_value(ValueModel::Table(ps)),
        forall|j: int| 0 <= j < path.len() ==> wf_key(#[trigger] path[j]),
        i + ser_body_lines(ps, path).len() <= lines.len(),
        lines.skip(i).take(ser_body_lines(ps, path).len() as int) == ser_body_lines(ps, path),
        hard_stop(lines, i + ser_body_lines(ps, path).len(), path),
    ensures
        parse_body_l(lines, i, path) == Some((ps, i + ser_body_lines(ps, path).len())),
    decreases ps, 5int,
{
    let sc = ser_scalar_lines(ps);
    let tb = ser_table_lines(ps, path);
    let n = ser_body_lines(ps, path).len() as int;
    assert(ser_body_lines(ps, path) == sc + tb);
    assert(lines.skip(i).take(sc.len() as int) =~= sc) by {
        assert forall|t: int| 0 <= t < sc.len() implies lines.skip(i)[t] == sc[t] by {
            assert(lines.skip(i).take(n)[t] == lines.skip(i)[t]);
            assert(ser_body_lines(ps, path)[t] == sc[t]);
        }
    }
    let m1 = i + sc.len();
    assert(m1 == lines.len() || (lines[m1 as int].len() > 0 && lines[m1 as int][0] == '[')) by {
        if m1 < lines.len() {
            if tb.len() > 0 {
                lemma_table_lines_head(ps, path);
                let k = choose|k: int|
                    0 <= k < ps.len() && (#[trigger] ps[k]).1 is Table && tb[0] == section_line(
                        path.push(ps[k].0),
                    );
                assert(lines[m1 as int] == tb[0]) by {
                    assert(lines.skip(i).take(n)[sc.len() as int] == lines[m1 as int]);
                    assert(ser_body_lines(ps, path)[sc.len() as int] == tb[0]);
                }
                assert(wf_key(ps[k].0));
                let c2 = path.push(ps[k].0);
                assert(forall|t: int| 0 <= t < c2.len() ==> wf_key(#[trigger] c2[t]));
                lemma_section_line_good(c2);
                assert(tb[0][0] == '[');
                assert(tb[0].len() > 0);
            } else {
                assert(m1 == i + n);
                assert(hard_stop(lines, m1, path));
            }
        }
    }
    lemma_scalars_consume(lines, i, ps);
    assert(lines.skip(m1).take(tb.len() as int) =~= tb) by {
        assert forall|t: int| 0 <= t < tb.len() implies lines.skip(m1)[t] == tb[t] by {
            assert(lines.skip(m1)[t] == lines[m1 + t]);
            assert(lines.skip(i).take(n)[sc.len() + t] == lines[m1 + t]);
            assert(ser_body_lines(ps, path)[sc.len() + t] == tb[t]);
        }
    }
    assert(hard_stop(lines, m1 + tb.len(), path)) by {
        assert(m1 + tb.len() == i + n);
    }
    lemma_sections_consume(lines, m1, ps, path);
    lemma_ordered_split(ps);
}

/// Splitting after one newline-free line.
proof fn lemma_split_line_at(s: Seq<char>, i: int, l: Seq<char>, rest: Seq<char>)
    requires
        0 <= i <= s.len(),
        s.skip(i) == l + seq!['\n'] + rest,
        forall|t: int| 0 <= t < l.len() ==> (#[trigger] l[t]) != '\n',
    ensures
        split_lines_from(s, i) == seq![l] + split_lines_from(s, i + l.len() + 1),
    decreases l.len(),
{
    let whole = l + seq!['\n'];
    assert(s.skip(i) =~= whole + rest);
    lemma_char_at(s, i, whole, rest, 0);
    if l.len() == 0 {
        assert(s[i] == '\n');
        assert(l =~= Seq::<char>::empty());
        assert(seq![l] =~= seq![Seq::<char>::empty()]);
    } else {
        assert(s[i] == l[0]);
        assert(s[i] != '\n');
        lemma_suffix_at(s, i, whole, rest, 1);
        assert(whole.skip(1) =~= l.skip(1) + seq!['\n']);
        assert(s.skip(i + 1) =~= l.skip(1) + seq!['\n'] + rest);
        lemma_split_line_at(s, i + 1, l.skip(1), rest);
        let r = split_lines_from(s, i + 1);
        assert(r == seq![l.skip(1)] + split_lines_from(s, i + l.len() + 1));
        assert(r.len() >= 1);
        assert(r[0] == l.skip(1));
        assert(seq![s[i]] + r[0] =~= l);
        assert(r.skip(1) =~= split_lines_from(s, i + l.len() + 1));
        assert(split_lines_from(s, i) =~= seq![l] + split_lines_from(s, i + l.len() + 1));
    }
}

/// A block of newline-free lines, each written with its terminator,
/// splits back into exactly those lines.
proof fn lemma_split_block(s: Seq<char>, i: int, lines: Seq<Seq<char>>)
    requires
        0 <= i <= s.len(),
        s.skip(i) == concat_lines(lines),
        forall|j: int, t: int|
            0 <= j < lines.len() && 0 <= t < lines[j].len() ==> (#[trigger] lines[j][t]) != '\n',
    ensures
        split_lines_from(s, i) == lines,
    decreases lines.len(),
{
    if lines.len() == 0 {
        assert(concat_lines(lines).len() == 0);
        assert(i >= s.len());
        assert(split_lines_from(s, i) =~= lines);
    } else {
        let l0 = lines[0];
        assert(concat_lines(lines) == l0 + seq!['\n'] + concat_lines(lines.skip(1)));
        assert(s.skip(i) =~= l0 + seq!['\n'] + concat_lines(lines.skip(1)));
        assert(forall|t: int| 0 <= t < l0.len() ==> (#[trigger] l0[t]) != '\n');
        lemma_split_line_at(s, i, l0, concat_lines(lines.skip(1)));
        let whole = l0 + seq!['\n'];
        assert(s.skip(i) =~= whole + concat_lines(lines.skip(1)));
        lemma_suffix_at(s, i, whole, concat_lines(lines.skip(1)), whole.len() as int);
        assert(whole.skip(whole.len() as int) =~= Seq::<char>::empty());
        assert(s.skip(i + l0.len() + 1) =~= concat_lines(lines.skip(1)));
        assert(forall|j: int, t: int|
            0 <= j < lines.skip(1).len() && 0 <= t < lines.skip(1)[j].len() ==> (
            #[trigger] lines.skip(1)[j][t]) != '\n');
        lemma_split_block(s, i + l0.len() + 1, lines.skip(1));
        assert(seq![l0] + lines.skip(1) =~= lines);
    }
}

/// The round-trip law of the entry text: an entry whose header is a
/// well-formed table — bare keys, well-formed lexemes, no tables inside
/// arrays, scalar pairs before table pairs — serializes to a text that
/// parses back to exactly the same header pairs and content.
pub proof fn lemma_entry_round_trip(ps: Seq<(Seq<char>, ValueModel)>, content: Seq<char>)
    requires
        wf_value(ValueModel::Table(ps)),
    ensures
        parse_entry_text(ser_entry_text(ps, content)) == ParseOutcome::Parsed(ps, content),
{
    let s = ser_entry_text(ps, content);
    let h = header_text(ps);
    let hl = h.len() as int;
    let lines = ser_body_lines(ps, Seq::empty());
    lemma_frame_recovery(ps, content);
    let region = s.subrange(4, 4 + hl);
    assert(region == h);
    assert(region.skip(0) =~= concat_lines(lines));
    lemma_body_lines_good(ps, Seq::empty());
    assert forall|j: int, t: int|
        0 <= j < lines.len() && 0 <= t < lines[j].len() implies (#[trigger] lines[j][t])
        != '\n' by {
        assert(good_line(lines[j]));
    }
    lemma_split_block(region, 0, lines);
    assert(lines.skip(0) =~= lines);
    assert(lines.skip(0).take(lines.len() as int) =~= lines);
    assert(hard_stop(lines, lines.len() as int, Seq::empty()));
    lemma_body_consume(lines, 0, ps, Seq::empty());
}

} // verus!
