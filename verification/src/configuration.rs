//! Reading the store configuration.
//!
//! The configuration is a header-value tree. The recognized keys are
//! `implicit-create` (a boolean), one `…-hook-aspects` list of aspect
//! names per hook position, and the `aspects` and `hooks` sub-tables.
//! Unknown keys are ignored, so tools can add their own.

use vstd::prelude::*;

use crate::error::{StoreError, StoreErrorKind};
use crate::value::{Value, ValueModel, table_lookup, pairs_model, seq_models, table_get,
    lemma_seq_models, lemma_pairs_model};

verus! {

/// If `key` is bound, it is a boolean.
pub open spec fn key_bool_ok(ps: Seq<(Seq<char>, ValueModel)>, key: Seq<char>) -> bool {
    match table_lookup(ps, key) {
        None => true,
        Some(ValueModel::Boolean(_)) => true,
        Some(_) => false,
    }
}

/// If `key` is bound, it is an array of text values.
pub open spec fn key_string_array_ok(ps: Seq<(Seq<char>, ValueModel)>, key: Seq<char>) -> bool {
    match table_lookup(ps, key) {
        None => true,
        Some(ValueModel::Array(es)) => forall|i: int|
            0 <= i < es.len() ==> (#[trigger] es[i]) is Text,
        Some(_) => false,
    }
}

/// If `key` is bound, it is a table.
pub open spec fn key_table_ok(ps: Seq<(Seq<char>, ValueModel)>, key: Seq<char>) -> bool {
    match table_lookup(ps, key) {
        None => true,
        Some(ValueModel::Table(_)) => true,
        Some(_) => false,
    }
}

/// A valid store configuration: absent, or a table whose recognized
/// keys have the right shapes.
pub open spec fn spec_config_valid(m: Option<ValueModel>) -> bool {
    match m {
        None => true,
        Some(ValueModel::Table(ps)) => {
            &&& key_bool_ok(ps, "implicit-create"@)
            &&& key_string_array_ok(ps, "store-unload-hook-aspects"@)
            &&& key_string_array_ok(ps, "pre-create-hook-aspects"@)
            &&& key_string_array_ok(ps, "post-create-hook-aspects"@)
            &&& key_string_array_ok(ps, "pre-retrieve-hook-aspects"@)
            &&& key_string_array_ok(ps, "post-retrieve-hook-aspects"@)
            &&& key_string_array_ok(ps, "pre-update-hook-aspects"@)
            &&& key_string_array_ok(ps, "post-update-hook-aspects"@)
            &&& key_string_array_ok(ps, "pre-delete-hook-aspects"@)
            &&& key_string_array_ok(ps, "post-delete-hook-aspects"@)
            &&& key_string_array_ok(ps, "pre-move-hook-aspects"@)
            &&& key_string_array_ok(ps, "post-move-hook-aspects"@)
            &&& key_table_ok(ps, "aspects"@)
            &&& key_table_ok(ps, "hooks"@)
        },
        Some(_) => false,
    }
}

fn check_bool_key(t: &Vec<(String, Value)>, key: &str) -> (r: bool)
    ensures
        r == key_bool_ok(pairs_model(t@), key@),
{
    match table_get(t, key) {
        None => true,
        Some(v) => match v {
            Value::Boolean(_) => true,
            _ => false,
        },
    }
}

fn check_string_array_key(t: &Vec<(String, Value)>, key: &str) -> (r: bool)
    ensures
        r == key_string_array_ok(pairs_model(t@), key@),
{
    match table_get(t, key) {
        None => true,
        Some(v) => match v {
            Value::Array(es) => {
                proof {
                    lemma_seq_models(es@);
                    assert(v@ == ValueModel::Array(seq_models(es@)));
                }
                let mut i: usize = 0;
                while i < es.len()
                    invariant
                        i <= es@.len(),
                        seq_models(es@).len() == es@.len(),
                        table_lookup(pairs_model(t@), key@) == Some(
                            ValueModel::Array(seq_models(es@)),
                        ),
                        forall|j: int|
                            0 <= j < es@.len() ==> seq_models(es@)[j] == crate::value::value_model(
                                es@[j],
                            ),
                        forall|j: int| 0 <= j < i ==> (#[trigger] seq_models(es@)[j]) is Text,
                    decreases es@.len() - i,
                {
                    match &es[i] {
                        Value::Text(_) => {},
                        _ => {
                            proof {
                                let esm = seq_models(es@);
                                assert(!(forall|j: int|
                                    0 <= j < esm.len() ==> (#[trigger] esm[j]) is Text)) by {
                                    assert(!(esm[i as int] is Text));
                                }
                                assert(!key_string_array_ok(pairs_model(t@), key@));
                            }
                            return false;
                        },
                    }
                    i = i + 1;
                }
                true
            },
            _ => false,
        },
    }
}

fn check_table_key(t: &Vec<(String, Value)>, key: &str) -> (r: bool)
    ensures
        r == key_table_ok(pairs_model(t@), key@),
{
    match table_get(t, key) {
        None => true,
        Some(v) => match v {
            Value::Table(_) => true,
            _ => false,
        },
    }
}

/// Checks a store configuration; an invalid one is a
/// `ConfigurationError`.
pub fn config_is_valid(config: &Option<Value>) -> (r: Result<(), StoreError>)
    ensures
        r is Ok <==> spec_config_valid(opt_model(*config)),
        r matches Err(e) ==> e.chain() == seq![StoreErrorKind::ConfigurationError],
{
    let ok: bool = match config {
        None => true,
        Some(v) => match v {
            Value::Table(t) => check_bool_key(t, "implicit-create") && check_string_array_key(
                t,
                "store-unload-hook-aspects",
            ) && check_string_array_key(t, "pre-create-hook-aspects") && check_string_array_key(
                t,
                "post-create-hook-aspects",
            ) && check_string_array_key(t, "pre-retrieve-hook-aspects") && check_string_array_key(
                t,
                "post-retrieve-hook-aspects",
            ) && check_string_array_key(t, "pre-update-hook-aspects") && check_string_array_key(
                t,
                "post-update-hook-aspects",
            ) && check_string_array_key(t, "pre-delete-hook-aspects") && check_string_array_key(
                t,
                "post-delete-hook-aspects",
            ) && check_string_array_key(t, "pre-move-hook-aspects") && check_string_array_key(
                t,
                "post-move-hook-aspects",
            ) && check_table_key(t, "aspects") && check_table_key(t, "hooks"),
            _ => false,
        },
    };
    if ok {
        Ok(())
    } else {
        Err(StoreError::new(StoreErrorKind::ConfigurationError))
    }
}

/// The model of an optional configuration value.
pub open spec fn opt_model(c: Option<Value>) -> Option<ValueModel> {
    match c {
        Some(v) => Some(crate::value::value_model(v)),
        None => None,
    }
}

/// The text values of an array, where it is one of texts.
pub open spec fn text_items(es: Seq<ValueModel>) -> Seq<Seq<char>> {
    Seq::new(
        es.len(),
        |i: int|
            match es[i] {
                ValueModel::Text(s) => s,
                _ => Seq::empty(),
            },
    )
}

/// The aspect names configured under `key`, in order; an absent or
/// ill-shaped key yields none.
pub open spec fn spec_aspect_names(m: Option<ValueModel>, key: Seq<char>) -> Seq<Seq<char>> {
    match m {
        Some(ValueModel::Table(ps)) => match table_lookup(ps, key) {
            Some(ValueModel::Array(es)) => if forall|i: int|
                0 <= i < es.len() ==> (#[trigger] es[i]) is Text {
                text_items(es)
            } else {
                Seq::empty()
            },
            _ => Seq::empty(),
        },
        _ => Seq::empty(),
    }
}

/// Reads the aspect names configured under `key`.
pub fn aspect_names(config: &Option<Value>, key: &str) -> (r: Vec<String>)
    ensures
        crate::storeid::comps_model(r@) == spec_aspect_names(opt_model(*config), key@),
{
    let empty: Vec<String> = Vec::new();
    proof {
        assert(crate::storeid::comps_model(empty@) =~= Seq::<Seq<char>>::empty());
    }
    match config {
        None => empty,
        Some(v) => match v {
            Value::Table(t) => match table_get(t, key) {
                Some(arr) => match arr {
                    Value::Array(es) => {
                        proof {
                            lemma_seq_models(es@);
                            assert(arr@ == ValueModel::Array(seq_models(es@)));
                        }
                        let mut names: Vec<String> = Vec::new();
                        let mut i: usize = 0;
                        while i < es.len()
                            invariant
                                i <= es@.len(),
                                seq_models(es@).len() == es@.len(),
                                opt_model(*config) matches Some(cm) && cm is Table
                                    && table_lookup(cm->Table_0, key@) == Some(
                                    ValueModel::Array(seq_models(es@)),
                                ),
                                crate::storeid::comps_model(empty@) == Seq::<Seq<char>>::empty(),
                                forall|j: int|
                                    0 <= j < es@.len() ==> seq_models(es@)[j]
                                        == crate::value::value_model(es@[j]),
                                names@.len() == i,
                                forall|j: int|
                                    0 <= j < i ==> (#[trigger] seq_models(es@)[j]) is Text,
                                forall|j: int|
                                    0 <= j < i ==> names@[j]@ == text_items(seq_models(es@))[j],
                            decreases es@.len() - i,
                        {
                            match &es[i] {
                                Value::Text(s) => {
                                    names.push(s.clone());
                                },
                                _ => {
                                    proof {
                                        let esm = seq_models(es@);
                                        assert(!(forall|j: int|
                                            0 <= j < esm.len() ==> (#[trigger] esm[j]) is Text))
                                            by {
                                            assert(!(esm[i as int] is Text));
                                        }
                                        assert(spec_aspect_names(opt_model(*config), key@) =~= Seq::<
                                            Seq<char>,
                                        >::empty());
                                    }
                                    return empty;
                                },
                            }
                            i = i + 1;
                        }
                        proof {
                            assert(crate::storeid::comps_model(names@) =~= text_items(
                                seq_models(es@),
                            ));
                        }
                        names
                    },
                    _ => empty,
                },
                None => empty,
            },
            _ => empty,
        },
    }
}

/// The configuration sub-tree at `section.name`, if any.
pub open spec fn spec_section_entry(
    m: Option<ValueModel>,
    section: Seq<char>,
    name: Seq<char>,
) -> Option<ValueModel> {
    match m {
        Some(ValueModel::Table(ps)) => match table_lookup(ps, section) {
            Some(ValueModel::Table(qs)) => table_lookup(qs, name),
            _ => None,
        },
        _ => None,
    }
}

/// Reads a copy of the configuration sub-tree at `section.name`.
pub fn section_entry(config: &Option<Value>, section: &str, name: &str) -> (r: Option<Value>)
    ensures
        match r {
            Some(v) => spec_section_entry(opt_model(*config), section@, name@) == Some(v@),
            None => spec_section_entry(opt_model(*config), section@, name@) is None,
        },
{
    match config {
        None => None,
        Some(v) => match v {
            Value::Table(t) => match table_get(t, section) {
                Some(sec) => match sec {
                    Value::Table(qs) => match table_get(qs, name) {
                        Some(x) => Some(crate::value::duplicate(x)),
                        None => None,
                    },
                    _ => None,
                },
                None => None,
            },
            _ => None,
        },
    }
}

} // verus!
