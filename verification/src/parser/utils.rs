//! Turning captures into typed pieces: numbers, strings, columns,
//! comparisons, and schemas.

use vstd::prelude::*;

use crate::database::{Attribute, AttributeType, DatabaseTable};
use crate::error::UserError;
use crate::parser::patterns::{all_digits, is_digit};
use crate::text::{chars_of, chars_to_string, lower_chars_spec, str_eq};
use crate::value::{AttrV, DataAttribute};

verus! {

/// The number a digit sequence spells, highest digit first.
pub open spec fn digits_val(s: Seq<char>) -> int
    decreases s.len(),
{
    if s.len() == 0 {
        0
    } else {
        digits_val(s.drop_last()) * 10 + (s.last() as int - 48)
    }
}

proof fn lemma_digits_val_nonneg(s: Seq<char>)
    requires
        forall|i: int| 0 <= i < s.len() ==> is_digit(#[trigger] s[i]),
    ensures
        digits_val(s) >= 0,
    decreases s.len(),
{
    if s.len() > 0 {
        lemma_digits_val_nonneg(s.drop_last());
        assert(s.last() as int >= 48);
    }
}

proof fn lemma_digits_val_prefix(s: Seq<char>, i: int)
    requires
        0 <= i <= s.len(),
        forall|j: int| 0 <= j < s.len() ==> is_digit(#[trigger] s[j]),
    ensures
        digits_val(s.take(i)) <= digits_val(s),
    decreases s.len() - i,
{
    if i < s.len() {
        lemma_digits_val_prefix(s, i + 1);
        assert(s.take(i + 1).drop_last() =~= s.take(i));
        assert(s.take(i + 1).last() == s[i]);
        lemma_digits_val_nonneg(s.take(i));
        assert(digits_val(s.take(i)) * 10 >= digits_val(s.take(i)));
        assert(digits_val(s.take(i)) <= digits_val(s.take(i + 1)));
    } else {
        assert(s.take(i) =~= s);
    }
}

/// The integer a capture spells: an optional sign, then digits, within the
/// range of `i64`.
pub open spec fn parse_i64_spec(s: Seq<char>) -> Option<i64> {
    let neg = s.len() > 0 && s[0] == '-';
    let ds = if s.len() > 0 && (s[0] == '-' || s[0] == '+') {
        s.drop_first()
    } else {
        s
    };
    if !all_digits(ds) {
        None
    } else {
        let v = digits_val(ds);
        if neg {
            if v <= 0x8000_0000_0000_0000 {
                Some((-v) as i64)
            } else {
                None
            }
        } else {
            if v <= 0x7fff_ffff_ffff_ffff {
                Some(v as i64)
            } else {
                None
            }
        }
    }
}

fn parse_digits(ds: &Vec<char>, bound: u64) -> (r: Option<u64>)
    requires
        bound >= 9,
    ensures
        match r {
            Some(v) => all_digits(ds@) && v as int == digits_val(ds@) && v <= bound,
            None => !all_digits(ds@) || digits_val(ds@) > bound,
        },
{
    if ds.len() == 0 {
        return None;
    }
    let mut acc: u64 = 0;
    let mut i: usize = 0;
    proof {
        assert(ds@.take(0) =~= Seq::<char>::empty());
    }
    while i < ds.len()
        invariant
            bound >= 9,
            i <= ds@.len(),
            ds@.len() > 0,
            forall|j: int| 0 <= j < i ==> is_digit(#[trigger] ds@[j]),
            acc as int == digits_val(ds@.take(i as int)),
            acc <= bound,
        decreases ds@.len() - i,
    {
        let c = ds[i];
        if !('0' <= c && c <= '9') {
            return None;
        }
        let d: u64 = (c as u32 - 48) as u64;
        proof {
            assert(c as u32 >= 48 && c as u32 <= 57);
            assert(d <= 9);
            assert(ds@.take(i + 1).drop_last() =~= ds@.take(i as int));
            assert(ds@.take(i + 1).last() == ds@[i as int]);
        }
        if acc > (bound - d) / 10 {
            proof {
                assert(digits_val(ds@.take(i + 1)) == acc * 10 + d);
                assert(acc * 10 + d > bound) by (nonlinear_arith)
                    requires
                        acc > (bound - d) / 10,
                        d <= 9,
                        bound >= d,
                        acc >= 0,
                {}
                assert forall|j: int| 0 <= j < ds@.len() implies is_digit(
                    #[trigger] ds@[j],
                ) || !all_digits(ds@) by {}
                if all_digits(ds@) {
                    lemma_digits_val_prefix(ds@, i + 1);
                }
            }
            return None;
        }
        proof {
            assert(acc * 10 + d <= bound) by (nonlinear_arith)
                requires
                    acc <= (bound - d) / 10,
                    d <= 9,
                    bound >= d,
                    acc >= 0,
            {}
        }
        acc = acc * 10 + d;
        i = i + 1;
    }
    proof {
        assert(ds@.take(ds@.len() as int) =~= ds@);
    }
    Some(acc)
}

/// Reads an integer capture.
pub fn parse_i64(val: &str) -> (r: Result<i64, UserError>)
    ensures
        match r {
            Ok(n) => parse_i64_spec(val@) == Some(n),
            Err(e) => parse_i64_spec(val@) is None && e == UserError::SyntaxError,
        },
{
    let cs = chars_of(val);
    let (neg, ds) = if cs.len() > 0 && (cs[0] == '-' || cs[0] == '+') {
        let neg = cs[0] == '-';
        let mut rest: Vec<char> = Vec::new();
        let mut i: usize = 1;
        while i < cs.len()
            invariant
                1 <= i <= cs@.len(),
                rest@ == cs@.subrange(1, i as int),
            decreases cs@.len() - i,
        {
            rest.push(cs[i]);
            proof {
                assert(cs@.subrange(1, i + 1) =~= cs@.subrange(1, i as int).push(cs@[i as int]));
            }
            i = i + 1;
        }
        proof {
            assert(cs@.subrange(1, cs@.len() as int) =~= cs@.drop_first());
        }
        (neg, rest)
    } else {
        (false, cs)
    };
    let bound: u64 = if neg {
        0x8000_0000_0000_0000
    } else {
        0x7fff_ffff_ffff_ffff
    };
    match parse_digits(&ds, bound) {
        None => Err(UserError::SyntaxError),
        Some(v) => {
            if neg {
                if v == 0x8000_0000_0000_0000 {
                    Ok(i64::MIN)
                } else {
                    Ok(-(v as i64))
                }
            } else {
                Ok(v as i64)
            }
        },
    }
}

/// The text between the quotes of a quoted capture.
pub open spec fn parse_string_spec(s: Seq<char>) -> Option<Seq<char>> {
    if s.len() >= 2 && ((s[0] == '\'' && s.last() == '\'') || (s[0] == '"' && s.last() == '"')) {
        Some(s.subrange(1, s.len() - 1))
    } else {
        None
    }
}

/// Strips the quotes off a quoted capture.
pub fn parse_string(val: &str) -> (r: Result<&str, UserError>)
    ensures
        match r {
            Ok(s) => parse_string_spec(val@) == Some(s@),
            Err(e) => parse_string_spec(val@) is None && e == UserError::SyntaxError,
        },
{
    let n = val.unicode_len();
    if n < 2 {
        return Err(UserError::SyntaxError);
    }
    let first = val.get_char(0);
    let last = val.get_char(n - 1);
    if (first == '\'' && last == '\'') || (first == '"' && last == '"') {
        Ok(val.substring_char(1, n - 1))
    } else {
        Err(UserError::SyntaxError)
    }
}

/// A comparison term: a column name, or a literal value.
#[derive(Debug, PartialEq)]
pub enum CmpTerm {
    Ident(String),
    Val(DataAttribute),
}

/// Mathematical model of a comparison term.
pub enum CmpTermV {
    Ident(Seq<char>),
    Val(AttrV),
}

impl View for CmpTerm {
    type V = CmpTermV;

    open spec fn view(&self) -> CmpTermV {
        match self {
            CmpTerm::Ident(s) => CmpTermV::Ident(s@),
            CmpTerm::Val(v) => CmpTermV::Val(v@),
        }
    }
}

/// How one side of a comparison reads: single-quoted text is a string
/// value, double-quoted text a column name, an integer a number, and
/// anything else a bare column name.
pub open spec fn parse_term_spec(s: Seq<char>) -> CmpTermV {
    if s.len() >= 2 && s[0] == '\'' && s.last() == '\'' {
        CmpTermV::Val(AttrV::Str(s.subrange(1, s.len() - 1)))
    } else if s.len() >= 2 && s[0] == '"' && s.last() == '"' {
        CmpTermV::Ident(s.subrange(1, s.len() - 1))
    } else if parse_i64_spec(s) is Some {
        CmpTermV::Val(AttrV::Num(parse_i64_spec(s).unwrap() as int))
    } else {
        CmpTermV::Ident(s)
    }
}

/// Reads one side of a comparison.
pub fn parse_comparison_term(term: &str) -> (r: CmpTerm)
    ensures
        r@ == parse_term_spec(term@),
{
    let n = term.unicode_len();
    if n >= 2 && term.get_char(0) == '\'' && term.get_char(n - 1) == '\'' {
        let inner = term.substring_char(1, n - 1);
        CmpTerm::Val(DataAttribute::String(inner.to_owned()))
    } else if n >= 2 && term.get_char(0) == '"' && term.get_char(n - 1) == '"' {
        let inner = term.substring_char(1, n - 1);
        CmpTerm::Ident(inner.to_owned())
    } else {
        match parse_i64(term) {
            Ok(num) => CmpTerm::Val(DataAttribute::Number(num)),
            Err(_) => CmpTerm::Ident(term.to_owned()),
        }
    }
}

/// The position of the column of this name, or -1.
pub open spec fn col_index(schema: Seq<(Seq<char>, AttributeType)>, name: Seq<char>) -> int
    decreases schema.len(),
{
    if schema.len() == 0 {
        -1
    } else if schema[0].0 == name {
        0
    } else {
        let r = col_index(schema.drop_first(), name);
        if r == -1 {
            -1
        } else {
            r + 1
        }
    }
}

proof fn lemma_col_index(schema: Seq<(Seq<char>, AttributeType)>, name: Seq<char>)
    ensures
        col_index(schema, name) == -1 ==> forall|i: int|
            0 <= i < schema.len() ==> (#[trigger] schema[i]).0 != name,
        col_index(schema, name) != -1 ==> 0 <= col_index(schema, name) < schema.len() && schema[
            col_index(schema, name)
        ].0 == name,
    decreases schema.len(),
{
    if schema.len() > 0 && schema[0].0 != name {
        lemma_col_index(schema.drop_first(), name);
        let r = col_index(schema.drop_first(), name);
        if r == -1 {
            assert forall|i: int| 0 <= i < schema.len() implies (#[trigger] schema[i]).0
                != name by {
                if i > 0 {
                    assert(schema.drop_first()[i - 1] == schema[i]);
                }
            }
        } else {
            assert(schema.drop_first()[r] == schema[r + 1]);
        }
    }
}

/// Finds a column by name, and whether it is the primary-key column.
pub fn describe_col(col: &str, table: &DatabaseTable) -> (r: Result<(usize, bool), UserError>)
    ensures
        match r {
            Ok(p) => col_index(table@, col@) == p.0 as int && p.0 < table@.len() && p.1 == (
            table@[p.0 as int].1 == AttributeType::Id),
            Err(e) => col_index(table@, col@) == -1 && e == UserError::Other("Column not found"),
        },
{
    let n = table.attributes.len();
    let mut i: usize = 0;
    while i < n
        invariant
            i <= n,
            n == table@.len(),
            forall|j: int| 0 <= j < i ==> (#[trigger] table@[j]).0 != col@,
        decreases n - i,
    {
        if str_eq(table.attributes[i].name.as_str(), col) {
            proof {
                lemma_col_index_skip(table@, col@, i as int);
            }
            let is_pk = match table.attributes[i].attribute_type {
                AttributeType::Id => true,
                _ => false,
            };
            return Ok((i, is_pk));
        }
        i = i + 1;
    }
    proof {
        lemma_col_index_skip(table@, col@, n as int);
    }
    Err(UserError::Other("Column not found"))
}

/// The view of a parsed value list.
pub open spec fn vals_view(s: Seq<DataAttribute>) -> Seq<AttrV> {
    Seq::new(s.len(), |i: int| s[i]@)
}

/// The type a column definition's type text names; `primary key` makes an
/// integer column the id column and is refused on any other type.
pub open spec fn parse_attr_type_spec(s: Seq<char>) -> Result<AttributeType, UserError> {
    if s == "int"@ || s == "integer"@ {
        Ok(AttributeType::Number)
    } else if s == "int primary key"@ || s == "integer primary key"@ {
        Ok(AttributeType::Id)
    } else if s == "string"@ || s == "varchar"@ || s == "text"@ {
        Ok(AttributeType::String)
    } else if s == "data"@ || s == "blob"@ {
        Ok(AttributeType::Data)
    } else if s == "string primary key"@ || s == "varchar primary key"@ || s
        == "text primary key"@ || s == "data primary key"@ || s == "blob primary key"@ {
        Err(UserError::Other("Only integers supported for primary keys"))
    } else {
        Err(UserError::SyntaxError)
    }
}

/// Reads a (lowered) column type text.
pub fn parse_attr_type(attr_type: &str) -> (r: Result<AttributeType, UserError>)
    ensures
        r == parse_attr_type_spec(attr_type@),
{
    if str_eq(attr_type, "int") || str_eq(attr_type, "integer") {
        Ok(AttributeType::Number)
    } else if str_eq(attr_type, "int primary key") || str_eq(attr_type, "integer primary key") {
        Ok(AttributeType::Id)
    } else if str_eq(attr_type, "string") || str_eq(attr_type, "varchar") || str_eq(
        attr_type,
        "text",
    ) {
        Ok(AttributeType::String)
    } else if str_eq(attr_type, "data") || str_eq(attr_type, "blob") {
        Ok(AttributeType::Data)
    } else if str_eq(attr_type, "string primary key") || str_eq(attr_type, "varchar primary key")
        || str_eq(attr_type, "text primary key") || str_eq(attr_type, "data primary key")
        || str_eq(attr_type, "blob primary key") {
        Err(UserError::Other("Only integers supported for primary keys"))
    } else {
        Err(UserError::SyntaxError)
    }
}

/// The schema spelled by alternating name and type captures; a trailing
/// unpaired capture is ignored.
pub open spec fn parse_attributes_spec(attrs: Seq<Seq<char>>) -> Result<
    Seq<(Seq<char>, AttributeType)>,
    UserError,
>
    decreases attrs.len(),
{
    if attrs.len() < 2 {
        Ok(Seq::empty())
    } else {
        match parse_attr_type_spec(attrs[1]) {
            Err(e) => Err(e),
            Ok(t) => match parse_attributes_spec(attrs.skip(2)) {
                Err(e) => Err(e),
                Ok(rest) => Ok(seq![(attrs[0], t)] + rest),
            },
        }
    }
}

fn parse_attributes_at(attrs: &Vec<String>, i: usize) -> (r: Result<Vec<Attribute>, UserError>)
    requires
        i <= attrs@.len(),
    ensures
        match r {
            Ok(v) => parse_attributes_spec(crate::parser::patterns::strs_view(attrs@).skip(i as int))
                == Ok::<Seq<(Seq<char>, AttributeType)>, UserError>(crate::database::schema_view(v@)),
            Err(e) => parse_attributes_spec(
                crate::parser::patterns::strs_view(attrs@).skip(i as int),
            ) == Err::<Seq<(Seq<char>, AttributeType)>, UserError>(e),
        },
    decreases attrs@.len() - i,
{
    let ghost sv = crate::parser::patterns::strs_view(attrs@);
    proof {
        assert forall|k: int| 0 <= k && i + k < sv.len() implies sv.skip(i as int)[k] == attrs@[
            i + k
        ]@ by {
            assert(sv.skip(i as int)[k] == sv[i + k]);
        }
    }
    if attrs.len() - i < 2 {
        let v: Vec<Attribute> = Vec::new();
        proof {
            assert(crate::database::schema_view(v@) =~= Seq::<(Seq<char>, AttributeType)>::empty());
        }
        return Ok(v);
    }
    let t = match parse_attr_type(attrs[i + 1].as_str()) {
        Ok(t) => t,
        Err(e) => {
            return Err(e);
        },
    };
    proof {
        assert(sv.skip(i as int).skip(2) =~= sv.skip(i + 2));
    }
    match parse_attributes_at(attrs, i + 2) {
        Ok(rest) => {
            let ghost rv = rest@;
            let mut v: Vec<Attribute> = Vec::new();
            v.push(Attribute { name: attrs[i].clone(), attribute_type: t });
            let mut rest = rest;
            v.append(&mut rest);
            proof {
                assert(crate::database::schema_view(v@) =~= seq![(sv[i as int], t)]
                    + crate::database::schema_view(rv));
            }
            Ok(v)
        },
        Err(e) => Err(e),
    }
}

/// Reads the column definitions of a `CREATE TABLE` statement.
pub fn parse_attributes(attrs: &Vec<String>) -> (r: Result<Vec<Attribute>, UserError>)
    ensures
        match r {
            Ok(v) => parse_attributes_spec(crate::parser::patterns::strs_view(attrs@)) == Ok::<
                Seq<(Seq<char>, AttributeType)>,
                UserError,
            >(crate::database::schema_view(v@)),
            Err(e) => parse_attributes_spec(crate::parser::patterns::strs_view(attrs@)) == Err::<
                Seq<(Seq<char>, AttributeType)>,
                UserError,
            >(e),
        },
{
    proof {
        assert(crate::parser::patterns::strs_view(attrs@).skip(0) =~= crate::parser::patterns::strs_view(
            attrs@,
        ));
    }
    parse_attributes_at(attrs, 0)
}

/// The positions of named columns, resolved left to right.
pub open spec fn resolve_cols(
    cols: Seq<Seq<char>>,
    schema: Seq<(Seq<char>, AttributeType)>,
) -> Result<Seq<usize>, UserError>
    decreases cols.len(),
{
    if cols.len() == 0 {
        Ok(Seq::empty())
    } else {
        let ix = col_index(schema, cols[0]);
        if ix == -1 {
            Err(UserError::Other("Column not found"))
        } else {
            match resolve_cols(cols.drop_first(), schema) {
                Ok(r) => Ok(seq![ix as usize] + r),
                Err(e) => Err(e),
            }
        }
    }
}

/// The projection a `SELECT` column list names: the star is every column
/// in schema order, otherwise each named column's position.
pub open spec fn parse_selected_spec(
    cols: Seq<Seq<char>>,
    schema: Seq<(Seq<char>, AttributeType)>,
) -> Result<Seq<usize>, UserError> {
    if cols.len() == 1 && cols[0] == "*"@ {
        Ok(Seq::new(schema.len(), |i: int| i as usize))
    } else {
        resolve_cols(cols, schema)
    }
}

fn resolve_cols_at(cols: &Vec<String>, i: usize, table: &DatabaseTable) -> (r: Result<
    Vec<usize>,
    UserError,
>)
    requires
        i <= cols@.len(),
    ensures
        match r {
            Ok(v) => resolve_cols(crate::parser::patterns::strs_view(cols@).skip(i as int), table@)
                == Ok::<Seq<usize>, UserError>(v@),
            Err(e) => resolve_cols(crate::parser::patterns::strs_view(cols@).skip(i as int), table@)
                == Err::<Seq<usize>, UserError>(e),
        },
    decreases cols@.len() - i,
{
    let ghost sv = crate::parser::patterns::strs_view(cols@);
    proof {
        if i < sv.len() {
            assert(sv.skip(i as int)[0] == sv[i as int]);
            assert(sv[i as int] == cols@[i as int]@);
            assert(sv.skip(i as int).drop_first() =~= sv.skip(i + 1));
        } else {
            assert(sv.skip(i as int) =~= Seq::<Seq<char>>::empty());
        }
    }
    if i == cols.len() {
        let v: Vec<usize> = Vec::new();
        return Ok(v);
    }
    match describe_col(cols[i].as_str(), table) {
        Err(_) => Err(UserError::Other("Column not found")),
        Ok((ix, _)) => {
            match resolve_cols_at(cols, i + 1, table) {
                Ok(rest) => {
                    let ghost rv = rest@;
                    let mut v: Vec<usize> = Vec::new();
                    v.push(ix);
                    let mut rest = rest;
                    v.append(&mut rest);
                    proof {
                        assert(v@ =~= seq![ix] + rv);
                    }
                    Ok(v)
                },
                Err(e) => Err(e),
            }
        },
    }
}

/// Resolves a `SELECT` column list to column positions.
pub fn parse_selected(cols: &Vec<String>, table: &DatabaseTable) -> (r: Result<
    Vec<usize>,
    UserError,
>)
    ensures
        match r {
            Ok(v) => parse_selected_spec(crate::parser::patterns::strs_view(cols@), table@) == Ok::<
                Seq<usize>,
                UserError,
            >(v@),
            Err(e) => parse_selected_spec(crate::parser::patterns::strs_view(cols@), table@)
                == Err::<Seq<usize>, UserError>(e),
        },
{
    let ghost sv = crate::parser::patterns::strs_view(cols@);
    if cols.len() == 1 && str_eq(cols[0].as_str(), "*") {
        proof {
            assert(sv[0] == cols@[0]@);
        }
        let n = table.attributes.len();
        let mut v: Vec<usize> = Vec::new();
        let mut i: usize = 0;
        while i < n
            invariant
                i <= n,
                v@.len() == i,
                forall|j: int| 0 <= j < i ==> (#[trigger] v@[j]) == j as usize,
            decreases n - i,
        {
            v.push(i);
            i = i + 1;
        }
        proof {
            assert(v@ =~= Seq::new(table@.len(), |i: int| i as usize));
        }
        Ok(v)
    } else {
        proof {
            if cols@.len() == 1 {
                assert(sv[0] == cols@[0]@);
            }
            assert(sv.skip(0) =~= sv);
        }
        resolve_cols_at(cols, 0, table)
    }
}

/// One insert value, typed by its column: strings must be quoted, numeric
/// columns take integers, `NULL` in the id column asks the engine to
/// assign an id, and `NULL` is the only blob literal, standing for the
/// empty blob.
pub open spec fn conv_value_spec(v: Seq<char>, t: AttributeType) -> Result<AttrV, UserError> {
    match t {
        AttributeType::String => match parse_string_spec(v) {
            Some(s) => Ok(AttrV::Str(s)),
            None => Err(UserError::SyntaxError),
        },
        AttributeType::Id => if lower_chars_spec(v) == "null"@ {
            Ok(AttrV::NullId)
        } else {
            match parse_i64_spec(v) {
                Some(n) => Ok(AttrV::Id(n as int)),
                None => Err(UserError::SyntaxError),
            }
        },
        AttributeType::Number => match parse_i64_spec(v) {
            Some(n) => Ok(AttrV::Num(n as int)),
            None => Err(UserError::SyntaxError),
        },
        AttributeType::Data => if lower_chars_spec(v) == "null"@ {
            Ok(AttrV::Bytes(Seq::empty()))
        } else {
            Err(UserError::SyntaxError)
        },
    }
}

/// The values of an insert, converted against the schema positionally.
pub open spec fn conv_values_spec(
    vals: Seq<Seq<char>>,
    schema: Seq<(Seq<char>, AttributeType)>,
) -> Result<Seq<AttrV>, UserError>
    decreases vals.len(),
{
    if vals.len() == 0 || schema.len() == 0 {
        Ok(Seq::empty())
    } else {
        match conv_value_spec(vals[0], schema[0].1) {
            Err(e) => Err(e),
            Ok(v) => match conv_values_spec(vals.drop_first(), schema.drop_first()) {
                Ok(r) => Ok(seq![v] + r),
                Err(e) => Err(e),
            },
        }
    }
}

/// A full row for an insert: exactly one value per column, each readable
/// at its column's type.
pub open spec fn parse_values_spec(
    vals: Seq<Seq<char>>,
    schema: Seq<(Seq<char>, AttributeType)>,
) -> Result<Seq<AttrV>, UserError> {
    if vals.len() > schema.len() {
        Err(UserError::Other("Too many values"))
    } else if vals.len() < schema.len() {
        Err(UserError::SyntaxError)
    } else {
        conv_values_spec(vals, schema)
    }
}

fn conv_value(v: &String, t: AttributeType) -> (r: Result<DataAttribute, UserError>)
    ensures
        match r {
            Ok(d) => conv_value_spec(v@, t) == Ok::<AttrV, UserError>(d@),
            Err(e) => conv_value_spec(v@, t) == Err::<AttrV, UserError>(e),
        },
{
    match t {
        AttributeType::String => match parse_string(v.as_str()) {
            Ok(s) => Ok(DataAttribute::String(s.to_owned())),
            Err(e) => Err(UserError::SyntaxError),
        },
        AttributeType::Id => {
            let cs = chars_of(v.as_str());
            if crate::text::is_kw(&cs, "null") {
                Ok(DataAttribute::NullId)
            } else {
                match parse_i64(v.as_str()) {
                    Ok(n) => Ok(DataAttribute::Id(n)),
                    Err(e) => Err(UserError::SyntaxError),
                }
            }
        },
        AttributeType::Number => match parse_i64(v.as_str()) {
            Ok(n) => Ok(DataAttribute::Number(n)),
            Err(e) => Err(UserError::SyntaxError),
        },
        AttributeType::Data => {
            let cs = chars_of(v.as_str());
            if crate::text::is_kw(&cs, "null") {
                let b: Vec<u8> = Vec::new();
                let d = DataAttribute::Data(b);
                proof {
                    assert(d@ matches AttrV::Bytes(s) && s =~= Seq::<u8>::empty());
                }
                Ok(d)
            } else {
                Err(UserError::SyntaxError)
            }
        },
    }
}

fn conv_values_at(vals: &Vec<String>, table: &DatabaseTable, i: usize) -> (r: Result<
    Vec<DataAttribute>,
    UserError,
>)
    requires
        i <= vals@.len(),
        i <= table@.len(),
    ensures
        match r {
            Ok(v) => conv_values_spec(
                crate::parser::patterns::strs_view(vals@).skip(i as int),
                table@.skip(i as int),
            ) == Ok::<Seq<AttrV>, UserError>(vals_view(v@)),
            Err(e) => conv_values_spec(
                crate::parser::patterns::strs_view(vals@).skip(i as int),
                table@.skip(i as int),
            ) == Err::<Seq<AttrV>, UserError>(e),
        },
    decreases vals@.len() - i,
{
    let ghost sv = crate::parser::patterns::strs_view(vals@);
    proof {
        if i < sv.len() {
            assert(sv.skip(i as int)[0] == sv[i as int]);
            assert(sv[i as int] == vals@[i as int]@);
            assert(sv.skip(i as int).drop_first() =~= sv.skip(i + 1));
        } else {
            assert(sv.skip(i as int) =~= Seq::<Seq<char>>::empty());
        }
        if i < table@.len() {
            assert(table@.skip(i as int)[0] == table@[i as int]);
            assert(table@.skip(i as int).drop_first() =~= table@.skip(i + 1));
        } else {
            assert(table@.skip(i as int) =~= Seq::<(Seq<char>, AttributeType)>::empty());
        }
    }
    if i == vals.len() || i == table.attributes.len() {
        let v: Vec<DataAttribute> = Vec::new();
        proof {
            assert(vals_view(v@) =~= Seq::<AttrV>::empty());
        }
        return Ok(v);
    }
    match conv_value(&vals[i], table.attributes[i].attribute_type) {
        Err(e) => Err(e),
        Ok(d) => {
            match conv_values_at(vals, table, i + 1) {
                Ok(rest) => {
                    let ghost rv = rest@;
                    let mut v: Vec<DataAttribute> = Vec::new();
                    v.push(d);
                    let mut rest = rest;
                    v.append(&mut rest);
                    proof {
                        assert(vals_view(v@) =~= seq![d@] + vals_view(rv));
                    }
                    Ok(v)
                },
                Err(e) => Err(e),
            }
        },
    }
}

/// Reads the values of an `INSERT` statement against the table's schema.
pub fn parse_values(values: &Vec<String>, table: &DatabaseTable) -> (r: Result<
    Vec<DataAttribute>,
    UserError,
>)
    ensures
        match r {
            Ok(v) => parse_values_spec(crate::parser::patterns::strs_view(values@), table@) == Ok::<
                Seq<AttrV>,
                UserError,
            >(vals_view(v@)),
            Err(e) => parse_values_spec(crate::parser::patterns::strs_view(values@), table@)
                == Err::<Seq<AttrV>, UserError>(e),
        },
{
    if values.len() > table.attributes.len() {
        return Err(UserError::Other("Too many values"));
    }
    if values.len() < table.attributes.len() {
        return Err(UserError::SyntaxError);
    }
    proof {
        assert(crate::parser::patterns::strs_view(values@).skip(0)
            =~= crate::parser::patterns::strs_view(values@));
        assert(table@.skip(0) =~= table@);
    }
    conv_values_at(values, table, 0)
}

/// A column-against-literal comparison, the column looked up by name, a
/// numeric literal promoted to an id on the id column, and the comparator
/// mirrored when the literal stands on the left.
pub open spec fn build_comparison_spec(
    col: Seq<char>,
    v: AttrV,
    flipped: bool,
    op: Seq<char>,
    schema: Seq<(Seq<char>, AttributeType)>,
) -> Result<(usize, crate::value::CompV), UserError> {
    let ix = col_index(schema, col);
    if ix == -1 {
        Err(UserError::Other("Column not found"))
    } else {
        let is_pk = schema[ix].1 == AttributeType::Id;
        let v2 = if is_pk {
            match v {
                AttrV::Num(n) => AttrV::Id(n),
                x => x,
            }
        } else {
            v
        };
        if is_pk && !(v2 is Id) {
            Err(UserError::Other("Only integers supported for primary keys"))
        } else {
            if (op == ">"@ && !flipped) || (op == "<"@ && flipped) {
                Ok((ix as usize, crate::value::CompV::Higher(v2)))
            } else if (op == "<"@ && !flipped) || (op == ">"@ && flipped) {
                Ok((ix as usize, crate::value::CompV::Lower(v2)))
            } else if op == "="@ {
                Ok((ix as usize, crate::value::CompV::Equal(v2)))
            } else if (op == ">="@ && !flipped) || (op == "<="@ && flipped) {
                Ok((ix as usize, crate::value::CompV::HigherOrEqual(v2)))
            } else if (op == "<="@ && !flipped) || (op == ">="@ && flipped) {
                Ok((ix as usize, crate::value::CompV::LowerOrEqual(v2)))
            } else if op == "!="@ || op == "<>"@ {
                Ok((ix as usize, crate::value::CompV::NotEqual(v2)))
            } else {
                Err(UserError::SyntaxError)
            }
        }
    }
}

/// How a `WHERE` clause reads against a schema.
pub open spec fn parse_comparison_spec(
    l: Seq<char>,
    op: Seq<char>,
    r: Seq<char>,
    schema: Seq<(Seq<char>, AttributeType)>,
) -> Result<(usize, crate::value::CompV), UserError> {
    match (parse_term_spec(l), parse_term_spec(r)) {
        (CmpTermV::Ident(col), CmpTermV::Val(v)) => build_comparison_spec(
            col,
            v,
            false,
            op,
            schema,
        ),
        (CmpTermV::Val(v), CmpTermV::Ident(col)) => build_comparison_spec(col, v, true, op, schema),
        _ => Err(UserError::Other("Only single column against literal comparisons supported")),
    }
}

fn build_comparison(
    col: &str,
    v: DataAttribute,
    flipped: bool,
    op: &str,
    table: &DatabaseTable,
) -> (r: Result<(usize, crate::value::Comparison), UserError>)
    ensures
        match r {
            Ok(p) => build_comparison_spec(col@, v@, flipped, op@, table@) == Ok::<
                (usize, crate::value::CompV),
                UserError,
            >((p.0, p.1@)),
            Err(e) => build_comparison_spec(col@, v@, flipped, op@, table@) == Err::<
                (usize, crate::value::CompV),
                UserError,
            >(e),
        },
{
    let (ix, is_pk) = match describe_col(col, table) {
        Ok(p) => p,
        Err(e) => {
            return Err(UserError::Other("Column not found"));
        },
    };
    let v2 = if is_pk {
        match v {
            DataAttribute::Number(n) => DataAttribute::Id(n),
            x => x,
        }
    } else {
        v
    };
    let v2_is_id = match &v2 {
        DataAttribute::Id(_) => true,
        _ => false,
    };
    if is_pk && !v2_is_id {
        return Err(UserError::Other("Only integers supported for primary keys"));
    }
    if (str_eq(op, ">") && !flipped) || (str_eq(op, "<") && flipped) {
        Ok((ix, crate::value::Comparison::Higher(v2)))
    } else if (str_eq(op, "<") && !flipped) || (str_eq(op, ">") && flipped) {
        Ok((ix, crate::value::Comparison::Lower(v2)))
    } else if str_eq(op, "=") {
        Ok((ix, crate::value::Comparison::Equal(v2)))
    } else if (str_eq(op, ">=") && !flipped) || (str_eq(op, "<=") && flipped) {
        Ok((ix, crate::value::Comparison::HigherOrEqual(v2)))
    } else if (str_eq(op, "<=") && !flipped) || (str_eq(op, ">=") && flipped) {
        Ok((ix, crate::value::Comparison::LowerOrEqual(v2)))
    } else if str_eq(op, "!=") || str_eq(op, "<>") {
        Ok((ix, crate::value::Comparison::NotEqual(v2)))
    } else {
        Err(UserError::SyntaxError)
    }
}

/// Reads a `WHERE` clause: one side a column, the other a literal.
pub fn parse_comparison(lhs: &str, cmp: &str, rhs: &str, table: &DatabaseTable) -> (r: Result<
    (usize, crate::value::Comparison),
    UserError,
>)
    ensures
        match r {
            Ok(p) => parse_comparison_spec(lhs@, cmp@, rhs@, table@) == Ok::<
                (usize, crate::value::CompV),
                UserError,
            >((p.0, p.1@)),
            Err(e) => parse_comparison_spec(lhs@, cmp@, rhs@, table@) == Err::<
                (usize, crate::value::CompV),
                UserError,
            >(e),
        },
{
    let t0 = parse_comparison_term(lhs);
    let t1 = parse_comparison_term(rhs);
    match (t0, t1) {
        (CmpTerm::Ident(col), CmpTerm::Val(v)) => build_comparison(
            col.as_str(),
            v,
            false,
            cmp,
            table,
        ),
        (CmpTerm::Val(v), CmpTerm::Ident(col)) => build_comparison(
            col.as_str(),
            v,
            true,
            cmp,
            table,
        ),
        _ => Err(UserError::Other("Only single column against literal comparisons supported")),
    }
}

/// Every position a column list resolves to lies inside the schema.
pub proof fn lemma_parse_selected_bounds(
    cols: Seq<Seq<char>>,
    schema: Seq<(Seq<char>, AttributeType)>,
)
    requires
        schema.len() <= usize::MAX,
    ensures
        parse_selected_spec(cols, schema) matches Ok(sel) ==> forall|j: int|
            0 <= j < sel.len() ==> (#[trigger] sel[j]) < schema.len(),
{
    if cols.len() == 1 && cols[0] == "*"@ {
    } else {
        lemma_resolve_cols_bounds(cols, schema);
    }
}

proof fn lemma_resolve_cols_bounds(cols: Seq<Seq<char>>, schema: Seq<(Seq<char>, AttributeType)>)
    requires
        schema.len() <= usize::MAX,
    ensures
        resolve_cols(cols, schema) matches Ok(sel) ==> forall|j: int|
            0 <= j < sel.len() ==> (#[trigger] sel[j]) < schema.len(),
    decreases cols.len(),
{
    if cols.len() > 0 {
        lemma_col_index(schema, cols[0]);
        lemma_resolve_cols_bounds(cols.drop_first(), schema);
    }
}

/// Whether an equality predicate's operand is an id.
pub open spec fn equal_operand_is_id(c: crate::value::CompV) -> bool {
    match c {
        crate::value::CompV::Equal(v) => v is Id,
        _ => true,
    }
}

/// A comparison the parser accepts names a real column, and on the id
/// column an equality's operand is always an id value.
pub proof fn lemma_parse_comparison_valid(
    l: Seq<char>,
    op: Seq<char>,
    r: Seq<char>,
    schema: Seq<(Seq<char>, AttributeType)>,
)
    requires
        schema.len() <= usize::MAX,
    ensures
        parse_comparison_spec(l, op, r, schema) matches Ok(pc) ==> pc.0 < schema.len() && (schema[
            pc.0 as int
        ].1 == AttributeType::Id ==> equal_operand_is_id(pc.1)),
{
    match (parse_term_spec(l), parse_term_spec(r)) {
        (CmpTermV::Ident(col), CmpTermV::Val(v)) => {
            lemma_build_comparison_valid(col, v, false, op, schema);
        },
        (CmpTermV::Val(v), CmpTermV::Ident(col)) => {
            lemma_build_comparison_valid(col, v, true, op, schema);
        },
        _ => {},
    }
}

proof fn lemma_build_comparison_valid(
    col: Seq<char>,
    v: AttrV,
    flipped: bool,
    op: Seq<char>,
    schema: Seq<(Seq<char>, AttributeType)>,
)
    requires
        schema.len() <= usize::MAX,
    ensures
        build_comparison_spec(col, v, flipped, op, schema) matches Ok(pc) ==> pc.0 < schema.len()
            && (schema[pc.0 as int].1 == AttributeType::Id ==> equal_operand_is_id(pc.1)),
{
    lemma_col_index(schema, col);
    let ix = col_index(schema, col);
    if ix != -1 {
        assert(0 <= ix < schema.len());
        let is_pk = schema[ix].1 == AttributeType::Id;
        let v2 = if is_pk {
            match v {
                AttrV::Num(n) => AttrV::Id(n),
                x => x,
            }
        } else {
            v
        };
        if is_pk && !(v2 is Id) {
        } else {
            assert(is_pk ==> v2 is Id);
        }
    }
}

/// An accepted insert carries exactly one value per column.
pub proof fn lemma_parse_values_len(vals: Seq<Seq<char>>, schema: Seq<(Seq<char>, AttributeType)>)
    ensures
        parse_values_spec(vals, schema) matches Ok(r) ==> r.len() == schema.len(),
{
    if vals.len() == schema.len() {
        lemma_conv_values_len(vals, schema);
    }
}

proof fn lemma_conv_values_len(vals: Seq<Seq<char>>, schema: Seq<(Seq<char>, AttributeType)>)
    requires
        vals.len() == schema.len(),
    ensures
        conv_values_spec(vals, schema) matches Ok(r) ==> r.len() == vals.len(),
    decreases vals.len(),
{
    if vals.len() > 0 {
        lemma_conv_values_len(vals.drop_first(), schema.drop_first());
    }
}

proof fn lemma_col_index_skip(schema: Seq<(Seq<char>, AttributeType)>, name: Seq<char>, i: int)
    requires
        0 <= i <= schema.len(),
        forall|j: int| 0 <= j < i ==> (#[trigger] schema[j]).0 != name,
    ensures
        i < schema.len() && schema[i].0 == name ==> col_index(schema, name) == i,
        i == schema.len() ==> col_index(schema, name) == -1,
    decreases schema.len(),
{
    if schema.len() > 0 {
        if i == 0 {
            if schema[0].0 == name {
            } else {
            }
        } else {
            assert(schema[0].0 != name);
            assert forall|j: int| 0 <= j < i - 1 implies (#[trigger] schema.drop_first()[j]).0
                != name by {
                assert(schema.drop_first()[j] == schema[j + 1]);
            }
            lemma_col_index_skip(schema.drop_first(), name, i - 1);
            if i < schema.len() {
                assert(schema.drop_first()[i - 1] == schema[i]);
            }
        }
    }
}

} // verus!
