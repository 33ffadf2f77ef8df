//! The command parser: lexing, pattern matching, and command construction.

pub mod patterns;
pub mod utils;

use vstd::prelude::*;

use crate::database::{has_table, table_at, Attribute, AttributeType, Database, DbEntryV};
use crate::error::UserError;
use crate::parser::patterns::{capture_command, spec_capture_command, strs_view};
use crate::parser::utils::{
    parse_attributes, parse_attributes_spec, parse_comparison, parse_comparison_spec,
    parse_selected, parse_selected_spec, parse_values, parse_values_spec,
};
use crate::text::{chars_of, chars_to_string, lower_chars, lower_chars_spec, str_eq};
use crate::value::{AttrV, CompV, Comparison, DataAttributes};

verus! {

/// Mathematical model of a parsed command.
pub enum CommandV {
    Create { name: Seq<char>, attributes: Seq<(Seq<char>, AttributeType)> },
    Insert { table_name: Seq<char>, data: Seq<AttrV> },
    Delete { table_name: Seq<char>, attr_pos: usize, comparison: CompV },
    Select { table_name: Seq<char>, attr_pos: usize, comparison: CompV, selected: Seq<usize> },
    Drop { name: Seq<char> },
    CreateIndex { name: Option<Seq<char>>, table_name: Seq<char>, columns: Seq<Seq<char>> },
}

/// A typed command, ready for the database facade.  `CreateIndex` is
/// accepted by the grammar and does nothing at the facade.
#[non_exhaustive]
#[derive(Debug, PartialEq)]
pub enum Command {
    Create { name: String, attributes: Vec<Attribute> },
    Insert { table_name: String, data: DataAttributes },
    Delete { table_name: String, attr_pos: usize, comparison: Comparison },
    Select { table_name: String, attr_pos: usize, comparison: Comparison, selected: Vec<usize> },
    Drop { name: String },
    CreateIndex { name: Option<String>, table_name: String, columns: Vec<String> },
}

impl View for Command {
    type V = CommandV;

    open spec fn view(&self) -> CommandV {
        match self {
            Command::Create { name, attributes } => CommandV::Create {
                name: name@,
                attributes: crate::database::schema_view(attributes@),
            },
            Command::Insert { table_name, data } => CommandV::Insert {
                table_name: table_name@,
                data: data@,
            },
            Command::Delete { table_name, attr_pos, comparison } => CommandV::Delete {
                table_name: table_name@,
                attr_pos: *attr_pos,
                comparison: comparison@,
            },
            Command::Select { table_name, attr_pos, comparison, selected } => CommandV::Select {
                table_name: table_name@,
                attr_pos: *attr_pos,
                comparison: comparison@,
                selected: selected@,
            },
            Command::Drop { name } => CommandV::Drop { name: name@ },
            Command::CreateIndex { name, table_name, columns } => CommandV::CreateIndex {
                name: match name {
                    Some(n) => Some(n@),
                    None => None,
                },
                table_name: table_name@,
                columns: strs_view(columns@),
            },
        }
    }
}

/// A capture, lowered unless it is quoted.
pub open spec fn lower_cap(c: Seq<char>) -> Seq<char> {
    if c.len() > 0 && (c[0] == '\'' || c[0] == '"') {
        c
    } else {
        lower_chars_spec(c)
    }
}

pub open spec fn lower_caps(caps: Seq<Seq<char>>) -> Seq<Seq<char>> {
    Seq::new(caps.len(), |i: int| lower_cap(caps[i]))
}

/// A `SELECT` command against a schema: the projection resolved first,
/// then the comparison; without a `WHERE` clause every row matches.
pub open spec fn make_select_spec(
    table_name: Seq<char>,
    schema: Seq<(Seq<char>, AttributeType)>,
    cols: Seq<Seq<char>>,
    wc: Option<(Seq<char>, Seq<char>, Seq<char>)>,
) -> Result<CommandV, UserError> {
    match parse_selected_spec(cols, schema) {
        Err(e) => Err(e),
        Ok(selected) => match wc {
            None => Ok(
                CommandV::Select {
                    table_name: table_name,
                    attr_pos: 0,
                    comparison: CompV::All,
                    selected,
                },
            ),
            Some((a, op, b)) => match parse_comparison_spec(a, op, b, schema) {
                Ok(pc) => Ok(
                    CommandV::Select {
                        table_name: table_name,
                        attr_pos: pc.0,
                        comparison: pc.1,
                        selected,
                    },
                ),
                Err(e) => Err(e),
            },
        },
    }
}

/// The command a statement means, against the present tables: the first
/// matching pattern's captures, keywords and unquoted names lowered, read
/// into a typed command; name resolution against the named table's schema.
pub open spec fn spec_get_command(s: Seq<char>, db: Seq<DbEntryV>) -> Result<
    CommandV,
    UserError,
> {
    let lc = lower_caps(spec_capture_command(s));
    let n = lc.len() as int;
    if n == 0 {
        Err(UserError::SyntaxError)
    } else if n >= 5 && lc[0] == "create"@ && lc[1] == "table"@ {
        match parse_attributes_spec(lc.skip(3)) {
            Ok(attrs) => Ok(CommandV::Create { name: lc[2], attributes: attrs }),
            Err(e) => Err(e),
        }
    } else if n >= 4 && lc[0] == "create"@ && lc[1] == "index"@ && lc[2] == "on"@ {
        Ok(CommandV::CreateIndex { name: None, table_name: lc[3], columns: lc.skip(4) })
    } else if n >= 5 && lc[0] == "create"@ && lc[1] == "index"@ && lc[3] == "on"@ {
        Ok(CommandV::CreateIndex { name: Some(lc[2]), table_name: lc[4], columns: lc.skip(5) })
    } else if n >= 4 && lc[0] == "select"@ && lc[n - 2] == "from"@ {
        if !has_table(db, lc[n - 1]) {
            Err(UserError::Other("No such table"))
        } else {
            make_select_spec(
                lc[n - 1],
                db[table_at(db, lc[n - 1])].schema,
                lc.subrange(1, n - 2),
                None,
            )
        }
    } else if n >= 8 && lc[0] == "select"@ && lc[n - 6] == "from"@ && lc[n - 4] == "where"@ {
        if !has_table(db, lc[n - 5]) {
            Err(UserError::Other("No such table"))
        } else {
            make_select_spec(
                lc[n - 5],
                db[table_at(db, lc[n - 5])].schema,
                lc.subrange(1, n - 6),
                Some((lc[n - 3], lc[n - 2], lc[n - 1])),
            )
        }
    } else if n >= 5 && lc[0] == "insert"@ && lc[1] == "into"@ && lc[3] == "values"@ {
        if !has_table(db, lc[2]) {
            Err(UserError::Other("No such table"))
        } else {
            match parse_values_spec(lc.skip(4), db[table_at(db, lc[2])].schema) {
                Ok(vals) => Ok(CommandV::Insert { table_name: lc[2], data: vals }),
                Err(e) => Err(e),
            }
        }
    } else if n == 7 && lc[0] == "delete"@ && lc[1] == "from"@ && lc[3] == "where"@ {
        if !has_table(db, lc[2]) {
            Err(UserError::Other("No such table"))
        } else {
            match parse_comparison_spec(lc[4], lc[5], lc[6], db[table_at(db, lc[2])].schema) {
                Ok(pc) => Ok(
                    CommandV::Delete { table_name: lc[2], attr_pos: pc.0, comparison: pc.1 },
                ),
                Err(e) => Err(e),
            }
        }
    } else if n == 3 && lc[0] == "drop"@ && lc[1] == "table"@ {
        Ok(CommandV::Drop { name: lc[2] })
    } else {
        Err(UserError::SyntaxError)
    }
}

/// Whether a command can be run against the present tables without
/// touching a column position outside its table's schema: every position
/// it names lies inside the schema, an insert is as wide as the schema,
/// and an equality on the id column carries an id operand.
pub open spec fn command_valid(db: Seq<DbEntryV>, c: CommandV) -> bool {
    match c {
        CommandV::Create { name, attributes } => attributes.len() > 0,
        CommandV::Insert { table_name, data } => has_table(db, table_name) ==> data.len() == db[
            table_at(db, table_name)
        ].schema.len(),
        CommandV::Delete { table_name, attr_pos, comparison } => has_table(db, table_name) ==> {
            let schema = db[table_at(db, table_name)].schema;
            attr_pos < schema.len() && (schema[attr_pos as int].1 == AttributeType::Id
                ==> crate::parser::utils::equal_operand_is_id(comparison))
        },
        CommandV::Select { table_name, attr_pos, comparison, selected } => has_table(
            db,
            table_name,
        ) ==> {
            let schema = db[table_at(db, table_name)].schema;
            &&& attr_pos < schema.len()
            &&& (forall|j: int| 0 <= j < selected.len() ==> (#[trigger] selected[j]) < schema.len())
            &&& (schema[attr_pos as int].1 == AttributeType::Id
                ==> crate::parser::utils::equal_operand_is_id(comparison))
        },
        CommandV::Drop { name } => true,
        CommandV::CreateIndex { name, table_name, columns } => true,
    }
}

/// Law: every command the parser accepts is valid, in the sense of
/// [`command_valid`], against the tables it was parsed with.
pub proof fn lemma_parsed_command_valid(s: Seq<char>, db: Seq<DbEntryV>)
    requires
        crate::database::db_wf(db),
    ensures
        spec_get_command(s, db) matches Ok(c) ==> command_valid(db, c),
{
    let lc = lower_caps(spec_capture_command(s));
    let n = lc.len() as int;
    if n == 0 {
    } else if n >= 5 && lc[0] == "create"@ && lc[1] == "table"@ {
        match parse_attributes_spec(lc.skip(3)) {
            Ok(attrs) => {
                assert(lc.skip(3).len() >= 2);
                assert(attrs.len() > 0);
            },
            Err(e) => {},
        }
    } else if n >= 4 && lc[0] == "create"@ && lc[1] == "index"@ && lc[2] == "on"@ {
    } else if n >= 5 && lc[0] == "create"@ && lc[1] == "index"@ && lc[3] == "on"@ {
    } else if n >= 4 && lc[0] == "select"@ && lc[n - 2] == "from"@ {
        if has_table(db, lc[n - 1]) {
            let schema = db[table_at(db, lc[n - 1])].schema;
            crate::parser::utils::lemma_parse_selected_bounds(lc.subrange(1, n - 2), schema);
        }
    } else if n >= 8 && lc[0] == "select"@ && lc[n - 6] == "from"@ && lc[n - 4] == "where"@ {
        if has_table(db, lc[n - 5]) {
            let schema = db[table_at(db, lc[n - 5])].schema;
            crate::parser::utils::lemma_parse_selected_bounds(lc.subrange(1, n - 6), schema);
            crate::parser::utils::lemma_parse_comparison_valid(
                lc[n - 3],
                lc[n - 2],
                lc[n - 1],
                schema,
            );
        }
    } else if n >= 5 && lc[0] == "insert"@ && lc[1] == "into"@ && lc[3] == "values"@ {
        if has_table(db, lc[2]) {
            crate::parser::utils::lemma_parse_values_len(
                lc.skip(4),
                db[table_at(db, lc[2])].schema,
            );
        }
    } else if n == 7 && lc[0] == "delete"@ && lc[1] == "from"@ && lc[3] == "where"@ {
        if has_table(db, lc[2]) {
            crate::parser::utils::lemma_parse_comparison_valid(
                lc[4],
                lc[5],
                lc[6],
                db[table_at(db, lc[2])].schema,
            );
        }
    } else {
    }
}

/// A copy of the captures in positions `a` to `b`.
fn subvec(v: &Vec<String>, a: usize, b: usize) -> (r: Vec<String>)
    requires
        a <= b <= v@.len(),
    ensures
        strs_view(r@) == strs_view(v@).subrange(a as int, b as int),
{
    let mut r: Vec<String> = Vec::new();
    let mut i: usize = a;
    while i < b
        invariant
            a <= i <= b <= v@.len(),
            r@.len() == i - a,
            forall|k: int| 0 <= k < i - a ==> (#[trigger] r@[k])@ == v@[a + k]@,
        decreases b - i,
    {
        r.push(v[i].clone());
        i = i + 1;
    }
    proof {
        assert(strs_view(r@) =~= strs_view(v@).subrange(a as int, b as int));
    }
    r
}

/// Builds the `SELECT` command for a known table.
fn make_select_command(
    table_name: &str,
    table: &crate::database::DatabaseTable,
    cols: &Vec<String>,
    where_clause: Option<(&String, &String, &String)>,
) -> (r: Result<Command, UserError>)
    ensures
        ({
            let wc = match where_clause {
                None => None,
                Some((a, op, b)) => Some((a@, op@, b@)),
            };
            match r {
                Ok(c) => make_select_spec(table_name@, table@, strs_view(cols@), wc) == Ok::<
                    CommandV,
                    UserError,
                >(c@),
                Err(e) => make_select_spec(table_name@, table@, strs_view(cols@), wc) == Err::<
                    CommandV,
                    UserError,
                >(e),
            }
        }),
{
    let selected = match parse_selected(cols, table) {
        Ok(s) => s,
        Err(e) => {
            return Err(e);
        },
    };
    match where_clause {
        None => Ok(
            Command::Select {
                table_name: table_name.to_owned(),
                attr_pos: 0,
                comparison: Comparison::All,
                selected,
            },
        ),
        Some((a, op, b)) => {
            match parse_comparison(a.as_str(), op.as_str(), b.as_str(), table) {
                Ok((attr_pos, comparison)) => Ok(
                    Command::Select {
                        table_name: table_name.to_owned(),
                        attr_pos,
                        comparison,
                        selected,
                    },
                ),
                Err(e) => Err(e),
            }
        },
    }
}

/// Reads one statement into a typed command, resolving names against the
/// present tables.
pub fn get_command(input: &str, db: &Database) -> (r: Result<Command, UserError>)
    requires
        db.wf(),
    ensures
        match r {
            Ok(c) => spec_get_command(input@, db@) == Ok::<CommandV, UserError>(c@),
            Err(e) => spec_get_command(input@, db@) == Err::<CommandV, UserError>(e),
        },
{
    let caps = capture_command(input);
    let ghost capsv = strs_view(caps@);
    let mut lc: Vec<String> = Vec::new();
    let mut i: usize = 0;
    while i < caps.len()
        invariant
            i <= caps@.len(),
            capsv == strs_view(caps@),
            lc@.len() == i,
            forall|k: int| 0 <= k < i ==> (#[trigger] lc@[k])@ == lower_cap(capsv[k]),
        decreases caps@.len() - i,
    {
        let s = &caps[i];
        proof {
            assert(capsv[i as int] == s@);
        }
        let n = s.unicode_len();
        let lowered = if n > 0 && (s.get_char(0) == '\'' || s.get_char(0) == '"') {
            s.clone()
        } else {
            let cs = chars_of(s.as_str());
            let low = lower_chars(&cs);
            chars_to_string(&low)
        };
        proof {
            assert(lowered@ == lower_cap(capsv[i as int]));
        }
        lc.push(lowered);
        i = i + 1;
    }
    let ghost lcv = lower_caps(capsv);
    proof {
        assert(lcv.len() == lc@.len());
        assert forall|k: int| 0 <= k < lcv.len() implies lcv[k] == lc@[k]@ by {}
    }
    let n = lc.len();
    if n == 0 {
        return Err(UserError::SyntaxError);
    }
    if n >= 5 && str_eq(lc[0].as_str(), "create") && str_eq(lc[1].as_str(), "table") {
        let attrs_vec = subvec(&lc, 3, n);
        proof {
            assert(strs_view(attrs_vec@) =~= lcv.skip(3));
        }
        match parse_attributes(&attrs_vec) {
            Ok(attributes) => Ok(Command::Create { name: lc[2].clone(), attributes }),
            Err(e) => Err(e),
        }
    } else if n >= 4 && str_eq(lc[0].as_str(), "create") && str_eq(lc[1].as_str(), "index")
        && str_eq(lc[2].as_str(), "on") {
        let columns = subvec(&lc, 4, n);
        proof {
            assert(strs_view(columns@) =~= lcv.skip(4));
        }
        Ok(Command::CreateIndex { name: None, table_name: lc[3].clone(), columns })
    } else if n >= 5 && str_eq(lc[0].as_str(), "create") && str_eq(lc[1].as_str(), "index")
        && str_eq(lc[3].as_str(), "on") {
        let columns = subvec(&lc, 5, n);
        proof {
            assert(strs_view(columns@) =~= lcv.skip(5));
        }
        Ok(
            Command::CreateIndex {
                name: Some(lc[2].clone()),
                table_name: lc[4].clone(),
                columns,
            },
        )
    } else if n >= 4 && str_eq(lc[0].as_str(), "select") && str_eq(lc[n - 2].as_str(), "from") {
        let table_name = &lc[n - 1];
        match crate::database::Database::get_table(db, table_name.as_str()) {
            None => Err(UserError::Other("No such table")),
            Some(t) => {
                let cols = subvec(&lc, 1, n - 2);
                proof {
                    assert(strs_view(cols@) =~= lcv.subrange(1, lcv.len() - 2));
                }
                make_select_command(table_name.as_str(), t, &cols, None)
            },
        }
    } else if n >= 8 && str_eq(lc[0].as_str(), "select") && str_eq(lc[n - 6].as_str(), "from")
        && str_eq(lc[n - 4].as_str(), "where") {
        let table_name = &lc[n - 5];
        match crate::database::Database::get_table(db, table_name.as_str()) {
            None => Err(UserError::Other("No such table")),
            Some(t) => {
                let cols = subvec(&lc, 1, n - 6);
                proof {
                    assert(strs_view(cols@) =~= lcv.subrange(1, lcv.len() - 6));
                }
                make_select_command(
                    table_name.as_str(),
                    t,
                    &cols,
                    Some((&lc[n - 3], &lc[n - 2], &lc[n - 1])),
                )
            },
        }
    } else if n >= 5 && str_eq(lc[0].as_str(), "insert") && str_eq(lc[1].as_str(), "into")
        && str_eq(lc[3].as_str(), "values") {
        match crate::database::Database::get_table(db, lc[2].as_str()) {
            None => Err(UserError::Other("No such table")),
            Some(t) => {
                let vals = subvec(&lc, 4, n);
                proof {
                    assert(strs_view(vals@) =~= lcv.skip(4));
                }
                match parse_values(&vals, t) {
                    Ok(attributes) => Ok(
                        Command::Insert {
                            table_name: lc[2].clone(),
                            data: DataAttributes { attributes },
                        },
                    ),
                    Err(e) => Err(e),
                }
            },
        }
    } else if n == 7 && str_eq(lc[0].as_str(), "delete") && str_eq(lc[1].as_str(), "from")
        && str_eq(lc[3].as_str(), "where") {
        match crate::database::Database::get_table(db, lc[2].as_str()) {
            None => Err(UserError::Other("No such table")),
            Some(t) => {
                match parse_comparison(lc[4].as_str(), lc[5].as_str(), lc[6].as_str(), t) {
                    Ok((attr_pos, comparison)) => Ok(
                        Command::Delete { table_name: lc[2].clone(), attr_pos, comparison },
                    ),
                    Err(e) => Err(e),
                }
            },
        }
    } else if n == 3 && str_eq(lc[0].as_str(), "drop") && str_eq(lc[1].as_str(), "table") {
        Ok(Command::Drop { name: lc[2].clone() })
    } else {
        Err(UserError::SyntaxError)
    }
}

} // verus!
