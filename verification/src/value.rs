//! Stored values, rows, and the total order used by comparisons.

use vstd::prelude::*;

use crate::text::chars_of;

verus! {

/// Mathematical model of a stored value.
pub enum AttrV {
    Str(Seq<char>),
    Num(int),
    Id(int),
    Bytes(Seq<u8>),
    NullId,
    Null,
}

/// A single value held in a table cell.
///
/// `Id` is an engine-assigned primary key; `NullId` is a placeholder in an
/// insert meaning "assign one"; `Null` is the sentinel for "no comparison
/// value".
#[derive(Debug, Clone, PartialEq)]
pub enum DataAttribute {
    String(String),
    Number(i64),
    Id(i64),
    Data(Vec<u8>),
    NullId,
    Null,
}

impl View for DataAttribute {
    type V = AttrV;

    open spec fn view(&self) -> AttrV {
        match self {
            DataAttribute::String(s) => AttrV::Str(s@),
            DataAttribute::Number(n) => AttrV::Num(*n as int),
            DataAttribute::Id(n) => AttrV::Id(*n as int),
            DataAttribute::Data(b) => AttrV::Bytes(b@),
            DataAttribute::NullId => AttrV::NullId,
            DataAttribute::Null => AttrV::Null,
        }
    }
}

/// One row: an ordered sequence of values whose positions align with the
/// table's schema.
#[derive(Debug, Clone, PartialEq)]
pub struct DataAttributes {
    pub attributes: Vec<DataAttribute>,
}

impl View for DataAttributes {
    type V = Seq<AttrV>;

    open spec fn view(&self) -> Seq<AttrV> {
        Seq::new(self.attributes@.len(), |i: int| self.attributes@[i]@)
    }
}

impl Default for DataAttributes {
    fn default() -> (r: Self)
        ensures
            r@ == Seq::<AttrV>::empty(),
    {
        let r = DataAttributes { attributes: Vec::new() };
        proof {
            assert(r@ =~= Seq::<AttrV>::empty());
        }
        r
    }
}

/// Rank of a value's tag; values of different tags are ordered by rank.
pub open spec fn tag_rank(v: AttrV) -> int {
    match v {
        AttrV::Str(_) => 0,
        AttrV::Num(_) => 1,
        AttrV::Id(_) => 2,
        AttrV::Bytes(_) => 3,
        AttrV::NullId => 4,
        AttrV::Null => 5,
    }
}

/// Lexicographic order on character sequences.
pub open spec fn chars_lt(a: Seq<char>, b: Seq<char>) -> bool
    decreases a.len(), b.len(),
{
    if b.len() == 0 {
        false
    } else if a.len() == 0 {
        true
    } else if a[0] == b[0] {
        chars_lt(a.drop_first(), b.drop_first())
    } else {
        a[0] < b[0]
    }
}

/// Lexicographic order on byte sequences.
pub open spec fn bytes_lt(a: Seq<u8>, b: Seq<u8>) -> bool
    decreases a.len(), b.len(),
{
    if b.len() == 0 {
        false
    } else if a.len() == 0 {
        true
    } else if a[0] == b[0] {
        bytes_lt(a.drop_first(), b.drop_first())
    } else {
        a[0] < b[0]
    }
}

/// Total order on values: first by tag rank, then by payload (strings and
/// blobs lexicographically, numerics by value; the unit tags are equal to
/// themselves).
pub open spec fn attr_lt(a: AttrV, b: AttrV) -> bool {
    if tag_rank(a) != tag_rank(b) {
        tag_rank(a) < tag_rank(b)
    } else {
        match (a, b) {
            (AttrV::Str(x), AttrV::Str(y)) => chars_lt(x, y),
            (AttrV::Num(x), AttrV::Num(y)) => x < y,
            (AttrV::Id(x), AttrV::Id(y)) => x < y,
            (AttrV::Bytes(x), AttrV::Bytes(y)) => bytes_lt(x, y),
            _ => false,
        }
    }
}

/// Outcome of comparing two values.
#[derive(Debug, Clone, Copy, PartialEq, Eq, Structural)]
pub enum ValueOrd {
    Less,
    Equal,
    Greater,
}

proof fn lemma_chars_lt_skip(a: Seq<char>, b: Seq<char>, i: int)
    requires
        0 <= i <= a.len(),
        i <= b.len(),
        forall|j: int| 0 <= j < i ==> a[j] == b[j],
    ensures
        chars_lt(a, b) == chars_lt(a.skip(i), b.skip(i)),
    decreases i,
{
    if i == 0 {
        assert(a.skip(0) =~= a);
        assert(b.skip(0) =~= b);
    } else {
        assert(a.len() > 0 && b.len() > 0 && a[0] == b[0]);
        lemma_chars_lt_skip(a.drop_first(), b.drop_first(), i - 1);
        assert(a.drop_first().skip(i - 1) =~= a.skip(i));
        assert(b.drop_first().skip(i - 1) =~= b.skip(i));
    }
}

proof fn lemma_bytes_lt_skip(a: Seq<u8>, b: Seq<u8>, i: int)
    requires
        0 <= i <= a.len(),
        i <= b.len(),
        forall|j: int| 0 <= j < i ==> a[j] == b[j],
    ensures
        bytes_lt(a, b) == bytes_lt(a.skip(i), b.skip(i)),
    decreases i,
{
    if i == 0 {
        assert(a.skip(0) =~= a);
        assert(b.skip(0) =~= b);
    } else {
        assert(a.len() > 0 && b.len() > 0 && a[0] == b[0]);
        lemma_bytes_lt_skip(a.drop_first(), b.drop_first(), i - 1);
        assert(a.drop_first().skip(i - 1) =~= a.skip(i));
        assert(b.drop_first().skip(i - 1) =~= b.skip(i));
    }
}

/// Lexicographic comparison of two character vectors.
fn chars_cmp(a: &Vec<char>, b: &Vec<char>) -> (o: ValueOrd)
    ensures
        (o == ValueOrd::Less) == chars_lt(a@, b@),
        (o == ValueOrd::Equal) == (a@ == b@),
        (o == ValueOrd::Greater) == chars_lt(b@, a@),
{
    let mut i: usize = 0;
    loop
        invariant
            i <= a@.len(),
            i <= b@.len(),
            forall|j: int| 0 <= j < i ==> a@[j] == b@[j],
        decreases a@.len() - i,
    {
        proof {
            lemma_chars_lt_skip(a@, b@, i as int);
            lemma_chars_lt_skip(b@, a@, i as int);
        }
        if i == b.len() {
            if i == a.len() {
                proof {
                    assert(a@ =~= b@);
                }
                return ValueOrd::Equal;
            } else {
                return ValueOrd::Greater;
            }
        }
        if i == a.len() {
            return ValueOrd::Less;
        }
        let ca = a[i];
        let cb = b[i];
        if ca != cb {
            proof {
                assert(a@.skip(i as int)[0] == ca);
                assert(b@.skip(i as int)[0] == cb);
                assert(a@ != b@);
            }
            if ca < cb {
                return ValueOrd::Less;
            } else {
                return ValueOrd::Greater;
            }
        }
        i = i + 1;
    }
}

/// Lexicographic comparison of two byte vectors.
fn bytes_cmp(a: &Vec<u8>, b: &Vec<u8>) -> (o: ValueOrd)
    ensures
        (o == ValueOrd::Less) == bytes_lt(a@, b@),
        (o == ValueOrd::Equal) == (a@ == b@),
        (o == ValueOrd::Greater) == bytes_lt(b@, a@),
{
    let mut i: usize = 0;
    loop
        invariant
            i <= a@.len(),
            i <= b@.len(),
            forall|j: int| 0 <= j < i ==> a@[j] == b@[j],
        decreases a@.len() - i,
    {
        proof {
            lemma_bytes_lt_skip(a@, b@, i as int);
            lemma_bytes_lt_skip(b@, a@, i as int);
        }
        if i == b.len() {
            if i == a.len() {
                proof {
                    assert(a@ =~= b@);
                }
                return ValueOrd::Equal;
            } else {
                return ValueOrd::Greater;
            }
        }
        if i == a.len() {
            return ValueOrd::Less;
        }
        let ca = a[i];
        let cb = b[i];
        if ca != cb {
            proof {
                assert(a@.skip(i as int)[0] == ca);
                assert(b@.skip(i as int)[0] == cb);
                assert(a@ != b@);
            }
            if ca < cb {
                return ValueOrd::Less;
            } else {
                return ValueOrd::Greater;
            }
        }
        i = i + 1;
    }
}

/// Rank of a value's tag, as executable code.
fn tag_rank_exec(v: &DataAttribute) -> (r: u8)
    ensures
        r as int == tag_rank(v@),
{
    match v {
        DataAttribute::String(_) => 0,
        DataAttribute::Number(_) => 1,
        DataAttribute::Id(_) => 2,
        DataAttribute::Data(_) => 3,
        DataAttribute::NullId => 4,
        DataAttribute::Null => 5,
    }
}

/// Compares two values in the total order `attr_lt`.
pub fn value_cmp(a: &DataAttribute, b: &DataAttribute) -> (o: ValueOrd)
    ensures
        (o == ValueOrd::Less) == attr_lt(a@, b@),
        (o == ValueOrd::Equal) == (a@ == b@),
        (o == ValueOrd::Greater) == attr_lt(b@, a@),
{
    let ra = tag_rank_exec(a);
    let rb = tag_rank_exec(b);
    if ra < rb {
        return ValueOrd::Less;
    }
    if ra > rb {
        return ValueOrd::Greater;
    }
    match (a, b) {
        (DataAttribute::String(x), DataAttribute::String(y)) => {
            let cx = chars_of(x.as_str());
            let cy = chars_of(y.as_str());
            chars_cmp(&cx, &cy)
        },
        (DataAttribute::Number(x), DataAttribute::Number(y)) => {
            if x < y {
                ValueOrd::Less
            } else if x == y {
                ValueOrd::Equal
            } else {
                ValueOrd::Greater
            }
        },
        (DataAttribute::Id(x), DataAttribute::Id(y)) => {
            if x < y {
                ValueOrd::Less
            } else if x == y {
                ValueOrd::Equal
            } else {
                ValueOrd::Greater
            }
        },
        (DataAttribute::Data(x), DataAttribute::Data(y)) => bytes_cmp(x, y),
        (DataAttribute::NullId, DataAttribute::NullId) => ValueOrd::Equal,
        (DataAttribute::Null, DataAttribute::Null) => ValueOrd::Equal,
        _ => {
            proof {
                assert(false);
            }
            ValueOrd::Equal
        },
    }
}

/// Equality of two values.
pub fn value_eq(a: &DataAttribute, b: &DataAttribute) -> (r: bool)
    ensures
        r == (a@ == b@),
{
    match value_cmp(a, b) {
        ValueOrd::Equal => true,
        _ => false,
    }
}

/// Mathematical model of a predicate: a comparator plus an operand value.
pub enum CompV {
    All,
    Higher(AttrV),
    HigherOrEqual(AttrV),
    Lower(AttrV),
    LowerOrEqual(AttrV),
    Equal(AttrV),
    NotEqual(AttrV),
}

/// A predicate evaluated per row at a fixed column: one of six comparators
/// against an operand value, or `All`, which every row matches.
#[derive(Debug, Clone, PartialEq)]
pub enum Comparison {
    All,
    Higher(DataAttribute),
    HigherOrEqual(DataAttribute),
    Lower(DataAttribute),
    LowerOrEqual(DataAttribute),
    Equal(DataAttribute),
    NotEqual(DataAttribute),
}

impl View for Comparison {
    type V = CompV;

    open spec fn view(&self) -> CompV {
        match self {
            Comparison::All => CompV::All,
            Comparison::Higher(a) => CompV::Higher(a@),
            Comparison::HigherOrEqual(a) => CompV::HigherOrEqual(a@),
            Comparison::Lower(a) => CompV::Lower(a@),
            Comparison::LowerOrEqual(a) => CompV::LowerOrEqual(a@),
            Comparison::Equal(a) => CompV::Equal(a@),
            Comparison::NotEqual(a) => CompV::NotEqual(a@),
        }
    }
}

/// Whether a row value `v` satisfies the predicate `c`.
pub open spec fn comp_matches(v: AttrV, c: CompV) -> bool {
    match c {
        CompV::All => true,
        CompV::Higher(a) => attr_lt(a, v),
        CompV::HigherOrEqual(a) => attr_lt(a, v) || v == a,
        CompV::Lower(a) => attr_lt(v, a),
        CompV::LowerOrEqual(a) => attr_lt(v, a) || v == a,
        CompV::Equal(a) => v == a,
        CompV::NotEqual(a) => v != a,
    }
}

/// Evaluates the predicate `c` on the row value `v`.
pub fn matches_comparison(v: &DataAttribute, c: &Comparison) -> (r: bool)
    ensures
        r == comp_matches(v@, c@),
{
    match c {
        Comparison::All => true,
        Comparison::Higher(a) => match value_cmp(v, a) {
            ValueOrd::Greater => true,
            _ => false,
        },
        Comparison::HigherOrEqual(a) => match value_cmp(v, a) {
            ValueOrd::Less => false,
            _ => true,
        },
        Comparison::Lower(a) => match value_cmp(v, a) {
            ValueOrd::Less => true,
            _ => false,
        },
        Comparison::LowerOrEqual(a) => match value_cmp(v, a) {
            ValueOrd::Greater => false,
            _ => true,
        },
        Comparison::Equal(a) => value_eq(v, a),
        Comparison::NotEqual(a) => !value_eq(v, a),
    }
}

fn clone_bytes(b: &Vec<u8>) -> (r: Vec<u8>)
    ensures
        r@ == b@,
{
    let mut r: Vec<u8> = Vec::new();
    let mut i: usize = 0;
    while i < b.len()
        invariant
            i <= b@.len(),
            r@ == b@.take(i as int),
        decreases b@.len() - i,
    {
        r.push(b[i]);
        i = i + 1;
    }
    proof {
        assert(b@.take(b@.len() as int) =~= b@);
    }
    r
}

/// A copy of a value, equal to the original in the model.
pub fn clone_value(v: &DataAttribute) -> (r: DataAttribute)
    ensures
        r@ == v@,
{
    match v {
        DataAttribute::String(s) => DataAttribute::String(s.clone()),
        DataAttribute::Number(n) => DataAttribute::Number(*n),
        DataAttribute::Id(n) => DataAttribute::Id(*n),
        DataAttribute::Data(b) => DataAttribute::Data(clone_bytes(b)),
        DataAttribute::NullId => DataAttribute::NullId,
        DataAttribute::Null => DataAttribute::Null,
    }
}

/// A copy of a row, equal to the original in the model.
pub fn clone_row(row: &DataAttributes) -> (r: DataAttributes)
    ensures
        r@ == row@,
{
    let mut out: Vec<DataAttribute> = Vec::new();
    let mut i: usize = 0;
    while i < row.attributes.len()
        invariant
            i <= row.attributes@.len(),
            out@.len() == i,
            forall|k: int| 0 <= k < i ==> (#[trigger] out@[k])@ == row.attributes@[k]@,
        decreases row.attributes@.len() - i,
    {
        let v = clone_value(&row.attributes[i]);
        out.push(v);
        i = i + 1;
    }
    let r = DataAttributes { attributes: out };
    proof {
        assert(r@ =~= row@);
    }
    r
}

/// The deep view of a vector of rows.
pub open spec fn rows_view(v: Seq<DataAttributes>) -> Seq<Seq<AttrV>> {
    Seq::new(v.len(), |i: int| v[i]@)
}

/// The projection of a row to the column positions in `sel`, in order.
pub open spec fn project(row: Seq<AttrV>, sel: Seq<usize>) -> Seq<AttrV> {
    Seq::new(sel.len(), |i: int| row[sel[i] as int])
}

/// Projects a row to the columns named by `selected`.
pub fn project_row(row: &DataAttributes, selected: &Vec<usize>) -> (r: DataAttributes)
    requires
        forall|j: int| 0 <= j < selected@.len() ==> (#[trigger] selected@[j]) < row@.len(),
    ensures
        r@ == project(row@, selected@),
{
    let mut out: Vec<DataAttribute> = Vec::new();
    let mut j: usize = 0;
    while j < selected.len()
        invariant
            j <= selected@.len(),
            forall|k: int| 0 <= k < selected@.len() ==> (#[trigger] selected@[k])
                < row.attributes@.len(),
            out@.len() == j,
            forall|k: int| 0 <= k < j ==> (#[trigger] out@[k])@ == row@[selected@[k] as int],
        decreases selected@.len() - j,
    {
        let pos = selected[j];
        let v = clone_value(&row.attributes[pos]);
        out.push(v);
        j = j + 1;
    }
    let r = DataAttributes { attributes: out };
    proof {
        assert(r@ =~= project(row@, selected@));
    }
    r
}

} // verus!
