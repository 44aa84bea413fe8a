//! Decisions of the ROOT → Vortex conversion: which branches become columns,
//! with which column type, and what the conversion reports.

use crate::info::BranchInfo;
use vstd::prelude::*;
use vstd::string::StrSliceExecFns;

verus! {

/// Element types that a column can hold.
#[derive(PartialEq, Eq, Structural, Debug, Clone, Copy)]
pub enum ScalarType {
    Bool,
    I8,
    I16,
    I32,
    I64,
    U8,
    U16,
    U32,
    U64,
    F32,
    F64,
}

/// The Vortex column that a branch becomes.
#[derive(PartialEq, Eq, Structural, Debug, Clone, Copy)]
pub enum ColumnType {
    /// One value per entry (`PrimitiveArray`; `bool` is stored as `u8`).
    Scalar(ScalarType),
    /// One string per entry (`VarBinViewArray`).
    Utf8,
    /// One `std::vector` per entry (`ListArray`).
    List(ScalarType),
}

/// The scalar type whose Rust name is `s`.
pub open spec fn scalar_type_of(s: Seq<char>) -> Option<ScalarType> {
    if s == "bool"@ {
        Some(ScalarType::Bool)
    } else if s == "i8"@ {
        Some(ScalarType::I8)
    } else if s == "i16"@ {
        Some(ScalarType::I16)
    } else if s == "i32"@ {
        Some(ScalarType::I32)
    } else if s == "i64"@ {
        Some(ScalarType::I64)
    } else if s == "u8"@ {
        Some(ScalarType::U8)
    } else if s == "u16"@ {
        Some(ScalarType::U16)
    } else if s == "u32"@ {
        Some(ScalarType::U32)
    } else if s == "u64"@ {
        Some(ScalarType::U64)
    } else if s == "f32"@ {
        Some(ScalarType::F32)
    } else if s == "f64"@ {
        Some(ScalarType::F64)
    } else {
        None
    }
}

/// Whether `s` reads `Vec<` + element + `>`.
pub open spec fn is_vec_of(s: Seq<char>) -> bool {
    s.len() >= 5 && s.subrange(0, 4) == "Vec<"@ && s[s.len() - 1] == '>'
}

/// The element of a `Vec<..>` interpretation.
pub open spec fn vec_element(s: Seq<char>) -> Seq<char> {
    s.subrange(4, s.len() - 1)
}

/// The column that a branch with Rust interpretation `interp` becomes, or
/// `None` for an unsupported branch.
pub open spec fn column_type_of(interp: Seq<char>) -> Option<ColumnType> {
    match scalar_type_of(interp) {
        Some(t) => Some(ColumnType::Scalar(t)),
        None => if interp == "String"@ {
            Some(ColumnType::Utf8)
        } else if is_vec_of(interp) {
            match scalar_type_of(vec_element(interp)) {
                Some(t) => Some(ColumnType::List(t)),
                None => None,
            }
        } else {
            None
        },
    }
}

/// A branch holding `std::vector<T>` of a supported element type `T`
/// (interpretation `Vec<T>`) becomes a list column of `T`.
pub proof fn lemma_vectors_become_lists(elem: Seq<char>)
    requires
        scalar_type_of(elem) is Some,
    ensures
        column_type_of("Vec<"@ + elem + ">"@) == Some(ColumnType::List(scalar_type_of(elem).unwrap())),
{
    reveal_strlit("Vec<");
    reveal_strlit(">");
    reveal_strlit("String");
    reveal_strlit("bool");
    reveal_strlit("i8");
    reveal_strlit("i16");
    reveal_strlit("i32");
    reveal_strlit("i64");
    reveal_strlit("u8");
    reveal_strlit("u16");
    reveal_strlit("u32");
    reveal_strlit("u64");
    reveal_strlit("f32");
    reveal_strlit("f64");
    let s = "Vec<"@ + elem + ">"@;
    assert(elem.len() >= 2);
    assert(s.len() == elem.len() + 5);
    assert(s.subrange(0, 4) =~= "Vec<"@);
    assert(s[s.len() - 1] == '>');
    assert(vec_element(s) =~= elem);
}

/// Whether two strings hold the same characters.
fn str_eq(a: &str, b: &str) -> (r: bool)
    ensures
        r == (a@ == b@),
{
    let n = a.unicode_len();
    if n != b.unicode_len() {
        return false;
    }
    let mut i: usize = 0;
    while i < n
        invariant
            n == a@.len() == b@.len(),
            i <= n,
            forall|j: int| 0 <= j < i ==> a@[j] == b@[j],
        decreases n - i,
    {
        if a.get_char(i) != b.get_char(i) {
            return false;
        }
        i = i + 1;
    }
    assert(a@ =~= b@);
    true
}

/// The scalar type whose Rust name is `s`.
pub fn scalar_type(s: &str) -> (r: Option<ScalarType>)
    ensures
        r == scalar_type_of(s@),
{
    if str_eq(s, "bool") {
        Some(ScalarType::Bool)
    } else if str_eq(s, "i8") {
        Some(ScalarType::I8)
    } else if str_eq(s, "i16") {
        Some(ScalarType::I16)
    } else if str_eq(s, "i32") {
        Some(ScalarType::I32)
    } else if str_eq(s, "i64") {
        Some(ScalarType::I64)
    } else if str_eq(s, "u8") {
        Some(ScalarType::U8)
    } else if str_eq(s, "u16") {
        Some(ScalarType::U16)
    } else if str_eq(s, "u32") {
        Some(ScalarType::U32)
    } else if str_eq(s, "u64") {
        Some(ScalarType::U64)
    } else if str_eq(s, "f32") {
        Some(ScalarType::F32)
    } else if str_eq(s, "f64") {
        Some(ScalarType::F64)
    } else {
        None
    }
}

/// The column that a branch with Rust interpretation `interp` becomes, or
/// `None` for an unsupported branch type.
pub fn column_type(interp: &str) -> (r: Option<ColumnType>)
    ensures
        r == column_type_of(interp@),
{
    match scalar_type(interp) {
        Some(t) => Some(ColumnType::Scalar(t)),
        None => {
            if str_eq(interp, "String") {
                return Some(ColumnType::Utf8);
            }
            let n = interp.unicode_len();
            if n >= 5 && str_eq(interp.substring_char(0, 4), "Vec<") && interp.get_char(n - 1)
                == '>' {
                match scalar_type(interp.substring_char(4, n - 1)) {
                    Some(t) => Some(ColumnType::List(t)),
                    None => None,
                }
            } else {
                None
            }
        },
    }
}

/// Whether a branch with Rust interpretation `interp` can be converted.
pub fn is_supported_interpretation(interp: &str) -> (b: bool)
    ensures
        b == column_type_of(interp@) is Some,
{
    column_type(interp).is_some()
}

/// The column that a branch with Rust interpretation `interp` becomes, or
/// the error `unsupported branch type` for any other branch.
pub fn branch_column_type(interp: &str) -> (r: Result<ColumnType, ConvertError>)
    ensures
        column_type_of(interp@) matches Some(t) ==> (r matches Ok(u) && u == t),
        column_type_of(interp@) is None ==> (r matches Err(
            ConvertError::UnsupportedBranchType { interpretation: i },
        ) && i@ == interp@),
{
    match column_type(interp) {
        Some(t) => Ok(t),
        None => Err(ConvertError::UnsupportedBranchType { interpretation: interp.to_owned() }),
    }
}

/// Sum of the first `n` lengths of `lengths`.
pub open spec fn prefix_sum(lengths: Seq<usize>, n: int) -> int
    decreases n,
{
    if n <= 0 {
        0
    } else {
        prefix_sum(lengths, n - 1) + lengths[n - 1]
    }
}

/// The offsets of a list column whose rows have the lengths `lengths`: row
/// `i` spans the elements from `offsets[i]` to `offsets[i + 1]`. `None` where
/// the total number of elements does not fit in a `u64`.
pub fn list_offsets(lengths: &Vec<usize>) -> (r: Option<Vec<u64>>)
    ensures
        r is Some <==> prefix_sum(lengths@, lengths@.len() as int) <= u64::MAX,
        r matches Some(offsets) ==> {
            &&& offsets@.len() == lengths@.len() + 1
            &&& forall|i: int| 0 <= i <= lengths@.len() ==> #[trigger] offsets@[i] == prefix_sum(lengths@, i)
            &&& offsets@[0] == 0
            &&& forall|i: int|
                0 <= i < lengths@.len() ==> #[trigger] offsets@[i + 1] == offsets@[i] + lengths@[i]
        },
{
    let mut offsets: Vec<u64> = Vec::new();
    offsets.push(0);
    let mut total: u64 = 0;
    let mut i: usize = 0;
    while i < lengths.len()
        invariant
            i <= lengths@.len(),
            total == prefix_sum(lengths@, i as int),
            offsets@.len() == i + 1,
            forall|j: int| 0 <= j <= i ==> #[trigger] offsets@[j] == prefix_sum(lengths@, j),
        decreases lengths@.len() - i,
    {
        let len = lengths[i];
        if len as u64 > u64::MAX - total {
            proof {
                lemma_prefix_sum_monotone(lengths@, i as int + 1, lengths@.len() as int);
            }
            return None;
        }
        total = total + len as u64;
        offsets.push(total);
        i = i + 1;
    }
    proof {
        lemma_prefix_sum_rows(lengths@);
    }
    Some(offsets)
}

/// Prefix sums of lengths never decrease.
pub proof fn lemma_prefix_sum_monotone(lengths: Seq<usize>, m: int, n: int)
    requires
        0 <= m <= n <= lengths.len(),
    ensures
        prefix_sum(lengths, m) <= prefix_sum(lengths, n),
    decreases n - m,
{
    if m < n {
        lemma_prefix_sum_monotone(lengths, m, n - 1);
    }
}

/// Summary returned by a successful conversion.
#[derive(Debug, Clone)]
pub struct ConversionSummary {
    /// Number of tree entries (rows).
    pub entries: usize,
    /// Number of columns successfully written.
    pub columns_written: usize,
    /// Column names that were skipped (unsupported types).
    pub columns_skipped: Vec<String>,
}

/// A branch chosen for conversion: its position among the tree's branches
/// and the column it becomes.
#[derive(PartialEq, Eq, Structural, Debug, Clone, Copy)]
pub struct PlannedColumn {
    pub index: usize,
    pub column_type: ColumnType,
}

/// What a conversion will write: the columns, in the tree's branch order,
/// and the summary it reports once they are written.
#[derive(Debug, Clone)]
pub struct ConversionPlan {
    pub columns: Vec<PlannedColumn>,
    pub summary: ConversionSummary,
}

/// Reasons for which a tree cannot be converted.
#[derive(Debug, Clone)]
pub enum ConvertError {
    /// The tree reports a number of entries that is not a valid row count.
    InvalidEntryCount { tree_name: String, entries: i64 },
    /// No branch of the tree has a supported type.
    NoConvertibleBranches { tree_name: String },
    /// A branch was asked to be converted though its type is not supported.
    UnsupportedBranchType { interpretation: String },
}

/// The branches of `bs` that become columns, in order.
pub open spec fn planned_columns(bs: Seq<BranchInfo>) -> Seq<PlannedColumn>
    decreases bs.len(),
{
    if bs.len() == 0 {
        seq![]
    } else {
        let before = planned_columns(bs.drop_last());
        match column_type_of(bs.last().rust_type@) {
            Some(t) => before.push(PlannedColumn { index: (bs.len() - 1) as usize, column_type: t }),
            None => before,
        }
    }
}

/// The names of the branches of `bs` that are skipped, in order.
pub open spec fn skipped_names(bs: Seq<BranchInfo>) -> Seq<Seq<char>>
    decreases bs.len(),
{
    if bs.len() == 0 {
        seq![]
    } else {
        let before = skipped_names(bs.drop_last());
        match column_type_of(bs.last().rust_type@) {
            Some(_) => before,
            None => before.push(bs.last().name@),
        }
    }
}

/// The characters of each string of `v`.
pub open spec fn string_views(v: Seq<String>) -> Seq<Seq<char>> {
    v.map_values(|s: String| s@)
}

/// Decides how the tree `tree_name`, with `raw_entries` entries and the
/// top-level branches `branches` (their interpretation in `rust_type`), is
/// converted: every branch of a supported type becomes a column, in the
/// tree's order, and every other branch is skipped and reported.
///
/// Fails when the entry count is not a valid row count, then when no branch
/// can be converted.
pub fn plan_conversion(tree_name: &str, raw_entries: i64, branches: &Vec<BranchInfo>) -> (r: Result<
    ConversionPlan,
    ConvertError,
>)
    ensures
        (raw_entries < 0 || raw_entries > usize::MAX) <==> r matches Err(
            ConvertError::InvalidEntryCount { .. },
        ),
        r matches Err(ConvertError::InvalidEntryCount { tree_name: t, entries: e }) ==> t@
            == tree_name@ && e == raw_entries,
        (0 <= raw_entries <= usize::MAX && planned_columns(branches@).len() == 0) <==> r matches Err(
            ConvertError::NoConvertibleBranches { .. },
        ),
        r matches Err(ConvertError::NoConvertibleBranches { tree_name: t }) ==> t@ == tree_name@,
        !(r matches Err(ConvertError::UnsupportedBranchType { .. })),
        r matches Ok(plan) ==> {
            &&& plan.summary.entries == raw_entries
            &&& plan.columns@ == planned_columns(branches@)
            &&& plan.summary.columns_written == plan.columns@.len()
            &&& string_views(plan.summary.columns_skipped@) == skipped_names(branches@)
        },
{
    if raw_entries < 0 || raw_entries as u64 > usize::MAX as u64 {
        return Err(ConvertError::InvalidEntryCount { tree_name: tree_name.to_owned(), entries: raw_entries });
    }
    let entries = raw_entries as usize;
    let mut columns: Vec<PlannedColumn> = Vec::new();
    let mut skipped: Vec<String> = Vec::new();
    let mut i: usize = 0;
    while i < branches.len()
        invariant
            i <= branches@.len(),
            columns@ == planned_columns(branches@.take(i as int)),
            string_views(skipped@) == skipped_names(branches@.take(i as int)),
        decreases branches@.len() - i,
    {
        let ghost prefix = branches@.take(i as int);
        let branch = &branches[i];
        assert(branches@.take(i + 1).drop_last() == prefix);
        match column_type(branch.rust_type.as_str()) {
            Some(t) => {
                columns.push(PlannedColumn { index: i, column_type: t });
            },
            None => {
                skipped.push(branch.name.clone());
                assert(string_views(skipped@) =~= skipped_names(prefix).push(branch.name@));
            },
        }
        i = i + 1;
    }
    assert(branches@.take(i as int) == branches@);
    if columns.len() == 0 {
        return Err(ConvertError::NoConvertibleBranches { tree_name: tree_name.to_owned() });
    }
    let columns_written = columns.len();
    Ok(
        ConversionPlan {
            columns,
            summary: ConversionSummary { entries, columns_written, columns_skipped: skipped },
        },
    )
}

/// Every branch is either written as a column or reported as skipped,
/// never both.
pub proof fn lemma_branches_written_or_skipped(bs: Seq<BranchInfo>)
    ensures
        planned_columns(bs).len() + skipped_names(bs).len() == bs.len(),
    decreases bs.len(),
{
    if bs.len() > 0 {
        lemma_branches_written_or_skipped(bs.drop_last());
    }
}

/// Each planned column refers to a branch of the tree whose type is
/// supported, and carries that branch's column type.
pub proof fn lemma_planned_columns_sound(bs: Seq<BranchInfo>)
    requires
        bs.len() <= usize::MAX,
    ensures
        forall|k: int|
            #![trigger planned_columns(bs)[k]]
            0 <= k < planned_columns(bs).len() ==> {
                let c = planned_columns(bs)[k];
                &&& 0 <= c.index < bs.len()
                &&& column_type_of(bs[c.index as int].rust_type@) == Some(c.column_type)
            },
    decreases bs.len(),
{
    if bs.len() > 0 {
        let init = bs.drop_last();
        lemma_planned_columns_sound(init);
        let p = planned_columns(init);
        let last = (bs.len() - 1) as usize;
        match column_type_of(bs.last().rust_type@) {
            Some(t) => {
                let q = p.push(PlannedColumn { index: last, column_type: t });
                assert(planned_columns(bs) == q);
                assert forall|k: int| 0 <= k < q.len() implies {
                    let c = #[trigger] q[k];
                    &&& 0 <= c.index < bs.len()
                    &&& column_type_of(bs[c.index as int].rust_type@) == Some(c.column_type)
                } by {
                    if k < p.len() {
                        assert(q[k] == p[k]);
                        assert(bs[p[k].index as int] == init[p[k].index as int]);
                    }
                }
            },
            None => {
                assert(planned_columns(bs) == p);
                assert forall|k: int| 0 <= k < p.len() implies #[trigger] bs[p[k].index as int]
                    == init[p[k].index as int] by {}
            },
        }
    }
}

/// The planned columns keep the tree's branch order.
pub proof fn lemma_planned_columns_ordered(bs: Seq<BranchInfo>)
    requires
        bs.len() <= usize::MAX,
    ensures
        forall|k1: int, k2: int|
            0 <= k1 < k2 < planned_columns(bs).len() ==> #[trigger] planned_columns(bs)[k1].index
                < #[trigger] planned_columns(bs)[k2].index,
    decreases bs.len(),
{
    if bs.len() > 0 {
        let init = bs.drop_last();
        lemma_planned_columns_ordered(init);
        lemma_planned_columns_sound(init);
        let p = planned_columns(init);
        let last = (bs.len() - 1) as usize;
        match column_type_of(bs.last().rust_type@) {
            Some(t) => {
                let q = p.push(PlannedColumn { index: last, column_type: t });
                assert(planned_columns(bs) == q);
                assert forall|k1: int, k2: int|
                    0 <= k1 < k2 < q.len() implies #[trigger] q[k1].index
                    < #[trigger] q[k2].index by {
                    assert(q[k1] == p[k1]);
                    if k2 < p.len() {
                        assert(q[k2] == p[k2]);
                    }
                }
            },
            None => {
                assert(planned_columns(bs) == p);
            },
        }
    }
}

/// Every branch whose type is supported is planned as a column.
pub proof fn lemma_planned_columns_complete(bs: Seq<BranchInfo>)
    requires
        bs.len() <= usize::MAX,
    ensures
        forall|j: int|
            0 <= j < bs.len() && (#[trigger] column_type_of(bs[j].rust_type@)) is Some ==> exists|
                k: int,
            |
                0 <= k < planned_columns(bs).len() && #[trigger] planned_columns(bs)[k].index == j,
    decreases bs.len(),
{
    if bs.len() > 0 {
        let init = bs.drop_last();
        lemma_planned_columns_complete(init);
        let p = planned_columns(init);
        let last = (bs.len() - 1) as usize;
        assert forall|j: int|
            0 <= j < bs.len() && (#[trigger] column_type_of(bs[j].rust_type@)) is Some implies exists|
                k: int,
            |
                0 <= k < planned_columns(bs).len() && #[trigger] planned_columns(bs)[k].index
                    == j by {
            let q = planned_columns(bs);
            if j < bs.len() - 1 {
                assert(bs[j] == init[j]);
                assert(column_type_of(init[j].rust_type@) is Some);
                let k = choose|k: int| 0 <= k < p.len() && #[trigger] p[k].index == j;
                match column_type_of(bs.last().rust_type@) {
                    Some(t) => {
                        assert(q == p.push(PlannedColumn { index: last, column_type: t }));
                        assert(q[k] == p[k]);
                    },
                    None => {
                        assert(q == p);
                    },
                }
                assert(q[k].index == j);
            } else {
                let t = column_type_of(bs.last().rust_type@).unwrap();
                assert(q == p.push(PlannedColumn { index: last, column_type: t }));
                assert(q[p.len() as int].index == j);
            }
        }
    }
}

/// Offsets start at 0, and each row spans exactly its own length: the
/// offsets of consecutive rows differ by that row's length.
pub proof fn lemma_prefix_sum_rows(lengths: Seq<usize>)
    ensures
        prefix_sum(lengths, 0) == 0,
        forall|i: int|
            0 <= i < lengths.len() ==> #[trigger] prefix_sum(lengths, i + 1) - prefix_sum(lengths, i)
                == lengths[i],
{
    assert forall|i: int| 0 <= i < lengths.len() implies #[trigger] prefix_sum(lengths, i + 1)
        - prefix_sum(lengths, i) == lengths[i] by {
        assert(prefix_sum(lengths, i + 1) == prefix_sum(lengths, i) + lengths[i]);
    }
}

/// A branch of a scalar type becomes a scalar column of that same type.
pub proof fn lemma_scalars_keep_their_type(s: Seq<char>)
    ensures
        scalar_type_of(s) matches Some(t) ==> column_type_of(s) == Some(ColumnType::Scalar(t)),
{
}

/// The type table: each Rust scalar name becomes the scalar column of that
/// type, and `String` a string column.
pub proof fn lemma_column_type_table()
    ensures
        column_type_of("bool"@) == Some(ColumnType::Scalar(ScalarType::Bool)),
        column_type_of("i8"@) == Some(ColumnType::Scalar(ScalarType::I8)),
        column_type_of("i16"@) == Some(ColumnType::Scalar(ScalarType::I16)),
        column_type_of("i32"@) == Some(ColumnType::Scalar(ScalarType::I32)),
        column_type_of("i64"@) == Some(ColumnType::Scalar(ScalarType::I64)),
        column_type_of("u8"@) == Some(ColumnType::Scalar(ScalarType::U8)),
        column_type_of("u16"@) == Some(ColumnType::Scalar(ScalarType::U16)),
        column_type_of("u32"@) == Some(ColumnType::Scalar(ScalarType::U32)),
        column_type_of("u64"@) == Some(ColumnType::Scalar(ScalarType::U64)),
        column_type_of("f32"@) == Some(ColumnType::Scalar(ScalarType::F32)),
        column_type_of("f64"@) == Some(ColumnType::Scalar(ScalarType::F64)),
        column_type_of("String"@) == Some(ColumnType::Utf8),
{
    reveal_strlit("String");
    reveal_strlit("bool");
    reveal_strlit("i8");
    reveal_strlit("i16");
    reveal_strlit("i32");
    reveal_strlit("i64");
    reveal_strlit("u8");
    reveal_strlit("u16");
    reveal_strlit("u32");
    reveal_strlit("u64");
    reveal_strlit("f32");
    reveal_strlit("f64");
    assert("i8"@[0] != "u8"@[0]);
    assert("i16"@[1] != "i32"@[1]);
    assert("i16"@[1] != "i64"@[1]);
    assert("i16"@[0] != "u16"@[0]);
    assert("i16"@[0] != "u32"@[0]);
    assert("i16"@[0] != "u64"@[0]);
    assert("i16"@[0] != "f32"@[0]);
    assert("i16"@[0] != "f64"@[0]);
    assert("i32"@[1] != "i64"@[1]);
    assert("i32"@[0] != "u16"@[0]);
    assert("i32"@[0] != "u32"@[0]);
    assert("i32"@[0] != "u64"@[0]);
    assert("i32"@[0] != "f32"@[0]);
    assert("i32"@[0] != "f64"@[0]);
    assert("i64"@[0] != "u16"@[0]);
    assert("i64"@[0] != "u32"@[0]);
    assert("i64"@[0] != "u64"@[0]);
    assert("i64"@[0] != "f32"@[0]);
    assert("i64"@[0] != "f64"@[0]);
    assert("u16"@[1] != "u32"@[1]);
    assert("u16"@[1] != "u64"@[1]);
    assert("u16"@[0] != "f32"@[0]);
    assert("u16"@[0] != "f64"@[0]);
    assert("u32"@[1] != "u64"@[1]);
    assert("u32"@[0] != "f32"@[0]);
    assert("u32"@[0] != "f64"@[0]);
    assert("u64"@[0] != "f32"@[0]);
    assert("u64"@[0] != "f64"@[0]);
    assert("f32"@[1] != "f64"@[1]);
}

/// Whether a branch is skipped: its interpretation has no column type.
pub open spec fn is_unsupported(b: BranchInfo) -> bool {
    column_type_of(b.rust_type@) is None
}

/// The skipped list holds the names of the branches of unsupported type,
/// and nothing else, in the tree's order.
pub proof fn lemma_skipped_are_names_of_unsupported(bs: Seq<BranchInfo>)
    ensures
        skipped_names(bs) == bs.filter(|b: BranchInfo| is_unsupported(b)).map_values(
            |b: BranchInfo| b.name@,
        ),
    decreases bs.len(),
{
    reveal(Seq::filter);
    let pred = |b: BranchInfo| is_unsupported(b);
    let name = |b: BranchInfo| b.name@;
    if bs.len() == 0 {
        assert(bs.filter(pred).map_values(name) =~= Seq::<Seq<char>>::empty());
    } else {
        lemma_skipped_are_names_of_unsupported(bs.drop_last());
        let before = bs.drop_last().filter(pred);
        if pred(bs.last()) {
            assert(bs.filter(pred) == before.push(bs.last()));
            assert(before.push(bs.last()).map_values(name) =~= before.map_values(name).push(
                bs.last().name@,
            ));
        } else {
            assert(bs.filter(pred) == before);
        }
    }
}

} // verus!
