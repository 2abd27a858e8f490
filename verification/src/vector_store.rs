//! UUID-keyed vector snapshots: admission, updates and the ranking of exact
//! search.
//!
//! A vector component is kept as the bit pattern of its single-precision
//! number, a score as that of its double-precision number: validity, equality
//! and order of such numbers are facts about their bits.
use vstd::prelude::*;
use vstd::string::*;

use crate::bytes::{ascii, decimal, decimal_text, same_text};
use crate::ordinal_format::views;
use crate::probing::{distinct, increasing, position};
use crate::ranked::{in_order, Ranked, sort_ranked};

verus! {

/// File stored inside one immutable vector publication.
pub const VECTOR_DATA_FILE: &'static str = "vectors.parquet";

/// Persisted backend contract.
pub const VECTOR_BACKEND_VERSION: &'static str = "arrow-parquet-58";

/// Cosine, validation, and ordering contract.
pub const VECTOR_CONTRACT_VERSION: &'static str = "graphforge_vector_v1";

/// Limits of vector persistence and exact search.
#[derive(Clone, Copy, Debug, PartialEq, Eq, Structural)]
pub struct VectorStoreLimits {
    /// Largest dimension of a vector.
    pub dimensions: usize,
    /// Most rows of a snapshot.
    pub stored_vectors: usize,
    /// Most cells, rows times dimension.
    pub vector_cells: usize,
    /// Most eligible nodes of a search.
    pub eligible_nodes: usize,
    /// Most results of a search.
    pub results: usize,
    /// Most bytes of a snapshot file.
    pub parquet_bytes: u64,
}

impl Default for VectorStoreLimits {
    fn default() -> (limits: VectorStoreLimits)
        ensures
            limits == (VectorStoreLimits {
                dimensions: 4_096,
                stored_vectors: 1_000_000,
                vector_cells: 100_000_000,
                eligible_nodes: 1_000_000,
                results: 10_000,
                parquet_bytes: 4_294_967_296,
            }),
    {
        VectorStoreLimits {
            dimensions: 4_096,
            stored_vectors: 1_000_000,
            vector_cells: 100_000_000,
            eligible_nodes: 1_000_000,
            results: 10_000,
            parquet_bytes: 4_294_967_296,
        }
    }
}

/// Failure of a search artifact operation.
#[derive(Debug, PartialEq, Eq)]
pub enum SearchArtifactError {
    /// A caller-supplied value is not acceptable.
    InvalidSelector {
        /// What was supplied.
        field: &'static str,
        /// Why it is not acceptable.
        reason: String,
    },
    /// A limit is exceeded.
    ResourceExhausted {
        /// What is limited.
        resource: &'static str,
        /// The limit.
        limit: u64,
    },
    /// Stored vectors violate their contract.
    CorruptPrimaryVectors {
        /// Where they are stored.
        path: String,
        /// What is wrong.
        reason: String,
    },
}

/// Model of a [`SearchArtifactError`].
pub ghost enum SearchFault {
    Invalid(Seq<char>, Seq<char>),
    Exhausted(Seq<char>, nat),
    Corrupt(Seq<char>, Seq<char>),
}

impl View for SearchArtifactError {
    type V = SearchFault;

    open spec fn view(&self) -> SearchFault {
        match self {
            SearchArtifactError::InvalidSelector { field, reason } => SearchFault::Invalid(
                field@,
                reason@,
            ),
            SearchArtifactError::ResourceExhausted { resource, limit } => SearchFault::Exhausted(
                resource@,
                *limit as nat,
            ),
            SearchArtifactError::CorruptPrimaryVectors { path, reason } => SearchFault::Corrupt(
                path@,
                reason@,
            ),
        }
    }
}

impl SearchFault {
    /// The message of the failure.
    pub open spec fn text(self) -> Seq<char> {
        match self {
            SearchFault::Invalid(field, reason) => "invalid search "@ + field + ": "@ + reason,
            SearchFault::Exhausted(resource, limit) => "search resource "@ + resource
                + " exceeds limit "@ + ascii(decimal_text(limit)),
            SearchFault::Corrupt(path, reason) => "corrupt primary vectors at "@ + path + ": "@
                + reason,
        }
    }
}

impl SearchArtifactError {
    /// The message of the failure.
    pub fn message(&self) -> (text: String)
        ensures
            text@ == self@.text(),
    {
        match self {
            SearchArtifactError::InvalidSelector { field, reason } => {
                let mut text: String = "invalid search ".to_owned();
                text.append(field);
                text.append(": ");
                text.append(reason.as_str());
                text
            },
            SearchArtifactError::ResourceExhausted { resource, limit } => {
                let mut text: String = "search resource ".to_owned();
                text.append(resource);
                text.append(" exceeds limit ");
                text.append(decimal(*limit).as_str());
                text
            },
            SearchArtifactError::CorruptPrimaryVectors { path, reason } => {
                let mut text: String = "corrupt primary vectors at ".to_owned();
                text.append(path.as_str());
                text.append(": ");
                text.append(reason.as_str());
                text
            },
        }
    }
}

fn invalid(field: &'static str, reason: &str) -> (error: SearchArtifactError)
    ensures
        error@ == SearchFault::Invalid(field@, reason@),
{
    SearchArtifactError::InvalidSelector { field, reason: reason.to_owned() }
}

fn exhausted(resource: &'static str, limit: usize) -> (error: SearchArtifactError)
    ensures
        error@ == SearchFault::Exhausted(resource@, limit as nat),
{
    SearchArtifactError::ResourceExhausted { resource, limit: limit as u64 }
}

fn corrupt(path: &str, reason: &str) -> (error: SearchArtifactError)
    ensures
        error@ == SearchFault::Corrupt(path@, reason@),
{
    SearchArtifactError::CorruptPrimaryVectors { path: path.to_owned(), reason: reason.to_owned() }
}

/// Whether a check has found what its model says.
pub open spec fn checks(result: Result<(), SearchArtifactError>, fault: Option<SearchFault>) -> bool {
    match result {
        Ok(()) => fault is None,
        Err(error) => fault == Some(error@),
    }
}

/// Why a dimension is not acceptable, if it is not.
pub open spec fn dimension_fault(dimension: nat, limits: VectorStoreLimits) -> Option<SearchFault> {
    if dimension == 0 {
        Some(SearchFault::Invalid("vector"@, "dimension must be greater than zero"@))
    } else if dimension > limits.dimensions || dimension > i32::MAX {
        Some(SearchFault::Exhausted("vector_dimensions"@, limits.dimensions as nat))
    } else {
        None
    }
}

/// Check a dimension.
pub fn validate_dimension(dimension: usize, limits: VectorStoreLimits) -> (checked: Result<
    (),
    SearchArtifactError,
>)
    ensures
        checks(checked, dimension_fault(dimension as nat, limits)),
{
    if dimension == 0 {
        return Err(invalid("vector", "dimension must be greater than zero"));
    }
    if dimension > limits.dimensions || dimension > 2_147_483_647 {
        return Err(exhausted("vector_dimensions", limits.dimensions));
    }
    Ok(())
}

/// What a column of a snapshot holds.
#[derive(Clone, Copy, Debug, PartialEq, Eq, Structural)]
pub enum VectorColumnType {
    /// Byte strings of this length.
    FixedBinary(u32),
    /// Lists of this many single-precision numbers, none of them absent. The
    /// numbers are the column `item`.
    FixedVector(u32),
    /// Microseconds since the epoch, in UTC.
    UtcMicroseconds,
}

/// A column of a snapshot.
#[derive(Clone, Copy, Debug, PartialEq, Eq)]
pub struct VectorColumn {
    /// Name of the column.
    pub name: &'static str,
    /// What it holds.
    pub kind: VectorColumnType,
    /// Whether a value may be absent.
    pub nullable: bool,
}

/// Whether a column is the one of this name and kind, every value present.
pub open spec fn is_column(column: VectorColumn, name: Seq<char>, kind: VectorColumnType) -> bool {
    column.name@ == name && column.kind == kind && !column.nullable
}

/// The columns of a snapshot with this dimension.
pub fn vector_schema(dimension: usize, limits: VectorStoreLimits) -> (schema: Result<
    Vec<VectorColumn>,
    SearchArtifactError,
>)
    ensures
        match schema {
            Ok(columns) => {
                &&& dimension_fault(dimension as nat, limits) is None
                &&& columns@.len() == 3
                &&& is_column(columns@[0], "node_uuid"@, VectorColumnType::FixedBinary(16))
                &&& is_column(
                    columns@[1],
                    "vector"@,
                    VectorColumnType::FixedVector(dimension as u32),
                )
                &&& is_column(columns@[2], "updated_at"@, VectorColumnType::UtcMicroseconds)
            },
            Err(error) => dimension_fault(dimension as nat, limits) == Some(error@),
        },
{
    match validate_dimension(dimension, limits) {
        Ok(()) => {},
        Err(error) => {
            return Err(error);
        },
    }
    let mut columns: Vec<VectorColumn> = Vec::new();
    columns.push(
        VectorColumn {
            name: "node_uuid",
            kind: VectorColumnType::FixedBinary(16),
            nullable: false,
        },
    );
    columns.push(
        VectorColumn {
            name: "vector",
            kind: VectorColumnType::FixedVector(dimension as u32),
            nullable: false,
        },
    );
    columns.push(
        VectorColumn {
            name: "updated_at",
            kind: VectorColumnType::UtcMicroseconds,
            nullable: false,
        },
    );
    Ok(columns)
}

/// Why so many cells are not acceptable, if they are not.
pub open spec fn cells_fault(rows: nat, dimension: nat, limits: VectorStoreLimits) -> Option<
    SearchFault,
> {
    if rows * dimension > limits.vector_cells {
        Some(SearchFault::Exhausted("vector_cells"@, limits.vector_cells as nat))
    } else {
        None
    }
}

/// The number of cells of so many rows.
pub fn checked_cells(rows: usize, dimension: usize, limits: VectorStoreLimits) -> (cells: Result<
    usize,
    SearchArtifactError,
>)
    ensures
        match cells {
            Ok(cells) => cells == rows * dimension && cells_fault(
                rows as nat,
                dimension as nat,
                limits,
            ) is None,
            Err(error) => cells_fault(rows as nat, dimension as nat, limits) == Some(error@),
        },
{
    match rows.checked_mul(dimension) {
        Some(cells) => if cells > limits.vector_cells {
            Err(exhausted("vector_cells", limits.vector_cells))
        } else {
            Ok(cells)
        },
        None => Err(exhausted("vector_cells", limits.vector_cells)),
    }
}

/// Whether a single-precision number is finite: its exponent bits are not all
/// set.
pub open spec fn is_finite(bits: u32) -> bool {
    (bits as nat / 8_388_608) % 256 != 255
}

/// Whether a single-precision number is zero, of either sign.
pub open spec fn is_zero(bits: u32) -> bool {
    bits == 0 || bits == 2_147_483_648
}

/// Whether two finite single-precision numbers are equal.
pub open spec fn same_number(left: u32, right: u32) -> bool {
    left == right || (is_zero(left) && is_zero(right))
}

/// Whether every component is finite.
pub open spec fn all_finite(vector: Seq<u32>) -> bool {
    forall|i: int| 0 <= i < vector.len() ==> is_finite(#[trigger] vector[i])
}

/// Whether every component is zero. The sum of the squares of finite
/// single-precision numbers, taken in double precision, is zero exactly then:
/// no such square underflows, and no such sum overflows.
pub open spec fn all_zero(vector: Seq<u32>) -> bool {
    forall|i: int| 0 <= i < vector.len() ==> is_zero(#[trigger] vector[i])
}

/// Why a vector is not acceptable, if it is not.
pub open spec fn vector_fault(vector: Seq<u32>, limits: VectorStoreLimits) -> Option<SearchFault> {
    match dimension_fault(vector.len(), limits) {
        Some(fault) => Some(fault),
        None => if !all_finite(vector) {
            Some(SearchFault::Invalid("vector"@, "values must be finite Float32"@))
        } else if all_zero(vector) {
            Some(SearchFault::Invalid("vector"@, "norm must be non-zero"@))
        } else {
            None
        },
    }
}

/// Check a vector: its dimension, and that it is finite and not zero.
pub fn validate_vector(vector: &Vec<u32>, limits: VectorStoreLimits) -> (checked: Result<
    (),
    SearchArtifactError,
>)
    ensures
        checks(checked, vector_fault(vector@, limits)),
{
    match validate_dimension(vector.len(), limits) {
        Ok(()) => {},
        Err(error) => {
            return Err(error);
        },
    }
    let mut zero: bool = true;
    let mut i: usize = 0;
    while i < vector.len()
        invariant
            i <= vector@.len(),
            dimension_fault(vector@.len(), limits) is None,
            forall|j: int| 0 <= j < i ==> is_finite(#[trigger] vector@[j]),
            zero == forall|j: int| 0 <= j < i ==> is_zero(#[trigger] vector@[j]),
        decreases vector.len() - i,
    {
        let bits: u32 = vector[i];
        if (bits / 8_388_608) % 256 == 255 {
            assert(!is_finite(vector@[i as int]));
            return Err(invalid("vector", "values must be finite Float32"));
        }
        zero = zero && (bits == 0 || bits == 2_147_483_648);
        i = i + 1;
    }
    if zero {
        return Err(invalid("vector", "norm must be non-zero"));
    }
    Ok(())
}

/// One row of a vector snapshot.
#[derive(Debug, PartialEq, Eq)]
pub struct StoredVector {
    /// Node identity.
    pub node_uuid: u128,
    /// Components, as bit patterns of single-precision numbers.
    pub vector: Vec<u32>,
    /// Time of the update, in microseconds.
    pub updated_at_micros: i64,
}

/// Model of a [`StoredVector`].
#[verifier::ext_equal]
pub struct RowView {
    pub node_uuid: u128,
    pub vector: Seq<u32>,
    pub updated_at_micros: i64,
}

impl View for StoredVector {
    type V = RowView;

    open spec fn view(&self) -> RowView {
        RowView {
            node_uuid: self.node_uuid,
            vector: self.vector@,
            updated_at_micros: self.updated_at_micros,
        }
    }
}

/// What is said of a row with another dimension.
pub open spec fn row_text(row: nat, found: nat, expected: nat) -> Seq<char> {
    "row "@ + ascii(decimal_text(row)) + " dimension "@ + ascii(decimal_text(found))
        + " does not match "@ + ascii(decimal_text(expected))
}

/// Why the vectors of some rows are not acceptable, if they are not: the fault
/// of the first such row.
pub open spec fn vectors_fault(
    rows: Seq<RowView>,
    dimension: nat,
    limits: VectorStoreLimits,
    path: Seq<char>,
) -> Option<SearchFault>
    decreases rows.len(),
{
    if rows.len() == 0 {
        None
    } else {
        match vectors_fault(rows.drop_last(), dimension, limits, path) {
            Some(fault) => Some(fault),
            None => if rows.last().vector.len() != dimension {
                Some(
                    SearchFault::Corrupt(
                        path,
                        row_text((rows.len() - 1) as nat, rows.last().vector.len(), dimension),
                    ),
                )
            } else {
                match vector_fault(rows.last().vector, limits) {
                    Some(fault) => Some(SearchFault::Corrupt(path, fault.text())),
                    None => None,
                }
            },
        }
    }
}

/// Why the order of some rows is not acceptable, if it is not: the fault of
/// the first pair out of order.
pub open spec fn order_fault(rows: Seq<RowView>, path: Seq<char>) -> Option<SearchFault>
    decreases rows.len(),
{
    if rows.len() <= 1 {
        None
    } else {
        match order_fault(rows.drop_last(), path) {
            Some(fault) => Some(fault),
            None => {
                let left = rows[rows.len() - 2].node_uuid;
                let right = rows.last().node_uuid;
                if left == right {
                    Some(SearchFault::Corrupt(path, "duplicate node_uuid"@))
                } else if left > right {
                    Some(
                        SearchFault::Corrupt(path, "rows are not sorted by ascending node_uuid"@),
                    )
                } else {
                    None
                }
            },
        }
    }
}

/// The dimension that rows are held to: the expected one, or that of the first
/// row.
pub open spec fn held_dimension(rows: Seq<RowView>, expected: Option<usize>) -> Option<nat> {
    match expected {
        Some(dimension) => Some(dimension as nat),
        None => if rows.len() > 0 {
            Some(rows[0].vector.len())
        } else {
            None
        },
    }
}

/// Why rows are not acceptable, if they are not.
pub open spec fn rows_fault(
    rows: Seq<RowView>,
    expected: Option<usize>,
    limits: VectorStoreLimits,
    path: Seq<char>,
) -> Option<SearchFault> {
    if rows.len() > limits.stored_vectors {
        Some(SearchFault::Exhausted("stored_vectors"@, limits.stored_vectors as nat))
    } else {
        match held_dimension(rows, expected) {
            None => order_fault(rows, path),
            Some(dimension) => match dimension_fault(dimension, limits) {
                Some(fault) => Some(fault),
                None => match cells_fault(rows.len(), dimension, limits) {
                    Some(fault) => Some(fault),
                    None => match vectors_fault(rows, dimension, limits, path) {
                        Some(fault) => Some(fault),
                        None => order_fault(rows, path),
                    },
                },
            },
        }
    }
}

proof fn lemma_vectors_fail(
    rows: Seq<RowView>,
    dimension: nat,
    limits: VectorStoreLimits,
    path: Seq<char>,
    n: int,
)
    requires
        0 <= n <= rows.len(),
        vectors_fault(rows.take(n), dimension, limits, path) is Some,
    ensures
        vectors_fault(rows, dimension, limits, path) == vectors_fault(
            rows.take(n),
            dimension,
            limits,
            path,
        ),
    decreases rows.len(),
{
    if n < rows.len() {
        assert(rows.drop_last().take(n) =~= rows.take(n));
        lemma_vectors_fail(rows.drop_last(), dimension, limits, path, n);
    } else {
        assert(rows.take(n) =~= rows);
    }
}

proof fn lemma_order_fails(rows: Seq<RowView>, path: Seq<char>, n: int)
    requires
        0 <= n <= rows.len(),
        order_fault(rows.take(n), path) is Some,
    ensures
        order_fault(rows, path) == order_fault(rows.take(n), path),
    decreases rows.len(),
{
    if n < rows.len() {
        assert(rows.drop_last().take(n) =~= rows.take(n));
        lemma_order_fails(rows.drop_last(), path, n);
    } else {
        assert(rows.take(n) =~= rows);
    }
}

/// Whether the node identities of rows strictly increase.
pub open spec fn sorted_rows(rows: Seq<RowView>) -> bool {
    forall|i: int, j: int|
        0 <= i < j < rows.len() ==> (#[trigger] rows[i]).node_uuid < (#[trigger] rows[j]).node_uuid
}

/// Rows without an order fault strictly increase, and the other way round.
pub proof fn lemma_order_fault(rows: Seq<RowView>, path: Seq<char>)
    ensures
        order_fault(rows, path) is None <==> sorted_rows(rows),
    decreases rows.len(),
{
    if rows.len() > 1 {
        lemma_order_fault(rows.drop_last(), path);
        let before = rows.drop_last();
        assert(forall|i: int| 0 <= i < before.len() ==> #[trigger] before[i] == rows[i]);
        if order_fault(rows, path) is None {
            assert forall|i: int, j: int| 0 <= i < j < rows.len() implies (
            #[trigger] rows[i]).node_uuid < (#[trigger] rows[j]).node_uuid by {
                if j < rows.len() - 1 {
                    assert(before[i].node_uuid < before[j].node_uuid);
                } else if i < rows.len() - 2 {
                    assert(before[i].node_uuid < before[before.len() - 1].node_uuid);
                }
            }
        }
        if sorted_rows(rows) {
            assert(sorted_rows(before));
        }
    }
}

fn dimension_text(row: usize, found: usize, expected: usize) -> (text: String)
    ensures
        text@ == row_text(row as nat, found as nat, expected as nat),
{
    let mut text: String = "row ".to_owned();
    text.append(decimal(row as u64).as_str());
    text.append(" dimension ");
    text.append(decimal(found as u64).as_str());
    text.append(" does not match ");
    text.append(decimal(expected as u64).as_str());
    text
}

fn check_vectors(rows: &Vec<StoredVector>, dimension: usize, limits: VectorStoreLimits, path: &str) -> (checked:
    Result<(), SearchArtifactError>)
    ensures
        checks(checked, vectors_fault(views(rows@), dimension as nat, limits, path@)),
{
    let ghost all = views(rows@);
    let mut i: usize = 0;
    while i < rows.len()
        invariant
            i <= rows@.len(),
            all == views(rows@),
            vectors_fault(all.take(i as int), dimension as nat, limits, path@) is None,
        decreases rows.len() - i,
    {
        assert(all.take(i + 1).drop_last() =~= all.take(i as int));
        assert(all.take(i + 1).last() == rows@[i as int]@);
        let row: &StoredVector = &rows[i];
        if row.vector.len() != dimension {
            proof {
                lemma_vectors_fail(all, dimension as nat, limits, path@, i + 1);
            }
            let text: String = dimension_text(i, row.vector.len(), dimension);
            return Err(corrupt(path, text.as_str()));
        }
        match validate_vector(&row.vector, limits) {
            Ok(()) => {},
            Err(error) => {
                proof {
                    lemma_vectors_fail(all, dimension as nat, limits, path@, i + 1);
                }
                return Err(corrupt(path, error.message().as_str()));
            },
        }
        i = i + 1;
    }
    assert(all.take(i as int) =~= all);
    Ok(())
}

fn check_order(rows: &Vec<StoredVector>, path: &str) -> (checked: Result<(), SearchArtifactError>)
    ensures
        checks(checked, order_fault(views(rows@), path@)),
{
    let ghost all = views(rows@);
    if rows.len() <= 1 {
        return Ok(());
    }
    let mut i: usize = 1;
    assert(order_fault(all.take(1), path@) is None);
    while i < rows.len()
        invariant
            1 <= i <= rows@.len(),
            all == views(rows@),
            order_fault(all.take(i as int), path@) is None,
        decreases rows.len() - i,
    {
        assert(all.take(i + 1).drop_last() =~= all.take(i as int));
        assert(all.take(i + 1)[i as int] == rows@[i as int]@);
        assert(all.take(i + 1)[i - 1] == rows@[i - 1]@);
        let left: u128 = rows[i - 1].node_uuid;
        let right: u128 = rows[i].node_uuid;
        if left >= right {
            proof {
                lemma_order_fails(all, path@, i + 1);
            }
            if left == right {
                return Err(corrupt(path, "duplicate node_uuid"));
            }
            return Err(corrupt(path, "rows are not sorted by ascending node_uuid"));
        }
        i = i + 1;
    }
    assert(all.take(i as int) =~= all);
    Ok(())
}

/// Check rows: their number, dimension, vectors and order.
pub fn validate_rows(
    rows: &Vec<StoredVector>,
    expected: Option<usize>,
    limits: VectorStoreLimits,
    path: &str,
) -> (checked: Result<(), SearchArtifactError>)
    ensures
        checks(checked, rows_fault(views(rows@), expected, limits, path@)),
{
    if rows.len() > limits.stored_vectors {
        return Err(exhausted("stored_vectors", limits.stored_vectors));
    }
    let dimension: Option<usize> = match expected {
        Some(dimension) => Some(dimension),
        None => if rows.len() > 0 {
            Some(rows[0].vector.len())
        } else {
            None
        },
    };
    match dimension {
        Some(dimension) => {
            match validate_dimension(dimension, limits) {
                Ok(()) => {},
                Err(error) => {
                    return Err(error);
                },
            }
            match checked_cells(rows.len(), dimension, limits) {
                Ok(_) => {},
                Err(error) => {
                    return Err(error);
                },
            }
            match check_vectors(rows, dimension, limits, path) {
                Ok(()) => {},
                Err(error) => {
                    return Err(error);
                },
            }
        },
        None => {},
    }
    check_order(rows, path)
}

/// Whether an update changed the stored vectors.
#[derive(Clone, Copy, Debug, PartialEq, Eq, Structural)]
pub enum VectorUpsertChange {
    /// The node already had this vector; its time is unchanged.
    Unchanged,
    /// A row was added, or its vector replaced.
    Changed,
}

/// The place of a node among rows: after every row with a smaller identity
/// that starts the list.
pub open spec fn place(rows: Seq<RowView>, node_uuid: u128) -> nat
    decreases rows.len(),
{
    if rows.len() == 0 || rows[0].node_uuid >= node_uuid {
        0
    } else {
        1 + place(rows.drop_first(), node_uuid)
    }
}

/// Whether two vectors are equal as numbers.
pub open spec fn same_vector(left: Seq<u32>, right: Seq<u32>) -> bool {
    left.len() == right.len() && forall|i: int|
        0 <= i < left.len() ==> same_number(#[trigger] left[i], right[i])
}

/// What an update leaves, or why it fails.
pub open spec fn upserted(
    rows: Seq<RowView>,
    row: RowView,
    limits: VectorStoreLimits,
) -> Result<(VectorUpsertChange, Seq<RowView>), SearchFault> {
    let at = place(rows, row.node_uuid) as int;
    match vector_fault(row.vector, limits) {
        Some(fault) => Err(fault),
        None => match rows_fault(rows, Some(row.vector.len() as usize), limits, "<memory>"@) {
            Some(fault) => Err(fault),
            None => if at < rows.len() && rows[at].node_uuid == row.node_uuid {
                if same_vector(rows[at].vector, row.vector) {
                    Ok((VectorUpsertChange::Unchanged, rows))
                } else {
                    Ok((VectorUpsertChange::Changed, rows.update(at, row)))
                }
            } else if rows.len() >= limits.stored_vectors {
                Err(SearchFault::Exhausted("stored_vectors"@, limits.stored_vectors as nat))
            } else {
                match cells_fault(rows.len() + 1, row.vector.len(), limits) {
                    Some(fault) => Err(fault),
                    None => Ok((VectorUpsertChange::Changed, rows.insert(at, row))),
                }
            },
        },
    }
}

proof fn lemma_place(rows: Seq<RowView>, node_uuid: u128, at: nat)
    requires
        at <= rows.len(),
        forall|i: int| 0 <= i < at ==> (#[trigger] rows[i]).node_uuid < node_uuid,
        at < rows.len() ==> rows[at as int].node_uuid >= node_uuid,
    ensures
        place(rows, node_uuid) == at,
    decreases at,
{
    if at > 0 {
        assert forall|i: int| 0 <= i < at - 1 implies (
        #[trigger] rows.drop_first()[i]).node_uuid < node_uuid by {
            assert(rows.drop_first()[i] == rows[i + 1]);
        }
        if at < rows.len() {
            assert(rows.drop_first()[at - 1] == rows[at as int]);
        }
        assert(rows[0].node_uuid < node_uuid);
        lemma_place(rows.drop_first(), node_uuid, (at - 1) as nat);
    }
}

proof fn lemma_place_splits(rows: Seq<RowView>, node_uuid: u128)
    ensures
        place(rows, node_uuid) <= rows.len(),
        forall|i: int|
            0 <= i < place(rows, node_uuid) ==> (#[trigger] rows[i]).node_uuid < node_uuid,
        place(rows, node_uuid) < rows.len() ==> rows[place(rows, node_uuid) as int].node_uuid
            >= node_uuid,
    decreases rows.len(),
{
    if rows.len() > 0 && rows[0].node_uuid < node_uuid {
        let rest = rows.drop_first();
        lemma_place_splits(rest, node_uuid);
        assert forall|i: int| 0 <= i < place(rows, node_uuid) implies (
        #[trigger] rows[i]).node_uuid < node_uuid by {
            if i > 0 {
                assert(rest[i - 1] == rows[i]);
            }
        }
    }
}

fn find_place(rows: &Vec<StoredVector>, node_uuid: u128) -> (at: usize)
    requires
        sorted_rows(views(rows@)),
    ensures
        at == place(views(rows@), node_uuid),
        at <= rows@.len(),
{
    let ghost all = views(rows@);
    let mut low: usize = 0;
    let mut high: usize = rows.len();
    while low < high
        invariant
            low <= high <= rows@.len(),
            all == views(rows@),
            sorted_rows(all),
            forall|i: int| 0 <= i < low ==> (#[trigger] all[i]).node_uuid < node_uuid,
            forall|i: int| high <= i < rows@.len() ==> (#[trigger] all[i]).node_uuid >= node_uuid,
        decreases high - low,
    {
        let middle: usize = low + (high - low) / 2;
        assert(all[middle as int] == rows@[middle as int]@);
        if rows[middle].node_uuid < node_uuid {
            low = middle + 1;
        } else {
            high = middle;
        }
    }
    proof {
        lemma_place(all, node_uuid, low as nat);
    }
    low
}

fn equal_vectors(left: &Vec<u32>, right: &Vec<u32>) -> (yes: bool)
    ensures
        yes == same_vector(left@, right@),
{
    if left.len() != right.len() {
        return false;
    }
    let mut i: usize = 0;
    while i < left.len()
        invariant
            i <= left@.len(),
            left@.len() == right@.len(),
            forall|j: int| 0 <= j < i ==> same_number(#[trigger] left@[j], right@[j]),
        decreases left.len() - i,
    {
        let a: u32 = left[i];
        let b: u32 = right[i];
        if a != b && !((a == 0 || a == 2_147_483_648) && (b == 0 || b == 2_147_483_648)) {
            assert(!same_number(left@[i as int], right@[i as int]));
            return false;
        }
        i = i + 1;
    }
    true
}

fn copy_words(words: &Vec<u32>, start: usize, end: usize) -> (part: Vec<u32>)
    requires
        start <= end <= words@.len(),
    ensures
        part@ == words@.subrange(start as int, end as int),
{
    let mut part: Vec<u32> = Vec::new();
    let mut i: usize = start;
    while i < end
        invariant
            start <= i <= end <= words@.len(),
            part@ == words@.subrange(start as int, i as int),
        decreases end - i,
    {
        part.push(words[i]);
        i = i + 1;
        assert(part@ =~= words@.subrange(start as int, i as int));
    }
    part
}

/// Add or replace the vector of a node. A node that already has the vector
/// keeps its time. On an error the rows stay as they are.
pub fn apply_vector_upsert(
    rows: &mut Vec<StoredVector>,
    node_uuid: u128,
    vector: &Vec<u32>,
    updated_at_micros: i64,
    limits: VectorStoreLimits,
) -> (change: Result<VectorUpsertChange, SearchArtifactError>)
    ensures
        ({
            let row = RowView { node_uuid, vector: vector@, updated_at_micros };
            let outcome = upserted(views(old(rows)@), row, limits);
            match change {
                Ok(change) => outcome == Ok::<(VectorUpsertChange, Seq<RowView>), SearchFault>(
                    (change, views(final(rows)@)),
                ),
                Err(error) => outcome == Err::<(VectorUpsertChange, Seq<RowView>), SearchFault>(
                    error@,
                ) && final(rows)@ == old(rows)@,
            }
        }),
{
    let ghost before = views(rows@);
    match validate_vector(vector, limits) {
        Ok(()) => {},
        Err(error) => {
            return Err(error);
        },
    }
    match validate_rows(rows, Some(vector.len()), limits, "<memory>") {
        Ok(()) => {},
        Err(error) => {
            return Err(error);
        },
    }
    proof {
        lemma_order_fault(before, "<memory>"@);
    }
    let at: usize = find_place(rows, node_uuid);
    let copy: Vec<u32> = copy_words(vector, 0, vector.len());
    assert(copy@ =~= vector@);
    let row = StoredVector { node_uuid, vector: copy, updated_at_micros };
    if at < rows.len() {
        assert(before[at as int] == rows@[at as int]@);
        if rows[at].node_uuid == node_uuid {
            if equal_vectors(&rows[at].vector, vector) {
                return Ok(VectorUpsertChange::Unchanged);
            }
            rows.set(at, row);
            assert(views(rows@) =~= before.update(at as int, row@));
            return Ok(VectorUpsertChange::Changed);
        }
    }
    if rows.len() >= limits.stored_vectors {
        return Err(exhausted("stored_vectors", limits.stored_vectors));
    }
    match checked_cells(rows.len() + 1, vector.len(), limits) {
        Ok(_) => {},
        Err(error) => {
            return Err(error);
        },
    }
    rows.insert(at, row);
    assert(views(rows@) =~= before.insert(at as int, row@));
    Ok(VectorUpsertChange::Changed)
}

proof fn lemma_vectors_fault(
    rows: Seq<RowView>,
    dimension: nat,
    limits: VectorStoreLimits,
    path: Seq<char>,
)
    ensures
        vectors_fault(rows, dimension, limits, path) is None <==> forall|i: int|
            0 <= i < rows.len() ==> (#[trigger] rows[i]).vector.len() == dimension
                && vector_fault(rows[i].vector, limits) is None,
    decreases rows.len(),
{
    if rows.len() > 0 {
        let before = rows.drop_last();
        lemma_vectors_fault(before, dimension, limits, path);
        assert(forall|i: int| 0 <= i < before.len() ==> #[trigger] before[i] == rows[i]);
        if vectors_fault(rows, dimension, limits, path) is None {
            assert forall|i: int| 0 <= i < rows.len() implies (
            #[trigger] rows[i]).vector.len() == dimension && vector_fault(
                rows[i].vector,
                limits,
            ) is None by {
                if i < before.len() {
                    assert(before[i] == rows[i]);
                }
            }
        }
    }
}

/// An update that succeeds leaves acceptable rows, and the node has the vector.
pub proof fn lemma_upsert_keeps_rows(rows: Seq<RowView>, row: RowView, limits: VectorStoreLimits)
    requires
        upserted(rows, row, limits) is Ok,
        row.vector.len() <= usize::MAX,
    ensures
        ({
            let after = upserted(rows, row, limits)->Ok_0.1;
            let at = place(rows, row.node_uuid) as int;
            &&& rows_fault(after, Some(row.vector.len() as usize), limits, "<memory>"@) is None
            &&& place(after, row.node_uuid) == at
            &&& at < after.len()
            &&& after[at].node_uuid == row.node_uuid
            &&& same_vector(after[at].vector, row.vector)
        }),
{
    let after = upserted(rows, row, limits)->Ok_0.1;
    let at = place(rows, row.node_uuid) as int;
    let path = "<memory>"@;
    let dimension = row.vector.len();
    lemma_place_splits(rows, row.node_uuid);
    lemma_order_fault(rows, path);
    lemma_order_fault(after, path);
    lemma_vectors_fault(rows, dimension, limits, path);
    lemma_vectors_fault(after, dimension, limits, path);
    if at < rows.len() && rows[at].node_uuid == row.node_uuid {
        assert(after.len() == rows.len());
        assert forall|i: int| 0 <= i < after.len() implies (#[trigger] after[i]).node_uuid
            == rows[i].node_uuid && after[i].vector.len() == dimension && vector_fault(
            after[i].vector,
            limits,
        ) is None by {
            assert(rows[i].vector.len() == dimension);
        }
        assert forall|i: int, j: int| 0 <= i < j < after.len() implies (
        #[trigger] after[i]).node_uuid < (#[trigger] after[j]).node_uuid by {
            assert(rows[i].node_uuid < rows[j].node_uuid);
        }
        assert forall|i: int| 0 <= i < at implies (#[trigger] after[i]).node_uuid
            < row.node_uuid by {
            assert(rows[i].node_uuid < row.node_uuid);
        }
    } else {
        assert(after =~= rows.insert(at, row));
        assert forall|i: int, j: int| 0 <= i < j < after.len() implies (
        #[trigger] after[i]).node_uuid < (#[trigger] after[j]).node_uuid by {
            if at < rows.len() {
                assert(rows[at].node_uuid > row.node_uuid);
            }
            let a = if i < at {
                i
            } else {
                i - 1
            };
            let b = if j < at {
                j
            } else {
                j - 1
            };
            if i != at && j != at {
                assert(rows[a].node_uuid < rows[b].node_uuid);
            } else if j == at {
                assert(rows[i].node_uuid < row.node_uuid);
            } else {
                assert(after[j] == rows[j - 1]);
                if j - 1 > at {
                    assert(rows[at].node_uuid < rows[j - 1].node_uuid);
                }
            }
        }
        assert forall|i: int| 0 <= i < after.len() implies (
        #[trigger] after[i]).vector.len() == dimension && vector_fault(
            after[i].vector,
            limits,
        ) is None by {
            if i < at {
                assert(after[i] == rows[i]);
            } else if i > at {
                assert(after[i] == rows[i - 1]);
            }
        }
        assert forall|i: int| 0 <= i < at implies (#[trigger] after[i]).node_uuid
            < row.node_uuid by {
            assert(rows[i].node_uuid < row.node_uuid);
        }
    }
    lemma_place(after, row.node_uuid, at as nat);
}

/// Repeating an update changes nothing, whatever time it carries.
pub proof fn lemma_upsert_idempotent(
    rows: Seq<RowView>,
    row: RowView,
    again: RowView,
    limits: VectorStoreLimits,
)
    requires
        upserted(rows, row, limits) is Ok,
        row.vector.len() <= usize::MAX,
        again.node_uuid == row.node_uuid,
        again.vector == row.vector,
    ensures
        ({
            let after = upserted(rows, row, limits)->Ok_0.1;
            upserted(after, again, limits) == Ok::<
                (VectorUpsertChange, Seq<RowView>),
                SearchFault,
            >((VectorUpsertChange::Unchanged, after))
        }),
{
    lemma_upsert_keeps_rows(rows, row, limits);
}

/// Identity and time of a row.
#[derive(Clone, Copy, Debug, PartialEq, Eq, Structural)]
pub struct RowKey {
    /// Node identity.
    pub node_uuid: u128,
    /// Time of the update, in microseconds.
    pub updated_at_micros: i64,
}

/// Rows by column: the components of all vectors one after the other.
#[derive(Debug, PartialEq, Eq)]
pub struct VectorColumns {
    /// Identity and time of each row.
    pub keys: Vec<RowKey>,
    /// Components.
    pub values: Vec<u32>,
}

/// The components of rows, one vector after the other.
pub open spec fn flattened(rows: Seq<RowView>) -> Seq<u32>
    decreases rows.len(),
{
    if rows.len() == 0 {
        Seq::empty()
    } else {
        flattened(rows.drop_last()) + rows.last().vector
    }
}

/// Identity and time of rows.
pub open spec fn row_keys(rows: Seq<RowView>) -> Seq<RowKey> {
    rows.map_values(
        |row: RowView|
            RowKey { node_uuid: row.node_uuid, updated_at_micros: row.updated_at_micros },
    )
}

/// Lay rows out by column.
pub fn encode_columns(rows: &Vec<StoredVector>) -> (columns: VectorColumns)
    ensures
        columns.keys@ == row_keys(views(rows@)),
        columns.values@ == flattened(views(rows@)),
{
    let ghost all = views(rows@);
    let mut keys: Vec<RowKey> = Vec::new();
    let mut values: Vec<u32> = Vec::new();
    let mut i: usize = 0;
    while i < rows.len()
        invariant
            i <= rows@.len(),
            all == views(rows@),
            keys@ == row_keys(all.take(i as int)),
            values@ == flattened(all.take(i as int)),
        decreases rows.len() - i,
    {
        assert(all.take(i + 1).drop_last() =~= all.take(i as int));
        assert(all.take(i + 1).last() == rows@[i as int]@);
        let row: &StoredVector = &rows[i];
        keys.push(
            RowKey { node_uuid: row.node_uuid, updated_at_micros: row.updated_at_micros },
        );
        let ghost before = values@;
        let mut j: usize = 0;
        while j < row.vector.len()
            invariant
                j <= row.vector@.len(),
                values@ == before + row.vector@.take(j as int),
            decreases row.vector.len() - j,
        {
            values.push(row.vector[j]);
            j = j + 1;
            assert(values@ =~= before + row.vector@.take(j as int));
        }
        assert(row.vector@.take(j as int) =~= row.vector@);
        i = i + 1;
        assert(keys@ =~= row_keys(all.take(i as int)));
    }
    assert(all.take(i as int) =~= all);
    VectorColumns { keys, values }
}

/// One row of columns.
pub open spec fn column_row(keys: Seq<RowKey>, values: Seq<u32>, dimension: nat, i: int) -> RowView {
    RowView {
        node_uuid: keys[i].node_uuid,
        vector: values.subrange(i * dimension, i * dimension + dimension),
        updated_at_micros: keys[i].updated_at_micros,
    }
}

/// The first rows of columns.
pub open spec fn column_rows(keys: Seq<RowKey>, values: Seq<u32>, dimension: nat, n: nat) -> Seq<
    RowView,
> {
    Seq::new(n, |i: int| column_row(keys, values, dimension, i))
}

/// Rows with one dimension come back from their columns.
pub proof fn lemma_columns_round_trip(rows: Seq<RowView>, dimension: nat)
    requires
        forall|i: int| 0 <= i < rows.len() ==> (#[trigger] rows[i]).vector.len() == dimension,
    ensures
        flattened(rows).len() == rows.len() * dimension,
        column_rows(row_keys(rows), flattened(rows), dimension, rows.len()) == rows,
    decreases rows.len(),
{
    let keys = row_keys(rows);
    let values = flattened(rows);
    if rows.len() == 0 {
        assert(0 * dimension == 0) by (nonlinear_arith);
        assert(column_rows(keys, values, dimension, 0) =~= rows);
    } else {
        let before = rows.drop_last();
        let n = before.len();
        assert forall|i: int| 0 <= i < before.len() implies (#[trigger] before[i]).vector.len()
            == dimension by {
            assert(before[i] == rows[i]);
        }
        lemma_columns_round_trip(before, dimension);
        assert((n + 1) * dimension == n * dimension + dimension) by (nonlinear_arith);
        assert(rows.last() == rows[n as int]);
        assert forall|i: int| 0 <= i < rows.len() implies #[trigger] column_row(
            keys,
            values,
            dimension,
            i,
        ) == rows[i] by {
            if i < n {
                assert(column_rows(row_keys(before), flattened(before), dimension, n)[i]
                    == before[i]);
                assert(0 <= i * dimension && i * dimension + dimension <= n * dimension)
                    by (nonlinear_arith)
                    requires
                        0 <= i < n,
                ;
                assert(values.subrange(i * dimension, i * dimension + dimension) =~= flattened(
                    before,
                ).subrange(i * dimension, i * dimension + dimension));
                assert(row_keys(before)[i] == keys[i]);
            } else {
                assert(values.subrange(i * dimension, i * dimension + dimension)
                    =~= rows.last().vector);
            }
        }
        assert(column_rows(keys, values, dimension, rows.len()) =~= rows);
    }
}

/// One batch of a snapshot file.
#[derive(Debug, PartialEq, Eq)]
pub struct VectorBatch {
    /// How the schema differs from the expected one, where it does.
    pub mismatch: Option<String>,
    /// Whether a value is absent.
    pub has_nulls: bool,
    /// The values.
    pub columns: VectorColumns,
}

/// Why the columns of a batch are not acceptable, if they are not.
pub open spec fn columns_fault(
    batch: VectorBatch,
    dimension: nat,
    path: Seq<char>,
) -> Option<SearchFault> {
    let rows = batch.columns.keys@.len();
    let complete = batch.columns.values@.len() / dimension;
    if batch.has_nulls {
        Some(SearchFault::Corrupt(path, "vector snapshot contains NULL values"@))
    } else if complete >= rows {
        None
    } else if complete * dimension + dimension > usize::MAX {
        Some(SearchFault::Corrupt(path, "vector offset overflow"@))
    } else {
        Some(SearchFault::Corrupt(path, "vector child length is truncated"@))
    }
}

/// Rows after one more batch, or why it fails.
pub open spec fn batch_outcome(
    rows: Seq<RowView>,
    batch: VectorBatch,
    dimension: nat,
    limits: VectorStoreLimits,
    path: Seq<char>,
) -> Result<Seq<RowView>, SearchFault> {
    let more = batch.columns.keys@.len();
    match batch.mismatch {
        Some(reason) => Err(SearchFault::Corrupt(path, reason@)),
        None => if rows.len() + more > limits.stored_vectors {
            Err(SearchFault::Exhausted("stored_vectors"@, limits.stored_vectors as nat))
        } else {
            match cells_fault(rows.len() + more, dimension, limits) {
                Some(fault) => Err(fault),
                None => match columns_fault(batch, dimension, path) {
                    Some(fault) => Err(fault),
                    None => Ok(
                        rows + column_rows(
                            batch.columns.keys@,
                            batch.columns.values@,
                            dimension,
                            more,
                        ),
                    ),
                },
            }
        },
    }
}

/// Rows of some batches, or why they fail.
pub open spec fn batches_outcome(
    batches: Seq<VectorBatch>,
    dimension: nat,
    limits: VectorStoreLimits,
    path: Seq<char>,
) -> Result<Seq<RowView>, SearchFault>
    decreases batches.len(),
{
    if batches.len() == 0 {
        Ok(Seq::empty())
    } else {
        match batches_outcome(batches.drop_last(), dimension, limits, path) {
            Err(fault) => Err(fault),
            Ok(rows) => batch_outcome(rows, batches.last(), dimension, limits, path),
        }
    }
}

proof fn lemma_batches_fail(
    batches: Seq<VectorBatch>,
    dimension: nat,
    limits: VectorStoreLimits,
    path: Seq<char>,
    n: int,
)
    requires
        0 <= n <= batches.len(),
        batches_outcome(batches.take(n), dimension, limits, path) is Err,
    ensures
        batches_outcome(batches, dimension, limits, path) == batches_outcome(
            batches.take(n),
            dimension,
            limits,
            path,
        ),
    decreases batches.len(),
{
    if n < batches.len() {
        assert(batches.drop_last().take(n) =~= batches.take(n));
        lemma_batches_fail(batches.drop_last(), dimension, limits, path, n);
    } else {
        assert(batches.take(n) =~= batches);
    }
}

/// The rows of a snapshot, or why it is not acceptable.
pub open spec fn snapshot_outcome(
    file_bytes: u64,
    batches: Seq<VectorBatch>,
    dimension: usize,
    limits: VectorStoreLimits,
    path: Seq<char>,
) -> Result<Seq<RowView>, SearchFault> {
    if file_bytes > limits.parquet_bytes {
        Err(SearchFault::Exhausted("vector_parquet_bytes"@, limits.parquet_bytes as nat))
    } else {
        match dimension_fault(dimension as nat, limits) {
            Some(fault) => Err(fault),
            None => match batches_outcome(batches, dimension as nat, limits, path) {
                Err(fault) => Err(fault),
                Ok(rows) => match rows_fault(rows, Some(dimension), limits, path) {
                    Some(fault) => Err(fault),
                    None => Ok(rows),
                },
            },
        }
    }
}

/// Admit the length of a snapshot file.
pub fn admit_snapshot_file(file_bytes: u64, limits: VectorStoreLimits) -> (admitted: Result<
    (),
    SearchArtifactError,
>)
    ensures
        match admitted {
            Ok(()) => file_bytes <= limits.parquet_bytes,
            Err(error) => file_bytes > limits.parquet_bytes && error@ == SearchFault::Exhausted(
                "vector_parquet_bytes"@,
                limits.parquet_bytes as nat,
            ),
        },
{
    if file_bytes > limits.parquet_bytes {
        return Err(
            SearchArtifactError::ResourceExhausted {
                resource: "vector_parquet_bytes",
                limit: limits.parquet_bytes,
            },
        );
    }
    Ok(())
}

proof fn lemma_complete(len: nat, dimension: nat, rows: nat)
    requires
        dimension > 0,
    ensures
        (len / dimension) * dimension <= len < (len / dimension) * dimension + dimension,
        rows <= len / dimension <==> rows * dimension <= len,
{
    assert((len / dimension) * dimension <= len < (len / dimension) * dimension + dimension)
        by (nonlinear_arith)
        requires
            dimension > 0,
    ;
    let q = len / dimension;
    if rows <= q {
        assert(rows * dimension <= q * dimension) by (nonlinear_arith)
            requires
                rows <= q,
        ;
    } else {
        assert(rows * dimension >= (q + 1) * dimension) by (nonlinear_arith)
            requires
                rows >= q + 1,
        ;
        assert((q + 1) * dimension == q * dimension + dimension) by (nonlinear_arith);
    }
}

/// Add the rows of a batch. On an error the rows are not to be used.
fn decode_batch(
    rows: &mut Vec<StoredVector>,
    batch: &VectorBatch,
    dimension: usize,
    path: &str,
) -> (decoded: Result<(), SearchArtifactError>)
    requires
        dimension > 0,
    ensures
        match decoded {
            Ok(()) => columns_fault(*batch, dimension as nat, path@) is None && views(final(rows)@)
                == views(old(rows)@) + column_rows(
                batch.columns.keys@,
                batch.columns.values@,
                dimension as nat,
                batch.columns.keys@.len(),
            ),
            Err(error) => columns_fault(*batch, dimension as nat, path@) == Some(error@),
        },
{
    if batch.has_nulls {
        return Err(corrupt(path, "vector snapshot contains NULL values"));
    }
    let keys: &Vec<RowKey> = &batch.columns.keys;
    let values: &Vec<u32> = &batch.columns.values;
    let ghost start = views(rows@);
    let ghost d = dimension as nat;
    let complete: usize = values.len() / dimension;
    proof {
        lemma_complete(values@.len(), d, keys@.len());
    }
    if complete < keys.len() {
        let offset: usize = complete * dimension;
        return match offset.checked_add(dimension) {
            Some(_) => Err(corrupt(path, "vector child length is truncated")),
            None => Err(corrupt(path, "vector offset overflow")),
        };
    }
    let mut i: usize = 0;
    assert(views(rows@) =~= start + column_rows(keys@, values@, d, 0));
    while i < keys.len()
        invariant
            i <= keys@.len(),
            *keys == batch.columns.keys,
            *values == batch.columns.values,
            d == dimension,
            keys@.len() * d <= values@.len(),
            views(rows@) == start + column_rows(keys@, values@, d, i as nat),
        decreases keys.len() - i,
    {
        let ghost before = rows@;
        assert(0 <= i * d && i * d + d <= keys@.len() * d) by (nonlinear_arith)
            requires
                0 <= i < keys@.len(),
        ;
        let total: usize = values.len();
        let offset: usize = i * dimension;
        let vector: Vec<u32> = copy_words(values, offset, offset + dimension);
        let row = StoredVector {
            node_uuid: keys[i].node_uuid,
            vector,
            updated_at_micros: keys[i].updated_at_micros,
        };
        rows.push(row);
        assert(row@ == column_row(keys@, values@, d, i as int));
        assert(views(rows@) =~= views(before).push(row@));
        i = i + 1;
        assert(views(rows@) =~= start + column_rows(keys@, values@, d, i as nat));
    }
    Ok(())
}

/// Read a snapshot: admit its file, then its batches, then its rows.
pub fn read_vector_snapshot(
    path: &str,
    file_bytes: u64,
    batches: &Vec<VectorBatch>,
    dimension: usize,
    limits: VectorStoreLimits,
) -> (rows: Result<Vec<StoredVector>, SearchArtifactError>)
    ensures
        ({
            let outcome = snapshot_outcome(file_bytes, batches@, dimension, limits, path@);
            match rows {
                Ok(rows) => outcome == Ok::<Seq<RowView>, SearchFault>(views(rows@)),
                Err(error) => outcome == Err::<Seq<RowView>, SearchFault>(error@),
            }
        }),
{
    match admit_snapshot_file(file_bytes, limits) {
        Ok(()) => {},
        Err(error) => {
            return Err(error);
        },
    }
    match validate_dimension(dimension, limits) {
        Ok(()) => {},
        Err(error) => {
            return Err(error);
        },
    }
    let ghost d = dimension as nat;
    let mut rows: Vec<StoredVector> = Vec::new();
    let mut i: usize = 0;
    assert(views(rows@) =~= Seq::<RowView>::empty());
    while i < batches.len()
        invariant
            i <= batches@.len(),
            dimension > 0,
            d == dimension,
            file_bytes <= limits.parquet_bytes,
            dimension_fault(d, limits) is None,
            batches_outcome(batches@.take(i as int), d, limits, path@) == Ok::<
                Seq<RowView>,
                SearchFault,
            >(views(rows@)),
        decreases batches.len() - i,
    {
        assert(batches@.take(i + 1).drop_last() =~= batches@.take(i as int));
        let batch: &VectorBatch = &batches[i];
        i = i + 1;
        let failure: Option<SearchArtifactError> = match &batch.mismatch {
            Some(reason) => Some(corrupt(path, reason.as_str())),
            None => match rows.len().checked_add(batch.columns.keys.len()) {
                Some(total) => if total > limits.stored_vectors {
                    Some(exhausted("stored_vectors", limits.stored_vectors))
                } else {
                    match checked_cells(total, dimension, limits) {
                        Ok(_) => match decode_batch(&mut rows, batch, dimension, path) {
                            Ok(()) => None,
                            Err(error) => Some(error),
                        },
                        Err(error) => Some(error),
                    }
                },
                None => Some(exhausted("stored_vectors", limits.stored_vectors)),
            },
        };
        match failure {
            Some(error) => {
                proof {
                    lemma_batches_fail(batches@, d, limits, path@, i as int);
                }
                return Err(error);
            },
            None => {},
        }
    }
    assert(batches@.take(i as int) =~= batches@);
    match validate_rows(&rows, Some(dimension), limits, path) {
        Ok(()) => Ok(rows),
        Err(error) => Err(error),
    }
}

/// Prepare a snapshot for writing: check the rows and lay them out by column.
pub fn prepare_vector_snapshot(
    path: &str,
    rows: &Vec<StoredVector>,
    dimension: usize,
    limits: VectorStoreLimits,
) -> (columns: Result<VectorColumns, SearchArtifactError>)
    ensures
        ({
            let fault = rows_fault(views(rows@), Some(dimension), limits, path@);
            match columns {
                Ok(columns) => fault is None && columns.keys@ == row_keys(views(rows@))
                    && columns.values@ == flattened(views(rows@)),
                Err(error) => fault == Some(error@),
            }
        }),
{
    match validate_rows(rows, Some(dimension), limits, path) {
        Ok(()) => Ok(encode_columns(rows)),
        Err(error) => Err(error),
    }
}

/// Whether a batch holds some rows by column, in the expected schema.
pub open spec fn lays_out(batch: VectorBatch, rows: Seq<RowView>) -> bool {
    &&& batch.mismatch is None
    &&& !batch.has_nulls
    &&& batch.columns.keys@ == row_keys(rows)
    &&& batch.columns.values@ == flattened(rows)
}

/// Whether batches hold some rows one after another, however the rows are
/// divided among them.
pub open spec fn divided(batches: Seq<VectorBatch>, rows: Seq<RowView>) -> bool
    decreases batches.len(),
{
    if batches.len() == 0 {
        rows.len() == 0
    } else {
        let before = rows.len() - batches.last().columns.keys@.len();
        &&& before >= 0
        &&& divided(batches.drop_last(), rows.take(before))
        &&& lays_out(batches.last(), rows.skip(before))
    }
}

proof fn lemma_divided(
    batches: Seq<VectorBatch>,
    rows: Seq<RowView>,
    dimension: nat,
    limits: VectorStoreLimits,
    path: Seq<char>,
)
    requires
        divided(batches, rows),
        dimension > 0,
        rows.len() <= limits.stored_vectors,
        rows.len() * dimension <= limits.vector_cells,
        forall|i: int| 0 <= i < rows.len() ==> (#[trigger] rows[i]).vector.len() == dimension,
    ensures
        batches_outcome(batches, dimension, limits, path) == Ok::<Seq<RowView>, SearchFault>(rows),
    decreases batches.len(),
{
    if batches.len() == 0 {
        assert(rows =~= Seq::<RowView>::empty());
    } else {
        let n = rows.len() - batches.last().columns.keys@.len();
        let before = rows.take(n);
        let last = rows.skip(n);
        assert(before.len() * dimension <= rows.len() * dimension) by (nonlinear_arith)
            requires
                before.len() <= rows.len(),
        ;
        assert forall|i: int| 0 <= i < before.len() implies (#[trigger] before[i]).vector.len()
            == dimension by {
            assert(before[i] == rows[i]);
        }
        assert forall|i: int| 0 <= i < last.len() implies (#[trigger] last[i]).vector.len()
            == dimension by {
            assert(last[i] == rows[i + n]);
        }
        lemma_divided(batches.drop_last(), before, dimension, limits, path);
        lemma_columns_round_trip(last, dimension);
        lemma_complete(flattened(last).len(), dimension, last.len());
        assert(before + last =~= rows);
    }
}

/// Reading a snapshot that was written gives its rows back, however the file
/// divides them into batches.
pub proof fn lemma_snapshot_round_trip(
    rows: Seq<RowView>,
    batches: Seq<VectorBatch>,
    file_bytes: u64,
    dimension: usize,
    limits: VectorStoreLimits,
    path: Seq<char>,
)
    requires
        rows_fault(rows, Some(dimension), limits, path) is None,
        file_bytes <= limits.parquet_bytes,
        divided(batches, rows),
    ensures
        snapshot_outcome(file_bytes, batches, dimension, limits, path) == Ok::<
            Seq<RowView>,
            SearchFault,
        >(rows),
{
    lemma_vectors_fault(rows, dimension as nat, limits, path);
    lemma_divided(batches, rows, dimension as nat, limits, path);
}

/// Kind of a search index.
#[derive(Clone, Copy, Debug, PartialEq, Eq, Structural)]
pub enum SearchIndexKind {
    /// Vectors.
    Vector,
    /// Text.
    Text,
}

/// Which search index an artifact belongs to.
#[derive(Debug, PartialEq, Eq)]
pub struct SearchArtifactKey {
    /// Kind of the index.
    pub kind: SearchIndexKind,
    /// Node label.
    pub label: String,
    /// Vector space; absent for text.
    pub space: Option<String>,
}

/// Manifest of a published search artifact.
#[derive(Debug, PartialEq, Eq)]
pub struct SearchManifest {
    /// Kind of the index.
    pub index_kind: SearchIndexKind,
    /// Node label.
    pub label: String,
    /// Vector space.
    pub space: Option<String>,
    /// Indexed properties; absent for vectors.
    pub properties: Option<Vec<String>>,
    /// Backend contract.
    pub backend_version: String,
    /// Data contract.
    pub contract_version: String,
    /// Vector dimension.
    pub dimension: Option<u32>,
    /// Whether the artifact is complete.
    pub completed: bool,
}

/// A published search artifact.
#[derive(Debug, PartialEq, Eq)]
pub struct PublishedSearchArtifact {
    /// Where it is stored.
    pub path: String,
    /// Its manifest.
    pub manifest: SearchManifest,
}

/// The model of a text that may be absent.
pub open spec fn text_of(text: Option<String>) -> Option<Seq<char>> {
    match text {
        Some(text) => Some(text@),
        None => None,
    }
}

/// Whether a manifest is that of a complete vector artifact of a key.
pub open spec fn belongs_to(manifest: SearchManifest, key: SearchArtifactKey) -> bool {
    &&& manifest.index_kind == key.kind
    &&& manifest.label@ == key.label@
    &&& text_of(manifest.space) == text_of(key.space)
    &&& manifest.properties is None
    &&& manifest.backend_version@ == VECTOR_BACKEND_VERSION@
    &&& manifest.contract_version@ == VECTOR_CONTRACT_VERSION@
    &&& manifest.completed
}

/// What is said of a vector with another dimension than the stored ones.
pub open spec fn mismatch_text(dimension: nat, stored: nat) -> Seq<char> {
    "dimension "@ + ascii(decimal_text(dimension)) + " does not match stored dimension "@ + ascii(
        decimal_text(stored),
    )
}

/// Why an artifact is not one of this key and dimension, if it is not.
pub open spec fn manifest_fault(
    artifact: PublishedSearchArtifact,
    key: SearchArtifactKey,
    dimension: u32,
) -> Option<SearchFault> {
    if !belongs_to(artifact.manifest, key) {
        Some(
            SearchFault::Corrupt(
                artifact.path@,
                "vector manifest does not match the requested backend key"@,
            ),
        )
    } else if artifact.manifest.dimension != Some(dimension) {
        Some(
            SearchFault::Invalid(
                "vector"@,
                mismatch_text(
                    dimension as nat,
                    match artifact.manifest.dimension {
                        Some(stored) => stored as nat,
                        None => 0,
                    },
                ),
            ),
        )
    } else {
        None
    }
}

fn same_option(left: &Option<String>, right: &Option<String>) -> (yes: bool)
    ensures
        yes == (text_of(*left) == text_of(*right)),
{
    match (left, right) {
        (Some(left), Some(right)) => *left == *right,
        (None, None) => true,
        _ => false,
    }
}

fn mismatch_message(dimension: u64, stored: u64) -> (text: String)
    ensures
        text@ == mismatch_text(dimension as nat, stored as nat),
{
    let mut text: String = "dimension ".to_owned();
    text.append(decimal(dimension).as_str());
    text.append(" does not match stored dimension ");
    text.append(decimal(stored).as_str());
    text
}

/// Check that an artifact is one of this key and dimension.
pub fn validate_vector_manifest(
    artifact: &PublishedSearchArtifact,
    key: &SearchArtifactKey,
    dimension: u32,
) -> (checked: Result<(), SearchArtifactError>)
    ensures
        checks(checked, manifest_fault(*artifact, *key, dimension)),
{
    let manifest: &SearchManifest = &artifact.manifest;
    if manifest.index_kind != key.kind || manifest.label != key.label || !same_option(
        &manifest.space,
        &key.space,
    ) || manifest.properties.is_some() || !same_text(
        manifest.backend_version.as_str(),
        VECTOR_BACKEND_VERSION,
    ) || !same_text(manifest.contract_version.as_str(), VECTOR_CONTRACT_VERSION)
        || !manifest.completed {
        return Err(
            corrupt(
                artifact.path.as_str(),
                "vector manifest does not match the requested backend key",
            ),
        );
    }
    match manifest.dimension {
        Some(stored) => if stored != dimension {
            let text: String = mismatch_message(dimension as u64, stored as u64);
            Err(invalid("vector", text.as_str()))
        } else {
            Ok(())
        },
        None => {
            let text: String = mismatch_message(dimension as u64, 0);
            Err(invalid("vector", text.as_str()))
        },
    }
}

/// The dimension of a published artifact, or why it has none. `key` is the key
/// of the label and space that the manifest names.
pub open spec fn published_dimension(
    artifact: PublishedSearchArtifact,
    key: Result<SearchArtifactKey, SearchArtifactError>,
) -> Result<u32, SearchFault> {
    if artifact.manifest.space is None {
        Err(SearchFault::Corrupt(artifact.path@, "vector manifest omits its space"@))
    } else {
        match key {
            Err(error) => Err(SearchFault::Corrupt(artifact.path@, error@.text())),
            Ok(key) => match artifact.manifest.dimension {
                None => Err(
                    SearchFault::Corrupt(
                        artifact.path@,
                        "vector manifest omits its fixed dimension"@,
                    ),
                ),
                Some(dimension) => match manifest_fault(artifact, key, dimension) {
                    Some(fault) => Err(SearchFault::Corrupt(artifact.path@, fault.text())),
                    None => Ok(dimension),
                },
            },
        }
    }
}

/// The dimension of a published artifact.
pub fn published_vector_dimension(
    artifact: &PublishedSearchArtifact,
    key: &Result<SearchArtifactKey, SearchArtifactError>,
) -> (dimension: Result<u32, SearchArtifactError>)
    ensures
        match dimension {
            Ok(dimension) => published_dimension(*artifact, *key) == Ok::<u32, SearchFault>(
                dimension,
            ),
            Err(error) => published_dimension(*artifact, *key) == Err::<u32, SearchFault>(error@),
        },
{
    let path: &str = artifact.path.as_str();
    if artifact.manifest.space.is_none() {
        return Err(corrupt(path, "vector manifest omits its space"));
    }
    let key: &SearchArtifactKey = match key {
        Ok(key) => key,
        Err(error) => {
            return Err(corrupt(path, error.message().as_str()));
        },
    };
    let dimension: u32 = match artifact.manifest.dimension {
        Some(dimension) => dimension,
        None => {
            return Err(corrupt(path, "vector manifest omits its fixed dimension"));
        },
    };
    match validate_vector_manifest(artifact, key, dimension) {
        Ok(()) => Ok(dimension),
        Err(error) => Err(corrupt(path, error.message().as_str())),
    }
}

/// The rows of a published artifact, or why it is not acceptable.
pub open spec fn published_outcome(
    artifact: PublishedSearchArtifact,
    key: Result<SearchArtifactKey, SearchArtifactError>,
    file_bytes: u64,
    batches: Seq<VectorBatch>,
    data_path: Seq<char>,
    limits: VectorStoreLimits,
) -> Result<Seq<RowView>, SearchFault> {
    match published_dimension(artifact, key) {
        Err(fault) => Err(fault),
        Ok(dimension) => snapshot_outcome(
            file_bytes,
            batches,
            dimension as usize,
            limits,
            data_path,
        ),
    }
}

/// Check the manifest and the data of a published artifact. `data_path` is
/// the path of its data file.
pub fn validate_published_vectors(
    artifact: &PublishedSearchArtifact,
    key: &Result<SearchArtifactKey, SearchArtifactError>,
    file_bytes: u64,
    batches: &Vec<VectorBatch>,
    data_path: &str,
    limits: VectorStoreLimits,
) -> (checked: Result<(), SearchArtifactError>)
    ensures
        ({
            let outcome = published_outcome(
                *artifact,
                *key,
                file_bytes,
                batches@,
                data_path@,
                limits,
            );
            match checked {
                Ok(()) => outcome is Ok,
                Err(error) => outcome == Err::<Seq<RowView>, SearchFault>(error@),
            }
        }),
{
    let dimension: u32 = match published_vector_dimension(artifact, key) {
        Ok(dimension) => dimension,
        Err(error) => {
            return Err(error);
        },
    };
    match read_vector_snapshot(data_path, file_bytes, batches, dimension as usize, limits) {
        Ok(_) => Ok(()),
        Err(error) => Err(error),
    }
}

/// The published data that an update starts from.
#[derive(Debug, PartialEq, Eq)]
pub struct CurrentVectors {
    /// The artifact.
    pub artifact: PublishedSearchArtifact,
    /// Path of its data file.
    pub data_path: String,
    /// Length of the data file.
    pub file_bytes: u64,
    /// Its batches.
    pub batches: Vec<VectorBatch>,
}

/// What an update publishes.
#[derive(Debug, PartialEq, Eq)]
pub enum SearchUpdateBuild {
    /// The current publication stays.
    ReuseCurrent,
    /// These rows are published.
    Publish(Vec<StoredVector>),
}

/// The rows that an update starts from, or why it cannot.
pub open spec fn current_rows(
    current: Option<CurrentVectors>,
    key: SearchArtifactKey,
    dimension: nat,
    limits: VectorStoreLimits,
) -> Result<Seq<RowView>, SearchFault> {
    match current {
        None => Ok(Seq::empty()),
        Some(current) => match manifest_fault(current.artifact, key, dimension as u32) {
            Some(fault) => Err(fault),
            None => snapshot_outcome(
                current.file_bytes,
                current.batches@,
                dimension as usize,
                limits,
                current.data_path@,
            ),
        },
    }
}

/// What an update leaves, or why it fails: first the vector is checked, then
/// that the node is a member, then the current publication.
pub open spec fn update_outcome(
    current: Option<CurrentVectors>,
    key: SearchArtifactKey,
    member: bool,
    row: RowView,
    limits: VectorStoreLimits,
) -> Result<(VectorUpsertChange, Seq<RowView>), SearchFault> {
    match vector_fault(row.vector, limits) {
        Some(fault) => Err(fault),
        None => if !member {
            Err(SearchFault::Invalid("node"@, "UUID does not exist with the required label"@))
        } else {
            match current_rows(current, key, row.vector.len(), limits) {
                Err(fault) => Err(fault),
                Ok(rows) => upserted(rows, row, limits),
            }
        },
    }
}

/// Whether a build is that of an update.
pub open spec fn builds(
    build: Result<SearchUpdateBuild, SearchArtifactError>,
    outcome: Result<(VectorUpsertChange, Seq<RowView>), SearchFault>,
) -> bool {
    match outcome {
        Err(fault) => build matches Err(error) && error@ == fault,
        Ok((VectorUpsertChange::Unchanged, _)) => build matches Ok(build) && build
            is ReuseCurrent,
        Ok((VectorUpsertChange::Changed, rows)) => build matches Ok(
            SearchUpdateBuild::Publish(published),
        ) && views(published@) == rows,
    }
}

/// Update the vector of a node on top of the current publication. `member`
/// says whether the node exists with the label of the key.
pub fn upsert_published_vector(
    current: &Option<CurrentVectors>,
    key: &SearchArtifactKey,
    member: bool,
    node_uuid: u128,
    vector: &Vec<u32>,
    updated_at_micros: i64,
    limits: VectorStoreLimits,
) -> (build: Result<SearchUpdateBuild, SearchArtifactError>)
    ensures
        builds(
            build,
            update_outcome(
                *current,
                *key,
                member,
                RowView { node_uuid, vector: vector@, updated_at_micros },
                limits,
            ),
        ),
{
    match validate_vector(vector, limits) {
        Ok(()) => {},
        Err(error) => {
            return Err(error);
        },
    }
    if !member {
        return Err(invalid("node", "UUID does not exist with the required label"));
    }
    let mut rows: Vec<StoredVector> = match current {
        None => {
            let none: Vec<StoredVector> = Vec::new();
            assert(views(none@) =~= Seq::<RowView>::empty());
            none
        },
        Some(current) => {
            match validate_vector_manifest(&current.artifact, key, vector.len() as u32) {
                Ok(()) => {},
                Err(error) => {
                    return Err(error);
                },
            }
            match read_vector_snapshot(
                current.data_path.as_str(),
                current.file_bytes,
                &current.batches,
                vector.len(),
                limits,
            ) {
                Ok(rows) => rows,
                Err(error) => {
                    return Err(error);
                },
            }
        },
    };
    match apply_vector_upsert(&mut rows, node_uuid, vector, updated_at_micros, limits) {
        Ok(VectorUpsertChange::Unchanged) => Ok(SearchUpdateBuild::ReuseCurrent),
        Ok(VectorUpsertChange::Changed) => Ok(SearchUpdateBuild::Publish(rows)),
        Err(error) => Err(error),
    }
}

/// Check that a query has the dimension of the stored vectors.
pub fn validate_query_dimension(query: &Vec<u32>, stored: u32) -> (checked: Result<
    (),
    SearchArtifactError,
>)
    ensures
        checks(
            checked,
            if query@.len() == stored {
                None
            } else {
                Some(
                    SearchFault::Invalid(
                        "vector"@,
                        mismatch_text(query@.len(), stored as nat),
                    ),
                )
            },
        ),
{
    if query.len() as u64 != stored as u64 {
        let text: String = mismatch_message(query.len() as u64, stored as u64);
        return Err(invalid("vector", text.as_str()));
    }
    Ok(())
}

/// Why a search is refused, if it is.
pub open spec fn search_fault(
    rows: Seq<RowView>,
    query: Seq<u32>,
    eligible: Set<u128>,
    limit: usize,
    limits: VectorStoreLimits,
) -> Option<SearchFault> {
    match vector_fault(query, limits) {
        Some(fault) => Some(fault),
        None => match rows_fault(rows, Some(query.len() as usize), limits, "<memory>"@) {
            Some(fault) => Some(fault),
            None => if eligible.len() > limits.eligible_nodes {
                Some(SearchFault::Exhausted("eligible_nodes"@, limits.eligible_nodes as nat))
            } else if limit == 0 {
                Some(SearchFault::Invalid("limit"@, "must be greater than zero"@))
            } else if limit > limits.results {
                Some(SearchFault::Exhausted("search_results"@, limits.results as nat))
            } else {
                None
            },
        },
    }
}

/// Places of the rows that take part in a search, in order.
pub open spec fn taking_part(rows: Seq<RowView>, eligible: Set<u128>) -> Seq<usize>
    decreases rows.len(),
{
    if rows.len() == 0 {
        Seq::empty()
    } else {
        let before = taking_part(rows.drop_last(), eligible);
        if eligible.contains(rows.last().node_uuid) {
            before.push((rows.len() - 1) as usize)
        } else {
            before
        }
    }
}

/// Admit a search and tell which rows take part in it: those of eligible
/// nodes.
pub fn admit_search(
    rows: &Vec<StoredVector>,
    query: &Vec<u32>,
    eligible: &[u128],
    limit: usize,
    limits: VectorStoreLimits,
) -> (places: Result<Vec<usize>, SearchArtifactError>)
    ensures
        ({
            let fault = search_fault(views(rows@), query@, eligible@.to_set(), limit, limits);
            match places {
                Ok(places) => fault is None && places@ == taking_part(
                    views(rows@),
                    eligible@.to_set(),
                ),
                Err(error) => fault == Some(error@),
            }
        }),
{
    match validate_vector(query, limits) {
        Ok(()) => {},
        Err(error) => {
            return Err(error);
        },
    }
    match validate_rows(rows, Some(query.len()), limits, "<memory>") {
        Ok(()) => {},
        Err(error) => {
            return Err(error);
        },
    }
    let unique: Vec<u128> = distinct(eligible);
    let ghost nodes = eligible@.to_set();
    proof {
        assert(unique@.to_set() =~= nodes) by {
            assert forall|value: u128| unique@.to_set().contains(value) == nodes.contains(
                value,
            ) by {
                assert(unique@.contains(value) <==> eligible@.contains(value));
            }
        }
        assert(unique@.no_duplicates());
        unique@.unique_seq_to_set();
    }
    if unique.len() > limits.eligible_nodes {
        return Err(exhausted("eligible_nodes", limits.eligible_nodes));
    }
    if limit == 0 {
        return Err(invalid("limit", "must be greater than zero"));
    }
    if limit > limits.results {
        return Err(exhausted("search_results", limits.results));
    }
    let ghost all = views(rows@);
    let mut places: Vec<usize> = Vec::new();
    let mut i: usize = 0;
    while i < rows.len()
        invariant
            i <= rows@.len(),
            all == views(rows@),
            increasing(unique@),
            unique@.to_set() == nodes,
            places@ == taking_part(all.take(i as int), nodes),
        decreases rows.len() - i,
    {
        assert(all.take(i + 1).drop_last() =~= all.take(i as int));
        assert(all.take(i + 1).last() == rows@[i as int]@);
        match position(&unique, rows[i].node_uuid) {
            Some(at) => {
                assert(unique@.to_set().contains(unique@[at as int]));
                places.push(i);
            },
            None => {
                assert(!unique@.to_set().contains(rows@[i as int].node_uuid));
            },
        }
        i = i + 1;
    }
    assert(all.take(i as int) =~= all);
    Ok(places)
}

/// A node of a search with its score, as the bit pattern of a double-precision
/// number.
#[derive(Clone, Copy, Debug, PartialEq, Eq, Structural)]
pub struct ScoredNode {
    /// Node identity.
    pub node_uuid: u128,
    /// Score.
    pub score: u64,
}

/// The place of a double-precision number in the total order of such numbers:
/// of two negative numbers the one with the larger magnitude comes first.
pub open spec fn number_rank(bits: u64) -> u64 {
    if bits >= 9_223_372_036_854_775_808 {
        (u64::MAX - bits) as u64
    } else {
        (bits + 9_223_372_036_854_775_808) as u64
    }
}

fn rank_of(bits: u64) -> (rank: u64)
    ensures
        rank == number_rank(bits),
{
    if bits >= 9_223_372_036_854_775_808 {
        18_446_744_073_709_551_615 - bits
    } else {
        bits + 9_223_372_036_854_775_808
    }
}

impl Ranked for ScoredNode {
    /// The larger score first, then the smaller identity.
    open spec fn not_after(self, other: Self) -> bool {
        ||| number_rank(self.score) > number_rank(other.score)
        ||| number_rank(self.score) == number_rank(other.score) && self.node_uuid
            <= other.node_uuid
    }

    proof fn total(left: Self, right: Self) {
    }

    proof fn transitive(first: Self, second: Self, third: Self) {
    }

    fn comes_first(&self, other: &Self) -> (yes: bool) {
        let left: u64 = rank_of(self.score);
        let right: u64 = rank_of(other.score);
        left > right || (left == right && self.node_uuid <= other.node_uuid)
    }
}

/// Whether hits are the first of some nodes in rank order.
pub open spec fn best_of(hits: Seq<ScoredNode>, nodes: Seq<ScoredNode>, limit: usize) -> bool {
    exists|sorted: Seq<ScoredNode>|
        {
            &&& #[trigger] in_order(sorted)
            &&& sorted.to_multiset() == nodes.to_multiset()
            &&& hits == sorted.take(
                if limit < sorted.len() {
                    limit as int
                } else {
                    sorted.len() as int
                },
            )
        }
}

/// The best nodes of a search, the best first.
pub fn rank_hits(nodes: Vec<ScoredNode>, limit: usize) -> (hits: Vec<ScoredNode>)
    ensures
        best_of(hits@, nodes@, limit),
{
    let ghost all = nodes@;
    let mut sorted: Vec<ScoredNode> = sort_ranked(nodes);
    let ghost ranked = sorted@;
    let keep: usize = if limit < sorted.len() {
        limit
    } else {
        sorted.len()
    };
    sorted.truncate(keep);
    assert(sorted@ =~= ranked.take(keep as int));
    assert(in_order(ranked));
    sorted
}

/// The ranking does not depend on the order in which the nodes were scored.
pub proof fn lemma_ranking_unique(
    left: Seq<ScoredNode>,
    right: Seq<ScoredNode>,
    nodes: Seq<ScoredNode>,
    others: Seq<ScoredNode>,
    limit: usize,
)
    requires
        nodes.to_multiset() == others.to_multiset(),
        best_of(left, nodes, limit),
        best_of(right, others, limit),
    ensures
        left == right,
{
    let a = choose|sorted: Seq<ScoredNode>|
        {
            &&& #[trigger] in_order(sorted)
            &&& sorted.to_multiset() == nodes.to_multiset()
            &&& left == sorted.take(
                if limit < sorted.len() {
                    limit as int
                } else {
                    sorted.len() as int
                },
            )
        };
    let b = choose|sorted: Seq<ScoredNode>|
        {
            &&& #[trigger] in_order(sorted)
            &&& sorted.to_multiset() == others.to_multiset()
            &&& right == sorted.take(
                if limit < sorted.len() {
                    limit as int
                } else {
                    sorted.len() as int
                },
            )
        };
    vstd::seq_lib::lemma_sorted_unique(
        a,
        b,
        |x: ScoredNode, y: ScoredNode| x.not_after(y),
    );
}

} // verus!
