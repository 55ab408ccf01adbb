//! The point-set types, their shape invariants, and the error taxonomy.

use vstd::prelude::*;

verus! {

/// Number of G1 points in a trusted setup.
pub const NUM_G1_POINTS: usize = 4096;

/// Number of G2 points in a trusted setup.
pub const NUM_G2_POINTS: usize = 65;

/// Byte length of one encoded G1 point.
pub const BYTES_PER_G1_POINT: usize = 48;

/// Byte length of one encoded G2 point.
pub const BYTES_PER_G2_POINT: usize = 96;

/// An all-zero byte group of the given length.
pub open spec fn zero_group(n: nat) -> Seq<u8> {
    Seq::new(n, |i: int| 0u8)
}

/// `count` all-zero byte groups, each of length `size`.
pub open spec fn zero_groups(count: nat, size: nat) -> Seq<Seq<u8>> {
    Seq::new(count, |i: int| zero_group(size))
}

/// `rows` is exactly `count` byte groups, each of length `size`.
pub open spec fn groups_wf(rows: Seq<Seq<u8>>, count: nat, size: nat) -> bool {
    rows.len() == count && forall|i: int| 0 <= i < rows.len() ==> (#[trigger] rows[i]).len() == size
}

/// The mathematical contents of a vector of byte rows: each row as a sequence.
pub open spec fn rows_view(rows: Seq<Vec<u8>>) -> Seq<Seq<u8>> {
    Seq::new(rows.len(), |i: int| rows[i]@)
}

/// Appending a row appends its sequence to the contents.
pub proof fn lemma_rows_view_push(rows: Seq<Vec<u8>>, x: Vec<u8>)
    ensures
        rows_view(rows.push(x)) == rows_view(rows).push(x@),
{
    assert(rows_view(rows.push(x)) =~= rows_view(rows).push(x@));
}

/// Replacing a row replaces its sequence in the contents.
pub proof fn lemma_rows_view_update(rows: Seq<Vec<u8>>, i: int, x: Vec<u8>)
    requires
        0 <= i < rows.len(),
    ensures
        rows_view(rows.update(i, x)) == rows_view(rows).update(i, x@),
{
    assert(rows_view(rows.update(i, x)) =~= rows_view(rows).update(i, x@));
}

/// The list of G1 points of a trusted setup: 4096 byte groups of 48 bytes each.
#[derive(Clone, Debug, PartialEq)]
pub struct G1Points(pub Vec<Vec<u8>>);

/// The list of G2 points of a trusted setup: 65 byte groups of 96 bytes each.
#[derive(Clone, Debug, Eq, PartialEq)]
pub struct G2Points(pub Vec<Vec<u8>>);

impl View for G1Points {
    type V = Seq<Seq<u8>>;

    open spec fn view(&self) -> Seq<Seq<u8>> {
        rows_view(self.0@)
    }
}

impl View for G2Points {
    type V = Seq<Seq<u8>>;

    open spec fn view(&self) -> Seq<Seq<u8>> {
        rows_view(self.0@)
    }
}

impl G1Points {
    /// Shape invariant: exactly 4096 groups of exactly 48 bytes.
    pub open spec fn wf(&self) -> bool {
        groups_wf(self@, NUM_G1_POINTS as nat, BYTES_PER_G1_POINT as nat)
    }
}

impl G2Points {
    /// Shape invariant: exactly 65 groups of exactly 96 bytes.
    pub open spec fn wf(&self) -> bool {
        groups_wf(self@, NUM_G2_POINTS as nat, BYTES_PER_G2_POINT as nat)
    }
}

/// A vector of `n` zero bytes.
fn zero_row(n: usize) -> (r: Vec<u8>)
    ensures
        r@ == zero_group(n as nat),
{
    let mut r: Vec<u8> = Vec::new();
    let mut i: usize = 0;
    while i < n
        invariant
            i <= n,
            r@ =~= zero_group(i as nat),
        decreases n - i,
    {
        r.push(0u8);
        i = i + 1;
        proof {
            assert(r@ =~= zero_group(i as nat));
        }
    }
    proof {
        assert(r@ =~= zero_group(n as nat));
    }
    r
}

/// A vector of `count` zero rows of length `size` each.
fn zero_rows(count: usize, size: usize) -> (r: Vec<Vec<u8>>)
    ensures
        rows_view(r@) == zero_groups(count as nat, size as nat),
{
    let mut r: Vec<Vec<u8>> = Vec::new();
    let mut i: usize = 0;
    while i < count
        invariant
            i <= count,
            rows_view(r@) == zero_groups(i as nat, size as nat),
        decreases count - i,
    {
        let row = zero_row(size);
        proof {
            lemma_rows_view_push(r@, row);
        }
        r.push(row);
        i = i + 1;
        proof {
            assert(rows_view(r@) =~= zero_groups(i as nat, size as nat));
        }
    }
    r
}

impl Default for G1Points {
    /// The default G1 point set: every group all zero.
    fn default() -> (r: Self)
        ensures
            r.wf(),
            r@ == zero_groups(NUM_G1_POINTS as nat, BYTES_PER_G1_POINT as nat),
    {
        G1Points(zero_rows(NUM_G1_POINTS, BYTES_PER_G1_POINT))
    }
}

impl Default for G2Points {
    /// The default G2 point set: every group all zero.
    fn default() -> (r: Self)
        ensures
            r.wf(),
            r@ == zero_groups(NUM_G2_POINTS as nat, BYTES_PER_G2_POINT as nat),
    {
        G2Points(zero_rows(NUM_G2_POINTS, BYTES_PER_G2_POINT))
    }
}

/// The rows a flat byte blob carries: `count` consecutive chunks of `size`
/// bytes each.
pub open spec fn blob_rows(blob: Seq<u8>, count: nat, size: nat) -> Seq<Seq<u8>> {
    Seq::new(count, |i: int| blob.subrange(i * size, (i + 1) * size))
}

/// Cuts a flat blob into its fixed-size rows.
fn rows_from_blob(blob: &Vec<u8>, count: usize, size: usize) -> (r: Vec<Vec<u8>>)
    requires
        count <= 4096,
        size <= 96,
        blob@.len() == count * size,
    ensures
        rows_view(r@) == blob_rows(blob@, count as nat, size as nat),
{
    proof {
        assert(count * size <= 4096 * 96) by (nonlinear_arith)
            requires
                count <= 4096,
                size <= 96,
        ;
    }
    let mut r: Vec<Vec<u8>> = Vec::new();
    let mut i: usize = 0;
    while i < count
        invariant
            i <= count <= 4096,
            size <= 96,
            blob@.len() == count * size,
            blob@.len() <= 393216,
            rows_view(r@) == blob_rows(blob@, count as nat, size as nat).take(i as int),
        decreases count - i,
    {
        proof {
            assert((i + 1) * size <= count * size) by (nonlinear_arith)
                requires
                    i < count,
                    size >= 0,
            ;
            assert((i + 1) * size == i * size + size) by (nonlinear_arith);
        }
        let base = i * size;
        let mut row: Vec<u8> = Vec::new();
        let mut j: usize = 0;
        while j < size
            invariant
                j <= size,
                base == i * size,
                base + size <= blob@.len(),
                blob@.len() <= 393216,
                row@ == blob@.subrange(base as int, base + j),
            decreases size - j,
        {
            row.push(blob[base + j]);
            j = j + 1;
            proof {
                assert(row@ =~= blob@.subrange(base as int, base + j));
            }
        }
        proof {
            lemma_rows_view_push(r@, row);
        }
        r.push(row);
        i = i + 1;
        proof {
            assert(rows_view(r@) =~= blob_rows(blob@, count as nat, size as nat).take(i as int));
        }
    }
    proof {
        assert(blob_rows(blob@, count as nat, size as nat).take(count as int) =~= blob_rows(
            blob@,
            count as nat,
            size as nat,
        ));
    }
    r
}

impl G1Points {
    /// Reads a G1 point set out of its flat binary form: 4096 chunks of 48
    /// bytes, concatenated in order with no header. The length check is the
    /// caller's build-time integrity assertion, not a runtime error path.
    pub fn from_flat_bytes(blob: &Vec<u8>) -> (r: Self)
        requires
            blob@.len() == NUM_G1_POINTS * BYTES_PER_G1_POINT,
        ensures
            r.wf(),
            r@ == blob_rows(blob@, NUM_G1_POINTS as nat, BYTES_PER_G1_POINT as nat),
    {
        G1Points(rows_from_blob(blob, NUM_G1_POINTS, BYTES_PER_G1_POINT))
    }
}

impl G2Points {
    /// Reads a G2 point set out of its flat binary form: 65 chunks of 96
    /// bytes, concatenated in order with no header. The length check is the
    /// caller's build-time integrity assertion, not a runtime error path.
    pub fn from_flat_bytes(blob: &Vec<u8>) -> (r: Self)
        requires
            blob@.len() == NUM_G2_POINTS * BYTES_PER_G2_POINT,
        ensures
            r.wf(),
            r@ == blob_rows(blob@, NUM_G2_POINTS as nat, BYTES_PER_G2_POINT as nat),
    {
        G2Points(rows_from_blob(blob, NUM_G2_POINTS, BYTES_PER_G2_POINT))
    }
}

/// Everything that can go wrong while loading a trusted setup. The first four
/// variants belong to file-loading collaborators outside this crate and are
/// declared here only so that all loaders share one taxonomy; the parser
/// itself raises only the last three.
#[derive(Clone, Copy, Debug, PartialEq, Eq)]
pub enum KzgErrors {
    /// Failed to get current directory.
    FailedCurrentDirectory,
    /// The specified path does not exist.
    PathNotExists,
    /// Problems related to I/O.
    IOError,
    /// Not a valid file.
    NotValidFile,
    /// File is not properly formatted.
    FileFormatError,
    /// Not able to parse to usize.
    ParseError,
    /// Number of points does not match what is expected.
    MismatchedNumberOfPoints,
}

impl KzgErrors {
    /// A human-readable description of the error.
    pub fn message(&self) -> (r: &'static str)
        ensures
            r@ == match self {
                KzgErrors::FailedCurrentDirectory => "Failed to get current directory"@,
                KzgErrors::PathNotExists => "The specified path does not exist"@,
                KzgErrors::IOError => "Problems related to I/O"@,
                KzgErrors::NotValidFile => "Not a valid file"@,
                KzgErrors::FileFormatError => "File is not properly formatted"@,
                KzgErrors::ParseError => "Not able to parse to usize"@,
                KzgErrors::MismatchedNumberOfPoints => "Number of points does not match what is expected"@,
            },
    {
        match self {
            KzgErrors::FailedCurrentDirectory => "Failed to get current directory",
            KzgErrors::PathNotExists => "The specified path does not exist",
            KzgErrors::IOError => "Problems related to I/O",
            KzgErrors::NotValidFile => "Not a valid file",
            KzgErrors::FileFormatError => "File is not properly formatted",
            KzgErrors::ParseError => "Not able to parse to usize",
            KzgErrors::MismatchedNumberOfPoints => "Number of points does not match what is expected",
        }
    }
}

} // verus!
