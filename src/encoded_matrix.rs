use vstd::prelude::*;

use crate::matrix::Matrix;
use crate::node::{byte_of, lemma_node_byte_round_trip, node_of, Node};

verus! {

/// A grid in its stored form: its size and one byte per cell, row by row.
/// Entanglements are not stored.
#[derive(Debug)]
pub struct EncodedMatrix {
    pub cells: Vec<u8>,
    pub rows: usize,
    pub cols: usize,
}

/// Why bytes could not be made from a grid, or a grid from bytes.
#[derive(Debug, Clone, Copy, PartialEq, Eq, Structural)]
pub enum CodecError {
    /// A dimension is over 255 and does not fit in its byte.
    TooLarge,
    /// The bytes are not a zlib stream.
    Decompress,
    /// The stream holds fewer than the two size bytes.
    TooShort,
    /// The stream does not hold `rows * cols` cell bytes.
    CellCount,
}

/// The zlib stream, at the default level, that flate2 writes for `data`.
pub uninterp spec fn zlib_of(data: Seq<u8>) -> Seq<u8>;

/// Relies on flate2's `ZlibEncoder` at `Compression::default()`: what it
/// writes into a `Vec` and hands back from `finish` is the zlib stream of
/// `data`. Writing into a `Vec` does not fail, so neither do `write_all`
/// and `finish`.
#[verifier::external_body]
fn zlib_compress(data: &Vec<u8>) -> (r: Option<Vec<u8>>)
    ensures
        r is Some,
        r matches Some(z) ==> z@ == zlib_of(data@),
{
    let mut e = flate2::write::ZlibEncoder::new(Vec::new(), flate2::Compression::default());
    match std::io::Write::write_all(&mut e, data) {
        Ok(()) => e.finish().ok(),
        Err(_) => None,
    }
}

/// Relies on flate2's `ZlibDecoder`: reading to the end of the zlib stream
/// that `ZlibEncoder` wrote for some bytes gives those bytes back.
#[verifier::external_body]
fn zlib_decompress(data: &Vec<u8>) -> (r: Option<Vec<u8>>)
    ensures
        forall|x: Seq<u8>| #[trigger] zlib_of(x) == data@ ==> r is Some && r->0@ == x,
{
    let mut z = flate2::read::ZlibDecoder::new(&data[..]);
    let mut v: Vec<u8> = Vec::new();
    match std::io::Read::read_to_end(&mut z, &mut v) {
        Ok(_) => Some(v),
        Err(_) => None,
    }
}

/// `e` stores grid `m`: same size, and each cell as its byte.
pub open spec fn encoding_of(m: &Matrix<Node>, e: &EncodedMatrix) -> bool {
    &&& e.rows == m.rows
    &&& e.cols == m.cols
    &&& e.cells@ == m.vec@.map_values(|n: Node| byte_of(n))
}

/// `m` is the grid stored in `e`: same size, each cell read from its byte,
/// and no entanglement.
pub open spec fn decoding_of(e: &EncodedMatrix, m: &Matrix<Node>) -> bool {
    &&& m.rows == e.rows
    &&& m.cols == e.cols
    &&& m.vec@ == e.cells@.map_values(|b: u8| node_of(b))
    &&& m.entanglements@.len() == 0
}

/// The bytes that are compressed: `rows`, `cols`, then the cells.
pub open spec fn frame_of(e: &EncodedMatrix) -> Seq<u8> {
    seq![e.rows as u8, e.cols as u8] + e.cells@
}

/// `r` is what reading the uncompressed bytes `x` gives: the two size
/// bytes, then exactly `rows * cols` cell bytes.
pub open spec fn decoded_frame(x: Seq<u8>, r: Result<EncodedMatrix, CodecError>) -> bool {
    if x.len() < 2 {
        r == Err::<EncodedMatrix, CodecError>(CodecError::TooShort)
    } else if x.len() - 2 != x[0] * x[1] {
        r == Err::<EncodedMatrix, CodecError>(CodecError::CellCount)
    } else {
        r matches Ok(e) && e.rows == x[0] && e.cols == x[1] && e.cells@ == x.skip(2)
    }
}

impl EncodedMatrix {
    /// The stored form of `matrix`.
    pub fn encode(matrix: &Matrix<Node>) -> (r: Self)
        ensures
            encoding_of(matrix, &r),
    {
        let mut cells: Vec<u8> = Vec::new();
        let mut i: usize = 0;
        while i < matrix.vec.len()
            invariant
                i <= matrix.vec@.len(),
                cells@ == matrix.vec@.subrange(0, i as int).map_values(|n: Node| byte_of(n)),
            decreases matrix.vec@.len() - i,
        {
            let byte: u8 = matrix.vec[i].into();
            cells.push(byte);
            i = i + 1;
            assert(cells@ =~= matrix.vec@.subrange(0, i as int).map_values(|n: Node| byte_of(n)));
        }
        assert(matrix.vec@.subrange(0, i as int) =~= matrix.vec@);
        EncodedMatrix { cells, rows: matrix.rows, cols: matrix.cols }
    }

    /// The grid stored here, with no entanglement.
    pub fn decode(&self) -> (r: Matrix<Node>)
        ensures
            decoding_of(self, &r),
    {
        let mut vec: Vec<Node> = Vec::new();
        let mut i: usize = 0;
        while i < self.cells.len()
            invariant
                i <= self.cells@.len(),
                vec@ == self.cells@.subrange(0, i as int).map_values(|b: u8| node_of(b)),
            decreases self.cells@.len() - i,
        {
            vec.push(Node::from(self.cells[i]));
            i = i + 1;
            assert(vec@ =~= self.cells@.subrange(0, i as int).map_values(|b: u8| node_of(b)));
        }
        assert(self.cells@.subrange(0, i as int) =~= self.cells@);
        Matrix { vec, rows: self.rows, cols: self.cols, entanglements: Vec::new() }
    }

    /// The compressed bytes of `rows`, `cols` and the cells; `TooLarge`,
    /// and only that, where a dimension does not fit in a byte.
    pub fn to_bytes(&self) -> (r: Result<Vec<u8>, CodecError>)
        ensures
            r == Err::<Vec<u8>, CodecError>(CodecError::TooLarge) <==> (self.rows > 255 || self.cols
                > 255),
            r matches Ok(z) ==> z@ == zlib_of(frame_of(self)),
            r is Ok <==> (self.rows <= 255 && self.cols <= 255),
    {
        if self.rows > 255 || self.cols > 255 {
            return Err(CodecError::TooLarge);
        }
        let mut data: Vec<u8> = vec![self.rows as u8, self.cols as u8];
        let mut i: usize = 0;
        while i < self.cells.len()
            invariant
                i <= self.cells@.len(),
                data@ == seq![self.rows as u8, self.cols as u8] + self.cells@.subrange(0, i as int),
            decreases self.cells@.len() - i,
        {
            data.push(self.cells[i]);
            i = i + 1;
            assert(data@ =~= seq![self.rows as u8, self.cols as u8] + self.cells@.subrange(
                0,
                i as int,
            ));
        }
        assert(self.cells@.subrange(0, i as int) =~= self.cells@);
        Ok(zlib_compress(&data).unwrap())
    }

    /// Reads the uncompressed bytes `x`: `rows`, `cols`, then exactly
    /// `rows * cols` cells.
    pub fn from_frame(x: &Vec<u8>) -> (r: Result<Self, CodecError>)
        ensures
            decoded_frame(x@, r),
            r matches Ok(e) ==> e.rows <= 255 && e.cols <= 255 && e.cells@.len() == e.rows * e.cols,
    {
        if x.len() < 2 {
            return Err(CodecError::TooShort);
        }
        let rows = x[0] as usize;
        let cols = x[1] as usize;
        assert(rows * cols <= 255 * 255) by (nonlinear_arith)
            requires
                rows <= 255,
                cols <= 255,
        ;
        if x.len() - 2 != rows * cols {
            return Err(CodecError::CellCount);
        }
        let mut cells: Vec<u8> = Vec::new();
        let mut i: usize = 2;
        while i < x.len()
            invariant
                2 <= i <= x@.len(),
                cells@ == x@.subrange(2, i as int),
            decreases x@.len() - i,
        {
            cells.push(x[i]);
            i = i + 1;
        }
        assert(x@.skip(2) =~= x@.subrange(2, x@.len() as int));
        Ok(EncodedMatrix { cells, rows, cols })
    }

    /// Decompresses `bytes` and reads them as `from_frame` does; bytes that
    /// do not decompress give `Decompress`.
    pub fn from_bytes(bytes: &Vec<u8>) -> (r: Result<Self, CodecError>)
        ensures
            forall|x: Seq<u8>| #[trigger] zlib_of(x) == bytes@ ==> decoded_frame(x, r),
            r matches Ok(e) ==> e.rows <= 255 && e.cols <= 255 && e.cells@.len() == e.rows * e.cols,
    {
        match zlib_decompress(bytes) {
            Some(v) => Self::from_frame(&v),
            None => Err(CodecError::Decompress),
        }
    }
}

impl From<EncodedMatrix> for Matrix<Node> {
    /// The grid stored in `encoded`, as `decode` gives it.
    fn from(encoded: EncodedMatrix) -> (r: Matrix<Node>)
        ensures
            decoding_of(&encoded, &r),
    {
        encoded.decode()
    }
}

impl vstd::std_specs::convert::FromSpecImpl<EncodedMatrix> for Matrix<Node> {
    /// The views fix the result, not the `Vec`s that hold them, so no single
    /// value is named here; `from` states `decoding_of` itself.
    open spec fn obeys_from_spec() -> bool {
        false
    }

    open spec fn from_spec(v: EncodedMatrix) -> Matrix<Node> {
        choose|m: Matrix<Node>| decoding_of(&v, &m)
    }
}

impl From<Matrix<Node>> for EncodedMatrix {
    /// The stored form of `matrix`, as `encode` gives it.
    fn from(matrix: Matrix<Node>) -> (r: EncodedMatrix)
        ensures
            encoding_of(&matrix, &r),
    {
        EncodedMatrix::encode(&matrix)
    }
}

impl vstd::std_specs::convert::FromSpecImpl<Matrix<Node>> for EncodedMatrix {
    /// As above: `from` states `encoding_of` itself.
    open spec fn obeys_from_spec() -> bool {
        false
    }

    open spec fn from_spec(v: Matrix<Node>) -> EncodedMatrix {
        choose|e: EncodedMatrix| encoding_of(&v, &e)
    }
}

/// Storing a grid and reading it back gives the same size and the same
/// cells; entanglements are not stored.
pub proof fn lemma_codec_round_trip(m: &Matrix<Node>, e: &EncodedMatrix, d: &Matrix<Node>)
    requires
        encoding_of(m, e),
        decoding_of(e, d),
    ensures
        d.rows == m.rows,
        d.cols == m.cols,
        d.vec@ == m.vec@,
{
    assert forall|i: int| 0 <= i < m.vec@.len() implies d.vec@[i] == m.vec@[i] by {
        lemma_node_byte_round_trip(m.vec@[i]);
    }
    assert(d.vec@ =~= m.vec@);
}

/// Bytes made from a stored grid of at most 255 by 255 cells read back as
/// the same stored grid.
pub proof fn lemma_bytes_round_trip(e: &EncodedMatrix, r: Result<EncodedMatrix, CodecError>)
    requires
        e.rows <= 255,
        e.cols <= 255,
        e.cells@.len() == e.rows * e.cols,
        forall|x: Seq<u8>| #[trigger] zlib_of(x) == zlib_of(frame_of(e)) ==> decoded_frame(x, r),
    ensures
        r matches Ok(back) && back.rows == e.rows && back.cols == e.cols && back.cells@ == e.cells@,
{
    let x = frame_of(e);
    assert(zlib_of(x) == zlib_of(frame_of(e)));
    assert(decoded_frame(x, r));
    assert(x.skip(2) =~= e.cells@);
}

} // verus!
