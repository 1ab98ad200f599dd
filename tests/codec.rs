use letterbox::encoded_matrix::{CodecError, EncodedMatrix};
use letterbox::matrix::Matrix;
use letterbox::node::Node;

fn sample() -> Matrix<Node> {
    let mut m = Matrix::new(3, 4, Node::open());
    for (i, c) in [(0, 0), (1, 2), (2, 3)].iter().enumerate() {
        m.set(*c, Node::from(i as u8 * 5));
    }
    m
}

#[test]
fn encode_writes_cell_bytes() {
    let e = EncodedMatrix::encode(&sample());
    assert_eq!((e.rows, e.cols), (3, 4));
    assert_eq!(e.cells, vec![0, 15, 15, 15, 15, 15, 5, 15, 15, 15, 15, 10]);
}

#[test]
fn decode_of_encode_is_the_grid() {
    let mut m = sample();
    m.entangle((0, 0), (2, 3));
    let d = EncodedMatrix::encode(&m).decode();
    assert_eq!((d.rows, d.cols), (3, 4));
    assert_eq!(d.vec, m.vec);
    assert!(d.entanglements.is_empty());
}

#[test]
fn bytes_round_trip() {
    let e = EncodedMatrix::encode(&sample());
    let z = e.to_bytes().unwrap();
    let mut frame = vec![3u8, 4u8];
    frame.extend_from_slice(&e.cells);
    assert_ne!(z, frame);
    assert_eq!(z[0], 0x78);
    let back = EncodedMatrix::from_bytes(&z).unwrap();
    assert_eq!((back.rows, back.cols), (3, 4));
    assert_eq!(back.cells, e.cells);
}

#[test]
fn bytes_round_trip_largest_size() {
    let m = Matrix::new(255, 255, Node::closed());
    let e = EncodedMatrix::encode(&m);
    let back = EncodedMatrix::from_bytes(&e.to_bytes().unwrap()).unwrap();
    assert_eq!((back.rows, back.cols), (255, 255));
    assert_eq!(back.cells.len(), 255 * 255);
    assert!(back.cells.iter().all(|b| *b == 0));
}

#[test]
fn bytes_round_trip_empty_grid() {
    let e = EncodedMatrix::encode(&Matrix::new(0, 7, Node::open()));
    let back = EncodedMatrix::from_bytes(&e.to_bytes().unwrap()).unwrap();
    assert_eq!((back.rows, back.cols), (0, 7));
    assert!(back.cells.is_empty());
}

#[test]
fn too_large_is_refused() {
    let e = EncodedMatrix::encode(&Matrix::new(256, 1, Node::open()));
    assert_eq!(e.to_bytes(), Err(CodecError::TooLarge));
    let e = EncodedMatrix { cells: vec![], rows: 0, cols: 300 };
    assert_eq!(e.to_bytes(), Err(CodecError::TooLarge));
}

#[test]
fn frame_errors() {
    assert_eq!(EncodedMatrix::from_frame(&vec![3]).unwrap_err(), CodecError::TooShort);
    assert_eq!(EncodedMatrix::from_frame(&vec![2, 2, 1, 1, 1]).unwrap_err(), CodecError::CellCount);
    let ok = EncodedMatrix::from_frame(&vec![1, 2, 9, 6]).unwrap();
    assert_eq!((ok.rows, ok.cols, ok.cells), (1, 2, vec![9, 6]));
}

#[test]
fn garbage_does_not_decompress() {
    assert_eq!(EncodedMatrix::from_bytes(&vec![1, 2, 3, 4]).unwrap_err(), CodecError::Decompress);
}

#[test]
fn from_conversions_round_trip() {
    let m = sample();
    let e: EncodedMatrix = m.clone().into();
    assert_eq!(e.cells, EncodedMatrix::encode(&m).cells);
    let d = Matrix::<Node>::from(e);
    assert_eq!((d.rows, d.cols), (3, 4));
    assert_eq!(d.vec, m.vec);
}
