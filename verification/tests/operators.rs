//! Reduction operators and errors.

use pluvio::collective::error::CollectiveError;
use pluvio::collective::op::{BitXor, Op, Sum};

#[test]
fn xor_identity_u32() {
    let id = <BitXor as Op<u32>>::identity();
    assert_eq!(<BitXor as Op<u32>>::apply(id, 0xdeadbeef), 0xdeadbeef);
    assert_eq!(<BitXor as Op<u32>>::apply(0xdeadbeef, 0xdeadbeef), 0);
}

#[test]
fn sum_wraps_around() {
    let id = <Sum as Op<u32>>::identity();
    assert_eq!(<Sum as Op<u32>>::apply(id, 7), 7);
    assert_eq!(<Sum as Op<u32>>::apply(7, id), 7);
    assert_eq!(<Sum as Op<u32>>::apply(u32::MAX, 3), 2);
}

#[test]
fn bulk_reduce_covers_lanes_and_rest() {
    for len in [0usize, 1, 7, 8, 9, 16, 21] {
        let mut dst: Vec<u32> = (0..len as u32).collect();
        let src: Vec<u32> = (0..len as u32).map(|i| i * 100).collect();
        <Sum as Op<u32>>::reduce_in_place(&mut dst, &src);
        let expected: Vec<u32> = (0..len as u32).map(|i| i * 101).collect();
        assert_eq!(dst, expected);
    }
}

#[test]
fn errors_read_as_text() {
    assert_eq!(
        CollectiveError::Mpi(-12).message(),
        "MPI call failed with status code -12"
    );
    assert_eq!(
        CollectiveError::Mpi(i32::MIN).message(),
        "MPI call failed with status code -2147483648"
    );
    assert_eq!(CollectiveError::Ucx("am_send".into()).message(), "UCX error: am_send");
    assert_eq!(
        CollectiveError::BadShape.message(),
        "buffer length is not divisible by communicator size"
    );
    assert_eq!(
        CollectiveError::Bootstrap("refused".into()).message(),
        "bootstrap I/O failure: refused"
    );
    assert_eq!(
        CollectiveError::BadHeader { got: 4, expected: 8 }.message(),
        "invalid AM header (size 4 bytes, expected 8)"
    );
    assert_eq!(
        CollectiveError::Protocol("rank not provided").message(),
        "collective protocol error: rank not provided"
    );
}
