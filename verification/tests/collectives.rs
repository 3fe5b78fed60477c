//! The collective algorithms, run by all ranks of a group at once: every send
//! is handed to the rank that receives it.

use pluvio::collective::communicator::Communicator;
use pluvio::collective::error::CollectiveError;
use pluvio::collective::op::{BitXor, Op, Sum};
use pluvio::collective::ucx_backend::adaptive::{
    AdaptiveAllreduce, AdaptiveCommunicator, AdaptivePolicy, AllreduceAlgo,
};
use pluvio::collective::ucx_backend::am_router::RecvKey;
use pluvio::collective::ucx_backend::broadcast::{broadcast_typed, BroadcastAction};
use pluvio::collective::ucx_backend::bruck::{bruck_allgather_typed, rotate_blocks};
use pluvio::collective::ucx_backend::communicator::{UcxCommunicator, COLLECTIVE_AM_ID};
use pluvio::collective::ucx_backend::pipelined_ring::{
    pipelined_ring_allreduce_typed, AmProto, PipelineConfig,
};
use pluvio::collective::ucx_backend::recursive_doubling::{
    recursive_doubling_typed, RecursiveDoublingFuture,
};
use pluvio::collective::ucx_backend::ring::ring_allreduce_typed;
use pluvio::collective::ucx_backend::scatter::{scatter_typed, ScatterFuture};
use pluvio::collective::ucx_backend::tag::encode_tag;
use pluvio::collective::ucx_backend::util::{reduce_piece, split_disjoint_mut, write_piece};
use std::rc::Rc;

type Comm = UcxCommunicator<usize, (), ()>;

fn comm(rank: usize, size: usize) -> Comm {
    let endpoints: Vec<Option<Rc<usize>>> = (0..size)
        .map(|r| if r == rank { None } else { Some(Rc::new(r)) })
        .collect();
    UcxCommunicator::new(rank, size, Rc::new(()), endpoints, Rc::new(()))
}

fn lonely(rank: usize, size: usize) -> Comm {
    UcxCommunicator::new(rank, size, Rc::new(()), Vec::new(), Rc::new(()))
}

fn group(size: usize) -> Vec<Comm> {
    (0..size).map(|r| comm(r, size)).collect()
}

fn ring<T: Copy, O: Op<T>>(inputs: &[Vec<T>]) -> Vec<Vec<T>> {
    let n = inputs.len();
    let comms = group(n);
    let mut bufs: Vec<Vec<T>> = inputs.to_vec();
    let mut runs: Vec<_> = (0..n)
        .map(|r| ring_allreduce_typed(&comms[r], &bufs[r]).unwrap())
        .collect();
    loop {
        let steps: Vec<_> = runs.iter().map(|f| f.next_exchange()).collect();
        if steps[0].is_none() {
            assert!(steps.iter().all(|s| s.is_none()));
            return bufs;
        }
        let steps: Vec<_> = steps.into_iter().map(|s| s.unwrap()).collect();
        let sent: Vec<Vec<T>> = (0..n)
            .map(|r| bufs[r][steps[r].send_off..steps[r].send_off + steps[r].len].to_vec())
            .collect();
        for r in 0..n {
            let from = steps[r].recv_from;
            assert_eq!(steps[from].send_to, r);
            assert_eq!(steps[from].send_tag, steps[r].recv_tag);
            runs[r].complete::<T, O>(&mut bufs[r], &sent[from]);
        }
    }
}

fn pipelined<T: Copy, O: Op<T>>(inputs: &[Vec<T>], config: PipelineConfig) -> Vec<Vec<T>> {
    let n = inputs.len();
    let comms = group(n);
    let mut bufs: Vec<Vec<T>> = inputs.to_vec();
    let mut runs: Vec<_> = (0..n)
        .map(|r| pipelined_ring_allreduce_typed(&comms[r], &bufs[r], config).unwrap())
        .collect();
    let mut running: Vec<Vec<usize>> = vec![Vec::new(); n];
    let mut posted: Vec<(usize, RecvKey, Vec<T>)> = Vec::new();
    let mut sent: Vec<Vec<usize>> = vec![vec![0; config.micro_chunks]; n];
    let mut done: Vec<Vec<usize>> = vec![vec![0; config.micro_chunks]; n];
    let mut idle = 0;
    while !runs.iter().all(|f| f.is_finished()) {
        idle += 1;
        assert!(idle < 100_000, "the pipeline stalls");
        for r in 0..n {
            while let Some(m) = runs[r].launch() {
                running[r].push(m);
                assert!(running[r].len() <= config.max_in_flight);
            }
            // The chains are served last to first, to mix their order.
            for m in running[r].clone().into_iter().rev() {
                let step = match runs[r].chain_exchange(m) {
                    None => {
                        running[r].retain(|&k| k != m);
                        continue;
                    }
                    Some(step) => step,
                };
                if sent[r][m] == done[r][m] {
                    let payload = bufs[r][step.send_off..step.send_off + step.len].to_vec();
                    posted.push((step.send_to, RecvKey::from(step.header), payload));
                    sent[r][m] += 1;
                }
                let found = posted
                    .iter()
                    .position(|(to, key, _)| *to == r && *key == step.recv_key);
                if let Some(i) = found {
                    let (_, _, payload) = posted.remove(i);
                    let last = done[r][m] + 1 == 2 * (n - 1) || done[r][m] + 1 == n - 1;
                    runs[r].complete::<T, O>(m, &mut bufs[r], &payload);
                    done[r][m] += 1;
                    if last {
                        running[r].retain(|&k| k != m);
                    }
                }
            }
        }
    }
    assert!(posted.is_empty());
    bufs
}

fn doubling<T: Copy, O: Op<T>>(inputs: &[Vec<T>]) -> Vec<Vec<T>> {
    let n = inputs.len();
    let comms = group(n);
    let mut bufs: Vec<Vec<T>> = inputs.to_vec();
    let mut runs: Vec<_> = (0..n)
        .map(|r| match recursive_doubling_typed(&comms[r], &bufs[r]).unwrap() {
            RecursiveDoublingFuture::Doubling(d) => d,
            RecursiveDoublingFuture::Ring(_) => panic!("not a power of two"),
        })
        .collect();
    loop {
        let steps: Vec<_> = (0..n)
            .map(|r| runs[r].next_exchange(&comms[r]).unwrap())
            .collect();
        if steps[0].is_none() {
            assert!(steps.iter().all(|s| s.is_none()));
            return bufs;
        }
        let steps: Vec<_> = steps.into_iter().map(|s| s.unwrap()).collect();
        let sent = bufs.clone();
        for r in 0..n {
            let peer = steps[r].peer;
            assert_eq!(steps[peer].peer, r);
            assert_eq!(steps[peer].send_tag, steps[r].recv_tag);
            runs[r].complete::<T, O>(&mut bufs[r], &sent[peer]);
        }
    }
}

fn allgather<T: Copy>(inputs: &[Vec<T>], garbage: T) -> Vec<Vec<T>> {
    let n = inputs.len();
    let l = inputs[0].len();
    let comms = group(n);
    let mut bufs: Vec<Vec<T>> = vec![vec![garbage; l * n]; n];
    let mut runs: Vec<_> = (0..n)
        .map(|r| bruck_allgather_typed(&comms[r], &inputs[r], &mut bufs[r]).unwrap())
        .collect();
    loop {
        let steps: Vec<_> = (0..n)
            .map(|r| runs[r].next_exchange(&comms[r]).unwrap())
            .collect();
        if steps[0].is_none() {
            assert!(steps.iter().all(|s| s.is_none()));
            return bufs;
        }
        let steps: Vec<_> = steps.into_iter().map(|s| s.unwrap()).collect();
        let sent: Vec<(usize, RecvKey, Vec<T>)> = (0..n)
            .map(|r| {
                (steps[r].send_to, RecvKey::from(steps[r].header), bufs[r][..steps[r].len].to_vec())
            })
            .collect();
        for r in 0..n {
            let arrived: Vec<_> = sent
                .iter()
                .filter(|(to, key, _)| *to == r && *key == steps[r].recv_key)
                .collect();
            assert_eq!(arrived.len(), 1);
            runs[r].complete(&mut bufs[r], &arrived[0].2);
        }
    }
}

fn broadcast<T: Copy>(inputs: &[Vec<T>], root: usize) -> Vec<Vec<T>> {
    let n = inputs.len();
    let comms = group(n);
    let mut bufs: Vec<Vec<T>> = inputs.to_vec();
    let mut runs: Vec<_> = (0..n)
        .map(|r| broadcast_typed(&comms[r], root).unwrap())
        .collect();
    loop {
        let steps: Vec<_> = (0..n)
            .map(|r| runs[r].next_action(&comms[r]).unwrap())
            .collect();
        if steps[0].is_none() {
            assert!(steps.iter().all(|s| s.is_none()));
            return bufs;
        }
        let mut sent: Vec<(usize, RecvKey, Vec<T>)> = Vec::new();
        for r in 0..n {
            if let Some(BroadcastAction::Send { to, header }) = steps[r] {
                sent.push((to, RecvKey::from(header), bufs[r].clone()));
            }
        }
        for r in 0..n {
            match steps[r].unwrap() {
                BroadcastAction::Receive { key } => {
                    let i = sent
                        .iter()
                        .position(|(to, k, _)| *to == r && *k == key)
                        .unwrap();
                    let (_, _, payload) = sent.remove(i);
                    runs[r].complete(&mut bufs[r], &payload);
                }
                _ => runs[r].advance(),
            }
        }
        assert!(sent.is_empty(), "a message nobody waits for");
    }
}

fn scatter(send: &[u32], chunk: usize, n: usize, root: usize) -> Vec<Vec<u32>> {
    let comms = group(n);
    let mut bufs: Vec<Vec<u32>> = vec![vec![0; chunk]; n];
    let mut sent: Vec<(usize, RecvKey, Vec<u32>)> = Vec::new();
    let mut waiting: Vec<Option<(RecvKey, ScatterFuture)>> = Vec::new();
    for r in 0..n {
        let send_buf = if r == root { Some(send) } else { None };
        match scatter_typed(&comms[r], send_buf, &mut bufs[r], root).unwrap() {
            ScatterFuture::Done => waiting.push(None),
            ScatterFuture::Send { header, sends } => {
                for s in sends {
                    let payload = send[s.off..s.off + s.len].to_vec();
                    sent.push((s.to, RecvKey::from(header), payload));
                }
                waiting.push(None);
            }
            ScatterFuture::Receive { key } => {
                waiting.push(Some((key, ScatterFuture::Receive { key })))
            }
        }
    }
    for (r, wait) in waiting.into_iter().enumerate() {
        if let Some((key, run)) = wait {
            let i = sent
                .iter()
                .position(|(to, k, _)| *to == r && *k == key)
                .unwrap();
            let (_, _, payload) = sent.remove(i);
            run.complete(&mut bufs[r], &payload);
        }
    }
    assert!(sent.is_empty());
    bufs
}

fn keyed(rank: usize, len: usize) -> Vec<u32> {
    (0..len)
        .map(|i| ((rank as u32) << 16) ^ (i as u32).wrapping_mul(2_654_435_761))
        .collect()
}

fn xor_of(inputs: &[Vec<u32>]) -> Vec<u32> {
    let mut ground = vec![0u32; inputs[0].len()];
    for input in inputs {
        for (g, v) in ground.iter_mut().zip(input) {
            *g ^= *v;
        }
    }
    ground
}

/// Float addition, to run the algorithms on floats.
#[derive(Copy, Clone, Debug)]
struct AddF32;

impl Op<f32> for AddF32 {
    fn combine(a: f32, b: f32) -> f32 {
        a + b
    }

    fn neutral() -> f32 {
        0.0
    }

    fn apply(a: f32, b: f32) -> f32 {
        Self::combine(a, b)
    }

    fn identity() -> f32 {
        Self::neutral()
    }
}

fn float_inputs(size: usize, len: usize) -> Vec<Vec<f32>> {
    (0..size).map(|r| vec![r as f32 + 1.0; len]).collect()
}

fn assert_float_sum(bufs: &[Vec<f32>]) {
    let size = bufs.len();
    let expected = (size * (size + 1) / 2) as f32;
    for buf in bufs {
        for v in buf {
            assert!((*v - expected).abs() < 1e-3);
        }
    }
}

#[test]
fn ucx_allreduce_2proc() {
    for size in [2, 3, 5] {
        assert_float_sum(&ring::<f32, AddF32>(&float_inputs(size, size * 256)));
    }
}

#[test]
fn ucx_pipelined_allreduce_micro_chunks_4_f32_sum() {
    let per_micro = 256;
    let micro_chunks = 4;
    for size in [2, 3] {
        let config = PipelineConfig {
            micro_chunks,
            max_in_flight: 8,
            proto: Some(AmProto::Eager),
        };
        let inputs = float_inputs(size, size * per_micro * micro_chunks);
        assert_float_sum(&pipelined::<f32, AddF32>(&inputs, config));
    }
}

#[test]
fn ucx_pipelined_allreduce_bitexact_u32_xor() {
    let per_micro = 128;
    let micro_chunks = 8;
    for size in [2, 3, 4] {
        let buf_len = size * per_micro * micro_chunks;
        let inputs: Vec<Vec<u32>> = (0..size).map(|r| keyed(r, buf_len)).collect();
        let config = PipelineConfig {
            micro_chunks,
            max_in_flight: 16,
            proto: Some(AmProto::Eager),
        };
        let ground = xor_of(&inputs);
        let results = pipelined::<u32, BitXor>(&inputs, config);
        for (rank, buf) in results.iter().enumerate() {
            assert_eq!(*buf, ground, "rank {} produced wrong allreduce", rank);
            assert_ne!(*buf, inputs[rank], "rank {}: buf unchanged after allreduce", rank);
        }
    }
}

#[test]
fn ucx_pipelined_matches_plain_ring_micro_chunks_1() {
    let size = 2;
    let buf_len = size * 256;
    let inputs: Vec<Vec<u32>> = (0..size)
        .map(|rank| {
            (0..buf_len)
                .map(|i| ((rank as u32) * 1000 + i as u32) ^ 0xdead_beef)
                .collect()
        })
        .collect();
    let config = PipelineConfig {
        micro_chunks: 1,
        max_in_flight: 1,
        proto: Some(AmProto::Eager),
    };
    assert_eq!(pipelined::<u32, BitXor>(&inputs, config), ring::<u32, BitXor>(&inputs));
}

/// An operator that is neither associative nor commutative: the order of the
/// reduction shows.
#[derive(Copy, Clone, Debug)]
struct Mangle;

impl Op<u32> for Mangle {
    fn combine(a: u32, b: u32) -> u32 {
        a.wrapping_mul(31).wrapping_add(b ^ 7)
    }

    fn neutral() -> u32 {
        0
    }

    fn apply(a: u32, b: u32) -> u32 {
        Self::combine(a, b)
    }

    fn identity() -> u32 {
        Self::neutral()
    }
}

#[test]
fn pipelining_keeps_the_order_of_reduction() {
    for (size, micro_chunks, max_in_flight) in [(2, 2, 1), (3, 4, 2), (4, 3, 8), (5, 1, 3)] {
        let buf_len = size * micro_chunks * 6;
        let inputs: Vec<Vec<u32>> = (0..size).map(|r| keyed(r, buf_len)).collect();
        let config = PipelineConfig { micro_chunks, max_in_flight, proto: None };
        let plain = ring::<u32, Mangle>(&inputs);
        assert_eq!(pipelined::<u32, Mangle>(&inputs, config), plain);
        for buf in &plain {
            assert_eq!(*buf, plain[0]);
        }
    }
}

#[test]
fn ring_reduces_a_chunk_in_the_order_of_its_travel() {
    // Chunk 0 starts at rank 0 and passes ranks 1 and 2; chunk 1 starts at 1.
    let inputs = vec![vec![1u32, 2, 3], vec![10, 20, 30], vec![100, 200, 300]];
    let m = <Mangle as Op<u32>>::apply;
    let expected = vec![
        m(100, m(10, 1)),
        m(2, m(200, 20)),
        m(30, m(3, 300)),
    ];
    for buf in ring::<u32, Mangle>(&inputs) {
        assert_eq!(buf, expected);
    }
}

#[test]
fn ucx_rd_f32_sum_2proc() {
    for size in [2, 4, 8] {
        assert_float_sum(&doubling::<f32, AddF32>(&float_inputs(size, 1024)));
    }
}

#[test]
fn ucx_rd_matches_ring_bitexact_u32_xor() {
    for size in [2, 4, 8] {
        let inputs: Vec<Vec<u32>> = (0..size).map(|r| keyed(r, size * 256)).collect();
        let a = doubling::<u32, BitXor>(&inputs);
        let b = ring::<u32, BitXor>(&inputs);
        assert_eq!(a, b);
        assert_eq!(a[0], xor_of(&inputs));
    }
}

#[test]
fn algorithms_agree_on_wrapping_sums() {
    let size = 4;
    let inputs: Vec<Vec<u32>> = (0..size).map(|r| vec![u32::MAX - r as u32; 16]).collect();
    let expected = vec![u32::MAX.wrapping_mul(4).wrapping_sub(6); 16];
    let config = PipelineConfig { micro_chunks: 2, max_in_flight: 1, proto: None };
    for buf in ring::<u32, Sum>(&inputs) {
        assert_eq!(buf, expected);
    }
    for buf in pipelined::<u32, Sum>(&inputs, config) {
        assert_eq!(buf, expected);
    }
    for buf in doubling::<u32, Sum>(&inputs) {
        assert_eq!(buf, expected);
    }
}

#[test]
fn ucx_bruck_allgather_2proc() {
    const PER_RANK: usize = 256;
    for size in [1, 2, 3, 4, 5, 7, 8] {
        let inputs: Vec<Vec<u32>> = (0..size)
            .map(|rank| (0..PER_RANK).map(|i| (rank as u32) * 1_000 + i as u32).collect())
            .collect();
        for recv_buf in allgather(&inputs, 0u32) {
            for r in 0..size {
                for i in 0..PER_RANK {
                    let expected = (r as u32) * 1_000 + i as u32;
                    assert_eq!(recv_buf[r * PER_RANK + i], expected);
                }
            }
        }
    }
}

#[test]
fn ucx_broadcast_2proc() {
    let n = 1024;
    for size in [1, 2, 3, 4, 6, 8, 9] {
        for root in [0, size - 1, size / 2] {
            let inputs: Vec<Vec<u32>> = (0..size)
                .map(|rank| {
                    if rank == root {
                        (0..n).map(|i| 42 ^ (i as u32 * 17)).collect()
                    } else {
                        vec![0u32; n]
                    }
                })
                .collect();
            for buf in broadcast(&inputs, root) {
                for (i, v) in buf.iter().enumerate() {
                    assert_eq!(*v, 42_u32 ^ (i as u32 * 17));
                }
            }
        }
    }
}

#[test]
fn ucx_scatter_2proc() {
    const PER_CHUNK: usize = 256;
    for size in [1, 2, 5] {
        let root_input: Vec<u32> = (0..size)
            .flat_map(|r| (0..PER_CHUNK).map(move |i| (r * 1000 + i) as u32))
            .collect();
        for root in [0, size - 1] {
            for (rank, recv_buf) in scatter(&root_input, PER_CHUNK, size, root).iter().enumerate() {
                let expected: Vec<u32> =
                    (0..PER_CHUNK).map(|i| (rank * 1000 + i) as u32).collect();
                assert_eq!(*recv_buf, expected);
            }
        }
    }
}

#[test]
fn empty_buffers_take_part() {
    let inputs: Vec<Vec<u32>> = vec![Vec::new(); 3];
    assert_eq!(ring::<u32, Sum>(&inputs), inputs);
    assert_eq!(allgather(&inputs, 0u32), inputs);
    let config = PipelineConfig { micro_chunks: 2, max_in_flight: 2, proto: None };
    assert_eq!(pipelined::<u32, Sum>(&inputs, config), inputs);
}

#[test]
fn a_group_of_one_has_nothing_to_do() {
    let buf = [1u32, 2, 3];
    assert!(ring_allreduce_typed(&lonely(0, 1), &buf).unwrap().next_exchange().is_none());
    let config = PipelineConfig { micro_chunks: 0, max_in_flight: 0, proto: None };
    let mut pipe = pipelined_ring_allreduce_typed(&lonely(0, 1), &buf, config).unwrap();
    assert!(pipe.is_finished());
    assert!(pipe.launch().is_none());
    match recursive_doubling_typed(&lonely(0, 1), &buf).unwrap() {
        RecursiveDoublingFuture::Doubling(d) => {
            assert!(d.next_exchange(&lonely(0, 1)).unwrap().is_none())
        }
        RecursiveDoublingFuture::Ring(_) => panic!("ring"),
    }
    let run = broadcast_typed(&lonely(0, 1), 77).unwrap();
    assert!(run.next_action(&lonely(0, 1)).unwrap().is_none());
}

fn protocol_text<T>(r: Result<T, CollectiveError>) -> &'static str {
    match r {
        Err(CollectiveError::Protocol(m)) => m,
        Err(e) => panic!("unexpected error: {:?}", e),
        Ok(_) => panic!("no error"),
    }
}

#[test]
fn ring_refuses_bad_shapes_and_missing_peers() {
    let buf = [0u32; 7];
    assert!(matches!(
        ring_allreduce_typed(&comm(0, 2), &buf),
        Err(CollectiveError::BadShape)
    ));
    assert_eq!(
        protocol_text(ring_allreduce_typed(&lonely(0, 2), &buf[..6])),
        "no endpoint to next rank"
    );
    // The shape is looked at first.
    assert!(matches!(
        ring_allreduce_typed(&lonely(0, 2), &buf),
        Err(CollectiveError::BadShape)
    ));
}

#[test]
fn pipelined_ring_refuses_bad_configurations() {
    let buf = [0u32; 12];
    let config = |micro_chunks, max_in_flight| PipelineConfig {
        micro_chunks,
        max_in_flight,
        proto: None,
    };
    let zero = "pipelined ring: micro_chunks and max_in_flight must be > 0";
    for c in [config(0, 1), config(1, 0), config(0, 0), config(300, 0)] {
        assert_eq!(protocol_text(pipelined_ring_allreduce_typed(&comm(0, 2), &buf, c)), zero);
    }
    assert_eq!(
        protocol_text(pipelined_ring_allreduce_typed(&comm(0, 2), &buf, config(256, 1))),
        "pipelined ring: micro_chunks > 255 (does not fit in AmHeader::micro_chunk)"
    );
    assert!(matches!(
        pipelined_ring_allreduce_typed(&comm(0, 5), &buf, config(1, 1)),
        Err(CollectiveError::BadShape)
    ));
    assert!(matches!(
        pipelined_ring_allreduce_typed(&comm(0, 2), &buf, config(4, 1)),
        Err(CollectiveError::BadShape)
    ));
    assert_eq!(
        protocol_text(pipelined_ring_allreduce_typed(&lonely(0, 2), &buf, config(3, 1))),
        "no endpoint to next rank"
    );
    let defaults = PipelineConfig::default();
    assert_eq!((defaults.micro_chunks, defaults.max_in_flight), (4, 8));
    assert!(defaults.proto.is_none());
    let run = pipelined_ring_allreduce_typed(
        &comm(0, 2),
        &buf,
        PipelineConfig { micro_chunks: 3, max_in_flight: 1, proto: Some(AmProto::Rndv) },
    );
    assert_eq!(run.unwrap().proto(), Some(AmProto::Rndv));
}

#[test]
fn recursive_doubling_takes_the_ring_for_other_sizes() {
    let buf = [0u32; 6];
    assert!(matches!(
        recursive_doubling_typed(&comm(0, 3), &buf),
        Ok(RecursiveDoublingFuture::Ring(_))
    ));
    assert!(matches!(
        recursive_doubling_typed(&comm(0, 5), &buf),
        Err(CollectiveError::BadShape)
    ));
    assert_eq!(
        protocol_text(recursive_doubling_typed(&lonely(0, 3), &buf)),
        "no endpoint to next rank"
    );
    match recursive_doubling_typed(&lonely(0, 4), &buf).unwrap() {
        RecursiveDoublingFuture::Doubling(d) => assert_eq!(
            protocol_text(d.next_exchange(&lonely(0, 4))),
            "rd: missing endpoint to peer"
        ),
        RecursiveDoublingFuture::Ring(_) => panic!("ring"),
    }
}

#[test]
fn recursive_doubling_partners_differ_in_one_bit() {
    for rank in 0..8usize {
        let c = comm(rank, 8);
        let mut buf = [1u32];
        let mut run = match recursive_doubling_typed(&c, &buf).unwrap() {
            RecursiveDoublingFuture::Doubling(d) => d,
            RecursiveDoublingFuture::Ring(_) => panic!("ring"),
        };
        for round in 0..3u16 {
            let step = run.next_exchange(&c).unwrap().unwrap();
            assert_eq!(step.peer, rank ^ (1 << round));
            assert_eq!(step.send_tag, encode_tag(rank, round, 3, 0));
            assert_eq!(step.recv_tag, encode_tag(step.peer, round, 3, 0));
            run.complete::<u32, Sum>(&mut buf, &[1]);
        }
        assert!(run.next_exchange(&c).unwrap().is_none());
    }
}

#[test]
fn allgather_refuses_bad_shapes_and_missing_peers() {
    let mut recv = [0u32; 5];
    assert!(matches!(
        bruck_allgather_typed(&comm(0, 2), &[1, 2], &mut recv),
        Err(CollectiveError::BadShape)
    ));
    let mut recv = [0u32; 4];
    let run = bruck_allgather_typed(&lonely(1, 2), &[1, 2], &mut recv).unwrap();
    assert_eq!(recv, [1, 2, 0, 0]);
    assert_eq!(protocol_text(run.next_exchange(&lonely(1, 2))), "bruck: missing endpoint");
}

#[test]
fn rotation_moves_blocks_by_the_rank() {
    let mut buf = [10, 11, 20, 21, 30, 31];
    rotate_blocks(&mut buf, 1, 3, 2);
    assert_eq!(buf, [30, 31, 10, 11, 20, 21]);
    rotate_blocks(&mut buf, 5, 3, 2);
    assert_eq!(buf, [10, 11, 20, 21, 30, 31]);
}

#[test]
fn broadcast_refuses_bad_roots_and_missing_peers() {
    assert_eq!(
        protocol_text(broadcast_typed(&comm(0, 3), 3)),
        "broadcast: root out of range"
    );
    assert_eq!(
        protocol_text(broadcast_typed(&lonely(0, 0), 0)),
        "broadcast: root out of range"
    );
    let run = broadcast_typed(&lonely(1, 3), 1).unwrap();
    assert_eq!(protocol_text(run.next_action(&lonely(1, 3))), "bcast: missing endpoint");
}

#[test]
fn scatter_refuses_what_it_cannot_do() {
    let send = [1u32, 2, 3, 4];
    let mut recv = [0u32; 2];
    assert_eq!(
        protocol_text(scatter_typed(&comm(0, 2), Some(&send), &mut recv, 2)),
        "scatter: root out of range"
    );
    assert_eq!(
        protocol_text(scatter_typed(&comm(0, 2), None, &mut recv, 0)),
        "scatter: send_buf required at root"
    );
    assert_eq!(
        protocol_text(scatter_typed(&comm(0, 1), None, &mut recv, 0)),
        "scatter: send_buf required at root"
    );
    assert!(matches!(
        scatter_typed(&comm(0, 2), Some(&send[..3]), &mut recv, 0),
        Err(CollectiveError::BadShape)
    ));
    assert!(matches!(
        scatter_typed(&comm(0, 1), Some(&send[..1]), &mut recv, 0),
        Err(CollectiveError::BadShape)
    ));
    assert_eq!(recv, [0, 0]);
    assert_eq!(
        protocol_text(scatter_typed(&lonely(1, 2), Some(&send), &mut recv, 1)),
        "scatter: missing endpoint"
    );
    // The root's own chunk is copied before the peers are looked up.
    assert_eq!(recv, [3, 4]);
}

fn pick(policy: &AdaptivePolicy, bytes: usize, n: usize) -> AllreduceAlgo {
    policy.choose_allreduce(bytes, n)
}

#[test]
fn policy_small_pow2_chooses_rd() {
    let p = AdaptivePolicy::default();
    assert!(matches!(pick(&p, 256, 4), AllreduceAlgo::RecursiveDoubling));
}

#[test]
fn policy_small_non_pow2_falls_back_to_ring() {
    let p = AdaptivePolicy::default();
    assert!(matches!(pick(&p, 256, 3), AllreduceAlgo::PlainRing));
}

#[test]
fn policy_medium_uses_plain_ring() {
    let p = AdaptivePolicy::default();
    assert!(matches!(pick(&p, 8 * 1024, 4), AllreduceAlgo::PlainRing));
}

#[test]
fn policy_large_uses_pipelined() {
    let p = AdaptivePolicy::default();
    assert!(matches!(pick(&p, 1 << 20, 4), AllreduceAlgo::PipelinedRing { .. }));
}

#[test]
fn policy_switches_at_its_thresholds() {
    let p = AdaptivePolicy::default();
    assert!(matches!(pick(&p, 2047, 2), AllreduceAlgo::RecursiveDoubling));
    assert!(matches!(pick(&p, 2048, 2), AllreduceAlgo::PlainRing));
    assert!(matches!(pick(&p, 256, 1), AllreduceAlgo::PlainRing));
    assert!(matches!(pick(&p, 256, 0), AllreduceAlgo::PlainRing));
    assert!(matches!(pick(&p, 65535, 3), AllreduceAlgo::PlainRing));
    assert!(matches!(pick(&p, 65536, 3), AllreduceAlgo::PipelinedRing { .. }));
}

#[test]
fn adaptive_communicator_hands_on_its_pipeline_config() {
    let config =
        PipelineConfig { micro_chunks: 4, max_in_flight: 2, proto: Some(AmProto::Rndv) };
    let policy = AdaptivePolicy { small_threshold: 0, large_threshold: 0, pipeline_config: config };
    let adaptive = AdaptiveCommunicator::new(Rc::new(comm(0, 2)), policy);
    let Ok(AdaptiveAllreduce::PipelinedRing(mut run)) = adaptive.allreduce(&[0u32; 24]) else {
        panic!("the pipelined ring is chosen");
    };
    assert_eq!(run.proto(), Some(AmProto::Rndv));
    assert_eq!((run.launch(), run.launch(), run.launch()), (Some(0), Some(1), None));
    assert_eq!(run.chain_exchange(1).unwrap().len, 3);
    // The shape comes before the endpoint.
    let adaptive = AdaptiveCommunicator::new(Rc::new(lonely(0, 2)), policy);
    assert!(matches!(adaptive.allreduce(&[0u32; 12]), Err(CollectiveError::BadShape)));
    assert!(matches!(adaptive.allreduce(&[0u32; 24]), Err(CollectiveError::Protocol(_))));
}

#[test]
fn adaptive_communicator_starts_what_its_policy_chooses() {
    let inner = Rc::new(comm(1, 4));
    let adaptive = AdaptiveCommunicator::new(inner.clone(), AdaptivePolicy::default());
    assert_eq!((adaptive.rank(), adaptive.size()), (1, 4));
    assert_eq!(adaptive.inner().size(), 4);
    assert_eq!(adaptive.policy().large_threshold, 64 * 1024);
    assert!(matches!(adaptive.chosen_algo::<u32>(511), AllreduceAlgo::RecursiveDoubling));
    assert!(matches!(adaptive.chosen_algo::<u64>(511), AllreduceAlgo::PlainRing));
    assert!(matches!(adaptive.chosen_algo::<u32>(16384), AllreduceAlgo::PipelinedRing { .. }));
    assert!(matches!(
        adaptive.allreduce(&[0u32; 8]),
        Ok(AdaptiveAllreduce::RecursiveDoubling(_))
    ));
    assert!(matches!(
        adaptive.allreduce(&vec![0u32; 1024]),
        Ok(AdaptiveAllreduce::PlainRing(_))
    ));
    assert!(matches!(
        adaptive.allreduce(&vec![0u32; 1023]),
        Err(CollectiveError::BadShape)
    ));
    assert!(matches!(
        adaptive.allreduce(&vec![0u32; 16384]),
        Ok(AdaptiveAllreduce::PipelinedRing(_))
    ));
}

#[test]
fn communicator_hands_out_its_parts() {
    let worker = Rc::new(11u8);
    let router = Rc::new(22u8);
    let c = UcxCommunicator::new(1, 2, worker, vec![Some(Rc::new(7u32)), None], router);
    assert_eq!((c.rank(), c.size()), (1, 2));
    assert_eq!(c.endpoint(0).map(|e| **e), Some(7));
    assert!(c.endpoint(1).is_none());
    assert!(c.endpoint(2).is_none());
    assert_eq!(**c.worker(), 11);
    assert_eq!(**c.router(), 22);
    assert_eq!(COLLECTIVE_AM_ID, 0xC011);
}

#[test]
fn tags_pack_their_axes() {
    assert_eq!(encode_tag(1, 2, 3, 4), 1 | (2 << 16) | (3 << 32) | (4 << 40));
    assert_eq!(encode_tag(0x1_2345, 0xffff, 0xff, 0xff), 0x0000_ffff_ffff_2345);
}

#[test]
fn pieces_are_written_and_reduced_in_place() {
    let mut buf = [1u32, 2, 3, 4, 5];
    write_piece(&mut buf, 1, &[9, 8]);
    assert_eq!(buf, [1, 9, 8, 4, 5]);
    reduce_piece::<u32, Sum>(&mut buf, 3, &[10, 20]);
    assert_eq!(buf, [1, 9, 8, 14, 25]);
}

#[test]
fn split_disjoint_basic() {
    let mut buf = vec![0u32; 16];
    let parts = split_disjoint_mut(&mut buf, &[(0, 4), (4, 8), (12, 4)]);
    for (i, p) in parts.into_iter().enumerate() {
        for v in p.iter_mut() {
            *v = i as u32;
        }
    }
    assert_eq!(&buf[0..4], &[0, 0, 0, 0]);
    assert_eq!(&buf[4..12], &[1, 1, 1, 1, 1, 1, 1, 1]);
    assert_eq!(&buf[12..16], &[2, 2, 2, 2]);
}

#[test]
fn split_parts_come_in_the_order_of_their_ranges() {
    let mut buf: Vec<u32> = (0..10).collect();
    let parts = split_disjoint_mut(&mut buf, &[(7, 2), (1, 0), (0, 3), (8, 0), (4, 1), (10, 0)]);
    let lens: Vec<usize> = parts.iter().map(|p| p.len()).collect();
    assert_eq!(lens, [2, 0, 3, 0, 1, 0]);
    for (i, p) in parts.into_iter().enumerate() {
        for v in p.iter_mut() {
            *v = 100 * (i as u32 + 1) + *v;
        }
    }
    assert_eq!(buf, [300, 301, 302, 3, 504, 5, 6, 107, 108, 9]);
    assert!(split_disjoint_mut(&mut buf, &[]).is_empty());
}

#[test]
fn messages_of_one_rank_are_told_apart() {
    let size = 4;
    let comms = group(size);
    let buf = vec![0u32; size * 6];
    let mut run = ring_allreduce_typed(&comms[1], &buf).unwrap();
    let mut work = buf.clone();
    let mut tags = Vec::new();
    while let Some(step) = run.next_exchange() {
        tags.push(step.send_tag);
        run.complete::<u32, Sum>(&mut work, &vec![0; step.len]);
    }
    assert_eq!(tags.len(), 2 * (size - 1));
    let config = PipelineConfig { micro_chunks: 3, max_in_flight: 3, proto: None };
    let mut run = pipelined_ring_allreduce_typed(&comms[1], &buf, config).unwrap();
    let mut headers = Vec::new();
    for _phase in 0..2 {
        let mut chains = Vec::new();
        while let Some(m) = run.launch() {
            chains.push(m);
        }
        assert_eq!(chains, [0, 1, 2]);
        for m in chains {
            for _ in 1..size {
                let step = run.chain_exchange(m).unwrap();
                headers.push(RecvKey::from(step.header).code());
                run.complete::<u32, Sum>(m, &mut work, &vec![0; step.len]);
            }
        }
    }
    assert!(run.is_finished());
    assert_eq!(headers.len(), 3 * 2 * (size - 1));
    for list in [&mut tags, &mut headers] {
        list.sort();
        let all = list.len();
        list.dedup();
        assert_eq!(list.len(), all);
    }
}

#[test]
fn every_round_of_an_allgather_doubles_what_is_owned() {
    for (size, expected) in [(8, vec![1, 2, 4]), (5, vec![1, 2, 1]), (3, vec![1, 1])] {
        let c = comm(0, size);
        let mut recv = vec![0u32; size];
        let mut run = bruck_allgather_typed(&c, &[9], &mut recv).unwrap();
        let mut lens = Vec::new();
        while let Some(step) = run.next_exchange(&c).unwrap() {
            assert_eq!(step.recv_off, lens.iter().sum::<usize>() + 1);
            lens.push(step.len);
            run.complete(&mut recv, &vec![7; step.len]);
        }
        assert_eq!(lens, expected);
    }
}

#[test]
fn every_rank_but_the_root_receives_a_broadcast_once() {
    for size in [2usize, 3, 6, 8] {
        for root in 0..size {
            let mut sent = 0;
            for rank in 0..size {
                let c = comm(rank, size);
                let mut run = broadcast_typed(&c, root).unwrap();
                let (mut rounds, mut received) = (0, 0);
                while let Some(action) = run.next_action(&c).unwrap() {
                    rounds += 1;
                    match action {
                        BroadcastAction::Receive { .. } => received += 1,
                        BroadcastAction::Send { .. } => sent += 1,
                        BroadcastAction::Idle => {}
                    }
                    run.advance();
                }
                assert_eq!(received, if rank == root { 0 } else { 1 });
                assert_eq!(rounds, size.next_power_of_two().trailing_zeros());
            }
            assert_eq!(sent, size - 1);
        }
    }
}
