use rateless_tables::bytes::{AsVariableBytes, Bytes};
use rateless_tables::decoder::Decoder;
use rateless_tables::encoder::Encoder;
use rateless_tables::index::IndexGenerator;
use rateless_tables::symbol::{CodedSymbol, Symbol};

#[test]
fn xor_is_self_inverse_for_integers() {
    let a: u64 = 0xdead_beef_1234_5678;
    let b: u64 = 0x0f0f_0f0f_f0f0_f0f0;
    assert_eq!(a.xor(&b).xor(&b), a);
    assert_eq!(a.xor(&a), 0);
    let c: i32 = -12345;
    let d: i32 = 67890;
    assert_eq!(c.xor(&d).xor(&d), c);
    assert_eq!(c.xor(&c), 0);
}

#[test]
fn xor_is_self_inverse_for_variable_bytes() {
    let a = AsVariableBytes::new("short".to_string());
    let b = AsVariableBytes::new("a longer payload".to_string());
    let round = a.xor(&b).xor(&b);
    assert!(round.eq_sym(&a));
    let zero = a.xor(&a);
    assert!(zero.as_bytes().is_empty());
}

#[test]
fn index_sequences_are_deterministic_and_increasing() {
    let seed: u64 = 0x1234_5678_9abc_def0;
    let mut a = IndexGenerator::new(seed, 0);
    let mut b = IndexGenerator::new(seed, 0);
    let mut previous: u64 = 0;
    for _ in 0..200 {
        let x = a.next();
        let y = b.next();
        assert_eq!(x, y);
        if previous < u64::MAX {
            // Strictly increasing until the index space is exhausted.
            assert!(x > previous);
        } else {
            assert_eq!(x, u64::MAX);
        }
        previous = x;
    }

    // A generator restarted from the same state replays the same tail.
    let mut c = IndexGenerator::new(seed, 0);
    let mut d = IndexGenerator::new(seed, 0);
    for _ in 0..10 {
        c.next();
        d.next();
    }
    for _ in 0..50 {
        assert_eq!(c.next(), d.next());
    }
}

#[test]
fn index_generator_emits_exact_positions() {
    let mut g = IndexGenerator::new(1, 0);
    let positions: Vec<u64> = (0..6).map(|_| g.next()).collect();
    assert_eq!(positions, vec![1, 2, 3, 6, 11, 19]);

    let mut g = IndexGenerator::new(99, 0);
    let positions: Vec<u64> = (0..6).map(|_| g.next()).collect();
    assert_eq!(positions, vec![1, 2, 4, 16, 29, 32]);

    let mut g = IndexGenerator::new(0xdead_beef, 0);
    let positions: Vec<u64> = (0..6).map(|_| g.next()).collect();
    assert_eq!(positions, vec![1, 2, 3, 5, 213, 537]);
}

#[test]
fn hashes_are_stable_for_equal_values() {
    assert_eq!(7u64.get_hash(), 7u64.get_hash());
    let s1 = AsVariableBytes::new("same".to_string());
    let s2 = AsVariableBytes::new("same".to_string());
    assert_eq!(s1.get_hash(), s2.get_hash());
}

#[test]
fn vacuous_cell_resolves_with_nothing_outstanding() {
    let mut dec: Decoder<u64> = Decoder::new();
    dec.add_coded_symbol(CodedSymbol::new(0u64, 0, 0));
    dec.decode().expect("a vacuous cell must resolve cleanly");
    assert!(dec.is_done());
    let (peer_needs, local_needs) = dec.consume();
    assert!(peer_needs.is_empty());
    assert!(local_needs.is_empty());
}

#[test]
fn invalid_degree_is_fatal() {
    // Find a payload whose propagation schedule hits position one right
    // after position zero, so that resolving the cell at position zero
    // drives the cell at position one to a net count of two.
    let mut v: u64 = 0;
    loop {
        let mut gen = IndexGenerator::new(v.get_hash(), 0);
        if gen.next() == 1 {
            break;
        }
        v += 1;
        assert!(v < 1_000_000, "no suitable payload found");
    }
    let w: u64 = v + 1_000_000;

    let mut dec: Decoder<u64> = Decoder::new();
    dec.add_coded_symbol(CodedSymbol::new(v, v.get_hash(), -1));
    dec.add_coded_symbol(CodedSymbol::new(w, w.get_hash(), 1));
    let result = dec.decode();
    assert_eq!(result, Err(2));
}

#[test]
fn reset_encoder_reproduces_identical_stream() {
    let symbols: Vec<u64> = vec![11, 22, 33, 44];

    let mut enc: Encoder<u64> = Encoder::new();
    for &s in &symbols {
        enc.add_symbol(s);
    }
    let mut first: Vec<(u64, u64, i64)> = Vec::new();
    for _ in 0..8 {
        let cell = enc.next_coded();
        first.push((*cell.symbol(), cell.hash(), cell.count()));
    }

    enc.reset();
    for &s in &symbols {
        enc.add_symbol(s);
    }
    let mut second: Vec<(u64, u64, i64)> = Vec::new();
    for _ in 0..8 {
        let cell = enc.next_coded();
        second.push((*cell.symbol(), cell.hash(), cell.count()));
    }

    assert_eq!(first, second);
}

#[test]
fn reset_decoder_reproduces_identical_session() {
    let alice: Vec<u64> = vec![1, 2, 3, 4, 5];
    let bob: Vec<u64> = vec![4, 5, 6, 7];

    let run = |dec: &mut Decoder<u64>| -> (Vec<u64>, Vec<u64>) {
        let mut enc: Encoder<u64> = Encoder::new();
        for &s in &alice {
            enc.add_symbol(s);
        }
        for &s in &bob {
            dec.add_symbol(s);
        }
        let mut iters: usize = 0;
        loop {
            iters += 1;
            assert!(iters <= 300);
            let cell = enc.next_coded();
            dec.add_coded_symbol(cell);
            dec.decode().expect("decode failed");
            if dec.is_done() {
                break;
            }
        }
        let mut peer: Vec<u64> = dec.remote().iter().map(|h| h.symbol).collect();
        let mut local: Vec<u64> = dec.local().iter().map(|h| h.symbol).collect();
        peer.sort();
        local.sort();
        (peer, local)
    };

    let mut dec: Decoder<u64> = Decoder::new();
    let first = run(&mut dec);
    dec.reset();
    let second = run(&mut dec);
    assert_eq!(first, second);
    assert_eq!(first.0, vec![1u64, 2, 3]);
    assert_eq!(first.1, vec![6u64, 7]);
}

#[test]
fn string_decoding_reports_invalid_bytes() {
    assert_eq!(<String as Bytes>::from_bytes(&[0xff, 0xfe]), None);
    assert_eq!(
        <String as Bytes>::from_bytes(b"hello"),
        Some("hello".to_string())
    );
    let wrapped = AsVariableBytes::new("caf\u{e9}".to_string());
    assert_eq!(wrapped.into(), Some("caf\u{e9}".to_string()));
}
