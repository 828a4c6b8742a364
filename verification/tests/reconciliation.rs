use rateless_tables::bytes::{AsBytes, AsVariableBytes, Bytes};
use rateless_tables::decoder::Decoder;
use rateless_tables::encoder::Encoder;
use rateless_tables::symbol::Symbol;

#[derive(Debug, Default, PartialEq, Eq, PartialOrd, Ord)]
struct Point {
    x: u16,
    y: u16,
}

impl Bytes for Point {
    fn from_bytes(bytes: &[u8]) -> Option<Self> {
        let mut padded = [0u8; 4];
        for (i, &byte) in bytes.iter().enumerate().take(4) {
            padded[i] = byte;
        }
        let x = u16::from_be_bytes([padded[0], padded[1]]);
        let y = u16::from_be_bytes([padded[2], padded[3]]);
        Some(Self { x, y })
    }

    fn to_bytes(&self) -> Vec<u8> {
        let mut result = vec![];
        result.extend(self.x.to_be_bytes());
        result.extend(self.y.to_be_bytes());
        result
    }
}

fn set_eq<T: Symbol>(s1: &[T], s2: &[T]) -> bool {
    s1.iter().all(|x| s2.iter().any(|y| y.eq_sym(x)))
        && s2.iter().all(|x| s1.iter().any(|y| y.eq_sym(x)))
}

fn run_test<T: Symbol>(alice: Vec<T>, bob: Vec<T>) {
    let alice_needs_correct: Vec<T> = alice
        .iter()
        .filter(|v| !bob.iter().any(|b| b.eq_sym(v)))
        .map(|v| v.dup())
        .collect();
    let bob_needs_correct: Vec<T> = bob
        .iter()
        .filter(|v| !alice.iter().any(|a| a.eq_sym(v)))
        .map(|v| v.dup())
        .collect();

    let mut enc = Encoder::default();
    for symbol in alice {
        enc.add_symbol(symbol);
    }

    let mut dec = Decoder::default();
    for symbol in bob {
        dec.add_symbol(symbol);
    }

    let mut iters: usize = 0;
    loop {
        iters += 1;
        if iters > 300 {
            panic!("exceeded 300 loops (something broke)");
        }

        let next = enc.next_coded();
        dec.add_coded_symbol(next);
        dec.decode()
            .expect("invalid degree for decodable coded symbol");
        if dec.is_done() {
            break;
        }
    }

    let (alice_needs, bob_needs) = dec.consume();
    assert!(set_eq(&alice_needs, &alice_needs_correct));
    assert!(set_eq(&bob_needs, &bob_needs_correct));
}

#[test]
fn variable_length_strings() {
    run_test(
        vec![
            AsVariableBytes::new("hi".to_string()),
            AsVariableBytes::new("hello".to_string()),
            AsVariableBytes::new("another".to_string()),
        ],
        vec![
            AsVariableBytes::new("hello".to_string()),
            AsVariableBytes::new("greetings".to_string()),
        ],
    );
}

#[test]
fn fixed_length_types() {
    run_test(
        vec![
            AsBytes::new(Point { x: 1, y: 2 }),
            AsBytes::new(Point { x: 3, y: 3 }),
        ],
        vec![
            AsBytes::new(Point { x: 7, y: 0 }),
            AsBytes::new(Point { x: 3, y: 3 }),
        ],
    );
}

#[test]
fn variable_length_byte_arrays() {
    run_test(
        vec![
            AsVariableBytes::new(b"hi".to_vec()),
            AsVariableBytes::new(b"hello".to_vec()),
        ],
        vec![
            AsVariableBytes::new(b"hello".to_vec()),
            AsVariableBytes::new(b"greetings".to_vec()),
            AsVariableBytes::new(b"another".to_vec()),
        ],
    );
}

#[test]
fn variable_length_normal_ints() {
    run_test(
        vec![1, 2, 3, 4, 5, 6, 7, 9, 10],
        vec![1, 3, 4, 5, 6, 7, 8, 9, 10],
    );
}

#[test]
fn empty_sets_converge_immediately() {
    run_test(Vec::<u64>::new(), Vec::<u64>::new());
}

#[test]
fn equal_sets_have_empty_difference() {
    run_test(vec![5u64, 6, 7, 8], vec![5u64, 6, 7, 8]);
}

#[test]
fn one_sided_difference() {
    run_test(vec![1u64, 2, 3, 4, 5], Vec::<u64>::new());
}

#[test]
fn duplicate_resolutions_are_collapsed() {
    // The same payload registered on both sides cancels; the differing ones
    // are reported once each even over many exchanges.
    run_test(vec![42u64, 43, 44], vec![44u64, 45]);
}

#[test]
fn bounded_convergence_with_fifty_differences() {
    // Sets differing in fifty symbols reconcile within the generous
    // iteration cap with overwhelming probability; the fixed hash makes
    // this run deterministic.
    let alice: Vec<u64> = (0..75).collect();
    let bob: Vec<u64> = (25..100).collect();
    run_test(alice, bob);
}
