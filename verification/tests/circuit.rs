use puzzles::circuit::{parse_circuit, CircuitError};
use puzzles::d24;
use puzzles::oracle::validate;
use puzzles::repair::{build_swap, find_repair, RepairResult};

const TEST_INPUT: &str = "x00: 1\nx01: 1\nx02: 1\ny00: 0\ny01: 1\ny02: 0\n\nx00 AND y00 -> z00\nx01 XOR y01 -> z01\nx02 OR y02 -> z02\n";

const TEST_INPUT2: &str = "x00: 1\nx01: 0\nx02: 1\nx03: 1\nx04: 0\ny00: 1\ny01: 1\ny02: 1\ny03: 1\ny04: 1\n\nntg XOR fgs -> mjb\ny02 OR x01 -> tnw\nkwq OR kpj -> z05\nx00 OR x03 -> fst\ntgd XOR rvg -> z01\nvdt OR tnw -> bfw\nbfw AND frj -> z10\nffh OR nrd -> bqk\ny00 AND y03 -> djm\ny03 OR y00 -> psh\nbqk OR frj -> z08\ntnw OR fst -> frj\ngnj AND tgd -> z11\nbfw XOR mjb -> z00\nx03 OR x00 -> vdt\ngnj AND wpb -> z02\nx04 AND y00 -> kjc\ndjm OR pbm -> qhw\nnrd AND vdt -> hwm\nkjc AND fst -> rvg\ny04 OR y02 -> fgs\ny01 AND x02 -> pbm\nntg OR kjc -> kwq\npsh XOR fgs -> tgd\nqhw XOR tgd -> z09\npbm OR djm -> kpj\nx03 XOR y03 -> ffh\nx00 XOR y04 -> ntg\nbfw OR bqk -> z06\nnrd XOR fgs -> wpb\nfrj XOR qhw -> z04\nbqk OR frj -> z07\ny03 OR x01 -> nrd\nhwm AND bqk -> z03\ntgd XOR rvg -> z12\ntnw OR pbm -> gnj\n";

#[test]
fn d24_test_part1() {
    assert_eq!(d24::part1(TEST_INPUT), Some(4));
    assert_eq!(d24::part1(TEST_INPUT2), Some(2024));
}

/// The text of a structurally correct ripple-carry adder over `n` digits,
/// with the given initial input values; `swapped` digits have their sum
/// output exchanged with their carry-product wire.
fn adder_text(n: usize, x: u64, y: u64, swapped: &[usize]) -> String {
    let mut out = String::new();
    for i in 0..n {
        out.push_str(&format!("x{:02}: {}\n", i, (x >> i) & 1));
        out.push_str(&format!("y{:02}: {}\n", i, (y >> i) & 1));
    }
    out.push_str("\n");
    for i in 0..n {
        let carry = if i == n - 1 {
            format!("z{:02}", n)
        } else {
            format!("c{:02}", i)
        };
        if i == 0 {
            out.push_str("x00 XOR y00 -> z00\n");
            out.push_str(&format!("x00 AND y00 -> {}\n", carry));
        } else {
            let (zname, aname) = if swapped.contains(&i) {
                (format!("a{:02}", i), format!("z{:02}", i))
            } else {
                (format!("z{:02}", i), format!("a{:02}", i))
            };
            out.push_str(&format!("x{:02} XOR y{:02} -> s{:02}\n", i, i, i));
            out.push_str(&format!("s{:02} XOR c{:02} -> {}\n", i, i - 1, zname));
            out.push_str(&format!("x{:02} AND y{:02} -> {}\n", i, i, aname));
            out.push_str(&format!("s{:02} AND c{:02} -> b{:02}\n", i, i - 1, i));
            out.push_str(&format!("a{:02} OR b{:02} -> {}\n", i, i, carry));
        }
    }
    out
}

#[test]
fn adder_adds() {
    // a correct adder evaluates to the sum of its inputs
    let text = adder_text(4, 9, 5, &[]);
    assert_eq!(d24::part1(&text), Some(14));
    let text2 = adder_text(6, 33, 29, &[]);
    assert_eq!(d24::part1(&text2), Some(62));
}

#[test]
fn oracle_accepts_correct_adder() {
    let text = adder_text(4, 0, 0, &[]);
    let c = parse_circuit(text.as_bytes()).unwrap();
    let ident = build_swap(c.names.len(), &vec![]);
    let (_suspects, errors) = validate(&c, &ident, 4).unwrap();
    assert_eq!(errors, 0);
}

#[test]
fn oracle_flags_swapped_adder() {
    let text = adder_text(4, 0, 0, &[2]);
    let c = parse_circuit(text.as_bytes()).unwrap();
    let ident = build_swap(c.names.len(), &vec![]);
    let (suspects, errors) = validate(&c, &ident, 4).unwrap();
    assert!(errors > 0);
    assert!(!suspects.is_empty());
}

#[test]
fn repair_finds_the_four_swaps() {
    let text = adder_text(5, 0, 0, &[1, 2, 3, 4]);
    let c = parse_circuit(text.as_bytes()).unwrap();
    let repair = find_repair(&c, 5, 4).unwrap();
    match repair {
        RepairResult::Found(pairs) => {
            assert_eq!(pairs.len(), 4);
            // the repair really makes the oracle pass every digit
            let swap = build_swap(c.names.len(), &pairs);
            let (_s, errors) = validate(&c, &swap, 5).unwrap();
            assert_eq!(errors, 0);
        },
        _ => panic!("no full repair found"),
    }
    // and the reported wire names match the known fix
    let joined = d24::part2(&text, 4).unwrap();
    assert_eq!(joined, b"a01,a02,a03,a04,z01,z02,z03,z04".to_vec());
}

#[test]
fn encode_places_bits_by_suffix() {
    // the z wire's numeric suffix picks the bit position
    let input = "x00: 1\ny00: 0\n\nx00 OR y00 -> z05\n";
    assert_eq!(d24::part1(input), Some(32));
}

#[test]
fn parse_rejects_malformed_lines() {
    assert!(matches!(parse_circuit(b"x00 1"), Err(CircuitError::Format)));
    assert!(matches!(
        parse_circuit(b"x00: 1\n\nx00 AND x00 -> a\nx00 OR x00 -> a\n"),
        Err(CircuitError::DuplicateOutput)
    ));
}

#[test]
fn evaluation_stalls_on_cycle() {
    // a gate that reads the very wire only it produces
    let input = "x00: 1\n\nx00 AND a00 -> a00\n";
    assert_eq!(d24::part1(input), None);
}
