use gadget_fhe::encoding::Encoding;

#[test]
fn print_accumulator() {
    let encoding = Encoding::new_canonical(
        4294836226,
        6,
        vec![1, 2, 3, 3, 3, 11],
        vec![0, 1, 2, 3, 4, 6, 7, 9, 10, 12, 14, 15, 17, 18, 20, 21],
        vec![5, 8, 11, 13, 16, 19, 22],
        23,
    );
    let acc = encoding.create_accumulator();
    println!("Acc: {:?}", acc);
    assert_eq!(
        acc,
        vec![0, 0, 0, 22, 0, 0, 0, 0, 0, 22, 1, 0, 0, 0, 0, 22, 1, 0, 0, 0, 0, 22, 1, 0]
    );
}

use gadget_fhe::encoding::write_test_vector;
use gadget_fhe::error::GadgetError;

const FOUR_GATES: &str = r#"
[{
    "input_mappings_1": [1, 1, 1, 1, 5, 6],
    "output_encodings_0": [0, 1, 2, 3, 4, 6, 7, 8, 9, 10, 11, 12, 13, 14, 15],
    "output_encodings_1": [5],
    "p": 23,
    "pin_count": 6,
    "tt_value": 4
},{
    "input_mappings_1": [1, 1, 1, 1, 5, 5],
    "output_encodings_0": [0, 1, 2, 3, 4, 5, 6, 7, 8, 9, 11, 12, 13, 14],
    "output_encodings_1": [10],
    "p": 23,
    "pin_count": 6,
    "tt_value": 8
},{
    "input_mappings_1": [1, 2, 2, 2, 2, 2],
    "output_encodings_0": [0, 1, 2, 3, 4, 5, 6, 7, 8, 9, 11],
    "output_encodings_1": [10],
    "p": 23,
    "pin_count": 6,
    "tt_value": 2147483648
},{
    "input_mappings_1": [1, 2, 2, 2, 2, 9],
    "output_encodings_0": [0, 1, 2, 4, 6, 8, 11, 13, 15, 17],
    "output_encodings_1": [3, 5, 7, 9, 10, 12, 14, 16, 18],
    "p": 23,
    "pin_count": 6,
    "tt_value": 18446744065119617026
}]
"#;

fn u32_list(v: &serde_json::Value) -> Vec<u32> {
    v.as_array().unwrap().iter().map(|x| x.as_u64().unwrap() as u32).collect()
}

fn parse_encodings(text: &str) -> Vec<Encoding> {
    let value: serde_json::Value = serde_json::from_str(text).unwrap();
    value
        .as_array()
        .unwrap()
        .iter()
        .map(|e| {
            let tt_value: u128 = e["tt_value"].to_string().parse().unwrap();
            Encoding::new_canonical(
                tt_value,
                e["pin_count"].as_u64().unwrap() as usize,
                u32_list(&e["input_mappings_1"]),
                u32_list(&e["output_encodings_0"]),
                u32_list(&e["output_encodings_1"]),
                e["p"].as_u64().unwrap() as u32,
            )
        })
        .collect()
}

#[test]
fn deserialization_works() {
    let encodings = parse_encodings(FOUR_GATES);
    assert_eq!(encodings.len(), 4);
    assert_eq!(encodings[3].tt_value(), 18446744065119617026);
    assert_eq!(encodings[2].input_mappings_1, vec![1, 2, 2, 2, 2, 2]);
    for encoding in &encodings {
        let p = encoding.p();
        let acc = encoding.create_accumulator();
        assert_eq!(acc.len(), p as usize + 1);
        assert!(acc.iter().all(|v| *v == 0 || *v == 1 || *v == p - 1), "{:?}", acc);
        assert_eq!(encoding.input_mappings_0, vec![0; 6]);
    }
}

#[test]
fn parsed_encodings_validate() {
    // Only the first three partition [0, 23): the fourth leaves 19..23 out.
    let encodings = parse_encodings(FOUR_GATES);
    assert_eq!(encodings[0].validate(), Err(GadgetError::EncodingError));
    assert_eq!(encodings[3].validate(), Err(GadgetError::EncodingError));
    let whole = Encoding::new_canonical(8, 2, vec![1, 1], vec![0, 1], vec![2], 3);
    assert_eq!(whole.validate(), Ok(()));
}

#[test]
fn validate_reports_each_error() {
    let small_p = Encoding::new_canonical(0, 1, vec![0], vec![0], vec![], 1);
    assert_eq!(small_p.validate(), Err(GadgetError::ParameterError));
    let short_pins = Encoding::new_canonical(0, 3, vec![1, 1], vec![0, 1], vec![2], 3);
    assert_eq!(short_pins.validate(), Err(GadgetError::ParameterError));
    let big_scalar = Encoding::new_canonical(0, 2, vec![1, 3], vec![0, 1], vec![2], 3);
    assert_eq!(big_scalar.validate(), Err(GadgetError::EncodingError));
    let out_of_range = Encoding::new_canonical(0, 2, vec![1, 1], vec![0, 1], vec![2, 3], 3);
    assert_eq!(out_of_range.validate(), Err(GadgetError::EncodingError));
}

#[test]
fn accumulator_of_and_gate() {
    // p = 3: acc[0] = out(0), acc[1] = -out(2), acc[2] = out(1), acc[3] = -out(0).
    let encoding = Encoding::new_canonical(8, 2, vec![1, 1], vec![0, 1], vec![2], 3);
    assert_eq!(encoding.create_accumulator(), vec![0, 2, 0, 0]);
    let boolean = Encoding::new(8, 2, vec![1, 1], vec![2, 2], vec![0, 2], vec![1], 1, 2, 3, 3);
    assert_eq!(boolean.create_accumulator(), vec![1, 2, 2, 2]);
}

/// The windows of the test vector as `(start, end, accumulator index)`.
fn windows(p: usize, n: usize) -> Vec<(usize, usize, usize)> {
    let w = n / p;
    let h = n / (2 * p);
    let mut v = vec![(0, h, 0)];
    for i in 1..p {
        v.push(((i - 1) * w + h, i * w + h, i));
    }
    v.push((n - h, n, p));
    v
}

#[test]
fn accumulator_tile_test() {
    for p in [2usize, 4, 8] {
        let mut n = 2 * p;
        while n <= 1024 {
            let mut covered = vec![0u32; n];
            for (start, end, _) in windows(p, n) {
                for j in start..end {
                    covered[j] += 1;
                }
            }
            assert!(covered.iter().all(|c| *c == 1), "p={p} n={n}");
            let acc: Vec<u32> = (0..=p as u32).map(|i| i % p as u32).collect();
            let mut buf = vec![7u32; n + 3];
            write_test_vector(&mut buf, 2, &acc, p as u32, n);
            let p64 = p as u64;
            for (start, end, i) in windows(p, n) {
                for j in start..end {
                    let lifted = ((acc[i] as u64) * (1u64 << 32) + p64 / 2) / p64;
                    assert_eq!(buf[2 + j] as u64, lifted, "p={p} n={n} j={j}");
                }
            }
            assert_eq!((buf[0], buf[1], buf[n + 2]), (7, 7, 7));
            n *= 2;
        }
    }
}

#[test]
fn test_vector_leaves_gap_at_zero() {
    // n = 16, p = 3: w = 5, h = 2; windows cover [0, 2), [2, 7), [7, 12), [14, 16).
    let acc = vec![1u32, 2, 1, 2];
    let mut buf = vec![9u32; 16];
    write_test_vector(&mut buf, 0, &acc, 3, 16);
    let one = 1431655765u32; // round(2^32 / 3)
    let two = 2863311531u32; // round(2 · 2^32 / 3)
    let expected: Vec<u32> = (0..16)
        .map(|j| match j {
            0..=1 => one,
            2..=6 => two,
            7..=11 => one,
            12..=13 => 0,
            _ => two,
        })
        .collect();
    assert_eq!(buf, expected);
}
