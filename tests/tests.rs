use qmc::{compare_sets, find_prime_implicants, hamming, parse, search_prime_implicants, sort_bits};
use qmc::{Bit, BitSet};

fn term(bits: Vec<Bit>) -> BitSet {
    BitSet { bits, used: false }
}

fn render(t: &BitSet) -> String {
    t.bits
        .iter()
        .map(|b| match b {
            Bit::Zero => '0',
            Bit::One => '1',
            Bit::DontCare => '-',
        })
        .collect()
}

fn rendered_sorted(v: &[BitSet]) -> Vec<String> {
    let mut out: Vec<String> = v.iter().map(render).collect();
    out.sort();
    out
}

#[test]
fn test_hamming_generate() {
    let a = term(vec![Bit::Zero, Bit::One, Bit::Zero, Bit::DontCare]);
    let b = term(vec![Bit::Zero, Bit::Zero, Bit::Zero, Bit::DontCare]);
    let e = term(vec![Bit::Zero, Bit::DontCare, Bit::Zero, Bit::DontCare]);
    assert_eq!(hamming(&a, &b), Some(e));
}

#[test]
fn test_hamming_ignore() {
    let a = term(vec![Bit::Zero, Bit::One, Bit::Zero]);
    let b = term(vec![Bit::DontCare, Bit::One, Bit::Zero]);
    assert_eq!(hamming(&a, &b), None);
}

#[test]
fn test_compare_sets() {
    let mut set_a = vec![term(vec![Bit::Zero, Bit::Zero])];
    let mut set_b = vec![term(vec![Bit::Zero, Bit::One]), term(vec![Bit::One, Bit::Zero])];
    let set_e = vec![term(vec![Bit::Zero, Bit::DontCare]), term(vec![Bit::DontCare, Bit::Zero])];
    assert_eq!(compare_sets(&mut set_a, &mut set_b), Some(set_e));
}

#[test]
fn test_parse() {
    let bits = vec![vec![0, 0, 0], vec![0, 0, 1], vec![1, 0, 0]];
    let expected = vec![
        term(vec![Bit::Zero, Bit::Zero, Bit::Zero]),
        term(vec![Bit::Zero, Bit::Zero, Bit::One]),
        term(vec![Bit::One, Bit::Zero, Bit::Zero]),
    ];
    assert_eq!(parse(&bits), expected);
}

#[test]
fn test_sort() {
    let bits = vec![
        term(vec![Bit::Zero, Bit::Zero, Bit::One]),
        term(vec![Bit::Zero, Bit::Zero, Bit::Zero]),
        term(vec![Bit::One, Bit::Zero, Bit::Zero]),
        term(vec![Bit::One, Bit::Zero, Bit::One]),
    ];
    let expected = vec![
        vec![term(vec![Bit::Zero, Bit::Zero, Bit::Zero])],
        vec![
            term(vec![Bit::Zero, Bit::Zero, Bit::One]),
            term(vec![Bit::One, Bit::Zero, Bit::Zero]),
        ],
        vec![term(vec![Bit::One, Bit::Zero, Bit::One])],
    ];
    assert_eq!(sort_bits(&bits), expected);
}

#[test]
fn test_find_prime_implicants() {
    let mut bits = vec![
        vec![term(vec![Bit::Zero, Bit::Zero])],
        vec![term(vec![Bit::Zero, Bit::One])],
    ];
    let expected = vec![term(vec![Bit::Zero, Bit::DontCare])];
    assert_eq!(find_prime_implicants(&mut bits), expected);
}

#[test]
fn hamming_is_symmetric() {
    let a = term(vec![Bit::One, Bit::DontCare, Bit::Zero]);
    let b = term(vec![Bit::One, Bit::DontCare, Bit::One]);
    let e = term(vec![Bit::One, Bit::DontCare, Bit::DontCare]);
    assert_eq!(hamming(&a, &b), Some(e.clone()));
    assert_eq!(hamming(&b, &a), Some(e));
}

#[test]
fn hamming_rejects_equal_terms() {
    let a = term(vec![Bit::One, Bit::Zero]);
    assert_eq!(hamming(&a, &a.clone()), None);
}

#[test]
fn hamming_rejects_two_differences() {
    let a = term(vec![Bit::One, Bit::Zero]);
    let b = term(vec![Bit::Zero, Bit::One]);
    assert_eq!(hamming(&a, &b), None);
}

#[test]
fn hamming_of_empty_terms_is_none() {
    assert_eq!(hamming(&term(vec![]), &term(vec![])), None);
}

#[test]
fn compare_sets_marks_merged_terms() {
    let mut set_a = vec![term(vec![Bit::Zero, Bit::Zero]), term(vec![Bit::One, Bit::One])];
    let mut set_b = vec![term(vec![Bit::Zero, Bit::One])];
    let merged = compare_sets(&mut set_a, &mut set_b).unwrap();
    assert_eq!(rendered_sorted(&merged), vec!["-1".to_string(), "0-".to_string()]);
    assert!(set_a[0].used && set_a[1].used && set_b[0].used);
}

#[test]
fn compare_sets_without_merge_is_none() {
    let mut set_a = vec![term(vec![Bit::Zero, Bit::Zero])];
    let mut set_b = vec![term(vec![Bit::One, Bit::One])];
    assert_eq!(compare_sets(&mut set_a, &mut set_b), None);
    assert!(!set_a[0].used && !set_b[0].used);
}

#[test]
fn parse_reads_other_values_as_zero() {
    let parsed = parse(&[vec![2, 1, -1]]);
    assert_eq!(parsed, vec![term(vec![Bit::Zero, Bit::One, Bit::Zero])]);
}

#[test]
fn sort_bits_is_sparse_and_partitions() {
    let bits = parse(&[vec![1, 1, 1], vec![0, 0, 0], vec![1, 1, 1]]);
    let groups = sort_bits(&bits);
    assert_eq!(groups.len(), 2);
    assert_eq!(rendered_sorted(&groups[0]), vec!["000".to_string()]);
    assert_eq!(rendered_sorted(&groups[1]), vec!["111".to_string(), "111".to_string()]);
    let total: usize = groups.iter().map(|g| g.len()).sum();
    assert_eq!(total, bits.len());
}

#[test]
fn sort_bits_of_nothing_is_empty() {
    assert!(sort_bits(&[]).is_empty());
}

#[test]
fn find_prime_implicants_skips_distant_buckets() {
    let mut groups = vec![
        vec![term(vec![Bit::Zero, Bit::Zero])],
        vec![term(vec![Bit::One, Bit::One])],
    ];
    assert!(find_prime_implicants(&mut groups).is_empty());
    assert!(!groups[0][0].used && !groups[1][0].used);
}

#[test]
fn find_prime_implicants_removes_duplicates() {
    let mut groups = vec![
        vec![term(vec![Bit::Zero, Bit::DontCare, Bit::Zero]), term(vec![Bit::Zero, Bit::Zero, Bit::DontCare])],
        vec![term(vec![Bit::Zero, Bit::DontCare, Bit::One]), term(vec![Bit::Zero, Bit::One, Bit::DontCare])],
    ];
    let merged = find_prime_implicants(&mut groups);
    assert_eq!(rendered_sorted(&merged), vec!["0--".to_string()]);
}

#[test]
fn search_finds_golden_primes() {
    let rows = vec![
        vec![0, 0, 0, 0],
        vec![0, 0, 1, 0],
        vec![0, 1, 0, 0],
        vec![0, 1, 0, 1],
        vec![0, 1, 1, 0],
        vec![1, 0, 1, 0],
        vec![0, 1, 1, 1],
        vec![1, 0, 1, 1],
    ];
    let primes = search_prime_implicants(parse(&rows));
    assert_eq!(
        rendered_sorted(&primes),
        vec!["-010".to_string(), "0--0".to_string(), "01--".to_string(), "101-".to_string()]
    );
    assert!(primes.iter().all(|p| !p.used));
}

#[test]
fn search_of_full_cube_is_one_term() {
    let mut rows = Vec::new();
    for i in 0..8 {
        rows.push(vec![(i >> 2) & 1, (i >> 1) & 1, i & 1]);
    }
    let primes = search_prime_implicants(parse(&rows));
    assert_eq!(rendered_sorted(&primes), vec!["---".to_string()]);
}

#[test]
fn search_keeps_isolated_terms_once() {
    let rows = vec![vec![0, 0], vec![1, 1], vec![1, 1]];
    let primes = search_prime_implicants(parse(&rows));
    assert_eq!(rendered_sorted(&primes), vec!["00".to_string(), "11".to_string()]);
}

#[test]
fn search_of_nothing_is_empty() {
    assert!(search_prime_implicants(Vec::new()).is_empty());
}

#[test]
fn compare_sets_keeps_one_merge_per_pair() {
    let mut set_a = vec![term(vec![Bit::Zero, Bit::Zero])];
    let mut set_b = vec![term(vec![Bit::Zero, Bit::One]), term(vec![Bit::Zero, Bit::One])];
    let expected = vec![term(vec![Bit::Zero, Bit::DontCare]), term(vec![Bit::Zero, Bit::DontCare])];
    assert_eq!(compare_sets(&mut set_a, &mut set_b), Some(expected));
}

#[test]
fn search_primes_cover_every_row() {
    let rows = vec![vec![0, 0, 1], vec![0, 1, 1], vec![1, 1, 1], vec![1, 0, 0]];
    let primes = search_prime_implicants(parse(&rows));
    for row in parse(&rows) {
        assert!(primes.iter().any(|p| p
            .bits
            .iter()
            .zip(row.bits.iter())
            .all(|(x, y)| *x == Bit::DontCare || x == y)));
    }
    assert_eq!(
        rendered_sorted(&primes),
        vec!["-11".to_string(), "0-1".to_string(), "100".to_string()]
    );
}

#[test]
fn search_ignores_row_order_and_repeats() {
    let a = search_prime_implicants(parse(&[vec![0, 0], vec![0, 1], vec![1, 1]]));
    let b = search_prime_implicants(parse(&[vec![1, 1], vec![0, 1], vec![0, 0], vec![1, 1]]));
    assert_eq!(rendered_sorted(&a), rendered_sorted(&b));
    assert_eq!(rendered_sorted(&a), vec!["-1".to_string(), "0-".to_string()]);
}
