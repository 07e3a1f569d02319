use iirs::constants::build_complement_array;
use iirs::matrix::MatchMatrix;
use iirs::utils::sanitize_sequence;
use iirs::{find_irs, SearchParams};

const LETTERS: &[u8] = b"acgturyswkmbdhvn*-";

/// A sequence of `len` letters, drawn from the first `variety` letters of the
/// alphabet by a fixed rule.
fn sequence(len: usize, variety: usize, seed: u64) -> Vec<u8> {
    let mut state = seed.wrapping_mul(6364136223846793005).wrapping_add(1442695040888963407);
    let mut seq = Vec::new();
    for _ in 0..len {
        state = state.wrapping_mul(6364136223846793005).wrapping_add(1442695040888963407);
        seq.push(LETTERS[((state >> 33) as usize) % variety]);
    }
    seq
}

fn pair_matches(seq: &[u8], left: usize, right: usize) -> bool {
    let matrix = MatchMatrix::new();
    let complement = build_complement_array();
    matrix.match_u8(seq[left], complement[seq[right] as usize])
}

fn arm_mismatches(seq: &[u8], left: usize, right: usize, len: usize) -> usize {
    (0..len)
        .filter(|&t| !pair_matches(seq, left + t, right - t))
        .count()
}

/// The walk from centre `c`: offset 0, then the offsets of the mismatches, up
/// to the end of the sequence or the first mismatch beyond the budget.
fn walk(seq: &[u8], params: &SearchParams, c: usize) -> Vec<usize> {
    let n = seq.len();
    let initial_gap = if params.max_gap % 2 == 1 {
        params.max_gap / 2 + 1
    } else {
        params.max_gap / 2 + c % 2
    };
    let mut locs = vec![0];
    let mut counted = 0;
    let mut d = 1;
    while counted <= params.mismatches {
        // Beyond either end of the sequence stands a sentinel, which matches nothing.
        if c / 2 + d > n || d > (c + 1) / 2 + 1 {
            break;
        }
        let inside = c / 2 + d < n && d <= (c + 1) / 2;
        if !inside || !pair_matches(seq, (c + 1) / 2 - d, c / 2 + d) {
            locs.push(d);
            if d >= initial_gap {
                counted += 1;
            }
        }
        d += 1;
    }
    locs
}

/// The repeats of `seq`, read off the walks letter by letter.
fn repeats_by_hand(seq: &[u8], params: &SearchParams) -> Vec<(usize, usize, usize)> {
    let n = seq.len();
    let mut found = Vec::new();
    for c in params.min_len..(2 * n + 1).saturating_sub(params.min_len) {
        let initial_gap = if params.max_gap % 2 == 1 {
            params.max_gap / 2 + 1
        } else {
            params.max_gap / 2 + c % 2
        };
        let m = walk(seq, params, c);
        let ks: Vec<usize> = (0..m.len().saturating_sub(1))
            .filter(|&k| m[k + 1] != m[k] + 1)
            .collect();
        let reach = |sp: usize| {
            (sp..ks.len())
                .filter(|&e| ks[e] - ks[sp] <= params.mismatches)
                .max()
                .unwrap()
        };
        for sp in 0..ks.len() {
            let rp = reach(sp);
            let start = m[ks[sp]];
            let end = m[ks[rp] + 1] - 1;
            if (sp > 0 && reach(sp - 1) >= rp) || start >= initial_gap {
                continue;
            }
            if end - start < params.min_len {
                continue;
            }
            let arm_end = if end - start <= params.max_len {
                end
            } else if rp >= 1 && m[ks[rp - 1] + 1] == start + params.max_len {
                start + params.max_len - 1
            } else {
                start + params.max_len
            };
            found.push(((c + 1) / 2 - arm_end, c / 2 + arm_end, 2 * start + 1 - c % 2));
        }
    }
    found.sort_by_key(|&(left, right, gap)| (left, gap, std::cmp::Reverse(right)));
    found
}

fn cases() -> Vec<(SearchParams, Vec<u8>)> {
    let mut cases = Vec::new();
    let settings = [
        (2, 100, 0, 0),
        (2, 3, 1, 1),
        (3, 3, 0, 1),
        (3, 3, 0, 2),
        (3, 5, 4, 2),
        (4, 8, 7, 3),
        (5, 6, 100, 4),
        (10, 100, 5, 1),
    ];
    for (seed, &(min_len, max_len, max_gap, mismatches)) in settings.iter().enumerate() {
        let params = SearchParams::new(min_len, max_len, max_gap, mismatches).unwrap();
        for (round, &variety) in [1, 2, 4, 6, 18].iter().enumerate() {
            for len in [min_len + 1, 17, 64, 150] {
                if len > min_len {
                    let seed = (seed * 100 + round * 10 + len) as u64;
                    cases.push((params, sequence(len, variety, seed)));
                }
            }
        }
    }
    cases.push((
        SearchParams::new(3, 3, 0, 1).unwrap(),
        b"atattaaaaa".to_vec(),
    ));
    cases.push((
        SearchParams::new(3, 3, 0, 2).unwrap(),
        b"atatattaaaaaaa".to_vec(),
    ));
    cases
}

#[test]
fn test_repeats_are_those_read_off_by_hand() {
    for (params, seq) in cases() {
        assert_eq!(
            find_irs(&params, &seq).unwrap(),
            repeats_by_hand(&seq, &params),
            "{:?} {}",
            params,
            String::from_utf8_lossy(&seq)
        );
    }
}

#[test]
fn test_repeats_within_bounds() {
    for (params, seq) in cases() {
        for (l, r, g) in find_irs(&params, &seq).unwrap() {
            assert!(l < r && r < seq.len());
            assert!(r - l + 1 > g);
            assert_eq!((r - l + 1 - g) % 2, 0);
            assert!(g <= params.max_gap);
            let len = (r - l + 1 - g) / 2;
            assert!(len <= params.max_len);
            if params.min_len < params.max_len {
                assert!(len >= params.min_len);
            } else {
                assert!(len + 1 >= params.min_len);
            }
        }
    }
}

#[test]
fn test_mismatches_within_budget() {
    for (params, seq) in cases() {
        for (l, r, g) in find_irs(&params, &seq).unwrap() {
            let len = (r - l + 1 - g) / 2;
            assert!(arm_mismatches(&seq, l, r, len) <= params.mismatches);
        }
    }
}

#[test]
fn test_no_duplicates_and_sorted() {
    for (params, seq) in cases() {
        let irs = find_irs(&params, &seq).unwrap();
        for pair in irs.windows(2) {
            let (a, b) = (pair[0], pair[1]);
            assert!(
                (a.0, a.2, std::cmp::Reverse(a.1)) < (b.0, b.2, std::cmp::Reverse(b.1)),
                "{:?} before {:?}",
                a,
                b
            );
        }
    }
}

#[test]
fn test_ends_at_matching_pair() {
    for (params, seq) in cases() {
        for (l, r, g) in find_irs(&params, &seq).unwrap() {
            let len = (r - l + 1 - g) / 2;
            if params.mismatches <= 1 || len < params.max_len {
                assert!(pair_matches(&seq, l, r));
            }
        }
    }
}

#[test]
fn test_cut_on_mismatch_shortens_arm() {
    // Offsets 1 and 2 from the middle match, 3 does not, 4 does, 5 does not:
    // the arm of 4 letters is cut to 3, ends on the mismatch and loses it.
    let params = SearchParams::new(3, 3, 0, 1).unwrap();
    let irs = find_irs(&params, b"atattaaaaa").unwrap();
    assert!(irs.contains(&(3, 6, 0)));
}

#[test]
fn test_cut_can_end_on_mismatch() {
    // With two mismatches allowed the cut to 3 letters falls on the first of
    // them, which is not the one that closes the stretch before the last.
    let params = SearchParams::new(3, 3, 0, 2).unwrap();
    let seq = b"atatattaaaaaaa";
    let irs = find_irs(&params, seq).unwrap();
    assert!(irs.contains(&(4, 9, 0)));
    assert!(!pair_matches(seq, 4, 9));
}

#[test]
fn test_same_result_on_repeated_calls() {
    for (params, seq) in cases() {
        assert_eq!(find_irs(&params, &seq), find_irs(&params, &seq));
    }
}

#[test]
fn test_newlines_and_case_are_irrelevant() {
    for (params, seq) in cases() {
        let mut raw = Vec::new();
        for (i, &b) in seq.iter().enumerate() {
            raw.push(if i % 3 == 0 { b.to_ascii_uppercase() } else { b });
            if i % 7 == 0 {
                raw.push(b'\n');
            }
            if i % 11 == 0 {
                raw.push(b'\r');
            }
        }
        let sanitized = sanitize_sequence(&raw).unwrap();
        assert_eq!(sanitized, seq);
        assert_eq!(find_irs(&params, &raw), find_irs(&params, &sanitized));
    }
}
