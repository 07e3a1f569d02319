use iirs::algo::{add_irs, add_irs_at_this_center, lce, real_lce_mismatches};
use iirs::constants::build_complement_array;
use iirs::matrix::MatchMatrix;
use iirs::rmq::{flog2, rmq, rmq_preprocess};
use iirs::suffix::{inverse_suffix_array, lcp_array};
use iirs::text::build_long_sequence;
use iirs::SearchParams;

/// The suffix array of `text`, by comparing its suffixes one with another.
fn suffix_array(text: &[u8]) -> Vec<i32> {
    let mut sa: Vec<i32> = (0..text.len() as i32).collect();
    sa.sort_by_key(|&p| &text[p as usize..]);
    sa
}

fn common_prefix(text: &[u8], p: usize, q: usize) -> usize {
    text[p..]
        .iter()
        .zip(text[q..].iter())
        .take_while(|(a, b)| a == b)
        .count()
}

#[test]
fn test_flog2() {
    assert_eq!(flog2(1), 0);
    assert_eq!(flog2(2), 1);
    assert_eq!(flog2(3), 1);
    assert_eq!(flog2(4), 2);
    assert_eq!(flog2(1023), 9);
    assert_eq!(flog2(1024), 10);
    assert_eq!(flog2(usize::MAX), usize::BITS as usize - 1);
}

#[test]
fn test_inverse_and_lcp_of_banana() {
    let text = b"banana";
    let sa = suffix_array(text);
    assert_eq!(sa, vec![5, 3, 1, 0, 4, 2]);
    let inv_sa = inverse_suffix_array(text, &sa);
    assert_eq!(inv_sa, vec![3, 2, 5, 1, 4, 0]);
    let lcp = lcp_array(text, text.len(), &sa, &inv_sa);
    assert_eq!(lcp, vec![0, 1, 3, 0, 0, 2]);
}

#[test]
fn test_lcp_where_the_whole_text_has_a_predecessor() {
    // The text itself shares three letters with the suffix before it.
    let text = b"aaaa$tttt#";
    let sa = suffix_array(text);
    let inv_sa = inverse_suffix_array(text, &sa);
    let lcp = lcp_array(text, text.len(), &sa, &inv_sa);
    assert_eq!(lcp[inv_sa[0]], 3);
    for k in 1..text.len() {
        assert_eq!(
            lcp[k],
            common_prefix(text, sa[k - 1] as usize, sa[k] as usize)
        );
    }
    assert_eq!(lcp[0], 0);
}

#[test]
fn test_rmq_table() {
    let values: Vec<usize> = vec![5, 2, 7, 2, 9, 1, 1, 8, 3, 3];
    let n = values.len();
    let table = rmq_preprocess(&values, n);
    let columns = 4;
    assert_eq!(table.len(), n * columns);
    for i in 0..n {
        for k in 0..columns {
            let cell = table[i * columns + k];
            if i + (1 << k) <= n {
                // The last position of the smallest value of the window.
                let window = &values[i..i + (1 << k)];
                let smallest = *window.iter().min().unwrap();
                let last = i + window.iter().rposition(|&v| v == smallest).unwrap();
                assert_eq!(cell, last);
            } else {
                assert_eq!(cell, 0);
            }
        }
    }
    assert_eq!(rmq_preprocess(&[], 0), Vec::<usize>::new());
    assert_eq!(rmq_preprocess(&[4], 1), vec![0]);
}

#[test]
fn test_rmq_queries() {
    for values in [
        vec![5, 2, 7, 2, 9, 1, 1, 8, 3, 3],
        vec![0, 0, 0, 0, 0, 0, 0, 0],
        vec![9, 8, 7, 6, 5, 4, 3, 2, 1],
        vec![3],
    ] {
        let n = values.len();
        let table = rmq_preprocess(&values, n);
        for l in 0..n {
            for r in l..n {
                let m = rmq(&table, &values, n, l, r);
                assert!(l <= m && m <= r);
                assert_eq!(values[m], *values[l..=r].iter().min().unwrap());
            }
        }
    }
    // Of two windows with the same smallest value, the first one answers.
    let values = vec![4, 1, 6, 1, 7];
    let table = rmq_preprocess(&values, 5);
    assert_eq!(rmq(&table, &values, 5, 0, 4), 3);
    assert_eq!(rmq(&table, &values, 5, 1, 3), 1);
    assert_eq!(rmq(&table, &values, 5, 0, 2), 1);
}

struct Index {
    text: Vec<u8>,
    inv_sa: Vec<usize>,
    lcp: Vec<usize>,
    rmq_prep: Vec<usize>,
}

fn index(seq: &[u8]) -> Index {
    let complement = build_complement_array();
    let text = build_long_sequence(seq, seq.len(), &complement);
    let sa = suffix_array(&text);
    let inv_sa = inverse_suffix_array(&text, &sa);
    let lcp = lcp_array(&text, text.len(), &sa, &inv_sa);
    let rmq_prep = rmq_preprocess(&lcp, text.len());
    Index {
        text,
        inv_sa,
        lcp,
        rmq_prep,
    }
}

#[test]
fn test_build_long_sequence() {
    let complement = build_complement_array();
    assert_eq!(
        build_long_sequence(b"acbbgt", 6, &complement),
        b"acbbgt$acvvgt#".to_vec()
    );
    assert_eq!(
        build_long_sequence(b"u*-n", 4, &complement),
        b"u*-n$nnna#".to_vec()
    );
    assert_eq!(build_long_sequence(b"", 0, &complement), b"$#".to_vec());
}

#[test]
fn test_lce() {
    let ix = index(b"acgtacgtaaccggtt");
    let n = ix.text.len();
    for i in 0..n {
        for j in i + 1..=n {
            let expected = if j < n {
                common_prefix(&ix.text, i, j)
            } else {
                0
            };
            assert_eq!(
                lce(&ix.text, i, j, &ix.inv_sa, &ix.lcp, &ix.rmq_prep),
                expected
            );
        }
    }
}

#[test]
fn test_lce_in_either_order_of_the_suffixes() {
    let text = b"acbbgt$acvvgt#";
    let ix = index(b"acbbgt");
    assert_eq!(ix.text, text.to_vec());
    assert_eq!(ix.inv_sa, vec![2, 6, 4, 5, 9, 11, 1, 3, 7, 13, 12, 8, 10, 0]);
    assert_eq!(ix.lcp, vec![0, 0, 0, 2, 0, 1, 0, 1, 0, 2, 0, 1, 0, 1]);
    // "gt$acvvgt#" comes after "gt#" in the suffix array and shares two bytes with it.
    assert_eq!(lce(text, 4, 11, &ix.inv_sa, &ix.lcp, &ix.rmq_prep), 2);
    assert_eq!(lce(text, 11, 4, &ix.inv_sa, &ix.lcp, &ix.rmq_prep), 2);
    assert_eq!(lce(text, 3, 10, &ix.inv_sa, &ix.lcp, &ix.rmq_prep), 0);
    assert_eq!(lce(text, 0, 7, &ix.inv_sa, &ix.lcp, &ix.rmq_prep), 2);
    assert_eq!(lce(text, 4, 14, &ix.inv_sa, &ix.lcp, &ix.rmq_prep), 0);
    for i in 0..text.len() {
        for j in 0..text.len() {
            assert_eq!(
                lce(text, i, j, &ix.inv_sa, &ix.lcp, &ix.rmq_prep),
                common_prefix(text, i, j)
            );
        }
    }
}

#[test]
fn test_lce_of_a_suffix_with_itself() {
    let ix = index(b"acgtacgt");
    let n = ix.text.len();
    for i in 0..n {
        assert_eq!(lce(&ix.text, i, i, &ix.inv_sa, &ix.lcp, &ix.rmq_prep), n - i);
    }
}

#[test]
fn test_real_lce_mismatches() {
    let matrix = MatchMatrix::new();
    // Around the middle of "atatattaaaaaaa" the offsets 3, 5 and 7 do not match.
    let ix = index(b"atatattaaaaaaa");
    let walk = |mismatches, initial_gap| {
        real_lce_mismatches(
            &ix.text,
            7,
            22,
            &ix.inv_sa,
            &ix.lcp,
            &ix.rmq_prep,
            mismatches,
            initial_gap,
            &matrix,
        )
    };
    assert_eq!(walk(0, 0), vec![0, 3]);
    assert_eq!(walk(1, 0), vec![0, 3, 5]);
    assert_eq!(walk(2, 0), vec![0, 3, 5, 7]);
    // The sentinel after the sequence is the last mismatch.
    assert_eq!(walk(3, 0), vec![0, 3, 5, 7, 8]);
    assert_eq!(walk(9, 0), vec![0, 3, 5, 7, 8]);
    // A mismatch below the initial gap is listed and costs nothing.
    assert_eq!(walk(0, 4), vec![0, 3, 5]);
    assert_eq!(walk(0, 6), vec![0, 3, 5, 7]);
    assert_eq!(walk(0, 3), vec![0, 3]);
}

#[test]
fn test_add_irs_at_this_center() {
    let matrix = MatchMatrix::new();
    let seq = b"atatattaaaaaaa";
    let ix = index(seq);
    let at = |params: &SearchParams, c| {
        add_irs_at_this_center(
            &ix.text,
            seq.len(),
            &ix.inv_sa,
            &ix.lcp,
            &ix.rmq_prep,
            params,
            &matrix,
            c,
        )
    };
    let exact = SearchParams::new(2, 100, 0, 0).unwrap();
    assert_eq!(at(&exact, 13), vec![(5, 8, 0)]);
    let one = SearchParams::new(2, 100, 0, 1).unwrap();
    assert_eq!(at(&one, 13), vec![(3, 10, 0)]);
    let gap = SearchParams::new(2, 100, 6, 1).unwrap();
    assert_eq!(at(&gap, 13), vec![(3, 10, 0), (1, 12, 6)]);
    let cut = SearchParams::new(3, 3, 0, 2).unwrap();
    assert_eq!(at(&cut, 13), vec![(4, 9, 0)]);
    let long = SearchParams::new(5, 100, 0, 1).unwrap();
    assert_eq!(at(&long, 13), vec![]);
    // An even centre is a letter, and the gap holds it.
    assert_eq!(
        at(&SearchParams::new(2, 100, 1, 0).unwrap(), 14),
        vec![(5, 9, 1)]
    );
    assert_eq!(at(&SearchParams::new(2, 100, 0, 0).unwrap(), 14), vec![]);
    assert_eq!(
        at(&SearchParams::new(2, 100, 1, 0).unwrap(), 10),
        vec![(3, 7, 1)]
    );
}

#[test]
fn test_add_irs() {
    let matrix = MatchMatrix::new();
    let seq = b"acbbgt";
    let ix = index(seq);
    let params = SearchParams::new(3, 6, 2, 0).unwrap();
    assert_eq!(
        add_irs(&ix.text, &ix.inv_sa, &ix.lcp, &ix.rmq_prep, &params, &matrix),
        vec![(0, 5, 0)]
    );
    // No centre is left where the arms have no room.
    let wide = SearchParams::new(6, 6, 2, 0).unwrap();
    assert_eq!(
        add_irs(&ix.text, &ix.inv_sa, &ix.lcp, &ix.rmq_prep, &wide, &matrix),
        vec![]
    );
    let wider = SearchParams::new(100, 100, 2, 0).unwrap();
    assert_eq!(
        add_irs(&ix.text, &ix.inv_sa, &ix.lcp, &ix.rmq_prep, &wider, &matrix),
        vec![]
    );
}
