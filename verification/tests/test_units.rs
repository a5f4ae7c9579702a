use std::cmp::Ordering;
use z_fast_trie_static_sux::bitstr::{
    cmp, get_substr, lcp, push_back, push_front, sort_strs, str_eq, str_get, str_len, str_new,
    str_push, Str,
};
use z_fast_trie_static_sux::bitwise_operations::get_fattest;
use z_fast_trie_static_sux::compact_trie::CompactTrie;
use z_fast_trie_static_sux::hashes::{NaiveHash, RollingHash};
use z_fast_trie_static_sux::naive_trie::NaiveTrie;
use z_fast_trie_static_sux::rank_structures::{JacobsonRank, NaiveRank};
use z_fast_trie_static_sux::static_dicts::MinimalPerfectHashStaticDict;
use z_fast_trie_static_sux::z_fast_trie::ZFastTrie;
use z_fast_trie_static_sux::z_fast_trie_sux::ZFastTrieSux;

fn bs(pattern: &str) -> Str {
    let mut s = str_new();
    for ch in pattern.chars() {
        str_push(&mut s, ch == '1');
    }
    s
}

fn set3() -> Vec<Str> {
    vec![bs("00"), bs("01"), bs("10")]
}

#[test]
fn bitstr_cmp_orders_lexicographically() {
    assert_eq!(cmp(&bs("0"), &bs("1")), Ordering::Less);
    assert_eq!(cmp(&bs("01"), &bs("01")), Ordering::Equal);
    assert_eq!(cmp(&bs("10"), &bs("01")), Ordering::Greater);
    // a proper prefix sorts before its extensions
    assert_eq!(cmp(&bs("01"), &bs("010")), Ordering::Less);
    assert_eq!(cmp(&bs(""), &bs("0")), Ordering::Less);
}

#[test]
fn bitstr_substr_and_lcp() {
    let s = bs("011010");
    assert!(str_eq(&get_substr(&s, 1, 4), &bs("110")));
    assert!(str_eq(&get_substr(&s, 0, 0), &bs("")));
    assert!(str_eq(&lcp(&bs("0110"), &bs("0101")), &bs("01")));
    assert!(str_eq(&lcp(&bs("111"), &bs("000")), &bs("")));
    let mut t = bs("10");
    push_front(&mut t, true);
    assert!(str_eq(&t, &bs("110")));
}

#[test]
fn bitstr_push_back_appends_a_word() {
    let mut s = bs("1");
    push_back(&mut s, 5);
    assert_eq!(str_len(&s), 65);
    assert!(str_get(&s, 0));
    // 5 = 101 in binary, lowest bit first
    assert!(str_get(&s, 1));
    assert!(!str_get(&s, 2));
    assert!(str_get(&s, 3));
    for i in 4..65 {
        assert!(!str_get(&s, i));
    }
}

#[test]
fn bitstr_sort_orders_and_keeps_everything() {
    let mut v = vec![bs("10"), bs("0"), bs("011"), bs("01")];
    sort_strs(&mut v);
    assert_eq!(v.len(), 4);
    assert!(str_eq(&v[0], &bs("0")));
    assert!(str_eq(&v[1], &bs("01")));
    assert!(str_eq(&v[2], &bs("011")));
    assert!(str_eq(&v[3], &bs("10")));
}

#[test]
fn fattest_number_of_a_range() {
    // [lind, rind] = [5, 7]: 6 has the most trailing zeros
    assert_eq!(get_fattest(7, 5), 6);
    // [1, 8]: 8 itself
    assert_eq!(get_fattest(8, 1), 8);
    // [9, 11]: 10
    assert_eq!(get_fattest(11, 9), 10);
    // a zero lower end is answered with 0 by convention
    assert_eq!(get_fattest(13, 0), 0);
    // singleton range
    assert_eq!(get_fattest(5, 5), 5);
}

#[test]
fn calc_masks_low_bits() {
    // the least power of two above 5 is 8, so the mask clears 3 bits
    assert_eq!(z_fast_trie_static_sux::bitwise_operations::calc(5), !0b111usize);
    assert_eq!(z_fast_trie_static_sux::bitwise_operations::calc(0), !0usize);
    assert_eq!(z_fast_trie_static_sux::bitwise_operations::calc(1), !1usize);
    assert_eq!(z_fast_trie_static_sux::bitwise_operations::calc(8), !0b1111usize);
}

#[test]
fn rolling_hash_fast_equals_slow() {
    let h = RollingHash::new();
    let s = bs("0110100111010");
    let state = h.compute_state(&s);
    for k in 0..=str_len(&s) {
        assert_eq!(h.fast_prefix_hash(&s, &state, k), h.slow_prefix_hash(&s, k));
    }
    assert_eq!(h.hash(&s), h.slow_prefix_hash(&s, str_len(&s)));
}

#[test]
fn rolling_hash_depends_on_bits() {
    let h = RollingHash::new();
    assert_ne!(h.hash(&bs("01")), h.hash(&bs("10")));
    assert_ne!(h.hash(&bs("0")), h.hash(&bs("00")));
}

#[test]
fn naive_hash_is_the_prefix_itself() {
    let h = NaiveHash::new();
    let s = bs("1011");
    assert_eq!(h.slow_prefix_hash(&s, 3), vec![1, 0, 1]);
    assert_eq!(h.hash(&s), vec![1, 0, 1, 1]);
    assert_eq!(h.fast_prefix_hash(&s, &(), 2), vec![1, 0]);
}

#[test]
fn naive_rank_counts_or_bits() {
    let a = bs("0101000");
    let b = bs("0000110");
    let r = NaiveRank::new();
    // OR is 0101110
    let expected = [0usize, 0, 1, 1, 2, 3, 4];
    for i in 0..7 {
        assert_eq!(r.rank(i, &a, &b), expected[i]);
    }
}

#[test]
fn jacobson_rank_matches_the_naive_count() {
    let mut bits0 = str_new();
    let mut bits1 = str_new();
    // an irregular pattern long enough to cross block boundaries
    for i in 0..300usize {
        str_push(&mut bits0, i % 3 == 0);
        str_push(&mut bits1, i % 7 == 2);
    }
    let naive = NaiveRank::new();
    let mut jr = JacobsonRank::new();
    jr.build(&bits0, &bits1);
    for i in 0..300usize {
        assert_eq!(jr.rank(i, &bits0, &bits1), naive.rank(i, &bits0, &bits1));
    }
}

#[test]
fn minimal_perfect_hash_is_a_bijection() {
    let keys: Vec<Str> = vec![
        bs("0"),
        bs("10"),
        bs("110"),
        bs("111"),
        bs("0110"),
        bs("10101"),
        bs("001100"),
    ];
    let values: Vec<usize> = vec![10, 20, 30, 40, 50, 60, 70];
    let mut d: MinimalPerfectHashStaticDict<usize> = MinimalPerfectHashStaticDict::new();
    let ok = d.build(&keys, &values);
    assert!(ok);
    for i in 0..keys.len() {
        assert_eq!(d.get(&keys[i]), Some(&values[i]));
    }
}

#[test]
fn minimal_perfect_hash_prefix_lookup() {
    // keys that are prefixes of one long string, looked up by length
    let long = bs("110100111000");
    let keys: Vec<Str> = (1..=12).map(|k| get_substr(&long, 0, k)).collect();
    let values: Vec<usize> = (1..=12).collect();
    let mut d: MinimalPerfectHashStaticDict<usize> = MinimalPerfectHashStaticDict::new();
    assert!(d.build(&keys, &values));
    let state = d.compute_state(&long);
    for k in 1..=12usize {
        assert_eq!(d.fast_prefix_get(&long, &state, k), Some(&k));
    }
}

#[test]
fn minimal_perfect_hash_empty_and_single() {
    let mut d: MinimalPerfectHashStaticDict<usize> = MinimalPerfectHashStaticDict::new();
    assert!(d.build(&vec![], &vec![]));
    let mut d2: MinimalPerfectHashStaticDict<usize> = MinimalPerfectHashStaticDict::new();
    assert!(d2.build(&vec![bs("1")], &vec![7]));
    assert_eq!(d2.get(&bs("1")), Some(&7));
}

#[test]
fn scenario_two_bit_strings() {
    // S = {"00", "01", "10"}
    let v = set3();
    let mut nt = NaiveTrie::new();
    nt.build(&v);
    assert_eq!(nt.pred_query(&bs("10")), Some(bs("01")));
    assert_eq!(nt.succ_query(&bs("10")), Some(bs("10")));
    assert!(nt.ex_range_query(&bs("00"), &bs("10")));
    assert!(!nt.ex_range_query(&bs("00"), &bs("01")));
}

#[test]
fn scenario_two_bit_strings_on_every_trie() {
    let v = set3();
    let mut ct = CompactTrie::new();
    ct.build(&v);
    let mut zt = ZFastTrie::new();
    zt.build(&v);
    let mut st = ZFastTrieSux::new();
    st.build(&v);

    assert_eq!(ct.pred_query(&bs("10")), Some(bs("01")));
    assert_eq!(zt.pred_query(&bs("10")), Some(bs("01")));
    assert_eq!(st.pred_query(&bs("10")), Some(bs("01")));

    assert_eq!(ct.succ_query(&bs("10")), Some(bs("10")));
    assert_eq!(zt.succ_query(&bs("10")), Some(bs("10")));
    assert_eq!(st.succ_query(&bs("10")), Some(bs("10")));

    assert!(ct.ex_range_query(&bs("00"), &bs("10")));
    assert!(zt.ex_range_query(&bs("00"), &bs("10")));
    assert!(st.ex_range_query(&bs("00"), &bs("10")));

    assert!(!ct.ex_range_query(&bs("00"), &bs("01")));
    assert!(!zt.ex_range_query(&bs("00"), &bs("01")));
    assert!(!st.ex_range_query(&bs("00"), &bs("01")));
}

#[test]
fn predecessor_and_successor_at_the_edges() {
    let v = set3();
    let mut nt = NaiveTrie::new();
    nt.build(&v);
    // below the minimum and above the maximum
    assert_eq!(nt.pred_query(&bs("00")), None);
    assert_eq!(nt.succ_query(&bs("11")), None);
    assert_eq!(nt.pred_query(&bs("11")), Some(bs("10")));
    assert_eq!(nt.succ_query(&bs("")), Some(bs("00")));
}

#[test]
fn prefix_queries() {
    let v = vec![bs("00"), bs("010"), bs("10")];
    let mut nt = NaiveTrie::new();
    nt.build(&v);
    let mut zt = ZFastTrie::new();
    zt.build(&v);
    for x in ["0", "01", "010", "10", ""] {
        assert!(nt.ex_pref_query(&bs(x)), "{}", x);
        assert!(zt.ex_pref_query(&bs(x)), "{}", x);
    }
    for x in ["11", "011", "0100", "001"] {
        assert!(!nt.ex_pref_query(&bs(x)), "{}", x);
        assert!(!zt.ex_pref_query(&bs(x)), "{}", x);
    }
}

#[test]
fn queries_on_an_empty_trie() {
    let v: Vec<Str> = vec![];
    let mut nt = NaiveTrie::new();
    nt.build(&v);
    let mut ct = CompactTrie::new();
    ct.build(&v);
    let mut zt = ZFastTrie::new();
    zt.build(&v);
    let mut st = ZFastTrieSux::new();
    st.build(&v);
    assert_eq!(nt.pred_query(&bs("1")), None);
    assert_eq!(ct.pred_query(&bs("1")), None);
    assert_eq!(zt.pred_query(&bs("1")), None);
    assert_eq!(st.pred_query(&bs("1")), None);
    assert!(!nt.ex_range_query(&bs("0"), &bs("1")));
    assert!(!ct.ex_range_query(&bs("0"), &bs("1")));
    assert!(!zt.ex_range_query(&bs("0"), &bs("1")));
    assert!(!st.ex_range_query(&bs("0"), &bs("1")));
}

#[test]
fn queries_on_a_single_string() {
    let v = vec![bs("0110")];
    let mut ct = CompactTrie::new();
    ct.build(&v);
    let mut zt = ZFastTrie::new();
    zt.build(&v);
    let mut st = ZFastTrieSux::new();
    st.build(&v);
    assert_eq!(ct.succ_query(&bs("0")), Some(bs("0110")));
    assert_eq!(zt.succ_query(&bs("0")), Some(bs("0110")));
    assert_eq!(st.succ_query(&bs("0")), Some(bs("0110")));
    assert_eq!(ct.pred_query(&bs("1")), Some(bs("0110")));
    assert_eq!(zt.pred_query(&bs("1")), Some(bs("0110")));
    assert_eq!(st.pred_query(&bs("1")), Some(bs("0110")));
    assert!(ct.ex_range_query(&bs("0"), &bs("1")));
    assert!(zt.ex_range_query(&bs("0"), &bs("1")));
    assert!(st.ex_range_query(&bs("0"), &bs("1")));
}

#[test]
fn repeated_queries_return_identical_results() {
    let v = set3();
    let mut zt = ZFastTrie::new();
    zt.build(&v);
    let first_pred = zt.pred_query(&bs("10"));
    let first_succ = zt.succ_query(&bs("10"));
    let first_range = zt.ex_range_query(&bs("00"), &bs("10"));
    for _ in 0..10 {
        assert_eq!(zt.pred_query(&bs("10")), first_pred);
        assert_eq!(zt.succ_query(&bs("10")), first_succ);
        assert_eq!(zt.ex_range_query(&bs("00"), &bs("10")), first_range);
    }
}

#[test]
fn naive_trie_tolerates_duplicates() {
    let v = vec![bs("01"), bs("01"), bs("10")];
    let mut nt = NaiveTrie::new();
    nt.build(&v);
    assert_eq!(nt.pred_query(&bs("10")), Some(bs("01")));
    assert_eq!(nt.succ_query(&bs("00")), Some(bs("01")));
}

#[test]
fn parametric_hash_digests_fit_the_table() {
    let h = RollingHash::new_parametric(101, 42);
    for pat in ["", "0", "1", "0101100", "111111111111"] {
        assert!(h.slow_prefix_hash(&bs(pat), pat.len()) < 101);
    }
    // the same seed draws the same function
    let h2 = RollingHash::new_parametric(101, 42);
    assert_eq!(h.hash(&bs("0110")), h2.hash(&bs("0110")));
}

#[test]
fn compact_trie_exact_answers() {
    let v = vec![bs("000"), bs("001"), bs("0110"), bs("10"), bs("111")];
    let mut ct = CompactTrie::new();
    ct.build(&v);
    // predecessors and successors at members, gaps and both ends
    assert_eq!(ct.pred_query(&bs("000")), None);
    assert_eq!(ct.succ_query(&bs("000")), Some(bs("000")));
    assert_eq!(ct.pred_query(&bs("01")), Some(bs("001")));
    assert_eq!(ct.succ_query(&bs("01")), Some(bs("0110")));
    assert_eq!(ct.pred_query(&bs("110")), Some(bs("10")));
    assert_eq!(ct.succ_query(&bs("110")), Some(bs("111")));
    assert_eq!(ct.succ_query(&bs("1111")), None);
    // prefix membership, both answers
    assert!(ct.ex_pref_query(&bs("011")));
    assert!(!ct.ex_pref_query(&bs("010")));
    // ranges are strict on both ends
    assert!(!ct.ex_range_query(&bs("000"), &bs("001")));
    assert!(ct.ex_range_query(&bs("000"), &bs("0110")));
    assert!(!ct.ex_range_query(&bs("10"), &bs("111")));
    assert!(ct.ex_range_query(&bs("0111"), &bs("111")));
}

#[test]
fn answers_are_exact_against_a_direct_scan() {
    // a prefix-free set with mixed lengths; answers of all four structures
    // must match a direct scan over the sorted members
    let mut v = vec![
        bs("000"),
        bs("0010"),
        bs("0011"),
        bs("010"),
        bs("0111"),
        bs("100"),
        bs("1010"),
        bs("11"),
    ];
    sort_strs(&mut v);
    let mut nt = NaiveTrie::new();
    nt.build(&v);
    let mut ct = CompactTrie::new();
    ct.build(&v);
    let mut zt = ZFastTrie::new();
    zt.build(&v);
    let mut st = ZFastTrieSux::new();
    st.build(&v);
    let probes = [
        "", "0", "00", "000", "0001", "001", "0010", "00101", "0011", "01", "010", "0101",
        "011", "0111", "1", "10", "100", "1001", "101", "1010", "11", "110", "111", "1111",
    ];
    for p1 in probes {
        let x = bs(p1);
        let mut pred: Option<Str> = None;
        let mut succ: Option<Str> = None;
        let mut pref = false;
        for m in &v {
            if cmp(m, &x) == Ordering::Less {
                pred = Some(m.clone());
            }
            if cmp(&x, m) != Ordering::Greater && succ.is_none() {
                succ = Some(m.clone());
            }
            if str_len(m) >= str_len(&x) && str_eq(&get_substr(m, 0, str_len(&x)), &x) {
                pref = true;
            }
        }
        assert_eq!(nt.pred_query(&x), pred, "pred {}", p1);
        assert_eq!(ct.pred_query(&x), pred, "pred {}", p1);
        assert_eq!(zt.pred_query(&x), pred, "pred {}", p1);
        assert_eq!(st.pred_query(&x), pred, "pred {}", p1);
        assert_eq!(nt.succ_query(&x), succ, "succ {}", p1);
        assert_eq!(ct.succ_query(&x), succ, "succ {}", p1);
        assert_eq!(zt.succ_query(&x), succ, "succ {}", p1);
        assert_eq!(st.succ_query(&x), succ, "succ {}", p1);
        assert_eq!(nt.ex_pref_query(&x), pref, "pref {}", p1);
        assert_eq!(ct.ex_pref_query(&x), pref, "pref {}", p1);
        assert_eq!(zt.ex_pref_query(&x), pref, "pref {}", p1);
        assert_eq!(st.ex_pref_query(&x), pref, "pref {}", p1);
        for p2 in probes {
            let y = bs(p2);
            let mut between = false;
            for m in &v {
                if cmp(&x, m) == Ordering::Less && cmp(m, &y) == Ordering::Less {
                    between = true;
                }
            }
            assert_eq!(nt.ex_range_query(&x, &y), between, "range {} {}", p1, p2);
            assert_eq!(ct.ex_range_query(&x, &y), between, "range {} {}", p1, p2);
            assert_eq!(zt.ex_range_query(&x, &y), between, "range {} {}", p1, p2);
            assert_eq!(st.ex_range_query(&x, &y), between, "range {} {}", p1, p2);
        }
    }
}

#[test]
fn z_fast_singleton_answers_are_exact() {
    for pat in ["0", "0110", "1"] {
        let v = vec![bs(pat)];
        let mut zt = ZFastTrie::new();
        zt.build(&v);
        let mut st = ZFastTrieSux::new();
        st.build(&v);
        for probe in ["", "0", "01", "0110", "0111", "1", "11"] {
            let expect_pred = if cmp(&bs(pat), &bs(probe)) == Ordering::Less {
                Some(bs(pat))
            } else {
                None
            };
            let expect_succ = if cmp(&bs(probe), &bs(pat)) != Ordering::Greater {
                Some(bs(pat))
            } else {
                None
            };
            assert_eq!(zt.pred_query(&bs(probe)), expect_pred, "{} {}", pat, probe);
            assert_eq!(st.pred_query(&bs(probe)), expect_pred, "{} {}", pat, probe);
            assert_eq!(zt.succ_query(&bs(probe)), expect_succ, "{} {}", pat, probe);
            assert_eq!(st.succ_query(&bs(probe)), expect_succ, "{} {}", pat, probe);
        }
    }
}
