use suffix::certify::{insertion_table, is_suffix_table_of, lcp_len, suffix_cmp};
use suffix::sais::{induce_sort, sais, sais_table};
use suffix::suffix_table::SuffixTable;

fn naive_table(text: &[u8]) -> Vec<u32> {
    let mut table: Vec<u32> = (0..text.len() as u32).collect();
    table.sort_by(|&a, &b| text[a as usize..].cmp(&text[b as usize..]));
    table
}

fn engine_table(text: &[u8]) -> (bool, Vec<u32>) {
    let symbols: Vec<u32> = text.iter().map(|&b| b as u32).collect();
    let mut sa = vec![0u32; text.len()];
    let (built, _) = induce_sort(&mut sa, &symbols);
    (built, sa)
}

fn texts() -> Vec<Vec<u8>> {
    let mut out: Vec<Vec<u8>> = vec![
        b"".to_vec(),
        b"a".to_vec(),
        b"aa".to_vec(),
        b"ab".to_vec(),
        b"ba".to_vec(),
        b"banana".to_vec(),
        b"mississippi".to_vec(),
        b"aaaaaaaaaa".to_vec(),
        b"abababababab".to_vec(),
        b"abracadabra".to_vec(),
        b"The quick brown fox was very quick.".to_vec(),
        b"zyxwvutsrqponmlkjihgfedcba".to_vec(),
        b"abcabcabcabcabcabcabcabd".to_vec(),
    ];
    let mut seed: u64 = 12345;
    for len in 1..120usize {
        for alpha in [2u64, 3, 4, 26] {
            let mut t = Vec::with_capacity(len);
            for _ in 0..len {
                seed = seed.wrapping_mul(6364136223846793005).wrapping_add(1442695040888963407);
                t.push(b'a' + ((seed >> 33) % alpha) as u8);
            }
            out.push(t);
        }
    }
    out
}

#[test]
fn engine_sorts_without_falling_back() {
    for t in texts() {
        let (built, sa) = engine_table(&t);
        assert!(built, "engine gave up on {:?}", t);
        assert_eq!(sa, naive_table(&t), "text {:?}", t);
    }
}

#[test]
fn built_table_is_sorted_permutation() {
    for t in texts() {
        let table = sais_table(&t);
        assert_eq!(table, naive_table(&t));
        assert!(is_suffix_table_of(&t, &table));
    }
}

#[test]
fn insertion_table_matches_naive() {
    for t in texts().into_iter().take(60) {
        assert_eq!(insertion_table(&t), naive_table(&t));
    }
}

#[test]
fn certificate_rejects_wrong_tables() {
    assert!(!is_suffix_table_of(b"banana", &[0, 1, 2, 3, 4, 5]));
    assert!(!is_suffix_table_of(b"banana", &[5, 3, 1, 0, 4]));
    assert!(!is_suffix_table_of(b"banana", &[5, 3, 1, 0, 4, 4]));
    assert!(!is_suffix_table_of(b"banana", &[5, 3, 1, 0, 4, 9]));
    assert!(is_suffix_table_of(b"banana", &[5, 3, 1, 0, 4, 2]));
    assert!(is_suffix_table_of(b"", &[]));
}

#[test]
fn byte_comparisons() {
    assert_eq!(lcp_len(b"anana", b"ana"), 3);
    assert_eq!(lcp_len(b"", b"ana"), 0);
    assert_eq!(lcp_len(b"banana", b"nana"), 0);
    assert_eq!(suffix_cmp(b"banana", 5, 3), -1);
    assert_eq!(suffix_cmp(b"banana", 0, 4), -1);
    assert_eq!(suffix_cmp(b"banana", 2, 4), 1);
    assert_eq!(suffix_cmp(b"banana", 6, 6), 0);
}

#[test]
fn banana() {
    let sa = SuffixTable::new("banana");
    assert_eq!(sa.table(), &[5, 3, 1, 0, 4, 2]);
    assert_eq!(sa.lcp_lens(), vec![0, 1, 3, 0, 0, 2]);
    let mut pos = sa.positions("ana").to_vec();
    pos.sort();
    assert_eq!(pos, vec![1, 3]);
    assert!(sa.contains("nan"));
    assert!(!sa.contains("xyz"));
    let p = sa.any_position("na");
    assert!(p == Some(2) || p == Some(4));
    assert_eq!(sa.suffix(1), "ana");
    assert_eq!(sa.suffix_bytes(2), b"anana");
    assert_eq!(sa.text(), "banana");
    assert_eq!(sa.len(), 6);
    assert!(!sa.is_empty());
}

#[test]
fn empty_text() {
    let sa = SuffixTable::new("");
    assert_eq!(sa.len(), 0);
    assert!(sa.is_empty());
    assert!(sa.table().is_empty());
    assert!(sa.lcp_lens().is_empty());
    assert!(!sa.contains("a"));
    assert!(sa.positions("a").is_empty());
    assert_eq!(sa.any_position("a"), None);
}

#[test]
fn single_character() {
    let sa = SuffixTable::new("x");
    assert_eq!(sa.table(), &[0]);
    assert_eq!(sa.lcp_lens(), vec![0]);
    assert!(sa.contains("x"));
    assert_eq!(sa.any_position("x"), Some(0));
    assert_eq!(sa.positions("x"), &[0]);
}

#[test]
fn empty_query_matches_nothing() {
    let sa = SuffixTable::new("banana");
    assert!(!sa.contains(""));
    assert!(sa.positions("").is_empty());
    assert_eq!(sa.any_position(""), None);
}

#[test]
fn quick_fox() {
    let sa = SuffixTable::new("The quick brown fox.");
    assert!(sa.contains("quick"));
    let sa = SuffixTable::new("The quick brown fox was very quick.");
    assert_eq!(sa.positions("quick"), &[4, 29]);
    let position = sa.any_position("quick");
    assert!(position == Some(4) || position == Some(29));
}

#[test]
fn queries_match_naive_search() {
    for t in texts().into_iter().take(200) {
        let s = String::from_utf8(t.clone()).unwrap();
        let sa = SuffixTable::new(&s);
        for qlen in 1..4usize {
            for start in 0..t.len().saturating_sub(qlen) + 1 {
                if start + qlen > t.len() {
                    continue;
                }
                let q = &s[start..start + qlen];
                let mut want: Vec<u32> = (0..t.len())
                    .filter(|&p| t[p..].starts_with(q.as_bytes()))
                    .map(|p| p as u32)
                    .collect();
                let mut got = sa.positions(q).to_vec();
                got.sort();
                want.sort();
                assert_eq!(got, want);
                assert!(sa.contains(q));
                let any = sa.any_position(q).unwrap();
                assert!(want.contains(&any));
            }
        }
        assert!(!sa.contains("#"));
        assert!(sa.positions("#").is_empty());
    }
}

#[test]
fn lcp_matches_bytewise() {
    for t in texts().into_iter().take(200) {
        let s = String::from_utf8(t.clone()).unwrap();
        let sa = SuffixTable::new(&s);
        let lcps = sa.lcp_lens();
        let table = sa.table();
        for i in 1..table.len() {
            let a = &t[table[i - 1] as usize..];
            let b = &t[table[i] as usize..];
            let want = a.iter().zip(b.iter()).take_while(|(x, y)| x == y).count() as u32;
            assert_eq!(lcps[i], want);
        }
        if !lcps.is_empty() {
            assert_eq!(lcps[0], 0);
        }
    }
}

#[test]
fn building_twice_gives_same_table() {
    for t in texts().into_iter().take(100) {
        let s = String::from_utf8(t).unwrap();
        assert_eq!(SuffixTable::new(&s).table(), SuffixTable::new(&s).table());
    }
}

#[test]
fn parts_round_trip() {
    let sa = SuffixTable::from_parts("banana", vec![5, 3, 1, 0, 4, 2]);
    assert!(sa.contains("anan"));
    let (text, table) = sa.into_parts();
    assert_eq!(text, "banana");
    assert_eq!(table, vec![5, 3, 1, 0, 4, 2]);
}

#[test]
fn multibyte_text_orders_bytes() {
    let sa = SuffixTable::new("héllo");
    assert_eq!(sa.len(), 6);
    assert_eq!(sa.table(), naive_table("héllo".as_bytes()).as_slice());
    assert!(sa.contains("é"));
    assert_eq!(sa.positions("llo"), &[3]);
}

#[test]
fn long_repetitive_text_builds_quickly() {
    let n = 200_000usize;
    let s = "a".repeat(n);
    let sa = SuffixTable::new(&s);
    let want: Vec<u32> = (0..n as u32).rev().collect();
    assert_eq!(sa.table(), want.as_slice());
    let (built, table) = engine_table(s.as_bytes());
    assert!(built);
    assert_eq!(table, want);
    let t: Vec<u8> = (0..n).map(|i| b"ab"[i % 2]).collect();
    let (built, table) = engine_table(&t);
    assert!(built);
    assert!(is_suffix_table_of(&t, &table));
}

#[test]
fn sais_sorts_name_sequences() {
    let names: Vec<u32> = vec![2, 1, 2, 1, 0, 3, 1, 2, 1, 0];
    let mut sa = vec![0u32; names.len()];
    sais(&mut sa, &names);
    let mut want: Vec<u32> = (0..names.len() as u32).collect();
    want.sort_by(|&a, &b| names[a as usize..].cmp(&names[b as usize..]));
    assert_eq!(sa, want);
    let mut one = vec![7u32];
    sais(&mut one, &[5u32]);
    assert_eq!(one, vec![0]);
    let mut none: Vec<u32> = vec![];
    sais(&mut none, &[]);
    assert!(none.is_empty());
}
