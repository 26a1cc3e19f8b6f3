use sled::data::{Data, PageId};
use sled::frag::{ChildSplit, Frag, Meta, Page, ParentSplit};
use sled::ivec::IVec;
use sled::key::{key_less, prefix_decode, prefix_encode};
use sled::materializer::{BLinkMaterializer, Recovery};
use sled::tx::Tx;
use sled::view::{Concatenate, View};

fn iv(b: &[u8]) -> IVec {
    IVec::new(b)
}

fn leaf(lo: &[u8], entries: &[(&[u8], &[u8])]) -> Data {
    let mut v = Vec::new();
    for (k, val) in entries {
        v.push((prefix_encode(lo, k), iv(val)));
    }
    Data::Leaf(v)
}

fn index(lo: &[u8], entries: &[(&[u8], PageId)]) -> Data {
    let mut v = Vec::new();
    for (k, to) in entries {
        v.push((prefix_encode(lo, k), *to));
    }
    Data::Index(v)
}

fn leaf_entries(d: &Data, lo: &[u8]) -> Vec<(Vec<u8>, Vec<u8>)> {
    d.leaf_ref()
        .expect("leaf payload")
        .iter()
        .map(|(k, v)| (prefix_decode(lo, k.as_bytes()), v.to_vec()))
        .collect()
}

fn index_entries(d: &Data, lo: &[u8]) -> Vec<(Vec<u8>, PageId)> {
    match d {
        Data::Index(v) => v.iter().map(|(k, p)| (prefix_decode(lo, k.as_bytes()), *p)).collect(),
        Data::Leaf(_) => panic!("index payload expected"),
    }
}

fn pairs(items: &[(&[u8], &[u8])]) -> Vec<(Vec<u8>, Vec<u8>)> {
    items.iter().map(|(k, v)| (k.to_vec(), v.to_vec())).collect()
}

fn base(data: Data, lo: &[u8], hi: &[u8], next: PageId) -> Frag {
    Frag::Base(Page { data, lo: iv(lo), hi: iv(hi), next })
}

#[test]
fn ivec_usage() {
    let iv1: IVec = IVec::from_vec(vec![1, 2, 3]);
    assert_eq!(iv1.to_vec(), vec![1, 2, 3]);
    let iv2 = IVec::new(&[4; 128]);
    assert_eq!(iv2.to_vec(), vec![4; 128]);
}

#[test]
fn ivec_round_trip_at_cutoff() {
    for len in [0usize, 1, 14, 15, 16, 17, 128] {
        let bytes: Vec<u8> = (0..len).map(|i| (i * 7 + 3) as u8).collect();
        let v = IVec::new(&bytes);
        assert_eq!(v.as_bytes(), &bytes[..]);
        assert_eq!(v.len(), len);
        assert_eq!(v.is_inline(), len <= 15);
        let w = IVec::from_vec(bytes.clone());
        assert_eq!(w.as_bytes(), &bytes[..]);
        assert_eq!(w.is_inline(), len <= 15);
        assert!(v == w);
    }
}

#[test]
fn ivec_equality_ignores_storage() {
    assert!(iv(b"abc") == iv(b"abc"));
    assert!(!(iv(b"abc") == iv(b"abd")));
    assert!(!(iv(b"abc") == iv(b"abcd")));
    let long = vec![9u8; 40];
    assert!(iv(&long) == IVec::from_vec(long.clone()));
}

#[test]
fn ivec_size_in_bytes() {
    assert_eq!(iv(b"").size_in_bytes(), 24);
    assert_eq!(iv(&[1; 15]).size_in_bytes(), 24);
    assert_eq!(iv(&[1; 16]).size_in_bytes(), 40);
    assert_eq!(iv(&[1; 100]).size_in_bytes(), 124);
}

#[test]
fn ivec_deallocate_under_guard() {
    let tx = Tx::new(5);
    assert_eq!(tx.ts, 5);
    assert!(iv(&[7; 64]).deallocate(&tx.guard));
    assert!(!iv(b"short").deallocate(&tx.guard));
    assert!(iv(&[1; 16]).deallocate(&tx.guard));
    assert!(!iv(&[1; 15]).deallocate(&tx.guard));
}

#[test]
fn prefix_encoding() {
    let enc = prefix_encode(b"abc", b"abd");
    assert_eq!(enc.to_vec(), vec![2, b'd']);
    assert_eq!(prefix_decode(b"abc", enc.as_bytes()), b"abd".to_vec());
    let enc2 = prefix_encode(b"", b"b");
    assert_eq!(enc2.to_vec(), vec![0, b'b']);
    let enc3 = prefix_encode(b"ab", b"ab");
    assert_eq!(enc3.to_vec(), vec![2]);
    assert_eq!(prefix_decode(b"ab", enc3.as_bytes()), b"ab".to_vec());
    assert!(key_less(b"a", b"b"));
    assert!(key_less(b"a", b"ab"));
    assert!(!key_less(b"ab", b"ab"));
    assert!(!key_less(b"b", b"ab"));
}

#[test]
fn data_len_and_size() {
    let d = leaf(b"", &[(b"b", b"2")]);
    assert_eq!(d.len(), 1);
    assert!(!d.is_empty());
    // 32 + 24 + (2 + 24 + 1 + 24)
    assert_eq!(d.size_in_bytes(), 107);
    let e = index(b"", &[(b"k", 3)]);
    // 32 + 24 + (2 + 24 + 8)
    assert_eq!(e.size_in_bytes(), 90);
    assert!(e.leaf_ref().is_none());
    assert!(Data::Leaf(vec![]).is_empty());
}

#[test]
fn data_split_halves() {
    let d = leaf(b"", &[(b"a", b"1"), (b"b", b"2"), (b"c", b"3"), (b"d", b"4"), (b"e", b"5")]);
    let (split, right) = d.split(b"");
    assert_eq!(split.to_vec(), b"d".to_vec());
    assert_eq!(right.len(), 2);
    assert_eq!(leaf_entries(&right, b"d"), pairs(&[(b"d", b"4"), (b"e", b"5")]));
    let mut left = d;
    left.drop_gte(b"d", b"");
    assert_eq!(leaf_entries(&left, b""), pairs(&[(b"a", b"1"), (b"b", b"2"), (b"c", b"3")]));

    let four = index(b"", &[(b"a", 1), (b"b", 2), (b"c", 3), (b"d", 4)]);
    let (split4, right4) = four.split(b"");
    assert_eq!(split4.to_vec(), b"d".to_vec());
    assert_eq!(index_entries(&right4, b"d"), vec![(b"d".to_vec(), 4)]);

    let three = leaf(b"", &[(b"a", b"1"), (b"b", b"2"), (b"c", b"3")]);
    let (split3, right3) = three.split(b"");
    assert_eq!(split3.to_vec(), b"c".to_vec());
    assert_eq!(right3.len(), 1);
}

#[test]
fn data_set_del_and_separators() {
    let mut d = leaf(b"", &[(b"b", b"2")]);
    d.set(b"", prefix_encode(b"", b"a"), iv(b"1"));
    d.set(b"", prefix_encode(b"", b"c"), iv(b"3"));
    d.set(b"", prefix_encode(b"", b"b"), iv(b"two"));
    assert_eq!(leaf_entries(&d, b""), pairs(&[(b"a", b"1"), (b"b", b"two"), (b"c", b"3")]));
    d.del(b"", &prefix_encode(b"", b"zz"));
    assert_eq!(d.len(), 3);
    d.del(b"", &prefix_encode(b"", b"a"));
    assert_eq!(leaf_entries(&d, b""), pairs(&[(b"b", b"two"), (b"c", b"3")]));

    let mut x = index(b"m", &[(b"m", 1), (b"t", 2)]);
    x.insert_separator(b"m", b"p", 9);
    assert_eq!(
        index_entries(&x, b"m"),
        vec![(b"m".to_vec(), 1), (b"p".to_vec(), 9), (b"t".to_vec(), 2)]
    );
}

#[test]
fn view_end_to_end() {
    let lo: &[u8] = b"";
    let b = base(leaf(lo, &[(b"b", b"2")]), lo, b"z", 0);
    let set_a = Frag::Put(prefix_encode(lo, b"a"), iv(b"1"));
    let chain = vec![&set_a, &b];
    let mut view = View::new(&chain, &Concatenate);
    assert!(!view.is_free());
    assert_eq!(leaf_entries(view.data(), lo), pairs(&[(b"a", b"1"), (b"b", b"2")]));

    let del_b = Frag::Del(prefix_encode(lo, b"b"));
    let chain2 = vec![&del_b, &set_a, &b];
    let mut view2 = View::new(&chain2, &Concatenate);
    assert_eq!(leaf_entries(view2.data(), lo), pairs(&[(b"a", b"1")]));
    assert_eq!(view2.lo(), lo);
    assert_eq!(view2.hi(), b"z");
    assert_eq!(view2.next(), 0);
}

#[test]
fn view_is_free_on_empty_chain() {
    let chain: Vec<&Frag> = vec![];
    let view = View::new(&chain, &Concatenate);
    assert!(view.is_free());
}

#[test]
fn view_child_split_narrows_page() {
    let lo: &[u8] = b"a";
    let b = base(leaf(lo, &[(b"a", b"1"), (b"c", b"3"), (b"e", b"5")]), lo, b"z", 4);
    let cs = Frag::ChildSplit(ChildSplit { at: iv(b"c"), to: 11 });
    let chain = vec![&cs, &b];
    let mut view = View::new(&chain, &Concatenate);
    assert_eq!(view.hi(), b"c");
    assert_eq!(view.next(), 11);
    assert_eq!(leaf_entries(view.data(), lo), pairs(&[(b"a", b"1")]));
}

#[test]
fn view_parent_split_adds_route() {
    let lo: &[u8] = b"";
    let b = base(index(lo, &[(b"", 1)]), lo, b"", 0);
    let ps = Frag::ParentSplit(ParentSplit { at: iv(b"m"), to: 2 });
    let chain = vec![&ps, &b];
    let mut view = View::new(&chain, &Concatenate);
    assert_eq!(index_entries(view.data(), lo), vec![(b"".to_vec(), 1), (b"m".to_vec(), 2)]);
}

#[test]
fn view_should_split_and_split() {
    let lo: &[u8] = b"";
    let big = vec![7u8; 1000];
    let two = base(leaf(lo, &[(b"a", &big), (b"b", &big)]), lo, b"", 0);
    let chain2 = vec![&two];
    let mut v2 = View::new(&chain2, &Concatenate);
    assert!(!v2.should_split(0));

    let three = base(leaf(lo, &[(b"a", b"1"), (b"b", b"2"), (b"c", b"3")]), lo, b"q", 6);
    let chain3 = vec![&three];
    let mut v3 = View::new(&chain3, &Concatenate);
    assert!(v3.should_split(10));
    assert!(!v3.should_split(1_000_000));
    // 48 + 0 + 1 + (32 + 24 + 3 * (2 + 24 + 1 + 24))
    assert_eq!(v3.size_in_bytes(), 48 + 1 + 32 + 24 + 3 * 51);
    let right = v3.split();
    assert_eq!(right.lo.to_vec(), b"c".to_vec());
    assert_eq!(right.hi.to_vec(), b"q".to_vec());
    assert_eq!(right.next, 6);
    assert_eq!(leaf_entries(&right.data, b"c"), pairs(&[(b"c", b"3")]));
}

#[test]
fn view_split_without_prior_fold() {
    let lo: &[u8] = b"";
    let b = base(leaf(lo, &[(b"a", b"1"), (b"b", b"2")]), lo, b"", 3);
    let put = Frag::Put(prefix_encode(lo, b"c"), iv(b"3"));
    let chain = vec![&put, &b];
    let mut view = View::new(&chain, &Concatenate);
    let right = view.split();
    assert_eq!(right.lo.to_vec(), b"c".to_vec());
    assert_eq!(right.next, 3);
    assert_eq!(right.data.leaf_ref().unwrap()[0].0.to_vec(), vec![1]);
    assert_eq!(leaf_entries(&right.data, b"c"), pairs(&[(b"c", b"3")]));
}

#[test]
fn data_drop_gte_twice() {
    let mut d = leaf(b"", &[(b"a", b"1"), (b"b", b"2"), (b"c", b"3")]);
    d.drop_gte(b"b", b"");
    let once = leaf_entries(&d, b"");
    d.drop_gte(b"b", b"");
    assert_eq!(leaf_entries(&d, b""), once);
    assert_eq!(once, pairs(&[(b"a", b"1")]));
    assert_eq!(d.leaf_ref().unwrap()[0].0.to_vec(), vec![0, b'a']);
}

#[test]
fn view_disjoint_changes_commute() {
    let lo: &[u8] = b"";
    let b = base(leaf(lo, &[(b"k", b"0")]), lo, b"", 0);
    let put = Frag::Put(prefix_encode(lo, b"x"), iv(b"1"));
    let del = Frag::Del(prefix_encode(lo, b"k"));
    let one = vec![&put, &del, &b];
    let other = vec![&del, &put, &b];
    let mut v1 = View::new(&one, &Concatenate);
    let mut v2 = View::new(&other, &Concatenate);
    assert_eq!(leaf_entries(v1.data(), lo), leaf_entries(v2.data(), lo));
    assert_eq!(leaf_entries(v1.data(), lo), pairs(&[(b"x", b"1")]));

    let set_k = Frag::Put(prefix_encode(lo, b"k"), iv(b"1"));
    let newer_del = vec![&del, &set_k, &b];
    let mut v3 = View::new(&newer_del, &Concatenate);
    assert!(leaf_entries(v3.data(), lo).is_empty());
    let newer_set = vec![&set_k, &del, &b];
    let mut v4 = View::new(&newer_set, &Concatenate);
    assert_eq!(leaf_entries(v4.data(), lo), pairs(&[(b"k", b"1")]));
}

#[test]
fn materializer_merge_matches_view() {
    let lo: &[u8] = b"";
    let b = base(leaf(lo, &[(b"b", b"2"), (b"c", b"3")]), lo, b"z", 5);
    let set_a = Frag::Put(prefix_encode(lo, b"a"), iv(b"1"));
    let del_c = Frag::Del(prefix_encode(lo, b"c"));
    let chain = vec![&del_c, &set_a, &b];
    let m = BLinkMaterializer::new(&None, Concatenate);
    let merged = m.merge(&chain);
    let page = merged.unwrap_base();
    let mut view = View::new(&chain, &Concatenate);
    assert_eq!(leaf_entries(&page.data, lo), leaf_entries(view.data(), lo));
    assert_eq!(leaf_entries(&page.data, lo), pairs(&[(b"a", b"1"), (b"b", b"2")]));
    assert_eq!(page.hi.to_vec(), b"z".to_vec());
    assert_eq!(page.next, 5);
}

#[test]
fn materializer_merge_counters() {
    let c3 = Frag::Counter(3);
    let c7 = Frag::Counter(7);
    let c5 = Frag::Counter(5);
    let m = BLinkMaterializer::new(&None, Concatenate);
    match m.merge(&vec![&c5, &c7, &c3]) {
        Frag::Counter(n) => assert_eq!(n, 7),
        other => panic!("unexpected {:?}", other),
    }
}

#[test]
fn materializer_recover_keeps_max() {
    let mut m = BLinkMaterializer::new(&None, Concatenate);
    assert_eq!(m.recover(&Frag::Counter(3)), Some(Recovery { counter: 3 }));
    assert_eq!(m.recover(&Frag::Counter(7)), Some(Recovery { counter: 7 }));
    assert_eq!(m.recover(&Frag::Counter(5)), Some(Recovery { counter: 7 }));
    assert_eq!(m.recover(&Frag::Del(iv(&[0, 1]))), None);

    let mut n = BLinkMaterializer::new(&Some(Recovery { counter: 10 }), Concatenate);
    assert_eq!(n.recover(&Frag::Counter(4)), Some(Recovery { counter: 10 }));
}

#[test]
fn materializer_size_in_bytes() {
    let m = BLinkMaterializer::new(&None, Concatenate);
    assert_eq!(m.size_in_bytes(&Frag::Counter(1)), 128);
    let p = Page::default();
    // page: 96 + 0 + 0 + (32 + 24)
    assert_eq!(p.size_in_bytes(), 152);
    assert_eq!(m.size_in_bytes(&Frag::Base(p)), 128 + 152);
}

#[test]
fn frag_accessors() {
    let mut f = Frag::Put(iv(&[0, b'a']), iv(b"v"));
    f.set_key(iv(&[0, b'b']));
    match &f {
        Frag::Put(k, v) => {
            assert_eq!(k.to_vec(), vec![0, b'b']);
            assert_eq!(v.to_vec(), b"v".to_vec());
        }
        _ => panic!("still a Put"),
    }
    let mut d = Frag::Del(iv(&[0, b'a']));
    d.set_key(iv(&[0, b'c']));
    assert!(matches!(&d, Frag::Del(k) if k.to_vec() == vec![0, b'c']));
    let meta = Frag::Meta(Meta { roots: vec![(iv(b"tree"), 3)] });
    assert_eq!(meta.unwrap_meta().roots[0].1, 3);
    let p = Page::default();
    assert!(p.data.is_empty());
    assert_eq!(p.next, 0);
    assert!(p.lo.is_empty() && p.hi.is_empty());
}

#[test]
fn prefix_encoding_caps_shared_length() {
    let prefix = vec![b'a'; 300];
    let mut key = vec![b'a'; 300];
    key.push(b'b');
    let enc = prefix_encode(&prefix, &key);
    assert_eq!(enc.byte_at(0), 255);
    assert_eq!(enc.len(), 1 + key.len() - 255);
    assert!(!enc.is_inline());
    assert_eq!(prefix_decode(&prefix, enc.as_bytes()), key);
}

#[test]
fn view_child_split_on_index_page() {
    let lo: &[u8] = b"";
    let b = base(index(lo, &[(b"", 1), (b"g", 2), (b"p", 3)]), lo, b"", 0);
    let cs = Frag::ChildSplit(ChildSplit { at: iv(b"g"), to: 8 });
    let chain = vec![&cs, &b];
    let mut view = View::new(&chain, &Concatenate);
    assert_eq!(index_entries(view.data(), lo), vec![(b"".to_vec(), 1)]);
    assert_eq!(view.hi(), b"g");
    assert_eq!(view.next(), 8);
}

#[test]
fn view_folds_merge_operands() {
    let lo: &[u8] = b"";
    let b = base(leaf(lo, &[(b"a", b"x"), (b"c", b"z")]), lo, b"", 0);
    let m_a = Frag::Merge(prefix_encode(lo, b"a"), iv(b"y"));
    let m_b = Frag::Merge(prefix_encode(lo, b"b"), iv(b"new"));
    let chain = vec![&m_b, &m_a, &b];
    let mut view = View::new(&chain, &Concatenate);
    assert_eq!(
        leaf_entries(view.data(), lo),
        pairs(&[(b"a", b"xy"), (b"b", b"new"), (b"c", b"z")])
    );
    let m = BLinkMaterializer::new(&None, Concatenate);
    let merged = m.merge(&chain);
    assert_eq!(leaf_entries(&merged.unwrap_base().data, lo), leaf_entries(view.data(), lo));
}
