use kogu::graph::{UnionFind, VariantGraph};

fn cp(c: char) -> u32 {
    c as u32
}

#[test]
fn union_find_merges_classes() {
    let mut uf = UnionFind::new();
    let a = uf.make();
    let b = uf.make();
    let c = uf.make();
    assert_eq!((a, b, c), (0, 1, 2));
    assert_ne!(uf.find(a), uf.find(b));
    uf.union(a, b);
    assert_eq!(uf.find(a), uf.find(b));
    assert_ne!(uf.find(a), uf.find(c));
    uf.union(c, b);
    assert_eq!(uf.find(c), uf.find(a));
}

fn graph() -> VariantGraph {
    // 學 -> 学 (simplification), 校 has no variant; 會 -> 会 (shinjitai)
    let edges = vec![(cp('学'), cp('學')), (cp('会'), cp('會'))];
    let forms = vec![
        ("学校".to_string(), 10),
        ("學校".to_string(), 11),
        ("學校".to_string(), 11),
        ("会社".to_string(), 20),
        ("會社".to_string(), 21),
        ("学".to_string(), 5),
    ];
    VariantGraph::load(&edges, &forms)
}

#[test]
fn variant_spellings_meet_in_one_key() {
    let g = graph();
    assert_eq!(g.key("学校"), g.key("學校"));
    assert_ne!(g.key("学校"), g.key("会社"));
    assert_eq!(g.lexemes_by_key("學校"), &[10, 11]);
    assert_eq!(g.lexemes_by_key("会社"), &[20, 21]);
    assert!(g.lexemes_by_key("大学").is_empty());
    assert_eq!(g.num_classes(), 3);
}

#[test]
fn backbone_key_tokens() {
    let g = graph();
    // 校 has no identity edge: its codepoint is its token
    assert_eq!(g.key("校"), format!("u{}.", '校' as u32));
    // 学 and 學 share the class of the first element interned (学, element 0)
    assert_eq!(g.key("学"), "c0.");
    assert_eq!(g.key("學"), "c0.");
    assert_eq!(g.key(""), "");
}

#[test]
fn key_is_its_tokens_put_together() {
    let g = graph();
    assert_eq!(g.key("學校會社"), format!("{}{}", g.key("學校"), g.key("會社")));
    // different classes never collide, even where the digits could run together
    assert_ne!(g.key("会"), g.key("学"));
    assert_ne!(g.key("学会"), g.key("会学"));
}

#[test]
fn find_returns_a_root() {
    let mut uf = UnionFind::new();
    let a = uf.make();
    let b = uf.make();
    uf.union(a, b);
    let r = uf.find(b);
    assert_eq!(uf.find(r), r);
}
