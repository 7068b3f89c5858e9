use kogu::entry::{
    appears_in_glyph, compound_display, distinct_chars, has_script, order_by_variety,
    pick_everyday, pick_first_per_variety, pick_origin_links, primary_form, stable_partition,
    pick_same_form, pick_synonyms, translate_term, SeenIds,
};
use kogu::forms::{
    char_short_gloss, char_variety, distinct_component_rows, glyph_script, glyphs_of, han_leaves,
    merge_note, pure_repeat, radical_facts, script_forms, stamped_glyph, word_short_gloss,
    attach_accents, ChildRow, IdsTable,
};
use kogu::model::{Form, ReadingKV};
use kogu::relation::{classify_relation, clean_variant_chars, is_proper_noun, variant_spelling, Relation, RelationSide};
use kogu::segment::{SegAsk, Segmenter};
use kogu::words::{content_words, glosses_overlap, short_gloss};

fn s(x: &str) -> String {
    x.to_string()
}

fn side(reading: Option<&str>, variety: &str, form: &str, gloss: Option<&str>) -> RelationSide {
    RelationSide {
        reading: reading.map(s),
        variety: s(variety),
        primary_form: s(form),
        first_gloss: gloss.map(s),
    }
}

#[test]
fn false_friend_needs_disjoint_glosses() {
    let edges: Vec<(u32, u32)> = vec![];
    let ja = side(Some("てがみ"), "ja", "手紙", Some("letter"));
    let zh = side(Some("shou3 zhi3"), "zh", "手紙", Some("toilet paper"));
    assert_eq!(classify_relation(&ja, &zh, &edges, false), Relation::FalseFriend);
    assert_eq!(classify_relation(&ja, &zh, &edges, false).as_str(), "false-friend");
    // a strong shared concept rescues it
    assert_eq!(classify_relation(&ja, &zh, &edges, true), Relation::Cognate);
    // inflected forms of one root overlap
    let a = side(None, "ja", "完成", Some("completion"));
    let b = side(None, "zh", "完成", Some("to complete"));
    assert_eq!(classify_relation(&a, &b, &edges, false), Relation::Cognate);
    // a proper noun is never a false friend
    let town = side(Some("Cheng2 gong1"), "zh", "成功", Some("Chenggong town in Taiwan"));
    let succ = side(Some("せいこう"), "ja", "成功", Some("success"));
    assert_eq!(classify_relation(&town, &succ, &edges, false), Relation::Cognate);
    // one side unglossed
    let bare = side(None, "zh", "天", None);
    assert_eq!(classify_relation(&bare, &succ, &edges, false), Relation::Cognate);
}

#[test]
fn same_language_variant_spelling_is_cognate() {
    let edges = vec![('这' as u32, '這' as u32), ('发' as u32, '髮' as u32), ('发' as u32, '發' as u32)];
    assert!(clean_variant_chars(&edges, '这', '這'));
    assert!(clean_variant_chars(&edges, '這', '这'));
    // a merge of distinct characters is not a clean variant
    assert!(!clean_variant_chars(&edges, '发', '髮'));
    assert!(variant_spelling(&edges, "这个", "這个"));
    assert!(!variant_spelling(&edges, "这个", "这个"));
    assert!(!variant_spelling(&edges, "这", "這个"));
    let a = side(None, "zh", "这个", Some("this one"));
    let b = side(None, "zh", "這个", Some("that thing"));
    assert_eq!(classify_relation(&a, &b, &edges, false), Relation::Cognate);
    assert!(is_proper_noun(Some("Beijing")));
    assert!(!is_proper_noun(Some("beijing")));
    assert!(!is_proper_noun(None));
}

#[test]
fn gloss_words_and_overlap() {
    let w = content_words("the Japanese word for company; firm");
    assert_eq!(w, vec![s("firm")]);
    assert_eq!(content_words("cleaning"), vec![s("clean")]);
    assert!(glosses_overlap(&vec![s("marriage")], &vec![s("married")]));
    assert!(!glosses_overlap(&vec![s("act")], &vec![s("actor")]));
}

#[test]
fn segments_spell_the_han_text() {
    // a tiny dictionary: 出口 "exit" is a word, 紅 has a character gloss
    let words = |w: &str| -> Option<(i64, String)> {
        match w {
            "出口" => Some((1, s("exit"))),
            _ => None,
        }
    };
    let mut seg = Segmenter::new("紅出口!");
    let mut asked = 0;
    loop {
        asked += 1;
        assert!(asked < 100);
        match seg.next() {
            SegAsk::Word(w) | SegAsk::CharWord(w) => seg.feed_word(words(&w)),
            SegAsk::CharGloss(c) => seg.feed_char_gloss(if c == '紅' { Some(s("red")) } else { None }),
            SegAsk::Done => break,
        }
    }
    let parts = seg.parts();
    let forms: Vec<&str> = parts.iter().map(|p| p.form.as_str()).collect();
    let glosses: Vec<&str> = parts.iter().map(|p| p.gloss.as_str()).collect();
    assert_eq!(forms, vec!["紅", "出口"]);
    assert_eq!(glosses, vec!["red", "exit"]);
    assert_eq!(parts[1].lexeme_id, Some(1));
    assert_eq!(parts[0].lexeme_id, None);
}

#[test]
fn segmenter_falls_back_to_empty_gloss() {
    let mut seg = Segmenter::new("a丂b");
    loop {
        match seg.next() {
            SegAsk::Word(_) | SegAsk::CharWord(_) => seg.feed_word(None),
            SegAsk::CharGloss(_) => seg.feed_char_gloss(None),
            SegAsk::Done => break,
        }
    }
    assert_eq!(seg.parts().len(), 1);
    assert_eq!(seg.parts()[0].form, "丂");
    assert_eq!(seg.parts()[0].gloss, "");
}

#[test]
fn stable_partition_keeps_group_order() {
    assert_eq!(stable_partition(&vec![false, true, false, true]), vec![1, 3, 0, 2]);
    assert_eq!(stable_partition(&vec![]), Vec::<usize>::new());
}

#[test]
fn characters_of_a_word() {
    assert_eq!(distinct_chars("あずかり知る知", true), vec!['知']);
    assert_eq!(distinct_chars("林林木", false), vec!['林', '木']);
    let forms = vec![
        Form { form: s("學校"), script: s("trad"), region: None, is_primary: false },
        Form { form: s("学校"), script: s("simp"), region: None, is_primary: true },
    ];
    assert_eq!(primary_form(&forms, "x"), "学校");
    assert_eq!(primary_form(&vec![], "山"), "山");
    assert!(has_script(&forms, "trad"));
    assert!(!has_script(&forms, "kana"));
}

#[test]
fn everyday_words_one_per_variety() {
    let mut seen = SeenIds::new();
    assert!(seen.insert(3));
    assert!(!seen.insert(3));
    let rows = vec![(10, s("zh"), false), (11, s("zh"), true), (12, s("zh"), true), (3, s("yue"), true), (13, s("yue"), true)];
    // 11 is the zh pick; yue is used up by 3, already on the page
    assert_eq!(pick_everyday(&rows, &mut seen), vec![11]);
    assert!(seen.contains(11));
}

#[test]
fn origin_accounts_one_per_language() {
    let links = vec![
        (s("ja"), Some(s("From Middle Chinese ..."))),
        (s("zh"), Some(s("Borrowed from Japanese ..."))),
        (s("zh"), Some(s("Sinitic origin"))),
        (s("yue"), None),
    ];
    // on a Japanese page the zh account that only says it came from Japanese is skipped
    assert_eq!(pick_origin_links("ja", true, &links), vec![2]);
    assert_eq!(pick_origin_links("zh", false, &links), vec![0, 1]);
    let rows = vec![(s("ja"), false), (s("ja"), true), (s("zh"), true), (s("ja"), true)];
    assert_eq!(pick_first_per_variety(&rows), vec![1, 2]);
}

#[test]
fn compound_rows_show_the_exact_glyph() {
    let forms = vec![s("种马"), s("種馬")];
    assert_eq!(compound_display(&forms, "种马", '馬'), (s("種馬"), true));
    assert_eq!(compound_display(&vec![s("马上")], "马上", '馬'), (s("马上"), false));
    assert_eq!(appears_in_glyph("彳", true, false), Some('彳'));
    assert_eq!(appears_in_glyph("山", false, false), None);
    assert_eq!(appears_in_glyph("山水", true, true), None);
    assert_eq!(translate_term("  Airport "), "airport");
    let v = vec![s("zh"), s("ja"), s("yue"), s("ja"), s("zh")];
    assert_eq!(order_by_variety(&v), vec![1, 3, 2, 0, 4]);
}

#[test]
fn script_family_of_a_simplified_char() {
    // 学 <- 學 (PRC simplification and Japanese shinjitai)
    let parents = vec![('學' as i64, s("學"))];
    let rows = vec![
        ChildRow { form: s("学"), child_orthodox: false, edge_type: s("simplification"), reform_id: Some(s("opencc")) },
        ChildRow { form: s("学"), child_orthodox: false, edge_type: s("shinjitai"), reform_id: Some(s("jp-joyo")) },
    ];
    let sf = script_forms(&parents, '学', '学' as i64, &rows, false, true, true, true).unwrap();
    assert_eq!(sf.orthodox, "學");
    assert!(!sf.is_kokuji);
    assert_eq!(sf.branches.len(), 2);
    assert_eq!(sf.branches[0].form, "學");
    assert_eq!(sf.branches[0].script, "traditional");
    assert_eq!(sf.branches[1].form, "学");
    assert_eq!(sf.branches[1].script, "simplified+shinjitai");
    assert_eq!(sf.branches[1].reform_label, Some(s("PRC simplification · Jōyō shinjitai")));
    // nothing to show for a plain glyph; a kokuji shows itself
    assert!(script_forms(&vec![], '山', '山' as i64, &vec![], true, false, true, true).is_none());
    let k = script_forms(&vec![], '峠', '峠' as i64, &vec![], true, false, true, false).unwrap();
    assert!(k.is_kokuji);
    assert_eq!(k.branches.len(), 1);
}

#[test]
fn glyph_script_and_merge_note() {
    assert_eq!(glyph_script(Some(false), true, false), Some(s("simplified")));
    assert_eq!(glyph_script(Some(true), false, true), Some(s("traditional")));
    assert_eq!(glyph_script(Some(true), false, false), None);
    assert_eq!(glyph_script(None, true, true), None);
    assert_eq!(stamped_glyph("zh", "丑"), Some('丑'));
    assert_eq!(stamped_glyph("ja", "丑"), None);
    let parents = vec![(s("醜"), Some(s("ugly; shameful"))), (s("丑"), Some(s("clown")))];
    assert_eq!(
        merge_note('丑', Some("second of the twelve earthly branches"), &parents),
        Some(s("Also the simplified form of 醜 (ugly)."))
    );
    // a parent whose meaning overlaps the glyph's own is a plain spelling variant
    let same = vec![(s("這"), Some(s("this")))];
    assert_eq!(merge_note('这', Some("this, these"), &same), None);
}

#[test]
fn radicals_and_their_standalone_form() {
    let r = radical_facts('氵', Some("water radical; Kangxi radical 85"), None, 2);
    assert!(r.is_radical);
    assert_eq!(r.radical_number, Some(85));
    assert_eq!(r.standalone, Some(s("水")));
    let m = radical_facts('山', Some("mountain; Kangxi radical 46"), Some(46), 4000);
    assert!(!m.is_radical);
    assert_eq!(m.standalone, None);
}

#[test]
fn accents_carry_onto_kun_readings() {
    let mut rs = vec![
        ReadingKV { kind: s("kunyomi"), value: s("は.し"), accent: None },
        ReadingKV { kind: s("onyomi"), value: s("ちょ"), accent: None },
        ReadingKV { kind: s("pinyin"), value: s("zhu4"), accent: None },
    ];
    let rows = vec![(s("はし"), s("1")), (s("はし"), s("2"))];
    attach_accents(&mut rs, &rows);
    assert_eq!(rs[0].accent, Some(s("1")));
    assert_eq!(rs[1].accent, None);
    assert_eq!(rs[2].accent, None);
}

#[test]
fn repeated_components_decompose() {
    assert_eq!(han_leaves("⿱木林[GTJ]", '森'), vec!['木', '林']);
    assert_eq!(han_leaves("木", '木'), Vec::<char>::new());
    assert!(pure_repeat(&vec!['木', '木']));
    assert!(!pure_repeat(&vec!['女', '子']));
    let mut t = IdsTable::new();
    let ids = |c: char| -> Option<String> {
        match c {
            '森' => Some(s("⿱木林")),
            '林' => Some(s("⿰木木")),
            '木' => Some(s("木")),
            _ => None,
        }
    };
    while let Some(c) = t.next_needed('森') {
        t.add(c, ids(c));
    }
    assert_eq!(t.uniform_decomp('森'), Some(('木', 3)));
    let mut u = IdsTable::new();
    let ids2 = |c: char| -> Option<String> {
        match c {
            '好' => Some(s("⿰女子")),
            _ => None,
        }
    };
    while let Some(c) = u.next_needed('好') {
        u.add(c, ids2(c));
    }
    assert_eq!(u.uniform_decomp('好'), None);
}

#[test]
fn small_character_page_decisions() {
    assert_eq!(char_variety(true, false), "ja");
    assert_eq!(char_variety(true, true), "zh");
    assert_eq!(glyphs_of(&vec!['冰' as i64, '氷' as i64, 0xD800, -1], Some('冰')), vec!['氷']);
    assert_eq!(char_short_gloss(Some("(archaic) red; crimson")), Some(s("red")));
    assert_eq!(char_short_gloss(Some("(only parens)")), None);
    assert_eq!(word_short_gloss(&vec![None, Some(s("(of sales)")), Some(s("to fall, drop"))]), "fall");
    assert_eq!(short_gloss("(of sales…) to fall; sink"), "fall");
    assert_eq!(distinct_component_rows(&vec![s("女"), s(""), s("馬"), s("女x")]), vec![0, 2]);
}

#[test]
fn same_form_links_skip_self_and_stop_at_the_cap() {
    let ids = vec![7, 3, 9, 4];
    let exists = vec![true, true, false, true];
    // own id 3 skipped, the missing lexeme 9 not linked; the scan runs to the end
    assert_eq!(pick_same_form(&ids, 3, &exists), (vec![0, 3], 4));
    let many: Vec<i64> = (1..=40).collect();
    let all = vec![true; 40];
    let (linked, scanned) = pick_same_form(&many, 2, &all);
    assert_eq!(linked.len(), 25);
    assert_eq!(linked[0], 0);
    assert_eq!(linked[1], 2);
    assert_eq!(scanned, 26);
}

#[test]
fn synonyms_cross_language_first_within_the_cap() {
    let cross = vec![false, true, false, true];
    assert_eq!(pick_synonyms(&cross, 0), vec![1, 3, 0, 2]);
    assert_eq!(pick_synonyms(&cross, 27), vec![1, 3, 0]);
    assert!(pick_synonyms(&cross, 30).is_empty());
    assert!(pick_synonyms(&cross, 31).is_empty());
}
