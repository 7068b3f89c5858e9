use kogu::fold::{escape_like, fts_query, pinyin_plain, romaji_plain, wildcard_glob};
use kogu::gloss::{contains_word, gloss_match_quality, GlossQuality};
use kogu::model::SuggestItem;
use kogu::plan::{
    absorb_suggestions, keep_language, kokuji_fallback, partial_probes, plan_search, plan_suggest, plan_wildcard,
    variety_nudge, SuggestLookup,
};
use kogu::rank::{
    cap_consecutive_variety, english_weight, partial_weight, Candidates, MatchType, Scope, CENT,
    FREQ_BONUS, UNIT, W_ALIAS, W_EXACT, W_EXACT_PRIMARY, W_READING, W_READING_PREFIX, W_VARIANT,
};
use kogu::gloss::{english_tier, EnglishTier};
use kogu::script::{classify, is_wildcard, to_hiragana, to_katakana, Kind};

fn q(g: &str, ql: &str) -> f64 {
    gloss_match_quality(g, ql).hundredths() as f64 / 100.0
}

#[test]
fn classify_kinds() {
    assert!(matches!(classify("機場"), Kind::Han));
    assert!(matches!(classify("がっこう"), Kind::Kana));
    assert!(matches!(classify("xue2"), Kind::Latin));
    assert!(matches!(classify("airport"), Kind::Latin));
    assert!(matches!(classify(""), Kind::Other));
}

#[test]
fn pinyin_folding() {
    // tone marks, tone numbers, and toneless all fold to the same key
    assert_eq!(pinyin_plain("xué"), "xue");
    assert_eq!(pinyin_plain("xue2"), "xue");
    assert_eq!(pinyin_plain("xue"), "xue");
    assert_eq!(pinyin_plain("ji1 chang3"), "jichang");
    assert_eq!(pinyin_plain("lǜ"), "lv"); // ü -> v
}

#[test]
fn pinyin_key_is_a_normal_form() {
    for q in ["Lǜ shī", "XUE2 xiào", "ni3 hao3!", "Nǚ'ér"] {
        let k = pinyin_plain(q);
        assert!(k.chars().all(|c| c.is_ascii_lowercase()));
        assert_eq!(pinyin_plain(&k), k);
    }
}

#[test]
fn gloss_quality_exact_beats_incidental() {
    // a gloss that *is* the term scores highest; incidental mention lowest
    assert_eq!(q("airport", "airport"), 1.0);
    assert_eq!(q("airport; airfield", "airport"), 1.0);
    assert!(q("airport limousine", "airport") < 1.0);
    assert!(q("airport limousine", "airport") >= 0.85);
    // "deck (of a ship)" must not score as a strong airport match
    assert!(q("deck (of a ship)", "airport") <= 0.2);
    // ordering the real bug: 空港's gloss beats デッキ's for "airport"
    assert!(q("airport", "airport") > q("deck (of a ship)", "airport"));
}

#[test]
fn gloss_quality_strips_to_prefix_and_parens() {
    // "to open a port" -> verb 'to' stripped; exact phrase match
    assert_eq!(q("to open a port", "open a port"), 1.0);
    // parenthetical removed before comparison
    assert_eq!(q("company (business)", "company"), 1.0);
}

#[test]
fn contains_word_boundaries() {
    assert!(contains_word("calling at a port", "port"));
    assert!(!contains_word("airport apron", "port")); // 'port' inside 'airport' is not a word
    assert!(contains_word("train station", "station"));
    // a non-ASCII needle glued to a letter is not a word, and the answer is a plain no
    assert!(!contains_word("aé", "é"));
    assert!(contains_word("aé é", "é"));
}

#[test]
fn fts_query_is_order_independent_and() {
    // both orderings produce the same AND query -> predictable english search
    assert_eq!(fts_query("train station"), fts_query("train station"));
    let a = fts_query("train station").unwrap();
    assert!(a.contains("\"train\"") && a.contains("\"station\"") && a.contains(" AND "));
    assert_eq!(fts_query("   "), None);
}

#[test]
fn fts_terms_do_not_depend_on_word_order() {
    let terms = |q: &str| {
        let mut t: Vec<String> = fts_query(q).unwrap().split(" AND ").map(str::to_string).collect();
        t.sort();
        t.dedup();
        t
    };
    assert_eq!(terms("train station"), terms("Station TRAIN"));
    assert_eq!(terms("big red dog"), terms("dog, red big"));
}

#[test]
fn fts_query_lowercases_and_quotes_each_word() {
    assert_eq!(fts_query("Train, Station!").unwrap(), "\"train\" AND \"station\"");
    // non-ASCII letters are word characters too
    assert_eq!(fts_query("café au lait").unwrap(), "\"café\" AND \"au\" AND \"lait\"");
}

#[test]
fn gloss_quality_tiers_and_word_match() {
    assert!(matches!(gloss_match_quality("calling at a port", "port"), GlossQuality::Word));
    assert!(matches!(gloss_match_quality("port city", "port"), GlossQuality::Leading));
    // inflected query aligns on the stem
    assert!(matches!(gloss_match_quality("ear", "ears"), GlossQuality::Exact));
    assert_eq!(GlossQuality::Word.hundredths(), 50);
    // a non-ASCII term glued to a letter is no whole-word match
    assert!(matches!(gloss_match_quality("xéa", "é"), GlossQuality::Incidental));
    assert!(matches!(gloss_match_quality("é; x é y", "é"), GlossQuality::Exact));
}

#[test]
fn romaji_long_vowels_and_labials_fold() {
    assert_eq!(romaji_plain("tokyo"), "tokyo");
    assert_eq!(romaji_plain("toukyou"), "tokyo");
    assert_eq!(romaji_plain("Tōkyō"), "tokyo");
    assert_eq!(romaji_plain("TŌKYŌ"), "tokyo");
    assert_eq!(romaji_plain("Ôsaka"), "osaka");
    assert_eq!(romaji_plain("shimbun"), "shinbun");
    assert_eq!(romaji_plain("jyuu"), "ju");
}

#[test]
fn like_escape_and_wildcard_patterns() {
    assert_eq!(escape_like("100%_a\\b"), "100\\%\\_a\\\\b");
    assert_eq!(wildcard_glob("你*").unwrap(), "你*");
    assert_eq!(wildcard_glob("機？場").unwrap(), "機?場");
    assert_eq!(wildcard_glob("a[b*").unwrap(), "a[[]b*");
    assert_eq!(wildcard_glob("*"), None);
    assert!(is_wildcard("*場"));
    assert!(!is_wildcard("場"));
}

#[test]
fn kana_folds_both_ways() {
    assert_eq!(to_katakana("てれび"), "テレビ");
    assert_eq!(to_hiragana("テレビ"), "てれび");
    // long-vowel mark and kanji untouched
    assert_eq!(to_hiragana("ビール"), "びーる");
    assert_eq!(to_katakana("食べる"), "食ベル");
}

#[test]
fn scope_parameter_lenses() {
    assert_eq!(Scope::from_param(Some(" Sound ")), Scope::Sound);
    assert_eq!(Scope::from_param(Some("PHONETIC")), Scope::Sound);
    assert_eq!(Scope::from_param(Some("gloss")), Scope::Meaning);
    assert_eq!(Scope::from_param(Some("auto")), Scope::Auto);
    assert_eq!(Scope::from_param(None), Scope::Auto);
    assert!(!Scope::Sound.keeps("english"));
    assert!(Scope::Sound.keeps("reading"));
    assert!(!Scope::Meaning.keeps("reading"));
    assert!(Scope::Meaning.keeps("exact"));
}

#[test]
fn best_match_per_lexeme_wins() {
    let mut c = Candidates::new();
    c.bump(7, MatchType::Reading, W_READING);
    c.bump(7, MatchType::Exact, W_EXACT);
    c.bump(7, MatchType::Variant, W_VARIANT); // weaker: ignored
    c.bump(9, MatchType::English, english_weight(EnglishTier::Word));
    c.bump(9, MatchType::Reading, english_weight(EnglishTier::Word)); // a tie keeps the first
    let kept = c.kept(Scope::Auto);
    assert_eq!(kept.len(), 2);
    assert_eq!(kept[0].lexeme_id, 7);
    assert_eq!(kept[0].match_type, MatchType::Exact);
    assert_eq!(kept[0].weight, W_EXACT);
    assert_eq!(kept[1].match_type, MatchType::English);
    assert!(c.has_whole());
    // the sound lens drops the English match
    let sound = c.kept(Scope::Sound);
    assert_eq!(sound.len(), 1);
    assert_eq!(sound[0].lexeme_id, 7);
}

#[test]
fn weights_are_exact_tiers() {
    assert_eq!(W_EXACT, UNIT);
    assert_eq!(W_EXACT_PRIMARY, 116 * CENT);
    assert_eq!(english_weight(EnglishTier::PrimarySense), 105 * CENT);
    assert_eq!(english_weight(EnglishTier::Incidental), 30 * CENT);
    // 0.45 * 2 / 3 = 0.3 exactly
    assert_eq!(partial_weight(2, 3), 30 * CENT);
    assert_eq!(partial_weight(3, 4) * 4, 45 * 3 * CENT);
    assert!(matches!(english_tier(GlossQuality::Exact, true, true, 0), EnglishTier::Word));
    assert!(matches!(english_tier(GlossQuality::Exact, false, true, 0), EnglishTier::PrimarySense));
    assert!(matches!(english_tier(GlossQuality::Exact, false, true, 2), EnglishTier::Exact));
}

#[test]
fn partial_probes_longest_first() {
    let p = partial_probes("東京ホテル", Kind::Kana, false);
    // lengths 4, 3, 2 of a 5-character query: 2 + 3 + 4 substrings
    assert_eq!(p.len(), 9);
    assert_eq!(p[0].0, "東京ホテ");
    assert_eq!(p[1].0, "京ホテル");
    assert_eq!(p[2].0, "東京ホ");
    assert_eq!(p[8].0, "テル");
    assert!(p[0].1 > p[2].1 && p[2].1 > p[5].1);
    assert_eq!(p[0].1 * 5, 45 * 4 * CENT);
    // a whole-word hit, a Latin query, or a short query probes nothing
    assert!(partial_probes("東京ホテル", Kind::Kana, true).is_empty());
    assert!(partial_probes("hotel", Kind::Latin, false).is_empty());
    assert!(partial_probes("東京", Kind::Han, false).is_empty());
}

#[test]
fn search_plan_reads_the_query() {
    let p = plan_search("  たべ  ");
    assert_eq!(p.query, "たべ");
    assert!(matches!(p.kind, Kind::Kana));
    assert_eq!(p.hira, "たべ");
    assert_eq!(p.kata, "タベ");
    assert_eq!(p.kana_prefix, Some(("たべ%".to_string(), "タベ%".to_string())));
    assert_eq!(p.surface_prefix, Some("たべ%".to_string()));
    assert!(!p.backbone);
    let l = plan_search("Train Station");
    assert!(matches!(l.kind, Kind::Latin));
    assert_eq!(l.alias_term, "train station");
    assert!(!l.single_word);
    assert_eq!(l.pinyin, Some("trainstation".to_string()));
    assert_eq!(l.fts, Some("\"train\" AND \"station\"".to_string()));
    let h = plan_search("學");
    assert!(h.backbone);
    assert_eq!(h.surface_prefix, None);
    assert_eq!(h.romaji, None);
}

#[test]
fn kokuji_fallback_only_for_one_han_char() {
    assert_eq!(kokuji_fallback("込", Kind::Han, true), Some('込'));
    assert_eq!(kokuji_fallback("込", Kind::Han, false), None);
    assert_eq!(kokuji_fallback("込込", Kind::Han, true), None);
    assert_eq!(variety_nudge(Kind::Han, "zh"), 6);
    assert_eq!(variety_nudge(Kind::Han, "yue"), 4);
    assert_eq!(variety_nudge(Kind::Han, "ja"), 0);
    assert_eq!(variety_nudge(Kind::Latin, "zh"), 0);
}

#[test]
fn english_reflow_caps_runs() {
    let v: Vec<String> = ["ja", "ja", "ja", "ja", "ja", "zh", "ja", "yue"].iter().map(|s| s.to_string()).collect();
    let order = cap_consecutive_variety(&v, 3);
    assert_eq!(order, vec![0, 1, 2, 5, 3, 4, 6, 7]);
    // nothing else left: the run continues
    let w: Vec<String> = ["zh", "ja", "ja", "ja", "ja"].iter().map(|s| s.to_string()).collect();
    assert_eq!(cap_consecutive_variety(&w, 3), vec![0, 1, 2, 3, 4]);
}

#[test]
fn wildcard_plan_per_scope() {
    assert!(plan_wildcard("**", Scope::Auto).is_none());
    let p = plan_wildcard("Tabe*", Scope::Auto).unwrap();
    assert_eq!(p.form_glob, Some("Tabe*".to_string()));
    assert_eq!(p.reading_glob, Some("tabe*".to_string()));
    let s = plan_wildcard("你*", Scope::Sound).unwrap();
    assert_eq!(s.form_glob, None);
    let m = plan_wildcard("你*", Scope::Meaning).unwrap();
    assert_eq!(m.reading_glob, None);
}

#[test]
fn suggest_plan_per_script() {
    let h = plan_suggest("学%", 100);
    assert_eq!(h.cap, 20);
    assert!(matches!(h.lookup, SuggestLookup::Form { ref pattern } if pattern == "学\\%%"));
    let k = plan_suggest("タベ", 0);
    assert_eq!(k.cap, 1);
    assert!(matches!(k.lookup, SuggestLookup::Kana { ref pattern } if pattern == "たべ%"));
    let l = plan_suggest("OR x1", 8);
    match l.lookup {
        SuggestLookup::Latin { reading, term } => {
            assert_eq!(reading, "orx%");
            assert_eq!(term, Some("\"ORx1\"*".to_string()));
        }
        _ => panic!("expected a Latin lookup"),
    }
    assert!(matches!(plan_suggest("  ", 8).lookup, SuggestLookup::Nothing));
    assert!(matches!(plan_suggest("你*", 8).lookup, SuggestLookup::Nothing));
}

fn item(h: &str) -> SuggestItem {
    SuggestItem { headword: h.to_string(), reading: None, variety: "zh".to_string() }
}

#[test]
fn suggestions_dedupe_and_cap() {
    let mut out = vec![item("学校")];
    absorb_suggestions(&mut out, vec![item("学生"), item("学校"), item("学习"), item("学者")], 3);
    let hw: Vec<&str> = out.iter().map(|s| s.headword.as_str()).collect();
    assert_eq!(hw, vec!["学校", "学生", "学习"]);
    // already full: nothing added
    absorb_suggestions(&mut out, vec![item("学院")], 3);
    assert_eq!(out.len(), 3);
}

#[test]
fn frequency_bonus_never_flips_a_tier() {
    assert_eq!(FREQ_BONUS, 15 * CENT);
    assert!(W_ALIAS > W_EXACT_PRIMARY + FREQ_BONUS);
    assert!(W_EXACT_PRIMARY > W_EXACT + FREQ_BONUS);
    assert!(W_READING > W_READING_PREFIX + FREQ_BONUS);
    assert_eq!(
        english_weight(EnglishTier::PrimarySense),
        english_weight(EnglishTier::Exact) + FREQ_BONUS
    );
}

#[test]
fn language_filter_keeps_one_variety_in_order() {
    let v: Vec<String> = ["ja", "zh", "yue", "zh"].iter().map(|x| x.to_string()).collect();
    assert_eq!(keep_language(&v, Some("zh")), vec![1, 3]);
    assert_eq!(keep_language(&v, None), vec![0, 1, 2, 3]);
    assert!(keep_language(&v, Some("ko")).is_empty());
}
