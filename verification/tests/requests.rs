use kogu::chars::chars_of;
use kogu::params::{parse_i64, EntriesParams, InterestingParams, SearchParams, SuggestParams};
use kogu::proxy::{
    clip_is_audio, clip_request, google_lang, merge_candidates, mm_lang, mt_request, nonblank, recognize_languages,
    recognized_candidates, translation_of,
    recognize_limit, recognize_reply, tts_accent, tts_kana, ClipError, MtRequest,
};
use kogu::rank::Scope;
use kogu::showcase::{
    english_false_friend_why, english_lookalike, false_friend_why, false_friends, merge_why,
    per_bucket, pick_english_false_friends, pick_false_friends, round_robin, take_renderable,
};

fn s(x: &str) -> String {
    x.to_string()
}

fn search(limit: Option<usize>, lang: Option<&str>, scope: Option<&str>) -> SearchParams {
    SearchParams { q: s("x"), script: None, scope: scope.map(s), lang: lang.map(s), limit }
}

#[test]
fn search_limits_and_filters() {
    assert_eq!(search(None, None, None).limit_value(), 50);
    assert_eq!(search(Some(0), None, None).limit_value(), 1);
    assert_eq!(search(Some(999), None, None).limit_value(), 200);
    assert_eq!(search(None, Some("yue"), None).lang_filter(), Some(s("yue")));
    assert_eq!(search(None, Some("all"), None).lang_filter(), None);
    assert_eq!(search(None, None, Some("meaning")).scope_value(), Scope::Meaning);
    assert_eq!(SuggestParams { q: s("x"), limit: None }.limit_value(), 8);
    assert_eq!(SuggestParams { q: s("x"), limit: Some(50) }.limit_value(), 20);
    assert_eq!(InterestingParams { limit: Some(100) }.limit_value(), 30);
    assert_eq!(InterestingParams { limit: None }.limit_value(), 8);
}

#[test]
fn entry_ids_parse_dedupe_and_cap() {
    let p = EntriesParams { ids: s(" 8502, 93996,93996,x,-27700,+5, 8502") };
    assert_eq!(p.entry_ids().unwrap(), vec![8502, 93996, -27700, 5, 8502]);
    let many: Vec<String> = (0..60).map(|i| i.to_string()).collect();
    assert_eq!(EntriesParams { ids: many.join(",") }.entry_ids().unwrap().len(), 50);
    let err = EntriesParams { ids: s("a,b,,") }.entry_ids().unwrap_err();
    assert_eq!(err.error, "no valid ids");
}

#[test]
fn i64_parsing_matches_std() {
    for t in ["0", "-0", "+7", "9223372036854775807", "-9223372036854775808", "9223372036854775808", "", "-", "+", "1 2", "٣", "--1", "0042"] {
        assert_eq!(parse_i64(&chars_of(t)), t.parse::<i64>().ok(), "{t}");
    }
}

#[test]
fn showcase_round_robin() {
    assert_eq!(per_bucket(8), 2);
    assert_eq!(per_bucket(1), 1);
    assert_eq!(per_bucket(30), 5);
    // six categories, some short
    let order = round_robin(&vec![2, 0, 1, 2, 2, 2], 2, 8);
    assert_eq!(order, vec![(0, 0), (2, 0), (3, 0), (4, 0), (5, 0), (0, 1), (3, 1), (4, 1)]);
    assert_eq!(round_robin(&vec![1, 1], 3, 10), vec![(0, 0), (1, 0)]);
}

#[test]
fn showcase_skips_unrenderable_headwords() {
    let hw = vec![s("ＬＡＭＰ"), s("峠"), s("凪abc"), s("榊"), s("辻")];
    assert_eq!(take_renderable(&hw, 2), vec![1, 3]);
    assert_eq!(take_renderable(&hw, 9), vec![1, 3, 4]);
}

#[test]
fn showcase_captions() {
    assert_eq!(false_friends().len(), 28);
    assert_eq!(false_friends()[0], "手紙");
    assert_eq!(english_lookalike("マンション"), Some("mansion"));
    assert_eq!(english_lookalike("テレビ"), None);
    assert_eq!(false_friend_why("letter; note", "toilet paper"), "日 letter · 中 toilet paper");
    assert_eq!(
        english_false_friend_why("smart (clothing, etc.); stylish; slim", "smart"),
        "looks like English “smart” · actually means stylish"
    );
    assert_eq!(merge_why("乾 · 幹"), "one simplified form of 乾 · 幹");
    assert_eq!(merge_why("臺 · 檯 · 颱 · 枱"), "one simplified form of 臺 · 檯 · 颱");
}

#[test]
fn proxy_language_codes() {
    assert_eq!(mm_lang("ja"), "ja");
    assert_eq!(mm_lang("yue"), "zh-TW");
    assert_eq!(mm_lang("auto"), "zh-CN");
    assert_eq!(google_lang("zh-Hant"), "zh_TW");
    assert_eq!(google_lang("zh-HK"), "yue-hant-t-i0-und");
    assert_eq!(google_lang("ko"), "ko");
}

#[test]
fn clip_names_are_strict() {
    let c = clip_request("zh", "ma3.mp3").unwrap();
    assert_eq!(c.url, "https://cdn.jsdelivr.net/gh/davinfifield/mp3-chinese-pinyin-sound@master/mp3/ma3.mp3");
    assert_eq!(c.key, "zh/ma3");
    let y = clip_request("yue", "jyut6.mp3").unwrap();
    assert_eq!(y.url, "https://jyutping.org/audio/jyut6.mp3");
    assert_eq!(clip_request("ko", "ma3.mp3").err(), Some(ClipError::UnknownVariety));
    for bad in ["ma3.wav", "Ma3.mp3", "ma.mp3", "3.mp3", "../x1.mp3", "mä3.mp3", "abcdefghijkl3.mp3", ".mp3"] {
        assert_eq!(clip_request("zh", bad).err(), Some(ClipError::BadClip), "{bad}");
    }
    // tone digits: 1..=5 for Mandarin, 1..=6 for Cantonese
    assert!(clip_request("zh", "ma5.mp3").is_ok());
    for bad in ["ma6.mp3", "ma9.mp3", "ma0.mp3"] {
        assert_eq!(clip_request("zh", bad).err(), Some(ClipError::BadClip), "{bad}");
    }
    assert!(clip_request("yue", "ma6.mp3").is_ok());
    assert_eq!(clip_request("yue", "ma7.mp3").err(), Some(ClipError::BadClip));
}

#[test]
fn speech_and_translation_requests() {
    assert_eq!(tts_kana("  はし "), Some(s("はし")));
    assert_eq!(tts_kana("   "), None);
    assert_eq!(tts_kana(&"あ".repeat(33)), None);
    assert_eq!(tts_accent(Some("")), None);
    assert_eq!(tts_accent(Some("2")), Some("2"));
    match mt_request(" 你好 ", None) {
        MtRequest::Translate { q, sl, key } => {
            assert_eq!(q, "你好");
            assert_eq!(sl, "auto");
            assert_eq!(key, "auto|你好");
        }
        MtRequest::Nothing => panic!("expected a translation"),
    }
    assert!(matches!(mt_request("", Some("ja")), MtRequest::Nothing));
    assert!(matches!(mt_request(&"字".repeat(201), Some("ja")), MtRequest::Nothing));
}

#[test]
fn handwriting_candidates_merge() {
    assert_eq!(recognize_languages(&vec![]), vec![s("zh")]);
    assert_eq!(recognize_languages(&vec![s("ja"), s("zh")]), vec![s("ja"), s("zh")]);
    assert_eq!(recognize_limit(None), 20);
    assert_eq!(recognize_limit(Some(0)), 1);
    assert_eq!(recognize_limit(Some(80)), 50);
    let mut m = vec![s("日"), s("曰")];
    merge_candidates(&mut m, &vec![s("目"), s("日"), s("目"), s("白")]);
    assert_eq!(m, vec![s("日"), s("曰"), s("目"), s("白")]);
}

#[test]
fn handwriting_reply_keeps_the_first_candidates() {
    let r = recognize_reply(vec![s("日"), s("曰"), s("目")], vec![s("zh"), s("ja")], 2);
    assert_eq!(r.candidates, vec![s("日"), s("曰")]);
    assert_eq!(r.languages, vec![s("zh"), s("ja")]);
    let r = recognize_reply(vec![s("日")], vec![s("zh")], 20);
    assert_eq!(r.candidates, vec![s("日")]);
}

#[test]
fn false_friends_need_both_glosses_and_a_renderable_headword() {
    let rows = vec![
        (s("手紙"), Some(s("letter")), None),
        (s("ＬＡＭＰ"), Some(s("lamp")), Some(s("lamp"))),
        (s("手紙"), Some(s("letter")), Some(s("toilet paper"))),
        (s("汽車"), Some(s("steam train")), Some(s("car; automobile"))),
        (s("勉強"), Some(s("study")), Some(s("to force oneself"))),
    ];
    let picked = pick_false_friends(&rows, 2);
    assert_eq!(
        picked,
        vec![(2, s("日 letter · 中 toilet paper")), (3, s("日 steam train · 中 car"))]
    );
    // the first shown row is always kept
    assert_eq!(pick_false_friends(&rows, 0).len(), 1);
}

#[test]
fn english_false_friends_need_a_gloss_and_a_lookalike() {
    let rows = vec![
        (s("マンション"), None),
        (s("テレビ"), Some(s("television"))),
        (s("マンション"), Some(s("mansion; apartment"))),
    ];
    let picked = pick_english_false_friends(&rows, 5);
    assert_eq!(picked, vec![(2, s("looks like English “mansion” · actually means apartment"))]);
}

#[test]
fn recognizer_reply_candidates() {
    let items = Some(vec![Some(s("日")), None, Some(s("目"))]);
    assert_eq!(recognized_candidates(Some("SUCCESS"), items.clone()), vec![s("日"), s("目")]);
    assert!(recognized_candidates(Some("FAILED_TO_PARSE_REQUEST_BODY"), items.clone()).is_empty());
    assert!(recognized_candidates(None, items).is_empty());
    assert!(recognized_candidates(Some("SUCCESS"), None).is_empty());
}

#[test]
fn translation_reply_pieces_join_unless_blank() {
    assert_eq!(translation_of(&vec![Some(s("Hello, ")), None, Some(s("world."))]), Some(s("Hello, world.")));
    assert_eq!(translation_of(&vec![Some(s("  ")), Some(s("\n"))]), None);
    assert_eq!(translation_of(&vec![]), None);
    assert_eq!(nonblank(s(" apartment ")), Some(s(" apartment ")));
    assert_eq!(nonblank(s("\u{3000}")), None);
}

#[test]
fn clips_must_be_served_as_audio() {
    assert!(clip_is_audio("audio/mpeg"));
    assert!(!clip_is_audio("text/html; charset=utf-8"));
    assert!(!clip_is_audio(""));
}
