use kogu::proxy::{google_lang, recognized_candidates};

fn strs(v: &[&str]) -> Vec<String> {
    v.iter().map(|x| x.to_string()).collect()
}

fn items(v: &[&str]) -> Option<Vec<Option<String>>> {
    Some(v.iter().map(|x| Some(x.to_string())).collect())
}

// Language tags map to Google's codes (edge: traditional + Cantonese).
#[test]
fn payload_language_mapping() {
    assert_eq!(google_lang("zh"), "zh");
    assert_eq!(google_lang("zh_TW"), "zh_TW");
    assert_eq!(google_lang("ja"), "ja");
    assert_eq!(google_lang("yue"), "yue-hant-t-i0-und");
}

// ["SUCCESS", [["req0", ["木", "本", "末"], [], {}]]] yields the ranked candidate list.
#[test]
fn parse_success() {
    assert_eq!(recognized_candidates(Some("SUCCESS"), items(&["木", "本", "末"])), strs(&["木", "本", "末"]));
}

// ["FAILED_TO_PARSE", []]: a non-SUCCESS status yields no candidates.
#[test]
fn parse_failure_status() {
    assert!(recognized_candidates(Some("FAILED_TO_PARSE"), None).is_empty());
}

// null, ["SUCCESS"], ["SUCCESS", [["id"]]], {"unexpected": true}: malformed shapes yield nothing.
#[test]
fn parse_malformed() {
    assert!(recognized_candidates(None, None).is_empty());
    assert!(recognized_candidates(Some("SUCCESS"), None).is_empty());
    assert!(recognized_candidates(None, items(&["木"])).is_empty());
}

// ["SUCCESS", [["id", [], [], {}]]]: an empty candidate array is handled.
#[test]
fn parse_empty_candidates() {
    assert!(recognized_candidates(Some("SUCCESS"), items(&[])).is_empty());
}
