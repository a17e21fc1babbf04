use clawbit::analyzer::EmotionAnalyzer;
use clawbit::json::Json;

const HEAD: &str = "Classify this prompt's emotion. Reply with ONLY a JSON object like {\"emotion\":\"happy\",\"intensity\":0.7}. Emotions: happy (praise, gratitude), sad (frustration, anger), neutral (instructions, questions). Intensity 0-1. ALL CAPS increases intensity by 0.2. Prompt: \"";

#[test]
fn request_quotes_the_prompt() {
    let r = EmotionAnalyzer::analysis_prompt("thanks, great work!");
    assert_eq!(r, format!("{}thanks, great work!\"", HEAD));
}

#[test]
fn request_quotes_at_most_500_characters() {
    let long: String = std::iter::repeat('é').take(700).collect();
    let r = EmotionAnalyzer::analysis_prompt(&long);
    let expected: String = long.chars().take(500).collect();
    assert_eq!(r, format!("{}{}\"", HEAD, expected));
    let exact: String = std::iter::repeat('x').take(500).collect();
    assert_eq!(EmotionAnalyzer::analysis_prompt(&exact), format!("{}{}\"", HEAD, exact));
    assert_eq!(EmotionAnalyzer::analysis_prompt(""), format!("{}\"", HEAD));
}

#[test]
fn reply_object_is_cut_out() {
    let text = "  Sure! {\"emotion\":\"sad\",\"intensity\":0.4} done \n";
    assert_eq!(EmotionAnalyzer::reply_object_span(text), Some((8, 41)));
    assert_eq!(EmotionAnalyzer::reply_object_text(text).as_deref(), Some("{\"emotion\":\"sad\",\"intensity\":0.4}"));
    let nested = "x {\"a\":{\"b\":1}} y } z";
    assert_eq!(EmotionAnalyzer::reply_object_text(nested).as_deref(), Some("{\"a\":{\"b\":1}} y }"));
}

#[test]
fn reply_without_braces() {
    assert_eq!(EmotionAnalyzer::reply_object_span("no json here"), None);
    assert_eq!(EmotionAnalyzer::reply_object_span("only { open"), None);
    assert_eq!(EmotionAnalyzer::reply_object_span("only } close"), None);
    assert_eq!(EmotionAnalyzer::reply_object_text(""), None);
}

#[test]
fn reply_with_braces_out_of_order() {
    assert_eq!(EmotionAnalyzer::reply_object_span("}{"), Some((1, 1)));
    assert_eq!(EmotionAnalyzer::reply_object_text("}{").as_deref(), Some(""));
    assert_eq!(EmotionAnalyzer::reply_object_span("} {"), Some((2, 1)));
}

#[test]
fn reply_members() {
    let reply = Json::Object(vec![
        ("emotion".to_string(), Json::Str("happy".to_string())),
        ("intensity".to_string(), Json::Null),
    ]);
    assert_eq!(EmotionAnalyzer::reply_emotion(&reply).as_deref(), Some("happy"));
    assert_eq!(EmotionAnalyzer::reply_intensity(&reply), None);
    let odd = Json::Object(vec![
        ("emotion".to_string(), Json::Bool(true)),
        ("intensity".to_string(), Json::Str("high".to_string())),
    ]);
    assert_eq!(EmotionAnalyzer::reply_emotion(&odd), None);
    assert_eq!(EmotionAnalyzer::reply_intensity(&odd), None);
    assert_eq!(EmotionAnalyzer::reply_emotion(&Json::Array(vec![])), None);
}

#[test]
fn read_reply_gives_the_digits_serde_writes() {
    let r = EmotionAnalyzer::read_reply("{\"emotion\":\"happy\",\"intensity\":7e-1}");
    assert_eq!(r, Some(("happy".to_string(), Some("0.7".to_string()))));
    let r = EmotionAnalyzer::read_reply("{\"emotion\":\"sad\",\"intensity\":1}");
    assert_eq!(r, Some(("sad".to_string(), Some("1".to_string()))));
}

#[test]
fn read_reply_finds_emotion_and_intensity() {
    let r = EmotionAnalyzer::read_reply("Here: {\"emotion\":\"happy\",\"intensity\":0.7}\n");
    assert_eq!(r, Some(("happy".to_string(), Some("0.7".to_string()))));
    let r = EmotionAnalyzer::read_reply("{\"emotion\":\"sad\"}");
    assert_eq!(r, Some(("sad".to_string(), None)));
    let r = EmotionAnalyzer::read_reply("{\"emotion\":\"sad\",\"intensity\":\"high\"}");
    assert_eq!(r, Some(("sad".to_string(), None)));
}

#[test]
fn read_reply_without_an_emotion() {
    assert_eq!(EmotionAnalyzer::read_reply("no object"), None);
    assert_eq!(EmotionAnalyzer::read_reply("{not json}"), None);
    assert_eq!(EmotionAnalyzer::read_reply("{\"mood\":\"happy\"}"), None);
    assert_eq!(EmotionAnalyzer::read_reply("{\"emotion\":1}"), None);
    assert_eq!(EmotionAnalyzer::read_reply("}{"), None);
}
