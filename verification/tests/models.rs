use paragraphs::models::{
    title_or_default, Article, ArticleEntry, ArticleId, GetVoicesResponse, IntentEvent,
    NewArticle, Setting, TTSVoice,
};

#[test]
fn voice_label_joins_name_and_language() {
    let voice = TTSVoice {
        id: "v1".to_string(),
        name: "Alex".to_string(),
        lang: "en-US".to_string(),
        disabled: false,
    };
    assert_eq!(voice.label(), "Alex_en-US");
}

#[test]
fn voice_label_of_empty_parts() {
    let voice = TTSVoice {
        id: String::new(),
        name: String::new(),
        lang: String::new(),
        disabled: true,
    };
    assert_eq!(voice.label(), "_");
}

#[test]
fn records_hold_their_fields() {
    let voices = GetVoicesResponse { voices: Vec::new() };
    assert!(voices.voices.is_empty());
    assert_eq!(ArticleId { id: 3 }, ArticleId { id: 3 });
    let article = Article {
        id: 1,
        title: "t".to_string(),
        body: "b".to_string(),
        url: "u".to_string(),
    };
    assert_eq!(article.clone(), article);
    let entry = ArticleEntry { id: 1, title: "t".to_string(), created_at: "now".to_string() };
    assert_eq!(entry.clone().created_at, "now");
    let new = NewArticle { title: "t".to_string(), body: "b".to_string() };
    assert_eq!(new.body, "b");
    let setting = Setting {
        name: "theme".to_string(),
        value: "dark".to_string(),
        default_value: "light".to_string(),
    };
    assert_eq!(setting.default_value, "light");
    assert_ne!(IntentEvent::TextIntent("x".to_string()), IntentEvent::Empty);
}

#[test]
fn an_article_without_title_is_fetched() {
    let mut article = Article {
        id: 1,
        title: String::new(),
        body: String::new(),
        url: "u".to_string(),
    };
    assert!(article.needs_fetch());
    article.title = "T".to_string();
    assert!(!article.needs_fetch());
}

#[test]
fn a_missing_or_empty_title_is_untitled() {
    assert_eq!(title_or_default(None), "Untitled");
    assert_eq!(title_or_default(Some(String::new())), "Untitled");
    assert_eq!(title_or_default(Some("News".to_string())), "News");
    assert_eq!(title_or_default(Some(" ".to_string())), " ");
}
