//! The records that the application stores and shows.

use vstd::prelude::*;
use vstd::string::StringExecFns;

verus! {

/// A voice of the speech engine.
#[derive(Debug, Clone)]
#[allow(dead_code)]
pub struct TTSVoice {
    pub id: String,
    pub name: String,
    pub lang: String,
    pub disabled: bool,
}

impl TTSVoice {
    /// The name and the language of the voice, joined by an underscore.
    pub fn label(&self) -> (r: String)
        ensures
            r@ == self.name@ + "_"@ + self.lang@,
    {
        let mut out = self.name.clone();
        out.append("_");
        out.append(self.lang.as_str());
        out
    }
}

/// The voices that the speech engine offers.
#[derive(Debug)]
pub struct GetVoicesResponse {
    pub voices: Vec<TTSVoice>,
}

/// The key of a stored article.
#[derive(Debug, Clone, PartialEq)]
pub struct ArticleId {
    pub id: i32,
}

/// A stored article.
#[derive(Debug, Clone, PartialEq)]
pub struct Article {
    pub id: i32,
    pub title: String,
    pub body: String,
    pub url: String,
}

impl Article {
    /// Whether the article has not been fetched yet: it is stored with an
    /// empty title until its page has been read.
    pub fn needs_fetch(&self) -> (r: bool)
        ensures
            r == (self.title@.len() == 0),
    {
        self.title.as_str().is_empty()
    }
}

/// The title to store for a page: the one that was extracted, or `Untitled`
/// where none or an empty one was.
pub fn title_or_default(title: Option<String>) -> (r: String)
    ensures
        r@ == match title {
            Some(t) => if t@.len() == 0 {
                "Untitled"@
            } else {
                t@
            },
            None => "Untitled"@,
        },
{
    match title {
        Some(t) => if t.as_str().is_empty() {
            String::from_str("Untitled")
        } else {
            t
        },
        None => String::from_str("Untitled"),
    }
}

/// An article as the list of articles shows it.
#[derive(Debug, Clone, PartialEq)]
pub struct ArticleEntry {
    pub id: i32,
    pub title: String,
    pub created_at: String,
}

/// An article to be stored.
#[derive(Debug, Clone, PartialEq)]
pub struct NewArticle {
    pub title: String,
    pub body: String,
}

/// A setting with its value and the value it has by default.
#[derive(Debug, Clone, PartialEq)]
pub struct Setting {
    pub name: String,
    pub value: String,
    pub default_value: String,
}

/// What another application shared with this one.
#[derive(Debug, PartialEq)]
pub enum IntentEvent {
    TextIntent(String),
    Empty,
}

} // verus!
