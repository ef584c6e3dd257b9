//! Classification of elements by tag name.

use vstd::prelude::*;
use vstd::string::StringExecFns;

verus! {

/// Tags whose subtrees hold nothing to narrate: they are passed through.
pub open spec fn is_skip(tag: Seq<char>) -> bool {
    ||| tag == "script"@
    ||| tag == "style"@
    ||| tag == "noscript"@
    ||| tag == "iframe"@
    ||| tag == "svg"@
    ||| tag == "head"@
    ||| tag == "link"@
    ||| tag == "meta"@
}

/// Tags of code: such an element is one unit, whatever it holds.
pub open spec fn is_code(tag: Seq<char>) -> bool {
    tag == "pre"@ || tag == "code"@
}

/// Tags of structural elements, at which a unit may begin.
pub open spec fn is_block(tag: Seq<char>) -> bool {
    ||| tag == "address"@
    ||| tag == "article"@
    ||| tag == "aside"@
    ||| tag == "blockquote"@
    ||| tag == "body"@
    ||| tag == "canvas"@
    ||| tag == "dd"@
    ||| tag == "div"@
    ||| tag == "dl"@
    ||| tag == "dt"@
    ||| tag == "fieldset"@
    ||| tag == "figcaption"@
    ||| tag == "figure"@
    ||| tag == "footer"@
    ||| tag == "form"@
    ||| tag == "h1"@
    ||| tag == "h2"@
    ||| tag == "h3"@
    ||| tag == "h4"@
    ||| tag == "h5"@
    ||| tag == "h6"@
    ||| tag == "header"@
    ||| tag == "hr"@
    ||| tag == "li"@
    ||| tag == "main"@
    ||| tag == "nav"@
    ||| tag == "noscript"@
    ||| tag == "ol"@
    ||| tag == "p"@
    ||| tag == "pre"@
    ||| tag == "section"@
    ||| tag == "table"@
    ||| tag == "tfoot"@
    ||| tag == "ul"@
    ||| tag == "video"@
}

/// Whether two strings hold the same characters.
pub fn same_text(a: &str, b: &str) -> (r: bool)
    ensures
        r == (a@ == b@),
{
    String::from_str(a) == String::from_str(b)
}

/// Whether elements of the tag `name` are passed through.
pub fn is_skip_tag(name: &str) -> (r: bool)
    ensures
        r == is_skip(name@),
{
    same_text(name, "script") || same_text(name, "style") || same_text(name, "noscript")
        || same_text(name, "iframe") || same_text(name, "svg") || same_text(name, "head")
        || same_text(name, "link") || same_text(name, "meta")
}

/// Whether elements of the tag `name` hold code.
pub fn is_code_tag(name: &str) -> (r: bool)
    ensures
        r == is_code(name@),
{
    same_text(name, "pre") || same_text(name, "code")
}

/// Whether elements of the tag `name` are blocks.
pub fn is_block_element(name: &str) -> (r: bool)
    ensures
        r == is_block(name@),
{
    same_text(name, "address") || same_text(name, "article") || same_text(name, "aside")
        || same_text(name, "blockquote") || same_text(name, "body") || same_text(name, "canvas")
        || same_text(name, "dd") || same_text(name, "div") || same_text(name, "dl") || same_text(
        name,
        "dt",
    ) || same_text(name, "fieldset") || same_text(name, "figcaption") || same_text(name, "figure")
        || same_text(name, "footer") || same_text(name, "form") || same_text(name, "h1")
        || same_text(name, "h2") || same_text(name, "h3") || same_text(name, "h4") || same_text(
        name,
        "h5",
    ) || same_text(name, "h6") || same_text(name, "header") || same_text(name, "hr") || same_text(
        name,
        "li",
    ) || same_text(name, "main") || same_text(name, "nav") || same_text(name, "noscript")
        || same_text(name, "ol") || same_text(name, "p") || same_text(name, "pre") || same_text(
        name,
        "section",
    ) || same_text(name, "table") || same_text(name, "tfoot") || same_text(name, "ul")
        || same_text(name, "video")
}

/// The tag of the wrapper element is on no list.
pub proof fn lemma_span_is_plain()
    ensures
        !is_skip("span"@),
        !is_code("span"@),
        !is_block("span"@),
{
    reveal_strlit("span");
    reveal_strlit("script");
    reveal_strlit("style");
    reveal_strlit("noscript");
    reveal_strlit("iframe");
    reveal_strlit("svg");
    reveal_strlit("head");
    reveal_strlit("link");
    reveal_strlit("meta");
    reveal_strlit("pre");
    reveal_strlit("code");
    reveal_strlit("address");
    reveal_strlit("article");
    reveal_strlit("aside");
    reveal_strlit("blockquote");
    reveal_strlit("body");
    reveal_strlit("canvas");
    reveal_strlit("dd");
    reveal_strlit("div");
    reveal_strlit("dl");
    reveal_strlit("dt");
    reveal_strlit("fieldset");
    reveal_strlit("figcaption");
    reveal_strlit("figure");
    reveal_strlit("footer");
    reveal_strlit("form");
    reveal_strlit("h1");
    reveal_strlit("h2");
    reveal_strlit("h3");
    reveal_strlit("h4");
    reveal_strlit("h5");
    reveal_strlit("h6");
    reveal_strlit("header");
    reveal_strlit("hr");
    reveal_strlit("li");
    reveal_strlit("main");
    reveal_strlit("nav");
    reveal_strlit("ol");
    reveal_strlit("p");
    reveal_strlit("section");
    reveal_strlit("table");
    reveal_strlit("tfoot");
    reveal_strlit("ul");
    reveal_strlit("video");
    let s = "span"@;
    assert(s.len() == 4 && s[0] == 's' && s[1] == 'p');
    assert("head"@[0] == 'h');
    assert("link"@[0] == 'l');
    assert("meta"@[0] == 'm');
    assert("code"@[0] == 'c');
    assert("body"@[0] == 'b');
    assert("form"@[0] == 'f');
    assert("main"@[0] == 'm');
}

/// The tag of the root element is on no list.
pub proof fn lemma_html_is_plain()
    ensures
        !is_skip("html"@),
        !is_code("html"@),
        !is_block("html"@),
{
    reveal_strlit("html");
    reveal_strlit("script");
    reveal_strlit("style");
    reveal_strlit("noscript");
    reveal_strlit("iframe");
    reveal_strlit("svg");
    reveal_strlit("head");
    reveal_strlit("link");
    reveal_strlit("meta");
    reveal_strlit("pre");
    reveal_strlit("code");
    reveal_strlit("address");
    reveal_strlit("article");
    reveal_strlit("aside");
    reveal_strlit("blockquote");
    reveal_strlit("body");
    reveal_strlit("canvas");
    reveal_strlit("dd");
    reveal_strlit("div");
    reveal_strlit("dl");
    reveal_strlit("dt");
    reveal_strlit("fieldset");
    reveal_strlit("figcaption");
    reveal_strlit("figure");
    reveal_strlit("footer");
    reveal_strlit("form");
    reveal_strlit("h1");
    reveal_strlit("h2");
    reveal_strlit("h3");
    reveal_strlit("h4");
    reveal_strlit("h5");
    reveal_strlit("h6");
    reveal_strlit("header");
    reveal_strlit("hr");
    reveal_strlit("li");
    reveal_strlit("main");
    reveal_strlit("nav");
    reveal_strlit("ol");
    reveal_strlit("p");
    reveal_strlit("section");
    reveal_strlit("table");
    reveal_strlit("tfoot");
    reveal_strlit("ul");
    reveal_strlit("video");
    let s = "html"@;
    assert(s.len() == 4 && s[0] == 'h' && s[1] == 't');
    assert("head"@[1] == 'e');
    assert("link"@[0] == 'l');
    assert("meta"@[0] == 'm');
    assert("code"@[0] == 'c');
    assert("body"@[0] == 'b');
    assert("form"@[0] == 'f');
    assert("main"@[0] == 'm');
}

/// No tag of code is a tag to pass through.
pub proof fn lemma_code_is_not_skip(tag: Seq<char>)
    requires
        is_code(tag),
    ensures
        !is_skip(tag),
{
    reveal_strlit("script");
    reveal_strlit("style");
    reveal_strlit("noscript");
    reveal_strlit("iframe");
    reveal_strlit("svg");
    reveal_strlit("head");
    reveal_strlit("link");
    reveal_strlit("meta");
    reveal_strlit("pre");
    reveal_strlit("code");
    assert("pre"@[0] == 'p');
    assert("svg"@[0] == 's');
    assert("code"@[0] == 'c');
    assert("head"@[0] == 'h');
    assert("link"@[0] == 'l');
    assert("meta"@[0] == 'm');
}

} // verus!
