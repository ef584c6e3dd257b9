use paragraphs::process::process_html;
use paragraphs::segment::SegmentError;

fn run(html: &str, max_length: usize, start: u32) -> (String, u32) {
    let mut id = start;
    let out = process_html(html, max_length, &mut id).unwrap();
    (out, id)
}

#[test]
fn short_paragraph_becomes_one_unit() {
    let (out, next) = run("<p>Hello world</p>", 500, 0);
    assert_eq!(out, "<p id=\"para_0\">Hello world</p>");
    assert_eq!(next, 1);
}

#[test]
fn block_with_inline_child_is_sealed_whole() {
    let (out, next) = run("<div><p>Short.</p><span>Inline</span></div>", 500, 0);
    assert_eq!(out, "<div id=\"para_0\"><p>Short.</p><span>Inline</span></div>");
    assert_eq!(next, 1);
}

#[test]
fn long_text_is_cut_at_word_boundaries() {
    let mut html = String::from("<p>");
    for _ in 0..120 {
        html.push_str("word ");
    }
    html.push_str("</p>");
    let (out, next) = run(&html, 500, 0);
    let first = "word ".repeat(100);
    let second = "word ".repeat(20);
    let expected = format!(
        "<p><span id=\"para_0\">{}</span><span id=\"para_1\">{}</span></p>",
        first, second
    );
    assert_eq!(out, expected);
    assert_eq!(next, 2);
}

#[test]
fn code_is_one_unit_whatever_its_length() {
    let (out, next) = run("<pre><code>line1\nline2</code></pre>", 10, 0);
    assert_eq!(
        out,
        "<pre id=\"para_0\"><code class=\"tts_code_block\">line1\nline2</code></pre>"
    );
    assert_eq!(next, 1);
}

#[test]
fn script_is_passed_through() {
    let (out, next) = run("<script>evil()</script><p>Text</p>", 500, 0);
    assert_eq!(out, "<script>evil()</script><p id=\"para_0\">Text</p>");
    assert_eq!(next, 1);
}

#[test]
fn counter_threads_through_two_fragments() {
    let mut id: u32 = 0;
    let a = process_html("<p>One</p><p>Two</p>", 500, &mut id).unwrap();
    assert_eq!(a, "<p id=\"para_0\">One</p><p id=\"para_1\">Two</p>");
    assert_eq!(id, 2);
    let b = process_html("<p>Three</p>", 500, &mut id).unwrap();
    assert_eq!(b, "<p id=\"para_2\">Three</p>");
    assert_eq!(id, 3);
}

#[test]
fn counter_overflow_is_an_error() {
    let mut id: u32 = u32::MAX;
    let r = process_html("<p>One</p>", 500, &mut id);
    assert_eq!(r, Err(SegmentError::CounterOverflow));
    assert_eq!(id, u32::MAX);
}


#[test]
fn six_hundred_words_are_six_units() {
    let html = format!("<p>{}</p>", "word ".repeat(600));
    let (out, next) = run(&html, 500, 0);
    let mut expected = String::from("<p>");
    for n in 0..6 {
        expected.push_str(&format!("<span id=\"para_{}\">{}</span>", n, "word ".repeat(100)));
    }
    expected.push_str("</p>");
    assert_eq!(out, expected);
    assert_eq!(next, 6);
}

#[test]
fn processing_twice_gives_the_same_markup() {
    let html = "<h1>Title</h1><div><p>One <em>two</em></p>loose text<pre>a\n b</pre></div>";
    let first = run(html, 12, 3);
    let second = run(html, 12, 3);
    assert_eq!(first, second);
}

#[test]
fn empty_markup_stays_empty() {
    let (out, next) = run("", 500, 4);
    assert_eq!(out, "");
    assert_eq!(next, 4);
}

#[test]
fn text_of_white_space_alone_is_still_a_unit() {
    let (out, next) = run(" \n ", 500, 0);
    assert_eq!(out, "<span id=\"para_0\"> \n </span>");
    assert_eq!(next, 1);
}

#[test]
fn bare_text_becomes_units() {
    let (out, next) = run("Hello world", 500, 0);
    assert_eq!(out, "<span id=\"para_0\">Hello world</span>");
    assert_eq!(next, 1);
    let (out, next) = run("Hello world", 6, 0);
    assert_eq!(out, "<span id=\"para_0\">Hello </span><span id=\"para_1\">world</span>");
    assert_eq!(next, 2);
}

#[test]
fn a_long_word_is_a_unit_of_its_own() {
    let (out, next) = run("<p>a incomprehensibilities b</p>", 10, 0);
    assert_eq!(
        out,
        "<p><span id=\"para_0\">a </span><span id=\"para_1\">incomprehensibilities </span><span id=\"para_2\">b</span></p>"
    );
    assert_eq!(next, 3);
}

#[test]
fn white_space_between_blocks_is_kept() {
    let (out, next) = run("<ul>\n  <li>One</li>\n  <li>Two</li>\n</ul>", 500, 0);
    assert_eq!(
        out,
        "<ul>\n  <li id=\"para_0\">One</li>\n  <li id=\"para_1\">Two</li>\n</ul>"
    );
    assert_eq!(next, 2);
}

#[test]
fn attributes_and_comments_are_kept() {
    let (out, next) = run("<p class=\"lead\" data-x=\"1\">Text<!-- note --></p>", 500, 0);
    assert_eq!(out, "<p class=\"lead\" data-x=\"1\" id=\"para_0\">Text<!-- note --></p>");
    assert_eq!(next, 1);
}

#[test]
fn style_and_noscript_are_passed_through() {
    let html = "<style>p { color: red }</style><noscript><p>No script</p></noscript><p>Shown</p>";
    let (out, next) = run(html, 500, 0);
    assert_eq!(
        out,
        "<style>p { color: red }</style><noscript><p>No script</p></noscript><p id=\"para_0\">Shown</p>"
    );
    assert_eq!(next, 1);
}

#[test]
fn code_without_a_break_is_not_marked() {
    let (out, next) = run("<p>Use <code>x + y</code> here</p>", 500, 0);
    assert_eq!(out, "<p id=\"para_0\">Use <code>x + y</code> here</p>");
    assert_eq!(next, 1);
}

#[test]
fn numbers_of_two_digits() {
    let (out, next) = run("<p>a</p><p>b</p>", 500, 9);
    assert_eq!(out, "<p id=\"para_9\">a</p><p id=\"para_10\">b</p>");
    assert_eq!(next, 11);
}

#[test]
fn a_long_block_with_inline_children_is_walked() {
    let (out, next) = run("<p>first part <b>bold</b> last</p>", 10, 0);
    assert_eq!(
        out,
        "<p><span><span id=\"para_0\">first </span><span id=\"para_1\">part </span></span><b><span id=\"para_2\">bold</span></b><span><span id=\"para_3\"> last</span></span></p>"
    );
    assert_eq!(next, 4);
}

#[test]
fn template_contents_are_written_back_unaddressed() {
    let (out, next) = run("<p>a</p><template><p>t</p></template>", 500, 0);
    assert_eq!(out, "<p id=\"para_0\">a</p><template><p>t</p></template>");
    assert_eq!(next, 1);
}

#[test]
fn markup_longer_than_the_parser_takes_is_an_error() {
    let html = " ".repeat((u32::MAX / 4) as usize + 1);
    let mut id: u32 = 5;
    assert_eq!(process_html(&html, 500, &mut id), Err(SegmentError::Parse));
    assert_eq!(id, 5);
}
