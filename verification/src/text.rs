//! Characters and word-boundary chunking of a run of text.

use vstd::prelude::*;
use vstd::std_specs::iter::IteratorSpec;

verus! {

/// Whether `c` has the Unicode `White_Space` property.
pub open spec fn is_space(c: char) -> bool {
    let u = c as u32;
    ||| 0x09 <= u <= 0x0D
    ||| u == 0x20
    ||| u == 0x85
    ||| u == 0xA0
    ||| u == 0x1680
    ||| 0x2000 <= u <= 0x200A
    ||| u == 0x2028
    ||| u == 0x2029
    ||| u == 0x202F
    ||| u == 0x205F
    ||| u == 0x3000
}

/// Whether every character of `s` is white space.
pub open spec fn is_blank(s: Seq<char>) -> bool {
    forall|i: int| 0 <= i < s.len() ==> is_space(#[trigger] s[i])
}

/// Whether `c` is white space.
pub fn char_is_space(c: char) -> (r: bool)
    ensures
        r == is_space(c),
{
    let u: u32 = c as u32;
    (0x09 <= u && u <= 0x0D) || u == 0x20 || u == 0x85 || u == 0xA0 || u == 0x1680 || (0x2000 <= u
        && u <= 0x200A) || u == 0x2028 || u == 0x2029 || u == 0x202F || u == 0x205F || u == 0x3000
}

/// The characters of `s`, in order.
pub fn chars_of(s: &str) -> (r: Vec<char>)
    ensures
        r@ == s@,
{
    let mut out: Vec<char> = Vec::new();
    let mut it = s.chars();
    loop
        invariant
            it.obeys_prophetic_iter_laws(),
            it.decrease() is Some,
            out@ + it.remaining() == s@,
        decreases it.decrease()->0,
    {
        match it.next() {
            Some(c) => {
                out.push(c);
                assert(out@ + it.remaining() =~= s@);
            },
            None => {
                assert(out@ =~= s@);
                return out;
            },
        }
    }
}

/// Whether `s` holds white space only.
pub fn str_is_blank(s: &str) -> (r: bool)
    ensures
        r == is_blank(s@),
{
    let chars = chars_of(s);
    let mut i: usize = 0;
    while i < chars.len()
        invariant
            i <= chars.len(),
            chars@ == s@,
            forall|j: int| 0 <= j < i ==> is_space(#[trigger] s@[j]),
        decreases chars.len() - i,
    {
        if !char_is_space(chars[i]) {
            return false;
        }
        i += 1;
    }
    true
}

/// One past the first white-space character of `s` at or after `from`, or the
/// length of `s` where there is none: the end of the word that holds `from`.
pub open spec fn token_end(s: Seq<char>, from: int) -> int
    decreases s.len() - from,
{
    if from < 0 || from >= s.len() {
        s.len() as int
    } else if is_space(s[from]) {
        from + 1
    } else {
        token_end(s, from + 1)
    }
}

/// The end of the chunk that starts at `start` and has grown to the word
/// boundary `cur`: words are taken while the chunk stays within `max`
/// characters, and the first word is taken whatever its length.
pub open spec fn chunk_end(s: Seq<char>, start: int, cur: int, max: int) -> int
    decreases s.len() - cur,
{
    if cur < 0 || cur >= s.len() {
        s.len() as int
    } else {
        let next = token_end(s, cur);
        if next <= cur || next > s.len() || (cur > start && next - start > max) {
            cur
        } else {
            chunk_end(s, start, next, max)
        }
    }
}

/// The chunks of `s` from `start` on, in order.
pub open spec fn chunks_from(s: Seq<char>, start: int, max: int) -> Seq<Seq<char>>
    decreases s.len() - start,
{
    if start < 0 || start >= s.len() {
        Seq::empty()
    } else {
        let end = chunk_end(s, start, start, max);
        if end <= start || end > s.len() {
            Seq::empty()
        } else {
            seq![s.subrange(start, end)] + chunks_from(s, end, max)
        }
    }
}

/// The chunks that a run of text is cut into: each ends at a word boundary,
/// and none is longer than `max` characters unless it is a single word.
pub open spec fn chunks(s: Seq<char>, max: int) -> Seq<Seq<char>> {
    chunks_from(s, 0, max)
}

/// A word ends after the place it is entered at, and within the text.
pub proof fn lemma_token_end_bounds(s: Seq<char>, from: int)
    requires
        0 <= from < s.len(),
    ensures
        from < token_end(s, from) <= s.len(),
    decreases s.len() - from,
{
    if !is_space(s[from]) {
        if from + 1 < s.len() {
            lemma_token_end_bounds(s, from + 1);
        } else {
            assert(token_end(s, from + 1) == s.len());
        }
    }
}

/// A chunk ends after its start, within the text, and not before the boundary it has grown to.
pub proof fn lemma_chunk_end_bounds(s: Seq<char>, start: int, cur: int, max: int)
    requires
        0 <= start <= cur <= s.len(),
        start < s.len(),
    ensures
        start < chunk_end(s, start, cur, max) <= s.len(),
        cur <= chunk_end(s, start, cur, max),
    decreases s.len() - cur,
{
    if cur < s.len() {
        lemma_token_end_bounds(s, cur);
        let next = token_end(s, cur);
        if !(cur > start && next - start > max) {
            lemma_chunk_end_bounds(s, start, next, max);
        }
    }
}

/// The views of a vector of strings.
pub open spec fn string_views(v: Seq<String>) -> Seq<Seq<char>> {
    v.map_values(|x: String| x@)
}

fn scan_token(chars: &Vec<char>, from: usize) -> (r: usize)
    requires
        from < chars.len(),
    ensures
        r == token_end(chars@, from as int),
        from < r <= chars.len(),
{
    let mut j: usize = from;
    while j < chars.len() && !char_is_space(chars[j])
        invariant
            from <= j <= chars.len(),
            token_end(chars@, j as int) == token_end(chars@, from as int),
        decreases chars.len() - j,
    {
        j += 1;
    }
    proof {
        lemma_token_end_bounds(chars@, from as int);
    }
    if j < chars.len() {
        j + 1
    } else {
        j
    }
}

fn scan_chunk(chars: &Vec<char>, start: usize, max: usize) -> (r: usize)
    requires
        start < chars.len(),
    ensures
        r == chunk_end(chars@, start as int, start as int, max as int),
        start < r <= chars.len(),
{
    let mut cur: usize = start;
    loop
        invariant
            start <= cur <= chars.len(),
            start < chars.len(),
            chunk_end(chars@, start as int, cur as int, max as int) == chunk_end(
                chars@,
                start as int,
                start as int,
                max as int,
            ),
        decreases chars.len() - cur,
    {
        proof {
            lemma_chunk_end_bounds(chars@, start as int, cur as int, max as int);
        }
        if cur >= chars.len() {
            return cur;
        }
        let next = scan_token(chars, cur);
        if cur > start && next - start > max {
            return cur;
        }
        cur = next;
    }
}

/// Cuts `text` into chunks at word boundaries.
pub fn split_text(text: &str, max: usize) -> (r: Vec<String>)
    ensures
        string_views(r@) == chunks(text@, max as int),
{
    let chars = chars_of(text);
    let mut out: Vec<String> = Vec::new();
    let mut start: usize = 0;
    while start < chars.len()
        invariant
            start <= chars.len(),
            chars@ == text@,
            string_views(out@) + chunks_from(text@, start as int, max as int) == chunks(
                text@,
                max as int,
            ),
        decreases chars.len() - start,
    {
        let end = scan_chunk(&chars, start, max);
        let piece = String::from_str(text.substring_char(start, end));
        let ghost before = out@;
        out.push(piece);
        proof {
            assert(string_views(out@) =~= string_views(before).push(piece@));
            assert(string_views(out@) + chunks_from(text@, end as int, max as int)
                =~= string_views(before) + chunks_from(text@, start as int, max as int));
        }
        start = end;
    }
    proof {
        assert(string_views(out@) + chunks_from(text@, start as int, max as int) =~= string_views(
            out@,
        ));
    }
    out
}

/// The pieces of `cs` joined in order.
pub open spec fn join(cs: Seq<Seq<char>>) -> Seq<char>
    decreases cs.len(),
{
    if cs.len() == 0 {
        Seq::empty()
    } else {
        join(cs.drop_last()) + cs.last()
    }
}

/// Whether `s` is one word: no white space stands before its last character.
pub open spec fn is_single_word(s: Seq<char>) -> bool {
    forall|i: int| 0 <= i < s.len() - 1 ==> !is_space(#[trigger] s[i])
}

/// Joining two sequences of pieces in a row joins what each joins to.
pub proof fn lemma_join_concat(a: Seq<Seq<char>>, b: Seq<Seq<char>>)
    ensures
        join(a + b) == join(a) + join(b),
    decreases b.len(),
{
    if b.len() == 0 {
        assert(a + b =~= a);
        assert(join(a) + join(b) =~= join(a));
    } else {
        assert((a + b).drop_last() =~= a + b.drop_last());
        lemma_join_concat(a, b.drop_last());
        assert(join(a + b) =~= join(a) + join(b));
    }
}

/// No white space stands between `from` and the last character of the word
/// that holds `from`.
pub proof fn lemma_token_is_word(s: Seq<char>, from: int)
    requires
        0 <= from < s.len(),
    ensures
        forall|i: int| from <= i < token_end(s, from) - 1 ==> !is_space(#[trigger] s[i]),
    decreases s.len() - from,
{
    lemma_token_end_bounds(s, from);
    if !is_space(s[from]) && from + 1 < s.len() {
        lemma_token_is_word(s, from + 1);
    }
}

/// A chunk is within `max` characters, or it ends with the first word.
pub proof fn lemma_chunk_end_fits(s: Seq<char>, start: int, cur: int, max: int)
    requires
        0 <= start <= cur <= s.len(),
        start < s.len(),
        cur == start || cur - start <= max || cur == token_end(s, start),
    ensures
        chunk_end(s, start, cur, max) - start <= max || chunk_end(s, start, cur, max) == token_end(
            s,
            start,
        ),
    decreases s.len() - cur,
{
    if cur < s.len() {
        lemma_token_end_bounds(s, cur);
        let next = token_end(s, cur);
        if !(cur > start && next - start > max) {
            lemma_chunk_end_fits(s, start, next, max);
        }
    } else {
        assert(cur == s.len());
    }
}

/// The chunks of a text, joined, are the text from `start` on; none is empty,
/// and each is within `max` characters or a single word.
pub proof fn lemma_chunks_from(s: Seq<char>, start: int, max: int)
    requires
        0 <= start <= s.len(),
    ensures
        join(chunks_from(s, start, max)) == s.subrange(start, s.len() as int),
        forall|i: int|
            0 <= i < chunks_from(s, start, max).len() ==> {
                let c = #[trigger] chunks_from(s, start, max)[i];
                c.len() > 0 && (c.len() <= max || is_single_word(c))
            },
    decreases s.len() - start,
{
    if start < s.len() {
        lemma_chunk_end_bounds(s, start, start, max);
        lemma_chunk_end_fits(s, start, start, max);
        let end = chunk_end(s, start, start, max);
        let head = s.subrange(start, end);
        let rest = chunks_from(s, end, max);
        lemma_chunks_from(s, end, max);
        lemma_join_concat(seq![head], rest);
        assert(seq![head].drop_last() =~= Seq::<Seq<char>>::empty());
        assert(join(Seq::<Seq<char>>::empty()) =~= Seq::<char>::empty());
        assert(seq![head].last() == head);
        assert(join(seq![head]) =~= head);
        assert(head + s.subrange(end, s.len() as int) =~= s.subrange(start, s.len() as int));
        if head.len() > max {
            lemma_token_is_word(s, start);
            assert(is_single_word(head)) by {
                assert forall|i: int| 0 <= i < head.len() - 1 implies !is_space(
                    #[trigger] head[i],
                ) by {
                    assert(head[i] == s[start + i]);
                }
            }
        }
        let all = chunks_from(s, start, max);
        assert(all == seq![head] + rest);
        assert forall|i: int| 0 <= i < all.len() implies {
            let c = #[trigger] all[i];
            c.len() > 0 && (c.len() <= max || is_single_word(c))
        } by {
            if i > 0 {
                assert(all[i] == rest[i - 1]);
            }
        }
    } else {
        assert(s.subrange(start, s.len() as int) =~= Seq::<char>::empty());
    }
}

/// The chunks of a text, joined, are the text; none is empty, and each is
/// within `max` characters unless it is a single word.
pub proof fn lemma_chunks(s: Seq<char>, max: int)
    ensures
        join(chunks(s, max)) == s,
        forall|i: int|
            0 <= i < chunks(s, max).len() ==> {
                let c = #[trigger] chunks(s, max)[i];
                c.len() > 0 && (c.len() <= max || is_single_word(c))
            },
{
    lemma_chunks_from(s, 0, max);
    assert(s.subrange(0, s.len() as int) =~= s);
}

} // verus!
