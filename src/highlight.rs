//! Highlighting of the occurrences of the word under the cursor within the visible
//! part of a buffer.
use vstd::prelude::*;
use vstd::utf8::valid_utf8;

verus! {

/// A highlight color, as red, green and blue.
#[derive(Clone, Copy, Debug, PartialEq, Eq, Structural)]
pub struct Color {
    pub r: u8,
    pub g: u8,
    pub b: u8,
}

/// A highlighted byte range of the buffer.
#[derive(Debug)]
pub struct HighlightSpan {
    pub range: std::ops::Range<usize>,
    pub color: Color,
}

/// Highlights the occurrences of the word under the cursor.
#[derive(Clone, Copy, Debug)]
pub struct SemanticHighlighter {
    /// The color of occurrence highlights.
    pub highlight_color: Color,
    /// The shortest word that is highlighted.
    pub min_word_length: usize,
    /// Whether highlighting is on.
    pub enabled: bool,
}

/// Whether byte `b` belongs to a word: an ASCII letter or digit, or `_`.
pub open spec fn is_word_byte(b: u8) -> bool {
    (48 <= b <= 57) || (65 <= b <= 90) || (97 <= b <= 122) || b == 95
}

/// Where the word that ends at `p` starts: `p` moved back over word bytes.
pub open spec fn word_start(buf: Seq<u8>, p: int) -> int
    decreases p,
{
    if p <= 0 || p > buf.len() || !is_word_byte(buf[p - 1]) {
        p
    } else {
        word_start(buf, p - 1)
    }
}

/// Where the word that continues at `p` ends: `p` moved forward over word bytes.
pub open spec fn word_end(buf: Seq<u8>, p: int) -> int
    decreases buf.len() - p,
{
    if p < 0 || p >= buf.len() || !is_word_byte(buf[p]) {
        p
    } else {
        word_end(buf, p + 1)
    }
}

/// The range of the word under a cursor at `pos`: the word whose byte the cursor
/// is on, or, at the end of the buffer, the word just before it.
pub open spec fn word_at(buf: Seq<u8>, pos: int) -> Option<(int, int)> {
    let len = buf.len() as int;
    if pos > len {
        None
    } else {
        let on_word = if pos < len {
            is_word_byte(buf[pos])
        } else if pos > 0 {
            is_word_byte(buf[pos - 1])
        } else {
            false
        };
        if !on_word && pos > 0 {
            if is_word_byte(buf[pos - 1]) && pos >= len && word_start(buf, pos - 1) < pos {
                Some((word_start(buf, pos - 1), pos))
            } else {
                None
            }
        } else if !on_word {
            None
        } else if word_start(buf, pos) < word_end(buf, pos) {
            Some((word_start(buf, pos), word_end(buf, pos)))
        } else {
            None
        }
    }
}

/// The occurrence at `i`, `wl` bytes long, is a whole word: no word byte touches it
/// on either side.
pub open spec fn whole_word_at(buf: Seq<u8>, i: int, wl: int) -> bool {
    (i == 0 || !is_word_byte(buf[i - 1])) && (i + wl >= buf.len() || !is_word_byte(buf[i + wl]))
}

/// Where the search for a `wl`-byte word around the viewport starting at `start`
/// begins.
pub open spec fn window_start(start: int, wl: int) -> int {
    if start >= wl {
        start - wl
    } else {
        0
    }
}

/// Where the search for a `wl`-byte word around the viewport ending at `end` ends.
pub open spec fn window_end(len: int, end: int, wl: int) -> int {
    if end + wl < len {
        end + wl
    } else {
        len
    }
}

/// `word` occurs at `i` as a whole word, inside the search window, overlapping the
/// viewport `start..end`.
pub open spec fn counts_at(buf: Seq<u8>, word: Seq<u8>, start: int, end: int, i: int) -> bool {
    let wl = word.len() as int;
    &&& window_start(start, wl) <= i
    &&& i + wl <= window_end(buf.len() as int, end, wl)
    &&& buf.subrange(i, i + wl) == word
    &&& whole_word_at(buf, i, wl)
    &&& i < end
    &&& i + wl > start
}

/// The occurrences that start among the first `k` positions of the window, in
/// order.
pub open spec fn occurrences_upto(buf: Seq<u8>, word: Seq<u8>, start: int, end: int, k: int) -> Seq<int>
    decreases k,
{
    if k <= 0 {
        Seq::empty()
    } else {
        let prev = occurrences_upto(buf, word, start, end, k - 1);
        let i = window_start(start, word.len() as int) + k - 1;
        if counts_at(buf, word, start, end, i) {
            prev.push(i)
        } else {
            prev
        }
    }
}

/// The starts of the whole-word occurrences of `word` that overlap the viewport
/// `start..end`, in order; none where the search window is not valid UTF-8.
pub open spec fn occurrences(buf: Seq<u8>, word: Seq<u8>, start: int, end: int) -> Seq<int> {
    let ws = window_start(start, word.len() as int);
    let we = window_end(buf.len() as int, end, word.len() as int);
    if ws >= we || !valid_utf8(buf.subrange(ws, we)) {
        Seq::empty()
    } else {
        occurrences_upto(buf, word, start, end, we - ws)
    }
}

/// Relies on `std::str::from_utf8`: it succeeds exactly on valid UTF-8.
#[verifier::external_body]
fn is_valid_utf8(bytes: &[u8]) -> (r: bool)
    ensures
        r == valid_utf8(bytes@),
{
    std::str::from_utf8(bytes).is_ok()
}

/// Whether byte `b` belongs to a word.
pub fn is_word_char(b: u8) -> (r: bool)
    ensures
        r == is_word_byte(b),
{
    (48 <= b && b <= 57) || (65 <= b && b <= 90) || (97 <= b && b <= 122) || b == 95
}

/// Where the word that ends at `pos` starts.
pub fn find_word_start(buf: &[u8], pos: usize) -> (r: usize)
    requires
        pos <= buf@.len(),
    ensures
        r == word_start(buf@, pos as int),
{
    let mut p = pos;
    while p > 0 && is_word_char(buf[p - 1])
        invariant
            p <= pos <= buf@.len(),
            word_start(buf@, pos as int) == word_start(buf@, p as int),
        decreases p,
    {
        p = p - 1;
    }
    p
}

/// Where the word that continues at `pos` ends.
pub fn find_word_end(buf: &[u8], pos: usize) -> (r: usize)
    requires
        pos <= buf@.len(),
    ensures
        r == word_end(buf@, pos as int),
{
    let mut p = pos;
    while p < buf.len() && is_word_char(buf[p])
        invariant
            pos <= p <= buf@.len(),
            word_end(buf@, pos as int) == word_end(buf@, p as int),
        decreases buf@.len() - p,
    {
        p = p + 1;
    }
    p
}

proof fn lemma_word_bounds(buf: Seq<u8>, p: int)
    requires
        0 <= p <= buf.len(),
    ensures
        0 <= word_start(buf, p) <= p,
        p <= word_end(buf, p) <= buf.len(),
{
    lemma_word_start_bound(buf, p);
    lemma_word_end_bound(buf, p);
}

proof fn lemma_word_start_bound(buf: Seq<u8>, p: int)
    requires
        0 <= p <= buf.len(),
    ensures
        0 <= word_start(buf, p) <= p,
    decreases p,
{
    if p > 0 && is_word_byte(buf[p - 1]) {
        lemma_word_start_bound(buf, p - 1);
    }
}

proof fn lemma_word_end_bound(buf: Seq<u8>, p: int)
    requires
        0 <= p <= buf.len(),
    ensures
        p <= word_end(buf, p) <= buf.len(),
    decreases buf.len() - p,
{
    if p < buf.len() && is_word_byte(buf[p]) {
        lemma_word_end_bound(buf, p + 1);
    }
}

impl SemanticHighlighter {
    /// A highlighter that is on, highlights words of two bytes or more, in the
    /// default color.
    pub fn new() -> (r: SemanticHighlighter)
        ensures
            r.highlight_color == (Color { r: 60, g: 60, b: 80 }),
            r.min_word_length == 2,
            r.enabled,
    {
        SemanticHighlighter {
            highlight_color: Color { r: 60, g: 60, b: 80 },
            min_word_length: 2,
            enabled: true,
        }
    }

    /// The same highlighter with another color.
    pub fn with_color(self, color: Color) -> (r: SemanticHighlighter)
        ensures
            r == (SemanticHighlighter { highlight_color: color, ..self }),
    {
        SemanticHighlighter { highlight_color: color, ..self }
    }

    /// The same highlighter with another shortest word length.
    pub fn with_min_length(self, length: usize) -> (r: SemanticHighlighter)
        ensures
            r == (SemanticHighlighter { min_word_length: length, ..self }),
    {
        SemanticHighlighter { min_word_length: length, ..self }
    }

    /// The byte range of the word under a cursor at `position`, if any.
    pub fn get_word_at_position(&self, buf: &[u8], position: usize) -> (r: Option<std::ops::Range<usize>>)
        ensures
            match word_at(buf@, position as int) {
                Some((s, e)) => r is Some && r->0.start == s && r->0.end == e,
                None => r is None,
            },
    {
        let len = buf.len();
        if position > len {
            return None;
        }
        let on_word = if position < len {
            is_word_char(buf[position])
        } else if position > 0 {
            is_word_char(buf[position - 1])
        } else {
            false
        };
        if !on_word && position > 0 {
            let after_word = is_word_char(buf[position - 1]);
            if after_word && position >= len {
                let start = find_word_start(buf, position - 1);
                if start < position {
                    return Some(start..position);
                }
            }
            return None;
        }
        if !on_word {
            return None;
        }
        let start = find_word_start(buf, position);
        let end = find_word_end(buf, position);
        if start < end {
            Some(start..end)
        } else {
            None
        }
    }

    /// The byte ranges of the whole-word occurrences of `word` that overlap the
    /// viewport `start..end`, in order.
    pub fn find_occurrences_in_range(&self, buf: &[u8], word: &[u8], start: usize, end: usize) -> (r: Vec<
        std::ops::Range<usize>,
    >)
        requires
            word@.len() > 0,
        ensures
            r@.len() == occurrences(buf@, word@, start as int, end as int).len(),
            forall|k: int|
                0 <= k < r@.len() ==> #[trigger] r@[k].start == occurrences(
                    buf@,
                    word@,
                    start as int,
                    end as int,
                )[k] && r@[k].end == r@[k].start + word@.len(),
    {
        let mut found: Vec<std::ops::Range<usize>> = Vec::new();
        let wl = word.len();
        let len = buf.len();
        let ws: usize = if start >= wl {
            start - wl
        } else {
            0
        };
        let we: usize = if end < len && wl < len - end {
            end + wl
        } else {
            len
        };
        if ws >= we || !is_valid_utf8(&buf[ws..we]) {
            return found;
        }
        let ghost occ = occurrences_upto(buf@, word@, start as int, end as int, (we - ws) as int);
        let mut i: usize = ws;
        while i < we
            invariant
                ws <= i <= we <= len,
                len == buf@.len(),
                wl == word@.len(),
                wl > 0,
                ws == window_start(start as int, wl as int),
                we == window_end(len as int, end as int, wl as int),
                found@.len() == occurrences_upto(buf@, word@, start as int, end as int, i - ws).len(),
                forall|k: int|
                    0 <= k < found@.len() ==> #[trigger] found@[k].start == occurrences_upto(
                        buf@,
                        word@,
                        start as int,
                        end as int,
                        i - ws,
                    )[k] && found@[k].end == found@[k].start + wl,
            decreases we - i,
        {
            let ghost prev = occurrences_upto(buf@, word@, start as int, end as int, i - ws);
            let counts = wl <= we - i && self.matches_whole_word(buf, word, i) && i < end && i + wl
                > start;
            if counts {
                found.push(i..i + wl);
            }
            proof {
                let next = occurrences_upto(buf@, word@, start as int, end as int, i + 1 - ws);
                assert(counts == counts_at(buf@, word@, start as int, end as int, i as int));
                if counts {
                    assert(next == prev.push(i as int));
                    assert forall|k: int| 0 <= k < found@.len() implies #[trigger] found@[k].start
                        == next[k] && found@[k].end == found@[k].start + wl by {
                        if k < prev.len() {
                        }
                    }
                } else {
                    assert(next == prev);
                }
            }
            i = i + 1;
        }
        found
    }

    fn matches_whole_word(&self, buf: &[u8], word: &[u8], i: usize) -> (r: bool)
        requires
            i + word@.len() <= buf@.len(),
        ensures
            r == (buf@.subrange(i as int, i + word@.len()) == word@ && whole_word_at(
                buf@,
                i as int,
                word@.len() as int,
            )),
    {
        let wl = word.len();
        let n = buf.len();
        let mut k: usize = 0;
        while k < wl
            invariant
                n == buf@.len(),
                wl == word@.len(),
                i + wl <= buf@.len(),
                0 <= k <= wl,
                forall|j: int| 0 <= j < k ==> buf@[i + j] == word@[j],
            decreases wl - k,
        {
            if buf[i + k] != word[k] {
                assert(buf@.subrange(i as int, i + wl)[k as int] != word@[k as int]);
                return false;
            }
            k = k + 1;
        }
        assert(buf@.subrange(i as int, i + wl) =~= word@);
        let before_ok = i == 0 || !is_word_char(buf[i - 1]);
        let after_ok = i + wl >= buf.len() || !is_word_char(buf[i + wl]);
        before_ok && after_ok
    }

    /// The highlights of the occurrences, within the viewport
    /// `viewport_start..viewport_end`, of the word under a cursor at
    /// `cursor_position`: none when highlighting is off, when the cursor is on no
    /// word, or when the word is shorter than the least length.
    pub fn highlight_occurrences(
        &self,
        buf: &[u8],
        cursor_position: usize,
        viewport_start: usize,
        viewport_end: usize,
    ) -> (r: Vec<HighlightSpan>)
        ensures
            !self.enabled ==> r@.len() == 0,
            self.enabled ==> match word_at(buf@, cursor_position as int) {
                None => r@.len() == 0,
                Some((s, e)) => if e - s < self.min_word_length {
                    r@.len() == 0
                } else {
                    let occ = occurrences(
                        buf@,
                        buf@.subrange(s, e),
                        viewport_start as int,
                        viewport_end as int,
                    );
                    &&& r@.len() == occ.len()
                    &&& forall|k: int|
                        0 <= k < r@.len() ==> #[trigger] r@[k].range.start == occ[k] && r@[k].range.end
                            == occ[k] + (e - s) && r@[k].color == self.highlight_color
                },
            },
    {
        let mut spans: Vec<HighlightSpan> = Vec::new();
        if !self.enabled {
            return spans;
        }
        let range = match self.get_word_at_position(buf, cursor_position) {
            Some(range) => range,
            None => {
                return spans;
            },
        };
        proof {
            lemma_word_bounds(buf@, cursor_position as int);
            if cursor_position > 0 {
                lemma_word_bounds(buf@, cursor_position - 1);
            }
        }
        let word = &buf[range.start..range.end];
        if word.len() < self.min_word_length {
            return spans;
        }
        let ranges = self.find_occurrences_in_range(buf, word, viewport_start, viewport_end);
        let mut k: usize = 0;
        while k < ranges.len()
            invariant
                0 <= k <= ranges@.len(),
                spans@.len() == k,
                forall|j: int|
                    0 <= j < k ==> #[trigger] spans@[j].range == ranges@[j] && spans@[j].color
                        == self.highlight_color,
            decreases ranges@.len() - k,
        {
            let r = &ranges[k];
            spans.push(HighlightSpan { range: r.start..r.end, color: self.highlight_color });
            k = k + 1;
        }
        spans
    }
}


impl Default for SemanticHighlighter {
    fn default() -> (r: SemanticHighlighter)
        ensures
            r.highlight_color == (Color { r: 60, g: 60, b: 80 }),
            r.min_word_length == 2,
            r.enabled,
    {
        SemanticHighlighter::new()
    }
}

} // verus!
