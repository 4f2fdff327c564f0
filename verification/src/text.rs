//! Lines, blank space and markup in the text of a label.
//!
//! A text is read as a sequence of characters. Lengths and offsets count bytes of its
//! UTF-8 form, since that is how matches are reported and how wide a line is estimated.

use crate::search::MatchSpan;
use vstd::prelude::*;
use vstd::utf8::encode_scalar;
use vstd::utf8::encode_utf8;

verus! {

/// Whether a character is white space, as Unicode's `White_Space` property has it.
pub open spec fn is_white_space(c: char) -> bool {
    let v = c as u32;
    ||| 0x09 <= v <= 0x0D
    ||| v == 0x20
    ||| v == 0x85
    ||| v == 0xA0
    ||| v == 0x1680
    ||| 0x2000 <= v <= 0x200A
    ||| v == 0x2028
    ||| v == 0x2029
    ||| v == 0x202F
    ||| v == 0x205F
    ||| v == 0x3000
}

/// Whether a text holds nothing but white space.
pub open spec fn blank(text: Seq<char>) -> bool {
    forall|i: int| 0 <= i < text.len() ==> is_white_space(#[trigger] text[i])
}

/// The number of bytes that a character takes in UTF-8.
pub open spec fn utf8_width(c: char) -> nat {
    let v = c as u32;
    if v < 0x80 {
        1
    } else if v < 0x800 {
        2
    } else if v < 0x10000 {
        3
    } else {
        4
    }
}

/// The number of bytes that a text takes in UTF-8.
pub open spec fn byte_len(text: Seq<char>) -> nat
    decreases text.len(),
{
    if text.len() == 0 {
        0
    } else {
        byte_len(text.drop_last()) + utf8_width(text.last())
    }
}

/// A line without the carriage return that may end it.
pub open spec fn strip_cr(line: Seq<char>) -> Seq<char> {
    if line.len() > 0 && line.last() == '\r' {
        line.drop_last()
    } else {
        line
    }
}

/// The index of the first line feed in a text, or the length of a text without one.
pub open spec fn first_newline(text: Seq<char>) -> int
    decreases text.len(),
{
    if text.len() == 0 || text[0] == '\n' {
        0
    } else {
        1 + first_newline(text.drop_first())
    }
}

/// The lines of a text. A line feed ends a line, and so does a carriage return directly
/// followed by one. What follows the last line feed is a line too, unless it is empty.
pub open spec fn lines(text: Seq<char>) -> Seq<Seq<char>>
    decreases text.len(),
{
    if text.len() == 0 {
        Seq::empty()
    } else {
        let k = first_newline(text);
        if 0 <= k < text.len() {
            seq![strip_cr(text.take(k))] + lines(text.skip(k + 1))
        } else {
            seq![text]
        }
    }
}

/// What the layout of a page needs to know of a line of text.
#[derive(Clone, Copy, Debug, PartialEq, Eq, Structural)]
pub struct LineMetrics {
    /// The length of the line in bytes.
    pub len: usize,
    /// Whether the line holds nothing but white space. Such a line is not shown.
    pub blank: bool,
}

/// The metrics of a line.
pub open spec fn metrics(line: Seq<char>) -> LineMetrics {
    LineMetrics { len: byte_len(line) as usize, blank: blank(line) }
}

/// The metrics of each of the given lines.
pub open spec fn all_metrics(lines: Seq<Seq<char>>) -> Seq<LineMetrics> {
    lines.map_values(|line: Seq<char>| metrics(line))
}

/// The metrics of the lines of a text.
pub open spec fn text_metrics(text: Seq<char>) -> Seq<LineMetrics> {
    all_metrics(lines(text))
}

/// Where a match lies among the lines of a text.
#[derive(Clone, Copy, Debug, PartialEq, Eq, Structural)]
pub struct MatchPlace {
    /// The index of the line in which the match starts.
    pub line: usize,
    /// The byte offset in that line at which the match starts.
    pub start: usize,
    /// The byte offset in that line at which the match ends, or the line ends before it.
    pub end: usize,
}

/// The byte offset at which line `i` starts, each line before it counted one byte
/// longer than it is, for the line feed that ended it.
pub open spec fn line_offset(lens: Seq<LineMetrics>, i: int) -> int
    decreases i,
{
    if i <= 0 {
        0
    } else {
        line_offset(lens, i - 1) + lens[i - 1].len + 1
    }
}

/// Whether `place` is where `span` lies among lines of the given metrics: in the line
/// that its start falls into, from there to its end or the end of that line.
pub open spec fn place_of(lines: Seq<LineMetrics>, span: MatchSpan, place: MatchPlace) -> bool {
    &&& place.line < lines.len()
    &&& line_offset(lines, place.line as int) <= span.start < line_offset(lines, place.line + 1)
    &&& place.start == span.start - line_offset(lines, place.line as int)
    &&& place.end == smaller(place.start + span.len, lines[place.line as int].len as int)
}

/// The smaller of two numbers.
pub open spec fn smaller(a: int, b: int) -> int {
    if a <= b {
        a
    } else {
        b
    }
}

/// What stands for a character in markup.
pub open spec fn escaped_char(c: char) -> Seq<char> {
    if c == '&' {
        seq!['&', 'a', 'm', 'p', ';']
    } else if c == '<' {
        seq!['&', 'l', 't', ';']
    } else if c == '>' {
        seq!['&', 'g', 't', ';']
    } else if c == '"' {
        seq!['&', 'q', 'u', 'o', 't', ';']
    } else if c == '\'' {
        seq!['&', '#', '3', '9', ';']
    } else {
        seq![c]
    }
}

/// A text with each character that markup reads as its own replaced by what stands for it.
pub open spec fn escaped(text: Seq<char>) -> Seq<char>
    decreases text.len(),
{
    if text.len() == 0 {
        Seq::empty()
    } else {
        escaped(text.drop_last()) + escaped_char(text.last())
    }
}

/// Whether a character neither opens nor closes markup or a quoted value.
pub open spec fn is_plain(c: char) -> bool {
    c != '<' && c != '>' && c != '"' && c != '\''
}

/// Escaped text holds none of the characters that open or close markup or a quoted
/// value.
pub proof fn lemma_escaped_is_plain(text: Seq<char>)
    ensures
        forall|i: int| 0 <= i < escaped(text).len() ==> is_plain(#[trigger] escaped(text)[i]),
    decreases text.len(),
{
    if text.len() > 0 {
        lemma_escaped_is_plain(text.drop_last());
        let head = escaped(text.drop_last());
        let tail = escaped_char(text.last());
        assert forall|i: int| 0 <= i < escaped(text).len() implies is_plain(#[trigger] escaped(text)[i]) by {
            if i < head.len() {
                assert(escaped(text)[i] == head[i]);
            } else {
                assert(escaped(text)[i] == tail[i - head.len()]);
            }
        }
    }
}

/// `String::push` appends one character.
pub assume_specification[ String::push ](s: &mut String, c: char)
    ensures
        final(s)@ == old(s)@.push(c),
;

/// The byte length of a text is the length of its UTF-8 form.
pub proof fn lemma_byte_len_encoded(text: Seq<char>)
    ensures
        byte_len(text) == encode_utf8(text).len(),
    decreases text.len(),
{
    if text.len() > 0 {
        lemma_encode_push(text.drop_last(), text.last());
        assert(text.drop_last().push(text.last()) == text);
        lemma_byte_len_encoded(text.drop_last());
        vstd::utf8::char_is_scalar(text.last());
    }
}

/// The UTF-8 form of a text grows at its end as the text does.
proof fn lemma_encode_push(text: Seq<char>, c: char)
    ensures
        encode_utf8(text.push(c)) == encode_utf8(text) + encode_scalar(c as u32),
    decreases text.len(),
{
    if text.len() == 0 {
        assert(text.push(c).drop_first() == Seq::<char>::empty());
        assert(encode_utf8(text.push(c)) == encode_scalar(c as u32) + encode_utf8(Seq::<char>::empty()));
    } else {
        assert(text.push(c).drop_first() == text.drop_first().push(c));
        lemma_encode_push(text.drop_first(), c);
        assert(encode_utf8(text.push(c)) == encode_scalar(text[0] as u32) + (encode_utf8(text.drop_first())
            + encode_scalar(c as u32)));
    }
}

/// A longer prefix of a text has no fewer bytes than a shorter one.
proof fn lemma_byte_len_grows(text: Seq<char>, i: int, j: int)
    requires
        0 <= i <= j <= text.len(),
    ensures
        byte_len(text.take(i)) <= byte_len(text.take(j)),
    decreases j - i,
{
    if i < j {
        lemma_byte_len_grows(text, i, j - 1);
        assert(text.take(j).drop_last() == text.take(j - 1));
    }
}

/// The bytes of a stretch of text are those up to its end less those up to its start.
proof fn lemma_byte_len_stretch(text: Seq<char>, i: int, j: int)
    requires
        0 <= i <= j <= text.len(),
    ensures
        byte_len(text.subrange(i, j)) == byte_len(text.take(j)) - byte_len(text.take(i)),
    decreases j - i,
{
    if i < j {
        lemma_byte_len_stretch(text, i, j - 1);
        assert(text.take(j).drop_last() == text.take(j - 1));
        assert(text.subrange(i, j).drop_last() == text.subrange(i, j - 1));
    } else {
        assert(text.subrange(i, j) == Seq::<char>::empty());
    }
}

/// The first line feed is where a line feed stands and none stands before.
proof fn lemma_first_newline(text: Seq<char>, k: int)
    requires
        0 <= k <= text.len(),
        forall|j: int| 0 <= j < k ==> text[j] != '\n',
        k < text.len() ==> text[k] == '\n',
    ensures
        first_newline(text) == k,
    decreases k,
{
    if k > 0 {
        lemma_first_newline(text.drop_first(), k - 1);
    }
}

/// Whether a character is white space.
pub fn white_space(c: char) -> (b: bool)
    ensures
        b == is_white_space(c),
{
    let v = c as u32;
    (0x09 <= v && v <= 0x0D) || v == 0x20 || v == 0x85 || v == 0xA0 || v == 0x1680 || (0x2000 <= v && v
        <= 0x200A) || v == 0x2028 || v == 0x2029 || v == 0x202F || v == 0x205F || v == 0x3000
}

/// The number of bytes that a character takes in UTF-8.
fn width_of(c: char) -> (w: usize)
    ensures
        w == utf8_width(c),
        1 <= w <= 4,
{
    let v = c as u32;
    if v < 0x80 {
        1
    } else if v < 0x800 {
        2
    } else if v < 0x10000 {
        3
    } else {
        4
    }
}

/// Whether a text holds nothing but white space.
pub fn is_blank(text: &str) -> (b: bool)
    ensures
        b == blank(text@),
{
    for c in it: text.chars()
        invariant
            it.seq() == text@,
            blank(text@.take(it.index() as int)),
    {
        if !white_space(c) {
            assert(!is_white_space(text@[it.index() as int]));
            return false;
        }
        assert forall|i: int| 0 <= i < it.index() + 1 implies is_white_space(
            #[trigger] text@.take(it.index() + 1)[i],
        ) by {
            if i < it.index() {
                assert(text@.take(it.index() as int)[i] == text@[i]);
            }
        }
    }
    assert(text@.take(text@.len() as int) == text@);
    true
}

/// The blank space of a line is not changed by the carriage return that may end it.
proof fn lemma_strip_cr_metrics(line: Seq<char>)
    ensures
        blank(strip_cr(line)) == blank(line),
        byte_len(strip_cr(line)) == (if line.len() > 0 && line.last() == '\r' {
            byte_len(line) - 1
        } else {
            byte_len(line) as int
        }),
{
    if line.len() > 0 && line.last() == '\r' {
        let rest = line.drop_last();
        if blank(rest) {
            assert forall|i: int| 0 <= i < line.len() implies is_white_space(#[trigger] line[i]) by {
                if i < rest.len() {
                    assert(rest[i] == line[i]);
                }
            }
        } else {
            let i = choose|i: int| 0 <= i < rest.len() && !is_white_space(#[trigger] rest[i]);
            assert(!is_white_space(line[i]));
        }
    }
}

/// A text that grows by a character stays blank if it was and the character is white space.
proof fn lemma_blank_push(text: Seq<char>, c: char)
    ensures
        blank(text.push(c)) == (blank(text) && is_white_space(c)),
{
    let longer = text.push(c);
    if blank(text) && is_white_space(c) {
        assert forall|i: int| 0 <= i < longer.len() implies is_white_space(#[trigger] longer[i]) by {
            if i < text.len() {
                assert(longer[i] == text[i]);
            }
        }
    } else if !is_white_space(c) {
        assert(!is_white_space(longer[text.len() as int]));
    } else {
        let i = choose|i: int| 0 <= i < text.len() && !is_white_space(#[trigger] text[i]);
        assert(!is_white_space(longer[i]));
    }
}

/// What reading one more character does to the line that is being read.
proof fn lemma_scan_char(text: Seq<char>, line_start: int, i: int)
    requires
        0 <= line_start <= i < text.len(),
    ensures
        byte_len(text.subrange(line_start, i + 1)) == byte_len(text.subrange(line_start, i)) + utf8_width(
            text[i],
        ),
        blank(text.subrange(line_start, i + 1)) == (blank(text.subrange(line_start, i)) && is_white_space(
            text[i],
        )),
        byte_len(text.subrange(line_start, i + 1)) <= byte_len(text),
{
    let line = text.subrange(line_start, i);
    lemma_byte_len_stretch(text, line_start, i + 1);
    lemma_byte_len_grows(text, i + 1, text.len() as int);
    assert(text.take(text.len() as int) == text);
    assert(text.subrange(line_start, i + 1) == line.push(text[i]));
    assert(line.push(text[i]).drop_last() == line);
    lemma_blank_push(line, text[i]);
}

/// What a line feed does: the line that was being read is done, and the next one starts
/// behind the line feed.
proof fn lemma_scan_newline(text: Seq<char>, done: Seq<Seq<char>>, line_start: int, i: int)
    requires
        0 <= line_start <= i < text.len(),
        text[i] == '\n',
        forall|j: int| line_start <= j < i ==> text[j] != '\n',
        lines(text) == done + lines(text.skip(line_start)),
    ensures
        lines(text) == done.push(strip_cr(text.subrange(line_start, i))) + lines(text.skip(i + 1)),
        all_metrics(done.push(strip_cr(text.subrange(line_start, i)))) == all_metrics(done).push(
            metrics(strip_cr(text.subrange(line_start, i))),
        ),
        text.subrange(i + 1, i + 1) == Seq::<char>::empty(),
{
    let line = text.subrange(line_start, i);
    let rest = text.skip(line_start);
    lemma_first_newline(rest, i - line_start);
    assert(rest.take(i - line_start) == line);
    assert(rest.skip(i - line_start + 1) == text.skip(i + 1));
    assert(lines(rest) == seq![strip_cr(line)] + lines(text.skip(i + 1)));
    assert(done + (seq![strip_cr(line)] + lines(text.skip(i + 1))) == done.push(strip_cr(line)) + lines(
        text.skip(i + 1),
    ));
    assert(all_metrics(done.push(strip_cr(line))) == all_metrics(done).push(metrics(strip_cr(line))));
}

/// What the end of the text does: what was read of a line is the last line.
proof fn lemma_scan_end(text: Seq<char>, done: Seq<Seq<char>>, line_start: int)
    requires
        0 <= line_start <= text.len(),
        forall|j: int| line_start <= j < text.len() ==> text[j] != '\n',
        lines(text) == done + lines(text.skip(line_start)),
    ensures
        line_start == text.len() ==> lines(text) == done,
        line_start < text.len() ==> lines(text) == done.push(text.subrange(line_start, text.len() as int)),
        all_metrics(done.push(text.subrange(line_start, text.len() as int))) == all_metrics(done).push(
            metrics(text.subrange(line_start, text.len() as int)),
        ),
{
    let rest = text.skip(line_start);
    lemma_first_newline(rest, rest.len() as int);
    assert(rest == text.subrange(line_start, text.len() as int));
    if line_start < text.len() {
        assert(lines(rest) == seq![rest]);
        assert(done + seq![rest] == done.push(rest));
    } else {
        assert(done + Seq::<Seq<char>>::empty() == done);
    }
    assert(all_metrics(done.push(rest)) == all_metrics(done).push(metrics(rest)));
}

/// The metrics of the lines of a text, line by line.
pub fn line_metrics(text: &str) -> (found: Vec<LineMetrics>)
    ensures
        found@ == text_metrics(text@),
{
    let total = text.as_bytes().len();
    proof {
        lemma_byte_len_encoded(text@);
    }
    let mut found: Vec<LineMetrics> = Vec::new();
    let ghost mut done: Seq<Seq<char>> = Seq::empty();
    let ghost mut line_start: int = 0;
    let mut len: usize = 0;
    let mut all_blank = true;
    let mut after_cr = false;
    let mut open = false;
    proof {
        assert(text@.skip(0) == text@);
        assert(text@.subrange(0, 0) == Seq::<char>::empty());
        assert(all_metrics(done) == Seq::<LineMetrics>::empty());
    }
    for c in it: text.chars()
        invariant
            it.seq() == text@,
            total == byte_len(text@),
            0 <= line_start <= it.index(),
            forall|j: int| line_start <= j < it.index() ==> text@[j] != '\n',
            lines(text@) == done + lines(text@.skip(line_start)),
            found@ == all_metrics(done),
            len == byte_len(text@.subrange(line_start, it.index() as int)),
            all_blank == blank(text@.subrange(line_start, it.index() as int)),
            after_cr == (it.index() > line_start && text@[it.index() - 1] == '\r'),
            open == (it.index() > line_start),
    {
        let ghost i = it.index() as int;
        let ghost line = text@.subrange(line_start, i);
        proof {
            lemma_scan_char(text@, line_start, i);
        }
        if c == '\n' {
            proof {
                lemma_scan_newline(text@, done, line_start, i);
                lemma_strip_cr_metrics(line);
            }
            let shown = if after_cr { len - 1 } else { len };
            found.push(LineMetrics { len: shown, blank: all_blank });
            proof {
                done = done.push(strip_cr(line));
                line_start = i + 1;
            }
            len = 0;
            all_blank = true;
            after_cr = false;
            open = false;
        } else {
            len = len + width_of(c);
            all_blank = all_blank && white_space(c);
            after_cr = c == '\r';
            open = true;
        }
    }
    proof {
        lemma_scan_end(text@, done, line_start);
    }
    if open {
        found.push(LineMetrics { len, blank: all_blank });
    }
    found
}

/// Lines start at rising offsets.
proof fn lemma_line_offset_grows(lines: Seq<LineMetrics>, i: int, j: int)
    requires
        0 <= i <= j,
    ensures
        line_offset(lines, i) <= line_offset(lines, j),
    decreases j - i,
{
    if i < j {
        lemma_line_offset_grows(lines, i, j - 1);
    }
}

/// Finds the line in which a match starts. The offsets of a match count one byte for
/// the end of each line before it. A match that starts behind the last line has no place.
pub fn locate_match(lines: &Vec<LineMetrics>, span: MatchSpan) -> (place: Option<MatchPlace>)
    ensures
        place is None <==> line_offset(lines@, lines@.len() as int) <= span.start,
        place is Some ==> place_of(lines@, span, place->0),
{
    let mut consumed: usize = 0;
    let mut i: usize = 0;
    while i < lines.len()
        invariant
            i <= lines@.len(),
            consumed == line_offset(lines@, i as int),
            consumed <= span.start,
        decreases lines@.len() - i,
    {
        proof {
            lemma_line_offset_grows(lines@, i + 1, lines@.len() as int);
        }
        let len = lines[i].len;
        let rel = span.start - consumed;
        if rel <= len {
            let end = if span.len >= len - rel { len } else { rel + span.len };
            return Some(MatchPlace { line: i, start: rel, end });
        }
        consumed = consumed + len + 1;
        i = i + 1;
    }
    None
}

/// A line that is shown: its index among the lines of the text and its length in bytes.
#[derive(Clone, Copy, Debug, PartialEq, Eq, Structural)]
pub struct VisibleLine {
    pub index: usize,
    pub len: usize,
}

/// The lines among the first `upto` that are shown: those that are not blank.
pub open spec fn shown(lines: Seq<LineMetrics>, upto: int) -> Seq<VisibleLine>
    decreases upto,
{
    if upto <= 0 {
        Seq::empty()
    } else if lines[upto - 1].blank {
        shown(lines, upto - 1)
    } else {
        shown(lines, upto - 1).push(VisibleLine { index: (upto - 1) as usize, len: lines[upto - 1].len })
    }
}

/// The lines of a text that are shown, each with its place among all lines: a blank
/// line takes up its row but shows nothing.
pub fn visible_lines(text: &str) -> (found: Vec<VisibleLine>)
    ensures
        found@ == shown(text_metrics(text@), text_metrics(text@).len() as int),
{
    let all = line_metrics(text);
    let mut found: Vec<VisibleLine> = Vec::new();
    let mut i: usize = 0;
    while i < all.len()
        invariant
            i <= all@.len(),
            all@ == text_metrics(text@),
            found@ == shown(all@, i as int),
        decreases all@.len() - i,
    {
        if !all[i].blank {
            found.push(VisibleLine { index: i, len: all[i].len });
        }
        i = i + 1;
    }
    found
}

/// Whether `place` is what `locate_match` gives for `span` among the given lines.
pub open spec fn located(lines: Seq<LineMetrics>, span: MatchSpan, place: Option<MatchPlace>) -> bool {
    &&& place is None <==> line_offset(lines, lines.len() as int) <= span.start
    &&& place is Some ==> place_of(lines, span, place->0)
}

/// Finds, for each match in a text, the line in which it starts.
pub fn place_matches(text: &str, spans: &Vec<MatchSpan>) -> (places: Vec<Option<MatchPlace>>)
    ensures
        places@.len() == spans@.len(),
        forall|i: int|
            0 <= i < spans@.len() ==> located(text_metrics(text@), spans@[i], #[trigger] places@[i]),
{
    let found = line_metrics(text);
    let mut places: Vec<Option<MatchPlace>> = Vec::new();
    let mut i: usize = 0;
    while i < spans.len()
        invariant
            i <= spans@.len(),
            places@.len() == i,
            found@ == text_metrics(text@),
            forall|j: int| 0 <= j < i ==> located(found@, spans@[j], #[trigger] places@[j]),
        decreases spans@.len() - i,
    {
        places.push(locate_match(&found, spans[i]));
        i = i + 1;
    }
    places
}

/// Replaces the characters that markup reads as its own: `&`, `<`, `>` and both quotes.
pub fn escape_markup(text: &str) -> (out: String)
    ensures
        out@ == escaped(text@),
{
    let mut out = String::new();
    proof {
        assert(text@.take(0) == Seq::<char>::empty());
        reveal_strlit("&amp;");
        reveal_strlit("&lt;");
        reveal_strlit("&gt;");
        reveal_strlit("&quot;");
        reveal_strlit("&#39;");
    }
    for c in it: text.chars()
        invariant
            it.seq() == text@,
            out@ == escaped(text@.take(it.index() as int)),
            "&amp;"@ == seq!['&', 'a', 'm', 'p', ';'],
            "&lt;"@ == seq!['&', 'l', 't', ';'],
            "&gt;"@ == seq!['&', 'g', 't', ';'],
            "&quot;"@ == seq!['&', 'q', 'u', 'o', 't', ';'],
            "&#39;"@ == seq!['&', '#', '3', '9', ';'],
    {
        proof {
            assert(text@.take(it.index() + 1).drop_last() == text@.take(it.index() as int));
            assert(text@.take(it.index() + 1).last() == c);
        }
        let ghost before = out@;
        if c == '&' {
            out.append("&amp;");
        } else if c == '<' {
            out.append("&lt;");
        } else if c == '>' {
            out.append("&gt;");
        } else if c == '"' {
            out.append("&quot;");
        } else if c == '\'' {
            out.append("&#39;");
        } else {
            out.push(c);
            assert(before.push(c) == before + seq![c]);
        }
    }
    proof {
        assert(text@.take(text@.len() as int) == text@);
    }
    out
}

} // verus!
