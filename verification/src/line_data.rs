use std::sync::Arc;
use vstd::prelude::*;
use vstd::string::StringSliceAdditionalSpecFns;
use vstd::utf8::*;

verus! {

/// A single line of a file. The line shares the file's text buffer and is
/// described by a byte offset and a byte length into it.
#[derive(Clone, Debug)]
pub struct LineData {
    buffer: Arc<String>,
    offset: usize,
    size: usize,
    first_non_white: usize,
    is_pure_comment: bool,
    is_skipable: bool,
}

/// The UTF-8 bytes of a character sequence.
pub open spec fn utf8_bytes(s: Seq<char>) -> Seq<u8> {
    encode_utf8(s)
}

/// If a boundary `k` of a valid UTF-8 sequence is cut off in front, every
/// later boundary stays a boundary of the rest.
pub proof fn lemma_boundary_suffix(b: Seq<u8>, k: int, j: int)
    requires
        valid_utf8(b),
        is_char_boundary(b, k),
        is_char_boundary(b, j),
        k <= j,
    ensures
        valid_utf8(b.subrange(k, b.len() as int)),
        is_char_boundary(b.subrange(k, b.len() as int), j - k),
    decreases b.len(),
{
    if k == 0 {
        assert(b.subrange(0, b.len() as int) =~= b);
    } else {
        let l = length_of_first_scalar(b);
        let p = pop_first_scalar(b);
        assert(is_char_boundary(p, k - l));
        assert(is_char_boundary(p, j - l));
        lemma_boundary_suffix(p, k - l, j - l);
        assert(p.subrange(k - l, p.len() as int) =~= b.subrange(k, b.len() as int));
    }
}

/// Cutting a valid UTF-8 sequence at a boundary `m` keeps every earlier
/// boundary.
pub proof fn lemma_boundary_prefix(b: Seq<u8>, i: int, m: int)
    requires
        valid_utf8(b),
        is_char_boundary(b, i),
        is_char_boundary(b, m),
        i <= m,
    ensures
        valid_utf8(b.subrange(0, m)),
        is_char_boundary(b.subrange(0, m), i),
    decreases b.len(),
{
    valid_utf8_split(b, m);
    if i != 0 {
        let l = length_of_first_scalar(b);
        let p = pop_first_scalar(b);
        let q = b.subrange(0, m);
        assert(is_char_boundary(p, i - l));
        assert(is_char_boundary(p, m - l));
        lemma_boundary_prefix(p, i - l, m - l);
        assert(q[0] == b[0]);
        assert(length_of_first_scalar(q) == l);
        assert(pop_first_scalar(q) =~= p.subrange(0, m - l));
    }
}

/// Two strings are equal exactly when their UTF-8 bytes are equal.
pub proof fn lemma_utf8_injective(s: Seq<char>, t: Seq<char>)
    ensures
        (utf8_bytes(s) == utf8_bytes(t)) == (s == t),
{
    encode_utf8_decode_utf8(s);
    encode_utf8_decode_utf8(t);
}

/// Every line of the slice points correctly into its buffer.
pub open spec fn lines_wf(lines: Seq<LineData>) -> bool {
    forall|i: int| 0 <= i < lines.len() ==> (#[trigger] lines[i]).wf()
}

/// The texts of all lines of a file.
pub open spec fn all_texts(lines: Seq<LineData>) -> Seq<Seq<char>> {
    lines.map_values(|l: LineData| l.text())
}

/// The number of screen columns of a text: a tab advances to the next
/// multiple of `tab`, every other character takes one column.
pub open spec fn visual_width_of(s: Seq<char>, tab: int) -> int
    decreases s.len(),
{
    if s.len() == 0 {
        0
    } else {
        let w = visual_width_of(s.drop_last(), tab);
        if s.last() == '\t' {
            (w / tab + 1) * tab
        } else {
            w + 1
        }
    }
}

proof fn lemma_tab_step(w: int, t: int)
    requires
        w >= 0,
        t > 0,
    ensures
        w < (w / t + 1) * t,
        w / t + 1 <= (w / t + 1) * t,
{
    assert(w < (w / t + 1) * t) by (nonlinear_arith)
        requires
            w >= 0,
            t > 0,
    ;
    assert(w / t + 1 <= (w / t + 1) * t) by (nonlinear_arith)
        requires
            w >= 0,
            t > 0,
    ;
}

/// The width of a prefix is at most the width of a longer prefix.
proof fn lemma_visual_width_prefix(s: Seq<char>, tab: int, i: int, j: int)
    requires
        0 <= i <= j <= s.len(),
        tab > 0 || !s.contains('\t'),
    ensures
        0 <= visual_width_of(s.take(i), tab) <= visual_width_of(s.take(j), tab),
    decreases j,
{
    if j > 0 {
        assert(s.take(j).drop_last() =~= s.take(j - 1));
        if i < j {
            lemma_visual_width_prefix(s, tab, i, j - 1);
        } else {
            lemma_visual_width_prefix(s, tab, i - 1, j - 1);
        }
        let w = visual_width_of(s.take(j - 1), tab);
        if s.take(j).last() == '\t' {
            assert(s[j - 1] == '\t');
            assert(s.contains('\t'));
            lemma_tab_step(w, tab);
        }
    } else {
        assert(s.take(0) =~= Seq::<char>::empty());
    }
}

/// Rust's `char::is_whitespace`: the characters with the Unicode
/// `White_Space` property.
pub open spec fn is_white_space(c: char) -> bool {
    ||| c == ' '
    ||| '\u{9}' <= c <= '\u{d}'
    ||| c == '\u{85}'
    ||| c == '\u{a0}'
    ||| c == '\u{1680}'
    ||| '\u{2000}' <= c <= '\u{200a}'
    ||| c == '\u{2028}'
    ||| c == '\u{2029}'
    ||| c == '\u{202f}'
    ||| c == '\u{205f}'
    ||| c == '\u{3000}'
}

pub fn is_whitespace_char(c: char) -> (r: bool)
    ensures
        r == is_white_space(c),
{
    c == ' ' || ('\u{9}' <= c && c <= '\u{d}') || c == '\u{85}' || c == '\u{a0}' || c == '\u{1680}'
        || ('\u{2000}' <= c && c <= '\u{200a}') || c == '\u{2028}' || c == '\u{2029}' || c
        == '\u{202f}' || c == '\u{205f}' || c == '\u{3000}'
}

/// The number of whitespace characters at the start of a text.
pub open spec fn leading_whitespace(s: Seq<char>) -> nat
    decreases s.len(),
{
    if s.len() == 0 || !is_white_space(s[0]) {
        0
    } else {
        1 + leading_whitespace(s.drop_first())
    }
}

proof fn lemma_leading_whitespace(s: Seq<char>, n: int)
    requires
        0 <= n <= s.len(),
        forall|j: int| 0 <= j < n ==> is_white_space(#[trigger] s[j]),
        n == s.len() || !is_white_space(s[n]),
    ensures
        leading_whitespace(s) == n,
    decreases n,
{
    if n > 0 {
        lemma_leading_whitespace(s.drop_first(), n - 1);
    }
}

/// Every character takes at least one byte.
proof fn lemma_utf8_len(s: Seq<char>)
    ensures
        s.len() <= utf8_bytes(s).len(),
    decreases s.len(),
{
    if s.len() > 0 {
        lemma_utf8_len(s.drop_first());
    }
}

/// The number of whitespace characters at the start of a line.
fn leading_whitespace_count(line: &str) -> (n: usize)
    requires
        line.spec_bytes().len() <= usize::MAX,
    ensures
        n == leading_whitespace(line@),
{
    proof {
        lemma_utf8_len(line@);
    }
    let ghost t = line@;
    let mut n: usize = 0;
    let mut done = false;
    for c in it: line.chars()
        invariant
            it.seq() == t,
            t.len() <= usize::MAX,
            n <= it.index(),
            !done ==> n == it.index(),
            done ==> n < t.len() && !is_white_space(t[n as int]),
            forall|j: int| 0 <= j < n ==> is_white_space(#[trigger] t[j]),
    {
        if !done {
            if is_whitespace_char(c) {
                n += 1;
            } else {
                done = true;
            }
        }
    }
    proof {
        lemma_leading_whitespace(t, n as int);
    }
    n
}

/// The part of a string between two byte offsets on character boundaries.
fn sub_str(s: &str, start: usize, end: usize) -> (r: &str)
    requires
        start <= end <= s.spec_bytes().len(),
        is_char_boundary(s.spec_bytes(), start as int),
        is_char_boundary(s.spec_bytes(), end as int),
    ensures
        r.spec_bytes() == s.spec_bytes().subrange(start as int, end as int),
        r@ == decode_utf8(s.spec_bytes().subrange(start as int, end as int)),
        utf8_bytes(r@) == s.spec_bytes().subrange(start as int, end as int),
{
    proof {
        encode_utf8_valid_utf8(s@);
        lemma_boundary_prefix(s.spec_bytes(), start as int, end as int);
    }
    let (head, _) = s.split_at(end);
    let (_, part) = head.split_at(start);
    proof {
        assert(part.spec_bytes() =~= s.spec_bytes().subrange(start as int, end as int));
        encode_utf8_decode_utf8(part@);
    }
    part
}

/// The lines describe the text split at its newline bytes: each line is the
/// byte range between two newlines (or the text's start or end), records the
/// number of its leading whitespace characters, and is neither a comment nor
/// skippable.
pub open spec fn splits_text(r: Seq<LineData>, text: Seq<char>) -> bool {
    let b = utf8_bytes(text);
    &&& r.len() > 0
    &&& r[0].byte_offset() == 0
    &&& r.last().byte_offset() + r.last().byte_len() == b.len()
    &&& forall|k: int| 0 <= k < r.len() - 1 ==> {
        &&& (#[trigger] r[k + 1]).byte_offset() == r[k].byte_offset() + r[k].byte_len() + 1
        &&& b[(r[k].byte_offset() + r[k].byte_len()) as int] == 10
    }
    &&& forall|k: int| 0 <= k < r.len() ==> (#[trigger] r[k]).describes_line_of(text)
}

impl LineData {
    /// The line lies in `text`, holds no newline byte, and its other fields
    /// are those that splitting gives it.
    pub open spec fn describes_line_of(&self, text: Seq<char>) -> bool {
        &&& self.buffer_text() == text
        &&& self.wf()
        &&& forall|j: int| 0 <= j < self.byte_len() ==> #[trigger] self.line_bytes()[j] != 10
        &&& self.leading_white() == leading_whitespace(self.text())
        &&& !self.pure_comment()
        &&& !self.skipable()
    }
}

/// In valid UTF-8, the byte after a one-byte character starts a character.
proof fn lemma_boundary_after_ascii(b: Seq<u8>, i: int)
    requires
        valid_utf8(b),
        0 <= i < b.len(),
        is_char_boundary(b, i),
        b[i] < 0x80,
    ensures
        is_char_boundary(b, i + 1),
    decreases b.len(),
{
    let l = length_of_first_scalar(b);
    let p = pop_first_scalar(b);
    if i == 0 {
        assert(l == 1);
        assert(is_char_boundary(p, 0));
    } else {
        assert(is_char_boundary(p, i - l));
        assert(p[i - l] == b[i]);
        lemma_boundary_after_ascii(p, i - l);
    }
}

/// Splits a file's text into lines at `\\n`. Every line shares the buffer.
pub fn parse_lines(content: Arc<String>) -> (lines: Vec<LineData>)
    ensures
        splits_text(lines@, content@),
        lines@.len() == newline_count(content@) + 1,
{
    let s: &str = content.as_str();
    let bytes = s.as_bytes();
    let n = bytes.len();
    let ghost b = s.spec_bytes();
    proof {
        encode_utf8_valid_utf8(s@);
        is_char_boundary_start_end_of_seq(b);
    }
    let mut lines: Vec<LineData> = Vec::new();
    let mut start: usize = 0;
    let mut i: usize = 0;
    while i < n
        invariant
            s@ == content@,
            b == s.spec_bytes(),
            b == bytes@,
            n == b.len(),
            valid_utf8(b),
            start <= i <= n,
            is_char_boundary(b, start as int),
            forall|j: int| start <= j < i ==> b[j] != 10,
            lines@.len() == 0 ==> start == 0,
            lines@.len() > 0 ==> lines@[0].byte_offset() == 0,
            lines@.len() > 0 ==> start == lines@.last().byte_offset() + lines@.last().byte_len() + 1
                && b[(lines@.last().byte_offset() + lines@.last().byte_len()) as int] == 10,
            forall|k: int| 0 <= k < lines@.len() - 1 ==> {
                &&& (#[trigger] lines@[k + 1]).byte_offset() == lines@[k].byte_offset() + lines@[k].byte_len() + 1
                &&& b[(lines@[k].byte_offset() + lines@[k].byte_len()) as int] == 10
            },
            forall|k: int| 0 <= k < lines@.len() ==> (#[trigger] lines@[k]).describes_line_of(content@),
        decreases n - i,
    {
        if bytes[i] == 10 {
            proof {
                is_char_boundary_iff_not_is_continuation_byte(b, i as int);
                lemma_boundary_after_ascii(b, i as int);
            }
            let line = sub_str(s, start, i);
            let fnw = leading_whitespace_count(line);
            let ld = LineData::new(Arc::clone(&content), start, i - start, fnw, false, false);
            proof {
                assert(ld.line_bytes() =~= b.subrange(start as int, i as int));
            }
            let ghost prev = lines@;
            lines.push(ld);
            proof {
                assert forall|k: int| 0 <= k < lines@.len() - 1 implies {
                    &&& (#[trigger] lines@[k + 1]).byte_offset() == lines@[k].byte_offset() + lines@[k].byte_len() + 1
                    &&& b[(lines@[k].byte_offset() + lines@[k].byte_len()) as int] == 10
                } by {
                    if k + 1 < prev.len() {
                        assert(lines@[k + 1] == prev[k + 1]);
                        assert(lines@[k] == prev[k]);
                    } else {
                        assert(lines@[k] == prev.last());
                    }
                }
                assert forall|k: int| 0 <= k < lines@.len() implies (#[trigger] lines@[k]).describes_line_of(content@) by {
                    if k < prev.len() {
                        assert(lines@[k] == prev[k]);
                    }
                }
            }
            start = i + 1;
        }
        i += 1;
    }
    let line = sub_str(s, start, n);
    let fnw = leading_whitespace_count(line);
    let ld = LineData::new(Arc::clone(&content), start, n - start, fnw, false, false);
    proof {
        assert(ld.line_bytes() =~= b.subrange(start as int, n as int));
    }
    let ghost prev = lines@;
    lines.push(ld);
    proof {
        assert forall|k: int| 0 <= k < lines@.len() - 1 implies {
            &&& (#[trigger] lines@[k + 1]).byte_offset() == lines@[k].byte_offset() + lines@[k].byte_len() + 1
            &&& b[(lines@[k].byte_offset() + lines@[k].byte_len()) as int] == 10
        } by {
            if k + 1 < prev.len() {
                assert(lines@[k + 1] == prev[k + 1]);
                assert(lines@[k] == prev[k]);
            } else {
                assert(lines@[k] == prev.last());
            }
        }
        assert forall|k: int| 0 <= k < lines@.len() implies (#[trigger] lines@[k]).describes_line_of(content@) by {
            if k < prev.len() {
                assert(lines@[k] == prev[k]);
            }
        }
        if prev.len() > 0 {
            assert(lines@[0] == prev[0]);
        }
        law_line_count(lines@, content@);
    }
    lines
}

impl LineData {
    /// The text of the buffer that the line points into.
    pub closed spec fn buffer_text(&self) -> Seq<char> {
        self.buffer@
    }

    /// The byte offset of the line in the buffer.
    pub closed spec fn byte_offset(&self) -> nat {
        self.offset as nat
    }

    /// The byte length of the line.
    pub closed spec fn byte_len(&self) -> nat {
        self.size as nat
    }

    /// The number of leading whitespace characters recorded for the line.
    pub closed spec fn leading_white(&self) -> nat {
        self.first_non_white as nat
    }

    pub closed spec fn pure_comment(&self) -> bool {
        self.is_pure_comment
    }

    pub closed spec fn skipable(&self) -> bool {
        self.is_skipable
    }

    /// The line's offset and length fall on character boundaries of the buffer.
    pub open spec fn wf(&self) -> bool {
        let b = utf8_bytes(self.buffer_text());
        &&& self.byte_offset() + self.byte_len() <= b.len()
        &&& self.byte_offset() + self.byte_len() <= usize::MAX
        &&& is_char_boundary(b, self.byte_offset() as int)
        &&& is_char_boundary(b, (self.byte_offset() + self.byte_len()) as int)
    }

    /// The UTF-8 bytes of the line.
    pub open spec fn line_bytes(&self) -> Seq<u8> {
        utf8_bytes(self.buffer_text()).subrange(
            self.byte_offset() as int,
            (self.byte_offset() + self.byte_len()) as int,
        )
    }

    /// The text of the line.
    pub open spec fn text(&self) -> Seq<char> {
        decode_utf8(self.line_bytes())
    }

    pub fn new(
        buffer: Arc<String>,
        offset: usize,
        size: usize,
        first_non_white: usize,
        is_pure_comment: bool,
        is_skipable: bool,
    ) -> (r: Self)
        ensures
            r.buffer_text() == buffer@,
            r.byte_offset() == offset,
            r.byte_len() == size,
            r.leading_white() == first_non_white,
            r.pure_comment() == is_pure_comment,
            r.skipable() == is_skipable,
    {
        Self { buffer, offset, size, first_non_white, is_pure_comment, is_skipable }
    }

    /// Whether the line's byte range lies in its buffer and starts and ends
    /// on character boundaries.
    pub fn is_valid(&self) -> (r: bool)
        ensures
            r == self.wf(),
    {
        let s: &str = self.buffer.as_str();
        let n = s.as_bytes().len();
        if self.size > usize::MAX - self.offset {
            return false;
        }
        let end = self.offset + self.size;
        if end > n {
            return false;
        }
        s.is_char_boundary(self.offset) && s.is_char_boundary(end)
    }

    /// The line's text, a slice of the shared buffer.
    pub fn get_line(&self) -> (r: &str)
        requires
            self.wf(),
        ensures
            r.spec_bytes() == self.line_bytes(),
            r@ == self.text(),
            utf8_bytes(r@) == self.line_bytes(),
    {
        sub_str(self.buffer.as_str(), self.offset, self.offset + self.size)
    }

    /// The number of columns the line takes on screen when a tab advances to
    /// the next multiple of `tab_size` and every other character takes one
    /// column.
    pub fn visual_width(&self, tab_size: usize) -> (r: usize)
        requires
            self.wf(),
            tab_size > 0 || !self.text().contains('\t'),
            visual_width_of(self.text(), tab_size as int) <= usize::MAX,
        ensures
            r == visual_width_of(self.text(), tab_size as int),
    {
        let line = self.get_line();
        let ghost t = line@;
        let mut width: usize = 0;
        for ch in it: line.chars()
            invariant
                it.seq() == t,
                tab_size > 0 || !t.contains('\t'),
                visual_width_of(t, tab_size as int) <= usize::MAX,
                it.index() <= t.len(),
                width == visual_width_of(t.take(it.index() as int), tab_size as int),
        {
            let ghost k = it.index() as int;
            proof {
                assert(t.take(k + 1).drop_last() =~= t.take(k));
                assert(t.take(k + 1).last() == t[k]);
                lemma_visual_width_prefix(t, tab_size as int, k + 1, t.len() as int);
                assert(t.take(t.len() as int) =~= t);
            }
            if ch == '\t' {
                proof {
                    assert(t.contains('\t'));
                    lemma_tab_step(width as int, tab_size as int);
                }
                width = ((width / tab_size) + 1) * tab_size;
            } else {
                width += 1;
            }
        }
        proof {
            assert(t.take(t.len() as int) =~= t);
        }
        width
    }

    pub fn size(&self) -> (r: usize)
        ensures
            r == self.byte_len(),
    {
        self.size
    }

    pub fn first_non_white(&self) -> (r: usize)
        ensures
            r == self.leading_white(),
    {
        self.first_non_white
    }

    pub fn is_white_line(&self) -> (r: bool)
        ensures
            r == (self.leading_white() == 0),
    {
        self.first_non_white == 0
    }

    pub fn is_pure_comment(&self) -> (r: bool)
        ensures
            r == self.pure_comment(),
    {
        self.is_pure_comment
    }

    pub fn is_skipable(&self) -> (r: bool)
        ensures
            r == self.skipable(),
    {
        self.is_skipable
    }
}

/// Whether every line's byte range lies in its buffer on character
/// boundaries.
pub fn lines_valid(lines: &[LineData]) -> (r: bool)
    ensures
        r == lines_wf(lines@),
{
    let mut i: usize = 0;
    while i < lines.len()
        invariant
            i <= lines@.len(),
            forall|k: int| 0 <= k < i ==> (#[trigger] lines@[k]).wf(),
        decreases lines@.len() - i,
    {
        if !lines[i].is_valid() {
            return false;
        }
        i += 1;
    }
    true
}

/// Byte strings joined with a newline byte between each two.
pub open spec fn join_lines(ls: Seq<Seq<u8>>) -> Seq<u8>
    decreases ls.len(),
{
    if ls.len() == 0 {
        Seq::empty()
    } else if ls.len() == 1 {
        ls[0]
    } else {
        join_lines(ls.drop_last()) + seq![10u8] + ls.last()
    }
}

/// The bytes of each line.
pub open spec fn all_line_bytes(r: Seq<LineData>) -> Seq<Seq<u8>> {
    r.map_values(|l: LineData| l.line_bytes())
}

proof fn lemma_rejoin_prefix(r: Seq<LineData>, text: Seq<char>, k: int)
    requires
        splits_text(r, text),
        0 <= k < r.len(),
    ensures
        join_lines(all_line_bytes(r).take(k + 1)) == utf8_bytes(text).subrange(
            0,
            (r[k].byte_offset() + r[k].byte_len()) as int,
        ),
    decreases k,
{
    let b = utf8_bytes(text);
    assert(r[k].describes_line_of(text));
    if k == 0 {
        assert(all_line_bytes(r).take(1)[0] == r[0].line_bytes());
    } else {
        lemma_rejoin_prefix(r, text, k - 1);
        let t = all_line_bytes(r).take(k + 1);
        assert(t.drop_last() =~= all_line_bytes(r).take(k));
        assert(t.last() == r[k].line_bytes());
        assert(r[k].byte_offset() == r[k - 1].byte_offset() + r[k - 1].byte_len() + 1);
        let e = r[k - 1].byte_offset() + r[k - 1].byte_len();
        assert(b[e as int] == 10);
        assert(b.subrange(0, e as int) + seq![10u8] + r[k].line_bytes() =~= b.subrange(
            0,
            (r[k].byte_offset() + r[k].byte_len()) as int,
        ));
    }
}

/// Splitting a text into lines loses nothing: the lines' bytes joined with
/// newline bytes are the text's bytes.
pub proof fn law_lines_rejoin(r: Seq<LineData>, text: Seq<char>)
    requires
        splits_text(r, text),
    ensures
        join_lines(all_line_bytes(r)) == utf8_bytes(text),
{
    let n = r.len() as int;
    lemma_rejoin_prefix(r, text, n - 1);
    assert(all_line_bytes(r).take(n) =~= all_line_bytes(r));
    assert(r.last() == r[n - 1]);
    assert(utf8_bytes(text).subrange(0, utf8_bytes(text).len() as int) =~= utf8_bytes(text));
}

/// The number of newline characters in a text.
pub open spec fn newline_count(s: Seq<char>) -> nat
    decreases s.len(),
{
    if s.len() == 0 {
        0
    } else {
        (if s[0] == '\n' {
            1nat
        } else {
            0nat
        }) + newline_count(s.drop_first())
    }
}

/// The number of newline bytes in a byte string.
pub open spec fn newline_bytes(b: Seq<u8>) -> nat
    decreases b.len(),
{
    if b.len() == 0 {
        0
    } else {
        (if b[0] == 10 {
            1nat
        } else {
            0nat
        }) + newline_bytes(b.drop_first())
    }
}

proof fn lemma_newline_bytes_concat(x: Seq<u8>, y: Seq<u8>)
    ensures
        newline_bytes(x + y) == newline_bytes(x) + newline_bytes(y),
    decreases x.len(),
{
    if x.len() == 0 {
        assert(x + y =~= y);
    } else {
        assert((x + y).drop_first() =~= x.drop_first() + y);
        assert((x + y)[0] == x[0]);
        lemma_newline_bytes_concat(x.drop_first(), y);
    }
}

proof fn lemma_no_newline_bytes(x: Seq<u8>)
    requires
        forall|i: int| 0 <= i < x.len() ==> #[trigger] x[i] != 10,
    ensures
        newline_bytes(x) == 0,
    decreases x.len(),
{
    if x.len() > 0 {
        assert(x[0] != 10);
        assert forall|i: int| 0 <= i < x.drop_first().len() implies #[trigger] x.drop_first()[i] != 10 by {
            assert(x.drop_first()[i] == x[i + 1]);
        }
        lemma_no_newline_bytes(x.drop_first());
    }
}

/// A character's UTF-8 bytes hold a newline byte once if it is a newline,
/// else not at all.
proof fn lemma_scalar_newlines(c: char)
    ensures
        newline_bytes(encode_scalar(c as u32)) == if c == '\n' {
            1nat
        } else {
            0nat
        },
{
    let v = c as u32;
    let e = encode_scalar(v);
    char_u32_cast(c, v);
    char_u32_cast('\n', 10);
    if has_width_1_encoding(v) {
        let b = leading_byte_width_1(v);
        assert((b == 10) == (v == 10)) by (bit_vector)
            requires
                b == (v & 0x7F) as u8,
                v <= 0x7F,
        ;
        assert(e == seq![b]);
        assert(e.drop_first() =~= Seq::<u8>::empty());
        assert(e[0] == b);
        assert(newline_bytes(e) == (if b == 10 {
            1nat
        } else {
            0nat
        }) + newline_bytes(e.drop_first()));
    } else {
        assert(v > 0x7F);
        assert(leading_byte_width_2(v) != 10 && leading_byte_width_3(v) != 10 && leading_byte_width_4(v)
            != 10 && last_continuation_byte(v) != 10 && second_last_continuation_byte(v) != 10
            && third_last_continuation_byte(v) != 10) by (bit_vector);
        assert(c != '\n');
        assert forall|i: int| 0 <= i < e.len() implies #[trigger] e[i] != 10 by {
            if has_width_2_encoding(v) {
                assert(e == seq![leading_byte_width_2(v), last_continuation_byte(v)]);
            } else if has_width_3_encoding(v) {
                assert(e == seq![
                    leading_byte_width_3(v),
                    second_last_continuation_byte(v),
                    last_continuation_byte(v),
                ]);
            } else {
                assert(e == seq![
                    leading_byte_width_4(v),
                    third_last_continuation_byte(v),
                    second_last_continuation_byte(v),
                    last_continuation_byte(v),
                ]);
            }
        }
        lemma_no_newline_bytes(e);
    }
}

/// A text's UTF-8 bytes hold as many newline bytes as it has newlines.
proof fn lemma_encoded_newlines(s: Seq<char>)
    ensures
        newline_bytes(utf8_bytes(s)) == newline_count(s),
    decreases s.len(),
{
    if s.len() > 0 {
        lemma_encoded_newlines(s.drop_first());
        lemma_scalar_newlines(s[0]);
        lemma_newline_bytes_concat(encode_scalar(s[0] as u32), encode_utf8(s.drop_first()));
    }
}

/// Lines joined with newline bytes, none of them holding one, hold one
/// newline byte fewer than there are lines.
proof fn lemma_join_newlines(ls: Seq<Seq<u8>>)
    requires
        ls.len() > 0,
        forall|i: int, j: int| 0 <= i < ls.len() && 0 <= j < ls[i].len() ==> #[trigger] ls[i][j] != 10,
    ensures
        newline_bytes(join_lines(ls)) == ls.len() - 1,
    decreases ls.len(),
{
    let last = ls[ls.len() - 1];
    assert forall|j: int| 0 <= j < last.len() implies #[trigger] last[j] != 10 by {
        assert(ls[ls.len() - 1][j] != 10);
    }
    lemma_no_newline_bytes(last);
    if ls.len() > 1 {
        let p = ls.drop_last();
        assert forall|i: int, j: int| 0 <= i < p.len() && 0 <= j < p[i].len() implies #[trigger] p[i][j]
            != 10 by {
            assert(p[i] == ls[i]);
        }
        lemma_join_newlines(p);
        lemma_newline_bytes_concat(join_lines(p), seq![10u8]);
        lemma_newline_bytes_concat(join_lines(p) + seq![10u8], ls.last());
        assert(seq![10u8].drop_first() =~= Seq::<u8>::empty());
        assert(newline_bytes(seq![10u8]) == 1 + newline_bytes(seq![10u8].drop_first()));
        assert(join_lines(ls) == join_lines(p) + seq![10u8] + ls.last());
        assert(ls.last() == last);
    } else {
        assert(join_lines(ls) == ls[0]);
    }
}

/// Splitting a text gives one line more than the text has newlines.
pub proof fn law_line_count(r: Seq<LineData>, text: Seq<char>)
    requires
        splits_text(r, text),
    ensures
        r.len() == newline_count(text) + 1,
{
    law_lines_rejoin(r, text);
    let ls = all_line_bytes(r);
    assert forall|i: int, j: int| 0 <= i < ls.len() && 0 <= j < ls[i].len() implies #[trigger] ls[i][j]
        != 10 by {
        assert(r[i].describes_line_of(text));
        assert(ls[i] == r[i].line_bytes());
        assert(ls[i].len() == r[i].byte_len());
    }
    lemma_join_newlines(ls);
    lemma_encoded_newlines(text);
}

} // verus!
