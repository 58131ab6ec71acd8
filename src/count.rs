//! The counting engine: five metrics of a text, computed in one pass.
use vstd::prelude::*;
use unicode_width::UnicodeWidthChar;
use vstd::utf8::{decode_utf8, encode_utf8, encode_utf8_decode_utf8, valid_utf8};

verus! {

/// Columns between tab stops.
pub const TAB_WIDTH: usize = 8;

/// What `UnicodeWidthChar::width` reports for a character: its terminal
/// width in columns, or `None` for a control character.
pub uninterp spec fn char_width_of(c: char) -> Option<usize>;

/// Printable ASCII: U+0020 up to U+007E.
pub open spec fn is_printable_ascii(c: char) -> bool {
    ' ' <= c && c <= '~'
}

/// Relies on `unicode_width::UnicodeWidthChar::width` (the UAX #11 table).
/// Its source answers `Some(1)` on printable ASCII and never a width above 3.
#[verifier::external_body]
fn char_width(c: char) -> (r: Option<usize>)
    ensures
        r == char_width_of(c),
        is_printable_ascii(c) ==> r == Some(1usize),
        r matches Some(w) ==> w <= 3,
{
    c.width()
}

/// Relies on `std::str::from_utf8`: it succeeds exactly on valid UTF-8,
/// and the text then encodes to those bytes.
#[verifier::external_body]
pub(crate) fn utf8_str(b: &[u8]) -> (r: Option<&str>)
    ensures
        r is Some <==> valid_utf8(b@),
        r matches Some(s) ==> encode_utf8(s@) == b@,
{
    std::str::from_utf8(b).ok()
}

/// Columns a character other than a tab or a line end occupies.
/// Printable ASCII takes one column; other characters take what the width
/// table gives them, and those it has no width for take none.
pub open spec fn cell_width(c: char) -> nat {
    if is_printable_ascii(c) {
        1
    } else {
        match char_width_of(c) {
            Some(w) => w as nat,
            None => 0,
        }
    }
}

/// The column reached after `c` when the cursor stands at `col`.
pub open spec fn next_column(col: nat, c: char) -> nat {
    if c == '\t' {
        col + (TAB_WIDTH - col % (TAB_WIDTH as nat)) as nat
    } else {
        col + cell_width(c)
    }
}

/// The column reached by writing `s` from column `col`; a `\n` or `\r`
/// ends the line and nothing after it is written.
pub open spec fn width_from(s: Seq<char>, col: nat) -> nat
    decreases s.len(),
{
    if s.len() == 0 {
        col
    } else if s[0] == '\n' || s[0] == '\r' {
        col
    } else {
        width_from(s.drop_first(), next_column(col, s[0]))
    }
}

/// Display width of the line that `s` starts with.
pub open spec fn line_width(s: Seq<char>) -> nat {
    width_from(s, 0)
}

/// The column after writing `c`, which is no line end, from column `col`.
fn advance(col: usize, c: char) -> (r: usize)
    requires
        col <= usize::MAX - 8,
    ensures
        r == next_column(col as nat, c),
        r <= col + 8,
{
    if c == '\t' {
        col + (TAB_WIDTH - col % TAB_WIDTH)
    } else {
        match char_width(c) {
            Some(w) => col + w,
            None => col,
        }
    }
}

/// Display width of `line`: tabs advance to the next multiple of eight, other
/// characters add their terminal width, and scanning stops at `\n` or `\r`.
pub fn compute_line_len(line: &str) -> (r: usize)
    requires
        line@.len() <= usize::MAX / 8,
    ensures
        r == line_width(line@),
{
    let mut col: usize = 0;
    let mut done = false;
    proof {
        assert(line@.skip(0) =~= line@);
    }
    for ch in it: line.chars()
        invariant
            line@.len() <= usize::MAX / 8,
            it.seq() == line@,
            col <= 8 * it.index(),
            done ==> line_width(line@) == col,
            !done ==> line_width(line@) == width_from(line@.skip(it.index() as int), col as nat),
    {
        if !done {
            proof {
                assert(line@.skip(it.index() as int).drop_first() =~= line@.skip(it.index() + 1));
            }
            if ch == '\n' || ch == '\r' {
                done = true;
            } else {
                col = advance(col, ch);
            }
        }
    }
    proof {
        if !done {
            assert(line@.skip(line@.len() as int).len() == 0);
        }
    }
    col
}

/// The five metrics of one text.
#[derive(Clone, Copy, Debug, PartialEq, Eq, Structural)]
pub struct FileInfo {
    pub lines_counts: usize,
    pub words_counts: usize,
    pub bytes_counts: usize,
    pub chars_counts: usize,
    pub max_line_length: usize,
}

/// The whitespace that separates words: space, tab, LF, VT, FF and CR.
pub open spec fn is_word_space(c: char) -> bool {
    c == ' ' || c == '\t' || c == '\n' || c == '\x0B' || c == '\x0C' || c == '\r'
}

/// Number of maximal runs of non-whitespace characters in `s`.
pub open spec fn word_count(s: Seq<char>) -> nat
    decreases s.len(),
{
    if s.len() == 0 {
        0
    } else {
        let starts_word = !is_word_space(s.last()) && (s.len() == 1 || is_word_space(s[s.len() - 2]));
        word_count(s.drop_last()) + if starts_word { 1nat } else { 0nat }
    }
}

/// Number of `\n` characters in `s`.
pub open spec fn newline_count(s: Seq<char>) -> nat
    decreases s.len(),
{
    if s.len() == 0 {
        0
    } else {
        newline_count(s.drop_last()) + if s.last() == '\n' { 1nat } else { 0nat }
    }
}

/// Number of lines: each `\n` ends one, and trailing text without a `\n`
/// makes one more.
pub open spec fn line_count(s: Seq<char>) -> nat {
    newline_count(s) + if s.len() > 0 && s.last() != '\n' { 1nat } else { 0nat }
}

/// Number of bytes of the UTF-8 encoding of `s`.
pub open spec fn byte_count(s: Seq<char>) -> nat {
    encode_utf8(s).len()
}

/// Position `i` is where a line of `s` begins.
pub open spec fn is_line_start(s: Seq<char>, i: int) -> bool {
    0 <= i < s.len() && (i == 0 || s[i - 1] == '\n')
}

/// `w` is the largest display width among the lines of `s` (0 for no line).
pub open spec fn is_max_line_width(s: Seq<char>, w: nat) -> bool {
    &&& forall|i: int| is_line_start(s, i) ==> line_width(#[trigger] s.skip(i)) <= w
    &&& if s.len() == 0 {
        w == 0
    } else {
        exists|i: int| is_line_start(s, i) && line_width(#[trigger] s.skip(i)) == w
    }
}

/// `info` holds the metrics of `s`.
pub open spec fn counts_of(s: Seq<char>, info: FileInfo) -> bool {
    &&& info.lines_counts == line_count(s)
    &&& info.words_counts == word_count(s)
    &&& info.bytes_counts == byte_count(s)
    &&& info.chars_counts == s.len()
    &&& is_max_line_width(s, info.max_line_length as nat)
}

fn is_word_space_char(c: char) -> (r: bool)
    ensures
        r == is_word_space(c),
{
    c == ' ' || c == '\t' || c == '\n' || c == '\x0B' || c == '\x0C' || c == '\r'
}

/// The metrics of a text followed by another whose metrics are `y`: the
/// counts add and the widest line is the wider of the two.
pub open spec fn joined(x: FileInfo, y: FileInfo) -> FileInfo {
    FileInfo {
        lines_counts: (x.lines_counts + y.lines_counts) as usize,
        words_counts: (x.words_counts + y.words_counts) as usize,
        bytes_counts: (x.bytes_counts + y.bytes_counts) as usize,
        chars_counts: (x.chars_counts + y.chars_counts) as usize,
        max_line_length: if x.max_line_length >= y.max_line_length {
            x.max_line_length
        } else {
            y.max_line_length
        },
    }
}

/// The four sums of `joined(x, y)` fit in a `usize`.
pub open spec fn joinable(x: FileInfo, y: FileInfo) -> bool {
    &&& x.lines_counts + y.lines_counts <= usize::MAX
    &&& x.words_counts + y.words_counts <= usize::MAX
    &&& x.bytes_counts + y.bytes_counts <= usize::MAX
    &&& x.chars_counts + y.chars_counts <= usize::MAX
}

impl FileInfo {
    /// The metrics of a stream whose first lines had `self` and whose next
    /// lines have `next`.
    pub fn followed_by(&self, next: &FileInfo) -> (r: FileInfo)
        requires
            joinable(*self, *next),
        ensures
            r == joined(*self, *next),
    {
        FileInfo {
            lines_counts: self.lines_counts + next.lines_counts,
            words_counts: self.words_counts + next.words_counts,
            bytes_counts: self.bytes_counts + next.bytes_counts,
            chars_counts: self.chars_counts + next.chars_counts,
            max_line_length: if self.max_line_length >= next.max_line_length {
                self.max_line_length
            } else {
                next.max_line_length
            },
        }
    }
}

/// Why a stream could not be counted.
#[derive(Clone, Copy, Debug, PartialEq, Eq, Structural)]
pub enum CountError {
    /// The bytes are not valid UTF-8.
    InvalidUtf8,
}

proof fn lemma_chars_within_bytes(s: Seq<char>)
    ensures
        s.len() <= byte_count(s),
    decreases s.len(),
{
    if s.len() > 0 {
        lemma_chars_within_bytes(s.drop_first());
    }
}

/// Counts the metrics of `bytes`, read as UTF-8 text: lines, words, bytes,
/// characters and the largest display width of a line. Bytes that are not
/// UTF-8 are refused.
pub fn count(bytes: &[u8]) -> (r: Result<FileInfo, CountError>)
    requires
        bytes@.len() <= usize::MAX / 8,
    ensures
        r is Ok <==> valid_utf8(bytes@),
        r matches Ok(info) ==> counts_of(decode_utf8(bytes@), info),
        r matches Ok(info) ==> info.bytes_counts == bytes@.len(),
{
    match utf8_str(bytes) {
        Some(text) => {
            proof {
                encode_utf8_decode_utf8(text@);
                lemma_chars_within_bytes(text@);
            }
            Ok(count_text(text))
        },
        None => Err(CountError::InvalidUtf8),
    }
}

/// Counts lines, words, bytes and characters of `text`, and the largest
/// display width of its lines, in one pass over its characters.
fn count_text(text: &str) -> (r: FileInfo)
    requires
        text@.len() <= usize::MAX / 8,
    ensures
        counts_of(text@, r),
{
    let ghost s = text@;
    let mut newlines: usize = 0;
    let mut words: usize = 0;
    let mut chars: usize = 0;
    let mut best: usize = 0;
    let mut col: usize = 0;
    let mut done = false;
    let mut prev_space = true;
    let mut last_newline = false;
    let ghost mut ls: int = 0;
    proof {
        assert(s.take(0) =~= Seq::<char>::empty());
        assert(s.skip(0) =~= s);
    }
    for ch in it: text.chars()
        invariant
            s == text@,
            s.len() <= usize::MAX / 8,
            it.seq() == s,
            chars == it.index(),
            newlines == newline_count(s.take(it.index() as int)),
            newlines <= it.index(),
            words == word_count(s.take(it.index() as int)),
            words <= it.index(),
            prev_space == (it.index() == 0 || is_word_space(s[it.index() - 1])),
            last_newline == (it.index() > 0 && s[it.index() - 1] == '\n'),
            0 <= ls <= it.index(),
            ls == 0 || s[ls - 1] == '\n',
            forall|j: int| ls <= j < it.index() ==> s[j] != '\n',
            col <= 8 * it.index(),
            best <= 8 * it.index(),
            ls == it.index() ==> col == 0 && !done,
            done ==> line_width(s.skip(ls)) == col,
            !done ==> line_width(s.skip(ls)) == width_from(s.skip(it.index() as int), col as nat),
            forall|j: int| 0 <= j < ls && is_line_start(s, j) ==> line_width(#[trigger] s.skip(j)) <= best,
            (ls == 0 && best == 0) || exists|j: int| 0 <= j < ls && is_line_start(s, j) && line_width(#[trigger] s.skip(j)) == best,
    {
        let ghost i = it.index() as int;
        proof {
            assert(s.take(i + 1).drop_last() =~= s.take(i));
            assert(s.skip(i).drop_first() =~= s.skip(i + 1));
        }
        chars = chars + 1;
        let space = is_word_space_char(ch);
        if !space && prev_space {
            words = words + 1;
        }
        prev_space = space;
        last_newline = ch == '\n';
        if !done {
            if ch == '\n' || ch == '\r' {
                done = true;
            } else {
                col = advance(col, ch);
            }
        }
        if ch == '\n' {
            newlines = newlines + 1;
            if col > best {
                best = col;
            }
            proof {
                assert(is_line_start(s, ls));
                assert(line_width(s.skip(ls)) == col);
                assert forall|j: int| ls < j < i + 1 implies !is_line_start(s, j) by {}
                ls = i + 1;
            }
            col = 0;
            done = false;
        }
    }
    proof {
        assert(s.take(s.len() as int) =~= s);
        if ls < s.len() {
            assert(is_line_start(s, ls));
            assert(s.skip(s.len() as int).len() == 0);
            assert(line_width(s.skip(ls)) == col);
            assert forall|j: int| ls < j < s.len() implies !is_line_start(s, j) by {}
        }
    }
    let lines = if chars > 0 && !last_newline {
        newlines + 1
    } else {
        newlines
    };
    if col > best {
        best = col;
    }
    let bytes = text.as_bytes().len();
    FileInfo {
        lines_counts: lines,
        words_counts: words,
        bytes_counts: bytes,
        chars_counts: chars,
        max_line_length: best,
    }
}

/// `n` tab characters.
pub open spec fn tabs(n: nat) -> Seq<char> {
    Seq::new(n, |i: int| '\t')
}

proof fn lemma_ascii_width_from(p: Seq<char>, col: nat)
    requires
        forall|i: int| 0 <= i < p.len() ==> is_printable_ascii(#[trigger] p[i]),
    ensures
        width_from(p, col) == col + p.len(),
    decreases p.len(),
{
    if p.len() > 0 {
        lemma_ascii_width_from(p.drop_first(), col + 1);
    }
}

proof fn lemma_tabs_width_from(n: nat, p: Seq<char>, k: nat)
    ensures
        width_from(tabs(n) + p, 8 * k) == width_from(p, 8 * (k + n)),
    decreases n,
{
    if n == 0 {
        assert(tabs(0) + p =~= p);
    } else {
        let s = tabs(n) + p;
        assert(s[0] == '\t');
        assert(s.drop_first() =~= tabs((n - 1) as nat) + p);
        assert((8 * k) % 8 == 0) by (nonlinear_arith);
        assert(next_column(8 * k, '\t') == 8 * (k + 1));
        lemma_tabs_width_from((n - 1) as nat, p, k + 1);
    }
}

/// A line of `n` tabs followed by printable ASCII is eight columns per tab
/// plus one per remaining character wide: a single tab gives eight, and
/// printable ASCII alone gives its length.
pub proof fn lemma_tabs_then_ascii_width(n: nat, p: Seq<char>)
    requires
        forall|i: int| 0 <= i < p.len() ==> is_printable_ascii(#[trigger] p[i]),
    ensures
        line_width(tabs(n) + p) == 8 * n + p.len(),
{
    lemma_tabs_width_from(n, p, 0);
    lemma_ascii_width_from(p, 8 * n);
}

/// A line of `n` tabs ended by `\n` is eight columns per tab wide.
pub proof fn lemma_tabs_then_newline_width(n: nat)
    ensures
        line_width(tabs(n) + seq!['\n']) == 8 * n,
{
    lemma_tabs_width_from(n, seq!['\n'], 0);
}

/// UTF-8 byte counts add up over a concatenation.
pub proof fn lemma_byte_count_concat(a: Seq<char>, b: Seq<char>)
    ensures
        byte_count(a + b) == byte_count(a) + byte_count(b),
    decreases a.len(),
{
    if a.len() > 0 {
        assert((a + b).drop_first() =~= a.drop_first() + b);
        lemma_byte_count_concat(a.drop_first(), b);
    } else {
        assert(a + b =~= b);
    }
}

/// Splitting a text anywhere and adding the byte counts of the two parts
/// gives the byte count of the whole.
pub proof fn lemma_bytes_split(a: Seq<char>, b: Seq<char>, x: FileInfo, y: FileInfo, z: FileInfo)
    requires
        counts_of(a, x),
        counts_of(b, y),
        counts_of(a + b, z),
    ensures
        z.bytes_counts == x.bytes_counts + y.bytes_counts,
{
    lemma_byte_count_concat(a, b);
}

/// Text made only of whitespace holds no word.
pub proof fn lemma_whitespace_no_words(s: Seq<char>)
    requires
        forall|i: int| 0 <= i < s.len() ==> is_word_space(#[trigger] s[i]),
    ensures
        word_count(s) == 0,
    decreases s.len(),
{
    if s.len() > 0 {
        lemma_whitespace_no_words(s.drop_last());
    }
}

/// The empty text has every metric zero.
pub proof fn lemma_empty_counts(info: FileInfo)
    requires
        counts_of(Seq::<char>::empty(), info),
    ensures
        info == (FileInfo {
            lines_counts: 0,
            words_counts: 0,
            bytes_counts: 0,
            chars_counts: 0,
            max_line_length: 0,
        }),
{
}

/// Text ending a line (or no text at all).
pub open spec fn ends_line(a: Seq<char>) -> bool {
    a.len() == 0 || a.last() == '\n'
}

proof fn lemma_newlines_concat(a: Seq<char>, b: Seq<char>)
    ensures
        newline_count(a + b) == newline_count(a) + newline_count(b),
    decreases b.len(),
{
    if b.len() == 0 {
        assert(a + b =~= a);
    } else {
        assert((a + b).drop_last() =~= a + b.drop_last());
        lemma_newlines_concat(a, b.drop_last());
    }
}

proof fn lemma_words_concat(a: Seq<char>, b: Seq<char>)
    requires
        a.len() == 0 || is_word_space(a.last()),
    ensures
        word_count(a + b) == word_count(a) + word_count(b),
    decreases b.len(),
{
    if b.len() == 0 {
        assert(a + b =~= a);
    } else {
        assert((a + b).drop_last() =~= a + b.drop_last());
        lemma_words_concat(a, b.drop_last());
        if a.len() == 0 {
            assert(a + b =~= b);
        }
    }
}

proof fn lemma_width_ignores_next_line(p: Seq<char>, q: Seq<char>, col: nat)
    requires
        p.len() > 0,
        p.last() == '\n',
    ensures
        width_from(p + q, col) == width_from(p, col),
    decreases p.len(),
{
    assert((p + q)[0] == p[0]);
    if p[0] != '\n' && p[0] != '\r' {
        assert((p + q).drop_first() =~= p.drop_first() + q);
        lemma_width_ignores_next_line(p.drop_first(), q, next_column(col, p[0]));
    }
}

proof fn lemma_max_width_concat(a: Seq<char>, b: Seq<char>, wa: nat, wb: nat)
    requires
        ends_line(a),
        is_max_line_width(a, wa),
        is_max_line_width(b, wb),
    ensures
        is_max_line_width(a + b, if wa >= wb { wa } else { wb }),
{
    let s = a + b;
    let w = if wa >= wb { wa } else { wb };
    assert forall|i: int| 0 <= i < a.len() implies #[trigger] s.skip(i) == a.skip(i) + b by {
        assert(s.skip(i) =~= a.skip(i) + b);
    }
    assert forall|i: int| a.len() <= i <= s.len() implies #[trigger] s.skip(i) == b.skip(i - a.len()) by {
        assert(s.skip(i) =~= b.skip(i - a.len()));
    }
    assert forall|i: int| is_line_start(a, i) implies line_width(#[trigger] s.skip(i)) == line_width(a.skip(i)) by {
        lemma_width_ignores_next_line(a.skip(i), b, 0);
    }
    assert forall|i: int| is_line_start(s, i) implies line_width(#[trigger] s.skip(i)) <= w by {
        if i < a.len() {
            assert(is_line_start(a, i));
            assert(line_width(a.skip(i)) <= wa);
        } else {
            assert(is_line_start(b, i - a.len()));
            assert(line_width(b.skip(i - a.len())) <= wb);
        }
    }
    if s.len() > 0 {
        if wa >= wb && a.len() > 0 {
            let i = choose|i: int| is_line_start(a, i) && line_width(#[trigger] a.skip(i)) == wa;
            assert(is_line_start(s, i));
            assert(line_width(s.skip(i)) == w);
        } else if b.len() > 0 {
            let j = choose|j: int| is_line_start(b, j) && line_width(#[trigger] b.skip(j)) == wb;
            assert(is_line_start(s, j + a.len()));
            assert(s.skip(j + a.len()) == b.skip(j));
            if wa >= wb {
                assert(a.len() == 0);
            }
            assert(line_width(s.skip(j + a.len())) == w);
        } else {
            assert(b.len() == 0);
            assert(a.len() > 0);
            let i = choose|i: int| is_line_start(a, i) && line_width(#[trigger] a.skip(i)) == wa;
            assert(is_line_start(s, i));
        }
    }
}

/// Counting a text line by line and joining the counts gives the counts of
/// the whole text: for a text `a` that ends a line, and any text `b`, the
/// metrics of `a + b` are those of `a` joined with those of `b`.
pub proof fn lemma_count_concat(a: Seq<char>, b: Seq<char>, x: FileInfo, y: FileInfo)
    requires
        ends_line(a),
        counts_of(a, x),
        counts_of(b, y),
        joinable(x, y),
    ensures
        counts_of(a + b, joined(x, y)),
{
    lemma_newlines_concat(a, b);
    lemma_words_concat(a, b);
    lemma_byte_count_concat(a, b);
    lemma_max_width_concat(a, b, x.max_line_length as nat, y.max_line_length as nat);
    if a.len() == 0 {
        assert(a + b =~= b);
    } else if b.len() == 0 {
        assert(a + b =~= a);
    } else {
        assert((a + b).last() == b.last());
    }
}

} // verus!
