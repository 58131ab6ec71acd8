//! What is reported: the selected metrics, the names to read, each row's
//! fields and the totals.
use vstd::prelude::*;
use crate::count::FileInfo;

verus! {

/// Width of each right-aligned column.
pub const FIELD_WIDTH: usize = 8;

/// The selected metrics and the names of the inputs; `-` is standard input.
#[derive(Clone, Debug)]
pub struct Config {
    pub files: Vec<String>,
    pub lines: bool,
    pub words: bool,
    pub bytes: bool,
    pub chars: bool,
    pub max_line_length: bool,
}

impl Config {
    /// At least one metric is selected.
    pub open spec fn selects_some(&self) -> bool {
        self.lines || self.words || self.bytes || self.chars || self.max_line_length
    }

    /// A configuration with the given selection; selecting nothing selects
    /// lines, words and bytes.
    pub fn new(
        files: Vec<String>,
        lines: bool,
        words: bool,
        bytes: bool,
        chars: bool,
        max_line_length: bool,
    ) -> (r: Config)
        ensures
            r.files@ == files@,
            r.chars == chars,
            r.max_line_length == max_line_length,
            if lines || words || bytes || chars || max_line_length {
                r.lines == lines && r.words == words && r.bytes == bytes
            } else {
                r.lines && r.words && r.bytes
            },
            r.selects_some(),
    {
        let none = !(lines || words || bytes || chars || max_line_length);
        Config {
            files,
            lines: lines || none,
            words: words || none,
            bytes: bytes || none,
            chars,
            max_line_length,
        }
    }
}

/// The names given on the command line, or standard input alone when none was.
pub fn direct_files(files: Vec<String>) -> (r: Vec<String>)
    ensures
        files.len() == 0 ==> r@.len() == 1 && r[0]@ == seq!['-'],
        files.len() > 0 ==> r@ == files@,
{
    if files.len() == 0 {
        proof {
            reveal_strlit("-");
        }
        let mut v: Vec<String> = Vec::new();
        v.push("-".to_owned());
        v
    } else {
        files
    }
}

/// The decimal digits of `n`, without leading zeros.
pub open spec fn decimal(n: nat) -> Seq<char>
    decreases n,
{
    let d = (('0' as u32) + (n % 10) as u32) as char;
    if n < 10 {
        seq![d]
    } else {
        decimal(n / 10).push(d)
    }
}

/// `s` preceded by spaces up to `w` characters; never cut.
pub open spec fn pad_left(s: Seq<char>, w: nat) -> Seq<char> {
    if s.len() < w {
        Seq::new((w - s.len()) as nat, |i: int| ' ') + s
    } else {
        s
    }
}

/// Relies on `format!` with `{:>width$}`: the decimal form of `value`,
/// right-aligned with spaces in a field of `width` characters. A width
/// given at run time must fit in 16 bits, else formatting panics; this
/// library only asks for its own column width.
#[verifier::external_body]
fn right_aligned(value: usize, width: usize) -> (r: String)
    requires
        width <= FIELD_WIDTH,
    ensures
        r@ == pad_left(decimal(value as nat), width as nat),
{
    format!("{:>width$}", value, width = width)
}

/// The column for one metric: its value right-aligned in eight characters
/// when `cond` selects it, else nothing.
pub fn format_field(cond: bool, value: usize) -> (r: String)
    ensures
        cond ==> r@ == pad_left(decimal(value as nat), FIELD_WIDTH as nat),
        !cond ==> r@ == Seq::<char>::empty(),
{
    if cond {
        right_aligned(value, FIELD_WIDTH)
    } else {
        String::new()
    }
}

/// Pairwise sum of the metrics of the inputs that were read; `None` stands
/// for an input that could not be opened and adds nothing.
pub open spec fn totals(rs: Seq<Option<FileInfo>>) -> (nat, nat, nat, nat, nat)
    decreases rs.len(),
{
    if rs.len() == 0 {
        (0, 0, 0, 0, 0)
    } else {
        let t = totals(rs.drop_last());
        match rs.last() {
            Some(f) => (
                t.0 + f.lines_counts as nat,
                t.1 + f.words_counts as nat,
                t.2 + f.bytes_counts as nat,
                t.3 + f.chars_counts as nat,
                t.4 + f.max_line_length as nat,
            ),
            None => t,
        }
    }
}

/// Every total fits in a `usize`.
pub open spec fn totals_fit(rs: Seq<Option<FileInfo>>) -> bool {
    let t = totals(rs);
    t.0 <= usize::MAX && t.1 <= usize::MAX && t.2 <= usize::MAX && t.3 <= usize::MAX && t.4
        <= usize::MAX
}

/// `info` holds the totals `t`.
pub open spec fn holds_totals(info: FileInfo, t: (nat, nat, nat, nat, nat)) -> bool {
    &&& info.lines_counts == t.0
    &&& info.words_counts == t.1
    &&& info.bytes_counts == t.2
    &&& info.chars_counts == t.3
    &&& info.max_line_length == t.4
}

proof fn lemma_totals_grow(rs: Seq<Option<FileInfo>>, i: int)
    requires
        0 <= i <= rs.len(),
    ensures
        totals(rs.take(i)).0 <= totals(rs).0,
        totals(rs.take(i)).1 <= totals(rs).1,
        totals(rs.take(i)).2 <= totals(rs).2,
        totals(rs.take(i)).3 <= totals(rs).3,
        totals(rs.take(i)).4 <= totals(rs).4,
    decreases rs.len(),
{
    if i < rs.len() {
        assert(rs.drop_last().take(i) =~= rs.take(i));
        lemma_totals_grow(rs.drop_last(), i);
    } else {
        assert(rs.take(i) =~= rs);
    }
}

/// The totals row of a run over `results.len()` resolved inputs: none when
/// there is exactly one input, else the pairwise sum of what was counted.
pub fn total(results: &Vec<Option<FileInfo>>) -> (r: Option<FileInfo>)
    requires
        totals_fit(results@),
    ensures
        r is Some <==> results.len() != 1,
        r matches Some(t) ==> holds_totals(t, totals(results@)),
{
    let mut acc = FileInfo {
        lines_counts: 0,
        words_counts: 0,
        bytes_counts: 0,
        chars_counts: 0,
        max_line_length: 0,
    };
    let mut i: usize = 0;
    proof {
        assert(results@.take(0) =~= Seq::<Option<FileInfo>>::empty());
    }
    while i < results.len()
        invariant
            0 <= i <= results.len(),
            totals_fit(results@),
            holds_totals(acc, totals(results@.take(i as int))),
        decreases results.len() - i,
    {
        proof {
            assert(results@.take(i + 1).drop_last() =~= results@.take(i as int));
            lemma_totals_grow(results@, i + 1);
        }
        match &results[i] {
            Some(f) => {
                acc = FileInfo {
                    lines_counts: acc.lines_counts + f.lines_counts,
                    words_counts: acc.words_counts + f.words_counts,
                    bytes_counts: acc.bytes_counts + f.bytes_counts,
                    chars_counts: acc.chars_counts + f.chars_counts,
                    max_line_length: acc.max_line_length + f.max_line_length,
                };
            },
            None => {},
        }
        i = i + 1;
    }
    proof {
        assert(results@.take(results.len() as int) =~= results@);
    }
    if results.len() == 1 {
        None
    } else {
        Some(acc)
    }
}

} // verus!
