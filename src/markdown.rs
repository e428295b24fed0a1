//! Finding the fenced ```` ```mermaid ```` blocks of a Markdown document.

use vstd::prelude::*;

verus! {

/// Characters with the Unicode White_Space property.
pub open spec fn is_white_space(c: char) -> bool {
    let u = c as u32;
    ||| 0x9 <= u <= 0xd
    ||| u == 0x20
    ||| u == 0x85
    ||| u == 0xa0
    ||| u == 0x1680
    ||| 0x2000 <= u <= 0x200a
    ||| u == 0x2028
    ||| u == 0x2029
    ||| u == 0x202f
    ||| u == 0x205f
    ||| u == 0x3000
}

/// `s` without its leading White_Space characters.
pub open spec fn trim_start_of(s: Seq<char>) -> Seq<char>
    decreases s.len(),
{
    if s.len() > 0 && is_white_space(s[0]) {
        trim_start_of(s.drop_first())
    } else {
        s
    }
}

/// Relies on `str::trim_start`, which removes leading characters with the White_Space
/// property (`char::is_whitespace`).
#[verifier::external_body]
fn trim_start(s: &str) -> (r: &str)
    ensures
        r@ == trim_start_of(s@),
{
    s.trim_start()
}

pub open spec fn has_prefix(s: Seq<char>, p: Seq<char>) -> bool {
    p.len() <= s.len() && s.subrange(0, p.len() as int) == p
}

/// Relies on `str::starts_with` with a string pattern: `p` is a prefix of `s`.
#[verifier::external_body]
fn starts_with(s: &str, p: &str) -> (r: bool)
    ensures
        r == has_prefix(s@, p@),
{
    s.starts_with(p)
}

/// How a line takes part in fencing.
#[derive(Debug, Clone, Copy, PartialEq, Eq, Structural)]
pub enum LineKind {
    /// Opens a Mermaid block (and, inside a block, closes it like any fence).
    MermaidFence,
    /// Any other code fence.
    Fence,
    Text,
}

pub open spec fn kind_of(trimmed: Seq<char>) -> LineKind {
    if has_prefix(trimmed, "```mermaid"@) {
        LineKind::MermaidFence
    } else if has_prefix(trimmed, "```"@) {
        LineKind::Fence
    } else {
        LineKind::Text
    }
}

/// The kind of a line, given the line without its leading whitespace.
pub fn line_kind(trimmed: &str) -> (r: LineKind)
    ensures
        r == kind_of(trimmed@),
{
    if starts_with(trimmed, "```mermaid") {
        LineKind::MermaidFence
    } else if starts_with(trimmed, "```") {
        LineKind::Fence
    } else {
        LineKind::Text
    }
}

/// A Mermaid block: `start_line` is the opening fence's line number, counted from
/// one; the diagram is lines `first..end` (indices counted from zero).
#[derive(Debug, Clone, Copy, PartialEq, Eq, Structural)]
pub struct MermaidBlock {
    pub start_line: usize,
    pub first: usize,
    pub end: usize,
}

/// The blocks of a document, or the line number of a block left open.
#[derive(Debug, Clone, PartialEq, Eq)]
pub enum BlockScan {
    Closed(Vec<MermaidBlock>),
    Unclosed { start_line: usize },
}

/// After the first `n` lines: the index of the line that opened the current block,
/// if one is open, and the blocks closed so far.
pub open spec fn scan_state(kinds: Seq<LineKind>, n: int) -> (Option<int>, Seq<MermaidBlock>)
    decreases n,
{
    if n <= 0 {
        (None, Seq::empty())
    } else {
        let (open, blocks) = scan_state(kinds, n - 1);
        let i = n - 1;
        match open {
            None => if kinds[i] == LineKind::MermaidFence {
                (Some(i), blocks)
            } else {
                (None, blocks)
            },
            Some(o) => if kinds[i] == LineKind::Text {
                (Some(o), blocks)
            } else {
                (
                    None,
                    blocks.push(
                        MermaidBlock { start_line: (o + 1) as usize, first: (o + 1) as usize, end: i as usize },
                    ),
                )
            },
        }
    }
}

/// Pairs each Mermaid opening fence with the next fence of any kind.
pub fn scan_kinds(kinds: &Vec<LineKind>) -> (r: BlockScan)
    ensures
        scan_state(kinds@, kinds@.len() as int).0 is Some ==> r == (BlockScan::Unclosed {
            start_line: (scan_state(kinds@, kinds@.len() as int).0->0 + 1) as usize,
        }),
        scan_state(kinds@, kinds@.len() as int).0 is None ==> r is Closed && r->Closed_0@ == scan_state(
            kinds@,
            kinds@.len() as int,
        ).1,
{
    let mut blocks: Vec<MermaidBlock> = Vec::new();
    let mut open: Option<usize> = None;
    let mut i: usize = 0;
    while i < kinds.len()
        invariant
            i <= kinds@.len(),
            scan_state(kinds@, i as int).1 == blocks@,
            scan_state(kinds@, i as int).0 is Some ==> open == Some(scan_state(kinds@, i as int).0->0 as usize)
                && 0 <= scan_state(kinds@, i as int).0->0 < i,
            scan_state(kinds@, i as int).0 is None ==> open is None,
        decreases kinds@.len() - i,
    {
        match open {
            None => {
                if kinds[i] == LineKind::MermaidFence {
                    open = Some(i);
                }
            },
            Some(o) => {
                if kinds[i] != LineKind::Text {
                    blocks.push(MermaidBlock { start_line: o + 1, first: o + 1, end: i });
                    open = None;
                }
            },
        }
        i = i + 1;
    }
    match open {
        Some(o) => BlockScan::Unclosed { start_line: o + 1 },
        None => BlockScan::Closed(blocks),
    }
}

/// The Mermaid blocks of a document given as its lines.
pub fn scan_mermaid_blocks(lines: &Vec<String>) -> (r: BlockScan)
    ensures
        ({
            let kinds = Seq::new(lines@.len(), |i: int| kind_of(trim_start_of(lines@[i]@)));
            let state = scan_state(kinds, kinds.len() as int);
            &&& state.0 is Some ==> r == (BlockScan::Unclosed { start_line: (state.0->0 + 1) as usize })
            &&& state.0 is None ==> r is Closed && r->Closed_0@ == state.1
        }),
{
    let mut kinds: Vec<LineKind> = Vec::new();
    let mut i: usize = 0;
    while i < lines.len()
        invariant
            i <= lines@.len(),
            kinds@ == Seq::new(i as nat, |j: int| kind_of(trim_start_of(lines@[j]@))),
        decreases lines@.len() - i,
    {
        let k = line_kind(trim_start(lines[i].as_str()));
        kinds.push(k);
        i = i + 1;
    }
    let ghost want = Seq::new(lines@.len(), |i: int| kind_of(trim_start_of(lines@[i]@)));
    assert(kinds@ =~= want);
    scan_kinds(&kinds)
}

} // verus!
