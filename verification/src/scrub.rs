//! The comment scanner: a resumable automaton over the characters of a line.
//!
//! `scan_line` is the mathematical model; `process_line_streaming` is the
//! executable scanner, proved to compute exactly that model.

use vstd::prelude::*;
use crate::text::{
    char_is_whitespace, chars_of, is_blank, lemma_blank_push, lemma_not_blank, push_range,
};

verus! {

/// The kind of a removed comment.
#[derive(Debug, Clone, Copy, PartialEq, Eq, Structural)]
pub enum VerboseCommentType {
    Line,
    Block,
}

/// One removed comment: the lines it spans, both inclusive, and its kind.
#[derive(Debug, Clone, Copy, PartialEq, Eq, Structural)]
pub struct ChangeInfo {
    pub start_line: usize,
    pub end_line: usize,
    pub comment_type: VerboseCommentType,
}

/// The lexical class of the position the scanner has reached.
#[derive(Debug, Clone, Copy, PartialEq, Eq, Structural)]
pub enum State {
    Normal,
    LineComment,
    BlockComment,
    StringLiteral,
    StringEscape,
    CharLiteral,
    CharEscape,
    InRawString,
}

/// Everything the scanner carries from one line to the next.
#[derive(Debug, Clone, Copy)]
pub struct StreamState {
    /// The lexical class at the end of the text scanned so far.
    pub current_parse_state: State,
    /// The number of `#` marks that opened the raw string being read.
    pub raw_string_hash_count: usize,
    /// The line on which the block comment being read began.
    pub active_block_comment_start_line: Option<usize>,
    /// Whether the line comment being read had only white space before it.
    pub is_processing_full_line_comment: bool,
}

/// The state in which the scan of a file begins.
pub open spec fn initial_state() -> StreamState {
    StreamState {
        current_parse_state: State::Normal,
        raw_string_hash_count: 0,
        active_block_comment_start_line: None,
        is_processing_full_line_comment: false,
    }
}

impl Default for StreamState {
    fn default() -> (s: Self)
        ensures
            s == initial_state(),
    {
        StreamState {
            current_parse_state: State::Normal,
            raw_string_hash_count: 0,
            active_block_comment_start_line: None,
            is_processing_full_line_comment: false,
        }
    }
}

/// A point in the scan of one line: the carried state, the text kept so far
/// and the comments removed so far.
pub struct Scan {
    pub state: StreamState,
    pub output: Seq<char>,
    pub events: Seq<ChangeInfo>,
}

/// The length of the run of `#` marks that starts at `from`.
pub open spec fn hash_run(line: Seq<char>, from: int) -> nat
    decreases line.len() - from,
{
    if 0 <= from < line.len() && line[from] == '#' {
        1 + hash_run(line, from + 1)
    } else {
        0
    }
}

/// Whether the character at `pos` exists and is `c`.
pub open spec fn char_at(line: Seq<char>, pos: int, c: char) -> bool {
    0 <= pos < line.len() && line[pos] == c
}

/// The number of characters that the step at `pos` consumes after the one
/// at `pos` itself: the second character of a comment marker, or the `#`
/// marks and the quote of a raw-string fence.
pub open spec fn lookahead(line: Seq<char>, pos: int, st: StreamState) -> nat
    recommends
        0 <= pos < line.len(),
{
    let c = line[pos];
    match st.current_parse_state {
        State::Normal => {
            if c == '/' {
                if char_at(line, pos + 1, '/') || char_at(line, pos + 1, '*') {
                    1
                } else {
                    0
                }
            } else if c == 'r' {
                let k = hash_run(line, pos + 1);
                if char_at(line, pos + 1 + k, '"') {
                    k + 1
                } else {
                    k
                }
            } else {
                0
            }
        },
        State::BlockComment => {
            if c == '*' && char_at(line, pos + 1, '/') {
                1
            } else {
                0
            }
        },
        State::InRawString => {
            if c == '"' {
                let k = hash_run(line, pos + 1);
                if k < st.raw_string_hash_count {
                    k
                } else {
                    st.raw_string_hash_count as nat
                }
            } else {
                0
            }
        },
        _ => 0,
    }
}

/// The number of characters that the step at `pos` consumes.
pub open spec fn step_len(line: Seq<char>, pos: int, st: StreamState) -> int {
    lookahead(line, pos, st) as int + 1
}

/// The scan after the step at `pos`: the transition table of the automaton.
pub open spec fn step(line: Seq<char>, pos: int, line_num: usize, cur: Scan) -> Scan
    recommends
        0 <= pos < line.len(),
{
    let c = line[pos];
    let st = cur.state;
    let n = step_len(line, pos, st);
    let kept = cur.output + line.subrange(pos, pos + n);
    match st.current_parse_state {
        State::Normal => {
            if c == '/' && char_at(line, pos + 1, '/') {
                let alone = is_blank(cur.output);
                Scan {
                    state: StreamState {
                        current_parse_state: State::LineComment,
                        is_processing_full_line_comment: alone,
                        ..st
                    },
                    output: if alone {
                        Seq::empty()
                    } else {
                        cur.output
                    },
                    events: cur.events.push(
                        ChangeInfo {
                            start_line: line_num,
                            end_line: line_num,
                            comment_type: VerboseCommentType::Line,
                        },
                    ),
                }
            } else if c == '/' && char_at(line, pos + 1, '*') {
                Scan {
                    state: StreamState {
                        current_parse_state: State::BlockComment,
                        active_block_comment_start_line:
                            if st.active_block_comment_start_line is None {
                            Some(line_num)
                        } else {
                            st.active_block_comment_start_line
                        },
                        ..st
                    },
                    ..cur
                }
            } else if c == '"' {
                Scan {
                    state: StreamState { current_parse_state: State::StringLiteral, ..st },
                    output: kept,
                    ..cur
                }
            } else if c == '\'' {
                Scan {
                    state: StreamState { current_parse_state: State::CharLiteral, ..st },
                    output: kept,
                    ..cur
                }
            } else if c == 'r' && char_at(line, pos + n - 1, '"') {
                Scan {
                    state: StreamState {
                        current_parse_state: State::InRawString,
                        raw_string_hash_count: (n - 2) as usize,
                        ..st
                    },
                    output: kept,
                    ..cur
                }
            } else {
                Scan { output: kept, ..cur }
            }
        },
        State::LineComment => {
            if c == '\n' {
                Scan {
                    state: StreamState {
                        current_parse_state: State::Normal,
                        is_processing_full_line_comment: false,
                        ..st
                    },
                    output: if st.is_processing_full_line_comment {
                        cur.output
                    } else {
                        kept
                    },
                    ..cur
                }
            } else {
                cur
            }
        },
        State::BlockComment => {
            if n == 2 {
                match st.active_block_comment_start_line {
                    Some(start) => Scan {
                        state: StreamState {
                            current_parse_state: State::Normal,
                            active_block_comment_start_line: None,
                            ..st
                        },
                        events: cur.events.push(
                            ChangeInfo {
                                start_line: start,
                                end_line: line_num,
                                comment_type: VerboseCommentType::Block,
                            },
                        ),
                        ..cur
                    },
                    None => Scan {
                        state: StreamState { current_parse_state: State::Normal, ..st },
                        ..cur
                    },
                }
            } else {
                cur
            }
        },
        State::StringLiteral => {
            let next = if c == '\\' {
                State::StringEscape
            } else if c == '"' {
                State::Normal
            } else {
                State::StringLiteral
            };
            Scan { state: StreamState { current_parse_state: next, ..st }, output: kept, ..cur }
        },
        State::StringEscape => {
            Scan {
                state: StreamState { current_parse_state: State::StringLiteral, ..st },
                output: kept,
                ..cur
            }
        },
        State::CharLiteral => {
            let next = if c == '\\' {
                State::CharEscape
            } else if c == '\'' {
                State::Normal
            } else {
                State::CharLiteral
            };
            Scan { state: StreamState { current_parse_state: next, ..st }, output: kept, ..cur }
        },
        State::CharEscape => {
            Scan {
                state: StreamState { current_parse_state: State::CharLiteral, ..st },
                output: kept,
                ..cur
            }
        },
        State::InRawString => {
            if c == '"' && n == st.raw_string_hash_count + 1 {
                Scan {
                    state: StreamState {
                        current_parse_state: State::Normal,
                        raw_string_hash_count: 0,
                        ..st
                    },
                    output: kept,
                    ..cur
                }
            } else {
                Scan { output: kept, ..cur }
            }
        },
    }
}

/// The scan of `line` from `pos` to its end, continuing from `cur`.
pub open spec fn scan_from(line: Seq<char>, pos: int, line_num: usize, cur: Scan) -> Scan
    decreases
        if pos < line.len() {
            line.len() - pos
        } else {
            0
        },
{
    if 0 <= pos < line.len() {
        scan_from(
            line,
            pos + 1 + lookahead(line, pos, cur.state),
            line_num,
            step(line, pos, line_num, cur),
        )
    } else {
        cur
    }
}

/// The scan of one whole line that is entered in state `st`: the text kept,
/// the comments removed, and the state in which the line is left.
pub open spec fn scan_line(line: Seq<char>, line_num: usize, st: StreamState) -> Scan {
    scan_from(line, 0, line_num, Scan { state: st, output: Seq::empty(), events: Seq::empty() })
}

/// A run of `#` marks lies within the line, holds nothing but `#` marks, and
/// ends at the end of the line or before another character.
pub proof fn lemma_hash_run(line: Seq<char>, from: int)
    requires
        0 <= from <= line.len(),
    ensures
        from + hash_run(line, from) <= line.len(),
        forall|j: int| from <= j < from + hash_run(line, from) ==> line[j] == '#',
        !char_at(line, from + hash_run(line, from), '#'),
    decreases line.len() - from,
{
    if from < line.len() && line[from] == '#' {
        lemma_hash_run(line, from + 1);
    }
}

/// Counts the `#` marks that start at `from`, stopping at `limit` of them.
fn count_hashes(chars: &Vec<char>, from: usize, limit: usize) -> (k: usize)
    requires
        from <= chars.len(),
    ensures
        k as nat == if hash_run(chars@, from as int) < limit {
            hash_run(chars@, from as int)
        } else {
            limit as nat
        },
        from + k <= chars.len(),
{
    let mut k: usize = 0;
    while k < limit && from + k < chars.len() && chars[from + k] == '#'
        invariant
            from + k <= chars.len(),
            k <= limit,
            hash_run(chars@, from as int) == k + hash_run(chars@, from + k),
        decreases chars.len() - k,
    {
        k += 1;
    }
    k
}

/// The scan that the executable scanner holds in its variables.
pub open spec fn scan_of(st: StreamState, out: String, events: Vec<ChangeInfo>) -> Scan {
    Scan { state: st, output: out@, events: events@ }
}

/// Takes the step at `i` in state `Normal`; returns the characters consumed.
fn step_normal(
    chars: &Vec<char>,
    i: usize,
    line_num: usize,
    st: &mut StreamState,
    out: &mut String,
    blank: &mut bool,
    events: &mut Vec<ChangeInfo>,
) -> (used: usize)
    requires
        i < chars.len(),
        old(st).current_parse_state == State::Normal,
        *old(blank) == is_blank(old(out)@),
    ensures
        scan_of(*final(st), *final(out), *final(events)) == step(
            chars@,
            i as int,
            line_num,
            scan_of(*old(st), *old(out), *old(events)),
        ),
        used == step_len(chars@, i as int, *old(st)),
        i + used <= chars.len(),
        *final(blank) == is_blank(final(out)@),
{
    let n = chars.len();
    let c = chars[i];
    let mut used: usize = 1;
    proof {
        lemma_blank_push(out@, c);
        assert(out@.push(c) =~= out@ + chars@.subrange(i as int, i + 1));
    }
    if c == '/' && i + 1 < n && chars[i + 1] == '/' {
        if *blank {
            *out = String::new();
            st.is_processing_full_line_comment = true;
        } else {
            st.is_processing_full_line_comment = false;
        }
        st.current_parse_state = State::LineComment;
        events.push(
            ChangeInfo {
                start_line: line_num,
                end_line: line_num,
                comment_type: VerboseCommentType::Line,
            },
        );
        used = 2;
    } else if c == '/' && i + 1 < n && chars[i + 1] == '*' {
        st.current_parse_state = State::BlockComment;
        if st.active_block_comment_start_line.is_none() {
            st.active_block_comment_start_line = Some(line_num);
        }
        used = 2;
    } else if c == '"' {
        out.push(c);
        *blank = false;
        st.current_parse_state = State::StringLiteral;
    } else if c == '\'' {
        out.push(c);
        *blank = false;
        st.current_parse_state = State::CharLiteral;
    } else if c == 'r' {
        proof {
            lemma_hash_run(chars@, i + 1);
        }
        let hashes = count_hashes(chars, i + 1, n);
        if i + 1 + hashes < n && chars[i + 1 + hashes] == '"' {
            st.raw_string_hash_count = hashes;
            st.current_parse_state = State::InRawString;
            used = hashes + 2;
        } else {
            used = hashes + 1;
        }
        push_range(out, chars, i, i + used);
        *blank = false;
        proof {
            lemma_not_blank(out@, old(out)@.len() as int);
        }
    } else {
        out.push(c);
        *blank = *blank && char_is_whitespace(c);
    }
    used
}

/// Takes the step at `i` inside a line comment or a block comment; returns
/// the characters consumed.
fn step_comment(
    chars: &Vec<char>,
    i: usize,
    line_num: usize,
    st: &mut StreamState,
    out: &mut String,
    blank: &mut bool,
    events: &mut Vec<ChangeInfo>,
) -> (used: usize)
    requires
        i < chars.len(),
        old(st).current_parse_state == State::LineComment || old(st).current_parse_state
            == State::BlockComment,
        *old(blank) == is_blank(old(out)@),
    ensures
        scan_of(*final(st), *final(out), *final(events)) == step(
            chars@,
            i as int,
            line_num,
            scan_of(*old(st), *old(out), *old(events)),
        ),
        used == step_len(chars@, i as int, *old(st)),
        i + used <= chars.len(),
        *final(blank) == is_blank(final(out)@),
{
    let c = chars[i];
    let mut used: usize = 1;
    proof {
        lemma_blank_push(out@, c);
        assert(out@.push(c) =~= out@ + chars@.subrange(i as int, i + 1));
    }
    match st.current_parse_state {
        State::LineComment => {
            if c == '\n' {
                if !st.is_processing_full_line_comment {
                    out.push(c);
                    *blank = *blank && char_is_whitespace(c);
                }
                st.current_parse_state = State::Normal;
                st.is_processing_full_line_comment = false;
            }
        },
        _ => {
            if c == '*' && i + 1 < chars.len() && chars[i + 1] == '/' {
                st.current_parse_state = State::Normal;
                if let Some(start_line) = st.active_block_comment_start_line {
                    events.push(
                        ChangeInfo {
                            start_line,
                            end_line: line_num,
                            comment_type: VerboseCommentType::Block,
                        },
                    );
                    st.active_block_comment_start_line = None;
                }
                used = 2;
            }
        },
    }
    used
}

/// Takes the step at `i` inside a string or character literal, or a raw
/// string; returns the characters consumed.
fn step_literal(
    chars: &Vec<char>,
    i: usize,
    line_num: usize,
    st: &mut StreamState,
    out: &mut String,
    blank: &mut bool,
    events: &Vec<ChangeInfo>,
) -> (used: usize)
    requires
        i < chars.len(),
        old(st).current_parse_state != State::Normal,
        old(st).current_parse_state != State::LineComment,
        old(st).current_parse_state != State::BlockComment,
        *old(blank) == is_blank(old(out)@),
    ensures
        scan_of(*final(st), *final(out), *events) == step(
            chars@,
            i as int,
            line_num,
            scan_of(*old(st), *old(out), *events),
        ),
        used == step_len(chars@, i as int, *old(st)),
        i + used <= chars.len(),
        *final(blank) == is_blank(final(out)@),
{
    let c = chars[i];
    let mut used: usize = 1;
    proof {
        lemma_blank_push(out@, c);
        assert(out@.push(c) =~= out@ + chars@.subrange(i as int, i + 1));
    }
    match st.current_parse_state {
        State::StringLiteral => {
            out.push(c);
            *blank = *blank && char_is_whitespace(c);
            if c == '\\' {
                st.current_parse_state = State::StringEscape;
            } else if c == '"' {
                st.current_parse_state = State::Normal;
            }
        },
        State::StringEscape => {
            out.push(c);
            *blank = *blank && char_is_whitespace(c);
            st.current_parse_state = State::StringLiteral;
        },
        State::CharLiteral => {
            out.push(c);
            *blank = *blank && char_is_whitespace(c);
            if c == '\\' {
                st.current_parse_state = State::CharEscape;
            } else if c == '\'' {
                st.current_parse_state = State::Normal;
            }
        },
        State::CharEscape => {
            out.push(c);
            *blank = *blank && char_is_whitespace(c);
            st.current_parse_state = State::CharLiteral;
        },
        _ => {
            if c == '"' {
                let fence = st.raw_string_hash_count;
                let hashes = count_hashes(chars, i + 1, fence);
                used = hashes + 1;
                if hashes == fence {
                    st.current_parse_state = State::Normal;
                    st.raw_string_hash_count = 0;
                }
                push_range(out, chars, i, i + used);
                *blank = false;
                proof {
                    lemma_not_blank(out@, old(out)@.len() as int);
                }
            } else {
                out.push(c);
                *blank = *blank && char_is_whitespace(c);
            }
        },
    }
    used
}

/// Scans one line.
///
/// The line is read as the continuation of the text scanned so far, whose
/// lexical state `stream_state` holds; the state is left as it stands at the
/// end of the line. Returns the line without its comments, and one record for
/// each line comment opened and each block comment closed on this line, in
/// the order in which they were met.
pub fn process_line_streaming(
    line_content: &str,
    original_line_num: usize,
    stream_state: &mut StreamState,
) -> (result: (String, Vec<ChangeInfo>))
    ensures
        ({
            let scan = scan_line(line_content@, original_line_num, *old(stream_state));
            &&& result.0@ == scan.output
            &&& result.1@ == scan.events
            &&& *final(stream_state) == scan.state
        }),
{
    let chars = chars_of(line_content);
    let n = chars.len();
    let ghost goal = scan_line(chars@, original_line_num, *old(stream_state));
    let mut out = String::new();
    let mut blank = true;
    let mut events: Vec<ChangeInfo> = Vec::new();
    let mut i: usize = 0;
    while i < n
        invariant
            n == chars.len(),
            i <= n,
            blank == is_blank(out@),
            scan_from(chars@, i as int, original_line_num, scan_of(*stream_state, out, events))
                == goal,
        decreases n - i,
    {
        let used = match stream_state.current_parse_state {
            State::Normal => step_normal(
                &chars,
                i,
                original_line_num,
                stream_state,
                &mut out,
                &mut blank,
                &mut events,
            ),
            State::LineComment | State::BlockComment => step_comment(
                &chars,
                i,
                original_line_num,
                stream_state,
                &mut out,
                &mut blank,
                &mut events,
            ),
            _ => step_literal(
                &chars,
                i,
                original_line_num,
                stream_state,
                &mut out,
                &mut blank,
                &events,
            ),
        };
        i += used;
    }
    (out, events)
}

} // verus!
