use vstd::prelude::*;

verus! {

/// The byte of `[`.
pub const OPEN: u8 = 91;

/// The byte of `]`.
pub const CLOSE: u8 = 93;

/// The byte of `A`.
pub const UPPER_A: u8 = 65;

/// The byte of `Z`.
pub const UPPER_Z: u8 = 90;

/// How one block of a line is shown.
#[derive(Clone, Copy, Debug, PartialEq, Eq, Structural)]
pub enum Style {
    Plain,
    Debug,
    Info,
    Warn,
    Error,
    Unclassified,
}

/// A run of `len` bytes of a line, shown in one style.
#[derive(Clone, Copy, Debug, PartialEq, Eq, Structural)]
pub struct Block {
    pub len: usize,
    pub style: Style,
}

/// Where the tag that is open at `i` closes, `depth` brackets being open: the
/// index of the `]` that brings the depth back to zero, or `None` if the line
/// ends first.
pub open spec fn closing_from(s: Seq<u8>, i: int, depth: nat) -> Option<int>
    decreases s.len() - i,
{
    if i < 0 || i >= s.len() {
        None
    } else if s[i] == OPEN {
        closing_from(s, i + 1, depth + 1)
    } else if s[i] == CLOSE {
        if depth <= 1 {
            Some(i)
        } else {
            closing_from(s, i + 1, (depth - 1) as nat)
        }
    } else {
        closing_from(s, i + 1, depth)
    }
}

/// The index of the first `[` at or after `i`, or the length of `s` if there is none.
pub open spec fn next_open(s: Seq<u8>, i: int) -> int
    decreases s.len() - i,
{
    if i < 0 || i >= s.len() {
        s.len() as int
    } else if s[i] == OPEN {
        i
    } else {
        next_open(s, i + 1)
    }
}

/// Whether `s` starts a bracketed token.
pub open spec fn starts_tag(s: Seq<u8>) -> bool {
    s.len() > 0 && s[0] == OPEN
}

/// The length of the block at the start of `s`: a bracketed token up to and
/// including its closing bracket (to the end of `s` if it never closes), or
/// plain text up to the next `[`.
pub open spec fn block_len(s: Seq<u8>) -> int {
    if starts_tag(s) {
        match closing_from(s, 1, 1) {
            Some(j) => j + 1,
            None => s.len() as int,
        }
    } else {
        next_open(s, 0)
    }
}

/// ASCII letters to lower case, other bytes unchanged.
pub open spec fn fold_byte(b: u8) -> u8 {
    if UPPER_A <= b && b <= UPPER_Z {
        (b + 32) as u8
    } else {
        b
    }
}

/// The severity word that a style stands for (empty for the others).
pub open spec fn severity_word(style: Style) -> Seq<u8> {
    match style {
        Style::Debug => seq!['d' as u8, 'e' as u8, 'b' as u8, 'u' as u8, 'g' as u8],
        Style::Info => seq!['i' as u8, 'n' as u8, 'f' as u8, 'o' as u8],
        Style::Warn => seq!['w' as u8, 'a' as u8, 'r' as u8, 'n' as u8],
        Style::Error => seq!['e' as u8, 'r' as u8, 'r' as u8, 'o' as u8, 'r' as u8],
        _ => Seq::empty(),
    }
}

/// Whether `t` is `[word]`, its letters in any case.
pub open spec fn is_tag_of(t: Seq<u8>, word: Seq<u8>) -> bool {
    &&& t.len() == word.len() + 2
    &&& t[0] == OPEN
    &&& t[t.len() - 1] == CLOSE
    &&& forall|k: int| 0 <= k < word.len() ==> fold_byte(#[trigger] t[k + 1]) == word[k]
}

/// The style of a closed bracketed token `t`, brackets included.
pub open spec fn tag_style(t: Seq<u8>) -> Style {
    if is_tag_of(t, severity_word(Style::Debug)) {
        Style::Debug
    } else if is_tag_of(t, severity_word(Style::Info)) {
        Style::Info
    } else if is_tag_of(t, severity_word(Style::Warn)) {
        Style::Warn
    } else if is_tag_of(t, severity_word(Style::Error)) {
        Style::Error
    } else {
        Style::Unclassified
    }
}

/// The style of the block at the start of `s`.
pub open spec fn block_style(s: Seq<u8>) -> Style {
    if !starts_tag(s) {
        Style::Plain
    } else if closing_from(s, 1, 1) is None {
        Style::Unclassified
    } else {
        tag_style(s.subrange(0, block_len(s)))
    }
}

pub proof fn lemma_closing_from_bounds(s: Seq<u8>, i: int, depth: nat)
    requires
        0 <= i,
    ensures
        closing_from(s, i, depth) matches Some(j) ==> i <= j < s.len() && s[j] == CLOSE,
    decreases s.len() - i,
{
    if 0 <= i < s.len() {
        if s[i] == OPEN {
            lemma_closing_from_bounds(s, i + 1, depth + 1);
        } else if s[i] == CLOSE {
            if depth > 1 {
                lemma_closing_from_bounds(s, i + 1, (depth - 1) as nat);
            }
        } else {
            lemma_closing_from_bounds(s, i + 1, depth);
        }
    }
}

pub proof fn lemma_next_open_bounds(s: Seq<u8>, i: int)
    requires
        0 <= i <= s.len(),
    ensures
        i <= next_open(s, i) <= s.len(),
        next_open(s, i) < s.len() ==> s[next_open(s, i)] == OPEN,
        forall|k: int| i <= k < next_open(s, i) ==> s[k] != OPEN,
    decreases s.len() - i,
{
    if i < s.len() && s[i] != OPEN {
        lemma_next_open_bounds(s, i + 1);
    }
}

/// A block is never empty on a non-empty line, and never runs past its end.
pub proof fn lemma_block_len_bounds(s: Seq<u8>)
    ensures
        s.len() > 0 ==> 0 < block_len(s) <= s.len(),
        s.len() == 0 ==> block_len(s) == 0,
{
    lemma_closing_from_bounds(s, 1, 1);
    lemma_next_open_bounds(s, 0);
}

/// The blocks that a line is cut into, from left to right.
pub open spec fn blocks_of(s: Seq<u8>) -> Seq<Block>
    decreases s.len(),
{
    let n = block_len(s);
    if s.len() == 0 || n <= 0 || n > s.len() {
        Seq::empty()
    } else {
        seq![Block { len: n as usize, style: block_style(s) }] + blocks_of(s.subrange(n, s.len() as int))
    }
}

/// The part of `line` from `start` on.
pub open spec fn rest_of(line: Seq<u8>, start: int) -> Seq<u8> {
    line.subrange(start, line.len() as int)
}

fn fold(b: u8) -> (r: u8)
    ensures
        r == fold_byte(b),
{
    if UPPER_A <= b && b <= UPPER_Z {
        b + 32
    } else {
        b
    }
}

fn severity_word_bytes(style: Style) -> (r: Vec<u8>)
    ensures
        r@ == severity_word(style),
{
    let r = match style {
        Style::Debug => vec!['d' as u8, 'e' as u8, 'b' as u8, 'u' as u8, 'g' as u8],
        Style::Info => vec!['i' as u8, 'n' as u8, 'f' as u8, 'o' as u8],
        Style::Warn => vec!['w' as u8, 'a' as u8, 'r' as u8, 'n' as u8],
        Style::Error => vec!['e' as u8, 'r' as u8, 'r' as u8, 'o' as u8, 'r' as u8],
        _ => Vec::new(),
    };
    assert(r@ =~= severity_word(style));
    r
}

/// Whether the bytes of `line` from `start` to `end` are `[word]`, in any case.
fn is_tag_at(line: &[u8], start: usize, end: usize, word: &Vec<u8>) -> (r: bool)
    requires
        start <= end <= line@.len(),
    ensures
        r == is_tag_of(line@.subrange(start as int, end as int), word@),
{
    let ghost t = line@.subrange(start as int, end as int);
    if end - start < 2 || end - start - 2 != word.len() {
        return false;
    }
    if line[start] != OPEN || line[end - 1] != CLOSE {
        return false;
    }
    let mut k: usize = 0;
    while k < word.len()
        invariant
            start <= end <= line@.len(),
            t == line@.subrange(start as int, end as int),
            t.len() == word@.len() + 2,
            0 <= k <= word@.len(),
            forall|j: int| 0 <= j < k ==> fold_byte(#[trigger] t[j + 1]) == word@[j],
        decreases word@.len() - k,
    {
        if fold(line[start + k + 1]) != word[k] {
            assert(fold_byte(t[k + 1]) != word@[k as int]);
            return false;
        }
        k += 1;
    }
    true
}

/// The style of the closed token from `start` to `end`.
fn tag_style_at(line: &[u8], start: usize, end: usize) -> (r: Style)
    requires
        start <= end <= line@.len(),
    ensures
        r == tag_style(line@.subrange(start as int, end as int)),
{
    if is_tag_at(line, start, end, &severity_word_bytes(Style::Debug)) {
        Style::Debug
    } else if is_tag_at(line, start, end, &severity_word_bytes(Style::Info)) {
        Style::Info
    } else if is_tag_at(line, start, end, &severity_word_bytes(Style::Warn)) {
        Style::Warn
    } else if is_tag_at(line, start, end, &severity_word_bytes(Style::Error)) {
        Style::Error
    } else {
        Style::Unclassified
    }
}

/// The block that starts at `start`: a bracketed token, its nested brackets of
/// the same kind counted, shown in the colour of its severity word; or plain
/// text up to the next `[`.
pub fn next_block(line: &[u8], start: usize) -> (b: Block)
    requires
        start <= line@.len(),
    ensures
        b.len == block_len(rest_of(line@, start as int)),
        b.style == block_style(rest_of(line@, start as int)),
        start < line@.len() ==> 0 < b.len <= line@.len() - start,
{
    let ghost s = rest_of(line@, start as int);
    proof {
        lemma_block_len_bounds(s);
    }
    let n = line.len();
    if start < n && line[start] == OPEN {
        let mut i: usize = start + 1;
        let mut depth: usize = 1;
        let mut end: usize = n;
        let mut closed = false;
        while i < n
            invariant_except_break
                end == n,
                !closed,
            invariant
                start < i <= n,
                n == line@.len(),
                s == rest_of(line@, start as int),
                1 <= depth <= i - start,
                closing_from(s, (i - start) as int, depth as nat) == closing_from(s, 1, 1),
            ensures
                closed == closing_from(s, 1, 1) is Some,
                end == match closing_from(s, 1, 1) {
                    Some(j) => start + j + 1,
                    None => n as int,
                },
            decreases n - i,
        {
            assert(s[(i - start) as int] == line@[i as int]);
            if line[i] == OPEN {
                depth += 1;
            } else if line[i] == CLOSE {
                if depth == 1 {
                    end = i + 1;
                    closed = true;
                    break;
                }
                depth -= 1;
            }
            i += 1;
        }
        let style = if !closed {
            Style::Unclassified
        } else {
            assert(line@.subrange(start as int, end as int) =~= s.subrange(0, block_len(s)));
            tag_style_at(line, start, end)
        };
        Block { len: end - start, style }
    } else {
        proof {
            if start < n {
                assert(s[0] == line@[start as int]);
            }
        }
        let mut i: usize = start;
        while i < n && line[i] != OPEN
            invariant
                start <= i <= n,
                n == line@.len(),
                s == rest_of(line@, start as int),
                next_open(s, (i - start) as int) == next_open(s, 0),
            decreases n - i,
        {
            assert(s[(i - start) as int] == line@[i as int]);
            i += 1;
        }
        proof {
            if i < n {
                assert(s[(i - start) as int] == line@[i as int]);
            }
        }
        Block { len: i - start, style: Style::Plain }
    }
}

/// Lays `line` out for printing: the blocks it is cut into, left to right,
/// which together cover the whole line.
pub fn print_line(line: &[u8]) -> (r: Vec<Block>)
    ensures
        r@ == blocks_of(line@),
{
    let n = line.len();
    let mut out: Vec<Block> = Vec::new();
    let mut pos: usize = 0;
    proof {
        assert(rest_of(line@, 0) =~= line@);
    }
    while pos < n
        invariant
            n == line@.len(),
            pos <= n,
            out@ + blocks_of(rest_of(line@, pos as int)) == blocks_of(line@),
        decreases n - pos,
    {
        let b = next_block(line, pos);
        proof {
            let s = rest_of(line@, pos as int);
            assert(rest_of(line@, pos + b.len) =~= s.subrange(b.len as int, s.len() as int));
            assert(blocks_of(s) == seq![b] + blocks_of(rest_of(line@, pos + b.len)));
            assert(out@.push(b) + blocks_of(rest_of(line@, pos + b.len)) =~= out@ + blocks_of(s));
        }
        out.push(b);
        pos = pos + b.len;
    }
    proof {
        assert(blocks_of(rest_of(line@, pos as int)) =~= Seq::<Block>::empty());
        assert(out@ + Seq::<Block>::empty() =~= out@);
    }
    out
}

/// The colour a block is printed in; plain text keeps the terminal's own.
#[derive(Clone, Copy, Debug, PartialEq, Eq, Structural)]
pub enum Tint {
    Blue,
    DarkGreen,
    Yellow,
    Red,
    DarkGrey,
}

/// The colour of each style.
pub open spec fn tint_spec(style: Style) -> Option<Tint> {
    match style {
        Style::Plain => None,
        Style::Debug => Some(Tint::Blue),
        Style::Info => Some(Tint::DarkGreen),
        Style::Warn => Some(Tint::Yellow),
        Style::Error => Some(Tint::Red),
        Style::Unclassified => Some(Tint::DarkGrey),
    }
}

/// The colour of each style: one per severity, grey for other bracketed
/// tokens, none for plain text.
pub fn tint_of(style: Style) -> (r: Option<Tint>)
    ensures
        r == tint_spec(style),
{
    match style {
        Style::Plain => None,
        Style::Debug => Some(Tint::Blue),
        Style::Info => Some(Tint::DarkGreen),
        Style::Warn => Some(Tint::Yellow),
        Style::Error => Some(Tint::Red),
        Style::Unclassified => Some(Tint::DarkGrey),
    }
}

/// How many brackets are open after the first `n` bytes of `s`.
pub open spec fn bracket_depth(s: Seq<u8>, n: int) -> int
    decreases n,
{
    if n <= 0 || n > s.len() {
        0
    } else {
        bracket_depth(s, n - 1) + if s[n - 1] == OPEN {
            1int
        } else if s[n - 1] == CLOSE {
            -1int
        } else {
            0int
        }
    }
}

proof fn lemma_closes_at(s: Seq<u8>, i: int, d: nat, e: int)
    requires
        1 <= i < e <= s.len(),
        d >= 1,
        bracket_depth(s, i) == d,
        bracket_depth(s, e) == 0,
        forall|k: int| i < k < e ==> #[trigger] bracket_depth(s, k) > 0,
    ensures
        closing_from(s, i, d) == Some(e - 1),
    decreases s.len() - i,
{
    assert(bracket_depth(s, i + 1) == bracket_depth(s, i) + if s[i] == OPEN {
        1int
    } else if s[i] == CLOSE {
        -1int
    } else {
        0int
    });
    if i + 1 < e {
        assert(bracket_depth(s, i + 1) > 0);
        if s[i] == OPEN {
            lemma_closes_at(s, i + 1, d + 1, e);
        } else if s[i] == CLOSE {
            lemma_closes_at(s, i + 1, (d - 1) as nat, e);
        } else {
            lemma_closes_at(s, i + 1, d, e);
        }
    }
}

proof fn lemma_never_closes(s: Seq<u8>, i: int, d: nat)
    requires
        1 <= i <= s.len(),
        d >= 1,
        bracket_depth(s, i) == d,
        forall|k: int| i < k <= s.len() ==> #[trigger] bracket_depth(s, k) > 0,
    ensures
        closing_from(s, i, d) is None,
    decreases s.len() - i,
{
    if i < s.len() {
        assert(bracket_depth(s, i + 1) > 0);
        if s[i] == OPEN {
            lemma_never_closes(s, i + 1, d + 1);
        } else if s[i] == CLOSE {
            lemma_never_closes(s, i + 1, (d - 1) as nat);
        } else {
            lemma_never_closes(s, i + 1, d);
        }
    }
}

/// A bracketed token is one block however many brackets of its kind it nests:
/// it ends at the bracket that brings the depth back to zero.
pub proof fn lemma_nested_tag_is_one_block(s: Seq<u8>, e: int)
    requires
        starts_tag(s),
        1 < e <= s.len(),
        bracket_depth(s, e) == 0,
        forall|k: int| 0 < k < e ==> #[trigger] bracket_depth(s, k) > 0,
    ensures
        block_len(s) == e,
        block_style(s) == tag_style(s.subrange(0, e)),
{
    assert(bracket_depth(s, 1) == 1) by {
        assert(bracket_depth(s, 0) == 0);
    }
    lemma_closes_at(s, 1, 1, e);
}

/// A token whose brackets never balance runs to the end of the line and has
/// no severity.
pub proof fn lemma_unbalanced_tag_runs_to_end(s: Seq<u8>)
    requires
        starts_tag(s),
        forall|k: int| 0 < k <= s.len() ==> #[trigger] bracket_depth(s, k) > 0,
    ensures
        block_len(s) == s.len(),
        block_style(s) == Style::Unclassified,
        tint_spec(block_style(s)) == Some(Tint::DarkGrey),
{
    assert(bracket_depth(s, 1) == 1) by {
        assert(bracket_depth(s, 0) == 0);
    }
    lemma_never_closes(s, 1, 1);
}

proof fn lemma_closes_after_word(s: Seq<u8>, i: int, j: int)
    requires
        1 <= i <= j < s.len(),
        s[j] == CLOSE,
        forall|k: int| i <= k < j ==> #[trigger] s[k] != OPEN && s[k] != CLOSE,
    ensures
        closing_from(s, i, 1) == Some(j),
    decreases j - i,
{
    if i < j {
        lemma_closes_after_word(s, i + 1, j);
    }
}

/// A severity tag, its word in any mix of cases, is one block of its own,
/// brackets included, in that severity's colour.
pub proof fn lemma_severity_tag(s: Seq<u8>, style: Style)
    requires
        style == Style::Debug || style == Style::Info || style == Style::Warn || style
            == Style::Error,
        severity_word(style).len() + 2 <= s.len(),
        is_tag_of(s.subrange(0, severity_word(style).len() as int + 2), severity_word(style)),
    ensures
        block_len(s) == severity_word(style).len() + 2,
        block_style(s) == style,
        tint_spec(block_style(s)) == tint_spec(style),
        tint_spec(style) is Some,
{
    let w = severity_word(style);
    let n = w.len() as int;
    let t = s.subrange(0, n + 2);
    assert forall|k: int| 1 <= k < n + 1 implies #[trigger] s[k] != OPEN && s[k]
        != CLOSE by {
        assert(t[k] == s[k]);
        assert(fold_byte(t[(k - 1) + 1]) == w[k - 1]);
    }
    assert(t[0] == s[0]);
    assert(t[t.len() - 1] == s[n + 1]);
    lemma_closes_after_word(s, 1, n + 1);
    assert(fold_byte(t[0int + 1]) == w[0]);
    assert(fold_byte(t[1int + 1]) == w[1]);
    assert(s.subrange(0, block_len(s)) == t);
}

} // verus!
