use vstd::prelude::*;
use vstd::seq_lib::lemma_flatten_concat;

verus! {

broadcast use vstd::seq_lib::group_seq_properties;

/// The byte of a line feed.
pub const NEWLINE: u8 = 10;

/// Whether `l` is one complete line: it ends in a newline and holds no other.
pub open spec fn is_complete_line(l: Seq<u8>) -> bool {
    &&& l.len() > 0
    &&& l.last() == NEWLINE
    &&& forall|k: int| 0 <= k < l.len() - 1 ==> #[trigger] l[k] != NEWLINE
}

/// Whether `d` holds no newline.
pub open spec fn no_newline(d: Seq<u8>) -> bool {
    forall|k: int| 0 <= k < d.len() ==> #[trigger] d[k] != NEWLINE
}

/// How much of `d` is made of complete lines: up to and including its last
/// newline, or nothing if it has none.
pub open spec fn complete_len(d: Seq<u8>) -> int
    decreases d.len(),
{
    if d.len() == 0 {
        0
    } else if d.last() == NEWLINE {
        d.len() as int
    } else {
        complete_len(d.drop_last())
    }
}

/// Whether `lines` are the complete lines of `d`, in order; what follows the
/// last newline is left out.
pub open spec fn cuts_into_lines(d: Seq<u8>, lines: Seq<Seq<u8>>) -> bool {
    &&& lines.flatten() == d.subrange(0, complete_len(d))
    &&& forall|i: int| 0 <= i < lines.len() ==> is_complete_line(#[trigger] lines[i])
}

/// The bytes of each line.
pub open spec fn lines_view(v: Seq<Vec<u8>>) -> Seq<Seq<u8>> {
    v.map_values(|l: Vec<u8>| l@)
}

/// Whether a file of length `len` has shrunk below the offset `offset`.
pub open spec fn is_cleared(offset: nat, len: nat) -> bool {
    len < offset
}

/// The offset to read from once the file's length `len` is known.
pub open spec fn offset_after_check(offset: nat, len: nat) -> nat {
    if is_cleared(offset, len) {
        0
    } else {
        offset
    }
}

/// The part of `d` after its last newline has none.
pub proof fn lemma_complete_len(d: Seq<u8>)
    ensures
        0 <= complete_len(d) <= d.len(),
        no_newline(d.subrange(complete_len(d), d.len() as int)),
        complete_len(d) > 0 ==> d[complete_len(d) - 1] == NEWLINE,
    decreases d.len(),
{
    if d.len() > 0 && d.last() != NEWLINE {
        lemma_complete_len(d.drop_last());
        let c = complete_len(d);
        assert forall|k: int| 0 <= k < d.len() - c implies #[trigger] d.subrange(
            c,
            d.len() as int,
        )[k] != NEWLINE by {
            if k < d.len() - 1 - c {
                assert(d.drop_last().subrange(c, d.len() - 1)[k] == d.subrange(
                    c,
                    d.len() as int,
                )[k]);
            }
        }
    }
}

/// The reading position in the watched file: what lies before it has been shown.
pub struct WatchState {
    offset: u64,
}

impl View for WatchState {
    type V = nat;

    closed spec fn view(&self) -> nat {
        self.offset as nat
    }
}

impl WatchState {
    /// Starts watching at `len`, the file's length: what it already holds is not shown.
    pub fn new(len: u64) -> (s: Self)
        ensures
            s@ == len,
    {
        WatchState { offset: len }
    }

    /// The offset: how far into the file has been shown.
    pub fn offset(&self) -> (r: u64)
        ensures
            r == self@,
    {
        self.offset
    }

    /// Takes the file's current length. A file shorter than the offset has been
    /// cleared or replaced: reading starts over from its beginning, and the
    /// result says so.
    pub fn check_length(&mut self, len: u64) -> (cleared: bool)
        ensures
            cleared == is_cleared(old(self)@, len as nat),
            final(self)@ == offset_after_check(old(self)@, len as nat),
    {
        if len < self.offset {
            self.offset = 0;
            true
        } else {
            false
        }
    }

    /// Takes `data`, the bytes of the file from the offset on, and hands back
    /// its complete lines. The offset moves past them; a last line without its
    /// newline stays unread until the newline comes.
    pub fn take_lines(&mut self, data: &[u8]) -> (lines: Vec<Vec<u8>>)
        requires
            old(self)@ + data@.len() <= u64::MAX,
        ensures
            cuts_into_lines(data@, lines_view(lines@)),
            final(self)@ == old(self)@ + complete_len(data@),
    {
        let mut lines: Vec<Vec<u8>> = Vec::new();
        let mut cur: Vec<u8> = Vec::new();
        let mut i: usize = 0;
        while i < data.len()
            invariant
                i <= data@.len(),
                lines_view(lines@).flatten() + cur@ == data@.subrange(0, i as int),
                forall|j: int| 0 <= j < lines@.len() ==> is_complete_line(#[trigger] lines_view(lines@)[j]),
                no_newline(cur@),
                complete_len(data@.subrange(0, i as int)) == i - cur@.len(),
            decreases data@.len() - i,
        {
            let b = data[i];
            let ghost before = data@.subrange(0, i as int);
            let ghost old_lines = lines_view(lines@);
            let ghost old_cur = cur@;
            assert(data@.subrange(0, i + 1).drop_last() =~= before);
            cur.push(b);
            if b == NEWLINE {
                proof {
                    assert(is_complete_line(cur@));
                    assert(lines_view(lines@.push(cur)) =~= old_lines.push(cur@));
                    old_lines.lemma_flatten_push(cur@);
                }
                lines.push(cur);
                cur = Vec::new();
                proof {
                    assert(lines_view(lines@).flatten() + cur@ =~= data@.subrange(0, i + 1));
                }
            } else {
                assert(old_lines.flatten() + cur@ =~= data@.subrange(0, i + 1));
            }
            i += 1;
        }
        proof {
            assert(data@.subrange(0, i as int) =~= data@);
            assert(lines_view(lines@).flatten() =~= data@.subrange(0, complete_len(data@)));
        }
        self.offset = self.offset + (i - cur.len()) as u64;
        lines
    }
}

/// Bytes appended between two ticks are shown once and in order: the lines of
/// the two ticks, one after the other, are exactly the file from the first
/// offset up to the offset reached, and what stays unread holds no newline.
pub proof fn lemma_appended_content_shown_once(
    f: Seq<u8>,
    a: Seq<u8>,
    o: nat,
    lines1: Seq<Seq<u8>>,
    lines2: Seq<Seq<u8>>,
)
    requires
        o <= f.len(),
        cuts_into_lines(f.subrange(o as int, f.len() as int), lines1),
        cuts_into_lines(
            (f + a).subrange(o + complete_len(f.subrange(o as int, f.len() as int)), (f + a).len() as int),
            lines2,
        ),
    ensures
        ({
            let g = f + a;
            let o1 = o + complete_len(f.subrange(o as int, f.len() as int));
            let o2 = o1 + complete_len(g.subrange(o1, g.len() as int));
            &&& o <= o1 <= o2 <= g.len()
            &&& (lines1 + lines2).flatten() == g.subrange(o as int, o2)
            &&& no_newline(g.subrange(o2, g.len() as int))
        }),
{
    let g = f + a;
    let r1 = f.subrange(o as int, f.len() as int);
    lemma_complete_len(r1);
    let o1 = o + complete_len(r1);
    let r2 = g.subrange(o1, g.len() as int);
    lemma_complete_len(r2);
    let o2 = o1 + complete_len(r2);
    lemma_flatten_concat(lines1, lines2);
    assert(r1.subrange(0, complete_len(r1)) =~= g.subrange(o as int, o1));
    assert(r2.subrange(0, complete_len(r2)) =~= g.subrange(o1, o2));
    assert(g.subrange(o as int, o1) + g.subrange(o1, o2) =~= g.subrange(o as int, o2));
    assert(r2.subrange(complete_len(r2), r2.len() as int) =~= g.subrange(o2, g.len() as int));
}

/// A file that shrank below the offset is announced as cleared, and reading
/// starts over at its beginning; the next tick, on the file as it was left or
/// with more appended, announces nothing.
pub proof fn lemma_truncation_cleared_once(o: nat, f: Seq<u8>, a: Seq<u8>, lines: Seq<Seq<u8>>)
    requires
        f.len() < o,
        cuts_into_lines(f.subrange(offset_after_check(o, f.len()) as int, f.len() as int), lines),
    ensures
        is_cleared(o, f.len()),
        offset_after_check(o, f.len()) == 0,
        lines.flatten() == f.subrange(0, complete_len(f)),
        !is_cleared((offset_after_check(o, f.len()) + complete_len(f)) as nat, (f + a).len()),
{
    assert(f.subrange(0, f.len() as int) =~= f);
    lemma_complete_len(f);
}

} // verus!
