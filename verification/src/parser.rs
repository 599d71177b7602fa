use vstd::prelude::*;

verus! {

// ---------------------------------------------------------------------------
// Byte classes
// ---------------------------------------------------------------------------
/// Carriage return or line feed: the separators between logical lines.
pub open spec fn is_line_sep(b: u8) -> bool {
    b == 10 || b == 13
}

/// ASCII whitespace, as trimmed around the digits of a progress value.
pub open spec fn is_ascii_ws(b: u8) -> bool {
    b == 32 || (9 <= b && b <= 13)
}

/// An ASCII decimal digit.
pub open spec fn is_ascii_digit(b: u8) -> bool {
    48 <= b && b <= 57
}

// ---------------------------------------------------------------------------
// Splitting a byte stream into logical lines
// ---------------------------------------------------------------------------
/// The logical lines of a byte stream: the segments between separators, in
/// order. There is always at least one segment; the last one is the part
/// after the final separator, still unterminated (possibly empty).
pub open spec fn split_lines(s: Seq<u8>) -> Seq<Seq<u8>>
    decreases s.len(),
{
    if s.len() == 0 {
        seq![Seq::<u8>::empty()]
    } else {
        let init = split_lines(s.drop_last());
        if is_line_sep(s.last()) {
            init.push(Seq::<u8>::empty())
        } else {
            init.update(init.len() - 1, init.last().push(s.last()))
        }
    }
}

/// The lines of the stream that a separator has closed: all but the final,
/// still unterminated segment.
pub open spec fn complete_lines(s: Seq<u8>) -> Seq<Seq<u8>> {
    split_lines(s).drop_last()
}

pub proof fn lemma_split_lines_nonempty(s: Seq<u8>)
    ensures
        split_lines(s).len() >= 1,
    decreases s.len(),
{
    if s.len() > 0 {
        lemma_split_lines_nonempty(s.drop_last());
    }
}

/// Appending a separator closes the current segment and opens an empty one.
pub proof fn lemma_split_push_sep(s: Seq<u8>, b: u8)
    requires
        is_line_sep(b),
    ensures
        split_lines(s.push(b)) == split_lines(s).push(Seq::<u8>::empty()),
        complete_lines(s.push(b)) == complete_lines(s).push(split_lines(s).last()),
{
    lemma_split_lines_nonempty(s);
    assert(s.push(b).drop_last() =~= s);
    assert(split_lines(s.push(b)) == split_lines(s).push(Seq::<u8>::empty()));
    assert(complete_lines(s.push(b)) =~= complete_lines(s).push(split_lines(s).last()));
}

/// Appending any other byte extends the final segment and closes nothing.
pub proof fn lemma_split_push_other(s: Seq<u8>, b: u8)
    requires
        !is_line_sep(b),
    ensures
        split_lines(s.push(b)).last() == split_lines(s).last().push(b),
        complete_lines(s.push(b)) == complete_lines(s),
        split_lines(s.push(b)).len() == split_lines(s).len(),
    decreases s.len(),
{
    lemma_split_lines_nonempty(s);
    assert(s.push(b).drop_last() =~= s);
    let init = split_lines(s);
    let upd = init.update(init.len() - 1, init.last().push(b));
    assert(split_lines(s.push(b)) == upd);
    assert(upd.last() == init.last().push(b));
    assert(upd.drop_last() =~= init.drop_last());
}

// ---------------------------------------------------------------------------
// Classifying one line
// ---------------------------------------------------------------------------
/// A line has the shape of a progress marker iff it starts with `[` (byte
/// 91), ends with `%` (byte 37) and is at least 4 bytes long.
pub open spec fn is_progress_shape(l: Seq<u8>) -> bool {
    l.len() >= 4 && l[0] == 91 && l.last() == 37
}

/// The three bytes immediately preceding the trailing `%`.
pub open spec fn progress_window(l: Seq<u8>) -> Seq<u8> {
    l.subrange(l.len() - 4, l.len() - 1)
}

/// A line that goes to the diagnostic transcript: non-empty and not shaped
/// like a progress marker. (A progress-shaped line whose digits fail to
/// parse is silently dropped, so it is not diagnostic either.)
pub open spec fn is_diagnostic(l: Seq<u8>) -> bool {
    !is_progress_shape(l) && l.len() > 0
}

/// Leading ASCII whitespace removed.
pub open spec fn trim_start(s: Seq<u8>) -> Seq<u8>
    decreases s.len(),
{
    if s.len() == 0 {
        s
    } else if is_ascii_ws(s[0]) {
        trim_start(s.drop_first())
    } else {
        s
    }
}

/// Trailing ASCII whitespace removed.
pub open spec fn trim_end(s: Seq<u8>) -> Seq<u8>
    decreases s.len(),
{
    if s.len() == 0 {
        s
    } else if is_ascii_ws(s.last()) {
        trim_end(s.drop_last())
    } else {
        s
    }
}

/// Surrounding ASCII whitespace removed.
pub open spec fn trim_ws(s: Seq<u8>) -> Seq<u8> {
    trim_end(trim_start(s))
}

pub open spec fn all_digits(s: Seq<u8>) -> bool {
    forall|i: int| 0 <= i < s.len() ==> is_ascii_digit(#[trigger] s[i])
}

/// The value of a run of decimal digits, most significant first.
pub open spec fn digits_val(s: Seq<u8>) -> int
    decreases s.len(),
{
    if s.len() == 0 {
        0
    } else {
        10 * digits_val(s.drop_last()) + (s.last() - 48)
    }
}

/// Base-10 integer parsing of a trimmed byte run: an optional single sign
/// (`+` is byte 43, `-` is byte 45) followed by at least one digit, nothing
/// else accepted.
pub open spec fn parse_int(s: Seq<u8>) -> Option<int> {
    if s.len() == 0 {
        Option::None
    } else if s[0] == 43 {
        if s.len() > 1 && all_digits(s.drop_first()) {
            Option::Some(digits_val(s.drop_first()))
        } else {
            Option::None
        }
    } else if s[0] == 45 {
        if s.len() > 1 && all_digits(s.drop_first()) {
            Option::Some(-digits_val(s.drop_first()))
        } else {
            Option::None
        }
    } else if all_digits(s) {
        Option::Some(digits_val(s))
    } else {
        Option::None
    }
}

/// The progress value a line carries: its trimmed three-byte window parsed
/// as an integer, for lines of the progress shape; nothing otherwise.
pub open spec fn line_value(l: Seq<u8>) -> Option<int> {
    if is_progress_shape(l) {
        parse_int(trim_ws(progress_window(l)))
    } else {
        Option::None
    }
}

pub proof fn lemma_digits_val_bound(s: Seq<u8>)
    requires
        all_digits(s),
    ensures
        0 <= digits_val(s),
        s.len() <= 1 ==> digits_val(s) <= 9,
        s.len() <= 2 ==> digits_val(s) <= 99,
        s.len() <= 3 ==> digits_val(s) <= 999,
    decreases s.len(),
{
    if s.len() > 0 {
        assert(forall|i: int|
            0 <= i < s.drop_last().len() ==> is_ascii_digit(#[trigger] s.drop_last()[i]));
        lemma_digits_val_bound(s.drop_last());
    }
}

// ---------------------------------------------------------------------------
// Executable classification of one line
// ---------------------------------------------------------------------------
fn ws_byte(b: u8) -> (r: bool)
    ensures
        r == is_ascii_ws(b),
{
    b == 32 || (9 <= b && b <= 13)
}

fn progress_shape(line: &[u8]) -> (r: bool)
    ensures
        r == is_progress_shape(line@),
{
    let n = line.len();
    n >= 4 && line[0] == 91 && line[n - 1] == 37
}

/// The progress value of a line, or nothing where the line does not have the
/// progress shape or its window does not parse.
#[verifier::loop_isolation(false)]
#[verifier::rlimit(60)]
fn line_progress_value(line: &[u8]) -> (r: Option<i32>)
    ensures
        r matches Some(v) ==> line_value(line@) == Option::Some(v as int) && -99 <= v <= 999,
        r is None ==> line_value(line@) is None,
{
    let n = line.len();
    if n < 4 || line[0] != 91 || line[n - 1] != 37 {
        return None;
    }
    let mut w: Vec<u8> = Vec::new();
    w.push(line[n - 4]);
    w.push(line[n - 3]);
    w.push(line[n - 2]);
    proof {
        assert(w@ =~= progress_window(line@));
    }
    // trim leading whitespace of the window
    proof {
        assert(w@.subrange(0, 3) =~= w@);
    }
    let mut lo: usize = 0;
    while lo < 3 && ws_byte(w[lo])
        invariant
            0 <= lo <= 3,
            w@.len() == 3,
            trim_start(w@) == trim_start(w@.subrange(lo as int, 3)),
        decreases 3 - lo,
    {
        proof {
            assert(w@.subrange(lo as int, 3).drop_first() =~= w@.subrange(lo as int + 1, 3));
            assert(w@.subrange(lo as int, 3)[0] == w@[lo as int]);
        }
        lo = lo + 1;
    }
    if lo == 3 {
        proof {
            assert(w@.subrange(3, 3) =~= Seq::<u8>::empty());
            assert(trim_ws(w@) == Seq::<u8>::empty());
        }
        return None;
    }
    proof {
        assert(trim_start(w@) == w@.subrange(lo as int, 3));
    }
    // trim trailing whitespace of the window
    let mut hi: usize = 3;
    while hi > lo && ws_byte(w[hi - 1])
        invariant
            lo < hi <= 3,
            lo < 3,
            w@.len() == 3,
            !is_ascii_ws(w@[lo as int]),
            trim_end(w@.subrange(lo as int, 3)) == trim_end(w@.subrange(lo as int, hi as int)),
        decreases hi,
    {
        proof {
            assert(w@.subrange(lo as int, hi as int).drop_last() =~= w@.subrange(
                lo as int,
                hi as int - 1,
            ));
            assert(w@.subrange(lo as int, hi as int).last() == w@[hi as int - 1]);
        }
        hi = hi - 1;
    }
    proof {
        if hi == lo {
            assert(w@.subrange(lo as int, lo as int) =~= Seq::<u8>::empty());
        } else {
            assert(w@.subrange(lo as int, hi as int).last() == w@[hi as int - 1]);
        }
        assert(hi > lo);
        assert(trim_ws(w@) == w@.subrange(lo as int, hi as int));
    }
    let ghost t = w@.subrange(lo as int, hi as int);
    // optional sign
    let first = w[lo];
    let neg = first == 45;
    let start = if first == 43 || first == 45 {
        lo + 1
    } else {
        lo
    };
    proof {
        assert(t[0] == w@[lo as int]);
        if start > lo {
            assert(t.drop_first() =~= w@.subrange(start as int, hi as int));
        }
    }
    if start == hi {
        // a sign with no digits after it
        return None;
    }
    let mut val: i32 = 0;
    let mut k: usize = start;
    while k < hi
        invariant
            start <= k <= hi,
            lo <= start <= lo + 1,
            start < hi <= 3,
            lo < 3,
            w@.len() == 3,
            all_digits(w@.subrange(start as int, k as int)),
            val == digits_val(w@.subrange(start as int, k as int)),
            0 <= val <= 999,
        decreases hi - k,
    {
        let b = w[k];
        if b < 48 || b > 57 {
            proof {
                assert(w@.subrange(start as int, hi as int)[k - start] == w@[k as int]);
                assert(!all_digits(w@.subrange(start as int, hi as int)));
                if start > lo {
                    assert(t.drop_first() =~= w@.subrange(start as int, hi as int));
                } else {
                    assert(t =~= w@.subrange(start as int, hi as int));
                }
            }
            return None;
        }
        proof {
            lemma_digits_val_bound(w@.subrange(start as int, k as int));
            assert(w@.subrange(start as int, k as int).len() == k - start <= 2);
            assert(w@.subrange(start as int, k as int + 1).drop_last() =~= w@.subrange(
                start as int,
                k as int,
            ));
            assert(w@.subrange(start as int, k as int + 1).last() == w@[k as int]);
            assert(forall|i: int|
                0 <= i < k - start + 1 ==> is_ascii_digit(
                    #[trigger] w@.subrange(start as int, k as int + 1)[i],
                ));
        }
        val = val * 10 + (b - 48) as i32;
        k = k + 1;
    }
    proof {
        assert(w@.subrange(start as int, hi as int) == w@.subrange(start as int, k as int));
        lemma_digits_val_bound(w@.subrange(start as int, hi as int));
        if start > lo {
            assert(t.drop_first() =~= w@.subrange(start as int, hi as int));
            assert(t.len() > 1);
        } else {
            assert(t =~= w@.subrange(start as int, hi as int));
            assert(is_ascii_digit(t[0]));
        }
    }
    if neg {
        proof {
            assert(w@.subrange(start as int, hi as int).len() <= 2);
        }
        Some(-val)
    } else {
        Some(val)
    }
}

// ---------------------------------------------------------------------------
// Folding a run of lines into emissions, a last value, and a transcript
// ---------------------------------------------------------------------------
/// The last value handed to the callback after these lines, starting from 0:
/// the value of the last line that carries one.
pub open spec fn last_value_of(lines: Seq<Seq<u8>>) -> int
    decreases lines.len(),
{
    if lines.len() == 0 {
        0
    } else {
        match line_value(lines.last()) {
            Option::Some(v) => v,
            Option::None => last_value_of(lines.drop_last()),
        }
    }
}

/// The values handed to the callback for these lines, in order: each parsed
/// progress value that differs from the value last emitted before it.
pub open spec fn emitted_of(lines: Seq<Seq<u8>>) -> Seq<int>
    decreases lines.len(),
{
    if lines.len() == 0 {
        Seq::<int>::empty()
    } else {
        let prev = emitted_of(lines.drop_last());
        match line_value(lines.last()) {
            Option::Some(v) => if v == last_value_of(lines.drop_last()) {
                prev
            } else {
                prev.push(v)
            },
            Option::None => prev,
        }
    }
}

/// The diagnostic transcript of these lines: each non-progress, non-empty
/// line in order, each terminated by a single line feed.
pub open spec fn transcript_of(lines: Seq<Seq<u8>>) -> Seq<u8>
    decreases lines.len(),
{
    if lines.len() == 0 {
        Seq::<u8>::empty()
    } else {
        transcript_of(lines.drop_last()) + (if is_diagnostic(lines.last()) {
            lines.last().push(10u8)
        } else {
            Seq::<u8>::empty()
        })
    }
}

/// What one more complete line does to the last emitted value.
pub open spec fn step_last(last: int, l: Seq<u8>) -> int {
    match line_value(l) {
        Option::Some(v) => v,
        Option::None => last,
    }
}

/// What one more complete line hands to the callback.
pub open spec fn step_emit(last: int, l: Seq<u8>) -> Seq<int> {
    match line_value(l) {
        Option::Some(v) => if v == last {
            Seq::<int>::empty()
        } else {
            seq![v]
        },
        Option::None => Seq::<int>::empty(),
    }
}

/// What one more complete line adds to the transcript.
pub open spec fn step_transcript(l: Seq<u8>) -> Seq<u8> {
    if is_diagnostic(l) {
        l.push(10u8)
    } else {
        Seq::<u8>::empty()
    }
}

/// The three folds above advance by exactly one step per appended line.
pub proof fn lemma_fold_push(lines: Seq<Seq<u8>>, l: Seq<u8>)
    ensures
        last_value_of(lines.push(l)) == step_last(last_value_of(lines), l),
        emitted_of(lines.push(l)) == emitted_of(lines) + step_emit(last_value_of(lines), l),
        transcript_of(lines.push(l)) == transcript_of(lines) + step_transcript(l),
{
    assert(lines.push(l).drop_last() =~= lines);
    assert(lines.push(l).last() == l);
    match line_value(l) {
        Option::Some(v) => {
            if v == last_value_of(lines) {
                assert(emitted_of(lines.push(l)) =~= emitted_of(lines) + step_emit(
                    last_value_of(lines),
                    l,
                ));
            } else {
                assert(emitted_of(lines.push(l)) =~= emitted_of(lines) + step_emit(
                    last_value_of(lines),
                    l,
                ));
            }
        },
        Option::None => {
            assert(emitted_of(lines.push(l)) =~= emitted_of(lines) + step_emit(
                last_value_of(lines),
                l,
            ));
        },
    }
}

/// The values of a run of `i32` events, as mathematical integers.
pub open spec fn ints_of(s: Seq<i32>) -> Seq<int> {
    s.map_values(|v: i32| v as int)
}

// ---------------------------------------------------------------------------
// Laws of the fold
// ---------------------------------------------------------------------------
/// The parsed progress values of a run of lines, in order; lines that carry
/// no value contribute nothing.
pub open spec fn progress_values(lines: Seq<Seq<u8>>) -> Seq<int>
    decreases lines.len(),
{
    if lines.len() == 0 {
        Seq::<int>::empty()
    } else {
        progress_values(lines.drop_last()) + (match line_value(lines.last()) {
            Option::Some(v) => seq![v],
            Option::None => Seq::<int>::empty(),
        })
    }
}

/// The last of a run of values, or the seed where the run is empty.
pub open spec fn last_of(prev: int, vs: Seq<int>) -> int {
    if vs.len() == 0 {
        prev
    } else {
        vs.last()
    }
}

/// A run of values with every element equal to its predecessor removed,
/// where the first element's predecessor is the seed `prev`.
pub open spec fn collapse_from(prev: int, vs: Seq<int>) -> Seq<int>
    decreases vs.len(),
{
    if vs.len() == 0 {
        Seq::<int>::empty()
    } else {
        collapse_from(prev, vs.drop_last()) + (if vs.last() == last_of(prev, vs.drop_last()) {
            Seq::<int>::empty()
        } else {
            seq![vs.last()]
        })
    }
}

/// A run of values with consecutive repeats collapsed to one.
pub open spec fn collapsed(vs: Seq<int>) -> Seq<int>
    decreases vs.len(),
{
    if vs.len() == 0 {
        Seq::<int>::empty()
    } else {
        collapsed(vs.drop_last()) + (if vs.len() >= 2 && vs.last() == vs[vs.len() - 2] {
            Seq::<int>::empty()
        } else {
            seq![vs.last()]
        })
    }
}

/// The lines of a run that belong to the diagnostic transcript, in order.
pub open spec fn diagnostic_lines(lines: Seq<Seq<u8>>) -> Seq<Seq<u8>>
    decreases lines.len(),
{
    if lines.len() == 0 {
        Seq::<Seq<u8>>::empty()
    } else {
        diagnostic_lines(lines.drop_last()) + (if is_diagnostic(lines.last()) {
            seq![lines.last()]
        } else {
            Seq::<Seq<u8>>::empty()
        })
    }
}

/// A run of lines joined into one byte run, each line terminated by a single
/// line feed.
pub open spec fn joined_lines(lines: Seq<Seq<u8>>) -> Seq<u8>
    decreases lines.len(),
{
    if lines.len() == 0 {
        Seq::<u8>::empty()
    } else {
        joined_lines(lines.drop_last()) + lines.last().push(10u8)
    }
}

/// The value last emitted after a run of lines is the last parsed progress
/// value of the run, or the initial 0 where the run carries none.
pub proof fn lemma_last_value_is_last_progress(lines: Seq<Seq<u8>>)
    ensures
        last_value_of(lines) == last_of(0, progress_values(lines)),
    decreases lines.len(),
{
    if lines.len() > 0 {
        let init = lines.drop_last();
        lemma_last_value_is_last_progress(init);
        match line_value(lines.last()) {
            Option::Some(v) => {
                assert(progress_values(lines) =~= progress_values(init).push(v));
            },
            Option::None => {
                assert(progress_values(lines) =~= progress_values(init));
            },
        }
    }
}

/// The callback sequence of a run of lines is determined by its parsed
/// progress values alone: it is those values, each dropped where it repeats
/// its predecessor, with the initial last-emitted value 0 as the seed. Lines
/// without a parsed value — diagnostics, and progress-shaped lines whose
/// window fails to parse — never reach the callback.
pub proof fn lemma_emitted_is_collapse(lines: Seq<Seq<u8>>)
    ensures
        emitted_of(lines) == collapse_from(0, progress_values(lines)),
    decreases lines.len(),
{
    if lines.len() > 0 {
        let init = lines.drop_last();
        lemma_emitted_is_collapse(init);
        lemma_last_value_is_last_progress(init);
        match line_value(lines.last()) {
            Option::Some(v) => {
                let pv = progress_values(init);
                assert(progress_values(lines) =~= pv.push(v));
                assert(pv.push(v).drop_last() =~= pv);
                assert(emitted_of(lines) =~= collapse_from(0, progress_values(lines)));
            },
            Option::None => {
                assert(progress_values(lines) =~= progress_values(init));
                assert(emitted_of(lines) =~= collapse_from(0, progress_values(lines)));
            },
        }
    }
}

/// Collapsing with a seed that differs from the first value is plain
/// collapsing of consecutive repeats.
pub proof fn lemma_collapse_from_fresh(prev: int, vs: Seq<int>)
    requires
        vs.len() == 0 || vs[0] != prev,
    ensures
        collapse_from(prev, vs) == collapsed(vs),
    decreases vs.len(),
{
    if vs.len() > 0 {
        let init = vs.drop_last();
        if init.len() > 0 {
            assert(init[0] == vs[0]);
        }
        lemma_collapse_from_fresh(prev, init);
        if init.len() == 0 {
            assert(last_of(prev, init) == prev);
            assert(vs.last() == vs[0]);
        } else {
            assert(last_of(prev, init) == init.last());
            assert(init.last() == vs[vs.len() - 2]);
        }
    }
}

/// For a run of lines whose first parsed value is not the initial 0, the
/// callback sequence is exactly the parsed values with consecutive repeats
/// collapsed. (A leading 0 is indistinguishable from the initial state and
/// is not emitted, so it is left out here.)
pub proof fn lemma_events_collapse_duplicates(lines: Seq<Seq<u8>>)
    requires
        progress_values(lines).len() == 0 || progress_values(lines)[0] != 0,
    ensures
        emitted_of(lines) == collapsed(progress_values(lines)),
{
    lemma_emitted_is_collapse(lines);
    lemma_collapse_from_fresh(0, progress_values(lines));
}

/// The transcript of a run of lines is exactly its diagnostic lines — the
/// non-empty lines without the progress shape — joined in order, each
/// followed by one line feed.
pub proof fn lemma_transcript_is_diagnostics(lines: Seq<Seq<u8>>)
    ensures
        transcript_of(lines) == joined_lines(diagnostic_lines(lines)),
    decreases lines.len(),
{
    if lines.len() > 0 {
        let init = lines.drop_last();
        lemma_transcript_is_diagnostics(init);
        if is_diagnostic(lines.last()) {
            let dl = diagnostic_lines(init);
            assert(diagnostic_lines(lines) =~= dl.push(lines.last()));
            assert(dl.push(lines.last()).drop_last() =~= dl);
            assert(transcript_of(lines) =~= joined_lines(diagnostic_lines(lines)));
        } else {
            assert(diagnostic_lines(lines) =~= diagnostic_lines(init));
            assert(transcript_of(lines) =~= joined_lines(diagnostic_lines(lines)));
        }
    }
}

// ---------------------------------------------------------------------------
// The incremental parser
// ---------------------------------------------------------------------------
/// Consumes the child's output byte stream chunk by chunk, with no assumption
/// that a chunk boundary aligns with a line boundary, and turns it into
/// progress events — one per parsed value that differs from the value last
/// emitted — and a diagnostic transcript of the non-progress lines.
pub struct OutputParser {
    /// The bytes of the final, still unterminated line.
    buffer: Vec<u8>,
    /// The progress value last handed to the caller, initially 0.
    last_value: i32,
    /// The transcript accumulated from the complete lines so far.
    transcript: Vec<u8>,
    /// All bytes fed so far.
    history: Ghost<Seq<u8>>,
}

impl OutputParser {
    /// All bytes fed to the parser so far.
    pub closed spec fn bytes_seen(self) -> Seq<u8> {
        self.history@
    }

    /// The parser state is exactly the fold of the bytes seen so far.
    pub closed spec fn wf(self) -> bool {
        &&& self.buffer@ == split_lines(self.history@).last()
        &&& self.last_value as int == last_value_of(complete_lines(self.history@))
        &&& self.transcript@ == transcript_of(complete_lines(self.history@))
    }

    /// A parser that has seen nothing.
    pub fn new() -> (r: OutputParser)
        ensures
            r.wf(),
            r.bytes_seen() == Seq::<u8>::empty(),
    {
        let r = OutputParser {
            buffer: Vec::new(),
            last_value: 0,
            transcript: Vec::new(),
            history: Ghost(Seq::empty()),
        };
        proof {
            assert(split_lines(Seq::<u8>::empty()) == seq![Seq::<u8>::empty()]);
            assert(complete_lines(Seq::<u8>::empty()) =~= Seq::<Seq<u8>>::empty());
        }
        r
    }

    /// Process the buffered bytes as one complete line: emit its value if it
    /// is a fresh one, or append it to the transcript if it is diagnostic,
    /// and leave the buffer empty. The record of bytes seen is untouched.
    fn consume_line(&mut self) -> (ev: Option<i32>)
        ensures
            final(self).buffer@ == Seq::<u8>::empty(),
            final(self).history == old(self).history,
            final(self).last_value as int == step_last(
                old(self).last_value as int,
                old(self).buffer@,
            ),
            (match ev {
                Option::Some(v) => seq![v as int],
                Option::None => Seq::<int>::empty(),
            }) == step_emit(old(self).last_value as int, old(self).buffer@),
            final(self).transcript@ == old(self).transcript@ + step_transcript(old(self).buffer@),
    {
        if progress_shape(self.buffer.as_slice()) {
            let parsed = line_progress_value(self.buffer.as_slice());
            self.buffer.clear();
            match parsed {
                Some(v) => {
                    if v != self.last_value {
                        self.last_value = v;
                        proof {
                            assert(old(self).transcript@ + step_transcript(old(self).buffer@)
                                =~= old(self).transcript@);
                        }
                        Some(v)
                    } else {
                        proof {
                            assert(old(self).transcript@ + step_transcript(old(self).buffer@)
                                =~= old(self).transcript@);
                        }
                        None
                    }
                },
                None => {
                    proof {
                        assert(old(self).transcript@ + step_transcript(old(self).buffer@) =~= old(
                            self,
                        ).transcript@);
                    }
                    None
                },
            }
        } else if self.buffer.len() > 0 {
            self.transcript.append(&mut self.buffer);
            self.transcript.push(10);
            proof {
                assert(self.transcript@ =~= old(self).transcript@ + step_transcript(
                    old(self).buffer@,
                ));
            }
            None
        } else {
            proof {
                assert(old(self).transcript@ + step_transcript(old(self).buffer@) =~= old(
                    self,
                ).transcript@);
            }
            None
        }
    }

    /// Feed one chunk of the child's output. Returns the progress events the
    /// chunk completes, in order: the values handed to the callback are
    /// exactly those the whole stream determines, however it is chunked.
    pub fn feed(&mut self, chunk: &[u8]) -> (events: Vec<i32>)
        requires
            old(self).wf(),
        ensures
            final(self).wf(),
            final(self).bytes_seen() == old(self).bytes_seen() + chunk@,
            emitted_of(complete_lines(old(self).bytes_seen())) + ints_of(events@) == emitted_of(
                complete_lines(final(self).bytes_seen()),
            ),
    {
        let ghost h0 = self.history@;
        let mut events: Vec<i32> = Vec::new();
        let mut i: usize = 0;
        while i < chunk.len()
            invariant
                0 <= i <= chunk.len(),
                self.wf(),
                self.history@ == h0 + chunk@.subrange(0, i as int),
                emitted_of(complete_lines(h0)) + ints_of(events@) == emitted_of(
                    complete_lines(self.history@),
                ),
            decreases chunk.len() - i,
        {
            let ghost h = self.history@;
            let b = chunk[i];
            if b == 10 || b == 13 {
                proof {
                    lemma_split_lines_nonempty(h);
                    lemma_split_push_sep(h, b);
                    lemma_fold_push(complete_lines(h), split_lines(h).last());
                }
                let ev = self.consume_line();
                proof {
                    self.history@ = h.push(b);
                }
                match ev {
                    Some(v) => {
                        events.push(v);
                        proof {
                            assert(ints_of(events@) =~= ints_of(events@.drop_last()) + seq![
                                v as int,
                            ]);
                            assert(emitted_of(complete_lines(h0)) + ints_of(events@) =~= emitted_of(
                                complete_lines(self.history@),
                            ));
                        }
                    },
                    None => {
                        proof {
                            assert(emitted_of(complete_lines(h0)) + ints_of(events@) =~= emitted_of(
                                complete_lines(self.history@),
                            ));
                        }
                    },
                }
            } else {
                self.buffer.push(b);
                proof {
                    self.history@ = h.push(b);
                    lemma_split_push_other(h, b);
                }
            }
            proof {
                assert(h0 + chunk@.subrange(0, i as int + 1) =~= (h0 + chunk@.subrange(
                    0,
                    i as int,
                )).push(chunk@[i as int]));
            }
            i = i + 1;
        }
        proof {
            assert(h0 + chunk@.subrange(0, chunk@.len() as int) =~= h0 + chunk@);
        }
        events
    }

    /// End of stream: the final unterminated line is processed like any
    /// other, and the parser hands back its last events together with the
    /// full diagnostic transcript of the whole stream.
    pub fn finish(self) -> (r: (Vec<i32>, Vec<u8>))
        requires
            self.wf(),
        ensures
            emitted_of(complete_lines(self.bytes_seen())) + ints_of(r.0@) == emitted_of(
                split_lines(self.bytes_seen()),
            ),
            r.1@ == transcript_of(split_lines(self.bytes_seen())),
    {
        let ghost h = self.history@;
        let mut p = self;
        let ev = p.consume_line();
        proof {
            lemma_split_lines_nonempty(h);
            assert(split_lines(h) =~= complete_lines(h).push(split_lines(h).last()));
            lemma_fold_push(complete_lines(h), split_lines(h).last());
        }
        let mut events: Vec<i32> = Vec::new();
        match ev {
            Some(v) => {
                events.push(v);
                proof {
                    assert(ints_of(events@) =~= seq![v as int]);
                }
            },
            None => {
                proof {
                    assert(ints_of(events@) =~= Seq::<int>::empty());
                }
            },
        }
        (events, p.transcript)
    }
}

} // verus!
