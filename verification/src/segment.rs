//! What splitting a reply into segments yields, and the laws it keeps.

use vstd::prelude::*;

use crate::form::{lemma_split_seq_len, lemma_split_without_separator, split_seq};
use crate::text::{is_white_space, trim_end};

verus! {

/// The consecutive pieces of at most `max` characters that an over-long line
/// is cut into.
pub open spec fn hard_chunks(line: Seq<char>, max: nat) -> Seq<Seq<char>>
    decreases line.len(),
{
    if line.len() == 0 || max == 0 {
        Seq::empty()
    } else if line.len() <= max {
        seq![line]
    } else {
        seq![line.take(max as int)] + hard_chunks(line.skip(max as int), max)
    }
}

/// One step of the segmenter: the finished segments and the segment being
/// filled, after the line `line`.
pub open spec fn split_step(
    segs: Seq<Seq<char>>,
    cur: Seq<char>,
    line: Seq<char>,
    max: nat,
) -> (Seq<Seq<char>>, Seq<char>) {
    let flush = cur.len() > 0 && cur.len() + line.len() + 1 > max;
    let segs1 = if flush {
        segs.push(trim_end(cur))
    } else {
        segs
    };
    let cur1 = if flush {
        Seq::empty()
    } else {
        cur
    };
    if line.len() > max {
        let segs2 = if cur1.len() > 0 {
            segs1.push(trim_end(cur1))
        } else {
            segs1
        };
        (segs2 + hard_chunks(line, max), Seq::empty())
    } else if cur1.len() > 0 {
        (segs1, cur1.push('\n') + line)
    } else {
        (segs1, cur1 + line)
    }
}

/// The segmenter's state after the given lines.
pub open spec fn split_run(lines: Seq<Seq<char>>, max: nat) -> (Seq<Seq<char>>, Seq<char>)
    decreases lines.len(),
{
    if lines.len() == 0 {
        (Seq::empty(), Seq::empty())
    } else {
        let prev = split_run(lines.drop_last(), max);
        split_step(prev.0, prev.1, lines.last(), max)
    }
}

/// The segments of `text` for the limit `max`: consecutive lines are gathered
/// into one segment, joined by line breaks, while it stays within `max`
/// characters; a line longer than `max` characters is cut into pieces of `max`
/// characters; trailing whitespace is trimmed from gathered segments, and an
/// empty last one is dropped. With `max == 0` the text is one segment (none
/// when it is empty).
pub open spec fn split_message_spec(text: Seq<char>, max: nat) -> Seq<Seq<char>> {
    if max == 0 {
        if text.len() == 0 {
            Seq::empty()
        } else {
            seq![text]
        }
    } else {
        let st = split_run(split_seq(text, '\n'), max);
        let tail = trim_end(st.1);
        if tail.len() > 0 {
            st.0.push(tail)
        } else {
            st.0
        }
    }
}

/// The parts joined with `sep` between each two (what `join` on a slice of strings returns).
pub open spec fn join_with(parts: Seq<Seq<char>>, sep: char) -> Seq<char>
    decreases parts.len(),
{
    if parts.len() == 0 {
        Seq::empty()
    } else if parts.len() == 1 {
        parts[0]
    } else {
        join_with(parts.drop_last(), sep).push(sep) + parts.last()
    }
}

// ---------------------------------------------------------------------------
// Lemmas
// ---------------------------------------------------------------------------

pub proof fn lemma_trim_end_prefix(s: Seq<char>)
    ensures
        trim_end(s).len() <= s.len(),
        trim_end(s) == s.take(trim_end(s).len() as int),
    decreases s.len(),
{
    if s.len() > 0 && is_white_space(s.last()) {
        lemma_trim_end_prefix(s.drop_last());
        assert(s.drop_last().take(trim_end(s).len() as int) =~= s.take(
            trim_end(s).len() as int,
        ));
    } else {
        assert(s.take(s.len() as int) =~= s);
    }
}

proof fn lemma_trim_end_bounds(s: Seq<char>)
    ensures
        trim_end(s).len() <= s.len(),
{
    lemma_trim_end_prefix(s);
}

proof fn lemma_hard_chunks_bound(line: Seq<char>, max: nat)
    ensures
        forall|i: int|
            0 <= i < hard_chunks(line, max).len() ==> (#[trigger] hard_chunks(line, max)[i]).len()
                <= max,
    decreases line.len(),
{
    if line.len() > 0 && max > 0 && line.len() > max {
        lemma_hard_chunks_bound(line.skip(max as int), max);
        let h = hard_chunks(line, max);
        let r = hard_chunks(line.skip(max as int), max);
        assert forall|i: int| 0 <= i < h.len() implies (#[trigger] h[i]).len() <= max by {
            if i > 0 {
                assert(h[i] == r[i - 1]);
            }
        }
    }
}

/// Every segment so far, and the segment being filled, has at most `max` characters.
proof fn lemma_split_run_bounds(lines: Seq<Seq<char>>, max: nat)
    requires
        max > 0,
    ensures
        forall|i: int|
            0 <= i < split_run(lines, max).0.len() ==> (#[trigger] split_run(lines, max).0[i]).len()
                <= max,
        split_run(lines, max).1.len() <= max,
    decreases lines.len(),
{
    if lines.len() > 0 {
        lemma_split_run_bounds(lines.drop_last(), max);
        let prev = split_run(lines.drop_last(), max);
        let (segs, cur) = prev;
        let line = lines.last();
        let st = split_run(lines, max);
        lemma_trim_end_bounds(cur);
        lemma_hard_chunks_bound(line, max);
        let flush = cur.len() > 0 && cur.len() + line.len() + 1 > max;
        let segs1 = if flush {
            segs.push(trim_end(cur))
        } else {
            segs
        };
        let cur1 = if flush {
            Seq::<char>::empty()
        } else {
            cur
        };
        assert forall|i: int| 0 <= i < segs1.len() implies (#[trigger] segs1[i]).len() <= max by {
            if i < segs.len() {
                assert(segs1[i] == segs[i]);
            }
        }
        if line.len() > max {
            lemma_trim_end_bounds(cur1);
            let segs2 = if cur1.len() > 0 {
                segs1.push(trim_end(cur1))
            } else {
                segs1
            };
            assert forall|i: int| 0 <= i < segs2.len() implies (#[trigger] segs2[i]).len()
                <= max by {
                if i < segs1.len() {
                    assert(segs2[i] == segs1[i]);
                }
            }
            let h = hard_chunks(line, max);
            assert forall|i: int| 0 <= i < st.0.len() implies (#[trigger] st.0[i]).len()
                <= max by {
                if i < segs2.len() {
                    assert(st.0[i] == segs2[i]);
                } else {
                    assert(st.0[i] == h[i - segs2.len()]);
                }
            }
        }
    }
}

/// Law: for a positive limit, every segment has at most `max` characters.
pub proof fn lemma_segments_within_limit(text: Seq<char>, max: nat)
    requires
        max > 0,
    ensures
        forall|i: int|
            0 <= i < split_message_spec(text, max).len() ==> (#[trigger] split_message_spec(
                text,
                max,
            )[i]).len() <= max,
{
    let lines = split_seq(text, '\n');
    lemma_split_run_bounds(lines, max);
    let st = split_run(lines, max);
    lemma_trim_end_bounds(st.1);
    let r = split_message_spec(text, max);
    assert forall|i: int| 0 <= i < r.len() implies (#[trigger] r[i]).len() <= max by {
        if i < st.0.len() {
            assert(r[i] == st.0[i]);
        }
    }
}

proof fn lemma_join_push_last(p: Seq<Seq<char>>, c: char, sep: char)
    requires
        p.len() > 0,
    ensures
        join_with(p.update(p.len() - 1, p.last().push(c)), sep) == join_with(p, sep).push(c),
{
    let q = p.update(p.len() - 1, p.last().push(c));
    if p.len() == 1 {
    } else {
        assert(q.drop_last() =~= p.drop_last());
        assert(join_with(q, sep) =~= join_with(p, sep).push(c));
    }
}

/// Joining the pieces of a split with the separator gives back the sequence.
pub proof fn lemma_join_split(s: Seq<char>, sep: char)
    ensures
        join_with(split_seq(s, sep), sep) == s,
    decreases s.len(),
{
    if s.len() == 0 {
    } else {
        lemma_join_split(s.drop_last(), sep);
        lemma_split_seq_len(s.drop_last(), sep);
        let p = split_seq(s.drop_last(), sep);
        if s.last() == sep {
            assert(p.push(Seq::<char>::empty()).drop_last() =~= p);
            assert(join_with(p.push(Seq::<char>::empty()), sep) =~= s);
        } else {
            lemma_join_push_last(p, s.last(), sep);
            assert(s.drop_last().push(s.last()) =~= s);
        }
    }
}

/// A line that the segmenter keeps whole and unchanged.
pub open spec fn plain_line(line: Seq<char>, max: nat) -> bool {
    line.len() > 0 && !is_white_space(line.last()) && line.len() <= max
}

proof fn lemma_trim_end_plain(s: Seq<char>)
    requires
        s.len() > 0,
        !is_white_space(s.last()),
    ensures
        trim_end(s) == s,
{
}

proof fn lemma_split_run_rejoin(lines: Seq<Seq<char>>, max: nat)
    requires
        max > 0,
        lines.len() > 0,
        forall|i: int| 0 <= i < lines.len() ==> plain_line(#[trigger] lines[i], max),
    ensures
        split_run(lines, max).1.len() > 0,
        !is_white_space(split_run(lines, max).1.last()),
        join_with(split_run(lines, max).0.push(split_run(lines, max).1), '\n') == join_with(
            lines,
            '\n',
        ),
    decreases lines.len(),
{
    let d = lines.drop_last();
    let line = lines.last();
    assert(plain_line(lines[lines.len() - 1], max));
    if d.len() == 0 {
        assert(split_run(d, max) == (Seq::<Seq<char>>::empty(), Seq::<char>::empty()));
        assert(Seq::<char>::empty() + line =~= line);
        assert(Seq::<Seq<char>>::empty().push(line) =~= seq![line]);
        assert(lines =~= seq![line]);
    } else {
        assert forall|i: int| 0 <= i < d.len() implies plain_line(#[trigger] d[i], max) by {
            assert(d[i] == lines[i]);
        }
        lemma_split_run_rejoin(d, max);
        let (segs, cur) = split_run(d, max);
        lemma_trim_end_plain(cur);
        let flush = cur.len() + line.len() + 1 > max;
        let st = split_run(lines, max);
        if flush {
            assert(st.0 == segs.push(cur));
            assert(Seq::<char>::empty() + line =~= line);
            assert(st.1 == line);
            assert(st.0.push(st.1).drop_last() =~= segs.push(cur));
        } else {
            let c2 = cur.push('\n') + line;
            assert(st.1 == c2);
            assert(c2.last() == line.last());
            if segs.len() == 0 {
                assert(segs.push(c2) =~= seq![c2]);
                assert(segs.push(cur) =~= seq![cur]);
            } else {
                assert(segs.push(c2).drop_last() =~= segs);
                assert(segs.push(cur).drop_last() =~= segs);
                assert(join_with(segs.push(c2), '\n') =~= join_with(segs.push(cur), '\n').push(
                    '\n',
                ) + line);
            }
        }
    }
}

/// Law: when every line of `text` is non-empty, does not end in whitespace
/// and is at most `max` characters long, joining the segments with line breaks
/// gives back `text`.
pub proof fn lemma_segments_rejoin(text: Seq<char>, max: nat)
    requires
        max > 0,
        forall|i: int|
            0 <= i < split_seq(text, '\n').len() ==> plain_line(
                #[trigger] split_seq(text, '\n')[i],
                max,
            ),
    ensures
        join_with(split_message_spec(text, max), '\n') == text,
{
    let lines = split_seq(text, '\n');
    lemma_split_seq_len(text, '\n');
    lemma_split_run_rejoin(lines, max);
    let st = split_run(lines, max);
    lemma_trim_end_plain(st.1);
    lemma_join_split(text, '\n');
}


/// Law: an over-long line is cut into pieces of exactly `max` characters,
/// except the last, which has at most `max`; together they are the line.
pub proof fn lemma_hard_chunks_cover_line(line: Seq<char>, max: nat)
    requires
        max > 0,
    ensures
        hard_chunks(line, max).flatten() == line,
        forall|i: int|
            0 <= i < hard_chunks(line, max).len() ==> 0 < (#[trigger] hard_chunks(line, max)[i]).len()
                <= max,
        forall|i: int|
            0 <= i < hard_chunks(line, max).len() - 1 ==> (#[trigger] hard_chunks(line, max)[i]).len()
                == max,
    decreases line.len(),
{
    let h = hard_chunks(line, max);
    if line.len() == 0 {
    } else if line.len() <= max {
        assert(h.drop_first() =~= Seq::<Seq<char>>::empty());
        assert(Seq::<Seq<char>>::empty().flatten() =~= Seq::<char>::empty());
        assert(h.flatten() =~= line);
    } else {
        let r = hard_chunks(line.skip(max as int), max);
        lemma_hard_chunks_cover_line(line.skip(max as int), max);
        assert(h.drop_first() =~= r);
        assert(h.first() == line.take(max as int));
        assert(line.take(max as int) + line.skip(max as int) =~= line);
        assert forall|i: int| 0 <= i < h.len() implies 0 < (#[trigger] h[i]).len() <= max by {
            if i > 0 {
                assert(h[i] == r[i - 1]);
            }
        }
        assert forall|i: int| 0 <= i < h.len() - 1 implies (#[trigger] h[i]).len() == max by {
            if i > 0 {
                assert(h[i] == r[i - 1]);
            }
        }
    }
}

/// Law: a single line longer than `max` characters comes out as its hard-split
/// pieces only.
pub proof fn lemma_single_long_line(text: Seq<char>, max: nat)
    requires
        max > 0,
        forall|i: int| 0 <= i < text.len() ==> text[i] != '\n',
        text.len() > max,
    ensures
        split_message_spec(text, max) == hard_chunks(text, max),
{
    lemma_split_without_separator(text, '\n');
    let lines = split_seq(text, '\n');
    assert(lines.drop_last() =~= Seq::<Seq<char>>::empty());
    assert(lines.last() == text);
    assert(split_run(lines.drop_last(), max) == (Seq::<Seq<char>>::empty(), Seq::<char>::empty()));
    let st = split_run(lines, max);
    assert(st == split_step(Seq::<Seq<char>>::empty(), Seq::<char>::empty(), text, max));
    assert(st.0 =~= hard_chunks(text, max));
    assert(st.1 == Seq::<char>::empty());
    assert(trim_end(Seq::<char>::empty()) == Seq::<char>::empty());
    assert(Seq::<Seq<char>>::empty() + hard_chunks(text, max) =~= hard_chunks(text, max));
}


/// A split whose input starts with something other than the separator has a
/// non-empty first piece.
proof fn lemma_split_first_nonempty<A>(s: Seq<A>, sep: A)
    requires
        s.len() > 0,
        s[0] != sep,
    ensures
        split_seq(s, sep).len() >= 1,
        split_seq(s, sep)[0].len() > 0,
    decreases s.len(),
{
    lemma_split_seq_len(s, sep);
    let d = s.drop_last();
    lemma_split_seq_len(d, sep);
    if s.len() == 1 {
        assert(d =~= Seq::<A>::empty());
        assert(split_seq(d, sep) =~= seq![Seq::<A>::empty()]);
    } else {
        assert(d[0] == s[0]);
        lemma_split_first_nonempty(d, sep);
        let p = split_seq(d, sep);
        if s.last() != sep && p.len() == 1 {
            assert(split_seq(s, sep)[0] == p[0].push(s.last()));
        } else {
            assert(split_seq(s, sep)[0] == p[0]);
        }
    }
}

proof fn lemma_join_first_len(parts: Seq<Seq<char>>, sep: char)
    requires
        parts.len() >= 1,
    ensures
        join_with(parts, sep).len() >= parts[0].len(),
    decreases parts.len(),
{
    if parts.len() > 1 {
        lemma_join_first_len(parts.drop_last(), sep);
    }
}

/// Lines whose joined text fits in `max` are all gathered into the segment
/// being filled, line breaks and empty lines included.
proof fn lemma_split_run_gathers(lines: Seq<Seq<char>>, max: nat)
    requires
        lines.len() >= 1,
        lines[0].len() > 0,
        join_with(lines, '\n').len() <= max,
    ensures
        split_run(lines, max) == (Seq::<Seq<char>>::empty(), join_with(lines, '\n')),
    decreases lines.len(),
{
    let d = lines.drop_last();
    let l = lines.last();
    if d.len() == 0 {
        assert(split_run(d, max) == (Seq::<Seq<char>>::empty(), Seq::<char>::empty()));
        assert(Seq::<char>::empty() + l =~= l);
        assert(lines[0] == l);
    } else {
        assert(d[0] == lines[0]);
        lemma_split_run_gathers(d, max);
        lemma_join_first_len(d, '\n');
        let cur = join_with(d, '\n');
        assert(join_with(lines, '\n') == cur.push('\n') + l);
        assert(split_run(lines, max) == split_step(Seq::<Seq<char>>::empty(), cur, l, max));
    }
}

/// Law: a text of at most `max` characters that does not start with a line
/// break comes out as one segment, the text itself with only its trailing
/// whitespace trimmed; every line break and empty line inside it is kept
/// (nothing at all when the text is only whitespace).
pub proof fn lemma_short_text_is_one_segment(text: Seq<char>, max: nat)
    requires
        max > 0,
        text.len() > 0,
        text[0] != '\n',
        text.len() <= max,
    ensures
        split_message_spec(text, max) == (if trim_end(text).len() > 0 {
            seq![trim_end(text)]
        } else {
            Seq::<Seq<char>>::empty()
        }),
{
    let lines = split_seq(text, '\n');
    lemma_split_first_nonempty(text, '\n');
    lemma_join_split(text, '\n');
    lemma_split_run_gathers(lines, max);
    assert(Seq::<Seq<char>>::empty().push(trim_end(text)) =~= seq![trim_end(text)]);
}


proof fn lemma_split_run_trimmed(lines: Seq<Seq<char>>, max: nat)
    requires
        max > 0,
        forall|i: int| 0 <= i < lines.len() ==> (#[trigger] lines[i]).len() <= max,
    ensures
        forall|i: int|
            0 <= i < split_run(lines, max).0.len() ==> trim_end(
                #[trigger] split_run(lines, max).0[i],
            ) == split_run(lines, max).0[i],
    decreases lines.len(),
{
    if lines.len() > 0 {
        let d = lines.drop_last();
        assert forall|i: int| 0 <= i < d.len() implies (#[trigger] d[i]).len() <= max by {
            assert(d[i] == lines[i]);
        }
        lemma_split_run_trimmed(d, max);
        let (segs, cur) = split_run(d, max);
        lemma_trim_end_idempotent(cur);
        assert(lines.last() == lines[lines.len() - 1]);
        let st = split_run(lines, max);
        assert forall|i: int| 0 <= i < st.0.len() implies trim_end(#[trigger] st.0[i])
            == st.0[i] by {
            if i < segs.len() {
                assert(st.0[i] == segs[i]);
            }
        }
    }
}

proof fn lemma_trim_end_idempotent(s: Seq<char>)
    ensures
        trim_end(trim_end(s)) == trim_end(s),
    decreases s.len(),
{
    if s.len() > 0 && is_white_space(s.last()) {
        lemma_trim_end_idempotent(s.drop_last());
    }
}

/// Law: when no line is longer than `max` characters, every segment is a
/// gathered one, so none ends in whitespace (its trailing whitespace was trimmed).
pub proof fn lemma_segments_end_without_whitespace(text: Seq<char>, max: nat)
    requires
        max > 0,
        forall|i: int|
            0 <= i < split_seq(text, '\n').len() ==> (#[trigger] split_seq(text, '\n')[i]).len()
                <= max,
    ensures
        forall|i: int|
            0 <= i < split_message_spec(text, max).len() ==> (#[trigger] split_message_spec(
                text,
                max,
            )[i]).len() == 0 || !is_white_space(split_message_spec(text, max)[i].last()),
{
    let lines = split_seq(text, '\n');
    lemma_split_run_trimmed(lines, max);
    let st = split_run(lines, max);
    lemma_trim_end_idempotent(st.1);
    let r = split_message_spec(text, max);
    assert forall|i: int| 0 <= i < r.len() implies (#[trigger] r[i]).len() == 0
        || !is_white_space(r[i].last()) by {
        let x = r[i];
        assert(trim_end(x) == x) by {
            if i < st.0.len() {
                assert(r[i] == st.0[i]);
            }
        }
        crate::text::lemma_trim_end_shape(x);
    }
}

/// Law: with a zero limit the text is not split at all: one segment holding
/// the whole text, or none for an empty text.
pub proof fn lemma_zero_limit_keeps_text(text: Seq<char>)
    ensures
        split_message_spec(text, 0) == (if text.len() == 0 {
            Seq::<Seq<char>>::empty()
        } else {
            seq![text]
        }),
{
}

} // verus!
