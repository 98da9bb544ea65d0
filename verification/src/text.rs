//! Strings: pieces, lines and their order.

use vstd::prelude::*;
use vstd::string::StringExecFns;

verus! {

/// What a run of strings holds.
pub open spec fn strs(strings: Seq<String>) -> Seq<Seq<char>> {
    strings.map_values(|s: String| s@)
}

/// The pieces of `text` between occurrences of `sep`, in order. There is
/// always at least one piece; pieces may be empty.
pub open spec fn split_on(text: Seq<char>, sep: char) -> Seq<Seq<char>>
    decreases text.len(),
{
    if text.len() == 0 {
        seq![Seq::empty()]
    } else {
        let before = split_on(text.drop_last(), sep);
        if text.last() == sep {
            before.push(Seq::empty())
        } else {
            before.update(before.len() - 1, before.last().push(text.last()))
        }
    }
}

/// A split never comes out empty.
pub proof fn lemma_split_on_nonempty(text: Seq<char>, sep: char)
    ensures
        split_on(text, sep).len() >= 1,
    decreases text.len(),
{
    if text.len() > 0 {
        lemma_split_on_nonempty(text.drop_last(), sep);
    }
}

/// No piece of a split holds the separator.
pub proof fn lemma_split_on_pieces(text: Seq<char>, sep: char)
    ensures
        forall|i: int, j: int|
            0 <= i < split_on(text, sep).len() && 0 <= j < split_on(text, sep)[i].len()
                ==> split_on(text, sep)[i][j] != sep,
    decreases text.len(),
{
    if text.len() > 0 {
        lemma_split_on_pieces(text.drop_last(), sep);
        lemma_split_on_nonempty(text.drop_last(), sep);
    }
}

/// `parts` put together with `sep` between each two of them.
pub open spec fn join(parts: Seq<Seq<char>>, sep: char) -> Seq<char>
    decreases parts.len(),
{
    if parts.len() == 0 {
        Seq::empty()
    } else if parts.len() == 1 {
        parts[0]
    } else {
        join(parts.drop_last(), sep).push(sep) + parts.last()
    }
}

/// A split loses nothing: its pieces, put together again, are the text.
pub proof fn lemma_split_on_join(text: Seq<char>, sep: char)
    ensures
        join(split_on(text, sep), sep) == text,
    decreases text.len(),
{
    let parts = split_on(text, sep);
    if text.len() == 0 {
        assert(join(parts, sep) =~= text);
    } else {
        let init = text.drop_last();
        let before = split_on(init, sep);
        lemma_split_on_join(init, sep);
        lemma_split_on_nonempty(init, sep);
        assert(text =~= init.push(text.last()));
        if text.last() == sep {
            assert(parts.drop_last() =~= before);
            assert(join(parts, sep) =~= join(before, sep).push(sep));
        } else if before.len() == 1 {
            assert(join(parts, sep) =~= before[0].push(text.last()));
        } else {
            assert(parts.drop_last() =~= before.drop_last());
            assert(join(parts, sep) =~= join(before, sep).push(text.last()));
        }
    }
}

/// Splits `text` at every `sep`.
pub fn split(text: &str, sep: char) -> (parts: Vec<String>)
    ensures
        strs(parts@) == split_on(text@, sep),
        parts@.len() >= 1,
{
    let n = text.unicode_len();
    let mut parts: Vec<String> = Vec::new();
    let mut start: usize = 0;
    let mut i: usize = 0;
    proof {
        assert(text@.take(0) =~= Seq::empty());
        assert(text@.subrange(0, 0) =~= Seq::empty());
        assert(strs(parts@) =~= split_on(text@.take(0), sep).drop_last());
    }
    while i < n
        invariant
            n == text@.len(),
            start <= i <= n,
            split_on(text@.take(i as int), sep).len() >= 1,
            strs(parts@) == split_on(text@.take(i as int), sep).drop_last(),
            text@.subrange(start as int, i as int) == split_on(text@.take(i as int), sep).last(),
        decreases n - i,
    {
        let c = text.get_char(i);
        proof {
            let now = text@.take(i + 1);
            assert(now.drop_last() =~= text@.take(i as int));
            assert(now.last() == c);
            lemma_split_on_nonempty(now, sep);
        }
        if c == sep {
            let piece = String::from_str(text.substring_char(start, i));
            let ghost before = parts@;
            parts.push(piece);
            proof {
                let done = split_on(text@.take(i as int), sep);
                assert(done =~= done.drop_last().push(done.last()));
                assert(strs(parts@) =~= strs(before).push(piece@));
                assert(strs(parts@) =~= done);
                assert(done.push(Seq::empty()).drop_last() =~= done);
                assert(text@.subrange(i + 1, i + 1) =~= Seq::empty());
            }
            start = i + 1;
        } else {
            proof {
                let done = split_on(text@.take(i as int), sep);
                let grown = done.update(done.len() - 1, done.last().push(c));
                assert(grown.drop_last() =~= done.drop_last());
                assert(text@.subrange(start as int, i + 1) =~= text@.subrange(
                    start as int,
                    i as int,
                ).push(c));
            }
        }
        i += 1;
    }
    let piece = String::from_str(text.substring_char(start, n));
    let ghost before = parts@;
    parts.push(piece);
    proof {
        assert(text@.take(n as int) =~= text@);
        let done = split_on(text@, sep);
        assert(done =~= done.drop_last().push(done.last()));
        assert(strs(parts@) =~= strs(before).push(piece@));
    }
    parts
}

/// Whether `a` comes strictly before `b` when strings are ordered character
/// by character, a proper prefix before what it is a prefix of.
pub open spec fn precedes(a: Seq<char>, b: Seq<char>) -> bool
    decreases a.len(),
{
    if b.len() == 0 {
        false
    } else if a.len() == 0 {
        true
    } else if a[0] == b[0] {
        precedes(a.drop_first(), b.drop_first())
    } else {
        (a[0] as u32) < (b[0] as u32)
    }
}

/// No string comes before itself.
pub proof fn lemma_precedes_irreflexive(a: Seq<char>)
    ensures
        !precedes(a, a),
    decreases a.len(),
{
    if a.len() > 0 {
        lemma_precedes_irreflexive(a.drop_first());
    }
}

/// The order of strings is transitive.
pub proof fn lemma_precedes_transitive(a: Seq<char>, b: Seq<char>, c: Seq<char>)
    requires
        precedes(a, b),
        precedes(b, c),
    ensures
        precedes(a, c),
    decreases a.len(),
{
    if a.len() > 0 && a[0] == b[0] && b[0] == c[0] {
        lemma_precedes_transitive(a.drop_first(), b.drop_first(), c.drop_first());
    }
}

/// Whether `a` comes strictly before `b`.
pub fn str_precedes(a: &str, b: &str) -> (before: bool)
    ensures
        before == precedes(a@, b@),
{
    let n = a.unicode_len();
    let m = b.unicode_len();
    let mut i: usize = 0;
    proof {
        assert(a@.skip(0) =~= a@);
        assert(b@.skip(0) =~= b@);
    }
    while i < n && i < m
        invariant
            n == a@.len(),
            m == b@.len(),
            i <= n,
            i <= m,
            precedes(a@, b@) == precedes(a@.skip(i as int), b@.skip(i as int)),
        decreases n - i,
    {
        let x = a.get_char(i);
        let y = b.get_char(i);
        proof {
            assert(a@.skip(i as int)[0] == x);
            assert(b@.skip(i as int)[0] == y);
            assert(a@.skip(i as int).drop_first() =~= a@.skip(i + 1));
            assert(b@.skip(i as int).drop_first() =~= b@.skip(i + 1));
        }
        if x != y {
            return (x as u32) < (y as u32);
        }
        i += 1;
    }
    i < m
}

/// `s` without the carriage return at its end, if it ends in one.
pub open spec fn strip_cr(s: Seq<char>) -> Seq<char> {
    if s.len() > 0 && s.last() == '\r' {
        s.drop_last()
    } else {
        s
    }
}

/// The lines of `text`. A line ends at a line feed, or at a carriage return
/// and a line feed, neither of which belongs to it; what stands behind the
/// last line feed is a line unless it is empty.
pub open spec fn text_lines(text: Seq<char>) -> Seq<Seq<char>> {
    let parts = split_on(text, '\n');
    let ended = parts.drop_last().map_values(|part: Seq<char>| strip_cr(part));
    if parts.last().len() == 0 {
        ended
    } else {
        ended.push(parts.last())
    }
}

/// The lines of `text`.
pub fn lines(text: &str) -> (found: Vec<String>)
    ensures
        strs(found@) == text_lines(text@),
{
    let mut parts = split(text, '\n');
    let ghost pieces = strs(parts@);
    let last = parts.pop().unwrap();
    proof {
        assert(strs(parts@) =~= pieces.drop_last());
        assert(last@ == pieces.last());
    }
    let mut found: Vec<String> = Vec::new();
    let mut i: usize = 0;
    proof {
        assert(strs(found@) =~= pieces.drop_last().take(0).map_values(
            |part: Seq<char>| strip_cr(part),
        ));
    }
    while i < parts.len()
        invariant
            i <= parts.len(),
            strs(parts@) == pieces.drop_last(),
            strs(found@) == pieces.drop_last().take(i as int).map_values(
                |part: Seq<char>| strip_cr(part),
            ),
        decreases parts.len() - i,
    {
        let part = parts[i].as_str();
        let n = part.unicode_len();
        let line = if n > 0 && part.get_char(n - 1) == '\r' {
            let kept = part.substring_char(0, n - 1);
            proof {
                assert(kept@ =~= part@.drop_last());
            }
            String::from_str(kept)
        } else {
            String::from_str(part)
        };
        let ghost held = found@;
        proof {
            assert(part@ == pieces.drop_last()[i as int]);
            assert(line@ == strip_cr(part@));
        }
        found.push(line);
        proof {
            assert(strs(found@) =~= strs(held).push(line@));
            assert(pieces.drop_last().take(i + 1).map_values(|part: Seq<char>| strip_cr(part))
                =~= pieces.drop_last().take(i as int).map_values(
                |part: Seq<char>| strip_cr(part),
            ).push(strip_cr(part@)));
        }
        i += 1;
    }
    proof {
        assert(pieces.drop_last().take(i as int) =~= pieces.drop_last());
    }
    if last.as_str().unicode_len() > 0 {
        let ghost held = found@;
        found.push(last);
        proof {
            assert(strs(found@) =~= strs(held).push(pieces.last()));
        }
    }
    found
}

} // verus!
