//! Recoloring of plain text: every occurrence of one color text is
//! replaced by another.
use vstd::prelude::*;
use crate::text::collect_chars;

verus! {

/// `text` with every occurrence of `from` replaced by `to`. Occurrences
/// are found from left to right and do not overlap. An empty `from`
/// occurs in front of every character and at the end.
pub open spec fn replaced(text: Seq<char>, from: Seq<char>, to: Seq<char>) -> Seq<char>
    decreases text.len(),
{
    if from.len() == 0 {
        if text.len() == 0 {
            to
        } else {
            to + seq![text[0]] + replaced(text.drop_first(), from, to)
        }
    } else if text.len() < from.len() {
        text
    } else if text.take(from.len() as int) == from {
        to + replaced(text.skip(from.len() as int), from, to)
    } else {
        seq![text[0]] + replaced(text.drop_first(), from, to)
    }
}

/// Whether `word` stands in `chars` at `at`.
fn stands_at(chars: &Vec<char>, at: usize, word: &Vec<char>) -> (res: bool)
    requires
        at + word.len() <= chars.len(),
    ensures
        res == (chars@.subrange(at as int, at + word.len()) == word@),
{
    let ghost part = chars@.subrange(at as int, at + word.len());
    let mut i: usize = 0;
    while i < word.len()
        invariant
            i <= word.len(),
            at + word.len() <= chars.len(),
            part == chars@.subrange(at as int, at + word.len()),
            forall|j: int| 0 <= j < i ==> part[j] == word@[j],
        decreases word.len() - i,
    {
        if chars[at + i] != word[i] {
            assert(part[i as int] != word@[i as int]);
            return false;
        }
        i += 1;
    }
    assert(part =~= word@);
    true
}

/// `contents` with `new_color` in front of every character and at the
/// end.
fn interleave(contents: &str, new_color: &str) -> (res: String)
    ensures
        res@ == replaced(contents@, Seq::empty(), new_color@),
{
    let n = contents.unicode_len();
    let ghost text = contents@;
    let mut out = String::new();
    let mut i: usize = 0;
    proof {
        assert(text.skip(0) =~= text);
        assert(out@ + replaced(text, Seq::empty(), new_color@) =~= replaced(
            text,
            Seq::empty(),
            new_color@,
        ));
    }
    while i < n
        invariant
            i <= n,
            n == text.len(),
            text == contents@,
            replaced(text, Seq::empty(), new_color@) == out@ + replaced(
                text.skip(i as int),
                Seq::empty(),
                new_color@,
            ),
        decreases n - i,
    {
        let ghost before = out@;
        let ghost rest = text.skip(i as int);
        out.append(new_color);
        out.append(contents.substring_char(i, i + 1));
        proof {
            assert(rest.drop_first() =~= text.skip(i + 1));
            assert(text.subrange(i as int, i + 1) =~= seq![rest[0]]);
            let tail = replaced(text.skip(i + 1), Seq::empty(), new_color@);
            assert(before + (new_color@ + seq![rest[0]] + tail) =~= out@ + tail);
        }
        i += 1;
    }
    out.append(new_color);
    out
}

/// Replaces every occurrence of `current_color` in `contents` by
/// `new_color`. Occurrences are found from left to right and do not
/// overlap.
pub fn recolor_textfile(contents: &str, new_color: &str, current_color: &str) -> (res: String)
    ensures
        res@ == replaced(contents@, current_color@, new_color@),
{
    let word = collect_chars(current_color);
    if word.len() == 0 {
        proof {
            assert(current_color@ =~= Seq::<char>::empty());
        }
        return interleave(contents, new_color);
    }
    let chars = collect_chars(contents);
    let n = chars.len();
    let m = word.len();
    let ghost text = contents@;
    let ghost from = current_color@;
    let ghost to = new_color@;
    let mut out = String::new();
    // what stands between `kept` and `at` was passed over and is not yet written
    let mut kept: usize = 0;
    let mut at: usize = 0;
    proof {
        assert(text.skip(0) =~= text);
        assert(out@ + text.subrange(0, 0) + replaced(text, from, to) =~= replaced(text, from, to));
    }
    while at < n && n - at >= m
        invariant
            kept <= at <= n,
            n == chars.len(),
            m == word.len(),
            m > 0,
            chars@ == text,
            text == contents@,
            word@ == from,
            to == new_color@,
            replaced(text, from, to) == out@ + text.subrange(kept as int, at as int) + replaced(
                text.skip(at as int),
                from,
                to,
            ),
        decreases n - at,
    {
        let ghost rest = text.skip(at as int);
        let ghost written = out@;
        proof {
            assert(rest.take(m as int) =~= text.subrange(at as int, at + m));
        }
        if stands_at(&chars, at, &word) {
            out.append(contents.substring_char(kept, at));
            out.append(new_color);
            proof {
                assert(rest.skip(m as int) =~= text.skip(at + m));
                let tail = replaced(text.skip(at + m), from, to);
                assert(written + text.subrange(kept as int, at as int) + (to + tail) =~= out@
                    + text.subrange(at + m, at + m) + tail);
            }
            at += m;
            kept = at;
        } else {
            proof {
                assert(rest.drop_first() =~= text.skip(at + 1));
                let tail = replaced(text.skip(at + 1), from, to);
                assert(written + text.subrange(kept as int, at as int) + (seq![rest[0]] + tail)
                    =~= written + text.subrange(kept as int, at + 1) + tail);
            }
            at += 1;
        }
    }
    out.append(contents.substring_char(kept, n));
    proof {
        let rest = text.skip(at as int);
        assert(rest.len() < m);
        assert(text.subrange(kept as int, at as int) + rest =~= text.subrange(
            kept as int,
            n as int,
        ));
        assert(replaced(text, from, to) =~= out@);
    }
    out
}

} // verus!
