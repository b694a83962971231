//! Lines of a configuration text. The patcher works line by line: the source
//! text is split as Rust's line iteration does (a line ends at `\n`, and a
//! `\r` directly before the `\n` belongs to the terminator), and untouched
//! lines are joined back with a single `\n` after each.

use vstd::prelude::*;

verus! {

/// `l` with a single trailing carriage return removed, if one is there.
pub open spec fn strip_cr(l: Seq<char>) -> Seq<char> {
    if l.len() > 0 && l.last() == '\r' {
        l.drop_last()
    } else {
        l
    }
}

/// The lines completed by the text `s`, and the partial line after its last
/// terminator.
pub open spec fn lines_state(s: Seq<char>) -> (Seq<Seq<char>>, Seq<char>)
    decreases s.len(),
{
    if s.len() == 0 {
        (Seq::empty(), Seq::empty())
    } else {
        let prev = lines_state(s.drop_last());
        if s.last() == '\n' {
            (prev.0.push(strip_cr(prev.1)), Seq::empty())
        } else {
            (prev.0, prev.1.push(s.last()))
        }
    }
}

/// The lines of `s`: every terminated line, and the trailing text after the
/// last terminator if any is there.
pub open spec fn spec_lines(s: Seq<char>) -> Seq<Seq<char>> {
    let st = lines_state(s);
    if st.1.len() == 0 {
        st.0
    } else {
        st.0.push(st.1)
    }
}

/// The lines `from` (inclusive) to `to` (exclusive) joined, each with a `\n`
/// after it; empty when the range is empty or out of order.
pub open spec fn copy_lines(lines: Seq<Seq<char>>, from: int, to: int) -> Seq<char>
    decreases to - from,
{
    if from < 0 || from >= to || to > lines.len() {
        Seq::empty()
    } else {
        lines[from] + seq!['\n'] + copy_lines(lines, from + 1, to)
    }
}

/// All of `lines` joined, each with a `\n` after it.
pub open spec fn unlines(lines: Seq<Seq<char>>) -> Seq<char> {
    copy_lines(lines, 0, lines.len() as int)
}

/// Joining one more line onto a joined range extends the range by one.
pub proof fn lemma_copy_lines_snoc(lines: Seq<Seq<char>>, from: int, mid: int)
    requires
        0 <= from <= mid < lines.len(),
    ensures
        copy_lines(lines, from, mid + 1) == copy_lines(lines, from, mid) + lines[mid] + seq!['\n'],
    decreases mid - from,
{
    if from == mid {
        assert(copy_lines(lines, from, mid) =~= Seq::<char>::empty());
        assert(copy_lines(lines, mid + 1, mid + 1) =~= Seq::<char>::empty());
        assert(copy_lines(lines, from, mid + 1) =~= copy_lines(lines, from, mid) + lines[mid]
            + seq!['\n']);
    } else {
        lemma_copy_lines_snoc(lines, from + 1, mid);
        assert(copy_lines(lines, from, mid + 1) =~= copy_lines(lines, from, mid) + lines[mid]
            + seq!['\n']);
    }
}

/// Joined ranges compose: joining up to a midpoint and on from it joins the
/// whole range.
pub proof fn lemma_copy_lines_concat(lines: Seq<Seq<char>>, from: int, mid: int, to: int)
    requires
        0 <= from <= mid <= to <= lines.len(),
    ensures
        copy_lines(lines, from, to) == copy_lines(lines, from, mid) + copy_lines(
            lines,
            mid,
            to,
        ),
    decreases mid - from,
{
    if from == mid {
        assert(copy_lines(lines, from, mid) =~= Seq::<char>::empty());
        assert(copy_lines(lines, from, to) =~= copy_lines(lines, from, mid) + copy_lines(
            lines,
            mid,
            to,
        ));
    } else {
        lemma_copy_lines_concat(lines, from + 1, mid, to);
        assert(copy_lines(lines, from, to) =~= copy_lines(lines, from, mid) + copy_lines(
            lines,
            mid,
            to,
        ));
    }
}

/// Appending one line leaves the joined text of the earlier lines as it was.
pub proof fn lemma_copy_lines_push(lines: Seq<Seq<char>>, from: int, x: Seq<char>)
    requires
        0 <= from <= lines.len(),
    ensures
        copy_lines(lines.push(x), from, lines.len() as int) == copy_lines(
            lines,
            from,
            lines.len() as int,
        ),
    decreases lines.len() - from,
{
    if from < lines.len() {
        lemma_copy_lines_push(lines, from + 1, x);
        assert(lines.push(x)[from] == lines[from]);
        assert(copy_lines(lines.push(x), from, lines.len() as int) =~= copy_lines(
            lines,
            from,
            lines.len() as int,
        ));
    }
}

/// Whether a text uses only line terminators that joining writes back: it is
/// empty or ends with a line feed, and no line feed follows a carriage
/// return.
pub open spec fn joinable(s: Seq<char>) -> bool {
    &&& s.len() > 0 ==> s.last() == '\n'
    &&& forall|i: int| 0 < i < s.len() && #[trigger] s[i] == '\n' ==> s[i - 1] != '\r'
}

/// On a text without carriage-return line endings, splitting accumulates
/// exactly the text: the joined completed lines followed by the partial line
/// are the text itself.
proof fn lemma_lines_state_join(s: Seq<char>)
    requires
        forall|i: int| 0 < i < s.len() && #[trigger] s[i] == '\n' ==> s[i - 1] != '\r',
    ensures
        unlines(lines_state(s).0) + lines_state(s).1 == s,
    decreases s.len(),
{
    if s.len() == 0 {
        assert(unlines(lines_state(s).0) + lines_state(s).1 =~= s);
    } else {
        let shorter = s.drop_last();
        let c = s.last();
        assert forall|i: int| 0 < i < shorter.len() && #[trigger] shorter[i] == '\n' implies shorter[i
            - 1] != '\r' by {
            assert(shorter[i] == s[i]);
            assert(shorter[i - 1] == s[i - 1]);
        }
        lemma_lines_state_join(shorter);
        let prev = lines_state(shorter);
        if c == '\n' {
            if prev.1.len() > 0 {
                assert(prev.1.last() == shorter.last());
                assert(shorter.last() == s[s.len() - 2]);
                assert(s[s.len() - 1] == '\n');
                assert(prev.1.last() != '\r');
            }
            assert(strip_cr(prev.1) == prev.1);
            lemma_copy_lines_push(prev.0, 0, prev.1);
            lemma_copy_lines_snoc(prev.0.push(prev.1), 0, prev.0.len() as int);
            assert(prev.0.push(prev.1).last() == prev.1);
            assert(unlines(lines_state(s).0) + lines_state(s).1 =~= (unlines(prev.0) + prev.1).push(
                '\n',
            ));
            assert((unlines(prev.0) + prev.1).push('\n') =~= shorter.push('\n'));
            assert(shorter.push('\n') =~= s);
        } else {
            assert(unlines(lines_state(s).0) + lines_state(s).1 =~= (unlines(prev.0)
                + prev.1).push(c));
            assert((unlines(prev.0) + prev.1).push(c) =~= shorter.push(c));
            assert(shorter.push(c) =~= s);
        }
    }
}

/// Law: joining the lines of a joinable text gives the text back, byte for
/// byte.
pub proof fn lemma_unlines_lines(s: Seq<char>)
    requires
        joinable(s),
    ensures
        unlines(spec_lines(s)) == s,
{
    lemma_lines_state_join(s);
    let st = lines_state(s);
    if s.len() == 0 {
        assert(unlines(spec_lines(s)) =~= s);
    } else {
        assert(s.last() == '\n');
        assert(st.1.len() == 0);
        assert(unlines(spec_lines(s)) =~= unlines(st.0) + st.1);
    }
}

/// The view of a list of lines.
pub open spec fn lines_view(v: Seq<Vec<char>>) -> Seq<Seq<char>> {
    v.map_values(|l: Vec<char>| l@)
}

/// The characters of `s`, in order.
pub fn chars_of(s: &str) -> (r: Vec<char>)
    ensures
        r@ == s@,
{
    let n = s.unicode_len();
    let mut r: Vec<char> = Vec::new();
    let mut i: usize = 0;
    while i < n
        invariant
            i <= n,
            n == s@.len(),
            r@ == s@.take(i as int),
        decreases n - i,
    {
        r.push(s.get_char(i));
        proof {
            assert(s@.take(i as int).push(s@[i as int]) =~= s@.take(i as int + 1));
        }
        i += 1;
    }
    proof {
        assert(s@.take(n as int) =~= s@);
    }
    r
}

/// Splits `text` into its lines, as `spec_lines` describes.
pub fn split_lines(text: &Vec<char>) -> (r: Vec<Vec<char>>)
    ensures
        lines_view(r@) == spec_lines(text@),
{
    let mut done: Vec<Vec<char>> = Vec::new();
    let mut cur: Vec<char> = Vec::new();
    let mut i: usize = 0;
    proof {
        assert(text@.take(0) =~= Seq::<char>::empty());
        assert(lines_view(done@) =~= lines_state(text@.take(0)).0);
    }
    while i < text.len()
        invariant
            i <= text@.len(),
            lines_view(done@) == lines_state(text@.take(i as int)).0,
            cur@ == lines_state(text@.take(i as int)).1,
        decreases text@.len() - i,
    {
        let c = text[i];
        proof {
            assert(text@.take(i as int + 1).drop_last() =~= text@.take(i as int));
            assert(text@.take(i as int + 1).last() == text@[i as int]);
        }
        if c == '\n' {
            if cur.len() > 0 && cur[cur.len() - 1] == '\r' {
                cur.pop();
            }
            done.push(cur);
            cur = Vec::new();
            proof {
                assert(lines_view(done@) =~= lines_state(text@.take(i as int + 1)).0);
            }
        } else {
            cur.push(c);
        }
        i += 1;
    }
    proof {
        assert(text@.take(text@.len() as int) =~= text@);
    }
    if cur.len() > 0 {
        done.push(cur);
        proof {
            assert(lines_view(done@) =~= spec_lines(text@));
        }
    }
    done
}

/// Appends the first `n` characters of `src` to `out`.
pub fn push_prefix(out: &mut Vec<char>, src: &Vec<char>, n: usize)
    requires
        n <= src@.len(),
    ensures
        final(out)@ == old(out)@ + src@.take(n as int),
{
    let mut i: usize = 0;
    proof {
        assert(out@ =~= out@ + src@.take(0));
    }
    while i < n
        invariant
            i <= n,
            n <= src@.len(),
            out@ == old(out)@ + src@.take(i as int),
        decreases n - i,
    {
        out.push(src[i]);
        proof {
            assert((old(out)@ + src@.take(i as int)).push(src@[i as int]) =~= old(out)@ + src@.take(
                i as int + 1,
            ));
        }
        i += 1;
    }
}

/// Appends all of `src` to `out`.
pub fn push_chars(out: &mut Vec<char>, src: &Vec<char>)
    ensures
        final(out)@ == old(out)@ + src@,
{
    let n = src.len();
    push_prefix(out, src, n);
    proof {
        assert(src@.take(src@.len() as int) =~= src@);
    }
}

/// Relies on `String`'s `FromIterator` over characters: collecting the
/// characters of `v` builds the string whose characters are exactly `v`.
#[verifier::external_body]
pub fn string_from_chars(v: &Vec<char>) -> (r: String)
    ensures
        r@ == v@,
{
    v.iter().collect()
}

} // verus!
