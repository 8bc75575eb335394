use vstd::prelude::*;

verus! {

/// Whether `c` has Unicode's `White_Space` property, which is what
/// `char::is_whitespace` and `str::trim` go by: tab, line feed, vertical
/// tab, form feed, carriage return, space, next line, no-break space, ogham
/// space mark, the spaces from en quad to hair space, line separator,
/// paragraph separator, narrow no-break space, medium mathematical space
/// and ideographic space.
pub open spec fn white_space(c: char) -> bool {
    ||| '\u{9}' <= c <= '\u{d}'
    ||| c == ' '
    ||| c == '\u{85}'
    ||| c == '\u{a0}'
    ||| c == '\u{1680}'
    ||| '\u{2000}' <= c <= '\u{200a}'
    ||| c == '\u{2028}'
    ||| c == '\u{2029}'
    ||| c == '\u{202f}'
    ||| c == '\u{205f}'
    ||| c == '\u{3000}'
}

/// Whether `c` is white space.
pub fn is_white_space(c: char) -> (r: bool)
    ensures
        r == white_space(c),
{
    ('\u{9}' <= c && c <= '\u{d}') || c == ' ' || c == '\u{85}' || c == '\u{a0}' || c == '\u{1680}'
        || ('\u{2000}' <= c && c <= '\u{200a}') || c == '\u{2028}' || c == '\u{2029}' || c
        == '\u{202f}' || c == '\u{205f}' || c == '\u{3000}'
}

/// The characters of `s`, in order.
pub fn chars_of(s: &str) -> (r: Vec<char>)
    ensures
        r@ == s@,
{
    let mut r: Vec<char> = Vec::new();
    for c in it: s.chars()
        invariant
            r@ == it.seq().take(it.index()),
            it.seq() == s@,
    {
        r.push(c);
        proof {
            assert(r@ =~= it.seq().take(it.index() + 1));
        }
    }
    proof {
        assert(r@ =~= s@);
    }
    r
}

/// The lines finished so far and the line in progress after reading `s`:
/// a line feed finishes the line in progress, without a carriage return
/// right before it.
pub open spec fn line_state(s: Seq<char>) -> (Seq<Seq<char>>, Seq<char>)
    decreases s.len(),
{
    if s.len() == 0 {
        (Seq::empty(), Seq::empty())
    } else {
        let (done, current) = line_state(s.drop_last());
        if s.last() == '\n' {
            (done.push(without_carriage_return(current)), Seq::empty())
        } else {
            (done, current.push(s.last()))
        }
    }
}

/// `line` without one carriage return at its end.
pub open spec fn without_carriage_return(line: Seq<char>) -> Seq<char> {
    if line.len() > 0 && line.last() == '\r' {
        line.drop_last()
    } else {
        line
    }
}

/// The lines of `s` as `str::lines` gives them: split at each line feed,
/// a carriage return right before a line feed removed, and no empty line
/// after a final line feed.
pub open spec fn lines_of(s: Seq<char>) -> Seq<Seq<char>> {
    let (done, current) = line_state(s);
    if current.len() > 0 {
        done.push(current)
    } else {
        done
    }
}

/// The pieces of `s` between the occurrences of `sep` so far and the piece
/// in progress, as `str::split` gives them.
pub open spec fn split_state(s: Seq<char>, sep: char) -> (Seq<Seq<char>>, Seq<char>)
    decreases s.len(),
{
    if s.len() == 0 {
        (Seq::empty(), Seq::empty())
    } else {
        let (done, current) = split_state(s.drop_last(), sep);
        if s.last() == sep {
            (done.push(current), Seq::empty())
        } else {
            (done, current.push(s.last()))
        }
    }
}

/// The pieces of `s` between the occurrences of `sep`: one more piece than
/// there are separators.
pub open spec fn split_on(s: Seq<char>, sep: char) -> Seq<Seq<char>> {
    let (done, current) = split_state(s, sep);
    done.push(current)
}

/// `s` without white space at its start.
pub open spec fn trim_start(s: Seq<char>) -> Seq<char>
    decreases s.len(),
{
    if s.len() > 0 && white_space(s[0]) {
        trim_start(s.drop_first())
    } else {
        s
    }
}

/// `s` without white space at its end.
pub open spec fn trim_end(s: Seq<char>) -> Seq<char>
    decreases s.len(),
{
    if s.len() > 0 && white_space(s.last()) {
        trim_end(s.drop_last())
    } else {
        s
    }
}

/// `s` without white space at either end, as `str::trim` gives it.
pub open spec fn trim(s: Seq<char>) -> Seq<char> {
    trim_end(trim_start(s))
}

/// The lines of `text`.
pub fn lines(text: &[char]) -> (r: Vec<Vec<char>>)
    ensures
        r@.map_values(|l: Vec<char>| l@) == lines_of(text@),
{
    let mut done: Vec<Vec<char>> = Vec::new();
    let mut current: Vec<char> = Vec::new();
    let mut i: usize = 0;
    while i < text.len()
        invariant
            i <= text@.len(),
            (done@.map_values(|l: Vec<char>| l@), current@) == line_state(text@.take(i as int)),
        decreases text@.len() - i,
    {
        let c = text[i];
        proof {
            assert(text@.take(i + 1).drop_last() =~= text@.take(i as int));
        }
        if c == '\n' {
            if current.len() > 0 && current[current.len() - 1] == '\r' {
                current.pop();
            }
            let mut finished: Vec<char> = Vec::new();
            std::mem::swap(&mut finished, &mut current);
            done.push(finished);
            proof {
                assert(done@.map_values(|l: Vec<char>| l@) =~= line_state(text@.take(i + 1)).0);
            }
        } else {
            current.push(c);
        }
        i = i + 1;
    }
    proof {
        assert(text@.take(i as int) =~= text@);
    }
    if current.len() > 0 {
        done.push(current);
        proof {
            assert(done@.map_values(|l: Vec<char>| l@) =~= lines_of(text@));
        }
    }
    done
}

/// The pieces of `text` between the occurrences of `sep`.
pub fn split(text: &[char], sep: char) -> (r: Vec<Vec<char>>)
    ensures
        r@.map_values(|l: Vec<char>| l@) == split_on(text@, sep),
{
    let mut done: Vec<Vec<char>> = Vec::new();
    let mut current: Vec<char> = Vec::new();
    let mut i: usize = 0;
    while i < text.len()
        invariant
            i <= text@.len(),
            (done@.map_values(|l: Vec<char>| l@), current@) == split_state(text@.take(i as int), sep),
        decreases text@.len() - i,
    {
        let c = text[i];
        proof {
            assert(text@.take(i + 1).drop_last() =~= text@.take(i as int));
        }
        if c == sep {
            let mut finished: Vec<char> = Vec::new();
            std::mem::swap(&mut finished, &mut current);
            done.push(finished);
            proof {
                assert(done@.map_values(|l: Vec<char>| l@) =~= split_state(text@.take(i + 1), sep).0);
            }
        } else {
            current.push(c);
        }
        i = i + 1;
    }
    proof {
        assert(text@.take(i as int) =~= text@);
    }
    done.push(current);
    proof {
        assert(done@.map_values(|l: Vec<char>| l@) =~= split_on(text@, sep));
    }
    done
}

/// Trimming the start of `s` skips exactly its leading white space.
proof fn lemma_trim_start_skip(s: Seq<char>, k: int)
    requires
        0 <= k <= s.len(),
        forall|j: int| 0 <= j < k ==> white_space(#[trigger] s[j]),
    ensures
        trim_start(s) == trim_start(s.skip(k)),
    decreases k,
{
    if k > 0 {
        assert(s.skip(1) =~= s.drop_first());
        lemma_trim_start_skip(s.drop_first(), k - 1);
        assert(s.drop_first().skip(k - 1) =~= s.skip(k));
    } else {
        assert(s.skip(0) =~= s);
    }
}

/// Trimming the end of `s` drops exactly its trailing white space.
proof fn lemma_trim_end_take(s: Seq<char>, k: int)
    requires
        0 <= k <= s.len(),
        forall|j: int| k <= j < s.len() ==> white_space(#[trigger] s[j]),
    ensures
        trim_end(s) == trim_end(s.take(k)),
    decreases s.len() - k,
{
    if k < s.len() {
        assert(s.take(s.len() - 1) =~= s.drop_last());
        lemma_trim_end_take(s.drop_last(), k);
        assert(s.drop_last().take(k) =~= s.take(k));
    } else {
        assert(s.take(k) =~= s);
    }
}

/// `text` without white space at either end.
pub fn trimmed(text: &[char]) -> (r: Vec<char>)
    ensures
        r@ == trim(text@),
{
    let mut start: usize = 0;
    while start < text.len() && is_white_space(text[start])
        invariant
            start <= text@.len(),
            forall|j: int| 0 <= j < start ==> white_space(#[trigger] text@[j]),
        decreases text@.len() - start,
    {
        start = start + 1;
    }
    proof {
        lemma_trim_start_skip(text@, start as int);
    }
    let mut end: usize = text.len();
    while end > start && is_white_space(text[end - 1])
        invariant
            start <= end <= text@.len(),
            forall|j: int| end <= j < text@.len() ==> white_space(#[trigger] text@[j]),
        decreases end - start,
    {
        end = end - 1;
    }
    let ghost rest = text@.skip(start as int);
    proof {
        if start < text@.len() {
            assert(!white_space(rest[0]));
        }
        assert(trim_start(rest) == rest);
        lemma_trim_end_take(rest, end - start);
        assert(rest.take(end - start) =~= text@.subrange(start as int, end as int));
        if end > start {
            assert(!white_space(text@[end - 1]));
        }
        assert(trim_end(text@.subrange(start as int, end as int)) == text@.subrange(start as int, end as int));
    }
    let mut r: Vec<char> = Vec::new();
    let mut i: usize = start;
    while i < end
        invariant
            start <= i <= end <= text@.len(),
            r@ == text@.subrange(start as int, i as int),
        decreases end - i,
    {
        r.push(text[i]);
        i = i + 1;
        proof {
            assert(r@ =~= text@.subrange(start as int, i as int));
        }
    }
    r
}

/// The pieces joined again, with `sep` between each two.
pub open spec fn joined(pieces: Seq<Seq<char>>, sep: char) -> Seq<char>
    decreases pieces.len(),
{
    if pieces.len() == 0 {
        Seq::empty()
    } else if pieces.len() == 1 {
        pieces[0]
    } else {
        joined(pieces.drop_last(), sep).push(sep) + pieces.last()
    }
}

proof fn lemma_split_state_joins(s: Seq<char>, sep: char)
    ensures
        joined(split_state(s, sep).0.push(split_state(s, sep).1), sep) == s,
        forall|i: int| 0 <= i < split_state(s, sep).0.len() ==> !(#[trigger] split_state(s, sep).0[i]).contains(sep),
        !split_state(s, sep).1.contains(sep),
    decreases s.len(),
{
    if s.len() > 0 {
        let (done, current) = split_state(s.drop_last(), sep);
        lemma_split_state_joins(s.drop_last(), sep);
        let c = s.last();
        if c == sep {
            let pieces = done.push(current).push(Seq::<char>::empty());
            assert(pieces.drop_last() =~= done.push(current));
            assert(joined(pieces, sep) =~= s);
        } else {
            let pieces = done.push(current.push(c));
            if done.len() == 0 {
                assert(joined(done.push(current), sep) == current);
                assert(joined(pieces, sep) =~= s);
            } else {
                assert(pieces.drop_last() =~= done);
                assert(done.push(current).drop_last() =~= done);
                let front = joined(done, sep).push(sep);
                assert(joined(done.push(current), sep) == front + current);
                assert(joined(pieces, sep) == front + current.push(c));
                assert(front + current.push(c) =~= (front + current).push(c));
                assert(s =~= s.drop_last().push(c));
            }
            assert forall|i: int| 0 <= i < current.push(c).len() implies current.push(c)[i] != sep by {
                if i < current.len() {
                    assert(current.push(c)[i] == current[i]);
                }
            }
        }
    }
}

/// Joining the pieces of `s` with `sep` gives `s` back, and no piece holds
/// `sep`.
pub proof fn law_split_rejoins(s: Seq<char>, sep: char)
    ensures
        joined(split_on(s, sep), sep) == s,
        forall|i: int| 0 <= i < split_on(s, sep).len() ==> !(#[trigger] split_on(s, sep)[i]).contains(sep),
{
    lemma_split_state_joins(s, sep);
    let (done, current) = split_state(s, sep);
    assert forall|i: int| 0 <= i < split_on(s, sep).len() implies !(#[trigger] split_on(s, sep)[i]).contains(
        sep,
    ) by {
        if i < done.len() {
            assert(split_on(s, sep)[i] == done[i]);
        }
    }
}

proof fn lemma_split_state_append(a: Seq<char>, b: Seq<char>, sep: char)
    requires
        !b.contains(sep),
    ensures
        split_state(a + b, sep) == (split_state(a, sep).0, split_state(a, sep).1 + b),
    decreases b.len(),
{
    if b.len() == 0 {
        assert(a + b =~= a);
        assert(split_state(a, sep).1 + b =~= split_state(a, sep).1);
    } else {
        let b0 = b.drop_last();
        assert(!b0.contains(sep)) by {
            if b0.contains(sep) {
                let t = choose|t: int| 0 <= t < b0.len() && b0[t] == sep;
                assert(b[t] == sep);
            }
        }
        assert(b.last() != sep) by {
            assert(b[b.len() - 1] == b.last());
        }
        lemma_split_state_append(a, b0, sep);
        assert((a + b).drop_last() =~= a + b0);
        assert((a + b).last() == b.last());
        assert((split_state(a, sep).1 + b0).push(b.last()) =~= split_state(a, sep).1 + b);
    }
}

/// Splitting pieces that were joined with `sep`, none of them holding it,
/// gives the pieces back.
pub proof fn law_split_after_join(pieces: Seq<Seq<char>>, sep: char)
    requires
        pieces.len() > 0,
        forall|i: int| 0 <= i < pieces.len() ==> !(#[trigger] pieces[i]).contains(sep),
    ensures
        split_on(joined(pieces, sep), sep) == pieces,
    decreases pieces.len(),
{
    if pieces.len() == 1 {
        lemma_split_state_append(Seq::empty(), pieces[0], sep);
        assert(Seq::<char>::empty() + pieces[0] =~= pieces[0]);
        assert(Seq::<char>::empty() + pieces[0] =~= pieces[0]);
        assert(split_on(pieces[0], sep) =~= pieces);
    } else {
        let front = pieces.drop_last();
        assert forall|i: int| 0 <= i < front.len() implies !(#[trigger] front[i]).contains(sep) by {
            assert(front[i] == pieces[i]);
        }
        law_split_after_join(front, sep);
        let j = joined(front, sep);
        assert(j.push(sep).drop_last() =~= j);
        assert(split_state(j.push(sep), sep) == (front, Seq::<char>::empty()));
        assert(!pieces.last().contains(sep)) by {
            assert(pieces[pieces.len() - 1] == pieces.last());
        }
        lemma_split_state_append(j.push(sep), pieces.last(), sep);
        assert(Seq::<char>::empty() + pieces.last() =~= pieces.last());
        assert(front.push(pieces.last()) =~= pieces);
    }
}

proof fn lemma_line_state_append(a: Seq<char>, b: Seq<char>)
    requires
        !b.contains('\n'),
    ensures
        line_state(a + b) == (line_state(a).0, line_state(a).1 + b),
    decreases b.len(),
{
    if b.len() == 0 {
        assert(a + b =~= a);
        assert(line_state(a).1 + b =~= line_state(a).1);
    } else {
        let b0 = b.drop_last();
        assert(!b0.contains('\n')) by {
            if b0.contains('\n') {
                let t = choose|t: int| 0 <= t < b0.len() && b0[t] == '\n';
                assert(b[t] == '\n');
            }
        }
        assert(b.last() != '\n') by {
            assert(b[b.len() - 1] == b.last());
        }
        lemma_line_state_append(a, b0);
        assert((a + b).drop_last() =~= a + b0);
        assert((a + b).last() == b.last());
        assert((line_state(a).1 + b0).push(b.last()) =~= line_state(a).1 + b);
    }
}

/// A line fit to be written: no line feed and no carriage return.
pub open spec fn plain_line(line: Seq<char>) -> bool {
    !line.contains('\n') && !line.contains('\r')
}

proof fn lemma_line_state_of_joined(ls: Seq<Seq<char>>)
    requires
        ls.len() > 0,
        forall|i: int| 0 <= i < ls.len() ==> plain_line(#[trigger] ls[i]),
    ensures
        line_state(joined(ls, '\n')) == (ls.drop_last(), ls.last()),
    decreases ls.len(),
{
    if ls.len() == 1 {
        assert(plain_line(ls[0]));
        lemma_line_state_append(Seq::empty(), ls[0]);
        assert(Seq::<char>::empty() + ls[0] =~= ls[0]);
        assert(ls.drop_last() =~= Seq::<Seq<char>>::empty());
    } else {
        let front = ls.drop_last();
        assert forall|i: int| 0 <= i < front.len() implies plain_line(#[trigger] front[i]) by {
            assert(front[i] == ls[i]);
        }
        lemma_line_state_of_joined(front);
        let j = joined(front, '\n');
        let cur = front.last();
        assert(plain_line(ls[front.len() - 1]));
        assert(cur == ls[front.len() - 1]);
        assert(!(cur.len() > 0 && cur.last() == '\r')) by {
            if cur.len() > 0 && cur.last() == '\r' {
                assert(cur[cur.len() - 1] == '\r');
            }
        }
        assert(j.push('\n').drop_last() =~= j);
        assert(front.drop_last().push(cur) =~= front);
        assert(line_state(j.push('\n')) == (front, Seq::<char>::empty()));
        assert(plain_line(ls[ls.len() - 1]));
        lemma_line_state_append(j.push('\n'), ls.last());
        assert(Seq::<char>::empty() + ls.last() =~= ls.last());
    }
}

/// Reading the lines of text written line by line, with a line feed
/// between each two, gives the lines back, when no line holds a line feed
/// or a carriage return and the last is not empty.
pub proof fn law_lines_after_join(ls: Seq<Seq<char>>)
    requires
        ls.len() > 0,
        ls.last().len() > 0,
        forall|i: int| 0 <= i < ls.len() ==> plain_line(#[trigger] ls[i]),
    ensures
        lines_of(joined(ls, '\n')) == ls,
{
    lemma_line_state_of_joined(ls);
    assert(ls.drop_last().push(ls.last()) =~= ls);
}

} // verus!
