use vstd::prelude::*;
use crate::text::push_char;

verus! {

/// The fields of `s` between the separators `c`; an empty text is one empty field.
pub open spec fn split_on(s: Seq<char>, c: char) -> Seq<Seq<char>>
    decreases s.len(),
{
    if s.len() == 0 {
        seq![Seq::empty()]
    } else {
        let rest = split_on(s.drop_last(), c);
        if s.last() == c {
            rest.push(Seq::empty())
        } else {
            rest.update(rest.len() - 1, rest.last().push(s.last()))
        }
    }
}

pub proof fn lemma_split_nonempty(s: Seq<char>, c: char)
    ensures
        split_on(s, c).len() >= 1,
    decreases s.len(),
{
    if s.len() > 0 {
        lemma_split_nonempty(s.drop_last(), c);
    }
}

pub open spec fn views(v: Seq<String>) -> Seq<Seq<char>> {
    v.map_values(|f: String| f@)
}

/// The fields of `s` between the separators `c`.
pub fn split_fields(s: &str, c: char) -> (r: Vec<String>)
    ensures
        views(r@) == split_on(s@, c),
{
    let n = s.unicode_len();
    let mut fields: Vec<String> = Vec::new();
    let mut cur = String::new();
    let mut i: usize = 0;
    while i < n
        invariant
            i <= n == s@.len(),
            views(fields@).push(cur@) == split_on(s@.subrange(0, i as int), c),
        decreases n - i,
    {
        let ch = s.get_char(i);
        let ghost pre = s@.subrange(0, i as int);
        let ghost next = s@.subrange(0, i + 1);
        assert(next.drop_last() =~= pre);
        assert(next.last() == ch);
        if ch == c {
            let done = cur;
            fields.push(done);
            cur = String::new();
            assert(views(fields@) =~= views(fields@.drop_last()).push(done@));
            assert(views(fields@).push(cur@) =~= split_on(next, c));
        } else {
            let ghost old_cur = cur@;
            push_char(&mut cur, ch);
            assert(views(fields@).push(cur@) =~= views(fields@).push(old_cur).update(
                views(fields@).len() as int,
                old_cur.push(ch),
            ));
        }
        i = i + 1;
    }
    assert(s@.subrange(0, n as int) =~= s@);
    fields.push(cur);
    assert(views(fields@) =~= views(fields@.drop_last()).push(fields@.last()@));
    fields
}

/// A line with one trailing carriage return taken off.
pub open spec fn strip_cr(l: Seq<char>) -> Seq<char> {
    if l.len() > 0 && l.last() == '\r' {
        l.drop_last()
    } else {
        l
    }
}

/// The lines of `s`: split at line feeds, without the empty piece after a final
/// line feed (so an empty text has no lines), each without a trailing carriage
/// return.
pub open spec fn lines_of(s: Seq<char>) -> Seq<Seq<char>> {
    kept_lines(s).map_values(|l: Seq<char>| strip_cr(l))
}

/// The pieces between line feeds, without the empty piece after a final line feed.
pub open spec fn kept_lines(s: Seq<char>) -> Seq<Seq<char>> {
    let parts = split_on(s, '\n');
    if parts.last().len() == 0 {
        parts.drop_last()
    } else {
        parts
    }
}

/// The rows of a measurement description: its lines, each split at commas.
pub open spec fn records_of(s: Seq<char>) -> Seq<Seq<Seq<char>>> {
    lines_of(s).map_values(|l: Seq<char>| split_on(l, ','))
}

/// `l` without a trailing carriage return.
fn strip_cr_exec(l: &String) -> (r: String)
    ensures
        r@ == strip_cr(l@),
{
    let n = l.as_str().unicode_len();
    if n > 0 && l.as_str().get_char(n - 1) == '\r' {
        l.as_str().substring_char(0, n - 1).to_string()
    } else {
        l.clone()
    }
}

/// Splits a measurement description into rows of comma-separated fields.
pub fn get_measurement(file_line: String) -> (lines: Vec<Vec<String>>)
    ensures
        lines@.len() == records_of(file_line@).len(),
        forall|i: int|
            0 <= i < lines@.len() ==> views(#[trigger] lines@[i]@) == records_of(file_line@)[i],
{
    let parts = split_fields(file_line.as_str(), '\n');
    proof {
        lemma_split_nonempty(file_line@, '\n');
    }
    let ghost ps = split_on(file_line@, '\n');
    assert(views(parts@).len() == parts@.len());
    let mut count = parts.len();
    assert(parts@[count - 1]@ == ps[count - 1]);
    if parts[count - 1].as_str().unicode_len() == 0 {
        count = count - 1;
    }
    let ghost recs = records_of(file_line@);
    assert(recs.len() == count);
    let mut lines: Vec<Vec<String>> = Vec::new();
    let mut i: usize = 0;
    while i < count
        invariant
            i <= count <= parts@.len(),
            views(parts@) == ps,
            ps == split_on(file_line@, '\n'),
            recs == records_of(file_line@),
            recs.len() == count,
            ps.len() >= 1,
            count == if ps.last().len() == 0 {
                ps.len() - 1
            } else {
                ps.len() as int
            },
            lines@.len() == i,
            forall|j: int| 0 <= j < i ==> views(#[trigger] lines@[j]@) == recs[j],
        decreases count - i,
    {
        assert(parts@[i as int]@ == ps[i as int]);
        let line = strip_cr_exec(&parts[i]);
        let fields = split_fields(line.as_str(), ',');
        proof {
        if ps.last().len() == 0 {
            assert(kept_lines(file_line@) == ps.drop_last());
        } else {
            assert(kept_lines(file_line@) == ps);
        }
        }
        assert(kept_lines(file_line@)[i as int] == ps[i as int]);
        assert(lines_of(file_line@)[i as int] == strip_cr(ps[i as int]));
        assert(recs[i as int] == split_on(strip_cr(ps[i as int]), ','));
        lines.push(fields);
        assert(lines@[i as int] == fields);
        i = i + 1;
    }
    lines
}

} // verus!
