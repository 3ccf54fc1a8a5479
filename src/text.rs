//! Character-level helpers: splitting on a separator, joining, trimming.

use vstd::prelude::*;

verus! {

/// The pieces of `s` between occurrences of `sep`; always at least one piece.
pub open spec fn split_seq(s: Seq<char>, sep: char) -> Seq<Seq<char>>
    decreases s.len(),
{
    if s.len() == 0 {
        seq![Seq::<char>::empty()]
    } else {
        let init = split_seq(s.drop_last(), sep);
        let c = s.last();
        if c == sep {
            init.push(Seq::<char>::empty())
        } else {
            init.update(init.len() - 1, init.last().push(c))
        }
    }
}

/// The pieces glued back together with `sep` between consecutive ones.
pub open spec fn join_seq(parts: Seq<Seq<char>>, sep: char) -> Seq<char>
    decreases parts.len(),
{
    if parts.len() <= 1 {
        if parts.len() == 0 {
            Seq::<char>::empty()
        } else {
            parts[0]
        }
    } else {
        join_seq(parts.drop_last(), sep).push(sep) + parts.last()
    }
}

pub open spec fn free_of(s: Seq<char>, c: char) -> bool {
    forall|j: int| 0 <= j < s.len() ==> s[j] != c
}

pub open spec fn all_free_of(parts: Seq<Seq<char>>, c: char) -> bool {
    forall|i: int| 0 <= i < parts.len() ==> free_of(#[trigger] parts[i], c)
}

/// The whitespace characters that separate words of a command.
pub open spec fn is_space(c: char) -> bool {
    c == ' ' || c == '\t' || c == '\n' || c == '\r' || c == '\x0B' || c == '\x0C'
}

pub proof fn lemma_split_len(s: Seq<char>, sep: char)
    ensures
        split_seq(s, sep).len() >= 1,
    decreases s.len(),
{
    if s.len() > 0 {
        lemma_split_len(s.drop_last(), sep);
    }
}

/// No piece of a split holds the separator, nor a character absent from the input.
pub proof fn lemma_split_free(s: Seq<char>, sep: char, c: char)
    ensures
        free_of(s, c) ==> all_free_of(split_seq(s, sep), c),
        all_free_of(split_seq(s, sep), sep),
    decreases s.len(),
{
    if s.len() > 0 {
        lemma_split_len(s.drop_last(), sep);
        lemma_split_free(s.drop_last(), sep, c);
        let init = split_seq(s.drop_last(), sep);
        let p = split_seq(s, sep);
        assert(free_of(s, c) ==> free_of(s.drop_last(), c));
        if s.last() != sep {
            assert forall|i: int| 0 <= i < p.len() implies free_of(#[trigger] p[i], sep) by {
                if i == init.len() - 1 {
                    assert(free_of(init[i], sep));
                }
            }
            if free_of(s, c) {
                assert forall|i: int| 0 <= i < p.len() implies free_of(#[trigger] p[i], c) by {
                    if i == init.len() - 1 {
                        assert(free_of(init[i], c));
                        assert(s[s.len() - 1] != c);
                    }
                }
            }
        } else {
            assert forall|i: int| 0 <= i < p.len() implies free_of(#[trigger] p[i], sep) by {
                if i < init.len() {
                    assert(free_of(init[i], sep));
                }
            }
            if free_of(s, c) {
                assert forall|i: int| 0 <= i < p.len() implies free_of(#[trigger] p[i], c) by {
                    if i < init.len() {
                        assert(free_of(init[i], c));
                    }
                }
            }
        }
    }
}

/// Splitting a text that holds no separator gives the text itself.
pub proof fn lemma_split_single(s: Seq<char>, sep: char)
    requires
        free_of(s, sep),
    ensures
        split_seq(s, sep) == seq![s],
    decreases s.len(),
{
    if s.len() > 0 {
        lemma_split_single(s.drop_last(), sep);
        assert(s.drop_last().push(s.last()) == s);
    } else {
        assert(s == Seq::<char>::empty());
    }
}

/// Splitting at a separator splits both sides independently.
pub proof fn lemma_split_concat(x: Seq<char>, y: Seq<char>, sep: char)
    ensures
        split_seq(x.push(sep) + y, sep) == split_seq(x, sep) + split_seq(y, sep),
    decreases y.len(),
{
    let xs = x.push(sep);
    if y.len() == 0 {
        assert(xs + y == xs);
        assert(xs.drop_last() == x);
        assert(split_seq(y, sep) == seq![Seq::<char>::empty()]);
    } else {
        let y0 = y.drop_last();
        lemma_split_concat(x, y0, sep);
        lemma_split_len(y0, sep);
        lemma_split_len(x, sep);
        assert((xs + y).drop_last() == xs + y0);
        assert((xs + y).last() == y.last());
        let a = split_seq(x, sep);
        let b0 = split_seq(y0, sep);
        if y.last() == sep {
            assert((a + b0).push(Seq::<char>::empty()) == a + b0.push(Seq::<char>::empty()));
        } else {
            assert((a + b0).update(a.len() + b0.len() - 1, b0.last().push(y.last())) == a
                + b0.update(b0.len() - 1, b0.last().push(y.last())));
        }
    }
}

/// Splitting undoes joining, when no piece holds the separator.
pub proof fn lemma_split_join(parts: Seq<Seq<char>>, sep: char)
    requires
        parts.len() >= 1,
        all_free_of(parts, sep),
    ensures
        split_seq(join_seq(parts, sep), sep) == parts,
    decreases parts.len(),
{
    if parts.len() == 1 {
        assert(free_of(parts[0], sep));
        lemma_split_single(parts[0], sep);
        assert(parts == seq![parts[0]]);
    } else {
        let init = parts.drop_last();
        assert forall|i: int| 0 <= i < init.len() implies free_of(#[trigger] init[i], sep) by {
            assert(init[i] == parts[i]);
        }
        lemma_split_join(init, sep);
        lemma_split_concat(join_seq(init, sep), parts.last(), sep);
        assert(free_of(parts[parts.len() - 1], sep));
        lemma_split_single(parts.last(), sep);
        assert(init + seq![parts.last()] == parts);
    }
}

/// A join of pieces that lack a character other than the separator lacks it too.
pub proof fn lemma_join_free(parts: Seq<Seq<char>>, sep: char, c: char)
    requires
        c != sep,
        all_free_of(parts, c),
    ensures
        free_of(join_seq(parts, sep), c),
    decreases parts.len(),
{
    if parts.len() == 1 {
        assert(free_of(parts[0], c));
    } else if parts.len() > 1 {
        let init = parts.drop_last();
        assert forall|i: int| 0 <= i < init.len() implies free_of(#[trigger] init[i], c) by {
            assert(init[i] == parts[i]);
        }
        lemma_join_free(init, sep, c);
        assert(free_of(parts[parts.len() - 1], c));
    }
}

/// Relies on String::push: appends one character at the end.
#[verifier::external_body]
pub(crate) fn push_char(s: &mut String, c: char)
    ensures
        final(s)@ == old(s)@.push(c),
{
    s.push(c);
}

/// The characters of `s`, one by one.
pub fn chars_of(s: &str) -> (r: Vec<char>)
    ensures
        r@ == s@,
{
    let n = s.unicode_len();
    let mut r: Vec<char> = Vec::new();
    let mut i: usize = 0;
    while i < n
        invariant
            n == s@.len(),
            i <= n,
            r@ == s@.subrange(0, i as int),
        decreases n - i,
    {
        let c = s.get_char(i);
        r.push(c);
        i = i + 1;
        assert(r@ == s@.subrange(0, i as int));
    }
    r
}

/// The characters `cs[from..to]` as a string.
pub fn string_of(cs: &Vec<char>, from: usize, to: usize) -> (r: String)
    requires
        from <= to <= cs@.len(),
    ensures
        r@ == cs@.subrange(from as int, to as int),
{
    let mut r = String::new();
    let mut i: usize = from;
    while i < to
        invariant
            from <= i <= to <= cs@.len(),
            r@ == cs@.subrange(from as int, i as int),
        decreases to - i,
    {
        push_char(&mut r, cs[i]);
        i = i + 1;
        assert(r@ == cs@.subrange(from as int, i as int));
    }
    r
}

/// Splits `s` at every `sep`.
pub fn split_on(s: &str, sep: char) -> (r: Vec<String>)
    ensures
        r.deep_view() == split_seq(s@, sep),
{
    let cs = chars_of(s);
    let mut done: Vec<String> = Vec::new();
    let mut cur = String::new();
    let mut i: usize = 0;
    proof {
        assert(cs@.subrange(0, 0) == Seq::<char>::empty());
    }
    while i < cs.len()
        invariant
            i <= cs@.len(),
            cs@ == s@,
            done.deep_view().push(cur@) == split_seq(cs@.subrange(0, i as int), sep),
        decreases cs.len() - i,
    {
        let c = cs[i];
        let ghost pre = cs@.subrange(0, i as int);
        let ghost next = cs@.subrange(0, i + 1);
        proof {
            assert(next.drop_last() == pre);
            assert(next.last() == c);
            lemma_split_len(pre, sep);
        }
        if c == sep {
            let piece = cur;
            done.push(piece);
            cur = String::new();
            proof {
                assert(done.deep_view() == split_seq(pre, sep));
            }
        } else {
            push_char(&mut cur, c);
            proof {
                assert(done.deep_view().push(cur@) == split_seq(pre, sep).update(
                    split_seq(pre, sep).len() - 1,
                    split_seq(pre, sep).last().push(c),
                ));
            }
        }
        i = i + 1;
    }
    done.push(cur);
    proof {
        assert(cs@.subrange(0, cs@.len() as int) == cs@);
    }
    done
}

} // verus!
