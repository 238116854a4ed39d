//! What holds between encoding and decoding of qualified paths.
use vstd::prelude::*;
use crate::qualified_path::{
    cleaned, decode, encode, escaped, plain_segment, CHECKOUT_MARK, ESCAPE_MARK, SEPARATOR,
};
use crate::text::{is_whitespace, join, split, trim, trim_end, trim_start, without};

verus! {

/// Every segment with the escape mark in front.
spec fn all_escaped(segments: Seq<Seq<char>>) -> Seq<Seq<char>> {
    Seq::new(segments.len(), |i: int| seq![ESCAPE_MARK] + segments[i])
}

proof fn lemma_without_add(x: Seq<char>, y: Seq<char>, a: char, b: char)
    ensures
        without(x + y, a, b) == without(x, a, b) + without(y, a, b),
    decreases y.len(),
{
    if y.len() == 0 {
        assert(x + y =~= x);
        assert(without(x, a, b) + without(y, a, b) =~= without(x, a, b));
    } else {
        lemma_without_add(x, y.drop_last(), a, b);
        assert((x + y).drop_last() =~= x + y.drop_last());
        assert((x + y).last() == y.last());
        if y.last() == a || y.last() == b {
        } else {
            assert((without(x, a, b) + without(y.drop_last(), a, b)).push(y.last()) =~= without(
                x,
                a,
                b,
            ) + without(y.drop_last(), a, b).push(y.last()));
        }
    }
}

proof fn lemma_without_absent(x: Seq<char>, a: char, b: char)
    requires
        !x.contains(a),
        !x.contains(b),
    ensures
        without(x, a, b) == x,
    decreases x.len(),
{
    if x.len() > 0 {
        let y = x.drop_last();
        assert forall|c: char| y.contains(c) implies x.contains(c) by {
            let i = choose|i: int| 0 <= i < y.len() && y[i] == c;
            assert(x[i] == c);
        }
        lemma_without_absent(y, a, b);
        assert(x.contains(x.last())) by {
            assert(x[x.len() - 1] == x.last());
        }
        assert(y.push(x.last()) =~= x);
    }
}

proof fn lemma_without_one(c: char, a: char, b: char)
    ensures
        without(seq![c], a, b) == if c == a || c == b {
            Seq::<char>::empty()
        } else {
            seq![c]
        },
{
    let s = seq![c];
    assert(s.drop_last() =~= Seq::<char>::empty());
    assert(s.last() == c);
    assert(without(Seq::<char>::empty(), a, b) =~= Seq::<char>::empty());
    assert(Seq::<char>::empty().push(c) =~= seq![c]);
}

proof fn lemma_strip_all_escaped(q: Seq<Seq<char>>)
    requires
        forall|i: int| 0 <= i < q.len() ==> plain_segment(#[trigger] q[i]),
    ensures
        without(join(all_escaped(q), SEPARATOR), CHECKOUT_MARK, ESCAPE_MARK) == join(q, SEPARATOR),
    decreases q.len(),
{
    let a = CHECKOUT_MARK;
    let b = ESCAPE_MARK;
    if q.len() == 0 {
    } else {
        let last = q.last();
        assert(plain_segment(q[q.len() - 1]));
        lemma_without_add(seq![ESCAPE_MARK], last, a, b);
        lemma_without_one(ESCAPE_MARK, a, b);
        lemma_without_absent(last, a, b);
        assert(Seq::<char>::empty() + last =~= last);
        assert(all_escaped(q).last() == seq![ESCAPE_MARK] + last);
        if q.len() == 1 {
        } else {
            let front = q.drop_last();
            assert(all_escaped(q).drop_last() =~= all_escaped(front));
            assert forall|i: int| 0 <= i < front.len() implies plain_segment(
                #[trigger] front[i],
            ) by {
                assert(front[i] == q[i]);
            }
            lemma_strip_all_escaped(front);
            let head = join(all_escaped(front), SEPARATOR);
            assert(head.push(SEPARATOR) =~= head + seq![SEPARATOR]);
            lemma_without_add(head.push(SEPARATOR), seq![ESCAPE_MARK] + last, a, b);
            lemma_without_add(head, seq![SEPARATOR], a, b);
            lemma_without_one(SEPARATOR, a, b);
            assert(join(front, SEPARATOR) + seq![SEPARATOR] =~= join(front, SEPARATOR).push(
                SEPARATOR,
            ));
        }
    }
}

proof fn lemma_strip_encoded(p: Seq<Seq<char>>)
    requires
        p.len() > 0,
        forall|i: int| 0 <= i < p.len() ==> plain_segment(#[trigger] p[i]),
    ensures
        without(encode(p), CHECKOUT_MARK, ESCAPE_MARK) == join(p, SEPARATOR),
{
    let a = CHECKOUT_MARK;
    let b = ESCAPE_MARK;
    let last = p.last();
    assert(plain_segment(p[p.len() - 1]));
    lemma_without_absent(last, a, b);
    assert(escaped(p).last() == last);
    if p.len() == 1 {
    } else {
        let front = p.drop_last();
        assert(escaped(p).drop_last() =~= all_escaped(front));
        assert forall|i: int| 0 <= i < front.len() implies plain_segment(#[trigger] front[i]) by {
            assert(front[i] == p[i]);
        }
        lemma_strip_all_escaped(front);
        let head = join(all_escaped(front), SEPARATOR);
        assert(head.push(SEPARATOR) =~= head + seq![SEPARATOR]);
        lemma_without_add(head.push(SEPARATOR), last, a, b);
        lemma_without_add(head, seq![SEPARATOR], a, b);
        lemma_without_one(SEPARATOR, a, b);
        assert(join(front, SEPARATOR) + seq![SEPARATOR] =~= join(front, SEPARATOR).push(SEPARATOR));
    }
}

proof fn lemma_join_ends(p: Seq<Seq<char>>, sep: char)
    requires
        p.len() > 0,
        forall|i: int| 0 <= i < p.len() ==> (#[trigger] p[i]).len() > 0,
    ensures
        join(p, sep).len() > 0,
        join(p, sep).first() == p.first().first(),
        join(p, sep).last() == p.last().last(),
    decreases p.len(),
{
    assert(p[p.len() - 1].len() > 0);
    assert(p[0].len() > 0);
    if p.len() > 1 {
        let front = p.drop_last();
        assert forall|i: int| 0 <= i < front.len() implies (#[trigger] front[i]).len() > 0 by {
            assert(front[i] == p[i]);
        }
        lemma_join_ends(front, sep);
        assert(front.first() == p.first());
    }
}

proof fn lemma_split_append(x: Seq<char>, y: Seq<char>, sep: char)
    requires
        !y.contains(sep),
    ensures
        split(x + y, sep) == split(x, sep).drop_last().push(split(x, sep).last() + y),
    decreases y.len(),
{
    crate::text::lemma_split_nonempty(x, sep);
    if y.len() == 0 {
        assert(x + y =~= x);
        assert(split(x, sep).last() + y =~= split(x, sep).last());
        assert(split(x, sep).drop_last().push(split(x, sep).last()) =~= split(x, sep));
    } else {
        let front = y.drop_last();
        assert forall|c: char| front.contains(c) implies y.contains(c) by {
            let i = choose|i: int| 0 <= i < front.len() && front[i] == c;
            assert(y[i] == c);
        }
        lemma_split_append(x, front, sep);
        assert((x + y).drop_last() =~= x + front);
        assert((x + y).last() == y.last());
        assert(y.contains(y.last())) by {
            assert(y[y.len() - 1] == y.last());
        }
        let pieces = split(x, sep);
        let before = pieces.drop_last().push(pieces.last() + front);
        assert(before.drop_last() =~= pieces.drop_last());
        assert((pieces.last() + front).push(y.last()) =~= pieces.last() + y);
    }
}

proof fn lemma_split_join(p: Seq<Seq<char>>, sep: char)
    requires
        p.len() > 0,
        forall|i: int| 0 <= i < p.len() ==> !(#[trigger] p[i]).contains(sep),
    ensures
        split(join(p, sep), sep) == p,
    decreases p.len(),
{
    let last = p.last();
    assert(!p[p.len() - 1].contains(sep));
    if p.len() == 1 {
        assert(Seq::<char>::empty() + last =~= last);
        lemma_split_append(Seq::<char>::empty(), last, sep);
        assert(seq![Seq::<char>::empty()].drop_last().push(last) =~= p);
    } else {
        let front = p.drop_last();
        assert forall|i: int| 0 <= i < front.len() implies !(#[trigger] front[i]).contains(sep) by {
            assert(front[i] == p[i]);
        }
        lemma_split_join(front, sep);
        let head = join(front, sep).push(sep);
        assert(head.drop_last() =~= join(front, sep));
        assert(split(head, sep) == front.push(Seq::<char>::empty()));
        lemma_split_append(head, last, sep);
        assert(Seq::<char>::empty() + last =~= last);
        assert(front.push(Seq::<char>::empty()).drop_last().push(last) =~= p);
    }
}

/// Decoding the native name of a path gives the path back, provided that
/// every segment is plain, the first segment does not begin with whitespace
/// and the last does not end with it.
pub proof fn lemma_decode_encode(p: Seq<Seq<char>>)
    requires
        forall|i: int| 0 <= i < p.len() ==> plain_segment(#[trigger] p[i]),
        p.len() > 0 ==> !is_whitespace(p.first().first()) && !is_whitespace(p.last().last()),
    ensures
        decode(encode(p)) == p,
{
    if p.len() == 0 {
        assert(escaped(p) =~= Seq::<Seq<char>>::empty());
        assert(decode(encode(p)) =~= p);
    } else {
        lemma_strip_encoded(p);
        let joined = join(p, SEPARATOR);
        assert forall|i: int| 0 <= i < p.len() implies (#[trigger] p[i]).len() > 0 by {
            assert(plain_segment(p[i]));
        }
        lemma_join_ends(p, SEPARATOR);
        assert(trim_start(joined) == joined);
        assert(trim_end(joined) == joined);
        assert(trim(joined) == joined);
        assert(cleaned(encode(p)) == joined);
        assert forall|i: int| 0 <= i < p.len() implies !(#[trigger] p[i]).contains(SEPARATOR) by {
            assert(plain_segment(p[i]));
        }
        lemma_split_join(p, SEPARATOR);
    }
}

/// The joined text of a path splits back into its segments when no segment
/// holds the separator.
pub proof fn lemma_split_joined(p: Seq<Seq<char>>)
    requires
        p.len() > 0,
        forall|i: int| 0 <= i < p.len() ==> !(#[trigger] p[i]).contains(SEPARATOR),
    ensures
        split(join(p, SEPARATOR), SEPARATOR) == p,
{
    lemma_split_join(p, SEPARATOR);
}

} // verus!
