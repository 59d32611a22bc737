//! The text layout engine: breaking raw text into lines, splitting lines into
//! words, wrapping words into display lines bounded by a maximum character
//! count, and chopping over-long words into fixed-size chunks.

use vstd::prelude::*;

verus! {

/// The whitespace characters on which text is broken into words.
pub open spec fn is_space(c: char) -> bool {
    c == ' ' || c == '\t' || c == '\r' || c == '\n'
}

/// Executable twin of [`is_space`].
pub fn is_space_char(c: char) -> (b: bool)
    ensures
        b == is_space(c),
{
    c == ' ' || c == '\t' || c == '\r' || c == '\n'
}

/// The views of a sequence of strings.
pub open spec fn views(v: Seq<String>) -> Seq<Seq<char>> {
    v.map_values(|s: String| s@)
}

/// Splits `s` at each newline character. Every segment is kept, so an empty
/// input gives one empty segment and adjacent newlines give empty segments,
/// as the surrounding text is split before any wrapping decides what to keep.
/// `cur` is the segment gathered so far.
pub open spec fn split_nl_rec(s: Seq<char>, cur: Seq<char>) -> Seq<Seq<char>>
    decreases s.len(),
{
    if s.len() == 0 {
        seq![cur]
    } else if s[0] == '\n' {
        seq![cur] + split_nl_rec(s.drop_first(), Seq::empty())
    } else {
        split_nl_rec(s.drop_first(), cur.push(s[0]))
    }
}

/// The segments of `s` between newline characters.
pub open spec fn split_nl(s: Seq<char>) -> Seq<Seq<char>> {
    split_nl_rec(s, Seq::empty())
}

/// The maximal whitespace-free runs of `s`, in order. `cur` is the partial
/// word gathered so far.
pub open spec fn words_rec(s: Seq<char>, cur: Seq<char>) -> Seq<Seq<char>>
    decreases s.len(),
{
    if s.len() == 0 {
        if cur.len() == 0 {
            Seq::empty()
        } else {
            seq![cur]
        }
    } else if is_space(s[0]) {
        if cur.len() == 0 {
            words_rec(s.drop_first(), Seq::empty())
        } else {
            seq![cur] + words_rec(s.drop_first(), Seq::empty())
        }
    } else {
        words_rec(s.drop_first(), cur.push(s[0]))
    }
}

/// The words of `s`: its maximal whitespace-free runs, in order.
pub open spec fn words(s: Seq<char>) -> Seq<Seq<char>> {
    words_rec(s, Seq::empty())
}

/// Cuts `w` into chunks: the first of length `first`, the following ones of
/// length `rest`, the last chunk holding whatever remains. A word no longer
/// than `first` is a single chunk.
pub open spec fn chunks(w: Seq<char>, first: int, rest: int) -> Seq<Seq<char>>
    decreases w.len(),
{
    if first < 1 || rest < 1 || w.len() <= first {
        seq![w]
    } else {
        seq![w.take(first)] + chunks(w.skip(first), rest, rest)
    }
}

/// Wraps the words `ws` into display lines of at most `max` characters.
/// Words are gathered into a line separated by single spaces; a word that no
/// longer fits starts a new line; a word longer than `max` is cut into
/// chunks, the first chunk sized to the space left on the current line, and
/// every chunk becomes a line of its own. `acc` is the line gathered so far;
/// a trailing empty accumulator is not emitted.
pub open spec fn wrap_words(ws: Seq<Seq<char>>, max: int, acc: Seq<char>) -> Seq<Seq<char>>
    decreases ws.len(),
{
    if ws.len() == 0 {
        if acc.len() == 0 {
            Seq::empty()
        } else {
            seq![acc]
        }
    } else {
        let w = ws[0];
        let rest = ws.drop_first();
        if w.len() > max {
            if acc.len() == 0 {
                chunks(w, max, max) + wrap_words(rest, max, Seq::empty())
            } else if acc.len() + 2 <= max {
                let cs = chunks(w, max - acc.len() - 1, max);
                seq![acc + seq![' '] + cs[0]] + cs.drop_first() + wrap_words(
                    rest,
                    max,
                    Seq::empty(),
                )
            } else {
                seq![acc] + chunks(w, max, max) + wrap_words(rest, max, Seq::empty())
            }
        } else {
            if acc.len() == 0 {
                wrap_words(rest, max, w)
            } else if acc.len() + 1 + w.len() <= max {
                wrap_words(rest, max, acc + seq![' '] + w)
            } else {
                seq![acc] + wrap_words(rest, max, w)
            }
        }
    }
}

/// Wraps one newline-free line of text into display lines of at most `max`
/// characters. A line without words yields no output line.
pub open spec fn wrap_line(l: Seq<char>, max: int) -> Seq<Seq<char>> {
    wrap_words(words(l), max, Seq::empty())
}

/// Wraps each line of `ls` and chains the results, in order.
pub open spec fn wrap_lines(ls: Seq<Seq<char>>, max: int) -> Seq<Seq<char>>
    decreases ls.len(),
{
    if ls.len() == 0 {
        Seq::empty()
    } else {
        wrap_line(ls[0], max) + wrap_lines(ls.drop_first(), max)
    }
}

/// Splits `text` at each newline character into its raw lines. Every segment
/// is kept: an empty input gives one empty line, adjacent newlines give empty
/// lines.
pub fn split_lines(text: &str) -> (r: Vec<String>)
    ensures
        views(r@) == split_nl(text@),
{
    let n = text.unicode_len();
    let mut r: Vec<String> = Vec::new();
    let mut start: usize = 0;
    let mut i: usize = 0;
    proof {
        assert(text@.subrange(0, n as int) =~= text@);
        assert(text@.subrange(0, 0) =~= Seq::<char>::empty());
        assert(views(r@) + split_nl(text@) =~= split_nl(text@));
    }
    while i < n
        invariant
            start <= i <= n,
            n == text@.len(),
            split_nl(text@) == views(r@) + split_nl_rec(
                text@.subrange(i as int, n as int),
                text@.subrange(start as int, i as int),
            ),
        decreases n - i,
    {
        let ghost s = text@.subrange(i as int, n as int);
        let ghost cur = text@.subrange(start as int, i as int);
        proof {
            assert(s[0] == text@[i as int]);
            assert(s.drop_first() =~= text@.subrange(i + 1, n as int));
        }
        let c = text.get_char(i);
        if c == '\n' {
            let piece = text.substring_char(start, i).to_owned();
            proof {
                assert(views(r@.push(piece)) =~= views(r@).push(piece@));
                assert(text@.subrange((i + 1) as int, (i + 1) as int) =~= Seq::<char>::empty());
                assert(views(r@).push(cur) + split_nl_rec(s.drop_first(), Seq::empty()) =~= views(
                    r@,
                ) + (seq![cur] + split_nl_rec(s.drop_first(), Seq::empty())));
            }
            r.push(piece);
            start = i + 1;
        } else {
            proof {
                assert(cur.push(text@[i as int]) =~= text@.subrange(start as int, i + 1));
            }
        }
        i = i + 1;
    }
    let piece = text.substring_char(start, n).to_owned();
    proof {
        let cur = text@.subrange(start as int, n as int);
        assert(text@.subrange(n as int, n as int) =~= Seq::<char>::empty());
        assert(split_nl_rec(Seq::empty(), cur) == seq![cur]);
        assert(views(r@.push(piece)) =~= views(r@).push(piece@));
        assert(views(r@).push(cur) =~= views(r@) + seq![cur]);
    }
    r.push(piece);
    r
}

/// Splits one line into its words: the maximal whitespace-free runs, in
/// order. No empty word is produced.
pub fn split_words(line: &str) -> (r: Vec<String>)
    ensures
        views(r@) == words(line@),
{
    let n = line.unicode_len();
    let mut r: Vec<String> = Vec::new();
    let mut start: usize = 0;
    let mut i: usize = 0;
    proof {
        assert(line@.subrange(0, n as int) =~= line@);
        assert(line@.subrange(0, 0) =~= Seq::<char>::empty());
        assert(views(r@) + words(line@) =~= words(line@));
    }
    while i < n
        invariant
            start <= i <= n,
            n == line@.len(),
            words(line@) == views(r@) + words_rec(
                line@.subrange(i as int, n as int),
                line@.subrange(start as int, i as int),
            ),
        decreases n - i,
    {
        let ghost s = line@.subrange(i as int, n as int);
        let ghost cur = line@.subrange(start as int, i as int);
        proof {
            assert(s[0] == line@[i as int]);
            assert(s.drop_first() =~= line@.subrange(i + 1, n as int));
        }
        let c = line.get_char(i);
        if is_space_char(c) {
            if start < i {
                let piece = line.substring_char(start, i).to_owned();
                proof {
                    assert(views(r@.push(piece)) =~= views(r@).push(piece@));
                    assert(views(r@).push(cur) + words_rec(s.drop_first(), Seq::empty())
                        =~= views(r@) + (seq![cur] + words_rec(s.drop_first(), Seq::empty())));
                }
                r.push(piece);
            }
            proof {
                assert(line@.subrange((i + 1) as int, (i + 1) as int) =~= Seq::<char>::empty());
            }
            start = i + 1;
        } else {
            proof {
                assert(cur.push(line@[i as int]) =~= line@.subrange(start as int, i + 1));
            }
        }
        i = i + 1;
    }
    proof {
        assert(line@.subrange(n as int, n as int) =~= Seq::<char>::empty());
    }
    if start < n {
        let piece = line.substring_char(start, n).to_owned();
        proof {
            let cur = line@.subrange(start as int, n as int);
            assert(views(r@.push(piece)) =~= views(r@).push(piece@));
            assert(views(r@).push(cur) =~= views(r@) + seq![cur]);
        }
        r.push(piece);
    } else {
        proof {
            assert(views(r@) + Seq::<Seq<char>>::empty() =~= views(r@));
        }
    }
    r
}

/// Cuts the word `x` into chunks: the first of `first_split` characters, the
/// following ones of `rest_split` characters, the last chunk holding whatever
/// remains. The chunks concatenate back to `x`.
pub fn split_word(x: &str, first_split: usize, rest_split: usize) -> (r: Vec<String>)
    requires
        1 <= first_split,
        1 <= rest_split,
    ensures
        views(r@) == chunks(x@, first_split as int, rest_split as int),
{
    let n = x.unicode_len();
    let mut r: Vec<String> = Vec::new();
    let mut start: usize = 0;
    let mut size: usize = first_split;
    proof {
        assert(x@.subrange(0, n as int) =~= x@);
        assert(views(r@) + chunks(x@, first_split as int, rest_split as int) =~= chunks(
            x@,
            first_split as int,
            rest_split as int,
        ));
    }
    while n - start > size
        invariant
            1 <= size,
            1 <= rest_split,
            start <= n,
            n == x@.len(),
            chunks(x@, first_split as int, rest_split as int) == views(r@) + chunks(
                x@.subrange(start as int, n as int),
                size as int,
                rest_split as int,
            ),
        decreases n - start,
    {
        let piece = x.substring_char(start, start + size).to_owned();
        proof {
            let tail = x@.subrange(start as int, n as int);
            let tail2 = x@.subrange((start + size) as int, n as int);
            assert(tail.take(size as int) =~= x@.subrange(start as int, (start + size) as int));
            assert(tail.skip(size as int) =~= tail2);
            assert(chunks(tail, size as int, rest_split as int) == seq![piece@] + chunks(
                tail2,
                rest_split as int,
                rest_split as int,
            ));
            assert(views(r@.push(piece)) =~= views(r@).push(piece@));
            assert(views(r@).push(piece@) + chunks(tail2, rest_split as int, rest_split as int)
                =~= views(r@) + (seq![piece@] + chunks(
                tail2,
                rest_split as int,
                rest_split as int,
            )));
        }
        r.push(piece);
        start = start + size;
        size = rest_split;
    }
    let piece = x.substring_char(start, n).to_owned();
    proof {
        let tail = x@.subrange(start as int, n as int);
        assert(chunks(tail, size as int, rest_split as int) == seq![tail]);
        assert(views(r@.push(piece)) =~= views(r@).push(piece@));
        assert(views(r@).push(tail) =~= views(r@) + seq![tail]);
    }
    r.push(piece);
    r
}

/// The concatenation of a sequence of lines.
pub open spec fn cat(ls: Seq<Seq<char>>) -> Seq<char>
    decreases ls.len(),
{
    if ls.len() == 0 {
        Seq::empty()
    } else {
        ls[0] + cat(ls.drop_first())
    }
}

/// The characters of `s` that are not whitespace, in order.
pub open spec fn strip(s: Seq<char>) -> Seq<char>
    decreases s.len(),
{
    if s.len() == 0 {
        Seq::empty()
    } else if is_space(s[0]) {
        strip(s.drop_first())
    } else {
        seq![s[0]] + strip(s.drop_first())
    }
}

/// The non-whitespace characters of all lines of `ls`, in order.
pub open spec fn squash(ls: Seq<Seq<char>>) -> Seq<char>
    decreases ls.len(),
{
    if ls.len() == 0 {
        Seq::empty()
    } else {
        strip(ls[0]) + squash(ls.drop_first())
    }
}

/// Whether `s` holds no whitespace at all.
pub open spec fn solid(s: Seq<char>) -> bool {
    forall|j: int| 0 <= j < s.len() ==> !is_space(#[trigger] s[j])
}

/// Whether every element of `ws` is a nonempty whitespace-free word.
pub open spec fn all_words(ws: Seq<Seq<char>>) -> bool {
    forall|i: int| 0 <= i < ws.len() ==> solid(#[trigger] ws[i]) && ws[i].len() >= 1
}

/// The words of `ws` joined by single spaces.
pub open spec fn join(ws: Seq<Seq<char>>) -> Seq<char>
    decreases ws.len(),
{
    if ws.len() == 0 {
        Seq::empty()
    } else if ws.len() == 1 {
        ws[0]
    } else {
        ws[0] + seq![' '] + join(ws.drop_first())
    }
}

/// A line in wrapped form: nonempty, at most `max` long, and exactly its own
/// words joined by single spaces (so no leading, trailing or doubled
/// whitespace).
pub open spec fn wrapped_line(l: Seq<char>, max: int) -> bool {
    l.len() <= max && words(l).len() >= 1 && join(words(l)) == l
}

/// Stripping distributes over concatenation.
proof fn lemma_strip_app(a: Seq<char>, b: Seq<char>)
    ensures
        strip(a + b) == strip(a) + strip(b),
    decreases a.len(),
{
    if a.len() == 0 {
        assert(a + b =~= b);
        assert(strip(a) + strip(b) =~= strip(b));
    } else {
        assert((a + b).drop_first() =~= a.drop_first() + b);
        lemma_strip_app(a.drop_first(), b);
        if !is_space(a[0]) {
            assert(seq![a[0]] + (strip(a.drop_first()) + strip(b)) =~= (seq![a[0]] + strip(
                a.drop_first(),
            )) + strip(b));
        }
    }
}

/// A whitespace-free line strips to itself.
proof fn lemma_strip_solid(s: Seq<char>)
    requires
        solid(s),
    ensures
        strip(s) == s,
    decreases s.len(),
{
    if s.len() > 0 {
        lemma_strip_solid(s.drop_first());
        assert(seq![s[0]] + s.drop_first() =~= s);
    }
}

/// Squashing distributes over concatenation.
proof fn lemma_squash_app(a: Seq<Seq<char>>, b: Seq<Seq<char>>)
    ensures
        squash(a + b) == squash(a) + squash(b),
    decreases a.len(),
{
    if a.len() == 0 {
        assert(a + b =~= b);
        assert(squash(a) + squash(b) =~= squash(b));
    } else {
        assert((a + b).drop_first() =~= a.drop_first() + b);
        assert((a + b)[0] == a[0]);
        lemma_squash_app(a.drop_first(), b);
        assert(strip(a[0]) + (squash(a.drop_first()) + squash(b)) =~= (strip(a[0]) + squash(
            a.drop_first(),
        )) + squash(b));
    }
}

/// Whitespace-free lines squash to their plain concatenation.
proof fn lemma_squash_solid(ls: Seq<Seq<char>>)
    requires
        forall|i: int| 0 <= i < ls.len() ==> solid(#[trigger] ls[i]),
    ensures
        squash(ls) == cat(ls),
    decreases ls.len(),
{
    if ls.len() > 0 {
        lemma_strip_solid(ls[0]);
        lemma_squash_solid(ls.drop_first());
    }
}

/// The chunks of a word concatenate back to the word.
proof fn lemma_chunks_cat(w: Seq<char>, first: int, rest: int)
    ensures
        cat(chunks(w, first, rest)) == w,
    decreases w.len(),
{
    if first < 1 || rest < 1 || w.len() <= first {
        let cs = chunks(w, first, rest);
        assert(cs == seq![w]);
        assert(cs.drop_first() =~= Seq::<Seq<char>>::empty());
        assert(cat(cs) == w + cat(cs.drop_first()));
        assert(cat(cs.drop_first()) == Seq::<char>::empty());
        assert(w + Seq::<char>::empty() =~= w);
    } else {
        lemma_chunks_cat(w.skip(first), rest, rest);
        let cs = chunks(w, first, rest);
        assert(cs.drop_first() =~= chunks(w.skip(first), rest, rest));
        assert(cs[0] == w.take(first));
        assert(cat(cs) == cs[0] + cat(cs.drop_first()));
        assert(w.take(first) + w.skip(first) =~= w);
    }
}

/// Chunks of a whitespace-free word are whitespace-free and nonempty.
proof fn lemma_chunks_words(w: Seq<char>, first: int, rest: int)
    requires
        solid(w),
        w.len() >= 1,
    ensures
        all_words(chunks(w, first, rest)),
    decreases w.len(),
{
    if first < 1 || rest < 1 || w.len() <= first {
        assert(all_words(seq![w]));
    } else {
        lemma_chunks_words(w.skip(first), rest, rest);
        let cs = chunks(w, first, rest);
        assert(solid(w.take(first)));
        assert forall|i: int| 0 <= i < cs.len() implies solid(#[trigger] cs[i]) && cs[i].len()
            >= 1 by {
            if i >= 1 {
                assert(cs[i] == chunks(w.skip(first), rest, rest)[i - 1]);
            }
        }
    }
}

/// Every chunk of a word longer than `first` is at most `m` long, provided
/// both cut sizes are.
proof fn lemma_chunks_bound(w: Seq<char>, first: int, rest: int, m: int)
    requires
        1 <= first <= m,
        1 <= rest <= m,
        w.len() > first,
    ensures
        forall|i: int|
            0 <= i < chunks(w, first, rest).len() ==> #[trigger] chunks(w, first, rest)[i].len()
                <= m,
    decreases w.len(),
{
    let cs = chunks(w, first, rest);
    let tail = w.skip(first);
    if tail.len() <= rest {
        assert(chunks(tail, rest, rest) == seq![tail]);
    } else {
        lemma_chunks_bound(tail, rest, rest, m);
    }
    assert forall|i: int| 0 <= i < cs.len() implies #[trigger] cs[i].len() <= m by {
        if i >= 1 {
            assert(cs[i] == chunks(tail, rest, rest)[i - 1]);
        }
    }
}

/// How many chunks a word longer than `first` cuts into.
proof fn lemma_chunks_count(w: Seq<char>, first: int, rest: int)
    requires
        1 <= first,
        1 <= rest,
        w.len() > first,
    ensures
        chunks(w, first, rest).len() == 1 + (w.len() - first + rest - 1) / rest,
    decreases w.len(),
{
    let tail = w.skip(first);
    if tail.len() <= rest {
        assert(chunks(tail, rest, rest) == seq![tail]);
        assert((w.len() - first + rest - 1) / rest == 1) by (nonlinear_arith)
            requires
                1 <= rest,
                1 <= w.len() - first <= rest,
        ;
    } else {
        lemma_chunks_count(tail, rest, rest);
        assert((w.len() - first + rest - 1) / rest == 1 + (w.len() - first - rest + rest - 1)
            / rest) by (nonlinear_arith)
            requires
                1 <= rest,
                w.len() - first > rest,
        ;
    }
}

/// Gathering words concatenates to the stripped input: splitting into words
/// loses exactly the whitespace.
proof fn lemma_words_cat(s: Seq<char>, cur: Seq<char>)
    ensures
        cat(words_rec(s, cur)) == cur + strip(s),
    decreases s.len(),
{
    if s.len() == 0 {
        if cur.len() == 0 {
            assert(cur + strip(s) =~= Seq::<char>::empty());
        } else {
            assert(seq![cur].drop_first() =~= Seq::<Seq<char>>::empty());
            assert(cat(seq![cur]) == cur + cat(seq![cur].drop_first()));
            assert(cur + Seq::<char>::empty() =~= cur);
            assert(cur + strip(s) =~= cur);
        }
    } else if is_space(s[0]) {
        lemma_words_cat(s.drop_first(), Seq::empty());
        if cur.len() == 0 {
            assert(Seq::<char>::empty() + strip(s.drop_first()) =~= strip(s.drop_first()));
            assert(cur + strip(s) =~= strip(s.drop_first()));
        } else {
            let t = words_rec(s.drop_first(), Seq::<char>::empty());
            assert((seq![cur] + t)[0] == cur);
            assert((seq![cur] + t).drop_first() =~= t);
            assert(cat(seq![cur] + t) == cur + cat(t));
            assert(Seq::<char>::empty() + strip(s.drop_first()) =~= strip(s.drop_first()));
        }
    } else {
        lemma_words_cat(s.drop_first(), cur.push(s[0]));
        assert(cur.push(s[0]) + strip(s.drop_first()) =~= cur + (seq![s[0]] + strip(
            s.drop_first(),
        )));
    }
}

/// Every gathered word is nonempty and whitespace-free.
proof fn lemma_words_are_words(s: Seq<char>, cur: Seq<char>)
    requires
        solid(cur),
    ensures
        all_words(words_rec(s, cur)),
    decreases s.len(),
{
    if s.len() == 0 {
    } else if is_space(s[0]) {
        lemma_words_are_words(s.drop_first(), Seq::empty());
        if cur.len() > 0 {
            let t = words_rec(s.drop_first(), Seq::<char>::empty());
            assert forall|i: int| 0 <= i < (seq![cur] + t).len() implies solid(
                #[trigger] (seq![cur] + t)[i],
            ) && (seq![cur] + t)[i].len() >= 1 by {
                if i >= 1 {
                    assert((seq![cur] + t)[i] == t[i - 1]);
                }
            }
        }
    } else {
        assert(solid(cur.push(s[0]))) by {
            assert forall|j: int| 0 <= j < cur.push(s[0]).len() implies !is_space(
                #[trigger] cur.push(s[0])[j],
            ) by {
                if j < cur.len() {
                    assert(cur.push(s[0])[j] == cur[j]);
                }
            }
        }
        lemma_words_are_words(s.drop_first(), cur.push(s[0]));
    }
}

/// Scanning for words walks straight over a whitespace-free prefix.
proof fn lemma_words_solid_prefix(w: Seq<char>, b: Seq<char>, cur: Seq<char>)
    requires
        solid(w),
    ensures
        words_rec(w + b, cur) == words_rec(b, cur + w),
    decreases w.len(),
{
    if w.len() == 0 {
        assert(w + b =~= b);
        assert(cur + w =~= cur);
    } else {
        assert((w + b)[0] == w[0]);
        assert((w + b).drop_first() =~= w.drop_first() + b);
        assert(solid(w.drop_first())) by {
            assert forall|j: int| 0 <= j < w.drop_first().len() implies !is_space(
                #[trigger] w.drop_first()[j],
            ) by {
                assert(w.drop_first()[j] == w[j + 1]);
            }
        }
        lemma_words_solid_prefix(w.drop_first(), b, cur.push(w[0]));
        assert(cur.push(w[0]) + w.drop_first() =~= cur + w);
    }
}

/// A nonempty whitespace-free line is one word.
proof fn lemma_words_single(w: Seq<char>)
    requires
        solid(w),
        w.len() >= 1,
    ensures
        words(w) == seq![w],
{
    lemma_words_solid_prefix(w, Seq::empty(), Seq::empty());
    assert(w + Seq::<char>::empty() =~= w);
    assert(Seq::<char>::empty() + w =~= w);
}

/// Every line wrapped from words of bounded length stays within the bound.
proof fn lemma_wrap_words_bound(ws: Seq<Seq<char>>, max: int, acc: Seq<char>)
    requires
        1 <= max,
        acc.len() <= max,
    ensures
        forall|i: int|
            0 <= i < wrap_words(ws, max, acc).len() ==> #[trigger] wrap_words(ws, max, acc)[i].len()
                <= max,
    decreases ws.len(),
{
    let out = wrap_words(ws, max, acc);
    if ws.len() == 0 {
    } else {
        let w = ws[0];
        let rest = ws.drop_first();
        if w.len() > max {
            lemma_wrap_words_bound(rest, max, Seq::empty());
            let tail = wrap_words(rest, max, Seq::<char>::empty());
            if acc.len() == 0 {
                lemma_chunks_bound(w, max, max, max);
                let cs = chunks(w, max, max);
                assert forall|i: int| 0 <= i < out.len() implies #[trigger] out[i].len() <= max by {
                    if i < cs.len() {
                        assert(out[i] == cs[i]);
                    } else {
                        assert(out[i] == tail[i - cs.len()]);
                    }
                }
            } else if acc.len() + 2 <= max {
                lemma_chunks_bound(w, max - acc.len() - 1, max, max);
                let cs = chunks(w, max - acc.len() - 1, max);
                assert(cs[0] == w.take(max - acc.len() - 1));
                assert forall|i: int| 0 <= i < out.len() implies #[trigger] out[i].len() <= max by {
                    if i == 0 {
                        assert(out[0] == acc + seq![' '] + cs[0]);
                    } else if i < 1 + cs.drop_first().len() {
                        assert(out[i] == cs.drop_first()[i - 1]);
                        assert(cs.drop_first()[i - 1] == cs[i]);
                    } else {
                        assert(out[i] == tail[i - 1 - cs.drop_first().len()]);
                    }
                }
            } else {
                lemma_chunks_bound(w, max, max, max);
                let cs = chunks(w, max, max);
                assert forall|i: int| 0 <= i < out.len() implies #[trigger] out[i].len() <= max by {
                    if i == 0 {
                        assert(out[0] == acc);
                    } else if i < 1 + cs.len() {
                        assert(out[i] == cs[i - 1]);
                    } else {
                        assert(out[i] == tail[i - 1 - cs.len()]);
                    }
                }
            }
        } else {
            if acc.len() == 0 {
                lemma_wrap_words_bound(rest, max, w);
                assert forall|i: int| 0 <= i < out.len() implies #[trigger] out[i].len() <= max by {
                    assert(out[i] == wrap_words(rest, max, w)[i]);
                }
            } else if acc.len() + 1 + w.len() <= max {
                lemma_wrap_words_bound(rest, max, acc + seq![' '] + w);
                assert forall|i: int| 0 <= i < out.len() implies #[trigger] out[i].len() <= max by {
                    assert(out[i] == wrap_words(rest, max, acc + seq![' '] + w)[i]);
                }
            } else {
                lemma_wrap_words_bound(rest, max, w);
                let tail = wrap_words(rest, max, w);
                assert forall|i: int| 0 <= i < out.len() implies #[trigger] out[i].len() <= max by {
                    if i == 0 {
                        assert(out[0] == acc);
                    } else {
                        assert(out[i] == tail[i - 1]);
                    }
                }
            }
        }
    }
}

/// Law: every line wrapped against a bound of at least one character is at
/// most that many characters long.
pub proof fn lemma_wrap_length_bound(ls: Seq<Seq<char>>, max: int)
    requires
        1 <= max,
    ensures
        forall|i: int|
            0 <= i < wrap_lines(ls, max).len() ==> #[trigger] wrap_lines(ls, max)[i].len() <= max,
    decreases ls.len(),
{
    if ls.len() > 0 {
        lemma_wrap_words_bound(words(ls[0]), max, Seq::empty());
        lemma_wrap_length_bound(ls.drop_first(), max);
        let head = wrap_line(ls[0], max);
        let tail = wrap_lines(ls.drop_first(), max);
        assert forall|i: int| 0 <= i < wrap_lines(ls, max).len() implies #[trigger] wrap_lines(
            ls,
            max,
        )[i].len() <= max by {
            if i < head.len() {
                assert(wrap_lines(ls, max)[i] == head[i]);
            } else {
                assert(wrap_lines(ls, max)[i] == tail[i - head.len()]);
            }
        }
    }
}

/// Law: a word of more than `m` characters cuts into exactly
/// `ceil(len / m)` chunks, each at most `m` long, and the chunks concatenate
/// back to the word: no character is lost or duplicated.
pub proof fn lemma_word_split_totality(w: Seq<char>, m: int)
    requires
        1 <= m < w.len(),
    ensures
        chunks(w, m, m).len() == (w.len() + m - 1) / m,
        forall|i: int|
            0 <= i < chunks(w, m, m).len() ==> #[trigger] chunks(w, m, m)[i].len() <= m,
        cat(chunks(w, m, m)) == w,
{
    lemma_chunks_cat(w, m, m);
    lemma_chunks_bound(w, m, m, m);
    lemma_chunks_count(w, m, m);
    assert(1 + (w.len() - m + m - 1) / m == (w.len() + m - 1) / m) by (nonlinear_arith)
        requires
            1 <= m < w.len(),
    ;
}

/// Stripping an empty line, or one single space, leaves nothing.
proof fn lemma_strip_space_one()
    ensures
        strip(Seq::<char>::empty()) == Seq::<char>::empty(),
        strip(seq![' ']) == Seq::<char>::empty(),
{
    assert(seq![' '].drop_first() =~= Seq::<char>::empty());
    assert(strip(seq![' ']) == strip(seq![' '].drop_first()));
}

/// A line gathered from a wrapped line and a further whitespace-free word
/// strips to the two stripped parts.
proof fn lemma_strip_join_word(acc: Seq<char>, w: Seq<char>)
    requires
        solid(w),
    ensures
        strip(acc + seq![' '] + w) == strip(acc) + w,
{
    lemma_strip_app(acc + seq![' '], w);
    lemma_strip_app(acc, seq![' ']);
    lemma_strip_space_one();
    lemma_strip_solid(w);
    assert(strip(acc) + Seq::<char>::empty() =~= strip(acc));
}

/// A single line squashes to its stripped characters.
proof fn lemma_squash_one(l: Seq<char>)
    ensures
        squash(seq![l]) == strip(l),
{
    assert(seq![l].drop_first() =~= Seq::<Seq<char>>::empty());
    assert(squash(seq![l]) == strip(l) + squash(seq![l].drop_first()));
    assert(strip(l) + Seq::<char>::empty() =~= strip(l));
}

/// Dropping the first of a sequence of words leaves words.
proof fn lemma_all_words_drop(ws: Seq<Seq<char>>)
    requires
        all_words(ws),
        ws.len() >= 1,
    ensures
        all_words(ws.drop_first()),
{
    assert forall|i: int| 0 <= i < ws.drop_first().len() implies solid(
        #[trigger] ws.drop_first()[i],
    ) && ws.drop_first()[i].len() >= 1 by {
        assert(ws.drop_first()[i] == ws[i + 1]);
    }
}

/// Wrapped words squash back to the plain word content: wrapping emits every
/// word once, in order, and adds only spaces.
proof fn lemma_wrap_words_content(ws: Seq<Seq<char>>, max: int, acc: Seq<char>)
    requires
        1 <= max,
        all_words(ws),
    ensures
        squash(wrap_words(ws, max, acc)) == strip(acc) + cat(ws),
    decreases ws.len(),
{
    let out = wrap_words(ws, max, acc);
    lemma_strip_space_one();
    if ws.len() == 0 {
        if acc.len() == 0 {
            assert(strip(acc) + cat(ws) =~= Seq::<char>::empty());
        } else {
            lemma_squash_one(acc);
            assert(strip(acc) + cat(ws) =~= strip(acc));
        }
    } else {
        let w = ws[0];
        let rest = ws.drop_first();
        lemma_all_words_drop(ws);
        assert(solid(w) && w.len() >= 1);
        assert(cat(ws) == w + cat(rest));
        if w.len() > max {
            lemma_wrap_words_content(rest, max, Seq::empty());
            let tail = wrap_words(rest, max, Seq::<char>::empty());
            assert(squash(tail) =~= cat(rest));
            if acc.len() == 0 {
                let cs = chunks(w, max, max);
                lemma_chunks_words(w, max, max);
                lemma_squash_solid(cs);
                lemma_chunks_cat(w, max, max);
                lemma_squash_app(cs, tail);
                assert(squash(out) == w + cat(rest));
                assert(strip(acc) + cat(ws) =~= w + cat(rest));
            } else if acc.len() + 2 <= max {
                let f = max - acc.len() - 1;
                let cs = chunks(w, f, max);
                lemma_chunks_words(w, f, max);
                lemma_chunks_cat(w, f, max);
                lemma_chunks_nonempty(w, f, max);
                lemma_all_words_drop(cs);
                let joined = acc + seq![' '] + cs[0];
                lemma_strip_join_word(acc, cs[0]);
                lemma_squash_app(seq![joined] + cs.drop_first(), tail);
                lemma_squash_app(seq![joined], cs.drop_first());
                lemma_squash_one(joined);
                lemma_squash_solid(cs.drop_first());
                assert(cat(cs) == cs[0] + cat(cs.drop_first()));
                assert(out == (seq![joined] + cs.drop_first()) + tail);
                assert(squash(out) == ((strip(acc) + cs[0]) + cat(cs.drop_first())) + cat(rest));
                assert(((strip(acc) + cs[0]) + cat(cs.drop_first())) + cat(rest) =~= strip(acc) + (
                (cs[0] + cat(cs.drop_first())) + cat(rest)));
                assert(strip(acc) + ((cs[0] + cat(cs.drop_first())) + cat(rest)) =~= strip(acc) + (
                w + cat(rest)));
            } else {
                let cs = chunks(w, max, max);
                lemma_chunks_words(w, max, max);
                lemma_squash_solid(cs);
                lemma_chunks_cat(w, max, max);
                lemma_squash_app(seq![acc] + cs, tail);
                lemma_squash_app(seq![acc], cs);
                lemma_squash_one(acc);
                assert(out == (seq![acc] + cs) + tail);
                assert(squash(out) == ((strip(acc) + w) + cat(rest)));
                assert((strip(acc) + w) + cat(rest) =~= strip(acc) + (w + cat(rest)));
            }
        } else {
            if acc.len() == 0 {
                lemma_wrap_words_content(rest, max, w);
                lemma_strip_solid(w);
                assert(squash(out) == w + cat(rest));
                assert(strip(acc) + cat(ws) =~= w + cat(rest));
            } else if acc.len() + 1 + w.len() <= max {
                lemma_wrap_words_content(rest, max, acc + seq![' '] + w);
                lemma_strip_join_word(acc, w);
                assert(squash(out) == (strip(acc) + w) + cat(rest));
                assert((strip(acc) + w) + cat(rest) =~= strip(acc) + (w + cat(rest)));
            } else {
                lemma_wrap_words_content(rest, max, w);
                let tail = wrap_words(rest, max, w);
                lemma_strip_solid(w);
                lemma_squash_app(seq![acc], tail);
                lemma_squash_one(acc);
                assert(out == seq![acc] + tail);
                assert(squash(out) == strip(acc) + (w + cat(rest)));
            }
        }
    }
}

/// Law: wrapping preserves the text's non-whitespace characters exactly, in
/// order: none is lost or duplicated, whatever the input and whatever the
/// bound.
pub proof fn lemma_wrap_content_preservation(ls: Seq<Seq<char>>, max: int)
    requires
        1 <= max,
    ensures
        squash(wrap_lines(ls, max)) == squash(ls),
    decreases ls.len(),
{
    if ls.len() > 0 {
        let l = ls[0];
        lemma_words_are_words(l, Seq::empty());
        lemma_wrap_words_content(words(l), max, Seq::empty());
        lemma_words_cat(l, Seq::empty());
        lemma_strip_space_one();
        assert(Seq::<char>::empty() + strip(l) =~= strip(l));
        assert(Seq::<char>::empty() + cat(words(l)) =~= cat(words(l)));
        assert(squash(wrap_line(l, max)) == strip(l));
        lemma_wrap_content_preservation(ls.drop_first(), max);
        lemma_squash_app(wrap_line(l, max), wrap_lines(ls.drop_first(), max));
        assert(squash(ls) == strip(l) + squash(ls.drop_first()));
    }
}

/// A joined line is at least as long as its first word.
proof fn lemma_join_first(ws: Seq<Seq<char>>)
    requires
        ws.len() >= 1,
    ensures
        ws[0].len() <= join(ws).len(),
{
    if ws.len() == 1 {
    } else {
        assert(join(ws) == ws[0] + seq![' '] + join(ws.drop_first()));
    }
}

/// Joining one more word appends a space and the word.
proof fn lemma_join_push(ws: Seq<Seq<char>>, w: Seq<char>)
    requires
        ws.len() >= 1,
    ensures
        join(ws.push(w)) == join(ws) + seq![' '] + w,
    decreases ws.len(),
{
    if ws.len() == 1 {
        assert(ws.push(w)[0] == ws[0]);
        assert(ws.push(w).drop_first() =~= seq![w]);
        assert(join(ws.push(w)) == ws[0] + seq![' '] + join(seq![w]));
    } else {
        lemma_join_push(ws.drop_first(), w);
        assert(ws.push(w)[0] == ws[0]);
        assert(ws.push(w).drop_first() =~= ws.drop_first().push(w));
        assert(ws[0] + seq![' '] + (join(ws.drop_first()) + seq![' '] + w) =~= (ws[0] + seq![' ']
            + join(ws.drop_first())) + seq![' '] + w);
    }
}

/// Splitting a joined word sequence into words gives the words back.
proof fn lemma_words_of_join(ws: Seq<Seq<char>>)
    requires
        all_words(ws),
    ensures
        words(join(ws)) == ws,
    decreases ws.len(),
{
    if ws.len() == 0 {
        assert(words(join(ws)) =~= ws);
    } else if ws.len() == 1 {
        lemma_words_single(ws[0]);
        assert(seq![ws[0]] =~= ws);
    } else {
        let j2 = join(ws.drop_first());
        assert(join(ws) == ws[0] + seq![' '] + j2);
        assert((ws[0] + seq![' ']) + j2 =~= ws[0] + (seq![' '] + j2));
        lemma_words_solid_prefix(ws[0], seq![' '] + j2, Seq::empty());
        assert(Seq::<char>::empty() + ws[0] =~= ws[0]);
        assert((seq![' '] + j2)[0] == ' ');
        assert((seq![' '] + j2).drop_first() =~= j2);
        assert(words_rec(seq![' '] + j2, ws[0]) == seq![ws[0]] + words_rec(j2, Seq::empty()));
        lemma_all_words_drop(ws);
        lemma_words_of_join(ws.drop_first());
        assert(seq![ws[0]] + ws.drop_first() =~= ws);
    }
}

/// A nonempty whitespace-free line of at most `max` characters is in wrapped
/// form.
proof fn lemma_wrapped_solid(w: Seq<char>, max: int)
    requires
        solid(w),
        1 <= w.len() <= max,
    ensures
        wrapped_line(w, max),
{
    lemma_words_single(w);
    assert(join(seq![w]) == w);
}

/// Extending a wrapped line with a space and one more word keeps it in
/// wrapped form, as long as it stays within the bound.
proof fn lemma_wrapped_extend(acc: Seq<char>, w: Seq<char>, max: int)
    requires
        wrapped_line(acc, max),
        solid(w),
        w.len() >= 1,
        acc.len() + 1 + w.len() <= max,
    ensures
        wrapped_line(acc + seq![' '] + w, max),
{
    let aws = words(acc);
    lemma_words_are_words(acc, Seq::empty());
    lemma_join_push(aws, w);
    assert(join(aws.push(w)) == acc + seq![' '] + w);
    assert(all_words(aws.push(w))) by {
        assert forall|i: int| 0 <= i < aws.push(w).len() implies solid(#[trigger] aws.push(w)[i])
            && aws.push(w)[i].len() >= 1 by {
            if i < aws.len() {
                assert(aws.push(w)[i] == aws[i]);
            }
        }
    }
    lemma_words_of_join(aws.push(w));
}

/// Words that all fit on the line begun by `acc` wrap to that single line.
proof fn lemma_wrap_words_fits(ws: Seq<Seq<char>>, max: int, acc: Seq<char>)
    requires
        1 <= max,
        all_words(ws),
        acc.len() >= 1,
        join(seq![acc] + ws).len() <= max,
    ensures
        wrap_words(ws, max, acc) == seq![join(seq![acc] + ws)],
    decreases ws.len(),
{
    let a1 = seq![acc] + ws;
    assert(a1[0] == acc);
    if ws.len() == 0 {
        assert(a1 =~= seq![acc]);
    } else {
        let w = ws[0];
        assert(a1.drop_first() =~= ws);
        assert(join(a1) == acc + seq![' '] + join(ws));
        lemma_join_first(ws);
        assert(acc.len() + 1 + w.len() <= max);
        let acc2 = acc + seq![' '] + w;
        let rest = ws.drop_first();
        lemma_all_words_drop(ws);
        assert(join(seq![acc2] + rest) == join(a1)) by {
            assert((seq![acc2] + rest)[0] == acc2);
            if rest.len() == 0 {
                assert(seq![acc2] + rest =~= seq![acc2]);
                assert(ws =~= seq![w]);
                assert(join(ws) == w);
            } else {
                assert((seq![acc2] + rest).drop_first() =~= rest);
                assert(join(seq![acc2] + rest) == acc2 + seq![' '] + join(rest));
                assert(join(ws) == w + seq![' '] + join(rest));
                assert((acc + seq![' '] + w) + seq![' '] + join(rest) =~= acc + seq![' '] + (w
                    + seq![' '] + join(rest)));
            }
        }
        lemma_wrap_words_fits(rest, max, acc2);
    }
}

/// Every line that wrapping emits is in wrapped form.
proof fn lemma_wrap_words_wrapped(ws: Seq<Seq<char>>, max: int, acc: Seq<char>)
    requires
        1 <= max,
        all_words(ws),
        acc.len() <= max,
        acc.len() == 0 || wrapped_line(acc, max),
    ensures
        forall|i: int|
            0 <= i < wrap_words(ws, max, acc).len() ==> wrapped_line(
                #[trigger] wrap_words(ws, max, acc)[i],
                max,
            ),
    decreases ws.len(),
{
    let out = wrap_words(ws, max, acc);
    if ws.len() == 0 {
    } else {
        let w = ws[0];
        let rest = ws.drop_first();
        lemma_all_words_drop(ws);
        if w.len() > max {
            lemma_wrap_words_wrapped(rest, max, Seq::empty());
            let tail = wrap_words(rest, max, Seq::<char>::empty());
            if acc.len() == 0 {
                let cs = chunks(w, max, max);
                lemma_chunks_words(w, max, max);
                lemma_chunks_bound(w, max, max, max);
                assert forall|i: int| 0 <= i < out.len() implies wrapped_line(
                    #[trigger] out[i],
                    max,
                ) by {
                    if i < cs.len() {
                        assert(out[i] == cs[i]);
                        lemma_wrapped_solid(cs[i], max);
                    } else {
                        assert(out[i] == tail[i - cs.len()]);
                    }
                }
            } else if acc.len() + 2 <= max {
                let f = max - acc.len() - 1;
                let cs = chunks(w, f, max);
                lemma_chunks_words(w, f, max);
                lemma_chunks_bound(w, f, max, max);
                assert(cs[0] == w.take(f));
                lemma_wrapped_extend(acc, cs[0], max);
                let joined = acc + seq![' '] + cs[0];
                assert(out == (seq![joined] + cs.drop_first()) + tail);
                assert forall|i: int| 0 <= i < out.len() implies wrapped_line(
                    #[trigger] out[i],
                    max,
                ) by {
                    if i == 0 {
                        assert(out[0] == joined);
                    } else if i < 1 + cs.drop_first().len() {
                        assert(out[i] == cs.drop_first()[i - 1]);
                        assert(cs.drop_first()[i - 1] == cs[i]);
                        lemma_wrapped_solid(cs[i], max);
                    } else {
                        assert(out[i] == tail[i - 1 - cs.drop_first().len()]);
                    }
                }
            } else {
                let cs = chunks(w, max, max);
                lemma_chunks_words(w, max, max);
                lemma_chunks_bound(w, max, max, max);
                assert(out == (seq![acc] + cs) + tail);
                assert forall|i: int| 0 <= i < out.len() implies wrapped_line(
                    #[trigger] out[i],
                    max,
                ) by {
                    if i == 0 {
                        assert(out[0] == acc);
                    } else if i < 1 + cs.len() {
                        assert(out[i] == cs[i - 1]);
                        lemma_wrapped_solid(cs[i - 1], max);
                    } else {
                        assert(out[i] == tail[i - 1 - cs.len()]);
                    }
                }
            }
        } else {
            if acc.len() == 0 {
                lemma_wrapped_solid(w, max);
                lemma_wrap_words_wrapped(rest, max, w);
                assert forall|i: int| 0 <= i < out.len() implies wrapped_line(
                    #[trigger] out[i],
                    max,
                ) by {
                    assert(out[i] == wrap_words(rest, max, w)[i]);
                }
            } else if acc.len() + 1 + w.len() <= max {
                lemma_wrapped_extend(acc, w, max);
                lemma_wrap_words_wrapped(rest, max, acc + seq![' '] + w);
                assert forall|i: int| 0 <= i < out.len() implies wrapped_line(
                    #[trigger] out[i],
                    max,
                ) by {
                    assert(out[i] == wrap_words(rest, max, acc + seq![' '] + w)[i]);
                }
            } else {
                lemma_wrapped_solid(w, max);
                lemma_wrap_words_wrapped(rest, max, w);
                let tail = wrap_words(rest, max, w);
                assert forall|i: int| 0 <= i < out.len() implies wrapped_line(
                    #[trigger] out[i],
                    max,
                ) by {
                    if i == 0 {
                        assert(out[0] == acc);
                    } else {
                        assert(out[i] == tail[i - 1]);
                    }
                }
            }
        }
    }
}

/// A line already in wrapped form re-wraps to exactly itself.
proof fn lemma_wrap_wrapped_line(l: Seq<char>, max: int)
    requires
        1 <= max,
        wrapped_line(l, max),
    ensures
        wrap_line(l, max) == seq![l],
{
    let ws = words(l);
    lemma_words_are_words(l, Seq::empty());
    let w0 = ws[0];
    lemma_join_first(ws);
    assert(w0.len() <= max);
    lemma_all_words_drop(ws);
    assert(seq![w0] + ws.drop_first() =~= ws);
    lemma_wrap_words_fits(ws.drop_first(), max, w0);
}

/// Every line of a wrapped block is in wrapped form.
proof fn lemma_wrap_lines_wrapped(ls: Seq<Seq<char>>, max: int)
    requires
        1 <= max,
    ensures
        forall|i: int|
            0 <= i < wrap_lines(ls, max).len() ==> wrapped_line(
                #[trigger] wrap_lines(ls, max)[i],
                max,
            ),
    decreases ls.len(),
{
    if ls.len() > 0 {
        lemma_words_are_words(ls[0], Seq::empty());
        lemma_wrap_words_wrapped(words(ls[0]), max, Seq::empty());
        lemma_wrap_lines_wrapped(ls.drop_first(), max);
        let head = wrap_line(ls[0], max);
        let tail = wrap_lines(ls.drop_first(), max);
        assert forall|i: int| 0 <= i < wrap_lines(ls, max).len() implies wrapped_line(
            #[trigger] wrap_lines(ls, max)[i],
            max,
        ) by {
            if i < head.len() {
                assert(wrap_lines(ls, max)[i] == head[i]);
            } else {
                assert(wrap_lines(ls, max)[i] == tail[i - head.len()]);
            }
        }
    }
}

/// A block whose lines are all in wrapped form re-wraps to exactly itself.
proof fn lemma_wrap_lines_of_wrapped(out: Seq<Seq<char>>, max: int)
    requires
        1 <= max,
        forall|i: int| 0 <= i < out.len() ==> wrapped_line(#[trigger] out[i], max),
    ensures
        wrap_lines(out, max) == out,
    decreases out.len(),
{
    if out.len() > 0 {
        lemma_wrap_wrapped_line(out[0], max);
        assert forall|i: int| 0 <= i < out.drop_first().len() implies wrapped_line(
            #[trigger] out.drop_first()[i],
            max,
        ) by {
            assert(out.drop_first()[i] == out[i + 1]);
        }
        lemma_wrap_lines_of_wrapped(out.drop_first(), max);
        assert(seq![out[0]] + out.drop_first() =~= out);
    }
}

/// Law: wrapping a block that is already wrapped against the same bound
/// changes nothing: wrapping is idempotent.
pub proof fn lemma_wrap_idempotent(ls: Seq<Seq<char>>, max: int)
    requires
        1 <= max,
    ensures
        wrap_lines(wrap_lines(ls, max), max) == wrap_lines(ls, max),
{
    lemma_wrap_lines_wrapped(ls, max);
    lemma_wrap_lines_of_wrapped(wrap_lines(ls, max), max);
}

/// A word always cuts into at least one chunk.
proof fn lemma_chunks_nonempty(w: Seq<char>, first: int, rest: int)
    ensures
        chunks(w, first, rest).len() >= 1,
    decreases w.len(),
{
    if !(first < 1 || rest < 1 || w.len() <= first) {
        lemma_chunks_nonempty(w.skip(first), rest, rest);
    }
}

/// The view of a pushed string lands at the end of the views.
proof fn lemma_views_push(v: Seq<String>, x: String)
    ensures
        views(v.push(x)) == views(v) + seq![x@],
{
    assert(views(v.push(x)) =~= views(v) + seq![x@]);
}

/// Views distribute over appending.
proof fn lemma_views_app(a: Seq<String>, b: Seq<String>)
    ensures
        views(a + b) == views(a) + views(b),
{
    assert(views(a + b) =~= views(a) + views(b));
}

/// Wraps the words `ws` into display lines of at most `max_chars` characters;
/// see [`wrap_words`].
fn wrap_words_exec(ws: &Vec<String>, max_chars: usize) -> (r: Vec<String>)
    requires
        1 <= max_chars,
    ensures
        views(r@) == wrap_words(views(ws@), max_chars as int, Seq::empty()),
{
    let max = max_chars;
    let ghost wall: Seq<Seq<char>> = views(ws@);
    let mut r: Vec<String> = Vec::new();
    let mut acc: String = String::new();
    let mut k: usize = 0;
    proof {
        assert(wall.skip(0) =~= wall);
        assert(views(r@) + wrap_words(wall, max as int, acc@) =~= wrap_words(
            wall,
            max as int,
            acc@,
        ));
    }
    while k < ws.len()
        invariant
            1 <= max,
            k <= ws.len(),
            wall == views(ws@),
            acc@.len() <= max,
            wrap_words(wall, max as int, Seq::empty()) == views(r@) + wrap_words(
                wall.skip(k as int),
                max as int,
                acc@,
            ),
        decreases ws.len() - k,
    {
        let ghost rest = wall.skip(k as int);
        let ghost acc0 = acc@;
        let ghost r0 = views(r@);
        let ghost rv0 = r@;
        proof {
            assert(rest[0] == ws@[k as int]@);
            assert(rest.drop_first() =~= wall.skip(k + 1));
        }
        let w: &String = &ws[k];
        let wl = w.as_str().unicode_len();
        let al = acc.as_str().unicode_len();
        if wl > max {
            // the word cannot fit on any line whole: cut it into chunks
            let ghost tail = wrap_words(rest.drop_first(), max as int, Seq::<char>::empty());
            if al == 0 {
                let ghost cw = chunks(w@, max as int, max as int);
                let mut cs = split_word(w.as_str(), max, max);
                proof {
                    lemma_views_app(rv0, cs@);
                    assert(acc0 =~= Seq::<char>::empty());
                    assert((r0 + cw) + tail =~= r0 + (cw + tail));
                }
                r.append(&mut cs);
            } else if max >= 2 && al <= max - 2 {
                // continue the current line with a first, shorter chunk
                let ghost cw = chunks(w@, max - al - 1, max as int);
                let mut cs = split_word(w.as_str(), max - al - 1, max);
                proof {
                    lemma_chunks_nonempty(w@, max - al - 1, max as int);
                    assert(views(cs@)[0] == cs@[0]@);
                }
                acc.append(" ");
                proof {
                    reveal_strlit(" ");
                    assert(" "@ =~= seq![' ']);
                }
                acc.append(cs[0].as_str());
                let ghost joined = acc@;
                proof {
                    assert(joined == acc0 + seq![' '] + cw[0]);
                }
                r.push(acc);
                acc = String::new();
                let ghost rmid = views(r@);
                proof {
                    lemma_views_push(rv0, r@[rv0.len() as int]);
                    assert(rmid == r0 + seq![joined]);
                }
                let mut j: usize = 1;
                // the remaining chunks each become a line of their own
                while j < cs.len()
                    invariant
                        1 <= j <= cs.len(),
                        cw == views(cs@),
                        views(r@) == rmid + cw.subrange(1, j as int),
                    decreases cs.len() - j,
                {
                    let ghost rvj = r@;
                    let piece = cs[j].clone();
                    proof {
                        assert(piece@ == cw[j as int]);
                    }
                    r.push(piece);
                    proof {
                        lemma_views_push(rvj, r@[rvj.len() as int]);
                        assert((rmid + cw.subrange(1, j as int)) + seq![cw[j as int]] =~= rmid
                            + cw.subrange(1, j + 1));
                    }
                    j = j + 1;
                }
                proof {
                    assert(cw.subrange(1, cw.len() as int) =~= cw.drop_first());
                    assert(views(r@) =~= r0 + (seq![joined] + cw.drop_first()));
                    assert((r0 + (seq![joined] + cw.drop_first())) + tail =~= r0 + ((seq![joined]
                        + cw.drop_first()) + tail));
                }
            } else {
                // no room left on the current line: flush it, then cut
                let ghost cw = chunks(w@, max as int, max as int);
                let mut cs = split_word(w.as_str(), max, max);
                r.push(acc);
                acc = String::new();
                let ghost rv1 = r@;
                proof {
                    lemma_views_push(rv0, r@[rv0.len() as int]);
                    assert(views(r@) == r0 + seq![acc0]);
                    lemma_views_app(rv1, cs@);
                    assert((r0 + seq![acc0]) + cw =~= r0 + (seq![acc0] + cw));
                    assert((r0 + (seq![acc0] + cw)) + tail =~= r0 + ((seq![acc0] + cw) + tail));
                }
                r.append(&mut cs);
            }
        } else {
            if al == 0 {
                acc = w.clone();
                proof {
                    assert(acc0 =~= Seq::<char>::empty());
                }
            } else if al < max && wl <= max - al - 1 {
                // the word fits after a separating space
                acc.append(" ");
                proof {
                    reveal_strlit(" ");
                    assert(" "@ =~= seq![' ']);
                }
                acc.append(w.as_str());
            } else {
                // the word does not fit: flush the line and start a new one
                r.push(acc);
                acc = w.clone();
                proof {
                    lemma_views_push(rv0, r@[rv0.len() as int]);
                    assert(views(r@) == r0 + seq![acc0]);
                    assert((r0 + seq![acc0]) + wrap_words(rest.drop_first(), max as int, w@) =~= r0
                        + (seq![acc0] + wrap_words(rest.drop_first(), max as int, w@)));
                }
            }
        }
        k = k + 1;
    }
    proof {
        assert(wall.skip(ws@.len() as int) =~= Seq::<Seq<char>>::empty());
    }
    if acc.as_str().unicode_len() > 0 {
        proof {
            lemma_views_push(r@, acc);
            assert(views(r@) + seq![acc@] == views(r@.push(acc)));
        }
        r.push(acc);
    } else {
        proof {
            assert(views(r@) + Seq::<Seq<char>>::empty() =~= views(r@));
        }
    }
    r
}

/// Wraps one newline-free line of text into display lines of at most
/// `max_chars` characters; a line without words yields no output line.
pub fn wrap_one(line: &str, max_chars: usize) -> (r: Vec<String>)
    requires
        1 <= max_chars,
    ensures
        views(r@) == wrap_line(line@, max_chars as int),
{
    let ws = split_words(line);
    wrap_words_exec(&ws, max_chars)
}

/// Wraps a block of raw lines into display lines of at most `max_chars`
/// characters each, in order.
pub fn wrap(lines: &Vec<String>, max_chars: usize) -> (r: Vec<String>)
    requires
        1 <= max_chars,
    ensures
        views(r@) == wrap_lines(views(lines@), max_chars as int),
{
    let ghost lall: Seq<Seq<char>> = views(lines@);
    let mut r: Vec<String> = Vec::new();
    let mut k: usize = 0;
    proof {
        assert(lall.skip(0) =~= lall);
        assert(views(r@) + wrap_lines(lall, max_chars as int) =~= wrap_lines(
            lall,
            max_chars as int,
        ));
    }
    while k < lines.len()
        invariant
            1 <= max_chars,
            k <= lines.len(),
            lall == views(lines@),
            wrap_lines(lall, max_chars as int) == views(r@) + wrap_lines(
                lall.skip(k as int),
                max_chars as int,
            ),
        decreases lines.len() - k,
    {
        let ghost rest = lall.skip(k as int);
        let ghost r0 = views(r@);
        let ghost rv0 = r@;
        proof {
            assert(rest[0] == lines@[k as int]@);
            assert(rest.drop_first() =~= lall.skip(k + 1));
        }
        let mut piece = wrap_one(lines[k].as_str(), max_chars);
        proof {
            lemma_views_app(rv0, piece@);
            assert((r0 + wrap_line(rest[0], max_chars as int)) + wrap_lines(
                rest.drop_first(),
                max_chars as int,
            ) =~= r0 + (wrap_line(rest[0], max_chars as int) + wrap_lines(
                rest.drop_first(),
                max_chars as int,
            )));
        }
        r.append(&mut piece);
        k = k + 1;
    }
    proof {
        assert(lall.skip(lines@.len() as int) =~= Seq::<Seq<char>>::empty());
        assert(views(r@) + Seq::<Seq<char>>::empty() =~= views(r@));
    }
    r
}

} // verus!
