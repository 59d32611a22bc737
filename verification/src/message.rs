//! The message model: one logical line of display text with a draw color and
//! a quote kind, the per-character coloring that alternates at quote marks,
//! and re-wrapping a set of messages against a new width.

use vstd::prelude::*;

use crate::color::Color;
use crate::text::{
    chunks, lemma_wrap_length_bound, split_word, split_words, views, words, wrap_line, wrap_lines,
    wrap_words,
};

verus! {

/// How a message line relates to quoting: a `Quote` line starts outside its
/// quotation (foreground-colored) and flips at each quote mark; a
/// `ContinuedQuote` line starts inside one (own-colored), so a quotation
/// wrapped across lines keeps its coloring; a `Normal` line never flips.
#[derive(Clone, Copy, PartialEq, Eq, Structural, Debug)]
pub enum MessageType {
    Normal,
    Quote,
    ContinuedQuote,
}

/// One fully-wrapped row of display text, with its draw color and kind.
#[derive(Debug)]
pub struct Message {
    pub text: String,
    pub color: Color,
    pub message_type: MessageType,
}

/// The mathematical shape of a message: its characters, color and kind.
pub ghost struct MessageView {
    pub text: Seq<char>,
    pub color: Color,
    pub kind: MessageType,
}

impl View for Message {
    type V = MessageView;

    open spec fn view(&self) -> MessageView {
        MessageView { text: self.text@, color: self.color, kind: self.message_type }
    }
}

/// The views of a sequence of messages.
pub open spec fn mviews(v: Seq<Message>) -> Seq<MessageView> {
    v.map_values(|m: Message| m@)
}

/// Chunk lines cut from an over-long word, as messages: the word-splitting
/// rule makes each chunk a line of its own, of `Normal` kind.
pub open spec fn chunk_views(cs: Seq<Seq<char>>, color: Color) -> Seq<MessageView> {
    cs.map_values(|t: Seq<char>| MessageView { text: t, color: color, kind: MessageType::Normal })
}

/// Wraps the words of one message into message lines of at most `max`
/// characters, as [`crate::text::wrap_words`] wraps plain lines: gathered
/// lines keep the message's color and kind, while chunk lines cut from an
/// over-long word become `Normal` entries.
pub open spec fn msg_wrap_words(
    ws: Seq<Seq<char>>,
    max: int,
    acc: Seq<char>,
    color: Color,
    kind: MessageType,
) -> Seq<MessageView>
    decreases ws.len(),
{
    if ws.len() == 0 {
        if acc.len() == 0 {
            Seq::empty()
        } else {
            seq![MessageView { text: acc, color: color, kind: kind }]
        }
    } else {
        let w = ws[0];
        let rest = ws.drop_first();
        if w.len() > max {
            if acc.len() == 0 {
                chunk_views(chunks(w, max, max), color) + msg_wrap_words(
                    rest,
                    max,
                    Seq::empty(),
                    color,
                    kind,
                )
            } else if acc.len() + 2 <= max {
                let cs = chunks(w, max - acc.len() - 1, max);
                seq![MessageView { text: acc + seq![' '] + cs[0], color: color, kind: kind }]
                    + chunk_views(cs.drop_first(), color) + msg_wrap_words(
                    rest,
                    max,
                    Seq::empty(),
                    color,
                    kind,
                )
            } else {
                seq![MessageView { text: acc, color: color, kind: kind }] + chunk_views(
                    chunks(w, max, max),
                    color,
                ) + msg_wrap_words(rest, max, Seq::empty(), color, kind)
            }
        } else {
            if acc.len() == 0 {
                msg_wrap_words(rest, max, w, color, kind)
            } else if acc.len() + 1 + w.len() <= max {
                msg_wrap_words(rest, max, acc + seq![' '] + w, color, kind)
            } else {
                seq![MessageView { text: acc, color: color, kind: kind }] + msg_wrap_words(
                    rest,
                    max,
                    w,
                    color,
                    kind,
                )
            }
        }
    }
}

/// What re-wrapping one message against the bound `max` yields.
pub open spec fn msg_wrap(m: MessageView, max: int) -> Seq<MessageView> {
    msg_wrap_words(words(m.text), max, Seq::empty(), m.color, m.kind)
}

/// What re-wrapping a set of messages against the bound `max` yields.
pub open spec fn msgs_wrap(ms: Seq<MessageView>, max: int) -> Seq<MessageView>
    decreases ms.len(),
{
    if ms.len() == 0 {
        Seq::empty()
    } else {
        msg_wrap(ms[0], max) + msgs_wrap(ms.drop_first(), max)
    }
}

/// The texts of a sequence of message lines, in order.
pub open spec fn mtexts(ms: Seq<MessageView>) -> Seq<Seq<char>> {
    ms.map_values(|v: MessageView| v.text)
}

/// The text of each re-wrapped message line is what the plain text wrap
/// yields at that position: colors and kinds ride along, the characters'
/// layout is the same.
proof fn lemma_msg_wrap_words_texts(
    ws: Seq<Seq<char>>,
    max: int,
    acc: Seq<char>,
    color: Color,
    kind: MessageType,
)
    ensures
        mtexts(msg_wrap_words(ws, max, acc, color, kind)) == wrap_words(ws, max, acc),
    decreases ws.len(),
{
    let out = msg_wrap_words(ws, max, acc, color, kind);
    if ws.len() == 0 {
        assert(mtexts(out) =~= wrap_words(ws, max, acc));
    } else {
        let w = ws[0];
        let rest = ws.drop_first();
        if w.len() > max {
            lemma_msg_wrap_words_texts(rest, max, Seq::empty(), color, kind);
            if acc.len() == 0 {
                assert(mtexts(out) =~= chunks(w, max, max) + wrap_words(
                    rest,
                    max,
                    Seq::empty(),
                ));
            } else if acc.len() + 2 <= max {
                let cs = chunks(w, max - acc.len() - 1, max);
                assert(mtexts(out) =~= seq![acc + seq![' '] + cs[0]] + cs.drop_first()
                    + wrap_words(rest, max, Seq::empty()));
            } else {
                assert(mtexts(out) =~= seq![acc] + chunks(w, max, max) + wrap_words(
                    rest,
                    max,
                    Seq::empty(),
                ));
            }
        } else {
            if acc.len() == 0 {
                lemma_msg_wrap_words_texts(rest, max, w, color, kind);
            } else if acc.len() + 1 + w.len() <= max {
                lemma_msg_wrap_words_texts(rest, max, acc + seq![' '] + w, color, kind);
            } else {
                lemma_msg_wrap_words_texts(rest, max, w, color, kind);
                assert(mtexts(out) =~= seq![acc] + wrap_words(rest, max, w));
            }
        }
    }
}

/// Law: re-wrapping a message lays its characters out exactly as the plain
/// text wrap lays out its text.
pub proof fn lemma_msg_wrap_texts(m: MessageView, max: int)
    ensures
        mtexts(msg_wrap(m, max)) == wrap_line(m.text, max),
{
    lemma_msg_wrap_words_texts(words(m.text), max, Seq::empty(), m.color, m.kind);
}

/// Law: every line of a message re-wrapped against a bound of at least one
/// character is at most that many characters long.
pub proof fn lemma_msg_wrap_length_bound(m: MessageView, max: int)
    requires
        1 <= max,
    ensures
        forall|i: int|
            0 <= i < msg_wrap(m, max).len() ==> #[trigger] msg_wrap(m, max)[i].text.len() <= max,
{
    lemma_msg_wrap_texts(m, max);
    lemma_wrap_length_bound(seq![m.text], max);
    let ls = seq![m.text];
    assert(ls.drop_first() =~= Seq::<Seq<char>>::empty());
    assert(wrap_lines(Seq::<Seq<char>>::empty(), max) == Seq::<Seq<char>>::empty());
    assert(wrap_line(m.text, max) + Seq::<Seq<char>>::empty() =~= wrap_line(m.text, max));
    assert(wrap_lines(ls, max) =~= wrap_line(m.text, max));
    assert forall|i: int| 0 <= i < msg_wrap(m, max).len() implies #[trigger] msg_wrap(
        m,
        max,
    )[i].text.len() <= max by {
        assert(msg_wrap(m, max)[i].text == mtexts(msg_wrap(m, max))[i]);
        assert(wrap_lines(ls, max)[i].len() <= max);
    }
}

/// The view of a pushed message lands at the end of the views.
proof fn lemma_mviews_push(v: Seq<Message>, m: Message)
    ensures
        mviews(v.push(m)) == mviews(v) + seq![m@],
{
    assert(mviews(v.push(m)) =~= mviews(v) + seq![m@]);
}

/// The color state of a line's characters as they are drawn: whether the
/// character at position `i` is shown in the line's own color (`true`) or in
/// the terminal's foreground color (`false`). On a line whose kind toggles,
/// the state flips just after each quote mark, so the mark itself is drawn in
/// the state that held before it.
pub open spec fn flag_state(s: Seq<char>, toggles: bool, start: bool, i: int) -> bool
    decreases i,
{
    if i <= 0 {
        start
    } else {
        let prev = flag_state(s, toggles, start, i - 1);
        if toggles && s[i - 1] == '"' {
            !prev
        } else {
            prev
        }
    }
}

/// Law: on a quote-toggling line the draw color begins at the line's starting
/// state and flips exactly at each quote mark: the state after character `i`
/// differs from the state before it exactly when that character is a quote
/// mark.
pub proof fn lemma_quote_toggling(s: Seq<char>, toggles: bool, start: bool, i: int)
    requires
        0 <= i < s.len(),
    ensures
        flag_state(s, toggles, start, 0) == start,
        (flag_state(s, toggles, start, i + 1) != flag_state(s, toggles, start, i)) == (toggles
            && s[i] == '"'),
{
}

impl Message {
    /// Builds one message line; a quoted line starts foreground-colored.
    pub fn new(text: &str, color: Color, quote: bool) -> (m: Message)
        ensures
            m.text@ == text@,
            m.color == color,
            m.message_type == (if quote {
                MessageType::Quote
            } else {
                MessageType::Normal
            }),
    {
        Message {
            text: text.to_owned(),
            color,
            message_type: if quote {
                MessageType::Quote
            } else {
                MessageType::Normal
            },
        }
    }

    /// An empty white message line.
    pub fn default() -> (m: Message)
        ensures
            m.text@ == Seq::<char>::empty(),
            m.color == (Color { r: 1000, g: 1000, b: 1000, a: 1000 }),
            m.message_type == MessageType::Normal,
    {
        proof {
            reveal_strlit("");
            assert(""@ =~= Seq::<char>::empty());
        }
        Message::new("", Color { r: 1000, g: 1000, b: 1000, a: 1000 }, false)
    }

    /// Whether this line's coloring toggles at quote marks.
    pub fn has_quote(&self) -> (b: bool)
        ensures
            b == (self.message_type != MessageType::Normal),
    {
        !(self.message_type == MessageType::Normal)
    }

    /// Whether this line starts in its own color rather than the foreground.
    pub fn start_colored(&self) -> (b: bool)
        ensures
            b == (self.message_type != MessageType::Quote),
    {
        !(self.message_type == MessageType::Quote)
    }

    /// Pairs each character of the line with the color it is drawn in: the
    /// line's own color while the quote state matches, the terminal's
    /// foreground color otherwise. A quote mark is drawn in the color active
    /// before its toggle.
    pub fn render_char_colors(&self, fgc: Color) -> (r: Vec<(char, Color)>)
        ensures
            r@.len() == self.text@.len(),
            forall|i: int| 0 <= i < r@.len() ==> #[trigger] r@[i].0 == self.text@[i],
            forall|i: int|
                0 <= i < r@.len() ==> #[trigger] r@[i].1 == (if flag_state(
                    self.text@,
                    self.message_type != MessageType::Normal,
                    self.message_type != MessageType::Quote,
                    i,
                ) {
                    self.color
                } else {
                    fgc
                }),
    {
        let toggles = self.has_quote();
        let mut colored = self.start_colored();
        let n = self.text.as_str().unicode_len();
        let mut r: Vec<(char, Color)> = Vec::new();
        let mut i: usize = 0;
        let ghost tog = self.message_type != MessageType::Normal;
        let ghost start = self.message_type != MessageType::Quote;
        while i < n
            invariant
                i <= n,
                n == self.text@.len(),
                r@.len() == i,
                toggles == tog,
                colored == flag_state(self.text@, tog, start, i as int),
                forall|t: int| 0 <= t < i ==> #[trigger] r@[t].0 == self.text@[t],
                forall|t: int|
                    0 <= t < i ==> #[trigger] r@[t].1 == (if flag_state(self.text@, tog, start, t) {
                        self.color
                    } else {
                        fgc
                    }),
            decreases n - i,
        {
            let c = self.text.as_str().get_char(i);
            if colored {
                r.push((c, self.color));
            } else {
                r.push((c, fgc));
            }
            if toggles && c == '"' {
                colored = !colored;
            }
            i = i + 1;
        }
        r
    }
}

/// Appends every chunk of `cs` from position `from` on as a line of its own,
/// of `Normal` kind.
fn push_chunks(r: &mut Vec<Message>, cs: &Vec<String>, from: usize, color: Color)
    requires
        from <= cs@.len(),
    ensures
        mviews(final (r)@) == mviews(old(r)@) + chunk_views(views(cs@), color).skip(from as int),
{
    let ghost cv = chunk_views(views(cs@), color);
    let mut j = from;
    proof {
        assert(mviews(r@) + cv.subrange(from as int, from as int) =~= mviews(r@));
    }
    while j < cs.len()
        invariant
            from <= j <= cs@.len(),
            cv == chunk_views(views(cs@), color),
            mviews(r@) == mviews(old(r)@) + cv.subrange(from as int, j as int),
        decreases cs.len() - j,
    {
        let ghost rv = r@;
        r.push(
            Message { text: cs[j].clone(), color, message_type: MessageType::Normal },
        );
        proof {
            lemma_mviews_push(rv, r@[rv.len() as int]);
            assert(r@[rv.len() as int]@ == cv[j as int]);
            assert((mviews(old(r)@) + cv.subrange(from as int, j as int)) + seq![cv[j as int]]
                =~= mviews(old(r)@) + cv.subrange(from as int, j + 1));
        }
        j = j + 1;
    }
    proof {
        assert(cv.subrange(from as int, cv.len() as int) =~= cv.skip(from as int));
    }
}

impl Message {
    /// Re-wraps this message into message lines of at most `max_chars`
    /// characters: gathered lines keep this message's color and kind, while
    /// chunk lines cut from an over-long word become `Normal` entries.
    pub fn process_message(&self, max_chars: usize) -> (r: Vec<Message>)
        requires
            1 <= max_chars,
        ensures
            mviews(r@) == msg_wrap(self@, max_chars as int),
    {
        let max = max_chars;
        let ws = split_words(self.text.as_str());
        let ghost wall: Seq<Seq<char>> = views(ws@);
        let ghost kind = self.message_type;
        let mut r: Vec<Message> = Vec::new();
        let mut acc: String = String::new();
        let mut k: usize = 0;
        proof {
            assert(wall.skip(0) =~= wall);
            assert(mviews(r@) + msg_wrap_words(wall, max as int, acc@, self.color, kind)
                =~= msg_wrap_words(wall, max as int, acc@, self.color, kind));
        }
        while k < ws.len()
            invariant
                1 <= max,
                k <= ws.len(),
                wall == views(ws@),
                kind == self.message_type,
                acc@.len() <= max,
                msg_wrap_words(wall, max as int, Seq::empty(), self.color, kind) == mviews(r@)
                    + msg_wrap_words(wall.skip(k as int), max as int, acc@, self.color, kind),
            decreases ws.len() - k,
        {
            let ghost rest = wall.skip(k as int);
            let ghost acc0 = acc@;
            let ghost r0 = mviews(r@);
            let ghost rv0 = r@;
            proof {
                assert(rest[0] == ws@[k as int]@);
                assert(rest.drop_first() =~= wall.skip(k + 1));
            }
            let w: &String = &ws[k];
            let wl = w.as_str().unicode_len();
            let al = acc.as_str().unicode_len();
            if wl > max {
                // the word cannot fit on any line whole: cut it into chunks
                let ghost tail = msg_wrap_words(
                    rest.drop_first(),
                    max as int,
                    Seq::<char>::empty(),
                    self.color,
                    kind,
                );
                if al == 0 {
                    let ghost cw = chunks(w@, max as int, max as int);
                    let cs = split_word(w.as_str(), max, max);
                    let ghost cv = chunk_views(cw, self.color);
                    push_chunks(&mut r, &cs, 0, self.color);
                    proof {
                        assert(acc0 =~= Seq::<char>::empty());
                        assert(cv.skip(0) =~= cv);
                        assert((r0 + cv) + tail =~= r0 + (cv + tail));
                    }
                } else if max >= 2 && al <= max - 2 {
                    // continue the current line with a first, shorter chunk
                    let ghost cw = chunks(w@, max - al - 1, max as int);
                    let cs = split_word(w.as_str(), max - al - 1, max);
                    proof {
                        lemma_chunks_nonempty_msg(w@, max - al - 1, max as int);
                        assert(views(cs@)[0] == cs@[0]@);
                    }
                    acc.append(" ");
                    proof {
                        reveal_strlit(" ");
                        assert(" "@ =~= seq![' ']);
                    }
                    acc.append(cs[0].as_str());
                    let ghost joined = acc@;
                    proof {
                        assert(joined == acc0 + seq![' '] + cw[0]);
                    }
                    r.push(Message { text: acc, color: self.color, message_type: self.message_type });
                    acc = String::new();
                    let ghost rmid = mviews(r@);
                    proof {
                        lemma_mviews_push(rv0, r@[rv0.len() as int]);
                        assert(rmid == r0 + seq![
                            MessageView { text: joined, color: self.color, kind: kind },
                        ]);
                    }
                    let ghost cv = chunk_views(cw, self.color);
                    push_chunks(&mut r, &cs, 1, self.color);
                    proof {
                        assert(cv.skip(1) =~= chunk_views(cw.drop_first(), self.color));
                        let jv = seq![MessageView { text: joined, color: self.color, kind: kind }];
                        assert(mviews(r@) =~= r0 + (jv + chunk_views(cw.drop_first(), self.color)));
                        assert((r0 + (jv + chunk_views(cw.drop_first(), self.color))) + tail =~= r0
                            + ((jv + chunk_views(cw.drop_first(), self.color)) + tail));
                    }
                } else {
                    // no room left on the current line: flush it, then cut
                    let ghost cw = chunks(w@, max as int, max as int);
                    let cs = split_word(w.as_str(), max, max);
                    r.push(Message { text: acc, color: self.color, message_type: self.message_type });
                    acc = String::new();
                    proof {
                        lemma_mviews_push(rv0, r@[rv0.len() as int]);
                    }
                    let ghost cv = chunk_views(cw, self.color);
                    push_chunks(&mut r, &cs, 0, self.color);
                    proof {
                        let av = seq![MessageView { text: acc0, color: self.color, kind: kind }];
                        assert(cv.skip(0) =~= cv);
                        assert(mviews(r@) =~= r0 + (av + cv));
                        assert((r0 + (av + cv)) + tail =~= r0 + ((av + cv) + tail));
                    }
                }
            } else {
                if al == 0 {
                    acc = w.clone();
                    proof {
                        assert(acc0 =~= Seq::<char>::empty());
                    }
                } else if al < max && wl <= max - al - 1 {
                    // the word fits after a separating space
                    acc.append(" ");
                    proof {
                        reveal_strlit(" ");
                        assert(" "@ =~= seq![' ']);
                    }
                    acc.append(w.as_str());
                } else {
                    // the word does not fit: flush the line and start a new one
                    r.push(Message { text: acc, color: self.color, message_type: self.message_type });
                    acc = w.clone();
                    proof {
                        lemma_mviews_push(rv0, r@[rv0.len() as int]);
                        let av = seq![MessageView { text: acc0, color: self.color, kind: kind }];
                        assert((r0 + av) + msg_wrap_words(
                            rest.drop_first(),
                            max as int,
                            w@,
                            self.color,
                            kind,
                        ) =~= r0 + (av + msg_wrap_words(
                            rest.drop_first(),
                            max as int,
                            w@,
                            self.color,
                            kind,
                        )));
                    }
                }
            }
            k = k + 1;
        }
        proof {
            assert(wall.skip(ws@.len() as int) =~= Seq::<Seq<char>>::empty());
        }
        if acc.as_str().unicode_len() > 0 {
            let ghost rv = r@;
            r.push(Message { text: acc, color: self.color, message_type: self.message_type });
            proof {
                lemma_mviews_push(rv, r@[rv.len() as int]);
            }
        } else {
            proof {
                assert(mviews(r@) + Seq::<MessageView>::empty() =~= mviews(r@));
            }
        }
        r
    }
}

/// A word always cuts into at least one chunk.
proof fn lemma_chunks_nonempty_msg(w: Seq<char>, first: int, rest: int)
    ensures
        chunks(w, first, rest).len() >= 1,
    decreases w.len(),
{
    if !(first < 1 || rest < 1 || w.len() <= first) {
        lemma_chunks_nonempty_msg(w.skip(first), rest, rest);
    }
}

/// Re-wraps every message of `message_vec` against the bound `max_chars` and
/// chains the resulting lines, in order.
pub fn process_messages(message_vec: &Vec<Message>, max_chars: usize) -> (r: Vec<Message>)
    requires
        1 <= max_chars,
    ensures
        mviews(r@) == msgs_wrap(mviews(message_vec@), max_chars as int),
{
    let ghost mall: Seq<MessageView> = mviews(message_vec@);
    let mut r: Vec<Message> = Vec::new();
    let mut k: usize = 0;
    proof {
        assert(mall.skip(0) =~= mall);
        assert(mviews(r@) + msgs_wrap(mall, max_chars as int) =~= msgs_wrap(
            mall,
            max_chars as int,
        ));
    }
    while k < message_vec.len()
        invariant
            1 <= max_chars,
            k <= message_vec.len(),
            mall == mviews(message_vec@),
            msgs_wrap(mall, max_chars as int) == mviews(r@) + msgs_wrap(
                mall.skip(k as int),
                max_chars as int,
            ),
        decreases message_vec.len() - k,
    {
        let ghost rest = mall.skip(k as int);
        let ghost r0 = mviews(r@);
        let ghost rv0 = r@;
        proof {
            assert(rest[0] == message_vec@[k as int]@);
            assert(rest.drop_first() =~= mall.skip(k + 1));
        }
        let mut piece = message_vec[k].process_message(max_chars);
        proof {
            assert(mviews(rv0 + piece@) =~= mviews(rv0) + mviews(piece@));
            assert((r0 + msg_wrap(rest[0], max_chars as int)) + msgs_wrap(
                rest.drop_first(),
                max_chars as int,
            ) =~= r0 + (msg_wrap(rest[0], max_chars as int) + msgs_wrap(
                rest.drop_first(),
                max_chars as int,
            )));
        }
        r.append(&mut piece);
        k = k + 1;
    }
    proof {
        assert(mall.skip(message_vec@.len() as int) =~= Seq::<MessageView>::empty());
        assert(mviews(r@) + Seq::<MessageView>::empty() =~= mviews(r@));
    }
    r
}

} // verus!
