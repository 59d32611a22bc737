//! The terminal session state machine: the mutable state of one running
//! terminal, the operations `tell`, `show`, `ask` and `display_art` that set
//! a message up, and the per-event transition that a host's frame pump
//! drives until each operation's wait condition is met. The host performs the
//! drawing and the clock reads; the session decides everything else.

use vstd::prelude::*;

use crate::color::Color;
use crate::text::{split_lines, split_nl, views, wrap, wrap_lines};

verus! {

/// Which key a key-press event carries, as far as the session cares.
#[derive(Clone, Copy, PartialEq, Eq, Structural, Debug)]
pub enum Key {
    Enter,
    Backspace,
    Other,
}

/// One event handed to the session by the host, once per frame: a key press,
/// typed text, or the milliseconds elapsed since the current mode began.
#[derive(Debug)]
pub enum TermEvent {
    KeyPress { key: Key },
    TextInput { text: String },
    Elapsed { ms: u64 },
}

/// What the session waits for once the current message is fully typed.
#[derive(Clone, Copy, PartialEq, Eq, Structural, Debug)]
pub enum Wait {
    Continue,
    Timer { duration_ms: u64 },
    Input,
}

/// The session's mode: idle between operations; typing the current message
/// character by character; or waiting for an Enter key, an elapsed duration,
/// a line of input, or the end of an art display.
#[derive(Clone, Copy, PartialEq, Eq, Structural, Debug)]
pub enum Mode {
    Idle,
    Typing { line: usize, pos: usize, after: Wait },
    WaitContinue,
    WaitTimer { duration_ms: u64 },
    WaitArt { duration_ms: u64 },
    WaitInput,
}

/// The wait mode that follows a finished typing animation.
pub open spec fn wait_mode(after: Wait) -> Mode {
    match after {
        Wait::Continue => Mode::WaitContinue,
        Wait::Timer { duration_ms } => Mode::WaitTimer { duration_ms },
        Wait::Input => Mode::WaitInput,
    }
}

/// One step of the typewriter: reveal one more character, move to the next
/// line after a line's last character, and enter the wait once every line is
/// shown.
pub open spec fn typing_next(lines: Seq<Seq<char>>, line: usize, pos: usize, after: Wait) -> Mode {
    if line >= lines.len() {
        wait_mode(after)
    } else if (pos as int) < lines[line as int].len() {
        Mode::Typing { line, pos: (pos + 1) as usize, after }
    } else {
        Mode::Typing { line: (line + 1) as usize, pos: 0, after }
    }
}

/// The session's mode after handling one event.
pub open spec fn mode_next(m: Mode, lines: Seq<Seq<char>>, input: Seq<char>, ev: TermEvent) -> Mode {
    match m {
        Mode::Idle => m,
        Mode::Typing { line, pos, after } => match ev {
            TermEvent::Elapsed { .. } => typing_next(lines, line, pos, after),
            _ => m,
        },
        Mode::WaitContinue => match ev {
            TermEvent::KeyPress { key } => if key == Key::Enter {
                Mode::Idle
            } else {
                m
            },
            _ => m,
        },
        Mode::WaitTimer { duration_ms } => match ev {
            TermEvent::Elapsed { ms } => if ms >= duration_ms {
                Mode::Idle
            } else {
                m
            },
            _ => m,
        },
        Mode::WaitArt { duration_ms } => match ev {
            TermEvent::Elapsed { ms } => if ms >= duration_ms {
                Mode::Idle
            } else {
                m
            },
            _ => m,
        },
        Mode::WaitInput => match ev {
            TermEvent::KeyPress { key } => if key == Key::Enter && input.len() > 0 {
                Mode::Idle
            } else {
                m
            },
            _ => m,
        },
    }
}

/// The input buffer after handling one event: only an input wait mutates it,
/// by appending typed text or dropping the last character on Backspace. An
/// Enter press with an empty buffer is ignored.
pub open spec fn input_next(m: Mode, input: Seq<char>, ev: TermEvent) -> Seq<char> {
    match m {
        Mode::WaitInput => match ev {
            TermEvent::TextInput { text } => input + text@,
            TermEvent::KeyPress { key } => if key == Key::Backspace && input.len() > 0 {
                input.drop_last()
            } else {
                input
            },
            _ => input,
        },
        _ => input,
    }
}

/// Whether the running operation is over after handling one event: an idle
/// session has nothing to wait for; typing never ends an operation; each wait
/// ends exactly when its condition is met.
pub open spec fn op_done(m: Mode, input: Seq<char>, ev: TermEvent) -> bool {
    match m {
        Mode::Idle => true,
        Mode::Typing { .. } => false,
        Mode::WaitContinue => match ev {
            TermEvent::KeyPress { key } => key == Key::Enter,
            _ => false,
        },
        Mode::WaitTimer { duration_ms } => match ev {
            TermEvent::Elapsed { ms } => ms >= duration_ms,
            _ => false,
        },
        Mode::WaitArt { duration_ms } => match ev {
            TermEvent::Elapsed { ms } => ms >= duration_ms,
            _ => false,
        },
        Mode::WaitInput => match ev {
            TermEvent::KeyPress { key } => key == Key::Enter && input.len() > 0,
            _ => false,
        },
    }
}

/// The lines shown while typing: the lines already fully revealed, then the
/// growing prefix of the current line with the `[]` cursor after it.
pub open spec fn typed_view(lines: Seq<Seq<char>>, line: usize, pos: usize) -> Seq<Seq<char>> {
    if (line as int) < lines.len() {
        lines.take(line as int) + seq![lines[line as int].take(pos as int) + "[]"@]
    } else {
        lines
    }
}

/// The character bound that fits the window: the window width in pixels,
/// divided by the font size, times a tuned glyph-width ratio; never below
/// one, and capped so that a line index always fits the machine.
pub open spec fn spec_max_chars(width: u32, font_size: u32) -> int {
    let m = (width as int) * 43 / ((font_size as int) * 20);
    if m < 1 {
        1
    } else if m > 65535 {
        65535
    } else {
        m
    }
}

/// The mutable state of one running terminal session.
pub struct Terminal {
    /// The host window's title.
    pub title: String,
    /// The color the box interior is cleared to.
    pub bg_color: Color,
    /// The color of the box frame and of untinted text.
    pub fg_color: Color,
    /// The font the session currently draws with.
    pub font: String,
    /// The font the session was built with, restored after art.
    pub original_font: String,
    /// The current font size.
    pub font_size: u32,
    /// The font size used while art is displayed.
    pub art_font_size: u32,
    /// The font size to restore once an art display ends.
    pub saved_font_size: u32,
    /// The host window's width in pixels, refreshed by the host on resize.
    pub window_width: u32,
    /// The wrapped lines of the current message.
    pub message: Vec<String>,
    /// The current input buffer, or the hint text of a continue wait.
    pub input: String,
    /// Whether the scanline overlay is drawn.
    pub scanlines: bool,
    /// What the session is doing.
    pub mode: Mode,
}

impl Terminal {
    /// The font sizes a session works with are at least one.
    pub open spec fn wf(&self) -> bool {
        1 <= self.font_size && 1 <= self.art_font_size && 1 <= self.saved_font_size
    }

    /// A typing position points into the current message.
    pub open spec fn typing_ok(&self) -> bool {
        match self.mode {
            Mode::Typing { line, pos, .. } => line as int <= self.message@.len() && ((
            line as int) < self.message@.len() ==> pos as int <= self.message@[line as int]@.len()),
            _ => true,
        }
    }

    /// The configuration fields that no operation changes.
    pub open spec fn same_config(a: Terminal, b: Terminal) -> bool {
        a.title@ == b.title@ && a.bg_color == b.bg_color && a.fg_color == b.fg_color && a.font@
            == b.font@ && a.original_font@ == b.original_font@ && a.font_size == b.font_size
            && a.art_font_size == b.art_font_size && a.saved_font_size == b.saved_font_size
            && a.window_width == b.window_width && a.scanlines == b.scanlines
    }

    /// Builds an idle session: no message, an empty input buffer, the
    /// scanline overlay on, and the host window's initial width.
    pub fn new(title: &str, bg: Color, fg: Color, font: &str, font_size: u32) -> (t: Terminal)
        requires
            1 <= font_size,
        ensures
            t.wf(),
            t.typing_ok(),
            t.title@ == title@,
            t.bg_color == bg,
            t.fg_color == fg,
            t.font@ == font@,
            t.original_font@ == font@,
            t.font_size == font_size,
            t.art_font_size == 10,
            t.saved_font_size == font_size,
            t.window_width == 800,
            t.message@.len() == 0,
            t.input@.len() == 0,
            t.scanlines == true,
            t.mode == Mode::Idle,
    {
        Terminal {
            title: title.to_owned(),
            bg_color: bg,
            fg_color: fg,
            font: font.to_owned(),
            original_font: font.to_owned(),
            font_size,
            art_font_size: 10,
            saved_font_size: font_size,
            window_width: 800,
            message: Vec::new(),
            input: String::new(),
            scanlines: true,
            mode: Mode::Idle,
        }
    }

    /// Sets the background color.
    pub fn set_bgc(&mut self, color: Color)
        ensures
            *final (self) == (Terminal { bg_color: color, ..*old(self) }),
    {
        self.bg_color = color;
    }

    /// Sets the foreground color.
    pub fn set_fgc(&mut self, color: Color)
        ensures
            *final (self) == (Terminal { fg_color: color, ..*old(self) }),
    {
        self.fg_color = color;
    }

    /// Sets both colors.
    pub fn set_colors(&mut self, bgc: Color, fgc: Color)
        ensures
            *final (self) == (Terminal { bg_color: bgc, fg_color: fgc, ..*old(self) }),
    {
        self.set_bgc(bgc);
        self.set_fgc(fgc);
    }

    /// Turns the scanline overlay on or off.
    pub fn scan_lines(&mut self, enabled: bool)
        ensures
            *final (self) == (Terminal { scanlines: enabled, ..*old(self) }),
    {
        self.scanlines = enabled;
    }

    /// Records the host window's width, to be called on every resize so that
    /// the next message wraps to the new width.
    pub fn set_width(&mut self, width: u32)
        ensures
            *final (self) == (Terminal { window_width: width, ..*old(self) }),
    {
        self.window_width = width;
    }

    /// Switches to another font and size.
    pub fn set_font(&mut self, font: &str, font_size: u32)
        requires
            1 <= font_size,
        ensures
            final (self).font@ == font@,
            final (self).original_font@ == font@,
            final (self).font_size == font_size,
            final (self).saved_font_size == font_size,
            final (self).title@ == old(self).title@,
            final (self).bg_color == old(self).bg_color,
            final (self).fg_color == old(self).fg_color,
            final (self).art_font_size == old(self).art_font_size,
            final (self).window_width == old(self).window_width,
            final (self).scanlines == old(self).scanlines,
            final (self).message@ == old(self).message@,
            final (self).input@ == old(self).input@,
            final (self).mode == old(self).mode,
    {
        self.font = font.to_owned();
        self.original_font = font.to_owned();
        self.font_size = font_size;
        self.saved_font_size = font_size;
    }

    /// The character bound that fits the current window width and font size;
    /// see [`spec_max_chars`].
    pub fn get_max_characters(&self) -> (m: usize)
        requires
            self.wf(),
        ensures
            m as int == spec_max_chars(self.window_width, self.font_size),
            1 <= m <= 65535,
    {
        let m = (self.window_width as u64) * 43 / ((self.font_size as u64) * 20);
        if m < 1 {
            1
        } else if m > 65535 {
            65535
        } else {
            m as usize
        }
    }

    /// Replaces the current message: splits `message` at its newlines, wraps
    /// the lines to the current width, clears the input buffer, and starts
    /// the typewriter.
    fn new_message(&mut self, message: &str, after: Wait)
        requires
            old(self).wf(),
        ensures
            views(final (self).message@) == wrap_lines(
                split_nl(message@),
                spec_max_chars(old(self).window_width, old(self).font_size),
            ),
            final (self).input@.len() == 0,
            final (self).mode == (Mode::Typing { line: 0, pos: 0, after }),
            Terminal::same_config(*old(self), *final (self)),
            final (self).wf(),
            final (self).typing_ok(),
    {
        let max_chars = self.get_max_characters();
        let lines = split_lines(message);
        self.message = wrap(&lines, max_chars);
        self.input = String::new();
        self.mode = Mode::Typing { line: 0, pos: 0, after };
    }

    /// Displays a message and waits for Enter: the message is wrapped to the
    /// window, typed out, and a continue hint is shown while the session
    /// waits.
    pub fn tell(&mut self, message: &str)
        requires
            old(self).wf(),
        ensures
            views(final (self).message@) == wrap_lines(
                split_nl(message@),
                spec_max_chars(old(self).window_width, old(self).font_size),
            ),
            final (self).input@ == "Press Enter to Continue"@,
            final (self).mode == (Mode::Typing { line: 0, pos: 0, after: Wait::Continue }),
            Terminal::same_config(*old(self), *final (self)),
            final (self).wf(),
            final (self).typing_ok(),
    {
        self.new_message(message, Wait::Continue);
        self.input = String::from_str("Press Enter to Continue");
    }

    /// Displays a message for a duration: the message is wrapped and typed
    /// out, then the session waits until the duration has elapsed. No input
    /// is consumed.
    pub fn show(&mut self, message: &str, duration_ms: u64)
        requires
            old(self).wf(),
        ensures
            views(final (self).message@) == wrap_lines(
                split_nl(message@),
                spec_max_chars(old(self).window_width, old(self).font_size),
            ),
            final (self).input@.len() == 0,
            final (self).mode == (Mode::Typing {
                line: 0,
                pos: 0,
                after: Wait::Timer { duration_ms },
            }),
            Terminal::same_config(*old(self), *final (self)),
            final (self).wf(),
            final (self).typing_ok(),
    {
        self.new_message(message, Wait::Timer { duration_ms });
    }

    /// Displays a prompt and collects one line of input: the prompt is
    /// wrapped and typed out, the input buffer starts empty, and the session
    /// waits for Enter on a nonempty buffer. The collected line is then read
    /// with [`Terminal::get_input`].
    pub fn ask(&mut self, message: &str)
        requires
            old(self).wf(),
        ensures
            views(final (self).message@) == wrap_lines(
                split_nl(message@),
                spec_max_chars(old(self).window_width, old(self).font_size),
            ),
            final (self).input@.len() == 0,
            final (self).mode == (Mode::Typing { line: 0, pos: 0, after: Wait::Input }),
            Terminal::same_config(*old(self), *final (self)),
            final (self).wf(),
            final (self).typing_ok(),
    {
        self.new_message(message, Wait::Input);
    }

    /// Displays pre-formatted art for a duration: the art's lines are taken
    /// as they are, never wrapped, so their alignment is preserved; the font
    /// switches to the fixed monospace one at the art size, and is restored
    /// when the wait ends.
    pub fn display_art(&mut self, art: &str, duration_ms: u64)
        requires
            old(self).wf(),
        ensures
            views(final (self).message@) == split_nl(art@),
            final (self).input@.len() == 0,
            final (self).mode == (Mode::WaitArt { duration_ms }),
            final (self).font@ == "LeagueMono-Regular.ttf"@,
            final (self).font_size == old(self).art_font_size,
            final (self).saved_font_size == old(self).font_size,
            final (self).title@ == old(self).title@,
            final (self).bg_color == old(self).bg_color,
            final (self).fg_color == old(self).fg_color,
            final (self).original_font@ == old(self).original_font@,
            final (self).art_font_size == old(self).art_font_size,
            final (self).window_width == old(self).window_width,
            final (self).scanlines == old(self).scanlines,
            final (self).wf(),
            final (self).typing_ok(),
    {
        self.saved_font_size = self.font_size;
        self.font_size = self.art_font_size;
        self.font = String::from_str("LeagueMono-Regular.ttf");
        self.message = split_lines(art);
        self.input = String::new();
        self.mode = Mode::WaitArt { duration_ms };
    }

    /// The collected input line.
    pub fn get_input(&self) -> (s: String)
        ensures
            s@ == self.input@,
    {
        self.input.clone()
    }

    /// Handles one event from the host's frame pump and says whether the
    /// running operation is over: the typewriter advances on elapsed time,
    /// each wait watches for its exit condition, and an input wait edits the
    /// buffer. When an art wait ends, the saved font and size are restored.
    pub fn on_event(&mut self, event: &TermEvent) -> (done: bool)
        requires
            old(self).typing_ok(),
        ensures
            final (self).typing_ok(),
            final (self).mode == mode_next(
                old(self).mode,
                views(old(self).message@),
                old(self).input@,
                *event,
            ),
            final (self).input@ == input_next(old(self).mode, old(self).input@, *event),
            done == op_done(old(self).mode, old(self).input@, *event),
            final (self).message@ == old(self).message@,
            final (self).title@ == old(self).title@,
            final (self).bg_color == old(self).bg_color,
            final (self).fg_color == old(self).fg_color,
            final (self).original_font@ == old(self).original_font@,
            final (self).art_font_size == old(self).art_font_size,
            final (self).saved_font_size == old(self).saved_font_size,
            final (self).window_width == old(self).window_width,
            final (self).scanlines == old(self).scanlines,
            (old(self).mode matches Mode::WaitArt { .. } && done) ==> final (self).font_size == old(
                self,
            ).saved_font_size && final (self).font@ == old(self).original_font@,
            !(old(self).mode matches Mode::WaitArt { .. } && done) ==> final (self).font_size == old(
                self,
            ).font_size && final (self).font@ == old(self).font@,
    {
        let m = self.mode;
        match m {
            Mode::Idle => true,
            Mode::Typing { line, pos, after } => {
                match event {
                    TermEvent::Elapsed { .. } => {
                        if line >= self.message.len() {
                            self.mode = match after {
                                Wait::Continue => Mode::WaitContinue,
                                Wait::Timer { duration_ms } => Mode::WaitTimer { duration_ms },
                                Wait::Input => Mode::WaitInput,
                            };
                        } else {
                            proof {
                                assert(views(old(self).message@)[line as int] == old(
                                    self,
                                ).message@[line as int]@);
                            }
                            let n = self.message[line].as_str().unicode_len();
                            if pos < n {
                                self.mode = Mode::Typing { line, pos: pos + 1, after };
                            } else {
                                self.mode = Mode::Typing { line: line + 1, pos: 0, after };
                            }
                        }
                        false
                    },
                    _ => false,
                }
            },
            Mode::WaitContinue => match event {
                TermEvent::KeyPress { key } => {
                    if *key == Key::Enter {
                        self.mode = Mode::Idle;
                        true
                    } else {
                        false
                    }
                },
                _ => false,
            },
            Mode::WaitTimer { duration_ms } => match event {
                TermEvent::Elapsed { ms } => {
                    if *ms >= duration_ms {
                        self.mode = Mode::Idle;
                        true
                    } else {
                        false
                    }
                },
                _ => false,
            },
            Mode::WaitArt { duration_ms } => match event {
                TermEvent::Elapsed { ms } => {
                    if *ms >= duration_ms {
                        self.font_size = self.saved_font_size;
                        self.font = self.original_font.clone();
                        self.mode = Mode::Idle;
                        true
                    } else {
                        false
                    }
                },
                _ => false,
            },
            Mode::WaitInput => match event {
                TermEvent::TextInput { text } => {
                    self.input.append(text.as_str());
                    false
                },
                TermEvent::KeyPress { key } => {
                    if *key == Key::Backspace {
                        let n = self.input.as_str().unicode_len();
                        if n > 0 {
                            let shorter = self.input.as_str().substring_char(0, n - 1).to_owned();
                            proof {
                                assert(shorter@ =~= old(self).input@.drop_last());
                            }
                            self.input = shorter;
                        }
                        false
                    } else if *key == Key::Enter {
                        let n = self.input.as_str().unicode_len();
                        if n > 0 {
                            self.mode = Mode::Idle;
                            true
                        } else {
                            false
                        }
                    } else {
                        false
                    }
                },
                TermEvent::Elapsed { .. } => false,
            },
        }
    }

    /// The lines the host draws while the typewriter runs: every fully
    /// revealed line, then the growing prefix of the current line followed by
    /// the `[]` cursor. Outside of typing, the whole message.
    pub fn typed_lines(&self) -> (r: Vec<String>)
        requires
            self.typing_ok(),
        ensures
            views(r@) == (match self.mode {
                Mode::Typing { line, pos, .. } => typed_view(views(self.message@), line, pos),
                _ => views(self.message@),
            }),
    {
        match self.mode {
            Mode::Typing { line, pos, after: _ } => {
                if line < self.message.len() {
                    let ghost lv = views(self.message@);
                    let mut r: Vec<String> = Vec::new();
                    let mut i: usize = 0;
                    proof {
                        assert(views(r@) =~= lv.subrange(0, 0));
                    }
                    while i < line
                        invariant
                            i <= line,
                            line < self.message@.len(),
                            lv == views(self.message@),
                            views(r@) == lv.subrange(0, i as int),
                        decreases line - i,
                    {
                        let ghost rv = r@;
                        r.push(self.message[i].clone());
                        proof {
                            assert(views(r@) =~= views(rv).push(lv[i as int]));
                            assert(views(rv).push(lv[i as int]) =~= lv.subrange(0, i + 1));
                        }
                        i = i + 1;
                    }
                    let cur = self.message[line].as_str();
                    let mut shown = cur.substring_char(0, pos).to_owned();
                    shown.append("[]");
                    proof {
                        assert(shown@ == lv[line as int].take(pos as int) + "[]"@);
                    }
                    let ghost rv = r@;
                    r.push(shown);
                    proof {
                        assert(views(r@) =~= views(rv) + seq![
                            lv[line as int].take(pos as int) + "[]"@,
                        ]);
                        assert(lv.subrange(0, line as int) =~= lv.take(line as int));
                    }
                    r
                } else {
                    clone_lines(&self.message)
                }
            },
            _ => clone_lines(&self.message),
        }
    }
}

/// Clones a message's lines for the host to draw.
fn clone_lines(v: &Vec<String>) -> (r: Vec<String>)
    ensures
        views(r@) == views(v@),
{
    let mut r: Vec<String> = Vec::new();
    let mut i: usize = 0;
    proof {
        assert(views(r@) =~= views(v@).subrange(0, 0));
    }
    while i < v.len()
        invariant
            i <= v@.len(),
            views(r@) == views(v@).subrange(0, i as int),
        decreases v@.len() - i,
    {
        let ghost rv = r@;
        r.push(v[i].clone());
        proof {
            assert(views(r@) =~= views(rv).push(views(v@)[i as int]));
            assert(views(rv).push(views(v@)[i as int]) =~= views(v@).subrange(0, i + 1));
        }
        i = i + 1;
    }
    proof {
        assert(views(v@).subrange(0, v@.len() as int) =~= views(v@));
    }
    r
}

} // verus!
