//! Log lines on the scroll panel, with a place to wait while it is busy.

use super::fixed;
use super::ui;
use vstd::prelude::*;

verus! {

/// Bytes of a log line.
pub const LINE_MAX: usize = 80;

/// Lines of the scroll panel.
pub const LCD_LINES: usize = 12;

/// Lines that can wait.
pub const STAGING_LINES: usize = 32;

/// What a line keeps of a text.
pub open spec fn kept(text: &str) -> Seq<u8> {
    if fixed::bytes_of(text).len() > 80 {
        fixed::bytes_of(text).take(80)
    } else {
        fixed::bytes_of(text)
    }
}

/// The end of a line does not cut a character in two.
pub open spec fn cuts_cleanly(text: &str) -> bool {
    fixed::bytes_of(text).len() > 80 ==> vstd::utf8::is_char_boundary(fixed::bytes_of(text), 80)
}

/// Make a line of a text; what is too long is cut off.
fn line_of(text: &str) -> (line: heapless::String<80>)
    requires
        cuts_cleanly(text),
    ensures
        fixed::line_bytes(line) == kept(text),
{
    let mut line: heapless::String<80> = fixed::line_new();
    if text.as_bytes().len() > LINE_MAX {
        let (start, _): (&str, &str) = text.split_at(LINE_MAX);
        assert(fixed::bytes_of(start) =~= fixed::bytes_of(text).take(80));
        assert(Seq::<u8>::empty() + fixed::bytes_of(start) =~= fixed::bytes_of(start));
        let _ = fixed::line_push_str(&mut line, start);
    } else {
        assert(Seq::<u8>::empty() + fixed::bytes_of(text) =~= fixed::bytes_of(text));
        let _ = fixed::line_push_str(&mut line, text);
    }
    line
}

/// The scroll panel: the newest lines, oldest first.
pub struct LcdPanel {
    lines: heapless::Deque<heapless::String<80>, 12>,
    dirty: bool,
}

impl LcdPanel {
    /// The lines, as bytes.
    pub closed spec fn shown(&self) -> Seq<Seq<u8>> {
        fixed::panel_lines(self.lines)
    }

    /// Whether lines came in since they were last handed out.
    pub closed spec fn changed(&self) -> bool {
        self.dirty
    }

    /// An empty panel.
    pub fn new() -> (panel: LcdPanel)
        ensures
            panel.shown() == Seq::<Seq<u8>>::empty(),
            !panel.changed(),
    {
        LcdPanel { lines: fixed::panel_new(), dirty: false }
    }

    /// Append a line; the oldest scrolls out when the panel is full.
    pub fn push(&mut self, text: &str)
        requires
            cuts_cleanly(text),
        ensures
            final(self).shown() == ui::ring_push(old(self).shown(), kept(text), 12),
            final(self).changed(),
    {
        let line: heapless::String<80> = line_of(text);
        self.push_line(line);
    }

    /// Append a finished line.
    fn push_line(&mut self, line: heapless::String<80>)
        ensures
            final(self).shown() == ui::ring_push(
                old(self).shown(),
                fixed::line_bytes(line),
                12,
            ),
            final(self).changed(),
    {
        if fixed::panel_is_full(&self.lines) {
            let _ = fixed::panel_pop_front(&mut self.lines);
        }
        let _ = fixed::panel_push_back(&mut self.lines, line);
        self.dirty = true;
    }

    /// The lines, if any came in since the last call.
    pub fn drain_dirty(&mut self) -> (lines: Option<Vec<&heapless::String<80>>>)
        ensures
            final(self).shown() == old(self).shown(),
            !final(self).changed(),
            lines is Some <==> old(self).changed(),
            lines matches Some(l) ==> lists(l@, old(self).shown()),
    {
        if !self.dirty {
            return None;
        }
        self.dirty = false;
        Some(self.iter_chronological())
    }

    /// The lines, oldest first.
    pub fn iter_chronological(&self) -> (lines: Vec<&heapless::String<80>>)
        ensures
            lists(lines@, self.shown()),
    {
        let (first, second): (&[heapless::String<80>], &[heapless::String<80>]) =
            fixed::panel_slices(&self.lines);
        let mut lines: Vec<&heapless::String<80>> = Vec::new();
        for i in 0..first.len()
            invariant
                lines@.len() == i,
                forall|q: int| 0 <= q < i ==> *(#[trigger] lines@[q]) == first@[q],
        {
            lines.push(&first[i]);
        }
        for i in 0..second.len()
            invariant
                lines@.len() == first@.len() + i,
                forall|q: int| 0 <= q < first@.len() ==> *(#[trigger] lines@[q]) == first@[q],
                forall|q: int|
                    first@.len() <= q < first@.len() + i ==> *(#[trigger] lines@[q]) == second@[q
                        - first@.len()],
        {
            lines.push(&second[i]);
        }
        proof {
            let a = first@.map_values(|l: heapless::String<80>| fixed::line_bytes(l));
            let b = second@.map_values(|l: heapless::String<80>| fixed::line_bytes(l));
            assert(self.shown() == a + b);
            assert forall|i: int| 0 <= i < lines@.len() implies fixed::line_bytes(
                *(#[trigger] lines@[i]),
            ) == self.shown()[i] by {
                if i < first@.len() {
                    assert(*lines@[i] == first@[i]);
                    assert(self.shown()[i] == a[i]);
                } else {
                    assert(*lines@[i] == second@[i - first@.len()]);
                    assert(self.shown()[i] == b[i - first@.len()]);
                }
            }
        }
        lines
    }

    /// Number of lines.
    pub fn len(&self) -> (n: usize)
        ensures
            n == self.shown().len(),
            n <= 12,
    {
        fixed::panel_len(&self.lines)
    }

    /// Whether there are no lines.
    pub fn is_empty(&self) -> (yes: bool)
        ensures
            yes == (self.shown().len() == 0),
    {
        fixed::panel_is_empty(&self.lines)
    }
}

/// A list of lines holds these bytes.
pub open spec fn lists(lines: Seq<&heapless::String<80>>, bytes: Seq<Seq<u8>>) -> bool {
    &&& lines.len() == bytes.len()
    &&& forall|i: int| 0 <= i < lines.len() ==> fixed::line_bytes(*(#[trigger] lines[i])) == bytes[i]
}

/// Lines that wait for the panel, oldest first.
pub struct Staging {
    lines: heapless::Deque<heapless::String<80>, 32>,
}

/// The lines of a panel after others have been appended in turn.
pub open spec fn scrolled(panel: Seq<Seq<u8>>, more: Seq<Seq<u8>>, n: int) -> Seq<Seq<u8>>
    decreases n,
{
    if n <= 0 {
        panel
    } else {
        ui::ring_push(scrolled(panel, more, n - 1), more[n - 1], 12)
    }
}

impl Staging {
    /// The waiting lines, as bytes.
    pub closed spec fn waiting(&self) -> Seq<Seq<u8>> {
        fixed::staged_lines(self.lines)
    }

    /// Nothing waits.
    pub fn new() -> (s: Staging)
        ensures
            s.waiting() == Seq::<Seq<u8>>::empty(),
    {
        Staging { lines: fixed::staging_new() }
    }

    /// Let a line wait; the oldest is given up when there is no room.
    pub fn push(&mut self, text: &str)
        requires
            cuts_cleanly(text),
        ensures
            final(self).waiting() == ui::ring_push(old(self).waiting(), kept(text), 32),
    {
        let line: heapless::String<80> = line_of(text);
        if fixed::staging_is_full(&self.lines) {
            let _ = fixed::staging_pop_front(&mut self.lines);
        }
        let _ = fixed::staging_push_back(&mut self.lines, line);
    }

    /// Move the waiting lines to the panel, in their order.
    pub fn flush(&mut self, panel: &mut LcdPanel)
        ensures
            final(self).waiting() == Seq::<Seq<u8>>::empty(),
            final(panel).shown() == scrolled(
                old(panel).shown(),
                old(self).waiting(),
                old(self).waiting().len() as int,
            ),
            final(panel).changed() == (old(panel).changed() || old(self).waiting().len() > 0),
    {
        let ghost all = self.waiting();
        let ghost mut moved: int = 0;
        loop
            invariant
                0 <= moved <= all.len(),
                self.waiting() == all.skip(moved),
                panel.shown() == scrolled(old(panel).shown(), all, moved),
                panel.changed() == (old(panel).changed() || moved > 0),
            ensures
                moved == all.len(),
            decreases all.len() - moved,
        {
            match fixed::staging_pop_front(&mut self.lines) {
                Some(line) => {
                    panel.push_line(line);
                    proof {
                        assert(all.skip(moved).skip(1) =~= all.skip(moved + 1));
                        moved = moved + 1;
                    }
                },
                None => {
                    break;
                },
            }
        }
        assert(all.skip(all.len() as int) =~= Seq::<Seq<u8>>::empty());
    }
}

/// Where a line goes.
#[derive(Clone, Copy, Debug, PartialEq, Eq, Structural)]
pub enum Route {
    Panel,
    Staging,
    Dropped,
}

/// Choose by what is free: the panel first, the staging next.
pub fn route(panel_free: bool, staging_free: bool) -> (r: Route)
    ensures
        panel_free ==> r == Route::Panel,
        !panel_free && staging_free ==> r == Route::Staging,
        !panel_free && !staging_free ==> r == Route::Dropped,
{
    if panel_free {
        Route::Panel
    } else if staging_free {
        Route::Staging
    } else {
        Route::Dropped
    }
}

/// How grave a record is.
#[derive(Clone, Copy, Debug, PartialEq, Eq, Structural)]
pub enum Level {
    Error,
    Warn,
    Info,
    Debug,
    Trace,
}

/// Up to which level records are kept.
#[derive(Clone, Copy, Debug, PartialEq, Eq, Structural)]
pub enum LevelFilter {
    Off,
    Error,
    Warn,
    Info,
    Debug,
    Trace,
}

impl Level {
    /// Rank of a level, the gravest first.
    pub open spec fn rank(self) -> int {
        match self {
            Level::Error => 1,
            Level::Warn => 2,
            Level::Info => 3,
            Level::Debug => 4,
            Level::Trace => 5,
        }
    }

    /// Letter of a level.
    pub open spec fn letter(self) -> char {
        match self {
            Level::Error => 'E',
            Level::Warn => 'W',
            Level::Info => 'I',
            Level::Debug => 'D',
            Level::Trace => 'T',
        }
    }
}

impl LevelFilter {
    /// Rank of the last level that passes.
    pub open spec fn rank(self) -> int {
        match self {
            LevelFilter::Off => 0,
            LevelFilter::Error => 1,
            LevelFilter::Warn => 2,
            LevelFilter::Info => 3,
            LevelFilter::Debug => 4,
            LevelFilter::Trace => 5,
        }
    }
}

/// Whether records of a level are kept.
pub fn enabled(level: Level, filter: LevelFilter) -> (yes: bool)
    ensures
        yes == (level.rank() <= filter.rank()),
{
    let rank: u8 = match level {
        Level::Error => 1,
        Level::Warn => 2,
        Level::Info => 3,
        Level::Debug => 4,
        Level::Trace => 5,
    };
    let last: u8 = match filter {
        LevelFilter::Off => 0,
        LevelFilter::Error => 1,
        LevelFilter::Warn => 2,
        LevelFilter::Info => 3,
        LevelFilter::Debug => 4,
        LevelFilter::Trace => 5,
    };
    rank <= last
}

/// Letter of a level.
pub fn level_short(level: Level) -> (text: &'static str)
    ensures
        text@ == seq![level.letter()],
{
    proof {
        reveal_strlit("E");
        reveal_strlit("W");
        reveal_strlit("I");
        reveal_strlit("D");
        reveal_strlit("T");
    }
    match level {
        Level::Error => "E",
        Level::Warn => "W",
        Level::Info => "I",
        Level::Debug => "D",
        Level::Trace => "T",
    }
}

/// The start of a line of pieces: the pieces up to the first that does not fit
/// any more.
pub open spec fn joined(line: Seq<u8>, pieces: Seq<&str>, n: int) -> Seq<u8>
    decreases pieces.len() - n,
{
    if n < 0 || n >= pieces.len() {
        line
    } else if line.len() + fixed::bytes_of(pieces[n]).len() > 80 {
        line
    } else {
        joined(line + fixed::bytes_of(pieces[n]), pieces, n + 1)
    }
}

/// Put a line together from its pieces.
pub fn compose(pieces: &[&str]) -> (line: heapless::String<80>)
    ensures
        fixed::line_bytes(line) == joined(Seq::empty(), pieces@, 0),
{
    let mut line: heapless::String<80> = fixed::line_new();
    for n in 0..pieces.len()
        invariant
            joined(Seq::empty(), pieces@, 0) == joined(fixed::line_bytes(line), pieces@, n as int),
    {
        match fixed::line_push_str(&mut line, pieces[n]) {
            Ok(_) => {},
            Err(_) => {
                return line;
            },
        }
    }
    line
}

/// A line as text.
pub fn line_text(line: &heapless::String<80>) -> (text: &str)
    ensures
        fixed::bytes_of(text) == fixed::line_bytes(*line),
{
    fixed::line_as_str(line)
}

/// A place that keeps log lines for good.
pub trait FlashLog: Send {
    fn write_line(&mut self, line: &str);
}

} // verus!
