use vstd::prelude::*;
use vstd::string::StringExecFns;
use colored::Colorize;

verus! {

/// The names under which a participant holds its gauges.
#[derive(Debug, Clone, Copy, Hash, PartialEq, Eq, Structural)]
pub enum ProgressBarName {
    XP,
    HP,
}

/// Whether a gauge is shown filling up or draining away.
#[derive(Clone, Copy, Debug, PartialEq, Eq, Structural)]
pub enum ProgressBarStyle {
    Fill,
    Drain,
}

impl ProgressBarStyle {
    /// The verb used when describing a change of a gauge of this style.
    pub fn change_verb(&self) -> (r: &'static str)
        ensures
            r@ == (match *self {
                ProgressBarStyle::Fill => "increase"@,
                ProgressBarStyle::Drain => "decrease"@,
            }),
    {
        proof {
            reveal_strlit("increase");
            reveal_strlit("decrease");
        }
        match self {
            ProgressBarStyle::Fill => "increase",
            ProgressBarStyle::Drain => "decrease",
        }
    }
}

/// Colours that chat clients can print.
#[derive(Clone, Copy, Debug, PartialEq, Eq, Structural)]
pub enum Colour {
    Gray,
    Red,
    Green,
    Yellow,
    Blue,
    Pink,
    Cyan,
    White,
}

impl Colour {
    /// The terminal colour name this colour is printed with.
    pub fn terminal_name(&self) -> (r: &'static str)
        ensures
            r@ == colour_name(*self),
    {
        proof {
            reveal_strlit("black");
            reveal_strlit("red");
            reveal_strlit("green");
            reveal_strlit("yellow");
            reveal_strlit("blue");
            reveal_strlit("magenta");
            reveal_strlit("cyan");
            reveal_strlit("white");
        }
        match self {
            Colour::Gray => "black",
            Colour::Red => "red",
            Colour::Green => "green",
            Colour::Yellow => "yellow",
            Colour::Blue => "blue",
            Colour::Pink => "magenta",
            Colour::Cyan => "cyan",
            Colour::White => "white",
        }
    }
}

/// The terminal colour name of each colour.
pub open spec fn colour_name(c: Colour) -> Seq<char> {
    match c {
        Colour::Gray => "black"@,
        Colour::Red => "red"@,
        Colour::Green => "green"@,
        Colour::Yellow => "yellow"@,
        Colour::Blue => "blue"@,
        Colour::Pink => "magenta"@,
        Colour::Cyan => "cyan"@,
        Colour::White => "white"@,
    }
}

/// A bounded counter: `progress` moves towards `max` and never passes it.
#[derive(Clone, Copy, Debug, PartialEq, Eq, Structural)]
pub struct ProgressBar {
    pub max: u16,
    pub name: ProgressBarName,
    pub progress: u16,
    pub colour: Colour,
    pub style: ProgressBarStyle,
}

impl ProgressBar {
    /// Progress stays within the bar.
    pub open spec fn wf(&self) -> bool {
        self.progress <= self.max
    }

    /// The bar after `increment(delta)`: progress saturates at `max`.
    pub open spec fn incremented(self, delta: u16) -> ProgressBar {
        let sum = self.progress + delta;
        ProgressBar { progress: if sum < self.max { sum as u16 } else { self.max }, ..self }
    }

    /// The bar after a sequence of increments, applied in order.
    pub open spec fn after_increments(self, deltas: Seq<u16>) -> ProgressBar
        decreases deltas.len(),
    {
        if deltas.len() == 0 {
            self
        } else {
            self.after_increments(deltas.drop_last()).incremented(deltas.last())
        }
    }

    /// Cell `i` of the display is filled.
    pub open spec fn cell_filled(self, i: int) -> bool {
        match self.style {
            ProgressBarStyle::Fill => i < self.progress,
            ProgressBarStyle::Drain => i >= self.progress,
        }
    }

    /// The display cells, left to right, `true` where filled.
    pub open spec fn cell_pattern(self) -> Seq<bool> {
        Seq::new(self.max as nat, |i: int| self.cell_filled(i))
    }

    /// How many cells of the display are filled.
    pub open spec fn filled_count(self) -> int {
        match self.style {
            ProgressBarStyle::Fill => self.progress as int,
            ProgressBarStyle::Drain => self.max - self.progress,
        }
    }

    pub fn new(max: u16, name: ProgressBarName, colour: Colour, style: ProgressBarStyle) -> (r: Self)
        ensures
            r == (ProgressBar { max, name, progress: 0, colour, style }),
            r.wf(),
    {
        ProgressBar { max, name, progress: 0, colour, style }
    }

    /// Adds `delta` to the progress, stopping at `max`.
    pub fn increment(&mut self, delta: u16)
        ensures
            *final(self) == old(self).incremented(delta),
            final(self).wf(),
    {
        let sum: u32 = self.progress as u32 + delta as u32;
        if sum < self.max as u32 {
            self.progress = sum as u16;
        } else {
            self.progress = self.max;
        }
    }

    /// The bar is full.
    pub fn complete(&self) -> (r: bool)
        ensures
            r == (self.max <= self.progress),
    {
        self.max <= self.progress
    }

    /// The display cells, left to right, `true` where filled.
    pub fn cells(&self) -> (r: Vec<bool>)
        requires
            self.wf(),
        ensures
            r@ == self.cell_pattern(),
    {
        let mut r: Vec<bool> = Vec::new();
        let mut i: u16 = 0;
        while i < self.max
            invariant
                i <= self.max,
                r@ == self.cell_pattern().take(i as int),
            decreases self.max - i,
        {
            let filled = match self.style {
                ProgressBarStyle::Fill => i < self.progress,
                ProgressBarStyle::Drain => i >= self.progress,
            };
            r.push(filled);
            proof {
                assert(self.cell_pattern().take(i + 1) =~= self.cell_pattern().take(i as int).push(filled));
            }
            i = i + 1;
        }
        assert(r@ =~= self.cell_pattern());
        r
    }

    /// The bar drawn with `filled` for each filled cell and `unfilled` for each
    /// other cell.
    pub fn render_cells(&self, filled: &str, unfilled: &str) -> (r: String)
        requires
            self.wf(),
        ensures
            r@ == drawn(self.cell_pattern(), filled@, unfilled@),
    {
        let cells = self.cells();
        let mut r = String::new();
        let mut i: usize = 0;
        while i < cells.len()
            invariant
                i <= cells@.len(),
                cells@ == self.cell_pattern(),
                r@ == drawn(cells@.take(i as int), filled@, unfilled@),
            decreases cells@.len() - i,
        {
            assert(cells@.take(i + 1).drop_last() =~= cells@.take(i as int));
            if cells[i] {
                r.append(filled);
            } else {
                r.append(unfilled);
            }
            i = i + 1;
        }
        assert(cells@.take(i as int) =~= cells@);
        r
    }

    /// The bar as coloured text: filled cells in the bar's colour, the others
    /// in white.
    pub fn render(&self) -> (r: String)
        requires
            self.wf(),
        ensures
            draws(*self, r@),
    {
        proof {
            reveal_strlit("o");
            reveal_strlit("black");
            reveal_strlit("red");
            reveal_strlit("green");
            reveal_strlit("yellow");
            reveal_strlit("blue");
            reveal_strlit("magenta");
            reveal_strlit("cyan");
            reveal_strlit("white");
            assert(!holds_reset("o"@));
        }
        let filled = paint("o", self.colour.terminal_name());
        let unfilled = paint("o", Colour::White.terminal_name());
        let r = self.render_cells(filled.as_str(), unfilled.as_str());
        assert(r@ == drawn(self.cell_pattern(), filled@, unfilled@));
        r
    }
}

/// The text of a cell pattern: one `filled` or `unfilled` piece per cell.
pub open spec fn drawn(cells: Seq<bool>, filled: Seq<char>, unfilled: Seq<char>) -> Seq<char>
    decreases cells.len(),
{
    if cells.len() == 0 {
        Seq::empty()
    } else {
        drawn(cells.drop_last(), filled, unfilled) + if cells.last() {
            filled
        } else {
            unfilled
        }
    }
}

/// Number of `true` entries.
pub open spec fn count_true(s: Seq<bool>) -> int
    decreases s.len(),
{
    if s.len() == 0 {
        0
    } else {
        count_true(s.drop_last()) + if s.last() {
            1int
        } else {
            0
        }
    }
}

/// `s` holds the reset sequence `ESC [ 0 m` somewhere.
pub open spec fn holds_reset(s: Seq<char>) -> bool {
    exists|i: int| 0 <= i && i + 4 <= s.len() && #[trigger] s.subrange(i, i + 4) == seq!['\x1b', '[', '0', 'm']
}

/// `t` shows `text`: unless `text` holds a reset sequence, `t` is `text`
/// with something before and something after it.
pub open spec fn shows(text: Seq<char>, t: Seq<char>) -> bool {
    !holds_reset(text) ==> exists|pre: Seq<char>, post: Seq<char>| t == pre + text + post
}

/// One of the eight base colour names, in lower case.
pub open spec fn is_base_colour_name(name: Seq<char>) -> bool {
    name == "black"@ || name == "red"@ || name == "green"@ || name == "yellow"@ || name == "blue"@ || name == "magenta"@
        || name == "cyan"@ || name == "white"@
}

/// The terminal's foreground code for a base colour name.
pub open spec fn colour_code(name: Seq<char>) -> Seq<char> {
    if name == "black"@ {
        "30"@
    } else if name == "red"@ {
        "31"@
    } else if name == "green"@ {
        "32"@
    } else if name == "yellow"@ {
        "33"@
    } else if name == "blue"@ {
        "34"@
    } else if name == "magenta"@ {
        "35"@
    } else if name == "cyan"@ {
        "36"@
    } else {
        "37"@
    }
}

/// `t` is `text` in the colour named `name`: plain when colouring is off,
/// otherwise between the colour's style sequence and the reset sequence.
pub open spec fn painted(name: Seq<char>, text: Seq<char>, t: Seq<char>) -> bool {
    t == text || t == "\x1b["@ + colour_code(name) + "m"@ + text + "\x1b[0m"@
}

/// `t` draws the bar: one piece per cell, filled cells showing an `o` in the
/// bar's colour and the others an `o` in white.
pub open spec fn draws(bar: ProgressBar, t: Seq<char>) -> bool {
    exists|f: Seq<char>, u: Seq<char>|
        t == drawn(bar.cell_pattern(), f, u) && painted(colour_name(bar.colour), "o"@, f) && painted(
            colour_name(Colour::White),
            "o"@,
            u,
        )
}

/// Relies on colored's `Colorize::color` with a colour name (parsed by
/// `Color::from_str`; `to_fg_str` gives a base colour's code), and on the
/// `Display` of the coloured string: the text as it is when colouring is off,
/// otherwise `ESC [ code m`, the text (with any reset sequence inside it
/// escaped), and `ESC [ 0 m`. Whether colouring is on depends on the terminal
/// and the environment.
#[verifier::external_body]
pub(crate) fn paint(text: &str, colour_name: &str) -> (r: String)
    ensures
        shows(text@, r@),
        !holds_reset(text@) && is_base_colour_name(colour_name@) ==> painted(colour_name@, text@, r@),
{
    text.color(colour_name).to_string()
}

/// The starting health gauge: four cells, drawn draining in red.
pub fn health_bar() -> (r: ProgressBar)
    ensures
        r == (ProgressBar {
            max: 4,
            name: ProgressBarName::HP,
            progress: 0,
            colour: Colour::Red,
            style: ProgressBarStyle::Drain,
        }),
{
    ProgressBar::new(4, ProgressBarName::HP, Colour::Red, ProgressBarStyle::Drain)
}

/// The starting experience gauge: four cells, drawn filling in blue.
pub fn xp_bar() -> (r: ProgressBar)
    ensures
        r == (ProgressBar {
            max: 4,
            name: ProgressBarName::XP,
            progress: 0,
            colour: Colour::Blue,
            style: ProgressBarStyle::Fill,
        }),
{
    ProgressBar::new(4, ProgressBarName::XP, Colour::Blue, ProgressBarStyle::Fill)
}

/// Any sequence of increments keeps a gauge's progress within `[0, max]`.
pub proof fn lemma_increments_stay_in_bounds(bar: ProgressBar, deltas: Seq<u16>)
    requires
        bar.wf(),
    ensures
        bar.after_increments(deltas).wf(),
        bar.after_increments(deltas).max == bar.max,
    decreases deltas.len(),
{
    if deltas.len() > 0 {
        lemma_increments_stay_in_bounds(bar, deltas.drop_last());
    }
}

/// A Fill gauge shows `progress` filled cells; a Drain gauge shows
/// `max - progress`.
pub proof fn lemma_filled_cells(bar: ProgressBar)
    requires
        bar.wf(),
    ensures
        count_true(bar.cell_pattern()) == bar.filled_count(),
{
    lemma_count_prefix(bar, bar.max as int);
    assert(bar.cell_pattern().take(bar.max as int) =~= bar.cell_pattern());
}

proof fn lemma_count_prefix(bar: ProgressBar, n: int)
    requires
        bar.wf(),
        0 <= n <= bar.max,
    ensures
        count_true(bar.cell_pattern().take(n)) == match bar.style {
            ProgressBarStyle::Fill => if n < bar.progress { n } else { bar.progress as int },
            ProgressBarStyle::Drain => if n < bar.progress { 0 } else { n - bar.progress },
        },
    decreases n,
{
    if n > 0 {
        lemma_count_prefix(bar, n - 1);
        assert(bar.cell_pattern().take(n).drop_last() =~= bar.cell_pattern().take(n - 1));
    }
}

/// A participant's gauges, one slot per gauge name.
#[derive(Clone, Copy, Debug, PartialEq, Eq, Structural)]
pub struct ProgressBars {
    pub xp: Option<ProgressBar>,
    pub hp: Option<ProgressBar>,
}

impl ProgressBars {
    /// The gauge held under `name`.
    pub open spec fn slot(self, name: ProgressBarName) -> Option<ProgressBar> {
        match name {
            ProgressBarName::XP => self.xp,
            ProgressBarName::HP => self.hp,
        }
    }

    /// These gauges with `bar` held under `name`.
    pub open spec fn with(self, name: ProgressBarName, bar: ProgressBar) -> ProgressBars {
        match name {
            ProgressBarName::XP => ProgressBars { xp: Some(bar), ..self },
            ProgressBarName::HP => ProgressBars { hp: Some(bar), ..self },
        }
    }

    /// Every gauge held keeps its progress within bounds.
    pub open spec fn wf(self) -> bool {
        &&& self.xp matches Some(b) ==> b.wf()
        &&& self.hp matches Some(b) ==> b.wf()
    }

    /// No gauges.
    pub fn new() -> (r: Self)
        ensures
            r.xp is None,
            r.hp is None,
    {
        ProgressBars { xp: None, hp: None }
    }

    /// The gauge held under `name`.
    pub fn get(&self, name: ProgressBarName) -> (r: Option<ProgressBar>)
        ensures
            r == self.slot(name),
    {
        match name {
            ProgressBarName::XP => self.xp,
            ProgressBarName::HP => self.hp,
        }
    }

    /// Holds `bar` under `name`, returning the gauge it replaces.
    pub fn insert(&mut self, name: ProgressBarName, bar: ProgressBar) -> (r: Option<ProgressBar>)
        ensures
            *final(self) == old(self).with(name, bar),
            r == old(self).slot(name),
    {
        match name {
            ProgressBarName::XP => {
                let previous = self.xp;
                self.xp = Some(bar);
                previous
            },
            ProgressBarName::HP => {
                let previous = self.hp;
                self.hp = Some(bar);
                previous
            },
        }
    }

    /// Increments the gauge held under `name`.
    pub fn increment(&mut self, name: ProgressBarName, delta: u16)
        requires
            old(self).slot(name) is Some,
        ensures
            *final(self) == old(self).with(name, old(self).slot(name).unwrap().incremented(delta)),
    {
        match name {
            ProgressBarName::XP => {
                let mut bar = self.xp.unwrap();
                bar.increment(delta);
                self.xp = Some(bar);
            },
            ProgressBarName::HP => {
                let mut bar = self.hp.unwrap();
                bar.increment(delta);
                self.hp = Some(bar);
            },
        }
    }
}

} // verus!
