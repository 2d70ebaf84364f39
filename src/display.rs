use vstd::prelude::*;
use vstd::string::{StrSliceExecFns, StringExecFns};
use itertools::Itertools;
use crate::entities::{Character, Stat, Stats, Team, stat_name};
use crate::ids::{CharacterID, TeamID};
use crate::progress_bars::{draws, paint, shows, ProgressBar, ProgressBarName, ProgressBarStyle, ProgressBars};
use crate::events::{
    CompletedEvent, Event, EventView, GameProgressBarLocation, gauge_at, index_of, lemma_index_of, present, wf_participants,
};
use crate::roster::{canonical_seq, Position, Roster};
use crate::game::{ActiveCharacter, Game, Sim, has_roster, lemma_roster_pos_at, roster_pos};
use crate::ids::ActiveCharacterID;

verus! {

/// Text laid out for a reader: a line, a bulleted list, several blocks one
/// after the other, or a parent with its children indented under it.
#[derive(Debug)]
pub enum DisplayConstruct {
    Single(String),
    List(Vec<String>),
    Multi(Vec<DisplayConstruct>),
    ParentChildren(Box<DisplayConstruct>, Vec<DisplayConstruct>),
}

/// `line` with a bullet in front.
pub open spec fn bulleted(line: Seq<char>) -> Seq<char> {
    "- "@ + line
}

/// The views of a list of strings.
pub open spec fn string_views(s: Seq<String>) -> Seq<Seq<char>> {
    s.map_values(|x: String| x@)
}

/// `parts` with `sep` between each two of them.
pub open spec fn joined(parts: Seq<Seq<char>>, sep: Seq<char>) -> Seq<char>
    decreases parts.len(),
{
    if parts.len() == 0 {
        Seq::empty()
    } else if parts.len() == 1 {
        parts[0]
    } else {
        joined(parts.drop_last(), sep) + sep + parts.last()
    }
}

/// The pieces of `s` between newlines; there is always one more piece than
/// there are newlines.
pub open spec fn pieces(s: Seq<char>) -> Seq<Seq<char>>
    decreases s.len(),
{
    if s.len() == 0 {
        seq![Seq::<char>::empty()]
    } else {
        let p = pieces(s.drop_last());
        if s.last() == '\n' {
            p.push(Seq::empty())
        } else {
            p.update(p.len() - 1, p.last().push(s.last()))
        }
    }
}

/// `piece` without a carriage return at its end.
pub open spec fn strip_cr(piece: Seq<char>) -> Seq<char> {
    if piece.len() > 0 && piece.last() == '\r' {
        piece.drop_last()
    } else {
        piece
    }
}

/// The lines of `s` as `str::lines` gives them: split at each newline, a
/// carriage return before a newline dropped, and no line after a final
/// newline.
pub open spec fn text_lines(s: Seq<char>) -> Seq<Seq<char>> {
    let p = pieces(s);
    let ended = p.drop_last().map_values(|x: Seq<char>| strip_cr(x));
    if p.last().len() == 0 {
        ended
    } else {
        ended.push(p.last())
    }
}

impl DisplayConstruct {
    /// The text of the layout: a line as it is; a list with a bullet before
    /// each item, one item per line; blocks one per line; a parent and a
    /// newline, then every line of every child's text with a bullet before
    /// it, one per line.
    pub open spec fn rendered(self) -> Seq<char>
        decreases self,
    {
        match self {
            DisplayConstruct::Single(s) => s@,
            DisplayConstruct::List(items) => joined(string_views(items@).map_values(|a: Seq<char>| bulleted(a)), "\n"@),
            DisplayConstruct::Multi(blocks) => joined(renders_of(blocks@, blocks@.len() as int), "\n"@),
            DisplayConstruct::ParentChildren(parent, children) => {
                parent.rendered() + "\n"@ + joined(child_lines(children@, children@.len() as int), "\n"@)
            },
        }
    }
}

/// The texts of the first `n` layouts of `ds`.
pub open spec fn renders_of(ds: Seq<DisplayConstruct>, n: int) -> Seq<Seq<char>>
    decreases ds, n,
{
    if n <= 0 || n > ds.len() {
        Seq::empty()
    } else {
        renders_of(ds, n - 1).push(ds[n - 1].rendered())
    }
}

/// Every line of the texts of the first `n` layouts of `ds`, each with a
/// bullet before it.
pub open spec fn child_lines(ds: Seq<DisplayConstruct>, n: int) -> Seq<Seq<char>>
    decreases ds, n,
{
    if n <= 0 || n > ds.len() {
        Seq::empty()
    } else {
        child_lines(ds, n - 1) + text_lines(ds[n - 1].rendered()).map_values(|a: Seq<char>| bulleted(a))
    }
}

impl DisplayConstruct {
    /// The layout as text.
    pub fn render(&self) -> (r: String)
        ensures
            r@ == self.rendered(),
        decreases self,
    {
        match self {
            DisplayConstruct::Single(s) => s.clone(),
            DisplayConstruct::List(items) => {
                let bullets = bullet_all(items);
                join(&bullets, "\n")
            },
            DisplayConstruct::Multi(blocks) => {
                let texts = render_all(blocks);
                join(&texts, "\n")
            },
            DisplayConstruct::ParentChildren(parent, children) => {
                let mut r = parent.render();
                let body = bullet_children(children);
                r.append("\n");
                let rest = join(&body, "\n");
                r.append(rest.as_str());
                r
            },
        }
    }
}

/// The texts of `blocks`, in order.
fn render_all(blocks: &Vec<DisplayConstruct>) -> (r: Vec<String>)
    ensures
        string_views(r@) == renders_of(blocks@, blocks@.len() as int),
    decreases blocks,
{
    let mut r: Vec<String> = Vec::new();
    let mut i: usize = 0;
    while i < blocks.len()
        invariant
            0 <= i <= blocks@.len(),
            string_views(r@) == renders_of(blocks@, i as int),
        decreases blocks@.len() - i,
    {
        let text = blocks[i].render();
        let ghost prev = r@;
        r.push(text);
        assert(string_views(r@) =~= string_views(prev).push(text@));
        i = i + 1;
    }
    r
}

/// Every line of the texts of `children`, each with a bullet before it.
fn bullet_children(children: &Vec<DisplayConstruct>) -> (r: Vec<String>)
    ensures
        string_views(r@) == child_lines(children@, children@.len() as int),
    decreases children,
{
    let mut r: Vec<String> = Vec::new();
    let mut i: usize = 0;
    while i < children.len()
        invariant
            0 <= i <= children@.len(),
            string_views(r@) == child_lines(children@, i as int),
        decreases children@.len() - i,
    {
        let text = children[i].render();
        let lines = lines_of_text(&text);
        let mut bullets = bullet_all(&lines);
        let ghost front = r@;
        let ghost added = bullets@;
        r.append(&mut bullets);
        assert(string_views(r@) =~= string_views(front) + string_views(added));
        i = i + 1;
    }
    r
}

proof fn lemma_pieces_nonempty(s: Seq<char>)
    ensures
        pieces(s).len() >= 1,
    decreases s.len(),
{
    if s.len() > 0 {
        lemma_pieces_nonempty(s.drop_last());
    }
}

/// The lines of `s`, as `str::lines` gives them.
pub fn lines_of_text(s: &String) -> (r: Vec<String>)
    ensures
        string_views(r@) == text_lines(s@),
{
    let text = s.as_str();
    let n = text.unicode_len();
    let mut out: Vec<String> = Vec::new();
    let ghost mut done: Seq<Seq<char>> = Seq::empty();
    let mut start: usize = 0;
    let mut i: usize = 0;
    proof {
        assert(s@.take(0) =~= Seq::<char>::empty());
        assert(s@.subrange(0, 0) =~= Seq::<char>::empty());
        assert(done.push(Seq::<char>::empty()) =~= seq![Seq::<char>::empty()]);
    }
    while i < n
        invariant
            n == s@.len(),
            text@ == s@,
            0 <= start <= i <= n,
            pieces(s@.take(i as int)) == done.push(s@.subrange(start as int, i as int)),
            string_views(out@) == done.map_values(|x: Seq<char>| strip_cr(x)),
        decreases n - i,
    {
        let c = text.get_char(i);
        proof {
            assert(s@.take(i + 1).drop_last() =~= s@.take(i as int));
            assert(s@.take(i + 1).last() == c);
            lemma_pieces_nonempty(s@.take(i as int));
        }
        if c == '\n' {
            let mut end = i;
            if i > start {
                let before = text.get_char(i - 1);
                if before == '\r' {
                    end = i - 1;
                }
            }
            let piece = text.substring_char(start, end);
            let ghost raw = s@.subrange(start as int, i as int);
            proof {
                assert(piece@ =~= strip_cr(raw));
            }
            let ghost prev = out@;
            out.push(String::from_str(piece));
            proof {
                assert(string_views(out@) =~= string_views(prev).push(piece@));
                assert(done.push(raw).map_values(|x: Seq<char>| strip_cr(x)) =~= done.map_values(|x: Seq<char>| strip_cr(x)).push(strip_cr(raw)));
                done = done.push(raw);
                assert(s@.subrange(i + 1, i + 1) =~= Seq::<char>::empty());
            }
            start = i + 1;
        } else {
            proof {
                let p = pieces(s@.take(i as int));
                assert(p.last() == s@.subrange(start as int, i as int));
                assert(s@.subrange(start as int, i + 1) =~= s@.subrange(start as int, i as int).push(c));
                assert(p.update(p.len() - 1, p.last().push(c)) =~= done.push(s@.subrange(start as int, i + 1)));
            }
        }
        i = i + 1;
    }
    proof {
        assert(s@.take(n as int) =~= s@);
        let p = pieces(s@);
        assert(p.drop_last() =~= done);
    }
    if start < n {
        let last = text.substring_char(start, n);
        let ghost prev = out@;
        out.push(String::from_str(last));
        proof {
            assert(string_views(out@) =~= string_views(prev).push(last@));
        }
    }
    out
}

/// Each of `items` with a bullet in front.
fn bullet_all(items: &Vec<String>) -> (r: Vec<String>)
    ensures
        string_views(r@) == string_views(items@).map_values(|a: Seq<char>| bulleted(a)),
{
    let mut r: Vec<String> = Vec::new();
    let mut i: usize = 0;
    while i < items.len()
        invariant
            0 <= i <= items@.len(),
            string_views(r@) == string_views(items@.take(i as int)).map_values(|a: Seq<char>| bulleted(a)),
        decreases items@.len() - i,
    {
        let mut line = String::from_str("- ");
        line.append(items[i].as_str());
        let ghost prev = r@;
        r.push(line);
        proof {
            assert(items@.take(i + 1) =~= items@.take(i as int).push(items@[i as int]));
            assert(string_views(items@.take(i + 1)) =~= string_views(items@.take(i as int)).push(items@[i as int]@));
            assert(line@ == bulleted(items@[i as int]@));
            assert(string_views(r@) =~= string_views(prev).push(line@));
            assert(string_views(r@) =~= string_views(items@.take(i + 1)).map_values(|a: Seq<char>| bulleted(a)));
        }
        i = i + 1;
    }
    assert(items@.take(i as int) =~= items@);
    r
}

/// Relies on itertools' `Itertools::join`: the items' text with `sep`
/// between each two of them, empty for no items.
#[verifier::external_body]
fn join(parts: &Vec<String>, sep: &str) -> (r: String)
    ensures
        r@ == joined(string_views(parts@), sep@),
{
    parts.iter().join(sep)
}

/// The decimal digit `d`.
pub open spec fn digit_char(d: nat) -> char {
    if d == 0 { '0' } else if d == 1 { '1' } else if d == 2 { '2' } else if d == 3 { '3' } else if d == 4 { '4' }
    else if d == 5 { '5' } else if d == 6 { '6' } else if d == 7 { '7' } else if d == 8 { '8' } else { '9' }
}

/// The decimal text of `n`, without leading zeros.
pub open spec fn decimal(n: nat) -> Seq<char>
    decreases n,
{
    if n < 10 {
        seq![digit_char(n)]
    } else {
        decimal(n / 10) + seq![digit_char(n % 10)]
    }
}

/// The decimal text of `n`, with a minus sign when negative.
pub open spec fn signed_decimal(n: int) -> Seq<char> {
    if n < 0 {
        "-"@ + decimal((-n) as nat)
    } else {
        decimal(n as nat)
    }
}

/// The decimal text of `n`.
pub fn decimal_string(n: u16) -> (r: String)
    ensures
        r@ == decimal(n as nat),
    decreases n,
{
    let d = n % 10;
    let digit = if d == 0 { "0" } else if d == 1 { "1" } else if d == 2 { "2" } else if d == 3 { "3" } else if d == 4 {
        "4"
    } else if d == 5 { "5" } else if d == 6 { "6" } else if d == 7 { "7" } else if d == 8 { "8" } else { "9" };
    proof {
        reveal_strlit("0");
        reveal_strlit("1");
        reveal_strlit("2");
        reveal_strlit("3");
        reveal_strlit("4");
        reveal_strlit("5");
        reveal_strlit("6");
        reveal_strlit("7");
        reveal_strlit("8");
        reveal_strlit("9");
        assert(digit@ =~= seq![digit_char(d as nat)]);
    }
    if n < 10 {
        String::from_str(digit)
    } else {
        let mut r = decimal_string(n / 10);
        r.append(digit);
        r
    }
}

/// The decimal text of `n`, with a minus sign when negative.
pub fn signed_string(n: i8) -> (r: String)
    ensures
        r@ == signed_decimal(n as int),
{
    if n < 0 {
        let mut r = String::from_str("-");
        let magnitude = decimal_string((0 - (n as i16)) as u16);
        r.append(magnitude.as_str());
        r
    } else {
        decimal_string(n as u16)
    }
}

/// How a gauge name is written.
pub open spec fn bar_name_text(name: ProgressBarName) -> Seq<char> {
    match name {
        ProgressBarName::XP => "XP"@,
        ProgressBarName::HP => "HP"@,
    }
}

/// How a gauge name is written.
pub fn bar_name_str(name: ProgressBarName) -> (r: &'static str)
    ensures
        r@ == bar_name_text(name),
{
    proof {
        reveal_strlit("XP");
        reveal_strlit("HP");
    }
    match name {
        ProgressBarName::XP => "XP",
        ProgressBarName::HP => "HP",
    }
}

/// The stored sheets that descriptions read names and colours from.
pub struct Directory {
    pub characters: Vec<Character>,
    pub teams: Vec<Team>,
}

impl Directory {
    /// The place of the sheet of `id`.
    pub fn character(&self, id: CharacterID) -> (r: Option<usize>)
        ensures
            r is None <==> forall|i: int| 0 <= i < self.characters@.len() ==> self.characters@[i].id != id,
            r matches Some(i) ==> self.first_sheet(i as int, id),
    {
        let mut i: usize = 0;
        while i < self.characters.len()
            invariant
                0 <= i <= self.characters@.len(),
                forall|k: int| 0 <= k < i ==> self.characters@[k].id != id,
            decreases self.characters@.len() - i,
        {
            if self.characters[i].id == id {
                return Some(i);
            }
            i = i + 1;
        }
        None
    }

    /// The place of the team `id`.
    pub fn team(&self, id: TeamID) -> (r: Option<usize>)
        ensures
            r is None <==> forall|i: int| 0 <= i < self.teams@.len() ==> self.teams@[i].id != id,
            r matches Some(i) ==> self.first_team(i as int, id),
    {
        let mut i: usize = 0;
        while i < self.teams.len()
            invariant
                0 <= i <= self.teams@.len(),
                forall|k: int| 0 <= k < i ==> self.teams@[k].id != id,
            decreases self.teams@.len() - i,
        {
            if self.teams[i].id == id {
                return Some(i);
            }
            i = i + 1;
        }
        None
    }

    /// `i` is the place of the first team `id`.
    pub open spec fn first_team(&self, i: int, id: TeamID) -> bool {
        &&& 0 <= i < self.teams@.len()
        &&& self.teams@[i].id == id
        &&& forall|k: int| 0 <= k < i ==> self.teams@[k].id != id
    }

    /// The name of the first team `id`.
    pub open spec fn team_name(&self, id: TeamID) -> Seq<char> {
        self.teams@[choose|i: int| self.first_team(i, id)].name@
    }

    /// `i` is the place of the first sheet of `id`.
    pub open spec fn first_sheet(&self, i: int, id: CharacterID) -> bool {
        &&& 0 <= i < self.characters@.len()
        &&& self.characters@[i].id == id
        &&& forall|k: int| 0 <= k < i ==> self.characters@[k].id != id
    }

    /// `id`'s first sheet and its team are both on file.
    pub open spec fn knows(&self, id: CharacterID) -> bool {
        exists|i: int, j: int|
            #[trigger] self.first_sheet(i, id) && 0 <= j < self.teams@.len() && #[trigger] self.teams@[j].id
                == self.characters@[i].team
    }

    /// The name on the first sheet of `id`.
    pub open spec fn sheet_name(&self, id: CharacterID) -> Seq<char> {
        self.characters@[choose|i: int| self.first_sheet(i, id)].name@
    }

    /// The name of the character `id`, in its team's colour; `None` when the
    /// sheet or the team is not on file.
    pub fn character_name(&self, id: CharacterID) -> (r: Option<String>)
        ensures
            r is Some <==> self.knows(id),
            r matches Some(t) ==> shows(self.sheet_name(id), t@),
    {
        match self.character(id) {
            None => None,
            Some(i) => {
                let sheet = &self.characters[i];
                proof {
                    assert(self.first_sheet(i as int, id));
                }
                match self.team(sheet.team) {
                    None => {
                        proof {
                            assert forall|a: int, b: int| #[trigger] self.first_sheet(a, id) && 0 <= b < self.teams@.len()
                                implies #[trigger] self.teams@[b].id != self.characters@[a].team by {
                                if a < i {
                                    assert(self.characters@[a].id != id);
                                } else if a > i {
                                    assert(self.characters@[i as int].id != id);
                                }
                            }
                        }
                        None
                    },
                    Some(j) => {
                        proof {
                            assert(self.teams@[j as int].id == self.characters@[i as int].team);
                            assert forall|k: int| #[trigger] self.first_sheet(k, id) implies k == i by {
                                if k < i {
                                    assert(self.characters@[k].id != id);
                                } else if k > i {
                                    assert(self.characters@[i as int].id != id);
                                }
                            }
                            assert(self.sheet_name(id) == sheet.name@);
                        }
                        Some(paint(sheet.name.as_str(), self.teams[j].colour.terminal_name()))
                    },
                }
            },
        }
    }
}

/// `t` is the gauge's line: its name, then a drawing of it.
pub open spec fn bar_line(bar: ProgressBar, t: Seq<char>) -> bool {
    exists|pic: Seq<char>| draws(bar, pic) && t == bar_name_text(bar.name) + ": "@ + pic + " "@
}

impl ProgressBar {
    /// The gauge's name followed by `drawn`, its drawing.
    pub fn label(&self, drawn: &str) -> (r: String)
        ensures
            r@ == bar_name_text(self.name) + ": "@ + drawn@ + " "@,
    {
        let mut r = String::from_str(bar_name_str(self.name));
        r.append(": ");
        r.append(drawn);
        r.append(" ");
        r
    }

    /// The gauge's name and its coloured drawing.
    pub fn shortform(&self) -> (r: String)
        requires
            self.wf(),
        ensures
            bar_line(*self, r@),
    {
        let drawn = self.render();
        let r = self.label(drawn.as_str());
        assert(r@ == bar_name_text(self.name) + ": "@ + drawn@ + " "@);
        r
    }
}

/// The statistics in display order.
pub open spec fn stat_order() -> Seq<Stat> {
    seq![Stat::Bloodthirst, Stat::Violence, Stat::Realism, Stat::Perpetuity, Stat::Buoyancy, Stat::Maverickism, Stat::Run]
}

impl Stats {
    /// The values in display order, between brackets, separated by commas.
    pub fn shortform(&self) -> (r: String)
        ensures
            r@ == "["@ + joined(stat_order().map_values(|s: Stat| signed_decimal(self.value(s) as int)), ", "@) + "]"@,
    {
        let order = Stats::canonical_order();
        let mut parts: Vec<String> = Vec::new();
        let mut i: usize = 0;
        while i < 7
            invariant
                0 <= i <= 7,
                order@ == stat_order(),
                string_views(parts@) == stat_order().take(i as int).map_values(|s: Stat| signed_decimal(self.value(s) as int)),
            decreases 7 - i,
        {
            let text = signed_string(self.get(order[i]));
            let ghost prev = parts@;
            parts.push(text);
            proof {
                assert(stat_order().take(i + 1) =~= stat_order().take(i as int).push(order@[i as int]));
                assert(string_views(parts@) =~= string_views(prev).push(text@));
                assert(string_views(parts@) =~= stat_order().take(i + 1).map_values(|s: Stat| signed_decimal(self.value(s) as int)));
            }
            i = i + 1;
        }
        assert(stat_order().take(7) =~= stat_order());
        let inner = join(&parts, ", ");
        let mut r = String::from_str("[");
        r.append(inner.as_str());
        r.append("]");
        r
    }

    /// One line per statistic, in display order: its name and its value.
    pub fn longform(&self) -> (r: DisplayConstruct)
        ensures
            r matches DisplayConstruct::List(lines) && string_views(lines@) == stat_order().map_values(
                |s: Stat| stat_name(s) + ": "@ + signed_decimal(self.value(s) as int),
            ),
    {
        let order = Stats::canonical_order();
        let mut lines: Vec<String> = Vec::new();
        let mut i: usize = 0;
        while i < 7
            invariant
                0 <= i <= 7,
                order@ == stat_order(),
                string_views(lines@) == stat_order().take(i as int).map_values(
                    |s: Stat| stat_name(s) + ": "@ + signed_decimal(self.value(s) as int),
                ),
            decreases 7 - i,
        {
            let stat = order[i];
            let mut line = String::from_str(stat.name());
            line.append(": ");
            let value = signed_string(self.get(stat));
            line.append(value.as_str());
            let ghost prev = lines@;
            lines.push(line);
            proof {
                assert(stat_order().take(i + 1) =~= stat_order().take(i as int).push(order@[i as int]));
                assert(string_views(lines@) =~= string_views(prev).push(line@));
                assert(string_views(lines@) =~= stat_order().take(i + 1).map_values(
                    |s: Stat| stat_name(s) + ": "@ + signed_decimal(self.value(s) as int),
                ));
            }
            i = i + 1;
        }
        assert(stat_order().take(7) =~= stat_order());
        DisplayConstruct::List(lines)
    }
}

/// The verb of a gauge style.
pub open spec fn verb_text(style: ProgressBarStyle) -> Seq<char> {
    match style {
        ProgressBarStyle::Fill => "increase"@,
        ProgressBarStyle::Drain => "decrease"@,
    }
}

/// The participant `id` can be named: it is in the world and its sheet and
/// team are on file.
pub open spec fn nameable(g: Game, dir: Directory, id: ActiveCharacterID) -> bool {
    present(g.active_characters@, id) && dir.knows(g.active_characters@[index_of(g.active_characters@, id)].character)
}

/// The name on the sheet of the participant `id`.
pub open spec fn name_of(g: Game, dir: Directory, id: ActiveCharacterID) -> Seq<char> {
    dir.sheet_name(g.active_characters@[index_of(g.active_characters@, id)].character)
}

/// The event can be described: every participant it names can be named, and
/// a gauge it changes exists.
pub open spec fn describable(g: Game, dir: Directory, e: EventView) -> bool {
    match e {
        EventView::Attack { attacker, target } => nameable(g, dir, attacker) && nameable(g, dir, target),
        EventView::CreateProgressBar { location: GameProgressBarLocation::Character(p, _), .. } => nameable(g, dir, p),
        EventView::ProgressProgressBar { location, .. } => {
            &&& gauge_at(g.active_characters@, location) is Some
            &&& location matches GameProgressBarLocation::Character(p, _) && nameable(g, dir, p)
        },
        EventView::Say(_) => true,
    }
}

/// `t` is the location's text: the participant's name, "'s", and the gauge.
pub open spec fn location_text(g: Game, dir: Directory, location: GameProgressBarLocation, t: Seq<char>) -> bool {
    let GameProgressBarLocation::Character(p, name) = location;
    exists|who: Seq<char>| shows(name_of(g, dir, p), who) && t == who + "'s "@ + bar_name_text(name)
}

/// `t` is the event's line: "A attacks B", "Created A's XP",
/// "B's HP decreases by 1", or the announcement itself.
pub open spec fn short_layout(g: Game, dir: Directory, e: EventView, t: Seq<char>) -> bool {
    match e {
        EventView::Attack { attacker, target } => exists|a: Seq<char>, b: Seq<char>|
            shows(name_of(g, dir, attacker), a) && shows(name_of(g, dir, target), b) && t == a + " attacks "@ + b,
        EventView::CreateProgressBar { location, .. } => exists|place: Seq<char>|
            location_text(g, dir, location, place) && t == "Created "@ + place,
        EventView::ProgressProgressBar { location, amount } => exists|place: Seq<char>|
            location_text(g, dir, location, place) && t == place + " "@ + verb_text(
                gauge_at(g.active_characters@, location).unwrap().style,
            ) + "s by "@ + decimal(amount as nat),
        EventView::Say(text) => t == text,
    }
}

/// `t` is the event's block text: its line, and for a gauge change " => " and
/// a drawing of the gauge as it now stands.
pub open spec fn long_layout(g: Game, dir: Directory, e: EventView, t: Seq<char>) -> bool {
    match e {
        EventView::ProgressProgressBar { location, .. } => exists|line: Seq<char>, pic: Seq<char>|
            short_layout(g, dir, e, line) && draws(gauge_at(g.active_characters@, location).unwrap(), pic) && t == line
                + " => "@ + pic,
        _ => short_layout(g, dir, e, t),
    }
}

/// `d` is the event's block.
pub open spec fn event_block(g: Game, dir: Directory, e: EventView, d: DisplayConstruct) -> bool {
    d matches DisplayConstruct::Single(t) && long_layout(g, dir, e, t@)
}

/// `d` is the tree's block: the executed event's block as parent, and as
/// children the blocks of the pre-responses, then of the outcomes, then of the
/// post-responses.
pub open spec fn tree_block(g: Game, dir: Directory, t: CompletedEvent, d: DisplayConstruct) -> bool
    decreases t,
{
    match d {
        DisplayConstruct::ParentChildren(head, children) => {
            let a = t.pre_responses@.len() as int;
            let b = t.outcomes@.len() as int;
            let c = t.post_responses@.len() as int;
            let cs = children@;
            &&& event_block(g, dir, t.event.0@, *head)
            &&& cs.len() == a + b + c
            &&& blocks_for(g, dir, t.pre_responses@, cs.subrange(0, a), a)
            &&& blocks_for(g, dir, t.outcomes@, cs.subrange(a, a + b), b)
            &&& blocks_for(g, dir, t.post_responses@, cs.subrange(a + b, a + b + c), c)
        },
        _ => false,
    }
}

/// The first `n` of `ds` are the blocks of the first `n` trees of `ts`.
pub open spec fn blocks_for(g: Game, dir: Directory, ts: Seq<CompletedEvent>, ds: Seq<DisplayConstruct>, n: int) -> bool
    decreases ts, n,
{
    if n <= 0 || n > ts.len() {
        true
    } else {
        blocks_for(g, dir, ts, ds, n - 1) && n <= ds.len() && tree_block(g, dir, ts[n - 1], ds[n - 1])
    }
}

/// Every event of the first `n` trees of `ts`, and of their subtrees, can be
/// described.
pub open spec fn trees_describable(g: Game, dir: Directory, ts: Seq<CompletedEvent>, n: int) -> bool
    decreases ts, n,
{
    if n <= 0 || n > ts.len() {
        true
    } else {
        trees_describable(g, dir, ts, n - 1) && tree_describable(g, dir, ts[n - 1])
    }
}

/// Every event of the tree can be described.
pub open spec fn tree_describable(g: Game, dir: Directory, t: CompletedEvent) -> bool
    decreases t,
{
    &&& describable(g, dir, t.event.0@)
    &&& trees_describable(g, dir, t.pre_responses@, t.pre_responses@.len() as int)
    &&& trees_describable(g, dir, t.outcomes@, t.outcomes@.len() as int)
    &&& trees_describable(g, dir, t.post_responses@, t.post_responses@.len() as int)
}

impl Game {
    /// The name of the participant `id`, in its team's colour.
    pub fn participant_name(&self, dir: &Directory, id: ActiveCharacterID) -> (r: Option<String>)
        requires
            wf_participants(self.active_characters@),
        ensures
            r is Some <==> nameable(*self, *dir, id),
            r matches Some(t) ==> shows(name_of(*self, *dir, id), t@),
    {
        match self.find(id) {
            None => None,
            Some(i) => dir.character_name(self.active_characters[i].character),
        }
    }

    /// "`name`'s `gauge`" for a gauge location.
    pub fn location_shortform(&self, dir: &Directory, location: GameProgressBarLocation) -> (r: Option<String>)
        requires
            wf_participants(self.active_characters@),
        ensures
            r is Some <==> (location matches GameProgressBarLocation::Character(p, _) && nameable(*self, *dir, p)),
            r matches Some(t) ==> location_text(*self, *dir, location, t@),
    {
        match location {
            GameProgressBarLocation::Character(p, name) => match self.participant_name(dir, p) {
                None => None,
                Some(who) => {
                    let ghost w = who@;
                    let mut t = who;
                    t.append("'s ");
                    t.append(bar_name_str(name));
                    assert(t@ == w + "'s "@ + bar_name_text(name));
                    Some(t)
                },
            },
        }
    }
}

impl Event {
    /// One line about the event: "A attacks B", "Created A's XP",
    /// "B's HP decreases by 1", or the announcement itself.
    pub fn shortform(&self, game: &Game, dir: &Directory) -> (r: Option<String>)
        requires
            wf_participants(game.active_characters@),
        ensures
            r is Some <==> describable(*game, *dir, self@),
            r matches Some(t) ==> short_layout(*game, *dir, self@, t@),
    {
        match self {
            Event::Attack { attacker, target } => {
                let a = game.participant_name(dir, *attacker);
                let b = game.participant_name(dir, *target);
                match (a, b) {
                    (Some(a), Some(b)) => {
                        let ghost wa = a@;
                        let mut t = a;
                        t.append(" attacks ");
                        t.append(b.as_str());
                        assert(t@ == wa + " attacks "@ + b@);
                        Some(t)
                    },
                    _ => None,
                }
            },
            Event::CreateProgressBar { location, .. } => match game.location_shortform(dir, *location) {
                None => None,
                Some(place) => {
                    let mut t = String::from_str("Created ");
                    t.append(place.as_str());
                    assert(t@ == "Created "@ + place@);
                    Some(t)
                },
            },
            Event::ProgressProgressBar { location, amount } => {
                let place = game.location_shortform(dir, *location);
                match place {
                    None => None,
                    Some(place) => {
                        let GameProgressBarLocation::Character(p, name) = *location;
                        match game.find(p) {
                            None => None,
                            Some(i) => match game.active_characters[i].progress_bars.get(name) {
                                None => None,
                                Some(bar) => {
                                    let ghost wp = place@;
                                    let mut t = place;
                                    t.append(" ");
                                    t.append(bar.style.change_verb());
                                    t.append("s by ");
                                    let count = decimal_string(*amount);
                                    t.append(count.as_str());
                                    proof {
                                        lemma_index_of(game.active_characters@, i as int);
                                        assert(gauge_at(game.active_characters@, *location) == Some(bar));
                                        assert(t@ =~= wp + " "@ + verb_text(bar.style) + "s by "@ + decimal(*amount as nat));
                                    }
                                    Some(t)
                                },
                            },
                        }
                    },
                }
            },
            Event::Say(text) => Some(text.clone()),
        }
    }

    /// The event as a block: its line, and for a gauge change the gauge as it
    /// now stands.
    pub fn longform(&self, game: &Game, dir: &Directory) -> (r: Option<DisplayConstruct>)
        requires
            wf_participants(game.active_characters@),
        ensures
            r is Some <==> describable(*game, *dir, self@),
            r matches Some(d) ==> event_block(*game, *dir, self@, d),
    {
        match self.shortform(game, dir) {
            None => None,
            Some(line) => match self {
                Event::ProgressProgressBar { location, .. } => {
                    let bar = game.get_progress_bar(*location);
                    let ghost wl = line@;
                    let mut t = line;
                    t.append(" => ");
                    let drawn = bar.render();
                    t.append(drawn.as_str());
                    assert(t@ == wl + " => "@ + drawn@);
                    Some(DisplayConstruct::Single(t))
                },
                _ => Some(DisplayConstruct::Single(line)),
            },
        }
    }
}

impl CompletedEvent {
    /// One line about the executed event.
    pub fn shortform(&self, game: &Game, dir: &Directory) -> (r: Option<String>)
        requires
            wf_participants(game.active_characters@),
        ensures
            r is Some <==> describable(*game, *dir, self.event.0@),
            r matches Some(t) ==> short_layout(*game, *dir, self.event.0@, t@),
    {
        self.event.0.shortform(game, dir)
    }

    /// The tree as nested blocks: the executed event, then its pre-responses,
    /// outcomes and post-responses in that order, one level deeper.
    pub fn longform(&self, game: &Game, dir: &Directory) -> (r: Option<DisplayConstruct>)
        requires
            wf_participants(game.active_characters@),
        ensures
            r is Some <==> tree_describable(*game, *dir, *self),
            r matches Some(d) ==> tree_block(*game, *dir, *self, d),
        decreases self,
    {
        let head = self.event.0.longform(game, dir);
        let pre = longforms(&self.pre_responses, game, dir);
        let outs = longforms(&self.outcomes, game, dir);
        let post = longforms(&self.post_responses, game, dir);
        match (head, pre, outs, post) {
            (Some(head), Some(mut children), Some(mut more), Some(mut last)) => {
                let ghost va = children@;
                let ghost vb = more@;
                let ghost vc = last@;
                children.append(&mut more);
                children.append(&mut last);
                proof {
                    let a = va.len() as int;
                    let b = vb.len() as int;
                    let c = vc.len() as int;
                    assert(children@.subrange(0, a) =~= va);
                    assert(children@.subrange(a, a + b) =~= vb);
                    assert(children@.subrange(a + b, a + b + c) =~= vc);
                }
                Some(DisplayConstruct::ParentChildren(Box::new(head), children))
            },
            _ => None,
        }
    }
}

/// The blocks of `trees`, in order.
fn longforms(trees: &Vec<CompletedEvent>, game: &Game, dir: &Directory) -> (r: Option<Vec<DisplayConstruct>>)
    requires
        wf_participants(game.active_characters@),
    ensures
        r is Some <==> trees_describable(*game, *dir, trees@, trees@.len() as int),
        r matches Some(v) ==> v@.len() == trees@.len() && blocks_for(*game, *dir, trees@, v@, trees@.len() as int),
    decreases trees,
{
    let mut r: Vec<DisplayConstruct> = Vec::new();
    let mut i: usize = 0;
    while i < trees.len()
        invariant
            0 <= i <= trees@.len(),
            r@.len() == i,
            wf_participants(game.active_characters@),
            trees_describable(*game, *dir, trees@, i as int),
            blocks_for(*game, *dir, trees@, r@, i as int),
        decreases trees@.len() - i,
    {
        match trees[i].longform(game, dir) {
            None => {
                proof {
                    if trees_describable(*game, *dir, trees@, trees@.len() as int) {
                        lemma_trees_describable_prefix(*game, *dir, trees@, i + 1, trees@.len() as int);
                    }
                }
                return None;
            },
            Some(d) => {
                let ghost prev = r@;
                r.push(d);
                proof {
                    lemma_blocks_for_prefix(*game, *dir, trees@, prev, r@, i as int);
                }
            },
        }
        i = i + 1;
    }
    Some(r)
}

proof fn lemma_trees_describable_prefix(g: Game, dir: Directory, ts: Seq<CompletedEvent>, m: int, n: int)
    requires
        0 <= m <= n <= ts.len(),
        trees_describable(g, dir, ts, n),
    ensures
        trees_describable(g, dir, ts, m),
    decreases n - m,
{
    if m < n {
        lemma_trees_describable_prefix(g, dir, ts, m, n - 1);
    }
}

/// Only the first `n` blocks matter to `blocks_for`.
proof fn lemma_blocks_for_prefix(
    g: Game,
    dir: Directory,
    ts: Seq<CompletedEvent>,
    ds1: Seq<DisplayConstruct>,
    ds2: Seq<DisplayConstruct>,
    n: int,
)
    requires
        0 <= n <= ds1.len() <= ds2.len(),
        forall|i: int| 0 <= i < ds1.len() ==> ds1[i] == ds2[i],
        blocks_for(g, dir, ts, ds1, n),
    ensures
        blocks_for(g, dir, ts, ds2, n),
    decreases n,
{
    if n > 0 && n <= ts.len() {
        lemma_blocks_for_prefix(g, dir, ts, ds1, ds2, n - 1);
    }
}

/// The gauges held, health first.
pub open spec fn gauge_list(bars: ProgressBars) -> Seq<ProgressBar> {
    (if let Some(b) = bars.hp { seq![b] } else { Seq::empty() }) + (if let Some(b) = bars.xp {
        seq![b]
    } else {
        Seq::empty()
    })
}

/// `d` is the participant's block: its name in its team's colour, then one
/// line per gauge it holds, health first.
pub open spec fn participant_block(dir: Directory, a: ActiveCharacter, d: DisplayConstruct) -> bool {
    &&& d matches DisplayConstruct::Multi(parts)
    &&& parts@.len() == 2
    &&& parts@[0] matches DisplayConstruct::Single(name) && shows(dir.sheet_name(a.character), name@)
    &&& parts@[1] matches DisplayConstruct::List(lines) && lines@.len() == gauge_list(a.progress_bars).len() && forall|
        j: int,
    |
        0 <= j < lines@.len() ==> bar_line(gauge_list(a.progress_bars)[j], #[trigger] lines@[j]@)
}

impl ActiveCharacter {
    /// The participant's name and one line per gauge it holds, health first.
    pub fn longform(&self, dir: &Directory) -> (r: Option<DisplayConstruct>)
        requires
            self.progress_bars.wf(),
        ensures
            r is Some <==> dir.knows(self.character),
            r matches Some(d) ==> participant_block(*dir, *self, d),
    {
        match dir.character_name(self.character) {
            None => None,
            Some(name) => {
                let mut lines: Vec<String> = Vec::new();
                if let Some(bar) = self.progress_bars.hp {
                    lines.push(bar.shortform());
                }
                if let Some(bar) = self.progress_bars.xp {
                    let ghost before = lines@;
                    lines.push(bar.shortform());
                    assert(lines@.drop_last() == before);
                }
                proof {
                    let gl = gauge_list(self.progress_bars);
                    assert(lines@.len() == gl.len());
                    assert forall|j: int| 0 <= j < lines@.len() implies bar_line(gl[j], #[trigger] lines@[j]@) by {
                        if self.progress_bars.hp is Some && j == 0 {
                            assert(gl[0] == self.progress_bars.hp.unwrap());
                        } else {
                            assert(gl[j] == self.progress_bars.xp.unwrap());
                        }
                    }
                }
                let mut parts: Vec<DisplayConstruct> = Vec::new();
                parts.push(DisplayConstruct::Single(name));
                parts.push(DisplayConstruct::List(lines));
                Some(DisplayConstruct::Multi(parts))
            },
        }
    }
}

impl Character {
    /// The character's name in its team's colour, and its statistics.
    pub fn longform(&self, dir: &Directory) -> (r: Option<DisplayConstruct>)
        ensures
            r is Some <==> dir.knows(self.id),
            r matches Some(d) ==> (d matches DisplayConstruct::Multi(parts) && parts@.len() == 2 && (parts@[0] matches DisplayConstruct::Single(
                name,
            ) && shows(dir.sheet_name(self.id), name@)) && (parts@[1] matches DisplayConstruct::List(lines) && string_views(
                lines@,
            ) == stat_order().map_values(|s: Stat| stat_name(s) + ": "@ + signed_decimal(self.stats.value(s) as int)))),
    {
        match dir.character_name(self.id) {
            None => None,
            Some(name) => {
                let mut parts: Vec<DisplayConstruct> = Vec::new();
                parts.push(DisplayConstruct::Single(name));
                parts.push(self.stats.longform());
                Some(DisplayConstruct::Multi(parts))
            },
        }
    }
}

/// `team` is on file and has a roster in the world.
pub open spec fn listable(g: Game, dir: Directory, team: TeamID) -> bool {
    &&& exists|i: int| 0 <= i < dir.teams@.len() && dir.teams@[i].id == team
    &&& has_roster(g.rosters@, team)
}

/// The participants seated in the first `k` seats of the canonical order
/// whose participant exists and can be named.
pub open spec fn listed(g: Game, dir: Directory, r: Roster, k: int) -> Seq<ActiveCharacter>
    decreases k,
{
    if k <= 0 {
        Seq::empty()
    } else {
        let ps = g.active_characters@;
        listed(g, dir, r, k - 1) + match r.seat(canonical_seq()[k - 1]) {
            Some(id) => if nameable(g, dir, id) {
                seq![ps[index_of(ps, id)]]
            } else {
                Seq::empty()
            },
            None => Seq::empty(),
        }
    }
}

/// `d` is the team's listing: its name in its colour first, then the block of each seated
/// participant that can be named, in canonical seat order.
pub open spec fn team_listing(g: Game, dir: Directory, team: TeamID, d: DisplayConstruct) -> bool {
    let who = listed(g, dir, g.rosters@[roster_pos(g.rosters@, team)].roster, 6);
    &&& d matches DisplayConstruct::Multi(bs)
    &&& bs@.len() == 1 + who.len()
    &&& bs@[0] matches DisplayConstruct::Single(name) && shows(dir.team_name(team), name@)
    &&& forall|i: int| 0 <= i < who.len() ==> participant_block(dir, #[trigger] who[i], bs@[i + 1])
}

impl Game {
    /// A team's listing: its name in its colour, then each seated
    /// participant in canonical seat order. Seats whose participant cannot
    /// be named are left out; `None` when the team is not on file or has no
    /// roster.
    pub fn team_display(&self, dir: &Directory, team: TeamID) -> (r: Option<DisplayConstruct>)
        requires
            wf_participants(self.active_characters@),
            forall|a: int, b: int| 0 <= a < b < self.rosters@.len() ==> self.rosters@[a].team != self.rosters@[b].team,
        ensures
            r is Some <==> listable(*self, *dir, team),
            r matches Some(d) ==> team_listing(*self, *dir, team, d),
    {
        let t = match dir.team(team) {
            None => {
                return None;
            },
            Some(t) => t,
        };
        let j = match self.roster_index(team) {
            None => {
                return None;
            },
            Some(j) => j,
        };
        proof {
            let rs = self.rosters@;
            lemma_roster_pos_at(rs, team, j as int);
        }
        let roster = self.rosters[j].roster;
        let mut blocks: Vec<DisplayConstruct> = Vec::new();
        let title = paint(dir.teams[t].name.as_str(), dir.teams[t].colour.terminal_name());
        proof {
            assert forall|k: int| #[trigger] dir.first_team(k, team) implies k == t by {
                if k < t {
                    assert(dir.teams@[k].id != team);
                } else if k > t {
                    assert(dir.teams@[t as int].id != team);
                }
            }
            assert(dir.team_name(team) == dir.teams@[t as int].name@);
        }
        blocks.push(DisplayConstruct::Single(title));
        let order = Position::canonical_order();
        let mut k: usize = 0;
        while k < 6
            invariant
                0 <= k <= 6,
                wf_participants(self.active_characters@),
                order@ == canonical_seq(),
                roster == self.rosters@[roster_pos(self.rosters@, team)].roster,
                blocks@.len() == 1 + listed(*self, *dir, roster, k as int).len(),
                blocks@[0] matches DisplayConstruct::Single(name) && shows(dir.team_name(team), name@),
                forall|i: int|
                    0 <= i < listed(*self, *dir, roster, k as int).len() ==> participant_block(
                        *dir,
                        #[trigger] listed(*self, *dir, roster, k as int)[i],
                        blocks@[i + 1],
                    ),
            decreases 6 - k,
        {
            let ghost before = listed(*self, *dir, roster, k as int);
            let ghost prev = blocks@;
            if let Some(id) = roster.get(order[k]) {
                if let Some(i) = self.find(id) {
                    let p = &self.active_characters[i];
                    proof {
                        lemma_index_of(self.active_characters@, i as int);
                        assert(self.active_characters@[i as int].progress_bars.wf());
                    }
                    if let Some(block) = p.longform(dir) {
                        blocks.push(block);
                    }
                }
            }
            proof {
                let now = listed(*self, *dir, roster, k + 1);
                assert(now == before + match roster.seat(canonical_seq()[k as int]) {
                    Some(id) => if nameable(*self, *dir, id) {
                        seq![self.active_characters@[index_of(self.active_characters@, id)]]
                    } else {
                        Seq::empty()
                    },
                    None => Seq::empty(),
                });
                assert forall|i: int| 0 <= i < now.len() implies participant_block(*dir, #[trigger] now[i], blocks@[i + 1]) by {
                    if i < before.len() {
                        assert(now[i] == before[i]);
                        assert(blocks@[i + 1] == prev[i + 1]);
                    }
                }
            }
            k = k + 1;
        }
        Some(DisplayConstruct::Multi(blocks))
    }
}

impl Sim {
    /// The listings of the two teams, one after the other; `None` when
    /// either cannot be listed.
    pub fn display(&self, dir: &Directory, delve_team: TeamID, defender_team: TeamID) -> (r: Option<DisplayConstruct>)
        requires
            self.world.wf(),
        ensures
            r is Some <==> listable(self.world, *dir, delve_team) && listable(self.world, *dir, defender_team),
            r matches Some(d) ==> (d matches DisplayConstruct::Multi(blocks) && blocks@.len() == 2 && team_listing(
                self.world,
                *dir,
                delve_team,
                blocks@[0],
            ) && team_listing(self.world, *dir, defender_team, blocks@[1])),
    {
        let first = self.world.team_display(dir, delve_team);
        let second = self.world.team_display(dir, defender_team);
        match (first, second) {
            (Some(a), Some(b)) => {
                let mut blocks: Vec<DisplayConstruct> = Vec::new();
                blocks.push(a);
                blocks.push(b);
                Some(DisplayConstruct::Multi(blocks))
            },
            _ => None,
        }
    }
}

} // verus!
