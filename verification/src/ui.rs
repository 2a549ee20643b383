//! The state of the screen, the keys that change it, and the layout.

use vstd::prelude::*;
use vstd::string::*;

use crate::accuracy;
use crate::args;
use crate::args::{interval_millis, start_interval, Args};
use crate::binary64;
use crate::binary64::Binary64;
use crate::history;
use crate::scrape::Shared;
use crate::text::same_text;

verus! {

/// The fewest rows and columns of the full layout; below either, the compact layout takes
/// over.
pub const FULL_MIN_ROWS: u16 = 26;

pub const FULL_MIN_COLS: u16 = 90;

/// The names of the themes.
pub const THEME_NAMES: [&'static str; 3] = ["gruvbox", "catppuccin", "tokyonight"];

/// What lies over the panels.
#[derive(Clone, Copy, Debug, PartialEq, Eq, Structural)]
pub enum Overlay {
    Closed,
    Help,
    Explain,
}

/// The rate that a graph shows.
#[derive(Clone, Copy, Debug, PartialEq, Eq, Structural)]
pub enum RateGraph {
    Prefill,
    Decode,
}

/// A key that was pressed.
#[derive(Clone, Copy, Debug, PartialEq, Eq, Structural)]
pub enum Key {
    Char(char),
    Esc,
    Up,
    Down,
    Other,
}

/// The state of the screen.
#[derive(Debug)]
pub struct Ui {
    pub theme_idx: usize,
    /// The layout, where it is forced; by the size of the terminal where it is not.
    pub compact: Option<bool>,
    pub graphs_on: bool,
    pub window_focus: usize,
    pub paused_since: Option<u64>,
    /// Certificates are not verified, which the header shows.
    pub insecure: bool,
    pub overlay: Overlay,
    pub scroll: u16,
    pub interval: Binary64,
}

/// The position of a theme by its name; the first where no theme has it.
pub open spec fn theme_at(name: Seq<char>) -> usize {
    if name == THEME_NAMES[1]@ {
        1
    } else if name == THEME_NAMES[2]@ {
        2
    } else {
        0
    }
}

impl Ui {
    /// The theme and the window in focus exist, and the interval is in bounds.
    pub open spec fn wf(&self) -> bool {
        &&& self.theme_idx < 3
        &&& self.window_focus < 3
        &&& args::in_bounds(self.interval)
    }

    /// The screen that the settings ask for.
    pub fn new(args: &Args) -> (r: Ui)
        ensures
            r == (Ui {
                theme_idx: theme_at(args.theme@),
                compact: if args.compact {
                    Some(true)
                } else {
                    None
                },
                graphs_on: true,
                window_focus: 2,
                paused_since: None,
                insecure: args.insecure,
                overlay: Overlay::Closed,
                scroll: 0,
                interval: args::bounded(args.interval),
            }),
            !args.interval.nan() ==> r.wf(),
    {
        let name: &str = args.theme.as_str();
        let theme_idx: usize = if same_text(name, THEME_NAMES[0]) {
            0
        } else if same_text(name, THEME_NAMES[1]) {
            1
        } else if same_text(name, THEME_NAMES[2]) {
            2
        } else {
            0
        };
        proof {
            reveal_strlit("gruvbox");
            reveal_strlit("catppuccin");
            reveal_strlit("tokyonight");
            assert("gruvbox"@.len() != "catppuccin"@.len());
            assert("gruvbox"@.len() != "tokyonight"@.len());
        }
        Ui {
            theme_idx,
            compact: if args.compact {
                Some(true)
            } else {
                None
            },
            graphs_on: true,
            window_focus: 2,
            paused_since: None,
            insecure: args.insecure,
            overlay: Overlay::Closed,
            scroll: 0,
            interval: start_interval(args.interval),
        }
    }

    /// The name of the theme.
    pub fn theme(&self) -> (r: &'static str)
        requires
            self.theme_idx < 3,
        ensures
            r@ == THEME_NAMES[self.theme_idx as int]@,
    {
        THEME_NAMES[self.theme_idx]
    }
}

/// Whether a terminal of the given columns and rows is too small for the full layout.
pub open spec fn small(cols: u16, rows: u16) -> bool {
    rows < FULL_MIN_ROWS || cols < FULL_MIN_COLS
}

/// The layout by the size of the terminal; the full one where the size is not known.
pub fn auto_compact(size: Option<(u16, u16)>) -> (r: bool)
    ensures
        r == match size {
            Some((cols, rows)) => small(cols, rows),
            None => false,
        },
{
    match size {
        Some((cols, rows)) => rows < FULL_MIN_ROWS || cols < FULL_MIN_COLS,
        None => false,
    }
}

/// The layout in force.
pub fn is_compact(ui: &Ui, cols: u16, rows: u16) -> (r: bool)
    ensures
        r == match ui.compact {
            Some(c) => c,
            None => small(cols, rows),
        },
{
    match ui.compact {
        Some(c) => c,
        None => auto_compact(Some((cols, rows))),
    }
}

/// The interval after a slower poll was asked for.
pub open spec fn slower(interval: Binary64) -> Binary64 {
    binary64::smaller(
        binary64::product(interval, binary64::integer(2)),
        binary64::integer(10),
    )
}

/// The interval after a faster poll was asked for.
pub open spec fn faster(interval: Binary64) -> Binary64 {
    binary64::larger(
        binary64::quotient(interval, binary64::integer(2)),
        history::half(),
    )
}

/// Changing the interval keeps it in bounds.
pub proof fn interval_stays_in_bounds(x: Binary64)
    requires
        args::in_bounds(x),
    ensures
        args::in_bounds(slower(x)),
        args::in_bounds(faster(x)),
{
    args::lemma_bounds();
    args::lemma_in_bounds(x);
    accuracy::half_is_exact();
    accuracy::lemma_half_positive();
    accuracy::small_integers_are_exact(2);
    accuracy::small_integers_are_exact(10);
    accuracy::integers_keep_order(0, 2);
    accuracy::integers_keep_order(1, 2);
    accuracy::integers_keep_order(0, 10);
    accuracy::half_doubled();
    accuracy::products_keep_order(history::half(), x, binary64::integer(2));
    accuracy::half_is_below(1);
    accuracy::half_is_below(2);
    accuracy::quotients_keep_order(x, binary64::integer(10), binary64::integer(2));
    accuracy::ten_halved();
    accuracy::integers_keep_order(5, 10);
}

/// The overlay after its key: it closes where it was open.
pub open spec fn toggled(now: Overlay, which: Overlay) -> Overlay {
    if now == which {
        Overlay::Closed
    } else {
        which
    }
}

/// The screen after a key.
pub open spec fn keyed(ui: Ui, paused: bool, key: Key, size: Option<(u16, u16)>, now: u64) -> Ui {
    match key {
        Key::Char(' ') => Ui {
            paused_since: if paused {
                None
            } else {
                Some(now)
            },
            ..ui
        },
        Key::Char('c') => {
            let was = match (ui.compact, size) {
                (Some(c), _) => c,
                (None, Some((cols, rows))) => small(cols, rows),
                (None, None) => false,
            };
            Ui { compact: Some(!was), ..ui }
        },
        Key::Char('g') => Ui { graphs_on: !ui.graphs_on, ..ui },
        Key::Char('t') => Ui { theme_idx: ((ui.theme_idx + 1) % 3) as usize, ..ui },
        Key::Char('1') => Ui { window_focus: 0, ..ui },
        Key::Char('2') => Ui { window_focus: 1, ..ui },
        Key::Char('3') => Ui { window_focus: 2, ..ui },
        Key::Char('e') => Ui { overlay: toggled(ui.overlay, Overlay::Explain), scroll: 0, ..ui },
        Key::Char('?') => Ui { overlay: toggled(ui.overlay, Overlay::Help), ..ui },
        Key::Char('+') => Ui { interval: slower(ui.interval), ..ui },
        Key::Char('=') => Ui { interval: slower(ui.interval), ..ui },
        Key::Char('-') => Ui { interval: faster(ui.interval), ..ui },
        Key::Down => scrolled_down(ui),
        Key::Char('j') => scrolled_down(ui),
        Key::Up => scrolled_up(ui),
        Key::Char('k') => scrolled_up(ui),
        _ => ui,
    }
}

/// The screen scrolled down by a line, where the tour is open.
pub open spec fn scrolled_down(ui: Ui) -> Ui {
    Ui {
        scroll: if ui.overlay == Overlay::Explain && ui.scroll < u16::MAX {
            (ui.scroll + 1) as u16
        } else {
            ui.scroll
        },
        ..ui
    }
}

/// The screen scrolled up by a line.
pub open spec fn scrolled_up(ui: Ui) -> Ui {
    Ui {
        scroll: if ui.scroll > 0 {
            (ui.scroll - 1) as u16
        } else {
            0
        },
        ..ui
    }
}

/// The key ends the program.
pub open spec fn quits(key: Key) -> bool {
    key == Key::Char('q') || key == Key::Esc
}

/// The key changes the interval.
pub open spec fn changes_interval(key: Key) -> bool {
    key == Key::Char('+') || key == Key::Char('=') || key == Key::Char('-')
}

/// Handles a key; says whether it ends the program. A pause and a new interval reach the
/// scraper through what is shared with it.
pub fn handle_key(
    ui: &mut Ui,
    shared: &mut Shared,
    key: Key,
    size: Option<(u16, u16)>,
    now: u64,
) -> (quit: bool)
    requires
        old(ui).wf(),
    ensures
        quit == quits(key),
        final(ui).wf(),
        *final(ui) == keyed(*old(ui), old(shared).paused, key, size, now),
        final(shared).paused == (if key == Key::Char(' ') {
            !old(shared).paused
        } else {
            old(shared).paused
        }),
        final(shared).interval_ms == (if changes_interval(key) {
            args::millis(final(ui).interval)
        } else {
            old(shared).interval_ms
        }),
        final(shared).history == old(shared).history,
        final(shared).last_ok == old(shared).last_ok,
        final(shared).last_error == old(shared).last_error,
        final(shared).peaks == old(shared).peaks,
        final(shared).alarms == old(shared).alarms,
{
    proof {
        interval_stays_in_bounds(ui.interval);
    }
    match key {
        Key::Esc => {
            return true;
        },
        Key::Down => scroll_down(ui),
        Key::Up => scroll_up(ui),
        Key::Other => {},
        Key::Char(c) => {
            if c == 'q' {
                return true;
            } else if c == ' ' {
                shared.paused = !shared.paused;
                ui.paused_since = if shared.paused {
                    Some(now)
                } else {
                    None
                };
            } else if c == 'c' {
                let was: bool = match ui.compact {
                    Some(b) => b,
                    None => auto_compact(size),
                };
                ui.compact = Some(!was);
            } else if c == 'g' {
                ui.graphs_on = !ui.graphs_on;
            } else if c == 't' {
                ui.theme_idx = (ui.theme_idx + 1) % 3;
            } else if c == '1' {
                ui.window_focus = 0;
            } else if c == '2' {
                ui.window_focus = 1;
            } else if c == '3' {
                ui.window_focus = 2;
            } else if c == 'e' {
                ui.overlay = toggle(ui.overlay, Overlay::Explain);
                ui.scroll = 0;
            } else if c == '?' {
                ui.overlay = toggle(ui.overlay, Overlay::Help);
            } else if c == '+' || c == '=' {
                ui.interval = ui.interval.times(Binary64::from_u64(2)).min(Binary64::from_u64(10));
                shared.interval_ms = interval_millis(ui.interval);
            } else if c == '-' {
                let half: Binary64 = Binary64::from_u64(1).over(Binary64::from_u64(2));
                ui.interval = ui.interval.over(Binary64::from_u64(2)).max(half);
                shared.interval_ms = interval_millis(ui.interval);
            } else if c == 'j' {
                scroll_down(ui);
            } else if c == 'k' {
                scroll_up(ui);
            }
        },
    }
    false
}

fn toggle(now: Overlay, which: Overlay) -> (r: Overlay)
    ensures
        r == toggled(now, which),
{
    if now == which {
        Overlay::Closed
    } else {
        which
    }
}

fn scroll_down(ui: &mut Ui)
    ensures
        *final(ui) == scrolled_down(*old(ui)),
{
    if ui.overlay == Overlay::Explain && ui.scroll < u16::MAX {
        ui.scroll = ui.scroll + 1;
    }
}

fn scroll_up(ui: &mut Ui)
    ensures
        *final(ui) == scrolled_up(*old(ui)),
{
    if ui.scroll > 0 {
        ui.scroll = ui.scroll - 1;
    }
}

/// The age from which data is stale: three intervals and a second, in nanoseconds.
pub open spec fn stale_after(interval: Binary64) -> nat {
    binary64::nanoseconds(
        binary64::sum(
            binary64::product(interval, binary64::integer(3)),
            binary64::integer(1),
        ),
    )
}

/// Data of no age was never there, and is stale.
pub open spec fn stale(age: Option<u64>, interval: Binary64) -> bool {
    match age {
        None => true,
        Some(a) => a > stale_after(interval),
    }
}

proof fn lemma_stale_after(x: Binary64)
    requires
        args::in_bounds(x),
    ensures
        ({
            let s = binary64::sum(
                binary64::product(x, binary64::integer(3)),
                binary64::integer(1),
            );
            s.finite() && !s.negative() && binary64::whole_part(s) <= 31
        }),
{
    args::lemma_in_bounds(x);
    accuracy::small_integers_are_exact(1);
    accuracy::small_integers_are_exact(3);
    accuracy::small_integers_are_exact(10);
    accuracy::small_integers_are_exact(30);
    accuracy::small_integers_are_exact(31);
    accuracy::integers_keep_order(0, 1);
    accuracy::integers_keep_order(0, 3);
    accuracy::integers_keep_order(0, 10);
    accuracy::integers_keep_order(0, 30);
    accuracy::integers_keep_order(0, 31);
    accuracy::products_keep_order(x, binary64::integer(10), binary64::integer(3));
    accuracy::small_products_are_exact(10, 3);
    let p = binary64::product(x, binary64::integer(3));
    accuracy::sums_keep_order(p, binary64::integer(30), binary64::integer(1));
    accuracy::small_sums_are_exact(30, 1);
    accuracy::lemma_whole_at_most(binary64::sum(p, binary64::integer(1)), 31);
}

/// Whether data of the given age, in nanoseconds, is stale.
pub fn age_is_stale(age: Option<u64>, ui: &Ui) -> (r: bool)
    requires
        ui.wf(),
    ensures
        r == stale(age, ui.interval),
{
    match age {
        None => true,
        Some(a) => {
            proof {
                lemma_stale_after(ui.interval);
            }
            let limit: Binary64 = ui.interval.times(Binary64::from_u64(3)).plus(
                Binary64::from_u64(1),
            );
            a > limit.to_nanos()
        },
    }
}

} // verus!
