use vstd::prelude::*;

use crate::num::{decimal, decimal_chars};
use crate::proc::{GpuInfo, TempReading};
use crate::text::{chars_of, string_of};

verus! {

/// How alarming a figure is; the screens color it green, yellow or red.
#[derive(Debug, Clone, Copy, PartialEq, Eq, Structural)]
pub enum Tone {
    Normal,
    Warning,
    Critical,
}

/// A unit that byte counts are shown in.
#[derive(Debug, Clone, Copy, PartialEq, Eq, Structural)]
pub enum ByteUnit {
    B,
    KB,
    MB,
    GB,
}

/// The monitor's look: thresholds and bars.
pub struct Theme;

/// `s` padded with spaces on the left to `width` characters (`{:>width}`).
pub open spec fn pad_left(s: Seq<char>, width: nat) -> Seq<char> {
    if s.len() >= width {
        s
    } else {
        Seq::new((width - s.len()) as nat, |i: int| ' ') + s
    }
}

/// `s` padded with spaces on the right to `width` characters (`{:<width}`).
pub open spec fn pad_right(s: Seq<char>, width: nat) -> Seq<char> {
    if s.len() >= width {
        s
    } else {
        s + Seq::new((width - s.len()) as nat, |i: int| ' ')
    }
}

/// `n` spaces.
fn spaces(n: usize) -> (r: Vec<char>)
    ensures
        r@ == Seq::new(n as nat, |i: int| ' '),
{
    let mut r: Vec<char> = Vec::new();
    while r.len() < n
        invariant
            r.len() <= n,
            r@ == Seq::new(r.len() as nat, |i: int| ' '),
        decreases n - r.len(),
    {
        r.push(' ');
        assert(r@ =~= Seq::new(r.len() as nat, |i: int| ' '));
    }
    r
}

fn pad_left_chars(s: Vec<char>, width: usize) -> (r: Vec<char>)
    ensures
        r@ == pad_left(s@, width as nat),
{
    if s.len() >= width {
        return s;
    }
    let mut r = spaces(width - s.len());
    let mut s = s;
    r.append(&mut s);
    r
}

fn pad_right_chars(s: Vec<char>, width: usize) -> (r: Vec<char>)
    ensures
        r@ == pad_right(s@, width as nat),
{
    if s.len() >= width {
        return s;
    }
    let mut r = s;
    let mut sp = spaces(width - r.len());
    r.append(&mut sp);
    r
}

/// The cells of a bar `width` wide that is `pct` percent full: full cells,
/// then empty ones.
pub open spec fn bar_cells(pct: nat, width: nat) -> Seq<char> {
    let filled = if pct * width / 100 < width {
        pct * width / 100
    } else {
        width
    };
    Seq::new(width, |i: int| if i < filled { '█' } else { '░' })
}

/// A bar with its percentage: `[cells] ppp%`, the number right-aligned in
/// three places.
pub open spec fn bar_text(pct: nat, width: nat) -> Seq<char> {
    seq!['['] + bar_cells(pct, width) + seq![']', ' '] + pad_left(decimal(pct), 3) + seq!['%']
}

impl Theme {
    /// The tone of a CPU load: up to 40% fine, up to 75% a warning, above
    /// that critical.
    pub fn cpu_color(pct: u64) -> (t: Tone)
        ensures
            t == if pct <= 40 {
                Tone::Normal
            } else if pct <= 75 {
                Tone::Warning
            } else {
                Tone::Critical
            },
    {
        if pct <= 40 {
            Tone::Normal
        } else if pct <= 75 {
            Tone::Warning
        } else {
            Tone::Critical
        }
    }

    /// The tone of a memory use: up to 50% fine, up to 80% a warning, above
    /// that critical.
    pub fn mem_color(pct: u16) -> (t: Tone)
        ensures
            t == if pct <= 50 {
                Tone::Normal
            } else if pct <= 80 {
                Tone::Warning
            } else {
                Tone::Critical
            },
    {
        if pct <= 50 {
            Tone::Normal
        } else if pct <= 80 {
            Tone::Warning
        } else {
            Tone::Critical
        }
    }

    /// The tone of a temperature: below 60°C fine, below 80°C a warning,
    /// from there critical.
    pub fn temp_color(c: u32) -> (t: Tone)
        ensures
            t == if c <= 59 {
                Tone::Normal
            } else if c <= 79 {
                Tone::Warning
            } else {
                Tone::Critical
            },
    {
        if c <= 59 {
            Tone::Normal
        } else if c <= 79 {
            Tone::Warning
        } else {
            Tone::Critical
        }
    }

    /// A bar `width` cells wide, filled in proportion to `pct` (never
    /// beyond its width), followed by the percentage.
    pub fn bar(pct: u16, width: usize) -> (s: String)
        requires
            pct * width <= usize::MAX,
        ensures
            s@ == bar_text(pct as nat, width as nat),
    {
        let product = pct as usize * width;
        let filled = if product / 100 < width {
            product / 100
        } else {
            width
        };
        let mut out: Vec<char> = Vec::new();
        out.push('[');
        let mut i: usize = 0;
        while i < width
            invariant
                filled == (if pct * width / 100 < width {
                    pct * width / 100
                } else {
                    width as int
                }),
                i <= width,
                out@ == seq!['['] + bar_cells(pct as nat, width as nat).take(i as int),
            decreases width - i,
        {
            if i < filled {
                out.push('█');
            } else {
                out.push('░');
            }
            i = i + 1;
            assert(out@ =~= seq!['['] + bar_cells(pct as nat, width as nat).take(i as int));
        }
        assert(bar_cells(pct as nat, width as nat).take(width as int) =~= bar_cells(pct as nat, width as nat));
        out.push(']');
        out.push(' ');
        let mut num = pad_left_chars(decimal_chars(pct as u64), 3);
        out.append(&mut num);
        out.push('%');
        assert(out@ =~= bar_text(pct as nat, width as nat));
        string_of(&out)
    }
}


/// The name of a process in the tree view: indented two spaces for each
/// level below the first and marked as a branch; unchanged at the top level
/// or outside the tree view.
pub open spec fn tree_label_text(name: Seq<char>, depth: nat, tree_mode: bool) -> Seq<char> {
    if tree_mode && depth > 0 {
        Seq::new((2 * (depth - 1)) as nat, |i: int| ' ') + seq!['└', '─', ' '] + name
    } else {
        name
    }
}

/// How a process's name is shown.
pub fn tree_label(name: &String, depth: usize, tree_mode: bool) -> (s: String)
    requires
        depth <= usize::MAX / 2,
    ensures
        s@ == tree_label_text(name@, depth as nat, tree_mode),
{
    if tree_mode && depth > 0 {
        let mut out = spaces(2 * (depth - 1));
        out.push('└');
        out.push('─');
        out.push(' ');
        let mut n = chars_of(name.as_str());
        out.append(&mut n);
        string_of(&out)
    } else {
        name.clone()
    }
}

/// The label of a core's row: `CPU`, its number right-aligned in two
/// places, and a bar of its latest load.
pub open spec fn cpu_label_text(core: nat, last: u64) -> Seq<char> {
    seq!['C', 'P', 'U'] + pad_left(decimal(core), 2) + seq![' ', ' '] + bar_text(
        (last as u16) as nat,
        8,
    )
}

/// The label of a core's row.
pub fn cpu_label(core: usize, last: u64) -> (s: String)
    ensures
        s@ == cpu_label_text(core as nat, last),
{
    let mut out = chars_of("CPU");
    proof {
        reveal_strlit("CPU");
    }
    let mut num = pad_left_chars(decimal_chars(core as u64), 2);
    out.append(&mut num);
    out.push(' ');
    out.push(' ');
    let bar = Theme::bar(last as u16, 8);
    let mut b = chars_of(bar.as_str());
    out.append(&mut b);
    assert(out@ =~= cpu_label_text(core as nat, last));
    string_of(&out)
}

/// The share of a card's memory in use, in whole percent, at most 100.
pub open spec fn vram_pct_of(used_mb: u64, total_mb: u64) -> u16 {
    let total = if total_mb > 1 {
        total_mb as nat
    } else {
        1
    };
    let p = (used_mb * 100) as nat / total;
    (if p < 100 {
        p
    } else {
        100
    }) as u16
}

/// The share of a card's memory in use.
pub fn vram_pct(used_mb: u64, total_mb: u64) -> (p: u16)
    requires
        used_mb * 100 <= u64::MAX,
    ensures
        p == vram_pct_of(used_mb, total_mb),
        p <= 100,
{
    let total = if total_mb > 1 {
        total_mb
    } else {
        1
    };
    let p = used_mb * 100 / total;
    (if p < 100 {
        p
    } else {
        100
    }) as u16
}

/// A temperature row: source and label left-aligned in 6 and 22 places, the
/// degrees right-aligned in 3, and a bar of the degrees (capped at 100).
pub open spec fn temp_line_text(t: crate::proc::TempReadingView) -> Seq<char> {
    let capped = if t.temp_c < 100 {
        t.temp_c as nat
    } else {
        100
    };
    pad_right(t.source, 6) + seq![' ', ' '] + pad_right(t.label, 22) + seq![' ', ' '] + pad_left(
        decimal(t.temp_c as nat),
        3,
    ) + seq!['°', 'C', ' ', ' '] + bar_text(capped, 8)
}

/// The row that shows a temperature reading.
pub fn temp_line(t: &TempReading) -> (s: String)
    ensures
        s@ == temp_line_text(t@),
{
    let mut out = pad_right_chars(chars_of(t.source.as_str()), 6);
    out.push(' ');
    out.push(' ');
    let mut label = pad_right_chars(chars_of(t.label.as_str()), 22);
    out.append(&mut label);
    out.push(' ');
    out.push(' ');
    let mut deg = pad_left_chars(decimal_chars(t.temp_c as u64), 3);
    out.append(&mut deg);
    out.push('°');
    out.push('C');
    out.push(' ');
    out.push(' ');
    let capped: u16 = if t.temp_c < 100 {
        t.temp_c as u16
    } else {
        100
    };
    let bar = Theme::bar(capped, 8);
    let mut b = chars_of(bar.as_str());
    out.append(&mut b);
    assert(out@ =~= temp_line_text(t@));
    string_of(&out)
}

/// A GPU's label: the first 12 characters of its name left-aligned in 12
/// places, a bar of its load, and its temperature right-aligned in 3 places
/// (or blanks when it has none).
pub open spec fn gpu_label_text(g: crate::proc::GpuInfoView) -> Seq<char> {
    let short = if g.name.len() > 12 {
        g.name.take(12)
    } else {
        g.name
    };
    let temp = match g.temp_c {
        Some(t) => seq![' ', ' '] + pad_left(decimal(t as nat), 3) + seq!['°', 'C'],
        None => Seq::new(7, |i: int| ' '),
    };
    pad_right(short, 12) + seq![' ', ' '] + bar_text(g.util_pct as nat, 8) + temp
}

/// The label of a GPU's row.
pub fn gpu_label(g: &GpuInfo) -> (s: String)
    ensures
        s@ == gpu_label_text(g@),
{
    let name = chars_of(g.name.as_str());
    let short = if name.len() > 12 {
        crate::text::slice_of(&name, 0, 12)
    } else {
        name
    };
    assert(short@ == (if g.name@.len() > 12 {
        g.name@.take(12)
    } else {
        g.name@
    }));
    let mut out = pad_right_chars(short, 12);
    out.push(' ');
    out.push(' ');
    let bar = Theme::bar(g.util_pct as u16, 8);
    let mut b = chars_of(bar.as_str());
    out.append(&mut b);
    match g.temp_c {
        Some(t) => {
            out.push(' ');
            out.push(' ');
            let mut deg = pad_left_chars(decimal_chars(t as u64), 3);
            out.append(&mut deg);
            out.push('°');
            out.push('C');
        },
        None => {
            let mut sp = spaces(7);
            out.append(&mut sp);
        },
    }
    assert(out@ =~= gpu_label_text(g@));
    string_of(&out)
}

/// The unit a rate in bytes per second is shown in.
pub fn rate_unit(bps: u64) -> (u: ByteUnit)
    ensures
        u == if bps >= 1024 * 1024 {
            ByteUnit::MB
        } else if bps >= 1024 {
            ByteUnit::KB
        } else {
            ByteUnit::B
        },
{
    if bps >= 1024 * 1024 {
        ByteUnit::MB
    } else if bps >= 1024 {
        ByteUnit::KB
    } else {
        ByteUnit::B
    }
}

/// The unit a byte total is shown in.
pub fn total_unit(b: u64) -> (u: ByteUnit)
    ensures
        u == if b >= 1024 * 1024 * 1024 {
            ByteUnit::GB
        } else if b >= 1024 * 1024 {
            ByteUnit::MB
        } else if b >= 1024 {
            ByteUnit::KB
        } else {
            ByteUnit::B
        },
{
    if b >= 1024 * 1024 * 1024 {
        ByteUnit::GB
    } else if b >= 1024 * 1024 {
        ByteUnit::MB
    } else if b >= 1024 {
        ByteUnit::KB
    } else {
        ByteUnit::B
    }
}

/// The key help shown at the bottom: on the process tab, how to leave the
/// filter while it is being typed, else the process keys; on the other tabs,
/// how to switch tabs and quit.
pub fn help_text(tab: usize, filter_mode: bool) -> (s: &'static str)
    ensures
        tab == 0 && filter_mode ==> s@ == " ESC/Enter: fechar filtro"@,
        tab == 0 && !filter_mode ==> s@
            == " j/k↑↓: nav  │  /: filtrar  │  t: tree  │  x: kill  │  Tab: aba  │  q: sair"@,
        tab != 0 ==> s@ == " Tab: próxima aba  │  q: sair"@,
{
    if tab == 0 {
        if filter_mode {
            " ESC/Enter: fechar filtro"
        } else {
            " j/k↑↓: nav  │  /: filtrar  │  t: tree  │  x: kill  │  Tab: aba  │  q: sair"
        }
    } else {
        " Tab: próxima aba  │  q: sair"
    }
}

} // verus!
