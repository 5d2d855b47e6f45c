//! Colour themes.

use vstd::prelude::*;

verus! {

/// A colour with its opacity.
#[derive(Clone, Copy, Debug, PartialEq, Eq, Structural)]
pub struct Color {
    pub r: u8,
    pub g: u8,
    pub b: u8,
    pub a: u8,
}

/// A colour that nothing shines through.
pub open spec fn opaque(r: u8, g: u8, b: u8) -> Color {
    Color { r, g, b, a: 255 }
}

/// A colour that nothing shines through.
fn rgb(r: u8, g: u8, b: u8) -> (c: Color)
    ensures
        c == opaque(r, g, b),
{
    Color { r, g, b, a: 255 }
}

/// The themes to choose from.
#[derive(Clone, Copy, Debug, PartialEq, Eq, Structural)]
pub enum ThemeChoice {
    MidnightViolet,
    PaperLight,
    SlateDark,
    CatppuccinMocha,
}

impl Default for ThemeChoice {
    fn default() -> (r: ThemeChoice)
        ensures
            r == ThemeChoice::MidnightViolet,
    {
        ThemeChoice::MidnightViolet
    }
}

/// The colours of a theme.
#[derive(Clone, Copy, Debug, PartialEq, Eq, Structural)]
pub struct Palette {
    pub bg: Color,
    pub surf: Color,
    pub surf2: Color,
    pub surf3: Color,
    pub surf4: Color,
    pub acc: Color,
    pub acc2: Color,
    pub accd: Color,
    pub txt: Color,
    pub tdim: Color,
    pub tmut: Color,
    pub tgood: Color,
    pub terr: Color,
    pub twarn: Color,
    pub bdr: Color,
    pub row_alt: Color,
    pub on_accent: Color,
    pub btn_danger_bg: Color,
}

impl ThemeChoice {
    /// Every theme, in the order in which they are offered.
    pub fn all() -> (r: Vec<ThemeChoice>)
        ensures
            r@ == seq![
                ThemeChoice::MidnightViolet,
                ThemeChoice::PaperLight,
                ThemeChoice::SlateDark,
                ThemeChoice::CatppuccinMocha,
            ],
    {
        vec![
            ThemeChoice::MidnightViolet,
            ThemeChoice::PaperLight,
            ThemeChoice::SlateDark,
            ThemeChoice::CatppuccinMocha,
        ]
    }

    /// The name under which a theme is offered.
    pub open spec fn name(self) -> Seq<char> {
        match self {
            ThemeChoice::MidnightViolet => "Midnight Violet"@,
            ThemeChoice::PaperLight => "Paper Light"@,
            ThemeChoice::SlateDark => "Slate Dark"@,
            ThemeChoice::CatppuccinMocha => "Catppuccin Mocha"@,
        }
    }

    /// The name under which a theme is offered.
    pub fn label(self) -> (r: &'static str)
        ensures
            r@ == self.name(),
    {
        match self {
            ThemeChoice::MidnightViolet => "Midnight Violet",
            ThemeChoice::PaperLight => "Paper Light",
            ThemeChoice::SlateDark => "Slate Dark",
            ThemeChoice::CatppuccinMocha => "Catppuccin Mocha",
        }
    }

    /// Whether a theme is dark text on a light ground.
    pub fn is_light(self) -> (r: bool)
        ensures
            r == (self == ThemeChoice::PaperLight),
    {
        matches!(self, ThemeChoice::PaperLight)
    }

    /// The colours of a theme.
    pub open spec fn colours(self) -> Palette {
        match self {
            ThemeChoice::MidnightViolet => Palette {
                bg: opaque(0x09, 0x09, 0x11),
                surf: opaque(0x10, 0x10, 0x1e),
                surf2: opaque(0x18, 0x18, 0x2a),
                surf3: opaque(0x21, 0x21, 0x38),
                surf4: opaque(0x2c, 0x2c, 0x4a),
                acc: opaque(0x7c, 0x6f, 0xee),
                acc2: opaque(0xa8, 0x9e, 0xff),
                accd: opaque(0x4e, 0x46, 0xb4),
                txt: opaque(0xea, 0xed, 0xfa),
                tdim: opaque(0x8a, 0x8e, 0xb8),
                tmut: opaque(0x55, 0x58, 0x7a),
                tgood: opaque(0x22, 0xc5, 0x5e),
                terr: opaque(0xf8, 0x71, 0x71),
                twarn: opaque(0xfb, 0xbf, 0x24),
                bdr: opaque(0x2a, 0x2a, 0x48),
                row_alt: opaque(0x14, 0x14, 0x24),
                on_accent: opaque(0xff, 0xff, 0xff),
                btn_danger_bg: opaque(0x7a, 0x20, 0x20),
            },
            ThemeChoice::PaperLight => Palette {
                bg: opaque(0xee, 0xf0, 0xf7),
                surf: opaque(0xff, 0xff, 0xff),
                surf2: opaque(0xf6, 0xf7, 0xfb),
                surf3: opaque(0xe8, 0xea, 0xf3),
                surf4: opaque(0xd7, 0xda, 0xe9),
                acc: opaque(0x6d, 0x5c, 0xe8),
                acc2: opaque(0x57, 0x47, 0xc9),
                accd: opaque(0x8b, 0x7c, 0xf0),
                txt: opaque(0x1c, 0x1e, 0x2b),
                tdim: opaque(0x5a, 0x5d, 0x75),
                tmut: opaque(0x94, 0x98, 0xad),
                tgood: opaque(0x15, 0x80, 0x3d),
                terr: opaque(0xc8, 0x27, 0x2c),
                twarn: opaque(0xa8, 0x5a, 0x00),
                bdr: opaque(0xd3, 0xd6, 0xe6),
                row_alt: opaque(0xe9, 0xeb, 0xf5),
                on_accent: opaque(0xff, 0xff, 0xff),
                btn_danger_bg: opaque(0xc8, 0x27, 0x2c),
            },
            ThemeChoice::SlateDark => Palette {
                bg: opaque(0x13, 0x14, 0x17),
                surf: opaque(0x19, 0x1a, 0x1f),
                surf2: opaque(0x20, 0x21, 0x27),
                surf3: opaque(0x2a, 0x2b, 0x32),
                surf4: opaque(0x38, 0x3a, 0x42),
                acc: opaque(0x5a, 0xa6, 0xf5),
                acc2: opaque(0x7f, 0xbc, 0xf7),
                accd: opaque(0x3a, 0x76, 0xc4),
                txt: opaque(0xe6, 0xe7, 0xeb),
                tdim: opaque(0x9a, 0x9c, 0xa6),
                tmut: opaque(0x66, 0x68, 0x6f),
                tgood: opaque(0x4f, 0xce, 0x7f),
                terr: opaque(0xf0, 0x66, 0x5f),
                twarn: opaque(0xe0, 0xa6, 0x3a),
                bdr: opaque(0x34, 0x36, 0x3d),
                row_alt: opaque(0x1a, 0x1b, 0x20),
                on_accent: opaque(0x0c, 0x14, 0x1e),
                btn_danger_bg: opaque(0x7a, 0x20, 0x20),
            },
            ThemeChoice::CatppuccinMocha => Palette {
                bg: opaque(0x11, 0x11, 0x1b),
                surf: opaque(0x18, 0x18, 0x25),
                surf2: opaque(0x1e, 0x1e, 0x2e),
                surf3: opaque(0x31, 0x32, 0x44),
                surf4: opaque(0x45, 0x47, 0x5a),
                acc: opaque(0xcb, 0xa6, 0xf7),
                acc2: opaque(0xb4, 0xbe, 0xfe),
                accd: opaque(0x58, 0x5b, 0x70),
                txt: opaque(0xcd, 0xd6, 0xf4),
                tdim: opaque(0xa6, 0xad, 0xc8),
                tmut: opaque(0x6c, 0x70, 0x86),
                tgood: opaque(0xa6, 0xe3, 0xa1),
                terr: opaque(0xf3, 0x8b, 0xa8),
                twarn: opaque(0xf9, 0xe2, 0xaf),
                bdr: opaque(0x31, 0x32, 0x44),
                row_alt: opaque(0x18, 0x18, 0x25),
                on_accent: opaque(0x1e, 0x1e, 0x2e),
                btn_danger_bg: opaque(0x8b, 0x3a, 0x4a),
            },
        }
    }

    /// The colours of a theme.
    pub fn palette(self) -> (r: Palette)
        ensures
            r == self.colours(),
    {
        match self {
            ThemeChoice::MidnightViolet => Palette {
                bg: rgb(0x09, 0x09, 0x11),
                surf: rgb(0x10, 0x10, 0x1e),
                surf2: rgb(0x18, 0x18, 0x2a),
                surf3: rgb(0x21, 0x21, 0x38),
                surf4: rgb(0x2c, 0x2c, 0x4a),
                acc: rgb(0x7c, 0x6f, 0xee),
                acc2: rgb(0xa8, 0x9e, 0xff),
                accd: rgb(0x4e, 0x46, 0xb4),
                txt: rgb(0xea, 0xed, 0xfa),
                tdim: rgb(0x8a, 0x8e, 0xb8),
                tmut: rgb(0x55, 0x58, 0x7a),
                tgood: rgb(0x22, 0xc5, 0x5e),
                terr: rgb(0xf8, 0x71, 0x71),
                twarn: rgb(0xfb, 0xbf, 0x24),
                bdr: rgb(0x2a, 0x2a, 0x48),
                row_alt: rgb(0x14, 0x14, 0x24),
                on_accent: rgb(0xff, 0xff, 0xff),
                btn_danger_bg: rgb(0x7a, 0x20, 0x20),
            },
            ThemeChoice::PaperLight => Palette {
                bg: rgb(0xee, 0xf0, 0xf7),
                surf: rgb(0xff, 0xff, 0xff),
                surf2: rgb(0xf6, 0xf7, 0xfb),
                surf3: rgb(0xe8, 0xea, 0xf3),
                surf4: rgb(0xd7, 0xda, 0xe9),
                acc: rgb(0x6d, 0x5c, 0xe8),
                acc2: rgb(0x57, 0x47, 0xc9),
                accd: rgb(0x8b, 0x7c, 0xf0),
                txt: rgb(0x1c, 0x1e, 0x2b),
                tdim: rgb(0x5a, 0x5d, 0x75),
                tmut: rgb(0x94, 0x98, 0xad),
                tgood: rgb(0x15, 0x80, 0x3d),
                terr: rgb(0xc8, 0x27, 0x2c),
                twarn: rgb(0xa8, 0x5a, 0x00),
                bdr: rgb(0xd3, 0xd6, 0xe6),
                row_alt: rgb(0xe9, 0xeb, 0xf5),
                on_accent: rgb(0xff, 0xff, 0xff),
                btn_danger_bg: rgb(0xc8, 0x27, 0x2c),
            },
            ThemeChoice::SlateDark => Palette {
                bg: rgb(0x13, 0x14, 0x17),
                surf: rgb(0x19, 0x1a, 0x1f),
                surf2: rgb(0x20, 0x21, 0x27),
                surf3: rgb(0x2a, 0x2b, 0x32),
                surf4: rgb(0x38, 0x3a, 0x42),
                acc: rgb(0x5a, 0xa6, 0xf5),
                acc2: rgb(0x7f, 0xbc, 0xf7),
                accd: rgb(0x3a, 0x76, 0xc4),
                txt: rgb(0xe6, 0xe7, 0xeb),
                tdim: rgb(0x9a, 0x9c, 0xa6),
                tmut: rgb(0x66, 0x68, 0x6f),
                tgood: rgb(0x4f, 0xce, 0x7f),
                terr: rgb(0xf0, 0x66, 0x5f),
                twarn: rgb(0xe0, 0xa6, 0x3a),
                bdr: rgb(0x34, 0x36, 0x3d),
                row_alt: rgb(0x1a, 0x1b, 0x20),
                on_accent: rgb(0x0c, 0x14, 0x1e),
                btn_danger_bg: rgb(0x7a, 0x20, 0x20),
            },
            ThemeChoice::CatppuccinMocha => Palette {
                bg: rgb(0x11, 0x11, 0x1b),
                surf: rgb(0x18, 0x18, 0x25),
                surf2: rgb(0x1e, 0x1e, 0x2e),
                surf3: rgb(0x31, 0x32, 0x44),
                surf4: rgb(0x45, 0x47, 0x5a),
                acc: rgb(0xcb, 0xa6, 0xf7),
                acc2: rgb(0xb4, 0xbe, 0xfe),
                accd: rgb(0x58, 0x5b, 0x70),
                txt: rgb(0xcd, 0xd6, 0xf4),
                tdim: rgb(0xa6, 0xad, 0xc8),
                tmut: rgb(0x6c, 0x70, 0x86),
                tgood: rgb(0xa6, 0xe3, 0xa1),
                terr: rgb(0xf3, 0x8b, 0xa8),
                twarn: rgb(0xf9, 0xe2, 0xaf),
                bdr: rgb(0x31, 0x32, 0x44),
                row_alt: rgb(0x18, 0x18, 0x25),
                on_accent: rgb(0x1e, 0x1e, 0x2e),
                btn_danger_bg: rgb(0x8b, 0x3a, 0x4a),
            },
        }
    }
}

/// How long one theme takes to fade into another, in milliseconds.
pub const FADE_MILLIS: u64 = 220;

/// One theme fading into another.
#[derive(Clone, Copy, Debug, PartialEq, Eq, Structural)]
pub struct Transition {
    pub from: Palette,
    pub to: Palette,
    /// When the fade started, in milliseconds.
    pub started: u64,
}

/// The theme in use.
#[derive(Clone, Copy, Debug, PartialEq, Eq, Structural)]
pub struct ThemeState {
    pub choice: ThemeChoice,
    /// The colours on the screen.
    pub active: Palette,
    pub transition: Option<Transition>,
}

/// How far a fade has come.
#[derive(Clone, Copy, Debug, PartialEq, Eq, Structural)]
pub enum Fade {
    /// Nothing fades.
    Still,
    /// The fade has just ended.
    Finished,
    /// The fade goes on, `elapsed` milliseconds after its start.
    Running { elapsed: u64 },
}

/// The theme once another one was chosen: it fades in from the colours on the screen.
pub open spec fn fading_to(s: ThemeState, choice: ThemeChoice, now: u64) -> ThemeState {
    if s.choice == choice {
        s
    } else {
        ThemeState {
            choice,
            active: s.active,
            transition: Some(
                Transition { from: s.active, to: choice.colours(), started: now },
            ),
        }
    }
}

/// How much of the time of a fade is over.
pub open spec fn elapsed_since(started: u64, now: u64) -> u64 {
    if now >= started {
        (now - started) as u64
    } else {
        0
    }
}

/// The theme at a time, and how far a fade has come by then.
pub open spec fn advanced(s: ThemeState, now: u64) -> (ThemeState, Fade) {
    match s.transition {
        None => (s, Fade::Still),
        Some(t) => {
            let elapsed = elapsed_since(t.started, now);
            if elapsed >= FADE_MILLIS {
                (ThemeState { choice: s.choice, active: t.to, transition: None }, Fade::Finished)
            } else {
                (s, Fade::Running { elapsed })
            }
        },
    }
}

/// A theme that was chosen is on the screen, and nothing fades any more, once the time of a fade is
/// over; whatever the colours in between were.
pub proof fn lemma_fade_ends(
    s: ThemeState,
    choice: ThemeChoice,
    between: Palette,
    now: u64,
    later: u64,
)
    requires
        s.choice != choice,
        now + FADE_MILLIS <= later,
    ensures
        advanced(ThemeState { active: between, ..fading_to(s, choice, now) }, later) == (
            ThemeState { choice, active: choice.colours(), transition: None },
            Fade::Finished,
        ),
{
}

/// A theme that is chosen fades in from what is on the screen, which stays until the fade goes on. Choosing
/// the theme in use changes nothing, and without a fade nothing moves.
pub proof fn lemma_fade_starts(s: ThemeState, choice: ThemeChoice, now: u64, later: u64)
    requires
        now <= later < now + FADE_MILLIS,
    ensures
        fading_to(s, s.choice, now) == s,
        fading_to(s, choice, now).choice == choice,
        fading_to(s, choice, now).active == s.active,
        s.choice != choice ==> {
            &&& fading_to(s, choice, now).transition matches Some(t) && t.from == s.active && t.to
                == choice.colours()
            &&& advanced(fading_to(s, choice, now), later) == (
                fading_to(s, choice, now),
                Fade::Running { elapsed: (later - now) as u64 },
            )
        },
        s.transition is None ==> advanced(s, later) == (s, Fade::Still),
{
}

impl ThemeState {
    /// The default theme, with nothing fading.
    pub fn new() -> (r: ThemeState)
        ensures
            r.choice == ThemeChoice::MidnightViolet,
            r.active == r.choice.colours(),
            r.transition is None,
    {
        let choice = ThemeChoice::MidnightViolet;
        ThemeState { choice, active: choice.palette(), transition: None }
    }

    /// Starts to fade into another theme, from the colours on the screen.
    pub fn set_theme(&mut self, choice: ThemeChoice, now: u64)
        ensures
            *final(self) == fading_to(*old(self), choice, now),
    {
        if self.choice != choice {
            self.transition = Some(
                Transition { from: self.active, to: choice.palette(), started: now },
            );
            self.choice = choice;
        }
    }

    /// Shows a theme at once.
    pub fn apply_theme_immediately(&mut self, choice: ThemeChoice)
        ensures
            *final(self) == (ThemeState { choice, active: choice.colours(), transition: None }),
    {
        self.choice = choice;
        self.active = choice.palette();
        self.transition = None;
    }

    /// The theme that was chosen last.
    pub fn current_choice(&self) -> (r: ThemeChoice)
        ensures
            r == self.choice,
    {
        self.choice
    }

    /// Whether the theme that was chosen last is a light one.
    pub fn current_baseline_is_light(&self) -> (r: bool)
        ensures
            r == (self.choice == ThemeChoice::PaperLight),
    {
        self.choice.is_light()
    }

    /// Ends a fade whose time is over, and tells how far one has come whose time is not.
    pub fn advance(&mut self, now: u64) -> (r: Fade)
        ensures
            (*final(self), r) == advanced(*old(self), now),
    {
        match self.transition {
            None => Fade::Still,
            Some(t) => {
                let elapsed: u64 = if now >= t.started {
                    now - t.started
                } else {
                    0
                };
                if elapsed >= FADE_MILLIS {
                    self.active = t.to;
                    self.transition = None;
                    Fade::Finished
                } else {
                    Fade::Running { elapsed }
                }
            },
        }
    }
}

} // verus!
