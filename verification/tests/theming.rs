use comicinfo_generator::state::LogLevel;
use comicinfo_generator::theme::{Fade, ThemeChoice, ThemeState, FADE_MILLIS};

#[test]
fn themes_have_labels_and_palettes() {
    let all = ThemeChoice::all();
    assert_eq!(all.len(), 4);
    assert_eq!(all[0].label(), "Midnight Violet");
    assert!(ThemeChoice::PaperLight.is_light() && !ThemeChoice::SlateDark.is_light());
    let bg = ThemeChoice::MidnightViolet.palette().bg;
    assert_eq!((bg.r, bg.g, bg.b, bg.a), (0x09, 0x09, 0x11, 0xff));
}

#[test]
fn a_theme_fades_into_another() {
    let mut state = ThemeState::new();
    assert_eq!(state.advance(5), Fade::Still);
    state.set_theme(ThemeChoice::MidnightViolet, 10);
    assert!(state.transition.is_none());
    state.set_theme(ThemeChoice::PaperLight, 100);
    assert_eq!(state.current_choice(), ThemeChoice::PaperLight);
    assert!(state.current_baseline_is_light());
    assert_eq!(state.active, ThemeChoice::MidnightViolet.palette());
    assert_eq!(state.advance(100 + FADE_MILLIS - 1), Fade::Running { elapsed: FADE_MILLIS - 1 });
    assert_eq!(state.advance(50), Fade::Running { elapsed: 0 });
    assert_eq!(state.advance(100 + FADE_MILLIS), Fade::Finished);
    assert_eq!(state.active, ThemeChoice::PaperLight.palette());
    assert_eq!(state.advance(1000), Fade::Still);
}

#[test]
fn a_theme_is_shown_at_once() {
    let mut state = ThemeState::new();
    state.set_theme(ThemeChoice::PaperLight, 0);
    state.apply_theme_immediately(ThemeChoice::CatppuccinMocha);
    assert_eq!(state.active, ThemeChoice::CatppuccinMocha.palette());
    assert!(state.transition.is_none());
}

#[test]
fn log_levels_have_colours() {
    let p = ThemeChoice::MidnightViolet.palette();
    assert_eq!(LogLevel::Success.color(&p), p.tgood);
    assert_eq!(LogLevel::Failure.color(&p), p.terr);
    assert_eq!(LogLevel::Warn.color(&p), p.twarn);
}
