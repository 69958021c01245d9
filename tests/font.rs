use pdqsort::font_metrics::{get_metrics_provider_for_product, DummyProvider};
use pdqsort::longhands::font_family::{self, FamilyName, FontFamily};
use pdqsort::longhands::font_feature_settings;
use pdqsort::longhands::font_language_override;
use pdqsort::longhands::font_size::KeywordSize;
use pdqsort::longhands::font_synthesis;
use pdqsort::longhands::font_weight::{self, SpecifiedValue, T};
use pdqsort::longhands::system_font::SystemFont;

#[test]
fn metrics_provider_is_the_dummy() {
    assert_eq!(get_metrics_provider_for_product(), DummyProvider);
}

#[test]
fn initial_font_family_is_serif() {
    let v = font_family::get_initial_value();
    assert_eq!(v.0.len(), 1);
    assert_eq!(v.0[0], FontFamily::Generic("serif".to_string()));
    assert_eq!(v.0[0].name(), "serif");
}

#[test]
fn initial_font_weight_is_normal() {
    assert_eq!(font_weight::get_initial_value(), T::Weight400);
    assert_eq!(font_weight::get_initial_specified_value(), SpecifiedValue::Normal);
}

#[test]
fn bold_weights() {
    let all = [
        T::Weight100, T::Weight200, T::Weight300, T::Weight400, T::Weight500,
        T::Weight600, T::Weight700, T::Weight800, T::Weight900,
    ];
    let bold: Vec<bool> = all.iter().map(|w| w.is_bold()).collect();
    assert_eq!(bold, vec![false, false, false, false, false, true, true, true, true]);
}

#[test]
fn weight_system_font_round_trip() {
    let v = SpecifiedValue::system_font(SystemFont::Menu);
    assert_eq!(v.get_system(), Some(SystemFont::Menu));
    assert_eq!(SpecifiedValue::Bold.get_system(), None);
}

#[test]
fn default_keyword_size_is_medium() {
    assert_eq!(KeywordSize::default(), KeywordSize::Medium);
}

#[test]
fn initial_font_synthesis_allows_both() {
    let v = font_synthesis::get_initial_value();
    assert!(v.weight);
    assert!(v.style);
}

#[test]
fn initial_feature_settings_are_normal() {
    assert_eq!(font_feature_settings::get_initial_value(), font_feature_settings::T::Normal);
}

#[test]
fn initial_language_override_is_normal() {
    assert_eq!(font_language_override::get_initial_value(), font_language_override::T::Normal);
    assert_eq!(font_language_override::get_initial_specified_value(), font_language_override::T::Normal);
}

#[test]
fn initial_language_is_empty() {
    assert_eq!(pdqsort::longhands::x_lang::get_initial_value().0, "");
}

#[test]
fn generic_families_are_recognised_in_any_case() {
    assert_eq!(FontFamily::from_atom("serif".to_string()), FontFamily::Generic("serif".to_string()));
    assert_eq!(FontFamily::from_atom("SANS-Serif".to_string()), FontFamily::Generic("sans-serif".to_string()));
    assert_eq!(FontFamily::from_atom("Cursive".to_string()), FontFamily::Generic("cursive".to_string()));
    assert_eq!(FontFamily::from_atom("fantasy".to_string()), FontFamily::Generic("fantasy".to_string()));
    assert_eq!(FontFamily::from_atom("MONOSPACE".to_string()), FontFamily::Generic("monospace".to_string()));
}

#[test]
fn other_names_are_family_names() {
    assert_eq!(
        FontFamily::from_atom("Arial".to_string()),
        FontFamily::FamilyName(FamilyName("Arial".to_string()))
    );
    assert_eq!(
        FontFamily::from_atom("serif2".to_string()),
        FontFamily::FamilyName(FamilyName("serif2".to_string()))
    );
    assert_eq!(
        FontFamily::from_atom("séRIF".to_string()),
        FontFamily::FamilyName(FamilyName("séRIF".to_string()))
    );
}

#[test]
fn bolder_and_lighter_follow_the_inherited_weight() {
    let all = [
        T::Weight100, T::Weight200, T::Weight300, T::Weight400, T::Weight500,
        T::Weight600, T::Weight700, T::Weight800, T::Weight900,
    ];
    let bolder: Vec<T> = all.iter().map(|w| SpecifiedValue::Bolder.to_computed_value(*w, None)).collect();
    assert_eq!(
        bolder,
        vec![
            T::Weight400, T::Weight400, T::Weight400, T::Weight700, T::Weight700,
            T::Weight900, T::Weight900, T::Weight900, T::Weight900,
        ]
    );
    let lighter: Vec<T> = all.iter().map(|w| SpecifiedValue::Lighter.to_computed_value(*w, None)).collect();
    assert_eq!(
        lighter,
        vec![
            T::Weight100, T::Weight100, T::Weight100, T::Weight100, T::Weight100,
            T::Weight400, T::Weight400, T::Weight700, T::Weight700,
        ]
    );
}

#[test]
fn keyword_and_numeric_weights_compute_directly() {
    assert_eq!(SpecifiedValue::Normal.to_computed_value(T::Weight900, None), T::Weight400);
    assert_eq!(SpecifiedValue::Bold.to_computed_value(T::Weight100, None), T::Weight700);
    assert_eq!(SpecifiedValue::Weight300.to_computed_value(T::Weight900, None), T::Weight300);
    assert_eq!(
        SpecifiedValue::System(SystemFont::Caption).to_computed_value(T::Weight400, Some(T::Weight600)),
        T::Weight600
    );
    for w in [T::Weight100, T::Weight500, T::Weight900] {
        assert_eq!(SpecifiedValue::from_computed_value(&w).to_computed_value(T::Weight400, None), w);
    }
}

#[test]
fn family_atom_is_its_name() {
    let named = FontFamily::FamilyName(FamilyName("Fira Sans".to_string()));
    assert_eq!(named.atom(), "Fira Sans");
    assert_eq!(named.name(), "Fira Sans");
    let generic = FontFamily::Generic("monospace".to_string());
    assert_eq!(generic.atom(), "monospace");
}
