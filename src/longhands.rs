//! Values of the font longhand properties that are plain data.

pub mod font_family;
pub mod font_feature_settings;
pub mod font_language_override;
pub mod font_synthesis;
pub mod font_weight;
pub mod font_size;
pub mod system_font;
pub mod x_lang;
