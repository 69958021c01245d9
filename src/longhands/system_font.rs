//! The system fonts that a `font` shorthand may name.

use vstd::prelude::*;

verus! {

/// A system font.
#[derive(Debug, Clone, Copy, PartialEq, Eq, Hash, Structural)]
pub enum SystemFont {
    Caption,
    Icon,
    Menu,
    MessageBox,
    SmallCaption,
    StatusBar,
    MozWindow,
    MozDocument,
    MozWorkspace,
    MozDesktop,
    MozInfo,
    MozDialog,
    MozButton,
    MozPullDownMenu,
    MozList,
    MozField,
}

} // verus!
