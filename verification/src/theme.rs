//! Colour palette of the shell.

use vstd::prelude::*;

verus! {

/// The four flavours of the palette, from the light one to the darkest.
#[derive(Debug, Clone, Copy, PartialEq, Eq, Structural)]
pub enum CatppuccinFlavor {
    Latte,
    Frappe,
    Macchiato,
    Mocha,
}

/// The accent colours that a theme may pick.
#[derive(Debug, Clone, Copy, PartialEq, Eq, Structural)]
pub enum AccentColor {
    Rosewater,
    Flamingo,
    Pink,
    Mauve,
    Red,
    Maroon,
    Peach,
    Yellow,
    Green,
    Teal,
    Sky,
    Sapphire,
    Blue,
    Lavender,
}

impl CatppuccinFlavor {
    /// The window background as `0xRRGGBB`.
    pub open spec fn spec_base(self) -> u32 {
        match self {
            CatppuccinFlavor::Mocha => 0x1e1e2e,
            CatppuccinFlavor::Macchiato => 0x24273a,
            CatppuccinFlavor::Frappe => 0x303446,
            CatppuccinFlavor::Latte => 0xeff1f5,
        }
    }

    /// The side-panel background as `0xRRGGBB`.
    pub open spec fn spec_mantle(self) -> u32 {
        match self {
            CatppuccinFlavor::Mocha => 0x181825,
            CatppuccinFlavor::Macchiato => 0x1e2030,
            CatppuccinFlavor::Frappe => 0x292c3c,
            CatppuccinFlavor::Latte => 0xe6e9ef,
        }
    }

    /// The body text colour as `0xRRGGBB`.
    pub open spec fn spec_text(self) -> u32 {
        match self {
            CatppuccinFlavor::Mocha => 0xcdd6f4,
            CatppuccinFlavor::Macchiato => 0xcad3f5,
            CatppuccinFlavor::Frappe => 0xc6d0f5,
            CatppuccinFlavor::Latte => 0x4c4f69,
        }
    }

    pub fn base(&self) -> (rgb: u32)
        ensures
            rgb == self.spec_base(),
            rgb <= 0xff_ffff,
    {
        match self {
            Self::Mocha => 0x1e1e2e,
            Self::Macchiato => 0x24273a,
            Self::Frappe => 0x303446,
            Self::Latte => 0xeff1f5,
        }
    }

    pub fn mantle(&self) -> (rgb: u32)
        ensures
            rgb == self.spec_mantle(),
            rgb <= 0xff_ffff,
    {
        match self {
            Self::Mocha => 0x181825,
            Self::Macchiato => 0x1e2030,
            Self::Frappe => 0x292c3c,
            Self::Latte => 0xe6e9ef,
        }
    }

    pub fn text(&self) -> (rgb: u32)
        ensures
            rgb == self.spec_text(),
            rgb <= 0xff_ffff,
    {
        match self {
            Self::Mocha => 0xcdd6f4,
            Self::Macchiato => 0xcad3f5,
            Self::Frappe => 0xc6d0f5,
            Self::Latte => 0x4c4f69,
        }
    }
}

} // verus!
