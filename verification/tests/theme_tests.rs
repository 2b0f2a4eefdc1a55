use wave_core::theme::CatppuccinFlavor;

#[test]
fn base_colours() {
    assert_eq!(CatppuccinFlavor::Mocha.base(), 0x1e1e2e);
    assert_eq!(CatppuccinFlavor::Macchiato.base(), 0x24273a);
    assert_eq!(CatppuccinFlavor::Frappe.base(), 0x303446);
    assert_eq!(CatppuccinFlavor::Latte.base(), 0xeff1f5);
}

#[test]
fn mantle_colours() {
    assert_eq!(CatppuccinFlavor::Mocha.mantle(), 0x181825);
    assert_eq!(CatppuccinFlavor::Macchiato.mantle(), 0x1e2030);
    assert_eq!(CatppuccinFlavor::Frappe.mantle(), 0x292c3c);
    assert_eq!(CatppuccinFlavor::Latte.mantle(), 0xe6e9ef);
}

#[test]
fn text_colours() {
    assert_eq!(CatppuccinFlavor::Mocha.text(), 0xcdd6f4);
    assert_eq!(CatppuccinFlavor::Macchiato.text(), 0xcad3f5);
    assert_eq!(CatppuccinFlavor::Frappe.text(), 0xc6d0f5);
    assert_eq!(CatppuccinFlavor::Latte.text(), 0x4c4f69);
}
