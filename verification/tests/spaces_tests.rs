use wave_core::spaces::{Layout, Space};

fn is_random_id(id: &str) -> bool {
    let b: Vec<char> = id.chars().collect();
    b.len() == 36
        && b.iter().enumerate().all(|(i, c)| {
            if i == 8 || i == 13 || i == 18 || i == 23 {
                *c == '-'
            } else {
                c.is_ascii_digit() || ('a'..='f').contains(c)
            }
        })
        && b[14] == '4'
        && matches!(b[19], '8' | '9' | 'a' | 'b')
}

#[test]
fn new_space_is_empty() {
    let space = Space::new("Work");
    assert_eq!(space.name, "Work");
    assert!(space.panels.is_empty());
    assert!(matches!(space.layout, Layout::Single));
    assert!(is_random_id(&space.id), "{}", space.id);
}

#[test]
fn spaces_get_ids_of_their_own() {
    let a = Space::new("a");
    let b = Space::new("a");
    assert_ne!(a.id, b.id);
}

#[test]
fn panels_are_appended() {
    let mut space = Space::new("Work");
    space.add_panel("https://github.com");
    space.add_panel("https://slack.com");
    assert_eq!(space.panels.len(), 2);
    assert_eq!(space.panels[0].url, "https://github.com");
    assert_eq!(space.panels[0].title, "New Panel");
    assert_eq!(space.panels[1].url, "https://slack.com");
    assert!(is_random_id(&space.panels[0].id));
    assert!(is_random_id(&space.panels[1].id));
    assert_ne!(space.panels[0].id, space.panels[1].id);
    assert_eq!(space.name, "Work");
}

#[test]
fn ids_can_be_given() {
    let mut space = Space::with_id("space-1".to_string(), "Personal");
    assert_eq!(space.id, "space-1");
    space.add_panel_with_id("panel-1".to_string(), "https://youtube.com");
    assert_eq!(space.panels.len(), 1);
    assert_eq!(space.panels[0].id, "panel-1");
    assert_eq!(space.panels[0].title, "New Panel");
    assert_eq!(space.panels[0].url, "https://youtube.com");
    assert_eq!(space.id, "space-1");
}
