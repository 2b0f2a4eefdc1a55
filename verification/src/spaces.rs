//! Workspaces: named groups of panels.

use vstd::prelude::*;

verus! {

#[derive(Debug, Clone)]
pub struct Space {
    pub id: String,
    pub name: String,
    pub panels: Vec<Panel>,
    pub layout: Layout,
}

#[derive(Debug, Clone)]
pub struct Panel {
    pub id: String,
    pub title: String,
    pub url: String,
}

#[derive(Debug, Clone)]
pub enum Layout {
    /// One panel at full width.
    Single,
    /// Two panels side by side, by their ids.
    SplitVertical(String, String),
    /// Two panels one above the other, by their ids.
    SplitHorizontal(String, String),
    /// Any number of panels in a grid, by their ids.
    Grid(Vec<String>),
}

pub open spec fn is_lower_hex(c: char) -> bool {
    ('0' <= c && c <= '9') || ('a' <= c && c <= 'f')
}

/// The shape of a random identifier: 36 characters, lower-case hexadecimal
/// digits in groups of 8, 4, 4, 4 and 12 with hyphens between them, the
/// third group beginning with the digit 4 and the fourth with 8, 9, a or b.
pub open spec fn is_random_id(s: Seq<char>) -> bool {
    &&& s.len() == 36
    &&& forall|i: int|
        0 <= i < 36 ==> if i == 8 || i == 13 || i == 18 || i == 23 {
            #[trigger] s[i] == '-'
        } else {
            is_lower_hex(s[i])
        }
    &&& s[14] == '4'
    &&& (s[19] == '8' || s[19] == '9' || s[19] == 'a' || s[19] == 'b')
}

/// Draws a random identifier with `uuid::Uuid::new_v4` and writes it in the
/// crate's default form. Which identifier comes back is left open: only the
/// shape that every version-4 identifier has in that form is claimed. The
/// call gives up only where the system has no source of random numbers.
#[verifier::external_body]
fn fresh_id() -> (id: String)
    ensures
        is_random_id(id@),
{
    uuid::Uuid::new_v4().to_string()
}

impl Space {
    /// An empty space called `name`, under a new random id.
    pub fn new(name: &str) -> (space: Self)
        ensures
            is_random_id(space.id@),
            space.name@ == name@,
            space.panels@.len() == 0,
            space.layout == Layout::Single,
    {
        Self::with_id(fresh_id(), name)
    }

    /// An empty space called `name`, under the id given.
    pub fn with_id(id: String, name: &str) -> (space: Self)
        ensures
            space.id == id,
            space.name@ == name@,
            space.panels@.len() == 0,
            space.layout == Layout::Single,
    {
        Self { id, name: name.to_owned(), panels: Vec::new(), layout: Layout::Single }
    }

    /// Appends a panel on `url`, under a new random id.
    pub fn add_panel(&mut self, url: &str)
        ensures
            final(self).id == old(self).id,
            final(self).name == old(self).name,
            final(self).layout == old(self).layout,
            final(self).panels@.len() == old(self).panels@.len() + 1,
            final(self).panels@.drop_last() == old(self).panels@,
            is_random_id(final(self).panels@.last().id@),
            final(self).panels@.last().title@ == "New Panel"@,
            final(self).panels@.last().url@ == url@,
    {
        self.add_panel_with_id(fresh_id(), url)
    }

    /// Appends a panel on `url`, under the id given.
    pub fn add_panel_with_id(&mut self, id: String, url: &str)
        ensures
            final(self).id == old(self).id,
            final(self).name == old(self).name,
            final(self).layout == old(self).layout,
            final(self).panels@.len() == old(self).panels@.len() + 1,
            final(self).panels@.drop_last() == old(self).panels@,
            final(self).panels@.last().id == id,
            final(self).panels@.last().title@ == "New Panel"@,
            final(self).panels@.last().url@ == url@,
    {
        let panel = Panel { id, title: "New Panel".to_owned(), url: url.to_owned() };
        self.panels.push(panel);
        assert(self.panels@.drop_last() =~= old(self).panels@);
    }
}

} // verus!
