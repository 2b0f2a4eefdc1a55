//! The navigation state of the embedded page engine: the address it shows
//! and whether it is loading.

use vstd::prelude::*;

verus! {

/// What the shell asks of the engine.
#[derive(Debug, Clone)]
pub enum EngineEvent {
    LoadUrl(String),
    Resize { width: u32, height: u32 },
    /// A click at a position of the page surface, in whole pixels.
    InputClick { x: i32, y: i32 },
    InputKey { keycode: u32 },
    Back,
    Forward,
    Refresh,
    Stop,
}

/// The engine's observable state.
pub struct EngineState {
    pub url: Seq<char>,
    pub loading: bool,
}

/// The engine: the current address and the loading flag.
pub struct WaveEngine {
    current_url: String,
    is_loading: bool,
}

impl View for WaveEngine {
    type V = EngineState;

    closed spec fn view(&self) -> EngineState {
        EngineState { url: self.current_url@, loading: self.is_loading }
    }
}

/// The serialised form that `url::Url::parse` gives an address, if it accepts it.
pub uninterp spec fn canonical_url(raw: Seq<char>) -> Option<Seq<char>>;

/// Parses an address with `url::Url::parse` and hands back the parsed
/// address's serialisation, `None` where the parser refuses the input.
/// Nothing is claimed of the result but that it is the parser's.
#[verifier::external_body]
fn canonicalize(raw: &str) -> (parsed: Option<String>)
    ensures
        match parsed {
            Some(s) => canonical_url(raw@) == Some(s@),
            None => canonical_url(raw@) is None,
        },
{
    match url::Url::parse(raw) {
        Ok(u) => Some(String::from(u)),
        Err(_) => None,
    }
}

/// The scheme that is tried when an address does not parse as given.
pub open spec fn default_scheme() -> Seq<char> {
    seq!['h', 't', 't', 'p', 's', ':', '/', '/']
}

/// The state after a request to load an address: the address as given wins
/// where it parses, then the address behind the default scheme; where
/// neither parses, nothing changes.
pub open spec fn navigated(
    before: EngineState,
    as_given: Option<Seq<char>>,
    with_scheme: Option<Seq<char>>,
) -> EngineState {
    match as_given {
        Some(u) => EngineState { url: u, loading: true },
        None => match with_scheme {
            Some(u) => EngineState { url: u, loading: true },
            None => before,
        },
    }
}

/// The state after an event: only a request to load an address changes it.
pub open spec fn dispatched(before: EngineState, event: EngineEvent) -> EngineState {
    match event {
        EngineEvent::LoadUrl(url) => navigated(
            before,
            canonical_url(url@),
            canonical_url(default_scheme() + url@),
        ),
        _ => before,
    }
}

impl WaveEngine {
    /// An idle engine on the blank page.
    pub fn new() -> (engine: Self)
        ensures
            engine@.url == "about:blank"@,
            !engine@.loading,
    {
        Self { current_url: "about:blank".to_owned(), is_loading: false }
    }

    /// Hands an event to the engine.
    pub fn dispatch(&mut self, event: EngineEvent)
        ensures
            final(self)@ == dispatched(old(self)@, event),
    {
        match event {
            EngineEvent::LoadUrl(url) => self.load_url(url.as_str()),
            EngineEvent::Resize { width, height } => self.resize(width, height),
            EngineEvent::Back => {},
            EngineEvent::Forward => {},
            EngineEvent::Refresh => {},
            EngineEvent::Stop => {},
            EngineEvent::InputClick { x: _, y: _ } => {},
            EngineEvent::InputKey { keycode: _ } => {},
        }
    }

    /// Starts loading `url`, read as given or else behind `https://`.
    pub fn load_url(&mut self, url: &str)
        ensures
            final(self)@ == navigated(
                old(self)@,
                canonical_url(url@),
                canonical_url(default_scheme() + url@),
            ),
    {
        let as_given = canonicalize(url);
        if as_given.is_some() {
            self.navigate(as_given, None);
        } else {
            proof {
                reveal_strlit("https://");
                assert("https://"@ =~= default_scheme());
            }
            let prefixed = String::from_str("https://").concat(url);
            let with_scheme = canonicalize(prefixed.as_str());
            self.navigate(None, with_scheme);
        }
    }

    /// Takes up the outcome of reading an address both ways.
    pub fn navigate(&mut self, as_given: Option<String>, with_scheme: Option<String>)
        ensures
            final(self)@ == navigated(
                old(self)@,
                match as_given { Some(s) => Some(s@), None => None },
                match with_scheme { Some(s) => Some(s@), None => None },
            ),
    {
        match as_given {
            Some(u) => {
                self.current_url = u;
                self.is_loading = true;
            },
            None => match with_scheme {
                Some(u) => {
                    self.current_url = u;
                    self.is_loading = true;
                },
                None => {},
            },
        }
    }

    /// Tells the engine the size of its surface. The navigation state does
    /// not depend on it.
    pub fn resize(&self, width: u32, height: u32) {
    }

    pub fn get_url(&self) -> (url: &str)
        ensures
            url@ == self@.url,
    {
        self.current_url.as_str()
    }

    pub fn is_loading(&self) -> (loading: bool)
        ensures
            loading == self@.loading,
    {
        self.is_loading
    }
}

} // verus!
