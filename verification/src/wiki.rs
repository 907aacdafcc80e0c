//! The article record an encyclopedia lookup hands back, as plain values.
//! Fetching and response parsing live in the surrounding program; the
//! library only carries the page that came out of them.

use vstd::prelude::*;

verus! {

/// One article: its numeric id, its title, and its introductory extract
/// when the lookup supplied one.
#[derive(Clone, Debug)]
pub struct Page {
    pub id: u64,
    pub title: String,
    pub extract: Option<String>,
}

impl Page {
    pub fn new(id: u64, title: String, extract: Option<String>) -> (p: Page)
        ensures
            p.id == id,
            p.title@ == title@,
            p.extract == extract,
    {
        Page { id, title, extract }
    }
}

} // verus!
