//! What every rendered page shares.

use vstd::prelude::*;

verus! {

/// The data common to all pages: the title, and whether the logo carries
/// the thanks banner.
#[derive(Debug, Clone)]
pub struct CommonData {
    pub title: String,
    pub show_thanks_in_logo: bool,
}

impl CommonData {
    /// A page with this title and the thanks banner in its logo.
    pub fn new(title: String) -> (r: CommonData)
        ensures
            r.title@ == title@,
            r.show_thanks_in_logo,
    {
        CommonData { title, show_thanks_in_logo: true }
    }

    /// The same page without the thanks banner in its logo.
    pub fn without_thanks_in_logo(self) -> (r: CommonData)
        ensures
            r.title@ == self.title@,
            !r.show_thanks_in_logo,
    {
        let mut s = self;
        s.show_thanks_in_logo = false;
        s
    }
}

} // verus!
