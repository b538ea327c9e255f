//! Data handed to the page renderer. Rendering itself (template engines,
//! markdown, highlighting) is an external collaborator; the library only
//! defines what a page is made of.

use vstd::prelude::*;

verus! {

/// The data of one rendered page: its title, its main content, and the
/// shared sidebar listing the conversations.
pub struct BaseTemplate<'a> {
    pub title: &'a str,
    pub content: String,
    pub conversations_html: String,
}

impl<'a> BaseTemplate<'a> {
    /// Gathers the parts of one page.
    pub fn new(title: &'a str, content: String, conversations_html: String) -> (t: BaseTemplate<
        'a,
    >)
        ensures
            t.title@ == title@,
            t.content == content,
            t.conversations_html == conversations_html,
    {
        BaseTemplate { title, content, conversations_html }
    }
}

} // verus!
