use vstd::prelude::*;
use crate::item::{Item, Page, opt_text};

verus! {

/// A ceiling of `max_requests` requests in each window of `window_ms`
/// milliseconds.
#[derive(Clone, Copy, Debug)]
pub struct RateLimit {
    pub max_requests: u64,
    pub window_ms: u64,
}

impl RateLimit {
    /// Twenty requests a minute.
    pub fn standard() -> (r: RateLimit)
        ensures
            r.max_requests == 20,
            r.window_ms == 60000,
    {
        RateLimit { max_requests: 20, window_ms: 60000 }
    }

    /// Milliseconds to wait between two consecutive requests.
    pub fn delay_ms(&self) -> (r: u64)
        requires
            self.max_requests > 0,
        ensures
            r == self.window_ms / self.max_requests,
    {
        self.window_ms / self.max_requests
    }
}

/// Address of the list of new items, without a cursor.
pub open spec fn list_base() -> Seq<char> {
    "https://readwise.io/api/v3/list/?location=new"@
}

/// Address of the page that `cursor` continues to, or of the first page.
pub open spec fn list_url(cursor: Option<Seq<char>>) -> Seq<char> {
    match cursor {
        Some(c) => list_base() + "&pageCursor="@ + c,
        None => list_base(),
    }
}

/// The address to request for a cursor, or for the first page.
pub fn page_url(cursor: &Option<String>) -> (r: String)
    ensures
        r@ == list_url(opt_text(*cursor)),
{
    let mut r = String::from_str("https://readwise.io/api/v3/list/?location=new");
    match cursor {
        Some(c) => {
            r.append("&pageCursor=");
            r.append(c.as_str());
        },
        None => {},
    }
    r
}

/// Total number of items over a sequence of pages.
pub open spec fn total_items(pages: Seq<Seq<Item>>) -> int
    decreases pages.len(),
{
    if pages.len() == 0 {
        0
    } else {
        total_items(pages.drop_last()) + pages.last().len()
    }
}

/// The walk over the pages of the list: it says which page to request next
/// and gathers the items of the pages received, in arrival order.
pub struct Fetcher {
    pub cursor: Option<String>,
    pub items: Vec<Item>,
    pub pages: u64,
    pub done: bool,
    /// The items of each page received, in order.
    pub received: Ghost<Seq<Seq<Item>>>,
}

impl Fetcher {
    pub open spec fn wf(&self) -> bool {
        &&& self.items@ == self.received@.flatten_alt()
        &&& self.pages == self.received@.len()
        &&& (self.done ==> self.cursor.is_none())
        &&& (self.received@.len() == 0 ==> self.cursor.is_none() && !self.done)
    }

    /// A walk that has received nothing yet.
    pub fn new() -> (r: Fetcher)
        ensures
            r.wf(),
            r.received@.len() == 0,
            !r.done,
    {
        Fetcher {
            cursor: None,
            items: Vec::new(),
            pages: 0,
            done: false,
            received: Ghost(Seq::empty()),
        }
    }

    /// The address of the next page, or `None` once the last page is in.
    pub fn next_url(&self) -> (r: Option<String>)
        requires
            self.wf(),
        ensures
            self.done ==> r.is_none(),
            !self.done ==> r.is_some() && r.unwrap()@ == list_url(opt_text(self.cursor)),
    {
        if self.done {
            None
        } else {
            Some(page_url(&self.cursor))
        }
    }

    /// Whether to wait before the next request: every request but the first.
    pub fn needs_delay(&self) -> (r: bool)
        requires
            self.wf(),
        ensures
            r == (self.received@.len() > 0),
    {
        self.pages > 0
    }

    /// Takes in the page that answered the last request: its items are
    /// appended and its cursor is the next one; without a cursor the walk ends.
    pub fn accept(&mut self, page: Page)
        requires
            old(self).wf(),
            !old(self).done,
            old(self).pages < u64::MAX,
        ensures
            final(self).wf(),
            final(self).items@ == old(self).items@ + page.results@,
            final(self).received@ == old(self).received@.push(page.results@),
            final(self).cursor == page.next_page_cursor,
            final(self).done == page.next_page_cursor.is_none(),
    {
        let Page { count: _, next_page_cursor, mut results } = page;
        let ghost got = results@;
        self.items.append(&mut results);
        self.cursor = next_page_cursor;
        self.done = self.cursor.is_none();
        self.pages = self.pages + 1;
        proof {
            let prev = self.received@;
            self.received = Ghost(prev.push(got));
            assert(prev.push(got).drop_last() =~= prev);
        }
    }

    /// The items of all pages, in arrival order.
    pub fn into_items(self) -> (r: Vec<Item>)
        requires
            self.wf(),
        ensures
            r@ == self.items@,
    {
        self.items
    }
}

proof fn lemma_total_items(pages: Seq<Seq<Item>>)
    ensures
        pages.flatten_alt().len() == total_items(pages),
    decreases pages.len(),
{
    if pages.len() > 0 {
        lemma_total_items(pages.drop_last());
    }
}

/// When the walk is over, it holds as many items as all its pages together,
/// and the last cursor seen is absent.
pub proof fn fetched_count(f: Fetcher)
    requires
        f.wf(),
        f.done,
    ensures
        f.items@.len() == total_items(f.received@),
        f.cursor.is_none(),
{
    lemma_total_items(f.received@);
}

} // verus!
