use vstd::prelude::*;

verus! {

/// Whether `y` is a leap year of the proleptic Gregorian calendar.
pub open spec fn is_leap_year(y: int) -> bool {
    (y % 4 == 0 && y % 100 != 0) || y % 400 == 0
}

/// Number of days of month `m` (1 to 12) in year `y`.
pub open spec fn days_in_month(y: int, m: int) -> int {
    if m == 2 {
        if is_leap_year(y) { 29 } else { 28 }
    } else if m == 4 || m == 6 || m == 9 || m == 11 {
        30
    } else {
        31
    }
}

/// A calendar date within the years -9999 to 9999.
pub open spec fn valid_date(y: int, m: int, d: int) -> bool {
    -9999 <= y <= 9999 && 1 <= m <= 12 && 1 <= d <= days_in_month(y, m)
}

/// A point in time, with the calendar date that it falls on in its own offset.
#[derive(Clone, Copy, Debug, PartialEq, Eq)]
pub struct Timestamp {
    /// Nanoseconds since the Unix epoch; this orders timestamps.
    pub unix_nanos: i128,
    pub year: i32,
    pub month: u8,
    pub day: u8,
}

impl Timestamp {
    pub open spec fn wf(&self) -> bool {
        valid_date(self.year as int, self.month as int, self.day as int)
    }
}

/// One entry of the reading list.
#[derive(Debug)]
pub struct Item {
    pub title: Option<String>,
    pub author: Option<String>,
    pub site_name: Option<String>,
    pub source_url: String,
    pub word_count: u32,
    pub created_at: Timestamp,
    pub updated_at: Timestamp,
}

/// The text of an optional string, as a mathematical value.
pub open spec fn opt_text(o: Option<String>) -> Option<Seq<char>> {
    match o {
        Some(s) => Some(s@),
        None => None,
    }
}

/// The grouping key of an item: its author and its site.
pub open spec fn item_key(i: Item) -> (Option<Seq<char>>, Option<Seq<char>>) {
    (opt_text(i.author), opt_text(i.site_name))
}

impl Item {
    pub open spec fn wf(&self) -> bool {
        self.created_at.wf() && self.updated_at.wf()
    }

    /// A copy of the item, equal to it in every field.
    pub fn duplicate(&self) -> (r: Item)
        ensures
            r == *self,
    {
        Item {
            title: copy_text(&self.title),
            author: copy_text(&self.author),
            site_name: copy_text(&self.site_name),
            source_url: self.source_url.clone(),
            word_count: self.word_count,
            created_at: self.created_at,
            updated_at: self.updated_at,
        }
    }
}

/// All items of a sequence are well formed.
pub open spec fn all_wf(s: Seq<Item>) -> bool {
    forall|i: int| 0 <= i < s.len() ==> #[trigger] s[i].wf()
}

/// One page of the remote list: a count, the cursor of the next page if any,
/// and the items.
#[derive(Debug)]
pub struct Page {
    pub count: u64,
    pub next_page_cursor: Option<String>,
    pub results: Vec<Item>,
}

/// A copy of an optional string.
pub fn copy_text(o: &Option<String>) -> (r: Option<String>)
    ensures
        r == *o,
{
    match o {
        Some(s) => Some(s.clone()),
        None => None,
    }
}

/// Whether two optional strings hold the same text.
pub fn same_text(a: &Option<String>, b: &Option<String>) -> (r: bool)
    ensures
        r == (opt_text(*a) == opt_text(*b)),
{
    match (a, b) {
        (Some(x), Some(y)) => *x == *y,
        (None, None) => true,
        _ => false,
    }
}

/// Whether two items have the same author and the same site.
pub fn same_key(a: &Item, b: &Item) -> (r: bool)
    ensures
        r == (item_key(*a) == item_key(*b)),
{
    same_text(&a.author, &b.author) && same_text(&a.site_name, &b.site_name)
}

} // verus!
