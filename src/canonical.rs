use vstd::prelude::*;
use crate::grouping::{batch_items, grouped, grouping_is_exact};
use crate::item::{Item, opt_text};

verus! {

/// The scheme prefix of mail addresses, which cannot be rendered as articles.
pub open spec fn mailto_prefix() -> Seq<char> {
    seq!['m', 'a', 'i', 'l', 't', 'o', ':']
}

/// Whether a URL uses the mail scheme.
pub open spec fn is_mail_url(url: Seq<char>) -> bool {
    url.len() >= 7 && url.subrange(0, 7) == mailto_prefix()
}

/// Items whose source URL is not a mail address.
pub open spec fn not_mail() -> spec_fn(Item) -> bool {
    |i: Item| !is_mail_url(i.source_url@)
}

/// The instant an item was last updated, which orders the items.
pub open spec fn update_key(i: Item) -> int {
    i.updated_at.unix_nanos as int
}

pub open spec fn updated_at_instant(v: int) -> spec_fn(Item) -> bool {
    |i: Item| update_key(i) == v
}

/// Items ascending by update instant.
pub open spec fn sorted_by_update(s: Seq<Item>) -> bool {
    forall|i: int, j: int| 0 <= i < j < s.len() ==> update_key(s[i]) <= update_key(s[j])
}

/// `b` is `a` sorted by update instant, with items of equal instant kept in
/// their order in `a`.
pub open spec fn stable_sort_of(a: Seq<Item>, b: Seq<Item>) -> bool {
    &&& sorted_by_update(b)
    &&& b.to_multiset() == a.to_multiset()
    &&& forall|v: int| #[trigger] b.filter(updated_at_instant(v)) == a.filter(updated_at_instant(v))
}

/// Relies on `slice::sort_by_key`, a stable sort: it orders the items by the
/// key and keeps items with equal keys in their order.
#[verifier::external_body]
fn sort_by_update(items: &mut Vec<Item>)
    ensures
        stable_sort_of(old(items)@, final(items)@),
{
    items.sort_by_key(|i| i.updated_at.unix_nanos);
}

/// Whether `url` starts with the mail scheme.
pub fn is_mailto(url: &String) -> (r: bool)
    ensures
        r == is_mail_url(url@),
{
    let s = url.as_str();
    let len: usize = s.unicode_len();
    if len < 7 {
        return false;
    }
    let prefix = "mailto:";
    proof {
        reveal_strlit("mailto:");
        assert(prefix@ == mailto_prefix());
    }
    let mut i: usize = 0;
    while i < 7
        invariant
            0 <= i <= 7,
            len == url@.len(),
            len >= 7,
            s@ == url@,
            prefix@ == mailto_prefix(),
            url@.subrange(0, i as int) == mailto_prefix().subrange(0, i as int),
        decreases 7 - i,
    {
        if s.get_char(i) != prefix.get_char(i) {
            assert(url@.subrange(0, 7)[i as int] != mailto_prefix()[i as int]);
            return false;
        }
        assert(url@.subrange(0, i + 1) =~= mailto_prefix().subrange(0, i + 1));
        i = i + 1;
    }
    assert(mailto_prefix().subrange(0, 7) =~= mailto_prefix());
    true
}

/// The items that are not mail addresses, ascending by update instant, items
/// updated at the same instant in their original order.
pub fn prepare(items: &Vec<Item>) -> (r: Vec<Item>)
    ensures
        stable_sort_of(items@.filter(not_mail()), r@),
{
    let mut r: Vec<Item> = Vec::new();
    let mut i: usize = 0;
    proof {
        assert(items@.take(0) =~= Seq::<Item>::empty());
        reveal(Seq::filter);
    }
    while i < items.len()
        invariant
            0 <= i <= items.len(),
            r@ == items@.take(i as int).filter(not_mail()),
        decreases items.len() - i,
    {
        proof {
            assert(items@.take(i + 1) =~= items@.take(i as int).push(items@[i as int]));
            items@.take(i as int).lemma_filter_push(items@[i as int], not_mail());
        }
        if !is_mailto(&items[i].source_url) {
            r.push(items[i].duplicate());
        }
        i = i + 1;
    }
    proof {
        assert(items@.take(i as int) =~= items@);
    }
    sort_by_update(&mut r);
    r
}

/// The URL of an item after a probe that resolved to `probe`, or failed.
pub open spec fn canonical_url(url: Seq<char>, probe: Option<Seq<char>>) -> Seq<char> {
    match probe {
        Some(p) => p,
        None => url,
    }
}

/// What a probe of `url` reports.
pub enum ProbeOutcome {
    /// The probe resolved to the URL itself.
    Unchanged,
    /// The probe resolved to another URL, which replaced the first.
    Redirected { from: String, to: String },
    /// The probe failed; the URL stays as it was.
    Failed { url: String },
}

/// The diagnostic of a probe of `url` that resolved to `probe`, or failed.
pub open spec fn diagnostic(url: Seq<char>, probe: Option<Seq<char>>) -> Option<Seq<char>> {
    match probe {
        Some(p) => if p == url {
            None
        } else {
            Some("Redirected from "@ + url + " to "@ + p)
        },
        None => Some("Failed to HEAD "@ + url),
    }
}

/// The diagnostic line of an outcome, if any.
pub open spec fn outcome_message(o: ProbeOutcome) -> Option<Seq<char>> {
    match o {
        ProbeOutcome::Unchanged => None,
        ProbeOutcome::Redirected { from, to } => Some("Redirected from "@ + from@ + " to "@ + to@),
        ProbeOutcome::Failed { url } => Some("Failed to HEAD "@ + url@),
    }
}

impl ProbeOutcome {
    /// The diagnostic line to show, if any.
    pub fn message(&self) -> (r: Option<String>)
        ensures
            opt_text(r) == outcome_message(*self),
    {
        match self {
            ProbeOutcome::Unchanged => None,
            ProbeOutcome::Redirected { from, to } => {
                let mut m = String::from_str("Redirected from ");
                m.append(from.as_str());
                m.append(" to ");
                m.append(to.as_str());
                Some(m)
            },
            ProbeOutcome::Failed { url } => {
                let mut m = String::from_str("Failed to HEAD ");
                m.append(url.as_str());
                Some(m)
            },
        }
    }
}

/// Applies the result of a redirect probe of the item's URL: a resolved URL
/// that differs replaces it; a failed probe leaves it as it was.
pub fn apply_probe(item: &mut Item, probe: Option<String>) -> (r: ProbeOutcome)
    ensures
        final(item).source_url@ == canonical_url(old(item).source_url@, opt_text(probe)),
        final(item).title == old(item).title,
        final(item).author == old(item).author,
        final(item).site_name == old(item).site_name,
        final(item).word_count == old(item).word_count,
        final(item).created_at == old(item).created_at,
        final(item).updated_at == old(item).updated_at,
        outcome_message(r) == diagnostic(old(item).source_url@, opt_text(probe)),
{
    match probe {
        Some(p) => {
            if p == item.source_url {
                ProbeOutcome::Unchanged
            } else {
                let from = item.source_url.clone();
                let to = p.clone();
                item.source_url = p;
                ProbeOutcome::Redirected { from, to }
            }
        },
        None => ProbeOutcome::Failed { url: item.source_url.clone() },
    }
}


proof fn lemma_flatten_contains(cs: Seq<Seq<Item>>, j: int, x: Item)
    requires
        0 <= j < cs.len(),
        cs[j].contains(x),
    ensures
        cs.flatten().contains(x),
    decreases cs.len(),
{
    if j == 0 {
        let q = choose|q: int| 0 <= q < cs[0].len() && #[trigger] cs[0][q] == x;
        assert((cs.first() + cs.drop_first().flatten())[q] == x);
    } else {
        lemma_flatten_contains(cs.drop_first(), j - 1, x);
        let f = cs.drop_first().flatten();
        let q = choose|q: int| 0 <= q < f.len() && #[trigger] f[q] == x;
        assert((cs.first() + f)[cs.first().len() + q] == x);
    }
}

/// No item with a mail address reaches a batch: whatever the fetched
/// `items`, the batches made of them once prepared hold no such item.
pub proof fn mail_never_grouped(
    items: Seq<Item>,
    prepared: Seq<Item>,
    t: int,
    b: (Seq<char>, Seq<Item>),
    x: Item,
)
    requires
        stable_sort_of(items.filter(not_mail()), prepared),
        grouped(prepared, t).contains(b),
        b.1.contains(x),
    ensures
        !is_mail_url(x.source_url@),
{
    broadcast use vstd::seq_lib::to_multiset_contains;
    grouping_is_exact(prepared, t);
    let g = grouped(prepared, t);
    let j = choose|j: int| 0 <= j < g.len() && #[trigger] g[j] == b;
    assert(batch_items(g)[j] == b.1);
    lemma_flatten_contains(batch_items(g), j, x);
    assert(batch_items(g).flatten().to_multiset().count(x) > 0);
    let f = items.filter(not_mail());
    assert(f.contains(x));
    let q = choose|q: int| 0 <= q < f.len() && #[trigger] f[q] == x;
    items.lemma_filter_pred(not_mail(), q);
}

/// Probing is idempotent: once a URL has been resolved to `fin`, a second
/// probe that resolves to `fin` again changes nothing and reports nothing.
pub proof fn probe_idempotent(url: Seq<char>, fin: Seq<char>)
    ensures
        canonical_url(canonical_url(url, Some(fin)), Some(fin)) == canonical_url(url, Some(fin)),
        diagnostic(canonical_url(url, Some(fin)), Some(fin)).is_none(),
{
}

} // verus!
