use vstd::prelude::*;
use vstd::multiset::Multiset;
use crate::date::{date_text, format_date};
use crate::item::{Item, Timestamp, all_wf, item_key, opt_text, same_key};

verus! {

/// The grouping key of an item: author and site.
pub type Key = (Option<Seq<char>>, Option<Seq<char>>);

/// A named, ordered collection of items rendered into one output.
#[derive(Debug)]
pub struct Batch {
    pub name: String,
    pub items: Vec<Item>,
}

/// A batch as a mathematical value: its name and its items.
pub open spec fn batch_view(b: Batch) -> (Seq<char>, Seq<Item>) {
    (b.name@, b.items@)
}

/// Items whose key is `k`.
pub open spec fn has_key(k: Key) -> spec_fn(Item) -> bool {
    |i: Item| item_key(i) == k
}

/// The items of `s` with key `k`, in order.
pub open spec fn with_key(s: Seq<Item>, k: Key) -> Seq<Item> {
    s.filter(has_key(k))
}

/// A key with an author or a site.
pub open spec fn has_label(k: Key) -> bool {
    k.0.is_some() || k.1.is_some()
}

/// The partition of key `k` in `s` becomes a batch of its own.
pub open spec fn promoted(s: Seq<Item>, k: Key) -> bool {
    has_label(k) && with_key(s, k).len() > 1
}

/// The keys of `s`, each once, in the order of their first occurrence.
pub open spec fn distinct_keys(s: Seq<Item>) -> Seq<Key>
    decreases s.len(),
{
    if s.len() == 0 {
        Seq::empty()
    } else {
        let d = distinct_keys(s.drop_last());
        if d.contains(item_key(s.last())) {
            d
        } else {
            d.push(item_key(s.last()))
        }
    }
}

/// Keys whose partition is promoted.
pub open spec fn is_promoted_in(s: Seq<Item>) -> spec_fn(Key) -> bool {
    |k: Key| promoted(s, k)
}

/// Items that are not part of a promoted partition.
pub open spec fn left_over_in(s: Seq<Item>) -> spec_fn(Item) -> bool {
    |i: Item| !promoted(s, item_key(i))
}

/// The name of an affinity batch: "author - site", or whichever of the two
/// is present.
pub open spec fn key_name(k: Key) -> Seq<char> {
    match k {
        (Some(a), Some(b)) => a + seq![' ', '-', ' '] + b,
        (Some(a), None) => a,
        (None, Some(b)) => b,
        (None, None) => Seq::empty(),
    }
}

/// The affinity batches of `s`, in the order in which their keys first occur.
pub open spec fn affinity_batches(s: Seq<Item>) -> Seq<(Seq<char>, Seq<Item>)> {
    distinct_keys(s).filter(is_promoted_in(s)).map_values(affinity_batch(s))
}

pub open spec fn affinity_batch(s: Seq<Item>) -> spec_fn(Key) -> (Seq<char>, Seq<Item>) {
    |k: Key| (key_name(k), with_key(s, k))
}

/// The items that no affinity batch takes, in their order in `s`.
pub open spec fn remainder(s: Seq<Item>) -> Seq<Item> {
    s.filter(left_over_in(s))
}

/// Running word total of the current chunk and the chunks so far, after
/// walking `s` with word threshold `t`.
pub open spec fn chunk_state(s: Seq<Item>, t: int) -> (int, Seq<Seq<Item>>)
    decreases s.len(),
{
    if s.len() == 0 {
        (0, seq![Seq::empty()])
    } else {
        let (w, cs) = chunk_state(s.drop_last(), t);
        let it = s.last();
        if w < t {
            (w + it.word_count, cs.update(cs.len() - 1, cs.last().push(it)))
        } else {
            (it.word_count as int, cs.push(seq![it]))
        }
    }
}

/// The chunks of `s` under word threshold `t`; the last may be empty.
pub open spec fn chunks(s: Seq<Item>, t: int) -> Seq<Seq<Item>> {
    chunk_state(s, t).1
}

pub open spec fn non_empty() -> spec_fn(Seq<Item>) -> bool {
    |c: Seq<Item>| c.len() > 0
}

/// The name of a chunk batch: the date of its first item's update.
pub open spec fn chunk_name(c: Seq<Item>) -> Seq<char> {
    let u: Timestamp = c[0].updated_at;
    date_text(u.year as int, u.month as int, u.day as int)
}

/// The date batches made of the remainder `r`.
pub open spec fn date_batches(r: Seq<Item>, t: int) -> Seq<(Seq<char>, Seq<Item>)> {
    chunks(r, t).filter(non_empty()).map_values(chunk_batch())
}

pub open spec fn chunk_batch() -> spec_fn(Seq<Item>) -> (Seq<char>, Seq<Item>) {
    |c: Seq<Item>| (chunk_name(c), c)
}

/// All batches of `s`: affinity batches first, then date batches.
pub open spec fn grouped(s: Seq<Item>, t: int) -> Seq<(Seq<char>, Seq<Item>)> {
    affinity_batches(s) + date_batches(remainder(s), t)
}

/// Default word threshold of a chunk.
pub const CHUNK_WORDS: u32 = 8000;

proof fn lemma_chunk_state_nonempty(s: Seq<Item>, t: int)
    ensures
        chunk_state(s, t).1.len() >= 1,
        chunk_state(s, t).0 >= 0,
    decreases s.len(),
{
    if s.len() > 0 {
        lemma_chunk_state_nonempty(s.drop_last(), t);
    }
}


proof fn lemma_close_chunk(done: Seq<Seq<Item>>, c: Seq<Item>)
    ensures
        done.push(c).filter(non_empty()).map_values(chunk_batch()) == if c.len() > 0 {
            done.filter(non_empty()).map_values(chunk_batch()).push((chunk_name(c), c))
        } else {
            done.filter(non_empty()).map_values(chunk_batch())
        },
{
    done.lemma_filter_push(c, non_empty());
    if c.len() > 0 {
        assert(done.filter(non_empty()).push(c).map_values(chunk_batch()) =~= done.filter(
            non_empty(),
        ).map_values(chunk_batch()).push((chunk_name(c), c)));
    }
}

/// Cuts `rem` into chunks by word count and names each non-empty chunk by
/// the date of its first item: a new chunk starts before an item when the
/// words of the current chunk have reached `threshold`.
pub fn chunk_batches(rem: &Vec<Item>, threshold: u32) -> (r: Vec<Batch>)
    requires
        all_wf(rem@),
    ensures
        r@.map_values(|b: Batch| batch_view(b)) == date_batches(rem@, threshold as int),
{
    let n: usize = rem.len();
    let mut total: u64 = 0;
    let mut current: Vec<Item> = Vec::new();
    let mut out: Vec<Batch> = Vec::new();
    let ghost mut done: Seq<Seq<Item>> = Seq::empty();
    let mut i: usize = 0;
    proof {
        assert(rem@.take(0) =~= Seq::<Item>::empty());
    }
    while i < n
        invariant
            n == rem.len(),
            0 <= i <= n,
            all_wf(rem@),
            chunk_state(rem@.take(i as int), threshold as int) == (total as int, done.push(
                current@,
            )),
            total <= threshold as int + 0xffff_ffff,
            current@.len() > 0 ==> all_wf(current@),
            out@.map_values(|b: Batch| batch_view(b)) == done.filter(non_empty()).map_values(
                chunk_batch(),
            ),
        decreases n - i,
    {
        let it = rem[i].duplicate();
        let wc: u32 = it.word_count;
        proof {
            assert(rem@.take(i + 1).drop_last() =~= rem@.take(i as int));
            assert(rem@.take(i + 1).last() == rem@[i as int]);
            assert(done.push(current@).last() == current@);
            assert(done.push(current@).len() - 1 == done.len());
        }
        if total < threshold as u64 {
            let ghost before = current@;
            current.push(it);
            total = total + wc as u64;
            proof {
                assert(done.push(current@) =~= done.push(before).update(
                    done.len() as int,
                    before.push(rem@[i as int]),
                ));
                assert(all_wf(current@));
            }
        } else {
            let finished = current;
            current = Vec::new();
            proof {
                lemma_close_chunk(done, finished@);
            }
            if finished.len() > 0 {
                assert(finished@[0].wf());
                let u = finished[0].updated_at;
                let name = format_date(u.year, u.month, u.day);
                let ghost prev = out@;
                out.push(Batch { name, items: finished });
                proof {
                    assert(out@.map_values(|b: Batch| batch_view(b)) =~= prev.map_values(
                        |b: Batch| batch_view(b),
                    ).push((chunk_name(finished@), finished@)));
                }
            }
            proof {
                done = done.push(finished@);
            }
            current.push(it);
            total = wc as u64;
            proof {
                assert(current@ =~= seq![rem@[i as int]]);
            }
        }
        i = i + 1;
    }
    proof {
        assert(rem@.take(n as int) =~= rem@);
        lemma_close_chunk(done, current@);
    }
    if current.len() > 0 {
        assert(current@[0].wf());
        let u = current[0].updated_at;
        let name = format_date(u.year, u.month, u.day);
        let ghost prev = out@;
        out.push(Batch { name, items: current });
        proof {
            assert(out@.map_values(|b: Batch| batch_view(b)) =~= prev.map_values(
                |b: Batch| batch_view(b),
            ).push((chunk_name(current@), current@)));
        }
    }
    out
}


proof fn lemma_filter_wf(s: Seq<Item>, p: spec_fn(Item) -> bool)
    requires
        all_wf(s),
    ensures
        all_wf(s.filter(p)),
    decreases s.len(),
{
    reveal(Seq::filter);
    if s.len() > 0 {
        lemma_filter_wf(s.drop_last(), p);
        assert(s[s.len() - 1].wf());
    }
}

/// The items of `items` that share the key of `items[f]`, in order.
pub fn collect_key(items: &Vec<Item>, f: usize) -> (r: Vec<Item>)
    requires
        f < items.len(),
    ensures
        r@ == with_key(items@, item_key(items@[f as int])),
{
    let ghost k = item_key(items@[f as int]);
    let mut r: Vec<Item> = Vec::new();
    let mut i: usize = 0;
    proof {
        assert(items@.take(0) =~= Seq::<Item>::empty());
        reveal(Seq::filter);
    }
    while i < items.len()
        invariant
            f < items.len(),
            k == item_key(items@[f as int]),
            0 <= i <= items.len(),
            r@ == items@.take(i as int).filter(has_key(k)),
        decreases items.len() - i,
    {
        proof {
            assert(items@.take(i + 1) =~= items@.take(i as int).push(items@[i as int]));
            items@.take(i as int).lemma_filter_push(items@[i as int], has_key(k));
        }
        if same_key(&items[i], &items[f]) {
            r.push(items[i].duplicate());
        }
        i = i + 1;
    }
    proof {
        assert(items@.take(i as int) =~= items@);
    }
    r
}

/// The number of items of `items` that share the key of `items[f]`.
pub fn key_count(items: &Vec<Item>, f: usize) -> (r: usize)
    requires
        f < items.len(),
    ensures
        r == with_key(items@, item_key(items@[f as int])).len(),
{
    let ghost k = item_key(items@[f as int]);
    let mut r: usize = 0;
    let mut i: usize = 0;
    proof {
        assert(items@.take(0) =~= Seq::<Item>::empty());
        reveal(Seq::filter);
    }
    while i < items.len()
        invariant
            f < items.len(),
            k == item_key(items@[f as int]),
            0 <= i <= items.len(),
            r == items@.take(i as int).filter(has_key(k)).len(),
            r <= i,
        decreases items.len() - i,
    {
        proof {
            assert(items@.take(i + 1) =~= items@.take(i as int).push(items@[i as int]));
            items@.take(i as int).lemma_filter_push(items@[i as int], has_key(k));
        }
        if same_key(&items[i], &items[f]) {
            r = r + 1;
        }
        i = i + 1;
    }
    proof {
        assert(items@.take(i as int) =~= items@);
    }
    r
}

/// The position of the first item of each key, in order of first occurrence.
pub fn first_positions(items: &Vec<Item>) -> (r: Vec<usize>)
    ensures
        forall|j: int| 0 <= j < r@.len() ==> #[trigger] r@[j] < items.len(),
        r@.map_values(|p: usize| item_key(items@[p as int])) == distinct_keys(items@),
{
    let mut r: Vec<usize> = Vec::new();
    let mut i: usize = 0;
    proof {
        assert(items@.take(0) =~= Seq::<Item>::empty());
        assert(r@.map_values(|p: usize| item_key(items@[p as int])) =~= Seq::<Key>::empty());
    }
    while i < items.len()
        invariant
            0 <= i <= items.len(),
            forall|j: int| 0 <= j < r@.len() ==> #[trigger] r@[j] < i,
            r@.map_values(|p: usize| item_key(items@[p as int])) == distinct_keys(
                items@.take(i as int),
            ),
        decreases items.len() - i,
    {
        let ghost d = r@.map_values(|p: usize| item_key(items@[p as int]));
        proof {
            assert(items@.take(i + 1).drop_last() =~= items@.take(i as int));
            assert(items@.take(i + 1).last() == items@[i as int]);
        }
        let mut seen = false;
        let mut j: usize = 0;
        while j < r.len()
            invariant
                0 <= j <= r.len(),
                i < items.len(),
                forall|q: int| 0 <= q < r@.len() ==> #[trigger] r@[q] < i,
                d == r@.map_values(|p: usize| item_key(items@[p as int])),
                seen == d.take(j as int).contains(item_key(items@[i as int])),
            decreases r.len() - j,
        {
            let ghost x = item_key(items@[i as int]);
            proof {
                assert(d.take(j + 1) =~= d.take(j as int).push(d[j as int]));
                assert(d[j as int] == item_key(items@[r@[j as int] as int]));
            }
            if same_key(&items[r[j]], &items[i]) {
                seen = true;
                proof {
                    assert(d.take(j + 1)[j as int] == x);
                }
            } else {
                proof {
                    if d.take(j + 1).contains(x) {
                        let q = choose|q: int| 0 <= q < d.take(j + 1).len() && #[trigger] d.take(j + 1)[q] == x;
                        if q < j {
                            assert(d.take(j as int)[q] == x);
                        }
                    }
                }
            }
            proof {
                if d.take(j as int).contains(x) {
                    let q = choose|q: int| 0 <= q < j && #[trigger] d.take(j as int)[q] == x;
                    assert(d.take(j + 1)[q] == x);
                }
            }
            j = j + 1;
        }
        proof {
            assert(d.take(j as int) =~= d);
        }
        if !seen {
            r.push(i);
            proof {
                assert(r@.map_values(|p: usize| item_key(items@[p as int])) =~= d.push(
                    item_key(items@[i as int]),
                ));
            }
        }
        i = i + 1;
    }
    proof {
        assert(items@.take(i as int) =~= items@);
    }
    r
}


/// The name of the affinity batch of an author and a site, at least one of
/// which is present.
pub fn batch_name(author: &Option<String>, site: &Option<String>) -> (r: String)
    requires
        author.is_some() || site.is_some(),
    ensures
        r@ == key_name((opt_text(*author), opt_text(*site))),
{
    match (author, site) {
        (Some(a), Some(b)) => {
            let mut r = a.clone();
            r.append(" - ");
            r.append(b.as_str());
            proof {
                reveal_strlit(" - ");
            }
            r
        },
        (Some(a), None) => a.clone(),
        (None, Some(b)) => b.clone(),
        (None, None) => String::new(),
    }
}

/// The affinity batches: one for each author and site pair, with at least
/// one of the two present, that more than one item shares.
pub fn affinity_groups(items: &Vec<Item>) -> (r: Vec<Batch>)
    ensures
        r@.map_values(|b: Batch| batch_view(b)) == affinity_batches(items@),
{
    let ghost s = items@;
    let firsts = first_positions(items);
    let ghost d = distinct_keys(s);
    let mut out: Vec<Batch> = Vec::new();
    let mut j: usize = 0;
    proof {
        assert(d.take(0) =~= Seq::<Key>::empty());
        reveal(Seq::filter);
    }
    while j < firsts.len()
        invariant
            s == items@,
            d == distinct_keys(s),
            forall|q: int| 0 <= q < firsts@.len() ==> #[trigger] firsts@[q] < items.len(),
            firsts@.map_values(|p: usize| item_key(items@[p as int])) == d,
            0 <= j <= firsts.len(),
            out@.map_values(|b: Batch| batch_view(b)) == d.take(j as int).filter(
                is_promoted_in(s),
            ).map_values(affinity_batch(s)),
        decreases firsts.len() - j,
    {
        let f: usize = firsts[j];
        let ghost k = d[j as int];
        proof {
            assert(k == item_key(items@[f as int]));
            assert(d.take(j + 1) =~= d.take(j as int).push(k));
            d.take(j as int).lemma_filter_push(k, is_promoted_in(s));
        }
        let group = collect_key(items, f);
        let ghost prev = out@;
        if (items[f].author.is_some() || items[f].site_name.is_some()) && group.len() > 1 {
            let name = batch_name(&items[f].author, &items[f].site_name);
            out.push(Batch { name, items: group });
            proof {
                assert(out@.map_values(|b: Batch| batch_view(b)) =~= prev.map_values(
                    |b: Batch| batch_view(b),
                ).push((key_name(k), with_key(s, k))));
                assert(d.take(j as int).filter(is_promoted_in(s)).push(k).map_values(
                    affinity_batch(s),
                ) =~= d.take(j as int).filter(is_promoted_in(s)).map_values(
                    affinity_batch(s),
                ).push((key_name(k), with_key(s, k))));
            }
        }
        j = j + 1;
    }
    proof {
        assert(d.take(j as int) =~= d);
    }
    out
}

/// The items that no affinity batch takes, in their order.
pub fn remainder_items(items: &Vec<Item>) -> (r: Vec<Item>)
    ensures
        r@ == remainder(items@),
{
    let ghost s = items@;
    let mut r: Vec<Item> = Vec::new();
    let mut i: usize = 0;
    proof {
        assert(s.take(0) =~= Seq::<Item>::empty());
        reveal(Seq::filter);
    }
    while i < items.len()
        invariant
            s == items@,
            0 <= i <= items.len(),
            r@ == s.take(i as int).filter(left_over_in(s)),
        decreases items.len() - i,
    {
        proof {
            assert(s.take(i + 1) =~= s.take(i as int).push(s[i as int]));
            s.take(i as int).lemma_filter_push(s[i as int], left_over_in(s));
        }
        let count: usize = key_count(items, i);
        if !((items[i].author.is_some() || items[i].site_name.is_some()) && count > 1) {
            r.push(items[i].duplicate());
        }
        i = i + 1;
    }
    proof {
        assert(s.take(i as int) =~= s);
    }
    r
}

/// Splits `items` into batches: first the affinity batches, in the order in
/// which their author and site first occur, then the remaining items cut
/// into chunks of about `threshold` words, each named by a date.
pub fn group(items: &Vec<Item>, threshold: u32) -> (r: Vec<Batch>)
    requires
        all_wf(items@),
    ensures
        r@.map_values(|b: Batch| batch_view(b)) == grouped(items@, threshold as int),
{
    let mut out = affinity_groups(items);
    let rem = remainder_items(items);
    proof {
        lemma_filter_wf(items@, left_over_in(items@));
    }
    let mut dated = chunk_batches(&rem, threshold);
    let ghost a = out@;
    let ghost b = dated@;
    out.append(&mut dated);
    proof {
        assert(out@.map_values(|b: Batch| batch_view(b)) =~= a.map_values(|b: Batch| batch_view(b))
            + b.map_values(|b: Batch| batch_view(b)));
    }
    out
}


/// The items of each batch.
pub open spec fn batch_items(b: Seq<(Seq<char>, Seq<Item>)>) -> Seq<Seq<Item>> {
    b.map_values(|x: (Seq<char>, Seq<Item>)| x.1)
}

/// Items whose key is one of `ks`.
pub open spec fn key_among(ks: Seq<Key>) -> spec_fn(Item) -> bool {
    |i: Item| ks.contains(item_key(i))
}

proof fn lemma_chunks_flatten(s: Seq<Item>, t: int)
    ensures
        chunks(s, t).flatten_alt() == s,
    decreases s.len(),
{
    lemma_chunk_state_nonempty(s, t);
    if s.len() == 0 {
        let e = seq![Seq::<Item>::empty()];
        assert(e.drop_last() =~= Seq::<Seq<Item>>::empty());
        assert(e.flatten_alt() == e.drop_last().flatten_alt() + e.last());
        assert(e.flatten_alt() =~= s);
    } else {
        let (w, cs) = chunk_state(s.drop_last(), t);
        lemma_chunks_flatten(s.drop_last(), t);
        lemma_chunk_state_nonempty(s.drop_last(), t);
        let it = s.last();
        if w < t {
            let cs2 = cs.update(cs.len() - 1, cs.last().push(it));
            assert(cs2.drop_last() =~= cs.drop_last());
            assert(cs2.last() == cs.last().push(it));
            assert(cs.flatten_alt() == cs.drop_last().flatten_alt() + cs.last());
            assert(cs2.flatten_alt() == cs2.drop_last().flatten_alt() + cs2.last());
            assert(s.drop_last().push(it) =~= s);
            assert(cs2.flatten_alt() =~= s);
        } else {
            assert(cs.push(seq![it]).drop_last() =~= cs);
            assert(s.drop_last() + seq![it] =~= s);
            assert(cs.push(seq![it]).flatten_alt() =~= s);
        }
    }
}

proof fn lemma_flatten_skip_empty(cs: Seq<Seq<Item>>)
    ensures
        cs.filter(non_empty()).flatten_alt() == cs.flatten_alt(),
    decreases cs.len(),
{
    reveal(Seq::filter);
    if cs.len() > 0 {
        lemma_flatten_skip_empty(cs.drop_last());
        let f = cs.drop_last().filter(non_empty());
        if cs.last().len() > 0 {
            assert(f.push(cs.last()).drop_last() =~= f);
        } else {
            assert(cs.drop_last().flatten_alt() + cs.last() =~= cs.drop_last().flatten_alt());
        }
    }
}

proof fn lemma_filter_split(s: Seq<Item>, p: spec_fn(Item) -> bool, q: spec_fn(Item) -> bool, r: spec_fn(Item) -> bool)
    requires
        forall|x: Item| #[trigger] r(x) == (p(x) || q(x)),
        forall|x: Item| !(#[trigger] p(x) && q(x)),
    ensures
        s.filter(r).to_multiset() == s.filter(p).to_multiset().add(s.filter(q).to_multiset()),
    decreases s.len(),
{
    reveal(Seq::filter);
    broadcast use vstd::seq_lib::to_multiset_build;
    broadcast use vstd::seq_lib::group_to_multiset_ensures;
    broadcast use vstd::multiset::group_multiset_axioms;
    if s.len() == 0 {
        assert(s.filter(r).to_multiset() =~= Multiset::empty());
        assert(s.filter(p).to_multiset() =~= Multiset::empty());
        assert(s.filter(q).to_multiset() =~= Multiset::empty());
        assert(s.filter(r).to_multiset() =~= s.filter(p).to_multiset().add(s.filter(q).to_multiset()));
    } else {
        lemma_filter_split(s.drop_last(), p, q, r);
        assert(s.filter(r).to_multiset() =~= s.filter(p).to_multiset().add(s.filter(q).to_multiset()));
    }
}

proof fn lemma_filter_none(s: Seq<Item>, r: spec_fn(Item) -> bool)
    requires
        forall|x: Item| !#[trigger] r(x),
    ensures
        s.filter(r) == Seq::<Item>::empty(),
    decreases s.len(),
{
    reveal(Seq::filter);
    if s.len() > 0 {
        lemma_filter_none(s.drop_last(), r);
    }
}

proof fn lemma_filter_all(s: Seq<Item>, r: spec_fn(Item) -> bool)
    requires
        forall|x: Item| #[trigger] r(x),
    ensures
        s.filter(r) == s,
    decreases s.len(),
{
    reveal(Seq::filter);
    if s.len() > 0 {
        lemma_filter_all(s.drop_last(), r);
        assert(s.drop_last().push(s.last()) =~= s);
    }
}

proof fn lemma_filter_congruent(s: Seq<Item>, p: spec_fn(Item) -> bool, q: spec_fn(Item) -> bool)
    requires
        forall|i: int| 0 <= i < s.len() ==> p(#[trigger] s[i]) == q(s[i]),
    ensures
        s.filter(p) == s.filter(q),
    decreases s.len(),
{
    reveal(Seq::filter);
    if s.len() > 0 {
        assert(p(s[s.len() - 1]) == q(s[s.len() - 1]));
        assert forall|i: int| 0 <= i < s.drop_last().len() implies p(#[trigger] s.drop_last()[i])
            == q(s.drop_last()[i]) by {
            assert(s.drop_last()[i] == s[i]);
        }
        lemma_filter_congruent(s.drop_last(), p, q);
    }
}

proof fn lemma_distinct_keys(s: Seq<Item>)
    ensures
        distinct_keys(s).no_duplicates(),
        forall|i: int| 0 <= i < s.len() ==> distinct_keys(s).contains(#[trigger] item_key(s[i])),
        forall|k: Key| distinct_keys(s).contains(k) ==> exists|i: int| 0 <= i < s.len() && item_key(#[trigger] s[i]) == k,
    decreases s.len(),
{
    if s.len() > 0 {
        let t = s.drop_last();
        lemma_distinct_keys(t);
        let d = distinct_keys(t);
        let k = item_key(s.last());
        assert forall|i: int| 0 <= i < s.len() implies distinct_keys(s).contains(#[trigger] item_key(s[i])) by {
            if i < s.len() - 1 {
                assert(t[i] == s[i]);
                assert(d.contains(item_key(t[i])));
                if !d.contains(k) {
                    let j = choose|j: int| 0 <= j < d.len() && #[trigger] d[j] == item_key(s[i]);
                    assert(d.push(k)[j] == item_key(s[i]));
                }
            } else if !d.contains(k) {
                assert(d.push(k)[d.len() as int] == k);
            }
        }
        assert forall|kk: Key| distinct_keys(s).contains(kk) implies exists|i: int| 0 <= i < s.len() && item_key(#[trigger] s[i]) == kk by {
            if d.contains(kk) {
                let i = choose|i: int| 0 <= i < t.len() && item_key(#[trigger] t[i]) == kk;
                assert(s[i] == t[i]);
            } else {
                let j = choose|j: int| 0 <= j < d.push(k).len() && #[trigger] d.push(k)[j] == kk;
                if j < d.len() {
                    assert(d[j] == kk);
                }
                assert(item_key(s[s.len() - 1]) == kk);
            }
        }
    }
}

proof fn lemma_filter_no_duplicates(ks: Seq<Key>, p: spec_fn(Key) -> bool)
    requires
        ks.no_duplicates(),
    ensures
        ks.filter(p).no_duplicates(),
        forall|k: Key| #[trigger] ks.filter(p).contains(k) <==> ks.contains(k) && p(k),
    decreases ks.len(),
{
    reveal(Seq::filter);
    if ks.len() > 0 {
        let t = ks.drop_last();
        let x = ks.last();
        assert(t.no_duplicates());
        lemma_filter_no_duplicates(t, p);
        assert(!t.contains(x)) by {
            if t.contains(x) {
                let j = choose|j: int| 0 <= j < t.len() && #[trigger] t[j] == x;
                assert(ks[j] == ks[ks.len() - 1]);
            }
        }
        assert forall|k: Key| ks.contains(k) <==> t.contains(k) || k == x by {
            if ks.contains(k) {
                let j = choose|j: int| 0 <= j < ks.len() && #[trigger] ks[j] == k;
                if j < t.len() {
                    assert(t[j] == k);
                }
            }
            if t.contains(k) {
                let j = choose|j: int| 0 <= j < t.len() && #[trigger] t[j] == k;
                assert(ks[j] == k);
            }
            if k == x {
                assert(ks[ks.len() - 1] == k);
            }
        }
        let f = t.filter(p);
        assert(!f.contains(x));
        if p(x) {
            assert(ks.filter(p) == f.push(x));
            assert forall|i: int, j: int| 0 <= i < j < f.push(x).len() implies f.push(x)[i] != f.push(x)[j] by {
                if j == f.len() {
                    assert(f.contains(f[i]));
                }
            }
            assert forall|k: Key| #[trigger] ks.filter(p).contains(k) <==> ks.contains(k) && p(k) by {
                if f.push(x).contains(k) {
                    let j = choose|j: int| 0 <= j < f.push(x).len() && #[trigger] f.push(x)[j] == k;
                    if j < f.len() {
                        assert(f[j] == k);
                    }
                }
                if f.contains(k) {
                    let j = choose|j: int| 0 <= j < f.len() && #[trigger] f[j] == k;
                    assert(f.push(x)[j] == k);
                }
                if k == x {
                    assert(f.push(x)[f.len() as int] == k);
                }
            }
        } else {
            assert(ks.filter(p) == f);
        }
    }
}

proof fn lemma_keys_flatten(s: Seq<Item>, ks: Seq<Key>)
    requires
        ks.no_duplicates(),
    ensures
        ks.map_values(|k: Key| with_key(s, k)).flatten_alt().to_multiset() == s.filter(
            key_among(ks),
        ).to_multiset(),
    decreases ks.len(),
{
    broadcast use vstd::multiset::group_multiset_axioms;
    broadcast use vstd::seq_lib::group_to_multiset_ensures;
    if ks.len() == 0 {
        lemma_filter_none(s, key_among(ks));
        assert(ks.map_values(|k: Key| with_key(s, k)) =~= Seq::<Seq<Item>>::empty());
        assert(Seq::<Seq<Item>>::empty().flatten_alt() =~= Seq::<Item>::empty());
    } else {
        let t = ks.drop_last();
        let k = ks.last();
        assert(t.no_duplicates());
        lemma_keys_flatten(s, t);
        assert(!t.contains(k)) by {
            if t.contains(k) {
                let j = choose|j: int| 0 <= j < t.len() && #[trigger] t[j] == k;
                assert(ks[j] == ks[ks.len() - 1]);
            }
        }
        assert forall|x: Item| #[trigger] key_among(ks)(x) == (key_among(t)(x) || has_key(k)(x)) by {
            let kx = item_key(x);
            if ks.contains(kx) {
                let j = choose|j: int| 0 <= j < ks.len() && #[trigger] ks[j] == kx;
                if j < t.len() {
                    assert(t[j] == kx);
                }
            }
            if t.contains(kx) {
                let j = choose|j: int| 0 <= j < t.len() && #[trigger] t[j] == kx;
                assert(ks[j] == kx);
            }
            if kx == k {
                assert(ks[ks.len() - 1] == kx);
            }
        }
        lemma_filter_split(s, key_among(t), has_key(k), key_among(ks));
        let m = ks.map_values(|k: Key| with_key(s, k));
        assert(m.drop_last() =~= t.map_values(|k: Key| with_key(s, k)));
        vstd::seq_lib::lemma_multiset_commutative(m.drop_last().flatten_alt(), m.last());
    }
}

/// Grouping neither loses nor repeats an item: the items of all batches,
/// taken together, are exactly the input items, each as often as it occurs
/// there.
pub proof fn grouping_is_exact(s: Seq<Item>, t: int)
    ensures
        batch_items(grouped(s, t)).flatten().to_multiset() == s.to_multiset(),
{
    broadcast use vstd::multiset::group_multiset_axioms;
    let a = affinity_batches(s);
    let rem = remainder(s);
    let d = date_batches(rem, t);
    // date batches hold the remainder, in order
    lemma_chunks_flatten(rem, t);
    lemma_flatten_skip_empty(chunks(rem, t));
    assert(batch_items(d) =~= chunks(rem, t).filter(non_empty()));
    // affinity batches hold the items of promoted keys
    let pk = distinct_keys(s).filter(is_promoted_in(s));
    lemma_distinct_keys(s);
    lemma_filter_no_duplicates(distinct_keys(s), is_promoted_in(s));
    assert(batch_items(a) =~= pk.map_values(|k: Key| with_key(s, k)));
    lemma_keys_flatten(s, pk);
    let taken = |x: Item| promoted(s, item_key(x));
    lemma_filter_congruent(s, key_among(pk), taken);
    // both together make up the input
    assert(batch_items(grouped(s, t)) =~= batch_items(a) + batch_items(d));
    vstd::seq_lib::lemma_flatten_concat(batch_items(a), batch_items(d));
    batch_items(a).lemma_flatten_and_flatten_alt_are_equivalent();
    batch_items(d).lemma_flatten_and_flatten_alt_are_equivalent();
    vstd::seq_lib::lemma_multiset_commutative(batch_items(a).flatten(), batch_items(d).flatten());
    lemma_filter_split(s, taken, left_over_in(s), |x: Item| true);
    lemma_filter_all(s, |x: Item| true);
}


/// The partition of the key of `s[i]` (its author and site) becomes an
/// affinity batch, named after the key and holding all items with that key,
/// exactly when the key has an author or a site and more than one item has it.
pub proof fn promotion_rule(s: Seq<Item>, i: int)
    requires
        0 <= i < s.len(),
    ensures
        affinity_batches(s).contains((key_name(item_key(s[i])), with_key(s, item_key(s[i]))))
            <==> promoted(s, item_key(s[i])),
{
    let k = item_key(s[i]);
    let d = distinct_keys(s);
    let pk = d.filter(is_promoted_in(s));
    let a = affinity_batches(s);
    lemma_distinct_keys(s);
    lemma_filter_no_duplicates(d, is_promoted_in(s));
    s.lemma_filter_contains(has_key(k), i);
    assert(with_key(s, k).len() > 0);
    s.lemma_filter_pred(has_key(k), 0);
    if promoted(s, k) {
        assert(pk.contains(k));
        let j = choose|j: int| 0 <= j < pk.len() && #[trigger] pk[j] == k;
        assert(a[j] == (key_name(k), with_key(s, k)));
    }
    if a.contains((key_name(k), with_key(s, k))) {
        let j = choose|j: int| 0 <= j < a.len() && #[trigger] a[j] == (key_name(k), with_key(s, k));
        let kj = pk[j];
        assert(pk.contains(kj));
        assert(with_key(s, kj) == with_key(s, k));
        s.lemma_filter_pred(has_key(kj), 0);
        assert(kj == k);
    }
}

} // verus!
