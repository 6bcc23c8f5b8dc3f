use vstd::prelude::*;
use crate::grouping::Batch;
use crate::item::Item;

verus! {

/// The decimal digit `d` (0 to 9).
pub open spec fn digit_char(d: int) -> char {
    seq!['0', '1', '2', '3', '4', '5', '6', '7', '8', '9'][d]
}

/// The decimal text of `n`, without leading zeros.
pub open spec fn decimal(n: nat) -> Seq<char>
    decreases n,
{
    if n < 10 {
        seq![digit_char(n as int)]
    } else {
        decimal(n / 10).push(digit_char((n % 10) as int))
    }
}

fn digit_str(d: u64) -> (r: &'static str)
    requires
        d < 10,
    ensures
        r@ == seq![digit_char(d as int)],
{
    proof {
        reveal_strlit("0");
        reveal_strlit("1");
        reveal_strlit("2");
        reveal_strlit("3");
        reveal_strlit("4");
        reveal_strlit("5");
        reveal_strlit("6");
        reveal_strlit("7");
        reveal_strlit("8");
        reveal_strlit("9");
    }
    let r = match d {
        0 => "0",
        1 => "1",
        2 => "2",
        3 => "3",
        4 => "4",
        5 => "5",
        6 => "6",
        7 => "7",
        8 => "8",
        _ => "9",
    };
    assert(r@ =~= seq![digit_char(d as int)]);
    r
}

/// The decimal text of `n`.
pub fn decimal_text(n: u64) -> (r: String)
    ensures
        r@ == decimal(n as nat),
    decreases n,
{
    if n < 10 {
        String::from_str(digit_str(n))
    } else {
        let mut r = decimal_text(n / 10);
        r.append(digit_str(n % 10));
        r
    }
}

/// The file name and the title of one rendered output.
#[derive(Debug)]
pub struct OutputIdentity {
    pub filename: String,
    pub title: String,
}

/// The file name of attempt `n` (from 1) for a batch named `name`.
pub open spec fn candidate_filename(name: Seq<char>, n: nat) -> Seq<char> {
    if n <= 1 {
        "readwise-"@ + name + ".epub"@
    } else {
        "readwise-"@ + name + "-"@ + decimal(n) + ".epub"@
    }
}

/// The title of attempt `n` (from 1) for a batch named `name`.
pub open spec fn candidate_title(name: Seq<char>, n: nat) -> Seq<char> {
    if n <= 1 {
        name
    } else {
        name + " Pt. "@ + decimal(n)
    }
}

/// The identity of attempt `n` (from 1) for a batch named `name`.
pub fn candidate(name: &String, n: u64) -> (r: OutputIdentity)
    ensures
        r.filename@ == candidate_filename(name@, n as nat),
        r.title@ == candidate_title(name@, n as nat),
{
    let mut filename = String::from_str("readwise-");
    filename.append(name.as_str());
    if n <= 1 {
        filename.append(".epub");
        OutputIdentity { filename, title: name.clone() }
    } else {
        let digits = decimal_text(n);
        filename.append("-");
        filename.append(digits.as_str());
        filename.append(".epub");
        let mut title = name.clone();
        title.append(" Pt. ");
        title.append(digits.as_str());
        OutputIdentity { filename, title }
    }
}

/// Whether `names` holds the text `f`.
pub open spec fn names_hold(names: Seq<String>, f: Seq<char>) -> bool {
    exists|i: int| 0 <= i < names.len() && #[trigger] names[i]@ == f
}

/// Whether `names` holds `f`.
pub fn holds_name(names: &Vec<String>, f: &String) -> (r: bool)
    ensures
        r == names_hold(names@, f@),
{
    let mut i: usize = 0;
    while i < names.len()
        invariant
            0 <= i <= names.len(),
            forall|j: int| 0 <= j < i ==> #[trigger] names@[j]@ != f@,
        decreases names.len() - i,
    {
        if names[i] == *f {
            return true;
        }
        i = i + 1;
    }
    false
}

/// Attempt `n` is the first whose file name `taken` does not hold.
pub open spec fn first_free_attempt(name: Seq<char>, taken: Seq<String>, n: nat) -> bool {
    &&& n >= 1
    &&& !names_hold(taken, candidate_filename(name, n))
    &&& forall|m: nat| 1 <= m < n ==> names_hold(taken, #[trigger] candidate_filename(name, m))
}

proof fn lemma_digit_injective(a: int, b: int)
    requires
        0 <= a < 10,
        0 <= b < 10,
        digit_char(a) == digit_char(b),
    ensures
        a == b,
{
}

proof fn lemma_decimal_injective(n: nat, m: nat)
    requires
        decimal(n) == decimal(m),
    ensures
        n == m,
    decreases n,
{
    if n < 10 && m < 10 {
        assert(decimal(n)[0] == digit_char(n as int));
        assert(decimal(m)[0] == digit_char(m as int));
        lemma_digit_injective(n as int, m as int);
    } else if n < 10 {
        assert(decimal(m).len() == decimal(m / 10).len() + 1);
        assert(decimal(m / 10).len() >= 1);
    } else if m < 10 {
        assert(decimal(n).len() == decimal(n / 10).len() + 1);
        assert(decimal(n / 10).len() >= 1);
    } else {
        assert(decimal(n).last() == digit_char((n % 10) as int));
        assert(decimal(m).last() == digit_char((m % 10) as int));
        lemma_digit_injective((n % 10) as int, (m % 10) as int);
        assert(decimal(n).drop_last() =~= decimal(n / 10));
        assert(decimal(m).drop_last() =~= decimal(m / 10));
        lemma_decimal_injective(n / 10, m / 10);
    }
}

proof fn lemma_candidate_injective(name: Seq<char>, n: nat, m: nat)
    requires
        n >= 1,
        m >= 1,
        candidate_filename(name, n) == candidate_filename(name, m),
    ensures
        n == m,
{
    reveal_strlit("readwise-");
    reveal_strlit("-");
    reveal_strlit(".epub");
    let k: int = ("readwise-"@.len() + name.len() + 1) as int;
    assert(candidate_filename(name, n).len() == if n >= 2 {
        k + decimal(n).len() + ".epub"@.len()
    } else {
        k - 1 + ".epub"@.len()
    });
    assert(candidate_filename(name, m).len() == if m >= 2 {
        k + decimal(m).len() + ".epub"@.len()
    } else {
        k - 1 + ".epub"@.len()
    });
    if n >= 2 {
        assert(decimal(n).len() >= 1);
    }
    if m >= 2 {
        assert(decimal(m).len() >= 1);
    }
    if n >= 2 && m >= 2 {
        let f = candidate_filename(name, n);
        assert(decimal(n).len() == decimal(m).len());
        assert(f.subrange(k, k + decimal(n).len() as int) =~= decimal(n));
        assert(candidate_filename(name, m).subrange(k, k + decimal(m).len() as int) =~= decimal(m));
        lemma_decimal_injective(n, m);
    }
}

/// Among the first `taken.len() + 1` attempts one is free.
proof fn lemma_some_attempt_free(name: Seq<char>, taken: Seq<String>)
    ensures
        exists|n: nat| 1 <= n <= taken.len() + 1 && !names_hold(taken, #[trigger] candidate_filename(name, n)),
{
    broadcast use vstd::set::group_set_axioms;
    broadcast use vstd::seq_lib::seq_to_set_is_finite;
    let l = taken.len() as int;
    let t = texts(taken);
    let x = vstd::set_lib::set_int_range(1, l + 2);
    let f = |n: int| candidate_filename(name, n as nat);
    let y = x.map(f);
    if forall|n: nat| 1 <= n <= taken.len() + 1 ==> names_hold(taken, #[trigger] candidate_filename(name, n)) {
        vstd::set_lib::lemma_int_range(1, l + 2);
        assert(vstd::relations::injective_on(f, x)) by {
            assert forall|a: int, b: int| x.contains(a) && x.contains(b) && #[trigger] f(a) == #[trigger] f(b) implies a == b by {
                lemma_candidate_injective(name, a as nat, b as nat);
            }
        }
        vstd::set_lib::lemma_map_size(x, y, f);
        t.lemma_cardinality_of_set();
        assert(y.subset_of(t.to_set())) by {
            assert forall|c: Seq<char>| y.contains(c) implies t.to_set().contains(c) by {
                let a = choose|a: int| x.contains(a) && f(a) == c;
                assert(names_hold(taken, candidate_filename(name, a as nat)));
                let i = choose|i: int| 0 <= i < taken.len() && #[trigger] taken[i]@ == candidate_filename(name, a as nat);
                assert(t[i] == c);
                assert(t.contains(c));
            }
        }
        vstd::set_lib::lemma_len_subset(y, t.to_set());
        assert(false);
    }
}

/// The identity of a batch named `name`, given the file names already in
/// use: the first of `readwise-{name}.epub`, `readwise-{name}-2.epub`, ...
/// (titled `name`, `{name} Pt. 2`, ...) whose file name is free. One of the
/// first `taken.len() + 1` attempts always is.
pub fn output_identity(name: &String, taken: &Vec<String>) -> (r: OutputIdentity)
    requires
        taken.len() + 2 <= u64::MAX,
    ensures
        exists|n: nat|
            n <= taken.len() + 1 && #[trigger] first_free_attempt(name@, taken@, n)
                && r.filename@ == candidate_filename(name@, n) && r.title@ == candidate_title(
                name@,
                n,
            ),
{
    let limit: u64 = taken.len() as u64 + 1;
    let mut n: u64 = 1;
    while n <= limit
        invariant
            limit == taken.len() + 1,
            taken.len() + 2 <= u64::MAX,
            1 <= n <= limit + 1,
            forall|m: nat| 1 <= m < n ==> names_hold(taken@, #[trigger] candidate_filename(name@, m)),
        decreases limit + 1 - n,
    {
        let id = candidate(name, n);
        if !holds_name(taken, &id.filename) {
            assert(first_free_attempt(name@, taken@, n as nat));
            return id;
        }
        n = n + 1;
    }
    proof {
        lemma_some_attempt_free(name@, taken@);
        let m = choose|m: nat| 1 <= m <= taken.len() + 1 && !names_hold(taken@, #[trigger] candidate_filename(name@, m));
        assert(m < n);
    }
    candidate(name, limit)
}

/// The texts of a sequence of strings.
pub open spec fn texts(s: Seq<String>) -> Seq<Seq<char>> {
    s.map_values(|x: String| x@)
}

/// The source URLs of a sequence of items.
pub open spec fn source_urls(s: Seq<Item>) -> Seq<Seq<char>> {
    s.map_values(|i: Item| i.source_url@)
}

/// The arguments of the rendering tool for one batch: the output format,
/// the file name, the title, the author label and the URLs of the items.
pub open spec fn render_args_spec(filename: Seq<char>, title: Seq<char>, urls: Seq<Seq<char>>) -> Seq<
    Seq<char>,
> {
    seq!["epub"@, "--output"@, filename, "--title"@, title, "--author"@, "readwise"@] + urls
}

/// The arguments that render `batch` under `id`.
pub fn render_args(id: &OutputIdentity, batch: &Batch) -> (r: Vec<String>)
    ensures
        texts(r@) == render_args_spec(id.filename@, id.title@, source_urls(batch.items@)),
{
    let mut r: Vec<String> = Vec::new();
    r.push(String::from_str("epub"));
    r.push(String::from_str("--output"));
    r.push(id.filename.clone());
    r.push(String::from_str("--title"));
    r.push(id.title.clone());
    r.push(String::from_str("--author"));
    r.push(String::from_str("readwise"));
    let ghost head = texts(r@);
    assert(head =~= seq!["epub"@, "--output"@, id.filename@, "--title"@, id.title@, "--author"@, "readwise"@]);
    let mut i: usize = 0;
    assert(source_urls(batch.items@.take(0)) =~= Seq::<Seq<char>>::empty());
    assert(texts(r@) =~= head + source_urls(batch.items@.take(0)));
    while i < batch.items.len()
        invariant
            0 <= i <= batch.items.len(),
            texts(r@) == head + source_urls(batch.items@.take(i as int)),
        decreases batch.items.len() - i,
    {
        let ghost prev = r@;
        r.push(batch.items[i].source_url.clone());
        assert(source_urls(batch.items@.take(i + 1)) =~= source_urls(batch.items@.take(i as int)).push(
            batch.items@[i as int].source_url@));
        assert(texts(r@) =~= texts(prev).push(batch.items@[i as int].source_url@));
        assert(texts(r@) =~= head + source_urls(batch.items@.take(i + 1)));
        i = i + 1;
    }
    assert(batch.items@.take(i as int) =~= batch.items@);
    r
}

} // verus!
