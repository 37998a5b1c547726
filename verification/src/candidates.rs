//! The semester generator: which selections of the remaining courses are
//! tried for the next term.
//!
//! Trying every subset is avoided where the credit bounds rule a size out.
//! With the credits sorted, the smallest courses tell how many courses a
//! semester can hold before it reaches the maximum, and the largest courses
//! tell how many it needs before it reaches the minimum. Every selection of
//! a size between the two is a candidate, and so is the whole remaining set
//! where its credits do not exceed the maximum. The two sizes only prune:
//! every candidate is still validated.

use crate::class::{Class, ClassIdx, ClassList};
use crate::config::Config;
use crate::semester::{all_held, credit_sum, lemma_credit_sum_grows};
use combinations::Combinations;
use vstd::prelude::*;
use vstd::relations::{sorted_by, total_ordering};
use vstd::seq_lib::{group_to_multiset_ensures, lemma_sorted_unique};

verus! {

/// The order by which credits are sorted.
pub open spec fn at_most() -> spec_fn(u8, u8) -> bool {
    |a: u8, b: u8| a <= b
}

/// The credits in ascending order.
pub open spec fn ascending(credits: Seq<u8>) -> Seq<u8> {
    credits.sort_by(at_most())
}

/// The credits of the courses that `handles` refer to, in the same order.
pub open spec fn credits_of(handles: Seq<ClassIdx>, classes: Seq<Class>) -> Seq<u8> {
    Seq::new(handles.len(), |i: int| classes[handles[i].0 as int].spec_credits())
}

/// How many of `weights` are counted, from position `from` on and with
/// `sum` counted before, until the sum reaches `target`: the one that reaches
/// it included, and all of them where it is never reached. The first one is
/// counted whatever the target.
pub open spec fn reach(weights: Seq<u8>, target: int, from: int, sum: int) -> int
    decreases weights.len() - from,
{
    if from < 0 || from >= weights.len() {
        from
    } else if sum + weights[from] >= target {
        from + 1
    } else {
        reach(weights, target, from + 1, sum + weights[from])
    }
}

/// The largest size of a proper selection that is tried: as many of the
/// smallest courses as it takes to reach `max_credits`, and less than all.
pub open spec fn max_count(credits: Seq<u8>, max_credits: u8) -> int {
    let reached = reach(ascending(credits), max_credits as int, 0, 0);
    if credits.len() == 0 {
        0
    } else if reached < credits.len() {
        reached
    } else {
        credits.len() - 1
    }
}

/// The smallest size of a selection that is tried: as many of the largest
/// courses as it takes to reach `min_credits`.
pub open spec fn min_count(credits: Seq<u8>, min_credits: u8) -> int {
    reach(ascending(credits).reverse(), min_credits as int, 0, 0)
}

/// Sorts credits in ascending order.
fn sort_credits(credits: &Vec<u8>) -> (sorted: Vec<u8>)
    ensures
        sorted@ == ascending(credits@),
{
    let mut sorted: Vec<u8> = Vec::new();
    let mut i: usize = 0;
    assert(sorted@ =~= credits@.take(0));
    while i < credits.len()
        invariant
            i <= credits@.len(),
            sorted@.len() == i,
            sorted_by(sorted@, at_most()),
            sorted@.to_multiset() == credits@.take(i as int).to_multiset(),
        decreases credits@.len() - i,
    {
        let x = credits[i];
        let mut p: usize = 0;
        while p < sorted.len() && sorted[p] <= x
            invariant
                p <= sorted@.len(),
                forall|k: int| 0 <= k < p ==> sorted@[k] <= x,
            decreases sorted@.len() - p,
        {
            p += 1;
        }
        let ghost before = sorted@;
        sorted.insert(p, x);
        proof {
            broadcast use group_to_multiset_ensures;

            assert(credits@.take(i + 1) =~= credits@.take(i as int).push(x));
            assert forall|a: int, b: int| 0 <= a < b < sorted@.len() implies (at_most())(
                sorted@[a],
                sorted@[b],
            ) by {
                // the new credit stands at `p`: what stood before `p` stands
                // where it stood, and what stood from `p` on one place later
                if b < p {
                    assert((at_most())(before[a], before[b]));
                } else if b > p && a < p {
                    assert((at_most())(before[a], before[b - 1]));
                } else if b > p && a == p {
                    assert((at_most())(before[p as int], before[b - 1]) || b - 1 == p);
                } else if b > p {
                    assert((at_most())(before[a - 1], before[b - 1]));
                }
            }
        }
        i += 1;
    }
    proof {
        assert(credits@.take(i as int) =~= credits@);
        assert(total_ordering(at_most()));
        credits@.lemma_sort_by_ensures(at_most());
        lemma_sorted_unique(sorted@, ascending(credits@), at_most());
    }
    sorted
}

/// The credits of the courses that `handles` refer to.
fn collect_credits(handles: &Vec<ClassIdx>, classlist: &ClassList) -> (credits: Vec<u8>)
    requires
        all_held(handles@, classlist),
    ensures
        credits@ == credits_of(handles@, classlist@),
{
    let mut credits: Vec<u8> = Vec::new();
    let mut i: usize = 0;
    while i < handles.len()
        invariant
            i <= handles@.len(),
            all_held(handles@, classlist),
            credits@.len() == i,
            forall|k: int|
                0 <= k < i ==> credits@[k] == classlist@[handles@[k].0 as int].spec_credits(),
        decreases handles@.len() - i,
    {
        credits.push(classlist.get(handles[i]).credits());
        i += 1;
    }
    credits
}

/// Counts the smallest credits until they reach `target`.
fn count_ascending(sorted: &Vec<u8>, target: u8) -> (count: usize)
    ensures
        count == reach(sorted@, target as int, 0, 0),
        count <= sorted@.len(),
        sorted@.len() > 0 ==> count >= 1,
{
    let mut sum: u16 = 0;
    let mut i: usize = 0;
    while i < sorted.len()
        invariant
            i <= sorted@.len(),
            sum < target || i == 0,
            sum <= 255,
            reach(sorted@, target as int, 0, 0) == reach(
                sorted@,
                target as int,
                i as int,
                sum as int,
            ),
        decreases sorted@.len() - i,
    {
        sum = sum + sorted[i] as u16;
        i += 1;
        if sum >= target as u16 {
            return i;
        }
    }
    i
}

/// Counts the largest credits until they reach `target`.
fn count_descending(sorted: &Vec<u8>, target: u8) -> (count: usize)
    ensures
        count == reach(sorted@.reverse(), target as int, 0, 0),
        count <= sorted@.len(),
        sorted@.len() > 0 ==> count >= 1,
{
    let n: usize = sorted.len();
    let ghost downward = sorted@.reverse();
    let mut sum: u16 = 0;
    let mut i: usize = 0;
    while i < n
        invariant
            n == sorted@.len(),
            downward == sorted@.reverse(),
            i <= n,
            sum < target || i == 0,
            sum <= 255,
            reach(downward, target as int, 0, 0) == reach(
                downward,
                target as int,
                i as int,
                sum as int,
            ),
        decreases n - i,
    {
        sum = sum + sorted[n - 1 - i] as u16;
        i += 1;
        if sum >= target as u16 {
            return i;
        }
    }
    i
}

/// The selections of `len` of the numbers `items` that
/// `combinations::Combinations` yields, in the order in which it yields
/// them.
pub uninterp spec fn combinations_of(items: Seq<usize>, len: nat) -> Seq<Seq<usize>>;

/// Every selection has `len` members and draws each of them from `items`.
pub open spec fn drawn_from(picked: Seq<Seq<usize>>, items: Seq<usize>, len: nat) -> bool {
    forall|i: int|
        0 <= i < picked.len() ==> (#[trigger] picked[i]).len() == len && forall|j: int|
            0 <= j < picked[i].len() ==> items.contains(#[trigger] picked[i][j])
}

/// `chosen` is a selection of `len` different members of `items`.
pub open spec fn selects<T>(chosen: Seq<T>, items: Seq<T>, len: nat) -> bool {
    &&& chosen.len() == len
    &&& chosen.no_duplicates()
    &&& forall|k: int| 0 <= k < chosen.len() ==> items.contains(#[trigger] chosen[k])
}

/// The two lists have the same members, in whatever order.
pub open spec fn same_members<T>(a: Seq<T>, b: Seq<T>) -> bool {
    a.to_set() == b.to_set()
}

/// Every selection of `len` different members of `items` is listed, in some
/// order of its members.
pub open spec fn lists_each<T>(picked: Seq<Seq<T>>, items: Seq<T>, len: nat) -> bool {
    forall|chosen: Seq<T>| #[trigger]
        selects(chosen, items, len) ==> exists|i: int|
            0 <= i < picked.len() && #[trigger] same_members(picked[i], chosen)
}

/// Calls `combinations::Combinations::new(items, len)` and collects what the
/// iterator yields. The constructor panics unless `1 <= len < items.len()`.
/// The result is a function of the arguments: the constructor sorts the
/// items and the iterator walks them in a fixed order. Each selection it
/// yields holds `len` clones of items. The crate promises all combinations:
/// where no item occurs twice, every selection of `len` of the items is
/// among them.
#[verifier::external_body]
fn combinations(items: Vec<usize>, len: usize) -> (picked: Vec<Vec<usize>>)
    requires
        1 <= len < items@.len(),
    ensures
        picked.deep_view() == combinations_of(items@, len as nat),
        drawn_from(picked.deep_view(), items@, len as nat),
        items@.no_duplicates() ==> lists_each(picked.deep_view(), items@, len as nat),
{
    Combinations::new(items, len).collect()
}

/// The positions that handles hold.
pub open spec fn positions(handles: Seq<ClassIdx>) -> Seq<usize> {
    Seq::new(handles.len(), |i: int| handles[i].0)
}

/// The handles at given positions.
pub open spec fn handles_at(positions: Seq<usize>) -> Seq<ClassIdx> {
    Seq::new(positions.len(), |i: int| ClassIdx(positions[i]))
}

/// The selections of `len` of the courses `handles`.
pub open spec fn choices(handles: Seq<ClassIdx>, len: nat) -> Seq<Seq<ClassIdx>> {
    let picked = combinations_of(positions(handles), len);
    Seq::new(picked.len(), |i: int| handles_at(picked[i]))
}

/// The selections of every size from `lo` to `hi`, smaller sizes first. Only
/// a size from 1 to one less than the number of courses has selections here;
/// the selection of all courses is a candidate of its own.
pub open spec fn choices_between(handles: Seq<ClassIdx>, lo: int, hi: int) -> Seq<Seq<ClassIdx>>
    decreases hi - lo + 1,
{
    if lo > hi {
        Seq::empty()
    } else if 1 <= lo < handles.len() {
        choices(handles, lo as nat) + choices_between(handles, lo + 1, hi)
    } else {
        choices_between(handles, lo + 1, hi)
    }
}

/// The candidates for the next semester: the selections of the sizes that
/// the credit bounds leave, then the whole of `handles` where its credits do
/// not exceed the maximum.
pub open spec fn candidates(handles: Seq<ClassIdx>, classes: Seq<Class>, config: &Config) -> Seq<
    Seq<ClassIdx>,
> {
    let credits = credits_of(handles, classes);
    let proper = choices_between(
        handles,
        min_count(credits, config.min_credits),
        max_count(credits, config.max_credits),
    );
    if credit_sum(handles, classes) <= config.max_credits {
        proper.push(handles)
    } else {
        proper
    }
}

/// The forms of a list of selections.
pub open spec fn selections(lists: Seq<Vec<ClassIdx>>) -> Seq<Seq<ClassIdx>> {
    Seq::new(lists.len(), |i: int| lists[i]@)
}

/// Every course of `courses` is one of `from`.
pub open spec fn drawn(courses: Seq<ClassIdx>, from: Seq<ClassIdx>) -> bool {
    forall|k: int| 0 <= k < courses.len() ==> from.contains(#[trigger] courses[k])
}

/// Every course of every selection is one of `from`.
pub open spec fn all_drawn(lists: Seq<Seq<ClassIdx>>, from: Seq<ClassIdx>) -> bool {
    forall|i: int| 0 <= i < lists.len() ==> drawn(#[trigger] lists[i], from)
}

/// Courses drawn from courses of the catalog are courses of the catalog.
pub proof fn lemma_drawn_held(courses: Seq<ClassIdx>, from: Seq<ClassIdx>, classes: &ClassList)
    requires
        drawn(courses, from),
        all_held(from, classes),
    ensures
        all_held(courses, classes),
{
    assert forall|k: int| 0 <= k < courses.len() implies classes.holds(#[trigger] courses[k]) by {
        assert(from.contains(courses[k]));
    }
}

/// Where the selections of positions list each selection, so do the
/// selections of courses.
proof fn lemma_choices_list_each(handles: Seq<ClassIdx>, len: nat)
    requires
        handles.no_duplicates(),
        positions(handles).no_duplicates() ==> lists_each(
            combinations_of(positions(handles), len),
            positions(handles),
            len,
        ),
    ensures
        lists_each(choices(handles, len), handles, len),
{
    let items = positions(handles);
    let named = combinations_of(items, len);
    assert(items.no_duplicates()) by {
        assert forall|a: int, b: int|
            0 <= a < items.len() && 0 <= b < items.len() && a != b implies items[a]
            != items[b] by {
            assert(handles[a] != handles[b]);
        }
    }
    assert forall|chosen: Seq<ClassIdx>| #[trigger] selects(chosen, handles, len) implies exists|
        i: int,
    |
        0 <= i < choices(handles, len).len() && #[trigger] same_members(
            choices(handles, len)[i],
            chosen,
        ) by {
        let wanted = positions(chosen);
        assert(selects(wanted, items, len)) by {
            assert forall|a: int, b: int|
                0 <= a < wanted.len() && 0 <= b < wanted.len() && a != b implies wanted[a]
                != wanted[b] by {
                assert(chosen[a] != chosen[b]);
            }
            assert forall|k: int| 0 <= k < wanted.len() implies items.contains(
                #[trigger] wanted[k],
            ) by {
                assert(handles.contains(chosen[k]));
                let w = choose|w: int| 0 <= w < handles.len() && handles[w] == chosen[k];
                assert(items[w] == wanted[k]);
            }
        }
        let i = choose|i: int| 0 <= i < named.len() && #[trigger] same_members(named[i], wanted);
        let listed = choices(handles, len)[i];
        assert(listed == handles_at(named[i]));
        assert forall|c: ClassIdx| listed.to_set().contains(c) == chosen.to_set().contains(c) by {
            if listed.contains(c) {
                let k = choose|k: int| 0 <= k < listed.len() && listed[k] == c;
                assert(named[i][k] == c.0);
                assert(named[i].to_set().contains(c.0));
                assert(wanted.to_set().contains(c.0));
                let m = choose|m: int| 0 <= m < wanted.len() && wanted[m] == c.0;
                assert(chosen[m] == c);
            }
            if chosen.contains(c) {
                let m = choose|m: int| 0 <= m < chosen.len() && chosen[m] == c;
                assert(wanted[m] == c.0);
                assert(wanted.to_set().contains(c.0));
                assert(named[i].to_set().contains(c.0));
                let k = choose|k: int| 0 <= k < named[i].len() && named[i][k] == c.0;
                assert(listed[k] == c);
            }
        }
        assert(listed.to_set() =~= chosen.to_set());
        assert(same_members(choices(handles, len)[i], chosen));
    }
}

/// Every selection of different members of `handles`, of a size from `lo` to
/// `hi` that is at least 1 and less than the number of handles, is listed.
pub open spec fn offers_each(
    listed: Seq<Seq<ClassIdx>>,
    handles: Seq<ClassIdx>,
    lo: int,
    hi: int,
) -> bool {
    forall|chosen: Seq<ClassIdx>| #[trigger]
        selects(chosen, handles, chosen.len()) && lo <= chosen.len() <= hi && 1 <= chosen.len()
            < handles.len() ==> exists|i: int|
            0 <= i < listed.len() && #[trigger] same_members(listed[i], chosen)
}

/// What a list offers, a longer list offers too; and a list that offers the
/// sizes up to `hi - 1` and ends with the selections of size `hi` offers the
/// sizes up to `hi`.
proof fn lemma_offers_more(
    before: Seq<Seq<ClassIdx>>,
    added: Seq<Seq<ClassIdx>>,
    handles: Seq<ClassIdx>,
    lo: int,
    hi: int,
)
    requires
        offers_each(before, handles, lo, hi - 1),
        1 <= hi < handles.len() ==> lists_each(added, handles, hi as nat),
    ensures
        offers_each(before + added, handles, lo, hi),
{
    let after = before + added;
    assert forall|chosen: Seq<ClassIdx>| #[trigger]
        selects(chosen, handles, chosen.len()) && lo <= chosen.len() <= hi && 1 <= chosen.len()
            < handles.len() implies exists|i: int|
        0 <= i < after.len() && #[trigger] same_members(after[i], chosen) by {
        if chosen.len() < hi {
            let i = choose|i: int|
                0 <= i < before.len() && #[trigger] same_members(before[i], chosen);
            assert(same_members(after[i], chosen));
        } else {
            let i = choose|i: int|
                0 <= i < added.len() && #[trigger] same_members(added[i], chosen);
            assert(same_members(after[before.len() + i], chosen));
        }
    }
}

/// What a list offers, a longer list offers too.
proof fn lemma_offers_longer(
    before: Seq<Seq<ClassIdx>>,
    added: Seq<Seq<ClassIdx>>,
    handles: Seq<ClassIdx>,
    lo: int,
    hi: int,
)
    requires
        offers_each(before, handles, lo, hi),
    ensures
        offers_each(before + added, handles, lo, hi),
{
    let after = before + added;
    assert forall|chosen: Seq<ClassIdx>| #[trigger]
        selects(chosen, handles, chosen.len()) && lo <= chosen.len() <= hi && 1 <= chosen.len()
            < handles.len() implies exists|i: int|
        0 <= i < after.len() && #[trigger] same_members(after[i], chosen) by {
        let i = choose|i: int| 0 <= i < before.len() && #[trigger] same_members(before[i], chosen);
        assert(same_members(after[i], chosen));
    }
}

/// Appends the selections of `len` of the courses `handles` to `out`.
fn push_choices(out: &mut Vec<Vec<ClassIdx>>, handles: &Vec<ClassIdx>, len: usize)
    requires
        1 <= len < handles@.len(),
        all_drawn(selections(old(out)@), handles@),
    ensures
        selections(final(out)@) == selections(old(out)@) + choices(handles@, len as nat),
        all_drawn(selections(final(out)@), handles@),
        handles@.no_duplicates() ==> lists_each(
            choices(handles@, len as nat),
            handles@,
            len as nat,
        ),
{
    let mut items: Vec<usize> = Vec::new();
    let mut i: usize = 0;
    while i < handles.len()
        invariant
            i <= handles@.len(),
            items@.len() == i,
            forall|k: int| 0 <= k < i ==> items@[k] == handles@[k].0,
        decreases handles@.len() - i,
    {
        items.push(handles[i].0);
        i += 1;
    }
    assert(items@ =~= positions(handles@));
    let picked = combinations(items, len);
    let ghost before = selections(out@);
    let ghost wanted = choices(handles@, len as nat);
    let ghost named = combinations_of(positions(handles@), len as nat);
    assert(picked.deep_view().len() == picked@.len());
    proof {
        if handles@.no_duplicates() {
            lemma_choices_list_each(handles@, len as nat);
        }
    }
    let mut p: usize = 0;
    while p < picked.len()
        invariant
            p <= picked@.len(),
            picked.deep_view() == named,
            named == combinations_of(positions(handles@), len as nat),
            named.len() == picked@.len(),
            drawn_from(named, positions(handles@), len as nat),
            wanted == choices(handles@, len as nat),
            wanted.len() == named.len(),
            selections(out@) == before + wanted.take(p as int),
            all_drawn(selections(out@), handles@),
        decreases picked@.len() - p,
    {
        let combo = &picked[p];
        assert(combo.deep_view() == named[p as int]);
        assert(combo.deep_view() =~= combo@);
        let mut selection: Vec<ClassIdx> = Vec::new();
        let mut j: usize = 0;
        while j < combo.len()
            invariant
                j <= combo@.len(),
                selection@.len() == j,
                forall|k: int| 0 <= k < j ==> selection@[k] == ClassIdx(combo@[k]),
            decreases combo@.len() - j,
        {
            selection.push(ClassIdx(combo[j]));
            j += 1;
        }
        proof {
            assert(selection@ =~= handles_at(named[p as int]));
            assert(selection@ == wanted[p as int]);
            assert forall|k: int| 0 <= k < selection@.len() implies handles@.contains(
                #[trigger] selection@[k],
            ) by {
                assert(positions(handles@).contains(named[p as int][k]));
                let w = choose|w: int|
                    0 <= w < positions(handles@).len() && positions(handles@)[w]
                        == named[p as int][k];
                assert(handles@[w] == selection@[k]);
            }
        }
        let ghost listed = selections(out@);
        out.push(selection);
        proof {
            assert(selections(out@) =~= listed.push(wanted[p as int]));
            assert(wanted.take(p + 1) =~= wanted.take(p as int).push(wanted[p as int]));
            assert(selections(out@) =~= before + wanted.take(p + 1));
            assert forall|i: int| 0 <= i < selections(out@).len() implies drawn(
                #[trigger] selections(out@)[i],
                handles@,
            ) by {
                if i < listed.len() {
                    assert(selections(out@)[i] == listed[i]);
                }
            }
        }
        p += 1;
    }
    assert(wanted.take(p as int) =~= wanted);
}

/// The credits of `handles` where they are below 256, else some number from
/// 256 on.
fn capped_sum(handles: &Vec<ClassIdx>, classlist: &ClassList) -> (r: u16)
    requires
        all_held(handles@, classlist),
    ensures
        r <= 255 ==> r == credit_sum(handles@, classlist@),
        r > 255 ==> credit_sum(handles@, classlist@) > 255,
{
    let mut total: u16 = 0;
    let mut i: usize = 0;
    while i < handles.len() && total <= 255
        invariant
            i <= handles@.len(),
            all_held(handles@, classlist),
            total <= 510,
            total == credit_sum(handles@.take(i as int), classlist@),
        decreases handles@.len() - i,
    {
        proof {
            assert(handles@.take(i + 1).drop_last() =~= handles@.take(i as int));
        }
        total = total + classlist.get(handles[i]).credits() as u16;
        i += 1;
    }
    proof {
        lemma_credit_sum_grows(handles@, classlist@, i as int);
        if i == handles@.len() {
            assert(handles@.take(i as int) =~= handles@);
        }
    }
    total
}

/// A copy of a list of handles.
fn copy_handles(handles: &Vec<ClassIdx>) -> (r: Vec<ClassIdx>)
    ensures
        r@ == handles@,
{
    let r = handles.clone();
    r
}

/// Lists the candidates for the next semester among `handles`.
pub fn list_candidates(handles: &Vec<ClassIdx>, classlist: &ClassList, config: &Config) -> (out:
    Vec<Vec<ClassIdx>>)
    requires
        all_held(handles@, classlist),
    ensures
        selections(out@) == candidates(handles@, classlist@, config),
        all_drawn(selections(out@), handles@),
        handles@.no_duplicates() ==> offers_each(
            selections(out@),
            handles@,
            min_count(credits_of(handles@, classlist@), config.min_credits),
            max_count(credits_of(handles@, classlist@), config.max_credits),
        ),
{
    let credits = collect_credits(handles, classlist);
    let sorted = sort_credits(&credits);
    let n: usize = handles.len();
    let reached = count_ascending(&sorted, config.max_credits);
    let hi: usize = if n == 0 {
        0
    } else if reached < n {
        reached
    } else {
        n - 1
    };
    let lo: usize = count_descending(&sorted, config.min_credits);
    let mut out: Vec<Vec<ClassIdx>> = Vec::new();
    let ghost wanted = choices_between(handles@, lo as int, hi as int);
    let mut len: usize = lo;
    while len <= hi
        invariant
            lo <= len,
            hi < n || n == 0,
            hi <= n,
            n == handles@.len(),
            all_drawn(selections(out@), handles@),
            wanted == selections(out@) + choices_between(handles@, len as int, hi as int),
            handles@.no_duplicates() ==> offers_each(
                selections(out@),
                handles@,
                lo as int,
                len - 1,
            ),
        decreases hi + 1 - len,
    {
        let ghost listed = selections(out@);
        if 1 <= len && len < n {
            push_choices(&mut out, handles, len);
            proof {
                if handles@.no_duplicates() {
                    lemma_offers_more(
                        listed,
                        choices(handles@, len as nat),
                        handles@,
                        lo as int,
                        len as int,
                    );
                }
            }
        }
        len += 1;
    }
    if capped_sum(handles, classlist) <= config.max_credits as u16 {
        let ghost listed = selections(out@);
        out.push(copy_handles(handles));
        proof {
            assert(selections(out@) =~= listed.push(handles@));
            if handles@.no_duplicates() {
                lemma_offers_longer(listed, seq![handles@], handles@, lo as int, hi as int);
            }
            assert forall|i: int| 0 <= i < selections(out@).len() implies drawn(
                #[trigger] selections(out@)[i],
                handles@,
            ) by {
                if i < listed.len() {
                    assert(selections(out@)[i] == listed[i]);
                } else {
                    assert forall|k: int| 0 <= k < handles@.len() implies handles@.contains(
                        #[trigger] handles@[k],
                    ) by {}
                }
            }
        }
    }
    out
}

} // verus!
