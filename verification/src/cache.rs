//! The list of lines chosen before, the latest first, held to a largest
//! length.

use crate::registry::delete_project;
use crate::text::differs_from;
use vstd::prelude::*;

verus! {

/// How many lines the list of earlier choices holds at most.
pub const MAX_CACHE_ENTRIES: usize = 100;

/// The list after `selected` was chosen: it stands first, it stands nowhere
/// else, the other lines follow in their order, and what goes beyond `cap`
/// lines is dropped from the end.
pub open spec fn promoted(cache: Seq<Seq<char>>, selected: Seq<char>, cap: nat) -> Seq<Seq<char>> {
    let moved = seq![selected] + cache.filter(differs_from(selected));
    if moved.len() > cap {
        moved.take(cap as int)
    } else {
        moved
    }
}

/// The list after each of `selections` was chosen, in their order.
pub open spec fn promoted_all(cache: Seq<Seq<char>>, selections: Seq<Seq<char>>, cap: nat) -> Seq<
    Seq<char>,
>
    decreases selections.len(),
{
    if selections.len() == 0 {
        cache
    } else {
        promoted(promoted_all(cache, selections.drop_last(), cap), selections.last(), cap)
    }
}

/// The list of earlier choices after the picker has ended: an empty
/// selection leaves it as it is, and any other is moved to the front, with
/// at most `MAX_CACHE_ENTRIES` lines kept.
pub open spec fn cleaned(cache: Seq<Seq<char>>, selected: Seq<char>) -> Seq<Seq<char>> {
    if selected.len() == 0 {
        cache
    } else {
        promoted(cache, selected, MAX_CACHE_ENTRIES as nat)
    }
}

/// Moves `selected` to the front of the list and keeps at most `cap` lines.
pub fn promote(cache: &Vec<String>, selected: &str, cap: usize) -> (r: Vec<String>)
    ensures
        r.deep_view() == promoted(cache.deep_view(), selected@, cap as nat),
{
    let mut out = delete_project(cache, selected);
    let ghost rest = out.deep_view();
    out.insert(0, selected.to_owned());
    let ghost moved = out.deep_view();
    assert(moved =~= seq![selected@] + rest);
    if out.len() > cap {
        out.truncate(cap);
        assert(out.deep_view() =~= moved.take(cap as int));
    }
    out
}

/// A copy of the list.
fn copy_lines(lines: &Vec<String>) -> (r: Vec<String>)
    ensures
        r.deep_view() == lines.deep_view(),
{
    let mut out: Vec<String> = Vec::new();
    let mut i: usize = 0;
    while i < lines.len()
        invariant
            i <= lines.len(),
            out.deep_view() == lines.deep_view().take(i as int),
        decreases lines.len() - i,
    {
        let ghost before = out.deep_view();
        out.push(lines[i].clone());
        assert(out.deep_view() =~= before.push(lines.deep_view()[i as int]));
        i += 1;
        assert(lines.deep_view().take(i as int) =~= before.push(lines.deep_view()[i - 1]));
    }
    assert(lines.deep_view().take(lines.len() as int) =~= lines.deep_view());
    out
}

/// The list of earlier choices to write back once the picker has ended. With
/// no selection the list stays as it was read; otherwise the selection moves
/// to the front and at most `MAX_CACHE_ENTRIES` lines stay.
pub fn cleanup(cache_lines: &Vec<String>, selected_str: &str) -> (r: Vec<String>)
    ensures
        r.deep_view() == cleaned(cache_lines.deep_view(), selected_str@),
{
    if selected_str.is_empty() {
        copy_lines(cache_lines)
    } else {
        promote(cache_lines, selected_str, MAX_CACHE_ENTRIES)
    }
}

/// A choice never makes the list longer than the cap, and a list in which no
/// line occurs twice stays so.
pub proof fn lemma_promoted_bounded(cache: Seq<Seq<char>>, selected: Seq<char>, cap: nat)
    ensures
        promoted(cache, selected, cap).len() <= cap,
        cap > 0 ==> promoted(cache, selected, cap)[0] == selected,
        cache.no_duplicates() ==> promoted(cache, selected, cap).no_duplicates(),
{
    let differs = differs_from(selected);
    let rest = cache.filter(differs);
    let moved = seq![selected] + rest;
    let out = promoted(cache, selected, cap);
    if cache.no_duplicates() {
        crate::text::lemma_filter_distinct(cache, differs);
        assert forall|i: int, j: int|
            0 <= i < out.len() && 0 <= j < out.len() && i != j implies out[i] != out[j] by {
            assert(out[i] == moved[i] && out[j] == moved[j]);
            if i > 0 {
                cache.lemma_filter_pred(differs, i - 1);
                assert(moved[i] == rest[i - 1]);
            }
            if j > 0 {
                cache.lemma_filter_pred(differs, j - 1);
                assert(moved[j] == rest[j - 1]);
            }
        }
    }
}

/// Choosing the line that already stands first changes nothing, in a list
/// within the cap in which no line occurs twice.
pub proof fn lemma_promote_front(cache: Seq<Seq<char>>, cap: nat)
    requires
        cache.no_duplicates(),
        0 < cache.len() <= cap,
    ensures
        promoted(cache, cache[0], cap) == cache,
{
    let selected = cache[0];
    let differs = differs_from(selected);
    let tail = cache.skip(1);
    let none = Seq::<Seq<char>>::empty();
    assert(cache =~= none.push(selected) + tail);
    Seq::filter_distributes_over_add(none.push(selected), tail, differs);
    none.lemma_filter_len(differs);
    none.lemma_filter_push(selected, differs);
    assert(none.push(selected).filter(differs) =~= none);
    assert forall|i: int| 0 <= i < tail.len() implies differs(#[trigger] tail[i]) by {
        assert(tail[i] == cache[i + 1]);
    }
    crate::text::lemma_filter_all(tail, differs);
    assert(cache.filter(differs) =~= tail);
    assert(seq![selected] + tail =~= cache);
}

/// The smaller of two numbers.
pub open spec fn smaller(a: nat, b: nat) -> nat {
    if a < b {
        a
    } else {
        b
    }
}

/// After a run of choices that are all different, the list begins with them,
/// the latest first, as far as the cap allows; after at least as many such
/// choices as the cap it holds exactly the latest `cap` of them, and the
/// older ones are gone.
pub proof fn lemma_mru_bound(cache: Seq<Seq<char>>, selections: Seq<Seq<char>>, cap: nat)
    requires
        selections.no_duplicates(),
        selections.len() >= 1,
    ensures
        smaller(selections.len(), cap) <= promoted_all(cache, selections, cap).len() <= cap,
        selections.len() >= cap ==> promoted_all(cache, selections, cap).len() == cap,
        forall|i: int|
            0 <= i < smaller(selections.len(), cap) ==> #[trigger] promoted_all(
                cache,
                selections,
                cap,
            )[i] == selections[selections.len() - 1 - i],
    decreases selections.len(),
{
    let m = selections.len() as int;
    let earlier = selections.drop_last();
    let latest = selections.last();
    let before = promoted_all(cache, earlier, cap);
    let differs = differs_from(latest);
    let after = promoted_all(cache, selections, cap);
    assert(after == promoted(before, latest, cap));
    let k = smaller((m - 1) as nat, cap) as int;
    if m > 1 {
        assert forall|i: int, j: int|
            0 <= i < earlier.len() && 0 <= j < earlier.len() && i != j implies earlier[i]
            != earlier[j] by {
            assert(earlier[i] == selections[i] && earlier[j] == selections[j]);
        }
        lemma_mru_bound(cache, earlier, cap);
        assert forall|i: int| 0 <= i < k implies differs(#[trigger] before[i]) by {
            assert(before[i] == earlier[earlier.len() - 1 - i]);
            assert(earlier[earlier.len() - 1 - i] == selections[m - 2 - i]);
        }
    }
    crate::text::lemma_filter_keeps_prefix(before, differs, k);
    let rest = before.filter(differs);
    let moved = seq![latest] + rest;
    assert(moved.len() == rest.len() + 1);
    assert forall|i: int| 0 <= i < smaller(m as nat, cap) implies #[trigger] after[i]
        == selections[m - 1 - i] by {
        assert(after[i] == moved[i]);
        if i > 0 {
            assert(moved[i] == rest[i - 1]);
            assert(rest.take(k)[i - 1] == before.take(k)[i - 1]);
            assert(before[i - 1] == earlier[earlier.len() - 1 - (i - 1)]);
        }
    }
}

} // verus!
