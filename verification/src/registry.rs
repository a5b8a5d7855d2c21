//! The registry of tracked roots: one line per root, either a bare path or a
//! path with a recursion depth, and the operations that change the list.

use crate::project::Project;
use crate::text::{chars_of, differs_from, lex_less, str_less, string_of_range};
use vstd::prelude::*;
use vstd::string::StringExecFns;

verus! {

/// The largest depth that an entry can carry.
pub const MAX_DEPTH: u32 = 0xffff_ffff;

/// What stands between a path and its depth: ` --depth `.
pub open spec fn depth_marker() -> Seq<char> {
    seq![' ', '-', '-', 'd', 'e', 'p', 't', 'h', ' ']
}

/// Whether `c` is one of the ten decimal digits.
pub open spec fn is_digit(c: char) -> bool {
    '0' <= c && c <= '9'
}

/// The number that a decimal digit stands for.
pub open spec fn digit_value(c: char) -> nat {
    if c == '1' {
        1
    } else if c == '2' {
        2
    } else if c == '3' {
        3
    } else if c == '4' {
        4
    } else if c == '5' {
        5
    } else if c == '6' {
        6
    } else if c == '7' {
        7
    } else if c == '8' {
        8
    } else if c == '9' {
        9
    } else {
        0
    }
}

/// The decimal digit for a number below ten.
pub open spec fn digit_char(d: nat) -> char {
    if d == 1 {
        '1'
    } else if d == 2 {
        '2'
    } else if d == 3 {
        '3'
    } else if d == 4 {
        '4'
    } else if d == 5 {
        '5'
    } else if d == 6 {
        '6'
    } else if d == 7 {
        '7'
    } else if d == 8 {
        '8'
    } else if d == 9 {
        '9'
    } else {
        '0'
    }
}

/// Whether every character of `s` is a decimal digit.
pub open spec fn all_digits(s: Seq<char>) -> bool {
    forall|i: int| 0 <= i < s.len() ==> is_digit(#[trigger] s[i])
}

/// The number that a run of decimal digits stands for; leading zeros count
/// for nothing.
pub open spec fn digits_value(s: Seq<char>) -> nat
    decreases s.len(),
{
    if s.len() == 0 {
        0
    } else {
        digits_value(s.drop_last()) * 10 + digit_value(s.last())
    }
}

/// A number written in decimal digits, without leading zeros.
pub open spec fn decimal(n: nat) -> Seq<char>
    decreases n,
{
    if n < 10 {
        seq![digit_char(n)]
    } else {
        decimal(n / 10).push(digit_char(n % 10))
    }
}

/// How many decimal digits stand at the end of `s`.
pub open spec fn digit_suffix_len(s: Seq<char>) -> nat
    decreases s.len(),
{
    if s.len() > 0 && is_digit(s.last()) {
        digit_suffix_len(s.drop_last()) + 1
    } else {
        0
    }
}

/// An entry of the registry: a path alone, or a path with the number of
/// levels below it that count as roots too.
pub ghost enum EntryModel {
    Plain(Seq<char>),
    Depth(Seq<char>, nat),
}

/// The path that an entry speaks of.
pub open spec fn entry_path(e: EntryModel) -> Seq<char> {
    match e {
        EntryModel::Plain(p) => p,
        EntryModel::Depth(p, _) => p,
    }
}

/// The line that stands for an entry.
pub open spec fn entry_line(e: EntryModel) -> Seq<char> {
    match e {
        EntryModel::Plain(p) => p,
        EntryModel::Depth(p, n) => p + depth_marker() + decimal(n),
    }
}

/// The entry that a line stands for. A line that ends in the marker and a
/// run of decimal digits whose number is at most `MAX_DEPTH` is a path with
/// a depth; every other line is a path as a whole.
pub open spec fn parse_entry(line: Seq<char>) -> EntryModel {
    let k = digit_suffix_len(line) as int;
    let m = line.len() - k - 9;
    if k >= 1 && m >= 0 && line.subrange(m, m + 9) == depth_marker() && digits_value(
        line.skip(line.len() - k),
    ) <= MAX_DEPTH {
        EntryModel::Depth(line.take(m), digits_value(line.skip(line.len() - k)))
    } else {
        EntryModel::Plain(line)
    }
}

/// The digits at the end of a sequence are at most as many as its items.
pub proof fn lemma_digit_suffix_bound(s: Seq<char>)
    ensures
        digit_suffix_len(s) <= s.len(),
        forall|i: int| s.len() - digit_suffix_len(s) <= i < s.len() ==> is_digit(#[trigger] s[i]),
        digit_suffix_len(s) < s.len() ==> !is_digit(s[s.len() - digit_suffix_len(s) - 1]),
    decreases s.len(),
{
    if s.len() > 0 && is_digit(s.last()) {
        let t = s.drop_last();
        lemma_digit_suffix_bound(t);
        assert forall|i: int| s.len() - digit_suffix_len(s) <= i < s.len() implies is_digit(
            #[trigger] s[i],
        ) by {
            if i < t.len() {
                assert(s[i] == t[i]);
            }
        }
        if digit_suffix_len(s) < s.len() {
            assert(s[s.len() - digit_suffix_len(s) - 1] == t[t.len() - digit_suffix_len(t) - 1]);
        }
    }
}

/// A run of digits behind a character that is no digit is the whole run of
/// digits at the end.
pub proof fn lemma_digit_suffix_of_run(head: Seq<char>, digits: Seq<char>)
    requires
        all_digits(digits),
        head.len() == 0 || !is_digit(head.last()),
    ensures
        digit_suffix_len(head + digits) == digits.len(),
    decreases digits.len(),
{
    let s = head + digits;
    if digits.len() == 0 {
        assert(s == head);
    } else {
        assert(s.last() == digits.last());
        assert(s.drop_last() == head + digits.drop_last());
        lemma_digit_suffix_of_run(head, digits.drop_last());
    }
}

/// The number of a run of digits does not shrink when digits are added.
pub proof fn lemma_digits_value_grows(s: Seq<char>, i: int)
    requires
        0 <= i <= s.len(),
    ensures
        digits_value(s.take(i)) <= digits_value(s),
    decreases s.len() - i,
{
    if i < s.len() {
        lemma_digits_value_grows(s, i + 1);
        assert(s.take(i + 1).drop_last() == s.take(i));
    } else {
        assert(s.take(i) == s);
    }
}

/// Writing a number in decimal and reading it again gives the number.
pub proof fn lemma_decimal_value(n: nat)
    ensures
        all_digits(decimal(n)),
        decimal(n).len() >= 1,
        digits_value(decimal(n)) == n,
    decreases n,
{
    if n < 10 {
        let s = decimal(n);
        assert(s.drop_last() == Seq::<char>::empty());
        assert(digits_value(s.drop_last()) == 0);
    } else {
        lemma_decimal_value(n / 10);
        let s = decimal(n);
        assert(s.drop_last() == decimal(n / 10));
    }
}

/// A path, the marker and a run of digits read as that path with the number
/// of the digits, when the number is small enough to be a depth.
pub proof fn lemma_parse_depth_line(path: Seq<char>, digits: Seq<char>)
    requires
        all_digits(digits),
        digits.len() >= 1,
        digits_value(digits) <= MAX_DEPTH,
    ensures
        parse_entry(path + depth_marker() + digits) == EntryModel::Depth(
            path,
            digits_value(digits),
        ),
{
    let head = path + depth_marker();
    let line = head + digits;
    assert(head.last() == ' ');
    lemma_digit_suffix_of_run(head, digits);
    let k = digits.len() as int;
    let m = line.len() - k - 9;
    assert(m == path.len());
    assert(line.subrange(m, m + 9) == depth_marker());
    assert(line.skip(line.len() - k) == digits);
    assert(line.take(m) == path);
}

/// An entry with a depth, written as a line, reads as the same entry.
pub proof fn lemma_depth_entry_round_trip(path: Seq<char>, n: nat)
    requires
        n <= MAX_DEPTH,
    ensures
        parse_entry(entry_line(EntryModel::Depth(path, n))) == EntryModel::Depth(path, n),
{
    lemma_decimal_value(n);
    lemma_parse_depth_line(path, decimal(n));
}

/// An entry of the registry.
#[derive(Debug)]
pub enum RegistryEntry {
    /// A path alone.
    Plain(String),
    /// A path and the number of levels below it that are listed too.
    Depth(String, u32),
}

impl View for RegistryEntry {
    type V = EntryModel;

    open spec fn view(&self) -> EntryModel {
        match self {
            RegistryEntry::Plain(p) => EntryModel::Plain(p@),
            RegistryEntry::Depth(p, n) => EntryModel::Depth(p@, *n as nat),
        }
    }
}

fn digit_of(c: char) -> (r: Option<u8>)
    ensures
        r is Some == is_digit(c),
        r is Some ==> r->0 == digit_value(c) && r->0 < 10,
{
    if c == '0' {
        Some(0)
    } else if c == '1' {
        Some(1)
    } else if c == '2' {
        Some(2)
    } else if c == '3' {
        Some(3)
    } else if c == '4' {
        Some(4)
    } else if c == '5' {
        Some(5)
    } else if c == '6' {
        Some(6)
    } else if c == '7' {
        Some(7)
    } else if c == '8' {
        Some(8)
    } else if c == '9' {
        Some(9)
    } else {
        None
    }
}

fn char_of_digit(d: u32) -> (r: char)
    requires
        d < 10,
    ensures
        r == digit_char(d as nat),
{
    if d == 1 {
        '1'
    } else if d == 2 {
        '2'
    } else if d == 3 {
        '3'
    } else if d == 4 {
        '4'
    } else if d == 5 {
        '5'
    } else if d == 6 {
        '6'
    } else if d == 7 {
        '7'
    } else if d == 8 {
        '8'
    } else if d == 9 {
        '9'
    } else {
        '0'
    }
}

/// `n` in decimal digits, without leading zeros.
pub fn decimal_string(n: u32) -> (r: String)
    ensures
        r@ == decimal(n as nat),
    decreases n,
{
    if n < 10 {
        let mut s = String::new();
        s.push(char_of_digit(n));
        s
    } else {
        let mut s = decimal_string(n / 10);
        s.push(char_of_digit(n % 10));
        s
    }
}

/// The depth that a run of characters states: the number of a run of decimal
/// digits that is not empty and whose number is at most `MAX_DEPTH`.
pub open spec fn depth_of(s: Seq<char>) -> Option<u32> {
    if s.len() >= 1 && all_digits(s) && digits_value(s) <= MAX_DEPTH {
        Some(digits_value(s) as u32)
    } else {
        None
    }
}

fn depth_in(chars: &Vec<char>, from: usize) -> (r: Option<u32>)
    requires
        from <= chars.len(),
    ensures
        r == depth_of(chars@.skip(from as int)),
{
    let ghost run = chars@.skip(from as int);
    if from == chars.len() {
        return None;
    }
    let mut value: u64 = 0;
    let mut i: usize = from;
    assert(run.take(0) == Seq::<char>::empty());
    while i < chars.len()
        invariant
            from <= i <= chars.len(),
            run == chars@.skip(from as int),
            all_digits(run.take(i - from)),
            value == digits_value(run.take(i - from)),
            value <= MAX_DEPTH,
        decreases chars.len() - i,
    {
        let ghost next = run.take(i - from + 1);
        assert(next.drop_last() == run.take(i - from));
        assert(next.last() == chars@[i as int]);
        match digit_of(chars[i]) {
            None => {
                assert(!is_digit(run[i - from]));
                return None;
            },
            Some(d) => {
                value = value * 10 + d as u64;
                if value > MAX_DEPTH as u64 {
                    proof {
                        lemma_digits_value_grows(run, i - from + 1);
                    }
                    return None;
                }
            },
        }
        i += 1;
    }
    assert(run.take(i - from) == run);
    Some(value as u32)
}

/// The depth that `input` states, if it is a depth: a run of decimal digits
/// that is not empty and whose number is at most `MAX_DEPTH`.
pub fn parse_depth(input: &str) -> (r: Option<u32>)
    ensures
        r == depth_of(input@),
{
    let chars = chars_of(input);
    assert(chars@.skip(0) == chars@);
    depth_in(&chars, 0)
}

impl RegistryEntry {
    /// The entry that a line of the registry stands for. A line that ends
    /// in ` --depth ` and a depth is a path with that depth; any other line,
    /// one with a malformed depth too, is a path as a whole.
    pub fn parse(line: &str) -> (r: RegistryEntry)
        ensures
            r@ == parse_entry(line@),
    {
        let chars = chars_of(line);
        let len = chars.len();
        let mut start: usize = len;
        assert(chars@.take(len as int) == chars@);
        while start > 0 && digit_of(chars[start - 1]).is_some()
            invariant
                start <= len,
                len == chars.len(),
                digit_suffix_len(chars@) == digit_suffix_len(chars@.take(start as int)) + (len
                    - start),
            decreases start,
        {
            assert(chars@.take(start as int).drop_last() == chars@.take(start - 1));
            start -= 1;
        }
        assert(digit_suffix_len(chars@.take(start as int)) == 0);
        if start == len || start < 9 {
            return RegistryEntry::Plain(line.to_owned());
        }
        let m: usize = start - 9;
        let marked = chars[m] == ' ' && chars[m + 1] == '-' && chars[m + 2] == '-' && chars[m + 3]
            == 'd' && chars[m + 4] == 'e' && chars[m + 5] == 'p' && chars[m + 6] == 't' && chars[m
            + 7] == 'h' && chars[m + 8] == ' ';
        let ghost found = chars@.subrange(m as int, m + 9);
        proof {
            if marked {
                assert(found =~= depth_marker());
            } else {
                assert(found[0] == chars@[m as int]);
                assert(found[1] == chars@[m + 1]);
                assert(found[2] == chars@[m + 2]);
                assert(found[3] == chars@[m + 3]);
                assert(found[4] == chars@[m + 4]);
                assert(found[5] == chars@[m + 5]);
                assert(found[6] == chars@[m + 6]);
                assert(found[7] == chars@[m + 7]);
                assert(found[8] == chars@[m + 8]);
            }
        }
        if !marked {
            return RegistryEntry::Plain(line.to_owned());
        }
        proof {
            lemma_digit_suffix_bound(chars@);
            assert(all_digits(chars@.skip(start as int)));
        }
        match depth_in(&chars, start) {
            None => RegistryEntry::Plain(line.to_owned()),
            Some(n) => RegistryEntry::Depth(string_of_range(&chars, 0, m), n),
        }
    }

    /// The path that the entry speaks of.
    pub fn path(&self) -> (r: &str)
        ensures
            r@ == entry_path(self@),
    {
        match self {
            RegistryEntry::Plain(p) => p.as_str(),
            RegistryEntry::Depth(p, _) => p.as_str(),
        }
    }

    /// The line that stands for the entry in the registry.
    pub fn to_line(&self) -> (r: String)
        ensures
            r@ == entry_line(self@),
    {
        match self {
            RegistryEntry::Plain(p) => p.clone(),
            RegistryEntry::Depth(p, n) => {
                let mut out = p.clone();
                proof {
                    reveal_strlit(" --depth ");
                    assert(" --depth "@ =~= depth_marker());
                }
                out.append(" --depth ");
                let digits = decimal_string(*n);
                out.append(digits.as_str());
                out
            },
        }
    }
}

/// The test that a line's entry speaks of `path`.
pub open spec fn is_for(path: Seq<char>) -> spec_fn(Seq<char>) -> bool {
    |l: Seq<char>| entry_path(parse_entry(l)) == path
}

/// The test that a line's entry speaks of another path than `path`.
pub open spec fn not_for(path: Seq<char>) -> spec_fn(Seq<char>) -> bool {
    |l: Seq<char>| entry_path(parse_entry(l)) != path
}

/// The lines of `lines` whose entry speaks of another path than `path`.
pub open spec fn without_path(lines: Seq<Seq<char>>, path: Seq<char>) -> Seq<Seq<char>> {
    lines.filter(not_for(path))
}

/// The entry for `path` with the depth `depth`, or without one.
pub open spec fn entry_for(path: Seq<char>, depth: Option<u32>) -> EntryModel {
    match depth {
        Some(n) => EntryModel::Depth(path, n as nat),
        None => EntryModel::Plain(path),
    }
}

/// The registry after `path` was added: every earlier line for that path is
/// gone, and the new line stands at the end.
pub open spec fn added(lines: Seq<Seq<char>>, path: Seq<char>, depth: Option<u32>) -> Seq<
    Seq<char>,
> {
    without_path(lines, path).push(entry_line(entry_for(path, depth)))
}

/// Whether no line comes before a line that stands earlier.
pub open spec fn sorted_lines(lines: Seq<Seq<char>>) -> bool {
    forall|i: int, j: int| 0 <= i < j < lines.len() ==> !lex_less(#[trigger] lines[j], #[trigger] lines[i])
}

fn make_entry(path: &str, depth: Option<u32>) -> (r: RegistryEntry)
    ensures
        r@ == entry_for(path@, depth),
{
    match depth {
        Some(n) => RegistryEntry::Depth(path.to_owned(), n),
        None => RegistryEntry::Plain(path.to_owned()),
    }
}

fn remove_path(lines: &Vec<String>, path: &str) -> (r: Vec<String>)
    ensures
        r.deep_view() == without_path(lines.deep_view(), path@),
{
    let ghost all = lines.deep_view();
    let ghost keep = not_for(path@);
    let mut out: Vec<String> = Vec::new();
    let mut i: usize = 0;
    proof {
        assert(all.take(0) =~= Seq::<Seq<char>>::empty());
        assert(all.take(0).filter(keep) =~= Seq::<Seq<char>>::empty()) by {
            reveal(Seq::filter);
        }
        assert(out.deep_view() =~= all.take(0).filter(keep));
    }
    while i < lines.len()
        invariant
            i <= lines.len(),
            all == lines.deep_view(),
            keep == not_for(path@),
            out.deep_view() == all.take(i as int).filter(keep),
        decreases lines.len() - i,
    {
        let entry = RegistryEntry::parse(lines[i].as_str());
        let ghost before = out.deep_view();
        proof {
            assert(all.take(i + 1) =~= all.take(i as int).push(all[i as int]));
            all.take(i as int).lemma_filter_push(all[i as int], keep);
        }
        if !crate::text::str_equal(entry.path(), path) {
            out.push(lines[i].clone());
            assert(out.deep_view() =~= before.push(all[i as int]));
        }
        i += 1;
    }
    assert(all.take(lines.len() as int) =~= all);
    out
}

/// The registry with `dir` added: `dir` is brought to its short form, every
/// line for that path leaves, with or without a depth, and the new line
/// goes to the end.
pub fn add_project(lines: &Vec<String>, dir: &str, depth: Option<u32>, home: &str) -> (r: Vec<
    String,
>)
    ensures
        r.deep_view() == added(
            lines.deep_view(),
            crate::project::project_of(dir@, home@).shortened,
            depth,
        ),
{
    let project = Project::new(dir, home);
    let mut out = remove_path(lines, project.to_fzf_display());
    let ghost before = out.deep_view();
    let line = make_entry(project.to_fzf_display(), depth).to_line();
    out.push(line);
    assert(out.deep_view() =~= before.push(line@));
    out
}

/// The registry without the lines that read exactly as `selected`.
pub fn delete_project(lines: &Vec<String>, selected: &str) -> (r: Vec<String>)
    ensures
        r.deep_view() == lines.deep_view().filter(differs_from(selected@)),
{
    let ghost all = lines.deep_view();
    let ghost keep = differs_from(selected@);
    let chosen = selected.to_owned();
    let mut out: Vec<String> = Vec::new();
    let mut i: usize = 0;
    proof {
        assert(all.take(0) =~= Seq::<Seq<char>>::empty());
        assert(all.take(0).filter(keep) =~= Seq::<Seq<char>>::empty()) by {
            reveal(Seq::filter);
        }
        assert(out.deep_view() =~= all.take(0).filter(keep));
    }
    while i < lines.len()
        invariant
            i <= lines.len(),
            all == lines.deep_view(),
            keep == differs_from(selected@),
            chosen@ == selected@,
            out.deep_view() == all.take(i as int).filter(keep),
        decreases lines.len() - i,
    {
        let ghost before = out.deep_view();
        proof {
            assert(all.take(i + 1) =~= all.take(i as int).push(all[i as int]));
            all.take(i as int).lemma_filter_push(all[i as int], keep);
        }
        if lines[i] != chosen {
            out.push(lines[i].clone());
            assert(out.deep_view() =~= before.push(all[i as int]));
        }
        i += 1;
    }
    assert(all.take(lines.len() as int) =~= all);
    out
}

/// The lines in lexicographic order by code point: the same lines, each as
/// often as before, and none before a line that stands earlier.
pub fn sort_lines(lines: &Vec<String>) -> (r: Vec<String>)
    ensures
        sorted_lines(r.deep_view()),
        r.deep_view().to_multiset() == lines.deep_view().to_multiset(),
{
    let ghost all = lines.deep_view();
    let mut out: Vec<String> = Vec::new();
    let mut i: usize = 0;
    proof {
        assert(all.take(0) =~= out.deep_view());
    }
    while i < lines.len()
        invariant
            i <= lines.len(),
            all == lines.deep_view(),
            sorted_lines(out.deep_view()),
            out.deep_view().to_multiset() == all.take(i as int).to_multiset(),
        decreases lines.len() - i,
    {
        let x = lines[i].clone();
        let mut p: usize = 0;
        while p < out.len() && !str_less(x.as_str(), out[p].as_str())
            invariant
                p <= out.len(),
                forall|j: int| 0 <= j < p ==> !lex_less(x@, #[trigger] out.deep_view()[j]),
            decreases out.len() - p,
        {
            p += 1;
        }
        let ghost before = out.deep_view();
        out.insert(p, x);
        proof {
            let after = out.deep_view();
            assert(after =~= before.insert(p as int, x@));
            assert forall|a: int, b: int| 0 <= a < b < after.len() implies !lex_less(
                #[trigger] after[b],
                #[trigger] after[a],
            ) by {
                if b == p {
                    assert(after[a] == before[a]);
                } else if a == p {
                    assert(after[b] == before[b - 1]);
                    if lex_less(after[b], x@) {
                        crate::text::lemma_lex_less_transitive(after[b], x@, before[p as int]);
                        assert(!lex_less(before[b - 1], before[p as int]) || b - 1 == p);
                        crate::text::lemma_lex_less_irreflexive(before[p as int]);
                    }
                } else {
                    let a0 = if a < p { a } else { a - 1 };
                    let b0 = if b < p { b } else { b - 1 };
                    assert(after[a] == before[a0] && after[b] == before[b0]);
                }
            }
            vstd::seq_lib::to_multiset_insert(before, p as int, x@);
            assert(all.take(i + 1) =~= all.take(i as int).push(all[i as int]));
            vstd::seq_lib::to_multiset_build(all.take(i as int), all[i as int]);
        }
        i += 1;
    }
    assert(all.take(lines.len() as int) =~= all);
    out
}

/// The registry after the depth of the chosen line was set: every line for
/// the path of `selected` leaves, the path comes back with the new depth,
/// or bare where `depth` is `None`, and the lines are put in order.
pub fn set_depth(lines: &Vec<String>, selected: &str, depth: Option<u32>) -> (r: Vec<String>)
    ensures
        sorted_lines(r.deep_view()),
        r.deep_view().to_multiset() == added(
            lines.deep_view(),
            entry_path(parse_entry(selected@)),
            depth,
        ).to_multiset(),
{
    let chosen = RegistryEntry::parse(selected);
    let mut kept = remove_path(lines, chosen.path());
    let ghost before = kept.deep_view();
    let line = make_entry(chosen.path(), depth).to_line();
    kept.push(line);
    assert(kept.deep_view() =~= before.push(line@));
    sort_lines(&kept)
}

/// The lines of `lines` whose entry speaks of `path`.
pub open spec fn lines_for(lines: Seq<Seq<char>>, path: Seq<char>) -> Seq<Seq<char>> {
    lines.filter(is_for(path))
}

/// The line written for a path reads as an entry for that path, unless the
/// path itself reads as a path with a depth.
pub proof fn lemma_entry_line_path(path: Seq<char>, depth: Option<u32>)
    requires
        parse_entry(path) is Plain,
    ensures
        entry_path(parse_entry(entry_line(entry_for(path, depth)))) == path,
{
    match depth {
        Some(n) => {
            lemma_depth_entry_round_trip(path, n as nat);
        },
        None => {},
    }
}

/// Adding a path replaces: after an addition the registry holds exactly one
/// line for the path, and a second addition of the same path gives what it
/// would have given alone. The path must not itself read as a path with a
/// depth.
pub proof fn lemma_add_replaces(
    lines: Seq<Seq<char>>,
    path: Seq<char>,
    first: Option<u32>,
    second: Option<u32>,
)
    requires
        parse_entry(path) is Plain,
    ensures
        lines_for(added(lines, path, first), path).len() == 1,
        added(added(lines, path, first), path, second) == added(lines, path, second),
        lines_for(added(added(lines, path, first), path, second), path) == seq![
            entry_line(entry_for(path, second)),
        ],
{
    let keep = not_for(path);
    let is_for = is_for(path);
    let rest = without_path(lines, path);
    let one = entry_line(entry_for(path, first));
    let two = entry_line(entry_for(path, second));
    lemma_entry_line_path(path, first);
    lemma_entry_line_path(path, second);
    crate::text::lemma_filter_twice(lines, keep);
    crate::text::lemma_filter_disjoint(lines, keep, is_for);
    rest.lemma_filter_push(one, keep);
    rest.lemma_filter_push(one, is_for);
    rest.lemma_filter_push(two, is_for);
    assert(lines_for(added(lines, path, first), path) == Seq::<Seq<char>>::empty().push(one));
    assert(without_path(added(lines, path, first), path) == rest);
    assert(lines_for(added(lines, path, second), path) =~= seq![two]);
}

/// The order of the lines decides the file: two sorted lists that hold
/// the same lines, each as often as the other, are the same list.
pub proof fn lemma_sorted_unique(a: Seq<Seq<char>>, b: Seq<Seq<char>>)
    requires
        sorted_lines(a),
        sorted_lines(b),
        a.to_multiset() == b.to_multiset(),
    ensures
        a == b,
    decreases a.len(),
{
    a.to_multiset_ensures();
    b.to_multiset_ensures();
    if a.len() == 0 {
        assert(a =~= b);
    } else {
        let x = a[0];
        let y = b[0];
        assert(a.contains(x));
        assert(b.contains(y));
        assert(a.to_multiset().count(x) > 0);
        assert(b.to_multiset().count(y) > 0);
        assert(b.contains(x));
        assert(a.contains(y));
        let k = choose|k: int| 0 <= k < b.len() && b[k] == x;
        let l = choose|l: int| 0 <= l < a.len() && a[l] == y;
        if k > 0 {
            assert(!lex_less(b[k], b[0]));
        }
        if l > 0 {
            assert(!lex_less(a[l], a[0]));
        }
        crate::text::lemma_lex_less_total(x, y);
        crate::text::lemma_lex_less_irreflexive(x);
        assert(x == y);
        let a1 = a.remove(0);
        let b1 = b.remove(0);
        assert forall|i: int, j: int| 0 <= i < j < a1.len() implies !lex_less(
            #[trigger] a1[j],
            #[trigger] a1[i],
        ) by {
            assert(a1[i] == a[i + 1] && a1[j] == a[j + 1]);
        }
        assert forall|i: int, j: int| 0 <= i < j < b1.len() implies !lex_less(
            #[trigger] b1[j],
            #[trigger] b1[i],
        ) by {
            assert(b1[i] == b[i + 1] && b1[j] == b[j + 1]);
        }
        lemma_sorted_unique(a1, b1);
        assert(a =~= seq![x] + a1);
        assert(b =~= seq![y] + b1);
    }
}

} // verus!
