//! What the picker has been given to show: lines arrive from two lanes, one
//! that seeds it from earlier choices and one that brings every candidate,
//! and each line is handed on once, at the end of what was handed on before.

use vstd::prelude::*;

verus! {

/// The state of the stream into the picker: the lines handed on so far, in
/// their order, and whether the stream still takes lines.
pub ghost struct PickerModel {
    pub sink: Seq<Seq<char>>,
    pub open: bool,
}

/// The stream after `line` was offered: a line not yet shown is appended
/// while the stream is open; otherwise nothing changes.
pub open spec fn offered(m: PickerModel, line: Seq<char>) -> PickerModel {
    if m.open && !m.sink.contains(line) {
        PickerModel { sink: m.sink.push(line), open: true }
    } else {
        m
    }
}

/// The stream after each of `lines` was offered, in their order.
pub open spec fn offered_all(m: PickerModel, lines: Seq<Seq<char>>) -> PickerModel
    decreases lines.len(),
{
    if lines.len() == 0 {
        m
    } else {
        offered(offered_all(m, lines.drop_last()), lines.last())
    }
}

/// Whatever is offered, in whatever order the lanes take turns: what was
/// shown stays where it is and new lines only follow it, no line is shown
/// twice, a closed stream takes nothing, and an open one ends up showing
/// every line that was offered.
pub proof fn lemma_offered_all(m: PickerModel, lines: Seq<Seq<char>>)
    requires
        m.sink.no_duplicates(),
    ensures
        offered_all(m, lines).sink.no_duplicates(),
        m.sink.is_prefix_of(offered_all(m, lines).sink),
        offered_all(m, lines).open == m.open,
        !m.open ==> offered_all(m, lines) == m,
        m.open ==> forall|i: int|
            0 <= i < lines.len() ==> offered_all(m, lines).sink.contains(#[trigger] lines[i]),
        forall|k: int|
            m.sink.len() <= k < offered_all(m, lines).sink.len() ==> lines.contains(
                #[trigger] offered_all(m, lines).sink[k],
            ),
    decreases lines.len(),
{
    if lines.len() > 0 {
        let head = lines.drop_last();
        let before = offered_all(m, head);
        let after = offered_all(m, lines);
        lemma_offered_all(m, head);
        if m.open {
            assert forall|i: int| 0 <= i < lines.len() implies after.sink.contains(
                #[trigger] lines[i],
            ) by {
                if i < head.len() {
                    assert(lines[i] == head[i]);
                    let w = choose|w: int| 0 <= w < before.sink.len() && before.sink[w] == head[i];
                    assert(after.sink[w] == lines[i]);
                } else if !before.sink.contains(lines.last()) {
                    assert(after.sink[after.sink.len() - 1] == lines[i]);
                }
            }
        }
        assert forall|k: int| m.sink.len() <= k < after.sink.len() implies lines.contains(
            #[trigger] after.sink[k],
        ) by {
            if k < before.sink.len() {
                assert(after.sink[k] == before.sink[k]);
                let w = choose|w: int| 0 <= w < head.len() && head[w] == before.sink[k];
                assert(lines[w] == head[w]);
            } else {
                assert(lines[lines.len() - 1] == after.sink[k]);
            }
        }
    }
}

/// The stream of lines into the picker.
#[derive(Debug)]
pub struct Picker {
    shown: Vec<String>,
    open: bool,
}

impl View for Picker {
    type V = PickerModel;

    closed spec fn view(&self) -> PickerModel {
        PickerModel { sink: self.shown.deep_view(), open: self.open }
    }
}

impl Picker {
    /// What holds of every stream, since a new one has it and every change
    /// keeps it: no line was handed on twice.
    pub open spec fn wf(&self) -> bool {
        self@.sink.no_duplicates()
    }

    /// An open stream that has shown nothing yet.
    pub fn new() -> (r: Picker)
        ensures
            r.wf(),
            r@ == (PickerModel { sink: Seq::empty(), open: true }),
    {
        let r = Picker { shown: Vec::new(), open: true };
        assert(r.shown.deep_view() =~= Seq::<Seq<char>>::empty());
        r
    }

    /// Whether the stream still takes lines.
    pub fn is_open(&self) -> (r: bool)
        ensures
            r == self@.open,
    {
        self.open
    }

    /// The lines handed on so far, in their order; none stands twice.
    pub fn shown(&self) -> (r: &Vec<String>)
        ensures
            r.deep_view() == self@.sink,
    {
        &self.shown
    }

    /// Whether `line` was handed on before.
    pub fn has_shown(&self, line: &str) -> (r: bool)
        ensures
            r == self@.sink.contains(line@),
    {
        let wanted = line.to_owned();
        let mut i: usize = 0;
        while i < self.shown.len()
            invariant
                i <= self.shown.len(),
                wanted@ == line@,
                forall|j: int| 0 <= j < i ==> self.shown.deep_view()[j] != line@,
            decreases self.shown.len() - i,
        {
            if self.shown[i] == wanted {
                assert(self.shown.deep_view()[i as int] == line@);
                return true;
            }
            i += 1;
        }
        false
    }

    /// Offers one line. The answer says whether it is to be written to the
    /// picker: it is when the stream is open and the line was not shown
    /// before, and it then counts as shown, after all that was.
    pub fn offer(&mut self, line: &str) -> (written: bool)
        ensures
            old(self).wf() ==> final(self).wf(),
            final(self)@ == offered(old(self)@, line@),
            written == (old(self)@.open && !old(self)@.sink.contains(line@)),
    {
        if !self.open || self.has_shown(line) {
            return false;
        }
        let ghost before = self.shown.deep_view();
        self.shown.push(line.to_owned());
        assert(self.shown.deep_view() =~= before.push(line@));
        true
    }

    /// Offers lines in their order and gives back those to be written to
    /// the picker, in the order in which they are to be written: the lines
    /// not shown before, each once, while the stream is open.
    pub fn offer_all(&mut self, lines: &Vec<String>) -> (fresh: Vec<String>)
        ensures
            old(self).wf() ==> final(self).wf(),
            final(self)@ == offered_all(old(self)@, lines.deep_view()),
            final(self)@.sink == old(self)@.sink + fresh.deep_view(),
    {
        let ghost start = self@;
        let ghost all = lines.deep_view();
        let mut fresh: Vec<String> = Vec::new();
        let mut i: usize = 0;
        proof {
            assert(start.sink + fresh.deep_view() =~= start.sink);
        }
        while i < lines.len()
            invariant
                i <= lines.len(),
                all == lines.deep_view(),
                self@ == offered_all(start, all.take(i as int)),
                self@.sink == start.sink + fresh.deep_view(),
                start.sink.no_duplicates() ==> self.wf(),
            decreases lines.len() - i,
        {
            let ghost before = fresh.deep_view();
            assert(all.take(i + 1).drop_last() =~= all.take(i as int));
            assert(all.take(i + 1).last() == all[i as int]);
            if self.offer(lines[i].as_str()) {
                fresh.push(lines[i].clone());
                assert(fresh.deep_view() =~= before.push(all[i as int]));
                assert(self@.sink =~= start.sink + fresh.deep_view());
            }
            i += 1;
        }
        assert(all.take(lines.len() as int) =~= all);
        fresh
    }

    /// Closes the stream: what was shown stays, and nothing more is taken.
    pub fn close(&mut self)
        ensures
            old(self).wf() ==> final(self).wf(),
            final(self)@ == (PickerModel { sink: old(self)@.sink, open: false }),
    {
        self.open = false;
    }
}

} // verus!
