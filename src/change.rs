//! Recorded edits: items that insert or delete a fragment of text, changes
//! made of such items, and their inverses.
use vstd::prelude::*;
use crate::text::{
    empty_fragment, end_fits, end_pos, extract, lemma_delete_inverse, lemma_insert_inverse,
    lemma_splice_wf, lines_view, lines_wf, pos_le, pos_ok, splice, splice_lines, text_ok, Cursor,
    Line, LineEnding, LineV,
};

verus! {

/// One recorded edit. An insertion put `text` at `start`, ending at `end`; a
/// deletion removed `text`, which ran from `start` to `end`.
pub struct ChangeItem {
    pub start: Cursor,
    pub end: Cursor,
    pub text: Vec<Line>,
    pub insert: bool,
}

pub struct ItemV {
    pub start: Cursor,
    pub end: Cursor,
    pub text: Seq<LineV>,
    pub insert: bool,
}

impl View for ChangeItem {
    type V = ItemV;

    open spec fn view(&self) -> ItemV {
        ItemV { start: self.start, end: self.end, text: lines_view(self.text@), insert: self.insert }
    }
}

/// A change: the items of one user action, in the order they were applied.
pub struct Change {
    pub items: Vec<ChangeItem>,
}

pub open spec fn items_view(v: Seq<ChangeItem>) -> Seq<ItemV> {
    Seq::new(v.len(), |i: int| v[i]@)
}

impl View for Change {
    type V = Seq<ItemV>;

    open spec fn view(&self) -> Seq<ItemV> {
        items_view(self.items@)
    }
}

/// `it` can be applied to `ls`, and records what applying it does.
pub open spec fn item_ok(ls: Seq<LineV>, it: ItemV) -> bool {
    &&& lines_wf(it.text)
    &&& pos_ok(ls, it.start)
    &&& if it.insert {
        end_fits(it.start, it.text) && it.end == end_pos(it.start, it.text)
    } else {
        pos_ok(ls, it.end) && pos_le(it.start, it.end) && it.text == extract(ls, it.start, it.end)
    }
}

pub open spec fn apply_item(ls: Seq<LineV>, it: ItemV) -> Seq<LineV> {
    if it.insert {
        splice(ls, it.start, it.start, it.text)
    } else {
        splice(ls, it.start, it.end, empty_fragment())
    }
}

/// The item that undoes `it`.
pub open spec fn flip(it: ItemV) -> ItemV {
    ItemV { insert: !it.insert, ..it }
}

/// Each item of `c` can be applied in turn, starting from `ls`.
pub open spec fn change_ok(ls: Seq<LineV>, c: Seq<ItemV>) -> bool
    decreases c.len(),
{
    c.len() == 0 || (item_ok(ls, c[0]) && change_ok(apply_item(ls, c[0]), c.skip(1)))
}

pub open spec fn apply_change(ls: Seq<LineV>, c: Seq<ItemV>) -> Seq<LineV>
    decreases c.len(),
{
    if c.len() == 0 {
        ls
    } else {
        apply_change(apply_item(ls, c[0]), c.skip(1))
    }
}

/// The change that undoes `c`: its items flipped, last first.
pub open spec fn reverse_change(c: Seq<ItemV>) -> Seq<ItemV> {
    Seq::new(c.len(), |i: int| flip(c[c.len() - 1 - i]))
}

pub proof fn lemma_item_inverse(ls: Seq<LineV>, it: ItemV)
    requires
        lines_wf(ls),
        item_ok(ls, it),
    ensures
        lines_wf(apply_item(ls, it)),
        item_ok(apply_item(ls, it), flip(it)),
        apply_item(apply_item(ls, it), flip(it)) == ls,
{
    if it.insert {
        lemma_insert_inverse(ls, it.start, it.text);
        lemma_splice_wf(ls, it.start, it.start, it.text);
    } else {
        lemma_delete_inverse(ls, it.start, it.end);
        assert(lines_wf(empty_fragment())) by {
            assert forall|i: int| 0 <= i < 1 implies text_ok(#[trigger] empty_fragment()[i].text) by {
            }
        }
        lemma_splice_wf(ls, it.start, it.end, empty_fragment());
    }
}

pub proof fn lemma_change_concat(ls: Seq<LineV>, p: Seq<ItemV>, q: Seq<ItemV>)
    ensures
        change_ok(ls, p + q) == (change_ok(ls, p) && change_ok(apply_change(ls, p), q)),
        apply_change(ls, p + q) == apply_change(apply_change(ls, p), q),
    decreases p.len(),
{
    if p.len() == 0 {
        assert(p + q =~= q);
    } else {
        assert((p + q)[0] == p[0]);
        assert((p + q).skip(1) =~= p.skip(1) + q);
        lemma_change_concat(apply_item(ls, p[0]), p.skip(1), q);
    }
}

pub proof fn lemma_change_one(ls: Seq<LineV>, it: ItemV)
    ensures
        change_ok(ls, seq![it]) == item_ok(ls, it),
        apply_change(ls, seq![it]) == apply_item(ls, it),
{
    assert(seq![it].skip(1) =~= Seq::<ItemV>::empty());
    assert(seq![it][0] == it);
    let e = Seq::<ItemV>::empty();
    assert(change_ok(apply_item(ls, it), e));
    assert(apply_change(apply_item(ls, it), e) == apply_item(ls, it));
}

pub proof fn lemma_change_wf(ls: Seq<LineV>, c: Seq<ItemV>)
    requires
        lines_wf(ls),
        change_ok(ls, c),
    ensures
        lines_wf(apply_change(ls, c)),
    decreases c.len(),
{
    if c.len() > 0 {
        lemma_item_inverse(ls, c[0]);
        lemma_change_wf(apply_item(ls, c[0]), c.skip(1));
    }
}

/// Applying a change and then its reverse gives the lines back, and the
/// reverse can always be applied.
pub proof fn lemma_change_inverse(ls: Seq<LineV>, c: Seq<ItemV>)
    requires
        lines_wf(ls),
        change_ok(ls, c),
    ensures
        lines_wf(apply_change(ls, c)),
        change_ok(apply_change(ls, c), reverse_change(c)),
        apply_change(apply_change(ls, c), reverse_change(c)) == ls,
    decreases c.len(),
{
    lemma_change_wf(ls, c);
    if c.len() > 0 {
        let it = c[0];
        let ls1 = apply_item(ls, it);
        let rest = c.skip(1);
        lemma_item_inverse(ls, it);
        lemma_change_inverse(ls1, rest);
        assert(reverse_change(c) =~= reverse_change(rest) + seq![flip(it)]);
        let top = apply_change(ls1, rest);
        lemma_change_concat(top, reverse_change(rest), seq![flip(it)]);
        lemma_change_one(ls1, flip(it));
    }
}

pub proof fn lemma_reverse_twice(c: Seq<ItemV>)
    ensures
        reverse_change(reverse_change(c)) == c,
{
    assert(reverse_change(reverse_change(c)) =~= c);
}

impl Change {
    /// An empty change.
    pub fn new() -> (r: Change)
        ensures
            r@ == Seq::<ItemV>::empty(),
    {
        let r = Change { items: Vec::new() };
        assert(r@ =~= Seq::<ItemV>::empty());
        r
    }

    /// Whether the change holds no item.
    pub fn is_empty(&self) -> (r: bool)
        ensures
            r == (self@.len() == 0),
    {
        self.items.len() == 0
    }

    /// Adds an item after the others.
    pub fn push(&mut self, it: ChangeItem)
        ensures
            final(self)@ == old(self)@.push(it@),
    {
        self.items.push(it);
        assert(self@ =~= old(self)@.push(it@));
    }

    /// Turns the change into the one that undoes it.
    pub fn reverse(self) -> (r: Change)
        ensures
            r@ == reverse_change(self@),
    {
        let ghost c = self@;
        let mut items = self.items;
        let mut out: Vec<ChangeItem> = Vec::new();
        while items.len() > 0
            invariant
                items_view(items@) == c.take(items@.len() as int),
                items@.len() <= c.len(),
                items_view(out@) == reverse_change(c).take(c.len() - items@.len()),
            decreases items.len(),
        {
            let ghost before = items@;
            let it = items.pop().unwrap();
            let flipped = ChangeItem { start: it.start, end: it.end, text: it.text, insert: !it.insert };
            let ghost before_out = items_view(out@);
            out.push(flipped);
            proof {
                assert(before =~= items@.push(it));
                assert(items_view(before)[items@.len() as int] == before[items@.len() as int]@);
                assert(it@ == c[items@.len() as int]);
                assert(items_view(items@) =~= c.take(items@.len() as int));
                assert(items_view(out@) =~= before_out + seq![flipped@]);
                assert(reverse_change(c).take(c.len() - items@.len()) =~= reverse_change(c).take(
                    c.len() - items@.len() - 1,
                ) + seq![flipped@]);
            }
        }
        let r = Change { items: out };
        assert(r@ =~= reverse_change(c));
        r
    }
}

/// Applies the edit `it` to `ls`.
pub fn apply_item_lines(ls: &mut Vec<Line>, it: &ChangeItem)
    requires
        lines_wf(lines_view(old(ls)@)),
        item_ok(lines_view(old(ls)@), it@),
    ensures
        lines_view(final(ls)@) == apply_item(lines_view(old(ls)@), it@),
{
    if it.insert {
        splice_lines(ls, it.start, it.start, &it.text);
    } else {
        let empty = vec![Line { text: Vec::new(), ending: LineEnding::NoEnding }];
        assert(lines_view(empty@) =~= empty_fragment());
        splice_lines(ls, it.start, it.end, &empty);
    }
}

/// Applies each item of `c` in turn to `ls`.
pub fn apply_change_lines(ls: &mut Vec<Line>, c: &Change)
    requires
        lines_wf(lines_view(old(ls)@)),
        change_ok(lines_view(old(ls)@), c@),
    ensures
        lines_view(final(ls)@) == apply_change(lines_view(old(ls)@), c@),
        lines_wf(lines_view(final(ls)@)),
{
    let ghost start = lines_view(ls@);
    let mut i: usize = 0;
    proof {
        assert(c@.take(0) =~= Seq::<ItemV>::empty());
        assert(c@.skip(0) =~= c@);
    }
    while i < c.items.len()
        invariant
            i <= c@.len(),
            c@.len() == c.items.len(),
            lines_wf(start),
            change_ok(start, c@),
            lines_view(ls@) == apply_change(start, c@.take(i as int)),
            lines_wf(lines_view(ls@)),
            change_ok(lines_view(ls@), c@.skip(i as int)),
        decreases c.items.len() - i,
    {
        let ghost cur = lines_view(ls@);
        proof {
            assert(c@.skip(i as int)[0] == c.items@[i as int]@);
            lemma_item_inverse(cur, c@[i as int]);
        }
        apply_item_lines(ls, &c.items[i]);
        i = i + 1;
        proof {
            assert(c@.take(i as int) =~= c@.take(i - 1) + seq![c@[i - 1]]);
            lemma_change_concat(start, c@.take(i - 1), seq![c@[i - 1]]);
            lemma_change_one(cur, c@[i - 1]);
            assert(c@.skip(i - 1).skip(1) =~= c@.skip(i as int));
        }
    }
    proof {
        assert(c@.take(i as int) =~= c@);
        lemma_change_wf(start, c@);
    }
}

} // verus!
