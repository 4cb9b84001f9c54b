//! Lines of text with their line endings, and the conversion between a flat
//! character sequence and lines.
use vstd::prelude::*;

verus! {

/// The terminator recorded for a line, kept as it was read.
#[derive(Clone, Copy, Debug, PartialEq, Eq, Structural)]
pub enum LineEnding {
    Lf,
    CrLf,
    Cr,
    LfCr,
    /// The last line of a text has no terminator.
    NoEnding,
}

pub open spec fn ending_chars(e: LineEnding) -> Seq<char> {
    match e {
        LineEnding::Lf => seq!['\n'],
        LineEnding::CrLf => seq!['\r', '\n'],
        LineEnding::Cr => seq!['\r'],
        LineEnding::LfCr => seq!['\n', '\r'],
        LineEnding::NoEnding => Seq::<char>::empty(),
    }
}

pub open spec fn is_break(c: char) -> bool {
    c == '\n' || c == '\r'
}

/// A line as the contracts see it.
pub struct LineV {
    pub text: Seq<char>,
    pub ending: LineEnding,
}

/// One line: its characters (without the terminator) and its terminator.
pub struct Line {
    pub text: Vec<char>,
    pub ending: LineEnding,
}

impl View for Line {
    type V = LineV;

    open spec fn view(&self) -> LineV {
        LineV { text: self.text@, ending: self.ending }
    }
}

pub open spec fn lines_view(v: Seq<Line>) -> Seq<LineV> {
    Seq::new(v.len(), |i: int| v[i]@)
}

pub open spec fn text_ok(t: Seq<char>) -> bool {
    forall|i: int| 0 <= i < t.len() ==> !is_break(#[trigger] t[i])
}

/// Well-formed lines: at least one line, no line break inside a line's text,
/// every line but the last terminated, the last one not.
pub open spec fn lines_wf(ls: Seq<LineV>) -> bool {
    &&& ls.len() >= 1
    &&& forall|i: int| 0 <= i < ls.len() ==> text_ok(#[trigger] ls[i].text)
    &&& forall|i: int| 0 <= i < ls.len() - 1 ==> (#[trigger] ls[i].ending) != LineEnding::NoEnding
    &&& ls.last().ending == LineEnding::NoEnding
}

/// Adds `t` in front of the first line of `ls`.
pub open spec fn prepend_text(t: Seq<char>, ls: Seq<LineV>) -> Seq<LineV>
    recommends
        ls.len() >= 1,
{
    ls.update(0, LineV { text: t + ls[0].text, ending: ls[0].ending })
}

/// Splits a character sequence into lines. A line ends at `\r\n`, `\n\r`,
/// `\n` or `\r` (the two-character forms take precedence); what follows the
/// last terminator is the last line, empty when the text ends with one.
pub open spec fn parse(s: Seq<char>) -> Seq<LineV>
    decreases s.len(),
{
    if s.len() == 0 {
        seq![LineV { text: Seq::empty(), ending: LineEnding::NoEnding }]
    } else if s[0] == '\r' {
        if s.len() >= 2 && s[1] == '\n' {
            seq![LineV { text: Seq::empty(), ending: LineEnding::CrLf }] + parse(s.skip(2))
        } else {
            seq![LineV { text: Seq::empty(), ending: LineEnding::Cr }] + parse(s.skip(1))
        }
    } else if s[0] == '\n' {
        if s.len() >= 2 && s[1] == '\r' {
            seq![LineV { text: Seq::empty(), ending: LineEnding::LfCr }] + parse(s.skip(2))
        } else {
            seq![LineV { text: Seq::empty(), ending: LineEnding::Lf }] + parse(s.skip(1))
        }
    } else {
        prepend_text(seq![s[0]], parse(s.skip(1)))
    }
}

/// The characters of one line followed by its terminator.
pub open spec fn line_chars(l: LineV) -> Seq<char> {
    l.text + ending_chars(l.ending)
}

/// The flat text of a sequence of lines.
pub open spec fn serialize_lines(ls: Seq<LineV>) -> Seq<char>
    decreases ls.len(),
{
    if ls.len() == 0 {
        Seq::empty()
    } else {
        line_chars(ls[0]) + serialize_lines(ls.skip(1))
    }
}

pub proof fn lemma_parse_nonempty(s: Seq<char>)
    ensures
        parse(s).len() >= 1,
    decreases s.len(),
{
    if s.len() > 0 {
        lemma_parse_nonempty(s.skip(1));
        if s.len() >= 2 {
            lemma_parse_nonempty(s.skip(2));
        }
    }
}

pub proof fn lemma_parse_wf(s: Seq<char>)
    ensures
        lines_wf(parse(s)),
    decreases s.len(),
{
    lemma_parse_nonempty(s);
    if s.len() > 0 {
        lemma_parse_wf(s.skip(1));
        if s.len() >= 2 {
            lemma_parse_wf(s.skip(2));
        }
        let p = parse(s);
        if !is_break(s[0]) {
            let q = parse(s.skip(1));
            assert forall|i: int| 0 <= i < p.len() implies text_ok(#[trigger] p[i].text) by {
                if i == 0 {
                    assert forall|j: int| 0 <= j < p[0].text.len() implies !is_break(
                        #[trigger] p[0].text[j],
                    ) by {
                        if j > 0 {
                            assert(p[0].text[j] == q[0].text[j - 1]);
                        }
                    }
                }
            }
        }
    }
}

pub proof fn lemma_serialize_concat(a: Seq<LineV>, b: Seq<LineV>)
    ensures
        serialize_lines(a + b) == serialize_lines(a) + serialize_lines(b),
    decreases a.len(),
{
    if a.len() == 0 {
        assert(a + b =~= b);
    } else {
        assert((a + b).skip(1) =~= a.skip(1) + b);
        lemma_serialize_concat(a.skip(1), b);
        assert(serialize_lines(a + b) =~= serialize_lines(a) + serialize_lines(b));
    }
}

pub proof fn lemma_serialize_one(l: LineV)
    ensures
        serialize_lines(seq![l]) == line_chars(l),
{
    assert(seq![l].skip(1) =~= Seq::<LineV>::empty());
    assert(serialize_lines(Seq::<LineV>::empty()) == Seq::<char>::empty());
    assert(serialize_lines(seq![l]) =~= line_chars(l));
}

pub proof fn lemma_serialize_prepend(t: Seq<char>, ls: Seq<LineV>)
    requires
        ls.len() >= 1,
    ensures
        serialize_lines(prepend_text(t, ls)) == t + serialize_lines(ls),
{
    let p = prepend_text(t, ls);
    assert(p.skip(1) =~= ls.skip(1));
    assert(serialize_lines(p) =~= t + serialize_lines(ls));
}

/// Splitting a text into lines and joining them again gives the text back.
pub proof fn lemma_parse_serialize(s: Seq<char>)
    ensures
        serialize_lines(parse(s)) == s,
    decreases s.len(),
{
    if s.len() == 0 {
        lemma_serialize_one(LineV { text: Seq::empty(), ending: LineEnding::NoEnding });
        assert(serialize_lines(parse(s)) =~= s);
    } else {
        let k: int = if s.len() >= 2 && ((s[0] == '\r' && s[1] == '\n') || (s[0] == '\n' && s[1]
            == '\r')) {
            2
        } else {
            1
        };
        lemma_parse_serialize(s.skip(k));
        if is_break(s[0]) {
            let l = parse(s)[0];
            assert(parse(s) =~= seq![l] + parse(s.skip(k)));
            lemma_serialize_concat(seq![l], parse(s.skip(k)));
            lemma_serialize_one(l);
            assert(serialize_lines(parse(s)) =~= s);
        } else {
            lemma_parse_nonempty(s.skip(1));
            lemma_serialize_prepend(seq![s[0]], parse(s.skip(1)));
            assert(serialize_lines(parse(s)) =~= s);
        }
    }
}

proof fn lemma_parse_step(s: Seq<char>, i: int)
    requires
        0 <= i < s.len(),
    ensures
        !is_break(s[i]) ==> parse(s.skip(i)) == prepend_text(seq![s[i]], parse(s.skip(i + 1))),
        s[i] == '\r' && i + 1 < s.len() && s[i + 1] == '\n' ==> parse(s.skip(i)) == seq![
            LineV { text: Seq::empty(), ending: LineEnding::CrLf },
        ] + parse(s.skip(i + 2)),
        s[i] == '\r' && !(i + 1 < s.len() && s[i + 1] == '\n') ==> parse(s.skip(i)) == seq![
            LineV { text: Seq::empty(), ending: LineEnding::Cr },
        ] + parse(s.skip(i + 1)),
        s[i] == '\n' && i + 1 < s.len() && s[i + 1] == '\r' ==> parse(s.skip(i)) == seq![
            LineV { text: Seq::empty(), ending: LineEnding::LfCr },
        ] + parse(s.skip(i + 2)),
        s[i] == '\n' && !(i + 1 < s.len() && s[i + 1] == '\r') ==> parse(s.skip(i)) == seq![
            LineV { text: Seq::empty(), ending: LineEnding::Lf },
        ] + parse(s.skip(i + 1)),
{
    let t = s.skip(i);
    assert(t.skip(1) =~= s.skip(i + 1));
    if i + 1 < s.len() {
        assert(t.skip(2) =~= s.skip(i + 2));
    }
    assert(t[0] == s[i]);
}

proof fn lemma_prepend_prepend(a: Seq<char>, b: Seq<char>, ls: Seq<LineV>)
    requires
        ls.len() >= 1,
    ensures
        prepend_text(a, prepend_text(b, ls)) == prepend_text(a + b, ls),
{
    assert(a + (b + ls[0].text) =~= (a + b) + ls[0].text);
    assert(prepend_text(a, prepend_text(b, ls)) =~= prepend_text(a + b, ls));
}

proof fn lemma_prepend_line(a: Seq<char>, e: LineEnding, ls: Seq<LineV>)
    ensures
        prepend_text(a, seq![LineV { text: Seq::empty(), ending: e }] + ls) == seq![
            LineV { text: a, ending: e },
        ] + ls,
{
    assert(a + Seq::<char>::empty() =~= a);
    assert(prepend_text(a, seq![LineV { text: Seq::empty(), ending: e }] + ls) =~= seq![
        LineV { text: a, ending: e },
    ] + ls);
}

proof fn lemma_prepend_empty(ls: Seq<LineV>)
    requires
        ls.len() >= 1,
    ensures
        prepend_text(Seq::empty(), ls) == ls,
{
    assert(Seq::<char>::empty() + ls[0].text =~= ls[0].text);
    assert(prepend_text(Seq::empty(), ls) =~= ls);
}

/// Relies on `str::chars`: the characters of the string, in order.
#[verifier::external_body]
fn chars_of(s: &str) -> (r: Vec<char>)
    ensures
        r@ == s@,
{
    s.chars().collect()
}

/// Relies on collecting characters into a `String`: the same characters, in order.
#[verifier::external_body]
pub(crate) fn string_of(v: &Vec<char>) -> (r: String)
    ensures
        r@ == v@,
{
    v.iter().collect()
}

/// Splits `s` into lines, keeping each line's terminator.
pub fn parse_text(s: &str) -> (r: Vec<Line>)
    ensures
        lines_view(r@) == parse(s@),
        lines_wf(lines_view(r@)),
{
    let cs = chars_of(s);
    parse_chars(&cs)
}

/// Splits the characters `cs` into lines, keeping each line's terminator.
pub fn parse_chars(cs: &Vec<char>) -> (r: Vec<Line>)
    ensures
        lines_view(r@) == parse(cs@),
        lines_wf(lines_view(r@)),
{
    let mut out: Vec<Line> = Vec::new();
    let mut cur: Vec<char> = Vec::new();
    let mut i: usize = 0;
    proof {
        lemma_parse_nonempty(cs@);
        lemma_prepend_empty(parse(cs@));
        assert(cs@.skip(0) =~= cs@);
        assert(lines_view(out@) =~= Seq::<LineV>::empty());
        assert(Seq::<LineV>::empty() + parse(cs@) =~= parse(cs@));
    }
    while i < cs.len()
        invariant
            i <= cs.len(),
            lines_view(out@) + prepend_text(cur@, parse(cs@.skip(i as int))) == parse(cs@),
        decreases cs.len() - i,
    {
        let c = cs[i];
        proof {
            lemma_parse_step(cs@, i as int);
        }
        if c == '\r' || c == '\n' {
            let e: LineEnding;
            let k: usize;
            if c == '\r' {
                if i + 1 < cs.len() && cs[i + 1] == '\n' {
                    e = LineEnding::CrLf;
                    k = 2;
                } else {
                    e = LineEnding::Cr;
                    k = 1;
                }
            } else {
                if i + 1 < cs.len() && cs[i + 1] == '\r' {
                    e = LineEnding::LfCr;
                    k = 2;
                } else {
                    e = LineEnding::Lf;
                    k = 1;
                }
            }
            let ghost rest = parse(cs@.skip(i + k));
            let ghost old_out = lines_view(out@);
            proof {
                lemma_prepend_line(cur@, e, rest);
                lemma_parse_nonempty(cs@.skip(i + k));
                lemma_prepend_empty(rest);
            }
            let line = Line { text: cur, ending: e };
            out.push(line);
            cur = Vec::new();
            i = i + k;
            proof {
                assert(lines_view(out@) =~= old_out + seq![LineV { text: line.text@, ending: e }]);
                assert(lines_view(out@) + prepend_text(cur@, parse(cs@.skip(i as int))) =~= old_out
                    + (seq![LineV { text: line.text@, ending: e }] + rest));
            }
        } else {
            let ghost old_cur = cur@;
            proof {
                lemma_parse_nonempty(cs@.skip(i + 1));
                lemma_prepend_prepend(cur@, seq![c], parse(cs@.skip(i + 1)));
            }
            cur.push(c);
            i = i + 1;
            proof {
                assert(cur@ =~= old_cur + seq![c]);
            }
        }
    }
    let ghost old_out = lines_view(out@);
    proof {
        assert(cs@.skip(i as int) =~= Seq::<char>::empty());
        lemma_prepend_line(cur@, LineEnding::NoEnding, Seq::empty());
    }
    let last = Line { text: cur, ending: LineEnding::NoEnding };
    out.push(last);
    proof {
        assert(seq![LineV { text: last.text@, ending: LineEnding::NoEnding }] + Seq::<LineV>::empty()
            =~= seq![LineV { text: last.text@, ending: LineEnding::NoEnding }]);
        assert(lines_view(out@) =~= old_out + seq![
            LineV { text: last.text@, ending: LineEnding::NoEnding },
        ]);
        lemma_parse_wf(cs@);
    }
    out
}

/// Appends the characters of `src` to `out`.
pub fn append_chars(out: &mut Vec<char>, src: &Vec<char>)
    ensures
        final(out)@ == old(out)@ + src@,
{
    let ghost start = out@;
    let mut i: usize = 0;
    while i < src.len()
        invariant
            i <= src.len(),
            out@ == start + src@.take(i as int),
        decreases src.len() - i,
    {
        out.push(src[i]);
        i = i + 1;
        proof {
            assert(src@.take(i as int) =~= src@.take(i - 1) + seq![src@[i - 1]]);
        }
    }
    proof {
        assert(src@.take(i as int) =~= src@);
    }
}

/// The characters of `src` from `from` up to `to`.
pub fn copy_range(src: &Vec<char>, from: usize, to: usize) -> (r: Vec<char>)
    requires
        from <= to <= src.len(),
    ensures
        r@ == src@.subrange(from as int, to as int),
{
    let mut r: Vec<char> = Vec::new();
    let mut i: usize = from;
    while i < to
        invariant
            from <= i <= to <= src.len(),
            r@ == src@.subrange(from as int, i as int),
        decreases to - i,
    {
        r.push(src[i]);
        i = i + 1;
        proof {
            assert(src@.subrange(from as int, i as int) =~= src@.subrange(from as int, i - 1)
                + seq![src@[i - 1]]);
        }
    }
    r
}

fn push_ending(out: &mut Vec<char>, e: LineEnding)
    ensures
        final(out)@ == old(out)@ + ending_chars(e),
{
    let ghost start = out@;
    match e {
        LineEnding::Lf => {
            out.push('\n');
        },
        LineEnding::CrLf => {
            out.push('\r');
            out.push('\n');
        },
        LineEnding::Cr => {
            out.push('\r');
        },
        LineEnding::LfCr => {
            out.push('\n');
            out.push('\r');
        },
        LineEnding::NoEnding => {},
    }
    assert(out@ =~= start + ending_chars(e));
}

/// The flat text of `ls`: each line's characters followed by its terminator.
pub fn serialize_text(ls: &Vec<Line>) -> (r: String)
    ensures
        r@ == serialize_lines(lines_view(ls@)),
{
    let mut out: Vec<char> = Vec::new();
    let mut i: usize = 0;
    let ghost lv = lines_view(ls@);
    proof {
        assert(lv.take(0) =~= Seq::<LineV>::empty());
    }
    while i < ls.len()
        invariant
            i <= ls.len(),
            lv == lines_view(ls@),
            out@ == serialize_lines(lv.take(i as int)),
        decreases ls.len() - i,
    {
        append_chars(&mut out, &ls[i].text);
        push_ending(&mut out, ls[i].ending);
        proof {
            assert(lv.take(i + 1) =~= lv.take(i as int) + seq![lv[i as int]]);
            lemma_serialize_concat(lv.take(i as int), seq![lv[i as int]]);
            lemma_serialize_one(lv[i as int]);
        }
        i = i + 1;
    }
    proof {
        assert(lv.take(i as int) =~= lv);
    }
    string_of(&out)
}

/// A caret position: a line number and a character offset into that line.
#[derive(Clone, Copy, Debug, PartialEq, Eq, Structural)]
pub struct Cursor {
    pub line: usize,
    pub index: usize,
}

impl Cursor {
    pub fn new(line: usize, index: usize) -> (r: Cursor)
        ensures
            r.line == line,
            r.index == index,
    {
        Cursor { line, index }
    }
}

/// `c` denotes a position of `ls`.
pub open spec fn pos_ok(ls: Seq<LineV>, c: Cursor) -> bool {
    c.line < ls.len() && c.index <= ls[c.line as int].text.len()
}

/// `a` comes before `b` or is `b`.
pub open spec fn pos_le(a: Cursor, b: Cursor) -> bool {
    a.line < b.line || (a.line == b.line && a.index <= b.index)
}

/// The text of one empty line, the neutral fragment.
pub open spec fn empty_fragment() -> Seq<LineV> {
    seq![LineV { text: Seq::empty(), ending: LineEnding::NoEnding }]
}

/// The lines that replace a range: the fragment `f`, with `pre` in front of
/// its first line, `post` after its last line, and `e` as the last line's
/// terminator.
pub open spec fn splice_mid(pre: Seq<char>, post: Seq<char>, e: LineEnding, f: Seq<LineV>) -> Seq<
    LineV,
> {
    Seq::new(
        f.len(),
        |m: int|
            LineV {
                text: (if m == 0 {
                    pre
                } else {
                    Seq::empty()
                }) + f[m].text + (if m == f.len() - 1 {
                    post
                } else {
                    Seq::empty()
                }),
                ending: if m == f.len() - 1 {
                    e
                } else {
                    f[m].ending
                },
            },
    )
}

/// The lines `ls` with the text from `a` up to `b` replaced by the fragment `f`.
pub open spec fn splice(ls: Seq<LineV>, a: Cursor, b: Cursor, f: Seq<LineV>) -> Seq<LineV> {
    ls.take(a.line as int) + splice_mid(
        ls[a.line as int].text.take(a.index as int),
        ls[b.line as int].text.skip(b.index as int),
        ls[b.line as int].ending,
        f,
    ) + ls.skip(b.line + 1)
}

/// The text of `ls` from `a` up to `b`, as a fragment.
pub open spec fn extract(ls: Seq<LineV>, a: Cursor, b: Cursor) -> Seq<LineV> {
    let n = b.line - a.line + 1;
    Seq::new(
        n as nat,
        |m: int|
            LineV {
                text: ls[a.line + m].text.subrange(
                    if m == 0 {
                        a.index as int
                    } else {
                        0
                    },
                    if m == n - 1 {
                        b.index as int
                    } else {
                        ls[a.line + m].text.len() as int
                    },
                ),
                ending: if m == n - 1 {
                    LineEnding::NoEnding
                } else {
                    ls[a.line + m].ending
                },
            },
    )
}

/// Where the end of fragment `f` lands when it is inserted at `a`.
pub open spec fn end_pos(a: Cursor, f: Seq<LineV>) -> Cursor {
    Cursor {
        line: (a.line + f.len() - 1) as usize,
        index: ((if f.len() == 1 {
            a.index as int
        } else {
            0
        }) + f.last().text.len()) as usize,
    }
}

/// The end of `f` inserted at `a` is a representable position.
pub open spec fn end_fits(a: Cursor, f: Seq<LineV>) -> bool {
    &&& a.line + f.len() - 1 <= usize::MAX
    &&& (if f.len() == 1 {
        a.index as int
    } else {
        0
    }) + f.last().text.len() <= usize::MAX
}

proof fn lemma_view_remove(s: Seq<Line>, i: int)
    requires
        0 <= i < s.len(),
    ensures
        lines_view(s.remove(i)) == lines_view(s).remove(i),
{
    assert(lines_view(s.remove(i)) =~= lines_view(s).remove(i));
}

proof fn lemma_view_insert(s: Seq<Line>, i: int, x: Line)
    requires
        0 <= i <= s.len(),
    ensures
        lines_view(s.insert(i, x)) == lines_view(s).insert(i, x@),
{
    assert(lines_view(s.insert(i, x)) =~= lines_view(s).insert(i, x@));
}

/// Replaces the text of `ls` from `a` up to `b` with the fragment `f`.
pub fn splice_lines(ls: &mut Vec<Line>, a: Cursor, b: Cursor, f: &Vec<Line>)
    requires
        pos_ok(lines_view(old(ls)@), a),
        pos_ok(lines_view(old(ls)@), b),
        pos_le(a, b),
        f.len() >= 1,
    ensures
        lines_view(final(ls)@) == splice(lines_view(old(ls)@), a, b, lines_view(f@)),
{
    let ghost old_lv = lines_view(ls@);
    let ghost fv = lines_view(f@);
    assert(old_lv.len() == ls@.len());
    let pre = copy_range(&ls[a.line].text, 0, a.index);
    let post = copy_range(&ls[b.line].text, b.index, ls[b.line].text.len());
    let e = ls[b.line].ending;
    let ghost mid = splice_mid(pre@, post@, e, fv);
    proof {
        assert(pre@ =~= old_lv[a.line as int].text.take(a.index as int));
        assert(post@ =~= old_lv[b.line as int].text.skip(b.index as int));
    }
    let mut r: usize = 0;
    assert(a.line <= b.line < ls.len());
    let count = (b.line - a.line) + 1;
    proof {
        assert(lines_view(ls@) =~= old_lv.take(a.line as int) + old_lv.skip(a.line as int));
    }
    while r < count
        invariant
            a.line <= b.line < old_lv.len(),
            count == b.line - a.line + 1,
            r <= count,
            ls.len() == old_lv.len() - r,
            lines_view(ls@) == old_lv.take(a.line as int) + old_lv.skip(a.line + r),
        decreases count - r,
    {
        let ghost before = ls@;
        ls.remove(a.line);
        r = r + 1;
        proof {
            assert(ls@ =~= before.remove(a.line as int));
            lemma_view_remove(before, a.line as int);
            assert((old_lv.take(a.line as int) + old_lv.skip(a.line + r - 1)).remove(a.line as int)
                =~= old_lv.take(a.line as int) + old_lv.skip(a.line + r));
            assert(lines_view(ls@) =~= old_lv.take(a.line as int) + old_lv.skip(a.line + r));
        }
    }
    let k = f.len();
    let mut m: usize = 0;
    proof {
        assert(lines_view(ls@) =~= old_lv.take(a.line as int) + mid.take(0) + old_lv.skip(
            b.line + 1,
        ));
    }
    while m < k
        invariant
            k == f.len() == fv.len() == mid.len(),
            fv == lines_view(f@),
            mid == splice_mid(pre@, post@, e, fv),
            a.line <= b.line < old_lv.len(),
            m <= k,
            ls.len() == a.line + m + (old_lv.len() - b.line - 1),
            lines_view(ls@) == old_lv.take(a.line as int) + mid.take(m as int) + old_lv.skip(
                b.line + 1,
            ),
        decreases k - m,
    {
        let mut text: Vec<char> = if m == 0 {
            copy_range(&pre, 0, pre.len())
        } else {
            Vec::new()
        };
        append_chars(&mut text, &f[m].text);
        if m == k - 1 {
            append_chars(&mut text, &post);
        }
        let ending = if m == k - 1 {
            e
        } else {
            f[m].ending
        };
        let line = Line { text, ending };
        proof {
            assert(line@.text =~= mid[m as int].text);
            assert(line@ == mid[m as int]);
        }
        let ghost before = ls@;
        ls.insert(a.line + m, line);
        m = m + 1;
        proof {
            assert(ls@ =~= before.insert(a.line + m - 1, line));
            lemma_view_insert(before, a.line + m - 1, line);
            assert((old_lv.take(a.line as int) + mid.take(m - 1) + old_lv.skip(b.line + 1)).insert(
                a.line + m - 1,
                line@,
            ) =~= old_lv.take(a.line as int) + mid.take(m as int) + old_lv.skip(b.line + 1));
            assert(mid.take(m as int) =~= mid.take(m - 1) + seq![mid[m - 1]]);
            assert(lines_view(ls@) =~= old_lv.take(a.line as int) + mid.take(m as int)
                + old_lv.skip(b.line + 1));
        }
    }
    proof {
        assert(mid.take(m as int) =~= mid);
    }
}

/// Copies the text of `ls` from `a` up to `b`.
pub fn extract_lines(ls: &Vec<Line>, a: Cursor, b: Cursor) -> (r: Vec<Line>)
    requires
        pos_ok(lines_view(ls@), a),
        pos_ok(lines_view(ls@), b),
        pos_le(a, b),
    ensures
        lines_view(r@) == extract(lines_view(ls@), a, b),
{
    let ghost lv = lines_view(ls@);
    let ghost x = extract(lv, a, b);
    assert(lv.len() == ls@.len());
    assert(a.line <= b.line < ls.len());
    let n = (b.line - a.line) + 1;
    let mut r: Vec<Line> = Vec::new();
    let mut m: usize = 0;
    while m < n
        invariant
            lv == lines_view(ls@),
            x == extract(lv, a, b),
            a.line <= b.line < lv.len(),
            pos_ok(lv, a),
            pos_ok(lv, b),
            pos_le(a, b),
            n == b.line - a.line + 1,
            m <= n,
            lines_view(r@) == x.take(m as int),
        decreases n - m,
    {
        let src = &ls[a.line + m];
        let from = if m == 0 {
            a.index
        } else {
            0
        };
        let to = if m == n - 1 {
            b.index
        } else {
            src.text.len()
        };
        let text = copy_range(&src.text, from, to);
        let ending = if m == n - 1 {
            LineEnding::NoEnding
        } else {
            src.ending
        };
        let line = Line { text, ending };
        proof {
            assert(line@ == x[m as int]);
        }
        let ghost before = lines_view(r@);
        r.push(line);
        m = m + 1;
        proof {
            assert(x.take(m as int) =~= x.take(m - 1) + seq![x[m - 1]]);
            assert(lines_view(r@) =~= before + seq![line@]);
        }
    }
    proof {
        assert(x.take(m as int) =~= x);
    }
    r
}

/// Saving a document and loading the saved text gives a document that saves
/// to the same text: every line's characters and terminator come back.
pub proof fn lemma_save_load_round_trip(b: Seq<LineV>)
    ensures
        serialize_lines(parse(serialize_lines(b))) == serialize_lines(b),
        lines_wf(parse(serialize_lines(b))),
{
    lemma_parse_serialize(serialize_lines(b));
    lemma_parse_wf(serialize_lines(b));
}

/// A terminator `e` followed by `rest` reads back as `e`: a `\r` is not
/// followed by a `\n`, nor a `\n` by a `\r`, which would read as one
/// two-character terminator.
pub open spec fn keeps_ending(e: LineEnding, rest: Seq<char>) -> bool {
    &&& e == LineEnding::Cr ==> !(rest.len() > 0 && rest[0] == '\n')
    &&& e == LineEnding::Lf ==> !(rest.len() > 0 && rest[0] == '\r')
}

/// No line's terminator runs into the next line: a line ending in `\r`
/// is not followed by an empty line ending in `\n` or `\n\r`, and a line
/// ending in `\n` is not followed by an empty line ending in `\r` or
/// `\r\n`.
pub open spec fn endings_separate(b: Seq<LineV>) -> bool {
    forall|i: int|
        0 <= i < b.len() - 1 ==> keeps_ending(
            (#[trigger] b[i]).ending,
            line_chars(b[i + 1]),
        )
}

proof fn lemma_parse_line(t: Seq<char>, e: LineEnding, rest: Seq<char>)
    requires
        text_ok(t),
        e != LineEnding::NoEnding,
        keeps_ending(e, rest),
    ensures
        parse(t + ending_chars(e) + rest) == seq![LineV { text: t, ending: e }] + parse(rest),
    decreases t.len(),
{
    let s = t + ending_chars(e) + rest;
    if t.len() == 0 {
        assert(s =~= ending_chars(e) + rest);
        let k = ending_chars(e).len() as int;
        assert(s.skip(k) =~= rest);
        if e == LineEnding::Cr || e == LineEnding::Lf {
            assert(s.skip(1) =~= rest);
        }
        assert(t =~= Seq::<char>::empty());
    } else {
        let t1 = t.skip(1);
        assert(text_ok(t1)) by {
            assert forall|j: int| 0 <= j < t1.len() implies !is_break(#[trigger] t1[j]) by {
                assert(t1[j] == t[j + 1]);
            }
        }
        lemma_parse_line(t1, e, rest);
        assert(s.skip(1) =~= t1 + ending_chars(e) + rest);
        assert(s[0] == t[0]);
        assert(!is_break(t[0]));
        assert(seq![t[0]] + t1 =~= t);
        assert(prepend_text(seq![t[0]], seq![LineV { text: t1, ending: e }] + parse(rest)) =~= seq![
            LineV { text: t, ending: e },
        ] + parse(rest));
    }
}

proof fn lemma_parse_last(t: Seq<char>)
    requires
        text_ok(t),
    ensures
        parse(t) == seq![LineV { text: t, ending: LineEnding::NoEnding }],
    decreases t.len(),
{
    if t.len() > 0 {
        let t1 = t.skip(1);
        assert(text_ok(t1)) by {
            assert forall|j: int| 0 <= j < t1.len() implies !is_break(#[trigger] t1[j]) by {
                assert(t1[j] == t[j + 1]);
            }
        }
        lemma_parse_last(t1);
        assert(!is_break(t[0]));
        assert(seq![t[0]] + t1 =~= t);
        assert(prepend_text(seq![t[0]], seq![LineV { text: t1, ending: LineEnding::NoEnding }])
            =~= seq![LineV { text: t, ending: LineEnding::NoEnding }]);
    } else {
        assert(t =~= Seq::<char>::empty());
    }
}

proof fn lemma_serialize_first(b: Seq<LineV>)
    requires
        b.len() >= 1,
    ensures
        serialize_lines(b) == line_chars(b[0]) + serialize_lines(b.skip(1)),
        b.len() >= 2 ==> serialize_lines(b.skip(1)) == line_chars(b[1]) + serialize_lines(
            b.skip(2),
        ),
{
    if b.len() >= 2 {
        assert(b.skip(1).skip(1) =~= b.skip(2));
        assert(b.skip(1)[0] == b[1]);
    }
}

/// Loading the saved text of a document gives back its lines, each with its
/// own terminator, whenever no terminator runs into the next line.
pub proof fn lemma_save_load_lines(b: Seq<LineV>)
    requires
        lines_wf(b),
        endings_separate(b),
    ensures
        parse(serialize_lines(b)) == b,
    decreases b.len(),
{
    lemma_serialize_first(b);
    if b.len() == 1 {
        assert(b.skip(1) =~= Seq::<LineV>::empty());
        assert(serialize_lines(b.skip(1)) == Seq::<char>::empty());
        assert(line_chars(b[0]) =~= b[0].text);
        assert(serialize_lines(b) =~= b[0].text);
        lemma_parse_last(b[0].text);
        assert(b =~= seq![LineV { text: b[0].text, ending: LineEnding::NoEnding }]);
    } else {
        let r = b.skip(1);
        assert(lines_wf(r)) by {
            assert forall|i: int| 0 <= i < r.len() implies text_ok(#[trigger] r[i].text) by {
                assert(r[i] == b[i + 1]);
            }
            assert forall|i: int| 0 <= i < r.len() - 1 implies (#[trigger] r[i].ending)
                != LineEnding::NoEnding by {
                assert(r[i] == b[i + 1]);
            }
        }
        assert(endings_separate(r)) by {
            assert forall|i: int| 0 <= i < r.len() - 1 implies keeps_ending(
                (#[trigger] r[i]).ending,
                line_chars(r[i + 1]),
            ) by {
                assert(r[i] == b[i + 1]);
                assert(r[i + 1] == b[i + 2]);
            }
        }
        lemma_save_load_lines(r);
        let rest = serialize_lines(r);
        assert(keeps_ending(b[0].ending, rest)) by {
            assert(keeps_ending(b[0].ending, line_chars(b[1])));
            let lc = line_chars(b[1]);
            if lc.len() > 0 {
                assert(rest[0] == lc[0]);
            } else {
                assert(lc.len() == 0);
            }
            if b[1].text.len() == 0 && b[1].ending == LineEnding::NoEnding {
                assert(b.len() == 2);
                assert(r =~= seq![b[1]]);
                lemma_serialize_one(b[1]);
            }
        }
        assert(b[0].text + ending_chars(b[0].ending) + rest =~= serialize_lines(b));
        lemma_parse_line(b[0].text, b[0].ending, rest);
        assert(b =~= seq![LineV { text: b[0].text, ending: b[0].ending }] + r);
    }
}

/// The offset of position `c` in the flat text of `ls`.
pub open spec fn offset(ls: Seq<LineV>, c: Cursor) -> int {
    serialize_lines(ls.take(c.line as int)).len() + c.index
}

proof fn lemma_serialize_split(ls: Seq<LineV>, k: int)
    requires
        0 <= k < ls.len(),
    ensures
        serialize_lines(ls) == serialize_lines(ls.take(k)) + line_chars(ls[k]) + serialize_lines(
            ls.skip(k + 1),
        ),
{
    assert(ls =~= ls.take(k) + (seq![ls[k]] + ls.skip(k + 1)));
    lemma_serialize_concat(ls.take(k), seq![ls[k]] + ls.skip(k + 1));
    lemma_serialize_concat(seq![ls[k]], ls.skip(k + 1));
    lemma_serialize_one(ls[k]);
}

proof fn lemma_serialize_mid(pre: Seq<char>, post: Seq<char>, e: LineEnding, f: Seq<LineV>)
    requires
        f.len() >= 1,
        f.last().ending == LineEnding::NoEnding,
    ensures
        serialize_lines(splice_mid(pre, post, e, f)) == pre + serialize_lines(f) + post
            + ending_chars(e),
    decreases f.len(),
{
    let mid = splice_mid(pre, post, e, f);
    if f.len() == 1 {
        lemma_serialize_one(mid[0]);
        lemma_serialize_one(f[0]);
        assert(mid =~= seq![mid[0]]);
        assert(f =~= seq![f[0]]);
        assert(ending_chars(LineEnding::NoEnding) =~= Seq::<char>::empty());
        assert(line_chars(mid[0]) =~= pre + line_chars(f[0]) + post + ending_chars(e));
    } else {
        let f1 = f.skip(1);
        let m1 = splice_mid(Seq::empty(), post, e, f1);
        assert(mid.skip(1) =~= m1);
        lemma_serialize_mid(Seq::empty(), post, e, f1);
        assert(line_chars(mid[0]) =~= pre + line_chars(f[0]));
        assert(serialize_lines(mid) =~= pre + serialize_lines(f) + post + ending_chars(e));
    }
}

pub proof fn lemma_offset_bound(ls: Seq<LineV>, c: Cursor)
    requires
        pos_ok(ls, c),
    ensures
        0 <= offset(ls, c) <= serialize_lines(ls).len(),
{
    lemma_serialize_split(ls, c.line as int);
}

pub proof fn lemma_offset_order(ls: Seq<LineV>, a: Cursor, b: Cursor)
    requires
        pos_ok(ls, a),
        pos_ok(ls, b),
        pos_le(a, b),
    ensures
        offset(ls, a) <= offset(ls, b),
{
    if a.line < b.line {
        let al = a.line as int;
        let bl = b.line as int;
        let mid = ls.subrange(al, bl);
        assert(ls.take(bl) =~= ls.take(al) + mid);
        lemma_serialize_concat(ls.take(al), mid);
        assert(mid =~= seq![mid[0]] + mid.skip(1));
        lemma_serialize_concat(seq![mid[0]], mid.skip(1));
        lemma_serialize_one(mid[0]);
        assert(mid[0] == ls[al]);
    }
}

/// Replacing the text from `a` to `b` with `f` acts on the flat text as
/// replacing the characters between the two offsets with the text of `f`.
pub proof fn lemma_splice_text(ls: Seq<LineV>, a: Cursor, b: Cursor, f: Seq<LineV>)
    requires
        lines_wf(ls),
        lines_wf(f),
        pos_ok(ls, a),
        pos_ok(ls, b),
        pos_le(a, b),
    ensures
        serialize_lines(splice(ls, a, b, f)) == serialize_lines(ls).take(offset(ls, a))
            + serialize_lines(f) + serialize_lines(ls).skip(offset(ls, b)),
        offset(splice(ls, a, b, f), a) == offset(ls, a),
{
    let s = serialize_lines(ls);
    let al = a.line as int;
    let bl = b.line as int;
    let pre = ls[al].text.take(a.index as int);
    let post = ls[bl].text.skip(b.index as int);
    let e = ls[bl].ending;
    let mid = splice_mid(pre, post, e, f);
    lemma_serialize_concat(ls.take(al) + mid, ls.skip(bl + 1));
    lemma_serialize_concat(ls.take(al), mid);
    lemma_serialize_mid(pre, post, e, f);
    lemma_serialize_split(ls, al);
    lemma_serialize_split(ls, bl);
    let ha = serialize_lines(ls.take(al));
    let hb = serialize_lines(ls.take(bl));
    assert(s.take(offset(ls, a)) =~= ha + pre);
    assert(s.skip(offset(ls, b)) =~= post + ending_chars(e) + serialize_lines(ls.skip(bl + 1)));
    assert(serialize_lines(splice(ls, a, b, f)) =~= s.take(offset(ls, a)) + serialize_lines(f)
        + s.skip(offset(ls, b)));
    assert(splice(ls, a, b, f).take(al) =~= ls.take(al));
}

pub proof fn lemma_splice_index(ls: Seq<LineV>, a: Cursor, b: Cursor, f: Seq<LineV>)
    requires
        pos_ok(ls, a),
        pos_ok(ls, b),
        pos_le(a, b),
        f.len() >= 1,
    ensures
        ({
            let r = splice(ls, a, b, f);
            let mid = splice_mid(
                ls[a.line as int].text.take(a.index as int),
                ls[b.line as int].text.skip(b.index as int),
                ls[b.line as int].ending,
                f,
            );
            &&& r.len() == a.line + f.len() + (ls.len() - b.line - 1)
            &&& forall|j: int| 0 <= j < a.line ==> #[trigger] r[j] == ls[j]
            &&& forall|m: int| 0 <= m < f.len() ==> #[trigger] r[a.line + m] == mid[m]
            &&& forall|j: int|
                a.line + f.len() <= j < r.len() ==> #[trigger] r[j] == ls[j - f.len() + b.line
                    - a.line + 1]
        }),
{
}

/// Replacing a range with well-formed text keeps the lines well formed.
pub proof fn lemma_splice_wf(ls: Seq<LineV>, a: Cursor, b: Cursor, f: Seq<LineV>)
    requires
        lines_wf(ls),
        lines_wf(f),
        pos_ok(ls, a),
        pos_ok(ls, b),
        pos_le(a, b),
    ensures
        lines_wf(splice(ls, a, b, f)),
{
    lemma_splice_index(ls, a, b, f);
    let r = splice(ls, a, b, f);
    let k = f.len();
    let pre = ls[a.line as int].text.take(a.index as int);
    let post = ls[b.line as int].text.skip(b.index as int);
    assert forall|i: int| 0 <= i < r.len() implies text_ok(#[trigger] r[i].text) by {
        if a.line <= i < a.line + k {
            let m = i - a.line;
            let t = r[i].text;
            assert forall|j: int| 0 <= j < t.len() implies !is_break(#[trigger] t[j]) by {
                let p = if m == 0 {
                    pre
                } else {
                    Seq::empty()
                };
                if j < p.len() {
                    assert(t[j] == ls[a.line as int].text[j]);
                } else if j < p.len() + f[m].text.len() {
                    assert(t[j] == f[m].text[j - p.len()]);
                } else {
                    assert(t[j] == ls[b.line as int].text[j - p.len() - f[m].text.len()
                        + b.index]);
                }
            }
        }
    }
    assert forall|i: int| 0 <= i < r.len() - 1 implies (#[trigger] r[i].ending)
        != LineEnding::NoEnding by {
        if a.line <= i < a.line + k && i - a.line == k - 1 {
            assert(b.line < ls.len() - 1);
        }
    }
}

/// Inserting `f` at `c` and then deleting from `c` to where `f` ends gives the
/// lines back; the deleted text is `f`.
pub proof fn lemma_insert_inverse(ls: Seq<LineV>, c: Cursor, f: Seq<LineV>)
    requires
        lines_wf(ls),
        lines_wf(f),
        pos_ok(ls, c),
        end_fits(c, f),
    ensures
        ({
            let l2 = splice(ls, c, c, f);
            let d = end_pos(c, f);
            &&& pos_ok(l2, d)
            &&& pos_le(c, d)
            &&& pos_ok(l2, c)
            &&& extract(l2, c, d) == f
            &&& splice(l2, c, d, empty_fragment()) == ls
        }),
{
    let l2 = splice(ls, c, c, f);
    let d = end_pos(c, f);
    let k = f.len();
    let pre = ls[c.line as int].text.take(c.index as int);
    let post = ls[c.line as int].text.skip(c.index as int);
    lemma_splice_index(ls, c, c, f);
    let last = l2[d.line as int];
    assert(last == l2[c.line + (k - 1)]);
    let lp = (if k == 1 {
        pre
    } else {
        Seq::empty()
    }) + f[k - 1].text;
    assert(last.text =~= lp + post);
    assert(d.index == lp.len());
    assert(pos_ok(l2, d));
    assert(l2[c.line as int] == l2[c.line + 0]);
    assert(pos_ok(l2, c));
    let x = extract(l2, c, d);
    assert forall|m: int| 0 <= m < k implies #[trigger] x[m] == f[m] by {
        assert(l2[c.line + m] == splice_mid(pre, post, ls[c.line as int].ending, f)[m]);
        assert(x[m].text =~= f[m].text);
    }
    assert(x =~= f);
    lemma_splice_index(l2, c, d, empty_fragment());
    let r = splice(l2, c, d, empty_fragment());
    assert(l2[c.line as int].text.take(c.index as int) =~= pre);
    assert(last.text.skip(d.index as int) =~= post);
    assert(r[c.line + 0].text =~= pre + Seq::empty() + post);
    assert(pre + post =~= ls[c.line as int].text);
    assert forall|j: int| 0 <= j < ls.len() implies #[trigger] r[j] == ls[j] by {
        if j == c.line {
            assert(r[c.line + 0] == r[j]);
        }
    }
    assert(r =~= ls);
}

/// Deleting from `a` to `b` and inserting the deleted text at `a` gives the
/// lines back; the inserted text ends at `b`.
pub proof fn lemma_delete_inverse(ls: Seq<LineV>, a: Cursor, b: Cursor)
    requires
        lines_wf(ls),
        pos_ok(ls, a),
        pos_ok(ls, b),
        pos_le(a, b),
    ensures
        ({
            let f = extract(ls, a, b);
            let l2 = splice(ls, a, b, empty_fragment());
            &&& lines_wf(f)
            &&& pos_ok(l2, a)
            &&& end_fits(a, f)
            &&& end_pos(a, f) == b
            &&& splice(l2, a, a, f) == ls
        }),
{
    let f = extract(ls, a, b);
    let n = b.line - a.line + 1;
    let l2 = splice(ls, a, b, empty_fragment());
    assert forall|i: int| 0 <= i < f.len() implies text_ok(#[trigger] f[i].text) by {
        let t = f[i].text;
        let src = ls[a.line + i].text;
        let lo = if i == 0 {
            a.index as int
        } else {
            0
        };
        assert forall|j: int| 0 <= j < t.len() implies !is_break(#[trigger] t[j]) by {
            assert(t[j] == src[lo + j]);
        }
    }
    assert forall|i: int| 0 <= i < f.len() - 1 implies (#[trigger] f[i].ending)
        != LineEnding::NoEnding by {
        assert(a.line + i < ls.len() - 1);
    }
    assert(lines_wf(f));
    lemma_splice_index(ls, a, b, empty_fragment());
    let pre = ls[a.line as int].text.take(a.index as int);
    let post = ls[b.line as int].text.skip(b.index as int);
    assert(l2[a.line + 0].text =~= pre + Seq::empty() + post);
    assert(pos_ok(l2, a));
    let e = end_pos(a, f);
    assert(e == b);
    lemma_splice_index(l2, a, a, f);
    let r = splice(l2, a, a, f);
    assert(l2[a.line as int].text.take(a.index as int) =~= pre);
    assert(l2[a.line as int].text.skip(a.index as int) =~= post);
    assert forall|j: int| 0 <= j < ls.len() implies #[trigger] r[j] == ls[j] by {
        if a.line <= j <= b.line {
            let m = j - a.line;
            assert(r[a.line + m] == r[j]);
            let t = ls[j].text;
            if n == 1 {
                assert(r[j].text =~= t);
            } else if m == 0 {
                assert(r[j].text =~= t);
            } else if m == n - 1 {
                assert(r[j].text =~= t);
            } else {
                assert(r[j].text =~= t);
            }
        }
    }
    assert(r =~= ls);
}

} // verus!
