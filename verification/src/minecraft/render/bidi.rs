//! Lines with right-to-left text: Arabic letters take their joined forms, then the runs of the
//! line are put into the order in which they are seen.

use vstd::prelude::*;
use crate::minecraft::component;
use crate::minecraft::component::ResolvedStyle;
use crate::minecraft::font::VanillaFont;
use crate::minecraft::outside;
use crate::minecraft::render::glyphs;
use crate::minecraft::render::glyphs::{place, Placed, PlacedView};
use crate::minecraft::render::options::MAX_SCALE;
use crate::minecraft::text;

verus! {

/// A character of a right-to-left script.
pub open spec fn is_rtl(c: char) -> bool {
    let n = c as u32;
    0x0590 <= n <= 0x08FF || 0xFB1D <= n <= 0xFDFF || 0xFE70 <= n <= 0xFEFF
}

/// The mirror image of a bracket or comparison sign; any other character is its own.
pub open spec fn mirrored(c: char) -> char {
    if c == '(' {
        ')'
    } else if c == ')' {
        '('
    } else if c == '[' {
        ']'
    } else if c == ']' {
        '['
    } else if c == '{' {
        '}'
    } else if c == '}' {
        '{'
    } else if c == '<' {
        '>'
    } else if c == '>' {
        '<'
    } else if c == '«' {
        '»'
    } else if c == '»' {
        '«'
    } else if c == '‹' {
        '›'
    } else if c == '›' {
        '‹'
    } else if c == '≤' {
        '≥'
    } else if c == '≥' {
        '≤'
    } else {
        c
    }
}

/// Whether `c` is a character of a right-to-left script.
pub fn is_rtl_char(c: char) -> (r: bool)
    ensures
        r == is_rtl(c),
{
    let n: u32 = c as u32;
    (0x0590 <= n && n <= 0x08FF) || (0xFB1D <= n && n <= 0xFDFF) || (0xFE70 <= n && n <= 0xFEFF)
}

/// The mirror image of a character.
pub fn mirror(c: char) -> (r: char)
    ensures
        r == mirrored(c),
{
    match c {
        '(' => ')',
        ')' => '(',
        '[' => ']',
        ']' => '[',
        '{' => '}',
        '}' => '{',
        '<' => '>',
        '>' => '<',
        '«' => '»',
        '»' => '«',
        '‹' => '›',
        '›' => '‹',
        '≤' => '≥',
        '≥' => '≤',
        _ => c,
    }
}

/// The mirror image of the mirror image is the character itself.
pub proof fn mirroring_twice(c: char)
    ensures
        mirrored(mirrored(c)) == c,
{
}

// ---- joined forms ----

/// A character with its style.
pub open spec fn styled(t: Seq<char>, style: ResolvedStyle) -> Seq<(char, ResolvedStyle)> {
    Seq::new(t.len(), |i: int| (t[i], style))
}

/// The runs of characters of one style that make up a line.
pub open spec fn style_runs(line: Seq<PlacedView>) -> Seq<(Seq<char>, ResolvedStyle)>
    decreases line.len(),
{
    if line.len() == 0 {
        Seq::empty()
    } else {
        let before = style_runs(line.drop_last());
        let p = line.last();
        if before.len() > 0 && before.last().1 == p.style {
            before.update(before.len() - 1, (before.last().0.push(p.ch), p.style))
        } else {
            before.push((seq![p.ch], p.style))
        }
    }
}

/// A text in joined forms, where it can be brought into them, else as it is.
pub open spec fn joined_forms(t: Seq<char>) -> Seq<char> {
    if outside::shapeable(t) {
        outside::reshaped(t)
    } else {
        t
    }
}

/// The characters of runs in joined forms, run by run.
pub open spec fn shaped_runs(runs: Seq<(Seq<char>, ResolvedStyle)>) -> Seq<(char, ResolvedStyle)>
    decreases runs.len(),
{
    if runs.len() == 0 {
        Seq::empty()
    } else {
        shaped_runs(runs.drop_last()) + styled(joined_forms(runs.last().0), runs.last().1)
    }
}

/// The characters of a line in joined forms, style by style.
pub open spec fn shaped(line: Seq<PlacedView>) -> Seq<(char, ResolvedStyle)> {
    shaped_runs(style_runs(line))
}

// ---- order ----

/// How many bytes a character takes in UTF-8.
pub open spec fn utf8_len(c: char) -> nat {
    let n = c as u32;
    if n < 0x80 {
        1
    } else if n < 0x800 {
        2
    } else if n < 0x1_0000 {
        3
    } else {
        4
    }
}

/// The characters, without their styles.
pub open spec fn bare(list: Seq<(char, ResolvedStyle)>) -> Seq<char> {
    Seq::new(list.len(), |i: int| list[i].0)
}

/// How many bytes the characters take in UTF-8.
pub open spec fn byte_len(list: Seq<(char, ResolvedStyle)>) -> nat
    decreases list.len(),
{
    if list.len() == 0 {
        0
    } else {
        byte_len(list.drop_last()) + utf8_len(list.last().0)
    }
}

/// The characters that start within a range of bytes.
pub open spec fn in_range(
    list: Seq<(char, ResolvedStyle)>,
    start: nat,
    end: nat,
) -> Seq<(char, ResolvedStyle)>
    decreases list.len(),
{
    if list.len() == 0 {
        Seq::empty()
    } else {
        let before = in_range(list.drop_last(), start, end);
        if start <= byte_len(list.drop_last()) < end {
            before.push(list.last())
        } else {
            before
        }
    }
}

/// A run as it is seen: from right to left reversed, with each character mirrored.
pub open spec fn seen_run(list: Seq<(char, ResolvedStyle)>, run: (nat, nat, bool)) -> Seq<
    (char, ResolvedStyle),
> {
    let items = in_range(list, run.0, run.1);
    if run.2 {
        Seq::new(
            items.len(),
            |i: int|
                (mirrored(items[items.len() - 1 - i].0), items[items.len() - 1 - i].1),
        )
    } else {
        items
    }
}

/// The runs as they are seen, one after the other.
pub open spec fn seen(list: Seq<(char, ResolvedStyle)>, runs: Seq<(nat, nat, bool)>) -> Seq<
    (char, ResolvedStyle),
>
    decreases runs.len(),
{
    if runs.len() == 0 {
        Seq::empty()
    } else {
        seen(list, runs.drop_last()) + seen_run(list, runs.last())
    }
}

/// The characters in their places.
pub open spec fn all_placed(
    f: VanillaFont,
    list: Seq<(char, ResolvedStyle)>,
    scale: int,
) -> Seq<PlacedView> {
    Seq::new(list.len(), |i: int| glyphs::placed(f, list[i].0, list[i].1, scale))
}

/// The order of characters for given runs; without any the order is kept.
pub open spec fn ordered(
    list: Seq<(char, ResolvedStyle)>,
    runs: Option<Seq<(nat, nat, bool)>>,
) -> Seq<(char, ResolvedStyle)> {
    match runs {
        Some(r) => seen(list, r),
        None => list,
    }
}

/// A line as it is seen. A line without right-to-left characters stays as it is.
pub open spec fn reordered(f: VanillaFont, line: Seq<PlacedView>, scale: int) -> Seq<PlacedView> {
    if exists|i: int| 0 <= i < line.len() && is_rtl(#[trigger] line[i].ch) {
        let list = shaped(line);
        all_placed(f, ordered(list, outside::visual_runs_of(bare(list))), scale)
    } else {
        line
    }
}

// ---- the way there ----

/// Whether the reshaper takes the text.
pub fn is_shapeable(t: &Vec<char>) -> (r: bool)
    ensures
        r == outside::shapeable(t@),
{
    let mut letters: Vec<char> = Vec::new();
    let mut joiners: usize = 0;
    let ghost keep = |c: char| !outside::is_harakat(c);
    let ghost join = |c: char| c == '\u{200D}';
    proof {
        reveal(Seq::filter);
        assert(t@.take(0).filter(keep) =~= Seq::empty());
        assert(t@.take(0).filter(join) =~= Seq::empty());
    }
    for i in 0..t.len()
        invariant
            keep == (|c: char| !outside::is_harakat(c)),
            join == (|c: char| c == '\u{200D}'),
            letters@ == t@.take(i as int).filter(keep),
            joiners == t@.take(i as int).filter(join).len(),
            joiners <= i,
    {
        reveal(Seq::filter);
        assert(t@.take(i + 1).drop_last() =~= t@.take(i as int));
        let c = t[i];
        if !is_harakat(c) {
            letters.push(c);
        }
        if c == '\u{200D}' {
            joiners += 1;
        }
    }
    assert(t@.take(t@.len() as int) =~= t@);
    let n: usize = letters.len();
    for i in 0..n
        invariant
            n == letters@.len(),
            letters@ == outside::letters(t@),
            joiners == outside::joiners(t@),
            forall|k: int|
                0 <= k <= i && #[trigger] outside::ligature_ends(letters@, k) ==> k + joiners <= n,
    {
        let k: usize = i + 1;
        let two = k >= 2 && letters[k - 2] == '\u{0644}' && (letters[k - 1] == '\u{0622}' || letters[k
            - 1] == '\u{0623}' || letters[k - 1] == '\u{0625}' || letters[k - 1] == '\u{0627}');
        let four = k >= 4 && letters[k - 4] == '\u{0627}' && letters[k - 3] == '\u{0644}' && letters[k
            - 2] == '\u{0644}' && letters[k - 1] == '\u{0647}';
        assert((two || four) == outside::ligature_ends(letters@, k as int));
        if (two || four) && joiners > n - k {
            return false;
        }
    }
    true
}

/// Whether the reshaper takes the character out.
fn is_harakat(c: char) -> (r: bool)
    ensures
        r == outside::is_harakat(c),
{
    let n: u32 = c as u32;
    (0x0610 <= n && n <= 0x061A) || (0x064B <= n && n <= 0x065F) || n == 0x0670 || (0x06D6 <= n && n
        <= 0x06DC) || (0x06DF <= n && n <= 0x06E8) || (0x06EA <= n && n <= 0x06ED) || (0x08D4 <= n
        && n <= 0x08FF)
}

/// A text in joined forms, where it can be brought into them, else as it is.
pub fn join_forms(t: &Vec<char>) -> (r: Vec<char>)
    ensures
        r@ == joined_forms(t@),
        r@.len() <= t@.len(),
{
    let s = text::string_of(t.as_slice(), 0, t.len());
    assert(s@ =~= t@);
    if is_shapeable(t) {
        let r = outside::reshape(s.as_str());
        text::chars_of(r.as_str())
    } else {
        text::chars_of(s.as_str())
    }
}

/// What runs hold.
pub open spec fn runs_view(runs: Seq<(Vec<char>, ResolvedStyle)>) -> Seq<
    (Seq<char>, ResolvedStyle),
> {
    Seq::new(runs.len(), |i: int| (runs[i].0@, runs[i].1))
}

/// How many characters the runs have.
pub open spec fn runs_len(runs: Seq<(Seq<char>, ResolvedStyle)>) -> nat
    decreases runs.len(),
{
    if runs.len() == 0 {
        0
    } else {
        runs_len(runs.drop_last()) + runs.last().0.len()
    }
}

/// The style of each run has a colour that there is.
pub open spec fn runs_ok(runs: Seq<(Seq<char>, ResolvedStyle)>) -> bool {
    forall|i: int| 0 <= i < runs.len() ==> component::style_ok((#[trigger] runs[i]).1)
}

/// Splits a line into runs of one style.
pub fn split_styles(line: &Vec<Placed>) -> (r: Vec<(Vec<char>, ResolvedStyle)>)
    ensures
        runs_view(r@) == style_runs(glyphs::line_view(line@)),
        runs_len(runs_view(r@)) == line@.len(),
        glyphs::line_ok(glyphs::line_view(line@)) ==> runs_ok(runs_view(r@)),
{
    let ghost all = glyphs::line_view(line@);
    let mut out: Vec<(Vec<char>, ResolvedStyle)> = Vec::new();
    assert(all.take(0) =~= Seq::empty());
    assert(runs_view(out@) =~= Seq::empty());
    for i in 0..line.len()
        invariant
            all == glyphs::line_view(line@),
            runs_view(out@) =~= style_runs(all.take(i as int)),
            runs_len(runs_view(out@)) == i,
            glyphs::line_ok(all) ==> runs_ok(runs_view(out@)),
    {
        assert(all.take(i + 1).drop_last() =~= all.take(i as int));
        assert(all.take(i + 1).last() == line@[i as int].model());
        let ch = line[i].ch;
        let style = line[i].style;
        let ghost before = runs_view(out@);
        let k: usize = out.len();
        if k > 0 && out[k - 1].1 == style {
            match out.pop() {
                Some((run, st)) => {
                    let mut longer = run;
                    longer.push(ch);
                    out.push((longer, st));
                },
                None => {},
            }
            assert(runs_view(out@) =~= before.update(
                before.len() - 1,
                (before.last().0.push(ch), style),
            ));
            assert(runs_view(out@).drop_last() =~= before.drop_last());
        } else {
            let mut run: Vec<char> = Vec::new();
            run.push(ch);
            out.push((run, style));
            assert(runs_view(out@) =~= before.push((seq![ch], style)));
            assert(runs_view(out@).drop_last() =~= before);
        }
        proof {
            if glyphs::line_ok(all) {
                assert(glyphs::drawable(all[i as int]));
                let now = runs_view(out@);
                assert forall|n: int| 0 <= n < now.len() implies component::style_ok(
                    (#[trigger] now[n]).1,
                ) by {
                    if n < before.len() {
                        assert(component::style_ok(before[n].1));
                    }
                }
            }
        }
    }
    assert(all.take(all.len() as int) =~= all);
    out
}

/// The characters of runs in joined forms, run by run.
fn shape_runs(runs: &Vec<(Vec<char>, ResolvedStyle)>) -> (r: Vec<(char, ResolvedStyle)>)
    ensures
        r@ == shaped_runs(runs_view(runs@)),
        r@.len() <= runs_len(runs_view(runs@)),
        runs_ok(runs_view(runs@)) ==> styles_ok(r@),
{
    let ghost all = runs_view(runs@);
    let mut out: Vec<(char, ResolvedStyle)> = Vec::new();
    assert(all.take(0) =~= Seq::empty());
    for i in 0..runs.len()
        invariant
            all == runs_view(runs@),
            out@ == shaped_runs(all.take(i as int)),
            out@.len() <= runs_len(all.take(i as int)),
            runs_ok(all) ==> styles_ok(out@),
    {
        assert(all.take(i + 1).drop_last() =~= all.take(i as int));
        assert(all.take(i + 1).last() == (runs@[i as int].0@, runs@[i as int].1));
        assert(runs_ok(all) ==> component::style_ok(all[i as int].1));
        let style = runs[i].1;
        let forms = join_forms(&runs[i].0);
        let ghost before = out@;
        for k in 0..forms.len()
            invariant
                runs_ok(all) ==> component::style_ok(style) && styles_ok(out@),
                out@ =~= before + styled(forms@.take(k as int), style),
        {
            out.push((forms[k], style));
            assert(out@ =~= before + styled(forms@.take(k + 1), style));
        }
        assert(forms@.take(forms@.len() as int) =~= forms@);
    }
    assert(all.take(all.len() as int) =~= all);
    out
}

/// Each style's colour is one that there is.
pub open spec fn styles_ok(list: Seq<(char, ResolvedStyle)>) -> bool {
    forall|i: int| 0 <= i < list.len() ==> component::style_ok((#[trigger] list[i]).1)
}

proof fn lemma_in_range_len(list: Seq<(char, ResolvedStyle)>, start: nat, end: nat)
    ensures
        in_range(list, start, end).len() <= list.len(),
        in_range(list, start, end).len() <= (if byte_len(list) < start {
            0
        } else {
            byte_len(list) - start
        }),
        start <= end ==> in_range(list, start, end).len() <= end - start,
    decreases list.len(),
{
    if list.len() > 0 {
        lemma_in_range_len(list.drop_last(), start, end);
    }
}

proof fn lemma_seen_len(list: Seq<(char, ResolvedStyle)>, runs: Seq<(nat, nat, bool)>)
    requires
        forall|i: int| 0 <= i < runs.len() ==> (#[trigger] runs[i]).0 <= runs[i].1,
    ensures
        seen(list, runs).len() <= outside::covered(runs),
    decreases runs.len(),
{
    if runs.len() > 0 {
        assert forall|i: int| 0 <= i < runs.drop_last().len() implies (
        #[trigger] runs.drop_last()[i]).0 <= runs.drop_last()[i].1 by {
            assert(runs.drop_last()[i] == runs[i]);
        }
        lemma_seen_len(list, runs.drop_last());
        assert(runs[runs.len() - 1].0 <= runs[runs.len() - 1].1);
        lemma_in_range_len(list, runs.last().0, runs.last().1);
    }
}

proof fn lemma_encoded_len(t: Seq<char>)
    ensures
        vstd::utf8::encode_utf8(t).len() <= 4 * t.len(),
    decreases t.len(),
{
    if t.len() > 0 {
        lemma_encoded_len(t.drop_first());
        vstd::utf8::char_is_scalar(t[0]);
    }
}

/// How many bytes a character takes in UTF-8.
fn len_utf8(c: char) -> (r: u32)
    ensures
        r == utf8_len(c),
{
    let n: u32 = c as u32;
    if n < 0x80 {
        1
    } else if n < 0x800 {
        2
    } else if n < 0x1_0000 {
        3
    } else {
        4
    }
}

/// The characters that start within a range of bytes.
fn pick_range(list: &Vec<(char, ResolvedStyle)>, start: usize, end: usize) -> (r: Vec<
    (char, ResolvedStyle),
>)
    ensures
        r@ == in_range(list@, start as nat, end as nat),
        styles_ok(list@) ==> styles_ok(r@),
{
    let mut out: Vec<(char, ResolvedStyle)> = Vec::new();
    let mut at: u128 = 0;
    assert(list@.take(0) =~= Seq::empty());
    for i in 0..list.len()
        invariant
            at == byte_len(list@.take(i as int)),
            at <= 4 * i,
            out@ == in_range(list@.take(i as int), start as nat, end as nat),
            styles_ok(list@) ==> styles_ok(out@),
    {
        assert(list@.take(i + 1).drop_last() =~= list@.take(i as int));
        let item = list[i];
        if start as u128 <= at && at < end as u128 {
            out.push(item);
        }
        at = at + len_utf8(item.0) as u128;
    }
    assert(list@.take(list@.len() as int) =~= list@);
    out
}

/// The characters in the order given by the runs.
pub fn order_runs(list: &Vec<(char, ResolvedStyle)>, runs: &Vec<(usize, usize, bool)>) -> (r: Vec<
    (char, ResolvedStyle),
>)
    ensures
        r@ == seen(list@, outside::run_views(runs@)),
        styles_ok(list@) ==> styles_ok(r@),
{
    let ghost all = outside::run_views(runs@);
    let mut out: Vec<(char, ResolvedStyle)> = Vec::new();
    assert(all.take(0) =~= Seq::empty());
    for i in 0..runs.len()
        invariant
            all == outside::run_views(runs@),
            out@ == seen(list@, all.take(i as int)),
            styles_ok(list@) ==> styles_ok(out@),
    {
        assert(all.take(i + 1).drop_last() =~= all.take(i as int));
        let (start, end, rtl) = runs[i];
        let items = pick_range(list, start, end);
        let n: usize = items.len();
        let ghost before = out@;
        let ghost run = seen_run(list@, all[i as int]);
        for k in 0..n
            invariant
                n == items@.len(),
                items@ == in_range(list@, start as nat, end as nat),
                run == seen_run(list@, (start as nat, end as nat, rtl)),
                out@ =~= before + run.take(k as int),
                styles_ok(list@) ==> styles_ok(items@) && styles_ok(out@),
        {
            if rtl {
                let (c, style) = items[n - 1 - k];
                out.push((mirror(c), style));
            } else {
                out.push(items[k]);
            }
        }
        assert(run.take(n as int) =~= run);
    }
    assert(all.take(all.len() as int) =~= all);
    out
}

/// A line as it is seen.
pub fn reorder_bidi(f: &VanillaFont, line: Vec<Placed>, scale: u32) -> (r: Vec<Placed>)
    requires
        f.wf(),
    ensures
        glyphs::line_view(r@) == reordered(*f, glyphs::line_view(line@), scale as int),
        scale <= MAX_SCALE && glyphs::line_ok(glyphs::line_view(line@)) ==> glyphs::line_ok(
            glyphs::line_view(r@),
        ),
        r@.len() <= 4 * line@.len(),
{
    let ghost all = glyphs::line_view(line@);
    let mut any = false;
    for i in 0..line.len()
        invariant
            all == glyphs::line_view(line@),
            any == (exists|k: int| 0 <= k < i && is_rtl(#[trigger] all[k].ch)),
    {
        assert(all[i as int].ch == line@[i as int].ch);
        if is_rtl_char(line[i].ch) {
            any = true;
        }
    }
    if !any {
        return line;
    }
    let runs = split_styles(&line);
    let list = shape_runs(&runs);
    let mut chars: Vec<char> = Vec::new();
    for i in 0..list.len()
        invariant
            chars@ =~= bare(list@).take(i as int),
    {
        chars.push(list[i].0);
    }
    let s = text::string_of(chars.as_slice(), 0, chars.len());
    assert(s@ =~= bare(list@));
    let order = match outside::visual_runs(s.as_str()) {
        Some(runs) => {
            proof {
                let v = outside::run_views(runs@);
                assert forall|i: int| 0 <= i < v.len() implies (#[trigger] v[i]).0 <= v[i].1 by {
                    assert(runs@[i].0 <= runs@[i].1);
                }
                lemma_seen_len(list@, v);
                lemma_encoded_len(s@);
            }
            order_runs(&list, &runs)
        },
        None => list,
    };
    rebuild(f, &order, scale)
}

/// Puts characters into their places.
pub fn rebuild(f: &VanillaFont, list: &Vec<(char, ResolvedStyle)>, scale: u32) -> (r: Vec<Placed>)
    requires
        f.wf(),
    ensures
        glyphs::line_view(r@) == all_placed(*f, list@, scale as int),
        scale <= MAX_SCALE && styles_ok(list@) ==> glyphs::line_ok(glyphs::line_view(r@)),
        r@.len() == list@.len(),
{
    let mut out: Vec<Placed> = Vec::new();
    let ghost goal = all_placed(*f, list@, scale as int);
    let ghost ok = scale <= MAX_SCALE && styles_ok(list@);
    for i in 0..list.len()
        invariant
            f.wf(),
            goal == all_placed(*f, list@, scale as int),
            ok == (scale <= MAX_SCALE && styles_ok(list@)),
            glyphs::line_view(out@) =~= goal.take(i as int),
            ok ==> glyphs::line_ok(glyphs::line_view(out@)),
    {
        let (c, style) = list[i];
        assert(ok ==> component::style_ok(list@[i as int].1));
        let ghost before = glyphs::line_view(out@);
        let p = place(f, c, style, scale);
        out.push(p);
        assert(glyphs::line_view(out@) =~= before.push(p.model()));
        proof {
            if ok {
                assert forall|k: int|
                    0 <= k < glyphs::line_view(out@).len() implies glyphs::drawable(
                    #[trigger] glyphs::line_view(out@)[k],
                ) by {
                    if k < before.len() {
                        assert(glyphs::drawable(before[k]));
                    }
                }
            }
        }
    }
    assert(goal.take(goal.len() as int) =~= goal);
    out
}

// ---- laws ----

/// Ranges that stand side by side pick what the whole range picks: no character is lost between
/// them, and none is picked twice.
pub proof fn ranges_side_by_side_lose_nothing(
    list: Seq<(char, ResolvedStyle)>,
    a: nat,
    b: nat,
    c: nat,
)
    requires
        a <= b <= c,
    ensures
        in_range(list, a, b) + in_range(list, b, c) == in_range(list, a, c),
    decreases list.len(),
{
    if list.len() > 0 {
        let before = list.drop_last();
        ranges_side_by_side_lose_nothing(before, a, b, c);
        lemma_in_range_empty(before, b, c);
        assert(in_range(list, a, b) + in_range(list, b, c) =~= in_range(list, a, c));
    } else {
        assert(in_range(list, a, b) + in_range(list, b, c) =~= in_range(list, a, c));
    }
}

/// Nothing of a text that ends before a range is in the range.
proof fn lemma_in_range_empty(list: Seq<(char, ResolvedStyle)>, start: nat, end: nat)
    ensures
        byte_len(list) <= start ==> in_range(list, start, end).len() == 0,
    decreases list.len(),
{
    if list.len() > 0 {
        lemma_in_range_empty(list.drop_last(), start, end);
    }
}

proof fn lemma_whole_range(list: Seq<(char, ResolvedStyle)>, end: nat)
    requires
        byte_len(list) <= end,
    ensures
        in_range(list, 0, end) == list,
    decreases list.len(),
{
    if list.len() > 0 {
        lemma_whole_range(list.drop_last(), end);
        assert(in_range(list, 0, end) =~= list);
    } else {
        assert(in_range(list, 0, end) =~= list);
    }
}

/// A line that is one run keeps its order from left to right; from right to left its order is
/// reversed and each character mirrored.
pub proof fn one_run_keeps_or_reverses(list: Seq<(char, ResolvedStyle)>, rtl: bool)
    ensures
        seen(list, seq![(0nat, byte_len(list), rtl)]).len() == list.len(),
        !rtl ==> seen(list, seq![(0nat, byte_len(list), rtl)]) == list,
        rtl ==> forall|i: int|
            0 <= i < list.len() ==> #[trigger] seen(list, seq![(0nat, byte_len(list), rtl)])[i] == (
                mirrored(list[list.len() - 1 - i].0),
                list[list.len() - 1 - i].1,
            ),
{
    let runs = seq![(0nat, byte_len(list), rtl)];
    lemma_whole_range(list, byte_len(list));
    assert(runs.drop_last() =~= Seq::empty());
    assert(seen(list, runs.drop_last()) =~= Seq::empty());
    assert(runs.last() == (0nat, byte_len(list), rtl));
    assert(seen(list, runs) =~= seen_run(list, runs.last()));
}

/// The characters of runs with their styles.
pub open spec fn run_pairs(runs: Seq<(Seq<char>, ResolvedStyle)>) -> Seq<(char, ResolvedStyle)>
    decreases runs.len(),
{
    if runs.len() == 0 {
        Seq::empty()
    } else {
        run_pairs(runs.drop_last()) + Seq::new(
            runs.last().0.len(),
            |i: int| (runs.last().0[i], runs.last().1),
        )
    }
}

/// The runs of a line hold its characters in their order, each in its own style, and neighbours
/// differ in style.
pub proof fn runs_hold_the_line(line: Seq<PlacedView>)
    ensures
        run_pairs(style_runs(line)) == Seq::new(line.len(), |i: int| (line[i].ch, line[i].style)),
        forall|i: int|
            0 <= i < style_runs(line).len() - 1 ==> (#[trigger] style_runs(line)[i]).1 != style_runs(
                line,
            )[i + 1].1,
    decreases line.len(),
{
    let whole = Seq::new(line.len(), |i: int| (line[i].ch, line[i].style));
    if line.len() > 0 {
        let before = line.drop_last();
        let p = line.last();
        runs_hold_the_line(before);
        let old_runs = style_runs(before);
        let runs = style_runs(line);
        let first = Seq::new(before.len(), |i: int| (before[i].ch, before[i].style));
        if old_runs.len() > 0 && old_runs.last().1 == p.style {
            assert(runs.drop_last() =~= old_runs.drop_last());
            assert(run_pairs(runs) =~= run_pairs(old_runs).push((p.ch, p.style)));
        } else {
            assert(runs.drop_last() =~= old_runs);
            assert(run_pairs(runs) =~= run_pairs(old_runs).push((p.ch, p.style)));
        }
        assert(first.push((p.ch, p.style)) =~= whole);
    } else {
        assert(run_pairs(style_runs(line)) =~= whole);
    }
}

/// Runs are seen one after the other from left to right; only brackets and comparison signs have a
/// mirror image.
pub proof fn runs_are_seen_in_order(
    list: Seq<(char, ResolvedStyle)>,
    runs: Seq<(nat, nat, bool)>,
    start: nat,
    end: nat,
    i: int,
)
    ensures
        seen(list, Seq::empty()).len() == 0,
        seen(list, runs.push((start, end, false))) == seen(list, runs) + in_range(list, start, end),
        ({
            let part = in_range(list, start, end);
            let all = seen(list, runs.push((start, end, true)));
            let n = seen(list, runs).len();
            &&& all.len() == n + part.len()
            &&& all.take(n as int) == seen(list, runs)
            &&& 0 <= i < part.len() ==> all[n + i] == (
                mirrored(part[part.len() - 1 - i].0),
                part[part.len() - 1 - i].1,
            )
        }),
        mirrored('(') == ')' && mirrored('[') == ']' && mirrored('{') == '}' && mirrored('<') == '>',
        forall|c: char|
            ('a' <= c <= 'z' || 'A' <= c <= 'Z' || '0' <= c <= '9' || is_rtl(c))
                ==> #[trigger] mirrored(c) == c,
{
    assert(runs.push((start, end, false)).drop_last() =~= runs);
    assert(runs.push((start, end, true)).drop_last() =~= runs);
    let all = seen(list, runs.push((start, end, true)));
    assert(all.take(seen(list, runs).len() as int) =~= seen(list, runs));
}

/// A line without right-to-left characters is seen as it is; in any other, each run of one style is
/// brought into its joined forms and the line is put into the order of its runs.
pub proof fn lines_are_reordered(f: VanillaFont, line: Seq<PlacedView>, scale: int)
    ensures
        (forall|i: int| 0 <= i < line.len() ==> !is_rtl((#[trigger] line[i]).ch)) ==> reordered(
            f,
            line,
            scale,
        ) == line,
        (exists|i: int| 0 <= i < line.len() && is_rtl((#[trigger] line[i]).ch)) ==> {
            let list = shaped(line);
            let order = match outside::visual_runs_of(bare(list)) {
                Some(runs) => seen(list, runs),
                None => list,
            };
            &&& reordered(f, line, scale).len() == order.len()
            &&& forall|i: int|
                0 <= i < order.len() ==> (#[trigger] reordered(f, line, scale)[i]) == glyphs::placed(
                    f,
                    order[i].0,
                    order[i].1,
                    scale,
                )
        },
{
}

} // verus!
