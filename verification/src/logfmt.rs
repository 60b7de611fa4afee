//! Indented rendering of nested, bracketed text for diagnostics.

use vstd::prelude::*;

verus! {

/// A line break followed by `depth` tab characters.
pub open spec fn new_line_spec(depth: nat) -> Seq<char> {
    seq!['\n'] + Seq::new(depth, |_i: int| '\t')
}

/// Returns a line break followed by `indentation_level` tabs.
pub fn get_new_line_string(indentation_level: &usize) -> (new_line_chars: Vec<char>)
    ensures
        new_line_chars@ == new_line_spec(*indentation_level as nat),
{
    let mut new_line_chars: Vec<char> = Vec::new();
    new_line_chars.push('\n');
    let n: usize = *indentation_level;
    let mut i: usize = 0;
    while i < n
        invariant
            i <= n,
            new_line_chars@ == new_line_spec(i as nat),
        decreases n - i,
    {
        new_line_chars.push('\t');
        i = i + 1;
        assert(new_line_chars@ =~= new_line_spec(i as nat));
    }
    new_line_chars
}

/// Characters that open a nesting level.
pub open spec fn is_opener(c: char) -> bool {
    c == '{' || c == '[' || c == '('
}

/// Characters that close a nesting level.
pub open spec fn is_closer(c: char) -> bool {
    c == '}' || c == ']' || c == ')'
}

/// Nesting depth after reading `s`: openers minus closers.
pub open spec fn nesting_depth(s: Seq<char>) -> int
    decreases s.len(),
{
    if s.len() == 0 {
        0
    } else {
        let d = nesting_depth(s.drop_last());
        if is_opener(s.last()) {
            d + 1
        } else if is_closer(s.last()) {
            d - 1
        } else {
            d
        }
    }
}

/// No prefix of `s` closes more levels than it opened.
pub open spec fn never_underflows(s: Seq<char>) -> bool {
    forall|k: int| 0 <= k <= s.len() ==> nesting_depth(#[trigger] s.take(k)) >= 0
}

/// What one character adds to the rendering, given the depth before it:
/// a closer first breaks the line at the reduced depth, every character is
/// copied, a comma breaks the line, and an opener breaks the line at the
/// increased depth.
pub open spec fn rendered_char(c: char, depth: int) -> Seq<char> {
    let d = if is_closer(c) { depth - 1 } else { depth };
    let before = if is_closer(c) { new_line_spec(d as nat) } else { Seq::empty() };
    let after_comma = if c == ',' { new_line_spec(d as nat) } else { Seq::empty() };
    let after_open = if is_opener(c) { new_line_spec((d + 1) as nat) } else { Seq::empty() };
    before + seq![c] + after_comma + after_open
}

/// The indented rendering of `s`.
pub open spec fn rendered(s: Seq<char>) -> Seq<char>
    decreases s.len(),
{
    if s.len() == 0 {
        Seq::empty()
    } else {
        rendered(s.drop_last()) + rendered_char(s.last(), nesting_depth(s.drop_last()))
    }
}

proof fn lemma_depth_bounded(s: Seq<char>)
    ensures
        nesting_depth(s) <= s.len(),
    decreases s.len(),
{
    if s.len() > 0 {
        lemma_depth_bounded(s.drop_last());
    }
}

/// Renders bracketed text with one line per element: a line break after
/// every comma and opening bracket and before every closing bracket, each
/// line indented by one tab per open level.
pub fn format_log_chars(target: &Vec<char>) -> (line: Vec<char>)
    requires
        never_underflows(target@),
    ensures
        line@ == rendered(target@),
{
    let mut indentation_level: usize = 0;
    let mut line: Vec<char> = Vec::new();
    let n = target.len();
    let mut i: usize = 0;
    while i < n
        invariant
            n == target@.len(),
            i <= n,
            never_underflows(target@),
            indentation_level as int == nesting_depth(target@.take(i as int)),
            line@ == rendered(target@.take(i as int)),
        decreases n - i,
    {
        let character = target[i];
        let ghost prefix = target@.take(i as int);
        let ghost next = target@.take(i + 1);
        assert(next.drop_last() =~= prefix);
        assert(next.last() == character);
        proof {
            lemma_depth_bounded(prefix);
            assert(nesting_depth(target@.take(i + 1)) >= 0);
        }
        if character == '}' || character == ']' || character == ')' {
            indentation_level = indentation_level - 1;
            let mut brk = get_new_line_string(&indentation_level);
            line.append(&mut brk);
        }
        line.push(character);
        if character == ',' {
            let mut brk = get_new_line_string(&indentation_level);
            line.append(&mut brk);
        }
        if character == '{' || character == '[' || character == '(' {
            indentation_level = indentation_level + 1;
            let mut brk = get_new_line_string(&indentation_level);
            line.append(&mut brk);
        }
        assert(line@ =~= rendered(prefix) + rendered_char(character, nesting_depth(prefix)));
        i = i + 1;
    }
    assert(target@.take(n as int) =~= target@);
    line
}

/// A character other than the line breaks and tabs that rendering adds.
pub open spec fn visible() -> spec_fn(char) -> bool {
    |c: char| c != '\n' && c != '\t'
}

proof fn lemma_filter_none(s: Seq<char>)
    requires
        forall|i: int| 0 <= i < s.len() ==> !visible()(#[trigger] s[i]),
    ensures
        s.filter(visible()) == Seq::<char>::empty(),
    decreases s.len(),
{
    if s.len() > 0 {
        let e = s.drop_last();
        assert forall|i: int| 0 <= i < e.len() implies !visible()(#[trigger] e[i]) by {
            assert(e[i] == s[i]);
        }
        lemma_filter_none(e);
        assert(e.push(s.last()) =~= s);
        e.lemma_filter_push(s.last(), visible());
    }
}

proof fn lemma_new_line_invisible(depth: nat)
    ensures
        new_line_spec(depth).filter(visible()) == Seq::<char>::empty(),
{
    assert forall|i: int| 0 <= i < new_line_spec(depth).len() implies !visible()(
        #[trigger] new_line_spec(depth)[i],
    ) by {
        if i > 0 {
            assert(new_line_spec(depth)[i] == '\t');
        }
    }
    lemma_filter_none(new_line_spec(depth));
}

/// Rendering only adds line breaks and tabs: with those left out, the
/// rendering and the input read the same.
pub proof fn lemma_rendering_adds_only_layout(s: Seq<char>)
    ensures
        rendered(s).filter(visible()) == s.filter(visible()),
    decreases s.len(),
{
    broadcast use Seq::filter_distributes_over_add;
    if s.len() > 0 {
        let e = s.drop_last();
        let c = s.last();
        let d = nesting_depth(e);
        lemma_rendering_adds_only_layout(e);
        let dd = if is_closer(c) { d - 1 } else { d };
        lemma_new_line_invisible(dd as nat);
        lemma_new_line_invisible((dd + 1) as nat);
        lemma_filter_none(Seq::empty());
        let before = if is_closer(c) { new_line_spec(dd as nat) } else { Seq::empty() };
        let after_comma = if c == ',' { new_line_spec(dd as nat) } else { Seq::empty() };
        let after_open = if is_opener(c) { new_line_spec((dd + 1) as nat) } else { Seq::empty() };
        assert(rendered_char(c, d) == before + seq![c] + after_comma + after_open);
        Seq::<char>::empty().lemma_filter_push(c, visible());
        assert(seq![c] =~= Seq::<char>::empty().push(c));
        assert(rendered_char(c, d).filter(visible()) =~= seq![c].filter(visible()));
        assert(e.push(c) =~= s);
        e.lemma_filter_push(c, visible());
        assert(e.filter(visible()) + seq![c].filter(visible()) =~= s.filter(visible()));
    }
}

} // verus!
