//! Text transformations for reStructuredText, file names and Python literals.

use vstd::prelude::*;

verus! {

// ---------------------------------------------------------------------------
// Characters
// ---------------------------------------------------------------------------

/// The characters with the Unicode property `White_Space`.
pub open spec fn white_space(c: char) -> bool {
    let n = c as int;
    ||| 0x9 <= n <= 0xD
    ||| n == 0x20
    ||| n == 0x85
    ||| n == 0xA0
    ||| n == 0x1680
    ||| 0x2000 <= n <= 0x200A
    ||| n == 0x2028
    ||| n == 0x2029
    ||| n == 0x202F
    ||| n == 0x205F
    ||| n == 0x3000
}

/// `char::is_whitespace` tells whether a character has the Unicode property
/// `White_Space`; `white_space` lists the characters that have it.
pub assume_specification[ char::is_whitespace ](c: char) -> (b: bool)
    ensures
        b == white_space(c),
;

/// The characters of which docutils accepts a title underline or a transition:
/// the printable ASCII characters other than letters, digits and the space.
pub open spec fn transition_mark(c: char) -> bool {
    ||| '!' <= c <= '/'
    ||| ':' <= c <= '@'
    ||| '[' <= c <= '`'
    ||| '{' <= c <= '~'
}

/// The characters of `s`.
pub fn chars_of(s: &str) -> (v: Vec<char>)
    ensures
        v@ == s@,
{
    broadcast use vstd::string::axiom_spec_iter;

    let mut v: Vec<char> = Vec::new();
    for c in it: s.chars()
        invariant
            it.seq() == s@,
            v@ == s@.take(it.index() as int),
    {
        proof {
            assert(s@.take(it.index() + 1) =~= s@.take(it.index() as int).push(c));
        }
        v.push(c);
    }
    assert(s@.take(s@.len() as int) =~= s@);
    v
}

/// The characters from `from` up to `to` as a string.
pub fn string_of(chars: &Vec<char>, from: usize, to: usize) -> (s: String)
    requires
        from <= to <= chars@.len(),
    ensures
        s@ == chars@.subrange(from as int, to as int),
{
    let mut s = String::new();
    let mut i: usize = from;
    assert(s@ =~= chars@.subrange(from as int, i as int));
    while i < to
        invariant
            from <= i <= to <= chars@.len(),
            s@ == chars@.subrange(from as int, i as int),
        decreases to - i,
    {
        s.push(chars[i]);
        i = i + 1;
        assert(s@ =~= chars@.subrange(from as int, i as int));
    }
    s
}

// ---------------------------------------------------------------------------
// Escapes
// ---------------------------------------------------------------------------

/// The characters that start reStructuredText markup.
pub open spec fn rst_special(c: char) -> bool {
    c == '\\' || c == '*' || c == '`' || c == '|' || c == '_'
}

/// `s` with a backslash in front of every special character.
pub open spec fn rst_escaped(s: Seq<char>) -> Seq<char>
    decreases s.len(),
{
    if s.len() == 0 {
        Seq::empty()
    } else if rst_special(s[0]) {
        seq!['\\', s[0]] + rst_escaped(s.skip(1))
    } else {
        seq![s[0]] + rst_escaped(s.skip(1))
    }
}

/// What a reader of reStructuredText sees: each backslash is dropped and the
/// character after it is taken literally.
pub open spec fn rst_unescaped(s: Seq<char>) -> Seq<char>
    decreases s.len(),
{
    if s.len() == 0 {
        Seq::empty()
    } else if s[0] == '\\' && s.len() >= 2 {
        seq![s[1]] + rst_unescaped(s.skip(2))
    } else {
        seq![s[0]] + rst_unescaped(s.skip(1))
    }
}

/// Escaped text reads as the text itself.
pub proof fn law_escaped_text_reads_back(s: Seq<char>)
    ensures
        rst_unescaped(rst_escaped(s)) == s,
    decreases s.len(),
{
    if s.len() > 0 {
        law_escaped_text_reads_back(s.skip(1));
        let rest = rst_escaped(s.skip(1));
        let e = rst_escaped(s);
        if rst_special(s[0]) {
            assert(e.skip(2) =~= rest);
        } else {
            assert(e.skip(1) =~= rest);
        }
        assert(seq![s[0]] + s.skip(1) =~= s);
    }
}

/// Escape RST special characters in text.
pub fn escape_rst(text: &str) -> (r: String)
    ensures
        r@ == rst_escaped(text@),
{
    let chars = chars_of(text);
    let mut r = String::new();
    let mut i: usize = 0;
    assert(chars@.skip(0) =~= chars@);
    assert(r@ + rst_escaped(chars@.skip(0)) =~= rst_escaped(chars@));
    while i < chars.len()
        invariant
            i <= chars@.len(),
            r@ + rst_escaped(chars@.skip(i as int)) == rst_escaped(chars@),
        decreases chars@.len() - i,
    {
        let c = chars[i];
        let ghost before = r@;
        let ghost rest = chars@.skip(i as int);
        if c == '\\' || c == '*' || c == '`' || c == '|' || c == '_' {
            r.push('\\');
        }
        r.push(c);
        i = i + 1;
        proof {
            assert(rest.skip(1) =~= chars@.skip(i as int));
            assert(r@ + rst_escaped(rest.skip(1)) =~= before + rst_escaped(rest));
        }
    }
    assert(r@ + rst_escaped(chars@.skip(i as int)) =~= r@);
    r
}

/// How a character is written between the quotes of a Python string.
pub open spec fn py_escape(c: char) -> Seq<char> {
    if c == '\\' {
        seq!['\\', '\\']
    } else if c == '\'' {
        seq!['\\', '\'']
    } else if c == '\r' {
        seq!['\\', 'r']
    } else if c == '\n' {
        seq!['\\', 'n']
    } else {
        seq![c]
    }
}

/// How a text is written between the quotes of a Python string.
pub open spec fn py_escaped(s: Seq<char>) -> Seq<char>
    decreases s.len(),
{
    if s.len() == 0 {
        Seq::empty()
    } else {
        py_escape(s[0]) + py_escaped(s.skip(1))
    }
}

/// The Python string literal of a text.
pub open spec fn py_literal(s: Seq<char>) -> Seq<char> {
    seq!['\''] + py_escaped(s) + seq!['\'']
}

/// The value that Python reads from the rest of a literal, after its opening
/// quote: the text up to the closing quote, which must be the last character.
pub open spec fn py_read(s: Seq<char>) -> Option<Seq<char>>
    decreases s.len(),
{
    if s.len() == 0 || s[0] == '\n' || s[0] == '\r' {
        None
    } else if s[0] == '\'' {
        if s.len() == 1 {
            Some(Seq::empty())
        } else {
            None
        }
    } else if s[0] == '\\' {
        if s.len() < 2 {
            None
        } else {
            let c = if s[1] == 'r' {
                '\r'
            } else if s[1] == 'n' {
                '\n'
            } else {
                s[1]
            };
            match py_read(s.skip(2)) {
                Some(rest) => Some(seq![c] + rest),
                None => None,
            }
        }
    } else {
        match py_read(s.skip(1)) {
            Some(rest) => Some(seq![s[0]] + rest),
            None => None,
        }
    }
}

/// The value of a single-quoted Python string literal.
pub open spec fn py_value(literal: Seq<char>) -> Option<Seq<char>> {
    if literal.len() >= 1 && literal[0] == '\'' {
        py_read(literal.skip(1))
    } else {
        None
    }
}

proof fn lemma_py_read(s: Seq<char>)
    ensures
        py_read(py_escaped(s).push('\'')) == Some(s),
    decreases s.len(),
{
    let e = py_escaped(s).push('\'');
    if s.len() == 0 {
        assert(e.len() == 1 && e[0] == '\'');
    } else {
        lemma_py_read(s.skip(1));
        let rest = py_escaped(s.skip(1)).push('\'');
        assert(e =~= py_escape(s[0]) + rest);
        assert(e.skip(py_escape(s[0]).len() as int) =~= rest);
        assert(seq![s[0]] + s.skip(1) =~= s);
    }
}

/// A Python literal has the text that it was written for as its value, line
/// breaks, quotes and backslashes included.
pub proof fn law_python_literal_reads_back(s: Seq<char>)
    ensures
        py_value(py_literal(s)) == Some(s),
{
    lemma_py_read(s);
    assert(py_literal(s).skip(1) =~= py_escaped(s).push('\''));
}

/// Format a string as a Python string literal. Backslashes, single quotes and
/// line breaks are escaped.
pub fn py_string(s: &str) -> (r: String)
    ensures
        r@ == py_literal(s@),
{
    let chars = chars_of(s);
    let mut r = String::new();
    r.push('\'');
    let mut i: usize = 0;
    assert(chars@.skip(0) =~= chars@);
    assert(r@ =~= seq!['\'']);
    while i < chars.len()
        invariant
            i <= chars@.len(),
            r@ + py_escaped(chars@.skip(i as int)) == seq!['\''] + py_escaped(chars@),
        decreases chars@.len() - i,
    {
        let c = chars[i];
        let ghost before = r@;
        let ghost rest = chars@.skip(i as int);
        if c == '\\' {
            r.push('\\');
            r.push('\\');
        } else if c == '\'' {
            r.push('\\');
            r.push('\'');
        } else if c == '\r' {
            r.push('\\');
            r.push('r');
        } else if c == '\n' {
            r.push('\\');
            r.push('n');
        } else {
            r.push(c);
        }
        i = i + 1;
        proof {
            assert(rest.skip(1) =~= chars@.skip(i as int));
            assert(r@ =~= before + py_escape(c));
            assert(r@ + py_escaped(rest.skip(1)) =~= before + py_escaped(rest));
        }
    }
    assert(r@ =~= seq!['\''] + py_escaped(chars@));
    r.push('\'');
    assert(r@ =~= py_literal(chars@));
    r
}

// ---------------------------------------------------------------------------
// Names
// ---------------------------------------------------------------------------

/// `s` with an underscore in place of every character of the given set.
pub open spec fn underscored(s: Seq<char>, bad: spec_fn(char) -> bool) -> Seq<char> {
    s.map_values(|c: char| if bad(c) { '_' } else { c })
}

/// The characters that a label does not hold.
pub open spec fn label_hostile() -> spec_fn(char) -> bool {
    |c: char| c == ' ' || c == '\\' || c == '/'
}

/// The characters that a page name does not hold.
pub open spec fn filename_hostile() -> spec_fn(char) -> bool {
    |c: char|
        c == ' ' || c == '\\' || c == '/' || c == ':' || c == '<' || c == '>' || c == '"' || c
            == '|' || c == '?' || c == '*'
}

/// The characters that an image name does not hold.
pub open spec fn image_hostile() -> spec_fn(char) -> bool {
    |c: char|
        c == '/' || c == '\\' || c == ':' || c == '*' || c == '?' || c == '"' || c == '<' || c
            == '>' || c == '|'
}

/// The label of a context string.
pub open spec fn label(s: Seq<char>) -> Seq<char> {
    underscored(s, label_hostile())
}

/// The page name of a context string, without extension.
pub open spec fn page_name(s: Seq<char>) -> Seq<char> {
    underscored(s, filename_hostile())
}

/// The file name of an image, without the leading bar of internal files.
pub open spec fn image_stem(s: Seq<char>) -> Seq<char> {
    underscored(if s.len() > 0 && s[0] == '|' { s.skip(1) } else { s }, image_hostile())
}

/// A cleaned name has none of the characters that it is cleaned of, keeps its
/// length, and stays as it is when it is cleaned again.
pub proof fn law_underscored_names_are_clean(s: Seq<char>, bad: spec_fn(char) -> bool)
    requires
        !bad('_'),
    ensures
        underscored(s, bad).len() == s.len(),
        forall|i: int| 0 <= i < s.len() ==> !bad(#[trigger] underscored(s, bad)[i]),
        underscored(underscored(s, bad), bad) == underscored(s, bad),
{
    assert(underscored(underscored(s, bad), bad) =~= underscored(s, bad));
}

/// Sanitize a context string for use as an RST label.
pub fn sanitize_label(s: &str) -> (r: String)
    ensures
        r@ == label(s@),
{
    let chars = chars_of(s);
    let mut r = String::new();
    let mut i: usize = 0;
    while i < chars.len()
        invariant
            i <= chars@.len(),
            r@ == label(chars@.take(i as int)),
        decreases chars@.len() - i,
    {
        let c = chars[i];
        r.push(if c == ' ' || c == '\\' || c == '/' { '_' } else { c });
        i = i + 1;
        assert(r@ =~= label(chars@.take(i as int)));
    }
    assert(chars@.take(i as int) =~= chars@);
    r
}

/// Sanitize a context string for use as a filename (without extension).
pub fn sanitize_filename(s: &str) -> (r: String)
    ensures
        r@ == page_name(s@),
{
    let chars = chars_of(s);
    let mut r = String::new();
    let mut i: usize = 0;
    while i < chars.len()
        invariant
            i <= chars@.len(),
            r@ == page_name(chars@.take(i as int)),
        decreases chars@.len() - i,
    {
        let c = chars[i];
        let hostile = c == ' ' || c == '\\' || c == '/' || c == ':' || c == '<' || c == '>' || c
            == '"' || c == '|' || c == '?' || c == '*';
        r.push(if hostile { '_' } else { c });
        i = i + 1;
        assert(r@ =~= page_name(chars@.take(i as int)));
    }
    assert(chars@.take(i as int) =~= chars@);
    r
}

/// Strip the leading `|` from the name of an internal file and replace the
/// characters that file systems reject with `_`.
pub fn sanitize_image_stem(filename: &str) -> (r: String)
    ensures
        r@ == image_stem(filename@),
{
    let chars = chars_of(filename);
    let mut r = String::new();
    let start: usize = if chars.len() > 0 && chars[0] == '|' { 1 } else { 0 };
    let ghost name = chars@.skip(start as int);
    proof {
        if start == 0 {
            assert(name =~= chars@);
        }
    }
    let mut i: usize = start;
    while i < chars.len()
        invariant
            start <= i <= chars@.len(),
            name == chars@.skip(start as int),
            r@ == underscored(name.take(i - start), image_hostile()),
        decreases chars@.len() - i,
    {
        let c = chars[i];
        let hostile = c == '/' || c == '\\' || c == ':' || c == '*' || c == '?' || c == '"' || c
            == '<' || c == '>' || c == '|';
        r.push(if hostile { '_' } else { c });
        i = i + 1;
        assert(r@ =~= underscored(name.take(i - start), image_hostile()));
    }
    assert(name.take(i - start) =~= name);
    r
}

/// The position of the last dot of a name, or -1 if it has none.
pub open spec fn last_dot(s: Seq<char>) -> int
    decreases s.len(),
{
    if s.len() == 0 {
        -1
    } else if s.last() == '.' {
        s.len() - 1
    } else {
        last_dot(s.drop_last())
    }
}

/// A name up to its last dot.
pub open spec fn without_extension(s: Seq<char>) -> Seq<char> {
    if last_dot(s) >= 0 {
        s.take(last_dot(s))
    } else {
        s
    }
}

/// A name with its extension replaced, or added where it has none.
pub open spec fn with_extension(s: Seq<char>, ext: Seq<char>) -> Seq<char> {
    without_extension(s) + seq!['.'] + ext
}

proof fn lemma_last_dot_bounds(s: Seq<char>)
    ensures
        -1 <= last_dot(s) < s.len() as int,
    decreases s.len(),
{
    if s.len() > 0 && s.last() != '.' {
        lemma_last_dot_bounds(s.drop_last());
    }
}

proof fn lemma_last_dot_after(s: Seq<char>, t: Seq<char>)
    requires
        forall|i: int| 0 <= i < t.len() ==> t[i] != '.',
    ensures
        last_dot(s + seq!['.'] + t) == s.len(),
    decreases t.len(),
{
    let whole = s + seq!['.'] + t;
    if t.len() == 0 {
        assert(whole.last() == '.');
    } else {
        lemma_last_dot_after(s, t.drop_last());
        assert(whole.last() == t.last());
        assert(whole.drop_last() =~= s + seq!['.'] + t.drop_last());
    }
}

/// Replacing an extension twice leaves the second extension alone.
pub proof fn law_extension_is_replaced(s: Seq<char>, first: Seq<char>, second: Seq<char>)
    requires
        forall|i: int| 0 <= i < first.len() ==> first[i] != '.',
    ensures
        with_extension(with_extension(s, first), second) == with_extension(s, second),
{
    lemma_last_dot_after(without_extension(s), first);
    let whole = with_extension(s, first);
    assert(whole.take(without_extension(s).len() as int) =~= without_extension(s));
}

/// Replaces what follows the last dot of `filename` with `new_ext`; a name
/// without a dot gets the extension appended.
pub fn swap_extension(filename: &str, new_ext: &str) -> (r: String)
    ensures
        r@ == with_extension(filename@, new_ext@),
{
    let chars = chars_of(filename);
    let mut end: usize = chars.len();
    assert(chars@.take(end as int) =~= chars@);
    while end > 0 && chars[end - 1] != '.'
        invariant
            end <= chars@.len(),
            last_dot(chars@) == last_dot(chars@.take(end as int)),
        decreases end,
    {
        assert(chars@.take(end as int).drop_last() =~= chars@.take(end - 1));
        end = end - 1;
    }
    let stop: usize = if end > 0 { end - 1 } else { chars.len() };
    let mut r = string_of(&chars, 0, stop);
    proof {
        if end > 0 {
            assert(chars@.take(end as int).last() == '.');
            assert(last_dot(chars@) == stop);
        } else {
            assert(last_dot(chars@) == -1);
        }
        assert(r@ =~= without_extension(chars@));
    }
    r.push('.');
    r.append(new_ext);
    assert(r@ =~= with_extension(filename@, new_ext@));
    r
}

// ---------------------------------------------------------------------------
// Lines
// ---------------------------------------------------------------------------

/// The number of white-space characters at the start of `s`.
pub open spec fn indent(s: Seq<char>) -> nat
    decreases s.len(),
{
    if s.len() > 0 && white_space(s[0]) {
        1 + indent(s.skip(1))
    } else {
        0
    }
}

/// `s` without the white space at its end.
pub open spec fn trimmed_end(s: Seq<char>) -> Seq<char>
    decreases s.len(),
{
    if s.len() > 0 && white_space(s.last()) {
        trimmed_end(s.drop_last())
    } else {
        s
    }
}

/// The text of a line without the white space around it.
pub open spec fn line_body(line: Seq<char>) -> Seq<char> {
    trimmed_end(line.skip(indent(line) as int))
}

/// Whether docutils reads a line as a transition or a title underline: its
/// text is one punctuation character, four times or more.
pub open spec fn is_transition(line: Seq<char>) -> bool {
    let body = line_body(line);
    &&& body.len() >= 4
    &&& transition_mark(body[0])
    &&& forall|i: int| 0 <= i < body.len() ==> #[trigger] body[i] == body[0]
}

/// A line with a backslash in front of its text.
pub open spec fn broken_up(line: Seq<char>) -> Seq<char> {
    line.take(indent(line) as int).push('\\') + line.skip(indent(line) as int)
}

/// A line as it is written: one that docutils would read as a transition is
/// broken up.
pub open spec fn safe_line(line: Seq<char>) -> Seq<char> {
    if is_transition(line) {
        broken_up(line)
    } else {
        line
    }
}

proof fn lemma_indent(s: Seq<char>)
    ensures
        indent(s) <= s.len(),
        forall|i: int| 0 <= i < indent(s) ==> white_space(#[trigger] s[i]),
        indent(s) < s.len() ==> !white_space(s[indent(s) as int]),
    decreases s.len(),
{
    if s.len() > 0 && white_space(s[0]) {
        lemma_indent(s.skip(1));
        assert forall|i: int| 0 <= i < indent(s) implies white_space(#[trigger] s[i]) by {
            if i > 0 {
                assert(s.skip(1)[i - 1] == s[i]);
            }
        }
    }
}

proof fn lemma_indent_is(s: Seq<char>, n: nat)
    requires
        n < s.len(),
        forall|i: int| 0 <= i < n ==> white_space(#[trigger] s[i]),
        !white_space(s[n as int]),
    ensures
        indent(s) == n,
    decreases n,
{
    if n > 0 {
        assert(white_space(s[0]));
        assert forall|i: int| 0 <= i < n - 1 implies white_space(#[trigger] s.skip(1)[i]) by {
            assert(s.skip(1)[i] == s[i + 1]);
        }
        lemma_indent_is(s.skip(1), (n - 1) as nat);
    }
}

proof fn lemma_trimmed_end(s: Seq<char>)
    ensures
        trimmed_end(s).len() <= s.len(),
        trimmed_end(s) == s.take(trimmed_end(s).len() as int),
    decreases s.len(),
{
    if s.len() > 0 && white_space(s.last()) {
        lemma_trimmed_end(s.drop_last());
        assert(s.drop_last().take(trimmed_end(s).len() as int) =~= s.take(
            trimmed_end(s).len() as int,
        ));
    } else {
        assert(s.take(s.len() as int) =~= s);
    }
}

proof fn lemma_trimmed_end_prefixed(c: char, s: Seq<char>)
    requires
        trimmed_end(s).len() > 0,
    ensures
        trimmed_end(seq![c] + s) == seq![c] + trimmed_end(s),
    decreases s.len(),
{
    let whole = seq![c] + s;
    if s.len() > 0 && white_space(s.last()) {
        lemma_trimmed_end_prefixed(c, s.drop_last());
        assert(whole.drop_last() =~= seq![c] + s.drop_last());
        assert(whole.last() == s.last());
    } else {
        assert(whole.last() == s.last());
    }
}

/// A line that is broken up is no longer read as a transition. A line of
/// backslashes is the exception: one backslash more leaves it uniform.
pub proof fn law_broken_up_lines_are_no_transitions(line: Seq<char>)
    requires
        line_body(line).len() > 0 ==> line_body(line)[0] != '\\',
    ensures
        !is_transition(safe_line(line)),
{
    if is_transition(line) {
        let n = indent(line);
        lemma_indent(line);
        lemma_trimmed_end(line.skip(n as int));
        let rest = line.skip(n as int);
        let out = safe_line(line);
        lemma_indent_is(out, n);
        assert(out.skip(n as int) =~= seq!['\\'] + rest);
        lemma_trimmed_end_prefixed('\\', rest);
        let body = line_body(out);
        assert(body =~= seq!['\\'] + line_body(line));
        assert(body[0] == '\\');
        assert(body[1] == line_body(line)[0]);
    }
}

/// If a line would be parsed by docutils as a transition or section-title
/// underline (4+ uniform punctuation chars, ignoring leading whitespace),
/// return a version with a backslash inserted before the first punctuation
/// char to break the uniform run. Returns `None` for lines that don't look
/// like a marker.
pub fn neutralize_transition_line(line: &str) -> (r: Option<String>)
    ensures
        match r {
            Some(s) => is_transition(line@) && s@ == broken_up(line@),
            None => !is_transition(line@),
        },
{
    let chars = chars_of(line);
    let len: usize = chars.len();
    let mut lead: usize = 0;
    assert(chars@.skip(0) =~= chars@);
    while lead < len && chars[lead].is_whitespace()
        invariant
            lead <= len == chars@.len(),
            indent(chars@) == lead + indent(chars@.skip(lead as int)),
        decreases len - lead,
    {
        assert(chars@.skip(lead as int).skip(1) =~= chars@.skip(lead + 1));
        lead = lead + 1;
    }
    assert(indent(chars@) == lead);
    let ghost rest = chars@.skip(lead as int);
    let mut end: usize = len;
    assert(rest.take(end - lead) =~= rest);
    while end > lead && chars[end - 1].is_whitespace()
        invariant
            lead <= end <= len == chars@.len(),
            rest == chars@.skip(lead as int),
            trimmed_end(rest) == trimmed_end(rest.take(end - lead)),
        decreases end,
    {
        assert(rest.take(end - lead).drop_last() =~= rest.take(end - lead - 1));
        end = end - 1;
    }
    let ghost body = rest.take(end - lead);
    assert(trimmed_end(rest) == body);
    if end - lead < 4 {
        return None;
    }
    let first = chars[lead];
    assert(first == body[0]);
    let mark = ('!' <= first && first <= '/') || (':' <= first && first <= '@') || ('[' <= first
        && first <= '`') || ('{' <= first && first <= '~');
    if !mark {
        return None;
    }
    let mut i: usize = lead;
    while i < end
        invariant
            lead <= i <= end <= len == chars@.len(),
            rest == chars@.skip(lead as int),
            body == rest.take(end - lead),
            body == trimmed_end(rest),
            indent(chars@) == lead,
            chars@ == line@,
            first == body[0],
            forall|j: int| 0 <= j < i - lead ==> body[j] == first,
        decreases end - i,
    {
        assert(body[i - lead] == chars@[i as int]);
        if chars[i] != first {
            assert(line_body(line@) == body);
            return None;
        }
        i = i + 1;
    }
    let mut escaped = string_of(&chars, 0, lead);
    escaped.push('\\');
    let tail = string_of(&chars, lead, len);
    escaped.append(tail.as_str());
    assert(escaped@ =~= broken_up(line@));
    Some(escaped)
}

/// `s` without the spaces and tabs at its start.
pub open spec fn flush_left(s: Seq<char>) -> Seq<char>
    decreases s.len(),
{
    if s.len() > 0 && (s[0] == ' ' || s[0] == '\t') {
        flush_left(s.skip(1))
    } else {
        s
    }
}

/// The length of the first line of `s`.
pub open spec fn line_len(s: Seq<char>) -> nat
    decreases s.len(),
{
    if s.len() == 0 || s[0] == '\n' {
        0
    } else {
        1 + line_len(s.skip(1))
    }
}

proof fn lemma_line_len(s: Seq<char>)
    ensures
        line_len(s) <= s.len(),
    decreases s.len(),
{
    if s.len() > 0 && s[0] != '\n' {
        lemma_line_len(s.skip(1));
    }
}

/// The lines of `s`: the texts between its line feeds.
pub open spec fn lines(s: Seq<char>) -> Seq<Seq<char>>
    decreases s.len(),
{
    if line_len(s) >= s.len() {
        seq![s]
    } else {
        seq![s.take(line_len(s) as int)] + lines(s.skip(line_len(s) as int + 1))
    }
}

/// Lines as they are written, each with a line feed after it.
pub open spec fn safe_lines(l: Seq<Seq<char>>) -> Seq<char>
    decreases l.len(),
{
    if l.len() == 0 {
        Seq::empty()
    } else {
        safe_line(l[0]).push('\n') + safe_lines(l.skip(1))
    }
}

/// The text of a paragraph: flush left, line by line.
pub open spec fn paragraph_text(s: Seq<char>) -> Seq<char> {
    safe_lines(lines(flush_left(s)))
}

proof fn lemma_flush_left(s: Seq<char>)
    ensures
        flush_left(s).len() > 0 ==> flush_left(s)[0] != ' ' && flush_left(s)[0] != '\t',
    decreases s.len(),
{
    if s.len() > 0 && (s[0] == ' ' || s[0] == '\t') {
        lemma_flush_left(s.skip(1));
    }
}

/// A paragraph never starts with a space or a tab, and always ends its last
/// line.
pub proof fn law_paragraphs_are_flush_left(s: Seq<char>)
    ensures
        paragraph_text(s).len() > 0,
        paragraph_text(s)[0] != ' ',
        paragraph_text(s)[0] != '\t',
        paragraph_text(s).last() == '\n',
{
    lemma_flush_left(s);
    let t = flush_left(s);
    let l = lines(t);
    lemma_line_len(t);
    assert(l.len() > 0);
    let first = l[0];
    assert(first.len() > 0 ==> first[0] == t[0]);
    lemma_indent(first);
    lemma_safe_lines_end(l);
    let out = safe_line(first).push('\n') + safe_lines(l.skip(1));
    if is_transition(first) {
        lemma_trimmed_end(first.skip(indent(first) as int));
        if indent(first) == 0 {
            assert(out[0] == '\\');
        } else {
            assert(out[0] == first[0]);
        }
    } else if first.len() == 0 {
        assert(out[0] == '\n');
    } else {
        assert(out[0] == first[0]);
    }
}

proof fn lemma_safe_lines_end(l: Seq<Seq<char>>)
    requires
        l.len() > 0,
    ensures
        safe_lines(l).len() > 0,
        safe_lines(l).last() == '\n',
    decreases l.len(),
{
    if l.len() > 1 {
        lemma_safe_lines_end(l.skip(1));
    } else {
        assert(safe_lines(l.skip(1)) =~= Seq::empty());
    }
}

/// Appends a paragraph whose running text is `text`.
pub fn write_paragraph(out: &mut String, text: &str)
    ensures
        final(out)@ == old(out)@ + paragraph_text(text@),
{
    let chars = chars_of(text);
    let len: usize = chars.len();
    let mut start: usize = 0;
    assert(chars@.skip(0) =~= chars@);
    while start < len && (chars[start] == ' ' || chars[start] == '\t')
        invariant
            start <= len == chars@.len(),
            flush_left(chars@) == flush_left(chars@.skip(start as int)),
        decreases len - start,
    {
        assert(chars@.skip(start as int).skip(1) =~= chars@.skip(start + 1));
        start = start + 1;
    }
    let ghost all = out@ + paragraph_text(text@);
    assert(flush_left(chars@) == chars@.skip(start as int));
    loop
        invariant
            start <= len == chars@.len(),
            all == out@ + safe_lines(lines(chars@.skip(start as int))),
            all == old(out)@ + paragraph_text(text@),
        decreases len - start,
    {
        let ghost rest = chars@.skip(start as int);
        let mut end: usize = start;
        while end < len && chars[end] != '\n'
            invariant
                start <= end <= len == chars@.len(),
                rest == chars@.skip(start as int),
                line_len(rest) == end - start + line_len(chars@.skip(end as int)),
            decreases len - end,
        {
            assert(chars@.skip(end as int).skip(1) =~= chars@.skip(end + 1));
            end = end + 1;
        }
        assert(line_len(rest) == end - start);
        let line = string_of(&chars, start, end);
        assert(line@ =~= rest.take(end - start));
        let ghost before = out@;
        match neutralize_transition_line(line.as_str()) {
            Some(escaped) => out.append(escaped.as_str()),
            None => out.append(line.as_str()),
        }
        out.push('\n');
        assert(out@ =~= before + safe_line(line@).push('\n'));
        if end < len {
            proof {
                let tail = chars@.skip(end + 1);
                assert(rest.skip(line_len(rest) as int + 1) =~= tail);
                let l = lines(rest);
                assert(l[0] == line@);
                assert(l.skip(1) =~= lines(tail));
                assert(out@ + safe_lines(lines(tail)) =~= before + safe_lines(l));
            }
            start = end + 1;
        } else {
            proof {
                assert(rest.take(end - start) =~= rest);
                let l = lines(rest);
                assert(l =~= seq![rest]);
                assert(safe_lines(l.skip(1)) =~= Seq::empty());
                assert(safe_lines(l) =~= safe_line(rest).push('\n'));
                assert(out@ =~= before + safe_lines(l));
            }
            return;
        }
    }
}

} // verus!
