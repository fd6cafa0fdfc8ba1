//! The renderer: HTML cleanup and Markdown emission for the assembled
//! course tree.
//!
//! Every HTML-bearing field runs through the same pipeline before
//! conversion: a denylist of cosmetic attributes and tags is stripped,
//! empty tag pairs are removed until none is left, whitespace runs are
//! collapsed, and header tags are demoted one level so a module's own
//! headings sit below the document's. A module's name is not printed as a
//! heading when its cleaned description already is a close variant of it.
use vstd::prelude::*;

use crate::course::{CourseFile, CourseModule, CourseSection};
use crate::store::{first_with_key, lemma_first_match_at, lemma_first_with_key_bounds};
use crate::text::{
    ascii_chars, ascii_only, collapse_whitespace, collapse_ws, contains_chars, contains_sub,
    find_sub, lemma_find_sub_bounds, remove_all, remove_occurrences, str_to_chars,
    chars_to_string, trim_end_dots, trim_trailing_dots,
};

verus! {

/// The identity key, for scanning a text for one character.
pub open spec fn ch() -> spec_fn(char) -> char {
    |c: char| c
}

/// The cosmetic fragments stripped from every HTML field before
/// conversion.
pub open spec fn denylist() -> Seq<Seq<char>> {
    seq![
        " dir=\"ltr\""@,
        " lang=\"EN-US\""@,
        " class=\"\""@,
        " style=\"text-align: left;\""@,
        " style=\"text-align: center;\""@,
        "<br />"@,
        "<br>"@,
        "</ br>"@,
        "no-overflow"@,
        "<span>"@,
        "</span>"@,
        "<div>"@,
        "</div>"@,
        "&nbsp;"@,
    ]
}

/// The empty tag pairs stripped until none is left.
pub open spec fn empty_pairs() -> Seq<Seq<char>> {
    seq![
        "<p></p>"@,
        "<b></b>"@,
        "<strong></strong>"@,
        "<i></i>"@,
        "<em></em>"@,
        "<ul></ul>"@,
        "<li></li>"@,
        "<h1></h1>"@,
        "<h2></h2>"@,
        "<h3></h3>"@,
        "<h4></h4>"@,
        "<h5></h5>"@,
    ]
}

/// `s` with every occurrence of every listed fragment removed, in list
/// order.
pub open spec fn remove_list(s: Seq<char>, pats: Seq<Seq<char>>) -> Seq<char>
    decreases pats.len(),
{
    if pats.len() == 0 {
        s
    } else {
        remove_list(remove_all(s, pats[0]), pats.drop_first())
    }
}

/// One sweep over the empty-pair list.
pub open spec fn strip_pairs_once(s: Seq<char>) -> Seq<char> {
    remove_list(s, empty_pairs())
}

/// Empty tag pairs removed until a sweep removes nothing: removing an
/// inner pair can expose an enclosing one.
pub open spec fn strip_pairs(s: Seq<char>) -> Seq<char>
    decreases s.len(),
{
    let t = strip_pairs_once(s);
    if t.len() < s.len() {
        strip_pairs(t)
    } else {
        s
    }
}

/// A decimal header level, as written in a header tag.
pub open spec fn is_level(c: char) -> bool {
    ('1' as u32) <= (c as u32) <= ('9' as u32)
}

/// One header level down; level 1 stays.
pub open spec fn dec_level(c: char) -> char {
    if c == '2' {
        '1'
    } else if c == '3' {
        '2'
    } else if c == '4' {
        '3'
    } else if c == '5' {
        '4'
    } else if c == '6' {
        '5'
    } else if c == '7' {
        '6'
    } else if c == '8' {
        '7'
    } else if c == '9' {
        '8'
    } else {
        c
    }
}

/// Every plain header tag demoted one level.
pub open spec fn dec_headers(s: Seq<char>) -> Seq<char>
    decreases s.len(),
{
    if s.len() == 0 {
        Seq::empty()
    } else if s.len() >= 4 && s[0] == '<' && s[1] == 'h' && is_level(s[2]) && s[3] == '>' {
        seq!['<', 'h', dec_level(s[2]), '>'] + dec_headers(s.skip(4))
    } else if s.len() >= 5 && s[0] == '<' && s[1] == '/' && s[2] == 'h' && is_level(s[3]) && s[4]
        == '>' {
        seq!['<', '/', 'h', dec_level(s[3]), '>'] + dec_headers(s.skip(5))
    } else {
        seq![s[0]] + dec_headers(s.drop_first())
    }
}

/// The whole cleanup pipeline.
pub open spec fn clean_html_spec(s: Seq<char>) -> Seq<char> {
    dec_headers(collapse_ws(strip_pairs(remove_list(s, denylist()))))
}

/// A character of an HTML tag name.
pub open spec fn is_name_char(c: char) -> bool {
    (('a' as u32) <= (c as u32) <= ('z' as u32)) || (('0' as u32) <= (c as u32) <= ('9' as u32))
}

/// The name of a tag: its longest prefix of name characters.
pub open spec fn tag_name(t: Seq<char>) -> Seq<char>
    decreases t.len(),
{
    if t.len() == 0 {
        Seq::empty()
    } else if is_name_char(t[0]) {
        seq![t[0]] + tag_name(t.drop_first())
    } else {
        Seq::empty()
    }
}

/// The target of a link tag, if it carries one.
pub open spec fn href_of(tag: Seq<char>) -> Option<Seq<char>> {
    let i = find_sub(tag, "href=\""@);
    if i == -1 {
        None
    } else {
        let rest = tag.skip(i + 6);
        let j = first_with_key(rest, ch(), '"');
        if j == -1 {
            None
        } else {
            Some(rest.take(j))
        }
    }
}

/// What a start tag emits.
pub open spec fn start_markup(name: Seq<char>) -> Seq<char> {
    if name == "h1"@ {
        seq!['\n', '#', ' ']
    } else if name == "h2"@ {
        seq!['\n', '#', '#', ' ']
    } else if name == "h3"@ {
        seq!['\n', '#', '#', '#', ' ']
    } else if name == "h4"@ {
        seq!['\n', '#', '#', '#', '#', ' ']
    } else if name == "h5"@ {
        seq!['\n', '#', '#', '#', '#', '#', ' ']
    } else if name == "li"@ {
        seq!['*', ' ']
    } else if name == "b"@ || name == "strong"@ {
        seq!['*', '*']
    } else if name == "i"@ || name == "em"@ {
        seq!['_']
    } else {
        Seq::empty()
    }
}

/// What an end tag emits.
pub open spec fn end_markup(name: Seq<char>) -> Seq<char> {
    if name == "h1"@ || name == "h2"@ || name == "h3"@ || name == "h4"@ || name == "h5"@ {
        seq!['\n']
    } else if name == "p"@ || name == "li"@ {
        seq!['\n']
    } else if name == "b"@ || name == "strong"@ {
        seq!['*', '*']
    } else if name == "i"@ || name == "em"@ {
        seq!['_']
    } else {
        Seq::empty()
    }
}

/// Cleaned HTML converted to Markdown, one pass over the text with a stack
/// of open link targets. Text outside tags passes through; a tag without a
/// closing bracket ends the document (malformed input is tolerated, never
/// an error).
pub open spec fn md_of_html(s: Seq<char>, links: Seq<Seq<char>>) -> Seq<char>
    decreases s.len(),
    when true
    via md_of_html_decreases
{
    if s.len() == 0 {
        Seq::empty()
    } else if s[0] == '<' {
        let g = first_with_key(s, ch(), '>');
        if g == -1 {
            Seq::empty()
        } else {
            let tag = s.subrange(1, g);
            let rest = s.skip(g + 1);
            if tag.len() > 0 && tag[0] == '/' {
                let name = tag_name(tag.drop_first());
                if name == "a"@ {
                    if links.len() > 0 {
                        seq![']', '('] + links.last() + seq![')'] + md_of_html(
                            rest,
                            links.drop_last(),
                        )
                    } else {
                        md_of_html(rest, links)
                    }
                } else {
                    end_markup(name) + md_of_html(rest, links)
                }
            } else {
                let name = tag_name(tag);
                if name == "a"@ {
                    match href_of(tag) {
                        Some(h) => seq!['['] + md_of_html(rest, links.push(h)),
                        None => md_of_html(rest, links),
                    }
                } else {
                    start_markup(name) + md_of_html(rest, links)
                }
            }
        }
    } else {
        seq![s[0]] + md_of_html(s.drop_first(), links)
    }
}

#[via_fn]
proof fn md_of_html_decreases(s: Seq<char>, links: Seq<Seq<char>>) {
    if s.len() > 0 && s[0] == '<' {
        lemma_first_with_key_bounds(s, ch(), '>');
    }
}

/// The rendering of one HTML field: cleanup, then conversion.
pub open spec fn rendered_html(s: Seq<char>) -> Seq<char> {
    md_of_html(clean_html_spec(s), Seq::empty())
}

/// Whether `long` textually contains a close variant of `short`: trailing
/// ellipses on `short` and bold markup in `long` are ignored. Two empty
/// texts are no variant of each other.
pub open spec fn is_variation(short: Seq<char>, long: Seq<char>) -> bool {
    if short.len() > 0 || long.len() > 0 {
        contains_sub(remove_all(long, seq!['*', '*']), trim_end_dots(short))
    } else {
        false
    }
}

/// The text of an optional HTML field; an absent field is empty.
pub open spec fn opt_text(o: Option<String>) -> Seq<char> {
    match o {
        Some(s) => s@,
        None => Seq::empty(),
    }
}

/// The link line of one tree file: the local path when the file was
/// downloaded, else the remote URL; a file without a name or without both
/// targets emits nothing.
pub open spec fn file_md(f: CourseFile) -> Seq<char> {
    match f.filename {
        Some(name) => {
            let clean_name = ascii_only(name@);
            match f.filepath {
                Some(p) => seq!['\n', '['] + clean_name + seq![']', '('] + p@ + seq![')', '\n'],
                None => match f.fileurl {
                    Some(u) => seq!['\n', '['] + clean_name + seq![']', '('] + u@ + seq![')', '\n'],
                    None => Seq::empty(),
                },
            }
        },
        None => Seq::empty(),
    }
}

/// The link lines of a module's files, in order.
pub open spec fn files_md(files: Seq<CourseFile>) -> Seq<char>
    decreases files.len(),
{
    if files.len() == 0 {
        Seq::empty()
    } else {
        file_md(files[0]) + files_md(files.drop_first())
    }
}

/// A module heading: level 2 for a section's first module, level 3 for
/// the rest.
pub open spec fn module_heading(first: bool) -> Seq<char> {
    if first {
        seq!['#', '#', ' ']
    } else {
        seq!['#', '#', '#', ' ']
    }
}

/// A module's body: the rendered description when it is not empty, then
/// the file links.
pub open spec fn module_body_md(m: CourseModule) -> Seq<char> {
    let desc = rendered_html(opt_text(m.description));
    let desc_part = if desc.len() == 0 {
        Seq::<char>::empty()
    } else {
        desc + seq!['\n']
    };
    let files_part = match m.contents {
        Some(v) => files_md(v@),
        None => Seq::<char>::empty(),
    };
    desc_part + files_part
}

/// One module's Markdown. The heading is left out when the rendered
/// description is already a close variant of the module's name.
pub open spec fn module_md(m: CourseModule, first: bool) -> Seq<char> {
    let desc = rendered_html(opt_text(m.description));
    let name = ascii_only(m.name@);
    if is_variation(name, desc) {
        module_body_md(m)
    } else {
        module_heading(first) + name + seq!['\n'] + module_body_md(m)
    }
}

/// The Markdown of a section's modules, in order.
pub open spec fn modules_md(mods: Seq<CourseModule>, idx: int) -> Seq<char>
    decreases mods.len(),
{
    if mods.len() == 0 {
        Seq::empty()
    } else {
        module_md(mods[0], idx == 0) + modules_md(mods.drop_first(), idx + 1)
    }
}

/// One section's Markdown: a level-1 heading, the rendered summary when
/// it is not empty, then the modules.
pub open spec fn section_md(s: CourseSection) -> Seq<char> {
    let summary = rendered_html(s.summary@);
    seq!['#', ' '] + s.name@ + seq!['\n'] + (if summary.len() == 0 {
        Seq::<char>::empty()
    } else {
        summary + seq!['\n']
    }) + modules_md(s.modules@, 0)
}

/// The whole course's Markdown, sections in order.
pub open spec fn course_md(secs: Seq<CourseSection>) -> Seq<char>
    decreases secs.len(),
{
    if secs.len() == 0 {
        Seq::empty()
    } else {
        section_md(secs[0]) + course_md(secs.drop_first())
    }
}

/// The views of a stack of link targets.
pub open spec fn link_views(l: Seq<Vec<char>>) -> Seq<Seq<char>> {
    l.map(|i: int, v: Vec<char>| v@)
}

/// Append what a start tag emits.
fn push_start_markup(out: &mut Vec<char>, name: &Vec<char>)
    ensures
        final(out)@ == old(out)@ + start_markup(name@),
{
    proof {
        reveal_strlit("h1");
        reveal_strlit("h2");
        reveal_strlit("h3");
        reveal_strlit("h4");
        reveal_strlit("h5");
        reveal_strlit("li");
        reveal_strlit("b");
        reveal_strlit("strong");
        reveal_strlit("i");
        reveal_strlit("em");
    }
    let n = name.len();
    if n == 2 && name[0] == 'h' && name[1] == '1' {
        proof {
            assert(name@ =~= "h1"@);
        }
        out.push('\n');
        out.push('#');
        out.push(' ');
        proof {
            assert(final(out)@ =~= old(out)@ + start_markup(name@));
        }
    } else if n == 2 && name[0] == 'h' && name[1] == '2' {
        proof {
            assert(name@ =~= "h2"@);
        }
        out.push('\n');
        out.push('#');
        out.push('#');
        out.push(' ');
        proof {
            assert(final(out)@ =~= old(out)@ + start_markup(name@));
        }
    } else if n == 2 && name[0] == 'h' && name[1] == '3' {
        proof {
            assert(name@ =~= "h3"@);
        }
        out.push('\n');
        out.push('#');
        out.push('#');
        out.push('#');
        out.push(' ');
        proof {
            assert(final(out)@ =~= old(out)@ + start_markup(name@));
        }
    } else if n == 2 && name[0] == 'h' && name[1] == '4' {
        proof {
            assert(name@ =~= "h4"@);
        }
        out.push('\n');
        out.push('#');
        out.push('#');
        out.push('#');
        out.push('#');
        out.push(' ');
        proof {
            assert(final(out)@ =~= old(out)@ + start_markup(name@));
        }
    } else if n == 2 && name[0] == 'h' && name[1] == '5' {
        proof {
            assert(name@ =~= "h5"@);
        }
        out.push('\n');
        out.push('#');
        out.push('#');
        out.push('#');
        out.push('#');
        out.push('#');
        out.push(' ');
        proof {
            assert(final(out)@ =~= old(out)@ + start_markup(name@));
        }
    } else if n == 2 && name[0] == 'l' && name[1] == 'i' {
        proof {
            assert(name@ =~= "li"@);
        }
        out.push('*');
        out.push(' ');
        proof {
            assert(final(out)@ =~= old(out)@ + start_markup(name@));
        }
    } else if (n == 1 && name[0] == 'b') || (n == 6 && name[0] == 's' && name[1] == 't' && name[2]
        == 'r' && name[3] == 'o' && name[4] == 'n' && name[5] == 'g') {
        proof {
            if name@.len() == 1 {
                assert(name@ =~= "b"@);
            } else {
                assert(name@ =~= "strong"@);
            }
        }
        out.push('*');
        out.push('*');
        proof {
            assert(final(out)@ =~= old(out)@ + start_markup(name@));
        }
    } else if (n == 1 && name[0] == 'i') || (n == 2 && name[0] == 'e' && name[1] == 'm') {
        proof {
            if name@.len() == 1 {
                assert(name@ =~= "i"@);
            } else {
                assert(name@ =~= "em"@);
            }
        }
        out.push('_');
        proof {
            assert(final(out)@ =~= old(out)@ + start_markup(name@));
        }
    } else {
        proof {
            assert(final(out)@ =~= old(out)@ + start_markup(name@));
        }
    }
}

/// Append what an end tag emits.
fn push_end_markup(out: &mut Vec<char>, name: &Vec<char>)
    ensures
        final(out)@ == old(out)@ + end_markup(name@),
{
    proof {
        reveal_strlit("h1");
        reveal_strlit("h2");
        reveal_strlit("h3");
        reveal_strlit("h4");
        reveal_strlit("h5");
        reveal_strlit("p");
        reveal_strlit("li");
        reveal_strlit("b");
        reveal_strlit("strong");
        reveal_strlit("i");
        reveal_strlit("em");
    }
    let n = name.len();
    if n == 2 && name[0] == 'h' && (name[1] == '1' || name[1] == '2' || name[1] == '3' || name[1]
        == '4' || name[1] == '5') {
        proof {
            if name@[1] == '1' {
                assert(name@ =~= "h1"@);
            } else if name@[1] == '2' {
                assert(name@ =~= "h2"@);
            } else if name@[1] == '3' {
                assert(name@ =~= "h3"@);
            } else if name@[1] == '4' {
                assert(name@ =~= "h4"@);
            } else {
                assert(name@ =~= "h5"@);
            }
        }
        out.push('\n');
        proof {
            assert(final(out)@ =~= old(out)@ + end_markup(name@));
        }
    } else if (n == 1 && name[0] == 'p') || (n == 2 && name[0] == 'l' && name[1] == 'i') {
        proof {
            if name@.len() == 1 {
                assert(name@ =~= "p"@);
            } else {
                assert(name@ =~= "li"@);
            }
        }
        out.push('\n');
        proof {
            assert(final(out)@ =~= old(out)@ + end_markup(name@));
        }
    } else if (n == 1 && name[0] == 'b') || (n == 6 && name[0] == 's' && name[1] == 't' && name[2]
        == 'r' && name[3] == 'o' && name[4] == 'n' && name[5] == 'g') {
        proof {
            if name@.len() == 1 {
                assert(name@ =~= "b"@);
            } else {
                assert(name@ =~= "strong"@);
            }
        }
        out.push('*');
        out.push('*');
        proof {
            assert(final(out)@ =~= old(out)@ + end_markup(name@));
        }
    } else if (n == 1 && name[0] == 'i') || (n == 2 && name[0] == 'e' && name[1] == 'm') {
        proof {
            if name@.len() == 1 {
                assert(name@ =~= "i"@);
            } else {
                assert(name@ =~= "em"@);
            }
        }
        out.push('_');
        proof {
            assert(final(out)@ =~= old(out)@ + end_markup(name@));
        }
    } else {
        proof {
            assert(final(out)@ =~= old(out)@ + end_markup(name@));
        }
    }
}

/// The longest name-character prefix of a tag's content.
fn take_tag_name(t: &Vec<char>, from: usize) -> (r: Vec<char>)
    requires
        from <= t@.len(),
    ensures
        r@ == tag_name(t@.skip(from as int)),
{
    let n = t.len();
    let mut k: usize = from;
    let mut out: Vec<char> = Vec::new();
    while k < n
        invariant
            from <= k <= n,
            n == t@.len(),
            out@ =~= t@.subrange(from as int, k as int),
            forall|q: int| from <= q < k ==> is_name_char(#[trigger] t@[q]),
        decreases n - k,
    {
        let c = t[k];
        let lower = ('a' as u32) <= (c as u32) && (c as u32) <= ('z' as u32);
        let digit = ('0' as u32) <= (c as u32) && (c as u32) <= ('9' as u32);
        if !(lower || digit) {
            assert(!is_name_char(t@[k as int]));
            proof {
                lemma_tag_name_prefix(t@.skip(from as int), k - from);
            }
            return out;
        }
        out.push(c);
        proof {
            assert(t@.subrange(from as int, k + 1) =~= t@.subrange(from as int, k as int).push(
                t@[k as int],
            ));
        }
        k = k + 1;
    }
    proof {
        lemma_tag_name_prefix(t@.skip(from as int), n - from);
    }
    out
}

/// A scan that saw name characters up to `k` and stopped names the tag.
proof fn lemma_tag_name_prefix(t: Seq<char>, k: int)
    requires
        0 <= k <= t.len(),
        forall|q: int| 0 <= q < k ==> is_name_char(#[trigger] t[q]),
        k < t.len() ==> !is_name_char(t[k]),
    ensures
        tag_name(t) == t.subrange(0, k),
    decreases t.len(),
{
    if t.len() == 0 {
        assert(t.subrange(0, 0) =~= Seq::<char>::empty());
    } else if k == 0 {
        assert(t.subrange(0, 0) =~= Seq::<char>::empty());
    } else {
        assert(is_name_char(t[0]));
        assert forall|q: int| 0 <= q < k - 1 implies is_name_char(#[trigger] t.drop_first()[q]) by {
            assert(t.drop_first()[q] == t[q + 1]);
        }
        if k - 1 < t.drop_first().len() {
            assert(t.drop_first()[k - 1] == t[k]);
        }
        lemma_tag_name_prefix(t.drop_first(), k - 1);
        assert(seq![t[0]] + t.drop_first().subrange(0, k - 1) =~= t.subrange(0, k));
    }
}

/// The link target inside a tag's content, if any.
fn take_href(t: &Vec<char>) -> (r: Option<Vec<char>>)
    ensures
        match r {
            Some(h) => href_of(t@) == Some(h@),
            None => href_of(t@) is None,
        },
{
    let pat = str_to_chars("href=\"");
    proof {
        reveal_strlit("href=\"");
        assert(pat@ =~= "href=\""@);
    }
    let found = crate::text::find_chars(t, &pat);
    match found {
        None => None,
        Some(i) => {
            let n = t.len();
            proof {
                lemma_find_sub_bounds(t@, pat@);
            }
            let start = i + 6;
            let mut j: usize = start;
            while j < n
                invariant
                    start <= j <= n,
                    n == t@.len(),
                    start == i + 6,
                    i + 6 <= n,
                    find_sub(t@, "href=\""@) == i as int,
                    forall|q: int| start <= q < j ==> #[trigger] t@[q] != '"',
                decreases n - j,
            {
                if t[j] == '"' {
                    // copy the target out
                    let mut h: Vec<char> = Vec::new();
                    let mut k: usize = start;
                    while k < j
                        invariant
                            start <= k <= j <= n,
                            n == t@.len(),
                            h@ =~= t@.subrange(start as int, k as int),
                        decreases j - k,
                    {
                        h.push(t[k]);
                        proof {
                            assert(t@.subrange(start as int, k + 1) =~= t@.subrange(
                                start as int,
                                k as int,
                            ).push(t@[k as int]));
                        }
                        k = k + 1;
                    }
                    proof {
                        let rest = t@.skip(start as int);
                        assert forall|q: int| 0 <= q < j - start implies #[trigger] ch()(rest[q])
                            != '"' by {
                            assert(rest[q] == t@[start + q]);
                        }
                        assert(ch()(rest[j - start]) == '"');
                        lemma_first_match_at(rest, ch(), '"', j - start);
                        assert(rest.take(j - start) =~= t@.subrange(start as int, j as int));
                    }
                    return Some(h);
                }
                j = j + 1;
            }
            proof {
                let rest = t@.skip(start as int);
                assert forall|q: int| 0 <= q < rest.len() implies #[trigger] ch()(rest[q])
                    != '"' by {
                    assert(rest[q] == t@[start + q]);
                }
                lemma_first_with_key_bounds(rest, ch(), '"');
            }
            None
        },
    }
}

/// Convert cleaned HTML to Markdown from position `i` on, with the open
/// link targets in `links`.
fn md_from(s: &Vec<char>, i: usize, links: Vec<Vec<char>>) -> (r: Vec<char>)
    requires
        i <= s@.len(),
    ensures
        r@ == md_of_html(s@.skip(i as int), link_views(links@)),
    decreases s@.len() - i,
{
    let ghost tail = s@.skip(i as int);
    let n = s.len();
    if i == n {
        assert(tail =~= Seq::<char>::empty());
        return Vec::new();
    }
    let c = s[i];
    proof {
        assert(tail[0] == s@[i as int]);
        assert(tail.drop_first() =~= s@.skip(i + 1));
    }
    if c != '<' {
        let mut out: Vec<char> = Vec::new();
        out.push(c);
        let mut rest = md_from(s, i + 1, links);
        out.append(&mut rest);
        proof {
            assert(out@ =~= seq![tail[0]] + md_of_html(tail.drop_first(), link_views(links@)));
        }
        return out;
    }
    // scan for the closing bracket
    let mut j: usize = i + 1;
    while j < n && s[j] != '>'
        invariant
            i + 1 <= j <= n,
            n == s@.len(),
            s@[i as int] == '<',
            forall|q: int| i < q < j ==> #[trigger] s@[q] != '>',
        decreases n - j,
    {
        j = j + 1;
    }
    if j == n {
        // no closing bracket: the malformed tail is dropped
        proof {
            assert forall|q: int| 0 <= q < tail.len() implies #[trigger] ch()(tail[q]) != '>' by {
                if q > 0 {
                    assert(tail[q] == s@[i + q]);
                }
            }
            lemma_first_with_key_bounds(tail, ch(), '>');
        }
        return Vec::new();
    }
    assert(s@[j as int] == '>');
    proof {
        assert forall|q: int| 0 <= q < j - i implies #[trigger] ch()(tail[q]) != '>' by {
            if q > 0 {
                assert(tail[q] == s@[i + q]);
            }
        }
        assert(ch()(tail[j - i]) == '>');
        lemma_first_match_at(tail, ch(), '>', j - i);
    }
    let ghost g = j - i;
    // copy the tag's content out
    let mut t: Vec<char> = Vec::new();
    let mut k: usize = i + 1;
    while k < j
        invariant
            i + 1 <= k <= j < n,
            n == s@.len(),
            t@ =~= s@.subrange(i + 1, k as int),
        decreases j - k,
    {
        t.push(s[k]);
        proof {
            assert(s@.subrange(i + 1, k + 1) =~= s@.subrange(i + 1, k as int).push(s@[k as int]));
        }
        k = k + 1;
    }
    proof {
        assert(t@ =~= tail.subrange(1, g as int));
        assert(tail.skip(g + 1) =~= s@.skip(j + 1));
    }
    let closing = t.len() > 0 && t[0] == '/';
    if closing {
        let name = take_tag_name(&t, 1);
        proof {
            assert(t@.skip(1) =~= tail.subrange(1, g as int).drop_first());
        }
        let is_a = name.len() == 1 && name[0] == 'a';
        proof {
            reveal_strlit("a");
            if is_a {
                assert(name@ =~= "a"@);
            } else {
                assert(name@ != "a"@);
            }
        }
        if is_a {
            let mut links = links;
            let ghost links0 = links@;
            let top = links.pop();
            match top {
                Some(h) => {
                    proof {
                        assert(links0.len() > 0);
                        assert(link_views(links0).len() > 0);
                        assert(link_views(links0).last() == h@);
                        assert(links@ =~= links0.drop_last());
                        assert(link_views(links0).drop_last() =~= link_views(links0.drop_last()));
                    }
                    let mut out: Vec<char> = Vec::new();
                    out.push(']');
                    out.push('(');
                    let mut hh = h;
                    out.append(&mut hh);
                    out.push(')');
                    let mut rest = md_from(s, j + 1, links);
                    out.append(&mut rest);
                    proof {
                        assert(out@ =~= seq![']', '('] + link_views(links0).last() + seq![')']
                            + md_of_html(s@.skip(j + 1), link_views(links0).drop_last()));
                    }
                    return out;
                },
                None => {
                    let rest = md_from(s, j + 1, links);
                    proof {
                        assert(link_views(links@).len() == 0);
                    }
                    return rest;
                },
            }
        } else {
            let mut out: Vec<char> = Vec::new();
            push_end_markup(&mut out, &name);
            let mut rest = md_from(s, j + 1, links);
            out.append(&mut rest);
            return out;
        }
    } else {
        let name = take_tag_name(&t, 0);
        proof {
            assert(t@.skip(0) =~= t@);
        }
        let is_a = name.len() == 1 && name[0] == 'a';
        proof {
            reveal_strlit("a");
            if is_a {
                assert(name@ =~= "a"@);
            } else {
                assert(name@ != "a"@);
            }
        }
        if is_a {
            let href = take_href(&t);
            match href {
                Some(h) => {
                    let mut links = links;
                    let ghost links0 = links@;
                    links.push(h);
                    proof {
                        assert(link_views(links@) =~= link_views(links0).push(
                            href_of(t@).unwrap(),
                        ));
                    }
                    let mut out: Vec<char> = Vec::new();
                    out.push('[');
                    let mut rest = md_from(s, j + 1, links);
                    out.append(&mut rest);
                    return out;
                },
                None => {
                    let rest = md_from(s, j + 1, links);
                    return rest;
                },
            }
        } else {
            let mut out: Vec<char> = Vec::new();
            push_start_markup(&mut out, &name);
            let mut rest = md_from(s, j + 1, links);
            out.append(&mut rest);
            return out;
        }
    }
}


/// The views of a list of character buffers.
pub open spec fn views_of(l: Seq<Vec<char>>) -> Seq<Seq<char>> {
    l.map(|i: int, v: Vec<char>| v@)
}

/// Remove every occurrence of every pattern, in list order.
fn apply_patterns(s: Vec<char>, pats: &Vec<Vec<char>>) -> (r: Vec<char>)
    ensures
        r@ == remove_list(s@, views_of(pats@)),
{
    let ghost s0 = s@;
    let mut cur = s;
    let n = pats.len();
    let mut k: usize = 0;
    proof {
        assert(views_of(pats@).skip(0) =~= views_of(pats@));
    }
    while k < n
        invariant
            k <= n,
            n == pats@.len(),
            remove_list(s0, views_of(pats@)) == remove_list(cur@, views_of(pats@).skip(k as int)),
        decreases n - k,
    {
        let pat = &pats[k];
        proof {
            assert(views_of(pats@).skip(k as int)[0] == pats@[k as int]@);
            assert(views_of(pats@).skip(k as int).drop_first() =~= views_of(pats@).skip(k + 1));
        }
        if pat.len() > 0 {
            cur = remove_occurrences(&cur, pat);
        } else {
            proof {
                assert(remove_all(cur@, pats@[k as int]@) == cur@);
            }
        }
        k = k + 1;
    }
    proof {
        assert(views_of(pats@).skip(n as int) =~= Seq::<Seq<char>>::empty());
    }
    cur
}

/// The fragment denylist, as character buffers.
fn denylist_chars() -> (r: Vec<Vec<char>>)
    ensures
        views_of(r@) == denylist(),
{
    let mut out: Vec<Vec<char>> = Vec::new();
    out.push(str_to_chars(" dir=\"ltr\""));
    out.push(str_to_chars(" lang=\"EN-US\""));
    out.push(str_to_chars(" class=\"\""));
    out.push(str_to_chars(" style=\"text-align: left;\""));
    out.push(str_to_chars(" style=\"text-align: center;\""));
    out.push(str_to_chars("<br />"));
    out.push(str_to_chars("<br>"));
    out.push(str_to_chars("</ br>"));
    out.push(str_to_chars("no-overflow"));
    out.push(str_to_chars("<span>"));
    out.push(str_to_chars("</span>"));
    out.push(str_to_chars("<div>"));
    out.push(str_to_chars("</div>"));
    out.push(str_to_chars("&nbsp;"));
    proof {
        assert(views_of(out@) =~= denylist());
    }
    out
}

/// The empty tag pairs, as character buffers.
fn empty_pairs_chars() -> (r: Vec<Vec<char>>)
    ensures
        views_of(r@) == empty_pairs(),
{
    let mut out: Vec<Vec<char>> = Vec::new();
    out.push(str_to_chars("<p></p>"));
    out.push(str_to_chars("<b></b>"));
    out.push(str_to_chars("<strong></strong>"));
    out.push(str_to_chars("<i></i>"));
    out.push(str_to_chars("<em></em>"));
    out.push(str_to_chars("<ul></ul>"));
    out.push(str_to_chars("<li></li>"));
    out.push(str_to_chars("<h1></h1>"));
    out.push(str_to_chars("<h2></h2>"));
    out.push(str_to_chars("<h3></h3>"));
    out.push(str_to_chars("<h4></h4>"));
    out.push(str_to_chars("<h5></h5>"));
    proof {
        assert(views_of(out@) =~= empty_pairs());
    }
    out
}

/// One header level down.
fn dec_level_exec(c: char) -> (r: char)
    ensures
        r == dec_level(c),
{
    if c == '2' {
        '1'
    } else if c == '3' {
        '2'
    } else if c == '4' {
        '3'
    } else if c == '5' {
        '4'
    } else if c == '6' {
        '5'
    } else if c == '7' {
        '6'
    } else if c == '8' {
        '7'
    } else if c == '9' {
        '8'
    } else {
        c
    }
}

/// Every plain header tag demoted one level.
fn dec_headers_chars(s: &Vec<char>) -> (r: Vec<char>)
    ensures
        r@ == dec_headers(s@),
{
    let mut out: Vec<char> = Vec::new();
    let n = s.len();
    let mut i: usize = 0;
    proof {
        assert(s@.skip(0) =~= s@);
        assert(out@ + dec_headers(s@) =~= dec_headers(s@));
    }
    while i < n
        invariant
            i <= n,
            n == s@.len(),
            dec_headers(s@) == out@ + dec_headers(s@.skip(i as int)),
        decreases n - i,
    {
        let ghost tail = s@.skip(i as int);
        proof {
            assert forall|q: int| 0 <= q < tail.len() implies #[trigger] tail[q] == s@[i + q] by {}
        }
        let open_tag = n - i >= 4 && s[i] == '<' && s[i + 1] == 'h' && level_at(s, i + 2) && s[i
            + 3] == '>';
        let close_tag = !open_tag && n - i >= 5 && s[i] == '<' && s[i + 1] == '/' && s[i + 2]
            == 'h' && level_at(s, i + 3) && s[i + 4] == '>';
        if open_tag {
            out.push('<');
            out.push('h');
            out.push(dec_level_exec(s[i + 2]));
            out.push('>');
            proof {
                assert(tail.skip(4) =~= s@.skip(i + 4));
                assert(dec_headers(tail) == seq!['<', 'h', dec_level(tail[2]), '>'] + dec_headers(
                    tail.skip(4),
                ));
                assert(out@ + dec_headers(s@.skip(i + 4)) =~= out@.subrange(0, out@.len() - 4) + (
                seq!['<', 'h', dec_level(tail[2]), '>'] + dec_headers(tail.skip(4))));
            }
            i = i + 4;
        } else if close_tag {
            out.push('<');
            out.push('/');
            out.push('h');
            out.push(dec_level_exec(s[i + 3]));
            out.push('>');
            proof {
                assert(tail.skip(5) =~= s@.skip(i + 5));
                assert(!(tail.len() >= 4 && tail[0] == '<' && tail[1] == 'h' && is_level(tail[2])
                    && tail[3] == '>'));
                assert(dec_headers(tail) == seq!['<', '/', 'h', dec_level(tail[3]), '>']
                    + dec_headers(tail.skip(5)));
                assert(out@ + dec_headers(s@.skip(i + 5)) =~= out@.subrange(0, out@.len() - 5) + (
                seq!['<', '/', 'h', dec_level(tail[3]), '>'] + dec_headers(tail.skip(5))));
            }
            i = i + 5;
        } else {
            out.push(s[i]);
            proof {
                assert(tail.drop_first() =~= s@.skip(i + 1));
                assert(out@ + dec_headers(s@.skip(i + 1)) =~= out@.drop_last() + (seq![tail[0]]
                    + dec_headers(tail.drop_first())));
            }
            i = i + 1;
        }
    }
    proof {
        assert(s@.skip(n as int) =~= Seq::<char>::empty());
        assert(out@ + Seq::<char>::empty() =~= out@);
    }
    out
}

/// Whether the character at `k` is a header level digit.
fn level_at(s: &Vec<char>, k: usize) -> (r: bool)
    requires
        k < s@.len(),
    ensures
        r == is_level(s@[k as int]),
{
    let c = s[k];
    ('1' as u32) <= (c as u32) && (c as u32) <= ('9' as u32)
}

/// The whole cleanup pipeline over characters.
fn clean_chars(s: Vec<char>) -> (r: Vec<char>)
    ensures
        r@ == clean_html_spec(s@),
{
    let ghost s0 = s@;
    let deny = denylist_chars();
    let cur = apply_patterns(s, &deny);
    // strip empty pairs until a sweep removes nothing
    let pairs = empty_pairs_chars();
    let mut cur = cur;
    let mut done = false;
    while !done
        invariant
            views_of(pairs@) == empty_pairs(),
            !done ==> strip_pairs(remove_list(s0, denylist())) == strip_pairs(cur@),
            done ==> strip_pairs(remove_list(s0, denylist())) == cur@,
        decreases cur@.len() + (if done { 0int } else { 1 }),
    {
        let len_before = cur.len();
        let ghost before = cur@;
        let swept = apply_patterns(cur, &pairs);
        if swept.len() < len_before {
            cur = swept;
            proof {
                assert(strip_pairs_once(before) == cur@);
                assert(strip_pairs(before) == strip_pairs(cur@));
            }
        } else {
            cur = swept;
            proof {
                assert(strip_pairs_once(before) == cur@);
                assert(cur@.len() >= before.len());
                lemma_remove_list_shrinks(before, empty_pairs());
                assert(cur@.len() == before.len());
                lemma_remove_list_same_len(before, empty_pairs());
                assert(cur@ == before);
                assert(strip_pairs(before) == before);
            }
            done = true;
        }
    }
    let collapsed = collapse_whitespace(&cur);
    dec_headers_chars(&collapsed)
}

/// A removal sweep never lengthens the text.
proof fn lemma_remove_all_shrinks(s: Seq<char>, pat: Seq<char>)
    ensures
        remove_all(s, pat).len() <= s.len(),
        remove_all(s, pat).len() == s.len() ==> remove_all(s, pat) == s,
    decreases s.len(),
{
    if pat.len() == 0 || s.len() < pat.len() {
    } else if s.take(pat.len() as int) == pat {
        lemma_remove_all_shrinks(s.skip(pat.len() as int), pat);
    } else {
        lemma_remove_all_shrinks(s.drop_first(), pat);
        if remove_all(s, pat).len() == s.len() {
            assert(remove_all(s.drop_first(), pat) == s.drop_first());
            assert(seq![s[0]] + s.drop_first() =~= s);
        }
    }
}

proof fn lemma_remove_list_shrinks(s: Seq<char>, pats: Seq<Seq<char>>)
    ensures
        remove_list(s, pats).len() <= s.len(),
    decreases pats.len(),
{
    if pats.len() > 0 {
        lemma_remove_all_shrinks(s, pats[0]);
        lemma_remove_list_shrinks(remove_all(s, pats[0]), pats.drop_first());
    }
}

proof fn lemma_remove_list_same_len(s: Seq<char>, pats: Seq<Seq<char>>)
    requires
        remove_list(s, pats).len() == s.len(),
    ensures
        remove_list(s, pats) == s,
    decreases pats.len(),
{
    if pats.len() > 0 {
        lemma_remove_all_shrinks(s, pats[0]);
        lemma_remove_list_shrinks(remove_all(s, pats[0]), pats.drop_first());
        assert(remove_all(s, pats[0]).len() == s.len());
        assert(remove_all(s, pats[0]) == s);
        lemma_remove_list_same_len(s, pats.drop_first());
    }
}

/// Strip the cleanup denylist, remove empty tag pairs until stable,
/// collapse whitespace runs and demote header tags: the pipeline applied
/// to every HTML field before conversion.
pub fn clean_html(html: &String) -> (r: String)
    ensures
        r@ == clean_html_spec(html@),
{
    let chars = str_to_chars(html.as_str());
    let cleaned = clean_chars(chars);
    chars_to_string(&cleaned)
}

/// Convert cleaned HTML to Markdown.
pub fn parse_html(html: &str) -> (r: String)
    ensures
        r@ == md_of_html(html@, Seq::<Seq<char>>::empty()),
{
    let chars = str_to_chars(html);
    let links: Vec<Vec<char>> = Vec::new();
    proof {
        assert(link_views(links@) =~= Seq::<Seq<char>>::empty());
        assert(chars@.skip(0) =~= chars@);
    }
    let md = md_from(&chars, 0, links);
    chars_to_string(&md)
}

/// Only the ASCII characters of a name.
pub fn remove_emojis(s: &str) -> (r: String)
    ensures
        r@ == ascii_only(s@),
{
    let chars = str_to_chars(s);
    let filtered = ascii_chars(&chars);
    chars_to_string(&filtered)
}

/// Runs of whitespace collapsed to one space.
pub fn remove_line_breaks(input: &str) -> (r: String)
    ensures
        r@ == collapse_ws(input@),
{
    let chars = str_to_chars(input);
    let collapsed = collapse_whitespace(&chars);
    chars_to_string(&collapsed)
}

/// Every plain header tag demoted one level.
pub fn decrease_header_level(input: &str) -> (r: String)
    ensures
        r@ == dec_headers(input@),
{
    let chars = str_to_chars(input);
    let out = dec_headers_chars(&chars);
    chars_to_string(&out)
}

/// Whether `long` contains a close variant of `short`, ignoring trailing
/// ellipses and bold markup.
fn is_variation_chars(short: &Vec<char>, long: &Vec<char>) -> (r: bool)
    ensures
        r == is_variation(short@, long@),
{
    if short.len() == 0 && long.len() == 0 {
        return false;
    }
    let trimmed = trim_trailing_dots(short);
    let mut stars: Vec<char> = Vec::new();
    stars.push('*');
    stars.push('*');
    proof {
        assert(stars@ =~= seq!['*', '*']);
    }
    let unbolded = remove_occurrences(long, &stars);
    contains_chars(&unbolded, &trimmed)
}

/// Whether `long` contains a close variant of `short`: trailing ellipses
/// on `short` and bold markup in `long` are ignored.
pub fn is_variation_of(short: &str, long: &str) -> (r: bool)
    ensures
        r == is_variation(short@, long@),
{
    let s = str_to_chars(short);
    let l = str_to_chars(long);
    is_variation_chars(&s, &l)
}

/// The rendering of one HTML field: cleanup, then conversion.
fn render_html_field(s: &String) -> (r: Vec<char>)
    ensures
        r@ == rendered_html(s@),
{
    let chars = str_to_chars(s.as_str());
    let cleaned = clean_chars(chars);
    let links: Vec<Vec<char>> = Vec::new();
    proof {
        assert(link_views(links@) =~= Seq::<Seq<char>>::empty());
        assert(cleaned@.skip(0) =~= cleaned@);
    }
    md_from(&cleaned, 0, links)
}

/// The link line of one tree file.
fn render_file(f: &CourseFile) -> (r: Vec<char>)
    ensures
        r@ == file_md(*f),
{
    match &f.filename {
        None => Vec::new(),
        Some(name) => {
            let name_chars = str_to_chars(name.as_str());
            let clean_name = ascii_chars(&name_chars);
            let target: &String = match &f.filepath {
                Some(p) => p,
                None => match &f.fileurl {
                    Some(u) => u,
                    None => {
                        return Vec::new();
                    },
                },
            };
            let mut out: Vec<char> = Vec::new();
            out.push('\n');
            out.push('[');
            let mut nm = clean_name;
            out.append(&mut nm);
            out.push(']');
            out.push('(');
            let mut tg = str_to_chars(target.as_str());
            out.append(&mut tg);
            out.push(')');
            out.push('\n');
            proof {
                assert(out@ =~= file_md(*f));
            }
            out
        },
    }
}

/// The link lines of a module's files, from index `i` on.
fn render_files(files: &Vec<CourseFile>, i: usize) -> (r: Vec<char>)
    requires
        i <= files@.len(),
    ensures
        r@ == files_md(files@.skip(i as int)),
    decreases files@.len() - i,
{
    if i == files.len() {
        proof {
            assert(files@.skip(i as int) =~= Seq::<CourseFile>::empty());
        }
        return Vec::new();
    }
    let mut out = render_file(&files[i]);
    let mut rest = render_files(files, i + 1);
    out.append(&mut rest);
    proof {
        assert(files@.skip(i as int)[0] == files@[i as int]);
        assert(files@.skip(i as int).drop_first() =~= files@.skip(i + 1));
    }
    out
}

/// One module's Markdown.
fn render_module(m: &CourseModule, first: bool) -> (r: Vec<char>)
    ensures
        r@ == module_md(*m, first),
{
    let empty_string = String::new();
    let desc_src: &String = match &m.description {
        Some(d) => d,
        None => &empty_string,
    };
    let desc = render_html_field(desc_src);
    let name_chars = str_to_chars(m.name.as_str());
    let name = ascii_chars(&name_chars);
    let variation = is_variation_chars(&name, &desc);
    let mut out: Vec<char> = Vec::new();
    if !variation {
        out.push('#');
        out.push('#');
        if !first {
            out.push('#');
        }
        out.push(' ');
        let mut nm = name;
        out.append(&mut nm);
        out.push('\n');
        proof {
            assert(out@ =~= module_heading(first) + ascii_only(m.name@) + seq!['\n']);
        }
    }
    let ghost head = out@;
    if desc.len() > 0 {
        let mut d = desc;
        out.append(&mut d);
        out.push('\n');
    }
    let files_part = match &m.contents {
        Some(v) => {
            let ghost vv = v@;
            let part = render_files(v, 0);
            proof {
                assert(vv.skip(0) =~= vv);
            }
            part
        },
        None => Vec::new(),
    };
    let mut fp = files_part;
    out.append(&mut fp);
    proof {
        assert(out@ =~= (if is_variation(ascii_only(m.name@), rendered_html(opt_text(m.description))) {
            module_body_md(*m)
        } else {
            module_heading(first) + ascii_only(m.name@) + seq!['\n'] + module_body_md(*m)
        }));
    }
    out
}

/// The Markdown of a section's modules, from index `i` on.
fn render_modules(mods: &Vec<CourseModule>, i: usize) -> (r: Vec<char>)
    requires
        i <= mods@.len(),
    ensures
        r@ == modules_md(mods@.skip(i as int), i as int),
    decreases mods@.len() - i,
{
    if i == mods.len() {
        proof {
            assert(mods@.skip(i as int) =~= Seq::<CourseModule>::empty());
        }
        return Vec::new();
    }
    let mut out = render_module(&mods[i], i == 0);
    let mut rest = render_modules(mods, i + 1);
    out.append(&mut rest);
    proof {
        assert(mods@.skip(i as int)[0] == mods@[i as int]);
        assert(mods@.skip(i as int).drop_first() =~= mods@.skip(i + 1));
    }
    out
}

/// One section's Markdown.
fn render_section(s: &CourseSection) -> (r: Vec<char>)
    ensures
        r@ == section_md(*s),
{
    let mut out: Vec<char> = Vec::new();
    out.push('#');
    out.push(' ');
    let mut nm = str_to_chars(s.name.as_str());
    out.append(&mut nm);
    out.push('\n');
    let summary = render_html_field(&s.summary);
    if summary.len() > 0 {
        let mut sm = summary;
        out.append(&mut sm);
        out.push('\n');
    }
    let mut mods = render_modules(&s.modules, 0);
    out.append(&mut mods);
    proof {
        assert(s.modules@.skip(0) =~= s.modules@);
        assert(out@ =~= section_md(*s));
    }
    out
}

/// The sections' Markdown, from index `i` on.
fn render_sections(secs: &Vec<CourseSection>, i: usize) -> (r: Vec<char>)
    requires
        i <= secs@.len(),
    ensures
        r@ == course_md(secs@.skip(i as int)),
    decreases secs@.len() - i,
{
    if i == secs.len() {
        proof {
            assert(secs@.skip(i as int) =~= Seq::<CourseSection>::empty());
        }
        return Vec::new();
    }
    let mut out = render_section(&secs[i]);
    let mut rest = render_sections(secs, i + 1);
    out.append(&mut rest);
    proof {
        assert(secs@.skip(i as int)[0] == secs@[i as int]);
        assert(secs@.skip(i as int).drop_first() =~= secs@.skip(i + 1));
    }
    out
}

/// Render the assembled course tree to Markdown: a level-1 heading and the
/// cleaned summary per section, a level-2 heading for a section's first
/// module and level-3 headings for the rest — left out where the rendered
/// description already carries the name — and one link line per file,
/// using the local path when the file was downloaded and the remote URL
/// otherwise.
pub fn parse_course(course: Vec<CourseSection>) -> (r: String)
    ensures
        r@ == course_md(course@),
{
    proof {
        assert(course@.skip(0) =~= course@);
    }
    let md = render_sections(&course, 0);
    chars_to_string(&md)
}

/// Law (rendering determinism): the Markdown is a function of the tree
/// alone, so rendering the same tree twice yields byte-identical text.
pub proof fn lemma_render_deterministic(a: Seq<CourseSection>, b: Seq<CourseSection>)
    requires
        a == b,
    ensures
        course_md(a) == course_md(b),
{
}

/// Law (heading dedup): when a module's rendered description is already a
/// close variant of its name, the renderer emits the module body alone —
/// the name appears once, in the description, and not again as a heading.
pub proof fn lemma_heading_dedup(m: CourseModule, first: bool)
    requires
        is_variation(ascii_only(m.name@), rendered_html(opt_text(m.description))),
    ensures
        module_md(m, first) == module_body_md(m),
{
}

/// The incremental Markdown emitter: feed it text and tags in document
/// order and read the Markdown off `output`. Open link targets wait on
/// `links` for their closing tags.
pub struct MarkdownParser {
    pub output: Vec<char>,
    pub links: Vec<Vec<char>>,
}

impl MarkdownParser {
    /// An emitter with nothing written yet.
    pub fn new() -> (r: MarkdownParser)
        ensures
            r.output@ == Seq::<char>::empty(),
            r.links@ == Seq::<Vec<char>>::empty(),
    {
        MarkdownParser { output: Vec::new(), links: Vec::new() }
    }

    /// Pass document text through unchanged.
    pub fn parse_text(&mut self, text: &str)
        ensures
            final(self).output@ == old(self).output@ + text@,
            final(self).links@ == old(self).links@,
    {
        let mut chars = str_to_chars(text);
        self.output.append(&mut chars);
    }

    /// Emit a start tag's markup; a link tag with a target opens a pending
    /// link instead.
    pub fn parse_start_tag(&mut self, tag: &Vec<char>)
        ensures
            ({
                let name = tag_name(tag@);
                if name == "a"@ {
                    match href_of(tag@) {
                        Some(h) => final(self).output@ == old(self).output@ + seq!['[']
                            && link_views(final(self).links@) == link_views(old(self).links@).push(
                            h,
                        ),
                        None => final(self).output@ == old(self).output@
                            && final(self).links@ == old(self).links@,
                    }
                } else {
                    final(self).output@ == old(self).output@ + start_markup(name)
                        && final(self).links@ == old(self).links@
                }
            }),
    {
        let name = take_tag_name(tag, 0);
        proof {
            assert(tag@.skip(0) =~= tag@);
        }
        let is_a = name.len() == 1 && name[0] == 'a';
        proof {
            reveal_strlit("a");
            if is_a {
                assert(name@ =~= "a"@);
            } else {
                assert(name@ != "a"@);
            }
        }
        if is_a {
            match take_href(tag) {
                Some(h) => {
                    let ghost links0 = self.links@;
                    self.output.push('[');
                    self.links.push(h);
                    proof {
                        assert(link_views(self.links@) =~= link_views(links0).push(
                            href_of(tag@).unwrap(),
                        ));
                    }
                },
                None => {},
            }
        } else {
            push_start_markup(&mut self.output, &name);
        }
    }

    /// Emit an end tag's markup; a closing link tag closes the latest
    /// pending link.
    pub fn parse_end_tag(&mut self, tag: &Vec<char>)
        ensures
            ({
                let name = tag_name(tag@);
                if name == "a"@ {
                    if old(self).links@.len() > 0 {
                        final(self).output@ == old(self).output@ + seq![']', '(']
                            + link_views(old(self).links@).last() + seq![')']
                            && final(self).links@ == old(self).links@.drop_last()
                    } else {
                        final(self).output@ == old(self).output@
                            && final(self).links@ == old(self).links@
                    }
                } else {
                    final(self).output@ == old(self).output@ + end_markup(name)
                        && final(self).links@ == old(self).links@
                }
            }),
    {
        let name = take_tag_name(tag, 0);
        proof {
            assert(tag@.skip(0) =~= tag@);
        }
        let is_a = name.len() == 1 && name[0] == 'a';
        proof {
            reveal_strlit("a");
            if is_a {
                assert(name@ =~= "a"@);
            } else {
                assert(name@ != "a"@);
            }
        }
        if is_a {
            let ghost links0 = self.links@;
            match self.links.pop() {
                Some(h) => {
                    self.output.push(']');
                    self.output.push('(');
                    let mut hh = h;
                    self.output.append(&mut hh);
                    self.output.push(')');
                    proof {
                        assert(link_views(links0).last() == links0.last()@);
                        assert(self.links@ =~= links0.drop_last());
                    }
                },
                None => {},
            }
        } else {
            push_end_markup(&mut self.output, &name);
        }
    }
}

} // verus!

