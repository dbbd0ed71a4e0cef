//! The name of an exported glossary.
use crate::text;
use crate::text::Edge;
use vstd::prelude::*;

verus! {

/// A character that does not go into a file name.
pub open spec fn is_unsafe(c: char) -> bool {
    ||| text::is_control(c)
    ||| c == '/' || c == '\\' || c == '"' || c == ':' || c == '*' || c == '?' || c == '<' || c
        == '>' || c == '|'
}

/// The name with an underscore in place of each such character.
pub open spec fn replaced(s: Seq<char>) -> Seq<char> {
    Seq::new(
        s.len(),
        |i: int|
            if is_unsafe(s[i]) {
                '_'
            } else {
                s[i]
            },
    )
}

/// The name of a project as a file name: without spaces and dots at its ends, and never empty.
pub open spec fn safe_name(s: Seq<char>) -> Seq<char> {
    let name = text::trim(replaced(s), Edge::SpaceOrDot);
    if name.len() == 0 {
        "project"@
    } else {
        name
    }
}

/// The name of a project as a file name.
pub fn safe_project_filename(name: &str) -> (r: String)
    ensures
        r@ == safe_name(name@),
{
    let v = text::chars_of(name);
    let mut safe = String::new();
    let mut i: usize = 0;
    while i < v.len()
        invariant
            v@ == name@,
            i <= v@.len(),
            safe@ == replaced(name@).take(i as int),
        decreases v@.len() - i,
    {
        let c = v[i];
        if text::control(c) || c == '/' || c == '\\' || c == '"' || c == ':' || c == '*' || c == '?'
            || c == '<' || c == '>' || c == '|' {
            safe.push('_');
        } else {
            safe.push(c);
        }
        assert(replaced(name@).take(i + 1) =~= replaced(name@).take(i as int).push(
            replaced(name@)[i as int],
        ));
        i += 1;
    }
    assert(replaced(name@).take(i as int) =~= replaced(name@));
    let trimmed = text::trimmed(safe.as_str(), Edge::SpaceOrDot);
    if trimmed.as_str().is_empty() {
        "project".to_owned()
    } else {
        trimmed
    }
}

/// The name of the file that the glossary of a project is exported to.
pub fn glossary_filename(project: &str) -> (r: String)
    ensures
        r@ == safe_name(project@) + ".glossary.json"@,
{
    let name = safe_project_filename(project);
    text::joined(name.as_str(), ".glossary.json")
}

/// Every character of a trimmed text is one of the text.
proof fn lemma_trim_within(s: Seq<char>, edge: Edge)
    ensures
        forall|i: int|
            0 <= i < text::trim(s, edge).len() ==> s.contains(#[trigger] text::trim(s, edge)[i]),
{
    let a = text::trim_start(s, edge);
    lemma_trim_start_within(s, edge);
    lemma_trim_end_within(a, edge);
    assert forall|i: int| 0 <= i < text::trim(s, edge).len() implies s.contains(
        #[trigger] text::trim(s, edge)[i],
    ) by {
        assert(a.contains(text::trim_end(a, edge)[i]));
        let k = choose|k: int| 0 <= k < a.len() && a[k] == text::trim_end(a, edge)[i];
        assert(s.contains(a[k]));
    }
}

proof fn lemma_trim_start_within(s: Seq<char>, edge: Edge)
    ensures
        forall|i: int|
            0 <= i < text::trim_start(s, edge).len() ==> s.contains(
                #[trigger] text::trim_start(s, edge)[i],
            ),
    decreases s.len(),
{
    if s.len() > 0 && edge.spec_has(s[0]) {
        let rest = s.drop_first();
        lemma_trim_start_within(rest, edge);
        assert forall|i: int| 0 <= i < text::trim_start(s, edge).len() implies s.contains(
            #[trigger] text::trim_start(s, edge)[i],
        ) by {
            assert(rest.contains(text::trim_start(rest, edge)[i]));
            let k = choose|k: int| 0 <= k < rest.len() && rest[k] == text::trim_start(rest, edge)[i];
            assert(s[k + 1] == rest[k]);
        }
    }
}

proof fn lemma_trim_end_within(s: Seq<char>, edge: Edge)
    ensures
        forall|i: int|
            0 <= i < text::trim_end(s, edge).len() ==> s.contains(
                #[trigger] text::trim_end(s, edge)[i],
            ),
    decreases s.len(),
{
    if s.len() > 0 && edge.spec_has(s.last()) {
        let rest = s.drop_last();
        lemma_trim_end_within(rest, edge);
        assert forall|i: int| 0 <= i < text::trim_end(s, edge).len() implies s.contains(
            #[trigger] text::trim_end(s, edge)[i],
        ) by {
            assert(rest.contains(text::trim_end(rest, edge)[i]));
            let k = choose|k: int| 0 <= k < rest.len() && rest[k] == text::trim_end(rest, edge)[i];
            assert(s[k] == rest[k]);
        }
    }
}

/// The file name of a project is never empty and holds no separator, quotation mark or control
/// character, and it neither begins nor ends with a dot or a space.
pub proof fn lemma_safe_name(s: Seq<char>)
    ensures
        safe_name(s).len() > 0,
        forall|i: int| 0 <= i < safe_name(s).len() ==> !is_unsafe(#[trigger] safe_name(s)[i]),
        safe_name(s)[0] != '.' && safe_name(s)[0] != ' ',
        safe_name(s).last() != '.' && safe_name(s).last() != ' ',
{
    reveal_strlit("project");
    let name = text::trim(replaced(s), Edge::SpaceOrDot);
    if name.len() > 0 {
        text::lemma_trim_ends(replaced(s), Edge::SpaceOrDot);
        lemma_trim_within(replaced(s), Edge::SpaceOrDot);
        assert forall|i: int| 0 <= i < name.len() implies !is_unsafe(#[trigger] name[i]) by {
            assert(replaced(s).contains(name[i]));
            let k = choose|k: int| 0 <= k < replaced(s).len() && replaced(s)[k] == name[i];
            assert(!is_unsafe(replaced(s)[k]));
        }
    } else {
        assert(safe_name(s) =~= seq!['p', 'r', 'o', 'j', 'e', 'c', 't']);
    }
}

/// A name that a file may have stays as it is.
pub proof fn lemma_plain_names_stay(s: Seq<char>)
    requires
        s.len() > 0,
        s[0] != ' ' && s[0] != '.',
        s.last() != ' ' && s.last() != '.',
        forall|i: int| 0 <= i < s.len() ==> !text::is_control(#[trigger] s[i]),
        forall|i: int|
            0 <= i < s.len() ==> #[trigger] s[i] != '/' && s[i] != '\\' && s[i] != '"' && s[i] != ':'
                && s[i] != '*' && s[i] != '?' && s[i] != '<' && s[i] != '>' && s[i] != '|',
    ensures
        safe_name(s) == s,
{
    assert(replaced(s) =~= s);
    assert(text::trim(s, Edge::SpaceOrDot) == s);
}

/// A character that no file name takes becomes an underscore in its place, and no other changes.
pub proof fn lemma_what_is_replaced(s: Seq<char>, i: int)
    requires
        0 <= i < s.len(),
    ensures
        replaced(s).len() == s.len(),
        text::is_control(s[i]) || s[i] == '/' || s[i] == '\\' || s[i] == '"' || s[i] == ':' || s[i]
            == '*' || s[i] == '?' || s[i] == '<' || s[i] == '>' || s[i] == '|' ==> replaced(s)[i]
            == '_',
        !(text::is_control(s[i]) || s[i] == '/' || s[i] == '\\' || s[i] == '"' || s[i] == ':' || s[i]
            == '*' || s[i] == '?' || s[i] == '<' || s[i] == '>' || s[i] == '|') ==> replaced(s)[i]
            == s[i],
{
}

/// A name of which nothing is left becomes `project`.
pub proof fn lemma_a_name_of_nothing(s: Seq<char>)
    requires
        forall|i: int| 0 <= i < s.len() ==> #[trigger] s[i] == ' ' || s[i] == '.',
    ensures
        safe_name(s) == "project"@,
{
    assert(replaced(s) =~= s) by {
        assert forall|i: int| 0 <= i < s.len() implies replaced(s)[i] == s[i] by {
            assert(s[i] == ' ' || s[i] == '.');
        }
    }
    let (a, b) = text::lemma_trim_is_the_middle(s, Edge::SpaceOrDot);
    if a < b {
        assert(s[a] == ' ' || s[a] == '.');
    }
}

} // verus!
