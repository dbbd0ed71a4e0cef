//! One form for strings that mean the same.
use crate::text;
use vstd::prelude::*;

verus! {

/// The string in Unicode normalization form KC.
pub uninterp spec fn nfkc(s: Seq<char>) -> Seq<char>;

/// `icu_normalizer::ComposingNormalizerBorrowed::normalize` on the normalizer of form KC: the
/// normalized string, which depends on the characters of `s` alone. Nothing is stated of a string
/// that is in the form already, nor of the parts of one.
#[verifier::external_body]
pub(crate) fn nfkc_of(s: &str) -> (r: String)
    ensures
        r@ == nfkc(s@),
{
    icu_normalizer::ComposingNormalizerBorrowed::new_nfkc().normalize(s).into_owned()
}

/// Form KC, with every run of whitespace made one space and none at the ends.
pub open spec fn text_form(s: Seq<char>) -> Seq<char> {
    text::spaced(text::words(nfkc(s)))
}

/// [`text_form`] without the quotation and sentence marks at its ends.
pub open spec fn term_form(s: Seq<char>) -> Seq<char> {
    text::trim(text_form(s), text::Edge::Term)
}

/// [`text_form`] with `A`..`Z` in lower case.
pub open spec fn source_form(s: Seq<char>) -> Seq<char> {
    text::ascii_lower(text_form(s))
}

/// The text in which terms are looked for.
pub fn normalize_text(text: &str) -> (r: String)
    ensures
        r@ == text_form(text@),
{
    let form = nfkc_of(text);
    text::collapsed(form.as_str())
}

/// The form of a term by which it is found and compared.
pub fn normalize_term(text: &str) -> (r: String)
    ensures
        r@ == term_form(text@),
{
    let form = normalize_text(text);
    text::trimmed(form.as_str(), text::Edge::Term)
}

/// The form of a glossary source by which it is compared.
pub fn normalize_glossary_source(source: &str) -> (r: String)
    ensures
        r@ == source_form(source@),
{
    let form = normalize_text(source);
    text::ascii_lowered(form.as_str())
}

/// A normalized term is empty or begins and ends with a character that belongs to it.
pub proof fn lemma_term_form_ends(s: Seq<char>)
    ensures
        term_form(s).len() > 0 ==> !text::Edge::Term.spec_has(term_form(s)[0])
            && !text::Edge::Term.spec_has(term_form(s).last()),
{
    text::lemma_trim_ends(text_form(s), text::Edge::Term);
}

/// The only whitespace in a normalized text or term is single spaces between other characters.
pub proof fn lemma_forms_are_tidy(s: Seq<char>)
    ensures
        text::is_tidy(text_form(s)),
        text::is_tidy(term_form(s)),
{
    text::lemma_collapsed_tidy(nfkc(s));
    text::lemma_trim_tidy(text_form(s));
}

/// A normalized term whose form KC is the term itself stays as it is when it is normalized again.
pub proof fn lemma_term_form_stays(s: Seq<char>)
    requires
        nfkc(term_form(s)) == term_form(s),
    ensures
        term_form(term_form(s)) == term_form(s),
{
    lemma_forms_are_tidy(s);
    text::lemma_trim_tidy(text_form(s));
    text::lemma_tidy_stays(term_form(s));
}

/// A term has one form with and without the marks around it, where form KC keeps the marks and
/// changes nothing on account of them.
pub proof fn lemma_term_form_without_marks(open: char, s: Seq<char>, close: char)
    requires
        text::is_term_mark(open),
        text::is_term_mark(close),
        nfkc(seq![open] + s + seq![close]) == seq![open] + nfkc(s) + seq![close],
    ensures
        term_form(seq![open] + s + seq![close]) == term_form(s),
{
    text::lemma_marks_are_trimmed(open, nfkc(s), close);
}

} // verus!
