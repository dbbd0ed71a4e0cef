//! The translation of the texts of a page.
use crate::ids::EntityId;
use crate::pipeline::request::TerminologyEntry;
use crate::text;
use crate::text::Edge;
use vstd::prelude::*;

verus! {

/// A layer of text: the text that it shows, whether it is in the scope of the run, and the source
/// of the text.
pub struct PageLayer {
    pub content: EntityId,
    pub in_scope: bool,
    pub source: Option<String>,
}

/// A text that is to be translated.
#[derive(Debug)]
pub struct Target {
    pub content: EntityId,
    pub source: String,
}

/// What a provider is asked to translate.
#[derive(Debug)]
pub struct TranslationRequest {
    pub segments: Vec<String>,
    pub target_language: String,
    pub instructions: Option<String>,
    pub terminology: Vec<TerminologyEntry>,
}

/// A translation that is to be kept.
#[derive(Debug)]
pub struct Translated {
    pub content: EntityId,
    pub text: String,
}

/// The layer is in scope and has a text that is not blank.
pub open spec fn is_target(layer: PageLayer) -> bool {
    layer.in_scope && layer.source is Some && !text::is_blank(layer.source->0@)
}

/// The texts that are to be translated.
pub open spec fn targets_of(layers: Seq<PageLayer>) -> Seq<Target>
    decreases layers.len(),
{
    if layers.len() == 0 {
        Seq::empty()
    } else {
        let head = targets_of(layers.drop_last());
        let layer = layers.last();
        if is_target(layer) {
            head.push(Target { content: layer.content, source: layer.source->0 })
        } else {
            head
        }
    }
}

/// The texts of a page that are to be translated: those in scope that are not blank.
pub fn targets(layers: Vec<PageLayer>) -> (r: Vec<Target>)
    ensures
        r@ == targets_of(layers@),
{
    let ghost all = layers@;
    let mut rest = layers;
    let mut out: Vec<Target> = Vec::new();
    let ghost mut done: int = 0;
    assert(all.take(0) =~= Seq::empty());
    assert(all.skip(0) =~= all);
    while rest.len() > 0
        invariant
            0 <= done <= all.len(),
            rest@ == all.skip(done),
            out@ == targets_of(all.take(done)),
        decreases rest@.len(),
    {
        let layer = rest.remove(0);
        proof {
            assert(layer == all[done]);
            assert(rest@ =~= all.skip(done + 1));
            assert(all.take(done + 1).drop_last() =~= all.take(done));
            assert(all.take(done + 1).last() == layer);
            done = done + 1;
        }
        if layer.in_scope {
            match layer.source {
                Some(source) => {
                    if !text::blank(source.as_str()) {
                        out.push(Target { content: layer.content, source });
                    }
                },
                None => {},
            }
        }
    }
    assert(all.take(done) =~= all);
    out
}

/// The request for the texts of a page.
pub fn build_translation_request(
    targets: &Vec<Target>,
    target_language: String,
    instructions: Option<String>,
    terminology: Vec<TerminologyEntry>,
) -> (r: TranslationRequest)
    ensures
        r.segments@.len() == targets@.len(),
        forall|i: int|
            0 <= i < targets@.len() ==> #[trigger] r.segments@[i] == targets@[i].source,
        r.target_language == target_language,
        r.instructions == instructions,
        r.terminology == terminology,
{
    let mut segments: Vec<String> = Vec::new();
    let mut i: usize = 0;
    while i < targets.len()
        invariant
            i <= targets@.len(),
            segments@.len() == i,
            forall|j: int| 0 <= j < i ==> #[trigger] segments@[j] == targets@[j].source,
        decreases targets@.len() - i,
    {
        segments.push(targets[i].source.clone());
        i += 1;
    }
    TranslationRequest { segments, target_language, instructions, terminology }
}

/// The text that is kept for a source: an ellipsis stays what it is.
pub open spec fn kept_text(source: Seq<char>, translated: Seq<char>) -> Seq<char> {
    if text::trim(source, Edge::Whitespace) == "\u{2026}"@ {
        "\u{2026}"@
    } else {
        translated
    }
}

/// The translations that are kept, of the first `n` texts: those of texts that no user translated.
/// Each is the place of its text, and its characters.
pub open spec fn kept(
    targets: Seq<Target>,
    translated: Seq<String>,
    user_written: Seq<bool>,
    n: nat,
) -> Seq<(EntityId, Seq<char>)>
    decreases n,
{
    if n == 0 {
        Seq::empty()
    } else {
        let head = kept(targets, translated, user_written, (n - 1) as nat);
        if user_written[n - 1] {
            head
        } else {
            head.push(
                (
                    targets[n - 1].content,
                    kept_text(targets[n - 1].source@, translated[n - 1]@),
                ),
            )
        }
    }
}

/// What the translations that are kept say.
pub open spec fn said(translations: Seq<Translated>) -> Seq<(EntityId, Seq<char>)> {
    Seq::new(translations.len(), |i: int| (translations[i].content, translations[i].text@))
}

/// How many texts were translated: a provider may give fewer or more than were asked for.
pub open spec fn pairs(targets: Seq<Target>, translated: Seq<String>) -> nat {
    if targets.len() < translated.len() {
        targets.len()
    } else {
        translated.len()
    }
}

/// The translations that are kept of what a provider gave. What a user wrote is not overwritten.
pub fn keep_translations(
    targets: &Vec<Target>,
    translated: Vec<String>,
    user_written: &Vec<bool>,
) -> (r: Vec<Translated>)
    requires
        user_written@.len() == targets@.len(),
    ensures
        said(r@) == kept(targets@, translated@, user_written@, pairs(targets@, translated@)),
{
    let ghost all = translated@;
    let mut rest = translated;
    let mut out: Vec<Translated> = Vec::new();
    let mut i: usize = 0;
    assert(all.skip(0) =~= all);
    assert(said(out@) =~= Seq::empty());
    while i < targets.len() && rest.len() > 0
        invariant
            user_written@.len() == targets@.len(),
            i <= targets@.len(),
            i <= all.len(),
            rest@ == all.skip(i as int),
            said(out@) == kept(targets@, all, user_written@, i as nat),
        decreases rest@.len(),
    {
        let given = rest.remove(0);
        assert(given == all[i as int]);
        assert(rest@ =~= all.skip(i + 1));
        let ghost before = out@;
        if !user_written[i] {
            let trimmed = text::trimmed(targets[i].source.as_str(), Edge::Whitespace);
            let text = if text::same(trimmed.as_str(), "\u{2026}") {
                "\u{2026}".to_owned()
            } else {
                given
            };
            let one = Translated { content: targets[i].content, text };
            out.push(one);
            assert(said(out@) =~= said(before).push((one.content, one.text@)));
        }
        i += 1;
    }
    out
}

/// What a user wrote is not overwritten: a text that is changed is one that no user translated.
pub proof fn lemma_user_text_stays(
    targets: Seq<Target>,
    translated: Seq<String>,
    user_written: Seq<bool>,
    n: nat,
    k: int,
)
    requires
        n <= targets.len(),
        0 <= k < kept(targets, translated, user_written, n).len(),
    ensures
        exists|i: int|
            0 <= i < n && !user_written[i] && (#[trigger] targets[i]).content == kept(
                targets,
                translated,
                user_written,
                n,
            )[k].0,
    decreases n,
{
    let head = kept(targets, translated, user_written, (n - 1) as nat);
    if k < head.len() {
        lemma_user_text_stays(targets, translated, user_written, (n - 1) as nat, k);
    } else {
        assert(targets[n - 1].content == kept(targets, translated, user_written, n)[k].0);
    }
}

/// What a provider gave is kept as it is. Each text that no user translated, and for which something
/// came back, has its translation among those that are kept, in the order of the texts. It is what
/// the provider gave, unless the text is one ellipsis with nothing but whitespace around it: that
/// stays an ellipsis. Nothing else is kept.
pub proof fn lemma_what_was_given_is_kept(
    targets: Seq<Target>,
    translated: Seq<String>,
    user_written: Seq<bool>,
    r: Seq<Translated>,
    i: int,
) -> (k: int)
    requires
        said(r) == kept(targets, translated, user_written, pairs(targets, translated)),
        user_written.len() == targets.len(),
        0 <= i < targets.len(),
        i < translated.len(),
        !user_written[i],
    ensures
        0 <= k < r.len(),
        k == user_written.take(i).filter(|by_user: bool| !by_user).len(),
        r.len() == user_written.take(
            if targets.len() < translated.len() {
                targets.len() as int
            } else {
                translated.len() as int
            },
        ).filter(|by_user: bool| !by_user).len(),
        r[k].content == targets[i].content,
        (exists|p: int|
            0 <= p < targets[i].source@.len() && !text::is_whitespace(
                #[trigger] targets[i].source@[p],
            ) && targets[i].source@[p] != '\u{2026}') ==> r[k].text@ == translated[i]@,
        (exists|p: int, q: int|
            0 <= p < q < targets[i].source@.len() && #[trigger] targets[i].source@[p] == '\u{2026}'
                && #[trigger] targets[i].source@[q] == '\u{2026}') ==> r[k].text@
            == translated[i]@,
        text::is_blank(targets[i].source@) ==> r[k].text@ == translated[i]@,
        (exists|p: int|
            0 <= p < targets[i].source@.len() && #[trigger] targets[i].source@[p] == '\u{2026}'
                && forall|q: int|
                0 <= q < targets[i].source@.len() && q != p ==> text::is_whitespace(
                    #[trigger] targets[i].source@[q],
                )) ==> r[k].text@ == seq!['\u{2026}'],
{
    let n = pairs(targets, translated);
    lemma_kept_place(targets, translated, user_written, n, i);
    let k = user_written.take(i).filter(|by_user: bool| !by_user).len() as int;
    assert(said(r)[k] == (r[k].content, r[k].text@));
    let source = targets[i].source@;
    reveal_strlit("\u{2026}");
    assert("\u{2026}"@ =~= seq!['\u{2026}']);
    let (a, b) = text::lemma_trim_is_the_middle(source, Edge::Whitespace);
    let middle = text::trim(source, Edge::Whitespace);
    if middle == "\u{2026}"@ {
        assert(middle.len() == 1);
        assert(middle[0] == source[a]);
        assert forall|p: int| 0 <= p < source.len() && p != a implies text::is_whitespace(
            #[trigger] source[p],
        ) by {
            if p < a {
                assert(Edge::Whitespace.spec_has(source[p]));
            } else {
                assert(Edge::Whitespace.spec_has(source[p]));
            }
        }
    } else if exists|p: int|
        0 <= p < source.len() && #[trigger] source[p] == '\u{2026}' && forall|q: int|
            0 <= q < source.len() && q != p ==> text::is_whitespace(#[trigger] source[q]) {
        let p = choose|p: int|
            0 <= p < source.len() && #[trigger] source[p] == '\u{2026}' && forall|q: int|
                0 <= q < source.len() && q != p ==> text::is_whitespace(#[trigger] source[q]);
        assert(!text::is_whitespace(source[p]));
        assert(a <= p < b);
        assert(a == p) by {
            if a != p {
                assert(text::is_whitespace(source[a]));
            }
        }
        assert(b == p + 1) by {
            if b != p + 1 {
                assert(text::is_whitespace(source[b - 1]));
            }
        }
        assert(middle =~= "\u{2026}"@);
    }
    k
}

proof fn lemma_kept_place(
    targets: Seq<Target>,
    translated: Seq<String>,
    user_written: Seq<bool>,
    n: nat,
    i: int,
)
    requires
        n <= user_written.len(),
        0 <= i < n,
        !user_written[i],
    ensures
        ({
            let k = user_written.take(i).filter(|by_user: bool| !by_user).len() as int;
            let all = kept(targets, translated, user_written, n);
            &&& all.len() == user_written.take(n as int).filter(|by_user: bool| !by_user).len()
            &&& 0 <= k < all.len()
            &&& all[k] == (
                targets[i].content,
                kept_text(targets[i].source@, translated[i]@),
            )
        }),
    decreases n,
{
    let own = |by_user: bool| !by_user;
    let m = (n - 1) as nat;
    lemma_kept_len(targets, translated, user_written, m);
    assert(user_written.take(n as int) =~= user_written.take(m as int).push(user_written[m as int]));
    text::lemma_filter_push(user_written.take(m as int), user_written[m as int], own);
    if i < m {
        lemma_kept_place(targets, translated, user_written, m, i);
    }
}

proof fn lemma_kept_len(
    targets: Seq<Target>,
    translated: Seq<String>,
    user_written: Seq<bool>,
    n: nat,
)
    requires
        n <= user_written.len(),
    ensures
        kept(targets, translated, user_written, n).len() == user_written.take(n as int).filter(
            |by_user: bool| !by_user,
        ).len(),
    decreases n,
{
    let own = |by_user: bool| !by_user;
    if n == 0 {
        assert(user_written.take(0) =~= Seq::empty());
        reveal(Seq::filter);
    } else {
        let m = (n - 1) as nat;
        lemma_kept_len(targets, translated, user_written, m);
        assert(user_written.take(n as int) =~= user_written.take(m as int).push(
            user_written[m as int],
        ));
        text::lemma_filter_push(user_written.take(m as int), user_written[m as int], own);
    }
}

/// The texts that are to be translated are those of the layers in scope that hold a character other
/// than whitespace, in the order of the layers, each with the text of its layer.
pub proof fn lemma_targets(layers: Seq<PageLayer>, layer: PageLayer)
    ensures
        targets_of(Seq::empty()).len() == 0,
        layer.in_scope && layer.source is Some && (exists|p: int|
            0 <= p < layer.source->0@.len() && !text::is_whitespace(
                #[trigger] layer.source->0@[p],
            )) ==> targets_of(layers.push(layer)) == targets_of(layers).push(
            Target { content: layer.content, source: layer.source->0 },
        ),
        !layer.in_scope || layer.source is None || (forall|p: int|
            0 <= p < layer.source->0@.len() ==> text::is_whitespace(
                #[trigger] layer.source->0@[p],
            )) ==> targets_of(layers.push(layer)) == targets_of(layers),
{
    assert(layers.push(layer).drop_last() =~= layers);
}

} // verus!
