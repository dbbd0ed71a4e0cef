//! Glossaries as they are exchanged between projects.
use crate::glossary::edit::{checked, entered, translation_origin, EditFault};
use crate::glossary::model::{
    valid_text, EntryFault, Glossary, GlossaryEntry, GlossaryEntryId, GlossaryKind,
    GlossaryValueOrigin, GLOSSARY_TEXT_MAX_CHARS,
};
use crate::glossary::scan;
use crate::glossary::scan::find_last_key;
use crate::ids::Revision;
use crate::normalize;
use crate::normalize::normalize_glossary_source;
use crate::text;
use vstd::prelude::*;

verus! {

/// The word that an exchanged glossary begins with.
pub const GLOSSARY_FORMAT: &'static str = "koharu-glossary";

/// The version of the exchange.
pub const GLOSSARY_VERSION: u32 = 1;

/// A glossary as it is exchanged.
pub struct GlossaryExchange {
    pub format: String,
    pub version: u32,
    pub source_language: Option<String>,
    pub target_language: Option<String>,
    pub entries: Vec<GlossaryExchangeEntry>,
}

/// An entry as it is exchanged.
pub struct GlossaryExchangeEntry {
    pub source: String,
    pub translation: Option<String>,
    pub kind: GlossaryKind,
    pub enabled: bool,
}

/// What becomes of an entry that the glossary has already.
#[derive(Clone, Copy, Debug, PartialEq, Eq, Structural)]
pub enum GlossaryImportStrategy {
    KeepExisting,
    ReplaceExisting,
}

/// Which language differs.
#[derive(Clone, Copy, Debug, PartialEq, Eq, Structural)]
pub enum LanguageField {
    Source,
    Target,
}

/// A language that is not the same in the glossary and in what is imported.
pub struct LanguageMismatch {
    pub field: LanguageField,
    pub current: Option<String>,
    pub imported: Option<String>,
}

/// What an import would do.
pub struct GlossaryImportPreview {
    pub added: u32,
    pub conflicting: u32,
    pub identical: u32,
    pub language_mismatches: Vec<LanguageMismatch>,
}

/// Why an exchanged glossary is not taken.
#[derive(Clone, Copy, Debug, PartialEq, Eq, Structural)]
pub enum ExchangeFault {
    /// The format is another one.
    Format,
    /// The version is another one.
    Version,
    /// The entry at this place has the source and kind of one before it.
    Duplicate(usize),
    /// The entry at this place is wrong.
    Entry { index: usize, fault: EntryFault },
}

/// Why an import is not made.
#[derive(Clone, Copy, Debug, PartialEq, Eq, Structural)]
pub enum ImportFault {
    /// The project is not at the revision that the import was made for.
    StaleRevision { expected: Revision, current: Revision },
    Exchange(ExchangeFault),
    /// A language differs, and that was not confirmed.
    LanguageMismatch,
    /// The glossary would not be valid.
    Edit(EditFault),
}

/// The glossary as it is exchanged: what it says, without what scans found.
pub fn export_glossary(glossary: Glossary) -> (r: GlossaryExchange)
    ensures
        r.format@ == GLOSSARY_FORMAT@,
        r.version == GLOSSARY_VERSION,
        r.source_language == glossary.source_language,
        r.target_language == glossary.target_language,
        r.entries@ == exported(glossary.entries@),
        r.entries@.len() == glossary.entries@.len(),
        forall|i: int|
            0 <= i < r.entries@.len() ==> (#[trigger] r.entries@[i]).source
                == glossary.entries@[i].source && r.entries@[i].translation
                == glossary.entries@[i].translation && r.entries@[i].kind
                == glossary.entries@[i].kind && r.entries@[i].enabled
                == glossary.entries@[i].enabled,
{
    let Glossary { enabled: _, source_language, target_language, source_fingerprint: _, entries } =
        glossary;
    let ghost all = entries@;
    let mut rest = entries;
    let mut out: Vec<GlossaryExchangeEntry> = Vec::new();
    while rest.len() > 0
        invariant
            out@.len() + rest@.len() == all.len(),
            rest@ == all.skip(out@.len() as int),
            forall|i: int| 0 <= i < out@.len() ==> #[trigger] out@[i] == exported_entry(all[i]),
        decreases rest@.len(),
    {
        let ghost done = out@.len() as int;
        let entry = rest.remove(0);
        assert(entry == all[done]);
        out.push(
            GlossaryExchangeEntry {
                source: entry.source,
                translation: entry.translation,
                kind: entry.kind,
                enabled: entry.enabled,
            },
        );
        assert(rest@ =~= all.skip(done + 1));
    }
    assert(out@ =~= exported(all));
    GlossaryExchange {
        format: GLOSSARY_FORMAT.to_owned(),
        version: GLOSSARY_VERSION,
        source_language,
        target_language,
        entries: out,
    }
}

/// An entry as it is exchanged.
pub open spec fn exported_entry(entry: GlossaryEntry) -> GlossaryExchangeEntry {
    GlossaryExchangeEntry {
        source: entry.source,
        translation: entry.translation,
        kind: entry.kind,
        enabled: entry.enabled,
    }
}

/// The entries as they are exchanged.
pub open spec fn exported(entries: Seq<GlossaryEntry>) -> Seq<GlossaryExchangeEntry> {
    Seq::new(entries.len(), |i: int| exported_entry(entries[i]))
}

/// The source and kind by which entries are told apart.
pub open spec fn import_key(entry: GlossaryExchangeEntry) -> (Seq<char>, GlossaryKind) {
    (normalize::source_form(entry.source@), entry.kind)
}

/// No two of them have one key.
pub open spec fn distinct_imports(imports: Seq<GlossaryExchangeEntry>) -> bool {
    forall|i: int, j: int|
        0 <= i < j < imports.len() ==> import_key(#[trigger] imports[i]) != import_key(
            #[trigger] imports[j],
        )
}

/// The first of the first `n` that has the key of one before it.
pub open spec fn first_duplicate(imports: Seq<GlossaryExchangeEntry>, n: nat) -> Option<nat>
    decreases n,
{
    if n == 0 {
        None
    } else {
        match first_duplicate(imports, (n - 1) as nat) {
            Some(i) => Some(i),
            None => if exists|j: int|
                0 <= j < n - 1 && import_key(#[trigger] imports[j]) == import_key(imports[n - 1]) {
                Some((n - 1) as nat)
            } else {
                None
            },
        }
    }
}

proof fn lemma_duplicate_stays(imports: Seq<GlossaryExchangeEntry>, m: nat, n: nat)
    requires
        m <= n,
        first_duplicate(imports, m) is Some,
    ensures
        first_duplicate(imports, n) == first_duplicate(imports, m),
    decreases n,
{
    if m < n {
        lemma_duplicate_stays(imports, m, (n - 1) as nat);
    }
}

proof fn lemma_no_duplicate(imports: Seq<GlossaryExchangeEntry>, n: nat)
    requires
        n <= imports.len(),
        first_duplicate(imports, n) is None,
    ensures
        forall|i: int, j: int|
            0 <= i < j < n ==> import_key(#[trigger] imports[i]) != import_key(
                #[trigger] imports[j],
            ),
    decreases n,
{
    if n > 0 {
        lemma_no_duplicate(imports, (n - 1) as nat);
    }
}

/// What is wrong with an imported entry.
pub open spec fn fault_of_import(entry: GlossaryExchangeEntry) -> Option<EntryFault> {
    if !crate::glossary::model::text_ok(entry.source@, GLOSSARY_TEXT_MAX_CHARS as nat, false) {
        Some(EntryFault::Source)
    } else if entry.translation matches Some(t) && !crate::glossary::model::text_ok(
        t@,
        GLOSSARY_TEXT_MAX_CHARS as nat,
        true,
    ) {
        Some(EntryFault::Translation)
    } else {
        None
    }
}

/// The first of the first `n` that is wrong.
pub open spec fn first_import_fault(
    imports: Seq<GlossaryExchangeEntry>,
    n: nat,
) -> Option<ExchangeFault>
    decreases n,
{
    if n == 0 {
        None
    } else {
        match first_import_fault(imports, (n - 1) as nat) {
            Some(fault) => Some(fault),
            None => match fault_of_import(imports[n - 1]) {
                Some(fault) => Some(ExchangeFault::Entry { index: (n - 1) as usize, fault }),
                None => None,
            },
        }
    }
}

proof fn lemma_import_fault_stays(imports: Seq<GlossaryExchangeEntry>, m: nat, n: nat)
    requires
        m <= n,
        first_import_fault(imports, m) is Some,
    ensures
        first_import_fault(imports, n) == first_import_fault(imports, m),
    decreases n,
{
    if m < n {
        lemma_import_fault_stays(imports, m, (n - 1) as nat);
    }
}

proof fn lemma_imports_right(imports: Seq<GlossaryExchangeEntry>, n: nat)
    requires
        n <= imports.len(),
        first_import_fault(imports, n) is None,
    ensures
        forall|i: int| 0 <= i < n ==> fault_of_import(#[trigger] imports[i]) is None,
    decreases n,
{
    if n > 0 {
        lemma_imports_right(imports, (n - 1) as nat);
    }
}

/// What is wrong with an exchanged glossary: its format, its version, an entry that occurs twice,
/// an entry that is wrong, in that order.
pub open spec fn exchange_fault(exchange: GlossaryExchange) -> Option<ExchangeFault> {
    let imports = exchange.entries@;
    if exchange.format@ != GLOSSARY_FORMAT@ {
        Some(ExchangeFault::Format)
    } else if exchange.version != GLOSSARY_VERSION {
        Some(ExchangeFault::Version)
    } else {
        match first_duplicate(imports, imports.len()) {
            Some(i) => Some(ExchangeFault::Duplicate(i as usize)),
            None => first_import_fault(imports, imports.len()),
        }
    }
}

fn find_duplicate(imports: &Vec<GlossaryExchangeEntry>) -> (r: Option<usize>)
    ensures
        match first_duplicate(imports@, imports@.len()) {
            Some(i) => r == Some(i as usize) && i < imports@.len(),
            None => r is None,
        },
{
    let mut i: usize = 0;
    while i < imports.len()
        invariant
            i <= imports@.len(),
            first_duplicate(imports@, i as nat) is None,
        decreases imports@.len() - i,
    {
        let key = normalize_glossary_source(imports[i].source.as_str());
        let mut j: usize = 0;
        while j < i
            invariant
                j <= i < imports@.len(),
                key@ == normalize::source_form(imports@[i as int].source@),
                first_duplicate(imports@, i as nat) is None,
                forall|q: int|
                    0 <= q < j ==> import_key(#[trigger] imports@[q]) != import_key(
                        imports@[i as int],
                    ),
            decreases i - j,
        {
            if imports[j].kind == imports[i].kind {
                let other = normalize_glossary_source(imports[j].source.as_str());
                if text::same(other.as_str(), key.as_str()) {
                    proof {
                        assert(import_key(imports@[j as int]) == import_key(imports@[i as int]));
                        assert(first_duplicate(imports@, (i + 1) as nat) == Some(i as nat));
                        lemma_duplicate_stays(imports@, (i + 1) as nat, imports@.len());
                    }
                    return Some(i);
                }
            }
            j += 1;
        }
        assert(first_duplicate(imports@, (i + 1) as nat) is None);
        i += 1;
    }
    None
}

fn find_import_fault(imports: &Vec<GlossaryExchangeEntry>) -> (r: Option<ExchangeFault>)
    ensures
        r == first_import_fault(imports@, imports@.len()),
{
    let mut i: usize = 0;
    while i < imports.len()
        invariant
            i <= imports@.len(),
            first_import_fault(imports@, i as nat) is None,
        decreases imports@.len() - i,
    {
        let mut fault: Option<EntryFault> = None;
        if !valid_text(imports[i].source.as_str(), GLOSSARY_TEXT_MAX_CHARS, false) {
            fault = Some(EntryFault::Source);
        } else {
            match &imports[i].translation {
                Some(t) => {
                    if !valid_text(t.as_str(), GLOSSARY_TEXT_MAX_CHARS, true) {
                        fault = Some(EntryFault::Translation);
                    }
                },
                None => {},
            }
        }
        assert(fault == fault_of_import(imports@[i as int]));
        match fault {
            Some(fault) => {
                let r = Some(ExchangeFault::Entry { index: i, fault });
                proof {
                    assert(first_import_fault(imports@, (i + 1) as nat) == r);
                    lemma_import_fault_stays(imports@, (i + 1) as nat, imports@.len());
                }
                return r;
            },
            None => {
                assert(first_import_fault(imports@, (i + 1) as nat) is None);
            },
        }
        i += 1;
    }
    None
}

/// Whether an exchanged glossary can be taken.
pub fn check_exchange(exchange: &GlossaryExchange) -> (r: Result<(), ExchangeFault>)
    ensures
        match exchange_fault(*exchange) {
            Some(fault) => r == Err::<(), ExchangeFault>(fault),
            None => r == Ok::<(), ExchangeFault>(()),
        },
{
    if !text::same(exchange.format.as_str(), GLOSSARY_FORMAT) {
        return Err(ExchangeFault::Format);
    }
    if exchange.version != GLOSSARY_VERSION {
        return Err(ExchangeFault::Version);
    }
    match find_duplicate(&exchange.entries) {
        Some(i) => {
            return Err(ExchangeFault::Duplicate(i));
        },
        None => {},
    }
    match find_import_fault(&exchange.entries) {
        Some(fault) => Err(fault),
        None => Ok(()),
    }
}

// ---------------------------------------------------------------------------------------------
// Preview
// ---------------------------------------------------------------------------------------------

/// The last entry with that key.
pub open spec fn counterpart(
    entries: Seq<GlossaryEntry>,
    key: (Seq<char>, GlossaryKind),
) -> Option<GlossaryEntry>
    decreases entries.len(),
{
    if entries.len() == 0 {
        None
    } else if crate::glossary::model::key_of(entries.last()) == key {
        Some(entries.last())
    } else {
        counterpart(entries.drop_last(), key)
    }
}

/// The last entry with that key is the one at `i`.
proof fn lemma_counterpart_at(
    entries: Seq<GlossaryEntry>,
    key: (Seq<char>, GlossaryKind),
    i: int,
)
    requires
        0 <= i < entries.len(),
        crate::glossary::model::key_of(entries[i]) == key,
        forall|j: int|
            i < j < entries.len() ==> crate::glossary::model::key_of(#[trigger] entries[j]) != key,
    ensures
        counterpart(entries, key) == Some(entries[i]),
    decreases entries.len(),
{
    if i < entries.len() - 1 {
        assert(crate::glossary::model::key_of(entries[entries.len() - 1]) != key);
        lemma_counterpart_at(entries.drop_last(), key, i);
    }
}

proof fn lemma_no_counterpart(entries: Seq<GlossaryEntry>, key: (Seq<char>, GlossaryKind))
    requires
        forall|j: int|
            0 <= j < entries.len() ==> crate::glossary::model::key_of(#[trigger] entries[j])
                != key,
    ensures
        counterpart(entries, key) is None,
    decreases entries.len(),
{
    if entries.len() > 0 {
        assert(crate::glossary::model::key_of(entries[entries.len() - 1]) != key);
        lemma_no_counterpart(entries.drop_last(), key);
    }
}

/// The two say the same.
pub open spec fn says_same(entry: GlossaryEntry, import: GlossaryExchangeEntry) -> bool {
    &&& entry.source@ == import.source@
    &&& crate::glossary::edit::option_text(entry.translation)
        == crate::glossary::edit::option_text(import.translation)
    &&& entry.kind == import.kind
    &&& entry.enabled == import.enabled
}

fn same_option(a: &Option<String>, b: &Option<String>) -> (r: bool)
    ensures
        r == (crate::glossary::edit::option_text(*a) == crate::glossary::edit::option_text(*b)),
{
    match (a, b) {
        (Some(x), Some(y)) => text::same(x.as_str(), y.as_str()),
        (None, None) => true,
        _ => false,
    }
}

fn semantic_equal(entry: &GlossaryEntry, import: &GlossaryExchangeEntry) -> (r: bool)
    ensures
        r == says_same(*entry, *import),
{
    text::same(entry.source.as_str(), import.source.as_str()) && same_option(
        &entry.translation,
        &import.translation,
    ) && entry.kind == import.kind && entry.enabled == import.enabled
}

/// How many of the imports are new, differ, and are there as they are.
pub open spec fn import_counts(
    entries: Seq<GlossaryEntry>,
    imports: Seq<GlossaryExchangeEntry>,
) -> (nat, nat, nat)
    decreases imports.len(),
{
    if imports.len() == 0 {
        (0, 0, 0)
    } else {
        let (added, conflicting, identical) = import_counts(entries, imports.drop_last());
        match counterpart(entries, import_key(imports.last())) {
            None => (added + 1, conflicting, identical),
            Some(entry) => if says_same(entry, imports.last()) {
                (added, conflicting, identical + 1)
            } else {
                (added, conflicting + 1, identical)
            },
        }
    }
}

/// A language is given on both sides and is not the same.
pub open spec fn differs(current: Option<String>, imported: Option<String>) -> bool {
    current is Some && imported is Some && current->0@ != imported->0@
}

/// The mismatch shows a language.
pub open spec fn shows(
    mismatch: LanguageMismatch,
    field: LanguageField,
    current: Option<String>,
    imported: Option<String>,
) -> bool {
    mismatch.field == field && mismatch.current == current && mismatch.imported == imported
}

/// The mismatches are those of the source language and of the target language, in that order.
pub open spec fn mismatches(
    current: Glossary,
    imported: GlossaryExchange,
    found: Seq<LanguageMismatch>,
) -> bool {
    let source = differs(current.source_language, imported.source_language);
    let target = differs(current.target_language, imported.target_language);
    let n: int = if source {
        1
    } else {
        0
    };
    &&& found.len() == n + (if target {
        1int
    } else {
        0int
    })
    &&& source ==> shows(
        found[0],
        LanguageField::Source,
        current.source_language,
        imported.source_language,
    )
    &&& target ==> shows(
        found[n],
        LanguageField::Target,
        current.target_language,
        imported.target_language,
    )
}

fn different(current: &Option<String>, imported: &Option<String>) -> (r: bool)
    ensures
        r == differs(*current, *imported),
{
    match (current, imported) {
        (Some(a), Some(b)) => !text::same(a.as_str(), b.as_str()),
        _ => false,
    }
}

fn copied(s: &Option<String>) -> (r: Option<String>)
    ensures
        r == *s,
{
    match s {
        Some(s) => Some(s.clone()),
        None => None,
    }
}

fn language_mismatches(current: &Glossary, imported: &GlossaryExchange) -> (r: Vec<
    LanguageMismatch,
>)
    ensures
        mismatches(*current, *imported, r@),
{
    let mut out: Vec<LanguageMismatch> = Vec::new();
    if different(&current.source_language, &imported.source_language) {
        out.push(
            LanguageMismatch {
                field: LanguageField::Source,
                current: copied(&current.source_language),
                imported: copied(&imported.source_language),
            },
        );
    }
    if different(&current.target_language, &imported.target_language) {
        out.push(
            LanguageMismatch {
                field: LanguageField::Target,
                current: copied(&current.target_language),
                imported: copied(&imported.target_language),
            },
        );
    }
    out
}

/// What an import would do to the glossary.
pub fn preview(current: &Glossary, imported: &GlossaryExchange) -> (r: GlossaryImportPreview)
    requires
        imported.entries@.len() <= u32::MAX,
    ensures
        (r.added as nat, r.conflicting as nat, r.identical as nat) == import_counts(
            current.entries@,
            imported.entries@,
        ),
        mismatches(*current, *imported, r.language_mismatches@),
{
    let language_mismatches = language_mismatches(current, imported);
    let ghost imports = imported.entries@;
    let ghost entries = current.entries@;
    let mut added: u32 = 0;
    let mut conflicting: u32 = 0;
    let mut identical: u32 = 0;
    let mut k: usize = 0;
    assert(imports.take(0) =~= Seq::empty());
    while k < imported.entries.len()
        invariant
            imports == imported.entries@,
            entries == current.entries@,
            imported.entries@.len() <= u32::MAX,
            k <= imports.len(),
            added + conflicting + identical == k,
            (added as nat, conflicting as nat, identical as nat) == import_counts(
                entries,
                imports.take(k as int),
            ),
        decreases imports.len() - k,
    {
        let import = &imported.entries[k];
        let key = normalize_glossary_source(import.source.as_str());
        let n: usize = current.entries.len();
        let at: usize = find_last_key(&current.entries, n, key.as_str(), import.kind);
        proof {
            assert(imports.take(k + 1).drop_last() =~= imports.take(k as int));
            assert(imports.take(k + 1).last() == *import);
            if at < n {
                lemma_counterpart_at(entries, import_key(*import), at as int);
            } else {
                lemma_no_counterpart(entries, import_key(*import));
            }
        }
        if at < n {
            if semantic_equal(&current.entries[at], import) {
                identical += 1;
            } else {
                conflicting += 1;
            }
        } else {
            added += 1;
        }
        k += 1;
    }
    assert(imports.take(k as int) =~= imports);
    GlossaryImportPreview { added, conflicting, identical, language_mismatches }
}

/// What an import would do to the glossary, where it can be taken.
pub fn preview_glossary_import(current: &Glossary, imported: &GlossaryExchange) -> (r: Result<
    GlossaryImportPreview,
    ExchangeFault,
>)
    requires
        imported.entries@.len() <= u32::MAX,
    ensures
        match exchange_fault(*imported) {
            Some(fault) => r == Err::<GlossaryImportPreview, _>(fault),
            None => r matches Ok(p) && (p.added as nat, p.conflicting as nat, p.identical as nat)
                == import_counts(current.entries@, imported.entries@) && mismatches(
                *current,
                *imported,
                p.language_mismatches@,
            ),
        },
{
    match check_exchange(imported) {
        Ok(()) => Ok(preview(current, imported)),
        Err(fault) => Err(fault),
    }
}

// ---------------------------------------------------------------------------------------------
// Import
// ---------------------------------------------------------------------------------------------

/// Import `k` is of entry `i`, and would change it.
pub open spec fn overrides(
    entries: Seq<GlossaryEntry>,
    imports: Seq<GlossaryExchangeEntry>,
    strategy: GlossaryImportStrategy,
    i: int,
    k: int,
) -> bool {
    &&& strategy == GlossaryImportStrategy::ReplaceExisting
    &&& 0 <= k < imports.len()
    &&& import_key(imports[k]) == crate::glossary::model::key_of(entries[i])
    &&& scan::is_last_with_key(entries, i)
    &&& !says_same(entries[i], imports[k])
}

/// The entry with what is imported. What scans found stays.
pub open spec fn is_replaced(
    after: GlossaryEntry,
    before: GlossaryEntry,
    import: GlossaryExchangeEntry,
) -> bool {
    after == (GlossaryEntry {
        source: import.source,
        translation: import.translation,
        kind: import.kind,
        enabled: import.enabled,
        source_origin: GlossaryValueOrigin::Imported,
        translation_origin: crate::glossary::edit::origin_of(
            import.translation,
            GlossaryValueOrigin::Imported,
        ),
        ..before
    })
}

/// The imports for which the glossary has no entry.
pub open spec fn new_imports(
    entries: Seq<GlossaryEntry>,
    imports: Seq<GlossaryExchangeEntry>,
) -> Seq<GlossaryExchangeEntry>
    decreases imports.len(),
{
    if imports.len() == 0 {
        Seq::empty()
    } else {
        let head = new_imports(entries, imports.drop_last());
        if scan::has_key(entries, import_key(imports.last())) {
            head
        } else {
            head.push(imports.last())
        }
    }
}

/// The entry at `i` after an import: replaced, or as it was.
pub open spec fn merged_entry(
    entries: Seq<GlossaryEntry>,
    imports: Seq<GlossaryExchangeEntry>,
    strategy: GlossaryImportStrategy,
    i: int,
    after: GlossaryEntry,
) -> bool {
    if exists|k: int| overrides(entries, imports, strategy, i, k) {
        exists|k: int| #[trigger]
            overrides(entries, imports, strategy, i, k) && is_replaced(
                after,
                entries[i],
                imports[k],
            )
    } else {
        after == entries[i]
    }
}

/// An entry that an import brought.
pub open spec fn is_imported(entry: GlossaryEntry, import: GlossaryExchangeEntry) -> bool {
    crate::glossary::edit::is_entered(
        entry,
        import.source,
        import.translation,
        import.kind,
        import.enabled,
        GlossaryValueOrigin::Imported,
    )
}

/// The entries after an import: those that were there, then the new ones.
pub open spec fn merged(
    entries: Seq<GlossaryEntry>,
    imports: Seq<GlossaryExchangeEntry>,
    strategy: GlossaryImportStrategy,
    after: Seq<GlossaryEntry>,
) -> bool {
    let n = entries.len() as int;
    let new = new_imports(entries, imports);
    &&& after.len() == n + new.len()
    &&& forall|i: int|
        0 <= i < n ==> merged_entry(entries, imports, strategy, i, #[trigger] after[i])
    &&& forall|j: int| n <= j < after.len() ==> is_imported(#[trigger] after[j], new[j - n])
}

/// One import more leaves an entry as it is, unless the import is of that entry.
proof fn lemma_merged_entry_grows(
    entries: Seq<GlossaryEntry>,
    imports: Seq<GlossaryExchangeEntry>,
    strategy: GlossaryImportStrategy,
    k: int,
    i: int,
    after: GlossaryEntry,
)
    requires
        0 <= k < imports.len(),
        0 <= i < entries.len(),
        merged_entry(entries, imports.take(k), strategy, i, after),
        !overrides(entries, imports.take(k + 1), strategy, i, k),
    ensures
        merged_entry(entries, imports.take(k + 1), strategy, i, after),
{
    let head = imports.take(k);
    let next = imports.take(k + 1);
    assert forall|q: int|
        overrides(entries, next, strategy, i, q) <==> overrides(entries, head, strategy, i, q) by {}
    if exists|q: int| overrides(entries, head, strategy, i, q) {
        let q = choose|q: int| #[trigger]
            overrides(entries, head, strategy, i, q) && is_replaced(after, entries[i], head[q]);
        assert(overrides(entries, next, strategy, i, q));
        assert(next[q] == head[q]);
    } else {
        assert(!exists|q: int| overrides(entries, next, strategy, i, q)) by {
            assert forall|q: int| !overrides(entries, next, strategy, i, q) by {}
        }
    }
}

/// No other entry is the last with the key of entry `at`.
proof fn lemma_last_is_unique(entries: Seq<GlossaryEntry>, at: int, i: int)
    requires
        0 <= at < entries.len(),
        0 <= i < entries.len(),
        i != at,
        scan::is_last_with_key(entries, at),
        crate::glossary::model::key_of(entries[i]) == crate::glossary::model::key_of(entries[at]),
    ensures
        !scan::is_last_with_key(entries, i),
{
    if i > at {
        assert(crate::glossary::model::key_of(entries[i]) != crate::glossary::model::key_of(
            entries[at],
        ));
    } else if scan::is_last_with_key(entries, i) {
        assert(crate::glossary::model::key_of(entries[at]) != crate::glossary::model::key_of(
            entries[i],
        ));
    }
}

/// Brings the imports into the entries. The names of new entries are drawn anew.
pub fn merge_import(
    entries: Vec<GlossaryEntry>,
    imports: Vec<GlossaryExchangeEntry>,
    strategy: GlossaryImportStrategy,
) -> (r: Vec<GlossaryEntry>)
    requires
        distinct_imports(imports@),
    ensures
        merged(entries@, imports@, strategy, r@),
{
    let ghost all = entries@;
    let ghost given = imports@;
    let n: usize = entries.len();
    let mut cur = entries;
    let mut rest = imports;
    let ghost mut k: int = 0;
    proof {
        assert(rest@ =~= given.skip(0));
        assert(given.take(0) =~= Seq::empty());
    }
    while rest.len() > 0
        invariant
            0 <= k <= given.len(),
            distinct_imports(given),
            rest@ == given.skip(k),
            n == all.len(),
            merged(all, given.take(k), strategy, cur@),
        decreases rest@.len(),
    {
        let import = rest.remove(0);
        let ghost was = cur@;
        let ghost head = given.take(k);
        let ghost next = given.take(k + 1);
        proof {
            assert(import == given[k]);
            assert(rest@ =~= given.skip(k + 1));
            assert(next.drop_last() =~= head);
            assert(next.last() == import);
            assert forall|i: int| 0 <= i < n implies crate::glossary::model::key_of(
                #[trigger] was[i],
            ) == crate::glossary::model::key_of(all[i]) by {
                assert(merged_entry(all, head, strategy, i, was[i]));
            }
        }
        let key = normalize_glossary_source(import.source.as_str());
        let at: usize = find_last_key(&cur, n, key.as_str(), import.kind);
        if at < n {
            proof {
                assert(crate::glossary::model::key_of(was[at as int]) == import_key(import));
                assert(scan::is_last_with_key(all, at as int)) by {
                    assert forall|j: int| at < j < all.len() implies crate::glossary::model::key_of(
                        #[trigger] all[j],
                    ) != crate::glossary::model::key_of(all[at as int]) by {
                        assert(crate::glossary::model::key_of(was[j]) != import_key(import));
                    }
                }
                assert(merged_entry(all, head, strategy, at as int, was[at as int]));
                assert forall|q: int| !overrides(all, head, strategy, at as int, q) by {
                    if overrides(all, head, strategy, at as int, q) {
                        assert(import_key(given[q]) == import_key(given[k]));
                    }
                }
                assert(was[at as int] == all[at as int]);
                assert(scan::has_key(all, import_key(import))) by {
                    assert(crate::glossary::model::key_of(all[at as int]) == import_key(import));
                }
                assert forall|i: int| 0 <= i < n && i != at implies merged_entry(
                    all,
                    next,
                    strategy,
                    i,
                    #[trigger] was[i],
                ) by {
                    assert(!overrides(all, next, strategy, i, k)) by {
                        if overrides(all, next, strategy, i, k) {
                            lemma_last_is_unique(all, at as int, i);
                        }
                    }
                    assert(merged_entry(all, head, strategy, i, was[i]));
                    lemma_merged_entry_grows(all, given, strategy, k, i, was[i]);
                }
            }
            if strategy == GlossaryImportStrategy::ReplaceExisting && !semantic_equal(
                &cur[at],
                &import,
            ) {
                let mut entry = cur.remove(at);
                entry.source = import.source;
                entry.translation_origin = translation_origin(
                    &import.translation,
                    GlossaryValueOrigin::Imported,
                );
                entry.translation = import.translation;
                entry.kind = import.kind;
                entry.enabled = import.enabled;
                entry.source_origin = GlossaryValueOrigin::Imported;
                cur.insert(at, entry);
                proof {
                    assert(cur@ =~= was.update(at as int, entry));
                    assert(is_replaced(entry, all[at as int], given[k]));
                    assert(overrides(all, next, strategy, at as int, k));
                    assert(next[k] == given[k]);
                    assert(merged_entry(all, next, strategy, at as int, entry));
                    assert forall|i: int| 0 <= i < n implies merged_entry(
                        all,
                        next,
                        strategy,
                        i,
                        #[trigger] cur@[i],
                    ) by {
                        if i != at {
                            assert(cur@[i] == was[i]);
                        }
                    }
                    assert(merged(all, next, strategy, cur@));
                }
            } else {
                proof {
                    lemma_merged_entry_grows(all, given, strategy, k, at as int, was[at as int]);
                    assert(merged(all, next, strategy, cur@));
                }
            }
        } else {
            proof {
                assert(!scan::has_key(all, import_key(import))) by {
                    if scan::has_key(all, import_key(import)) {
                        let i = choose|i: int|
                            0 <= i < all.len() && crate::glossary::model::key_of(#[trigger] all[i])
                                == import_key(import);
                        assert(crate::glossary::model::key_of(was[i]) != import_key(import));
                    }
                }
            }
            let entry = entered(
                GlossaryEntryId::new(),
                import.source,
                import.translation,
                import.kind,
                import.enabled,
                GlossaryValueOrigin::Imported,
            );
            cur.push(entry);
            proof {
                assert(is_imported(entry, given[k]));
                assert forall|i: int| 0 <= i < n implies merged_entry(
                    all,
                    next,
                    strategy,
                    i,
                    #[trigger] cur@[i],
                ) by {
                    assert(cur@[i] == was[i]);
                    assert(!overrides(all, next, strategy, i, k)) by {
                        if overrides(all, next, strategy, i, k) {
                            assert(scan::has_key(all, import_key(given[k])));
                        }
                    }
                    lemma_merged_entry_grows(all, given, strategy, k, i, was[i]);
                }
                let new = new_imports(all, next);
                assert(new == new_imports(all, head).push(given[k]));
                assert forall|j: int| n <= j < cur@.len() implies is_imported(
                    #[trigger] cur@[j],
                    new[j - n],
                ) by {
                    if j < was.len() {
                        assert(cur@[j] == was[j]);
                    }
                }
                assert(merged(all, next, strategy, cur@));
            }
        }
        proof {
            k = k + 1;
        }
    }
    assert(given.take(k) =~= given);
    cur
}

/// A language that is filled in where the glossary has none.
pub open spec fn filled(current: Option<String>, imported: Option<String>) -> Option<String> {
    if current is Some {
        current
    } else {
        imported
    }
}

/// Brings an exchanged glossary into a glossary.
pub fn apply_glossary_import(
    glossary: Glossary,
    current: Revision,
    expected: Revision,
    imported: GlossaryExchange,
    strategy: GlossaryImportStrategy,
    confirm_language_mismatch: bool,
) -> (r: Result<Glossary, ImportFault>)
    ensures
        current != expected ==> r == Err::<Glossary, _>(
            ImportFault::StaleRevision { expected, current },
        ),
        current == expected ==> match exchange_fault(imported) {
            Some(fault) => r == Err::<Glossary, _>(ImportFault::Exchange(fault)),
            None => if !confirm_language_mismatch && (differs(
                glossary.source_language,
                imported.source_language,
            ) || differs(glossary.target_language, imported.target_language)) {
                r == Err::<Glossary, _>(ImportFault::LanguageMismatch)
            } else {
                exists|after: Seq<GlossaryEntry>|
                    {
                        &&& #[trigger] merged(
                            glossary.entries@,
                            imported.entries@,
                            strategy,
                            after,
                        )
                        &&& match crate::glossary::edit::entries_fault(after) {
                            Some(fault) => r == Err::<Glossary, _>(
                                ImportFault::Edit(EditFault::Invalid(fault)),
                            ),
                            None => r matches Ok(g) && g.entries@ == after && g.enabled
                                == glossary.enabled && g.source_fingerprint
                                == glossary.source_fingerprint && g.source_language == filled(
                                glossary.source_language,
                                imported.source_language,
                            ) && g.target_language == filled(
                                glossary.target_language,
                                imported.target_language,
                            ),
                        }
                    }
            },
        },
        r matches Ok(g) ==> {
            &&& glossary.source_language is Some ==> g.source_language == glossary.source_language
            &&& glossary.source_language is None ==> g.source_language == imported.source_language
            &&& glossary.target_language is Some ==> g.target_language == glossary.target_language
            &&& glossary.target_language is None ==> g.target_language == imported.target_language
            &&& forall|k: int|
                0 <= k < imported.entries@.len() ==> exists|j: int|
                    {
                        &&& 0 <= j < g.entries@.len()
                        &&& (#[trigger] g.entries@[j]).kind == (
                        #[trigger] imported.entries@[k]).kind
                        &&& normalize::source_form(g.entries@[j].source@) == normalize::source_form(
                            imported.entries@[k].source@,
                        )
                        &&& strategy == GlossaryImportStrategy::ReplaceExisting ==> {
                            &&& g.entries@[j].source@ == imported.entries@[k].source@
                            &&& g.entries@[j].enabled == imported.entries@[k].enabled
                            &&& (g.entries@[j].translation is Some
                                <==> imported.entries@[k].translation is Some)
                            &&& (imported.entries@[k].translation is Some
                                ==> g.entries@[j].translation->0@
                                == imported.entries@[k].translation->0@)
                        }
                    }
        },
        r is Ok && !confirm_language_mismatch ==> {
            &&& glossary.source_language is None || imported.source_language is None
                || glossary.source_language->0@ == imported.source_language->0@
            &&& glossary.target_language is None || imported.target_language is None
                || glossary.target_language->0@ == imported.target_language->0@
        },
{
    let ghost before = glossary;
    let ghost given = imported;
    if current != expected {
        return Err(ImportFault::StaleRevision { expected, current });
    }
    match check_exchange(&imported) {
        Ok(()) => {},
        Err(fault) => {
            return Err(ImportFault::Exchange(fault));
        },
    }
    if !confirm_language_mismatch && language_mismatches(&glossary, &imported).len() > 0 {
        return Err(ImportFault::LanguageMismatch);
    }
    proof {
        lemma_no_duplicate(imported.entries@, imported.entries@.len());
    }
    let GlossaryExchange { source_language, target_language, entries: imports, .. } = imported;
    let mut glossary = glossary;
    if glossary.source_language.is_none() {
        glossary.source_language = source_language;
    }
    if glossary.target_language.is_none() {
        glossary.target_language = target_language;
    }
    let Glossary { enabled, source_language, target_language, source_fingerprint, entries } =
        glossary;
    let entries = merge_import(entries, imports, strategy);
    assert(merged(before.entries@, given.entries@, strategy, entries@));
    proof {
        lemma_taken_exchange(given);
        assert forall|k: int| 0 <= k < given.entries@.len() implies exists|j: int|
            {
                &&& 0 <= j < entries@.len()
                &&& (#[trigger] entries@[j]).kind == (#[trigger] given.entries@[k]).kind
                &&& normalize::source_form(entries@[j].source@) == normalize::source_form(
                    given.entries@[k].source@,
                )
                &&& strategy == GlossaryImportStrategy::ReplaceExisting ==> {
                    &&& entries@[j].source@ == given.entries@[k].source@
                    &&& entries@[j].enabled == given.entries@[k].enabled
                    &&& (entries@[j].translation is Some <==> given.entries@[k].translation is Some)
                    &&& (given.entries@[k].translation is Some ==> entries@[j].translation->0@
                        == given.entries@[k].translation->0@)
                }
            } by {
            let j = lemma_import_arrives(before.entries@, given.entries@, strategy, entries@, k);
            assert(entries@[j].kind == given.entries@[k].kind);
        }
    }
    match checked(
        Glossary { enabled, source_language, target_language, source_fingerprint, entries },
    ) {
        Ok(glossary) => Ok(glossary),
        Err(fault) => Err(ImportFault::Edit(fault)),
    }
}

// ---------------------------------------------------------------------------------------------
// Laws
// ---------------------------------------------------------------------------------------------

/// To keep what is there changes no entry that is there.
pub proof fn lemma_keep_keeps(
    entries: Seq<GlossaryEntry>,
    imports: Seq<GlossaryExchangeEntry>,
    after: Seq<GlossaryEntry>,
)
    requires
        merged(entries, imports, GlossaryImportStrategy::KeepExisting, after),
    ensures
        entries.len() <= after.len(),
        after.take(entries.len() as int) == entries,
{
    assert forall|i: int| 0 <= i < entries.len() implies after[i] == entries[i] by {
        assert(merged_entry(
            entries,
            imports,
            GlossaryImportStrategy::KeepExisting,
            i,
            after[i],
        ));
        assert forall|k: int|
            !overrides(entries, imports, GlossaryImportStrategy::KeepExisting, i, k) by {}
    }
    assert(after.take(entries.len() as int) =~= entries);
}

/// An import takes nothing away: the entries that were there keep their names, their keys and what
/// scans found of them.
pub proof fn lemma_import_keeps_finds(
    entries: Seq<GlossaryEntry>,
    imports: Seq<GlossaryExchangeEntry>,
    strategy: GlossaryImportStrategy,
    after: Seq<GlossaryEntry>,
    i: int,
)
    requires
        merged(entries, imports, strategy, after),
        0 <= i < entries.len(),
    ensures
        entries.len() <= after.len(),
        after[i].id == entries[i].id,
        crate::glossary::model::key_of(after[i]) == crate::glossary::model::key_of(entries[i]),
        after[i].confidence == entries[i].confidence,
        after[i].occurrence_count == entries[i].occurrence_count,
        after[i].examples == entries[i].examples,
        after[i].present_in_last_scan == entries[i].present_in_last_scan,
{
    assert(merged_entry(entries, imports, strategy, i, after[i]));
}

/// A glossary that is imported into itself would change nothing: every entry is identical, and no
/// language differs.
pub proof fn lemma_own_export_is_identical(
    glossary: Glossary,
    exchange: GlossaryExchange,
    found: Seq<LanguageMismatch>,
)
    requires
        crate::glossary::edit::entries_fault(glossary.entries@) is None,
        exchange.source_language == glossary.source_language,
        exchange.target_language == glossary.target_language,
        exchange.entries@ == exported(glossary.entries@),
        mismatches(glossary, exchange, found),
    ensures
        import_counts(glossary.entries@, exchange.entries@) == (
            0nat,
            0nat,
            glossary.entries@.len(),
        ),
        found.len() == 0,
{
    let entries = glossary.entries@;
    crate::glossary::model::lemma_valid_glossary(entries, entries.len());
    lemma_export_counts(entries, entries.len());
    assert(exported(entries).take(entries.len() as int) =~= exported(entries));
}

proof fn lemma_export_counts(entries: Seq<GlossaryEntry>, n: nat)
    requires
        n <= entries.len(),
        forall|i: int, j: int|
            0 <= i < j < entries.len() ==> crate::glossary::model::key_of(#[trigger] entries[i])
                != crate::glossary::model::key_of(#[trigger] entries[j]),
    ensures
        import_counts(entries, exported(entries).take(n as int)) == (0nat, 0nat, n),
    decreases n,
{
    let imports = exported(entries);
    if n > 0 {
        lemma_export_counts(entries, (n - 1) as nat);
        assert(imports.take(n as int).drop_last() =~= imports.take(n - 1));
        assert(imports.take(n as int).last() == exported_entry(entries[n - 1]));
        lemma_counterpart_at(entries, import_key(exported_entry(entries[n - 1])), n - 1);
    } else {
        assert(imports.take(0) =~= Seq::empty());
    }
}

/// The import has an entry after the merge: the one that was there, or a new one.
proof fn lemma_import_has_counterpart(
    entries: Seq<GlossaryEntry>,
    imports: Seq<GlossaryExchangeEntry>,
    strategy: GlossaryImportStrategy,
    after: Seq<GlossaryEntry>,
    k: int,
)
    requires
        merged(entries, imports, strategy, after),
        distinct_imports(imports),
        0 <= k < imports.len(),
    ensures
        counterpart(after, import_key(imports[k])) matches Some(e) && (strategy
            == GlossaryImportStrategy::ReplaceExisting ==> says_same(e, imports[k])),
{
    let n = entries.len() as int;
    let key = import_key(imports[k]);
    let new = new_imports(entries, imports);
    lemma_new_imports(entries, imports);
    assert forall|i: int| 0 <= i < n implies crate::glossary::model::key_of(#[trigger] after[i])
        == crate::glossary::model::key_of(entries[i]) by {
        lemma_import_keeps_finds(entries, imports, strategy, after, i);
    }
    if scan::has_key(entries, key) {
        let at = lemma_last_exists(entries, key);
        assert forall|j: int| at < j < after.len() implies crate::glossary::model::key_of(
            #[trigger] after[j],
        ) != key by {
            if j < n {
                assert(crate::glossary::model::key_of(entries[j])
                    != crate::glossary::model::key_of(entries[at]));
            } else {
                assert(is_imported(after[j], new[j - n]));
                assert(!scan::has_key(entries, import_key(new[j - n])));
            }
        }
        lemma_counterpart_at(after, key, at);
        if strategy == GlossaryImportStrategy::ReplaceExisting {
            assert(merged_entry(entries, imports, strategy, at, after[at]));
            if says_same(entries[at], imports[k]) {
                assert forall|q: int| !overrides(entries, imports, strategy, at, q) by {
                    if overrides(entries, imports, strategy, at, q) {
                        assert(import_key(imports[q]) == import_key(imports[k]));
                    }
                }
            } else {
                assert(overrides(entries, imports, strategy, at, k));
                let q = choose|q: int| #[trigger]
                    overrides(entries, imports, strategy, at, q) && is_replaced(
                        after[at],
                        entries[at],
                        imports[q],
                    );
                assert(import_key(imports[q]) == import_key(imports[k]));
                assert(q == k);
            }
        }
    } else {
        let q = lemma_new_import_place(entries, imports, k);
        assert(is_imported(after[n + q], new[q]));
        assert forall|j: int| n + q < j < after.len() implies crate::glossary::model::key_of(
            #[trigger] after[j],
        ) != key by {
            assert(is_imported(after[j], new[j - n]));
            assert(import_key(new[q]) != import_key(new[j - n]));
        }
        lemma_counterpart_at(after, key, n + q);
    }
}

/// The place of the last entry with a key.
proof fn lemma_last_exists(entries: Seq<GlossaryEntry>, key: (Seq<char>, GlossaryKind)) -> (at: int)
    requires
        scan::has_key(entries, key),
    ensures
        0 <= at < entries.len(),
        crate::glossary::model::key_of(entries[at]) == key,
        scan::is_last_with_key(entries, at),
    decreases entries.len(),
{
    let i = choose|i: int|
        0 <= i < entries.len() && crate::glossary::model::key_of(#[trigger] entries[i]) == key;
    let last = entries.len() - 1;
    if crate::glossary::model::key_of(entries[last]) == key {
        last
    } else {
        let rest = entries.drop_last();
        assert(crate::glossary::model::key_of(rest[i]) == key);
        let at = lemma_last_exists(rest, key);
        assert forall|j: int| at < j < entries.len() implies crate::glossary::model::key_of(
            #[trigger] entries[j],
        ) != crate::glossary::model::key_of(entries[at]) by {
            if j < last {
                assert(crate::glossary::model::key_of(rest[j]) != crate::glossary::model::key_of(
                    rest[at],
                ));
            }
        }
        at
    }
}

/// The new imports are imports whose keys the glossary does not have, and they have distinct keys
/// where the imports do.
proof fn lemma_new_imports(entries: Seq<GlossaryEntry>, imports: Seq<GlossaryExchangeEntry>)
    requires
        distinct_imports(imports),
    ensures
        distinct_imports(new_imports(entries, imports)),
        forall|q: int|
            0 <= q < new_imports(entries, imports).len() ==> !scan::has_key(
                entries,
                import_key(#[trigger] new_imports(entries, imports)[q]),
            ) && imports.contains(new_imports(entries, imports)[q]),
    decreases imports.len(),
{
    if imports.len() > 0 {
        let head = imports.drop_last();
        assert forall|i: int, j: int| 0 <= i < j < head.len() implies import_key(
            #[trigger] head[i],
        ) != import_key(#[trigger] head[j]) by {
            assert(import_key(imports[i]) != import_key(imports[j]));
        }
        lemma_new_imports(entries, head);
        let new = new_imports(entries, imports);
        let was = new_imports(entries, head);
        assert forall|q: int| 0 <= q < new.len() implies !scan::has_key(
            entries,
            import_key(#[trigger] new[q]),
        ) && imports.contains(new[q]) by {
            if q < was.len() {
                assert(new[q] == was[q]);
                assert(head.contains(was[q]));
                let i = choose|i: int| 0 <= i < head.len() && head[i] == was[q];
                assert(imports[i] == new[q]);
            } else {
                assert(imports[imports.len() - 1] == new[q]);
            }
        }
        assert forall|i: int, j: int| 0 <= i < j < new.len() implies import_key(#[trigger] new[i])
            != import_key(#[trigger] new[j]) by {
            assert(new[i] == was[i]);
            if j < was.len() {
                assert(new[j] == was[j]);
            } else {
                assert(head.contains(was[i]));
                let p = choose|p: int| 0 <= p < head.len() && head[p] == was[i];
                assert(imports[p] == new[i]);
                assert(imports[imports.len() - 1] == new[j]);
            }
        }
    }
}

/// The place of an import among the new ones.
proof fn lemma_new_import_place(
    entries: Seq<GlossaryEntry>,
    imports: Seq<GlossaryExchangeEntry>,
    k: int,
) -> (q: int)
    requires
        0 <= k < imports.len(),
        !scan::has_key(entries, import_key(imports[k])),
    ensures
        0 <= q < new_imports(entries, imports).len(),
        new_imports(entries, imports)[q] == imports[k],
    decreases imports.len(),
{
    let head = imports.drop_last();
    if k == imports.len() - 1 {
        new_imports(entries, head).len() as int
    } else {
        assert(head[k] == imports[k]);
        let q = lemma_new_import_place(entries, head, k);
        q
    }
}

/// What was imported is there: importing it again would add nothing, and after a replacing import
/// nothing would differ either.
pub proof fn lemma_import_again(
    entries: Seq<GlossaryEntry>,
    imports: Seq<GlossaryExchangeEntry>,
    strategy: GlossaryImportStrategy,
    after: Seq<GlossaryEntry>,
)
    requires
        merged(entries, imports, strategy, after),
        distinct_imports(imports),
    ensures
        import_counts(after, imports).0 == 0,
        strategy == GlossaryImportStrategy::ReplaceExisting ==> import_counts(after, imports) == (
            0nat,
            0nat,
            imports.len(),
        ),
{
    assert forall|k: int| 0 <= k < imports.len() implies counterpart(
        after,
        import_key(#[trigger] imports[k]),
    ) matches Some(e) && (strategy == GlossaryImportStrategy::ReplaceExisting ==> says_same(
        e,
        imports[k],
    )) by {
        lemma_import_has_counterpart(entries, imports, strategy, after, k);
    }
    lemma_all_there(after, imports, strategy == GlossaryImportStrategy::ReplaceExisting);
}

proof fn lemma_all_there(
    after: Seq<GlossaryEntry>,
    imports: Seq<GlossaryExchangeEntry>,
    same: bool,
)
    requires
        forall|k: int|
            0 <= k < imports.len() ==> (counterpart(after, import_key(#[trigger] imports[k]))
                matches Some(e) && (same ==> says_same(e, imports[k]))),
    ensures
        import_counts(after, imports).0 == 0,
        same ==> import_counts(after, imports) == (0nat, 0nat, imports.len()),
    decreases imports.len(),
{
    if imports.len() > 0 {
        let head = imports.drop_last();
        assert forall|k: int| 0 <= k < head.len() implies (counterpart(
            after,
            import_key(#[trigger] head[k]),
        ) matches Some(e) && (same ==> says_same(e, head[k]))) by {
            assert(head[k] == imports[k]);
        }
        lemma_all_there(after, head, same);
        assert(imports.last() == imports[imports.len() - 1]);
    }
}

/// An import that can be taken leaves a valid glossary valid, as long as the new names are new.
pub proof fn lemma_import_stays_valid(
    entries: Seq<GlossaryEntry>,
    imports: Seq<GlossaryExchangeEntry>,
    strategy: GlossaryImportStrategy,
    after: Seq<GlossaryEntry>,
)
    requires
        crate::glossary::edit::entries_fault(entries) is None,
        first_duplicate(imports, imports.len()) is None,
        first_import_fault(imports, imports.len()) is None,
        merged(entries, imports, strategy, after),
        forall|i: int, j: int|
            0 <= i < j < after.len() ==> (#[trigger] after[i]).id != (#[trigger] after[j]).id,
    ensures
        crate::glossary::edit::entries_fault(after) is None,
{
    lemma_no_duplicate(imports, imports.len());
    lemma_imports_right(imports, imports.len());
    lemma_new_imports(entries, imports);
    crate::glossary::model::lemma_valid_glossary(entries, entries.len());
    let n = entries.len() as int;
    let new = new_imports(entries, imports);
    assert forall|i: int| 0 <= i < after.len() implies crate::glossary::model::fault_of_entry(
        #[trigger] after[i],
    ) is None by {
        if i < n {
            assert(merged_entry(entries, imports, strategy, i, after[i]));
            if exists|k: int| overrides(entries, imports, strategy, i, k) {
                let k = choose|k: int| #[trigger]
                    overrides(entries, imports, strategy, i, k) && is_replaced(
                        after[i],
                        entries[i],
                        imports[k],
                    );
                assert(fault_of_import(imports[k]) is None);
            }
        } else {
            assert(is_imported(after[i], new[i - n]));
            assert(imports.contains(new[i - n]));
            let k = choose|k: int| 0 <= k < imports.len() && imports[k] == new[i - n];
            assert(fault_of_import(imports[k]) is None);
        }
    }
    assert forall|i: int, j: int| 0 <= i < j < after.len() implies crate::glossary::model::key_of(
        #[trigger] after[i],
    ) != crate::glossary::model::key_of(#[trigger] after[j]) by {
        if i < n {
            lemma_import_keeps_finds(entries, imports, strategy, after, i);
        }
        if j < n {
            lemma_import_keeps_finds(entries, imports, strategy, after, j);
            assert(crate::glossary::model::key_of(entries[i]) != crate::glossary::model::key_of(
                entries[j],
            ));
        } else {
            assert(is_imported(after[j], new[j - n]));
            assert(!scan::has_key(entries, import_key(new[j - n])));
            if i < n {
                if crate::glossary::model::key_of(entries[i]) == import_key(new[j - n]) {
                    assert(scan::has_key(entries, import_key(new[j - n])));
                }
            } else {
                assert(is_imported(after[i], new[i - n]));
                assert(import_key(new[i - n]) != import_key(new[j - n]));
            }
        }
    }
    crate::glossary::model::lemma_no_fault(after, after.len());
}

/// Every import is found after the merge, in the entry with its normalized source and its kind that
/// stands last. After a replacing import that entry has the source, the translation and the switch
/// of the import; where the glossary had no such entry, it has them under either strategy, comes of
/// the import alone, and stands behind all that was there.
pub proof fn lemma_import_arrives(
    entries: Seq<GlossaryEntry>,
    imports: Seq<GlossaryExchangeEntry>,
    strategy: GlossaryImportStrategy,
    after: Seq<GlossaryEntry>,
    k: int,
) -> (j: int)
    requires
        merged(entries, imports, strategy, after),
        forall|a: int, b: int|
            0 <= a < b < imports.len() ==> (#[trigger] imports[a]).kind != (
            #[trigger] imports[b]).kind || normalize::source_form(imports[a].source@)
                != normalize::source_form(imports[b].source@),
        0 <= k < imports.len(),
    ensures
        0 <= j < after.len(),
        normalize::source_form(after[j].source@) == normalize::source_form(imports[k].source@),
        after[j].kind == imports[k].kind,
        forall|i: int|
            j < i < after.len() ==> (#[trigger] after[i]).kind != imports[k].kind
                || normalize::source_form(after[i].source@) != normalize::source_form(
                imports[k].source@,
            ),
        strategy == GlossaryImportStrategy::ReplaceExisting || j >= entries.len() ==> {
            &&& after[j].source@ == imports[k].source@
            &&& after[j].enabled == imports[k].enabled
            &&& (after[j].translation is Some <==> imports[k].translation is Some)
            &&& (imports[k].translation is Some ==> after[j].translation->0@
                == imports[k].translation->0@)
        },
        j < entries.len() ==> {
            &&& entries[j].kind == imports[k].kind
            &&& normalize::source_form(entries[j].source@) == normalize::source_form(
                imports[k].source@,
            )
        },
        j < entries.len() && after[j] != entries[j] ==> {
            &&& strategy == GlossaryImportStrategy::ReplaceExisting
            &&& after[j].source_origin == GlossaryValueOrigin::Imported
            &&& after[j].translation is Some ==> after[j].translation_origin == Some(
                GlossaryValueOrigin::Imported,
            )
            &&& after[j].translation is None ==> after[j].translation_origin is None
        },
        j >= entries.len() ==> {
            &&& after[j].source_origin == GlossaryValueOrigin::Imported
            &&& after[j].translation is Some ==> after[j].translation_origin == Some(
                GlossaryValueOrigin::Imported,
            )
            &&& after[j].translation is None ==> after[j].translation_origin is None
            &&& after[j].confidence is None
            &&& after[j].occurrence_count == 0
            &&& after[j].examples@.len() == 0
            &&& !after[j].present_in_last_scan
            &&& forall|i: int|
                0 <= i < entries.len() ==> (#[trigger] entries[i]).kind != imports[k].kind
                    || normalize::source_form(entries[i].source@) != normalize::source_form(
                    imports[k].source@,
                )
        },
{
    let n = entries.len() as int;
    let key = import_key(imports[k]);
    let new = new_imports(entries, imports);
    assert(distinct_imports(imports)) by {
        assert forall|a: int, b: int| 0 <= a < b < imports.len() implies import_key(
            #[trigger] imports[a],
        ) != import_key(#[trigger] imports[b]) by {
            assert(imports[a].kind != imports[b].kind || normalize::source_form(imports[a].source@)
                != normalize::source_form(imports[b].source@));
        }
    }
    lemma_new_imports(entries, imports);
    assert forall|i: int| 0 <= i < n implies crate::glossary::model::key_of(#[trigger] after[i])
        == crate::glossary::model::key_of(entries[i]) by {
        lemma_import_keeps_finds(entries, imports, strategy, after, i);
    }
    if scan::has_key(entries, key) {
        let at = lemma_last_exists(entries, key);
        assert forall|i: int| at < i < after.len() implies crate::glossary::model::key_of(
            #[trigger] after[i],
        ) != key by {
            if i < n {
                assert(crate::glossary::model::key_of(entries[i])
                    != crate::glossary::model::key_of(entries[at]));
            } else {
                assert(is_imported(after[i], new[i - n]));
                assert(!scan::has_key(entries, import_key(new[i - n])));
            }
        }
        assert(merged_entry(entries, imports, strategy, at, after[at]));
        if exists|q: int| overrides(entries, imports, strategy, at, q) {
            let q = choose|q: int| #[trigger]
                overrides(entries, imports, strategy, at, q) && is_replaced(
                    after[at],
                    entries[at],
                    imports[q],
                );
            assert(import_key(imports[q]) == import_key(imports[k]));
            assert(q == k);
        } else if strategy == GlossaryImportStrategy::ReplaceExisting {
            assert(!overrides(entries, imports, strategy, at, k));
            assert(says_same(entries[at], imports[k]));
        }
        at
    } else {
        let q = lemma_new_import_place(entries, imports, k);
        assert(is_imported(after[n + q], new[q]));
        assert forall|i: int| n + q < i < after.len() implies crate::glossary::model::key_of(
            #[trigger] after[i],
        ) != key by {
            assert(is_imported(after[i], new[i - n]));
            assert(import_key(new[q]) != import_key(new[i - n]));
        }
        assert forall|i: int| 0 <= i < entries.len() implies (#[trigger] entries[i]).kind
            != imports[k].kind || normalize::source_form(entries[i].source@)
            != normalize::source_form(imports[k].source@) by {
            if crate::glossary::model::key_of(entries[i]) == key {
                assert(scan::has_key(entries, key));
            }
        }
        n + q
    }
}

/// An import leaves alone what it does not speak of: an entry whose normalized source and kind no
/// import has stays as it is, and so does one that says what its import says.
pub proof fn lemma_import_leaves_the_rest(
    entries: Seq<GlossaryEntry>,
    imports: Seq<GlossaryExchangeEntry>,
    strategy: GlossaryImportStrategy,
    after: Seq<GlossaryEntry>,
    i: int,
)
    requires
        merged(entries, imports, strategy, after),
        0 <= i < entries.len(),
        forall|k: int|
            0 <= k < imports.len() && (#[trigger] imports[k]).kind == entries[i].kind
                && normalize::source_form(imports[k].source@) == normalize::source_form(
                entries[i].source@,
            ) ==> {
                &&& imports[k].source@ == entries[i].source@
                &&& imports[k].enabled == entries[i].enabled
                &&& (imports[k].translation is Some <==> entries[i].translation is Some)
                &&& (imports[k].translation is Some ==> imports[k].translation->0@
                    == entries[i].translation->0@)
            },
    ensures
        i < after.len(),
        after[i] == entries[i],
{
    assert(merged_entry(entries, imports, strategy, i, after[i]));
    assert forall|k: int| !overrides(entries, imports, strategy, i, k) by {
        if overrides(entries, imports, strategy, i, k) {
            assert(imports[k].kind == entries[i].kind);
            assert(says_same(entries[i], imports[k]));
        }
    }
}

/// What a preview counts. An import more is counted once: as new where no entry has its normalized
/// source and its kind; as identical where the one entry that has them says the same; as
/// conflicting where that entry has another source, translation or switch.
pub proof fn lemma_preview_counts_each(
    entries: Seq<GlossaryEntry>,
    imports: Seq<GlossaryExchangeEntry>,
    import: GlossaryExchangeEntry,
    i: int,
)
    requires
        0 <= i <= entries.len(),
        i < entries.len() ==> entries[i].kind == import.kind && normalize::source_form(
            entries[i].source@,
        ) == normalize::source_form(import.source@),
        forall|j: int|
            0 <= j < entries.len() && j != i ==> (#[trigger] entries[j]).kind != import.kind
                || normalize::source_form(entries[j].source@) != normalize::source_form(
                import.source@,
            ),
    ensures
        import_counts(entries, Seq::empty()) == (0nat, 0nat, 0nat),
        ({
            let (added, conflicting, identical) = import_counts(entries, imports);
            let then = import_counts(entries, imports.push(import));
            &&& i == entries.len() ==> then == (added + 1, conflicting, identical)
            &&& i < entries.len() && entries[i].source@ == import.source@ && entries[i].enabled
                == import.enabled && (entries[i].translation is None
                && import.translation is None || entries[i].translation is Some
                && import.translation is Some && entries[i].translation->0@
                == import.translation->0@) ==> then == (added, conflicting, identical + 1)
            &&& i < entries.len() && (entries[i].source@ != import.source@ || entries[i].enabled
                != import.enabled || (entries[i].translation is Some) != (
            import.translation is Some) || entries[i].translation is Some
                && entries[i].translation->0@ != import.translation->0@) ==> then == (
                added,
                conflicting + 1,
                identical,
            )
        }),
{
    let key = import_key(import);
    assert(imports.push(import).drop_last() =~= imports);
    if i < entries.len() {
        lemma_counterpart_at(entries, key, i);
    } else {
        lemma_no_counterpart(entries, key);
    }
}

/// A preview foretells the import: it counts each import once, and the import makes the glossary
/// longer by as many entries as the preview counts as new.
pub proof fn lemma_preview_foretells(
    entries: Seq<GlossaryEntry>,
    imports: Seq<GlossaryExchangeEntry>,
    strategy: GlossaryImportStrategy,
    after: Seq<GlossaryEntry>,
)
    requires
        merged(entries, imports, strategy, after),
    ensures
        import_counts(entries, imports).0 + import_counts(entries, imports).1 + import_counts(
            entries,
            imports,
        ).2 == imports.len(),
        after.len() == entries.len() + import_counts(entries, imports).0,
{
    lemma_counted_once(entries, imports);
}

proof fn lemma_counted_once(entries: Seq<GlossaryEntry>, imports: Seq<GlossaryExchangeEntry>)
    ensures
        import_counts(entries, imports).0 + import_counts(entries, imports).1 + import_counts(
            entries,
            imports,
        ).2 == imports.len(),
        new_imports(entries, imports).len() == import_counts(entries, imports).0,
    decreases imports.len(),
{
    if imports.len() > 0 {
        lemma_counted_once(entries, imports.drop_last());
        let key = import_key(imports.last());
        if scan::has_key(entries, key) {
            let at = lemma_last_exists(entries, key);
            assert forall|j: int| at < j < entries.len() implies crate::glossary::model::key_of(
                #[trigger] entries[j],
            ) != key by {}
            lemma_counterpart_at(entries, key, at);
        } else {
            assert forall|j: int| 0 <= j < entries.len() implies crate::glossary::model::key_of(
                #[trigger] entries[j],
            ) != key by {}
            lemma_no_counterpart(entries, key);
        }
    }
}

/// The mismatches of a preview: one for each language that both sides give and give otherwise, the
/// source language first, each with what the two sides say.
pub proof fn lemma_mismatches(
    current: Glossary,
    imported: GlossaryExchange,
    found: Seq<LanguageMismatch>,
)
    requires
        mismatches(current, imported, found),
    ensures
        found.len() == 0 <==> {
            &&& current.source_language is None || imported.source_language is None
                || current.source_language->0@ == imported.source_language->0@
            &&& current.target_language is None || imported.target_language is None
                || current.target_language->0@ == imported.target_language->0@
        },
        forall|i: int|
            0 <= i < found.len() ==> match (#[trigger] found[i]).field {
                LanguageField::Source => {
                    &&& i == 0
                    &&& found[i].current == current.source_language
                    &&& found[i].imported == imported.source_language
                    &&& current.source_language is Some && imported.source_language is Some
                    &&& current.source_language->0@ != imported.source_language->0@
                },
                LanguageField::Target => {
                    &&& i == found.len() - 1
                    &&& found[i].current == current.target_language
                    &&& found[i].imported == imported.target_language
                    &&& current.target_language is Some && imported.target_language is Some
                    &&& current.target_language->0@ != imported.target_language->0@
                },
            },
        current.source_language is Some && imported.source_language is Some
            && current.source_language->0@ != imported.source_language->0@ ==> found.len() > 0
            && found[0].field == LanguageField::Source,
        current.target_language is Some && imported.target_language is Some
            && current.target_language->0@ != imported.target_language->0@ ==> found.len() > 0
            && found.last().field == LanguageField::Target,
{
    let s = differs(current.source_language, imported.source_language);
    let t = differs(current.target_language, imported.target_language);
    if s {
        assert(shows(
            found[0],
            LanguageField::Source,
            current.source_language,
            imported.source_language,
        ));
    }
}

/// An exchanged glossary that can be taken: its format and version are known, no two entries share
/// a normalized source and a kind, and each source and translation is short enough and holds no
/// control character; a source is more than blanks.
pub proof fn lemma_taken_exchange(exchange: GlossaryExchange)
    ensures
        exchange_fault(exchange) is None <==> {
            &&& exchange.format@ == GLOSSARY_FORMAT@
            &&& exchange.version == GLOSSARY_VERSION
            &&& forall|a: int, b: int|
                0 <= a < b < exchange.entries@.len() ==> (#[trigger] exchange.entries@[a]).kind != (
                #[trigger] exchange.entries@[b]).kind || normalize::source_form(
                    exchange.entries@[a].source@,
                ) != normalize::source_form(exchange.entries@[b].source@)
            &&& forall|a: int|
                0 <= a < exchange.entries@.len() ==> {
                    let entry = #[trigger] exchange.entries@[a];
                    &&& 0 < normalize::source_form(entry.source@).len()
                    &&& entry.source@.len() <= GLOSSARY_TEXT_MAX_CHARS
                    &&& forall|c: char| entry.source@.contains(c) ==> !text::is_control(c)
                    &&& entry.translation matches Some(t) ==> t@.len() <= GLOSSARY_TEXT_MAX_CHARS
                        && forall|c: char| t@.contains(c) ==> !text::is_control(c)
                }
        },
{
    let imports = exchange.entries@;
    let n = imports.len();
    if exchange_fault(exchange) is None {
        lemma_no_duplicate(imports, n);
        lemma_imports_right(imports, n);
        assert forall|a: int, b: int| 0 <= a < b < n implies (#[trigger] imports[a]).kind != (
        #[trigger] imports[b]).kind || normalize::source_form(imports[a].source@)
            != normalize::source_form(imports[b].source@) by {
            assert(import_key(imports[a]) != import_key(imports[b]));
        }
        assert forall|a: int| 0 <= a < n implies {
            let entry = #[trigger] imports[a];
            &&& 0 < normalize::source_form(entry.source@).len()
            &&& entry.source@.len() <= GLOSSARY_TEXT_MAX_CHARS
            &&& forall|c: char| entry.source@.contains(c) ==> !text::is_control(c)
            &&& entry.translation matches Some(t) ==> t@.len() <= GLOSSARY_TEXT_MAX_CHARS
                && forall|c: char| t@.contains(c) ==> !text::is_control(c)
        } by {
            assert(fault_of_import(imports[a]) is None);
        }
    } else if exchange.format@ == GLOSSARY_FORMAT@ && exchange.version == GLOSSARY_VERSION {
        lemma_import_faulty(imports, n);
    }
}

proof fn lemma_import_faulty(imports: Seq<GlossaryExchangeEntry>, n: nat)
    requires
        n <= imports.len(),
    ensures
        first_duplicate(imports, n) is Some ==> exists|a: int, b: int|
            0 <= a < b < n && (#[trigger] imports[a]).kind == (#[trigger] imports[b]).kind
                && normalize::source_form(imports[a].source@) == normalize::source_form(
                imports[b].source@,
            ),
        first_import_fault(imports, n) is Some ==> exists|a: int|
            0 <= a < n && fault_of_import(#[trigger] imports[a]) is Some,
    decreases n,
{
    if n > 0 {
        lemma_import_faulty(imports, (n - 1) as nat);
        if first_duplicate(imports, n) is Some && first_duplicate(imports, (n - 1) as nat) is None {
            let a = choose|j: int|
                0 <= j < n - 1 && import_key(#[trigger] imports[j]) == import_key(imports[n - 1]);
            assert(imports[a].kind == imports[n - 1].kind);
        }
    }
}

impl ExchangeFault {
    /// What is said of the fault of an exchanged glossary.
    pub open spec fn says(self, exchange: GlossaryExchange) -> Seq<char> {
        match self {
            ExchangeFault::Format => "unsupported glossary exchange format: "@ + exchange.format@,
            ExchangeFault::Version => "unsupported glossary exchange version: "@ + text::decimal(
                exchange.version as nat,
            ),
            ExchangeFault::Duplicate(_) =>
                "glossary import contains duplicate source and kind combinations"@,
            ExchangeFault::Entry { fault, .. } => fault.says(),
        }
    }

    /// What is said of the fault of an exchanged glossary.
    pub fn message(self, exchange: &GlossaryExchange) -> (r: String)
        ensures
            r@ == self.says(*exchange),
    {
        match self {
            ExchangeFault::Format => text::joined(
                "unsupported glossary exchange format: ",
                exchange.format.as_str(),
            ),
            ExchangeFault::Version => text::joined(
                "unsupported glossary exchange version: ",
                text::decimal_text_u64(exchange.version as u64).as_str(),
            ),
            ExchangeFault::Duplicate(_) =>
                "glossary import contains duplicate source and kind combinations".to_owned(),
            ExchangeFault::Entry { fault, .. } => fault.message().to_owned(),
        }
    }
}

impl ImportFault {
    /// What is said of the fault of an import.
    pub open spec fn says(self, exchange: GlossaryExchange) -> Seq<char> {
        match self {
            ImportFault::StaleRevision { expected, current } => crate::ids::moved_on(
                "glossary edit"@,
                expected,
                current,
            ),
            ImportFault::Exchange(fault) => fault.says(exchange),
            ImportFault::LanguageMismatch =>
                "glossary import language mismatch requires confirmation"@,
            ImportFault::Edit(fault) => fault.says(),
        }
    }

    /// What is said of the fault of an import.
    pub fn message(self, exchange: &GlossaryExchange) -> (r: String)
        ensures
            r@ == self.says(*exchange),
    {
        match self {
            ImportFault::StaleRevision { expected, current } => crate::ids::stale_message(
                "glossary edit",
                expected,
                current,
            ),
            ImportFault::Exchange(fault) => fault.message(exchange),
            ImportFault::LanguageMismatch =>
                "glossary import language mismatch requires confirmation".to_owned(),
            ImportFault::Edit(fault) => fault.message(),
        }
    }
}

} // verus!
