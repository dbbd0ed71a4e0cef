//! The glossary that a project's texts are translated with.
use crate::normalize;
use crate::normalize::normalize_glossary_source;
use crate::text;
use vstd::prelude::*;

verus! {

/// How many characters a source or a translation may have.
pub const GLOSSARY_TEXT_MAX_CHARS: usize = 256;

/// How many examples an entry may have.
pub const GLOSSARY_MAX_EXAMPLES: usize = 3;

/// How many characters an example may have.
pub const GLOSSARY_EXAMPLE_MAX_CHARS: usize = 512;

/// What an entry names.
#[derive(Clone, Copy, Debug, PartialEq, Eq, Structural, Hash)]
pub enum GlossaryKind {
    Person,
    Place,
    Organization,
    Item,
    Ability,
    Term,
    Other,
}

/// Where a value of an entry comes from.
#[derive(Clone, Copy, Debug, PartialEq, Eq, Structural, Hash)]
pub enum GlossaryValueOrigin {
    Detected,
    Automatic,
    User,
    Imported,
}

/// `uuid::Uuid::now_v7`: a number in the form of a version 7 UUID. Nothing more is stated of the
/// result, since the rest of it is made of the time and of chance.
#[verifier::external_body]
fn timed_uuid() -> (r: u128)
    ensures
        crate::ids::is_uuid(r, 7),
{
    uuid::Uuid::now_v7().as_u128()
}

/// The name of an entry.
#[derive(Clone, Copy, Debug, PartialEq, Eq, Structural, Hash)]
pub struct GlossaryEntryId(pub u128);

impl GlossaryEntryId {
    /// A name for a new entry. It is made of the time and of chance, so only its form is stated.
    pub fn new() -> (r: Self)
        ensures
            crate::ids::is_uuid(r.0, 7),
    {
        GlossaryEntryId(timed_uuid())
    }

    /// The number of the name.
    pub fn as_uuid(self) -> (r: u128)
        ensures
            r == self.0,
    {
        self.0
    }
}

/// How sure a find is: the bits of a 32-bit floating point number.
#[derive(Clone, Copy, Debug, PartialEq, Eq, Structural, Hash)]
pub struct Confidence(pub u32);

impl Confidence {
    /// The number without its sign, as an integer in the order of the numbers.
    pub open spec fn magnitude(self) -> int {
        self.0 as int % 0x8000_0000
    }

    pub open spec fn is_nan(self) -> bool {
        self.magnitude() > 0x7f80_0000
    }

    /// An integer in the order of the numbers, the two zeros being one.
    pub open spec fn rank(self) -> int {
        if self.0 >= 0x8000_0000 {
            -self.magnitude()
        } else {
            self.magnitude()
        }
    }

    /// The number is in the range from zero to one.
    pub open spec fn in_range(self) -> bool {
        !self.is_nan() && 0 <= self.rank() <= 0x3f80_0000
    }

    /// The number is larger than the other.
    pub open spec fn above(self, other: Self) -> bool {
        !self.is_nan() && !other.is_nan() && self.rank() > other.rank()
    }

    /// The number is the other or larger.
    pub open spec fn at_least(self, other: Self) -> bool {
        !self.is_nan() && !other.is_nan() && self.rank() >= other.rank()
    }

    /// Whether the number is in the range from zero to one.
    pub fn is_valid(self) -> (r: bool)
        ensures
            r == self.in_range(),
    {
        self.0 <= 0x3f80_0000 || self.0 == 0x8000_0000
    }

    /// Whether the number is larger than the other.
    pub fn exceeds(self, other: Self) -> (r: bool)
        ensures
            r == self.above(other),
    {
        let a: i64 = (self.0 % 0x8000_0000) as i64;
        let b: i64 = (other.0 % 0x8000_0000) as i64;
        if a > 0x7f80_0000 || b > 0x7f80_0000 {
            return false;
        }
        let x: i64 = if self.0 >= 0x8000_0000 {
            -a
        } else {
            a
        };
        let y: i64 = if other.0 >= 0x8000_0000 {
            -b
        } else {
            b
        };
        x > y
    }
}

impl Confidence {
    /// Whether the number is the other or larger.
    pub fn reaches(self, other: Self) -> (r: bool)
        ensures
            r == self.at_least(other),
    {
        if self.0 % 0x8000_0000 > 0x7f80_0000 || other.0 % 0x8000_0000 > 0x7f80_0000 {
            return false;
        }
        !other.exceeds(self)
    }
}

/// An entry of a glossary.
#[derive(Debug)]
pub struct GlossaryEntry {
    pub id: GlossaryEntryId,
    pub source: String,
    pub translation: Option<String>,
    pub kind: GlossaryKind,
    pub enabled: bool,
    pub confidence: Option<Confidence>,
    pub occurrence_count: u32,
    pub examples: Vec<String>,
    pub source_origin: GlossaryValueOrigin,
    pub translation_origin: Option<GlossaryValueOrigin>,
    pub present_in_last_scan: bool,
}

/// A glossary. The languages are tags such as `ja` or `pt-BR`.
#[derive(Debug)]
pub struct Glossary {
    pub enabled: bool,
    pub source_language: Option<String>,
    pub target_language: Option<String>,
    /// The fingerprint of the texts that the last scan read.
    pub source_fingerprint: Option<String>,
    pub entries: Vec<GlossaryEntry>,
}

/// What is wrong with an entry.
#[derive(Clone, Copy, Debug, PartialEq, Eq, Structural)]
pub enum EntryFault {
    Source,
    Translation,
    TooManyExamples,
    Example,
    Confidence,
}

/// What is wrong with a glossary.
#[derive(Clone, Copy, Debug, PartialEq, Eq, Structural)]
pub enum ModelFault {
    /// The entry at this place is wrong.
    Entry { index: usize, fault: EntryFault },
    /// The entry at this place has the name of one before it.
    DuplicateId(usize),
    /// The entry at this place has the source and kind of one before it.
    DuplicateSource(usize),
}

/// A text is short enough, holds no control character and, unless it may be blank, is not blank
/// once it is normalized.
pub open spec fn text_ok(s: Seq<char>, max_chars: nat, allow_empty: bool) -> bool {
    &&& s.len() <= max_chars
    &&& forall|i: int| 0 <= i < s.len() ==> !text::is_control(#[trigger] s[i])
    &&& allow_empty || normalize::source_form(s).len() > 0
}

/// What is wrong with an entry: its source, its translation, the number of its examples, an
/// example, its confidence, in that order.
pub open spec fn fault_of_entry(entry: GlossaryEntry) -> Option<EntryFault> {
    if !text_ok(entry.source@, GLOSSARY_TEXT_MAX_CHARS as nat, false) {
        Some(EntryFault::Source)
    } else if entry.translation matches Some(t) && !text_ok(
        t@,
        GLOSSARY_TEXT_MAX_CHARS as nat,
        true,
    ) {
        Some(EntryFault::Translation)
    } else if entry.examples@.len() > GLOSSARY_MAX_EXAMPLES {
        Some(EntryFault::TooManyExamples)
    } else if exists|i: int|
        0 <= i < entry.examples@.len() && !text_ok(
            (#[trigger] entry.examples@[i])@,
            GLOSSARY_EXAMPLE_MAX_CHARS as nat,
            true,
        ) {
        Some(EntryFault::Example)
    } else if entry.confidence matches Some(c) && !c.in_range() {
        Some(EntryFault::Confidence)
    } else {
        None
    }
}

/// The source and kind by which entries are told apart.
pub open spec fn key_of(entry: GlossaryEntry) -> (Seq<char>, GlossaryKind) {
    (normalize::source_form(entry.source@), entry.kind)
}

/// What is wrong with the entry at `i`, the ones before it being right.
pub open spec fn fault_at(entries: Seq<GlossaryEntry>, i: int) -> Option<ModelFault> {
    match fault_of_entry(entries[i]) {
        Some(fault) => Some(ModelFault::Entry { index: i as usize, fault }),
        None => if exists|j: int| 0 <= j < i && (#[trigger] entries[j]).id == entries[i].id {
            Some(ModelFault::DuplicateId(i as usize))
        } else if exists|j: int| 0 <= j < i && key_of(#[trigger] entries[j]) == key_of(entries[i]) {
            Some(ModelFault::DuplicateSource(i as usize))
        } else {
            None
        },
    }
}

/// The first of the first `n` entries that is wrong.
pub open spec fn first_fault(entries: Seq<GlossaryEntry>, n: nat) -> Option<ModelFault>
    decreases n,
{
    if n == 0 {
        None
    } else {
        match first_fault(entries, (n - 1) as nat) {
            Some(fault) => Some(fault),
            None => fault_at(entries, n - 1),
        }
    }
}

/// The first entry of the glossary that is wrong.
pub open spec fn model_fault(glossary: Glossary) -> Option<ModelFault> {
    first_fault(glossary.entries@, glossary.entries@.len())
}

proof fn lemma_fault_stays(entries: Seq<GlossaryEntry>, m: nat, n: nat)
    requires
        m <= n,
        first_fault(entries, m) is Some,
    ensures
        first_fault(entries, n) == first_fault(entries, m),
    decreases n,
{
    if m < n {
        lemma_fault_stays(entries, m, (n - 1) as nat);
    }
}

/// In a glossary without fault no two entries share a name, nor a source and kind.
pub proof fn lemma_valid_glossary(entries: Seq<GlossaryEntry>, n: nat)
    requires
        n <= entries.len(),
        first_fault(entries, n) is None,
    ensures
        forall|i: int| 0 <= i < n ==> fault_of_entry(#[trigger] entries[i]) is None,
        forall|i: int, j: int|
            0 <= i < j < n ==> (#[trigger] entries[i]).id != (#[trigger] entries[j]).id,
        forall|i: int, j: int|
            0 <= i < j < n ==> key_of(#[trigger] entries[i]) != key_of(#[trigger] entries[j]),
    decreases n,
{
    if n > 0 {
        lemma_valid_glossary(entries, (n - 1) as nat);
        assert(fault_at(entries, n - 1) is None);
    }
}

/// Entries that are right each for itself, and share no name, nor a source and kind, make a
/// glossary without fault.
pub proof fn lemma_no_fault(entries: Seq<GlossaryEntry>, n: nat)
    requires
        n <= entries.len(),
        forall|i: int| 0 <= i < n ==> fault_of_entry(#[trigger] entries[i]) is None,
        forall|i: int, j: int|
            0 <= i < j < n ==> (#[trigger] entries[i]).id != (#[trigger] entries[j]).id,
        forall|i: int, j: int|
            0 <= i < j < n ==> key_of(#[trigger] entries[i]) != key_of(#[trigger] entries[j]),
    ensures
        first_fault(entries, n) is None,
    decreases n,
{
    if n > 0 {
        lemma_no_fault(entries, (n - 1) as nat);
        assert(fault_of_entry(entries[n - 1]) is None);
    }
}

/// Whether a text may stand in a glossary.
pub fn valid_text(s: &str, max_chars: usize, allow_empty: bool) -> (r: bool)
    ensures
        r == text_ok(s@, max_chars as nat, allow_empty),
{
    let v = text::chars_of(s);
    if v.len() > max_chars {
        return false;
    }
    let mut i: usize = 0;
    while i < v.len()
        invariant
            v@ == s@,
            i <= v@.len(),
            forall|j: int| 0 <= j < i ==> !text::is_control(#[trigger] v@[j]),
        decreases v@.len() - i,
    {
        if text::control(v[i]) {
            assert(text::is_control(s@[i as int]));
            return false;
        }
        i += 1;
    }
    allow_empty || !normalize_glossary_source(s).as_str().is_empty()
}

impl GlossaryEntry {
    /// What is wrong with the entry.
    pub fn fault(&self) -> (r: Option<EntryFault>)
        ensures
            r == fault_of_entry(*self),
    {
        if !valid_text(self.source.as_str(), GLOSSARY_TEXT_MAX_CHARS, false) {
            return Some(EntryFault::Source);
        }
        match &self.translation {
            Some(translation) => {
                if !valid_text(translation.as_str(), GLOSSARY_TEXT_MAX_CHARS, true) {
                    return Some(EntryFault::Translation);
                }
            },
            None => {},
        }
        if self.examples.len() > GLOSSARY_MAX_EXAMPLES {
            return Some(EntryFault::TooManyExamples);
        }
        let mut i: usize = 0;
        while i < self.examples.len()
            invariant
                i <= self.examples@.len() <= GLOSSARY_MAX_EXAMPLES,
                text_ok(self.source@, GLOSSARY_TEXT_MAX_CHARS as nat, false),
                self.translation matches Some(t) ==> text_ok(
                    t@,
                    GLOSSARY_TEXT_MAX_CHARS as nat,
                    true,
                ),
                forall|j: int|
                    0 <= j < i ==> text_ok(
                        (#[trigger] self.examples@[j])@,
                        GLOSSARY_EXAMPLE_MAX_CHARS as nat,
                        true,
                    ),
            decreases self.examples@.len() - i,
        {
            if !valid_text(self.examples[i].as_str(), GLOSSARY_EXAMPLE_MAX_CHARS, true) {
                return Some(EntryFault::Example);
            }
            i += 1;
        }
        match self.confidence {
            Some(confidence) => {
                if !confidence.is_valid() {
                    return Some(EntryFault::Confidence);
                }
            },
            None => {},
        }
        None
    }
}

/// Whether an entry before `i` has its source and kind.
fn repeats_key(entries: &Vec<GlossaryEntry>, i: usize) -> (r: bool)
    requires
        i < entries@.len(),
    ensures
        r == exists|j: int|
            0 <= j < i && key_of(#[trigger] entries@[j]) == key_of(entries@[i as int]),
{
    let key = normalize_glossary_source(entries[i].source.as_str());
    let mut j: usize = 0;
    while j < i
        invariant
            j <= i < entries@.len(),
            key@ == normalize::source_form(entries@[i as int].source@),
            forall|k: int| 0 <= k < j ==> key_of(#[trigger] entries@[k]) != key_of(entries@[i as int]),
        decreases i - j,
    {
        if entries[j].kind == entries[i].kind {
            let other = normalize_glossary_source(entries[j].source.as_str());
            if text::same(other.as_str(), key.as_str()) {
                assert(key_of(entries@[j as int]) == key_of(entries@[i as int]));
                return true;
            }
        }
        j += 1;
    }
    false
}

/// Whether an entry before `i` has its name.
fn repeats_id(entries: &Vec<GlossaryEntry>, i: usize) -> (r: bool)
    requires
        i < entries@.len(),
    ensures
        r == exists|j: int| 0 <= j < i && (#[trigger] entries@[j]).id == entries@[i as int].id,
{
    let mut j: usize = 0;
    while j < i
        invariant
            j <= i < entries@.len(),
            forall|k: int| 0 <= k < j ==> (#[trigger] entries@[k]).id != entries@[i as int].id,
        decreases i - j,
    {
        if entries[j].id == entries[i].id {
            return true;
        }
        j += 1;
    }
    false
}

impl Glossary {
    /// A glossary that is off and has no entries.
    pub fn empty() -> (r: Self)
        ensures
            !r.enabled,
            r.source_language is None,
            r.target_language is None,
            r.source_fingerprint is None,
            r.entries@.len() == 0,
    {
        Glossary {
            enabled: false,
            source_language: None,
            target_language: None,
            source_fingerprint: None,
            entries: Vec::new(),
        }
    }

    /// Checks the entries.
    pub fn validate(&self) -> (r: Result<(), ModelFault>)
        ensures
            r == (match model_fault(*self) {
                Some(fault) => Err::<(), ModelFault>(fault),
                None => Ok(()),
            }),
    {
        let mut i: usize = 0;
        while i < self.entries.len()
            invariant
                i <= self.entries@.len(),
                first_fault(self.entries@, i as nat) is None,
            decreases self.entries@.len() - i,
        {
            let found: Option<ModelFault> = match self.entries[i].fault() {
                Some(fault) => Some(ModelFault::Entry { index: i, fault }),
                None => if repeats_id(&self.entries, i) {
                    Some(ModelFault::DuplicateId(i))
                } else if repeats_key(&self.entries, i) {
                    Some(ModelFault::DuplicateSource(i))
                } else {
                    None
                },
            };
            assert(found == fault_at(self.entries@, i as int));
            match found {
                Some(fault) => {
                    proof {
                        lemma_fault_stays(self.entries@, (i + 1) as nat, self.entries@.len());
                    }
                    return Err(fault);
                },
                None => {},
            }
            i += 1;
        }
        Ok(())
    }
}

impl EntryFault {
    /// What is said of the fault.
    pub open spec fn says(self) -> Seq<char> {
        match self {
            EntryFault::Source => "glossary source is invalid"@,
            EntryFault::Translation => "glossary translation is invalid"@,
            EntryFault::TooManyExamples => "glossary entry has too many examples"@,
            EntryFault::Example => "glossary example is invalid"@,
            EntryFault::Confidence => "glossary confidence is invalid"@,
        }
    }

    /// What is said of the fault.
    pub fn message(self) -> (r: &'static str)
        ensures
            r@ == self.says(),
    {
        match self {
            EntryFault::Source => "glossary source is invalid",
            EntryFault::Translation => "glossary translation is invalid",
            EntryFault::TooManyExamples => "glossary entry has too many examples",
            EntryFault::Example => "glossary example is invalid",
            EntryFault::Confidence => "glossary confidence is invalid",
        }
    }
}

impl ModelFault {
    /// What is said of the fault.
    pub open spec fn says(self) -> Seq<char> {
        match self {
            ModelFault::Entry { fault, .. } => fault.says(),
            ModelFault::DuplicateId(_) => "glossary entry IDs contain duplicates"@,
            ModelFault::DuplicateSource(_) =>
                "glossary source and kind combinations contain duplicates"@,
        }
    }

    /// What is said of the fault.
    pub fn message(self) -> (r: &'static str)
        ensures
            r@ == self.says(),
    {
        match self {
            ModelFault::Entry { fault, .. } => fault.message(),
            ModelFault::DuplicateId(_) => "glossary entry IDs contain duplicates",
            ModelFault::DuplicateSource(_) =>
                "glossary source and kind combinations contain duplicates",
        }
    }
}

/// A confidence is in range where its bits write a number from zero to one, the negative zero being
/// one of them; and of two in range, neither that zero, the one with the larger bits is larger.
pub proof fn lemma_confidence(a: Confidence, b: Confidence)
    ensures
        a.in_range() <==> a.0 <= 0x3f80_0000 || a.0 == 0x8000_0000,
        a.0 <= 0x3f80_0000 && b.0 <= 0x3f80_0000 ==> (a.above(b) <==> a.0 > b.0),
        a.0 <= 0x3f80_0000 && b.0 <= 0x3f80_0000 ==> (a.at_least(b) <==> a.0 >= b.0),
        a.0 > 0x7f80_0000 && a.0 < 0x8000_0000 ==> !a.above(b) && !b.above(a) && !a.at_least(b)
            && !b.at_least(a),
        a.above(b) ==> !b.at_least(a),
{
}

/// What an entry without fault is, and all that it is: its source is more than blanks once it is
/// normalized; source and translation have 256 characters at most; it has three examples at most, of
/// 512 characters at most; none of these texts holds a control character; and its confidence, where
/// it has one, is a number from zero to one.
pub proof fn lemma_entry_without_fault(entry: GlossaryEntry)
    ensures
        fault_of_entry(entry) is None <==> {
            &&& normalize::source_form(entry.source@).len() > 0
            &&& entry.source@.len() <= 256
            &&& forall|i: int|
                0 <= i < entry.source@.len() ==> !text::is_control(#[trigger] entry.source@[i])
            &&& entry.translation is Some ==> entry.translation->0@.len()
                <= 256 && forall|i: int|
                0 <= i < entry.translation->0@.len() ==> !text::is_control(
                    #[trigger] entry.translation->0@[i],
                )
            &&& entry.examples@.len() <= 3
            &&& forall|k: int|
                0 <= k < entry.examples@.len() ==> (#[trigger] entry.examples@[k])@.len()
                    <= 512 && forall|i: int|
                    0 <= i < entry.examples@[k]@.len() ==> !text::is_control(
                        #[trigger] entry.examples@[k]@[i],
                    )
            &&& (entry.confidence matches Some(c) ==> c.0 <= 0x3f80_0000 || c.0 == 0x8000_0000)
        },
{
}

} // verus!
