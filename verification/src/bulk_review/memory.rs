//! The terms that one batch hands on to the next.
use crate::text;
use crate::text_map::TextMap;
use vstd::prelude::*;

verus! {

/// How many bytes of memory a prompt carries.
pub const MAX_MEMORY_BYTES: usize = 4096;

/// A term to remember, or to remember anew.
pub struct MemoryUpdate {
    pub key: String,
    pub value: String,
}

/// Decisions on terms that hold for the rest of a job.
pub struct TranslationMemory {
    entries: TextMap<String>,
}

/// A term and what was decided on it.
pub struct Note {
    pub key: Seq<char>,
    pub value: Seq<char>,
}

impl Note {
    /// How many bytes the line of a note takes: its own, and two for what separates key and value.
    pub open spec fn size(self) -> nat {
        vstd::utf8::encode_utf8(self.key).len() + vstd::utf8::encode_utf8(self.value).len() + 2
    }

    /// The note as a line of the prompt.
    pub open spec fn line(self) -> Seq<char> {
        self.key + ": "@ + self.value
    }
}

/// How many bytes the lines of the notes take, with a line break between two.
pub open spec fn total_size(notes: Seq<Note>) -> nat
    decreases notes.len(),
{
    if notes.len() == 0 {
        0
    } else {
        let line_break: nat = if notes.len() > 1 {
            1
        } else {
            0
        };
        total_size(notes.drop_last()) + line_break + notes.last().size()
    }
}

/// The notes that stay under a limit: each in turn, where there is still room for all of it.
pub open spec fn kept(notes: Seq<Note>, limit: nat) -> Seq<Note>
    decreases notes.len(),
{
    if notes.len() == 0 {
        notes
    } else {
        let k = kept(notes.drop_last(), limit);
        if total_size(k.push(notes.last())) > limit {
            k
        } else {
            k.push(notes.last())
        }
    }
}

/// The notes are those of a map, each key once and in order.
pub open spec fn are_notes_of(notes: Seq<Note>, map: Map<Seq<char>, Seq<char>>) -> bool {
    &&& forall|i: int, j: int|
        0 <= i < j < notes.len() ==> text::text_lt(
            (#[trigger] notes[i]).key,
            (#[trigger] notes[j]).key,
        )
    &&& forall|i: int|
        0 <= i < notes.len() ==> map.contains_key((#[trigger] notes[i]).key)
            && map[notes[i].key] == notes[i].value
    &&& forall|k: Seq<char>| #[trigger]
        map.contains_key(k) ==> exists|i: int| 0 <= i < notes.len() && (#[trigger] notes[i]).key == k
}

/// The notes are what stays under a limit of those of a map.
pub open spec fn are_kept_of(
    notes: Seq<Note>,
    map: Map<Seq<char>, Seq<char>>,
    limit: nat,
) -> bool {
    exists|whole: Seq<Note>| #[trigger] are_notes_of(whole, map) && notes == kept(whole, limit)
}

/// The map after the updates, in their order; one without a key is passed over.
pub open spec fn updated(
    map: Map<Seq<char>, Seq<char>>,
    updates: Seq<MemoryUpdate>,
) -> Map<Seq<char>, Seq<char>>
    decreases updates.len(),
{
    if updates.len() == 0 {
        map
    } else {
        let m = updated(map, updates.drop_last());
        if updates.last().key@.len() == 0 {
            m
        } else {
            m.insert(updates.last().key@, updates.last().value@)
        }
    }
}

impl TranslationMemory {
    pub closed spec fn wf(self) -> bool {
        self.entries.wf()
    }

    /// What was decided on each term.
    pub closed spec fn map(self) -> Map<Seq<char>, Seq<char>> {
        self.entries@.map_values(|v: String| v@)
    }

    /// The notes in the order of their keys.
    pub closed spec fn notes(self) -> Seq<Note> {
        Seq::new(
            self.entries.order().len(),
            |i: int|
                Note {
                    key: self.entries.order()[i],
                    value: self.entries@[self.entries.order()[i]]@,
                },
        )
    }

    /// The notes are those of the map, each key once and in order.
    pub proof fn lemma_notes(self)
        requires
            self.wf(),
        ensures
            are_notes_of(self.notes(), self.map()),
    {
        self.entries.lemma_order();
        let order = self.entries.order();
        assert forall|i: int| 0 <= i < self.notes().len() implies self.map().contains_key(
            (#[trigger] self.notes()[i]).key,
        ) && self.map()[self.notes()[i].key] == self.notes()[i].value by {
            assert(order.contains(order[i]));
        }
        assert forall|k: Seq<char>| #[trigger] self.map().contains_key(k) implies exists|i: int|
            0 <= i < self.notes().len() && (#[trigger] self.notes()[i]).key == k by {
            assert(self.entries@.contains_key(k));
            assert(order.contains(k));
            let i = choose|i: int| 0 <= i < order.len() && order[i] == k;
            assert(self.notes()[i].key == k);
        }
    }

    /// A memory without notes.
    pub fn new() -> (r: Self)
        ensures
            r.wf(),
            r.map() == Map::<Seq<char>, Seq<char>>::empty(),
            r.notes() == Seq::<Note>::empty(),
    {
        let r = TranslationMemory { entries: TextMap::new() };
        proof {
            use_type_invariant(&r.entries);
        }
        assert(r.map() =~= Map::empty());
        assert(r.notes() =~= Seq::empty());
        r
    }

    /// Whether there is no note.
    pub fn is_empty(&self) -> (r: bool)
        ensures
            r == (self.notes().len() == 0),
    {
        self.entries.len() == 0
    }

    /// A memory with the same notes.
    pub fn copy(&self) -> (r: Self)
        requires
            self.wf(),
        ensures
            r.wf(),
            r.map() == self.map(),
    {
        let mut entries: TextMap<String> = TextMap::new();
        let mut i: usize = 0;
        let ghost order = self.entries.order();
        while i < self.entries.len()
            invariant
                order == self.entries.order(),
                i <= order.len(),
                self.wf(),
                forall|k: Seq<char>| #[trigger]
                    entries@.contains_key(k) <==> order.take(i as int).contains(k),
                forall|k: Seq<char>| #[trigger]
                    entries@.contains_key(k) ==> self.entries@.contains_key(k) && entries@[k]@
                        == self.entries@[k]@,
            decreases order.len() - i,
        {
            let (key, value) = self.entries.entry(i);
            let ghost before = entries@;
            entries = entries.with(key.to_owned(), value.clone());
            proof {
                let t = order.take(i as int);
                let u = order.take(i + 1);
                assert(u =~= t.push(order[i as int]));
                assert forall|k: Seq<char>| #[trigger] entries@.contains_key(k) <==> u.contains(
                    k,
                ) by {
                    if t.contains(k) {
                        let j = choose|j: int| 0 <= j < t.len() && t[j] == k;
                        assert(u[j] == k);
                    }
                    if u.contains(k) && k != order[i as int] {
                        let j = choose|j: int| 0 <= j < u.len() && u[j] == k;
                        assert(t[j] == k);
                    }
                    if k == order[i as int] {
                        assert(u[i as int] == k);
                    }
                    assert(entries@.contains_key(k) <==> before.contains_key(k) || k
                        == order[i as int]);
                }
            }
            i += 1;
        }
        let r = TranslationMemory { entries };
        proof {
            use_type_invariant(&r.entries);
            self.entries.lemma_order();
            assert(order.take(i as int) =~= order);
            assert forall|k: Seq<char>| #[trigger] r.map().contains_key(k) <==> self.map().contains_key(
                k,
            ) by {
                assert(entries@.contains_key(k) <==> order.contains(k));
                assert(self.entries@.contains_key(k) <==> order.contains(k));
            }
            assert(r.map() =~= self.map());
        }
        r
    }

    /// Adds each update, or puts it in the place of what its key had, and keeps what fits under
    /// [`MAX_MEMORY_BYTES`].
    pub fn apply_updates(self, updates: Vec<MemoryUpdate>) -> (r: Self)
        requires
            self.wf(),
        ensures
            r.wf(),
            are_kept_of(r.notes(), updated(self.map(), updates@), MAX_MEMORY_BYTES as nat),
            vstd::utf8::encode_utf8(serialized(r.notes())).len() <= MAX_MEMORY_BYTES,
    {
        let ghost before = self.map();
        let mut entries = self.entries;
        let mut i: usize = 0;
        assert(updates@.take(0) =~= Seq::empty());
        while i < updates.len()
            invariant
                i <= updates@.len(),
                entries@.map_values(|v: String| v@) == updated(before, updates@.take(i as int)),
            decreases updates@.len() - i,
        {
            let update = &updates[i];
            proof {
                assert(updates@.take(i + 1).drop_last() =~= updates@.take(i as int));
                assert(updates@.take(i + 1).last() == updates@[i as int]);
            }
            if !update.key.as_str().is_empty() {
                let ghost was = entries@;
                let value = update.value.clone();
                entries = entries.with(update.key.clone(), value);
                assert(entries@.map_values(|v: String| v@) =~= was.map_values(
                    |v: String| v@,
                ).insert(update.key@, value@));
            }
            i += 1;
        }
        assert(updates@.take(i as int) =~= updates@);
        let whole = TranslationMemory { entries };
        proof {
            use_type_invariant(&whole.entries);
            whole.lemma_notes();
        }
        whole.bounded(MAX_MEMORY_BYTES)
    }

    /// The notes as lines of a prompt, in the order of their keys.
    pub fn serialize(&self) -> (r: String)
        requires
            self.wf(),
        ensures
            r@ == serialized(self.notes()),
    {
        let mut lines: Vec<String> = Vec::new();
        let mut i: usize = 0;
        while i < self.entries.len()
            invariant
                i <= self.entries.order().len(),
                lines@.len() == i,
                forall|j: int| 0 <= j < i ==> (#[trigger] lines@[j])@ == self.notes()[j].line(),
            decreases self.entries.order().len() - i,
        {
            let (key, value) = self.entries.entry(i);
            let mut line = text::joined(key, ": ");
            line.append(value.as_str());
            lines.push(line);
            i += 1;
        }
        assert(text::texts(lines@) =~= Seq::new(
            self.notes().len(),
            |i: int| self.notes()[i].line(),
        ));
        text::join_all(&lines, "\n")
    }

    /// Keeps the notes, in the order of their keys, that fit whole under `max_bytes`.
    pub fn bounded(self, max_bytes: usize) -> (r: Self)
        requires
            self.wf(),
        ensures
            r.wf(),
            r.notes() == kept(self.notes(), max_bytes as nat),
            vstd::utf8::encode_utf8(serialized(r.notes())).len() <= max_bytes,
    {
        let ghost notes = self.notes();
        let mut entries: TextMap<String> = TextMap::new();
        let ghost mut out: Seq<Note> = Seq::empty();
        let mut size: usize = 0;
        let mut i: usize = 0;
        let ghost limit = max_bytes as nat;
        assert(notes.take(0) =~= Seq::empty());
        proof {
            self.lemma_notes();
        }
        while i < self.entries.len()
            invariant
                self.wf(),
                notes == self.notes(),
                limit == max_bytes,
                i <= notes.len() == self.entries.order().len(),
                out == kept(notes.take(i as int), limit),
                size == total_size(out),
                size <= max_bytes,
                entries.order().len() == out.len(),
                forall|j: int| 0 <= j < out.len() ==> entries@.contains_key((#[trigger] out[j]).key)
                    && entries@[out[j].key]@ == out[j].value,
                forall|k: Seq<char>| #[trigger]
                    entries@.contains_key(k) ==> exists|j: int|
                        0 <= j < out.len() && (#[trigger] out[j]).key == k,
                forall|a: int, b: int|
                    0 <= a < b < notes.len() ==> text::text_lt(
                        (#[trigger] notes[a]).key,
                        (#[trigger] notes[b]).key,
                    ),
                i < notes.len() ==> forall|j: int|
                    0 <= j < out.len() ==> text::text_lt((#[trigger] out[j]).key, notes[i as int].key),
                forall|a: int, b: int|
                    0 <= a < b < out.len() ==> text::text_lt(
                        (#[trigger] out[a]).key,
                        (#[trigger] out[b]).key,
                    ),
            decreases notes.len() - i,
        {
            let (key, value) = self.entries.entry(i);
            let ghost note = notes[i as int];
            proof {
                assert(notes.take(i + 1).drop_last() =~= notes.take(i as int));
                assert(notes.take(i + 1).last() == note);
            }
            let line_break: u128 = if entries.len() > 0 {
                1
            } else {
                0
            };
            let entry_size: u128 = line_break + text::byte_len(key) as u128 + text::byte_len(
                value.as_str(),
            ) as u128 + 2;
            assert(out.push(note).drop_last() =~= out);
            assert(total_size(out.push(note)) == size + entry_size);
            let ghost was = out;
            if size as u128 + entry_size <= max_bytes as u128 {
                let value = value.clone();
                let ghost before = entries@;
                proof {
                    if before.contains_key(note.key) {
                        let j = choose|j: int|
                            0 <= j < out.len() && (#[trigger] out[j]).key == note.key;
                        assert(text::text_lt(out[j].key, note.key));
                    }
                }
                entries = entries.with(key.to_owned(), value);
                size = size + entry_size as usize;
                proof {
                    out = out.push(note);
                    assert(out.drop_last() =~= was);
                    assert forall|k: Seq<char>| #[trigger] entries@.contains_key(k) implies exists|
                        j: int,
                    |
                        0 <= j < out.len() && (#[trigger] out[j]).key == k by {
                        if k == note.key {
                            assert(out[out.len() - 1].key == k);
                        } else {
                            let j = choose|j: int| 0 <= j < was.len() && (#[trigger] was[j]).key == k;
                            assert(out[j].key == k);
                        }
                    }
                    assert forall|j: int| 0 <= j < out.len() implies entries@.contains_key(
                        (#[trigger] out[j]).key,
                    ) && entries@[out[j].key]@ == out[j].value by {
                        if j < was.len() {
                            assert(out[j] == was[j]);
                            assert(text::text_lt(was[j].key, note.key));
                        }
                    }
                }
            }
            proof {
                if i + 1 < notes.len() {
                    assert forall|j: int| 0 <= j < out.len() implies text::text_lt(
                        (#[trigger] out[j]).key,
                        notes[i + 1].key,
                    ) by {
                        assert(text::text_lt(note.key, notes[i + 1].key));
                        if j < was.len() {
                            assert(text::text_lt(was[j].key, note.key));
                            text::lemma_text_le_transitive(
                                was[j].key,
                                note.key,
                                notes[i + 1].key,
                            );
                            text::lemma_text_le_total(was[j].key, note.key);
                        }
                    }
                }
            }
            i += 1;
        }
        let r = TranslationMemory { entries };
        proof {
            use_type_invariant(&r.entries);
            assert(notes.take(i as int) =~= notes);
            r.lemma_notes();
            lemma_same_notes(r, out);
            lemma_kept_fits(notes, limit);
            lemma_serialized_bytes(out);
        }
        r
    }
}

/// Notes with increasing keys that agree with a memory's map are the notes of the memory.
proof fn lemma_same_notes(memory: TranslationMemory, notes: Seq<Note>)
    requires
        memory.wf(),
        memory.notes().len() == notes.len(),
        forall|j: int|
            0 <= j < notes.len() ==> memory.map().contains_key((#[trigger] notes[j]).key)
                && memory.map()[notes[j].key] == notes[j].value,
        forall|a: int, b: int|
            0 <= a < b < notes.len() ==> text::text_lt(
                (#[trigger] notes[a]).key,
                (#[trigger] notes[b]).key,
            ),
    ensures
        memory.notes() == notes,
{
    memory.lemma_notes();
    let own = memory.notes();
    assert forall|i: int| 0 <= i < notes.len() implies own[i] == notes[i] by {
        lemma_same_notes_at(memory, notes, i);
    }
    assert(own =~= notes);
}

proof fn lemma_same_notes_at(memory: TranslationMemory, notes: Seq<Note>, i: int)
    requires
        memory.wf(),
        memory.notes().len() == notes.len(),
        0 <= i < notes.len(),
        forall|j: int|
            0 <= j < notes.len() ==> memory.map().contains_key((#[trigger] notes[j]).key)
                && memory.map()[notes[j].key] == notes[j].value,
        forall|a: int, b: int|
            0 <= a < b < notes.len() ==> text::text_lt(
                (#[trigger] notes[a]).key,
                (#[trigger] notes[b]).key,
            ),
    ensures
        memory.notes()[i] == notes[i],
{
    memory.lemma_notes();
    let own = memory.notes();
    // The place of the i-th note in the memory's own order can be neither before nor after i.
    let places = Seq::new(
        notes.len(),
        |j: int| choose|p: int| 0 <= p < own.len() && (#[trigger] own[p]).key == notes[j].key,
    );
    assert forall|j: int| 0 <= j < notes.len() implies 0 <= #[trigger] places[j] < own.len()
        && own[places[j]].key == notes[j].key by {
        assert(memory.map().contains_key(notes[j].key));
    }
    assert forall|a: int, b: int| 0 <= a < b < notes.len() implies #[trigger] places[a]
        < #[trigger] places[b] by {
        assert(text::text_lt(notes[a].key, notes[b].key));
        if places[b] < places[a] {
            assert(text::text_lt(own[places[b]].key, own[places[a]].key));
            text::lemma_text_le_total(notes[a].key, notes[b].key);
        }
    }
    lemma_increasing_places(places, own.len() as int, i);
    assert(own[places[i]].key == notes[i].key);
    assert(places[i] == i);
}

/// Increasing places that are as many as there are stand each at its own.
proof fn lemma_increasing_places(places: Seq<int>, n: int, i: int)
    requires
        places.len() == n,
        0 <= i < n,
        forall|j: int| 0 <= j < n ==> 0 <= #[trigger] places[j] < n,
        forall|a: int, b: int| 0 <= a < b < n ==> #[trigger] places[a] < #[trigger] places[b],
    ensures
        places[i] == i,
{
    lemma_place_at_least(places, n, i);
    lemma_place_at_most(places, n, i);
}

proof fn lemma_place_at_least(places: Seq<int>, n: int, i: int)
    requires
        places.len() == n,
        0 <= i < n,
        forall|j: int| 0 <= j < n ==> 0 <= #[trigger] places[j] < n,
        forall|a: int, b: int| 0 <= a < b < n ==> #[trigger] places[a] < #[trigger] places[b],
    ensures
        places[i] >= i,
    decreases i,
{
    if i > 0 {
        lemma_place_at_least(places, n, i - 1);
        assert(places[i - 1] < places[i]);
    }
}

proof fn lemma_place_at_most(places: Seq<int>, n: int, i: int)
    requires
        places.len() == n,
        0 <= i < n,
        forall|j: int| 0 <= j < n ==> 0 <= #[trigger] places[j] < n,
        forall|a: int, b: int| 0 <= a < b < n ==> #[trigger] places[a] < #[trigger] places[b],
    ensures
        places[i] <= i,
    decreases n - i,
{
    if i < n - 1 {
        lemma_place_at_most(places, n, i + 1);
        assert(places[i] < places[i + 1]);
    }
}

/// What is kept stays under the limit.
pub proof fn lemma_kept_fits(notes: Seq<Note>, limit: nat)
    ensures
        total_size(kept(notes, limit)) <= limit,
        kept(notes, limit).len() <= notes.len(),
        forall|i: int|
            0 <= i < kept(notes, limit).len() ==> notes.contains(#[trigger] kept(notes, limit)[i]),
    decreases notes.len(),
{
    if notes.len() > 0 {
        lemma_kept_fits(notes.drop_last(), limit);
        let k = kept(notes.drop_last(), limit);
        let r = kept(notes, limit);
        if r != k {
            assert(r.drop_last() =~= k);
        }
        assert forall|i: int| 0 <= i < r.len() implies notes.contains(#[trigger] r[i]) by {
            if i < k.len() {
                assert(r[i] == k[i]);
                let j = choose|j: int| 0 <= j < notes.drop_last().len() && notes.drop_last()[j] == k[i];
                assert(notes[j] == r[i]);
            } else {
                assert(notes[notes.len() - 1] == r[i]);
            }
        }
    }
}

/// A memory under its limit loses nothing.
pub proof fn lemma_kept_all(notes: Seq<Note>, limit: nat)
    requires
        total_size(notes) <= limit,
    ensures
        kept(notes, limit) == notes,
    decreases notes.len(),
{
    if notes.len() > 0 {
        lemma_kept_all(notes.drop_last(), limit);
        assert(notes.drop_last().push(notes.last()) =~= notes);
    }
}

/// Bounding a memory twice by one limit is bounding it once.
pub proof fn lemma_kept_twice(notes: Seq<Note>, limit: nat)
    ensures
        kept(kept(notes, limit), limit) == kept(notes, limit),
{
    lemma_kept_fits(notes, limit);
    lemma_kept_all(kept(notes, limit), limit);
}

proof fn lemma_listings_agree(
    a: Seq<Note>,
    b: Seq<Note>,
    map: Map<Seq<char>, Seq<char>>,
    n: int,
)
    requires
        are_notes_of(a, map),
        are_notes_of(b, map),
        0 <= n <= a.len(),
    ensures
        n <= b.len(),
        a.take(n) == b.take(n),
    decreases n,
{
    if n > 0 {
        let i = n - 1;
        lemma_listings_agree(a, b, map, i);
        assert forall|m: int| 0 <= m < i implies a[m] == b[m] by {
            assert(a.take(i)[m] == b.take(i)[m]);
        }
        assert(map.contains_key(a[i].key));
        let j = choose|j: int| 0 <= j < b.len() && (#[trigger] b[j]).key == a[i].key;
        if j < i {
            assert(text::text_lt(a[j].key, a[i].key));
        }
        assert(map.contains_key(b[i].key));
        let k = choose|k: int| 0 <= k < a.len() && (#[trigger] a[k]).key == b[i].key;
        if k < i {
            assert(text::text_lt(b[k].key, b[i].key));
        }
        if j > i {
            assert(text::text_lt(b[i].key, b[j].key));
            if k > i {
                assert(text::text_lt(a[i].key, a[k].key));
            }
            text::lemma_text_le_total(a[i].key, b[i].key);
        }
        assert(a[i] == b[i]);
        assert(a.take(n) =~= b.take(n));
    } else {
        assert(a.take(0) =~= b.take(0));
    }
}

/// A map has one list of notes, so what stays of it under a limit is one list too.
pub proof fn lemma_one_listing(
    a: Seq<Note>,
    b: Seq<Note>,
    map: Map<Seq<char>, Seq<char>>,
    limit: nat,
)
    ensures
        are_notes_of(a, map) && are_notes_of(b, map) ==> a == b,
        are_kept_of(a, map, limit) && are_kept_of(b, map, limit) ==> a == b,
{
    assert forall|x: Seq<Note>, y: Seq<Note>|
        #![trigger are_notes_of(x, map), are_notes_of(y, map)]
        are_notes_of(x, map) && are_notes_of(y, map) implies x == y by {
        lemma_listings_agree(x, y, map, x.len() as int);
        lemma_listings_agree(y, x, map, y.len() as int);
        assert(x.take(x.len() as int) =~= x);
        assert(y.take(y.len() as int) =~= y);
    }
}

/// What the updates say of a key: the last value that they give it, or what it had. One without a key
/// says nothing.
pub open spec fn value_after(
    map: Map<Seq<char>, Seq<char>>,
    updates: Seq<MemoryUpdate>,
    key: Seq<char>,
) -> Option<Seq<char>>
    decreases updates.len(),
{
    if updates.len() == 0 {
        if map.contains_key(key) {
            Some(map[key])
        } else {
            None
        }
    } else if updates.last().key@ == key && key.len() > 0 {
        Some(updates.last().value@)
    } else {
        value_after(map, updates.drop_last(), key)
    }
}

/// For each key the last update that names it counts, a key that none names keeps what it had, and
/// updates without a key have no effect.
pub proof fn lemma_last_update_counts(
    map: Map<Seq<char>, Seq<char>>,
    updates: Seq<MemoryUpdate>,
    key: Seq<char>,
)
    ensures
        updated(map, updates).contains_key(key) == (value_after(map, updates, key) is Some),
        value_after(map, updates, key) matches Some(value) ==> updated(map, updates)[key] == value,
    decreases updates.len(),
{
    if updates.len() > 0 {
        lemma_last_update_counts(map, updates.drop_last(), key);
    }
}

proof fn lemma_updates_in_turn(
    map: Map<Seq<char>, Seq<char>>,
    a: Seq<MemoryUpdate>,
    b: Seq<MemoryUpdate>,
)
    ensures
        updated(updated(map, a), b) == updated(map, a + b),
    decreases b.len(),
{
    if b.len() == 0 {
        assert(a + b =~= a);
    } else {
        lemma_updates_in_turn(map, a, b.drop_last());
        assert((a + b).drop_last() =~= a + b.drop_last());
    }
}

proof fn lemma_listing_pins_map(
    notes: Seq<Note>,
    a: Map<Seq<char>, Seq<char>>,
    b: Map<Seq<char>, Seq<char>>,
)
    requires
        are_notes_of(notes, a),
        are_notes_of(notes, b),
    ensures
        a == b,
{
    assert forall|k: Seq<char>| a.contains_key(k) == b.contains_key(k) by {
        if a.contains_key(k) {
            let i = choose|i: int| 0 <= i < notes.len() && (#[trigger] notes[i]).key == k;
            assert(b.contains_key(notes[i].key));
        }
        if b.contains_key(k) {
            let i = choose|i: int| 0 <= i < notes.len() && (#[trigger] notes[i]).key == k;
            assert(a.contains_key(notes[i].key));
        }
    }
    assert forall|k: Seq<char>| a.contains_key(k) implies a[k] == b[k] by {
        let i = choose|i: int| 0 <= i < notes.len() && (#[trigger] notes[i]).key == k;
        assert(a[notes[i].key] == notes[i].value);
        assert(b[notes[i].key] == notes[i].value);
    }
    assert(a =~= b);
}

/// Two lists of updates in a row come to what both come to as one, while nothing has to go after the
/// first: `whole` is what it would leave without a limit.
pub proof fn lemma_updates_add_up(
    before: TranslationMemory,
    a: Seq<MemoryUpdate>,
    between: TranslationMemory,
    b: Seq<MemoryUpdate>,
    after: TranslationMemory,
    whole: Seq<Note>,
)
    requires
        between.wf(),
        are_notes_of(whole, updated(before.map(), a)),
        total_size(whole) <= MAX_MEMORY_BYTES,
        are_kept_of(between.notes(), updated(before.map(), a), MAX_MEMORY_BYTES as nat),
        are_kept_of(after.notes(), updated(between.map(), b), MAX_MEMORY_BYTES as nat),
    ensures
        are_kept_of(after.notes(), updated(before.map(), a + b), MAX_MEMORY_BYTES as nat),
{
    let limit = MAX_MEMORY_BYTES as nat;
    let first = updated(before.map(), a);
    lemma_kept_all(whole, limit);
    assert(are_kept_of(whole, first, limit));
    lemma_one_listing(between.notes(), whole, first, limit);
    between.lemma_notes();
    lemma_listing_pins_map(whole, first, between.map());
    lemma_updates_in_turn(before.map(), a, b);
}

/// The notes as lines, one newline between two.
pub open spec fn serialized(notes: Seq<Note>) -> Seq<char> {
    text::join(Seq::new(notes.len(), |i: int| notes[i].line()), "\n"@)
}

/// The text of a memory takes as many bytes as its notes in all.
pub proof fn lemma_serialized_bytes(notes: Seq<Note>)
    ensures
        vstd::utf8::encode_utf8(serialized(notes)).len() == total_size(notes),
    decreases notes.len(),
{
    let lines = Seq::new(notes.len(), |i: int| notes[i].line());
    if notes.len() > 0 {
        reveal_strlit(": ");
        reveal_strlit("\n");
        let note = notes.last();
        text::lemma_bytes_of_ascii(": "@);
        text::lemma_bytes_of_ascii("\n"@);
        text::lemma_bytes_of_concat(note.key, ": "@);
        text::lemma_bytes_of_concat(note.key + ": "@, note.value);
        assert(vstd::utf8::encode_utf8(note.line()).len() == note.size());
        if notes.len() == 1 {
            assert(lines[0] == note.line());
            assert(total_size(notes.drop_last()) == 0);
        } else {
            lemma_serialized_bytes(notes.drop_last());
            let rest = Seq::new(notes.drop_last().len(), |i: int| notes.drop_last()[i].line());
            assert(lines.drop_last() =~= rest);
            assert(lines.last() == note.line());
            text::lemma_bytes_of_concat(text::join(rest, "\n"@), "\n"@);
            text::lemma_bytes_of_concat(text::join(rest, "\n"@) + "\n"@, note.line());
        }
    }
}

/// A note is dropped only where there is no room for it: one that is not kept would take the notes
/// that are kept over the limit.
pub proof fn lemma_dropped_for_want_of_room(notes: Seq<Note>, limit: nat, i: int)
    requires
        0 <= i < notes.len(),
    ensures
        kept(notes, limit).contains(notes[i]) || total_size(kept(notes, limit)) + 1
            + vstd::utf8::encode_utf8(notes[i].key).len() + 2 + vstd::utf8::encode_utf8(
            notes[i].value,
        ).len() > limit,
    decreases notes.len(),
{
    let head = notes.drop_last();
    let k = kept(head, limit);
    let r = kept(notes, limit);
    let next = k.push(notes.last());
    assert(next.drop_last() =~= k);
    if i < notes.len() - 1 {
        lemma_dropped_for_want_of_room(head, limit, i);
        assert(head[i] == notes[i]);
        if k.contains(notes[i]) {
            let q = choose|q: int| 0 <= q < k.len() && k[q] == notes[i];
            assert(r[q] == notes[i]);
        }
    } else if r == next {
        assert(r[k.len() as int] == notes[i]);
    }
}

/// An update more is what its key has from then on, and changes no other key; one without a key
/// changes nothing.
pub proof fn lemma_an_update_more(
    map: Map<Seq<char>, Seq<char>>,
    updates: Seq<MemoryUpdate>,
    update: MemoryUpdate,
    key: Seq<char>,
)
    ensures
        updated(map, Seq::empty()) == map,
        update.key@.len() > 0 ==> {
            &&& updated(map, updates.push(update)).contains_key(update.key@)
            &&& updated(map, updates.push(update))[update.key@] == update.value@
        },
        key != update.key@ || key.len() == 0 ==> {
            &&& updated(map, updates.push(update)).contains_key(key) == updated(
                map,
                updates,
            ).contains_key(key)
            &&& updated(map, updates).contains_key(key) ==> updated(map, updates.push(update))[key]
                == updated(map, updates)[key]
        },
{
    assert(updates.push(update).drop_last() =~= updates);
}

/// The text of a memory has a line for each note: its key, a colon, a space and its value, and a
/// newline between two lines.
pub proof fn lemma_serialized_lines(notes: Seq<Note>, note: Note)
    ensures
        serialized(Seq::empty()).len() == 0,
        serialized(seq![note]) == note.key + seq![':', ' '] + note.value,
        notes.len() > 0 ==> serialized(notes.push(note)) == serialized(notes) + seq!['\n'] + (
        note.key + seq![':', ' '] + note.value),
{
    reveal_strlit(": ");
    reveal_strlit("\n");
    assert(": "@ =~= seq![':', ' ']);
    assert("\n"@ =~= seq!['\n']);
    let lines = |n: Seq<Note>| Seq::new(n.len(), |i: int| n[i].line());
    let more = notes.push(note);
    assert(lines(more).drop_last() =~= lines(notes));
    assert(lines(more).last() == note.line());
    assert(lines(seq![note])[0] == note.line());
}

} // verus!
