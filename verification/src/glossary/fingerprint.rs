//! A fingerprint of the texts that a glossary was scanned from.
use crate::ids::EntityId;
use crate::order;
use crate::order::Ranked;
use crate::text;
use vstd::prelude::*;

verus! {

/// A text of a page as it was recognized.
pub struct OcrSourceRecord {
    pub page_order: usize,
    pub content: EntityId,
    pub source_language: Option<String>,
    pub source_text: String,
}

/// A text of a page.
pub struct PageSource {
    pub content: EntityId,
    pub source_language: Option<String>,
    pub source_text: String,
}

/// The BLAKE3 hash of the bytes in hexadecimal.
pub uninterp spec fn blake3_hex(bytes: Seq<u8>) -> Seq<char>;

pub open spec fn is_hex_digit(c: char) -> bool {
    '0' <= c <= '9' || 'a' <= c <= 'f'
}

/// `blake3::hash` and `blake3::Hash::to_hex`: the hash of the bytes, which depends on them alone,
/// as 64 hexadecimal digits in lower case.
#[verifier::external_body]
fn hash_hex(bytes: &Vec<u8>) -> (r: String)
    ensures
        r@ == blake3_hex(bytes@),
        r@.len() == 64,
        forall|i: int| 0 <= i < r@.len() ==> is_hex_digit(#[trigger] r@[i]),
{
    blake3::hash(bytes).to_hex().to_string()
}

/// The languages of two records in order: none before any, and two by their characters.
pub open spec fn language_le(a: Option<String>, b: Option<String>) -> bool {
    match (a, b) {
        (None, _) => true,
        (Some(_), None) => false,
        (Some(x), Some(y)) => text::text_le(x@, y@),
    }
}

/// The languages of two records are the same.
pub open spec fn same_language(a: Option<String>, b: Option<String>) -> bool {
    match (a, b) {
        (None, None) => true,
        (Some(x), Some(y)) => x@ == y@,
        _ => false,
    }
}

impl OcrSourceRecord {
    /// The records hold the same.
    pub open spec fn same_as(self, other: Self) -> bool {
        &&& self.page_order == other.page_order
        &&& self.content == other.content
        &&& same_language(self.source_language, other.source_language)
        &&& self.source_text@ == other.source_text@
    }
}

impl Ranked for OcrSourceRecord {
    /// By page, then by name, then by language, then by text.
    open spec fn ranks(self, other: Self) -> bool {
        if self.page_order != other.page_order {
            self.page_order < other.page_order
        } else if self.content != other.content {
            self.content.0 < other.content.0
        } else if !same_language(self.source_language, other.source_language) {
            language_le(self.source_language, other.source_language)
        } else {
            text::text_le(self.source_text@, other.source_text@)
        }
    }

    proof fn total(a: Self, b: Self) {
        text::lemma_text_le_total(a.source_text@, b.source_text@);
        match (a.source_language, b.source_language) {
            (Some(x), Some(y)) => {
                text::lemma_text_le_total(x@, y@);
            },
            _ => {},
        }
    }

    proof fn transitive(a: Self, b: Self, c: Self) {
        if text::text_le(a.source_text@, b.source_text@) && text::text_le(
            b.source_text@,
            c.source_text@,
        ) {
            text::lemma_text_le_transitive(a.source_text@, b.source_text@, c.source_text@);
        }
        match (a.source_language, b.source_language, c.source_language) {
            (Some(x), Some(y), Some(z)) => {
                if text::text_le(x@, y@) && text::text_le(y@, z@) {
                    text::lemma_text_le_transitive(x@, y@, z@);
                }
                text::lemma_text_le_total(x@, y@);
                text::lemma_text_le_total(y@, z@);
                text::lemma_text_le_total(x@, z@);
            },
            _ => {},
        }
    }

    fn not_after(&self, other: &Self) -> (r: bool) {
        if self.page_order != other.page_order {
            return self.page_order < other.page_order;
        }
        if self.content != other.content {
            return self.content.0 < other.content.0;
        }
        match (&self.source_language, &other.source_language) {
            (None, None) => {},
            (None, Some(_)) => return true,
            (Some(_), None) => return false,
            (Some(x), Some(y)) => {
                if !text::same(x.as_str(), y.as_str()) {
                    return text::not_after(x.as_str(), y.as_str());
                }
            },
        }
        text::not_after(self.source_text.as_str(), other.source_text.as_str())
    }
}

/// The `n` lowest bytes of `x`, the lowest first.
pub open spec fn low_bytes(x: nat, n: nat) -> Seq<u8>
    decreases n,
{
    if n == 0 {
        Seq::empty()
    } else {
        seq![(x % 256) as u8] + low_bytes(x / 256, (n - 1) as nat)
    }
}

/// The bytes of a string behind their number.
pub open spec fn framed_text(s: Seq<char>) -> Seq<u8> {
    low_bytes(vstd::utf8::encode_utf8(s).len(), 8) + vstd::utf8::encode_utf8(s)
}

/// A byte that says whether there is a string, then the string.
pub open spec fn framed_option(s: Option<String>) -> Seq<u8> {
    match s {
        Some(s) => seq![1u8] + framed_text(s@),
        None => seq![0u8],
    }
}

/// The bytes of a record: page, name, language and text.
pub open spec fn record_bytes(record: OcrSourceRecord) -> Seq<u8> {
    low_bytes(record.page_order as nat, 8) + low_bytes(record.content.0 as nat, 16).reverse()
        + framed_option(record.source_language) + framed_text(record.source_text@)
}

/// The bytes of the records, one behind the other.
pub open spec fn records_bytes(records: Seq<OcrSourceRecord>) -> Seq<u8>
    decreases records.len(),
{
    if records.len() == 0 {
        Seq::empty()
    } else {
        records_bytes(records.drop_last()) + record_bytes(records.last())
    }
}

/// The bytes that stand in front of the records.
pub open spec fn domain_bytes() -> Seq<u8> {
    vstd::utf8::encode_utf8("koharu-ocr-source-fingerprint-v1\0"@)
}

/// The fingerprint of the records: the hash of their bytes in order.
pub open spec fn fingerprint_of(records: Seq<OcrSourceRecord>) -> Seq<char> {
    blake3_hex(domain_bytes() + records_bytes(order::arranged(records)))
}

fn push_low_bytes(out: &mut Vec<u8>, x: u128, n: usize)
    ensures
        final(out)@ == old(out)@ + low_bytes(x as nat, n as nat),
{
    let ghost before = out@;
    let mut rest: u128 = x;
    let mut i: usize = 0;
    assert(before + low_bytes(x as nat, n as nat) =~= out@ + low_bytes(rest as nat, n as nat));
    while i < n
        invariant
            i <= n,
            before + low_bytes(x as nat, n as nat) == out@ + low_bytes(
                rest as nat,
                (n - i) as nat,
            ),
        decreases n - i,
    {
        let ghost was = out@;
        out.push((rest % 256) as u8);
        proof {
            let tail = low_bytes(rest as nat / 256, (n - i - 1) as nat);
            assert(was + (seq![(rest as nat % 256) as u8] + tail) =~= out@ + tail);
        }
        rest = rest / 256;
        i += 1;
    }
    assert(out@ + low_bytes(rest as nat, 0) =~= out@);
}

fn push_all(out: &mut Vec<u8>, bytes: &[u8])
    ensures
        final(out)@ == old(out)@ + bytes@,
{
    let ghost before = out@;
    let mut i: usize = 0;
    while i < bytes.len()
        invariant
            i <= bytes@.len(),
            out@ == before + bytes@.take(i as int),
        decreases bytes@.len() - i,
    {
        out.push(bytes[i]);
        i += 1;
        assert(out@ =~= before + bytes@.take(i as int));
    }
    assert(bytes@.take(i as int) =~= bytes@);
}

fn push_text(out: &mut Vec<u8>, s: &str)
    ensures
        final(out)@ == old(out)@ + framed_text(s@),
{
    let ghost before = out@;
    let bytes = s.as_bytes();
    push_low_bytes(out, bytes.len() as u128, 8);
    push_all(out, bytes);
    assert(out@ =~= before + framed_text(s@));
}

fn push_id(out: &mut Vec<u8>, id: u128)
    ensures
        final(out)@ == old(out)@ + low_bytes(id as nat, 16).reverse(),
{
    let mut low: Vec<u8> = Vec::new();
    push_low_bytes(&mut low, id, 16);
    let ghost before = out@;
    let ghost bytes = low@;
    assert(bytes =~= low_bytes(id as nat, 16));
    let mut i: usize = low.len();
    while i > 0
        invariant
            i <= low@.len(),
            low@ == bytes,
            out@ == before + bytes.reverse().take(bytes.len() - i),
        decreases i,
    {
        out.push(low[i - 1]);
        i -= 1;
        assert(out@ =~= before + bytes.reverse().take(bytes.len() - i));
    }
    assert(bytes.reverse().take(bytes.len() as int) =~= bytes.reverse());
}

fn push_record(out: &mut Vec<u8>, record: &OcrSourceRecord)
    ensures
        final(out)@ == old(out)@ + record_bytes(*record),
{
    let ghost before = out@;
    push_low_bytes(out, record.page_order as u128, 8);
    push_id(out, record.content.0);
    match &record.source_language {
        Some(language) => {
            let ghost was = out@;
            out.push(1);
            push_text(out, language.as_str());
            assert(out@ =~= was + framed_option(record.source_language));
        },
        None => {
            let ghost was = out@;
            out.push(0);
            assert(out@ =~= was + framed_option(record.source_language));
        },
    }
    push_text(out, record.source_text.as_str());
    assert(out@ =~= before + record_bytes(*record));
}

/// The bytes that stand for the records, whatever the order they come in.
pub fn fingerprint_bytes(records: Vec<OcrSourceRecord>) -> (r: Vec<u8>)
    ensures
        r@ == domain_bytes() + records_bytes(order::arranged(records@)),
{
    let ghost all = order::arranged(records@);
    let sorted = order::sorted(records);
    let mut out: Vec<u8> = Vec::new();
    push_all(&mut out, "koharu-ocr-source-fingerprint-v1\0".as_bytes());
    let mut i: usize = 0;
    proof {
        assert(out@ =~= domain_bytes());
        assert(all.take(0) =~= Seq::empty());
        assert(domain_bytes() + records_bytes(all.take(0)) =~= domain_bytes());
    }
    while i < sorted.len()
        invariant
            sorted@ == all,
            i <= all.len(),
            out@ == domain_bytes() + records_bytes(all.take(i as int)),
        decreases all.len() - i,
    {
        let ghost was = out@;
        push_record(&mut out, &sorted[i]);
        proof {
            assert(all.take(i + 1).drop_last() =~= all.take(i as int));
            assert(all.take(i + 1).last() == all[i as int]);
            assert(out@ =~= domain_bytes() + records_bytes(all.take(i + 1)));
        }
        i += 1;
    }
    assert(all.take(i as int) =~= all);
    out
}

/// The fingerprint of the records: 64 hexadecimal digits.
pub fn ocr_fingerprint(records: Vec<OcrSourceRecord>) -> (r: String)
    ensures
        r@ == fingerprint_of(records@),
        r@.len() == 64,
        forall|i: int| 0 <= i < r@.len() ==> is_hex_digit(#[trigger] r@[i]),
{
    let bytes = fingerprint_bytes(records);
    hash_hex(&bytes)
}

/// The records of the texts of one page.
pub open spec fn records_of_page(page: int, sources: Seq<PageSource>) -> Seq<OcrSourceRecord> {
    Seq::new(
        sources.len(),
        |j: int|
            OcrSourceRecord {
                page_order: page as usize,
                content: sources[j].content,
                source_language: sources[j].source_language,
                source_text: sources[j].source_text,
            },
    )
}

/// The records of the texts of the first `n` pages, page after page.
pub open spec fn records_of(pages: Seq<Vec<PageSource>>, n: int) -> Seq<OcrSourceRecord>
    decreases n,
{
    if n <= 0 {
        Seq::empty()
    } else {
        records_of(pages, n - 1) + records_of_page(n - 1, pages[n - 1]@)
    }
}

/// The records of the texts of the pages, page after page.
pub fn page_records(pages: &Vec<Vec<PageSource>>) -> (r: Vec<OcrSourceRecord>)
    ensures
        r@ == records_of(pages@, pages@.len() as int),
{
    let mut out: Vec<OcrSourceRecord> = Vec::new();
    let mut i: usize = 0;
    while i < pages.len()
        invariant
            i <= pages@.len(),
            out@ == records_of(pages@, i as int),
        decreases pages@.len() - i,
    {
        let ghost head = out@;
        let ghost page = records_of_page(i as int, pages@[i as int]@);
        let mut k: usize = 0;
        assert(head + page.take(0) =~= head);
        while k < pages[i].len()
            invariant
                i < pages@.len(),
                k <= pages@[i as int]@.len(),
                page == records_of_page(i as int, pages@[i as int]@),
                out@ == head + page.take(k as int),
            decreases pages@[i as int]@.len() - k,
        {
            let source = &pages[i][k];
            let language = match &source.source_language {
                Some(language) => Some(language.clone()),
                None => None,
            };
            out.push(
                OcrSourceRecord {
                    page_order: i,
                    content: source.content,
                    source_language: language,
                    source_text: source.source_text.clone(),
                },
            );
            k += 1;
            assert(out@ =~= head + page.take(k as int));
        }
        assert(page.take(k as int) =~= page);
        i += 1;
    }
    out
}

/// The fingerprint of the texts of the pages.
pub fn ocr_source_fingerprint(pages: &Vec<Vec<PageSource>>) -> (r: String)
    ensures
        r@ == fingerprint_of(records_of(pages@, pages@.len() as int)),
        r@.len() == 64,
        forall|i: int| 0 <= i < r@.len() ==> is_hex_digit(#[trigger] r@[i]),
{
    ocr_fingerprint(page_records(pages))
}

proof fn lemma_tied_records(a: OcrSourceRecord, b: OcrSourceRecord)
    requires
        a.ranks(b),
        b.ranks(a),
    ensures
        a.same_as(b),
        record_bytes(a) == record_bytes(b),
{
    text::lemma_text_le_total(a.source_text@, b.source_text@);
    match (a.source_language, b.source_language) {
        (Some(x), Some(y)) => {
            text::lemma_text_le_total(x@, y@);
        },
        _ => {},
    }
}

proof fn lemma_same_bytes(a: Seq<OcrSourceRecord>, b: Seq<OcrSourceRecord>)
    requires
        a.len() == b.len(),
        forall|i: int| 0 <= i < a.len() ==> (#[trigger] a[i]).ranks(b[i]) && b[i].ranks(a[i]),
    ensures
        records_bytes(a) == records_bytes(b),
    decreases a.len(),
{
    if a.len() > 0 {
        let n = a.len() - 1;
        assert(a[n].ranks(b[n]) && b[n].ranks(a[n]));
        lemma_tied_records(a[n], b[n]);
        assert forall|i: int| 0 <= i < a.drop_last().len() implies (
        #[trigger] a.drop_last()[i]).ranks(b.drop_last()[i]) && b.drop_last()[i].ranks(
            a.drop_last()[i],
        ) by {
            assert(a[i].ranks(b[i]));
        }
        lemma_same_bytes(a.drop_last(), b.drop_last());
    }
}

/// The fingerprint depends on which records there are, not on the order they come in.
pub proof fn lemma_fingerprint_ignores_order(a: Seq<OcrSourceRecord>, b: Seq<OcrSourceRecord>)
    requires
        a.to_multiset() == b.to_multiset(),
    ensures
        fingerprint_of(a) == fingerprint_of(b),
{
    order::lemma_arranged(a);
    order::lemma_arranged(b);
    order::lemma_orderings_agree(order::arranged(a), order::arranged(b));
    lemma_same_bytes(order::arranged(a), order::arranged(b));
}

// ---------------------------------------------------------------------------------------------
// The bytes tell the records apart
// ---------------------------------------------------------------------------------------------

/// How many numbers `n` bytes can write.
spec fn reach(n: nat) -> nat
    decreases n,
{
    if n == 0 {
        1
    } else {
        256 * reach((n - 1) as nat)
    }
}

proof fn lemma_low_bytes(x: nat, y: nat, n: nat)
    ensures
        low_bytes(x, n).len() == n,
        x < reach(n) && y < reach(n) && low_bytes(x, n) == low_bytes(y, n) ==> x == y,
    decreases n,
{
    if n > 0 {
        let m = (n - 1) as nat;
        lemma_low_bytes(x / 256, y / 256, m);
        let a = low_bytes(x, n);
        let b = low_bytes(y, n);
        assert(a.drop_first() =~= low_bytes(x / 256, m));
        assert(b.drop_first() =~= low_bytes(y / 256, m));
        if x < reach(n) && y < reach(n) && a == b {
            assert(a[0] == b[0]);
            assert(x / 256 < reach(m));
            assert(y / 256 < reach(m));
        }
    }
}

proof fn lemma_reach()
    ensures
        reach(8) == 0x1_0000_0000_0000_0000,
        reach(16) == 0x1_0000_0000_0000_0000_0000_0000_0000_0000,
{
    reveal_with_fuel(reach, 17);
}

proof fn lemma_framed_text(s: Seq<char>, x: Seq<u8>, t: Seq<char>, y: Seq<u8>)
    requires
        vstd::utf8::encode_utf8(s).len() <= u64::MAX,
        vstd::utf8::encode_utf8(t).len() <= u64::MAX,
        framed_text(s) + x == framed_text(t) + y,
    ensures
        s == t,
        x == y,
{
    let a = vstd::utf8::encode_utf8(s);
    let b = vstd::utf8::encode_utf8(t);
    let whole = framed_text(s) + x;
    let other = framed_text(t) + y;
    lemma_reach();
    lemma_low_bytes(a.len(), b.len(), 8);
    lemma_low_bytes(b.len(), a.len(), 8);
    assert(whole.take(8) =~= low_bytes(a.len(), 8));
    assert(other.take(8) =~= low_bytes(b.len(), 8));
    assert(a.len() == b.len());
    let n = a.len() as int;
    assert(whole.subrange(8, 8 + n) =~= a);
    assert(other.subrange(8, 8 + n) =~= b);
    vstd::utf8::encode_utf8_decode_utf8(s);
    vstd::utf8::encode_utf8_decode_utf8(t);
    assert(whole.skip(8 + n) =~= x);
    assert(other.skip(8 + n) =~= y);
}

/// The bytes of a record say what the record holds, whatever stands behind them: the bytes of two
/// records begin alike only where page, name, language and text are the same.
pub proof fn lemma_record_bytes(a: OcrSourceRecord, x: Seq<u8>, b: OcrSourceRecord, y: Seq<u8>)
    requires
        vstd::utf8::encode_utf8(a.source_text@).len() <= u64::MAX,
        vstd::utf8::encode_utf8(b.source_text@).len() <= u64::MAX,
        a.source_language matches Some(l) ==> vstd::utf8::encode_utf8(l@).len() <= u64::MAX,
        b.source_language matches Some(l) ==> vstd::utf8::encode_utf8(l@).len() <= u64::MAX,
        record_bytes(a) + x == record_bytes(b) + y,
    ensures
        a.page_order == b.page_order,
        a.content == b.content,
        a.source_language is Some <==> b.source_language is Some,
        a.source_language is Some ==> a.source_language->0@ == b.source_language->0@,
        a.source_text@ == b.source_text@,
        x == y,
{
    let whole = record_bytes(a) + x;
    let other = record_bytes(b) + y;
    let p = a.page_order as nat;
    let q = b.page_order as nat;
    let c = a.content.0 as nat;
    let d = b.content.0 as nat;
    lemma_reach();
    lemma_low_bytes(p, q, 8);
    lemma_low_bytes(q, p, 8);
    lemma_low_bytes(c, d, 16);
    lemma_low_bytes(d, c, 16);
    let ra = low_bytes(c, 16).reverse();
    let rb = low_bytes(d, 16).reverse();
    assert(whole.take(8) =~= low_bytes(p, 8));
    assert(other.take(8) =~= low_bytes(q, 8));
    assert(whole.subrange(8, 24) =~= ra);
    assert(other.subrange(8, 24) =~= rb);
    assert(low_bytes(c, 16) =~= low_bytes(d, 16)) by {
        assert forall|i: int| 0 <= i < 16 implies low_bytes(c, 16)[i] == low_bytes(d, 16)[i] by {
            assert(ra[15 - i] == low_bytes(c, 16)[i]);
            assert(rb[15 - i] == low_bytes(d, 16)[i]);
        }
    }
    let fa = framed_option(a.source_language);
    let fb = framed_option(b.source_language);
    let ta = framed_text(a.source_text@);
    let tb = framed_text(b.source_text@);
    assert(whole.skip(24) =~= fa + (ta + x));
    assert(other.skip(24) =~= fb + (tb + y));
    assert((fa + (ta + x))[0] == fa[0]);
    assert((fb + (tb + y))[0] == fb[0]);
    match (a.source_language, b.source_language) {
        (Some(l), Some(m)) => {
            let u = framed_text(l@);
            let v = framed_text(m@);
            assert((fa + (ta + x)).skip(1) =~= u + (ta + x));
            assert((fb + (tb + y)).skip(1) =~= v + (tb + y));
            lemma_framed_text(l@, ta + x, m@, tb + y);
        },
        (None, None) => {
            assert((fa + (ta + x)).skip(1) =~= ta + x);
            assert((fb + (tb + y)).skip(1) =~= tb + y);
        },
        _ => {},
    }
    lemma_framed_text(a.source_text@, x, b.source_text@, y);
}

/// The strings of the record take no more bytes than can be written.
pub open spec fn is_writable(record: OcrSourceRecord) -> bool {
    &&& vstd::utf8::encode_utf8(record.source_text@).len() <= u64::MAX
    &&& record.source_language matches Some(l) ==> vstd::utf8::encode_utf8(l@).len() <= u64::MAX
}

proof fn lemma_records_bytes_front(records: Seq<OcrSourceRecord>)
    requires
        records.len() > 0,
    ensures
        records_bytes(records) == record_bytes(records[0]) + records_bytes(records.drop_first()),
    decreases records.len(),
{
    let rest = records.drop_first();
    if records.len() == 1 {
        assert(records.drop_last() =~= Seq::empty());
        assert(rest =~= Seq::empty());
        assert(records_bytes(records.drop_last()) =~= Seq::empty());
        assert(records_bytes(rest) =~= Seq::empty());
        assert(records_bytes(records) =~= record_bytes(records[0]));
        assert(record_bytes(records[0]) + records_bytes(rest) =~= record_bytes(records[0]));
    } else {
        lemma_records_bytes_front(records.drop_last());
        assert(records.drop_last().drop_first() =~= rest.drop_last());
        assert(rest.last() == records.last());
        assert(records_bytes(records) =~= record_bytes(records[0]) + records_bytes(rest));
    }
}

/// The bytes tell the records apart: records with the same bytes are the same records, one by one.
/// So a text that is changed, added, taken away or moved to another page changes the bytes that the
/// fingerprint is made of.
pub proof fn lemma_bytes_tell_records_apart(a: Seq<OcrSourceRecord>, b: Seq<OcrSourceRecord>)
    requires
        forall|i: int| 0 <= i < a.len() ==> is_writable(#[trigger] a[i]),
        forall|i: int| 0 <= i < b.len() ==> is_writable(#[trigger] b[i]),
        records_bytes(a) == records_bytes(b),
    ensures
        a.len() == b.len(),
        forall|i: int|
            0 <= i < a.len() ==> (#[trigger] a[i]).page_order == b[i].page_order && a[i].content
                == b[i].content && a[i].source_text@ == b[i].source_text@ && (
            a[i].source_language is Some <==> b[i].source_language is Some) && (
            a[i].source_language is Some ==> a[i].source_language->0@ == b[i].source_language->0@),
    decreases a.len(),
{
    if a.len() == 0 || b.len() == 0 {
        if a.len() > 0 {
            lemma_records_bytes_front(a);
            lemma_low_bytes(a[0].page_order as nat, 0, 8);
            assert(records_bytes(a).len() >= 8);
        }
        if b.len() > 0 {
            lemma_records_bytes_front(b);
            lemma_low_bytes(b[0].page_order as nat, 0, 8);
            assert(records_bytes(b).len() >= 8);
        }
    } else {
        lemma_records_bytes_front(a);
        lemma_records_bytes_front(b);
        let ra = a.drop_first();
        let rb = b.drop_first();
        assert(is_writable(a[0]) && is_writable(b[0]));
        lemma_record_bytes(a[0], records_bytes(ra), b[0], records_bytes(rb));
        assert forall|i: int| 0 <= i < ra.len() implies is_writable(#[trigger] ra[i]) by {
            assert(ra[i] == a[i + 1]);
        }
        assert forall|i: int| 0 <= i < rb.len() implies is_writable(#[trigger] rb[i]) by {
            assert(rb[i] == b[i + 1]);
        }
        lemma_bytes_tell_records_apart(ra, rb);
        assert forall|i: int| 0 <= i < a.len() implies (#[trigger] a[i]).page_order
            == b[i].page_order && a[i].content == b[i].content && a[i].source_text@
            == b[i].source_text@ && (a[i].source_language is Some
            <==> b[i].source_language is Some) && (a[i].source_language is Some
            ==> a[i].source_language->0@ == b[i].source_language->0@) by {
            if i > 0 {
                assert(a[i] == ra[i - 1]);
                assert(b[i] == rb[i - 1]);
            }
        }
    }
}

/// Every text of every page is recorded, with the place of its page, its name, its language and its
/// characters, page after page and in the order of the page.
pub proof fn lemma_every_text_is_recorded(pages: Seq<Vec<PageSource>>, n: int, i: int, j: int) -> (k:
    int)
    requires
        n <= pages.len() <= usize::MAX,
        0 <= i < n,
        0 <= j < pages[i]@.len(),
    ensures
        0 <= k < records_of(pages, n).len(),
        records_of(pages, n)[k].page_order == i,
        records_of(pages, n)[k].content == pages[i]@[j].content,
        records_of(pages, n)[k].source_language == pages[i]@[j].source_language,
        records_of(pages, n)[k].source_text == pages[i]@[j].source_text,
    decreases n,
{
    let head = records_of(pages, n - 1);
    let page = records_of_page(n - 1, pages[n - 1]@);
    if i == n - 1 {
        assert((head + page)[head.len() + j] == page[j]);
        head.len() as int + j
    } else {
        let k = lemma_every_text_is_recorded(pages, n - 1, i, j);
        assert((head + page)[k] == head[k]);
        k
    }
}

} // verus!
