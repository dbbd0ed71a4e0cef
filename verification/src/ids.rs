//! Names of things that the application keeps.
use crate::text;
use vstd::prelude::*;

verus! {

/// A page, a text or another part of a project.
#[derive(Clone, Copy, Debug, PartialEq, Eq, Structural, Hash)]
pub struct EntityId(pub u128);

/// A project.
#[derive(Clone, Copy, Debug, PartialEq, Eq, Structural, Hash)]
pub struct ProjectId(pub u128);

/// A job that runs in the background.
#[derive(Clone, Copy, Debug, PartialEq, Eq, Structural, Hash)]
pub struct JobId(pub u128);

/// A request to the agent that runs.
#[derive(Clone, Copy, Debug, PartialEq, Eq, Structural, Hash)]
pub struct RunId(pub u128);

/// A state of a project. Every change makes the next one.
#[derive(Clone, Copy, Debug, PartialEq, Eq, Structural, Hash)]
pub struct Revision(pub u64);

/// The number has the form of a UUID of this version.
pub open spec fn is_uuid(n: u128, version: int) -> bool {
    &&& n as int / 0x1000_0000_0000_0000_0000 % 16 == version
    &&& n as int / 0x4000_0000_0000_0000 % 4 == 2
}

/// `uuid::Uuid::new_v4`: a number in the form of a version 4 UUID. Nothing more is stated of the
/// result, since the rest of it is drawn at random.
#[verifier::external_body]
fn random_uuid() -> (r: u128)
    ensures
        is_uuid(r, 4),
{
    uuid::Uuid::new_v4().as_u128()
}

impl JobId {
    /// A name for a new job. It is drawn at random, so only its form is stated.
    pub fn new() -> (r: Self)
        ensures
            is_uuid(r.0, 4),
    {
        JobId(random_uuid())
    }
}

impl RunId {
    /// A name for a new request. It is drawn at random, so only its form is stated.
    pub fn new() -> (r: Self)
        ensures
            is_uuid(r.0, 4),
    {
        RunId(random_uuid())
    }
}

/// Whether `id` is one of `ids`.
pub fn has_entity(ids: &Vec<EntityId>, id: EntityId) -> (r: bool)
    ensures
        r == ids@.contains(id),
{
    let mut i: usize = 0;
    while i < ids.len()
        invariant
            i <= ids@.len(),
            forall|j: int| 0 <= j < i ==> #[trigger] ids@[j] != id,
        decreases ids@.len() - i,
    {
        if ids[i] == id {
            return true;
        }
        i += 1;
    }
    false
}

/// What is said where something was asked of a revision that the project is not at.
pub open spec fn moved_on(what: Seq<char>, expected: Revision, current: Revision) -> Seq<char> {
    what + " expected revision "@ + text::decimal(expected.0 as nat)
        + ", but the project is at "@ + text::decimal(current.0 as nat)
}

/// What is said where something was asked of a revision that the project is not at.
pub fn stale_message(what: &str, expected: Revision, current: Revision) -> (r: String)
    ensures
        r@ == moved_on(what@, expected, current),
{
    let mut message = text::joined(what, " expected revision ");
    let wanted = text::decimal_text_u64(expected.0);
    message.append(wanted.as_str());
    message.append(", but the project is at ");
    let there = text::decimal_text_u64(current.0);
    message.append(there.as_str());
    message
}

// ---------------------------------------------------------------------------------------------
// Names as text
// ---------------------------------------------------------------------------------------------

/// The digit of a number in base sixteen that stands `k` places from its end.
pub open spec fn hex_digit(n: nat, k: nat) -> nat
    decreases k,
{
    if k == 0 {
        n % 16
    } else {
        hex_digit(n / 16, (k - 1) as nat)
    }
}

/// A digit in base sixteen as a character.
pub open spec fn hex_char(digit: nat) -> char {
    if digit < 10 {
        (('0' as int) + digit) as char
    } else {
        (('a' as int) + digit - 10) as char
    }
}

/// The last `k` digits of a number in base sixteen.
pub open spec fn hex_text(n: nat, k: nat) -> Seq<char> {
    Seq::new(k, |i: int| hex_char(hex_digit(n, (k - 1 - i) as nat)))
}

/// A name as it is written: thirty-two digits in groups of eight, four, four, four and twelve.
pub open spec fn uuid_text(n: u128) -> Seq<char> {
    let digits = hex_text(n as nat, 32);
    digits.subrange(0, 8) + "-"@ + digits.subrange(8, 12) + "-"@ + digits.subrange(12, 16) + "-"@
        + digits.subrange(16, 20) + "-"@ + digits.subrange(20, 32)
}

fn hex_of(digit: u8) -> (c: char)
    requires
        digit < 16,
    ensures
        c == hex_char(digit as nat),
{
    if digit < 10 {
        (48u8 + digit) as char
    } else {
        (97u8 + (digit - 10)) as char
    }
}

proof fn lemma_hex_step(n: nat, k: nat)
    ensures
        hex_text(n, k + 1) == hex_text(n / 16, k).push(hex_char(n % 16)),
{
    let whole = hex_text(n, k + 1);
    let parts = hex_text(n / 16, k).push(hex_char(n % 16));
    assert forall|i: int| 0 <= i < whole.len() implies whole[i] == parts[i] by {
        if i < k {
            assert(hex_digit(n, (k - i) as nat) == hex_digit(n / 16, (k - i - 1) as nat));
        }
    }
    assert(whole =~= parts);
}

fn hex_digits(n: u128, k: usize) -> (r: Vec<char>)
    ensures
        r@ == hex_text(n as nat, k as nat),
    decreases k,
{
    if k == 0 {
        let none: Vec<char> = Vec::new();
        assert(none@ =~= hex_text(n as nat, 0));
        return none;
    }
    let mut digits = hex_digits(n / 16, k - 1);
    proof {
        lemma_hex_step(n as nat, (k - 1) as nat);
    }
    digits.push(hex_of((n % 16) as u8));
    digits
}

/// A name as it is written.
pub fn written_name(n: u128) -> (r: String)
    ensures
        r@ == uuid_text(n),
{
    let digits = hex_digits(n, 32);
    let mut name = text::string_of_range(&digits, 0, 8);
    name.append("-");
    name.append(text::string_of_range(&digits, 8, 12).as_str());
    name.append("-");
    name.append(text::string_of_range(&digits, 12, 16).as_str());
    name.append("-");
    name.append(text::string_of_range(&digits, 16, 20).as_str());
    name.append("-");
    name.append(text::string_of_range(&digits, 20, 32).as_str());
    name
}

proof fn lemma_hex_differs(a: nat, b: nat, k: nat)
    requires
        hex_text(a, k) == hex_text(b, k),
        k == 0 ==> a == b,
    ensures
        a % 16 == b % 16 || k == 0,
{
    if k > 0 {
        lemma_hex_step(a, (k - 1) as nat);
        lemma_hex_step(b, (k - 1) as nat);
        assert(hex_text(a, k).last() == hex_char(a % 16));
        assert(hex_text(b, k).last() == hex_char(b % 16));
    }
}

proof fn lemma_hex_tells_apart(a: nat, b: nat, k: nat)
    requires
        hex_text(a, k) == hex_text(b, k),
        a < vstd::arithmetic::power::pow(16, k),
        b < vstd::arithmetic::power::pow(16, k),
    ensures
        a == b,
    decreases k,
{
    vstd::arithmetic::power::lemma_pow0(16);
    if k > 0 {
        lemma_hex_differs(a, b, k);
        lemma_hex_step(a, (k - 1) as nat);
        lemma_hex_step(b, (k - 1) as nat);
        let x = hex_text(a, k);
        let y = hex_text(b, k);
        assert(x.drop_last() =~= hex_text(a / 16, (k - 1) as nat));
        assert(y.drop_last() =~= hex_text(b / 16, (k - 1) as nat));
        assert(vstd::arithmetic::power::pow(16, k) == 16 * vstd::arithmetic::power::pow(
            16,
            (k - 1) as nat,
        )) by {
            reveal(vstd::arithmetic::power::pow);
        }
        lemma_hex_tells_apart(a / 16, b / 16, (k - 1) as nat);
    }
}

/// Different names are written differently, each in thirty-six characters with dashes behind the
/// eighth, the twelfth, the sixteenth and the twentieth digit.
pub proof fn lemma_names_are_written_apart(a: u128, b: u128)
    ensures
        uuid_text(a).len() == 36,
        uuid_text(a)[8] == '-' && uuid_text(a)[13] == '-' && uuid_text(a)[18] == '-' && uuid_text(
            a,
        )[23] == '-',
        uuid_text(a) == uuid_text(b) ==> a == b,
{
    reveal_strlit("-");
    if uuid_text(a) == uuid_text(b) {
        let x = hex_text(a as nat, 32);
        let y = hex_text(b as nat, 32);
        assert forall|i: int| 0 <= i < 32 implies x[i] == y[i] by {
            let at = if i < 8 {
                i
            } else if i < 12 {
                i + 1
            } else if i < 16 {
                i + 2
            } else if i < 20 {
                i + 3
            } else {
                i + 4
            };
            assert(uuid_text(a)[at] == x[i]);
            assert(uuid_text(b)[at] == y[i]);
        }
        assert(x =~= y);
        assert(vstd::arithmetic::power::pow(16, 32) == 0x1_0000_0000_0000_0000_0000_0000_0000_0000) by {
            reveal_with_fuel(vstd::arithmetic::power::pow, 33);
        }
        lemma_hex_tells_apart(a as nat, b as nat, 32);
    }
}

} // verus!
