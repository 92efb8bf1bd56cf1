//! Session ids: what they look like, and where new ones come from.
use crate::text::{all_digits, decimal_value, digit_char, digit_value, is_digit};
use rand::distributions::Alphanumeric;
use rand::Rng;
use vstd::prelude::*;

verus! {

/// How many characters a session id has.
pub const SESSION_ID_LEN: usize = 32;

/// Whether a character is an ASCII letter or digit.
pub open spec fn is_alphanumeric(c: char) -> bool {
    ||| 'A' <= c <= 'Z'
    ||| 'a' <= c <= 'z'
    ||| is_digit(c)
}

/// Whether a text is a session id: 32 ASCII letters and digits.
pub open spec fn is_session_id(s: Seq<char>) -> bool {
    &&& s.len() == SESSION_ID_LEN
    &&& forall|i: int| 0 <= i < s.len() ==> is_alphanumeric(#[trigger] s[i])
}

/// Draws from `rand::distributions::Alphanumeric` by the generator of the
/// thread. Any ASCII letter or digit may come.
#[verifier::external_body]
fn sample_alphanumeric() -> (r: u8)
    ensures
        is_alphanumeric(r as char),
{
    rand::thread_rng().sample(Alphanumeric)
}

/// The session id of 32 drawn ASCII letters and digits: the same characters in the
/// same order.
pub fn session_id_of(drawn: &Vec<u8>) -> (r: String)
    requires
        drawn@.len() == SESSION_ID_LEN,
        forall|i: int| 0 <= i < drawn@.len() ==> is_alphanumeric(#[trigger] drawn@[i] as char),
    ensures
        r@ == drawn@.map_values(|b: u8| b as char),
        is_session_id(r@),
{
    let mut out: String = String::new();
    let mut i: usize = 0;
    while i < drawn.len()
        invariant
            i <= drawn@.len(),
            out@ == drawn@.take(i as int).map_values(|b: u8| b as char),
        decreases drawn.len() - i,
    {
        out.push(drawn[i] as char);
        i += 1;
        assert(out@ =~= drawn@.take(i as int).map_values(|b: u8| b as char));
    }
    assert(drawn@.take(drawn@.len() as int) =~= drawn@);
    out
}

/// A session id drawn at random.
pub fn random_session_id() -> (r: String)
    ensures
        is_session_id(r@),
{
    let mut drawn: Vec<u8> = Vec::new();
    while drawn.len() < SESSION_ID_LEN
        invariant
            drawn@.len() <= SESSION_ID_LEN,
            forall|i: int| 0 <= i < drawn@.len() ==> is_alphanumeric(#[trigger] drawn@[i] as char),
        decreases SESSION_ID_LEN - drawn.len(),
    {
        drawn.push(sample_alphanumeric());
    }
    session_id_of(&drawn)
}

/// The last `width` digits of a number, with leading zeros.
pub open spec fn padded(n: nat, width: nat) -> Seq<char>
    decreases width,
{
    if width == 0 {
        Seq::empty()
    } else {
        padded(n / 10, (width - 1) as nat).push(digit_char(n % 10))
    }
}

/// The session id that is a number with leading zeros.
pub open spec fn numbered_id(n: nat) -> Seq<char> {
    padded(n, SESSION_ID_LEN as nat)
}

/// The power of ten.
spec fn pow10(width: nat) -> nat
    decreases width,
{
    if width == 0 {
        1
    } else {
        10 * pow10((width - 1) as nat)
    }
}

/// A number with leading zeros stands for the number.
proof fn lemma_padded(n: nat, width: nat)
    ensures
        padded(n, width).len() == width,
        all_digits(padded(n, width)),
        n < pow10(width) ==> decimal_value(padded(n, width)) == n,
    decreases width,
{
    if width > 0 {
        let shorter = padded(n / 10, (width - 1) as nat);
        lemma_padded(n / 10, (width - 1) as nat);
        let s = padded(n, width);
        assert(s.drop_last() =~= shorter);
        assert forall|i: int| 0 <= i < s.len() implies is_digit(#[trigger] s[i]) by {
            if i < s.len() - 1 {
                assert(s[i] == shorter[i]);
            }
        }
    }
}

/// A numbered id is a session id, and stands for its number.
proof fn lemma_numbered_id(n: nat)
    requires
        n <= u64::MAX + 1,
    ensures
        is_session_id(numbered_id(n)),
        decimal_value(numbered_id(n)) == n,
{
    lemma_padded(n, SESSION_ID_LEN as nat);
    assert(n < pow10(32)) by {
        reveal_with_fuel(pow10, 33);
    }
}

/// A set that holds the first `count` numbered ids has that many elements.
proof fn lemma_numbered_ids(ids: Set<Seq<char>>, count: nat)
    requires
        count <= u64::MAX + 1,
        ids.finite(),
        forall|n: nat| n < count ==> ids.contains(#[trigger] numbered_id(n)),
    ensures
        ids.len() >= count,
    decreases count,
{
    if count > 0 {
        let last = (count - 1) as nat;
        assert(ids.contains(numbered_id(last)));
        let rest = ids.remove(numbered_id(last));
        assert forall|n: nat| n < last implies rest.contains(#[trigger] numbered_id(n)) by {
            lemma_numbered_id(n);
            lemma_numbered_id(last);
        }
        lemma_numbered_ids(rest, last);
    }
}

/// A set that holds as many of the first numbered ids as it has elements does
/// not hold the next one.
pub proof fn lemma_numbered_id_free(ids: Set<Seq<char>>)
    requires
        ids.finite(),
        ids.len() <= u64::MAX,
        forall|n: nat| n < ids.len() ==> ids.contains(#[trigger] numbered_id(n)),
    ensures
        !ids.contains(numbered_id(ids.len())),
{
    if ids.contains(numbered_id(ids.len())) {
        lemma_numbered_ids(ids, ids.len() + 1);
    }
}

/// The session id that is a number with leading zeros.
pub fn numbered_session_id(n: u64) -> (r: String)
    ensures
        r@ == numbered_id(n as nat),
        is_session_id(r@),
{
    proof {
        lemma_numbered_id(n as nat);
    }
    padded_text(n, SESSION_ID_LEN)
}

/// The last `width` digits of a number, with leading zeros.
fn padded_text(n: u64, width: usize) -> (r: String)
    ensures
        r@ == padded(n as nat, width as nat),
    decreases width,
{
    if width == 0 {
        return String::new();
    }
    let mut out: String = padded_text(n / 10, width - 1);
    let d: u8 = (n % 10) as u8;
    out.push(('0' as u8 + d) as char);
    out
}

/// A session id has 32 characters, each of them a letter or a digit of ASCII.
pub proof fn law_session_id_characters(s: Seq<char>)
    ensures
        is_session_id(s) <==> s.len() == 32 && forall|i: int|
            0 <= i < s.len() ==> ('A' <= #[trigger] s[i] <= 'Z' || 'a' <= s[i] <= 'z' || '0' <= s[i]
                <= '9'),
{
    if is_session_id(s) {
        assert forall|i: int| 0 <= i < s.len() implies ('A' <= #[trigger] s[i] <= 'Z' || 'a'
            <= s[i] <= 'z' || '0' <= s[i] <= '9') by {
            assert(is_alphanumeric(s[i]));
        }
    }
}

/// Numbered ids are session ids of digits, and different numbers have different ids.
pub proof fn law_numbered_ids_differ(a: u64, b: u64)
    ensures
        is_session_id(numbered_id(a as nat)),
        all_digits(numbered_id(a as nat)),
        decimal_value(numbered_id(a as nat)) == a,
        a != b ==> numbered_id(a as nat) != numbered_id(b as nat),
{
    lemma_numbered_id(a as nat);
    lemma_numbered_id(b as nat);
    lemma_padded(a as nat, SESSION_ID_LEN as nat);
}

} // verus!
