//! The error registry: every reported error gets a fresh identifier
//! `ERR_<n>`, under which its message can be looked up again.

use vstd::prelude::*;
use crate::text::{
    all_digits, chars_of, decimal_text, decimal_value, lemma_canonical_digits, lemma_decimal_text,
    parse_unsigned, parse_unsigned_chars,
};

verus! {

/// The prefix of every error identifier.
pub open spec fn error_id_prefix() -> Seq<char> {
    seq!['E', 'R', 'R', '_']
}

/// The identifier of the `n`-th registered error: `ERR_` and `n` in decimal.
pub open spec fn error_id_text(n: nat) -> Seq<char> {
    error_id_prefix() + decimal_text(n)
}

/// The number that an identifier names: `ERR_` followed by decimal digits
/// without a superfluous leading zero.
pub open spec fn parse_error_id(s: Seq<char>) -> Option<nat> {
    let digits = s.skip(4);
    if s.len() > 4 && s.take(4) == error_id_prefix() && all_digits(digits) && !(digits.len() > 1
        && digits[0] == '0') {
        Some(decimal_value(digits))
    } else {
        None
    }
}

/// What the registry answers for an identifier: the messages registered
/// under it, if it names one of the registered errors.
pub open spec fn lookup_error(
    registry: Seq<Seq<Seq<char>>>,
    id: Seq<char>,
) -> Option<Seq<Seq<char>>> {
    match parse_error_id(id) {
        Some(n) => if n < registry.len() {
            Some(registry[n as int])
        } else {
            None
        },
        None => None,
    }
}

/// An identifier names exactly one number, and each number has exactly one
/// identifier.
pub proof fn lemma_error_id_roundtrip(s: Seq<char>, n: nat)
    ensures
        parse_error_id(s) == Some(n) <==> s == error_id_text(n),
{
    lemma_decimal_text(n);
    let t = error_id_text(n);
    assert(t.take(4) =~= error_id_prefix());
    assert(t.skip(4) =~= decimal_text(n));
    if parse_error_id(s) == Some(n) {
        let digits = s.skip(4);
        lemma_canonical_digits(digits);
        assert(s =~= s.take(4) + digits);
    }
}

/// Registry of reported errors. The `n`-th error registered is kept under
/// the identifier `ERR_<n>`.
#[derive(Debug, Default)]
pub struct ErrorRegistry {
    errors: Vec<Vec<String>>,
}

impl View for ErrorRegistry {
    /// For each identifier number, the messages registered under it.
    type V = Seq<Seq<Seq<char>>>;

    closed spec fn view(&self) -> Seq<Seq<Seq<char>>> {
        self.errors@.map_values(|v: Vec<String>| v@.map_values(|s: String| s@))
    }
}

/// The identifier text `ERR_<n>`.
fn error_id(n: usize) -> (r: String)
    ensures
        r@ == error_id_text(n as nat),
{
    let mut r = String::new();
    let prefix = "ERR_";
    proof {
        reveal_strlit("ERR_");
    }
    r.append(prefix);
    crate::text::append_decimal(&mut r, n as u64);
    r
}

impl ErrorRegistry {
    /// An empty registry.
    pub fn new() -> (r: Self)
        ensures
            r@ == Seq::<Seq<Seq<char>>>::empty(),
    {
        let r = Self { errors: Vec::new() };
        assert(r@ =~= Seq::<Seq<Seq<char>>>::empty());
        r
    }

    /// Registers an error message under a fresh identifier and returns it.
    /// The identifier is `ERR_<n>`, where `n` is the number of errors
    /// registered before.
    pub fn register_error(&mut self, error: &str) -> (r: String)
        ensures
            r@ == error_id_text(old(self)@.len()),
            final(self)@ == old(self)@.push(seq![error@]),
    {
        let n = self.errors.len();
        let id = error_id(n);
        let mut messages: Vec<String> = Vec::new();
        messages.push(String::from_str(error));
        assert(messages@.map_values(|s: String| s@) =~= seq![error@]);
        self.errors.push(messages);
        assert(self@ =~= old(self)@.push(seq![error@]));
        id
    }

    /// The messages registered under `error_id`, if it names a registered
    /// error.
    pub fn get_errors(&self, error_id: &str) -> (r: Option<&Vec<String>>)
        ensures
            match r {
                Some(v) => lookup_error(self@, error_id@) == Some(v@.map_values(|s: String| s@)),
                None => lookup_error(self@, error_id@) is None,
            },
    {
        let s = chars_of(error_id);
        if s.len() <= 4 {
            return None;
        }
        if !(s[0] == 'E' && s[1] == 'R' && s[2] == 'R' && s[3] == '_') {
            assert(s@.take(4) != error_id_prefix()) by {
                if s@.take(4) == error_id_prefix() {
                    assert(s@.take(4)[0] == 'E' && s@.take(4)[1] == 'R' && s@.take(4)[2] == 'R'
                        && s@.take(4)[3] == '_');
                }
            }
            return None;
        }
        assert(s@.take(4) =~= error_id_prefix());
        let mut digits: Vec<char> = Vec::new();
        let mut i: usize = 4;
        while i < s.len()
            invariant
                4 <= i <= s@.len(),
                digits@ == s@.subrange(4, i as int),
            decreases s.len() - i,
        {
            digits.push(s[i]);
            assert(s@.subrange(4, i + 1) =~= s@.subrange(4, i as int).push(s@[i as int]));
            i = i + 1;
        }
        assert(digits@ =~= s@.skip(4));
        if !('0' <= digits[0] && digits[0] <= '9') {
            assert(!all_digits(digits@));
            return None;
        }
        if digits.len() > 1 && digits[0] == '0' {
            return None;
        }
        assert(digits@.len() > 0 && digits@[0] != '+');
        match parse_unsigned_chars(&digits, u64::MAX) {
            Some(v) => {
                assert(all_digits(digits@));
                assert(parse_error_id(error_id@) == Some(v as nat));
                if v < self.errors.len() as u64 {
                    let r = &self.errors[v as usize];
                    assert(self@.len() == self.errors@.len());
                    assert(self@[v as int] == r@.map_values(|s: String| s@));
                    Some(r)
                } else {
                    assert(self@.len() == self.errors@.len());
                    None
                }
            },
            None => {
                assert(!all_digits(digits@) || decimal_value(digits@) > u64::MAX);
                assert(self@.len() == self.errors@.len());
                let count = self.errors.len();
                assert(count == self.errors@.len());
                proof {
                    if all_digits(digits@) {
                        assert(parse_error_id(error_id@) == Some(decimal_value(digits@)));
                    }
                }
                assert(lookup_error(self@, error_id@) is None);
                None
            },
        }
    }
}

// ---------------------------------------------------------------------------
// Laws
// ---------------------------------------------------------------------------

/// Distinct errors get distinct identifiers.
pub proof fn law_error_ids_distinct(m: nat, n: nat)
    requires
        m != n,
    ensures
        error_id_text(m) != error_id_text(n),
{
    lemma_error_id_roundtrip(error_id_text(m), m);
    lemma_error_id_roundtrip(error_id_text(m), n);
}

/// The identifier that registering returns was not in use before.
pub proof fn law_register_id_is_fresh(before: Seq<Seq<Seq<char>>>)
    ensures
        lookup_error(before, error_id_text(before.len())) is None,
{
    lemma_error_id_roundtrip(error_id_text(before.len()), before.len());
}

/// Looking up the identifier that registering returned gives back exactly
/// the registered message.
pub proof fn law_lookup_after_register(before: Seq<Seq<Seq<char>>>, message: Seq<char>)
    ensures
        lookup_error(before.push(seq![message]), error_id_text(before.len())) == Some(
            seq![message],
        ),
{
    lemma_error_id_roundtrip(error_id_text(before.len()), before.len());
}

/// Registering an error leaves the answer for every other identifier as it
/// was.
pub proof fn law_register_keeps_others(
    before: Seq<Seq<Seq<char>>>,
    message: Seq<char>,
    id: Seq<char>,
)
    requires
        id != error_id_text(before.len()),
    ensures
        lookup_error(before.push(seq![message]), id) == lookup_error(before, id),
{
    match parse_error_id(id) {
        Some(n) => {
            lemma_error_id_roundtrip(id, n);
            lemma_error_id_roundtrip(id, before.len());
        },
        None => {},
    }
}

} // verus!
