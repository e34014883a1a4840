//! The meta-variables: the request metadata that the web server passes to a
//! CGI programme in its environment.

use crate::bytes::decimal;
use vstd::prelude::*;
use vstd::string::*;
use vstd::utf8::encode_utf8;

verus! {

/// Meta-variables as a list of name and value pairs.
pub type Pairs = Seq<(Seq<char>, Seq<char>)>;

/// The value that `env` holds under `name`, if it holds one.
pub open spec fn lookup(env: Pairs, name: Seq<char>) -> Option<Seq<char>>
    decreases env.len(),
{
    if env.len() == 0 {
        None
    } else if env.first().0 == name {
        Some(env.first().1)
    } else {
        lookup(env.drop_first(), name)
    }
}

/// `env` after `value` has been stored under `name`: in the place of the old
/// value where the name was there before, at the end where it was not.
pub open spec fn stored(env: Pairs, name: Seq<char>, value: Seq<char>) -> Pairs
    decreases env.len(),
{
    if env.len() == 0 {
        seq![(name, value)]
    } else if env.first().0 == name {
        seq![(name, value)] + env.drop_first()
    } else {
        seq![env.first()] + stored(env.drop_first(), name, value)
    }
}

/// No name occurs twice.
pub open spec fn distinct_names(env: Pairs) -> bool {
    forall|i: int, j: int| 0 <= i < j < env.len() ==> env[i].0 != env[j].0
}

/// The number that a run of decimal digits denotes; `None` for the empty
/// string and for anything that holds another byte.
pub open spec fn digits_value(s: Seq<u8>) -> Option<nat>
    decreases s.len(),
{
    if s.len() == 0 || !(0x30 <= s.last() <= 0x39) {
        None
    } else if s.len() == 1 {
        Some((s.last() - 0x30) as nat)
    } else {
        match digits_value(s.drop_last()) {
            Some(v) => Some(v * 10 + (s.last() - 0x30) as nat),
            None => None,
        }
    }
}

/// The number that `s` denotes as an unsigned decimal: digits, with one `+`
/// allowed in front of them.
pub open spec fn unsigned_value(s: Seq<u8>) -> Option<nat> {
    if s.len() > 0 && s.first() == 0x2b {
        digits_value(s.drop_first())
    } else {
        digits_value(s)
    }
}

/// The number of body bytes that the meta-variables announce: what
/// `CONTENT_LENGTH` denotes, and 0 where it is absent, is no unsigned decimal
/// or does not fit the machine's `usize`.
pub open spec fn declared_length(env: Pairs) -> nat {
    match lookup(env, "CONTENT_LENGTH"@) {
        Some(v) => match unsigned_value(encode_utf8(v)) {
            Some(n) => if n <= usize::MAX { n } else { 0 },
            None => 0,
        },
        None => 0,
    }
}

/// The meta-variables of one request. Each name occurs once; the order is
/// that in which the names were first stored.
#[derive(Debug)]
pub struct MetaVariables {
    entries: Vec<(String, String)>,
}

impl View for MetaVariables {
    type V = Pairs;

    closed spec fn view(&self) -> Pairs {
        pairs_of(self.entries@)
    }
}

/// The names and values of stored entries, as plain text.
spec fn pairs_of(entries: Seq<(String, String)>) -> Pairs {
    Seq::new(entries.len(), |i: int| (entries[i].0@, entries[i].1@))
}

impl MetaVariables {
    #[verifier::type_invariant]
    spec fn well_formed(self) -> bool {
        distinct_names(self@)
    }

    /// No meta-variables at all.
    pub fn new() -> (r: MetaVariables)
        ensures
            r@ == Pairs::empty(),
    {
        let r = MetaVariables { entries: Vec::new() };
        assert(r@ =~= Pairs::empty());
        r
    }

    /// How many meta-variables there are.
    pub fn len(&self) -> (n: usize)
        ensures
            n == self@.len(),
            distinct_names(self@),
    {
        proof {
            use_type_invariant(self);
        }
        self.entries.len()
    }

    /// The name of the `i`-th meta-variable.
    pub fn name(&self, i: usize) -> (r: &str)
        requires
            i < self@.len(),
        ensures
            r@ == self@[i as int].0,
    {
        self.entries[i].0.as_str()
    }

    /// The value of the `i`-th meta-variable.
    pub fn value(&self, i: usize) -> (r: &str)
        requires
            i < self@.len(),
        ensures
            r@ == self@[i as int].1,
    {
        self.entries[i].1.as_str()
    }

    /// The place of `name` among the entries, if it is there.
    fn position(&self, name: &str) -> (r: Option<usize>)
        ensures
            match r {
                Some(i) => i < self@.len() && self@[i as int].0 == name@ && lookup(self@, name@)
                    == Some(self@[i as int].1) && forall|k: int|
                    0 <= k < i ==> self@[k].0 != name@,
                None => lookup(self@, name@).is_none() && forall|k: int|
                    0 <= k < self@.len() ==> self@[k].0 != name@,
            },
    {
        let key = name.to_owned();
        let mut i: usize = 0;
        assert(self@.skip(0) =~= self@);
        while i < self.entries.len()
            invariant
                i <= self@.len(),
                self@.len() == self.entries@.len(),
                key@ == name@,
                lookup(self@, name@) == lookup(self@.skip(i as int), name@),
                forall|k: int| 0 <= k < i ==> self@[k].0 != name@,
            decreases self.entries.len() - i,
        {
            if self.entries[i].0 == key {
                return Some(i);
            }
            assert(self@.skip(i as int).drop_first() =~= self@.skip(i + 1));
            i += 1;
        }
        None
    }

    /// The value stored under `name`.
    pub fn get(&self, name: &str) -> (r: Option<&str>)
        ensures
            match r {
                Some(v) => lookup(self@, name@) == Some(v@),
                None => lookup(self@, name@).is_none(),
            },
    {
        match self.position(name) {
            Some(i) => Some(self.entries[i].1.as_str()),
            None => None,
        }
    }

    /// Stores `value` under `name`, in the place of the value that was there
    /// before, if any.
    pub fn insert(&mut self, name: &str, value: &str)
        ensures
            final(self)@ == stored(old(self)@, name@, value@),
    {
        proof {
            use_type_invariant(&*self);
        }
        let found = self.position(name);
        let ghost before = self@;
        let mut entries: Vec<(String, String)> = Vec::new();
        core::mem::swap(&mut self.entries, &mut entries);
        match found {
            Some(i) => {
                entries.set(i, (name.to_owned(), value.to_owned()));
                proof {
                    assert(pairs_of(entries@) =~= before.update(i as int, (name@, value@)));
                    lemma_stored_at(before, name@, value@, i as int);
                }
                self.entries = entries;
            },
            None => {
                entries.push((name.to_owned(), value.to_owned()));
                proof {
                    assert(pairs_of(entries@) =~= before.push((name@, value@)));
                    lemma_stored_new(before, name@, value@);
                }
                self.entries = entries;
            },
        }
    }
}

/// The digits of a number include the digits of a smaller one: every
/// non-empty prefix of a run of digits is a run of digits, and denotes no more
/// than the whole.
proof fn lemma_digits_prefix(s: Seq<u8>, k: int)
    requires
        0 < k <= s.len(),
        digits_value(s) is Some,
    ensures
        digits_value(s.take(k)) is Some,
        digits_value(s.take(k))->0 <= digits_value(s)->0,
    decreases s.len(),
{
    if k == s.len() {
        assert(s.take(k) =~= s);
    } else {
        assert(s.drop_last().take(k) =~= s.take(k));
        lemma_digits_prefix(s.drop_last(), k);
    }
}

/// Reads an unsigned decimal that fits a `usize`.
fn parse_unsigned(s: &[u8]) -> (r: Option<usize>)
    ensures
        match r {
            Some(n) => unsigned_value(s@) == Some(n as nat),
            None => match unsigned_value(s@) {
                Some(v) => v > usize::MAX,
                None => true,
            },
        },
{
    let start: usize = if s.len() > 0 && s[0] == 0x2b {
        1
    } else {
        0
    };
    let ghost digits = s@.skip(start as int);
    assert(unsigned_value(s@) == digits_value(digits)) by {
        if start == 1 {
            assert(s@.drop_first() =~= digits);
        } else {
            assert(s@ =~= digits);
        }
    }
    if start == s.len() {
        return None;
    }
    let mut acc: usize = 0;
    let mut i: usize = start;
    while i < s.len()
        invariant
            start <= i <= s.len(),
            digits == s@.skip(start as int),
            unsigned_value(s@) == digits_value(digits),
            i == start ==> acc == 0,
            i > start ==> digits_value(digits.take(i - start)) == Some(acc as nat),
        decreases s.len() - i,
    {
        let b = s[i];
        let ghost next = digits.take(i + 1 - start);
        assert(next.last() == b);
        assert(next.drop_last() =~= digits.take(i - start));
        if b < 0x30 || b > 0x39 {
            proof {
                if digits_value(digits) is Some {
                    lemma_digits_prefix(digits, i + 1 - start);
                }
            }
            return None;
        }
        let d: usize = (b - 0x30) as usize;
        let grown = match acc.checked_mul(10) {
            Some(m) => m.checked_add(d),
            None => None,
        };
        match grown {
            Some(v) => {
                acc = v;
            },
            None => {
                proof {
                    assert(digits_value(next) == Some((acc * 10 + d) as nat));
                    if digits_value(digits) is Some {
                        lemma_digits_prefix(digits, i + 1 - start);
                    }
                }
                return None;
            },
        }
        i += 1;
    }
    assert(digits.take(i - start) =~= digits);
    Some(acc)
}

/// The number of body bytes to read for this request: what `CONTENT_LENGTH`
/// says, and 0 where it is absent or cannot be read as a `usize`.
pub fn content_length(env: &MetaVariables) -> (n: usize)
    ensures
        n == declared_length(env@),
{
    match env.get("CONTENT_LENGTH") {
        Some(v) => match parse_unsigned(v.as_bytes()) {
            Some(n) => n,
            None => 0,
        },
        None => 0,
    }
}

/// No body is announced where `CONTENT_LENGTH` is not set, is empty or is
/// `0`: the length to read is then 0.
pub proof fn lemma_nothing_declared(env: Pairs)
    requires
        lookup(env, "CONTENT_LENGTH"@).is_none() || lookup(env, "CONTENT_LENGTH"@) == Some(
            Seq::<char>::empty(),
        ) || lookup(env, "CONTENT_LENGTH"@) == Some("0"@),
    ensures
        declared_length(env) == 0,
{
    reveal_strlit("0");
    vstd::string::is_ascii_spec_bytes("0");
    assert(encode_utf8(Seq::<char>::empty()) =~= Seq::<u8>::empty()) by {
        reveal_with_fuel(encode_utf8, 1);
    }
    assert("0".spec_bytes() =~= seq![0x30u8]);
}

/// A number written in decimal begins with a digit.
proof fn lemma_decimal_begins_with_digit(n: nat)
    ensures
        decimal(n).len() > 0,
        0x30 <= decimal(n).first() <= 0x39,
    decreases n,
{
    if n >= 10 {
        lemma_decimal_begins_with_digit(n / 10);
    }
}

/// A length written in decimal reads back as itself: what a response
/// announces as the length of its body is what the request side reads from
/// `CONTENT_LENGTH`.
pub proof fn lemma_decimal_reads_back(n: nat)
    ensures
        unsigned_value(decimal(n)) == Some(n),
    decreases n,
{
    lemma_decimal_begins_with_digit(n);
    if n >= 10 {
        lemma_decimal_reads_back(n / 10);
        lemma_decimal_begins_with_digit(n / 10);
        assert(decimal(n).drop_last() =~= decimal(n / 10));
    }
}

/// Storing under a name that is there replaces the value at its first place.
proof fn lemma_stored_at(env: Pairs, name: Seq<char>, value: Seq<char>, i: int)
    requires
        0 <= i < env.len(),
        env[i].0 == name,
        forall|k: int| 0 <= k < i ==> env[k].0 != name,
    ensures
        stored(env, name, value) == env.update(i, (name, value)),
    decreases i,
{
    if i == 0 {
        assert(seq![(name, value)] + env.drop_first() =~= env.update(0, (name, value)));
    } else {
        let rest = env.drop_first();
        assert forall|k: int| 0 <= k < i - 1 implies rest[k].0 != name by {
            assert(rest[k] == env[k + 1]);
        }
        lemma_stored_at(rest, name, value, i - 1);
        assert(seq![env.first()] + rest.update(i - 1, (name, value)) =~= env.update(
            i,
            (name, value),
        ));
    }
}

/// Storing under a name that is not there adds the pair at the end.
proof fn lemma_stored_new(env: Pairs, name: Seq<char>, value: Seq<char>)
    requires
        forall|k: int| 0 <= k < env.len() ==> env[k].0 != name,
    ensures
        stored(env, name, value) == env.push((name, value)),
    decreases env.len(),
{
    if env.len() == 0 {
        assert(seq![(name, value)] =~= env.push((name, value)));
    } else {
        let rest = env.drop_first();
        assert forall|k: int| 0 <= k < rest.len() implies rest[k].0 != name by {
            assert(rest[k] == env[k + 1]);
        }
        lemma_stored_new(rest, name, value);
        assert(seq![env.first()] + rest.push((name, value)) =~= env.push((name, value)));
    }
}

} // verus!
